use aster_mc::com::AsError;
use aster_mc::mc::{BackCodec, Cmd, CmdArena, Command, FrontCodec};
use bytes::BytesMut;
use futures::Future;

fn buf(b: &[u8]) -> BytesMut {
    BytesMut::from(b)
}

fn decode(arena: &mut CmdArena, bytes: &[u8]) -> Cmd {
    let mut b = buf(bytes);
    let mut fc = FrontCodec::default();
    fc.decode(arena, &mut b).unwrap().unwrap()
}

fn parse_one(bytes: &[u8]) -> aster_mc::msg::Message {
    let mut b = buf(bytes);
    let mut bc = BackCodec::default();
    bc.decode(&mut b).unwrap().unwrap()
}

#[test]
fn split_expectation_is_subs_plus_one() {
    let mut arena = CmdArena::new();
    let c = decode(&mut arena, b"get a b\r\n");
    assert_eq!(arena.subs(c).unwrap().len(), 2);
    assert_eq!(arena.expectation(c), 3);
    let c = decode(&mut arena, b"get a b c d e\r\n");
    assert_eq!(arena.subs(c).unwrap().len(), 5);
    assert_eq!(arena.expectation(c), 6);
}

#[test]
fn wakeup_fires_exactly_at_last_release() {
    let mut arena = CmdArena::new();
    let c = decode(&mut arena, b"get k1 k2 k3\r\n");
    let subs = arena.subs(c).unwrap();
    // release the four handles; only the last release fires, never earlier
    assert_eq!(arena.live_count(c), 4);
    assert_eq!(arena.release(subs[1]), 4);
    assert_eq!(arena.live_count(c), 3);
    assert!(!arena.has_fired(c));
    assert_eq!(arena.release(c), 3);
    assert!(!arena.has_fired(c));
    assert_eq!(arena.release(subs[2]), 2);
    assert!(!arena.has_fired(c));
    assert_eq!(arena.release(subs[0]), 1);
    assert!(arena.has_fired(c));
}

#[test]
fn wakeup_fires_once_in_another_permutation() {
    let mut arena = CmdArena::new();
    let c = decode(&mut arena, b"get k1 k2\r\n");
    let subs = arena.subs(c).unwrap();
    assert_eq!(arena.release(c), 3);
    assert!(!arena.has_fired(c));
    assert_eq!(arena.release(subs[1]), 2);
    assert!(!arena.has_fired(c));
    assert_eq!(arena.release(subs[0]), 1);
    assert!(arena.has_fired(c));
}

#[test]
fn leaf_fires_on_its_single_release() {
    let mut arena = CmdArena::new();
    let c = decode(&mut arena, b"set k v\r\n");
    assert_eq!(arena.expectation(c), 1);
    assert!(!arena.has_fired(c));
    assert_eq!(arena.release(c), 1);
    assert!(arena.has_fired(c));
}

#[test]
fn ping_request_never_fires() {
    let mut arena = CmdArena::new();
    let c = Cmd::ping_request(&mut arena);
    assert_eq!(arena.expectation(c), 0);
    assert!(arena.subs(c).is_none());
    assert!(!arena.is_done(c));
    assert_eq!(arena.release(c), 1);
    assert!(!arena.has_fired(c));
}

#[test]
fn ping_request_with_registered_waiter_stays_silent() {
    futures::future::lazy(|| -> Result<(), ()> {
        let t = futures::task::current();
        let mut arena = CmdArena::new();
        let c = Cmd::ping_request(&mut arena);
        arena.reregister(c, t);
        arena.release(c);
        assert!(!arena.has_fired(c));
        Ok(())
    })
    .wait()
    .unwrap();
}

#[test]
fn registered_waiter_is_woken_on_completion() {
    futures::future::lazy(|| -> Result<(), ()> {
        let t = futures::task::current();
        let mut arena = CmdArena::new();
        let c = decode(&mut arena, b"get a\r\n");
        arena.reregister(c, t);
        arena.set_reply(c, parse_one(b"VALUE a x\r\n"));
        arena.release(c);
        assert!(arena.has_fired(c));
        Ok(())
    })
    .wait()
    .unwrap();
}

#[test]
fn retry_budget_is_eight_cycles() {
    let mut arena = CmdArena::new();
    let c = decode(&mut arena, b"get a\r\n");
    for _ in 0..8 {
        assert!(arena.can_cycle(c));
        arena.add_cycle(c);
    }
    assert!(!arena.can_cycle(c));
    arena.add_cycle(c);
    assert!(!arena.can_cycle(c));
}

#[test]
fn record_cycle_budget_exhausts() {
    let mut r = Command::new(parse_one(b"get a\r\n"));
    for i in 0..8 {
        assert!(r.can_cycle(), "cycle {} should still be retryable", i);
        r.add_cycle();
    }
    assert!(!r.can_cycle());
}

#[test]
fn record_status_facts_accumulate() {
    let mut r = Command::new(parse_one(b"get a\r\n"));
    assert!(!r.is_done());
    assert!(!r.is_error());
    r.set_reply(parse_one(b"VALUE a x\r\n"));
    // storing a reply alone does not complete the record
    assert!(!r.is_done());
    r.set_done();
    assert!(r.is_done());
    assert!(!r.is_error());
    r.set_error();
    assert!(r.is_done());
    assert!(r.is_error());
}

#[test]
fn split_completion_is_and_of_subs() {
    let mut arena = CmdArena::new();
    let c = decode(&mut arena, b"get a b\r\n");
    let subs = arena.subs(c).unwrap();
    // the parent's own status bit is not authoritative for a split
    arena.set_reply(c, parse_one(b"VALUE a x\r\n"));
    assert!(!arena.is_done(c));
    arena.set_reply(subs[0], parse_one(b"VALUE a x\r\n"));
    assert!(!arena.is_done(c));
    arena.set_reply(subs[1], parse_one(b"VALUE b y\r\n"));
    assert!(arena.is_done(c));
}

#[test]
fn handles_stay_valid_for_dispatch() {
    let mut arena = CmdArena::new();
    let c = decode(&mut arena, b"get a\r\n");
    assert!(arena.valid(c));
    let _ = AsError::BadMessage;
}
