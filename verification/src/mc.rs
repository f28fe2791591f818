//! Command records, handles and the two framers. Records live in an arena
//! and are named by stable handle identifiers; many handles may share one
//! record and one completion notifier, and mutation goes through the arena,
//! one task at a time.

use crate::buf::buf_view;
use crate::com::AsError;
use crate::msg::{
    error_line, key_of, msg_wf, sub_count, sub_keys, sub_msg_ok, sub_unit, unit_wf, version_line,
    crlf_pos, end_frame, Message, MsgView,
};
use crate::notify::{note_release, Notify, NotifyV};
use crate::utils::{trim_hash_tag, trim_hash_tag_spec};
use bytes::BytesMut;
use futures::task::Task;
use vstd::prelude::*;

verus! {

/// A retry cycle below this maximum may be re-dispatched.
pub const MAX_CYCLE: u8 = 8;

/// Routing-relevant category of a request.
#[derive(Clone, Copy, Debug, PartialEq, Eq)]
pub enum CmdType {
    Read,
    Write,
    Ctrl,
    NotSupport,
}

/// Stable identifier of one command record in a `CmdArena`: the handle the
/// routing and dispatch layers pass around. Copies of a handle share the
/// record and its notifier.
#[derive(Clone, Copy, Debug, PartialEq, Eq, Structural)]
pub struct Cmd {
    pub id: usize,
}

/// Abstract state of one command record.
#[verifier::ext_equal]
pub ghost struct CmdV {
    pub ctype: CmdType,
    pub done: bool,
    pub error: bool,
    pub cycle: u8,
    pub req: MsgView,
    pub reply: Option<MsgView>,
    pub subs: Option<Seq<Cmd>>,
}

/// Mutable per-request state: classification, status facts, retry cycle,
/// original request, reply slot, and the ordered sub-handles of a split.
pub struct Command {
    ctype: CmdType,
    done: bool,
    error: bool,
    cycle: u8,
    req: Message,
    reply: Option<Message>,
    subs: Option<Vec<Cmd>>,
}

impl View for Command {
    type V = CmdV;

    closed spec fn view(&self) -> CmdV {
        CmdV {
            ctype: self.ctype,
            done: self.done,
            error: self.error,
            cycle: self.cycle,
            req: self.req@,
            reply: match self.reply {
                Some(m) => Some(m@),
                None => None,
            },
            subs: match self.subs {
                Some(v) => Some(v@),
                None => None,
            },
        }
    }
}

/// The cycle value after `j` advances, each adding one.
pub open spec fn iter_adv(c: u8, j: nat) -> int
    decreases j,
{
    if j == 0 {
        c as int
    } else {
        iter_adv(c, (j - 1) as nat) + 1
    }
}

/// Retry-budget law: on a fresh record the cycle counts the advances made,
/// so retry stays allowed through the first `MAX_CYCLE` attempts and is
/// disabled from the `MAX_CYCLE`-th advance on, without erroring.
pub proof fn lemma_retry_budget(j: nat)
    ensures
        iter_adv(0, j) == j,
        (iter_adv(0, j) < MAX_CYCLE) <==> j < MAX_CYCLE,
    decreases j,
{
    if j > 0 {
        lemma_retry_budget((j - 1) as nat);
    }
}

impl Command {
    /// Fresh record for one request unit: Read class, clear status, zero
    /// retry cycle, no reply, no subs.
    pub fn new(req: Message) -> (c: Command)
        ensures
            c@ == (CmdV {
                ctype: CmdType::Read,
                done: false,
                error: false,
                cycle: 0,
                req: req@,
                reply: None,
                subs: None,
            }),
    {
        Command {
            ctype: CmdType::Read,
            done: false,
            error: false,
            cycle: 0,
            req,
            reply: None,
            subs: None,
        }
    }

    /// Whether the Completed fact has been set on this record.
    pub fn is_done(&self) -> (r: bool)
        ensures
            r == self@.done,
    {
        self.done
    }

    /// Whether the Failed fact has been set on this record.
    pub fn is_error(&self) -> (r: bool)
        ensures
            r == self@.error,
    {
        self.error
    }

    /// Advisory: true while the retry cycle is below the fixed maximum.
    pub fn can_cycle(&self) -> (r: bool)
        ensures
            r == (self@.cycle < MAX_CYCLE),
    {
        self.cycle < MAX_CYCLE
    }

    /// Increments the retry cycle unconditionally; callers check `can_cycle`
    /// first, and exceeding the maximum merely disables further retries
    /// without erroring. Only the counter's machine limit is excluded.
    pub fn add_cycle(&mut self)
        requires
            old(self)@.cycle < u8::MAX,
        ensures
            final(self)@ == (CmdV {
                cycle: (old(self)@.cycle + 1) as u8,
                ..old(self)@
            }),
    {
        self.cycle = self.cycle + 1;
    }

    /// Stores the reply into the record's reply slot.
    pub fn set_reply(&mut self, reply: Message)
        ensures
            final(self)@ == (CmdV { reply: Some(reply@), ..old(self)@ }),
    {
        self.reply = Some(reply);
    }

    /// Sets the Completed fact; once set it is never cleared.
    pub fn set_done(&mut self)
        ensures
            final(self)@ == (CmdV { done: true, ..old(self)@ }),
    {
        self.done = true;
    }

    /// Sets the Failed fact; once set it is never cleared.
    pub fn set_error(&mut self)
        ensures
            final(self)@ == (CmdV { error: true, ..old(self)@ }),
    {
        self.error = true;
    }
}

/// Abstract state of a whole arena: the record states, each record's
/// notifier index, and the notifier states.
#[verifier::ext_equal]
pub ghost struct ArenaV {
    pub recs: Seq<CmdV>,
    pub rnote: Seq<usize>,
    pub notes: Seq<NotifyV>,
}

/// Arena of command records, indexed by the stable identifiers inside `Cmd`
/// handles, with the completion notifiers they share.
pub struct CmdArena {
    records: Vec<Command>,
    rec_note: Vec<usize>,
    notes: Vec<Notify>,
}

impl View for CmdArena {
    type V = ArenaV;

    closed spec fn view(&self) -> ArenaV {
        ArenaV {
            recs: self.records@.map(|i: int, r: Command| r@),
            rnote: self.rec_note@,
            notes: self.notes@.map(|i: int, n: Notify| n@),
        }
    }
}

/// The record a handle names.
pub open spec fn rec(a: ArenaV, c: Cmd) -> CmdV {
    a.recs[c.id as int]
}

/// The notifier index a handle's record shares.
pub open spec fn note_id(a: ArenaV, c: Cmd) -> int {
    a.rnote[c.id as int] as int
}

/// A sub-handle of record `parent` is in range, is a leaf, and shares the
/// parent's notifier.
pub open spec fn sub_ok(a: ArenaV, parent: int, c: Cmd) -> bool {
    &&& c.id < a.recs.len()
    &&& a.recs[c.id as int].subs is None
    &&& a.rnote[c.id as int] == a.rnote[parent]
}

pub open spec fn rec_wf(a: ArenaV, i: int) -> bool {
    let r = a.recs[i];
    &&& (a.rnote[i] as int) < a.notes.len()
    &&& msg_wf(r.req)
    &&& (r.reply matches Some(m) ==> msg_wf(m))
    &&& (r.done ==> r.reply is Some)
    &&& (r.subs matches Some(s) ==> s.len() >= 2 && forall|j: int|
        0 <= j < s.len() ==> #[trigger] sub_ok(a, i, s[j]))
}

/// Arena invariant: every record is well formed. In particular a Completed
/// record always carries a reply, and the subs of a split record are leaves
/// sharing the parent's notifier.
pub open spec fn arena_wf(a: ArenaV) -> bool {
    &&& a.rnote.len() == a.recs.len()
    &&& forall|i: int| 0 <= i < a.recs.len() ==> #[trigger] rec_wf(a, i)
}

/// Completion of a handle: a leaf is complete when its Completed fact is
/// set; a split handle is complete exactly when every sub-handle is,
/// regardless of its own status bits.
pub open spec fn spec_is_done(a: ArenaV, c: Cmd) -> bool {
    match rec(a, c).subs {
        Some(s) => forall|j: int| 0 <= j < s.len() ==> #[trigger] a.recs[s[j].id as int].done,
        None => rec(a, c).done,
    }
}

/// The stored reply bytes of a handle's record.
pub open spec fn reply_data(a: ArenaV, c: Cmd) -> Seq<u8> {
    match rec(a, c).reply {
        Some(m) => m.data,
        None => Seq::<u8>::empty(),
    }
}

/// The reply bytes of the sub-handles from position `i` on, in construction
/// order.
pub open spec fn sub_frames(a: ArenaV, s: Seq<Cmd>, i: int) -> Seq<u8>
    decreases s.len() - i,
{
    if i < 0 || i >= s.len() {
        Seq::<u8>::empty()
    } else {
        reply_data(a, s[i]) + sub_frames(a, s, i + 1)
    }
}

/// The client-visible frame of a completed handle: the sub-replies in
/// original order followed by the terminator frame for a split, the single
/// stored reply for a leaf.
pub open spec fn client_frame(a: ArenaV, c: Cmd) -> Seq<u8> {
    match rec(a, c).subs {
        Some(s) => sub_frames(a, s, 0) + end_frame(),
        None => reply_data(a, c),
    }
}

/// The record of one fresh sub-request.
pub open spec fn sub_rec(key: Seq<u8>) -> CmdV {
    CmdV {
        ctype: CmdType::Read,
        done: false,
        error: false,
        cycle: 0,
        req: MsgView { data: sub_unit(key), key: key },
        reply: None,
        subs: None,
    }
}

/// The record of a fresh parent whose `k` subs sit at `n0 .. n0 + k`.
pub open spec fn parent_rec(m: MsgView, n0: int, k: int) -> CmdV {
    CmdV {
        ctype: CmdType::Read,
        done: false,
        error: false,
        cycle: 0,
        req: m,
        reply: None,
        subs: if k == 0 {
            None
        } else {
            Some(Seq::new(k as nat, |j: int| Cmd { id: (n0 + j) as usize }))
        },
    }
}

/// What decoding one unit `m` does to the arena: one notifier armed with
/// expectation 1 + k, one fresh record per sub-unit, then the parent record,
/// whose handle is returned. For a request decomposed into k sub-units the
/// handle has exactly k sub-handles and the notifier expects k + 1 releases.
pub open spec fn split_result(a0: ArenaV, a1: ArenaV, c: Cmd, m: MsgView) -> bool {
    let k = sub_count(m.data);
    let n0 = a0.recs.len() as int;
    &&& a1.notes == a0.notes.push(
        NotifyV { expect: 1 + k, live: 1 + k, fired: false, task: None },
    )
    &&& a1.rnote == a0.rnote + Seq::new((k + 1) as nat, |j: int| a0.notes.len() as usize)
    &&& a1.recs.len() == n0 + k + 1
    &&& a1.recs.take(n0) == a0.recs
    &&& (forall|j: int| 0 <= j < k ==> a1.recs[n0 + j] == #[trigger] sub_rec(sub_keys(m.data)[j]))
    &&& a1.recs[n0 + k] == parent_rec(m, n0, k)
    &&& c.id == n0 + k
}

impl Cmd {
    /// Builds the handle set for one decoded unit: k fresh sub-records when
    /// the unit decomposes, the parent record, and one notifier armed with
    /// expectation 1 + k shared by them all.
    pub fn from_msg(arena: &mut CmdArena, msg: Message) -> (c: Cmd)
        requires
            arena_wf(old(arena)@),
            msg_wf(msg@),
        ensures
            arena_wf(final(arena)@),
            split_result(old(arena)@, final(arena)@, c, msg@),
    {
        let ghost a0 = arena@;
        let ghost d = msg@.data;
        let sub_msgs = msg.mk_subs();
        let ghost smss = sub_msgs@;
        let k = sub_msgs.len();
        proof {
            assert(k as int == sub_count(d));
        }
        let nid = arena.notes.len();
        let mut note = Notify::empty();
        note.set_expect(k + 1);
        arena.notes.push(note);
        proof {
            assert(arena@.notes =~~= a0.notes.push(
                NotifyV { expect: k as int + 1, live: k as int + 1, fired: false, task: None },
            ));
            assert(arena@.recs =~~= a0.recs + Seq::new(0, |x: int| sub_rec(sub_keys(d)[x])));
            assert(arena@.rnote =~~= a0.rnote + Seq::new(0, |x: int| nid));
        }
        let mut sm = sub_msgs;
        let mut subs: Vec<Cmd> = Vec::new();
        proof {
            assert(subs@ =~= Seq::new(0, |x: int| Cmd { id: (a0.recs.len() + x) as usize }));
            assert(sm@ =~= smss.skip(0));
        }
        while sm.len() > 0
            invariant
                arena@.notes == a0.notes.push(
                    NotifyV {
                        expect: k as int + 1,
                        live: k as int + 1,
                        fired: false,
                        task: None,
                    },
                ),
                arena@.rnote == a0.rnote + Seq::new(subs@.len(), |x: int| nid),
                arena@.recs == a0.recs + Seq::new(subs@.len(), |x: int| sub_rec(sub_keys(d)[x])),
                subs@.len() + sm@.len() == k,
                sm@ == smss.skip(subs@.len() as int),
                subs@ == Seq::new(subs@.len(), |x: int| Cmd { id: (a0.recs.len() + x) as usize }),
                k as int == sub_count(d),
                smss.len() == k,
                forall|x: int| 0 <= x < k ==> sub_msg_ok(d, (#[trigger] smss[x])@, x),
                nid == a0.notes.len(),
            decreases sm@.len(),
        {
            let ghost j = subs@.len() as int;
            let m = sm.remove(0);
            proof {
                assert(m@ == (smss[j])@);
                assert(sm@ =~= smss.skip(j + 1));
                assert(sub_msg_ok(d, m@, j));
                assert(m@ =~= (MsgView { data: sub_unit(sub_keys(d)[j]), key: sub_keys(d)[j] }));
            }
            let rid = arena.records.len();
            let ghost prev_recs = arena@.recs;
            let cnew = Command::new(m);
            let ghost cv = cnew@;
            arena.records.push(cnew);
            arena.rec_note.push(nid);
            subs.push(Cmd { id: rid });
            proof {
                assert(cv =~~= sub_rec(sub_keys(d)[j]));
                assert(arena@.recs =~~= prev_recs.push(cv));
                assert(arena@.recs =~~= a0.recs + Seq::new(
                    (j + 1) as nat,
                    |x: int| sub_rec(sub_keys(d)[x]),
                ));
                assert(arena@.rnote =~~= a0.rnote + Seq::new((j + 1) as nat, |x: int| nid));
                assert(subs@ =~= Seq::new(
                    (j + 1) as nat,
                    |x: int| Cmd { id: (a0.recs.len() + x) as usize },
                ));
                assert(arena@.notes =~~= a0.notes.push(
                    NotifyV {
                        expect: k as int + 1,
                        live: k as int + 1,
                        fired: false,
                        task: None,
                    },
                ));
            }
        }
        let pid = arena.records.len();
        let parent = Command {
            ctype: CmdType::Read,
            done: false,
            error: false,
            cycle: 0,
            req: msg,
            reply: None,
            subs: if k == 0 {
                None
            } else {
                Some(subs)
            },
        };
        arena.records.push(parent);
        arena.rec_note.push(nid);
        let c = Cmd { id: pid };
        proof {
            let a1 = arena@;
            let n0 = a0.recs.len() as int;
            let ki = k as int;
            assert(a1.recs =~~= a0.recs + Seq::new(k as nat, |x: int| sub_rec(sub_keys(d)[x]))
                + seq![parent_rec(msg@, n0, ki)]);
            assert(a1.recs.take(n0) =~~= a0.recs);
            assert(a1.rnote =~~= a0.rnote + Seq::new((ki + 1) as nat, |x: int| nid));
            assert(a1.notes =~~= a0.notes.push(
                NotifyV { expect: 1 + ki, live: 1 + ki, fired: false, task: None },
            ));
            assert forall|i: int| 0 <= i < a1.recs.len() implies #[trigger] rec_wf(a1, i) by {
                if i < n0 {
                    assert(rec_wf(a0, i));
                    assert(a1.recs[i] == a0.recs[i]);
                    assert(a1.rnote[i] == a0.rnote[i]);
                    if a0.recs[i].subs is Some {
                        let s = a0.recs[i].subs.unwrap();
                        assert forall|x: int| 0 <= x < s.len() implies #[trigger] sub_ok(
                            a1,
                            i,
                            s[x],
                        ) by {
                            assert(sub_ok(a0, i, s[x]));
                            assert(a1.recs[s[x].id as int] == a0.recs[s[x].id as int]);
                        }
                    }
                } else if i < n0 + ki {
                    assert(a1.recs[i] == sub_rec(sub_keys(d)[i - n0]));
                    assert(sub_msg_ok(d, (smss[i - n0])@, i - n0));
                } else {
                    assert(a1.recs[i] == parent_rec(msg@, n0, ki));
                    if ki > 0 {
                        let s = Seq::new(k as nat, |x: int| Cmd { id: (n0 + x) as usize });
                        assert forall|x: int| 0 <= x < s.len() implies #[trigger] sub_ok(
                            a1,
                            i,
                            s[x],
                        ) by {
                            assert(a1.recs[n0 + x] == sub_rec(sub_keys(d)[x]));
                        }
                    }
                }
            }
            assert(split_result(a0, a1, c, msg@));
        }
        c
    }

    /// Synthetic health-check handle: a "version" request on an inert
    /// notifier — it never expects releases and never fires, since it has no
    /// external waiter, and it is never encoded toward a client.
    pub fn ping_request(arena: &mut CmdArena) -> (c: Cmd)
        requires
            arena_wf(old(arena)@),
        ensures
            arena_wf(final(arena)@),
            c.id == old(arena)@.recs.len(),
            final(arena)@.recs == old(arena)@.recs.push(
                CmdV {
                    ctype: CmdType::Read,
                    done: false,
                    error: false,
                    cycle: 0,
                    req: MsgView { data: version_line(), key: Seq::<u8>::empty() },
                    reply: None,
                    subs: None,
                },
            ),
            final(arena)@.rnote == old(arena)@.rnote.push(old(arena)@.notes.len() as usize),
            final(arena)@.notes == old(arena)@.notes.push(
                NotifyV { expect: 0, live: 1, fired: false, task: None },
            ),
    {
        let ghost a0 = arena@;
        let m = Message::version_request();
        proof {
            assert(m@ =~= (MsgView { data: version_line(), key: Seq::<u8>::empty() }));
        }
        let rid = arena.records.len();
        let nid = arena.notes.len();
        arena.notes.push(Notify::empty());
        arena.records.push(Command::new(m));
        arena.rec_note.push(nid);
        proof {
            let a1 = arena@;
            assert(a1.recs =~~= a0.recs.push(
                CmdV {
                    ctype: CmdType::Read,
                    done: false,
                    error: false,
                    cycle: 0,
                    req: MsgView { data: version_line(), key: Seq::<u8>::empty() },
                    reply: None,
                    subs: None,
                },
            ));
            assert(a1.rnote =~~= a0.rnote.push(nid));
            assert(a1.notes =~~= a0.notes.push(
                NotifyV { expect: 0, live: 1, fired: false, task: None },
            ));
            assert forall|i: int| 0 <= i < a1.recs.len() implies #[trigger] rec_wf(a1, i) by {
                if i < a0.recs.len() {
                    assert(rec_wf(a0, i));
                    assert(a1.recs[i] == a0.recs[i]);
                    if a0.recs[i].subs is Some {
                        let s = a0.recs[i].subs.unwrap();
                        assert forall|x: int| 0 <= x < s.len() implies #[trigger] sub_ok(
                            a1,
                            i,
                            s[x],
                        ) by {
                            assert(sub_ok(a0, i, s[x]));
                            assert(a1.recs[s[x].id as int] == a0.recs[s[x].id as int]);
                        }
                    }
                }
            }
        }
        Cmd { id: rid }
    }
}

impl CmdArena {
    /// Fresh arena with no records and no notifiers.
    pub fn new() -> (a: CmdArena)
        ensures
            a@.recs.len() == 0,
            a@.rnote.len() == 0,
            a@.notes.len() == 0,
            arena_wf(a@),
    {
        CmdArena { records: Vec::new(), rec_note: Vec::new(), notes: Vec::new() }
    }

    /// How many records the arena holds; handles with smaller identifiers
    /// are live.
    pub fn count(&self) -> (n: usize)
        ensures
            n == self@.recs.len(),
    {
        self.records.len()
    }

    /// Completion of a handle: recursive all-of over the sub-handles of a
    /// split, the record's own Completed fact for a leaf.
    pub fn is_done(&self, c: Cmd) -> (r: bool)
        requires
            arena_wf(self@),
            c.id < self@.recs.len(),
        ensures
            r == spec_is_done(self@, c),
    {
        proof {
            assert(rec_wf(self@, c.id as int));
        }
        match &self.records[c.id].subs {
            Some(v) => {
                let mut j: usize = 0;
                while j < v.len()
                    invariant
                        arena_wf(self@),
                        c.id < self@.recs.len(),
                        rec(self@, c).subs == Some(v@),
                        j <= v@.len(),
                        forall|x: int|
                            0 <= x < j ==> #[trigger] self@.recs[v@[x].id as int].done,
                    decreases v@.len() - j,
                {
                    proof {
                        assert(rec_wf(self@, c.id as int));
                        assert(sub_ok(self@, c.id as int, v@[j as int]));
                    }
                    if !self.records[v[j].id].is_done() {
                        return false;
                    }
                    j = j + 1;
                }
                true
            },
            None => self.records[c.id].is_done(),
        }
    }

    /// The record's Failed fact; non-recursive, set directly by `set_error`.
    pub fn is_error(&self, c: Cmd) -> (r: bool)
        requires
            arena_wf(self@),
            c.id < self@.recs.len(),
        ensures
            r == rec(self@, c).error,
    {
        self.records[c.id].is_error()
    }

    /// Advisory: whether the handle's retry cycle is below the maximum.
    pub fn can_cycle(&self, c: Cmd) -> (r: bool)
        requires
            arena_wf(self@),
            c.id < self@.recs.len(),
        ensures
            r == (rec(self@, c).cycle < MAX_CYCLE),
    {
        self.records[c.id].can_cycle()
    }

    /// Increments the handle's retry cycle unconditionally; callers check
    /// `can_cycle` first, and only the counter's machine limit is excluded.
    pub fn add_cycle(&mut self, c: Cmd)
        requires
            arena_wf(old(self)@),
            c.id < old(self)@.recs.len(),
            old(self)@.recs[c.id as int].cycle < u8::MAX,
        ensures
            arena_wf(final(self)@),
            final(self)@.recs == old(self)@.recs.update(
                c.id as int,
                (CmdV {
                    cycle: (old(self)@.recs[c.id as int].cycle + 1) as u8,
                    ..old(self)@.recs[c.id as int]
                }),
            ),
            final(self)@.rnote == old(self)@.rnote,
            final(self)@.notes == old(self)@.notes,
    {
        let ghost a0 = self@;
        let mut r = self.records.remove(c.id);
        r.add_cycle();
        let ghost rv = r@;
        self.records.insert(c.id, r);
        proof {
            assert(rv =~= (CmdV {
                cycle: (a0.recs[c.id as int].cycle + 1) as u8,
                ..a0.recs[c.id as int]
            }));
            assert(self@.recs =~~= a0.recs.update(c.id as int, rv));
            assert(rec_wf(a0, c.id as int));
            self.lemma_record_update(a0, c);
        }
    }

    /// Stores the reply and marks the record Completed, as one operation: a
    /// reply is never stored without completing.
    pub fn set_reply(&mut self, c: Cmd, reply: Message)
        requires
            arena_wf(old(self)@),
            c.id < old(self)@.recs.len(),
            msg_wf(reply@),
        ensures
            arena_wf(final(self)@),
            final(self)@.recs == old(self)@.recs.update(
                c.id as int,
                (CmdV {
                    done: true,
                    reply: Some(reply@),
                    ..old(self)@.recs[c.id as int]
                }),
            ),
            final(self)@.rnote == old(self)@.rnote,
            final(self)@.notes == old(self)@.notes,
    {
        let ghost a0 = self@;
        let mut r = self.records.remove(c.id);
        r.set_reply(reply);
        r.set_done();
        let ghost rv = r@;
        self.records.insert(c.id, r);
        proof {
            assert(rv =~= (CmdV { done: true, reply: Some(reply@), ..a0.recs[c.id as int] }));
            assert(self@.recs =~~= a0.recs.update(c.id as int, rv));
            assert(rec_wf(a0, c.id as int));
            self.lemma_record_update(a0, c);
        }
    }

    /// Converts the error into an in-protocol reply, stores it, and marks
    /// the record both Completed and Failed.
    pub fn set_error(&mut self, c: Cmd, e: &AsError)
        requires
            arena_wf(old(self)@),
            c.id < old(self)@.recs.len(),
        ensures
            arena_wf(final(self)@),
            final(self)@.recs == old(self)@.recs.update(
                c.id as int,
                (CmdV {
                    done: true,
                    error: true,
                    reply: Some(MsgView { data: error_line(*e), key: Seq::<u8>::empty() }),
                    ..old(self)@.recs[c.id as int]
                }),
            ),
            final(self)@.rnote == old(self)@.rnote,
            final(self)@.notes == old(self)@.notes,
    {
        let ghost a0 = self@;
        let reply = Message::error_reply(e);
        proof {
            assert(reply@ =~= (MsgView { data: error_line(*e), key: Seq::<u8>::empty() }));
        }
        let mut r = self.records.remove(c.id);
        r.set_reply(reply);
        r.set_done();
        r.set_error();
        let ghost rv = r@;
        self.records.insert(c.id, r);
        proof {
            assert(rv =~= (CmdV {
                done: true,
                error: true,
                reply: Some(MsgView { data: error_line(*e), key: Seq::<u8>::empty() }),
                ..a0.recs[c.id as int]
            }));
            assert(self@.recs =~~= a0.recs.update(c.id as int, rv));
            assert(rec_wf(a0, c.id as int));
            self.lemma_record_update(a0, c);
        }
    }

    /// One record of the arena was taken out, changed and put back without
    /// touching its request, its subs or the notifier wiring: the arena
    /// invariant carries over.
    proof fn lemma_record_update(&self, a0: ArenaV, c: Cmd)
        requires
            arena_wf(a0),
            c.id < a0.recs.len(),
            self@.rnote == a0.rnote,
            self@.notes == a0.notes,
            self@.recs.len() == a0.recs.len(),
            forall|i: int|
                0 <= i < a0.recs.len() && i != c.id ==> self@.recs[i] == a0.recs[i],
            self@.recs[c.id as int].req == a0.recs[c.id as int].req,
            self@.recs[c.id as int].subs == a0.recs[c.id as int].subs,
            self@.recs[c.id as int].reply is Some ==> (self@.recs[c.id as int].reply
                == a0.recs[c.id as int].reply || (self@.recs[c.id as int].reply matches Some(m)
                && msg_wf(m))),
            self@.recs[c.id as int].done ==> self@.recs[c.id as int].reply is Some,
        ensures
            arena_wf(self@),
    {
        let a1 = self@;
        assert forall|i: int| 0 <= i < a1.recs.len() implies #[trigger] rec_wf(a1, i) by {
            assert(rec_wf(a0, i));
            if a0.recs[i].subs is Some {
                let s = a0.recs[i].subs.unwrap();
                assert forall|x: int| 0 <= x < s.len() implies #[trigger] sub_ok(a1, i, s[x]) by {
                    assert(sub_ok(a0, i, s[x]));
                    if s[x].id != c.id {
                        assert(a1.recs[s[x].id as int] == a0.recs[s[x].id as int]);
                    }
                }
            }
        }
    }

    /// A cloned list of the sub-handles, if this request was split. Clones
    /// are for reading and dispatching; the notifier's baseline was fixed at
    /// split time and they do not extend the completion accounting.
    pub fn subs(&self, c: Cmd) -> (r: Option<Vec<Cmd>>)
        requires
            arena_wf(self@),
            c.id < self@.recs.len(),
        ensures
            match r {
                Some(v) => rec(self@, c).subs == Some(v@),
                None => rec(self@, c).subs is None,
            },
    {
        match &self.records[c.id].subs {
            Some(v) => {
                let mut out: Vec<Cmd> = Vec::new();
                let mut j: usize = 0;
                while j < v.len()
                    invariant
                        j <= v@.len(),
                        out@ == v@.take(j as int),
                    decreases v@.len() - j,
                {
                    out.push(v[j]);
                    proof {
                        assert(out@ =~= v@.take(j as int + 1));
                    }
                    j = j + 1;
                }
                proof {
                    assert(v@.take(v@.len() as int) =~= v@);
                }
                Some(out)
            },
            None => None,
        }
    }

    /// The routing key of the handle's own request, with an optional
    /// hash-tag delimiter pattern stripped: what the routing layer hashes.
    pub fn route_key(&self, c: Cmd, hash_tag: &Vec<u8>) -> (k: Vec<u8>)
        requires
            arena_wf(self@),
            c.id < self@.recs.len(),
        ensures
            k@ == trim_hash_tag_spec(rec(self@, c).req.key, hash_tag@),
    {
        let key = self.records[c.id].req.get_key();
        trim_hash_tag(key, hash_tag)
    }

    /// Hashes the handle's routing key — hash tag stripped — with the
    /// routing layer's own hash function: the shard selector's input.
    pub fn key_hash<F: Fn(&Vec<u8>) -> u64>(&self, c: Cmd, hash_tag: &Vec<u8>, hasher: F) -> (h:
        u64)
        requires
            arena_wf(self@),
            c.id < self@.recs.len(),
            forall|k: &Vec<u8>| #[trigger] hasher.requires((k,)),
        ensures
            exists|k: Vec<u8>|
                k@ == trim_hash_tag_spec(rec(self@, c).req.key, hash_tag@) && #[trigger] hasher
                    .ensures((&k,), h),
    {
        let key = self.route_key(c, hash_tag);
        let h = hasher(&key);
        proof {
            assert(hasher.ensures((&key,), h));
        }
        h
    }

    /// Validity check exposed to the dispatch layer: every constructed
    /// handle is dispatchable as it stands.
    pub fn valid(&self, _c: Cmd) -> (r: bool)
        ensures
            r,
    {
        true
    }

    /// Records the given consumer as the one to wake when the handle's
    /// fan-in completes, replacing any prior registration; safe to call on
    /// every re-poll.
    pub fn reregister(&mut self, c: Cmd, t: Task)
        requires
            arena_wf(old(self)@),
            c.id < old(self)@.recs.len(),
        ensures
            arena_wf(final(self)@),
            final(self)@.recs == old(self)@.recs,
            final(self)@.rnote == old(self)@.rnote,
            final(self)@.notes == old(self)@.notes.update(
                note_id(old(self)@, c),
                (NotifyV { task: Some(t), ..old(self)@.notes[note_id(old(self)@, c)] }),
            ),
    {
        let ghost a0 = self@;
        proof {
            assert(rec_wf(a0, c.id as int));
        }
        let ni = self.rec_note[c.id];
        let mut n = self.notes.remove(ni);
        proof {
            assert(n@ == a0.notes[ni as int]);
        }
        n.set_task(t);
        self.notes.insert(ni, n);
        proof {
            assert(self@.notes =~~= a0.notes.update(
                ni as int,
                (NotifyV { task: Some(t), ..a0.notes[ni as int] }),
            ));
            self.lemma_notes_update(a0, c);
        }
    }

    /// One release of one handle of this record's fan-out set: decrements
    /// the shared live count and returns the pre-decrement value; the
    /// release that empties the baseline fires the wakeup, exactly once.
    pub fn release(&mut self, c: Cmd) -> (pre: usize)
        requires
            arena_wf(old(self)@),
            c.id < old(self)@.recs.len(),
            old(self)@.notes[note_id(old(self)@, c)].live >= 1,
        ensures
            arena_wf(final(self)@),
            final(self)@.recs == old(self)@.recs,
            final(self)@.rnote == old(self)@.rnote,
            pre as int == old(self)@.notes[note_id(old(self)@, c)].live,
            final(self)@.notes == old(self)@.notes.update(
                note_id(old(self)@, c),
                note_release(old(self)@.notes[note_id(old(self)@, c)]),
            ),
    {
        let ghost a0 = self@;
        proof {
            assert(rec_wf(a0, c.id as int));
        }
        let ni = self.rec_note[c.id];
        let mut n = self.notes.remove(ni);
        proof {
            assert(n@ == a0.notes[ni as int]);
        }
        let pre = n.release();
        self.notes.insert(ni, n);
        proof {
            assert(self@.notes =~~= a0.notes.update(
                ni as int,
                note_release(a0.notes[ni as int]),
            ));
            self.lemma_notes_update(a0, c);
        }
        pre
    }

    /// The notifiers changed but the records and the wiring did not: the
    /// arena invariant carries over.
    proof fn lemma_notes_update(&self, a0: ArenaV, c: Cmd)
        requires
            arena_wf(a0),
            self@.recs == a0.recs,
            self@.rnote == a0.rnote,
            self@.notes.len() == a0.notes.len(),
        ensures
            arena_wf(self@),
    {
        let a1 = self@;
        assert forall|i: int| 0 <= i < a1.recs.len() implies #[trigger] rec_wf(a1, i) by {
            assert(rec_wf(a0, i));
            if a0.recs[i].subs is Some {
                let s = a0.recs[i].subs.unwrap();
                assert forall|x: int| 0 <= x < s.len() implies #[trigger] sub_ok(a1, i, s[x]) by {
                    assert(sub_ok(a0, i, s[x]));
                }
            }
        }
    }

    /// Whether the handle's notifier has fired its wakeup.
    pub fn has_fired(&self, c: Cmd) -> (r: bool)
        requires
            arena_wf(self@),
            c.id < self@.recs.len(),
        ensures
            r == self@.notes[note_id(self@, c)].fired,
    {
        proof {
            assert(rec_wf(self@, c.id as int));
        }
        let ni = self.rec_note[c.id];
        self.notes[ni].has_fired()
    }

    /// The fixed release baseline of the handle's notifier.
    pub fn expectation(&self, c: Cmd) -> (r: usize)
        requires
            arena_wf(self@),
            c.id < self@.recs.len(),
        ensures
            r as int == self@.notes[note_id(self@, c)].expect,
    {
        proof {
            assert(rec_wf(self@, c.id as int));
        }
        let ni = self.rec_note[c.id];
        self.notes[ni].expectation()
    }

    /// How many handles of the handle's fan-out set are still outstanding.
    pub fn live_count(&self, c: Cmd) -> (r: usize)
        requires
            arena_wf(self@),
            c.id < self@.recs.len(),
        ensures
            r as int == self@.notes[note_id(self@, c)].live,
    {
        proof {
            assert(rec_wf(self@, c.id as int));
        }
        let ni = self.rec_note[c.id];
        self.notes[ni].live_count()
    }
}

/// Law: no handle reaches encoding with an unset reply slot — a complete
/// leaf carries a reply, and every sub-record a complete split encodes from
/// carries one too.
pub proof fn lemma_complete_handle_has_replies(a: ArenaV, c: Cmd)
    requires
        arena_wf(a),
        c.id < a.recs.len(),
        spec_is_done(a, c),
    ensures
        rec(a, c).subs is None ==> rec(a, c).reply is Some,
        rec(a, c).subs matches Some(s) ==> forall|j: int|
            0 <= j < s.len() ==> #[trigger] rec(a, s[j]).reply is Some,
{
    assert(rec_wf(a, c.id as int));
    if rec(a, c).subs is Some {
        let s = rec(a, c).subs.unwrap();
        assert forall|j: int| 0 <= j < s.len() implies #[trigger] rec(a, s[j]).reply is Some by {
            assert(sub_ok(a, c.id as int, s[j]));
            assert(rec_wf(a, s[j].id as int));
        }
    }
}

/// Law: a split handle is complete exactly when every one of its
/// sub-handles is complete, regardless of the parent record's own status
/// bits.
pub proof fn lemma_split_done_is_and_of_subs(a: ArenaV, c: Cmd, s: Seq<Cmd>)
    requires
        arena_wf(a),
        c.id < a.recs.len(),
        rec(a, c).subs == Some(s),
    ensures
        spec_is_done(a, c) <==> (forall|j: int| 0 <= j < s.len() ==> #[trigger] spec_is_done(
            a,
            s[j],
        )),
{
    assert(rec_wf(a, c.id as int));
    assert forall|j: int| 0 <= j < s.len() implies (#[trigger] spec_is_done(a, s[j])
        == a.recs[s[j].id as int].done) by {
        assert(sub_ok(a, c.id as int, s[j]));
    }
    if forall|j: int| 0 <= j < s.len() ==> #[trigger] a.recs[s[j].id as int].done {
        assert forall|j: int| 0 <= j < s.len() implies #[trigger] spec_is_done(a, s[j]) by {}
    }
    if forall|j: int| 0 <= j < s.len() ==> #[trigger] spec_is_done(a, s[j]) {
        assert forall|j: int| 0 <= j < s.len() implies #[trigger] a.recs[s[j].id as int].done by {
            assert(spec_is_done(a, s[j]));
        }
    }
}

/// Law: round trip for a leaf — once a reply is attached, the encoded
/// client frame is exactly that reply's bytes, a single well-formed unit.
pub proof fn lemma_leaf_round_trip(a: ArenaV, c: Cmd, m: MsgView)
    requires
        arena_wf(a),
        c.id < a.recs.len(),
        rec(a, c).subs is None,
        rec(a, c).reply == Some(m),
    ensures
        client_frame(a, c) == m.data,
        unit_wf(m.data),
{
    assert(rec_wf(a, c.id as int));
}

/// Client-boundary framer: decodes client bytes into handles, encodes
/// completed handles back into one client-visible frame.
pub struct FrontCodec {}

impl Default for FrontCodec {
    fn default() -> (c: Self)
        ensures
            c == (FrontCodec {  }),
    {
        FrontCodec {  }
    }
}

impl FrontCodec {
    /// Decodes one unit into a handle. Structurally invalid input is not an
    /// error upward: the connection survives, and the returned handle is
    /// already Completed and Failed with a ready error reply.
    pub fn decode(&mut self, arena: &mut CmdArena, src: &mut BytesMut) -> (r: Result<
        Option<Cmd>,
        AsError,
    >)
        requires
            arena_wf(old(arena)@),
        ensures
            arena_wf(final(arena)@),
            r is Ok,
            ({
                let b = buf_view(*old(src));
                let p = crlf_pos(b, 0);
                match r {
                    Ok(None) => p == b.len() && buf_view(*final(src)) == b && final(arena)@
                        == old(arena)@,
                    Ok(Some(c)) => {
                        &&& c.id < final(arena)@.recs.len()
                        &&& final(arena)@.recs.take(old(arena)@.recs.len() as int) == old(
                            arena,
                        )@.recs
                        &&& if p == 0 {
                            &&& b.len() >= 2
                            &&& buf_view(*final(src)) == b.skip(2)
                            &&& c.id == old(arena)@.recs.len()
                            &&& final(arena)@.recs.len() == old(arena)@.recs.len() + 1
                            &&& final(arena)@.notes == old(arena)@.notes.push(
                                NotifyV { expect: 1, live: 1, fired: false, task: None },
                            )
                            &&& rec(final(arena)@, c).done
                            &&& rec(final(arena)@, c).error
                            &&& rec(final(arena)@, c).reply == Some(
                                MsgView {
                                    data: error_line(AsError::BadMessage),
                                    key: Seq::<u8>::empty(),
                                },
                            )
                            &&& rec(final(arena)@, c).subs is None
                        } else {
                            &&& 0 < p < b.len()
                            &&& buf_view(*final(src)) == b.skip(p + 2)
                            &&& split_result(
                                old(arena)@,
                                final(arena)@,
                                c,
                                MsgView {
                                    data: b.subrange(0, p + 2),
                                    key: key_of(b.subrange(0, p + 2), p),
                                },
                            )
                        }
                    },
                    Err(_) => false,
                }
            }),
    {
        let ghost a0 = arena@;
        match Message::parse(src) {
            Ok(opt) => {
                match opt {
                    Some(m) => {
                        proof {
                            assert(m@ =~= (MsgView {
                                data: buf_view(*old(src)).subrange(
                                    0,
                                    crlf_pos(buf_view(*old(src)), 0) + 2,
                                ),
                                key: key_of(
                                    buf_view(*old(src)).subrange(
                                        0,
                                        crlf_pos(buf_view(*old(src)), 0) + 2,
                                    ),
                                    crlf_pos(buf_view(*old(src)), 0),
                                ),
                            }));
                        }
                        let c = Cmd::from_msg(arena, m);
                        Ok(Some(c))
                    },
                    None => Ok(None),
                }
            },
            Err(_e) => {
                let m = Message::raw_inline_reply();
                let c = Cmd::from_msg(arena, m);
                arena.set_error(c, &AsError::BadMessage);
                proof {
                    assert(final(arena)@.recs.take(a0.recs.len() as int) =~~= a0.recs);
                }
                Ok(Some(c))
            },
        }
    }

    /// Encodes a completed handle into the output buffer: a split writes
    /// each sub-reply in original construction order and then the trailing
    /// terminator, whatever order the replies arrived in; a leaf writes its
    /// single stored reply.
    pub fn encode(&mut self, arena: &CmdArena, item: Cmd, dst: &mut BytesMut) -> (r: Result<
        (),
        AsError,
    >)
        requires
            arena_wf(arena@),
            item.id < arena@.recs.len(),
            spec_is_done(arena@, item),
        ensures
            r is Ok,
            buf_view(*final(dst)) == buf_view(*old(dst)) + client_frame(arena@, item),
    {
        proof {
            assert(rec_wf(arena@, item.id as int));
        }
        match &arena.records[item.id].subs {
            Some(subs) => {
                let mut j: usize = 0;
                while j < subs.len()
                    invariant
                        arena_wf(arena@),
                        item.id < arena@.recs.len(),
                        rec(arena@, item).subs == Some(subs@),
                        spec_is_done(arena@, item),
                        j <= subs@.len(),
                        buf_view(*dst) + sub_frames(arena@, subs@, j as int) == buf_view(
                            *old(dst),
                        ) + sub_frames(arena@, subs@, 0),
                    decreases subs@.len() - j,
                {
                    let s = subs[j];
                    proof {
                        assert(rec_wf(arena@, item.id as int));
                        assert(sub_ok(arena@, item.id as int, s));
                        assert(rec(arena@, s).done);
                        assert(rec_wf(arena@, s.id as int));
                    }
                    let ghost pre_buf = buf_view(*dst);
                    let sr = &arena.records[s.id];
                    match &sr.reply {
                        Some(rep) => {
                            match sr.req.save_reply(rep, dst) {
                                Ok(u) => u,
                                Err(e) => {
                                    return Err(e);
                                },
                            }
                            proof {
                                assert(reply_data(arena@, s) == rep@.data);
                                assert((pre_buf + rep@.data) + sub_frames(
                                    arena@,
                                    subs@,
                                    j as int + 1,
                                ) =~= pre_buf + (rep@.data + sub_frames(
                                    arena@,
                                    subs@,
                                    j as int + 1,
                                )));
                            }
                        },
                        None => {
                            proof {
                                assert(false);
                            }
                            return Err(AsError::BadMessage);
                        },
                    }
                    j = j + 1;
                }
                let ghost pre_buf = buf_view(*dst);
                arena.records[item.id].req.try_save_ends(dst);
                proof {
                    assert(sub_frames(arena@, subs@, subs@.len() as int)
                        == Seq::<u8>::empty());
                    assert(pre_buf + Seq::<u8>::empty() =~= pre_buf);
                    assert(buf_view(*dst) =~= buf_view(*old(dst)) + (sub_frames(
                        arena@,
                        subs@,
                        0,
                    ) + end_frame()));
                }
                Ok(())
            },
            None => {
                let sr = &arena.records[item.id];
                match &sr.reply {
                    Some(rep) => {
                        match sr.req.save_reply(rep, dst) {
                            Ok(u) => u,
                            Err(e) => {
                                return Err(e);
                            },
                        }
                        Ok(())
                    },
                    None => {
                        proof {
                            assert(false);
                        }
                        Err(AsError::BadMessage)
                    },
                }
            },
        }
    }
}

/// Backend-boundary framer: decodes one backend reply unit, encodes a
/// handle's own request toward a backend.
pub struct BackCodec {}

impl Default for BackCodec {
    fn default() -> (c: Self)
        ensures
            c == (BackCodec {  }),
    {
        BackCodec {  }
    }
}

impl BackCodec {
    /// Pure parse of one backend reply unit; backend replies are never
    /// decomposed further.
    pub fn decode(&mut self, src: &mut BytesMut) -> (r: Result<Option<Message>, AsError>)
        ensures
            ({
                let b = buf_view(*old(src));
                let p = crlf_pos(b, 0);
                match r {
                    Ok(opt) => {
                        match opt {
                            None => p == b.len() && buf_view(*final(src)) == b,
                            Some(m) => {
                                &&& 0 < p < b.len()
                                &&& m@.data == b.subrange(0, p + 2)
                                &&& m@.key == key_of(b.subrange(0, p + 2), p)
                                &&& msg_wf(m@)
                                &&& buf_view(*final(src)) == b.skip(p + 2)
                            },
                        }
                    },
                    Err(e) => e == AsError::BadMessage && p == 0 && b.len() >= 2 && buf_view(
                        *final(src),
                    ) == b.skip(2),
                }
            }),
    {
        Message::parse(src)
    }

    /// Serializes only the handle's own request — never its subs: each sub
    /// is dispatched and framed independently over its own connection.
    pub fn encode(&mut self, arena: &CmdArena, item: Cmd, dst: &mut BytesMut) -> (r: Result<
        (),
        AsError,
    >)
        requires
            arena_wf(arena@),
            item.id < arena@.recs.len(),
        ensures
            r is Ok,
            buf_view(*final(dst)) == buf_view(*old(dst)) + rec(arena@, item).req.data,
    {
        arena.records[item.id].req.save_req(dst)
    }
}

} // verus!
