//! Protocol units and the line grammar the framers work on. A unit is one
//! nonempty line terminated by CR LF; a multi-key read request ("get " with
//! two or more keys) decomposes into one single-key sub-unit per key; every
//! other unit is routed whole.

use crate::buf::{buf_advance, buf_extend, buf_to_vec, buf_view};
use crate::com::AsError;
use crate::utils::{copy_range, find_in, lemma_find_in_ge, scan_byte};
use bytes::BytesMut;
use vstd::prelude::*;

verus! {

/// The two-byte unit terminator.
pub open spec fn crlf() -> Seq<u8> {
    seq![13u8, 10u8]
}

/// Leading bytes of a multi-key read request line.
pub open spec fn get_prefix() -> Seq<u8> {
    seq![103u8, 101u8, 116u8, 32u8]
}

/// Trailing terminator frame written after the sub-replies of a split
/// request.
pub open spec fn end_frame() -> Seq<u8> {
    seq![69u8, 78u8, 68u8, 13u8, 10u8]
}

/// The "version" health-check request unit.
pub open spec fn version_line() -> Seq<u8> {
    seq![118u8, 101u8, 114u8, 115u8, 105u8, 111u8, 110u8, 13u8, 10u8]
}

/// Placeholder request unit standing for unparseable client input.
pub open spec fn bad_line() -> Seq<u8> {
    seq![98u8, 97u8, 100u8, 13u8, 10u8]
}

/// The in-protocol error reply a recoverable error is converted into.
pub open spec fn error_line(e: AsError) -> Seq<u8> {
    match e {
        AsError::BadMessage => seq![
            67u8, 76u8, 73u8, 69u8, 78u8, 84u8, 95u8, 69u8, 82u8, 82u8, 79u8, 82u8, 32u8, 98u8,
            97u8, 100u8, 13u8, 10u8,
        ],
        AsError::ConnClosed => seq![
            83u8, 69u8, 82u8, 86u8, 69u8, 82u8, 95u8, 69u8, 82u8, 82u8, 79u8, 82u8, 32u8, 99u8,
            108u8, 111u8, 115u8, 101u8, 100u8, 13u8, 10u8,
        ],
    }
}

/// Position of the first CR LF pair at or after `from`, or `s.len()` if
/// there is none.
pub open spec fn crlf_pos(s: Seq<u8>, from: int) -> int
    decreases s.len() - from,
{
    if from < 0 || from + 2 > s.len() {
        s.len() as int
    } else if s[from] == 13 && s[from + 1] == 10 {
        from
    } else {
        crlf_pos(s, from + 1)
    }
}

pub proof fn lemma_crlf_pos(s: Seq<u8>, from: int)
    requires
        0 <= from <= s.len(),
    ensures
        from <= crlf_pos(s, from) <= s.len(),
        crlf_pos(s, from) < s.len() ==> crlf_pos(s, from) + 2 <= s.len() && s[crlf_pos(s, from)]
            == 13 && s[crlf_pos(s, from) + 1] == 10,
        forall|i: int|
            from <= i < crlf_pos(s, from) && i + 2 <= s.len() ==> !(#[trigger] s[i] == 13 && s[i + 1] == 10),
    decreases s.len() - from,
{
    if from + 2 <= s.len() && !(s[from] == 13 && s[from + 1] == 10) {
        lemma_crlf_pos(s, from + 1);
    }
}

pub proof fn lemma_crlf_pos_exact(s: Seq<u8>, from: int, n: int)
    requires
        0 <= from <= n,
        n + 2 == s.len(),
        s[n] == 13,
        s[n + 1] == 10,
        forall|i: int| from <= i < n ==> !(#[trigger] s[i] == 13 && s[i + 1] == 10),
    ensures
        crlf_pos(s, from) == n,
    decreases n - from,
{
    if from < n {
        lemma_crlf_pos_exact(s, from + 1, n);
    }
}

/// A well-formed unit: a nonempty line with its CR LF terminator and no
/// earlier CR LF pair.
pub open spec fn unit_wf(data: Seq<u8>) -> bool {
    &&& data.len() >= 3
    &&& crlf_pos(data, 0) == data.len() - 2
}

/// The routing key of the line `s[0..end)`: the token after the first space,
/// if any.
pub open spec fn key_of(s: Seq<u8>, end: int) -> Seq<u8> {
    let a = find_in(s, 32, 0, end);
    if a < end {
        s.subrange(a + 1, find_in(s, 32, a + 1, end))
    } else {
        Seq::<u8>::empty()
    }
}

/// The space-separated tokens of `s[from..end)`.
pub open spec fn keys_from(s: Seq<u8>, from: int, end: int) -> Seq<Seq<u8>>
    decreases end - from,
    via keys_from_dec
{
    if from < 0 || from >= end {
        Seq::<Seq<u8>>::empty()
    } else {
        let e = find_in(s, 32, from, end);
        if e < end {
            seq![s.subrange(from, e)] + keys_from(s, e + 1, end)
        } else {
            seq![s.subrange(from, end)]
        }
    }
}

#[via_fn]
proof fn keys_from_dec(s: Seq<u8>, from: int, end: int) {
    if 0 <= from && from < end {
        lemma_find_in_ge(s, 32, from, end);
    }
}

pub proof fn lemma_keys_len(s: Seq<u8>, from: int, end: int)
    requires
        0 <= from <= end,
    ensures
        keys_from(s, from, end).len() <= end - from + 1,
    decreases end - from,
{
    if from < end {
        lemma_find_in_ge(s, 32, from, end);
        let e = find_in(s, 32, from, end);
        if e < end {
            lemma_keys_len(s, e + 1, end);
        }
    }
}

/// Whether a unit is a multi-key read request: a "get " line with at least
/// two keys. Only such a unit decomposes into sub-units.
pub open spec fn is_multi_get(data: Seq<u8>) -> bool {
    &&& data.len() > 6
    &&& data.subrange(0, 4) == get_prefix()
    &&& keys_from(data, 4, data.len() - 2).len() >= 2
}

/// The keys of a multi-key read request line.
pub open spec fn sub_keys(data: Seq<u8>) -> Seq<Seq<u8>> {
    keys_from(data, 4, data.len() - 2)
}

/// The wire unit of one sub-request carrying a single key.
pub open spec fn sub_unit(key: Seq<u8>) -> Seq<u8> {
    get_prefix() + key + crlf()
}

/// How many sub-units a unit decomposes into: one per key for a multi-key
/// read, none otherwise.
pub open spec fn sub_count(data: Seq<u8>) -> int {
    if is_multi_get(data) {
        sub_keys(data).len() as int
    } else {
        0
    }
}

/// Abstract content of one parsed protocol unit: its raw frame bytes and its
/// routing key.
#[verifier::ext_equal]
pub ghost struct MsgView {
    pub data: Seq<u8>,
    pub key: Seq<u8>,
}

/// A message is well formed when its frame is a single well-formed unit.
pub open spec fn msg_wf(m: MsgView) -> bool {
    unit_wf(m.data)
}

/// What `mk_subs` yields at position `j`.
pub open spec fn sub_msg_ok(data: Seq<u8>, m: MsgView, j: int) -> bool {
    &&& m.data == sub_unit(sub_keys(data)[j])
    &&& m.key == sub_keys(data)[j]
    &&& msg_wf(m)
}

/// One parsed protocol unit: a request or a reply frame, plus the routing
/// key extracted from it.
pub struct Message {
    data: Vec<u8>,
    key: Vec<u8>,
}

impl View for Message {
    type V = MsgView;

    closed spec fn view(&self) -> MsgView {
        MsgView { data: self.data@, key: self.key@ }
    }
}

impl Message {
    /// Parses one unit from the front of the buffer, consuming it. A buffer
    /// with no terminator yet yields `Ok(None)` and is left in place; an
    /// empty line is rejected as `BadMessage` and its terminator consumed;
    /// otherwise the unit is removed and returned with its routing key.
    pub fn parse(src: &mut BytesMut) -> (r: Result<Option<Message>, AsError>)
        ensures
            ({
                let b = buf_view(*old(src));
                let p = crlf_pos(b, 0);
                match r {
                    Ok(opt) => {
                        match opt {
                            None => p == b.len() && buf_view(*final(src)) == b,
                            Some(m) => {
                                &&& 0 < p < b.len()
                                &&& m@.data == b.subrange(0, p + 2)
                                &&& m@.key == key_of(b.subrange(0, p + 2), p)
                                &&& msg_wf(m@)
                                &&& buf_view(*final(src)) == b.skip(p + 2)
                            },
                        }
                    },
                    Err(e) => e == AsError::BadMessage && p == 0 && b.len() >= 2 && buf_view(
                        *final(src),
                    ) == b.skip(2),
                }
            }),
    {
        let v = buf_to_vec(src);
        let n = v.len();
        let mut i: usize = 0;
        let mut found: bool = false;
        while !found && i < n && i + 1 < n
            invariant
                n == v@.len(),
                i <= n,
                found ==> i + 2 <= n && v@[i as int] == 13 && v@[i as int + 1] == 10 && crlf_pos(
                    v@,
                    0,
                ) == i as int,
                !found ==> crlf_pos(v@, 0) == crlf_pos(v@, i as int),
            decreases n - i + (if found {
                0int
            } else {
                1int
            }),
        {
            if v[i] == 13 && v[i + 1] == 10 {
                found = true;
            } else {
                i = i + 1;
            }
        }
        if !found {
            assert(crlf_pos(v@, i as int) == n as int);
            return Ok(None);
        }
        if i == 0 {
            buf_advance(src, 2);
            proof {
                assert(buf_view(*final(src)) =~= v@.skip(2));
            }
            return Err(AsError::BadMessage);
        }
        let data = copy_range(&v, 0, i + 2);
        let a = scan_byte(&data, 32, 0, i);
        let key: Vec<u8> = if a < i {
            let b2 = scan_byte(&data, 32, a + 1, i);
            copy_range(&data, a + 1, b2)
        } else {
            Vec::new()
        };
        proof {
            // the copied unit is itself a well-formed line
            lemma_crlf_pos(v@, 0);
            assert forall|j: int| 0 <= j < i as int implies !(#[trigger] data@[j] == 13 && data@[j
                + 1] == 10) by {
                assert(data@[j] == v@[j]);
                assert(data@[j + 1] == v@[j + 1]);
            }
            lemma_crlf_pos_exact(data@, 0, i as int);
            if !(a < i) {
                assert(key@ =~= key_of(data@, i as int));
            }
        }
        let m = Message { data, key };
        buf_advance(src, i + 2);
        Ok(Some(m))
    }

    /// The routing key extracted from this unit.
    pub fn get_key(&self) -> (k: &Vec<u8>)
        ensures
            k@ == self@.key,
    {
        &self.key
    }

    /// Decomposes a multi-key read request into one single-key sub-unit per
    /// key, in the key order of the line; any other unit yields no sub-units.
    pub fn mk_subs(&self) -> (subs: Vec<Message>)
        requires
            msg_wf(self@),
        ensures
            subs@.len() == sub_count(self@.data),
            forall|j: int| 0 <= j < subs@.len() ==> sub_msg_ok(self@.data, subs@[j]@, j),
            subs@.len() == 0 || subs@.len() + 5 <= self@.data.len(),
            subs@.len() < usize::MAX,
    {
        let n = self.data.len();
        if n <= 6 {
            return Vec::new();
        }
        if !(self.data[0] == 103 && self.data[1] == 101 && self.data[2] == 116 && self.data[3]
            == 32) {
            proof {
                if is_multi_get(self@.data) {
                    assert(self@.data.subrange(0, 4)[0] == 103);
                    assert(self@.data.subrange(0, 4)[1] == 101);
                    assert(self@.data.subrange(0, 4)[2] == 116);
                    assert(self@.data.subrange(0, 4)[3] == 32);
                }
            }
            return Vec::new();
        }
        proof {
            assert(self@.data.subrange(0, 4) =~= get_prefix());
        }
        let end = n - 2;
        let mut out: Vec<Message> = Vec::new();
        let mut cur: usize = 4;
        while cur < end
            invariant
                4 <= cur <= end,
                end == self@.data.len() - 2,
                self@.data.len() > 6,
                n == self@.data.len(),
                end <= self.data@.len(),
                self.data@ == self@.data,
                msg_wf(self@),
                sub_keys(self@.data) == out@.map(|j: int, m: Message| m@.key) + keys_from(
                    self@.data,
                    cur as int,
                    end as int,
                ),
                cur == end ==> keys_from(self@.data, cur as int, end as int)
                    == Seq::<Seq<u8>>::empty(),
                forall|j: int|
                    0 <= j < out@.len() ==> {
                        &&& (#[trigger] out@[j])@.data == sub_unit(out@[j]@.key)
                        &&& msg_wf(out@[j]@)
                    },
            decreases end - cur,
        {
            let e = scan_byte(&self.data, 32, cur, end);
            let k = copy_range(&self.data, cur, e);
            proof {
                lemma_crlf_pos(self@.data, 0);
                assert forall|x: int| 0 <= x < k@.len() - 1 implies !(#[trigger] k@[x] == 13 && k@[x
                    + 1] == 10) by {
                    assert(k@[x] == self@.data[cur + x]);
                    assert(k@[x + 1] == self@.data[cur + x + 1]);
                }
            }
            let m = sub_message(k);
            out.push(m);
            proof {
                let d = self@.data;
                let ghost old_map = out@.take(out@.len() - 1).map(|j: int, mm: Message| mm@.key);
                assert(out@.take(out@.len() - 1) =~= out@.drop_last());
                assert(out@.map(|j: int, mm: Message| mm@.key) =~= out@.drop_last().map(
                    |j: int, mm: Message| mm@.key,
                ).push(d.subrange(cur as int, e as int)));
                if e < end {
                    assert(keys_from(d, cur as int, end as int) == seq![
                        d.subrange(cur as int, e as int),
                    ] + keys_from(d, e as int + 1, end as int));
                    assert(out@.map(|j: int, mm: Message| mm@.key) + keys_from(
                        d,
                        e as int + 1,
                        end as int,
                    ) =~= out@.drop_last().map(|j: int, mm: Message| mm@.key) + keys_from(
                        d,
                        cur as int,
                        end as int,
                    ));
                } else {
                    assert(keys_from(d, cur as int, end as int) == seq![
                        d.subrange(cur as int, end as int),
                    ]);
                    assert(out@.map(|j: int, mm: Message| mm@.key) + keys_from(
                        d,
                        end as int,
                        end as int,
                    ) =~= out@.drop_last().map(|j: int, mm: Message| mm@.key) + keys_from(
                        d,
                        cur as int,
                        end as int,
                    ));
                }
            }
            if e < end {
                cur = e + 1;
            } else {
                cur = end;
            }
        }
        proof {
            assert(sub_keys(self@.data) =~= out@.map(|j: int, m: Message| m@.key));
            lemma_keys_len(self@.data, 4, end as int);
            assert(out@.len() + 5 <= n as int);
        }
        if out.len() < 2 {
            return Vec::new();
        }
        proof {
            assert(is_multi_get(self@.data));
            assert forall|j: int| 0 <= j < out@.len() implies sub_msg_ok(
                self@.data,
                out@[j]@,
                j,
            ) by {
                assert(out@[j]@.key == out@.map(|x: int, m: Message| m@.key)[j]);
            }
        }
        out
    }

    /// Synthetic health-check request ("version"); it has no key and never
    /// decomposes.
    pub fn version_request() -> (m: Message)
        ensures
            m@.data == version_line(),
            m@.key == Seq::<u8>::empty(),
            msg_wf(m@),
            sub_count(m@.data) == 0,
    {
        let mut data: Vec<u8> = Vec::new();
        data.push(118);
        data.push(101);
        data.push(114);
        data.push(115);
        data.push(105);
        data.push(111);
        data.push(110);
        data.push(13);
        data.push(10);
        proof {
            assert(data@ =~= version_line());
            reveal_with_fuel(crlf_pos, 10);
            assert(crlf_pos(data@, 0) == 7);
            assert(version_line().subrange(0, 4)[0] == 118);
        }
        Message { data, key: Vec::new() }
    }

    /// Synthetic placeholder request standing for unparseable client input;
    /// it has no key and never decomposes.
    pub fn raw_inline_reply() -> (m: Message)
        ensures
            m@.data == bad_line(),
            m@.key == Seq::<u8>::empty(),
            msg_wf(m@),
            sub_count(m@.data) == 0,
    {
        let mut data: Vec<u8> = Vec::new();
        data.push(98);
        data.push(97);
        data.push(100);
        data.push(13);
        data.push(10);
        proof {
            assert(data@ =~= bad_line());
            reveal_with_fuel(crlf_pos, 6);
            assert(crlf_pos(data@, 0) == 3);
        }
        Message { data, key: Vec::new() }
    }

    /// Converts a recoverable error into an in-protocol error reply, so it
    /// flows through the same completion and encoding path as a success.
    pub fn error_reply(e: &AsError) -> (m: Message)
        ensures
            m@.data == error_line(*e),
            m@.key == Seq::<u8>::empty(),
            msg_wf(m@),
    {
        let mut data: Vec<u8> = Vec::new();
        match e {
            AsError::BadMessage => {
                data.push(67);
                data.push(76);
                data.push(73);
                data.push(69);
                data.push(78);
                data.push(84);
                data.push(95);
                data.push(69);
                data.push(82);
                data.push(82);
                data.push(79);
                data.push(82);
                data.push(32);
                data.push(98);
                data.push(97);
                data.push(100);
                data.push(13);
                data.push(10);
                proof {
                    assert(data@ =~= error_line(*e));
                    reveal_with_fuel(crlf_pos, 19);
                    assert(crlf_pos(data@, 0) == 16);
                }
            },
            AsError::ConnClosed => {
                data.push(83);
                data.push(69);
                data.push(82);
                data.push(86);
                data.push(69);
                data.push(82);
                data.push(95);
                data.push(69);
                data.push(82);
                data.push(82);
                data.push(79);
                data.push(82);
                data.push(32);
                data.push(99);
                data.push(108);
                data.push(111);
                data.push(115);
                data.push(101);
                data.push(100);
                data.push(13);
                data.push(10);
                proof {
                    assert(data@ =~= error_line(*e));
                    reveal_with_fuel(crlf_pos, 22);
                    assert(crlf_pos(data@, 0) == 19);
                }
            },
        }
        Message { data, key: Vec::new() }
    }

    /// Serializes a finished reply for this request into the output buffer.
    pub fn save_reply(&self, reply: &Message, dst: &mut BytesMut) -> (r: Result<(), AsError>)
        ensures
            r is Ok,
            buf_view(*final(dst)) == buf_view(*old(dst)) + reply@.data,
    {
        buf_extend(dst, &reply.data);
        Ok(())
    }

    /// Serializes this unit's own request bytes into the output buffer.
    pub fn save_req(&self, dst: &mut BytesMut) -> (r: Result<(), AsError>)
        ensures
            r is Ok,
            buf_view(*final(dst)) == buf_view(*old(dst)) + self@.data,
    {
        buf_extend(dst, &self.data);
        Ok(())
    }

    /// Writes the trailing terminator frame after a split request's
    /// sub-replies.
    pub fn try_save_ends(&self, dst: &mut BytesMut)
        ensures
            buf_view(*final(dst)) == buf_view(*old(dst)) + end_frame(),
    {
        let mut t: Vec<u8> = Vec::new();
        t.push(69);
        t.push(78);
        t.push(68);
        t.push(13);
        t.push(10);
        proof {
            assert(t@ =~= end_frame());
        }
        buf_extend(dst, &t);
    }
}

/// Builds the sub-request unit for one key.
fn sub_message(k: Vec<u8>) -> (m: Message)
    requires
        forall|i: int| 0 <= i < k@.len() - 1 ==> !(#[trigger] k@[i] == 13 && k@[i + 1] == 10),
    ensures
        m@.data == sub_unit(k@),
        m@.key == k@,
        msg_wf(m@),
{
    let mut data: Vec<u8> = Vec::new();
    data.push(103);
    data.push(101);
    data.push(116);
    data.push(32);
    proof {
        assert(data@ =~= get_prefix() + k@.subrange(0, 0));
    }
    let mut i: usize = 0;
    while i < k.len()
        invariant
            i <= k@.len(),
            data@ == get_prefix() + k@.subrange(0, i as int),
        decreases k@.len() - i,
    {
        data.push(k[i]);
        proof {
            assert(data@ =~= get_prefix() + k@.subrange(0, i as int + 1));
        }
        i = i + 1;
    }
    proof {
        assert(k@.subrange(0, k@.len() as int) =~= k@);
    }
    data.push(13);
    data.push(10);
    proof {
        assert(data@ =~= sub_unit(k@));
        let d = data@;
        let nn = d.len() - 2;
        assert forall|j: int| 0 <= j < nn implies !(#[trigger] d[j] == 13 && d[j + 1] == 10) by {
            if j < 3 {
                assert(d[0] == 103 && d[1] == 101 && d[2] == 116 && d[3] == 32);
            } else if j == 3 {
                assert(d[3] == 32);
            } else if j < nn - 1 {
                assert(d[j] == k@[j - 4]);
                assert(d[j + 1] == k@[j - 3]);
            } else {
                assert(d[j + 1] == 13);
            }
        }
        lemma_crlf_pos_exact(d, 0, nn);
    }
    Message { data, key: k }
}

} // verus!
