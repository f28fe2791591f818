//! Byte-scanning helpers shared by the framers and the router: bounded
//! first-occurrence search, range copy, and hash-tag trimming.

use vstd::prelude::*;

verus! {

/// Index of the first occurrence of `b` in `s[from..end)`, or `end` if none.
pub open spec fn find_in(s: Seq<u8>, b: u8, from: int, end: int) -> int
    decreases end - from,
{
    if from < 0 || from >= end {
        end
    } else if s[from] == b {
        from
    } else {
        find_in(s, b, from + 1, end)
    }
}

pub proof fn lemma_find_in_ge(s: Seq<u8>, b: u8, from: int, end: int)
    requires
        0 <= from <= end,
    ensures
        from <= find_in(s, b, from, end) <= end,
    decreases end - from,
{
    if from < end && s[from] != b {
        lemma_find_in_ge(s, b, from + 1, end);
    }
}

/// First occurrence of `b` in `v[from..end)`, or `end` if there is none.
pub fn scan_byte(v: &Vec<u8>, b: u8, from: usize, end: usize) -> (r: usize)
    requires
        from <= end,
        end <= v@.len(),
    ensures
        r == find_in(v@, b, from as int, end as int),
        from <= r <= end,
        r < end ==> v@[r as int] == b,
        forall|j: int| from <= j < r ==> v@[j] != b,
{
    let mut i: usize = from;
    while i < end
        invariant
            from <= i <= end,
            end <= v@.len(),
            find_in(v@, b, from as int, end as int) == find_in(v@, b, i as int, end as int),
            forall|j: int| from <= j < i ==> v@[j] != b,
        decreases end - i,
    {
        if v[i] == b {
            return i;
        }
        i = i + 1;
    }
    i
}

/// Copy of `v[from..to)` as a fresh vector.
pub fn copy_range(v: &Vec<u8>, from: usize, to: usize) -> (r: Vec<u8>)
    requires
        from <= to,
        to <= v@.len(),
    ensures
        r@ == v@.subrange(from as int, to as int),
{
    let mut r: Vec<u8> = Vec::new();
    let mut i: usize = from;
    while i < to
        invariant
            from <= i <= to,
            to <= v@.len(),
            r@ == v@.subrange(from as int, i as int),
        decreases to - i,
    {
        r.push(v[i]);
        proof {
            assert(r@ =~= v@.subrange(from as int, i as int + 1));
        }
        i = i + 1;
    }
    r
}

/// A hash tag is a two-byte delimiter pair: if both delimiters occur in order,
/// only the marked substring between them is hashed, co-locating related keys.
pub open spec fn trim_hash_tag_spec(key: Seq<u8>, tag: Seq<u8>) -> Seq<u8> {
    if tag.len() != 2 {
        key
    } else {
        let b = find_in(key, tag[0], 0, key.len() as int);
        if b < key.len() {
            let e = find_in(key, tag[1], b + 1, key.len() as int);
            if e < key.len() {
                key.subrange(b + 1, e)
            } else {
                key
            }
        } else {
            key
        }
    }
}

/// Strips an optional hash-tag delimiter pattern from a routing key before it
/// is hashed; a key without the full pattern is kept whole.
pub fn trim_hash_tag(key: &Vec<u8>, hash_tag: &Vec<u8>) -> (r: Vec<u8>)
    ensures
        r@ == trim_hash_tag_spec(key@, hash_tag@),
{
    if hash_tag.len() != 2 {
        return copy_range(key, 0, key.len());
    }
    let b = scan_byte(key, hash_tag[0], 0, key.len());
    if b < key.len() {
        let e = scan_byte(key, hash_tag[1], b + 1, key.len());
        if e < key.len() {
            return copy_range(key, b + 1, e);
        }
    }
    copy_range(key, 0, key.len())
}

} // verus!
