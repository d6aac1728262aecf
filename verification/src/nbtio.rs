//! The NBT sub-codec boundary.
//!
//! A compound tag is opaque to this codec: the library carries its already
//! serialized bytes and frames them. The one thing decoding needs from the
//! NBT format itself is where a compound tag ends inside a byte stream.
//! That extent is computed here by a verified structural scanner over the
//! tag grammar — it walks headers and sizes only, never allocates from a
//! claimed length, rejects negative lengths, and bounds nesting depth, so
//! a malicious stream cannot make it fail other than by returning nothing.
//! Building and inspecting a tag's contents stays the NBT sub-codec's
//! business outside this library.

use vstd::prelude::*;
use crate::codec::{MinecraftIo, be_val, signed_of_bits};
use crate::error::DecodeError;
use crate::reader::Reader;

verus! {

/// How deep tags may nest inside one compound. Streams nested deeper are
/// rejected rather than scanned, which keeps the scanner's recursion
/// bounded on malicious input.
pub const NBT_MAX_DEPTH: u64 = 512;

/// The bytes one tag payload occupies at the front of `s`, for the tag id
/// `tag`, with `depth` further levels of nesting allowed — or nothing when
/// `s` does not start with a well-formed payload of that tag.
///
/// Payload shapes: byte/short/int/long/float/double are 1/2/4/4/8/8 fixed
/// bytes; a byte, int or long array is a signed 32-bit big-endian count
/// and then count elements of 1/4/8 bytes; a string is an unsigned 16-bit
/// big-endian byte count and then the bytes; a list is an element tag id,
/// a signed 32-bit count, and then that many payloads of the element tag
/// (an empty list may carry the end tag 0 as its element id); a compound
/// is entries until an end tag. A negative count is malformed.
pub open spec fn nbt_payload_extent(s: Seq<u8>, tag: u8, depth: nat) -> Option<nat>
    decreases depth, s.len(), 0nat,
{
    if tag == 1 {
        if s.len() < 1 {
            None
        } else {
            Some(1)
        }
    } else if tag == 2 {
        if s.len() < 2 {
            None
        } else {
            Some(2)
        }
    } else if tag == 3 || tag == 5 {
        if s.len() < 4 {
            None
        } else {
            Some(4)
        }
    } else if tag == 4 || tag == 6 {
        if s.len() < 8 {
            None
        } else {
            Some(8)
        }
    } else if tag == 7 || tag == 11 || tag == 12 {
        let width: int = if tag == 7 {
            1
        } else if tag == 11 {
            4
        } else {
            8
        };
        if s.len() < 4 {
            None
        } else {
            let count = signed_of_bits(be_val(s.subrange(0, 4)), 0x100000000);
            if count < 0 {
                None
            } else if 4 + count * width > s.len() {
                None
            } else {
                Some((4 + count * width) as nat)
            }
        }
    } else if tag == 8 {
        if s.len() < 2 {
            None
        } else {
            let count = be_val(s.subrange(0, 2));
            if 2 + count > s.len() {
                None
            } else {
                Some((2 + count) as nat)
            }
        }
    } else if tag == 9 {
        if s.len() < 5 {
            None
        } else {
            let elem = s[0];
            let count = signed_of_bits(be_val(s.subrange(1, 5)), 0x100000000);
            if count < 0 {
                None
            } else if count == 0 {
                Some(5)
            } else if elem == 0 || depth == 0 {
                None
            } else {
                match nbt_list_extent(s.skip(5), elem, count as nat, (depth - 1) as nat) {
                    None => None,
                    Some(n) => Some((5 + n) as nat),
                }
            }
        }
    } else if tag == 10 {
        if depth == 0 {
            None
        } else {
            nbt_compound_body_extent(s, (depth - 1) as nat)
        }
    } else {
        None
    }
}

/// The bytes `count` list elements of tag `elem` occupy at the front of
/// `s`.
pub open spec fn nbt_list_extent(s: Seq<u8>, elem: u8, count: nat, depth: nat) -> Option<nat>
    decreases depth, s.len(), count,
{
    if count == 0 {
        Some(0)
    } else {
        match nbt_payload_extent(s, elem, depth) {
            None => None,
            Some(p) => if p > s.len() {
                None
            } else {
                match nbt_list_extent(s.skip(p as int), elem, (count - 1) as nat, depth) {
                    None => None,
                    Some(r) => Some((p + r) as nat),
                }
            },
        }
    }
}

/// The bytes a compound's body occupies at the front of `s`: named entries
/// (tag id, 16-bit name length, name, payload) up to and including the end
/// tag.
pub open spec fn nbt_compound_body_extent(s: Seq<u8>, depth: nat) -> Option<nat>
    decreases depth, s.len(), 1nat,
{
    if s.len() == 0 {
        None
    } else if s[0] == 0 {
        Some(1)
    } else if s.len() < 3 {
        None
    } else {
        let tag = s[0];
        let nlen = be_val(s.subrange(1, 3));
        if 3 + nlen > s.len() {
            None
        } else {
            match nbt_payload_extent(s.skip(3 + nlen as int), tag, depth) {
                None => None,
                Some(p) => {
                    let consumed = 3 + nlen + p;
                    if consumed > s.len() {
                        None
                    } else {
                        match nbt_compound_body_extent(s.skip(consumed as int), depth) {
                            None => None,
                            Some(r) => Some((consumed + r) as nat),
                        }
                    }
                },
            }
        }
    }
}

/// The bytes one named compound tag occupies at the front of `s`: the
/// compound tag id 0x0a, a 16-bit name length and the name, then the
/// compound's body.
pub open spec fn nbt_extent(s: Seq<u8>) -> Option<nat> {
    if s.len() < 3 {
        None
    } else if s[0] != 10 {
        None
    } else {
        let nlen = be_val(s.subrange(1, 3));
        if 3 + nlen > s.len() {
            None
        } else {
            match nbt_compound_body_extent(s.skip(3 + nlen as int), NBT_MAX_DEPTH as nat) {
                None => None,
                Some(b) => Some((3 + nlen + b) as nat),
            }
        }
    }
}

proof fn lemma_payload_extent_le(s: Seq<u8>, tag: u8, depth: nat)
    ensures
        nbt_payload_extent(s, tag, depth) matches Some(n) ==> n <= s.len(),
    decreases depth, s.len(), 0nat,
{
    if tag == 9 {
        if s.len() >= 5 {
            let count = signed_of_bits(be_val(s.subrange(1, 5)), 0x100000000);
            if count > 0 && s[0] != 0 && depth > 0 {
                lemma_list_extent_le(s.skip(5), s[0], count as nat, (depth - 1) as nat);
            }
        }
    } else if tag == 10 {
        if depth > 0 {
            lemma_body_extent_le(s, (depth - 1) as nat);
        }
    }
}

proof fn lemma_list_extent_le(s: Seq<u8>, elem: u8, count: nat, depth: nat)
    ensures
        nbt_list_extent(s, elem, count, depth) matches Some(n) ==> n <= s.len(),
    decreases depth, s.len(), count,
{
    if count > 0 {
        lemma_payload_extent_le(s, elem, depth);
        match nbt_payload_extent(s, elem, depth) {
            Some(p) => {
                if p <= s.len() {
                    lemma_list_extent_le(s.skip(p as int), elem, (count - 1) as nat, depth);
                }
            },
            None => {},
        }
    }
}

proof fn lemma_body_extent_le(s: Seq<u8>, depth: nat)
    ensures
        nbt_compound_body_extent(s, depth) matches Some(n) ==> n <= s.len(),
    decreases depth, s.len(), 1nat,
{
    if s.len() >= 3 && s[0] != 0 {
        let nlen = be_val(s.subrange(1, 3));
        if 3 + nlen <= s.len() {
            lemma_payload_extent_le(s.skip(3 + nlen as int), s[0], depth);
            match nbt_payload_extent(s.skip(3 + nlen as int), s[0], depth) {
                Some(p) => {
                    let consumed = 3 + nlen + p;
                    if consumed <= s.len() {
                        lemma_body_extent_le(s.skip(consumed as int), depth);
                    }
                },
                None => {},
            }
        }
    }
}

proof fn lemma_payload_extent_prefix(s: Seq<u8>, t: Seq<u8>, tag: u8, depth: nat)
    requires
        nbt_payload_extent(s, tag, depth) matches Some(n) && n <= t.len() && t.take(n as int)
            == s.take(n as int),
    ensures
        nbt_payload_extent(t, tag, depth) == nbt_payload_extent(s, tag, depth),
    decreases depth, s.len(), 0nat,
{
    lemma_payload_extent_le(s, tag, depth);
    let n = nbt_payload_extent(s, tag, depth)->Some_0;
    assert(forall|i: int| 0 <= i < n ==> t[i] == s[i]) by {
        assert(forall|i: int| 0 <= i < n ==> t.take(n as int)[i] == t[i]);
        assert(forall|i: int| 0 <= i < n ==> s.take(n as int)[i] == s[i]);
    }
    if tag == 7 || tag == 11 || tag == 12 {
        assert(t.subrange(0, 4) =~= s.subrange(0, 4));
    } else if tag == 8 {
        assert(t.subrange(0, 2) =~= s.subrange(0, 2));
    } else if tag == 9 {
        assert(t.subrange(1, 5) =~= s.subrange(1, 5));
        let elem = s[0];
        let count = signed_of_bits(be_val(s.subrange(1, 5)), 0x100000000);
        if count > 0 && elem != 0 && depth > 0 {
            match nbt_list_extent(s.skip(5), elem, count as nat, (depth - 1) as nat) {
                Some(m) => {
                    lemma_list_extent_le(s.skip(5), elem, count as nat, (depth - 1) as nat);
                    assert(n == 5 + m);
                    assert(t.skip(5).take(m as int) =~= s.skip(5).take(m as int));
                    lemma_list_extent_prefix(
                        s.skip(5),
                        t.skip(5),
                        elem,
                        count as nat,
                        (depth - 1) as nat,
                    );
                },
                None => {},
            }
        }
    } else if tag == 10 {
        if depth > 0 {
            lemma_body_extent_prefix(s, t, (depth - 1) as nat);
        }
    }
}

proof fn lemma_list_extent_prefix(s: Seq<u8>, t: Seq<u8>, elem: u8, count: nat, depth: nat)
    requires
        nbt_list_extent(s, elem, count, depth) matches Some(n) && n <= t.len() && t.take(n as int)
            == s.take(n as int),
    ensures
        nbt_list_extent(t, elem, count, depth) == nbt_list_extent(s, elem, count, depth),
    decreases depth, s.len(), count,
{
    if count > 0 {
        lemma_list_extent_le(s, elem, count, depth);
        let n = nbt_list_extent(s, elem, count, depth)->Some_0;
        assert(forall|i: int| 0 <= i < n ==> t[i] == s[i]) by {
            assert(forall|i: int| 0 <= i < n ==> t.take(n as int)[i] == t[i]);
            assert(forall|i: int| 0 <= i < n ==> s.take(n as int)[i] == s[i]);
        }
        match nbt_payload_extent(s, elem, depth) {
            Some(p) => {
                match nbt_list_extent(s.skip(p as int), elem, (count - 1) as nat, depth) {
                    Some(r) => {
                        assert(n == p + r);
                        assert(t.take(p as int) =~= s.take(p as int));
                        lemma_payload_extent_prefix(s, t, elem, depth);
                        assert(t.skip(p as int).take(r as int) =~= s.skip(p as int).take(
                            r as int,
                        ));
                        lemma_list_extent_prefix(
                            s.skip(p as int),
                            t.skip(p as int),
                            elem,
                            (count - 1) as nat,
                            depth,
                        );
                    },
                    None => {},
                }
            },
            None => {},
        }
    }
}

proof fn lemma_body_extent_prefix(s: Seq<u8>, t: Seq<u8>, depth: nat)
    requires
        nbt_compound_body_extent(s, depth) matches Some(n) && n <= t.len() && t.take(n as int)
            == s.take(n as int),
    ensures
        nbt_compound_body_extent(t, depth) == nbt_compound_body_extent(s, depth),
    decreases depth, s.len(), 1nat,
{
    lemma_body_extent_le(s, depth);
    let n = nbt_compound_body_extent(s, depth)->Some_0;
    assert(forall|i: int| 0 <= i < n ==> t[i] == s[i]) by {
        assert(forall|i: int| 0 <= i < n ==> t.take(n as int)[i] == t[i]);
        assert(forall|i: int| 0 <= i < n ==> s.take(n as int)[i] == s[i]);
    }
    if s[0] == 0 {
    } else {
        let tag = s[0];
        let nlen = be_val(s.subrange(1, 3));
        let s1 = s.skip(3 + nlen as int);
        lemma_payload_extent_le(s1, tag, depth);
        match nbt_payload_extent(s1, tag, depth) {
            Some(p) => {
                let consumed = 3 + nlen + p;
                match nbt_compound_body_extent(s.skip(consumed as int), depth) {
                    Some(r) => {
                        assert(n == consumed + r);
                        assert(t.subrange(1, 3) =~= s.subrange(1, 3));
                        let t1 = t.skip(3 + nlen as int);
                        assert(t1.take(p as int) =~= s1.take(p as int));
                        lemma_payload_extent_prefix(s1, t1, tag, depth);
                        lemma_body_extent_le(s.skip(consumed as int), depth);
                        assert(t.skip(consumed as int).take(r as int) =~= s.skip(
                            consumed as int,
                        ).take(r as int));
                        lemma_body_extent_prefix(
                            s.skip(consumed as int),
                            t.skip(consumed as int),
                            depth,
                        );
                    },
                    None => {},
                }
            },
            None => {},
        }
    }
}

/// The extent of a compound tag depends only on the tag's own bytes: any
/// source that starts with those bytes scans to the same extent, whatever
/// follows them.
pub proof fn lemma_nbt_extent_prefix(s: Seq<u8>, t: Seq<u8>)
    requires
        nbt_extent(s) matches Some(n) && n <= t.len() && t.take(n as int) == s.take(n as int),
    ensures
        nbt_extent(t) == nbt_extent(s),
{
    let n = nbt_extent(s)->Some_0;
    let nlen = be_val(s.subrange(1, 3));
    let s1 = s.skip(3 + nlen as int);
    lemma_body_extent_le(s1, NBT_MAX_DEPTH as nat);
    match nbt_compound_body_extent(s1, NBT_MAX_DEPTH as nat) {
        Some(b) => {
            assert(n == 3 + nlen + b);
            assert(forall|i: int| 0 <= i < n ==> t[i] == s[i]) by {
                assert(forall|i: int| 0 <= i < n ==> t.take(n as int)[i] == t[i]);
                assert(forall|i: int| 0 <= i < n ==> s.take(n as int)[i] == s[i]);
            }
            assert(t.subrange(1, 3) =~= s.subrange(1, 3));
            let t1 = t.skip(3 + nlen as int);
            assert(t1.take(b as int) =~= s1.take(b as int));
            lemma_body_extent_prefix(s1, t1, NBT_MAX_DEPTH as nat);
        },
        None => {},
    }
}

/// The unsigned 16-bit big-endian value at `pos`.
fn be2_at(data: &Vec<u8>, pos: usize) -> (r: usize)
    requires
        pos + 2 <= data@.len(),
    ensures
        r == be_val(data@.subrange(pos as int, pos + 2)),
        r < 0x10000,
{
    let dlen = data.len();
    proof {
        assert(pos + 2 <= dlen);
    }
    let r = (data[pos] as usize) * 256 + (data[pos + 1] as usize);
    proof {
        let s2 = data@.subrange(pos as int, pos + 2);
        let s1 = data@.subrange(pos as int, pos + 1);
        assert(s1.drop_last() =~= Seq::<u8>::empty());
        assert(s1.last() == data@[pos as int]);
        assert(be_val(Seq::<u8>::empty()) == 0);
        assert(be_val(s1) == data@[pos as int]);
        assert(s2.drop_last() =~= s1);
        assert(s2.last() == data@[pos + 1]);
        assert(be_val(s2) == 256 * be_val(s1) + data@[pos + 1]);
    }
    r
}

/// The signed 32-bit big-endian value at `pos`.
fn be4_i32_at(data: &Vec<u8>, pos: usize) -> (r: i64)
    requires
        pos + 4 <= data@.len(),
    ensures
        r as int == signed_of_bits(be_val(data@.subrange(pos as int, pos + 4)), 0x100000000),
        -0x80000000 <= r <= 0x7fffffff,
{
    let dlen = data.len();
    proof {
        assert(pos + 4 <= dlen);
    }
    let v: u64 = (data[pos] as u64) * 0x1000000 + (data[pos + 1] as u64) * 0x10000 + (data[pos + 2]
        as u64) * 0x100 + (data[pos + 3] as u64);
    proof {
        let s4 = data@.subrange(pos as int, pos + 4);
        let s3 = data@.subrange(pos as int, pos + 3);
        let s2 = data@.subrange(pos as int, pos + 2);
        let s1 = data@.subrange(pos as int, pos + 1);
        assert(s1.drop_last() =~= Seq::<u8>::empty());
        assert(s1.last() == data@[pos as int]);
        assert(be_val(Seq::<u8>::empty()) == 0);
        assert(be_val(s1) == data@[pos as int]);
        assert(s2.drop_last() =~= s1);
        assert(s2.last() == data@[pos + 1]);
        assert(be_val(s2) == 256 * be_val(s1) + data@[pos + 1]);
        assert(s3.drop_last() =~= s2);
        assert(s3.last() == data@[pos + 2]);
        assert(be_val(s3) == 256 * be_val(s2) + data@[pos + 2]);
        assert(s4.drop_last() =~= s3);
        assert(s4.last() == data@[pos + 3]);
        assert(be_val(s4) == 256 * be_val(s3) + data@[pos + 3]);
    }
    if v < 0x80000000 {
        v as i64
    } else {
        (v as i64) - 0x100000000i64
    }
}

/// Scan one payload of tag `tag` at `pos`.
fn scan_payload(data: &Vec<u8>, pos: usize, tag: u8, depth: u64) -> (r: Option<usize>)
    requires
        pos <= data@.len(),
    ensures
        match r {
            Some(n) => nbt_payload_extent(data@.skip(pos as int), tag, depth as nat) == Some(
                n as nat,
            ) && pos + n <= data@.len(),
            None => nbt_payload_extent(data@.skip(pos as int), tag, depth as nat) == None::<nat>,
        },
    decreases depth, data@.len() - pos, 0nat,
{
    let ghost s = data@.skip(pos as int);
    let remaining = data.len() - pos;
    if tag == 1 {
        if remaining >= 1 {
            Some(1)
        } else {
            None
        }
    } else if tag == 2 {
        if remaining >= 2 {
            Some(2)
        } else {
            None
        }
    } else if tag == 3 || tag == 5 {
        if remaining >= 4 {
            Some(4)
        } else {
            None
        }
    } else if tag == 4 || tag == 6 {
        if remaining >= 8 {
            Some(8)
        } else {
            None
        }
    } else if tag == 7 || tag == 11 || tag == 12 {
        let width: u64 = if tag == 7 {
            1
        } else if tag == 11 {
            4
        } else {
            8
        };
        if remaining < 4 {
            return None;
        }
        proof {
            assert(s.subrange(0, 4) =~= data@.subrange(pos as int, pos + 4));
        }
        let count = be4_i32_at(data, pos);
        if count < 0 {
            return None;
        }
        let total: u64 = 4 + (count as u64) * width;
        if total > remaining as u64 {
            return None;
        }
        Some(total as usize)
    } else if tag == 8 {
        if remaining < 2 {
            return None;
        }
        proof {
            assert(s.subrange(0, 2) =~= data@.subrange(pos as int, pos + 2));
        }
        let count = be2_at(data, pos);
        if count > remaining - 2 {
            return None;
        }
        Some(2 + count)
    } else if tag == 9 {
        if remaining < 5 {
            return None;
        }
        let elem = data[pos];
        proof {
            assert(s.subrange(1, 5) =~= data@.subrange(pos + 1, pos + 5));
            assert(s[0] == data@[pos as int]);
        }
        let count = be4_i32_at(data, pos + 1);
        if count < 0 {
            return None;
        }
        if count == 0 {
            return Some(5);
        }
        if elem == 0 || depth == 0 {
            return None;
        }
        proof {
            assert(s.skip(5) =~= data@.skip(pos + 5));
        }
        match scan_list(data, pos + 5, elem, count as usize, depth - 1) {
            None => None,
            Some(n) => Some(5 + n),
        }
    } else if tag == 10 {
        if depth == 0 {
            return None;
        }
        scan_compound_body(data, pos, depth - 1)
    } else {
        None
    }
}

/// Scan `count` list elements of tag `elem` at `pos`.
fn scan_list(data: &Vec<u8>, pos: usize, elem: u8, count: usize, depth: u64) -> (r: Option<usize>)
    requires
        pos <= data@.len(),
    ensures
        match r {
            Some(n) => nbt_list_extent(data@.skip(pos as int), elem, count as nat, depth as nat)
                == Some(n as nat) && pos + n <= data@.len(),
            None => nbt_list_extent(data@.skip(pos as int), elem, count as nat, depth as nat)
                == None::<nat>,
        },
    decreases depth, data@.len() - pos, count,
{
    if count == 0 {
        return Some(0);
    }
    let dlen = data.len();
    let p = match scan_payload(data, pos, elem, depth) {
        None => {
            return None;
        },
        Some(p) => p,
    };
    proof {
        assert(pos + p <= dlen);
        assert(data@.skip(pos as int).skip(p as int) =~= data@.skip(pos + p));
    }
    match scan_list(data, pos + p, elem, count - 1, depth) {
        None => None,
        Some(r) => Some(p + r),
    }
}

/// Scan a compound's body (entries up to and including the end tag) at
/// `pos`.
fn scan_compound_body(data: &Vec<u8>, pos: usize, depth: u64) -> (r: Option<usize>)
    requires
        pos <= data@.len(),
    ensures
        match r {
            Some(n) => nbt_compound_body_extent(data@.skip(pos as int), depth as nat) == Some(
                n as nat,
            ) && pos + n <= data@.len(),
            None => nbt_compound_body_extent(data@.skip(pos as int), depth as nat) == None::<nat>,
        },
    decreases depth, data@.len() - pos, 1nat,
{
    let ghost s = data@.skip(pos as int);
    let remaining = data.len() - pos;
    if remaining == 0 {
        return None;
    }
    let tag = data[pos];
    proof {
        assert(s[0] == data@[pos as int]);
    }
    if tag == 0 {
        return Some(1);
    }
    if remaining < 3 {
        return None;
    }
    proof {
        assert(s.subrange(1, 3) =~= data@.subrange(pos + 1, pos + 3));
    }
    let nlen = be2_at(data, pos + 1);
    if nlen > remaining - 3 {
        return None;
    }
    proof {
        assert(s.skip(3 + nlen as int) =~= data@.skip(pos + 3 + nlen));
    }
    let p = match scan_payload(data, pos + 3 + nlen, tag, depth) {
        None => {
            return None;
        },
        Some(p) => p,
    };
    let consumed = 3 + nlen + p;
    proof {
        assert(s.skip(consumed as int) =~= data@.skip(pos + consumed));
    }
    match scan_compound_body(data, pos + consumed, depth) {
        None => None,
        Some(r) => Some(consumed + r),
    }
}

/// Find where the named compound tag starting at `pos` ends: its length in
/// bytes, or nothing when the bytes are not one well-formed compound tag.
fn nbt_scan(data: &Vec<u8>, pos: usize) -> (r: Option<usize>)
    requires
        pos <= data@.len(),
    ensures
        match r {
            Some(n) => {
                &&& nbt_extent(data@.skip(pos as int)) == Some(n as nat)
                &&& 1 <= n <= data@.len() - pos
                &&& data@[pos as int] == 10
            },
            None => nbt_extent(data@.skip(pos as int)) == None::<nat>,
        },
{
    let ghost s = data@.skip(pos as int);
    let remaining = data.len() - pos;
    if remaining < 3 {
        return None;
    }
    proof {
        assert(s[0] == data@[pos as int]);
    }
    if data[pos] != 10 {
        return None;
    }
    proof {
        assert(s.subrange(1, 3) =~= data@.subrange(pos + 1, pos + 3));
    }
    let nlen = be2_at(data, pos + 1);
    if nlen > remaining - 3 {
        return None;
    }
    proof {
        assert(s.skip(3 + nlen as int) =~= data@.skip(pos + 3 + nlen));
    }
    match scan_compound_body(data, pos + 3 + nlen, NBT_MAX_DEPTH) {
        None => None,
        Some(b) => Some(3 + nlen + b),
    }
}

/// One serialized compound tag, carried as its raw bytes. Building and
/// inspecting the tag's contents is the NBT sub-codec's business; this
/// codec writes the bytes through and, on decode, takes exactly one
/// compound tag off the stream.
#[derive(Clone, Debug, Default, PartialEq, Eq)]
pub struct Nbt(pub Vec<u8>);

impl MinecraftIo for Nbt {
    type M = Seq<u8>;

    open spec fn model(&self) -> Seq<u8> {
        self.0@
    }

    /// The carried bytes are exactly one well-formed compound tag: the
    /// scanner finds them and nothing less. In particular they are nonempty
    /// and never start with the end-tag byte (0), which marks an absent tag
    /// in enclosing formats.
    open spec fn wf(&self) -> bool {
        nbt_extent(self.0@) == Some(self.0@.len() as nat)
    }

    open spec fn wire(&self) -> Seq<u8> {
        self.0@
    }

    open spec fn dec(s: Seq<u8>) -> Result<(Seq<u8>, nat), DecodeError> {
        match nbt_extent(s) {
            Some(n) => if 1 <= n <= s.len() {
                Ok((s.take(n as int), n))
            } else {
                Err(DecodeError::InvalidNbt)
            },
            None => Err(DecodeError::InvalidNbt),
        }
    }

    fn minecraft_write(&self, writer: &mut Vec<u8>) {
        writer.extend_from_slice(self.0.as_slice());
    }

    fn minecraft_read(reader: &mut Reader) -> (r: Result<Self, DecodeError>) {
        let ghost s0 = reader.rest();
        let n = match nbt_scan(&reader.data, reader.pos) {
            Some(n) => n,
            None => {
                return Err(DecodeError::InvalidNbt);
            },
        };
        match reader.take(n) {
            Some(bytes) => {
                proof {
                    assert(bytes@.take(n as int) =~= bytes@);
                    lemma_nbt_extent_prefix(s0, bytes@);
                }
                Ok(Nbt(bytes))
            },
            None => {
                proof {
                    assert(false);
                }
                Err(DecodeError::InvalidNbt)
            },
        }
    }
}

/// Nbt round trip: a tag whose bytes are one well-formed compound decodes
/// back to exactly those bytes and consumes exactly them, whatever bytes
/// follow.
pub proof fn lemma_nbt_round_trip(v: &Nbt, rest: Seq<u8>)
    requires
        v.wf(),
    ensures
        <Nbt as MinecraftIo>::dec(v.wire() + rest) == Ok::<(Seq<u8>, nat), DecodeError>(
            (v.0@, v.0@.len() as nat),
        ),
{
    let b = v.0@;
    let t = b + rest;
    assert(nbt_extent(b) == Some(b.len() as nat));
    assert(b.len() >= 3);
    assert(b.take(b.len() as int) =~= b);
    assert(t.take(b.len() as int) =~= b);
    lemma_nbt_extent_prefix(b, t);
}

} // verus!
