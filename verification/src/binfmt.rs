//! The binary codec for the store body: little-endian fixed-width numbers,
//! strings as a character count followed by one 32-bit scalar per character,
//! one tag byte per optional or union value, and count-prefixed tables in
//! ascending key order. The reader accepts exactly what the writer produces.
use vstd::prelude::*;
use vstd::string::StrSliceExecFns;
use crate::tags::{TagValue, TagValueV, TagsMap};
use crate::omap::{OrderedMap, KeySet, map_sorted, set_sorted, build_map, build_keyset};
use crate::db::{Db, DbV, FileData, FileDataV};
use crate::json::{dbv_wf, dbv_ranged, int_ranged, tv_ranged, opt_tv_ranged, opt_int_ranged,
    tags_ranged, entry_ranged, files_ranged};

verus! {

/// The eight little-endian bytes of a value below 2^64.
pub open spec fn u64_le(x: int) -> Seq<u8> {
    seq![
        (x % 256) as u8,
        ((x / 256) % 256) as u8,
        ((x / 65536) % 256) as u8,
        ((x / 16777216) % 256) as u8,
        ((x / 4294967296) % 256) as u8,
        ((x / 1099511627776) % 256) as u8,
        ((x / 281474976710656) % 256) as u8,
        ((x / 72057594037927936) % 256) as u8,
    ]
}

/// The value of eight little-endian bytes.
pub open spec fn le64(b: Seq<u8>) -> int {
    b[0] + 256 * (b[1] as int) + 65536 * (b[2] as int) + 16777216 * (b[3] as int) + 4294967296 * (
    b[4] as int) + 1099511627776 * (b[5] as int) + 281474976710656 * (b[6] as int)
        + 72057594037927936 * (b[7] as int)
}

pub proof fn lemma_u64_le_rt(x: int)
    requires
        0 <= x < 0x10000000000000000,
    ensures
        u64_le(x).len() == 8,
        le64(u64_le(x)) == x,
{
    assert(x == x % 256 + 256 * (x / 256));
    assert(x / 256 == (x / 256) % 256 + 256 * (x / 65536)) by {
        assert(x / 256 / 256 == x / 65536);
    }
    assert(x / 65536 == (x / 65536) % 256 + 256 * (x / 16777216)) by {
        assert(x / 65536 / 256 == x / 16777216);
    }
    assert(x / 16777216 == (x / 16777216) % 256 + 256 * (x / 4294967296)) by {
        assert(x / 16777216 / 256 == x / 4294967296);
    }
    assert(x / 4294967296 == (x / 4294967296) % 256 + 256 * (x / 1099511627776)) by {
        assert(x / 4294967296 / 256 == x / 1099511627776);
    }
    assert(x / 1099511627776 == (x / 1099511627776) % 256 + 256 * (x / 281474976710656)) by {
        assert(x / 1099511627776 / 256 == x / 281474976710656);
    }
    assert(x / 281474976710656 == (x / 281474976710656) % 256 + 256 * (x / 72057594037927936)) by {
        assert(x / 281474976710656 / 256 == x / 72057594037927936);
    }
    assert(x / 72057594037927936 < 256);
    assert(x / 72057594037927936 % 256 == x / 72057594037927936);
}

/// The four little-endian bytes of a value below 2^32.
pub open spec fn u32_le(x: int) -> Seq<u8> {
    seq![(x % 256) as u8, ((x / 256) % 256) as u8, ((x / 65536) % 256) as u8, ((x / 16777216)
        % 256) as u8]
}

/// The value of four little-endian bytes.
pub open spec fn le32(b: Seq<u8>) -> int {
    b[0] + 256 * (b[1] as int) + 65536 * (b[2] as int) + 16777216 * (b[3] as int)
}

pub proof fn lemma_u32_le_rt(x: int)
    requires
        0 <= x < 0x100000000,
    ensures
        u32_le(x).len() == 4,
        le32(u32_le(x)) == x,
{
    assert(x == x % 256 + 256 * (x / 256));
    assert(x / 256 == (x / 256) % 256 + 256 * (x / 65536)) by {
        assert(x / 256 / 256 == x / 65536);
    }
    assert(x / 65536 == (x / 65536) % 256 + 256 * (x / 16777216)) by {
        assert(x / 65536 / 256 == x / 16777216);
    }
    assert(x / 16777216 < 256);
    assert(x / 16777216 % 256 == x / 16777216);
}

pub proof fn lemma_le32_bounds(b: Seq<u8>)
    ensures
        0 <= le32(b) < 0x100000000,
{
}

/// A signed value as its two's-complement unsigned form.
pub open spec fn to_u64(v: int) -> int {
    if v >= 0 {
        v
    } else {
        v + 0x10000000000000000
    }
}

/// A two's-complement unsigned form read back as a signed value.
pub open spec fn from_u64(u: int) -> int {
    if u <= 0x7fffffffffffffff {
        u
    } else {
        u - 0x10000000000000000
    }
}

pub proof fn lemma_i64_rt(v: int)
    requires
        int_ranged(v),
    ensures
        0 <= to_u64(v) < 0x10000000000000000,
        from_u64(to_u64(v)) == v,
{
}

pub open spec fn parse_b_u64(s: Seq<u8>) -> Option<(int, Seq<u8>)> {
    if s.len() >= 8 {
        Some((le64(s.take(8)), s.skip(8)))
    } else {
        None
    }
}

pub proof fn lemma_parse_b_u64(x: int, rest: Seq<u8>)
    requires
        0 <= x < 0x10000000000000000,
    ensures
        parse_b_u64(u64_le(x) + rest) == Some((x, rest)),
{
    lemma_u64_le_rt(x);
    let e = u64_le(x) + rest;
    assert(e.take(8) =~= u64_le(x));
    assert(e.skip(8) =~= rest);
}

/// One character as the little-endian bytes of its scalar value.
pub open spec fn char_le(c: char) -> Seq<u8> {
    u32_le((c as u32) as int)
}

/// Reads one character: four bytes that must hold a Unicode scalar.
pub open spec fn parse_b_char(s: Seq<u8>) -> Option<(char, Seq<u8>)> {
    if s.len() >= 4 {
        let v = le32(s.take(4));
        if vstd::utf8::is_scalar(v as u32) {
            Some(((v as u32) as char, s.skip(4)))
        } else {
            None
        }
    } else {
        None
    }
}

pub proof fn lemma_parse_b_char(c: char, rest: Seq<u8>)
    ensures
        parse_b_char(char_le(c) + rest) == Some((c, rest)),
{
    vstd::utf8::char_is_scalar(c);
    lemma_u32_le_rt((c as u32) as int);
    let e = char_le(c) + rest;
    assert(e.take(4) =~= char_le(c));
    assert(e.skip(4) =~= rest);
    let v = le32(e.take(4));
    assert(v == (c as u32) as int);
    assert(v as u32 == c as u32);
    vstd::utf8::char_u32_cast(c, c as u32);
    assert((v as u32) as char == c);
}

pub open spec fn chars_le(s: Seq<char>) -> Seq<u8>
    decreases s.len(),
{
    if s.len() == 0 {
        Seq::empty()
    } else {
        char_le(s[0]) + chars_le(s.skip(1))
    }
}

/// Reads exactly `n` characters.
pub open spec fn parse_b_chars(s: Seq<u8>, n: nat) -> Option<(Seq<char>, Seq<u8>)>
    decreases n,
{
    if n == 0 {
        Some((Seq::empty(), s))
    } else {
        match parse_b_char(s) {
            None => None,
            Some(cr) => match parse_b_chars(cr.1, (n - 1) as nat) {
                None => None,
                Some(rr) => Some((seq![cr.0] + rr.0, rr.1)),
            },
        }
    }
}

pub proof fn lemma_parse_b_chars(s: Seq<char>, rest: Seq<u8>)
    ensures
        parse_b_chars(chars_le(s) + rest, s.len()) == Some((s, rest)),
    decreases s.len(),
{
    if s.len() == 0 {
        assert(chars_le(s) + rest =~= rest);
        assert(Seq::<char>::empty() =~= s);
    } else {
        let e = chars_le(s) + rest;
        assert(e =~= char_le(s[0]) + (chars_le(s.skip(1)) + rest));
        lemma_parse_b_char(s[0], chars_le(s.skip(1)) + rest);
        lemma_parse_b_chars(s.skip(1), rest);
        assert(seq![s[0]] + s.skip(1) =~= s);
    }
}

/// A string: its character count, then one scalar per character.
pub open spec fn emit_b_string(s: Seq<char>) -> Seq<u8> {
    u64_le(s.len() as int) + chars_le(s)
}

pub open spec fn parse_b_string(s: Seq<u8>) -> Option<(Seq<char>, Seq<u8>)> {
    match parse_b_u64(s) {
        None => None,
        Some(nr) => parse_b_chars(nr.1, nr.0 as nat),
    }
}

pub proof fn lemma_parse_b_string(s: Seq<char>, rest: Seq<u8>)
    requires
        s.len() < 0x10000000000000000,
    ensures
        parse_b_string(emit_b_string(s) + rest) == Some((s, rest)),
{
    let e = emit_b_string(s) + rest;
    assert(e =~= u64_le(s.len() as int) + (chars_le(s) + rest));
    lemma_parse_b_u64(s.len() as int, chars_le(s) + rest);
    lemma_parse_b_chars(s, rest);
}

/// A signed 64-bit value in its two's-complement form.
pub open spec fn emit_b_i64(v: int) -> Seq<u8> {
    u64_le(to_u64(v))
}

pub open spec fn parse_b_i64(s: Seq<u8>) -> Option<(int, Seq<u8>)> {
    match parse_b_u64(s) {
        None => None,
        Some(nr) => Some((from_u64(nr.0), nr.1)),
    }
}

pub proof fn lemma_parse_b_i64(v: int, rest: Seq<u8>)
    requires
        int_ranged(v),
    ensures
        parse_b_i64(emit_b_i64(v) + rest) == Some((v, rest)),
{
    lemma_i64_rt(v);
    lemma_parse_b_u64(to_u64(v), rest);
}

/// An optional value: one tag byte, then the payload when present.
pub open spec fn emit_b_opt_i64(v: Option<int>) -> Seq<u8> {
    match v {
        None => seq![0u8],
        Some(x) => seq![1u8] + emit_b_i64(x),
    }
}

pub open spec fn parse_b_opt_i64(s: Seq<u8>) -> Option<(Option<int>, Seq<u8>)> {
    if s.len() >= 1 && s[0] == 0u8 {
        Some((None, s.skip(1)))
    } else if s.len() >= 1 && s[0] == 1u8 {
        match parse_b_i64(s.skip(1)) {
            None => None,
            Some(p) => Some((Some(p.0), p.1)),
        }
    } else {
        None
    }
}

pub proof fn lemma_parse_b_opt_i64(v: Option<int>, rest: Seq<u8>)
    requires
        opt_int_ranged(v),
    ensures
        parse_b_opt_i64(emit_b_opt_i64(v) + rest) == Some((v, rest)),
{
    let e = emit_b_opt_i64(v) + rest;
    match v {
        None => {
            assert(e[0] == 0u8);
            assert(e.skip(1) =~= rest);
        },
        Some(x) => {
            assert(e[0] == 1u8);
            assert(e.skip(1) =~= emit_b_i64(x) + rest);
            lemma_parse_b_i64(x, rest);
        },
    }
}

pub open spec fn emit_b_opt_string(v: Option<Seq<char>>) -> Seq<u8> {
    match v {
        None => seq![0u8],
        Some(s) => seq![1u8] + emit_b_string(s),
    }
}

pub open spec fn parse_b_opt_string(s: Seq<u8>) -> Option<(Option<Seq<char>>, Seq<u8>)> {
    if s.len() >= 1 && s[0] == 0u8 {
        Some((None, s.skip(1)))
    } else if s.len() >= 1 && s[0] == 1u8 {
        match parse_b_string(s.skip(1)) {
            None => None,
            Some(p) => Some((Some(p.0), p.1)),
        }
    } else {
        None
    }
}

pub proof fn lemma_parse_b_opt_string(v: Option<Seq<char>>, rest: Seq<u8>)
    requires
        match v {
            Some(s) => s.len() < 0x10000000000000000,
            None => true,
        },
    ensures
        parse_b_opt_string(emit_b_opt_string(v) + rest) == Some((v, rest)),
{
    let e = emit_b_opt_string(v) + rest;
    match v {
        None => {
            assert(e[0] == 0u8);
            assert(e.skip(1) =~= rest);
        },
        Some(s) => {
            assert(e[0] == 1u8);
            assert(e.skip(1) =~= emit_b_string(s) + rest);
            lemma_parse_b_string(s, rest);
        },
    }
}

/// A tag payload: one variant byte, then the variant's data.
pub open spec fn emit_b_tag_value(v: TagValueV) -> Seq<u8> {
    match v {
        TagValueV::Number(n) => seq![0u8] + emit_b_i64(n),
        TagValueV::Bool(b) => seq![1u8] + (if b {
            seq![1u8]
        } else {
            seq![0u8]
        }),
        TagValueV::Url(s) => seq![2u8] + emit_b_string(s),
        TagValueV::Simple(s) => seq![3u8] + emit_b_string(s),
    }
}

pub open spec fn parse_b_tag_value(s: Seq<u8>) -> Option<(TagValueV, Seq<u8>)> {
    if s.len() < 1 {
        None
    } else if s[0] == 0u8 {
        match parse_b_i64(s.skip(1)) {
            None => None,
            Some(p) => Some((TagValueV::Number(p.0), p.1)),
        }
    } else if s[0] == 1u8 {
        if s.len() >= 2 && s[1] == 1u8 {
            Some((TagValueV::Bool(true), s.skip(2)))
        } else if s.len() >= 2 && s[1] == 0u8 {
            Some((TagValueV::Bool(false), s.skip(2)))
        } else {
            None
        }
    } else if s[0] == 2u8 {
        match parse_b_string(s.skip(1)) {
            None => None,
            Some(p) => Some((TagValueV::Url(p.0), p.1)),
        }
    } else if s[0] == 3u8 {
        match parse_b_string(s.skip(1)) {
            None => None,
            Some(p) => Some((TagValueV::Simple(p.0), p.1)),
        }
    } else {
        None
    }
}

/// Every string inside the payload is shorter than 2^64 characters.
pub open spec fn tv_sized(v: TagValueV) -> bool {
    match v {
        TagValueV::Url(s) => s.len() < 0x10000000000000000,
        TagValueV::Simple(s) => s.len() < 0x10000000000000000,
        _ => true,
    }
}

pub proof fn lemma_parse_b_tag_value(v: TagValueV, rest: Seq<u8>)
    requires
        tv_ranged(v),
        tv_sized(v),
    ensures
        parse_b_tag_value(emit_b_tag_value(v) + rest) == Some((v, rest)),
{
    let e = emit_b_tag_value(v) + rest;
    match v {
        TagValueV::Number(n) => {
            assert(e[0] == 0u8);
            assert(e.skip(1) =~= emit_b_i64(n) + rest);
            lemma_parse_b_i64(n, rest);
        },
        TagValueV::Bool(b) => {
            assert(e[0] == 1u8);
            if b {
                assert(e[1] == 1u8);
            } else {
                assert(e[1] == 0u8);
            }
            assert(e.skip(2) =~= rest);
        },
        TagValueV::Url(s) => {
            assert(e[0] == 2u8);
            assert(e.skip(1) =~= emit_b_string(s) + rest);
            lemma_parse_b_string(s, rest);
        },
        TagValueV::Simple(s) => {
            assert(e[0] == 3u8);
            assert(e.skip(1) =~= emit_b_string(s) + rest);
            lemma_parse_b_string(s, rest);
        },
    }
}

pub open spec fn emit_b_opt_tag_value(v: Option<TagValueV>) -> Seq<u8> {
    match v {
        None => seq![0u8],
        Some(t) => seq![1u8] + emit_b_tag_value(t),
    }
}

pub open spec fn parse_b_opt_tag_value(s: Seq<u8>) -> Option<(Option<TagValueV>, Seq<u8>)> {
    if s.len() >= 1 && s[0] == 0u8 {
        Some((None, s.skip(1)))
    } else if s.len() >= 1 && s[0] == 1u8 {
        match parse_b_tag_value(s.skip(1)) {
            None => None,
            Some(p) => Some((Some(p.0), p.1)),
        }
    } else {
        None
    }
}

pub open spec fn opt_tv_sized(v: Option<TagValueV>) -> bool {
    match v {
        Some(t) => tv_sized(t),
        None => true,
    }
}

pub proof fn lemma_parse_b_opt_tag_value(v: Option<TagValueV>, rest: Seq<u8>)
    requires
        opt_tv_ranged(v),
        opt_tv_sized(v),
    ensures
        parse_b_opt_tag_value(emit_b_opt_tag_value(v) + rest) == Some((v, rest)),
{
    let e = emit_b_opt_tag_value(v) + rest;
    match v {
        None => {
            assert(e[0] == 0u8);
            assert(e.skip(1) =~= rest);
        },
        Some(t) => {
            assert(e[0] == 1u8);
            assert(e.skip(1) =~= emit_b_tag_value(t) + rest);
            lemma_parse_b_tag_value(t, rest);
        },
    }
}

pub open spec fn emit_b_tag_pairs(ps: Seq<(Seq<char>, Option<TagValueV>)>) -> Seq<u8>
    decreases ps.len(),
{
    if ps.len() == 0 {
        Seq::empty()
    } else {
        emit_b_string(ps[0].0) + emit_b_opt_tag_value(ps[0].1) + emit_b_tag_pairs(ps.skip(1))
    }
}

pub open spec fn parse_b_tag_pairs(s: Seq<u8>, n: nat) -> Option<
    (Seq<(Seq<char>, Option<TagValueV>)>, Seq<u8>),
>
    decreases n,
{
    if n == 0 {
        Some((Seq::empty(), s))
    } else {
        match parse_b_string(s) {
            None => None,
            Some(kr) => match parse_b_opt_tag_value(kr.1) {
                None => None,
                Some(vr) => match parse_b_tag_pairs(vr.1, (n - 1) as nat) {
                    None => None,
                    Some(rr) => Some((seq![(kr.0, vr.0)] + rr.0, rr.1)),
                },
            },
        }
    }
}

pub open spec fn tags_sized(ps: Seq<(Seq<char>, Option<TagValueV>)>) -> bool {
    &&& ps.len() < 0x10000000000000000
    &&& forall|i: int|
        0 <= i < ps.len() ==> (#[trigger] ps[i]).0.len() < 0x10000000000000000 && opt_tv_sized(
            ps[i].1,
        )
}

#[verifier::rlimit(100)]
pub proof fn lemma_parse_b_tag_pairs(ps: Seq<(Seq<char>, Option<TagValueV>)>, rest: Seq<u8>)
    requires
        tags_ranged(ps),
        tags_sized(ps),
    ensures
        parse_b_tag_pairs(emit_b_tag_pairs(ps) + rest, ps.len()) == Some((ps, rest)),
    decreases ps.len(),
{
    if ps.len() == 0 {
        assert(emit_b_tag_pairs(ps) + rest =~= rest);
        assert(Seq::<(Seq<char>, Option<TagValueV>)>::empty() =~= ps);
    } else {
        let e = emit_b_tag_pairs(ps) + rest;
        let t = ps.skip(1);
        assert(forall|i: int| 0 <= i < t.len() ==> #[trigger] t[i] == ps[i + 1]);
        assert(e =~= emit_b_string(ps[0].0) + (emit_b_opt_tag_value(ps[0].1) + (emit_b_tag_pairs(t)
            + rest)));
        lemma_parse_b_string(ps[0].0, emit_b_opt_tag_value(ps[0].1) + (emit_b_tag_pairs(t) + rest));
        lemma_parse_b_opt_tag_value(ps[0].1, emit_b_tag_pairs(t) + rest);
        lemma_parse_b_tag_pairs(t, rest);
        assert(seq![(ps[0].0, ps[0].1)] + t =~= ps);
    }
}

/// A tag map: its entry count, then its pairs in ascending key order, which
/// the reader checks.
#[verifier::opaque]
pub open spec fn emit_b_tag_map(ps: Seq<(Seq<char>, Option<TagValueV>)>) -> Seq<u8> {
    u64_le(ps.len() as int) + emit_b_tag_pairs(ps)
}

#[verifier::opaque]
pub open spec fn parse_b_tag_map(s: Seq<u8>) -> Option<
    (Seq<(Seq<char>, Option<TagValueV>)>, Seq<u8>),
> {
    match parse_b_u64(s) {
        None => None,
        Some(nr) => match parse_b_tag_pairs(nr.1, nr.0 as nat) {
            None => None,
            Some(pr) => if map_sorted(pr.0) {
                Some(pr)
            } else {
                None
            },
        },
    }
}

pub proof fn lemma_parse_b_tag_map(ps: Seq<(Seq<char>, Option<TagValueV>)>, rest: Seq<u8>)
    requires
        tags_ranged(ps),
        tags_sized(ps),
        map_sorted(ps),
    ensures
        parse_b_tag_map(emit_b_tag_map(ps) + rest) == Some((ps, rest)),
{
    reveal(emit_b_tag_map);
    reveal(parse_b_tag_map);
    let e = emit_b_tag_map(ps) + rest;
    assert(e =~= u64_le(ps.len() as int) + (emit_b_tag_pairs(ps) + rest));
    lemma_parse_b_u64(ps.len() as int, emit_b_tag_pairs(ps) + rest);
    lemma_parse_b_tag_pairs(ps, rest);
}

pub open spec fn emit_b_keys(ks: Seq<Seq<char>>) -> Seq<u8>
    decreases ks.len(),
{
    if ks.len() == 0 {
        Seq::empty()
    } else {
        emit_b_string(ks[0]) + emit_b_keys(ks.skip(1))
    }
}

pub open spec fn parse_b_keys(s: Seq<u8>, n: nat) -> Option<(Seq<Seq<char>>, Seq<u8>)>
    decreases n,
{
    if n == 0 {
        Some((Seq::empty(), s))
    } else {
        match parse_b_string(s) {
            None => None,
            Some(kr) => match parse_b_keys(kr.1, (n - 1) as nat) {
                None => None,
                Some(rr) => Some((seq![kr.0] + rr.0, rr.1)),
            },
        }
    }
}

pub open spec fn keys_sized(ks: Seq<Seq<char>>) -> bool {
    &&& ks.len() < 0x10000000000000000
    &&& forall|i: int| 0 <= i < ks.len() ==> (#[trigger] ks[i]).len() < 0x10000000000000000
}

pub proof fn lemma_parse_b_keys(ks: Seq<Seq<char>>, rest: Seq<u8>)
    requires
        keys_sized(ks),
    ensures
        parse_b_keys(emit_b_keys(ks) + rest, ks.len()) == Some((ks, rest)),
    decreases ks.len(),
{
    if ks.len() == 0 {
        assert(emit_b_keys(ks) + rest =~= rest);
        assert(Seq::<Seq<char>>::empty() =~= ks);
    } else {
        let e = emit_b_keys(ks) + rest;
        let t = ks.skip(1);
        assert(forall|i: int| 0 <= i < t.len() ==> #[trigger] t[i] == ks[i + 1]);
        assert(e =~= emit_b_string(ks[0]) + (emit_b_keys(t) + rest));
        lemma_parse_b_string(ks[0], emit_b_keys(t) + rest);
        lemma_parse_b_keys(t, rest);
        assert(seq![ks[0]] + t =~= ks);
    }
}

/// A member set: its count, then its keys in ascending order, which the
/// reader checks.
pub open spec fn emit_b_key_set(ks: Seq<Seq<char>>) -> Seq<u8> {
    u64_le(ks.len() as int) + emit_b_keys(ks)
}

pub open spec fn parse_b_key_set(s: Seq<u8>) -> Option<(Seq<Seq<char>>, Seq<u8>)> {
    match parse_b_u64(s) {
        None => None,
        Some(nr) => match parse_b_keys(nr.1, nr.0 as nat) {
            None => None,
            Some(pr) => if set_sorted(pr.0) {
                Some(pr)
            } else {
                None
            },
        },
    }
}

pub proof fn lemma_parse_b_key_set(ks: Seq<Seq<char>>, rest: Seq<u8>)
    requires
        keys_sized(ks),
        set_sorted(ks),
    ensures
        parse_b_key_set(emit_b_key_set(ks) + rest) == Some((ks, rest)),
{
    let e = emit_b_key_set(ks) + rest;
    assert(e =~= u64_le(ks.len() as int) + (emit_b_keys(ks) + rest));
    lemma_parse_b_u64(ks.len() as int, emit_b_keys(ks) + rest);
    lemma_parse_b_keys(ks, rest);
}

/// A file entry: its four fields in their fixed order.
#[verifier::opaque]
pub open spec fn emit_b_entry(e: FileDataV) -> Seq<u8> {
    emit_b_tag_map(e.tags) + emit_b_opt_string(e.comment) + emit_b_i64(e.created) + emit_b_opt_i64(
        e.updated,
    )
}

#[verifier::opaque]
pub open spec fn parse_b_entry(s: Seq<u8>) -> Option<(FileDataV, Seq<u8>)> {
    match parse_b_tag_map(s) {
        None => None,
        Some(tr) => match parse_b_opt_string(tr.1) {
            None => None,
            Some(cr) => match parse_b_i64(cr.1) {
                None => None,
                Some(nr) => match parse_b_opt_i64(nr.1) {
                    None => None,
                    Some(ur) => Some(
                        (
                            FileDataV {
                                tags: tr.0,
                                comment: cr.0,
                                created: nr.0,
                                updated: ur.0,
                            },
                            ur.1,
                        ),
                    ),
                },
            },
        },
    }
}

pub open spec fn entry_sized(e: FileDataV) -> bool {
    &&& tags_sized(e.tags)
    &&& match e.comment {
        Some(c) => c.len() < 0x10000000000000000,
        None => true,
    }
}

#[verifier::rlimit(100)]
pub proof fn lemma_parse_b_entry(en: FileDataV, rest: Seq<u8>)
    requires
        entry_ranged(en),
        entry_sized(en),
        map_sorted(en.tags),
    ensures
        parse_b_entry(emit_b_entry(en) + rest) == Some((en, rest)),
{
    reveal(emit_b_entry);
    reveal(parse_b_entry);
    let e = emit_b_entry(en) + rest;
    let t3 = emit_b_opt_i64(en.updated) + rest;
    let t2 = emit_b_i64(en.created) + t3;
    let t1 = emit_b_opt_string(en.comment) + t2;
    assert(e =~= emit_b_tag_map(en.tags) + t1);
    lemma_parse_b_tag_map(en.tags, t1);
    lemma_parse_b_opt_string(en.comment, t2);
    lemma_parse_b_i64(en.created, t3);
    lemma_parse_b_opt_i64(en.updated, rest);
}

pub open spec fn emit_b_file_pairs(ps: Seq<(Seq<char>, FileDataV)>) -> Seq<u8>
    decreases ps.len(),
{
    if ps.len() == 0 {
        Seq::empty()
    } else {
        emit_b_string(ps[0].0) + emit_b_entry(ps[0].1) + emit_b_file_pairs(ps.skip(1))
    }
}

pub open spec fn parse_b_file_pairs(s: Seq<u8>, n: nat) -> Option<
    (Seq<(Seq<char>, FileDataV)>, Seq<u8>),
>
    decreases n,
{
    if n == 0 {
        Some((Seq::empty(), s))
    } else {
        match parse_b_string(s) {
            None => None,
            Some(kr) => match parse_b_entry(kr.1) {
                None => None,
                Some(vr) => match parse_b_file_pairs(vr.1, (n - 1) as nat) {
                    None => None,
                    Some(rr) => Some((seq![(kr.0, vr.0)] + rr.0, rr.1)),
                },
            },
        }
    }
}

pub open spec fn files_sized(ps: Seq<(Seq<char>, FileDataV)>) -> bool {
    &&& ps.len() < 0x10000000000000000
    &&& forall|i: int|
        0 <= i < ps.len() ==> (#[trigger] ps[i]).0.len() < 0x10000000000000000 && entry_sized(
            ps[i].1,
        )
}

#[verifier::rlimit(100)]
pub proof fn lemma_parse_b_file_pairs(ps: Seq<(Seq<char>, FileDataV)>, rest: Seq<u8>)
    requires
        files_ranged(ps),
        files_sized(ps),
        forall|i: int| 0 <= i < ps.len() ==> map_sorted((#[trigger] ps[i]).1.tags),
    ensures
        parse_b_file_pairs(emit_b_file_pairs(ps) + rest, ps.len()) == Some((ps, rest)),
    decreases ps.len(),
{
    if ps.len() == 0 {
        assert(emit_b_file_pairs(ps) + rest =~= rest);
        assert(Seq::<(Seq<char>, FileDataV)>::empty() =~= ps);
    } else {
        let e = emit_b_file_pairs(ps) + rest;
        let t = ps.skip(1);
        assert(forall|i: int| 0 <= i < t.len() ==> #[trigger] t[i] == ps[i + 1]);
        assert(e =~= emit_b_string(ps[0].0) + (emit_b_entry(ps[0].1) + (emit_b_file_pairs(t)
            + rest)));
        lemma_parse_b_string(ps[0].0, emit_b_entry(ps[0].1) + (emit_b_file_pairs(t) + rest));
        lemma_parse_b_entry(ps[0].1, emit_b_file_pairs(t) + rest);
        lemma_parse_b_file_pairs(t, rest);
        assert(seq![(ps[0].0, ps[0].1)] + t =~= ps);
    }
}

#[verifier::opaque]
pub open spec fn emit_b_file_map(ps: Seq<(Seq<char>, FileDataV)>) -> Seq<u8> {
    u64_le(ps.len() as int) + emit_b_file_pairs(ps)
}

#[verifier::opaque]
pub open spec fn parse_b_file_map(s: Seq<u8>) -> Option<(Seq<(Seq<char>, FileDataV)>, Seq<u8>)> {
    match parse_b_u64(s) {
        None => None,
        Some(nr) => match parse_b_file_pairs(nr.1, nr.0 as nat) {
            None => None,
            Some(pr) => if map_sorted(pr.0) {
                Some(pr)
            } else {
                None
            },
        },
    }
}

#[verifier::rlimit(100)]
pub proof fn lemma_parse_b_file_map(ps: Seq<(Seq<char>, FileDataV)>, rest: Seq<u8>)
    requires
        files_ranged(ps),
        files_sized(ps),
        map_sorted(ps),
        forall|i: int| 0 <= i < ps.len() ==> map_sorted((#[trigger] ps[i]).1.tags),
    ensures
        parse_b_file_map(emit_b_file_map(ps) + rest) == Some((ps, rest)),
{
    reveal(emit_b_file_map);
    reveal(parse_b_file_map);
    let e = emit_b_file_map(ps) + rest;
    assert(e =~= u64_le(ps.len() as int) + (emit_b_file_pairs(ps) + rest));
    lemma_parse_b_u64(ps.len() as int, emit_b_file_pairs(ps) + rest);
    lemma_parse_b_file_pairs(ps, rest);
}

pub open spec fn emit_b_coll_pairs(ps: Seq<(Seq<char>, Seq<Seq<char>>)>) -> Seq<u8>
    decreases ps.len(),
{
    if ps.len() == 0 {
        Seq::empty()
    } else {
        emit_b_string(ps[0].0) + emit_b_key_set(ps[0].1) + emit_b_coll_pairs(ps.skip(1))
    }
}

pub open spec fn parse_b_coll_pairs(s: Seq<u8>, n: nat) -> Option<
    (Seq<(Seq<char>, Seq<Seq<char>>)>, Seq<u8>),
>
    decreases n,
{
    if n == 0 {
        Some((Seq::empty(), s))
    } else {
        match parse_b_string(s) {
            None => None,
            Some(kr) => match parse_b_key_set(kr.1) {
                None => None,
                Some(vr) => match parse_b_coll_pairs(vr.1, (n - 1) as nat) {
                    None => None,
                    Some(rr) => Some((seq![(kr.0, vr.0)] + rr.0, rr.1)),
                },
            },
        }
    }
}

pub open spec fn colls_sized(ps: Seq<(Seq<char>, Seq<Seq<char>>)>) -> bool {
    &&& ps.len() < 0x10000000000000000
    &&& forall|i: int|
        0 <= i < ps.len() ==> (#[trigger] ps[i]).0.len() < 0x10000000000000000 && keys_sized(
            ps[i].1,
        )
}

#[verifier::rlimit(100)]
pub proof fn lemma_parse_b_coll_pairs(ps: Seq<(Seq<char>, Seq<Seq<char>>)>, rest: Seq<u8>)
    requires
        colls_sized(ps),
        forall|i: int| 0 <= i < ps.len() ==> set_sorted((#[trigger] ps[i]).1),
    ensures
        parse_b_coll_pairs(emit_b_coll_pairs(ps) + rest, ps.len()) == Some((ps, rest)),
    decreases ps.len(),
{
    if ps.len() == 0 {
        assert(emit_b_coll_pairs(ps) + rest =~= rest);
        assert(Seq::<(Seq<char>, Seq<Seq<char>>)>::empty() =~= ps);
    } else {
        let e = emit_b_coll_pairs(ps) + rest;
        let t = ps.skip(1);
        assert(forall|i: int| 0 <= i < t.len() ==> #[trigger] t[i] == ps[i + 1]);
        assert(e =~= emit_b_string(ps[0].0) + (emit_b_key_set(ps[0].1) + (emit_b_coll_pairs(t)
            + rest)));
        lemma_parse_b_string(ps[0].0, emit_b_key_set(ps[0].1) + (emit_b_coll_pairs(t) + rest));
        lemma_parse_b_key_set(ps[0].1, emit_b_coll_pairs(t) + rest);
        lemma_parse_b_coll_pairs(t, rest);
        assert(seq![(ps[0].0, ps[0].1)] + t =~= ps);
    }
}

#[verifier::opaque]
pub open spec fn emit_b_coll_map(ps: Seq<(Seq<char>, Seq<Seq<char>>)>) -> Seq<u8> {
    u64_le(ps.len() as int) + emit_b_coll_pairs(ps)
}

#[verifier::opaque]
pub open spec fn parse_b_coll_map(s: Seq<u8>) -> Option<
    (Seq<(Seq<char>, Seq<Seq<char>>)>, Seq<u8>),
> {
    match parse_b_u64(s) {
        None => None,
        Some(nr) => match parse_b_coll_pairs(nr.1, nr.0 as nat) {
            None => None,
            Some(pr) => if map_sorted(pr.0) {
                Some(pr)
            } else {
                None
            },
        },
    }
}

pub proof fn lemma_parse_b_coll_map(ps: Seq<(Seq<char>, Seq<Seq<char>>)>, rest: Seq<u8>)
    requires
        colls_sized(ps),
        map_sorted(ps),
        forall|i: int| 0 <= i < ps.len() ==> set_sorted((#[trigger] ps[i]).1),
    ensures
        parse_b_coll_map(emit_b_coll_map(ps) + rest) == Some((ps, rest)),
{
    reveal(emit_b_coll_map);
    reveal(parse_b_coll_map);
    let e = emit_b_coll_map(ps) + rest;
    assert(e =~= u64_le(ps.len() as int) + (emit_b_coll_pairs(ps) + rest));
    lemma_parse_b_u64(ps.len() as int, emit_b_coll_pairs(ps) + rest);
    lemma_parse_b_coll_pairs(ps, rest);
}

/// The binary body of a whole store: its six fields in their fixed order.
pub open spec fn emit_bin_db(d: DbV) -> Seq<u8> {
    emit_b_file_map(d.files) + emit_b_coll_map(d.collections) + emit_b_tag_map(d.tags)
        + emit_b_opt_string(d.comment) + emit_b_i64(d.created) + emit_b_opt_i64(d.updated)
}

pub open spec fn parse_bin_db(s: Seq<u8>) -> Option<(DbV, Seq<u8>)> {
    match parse_b_file_map(s) {
        None => None,
        Some(fr) => match parse_b_coll_map(fr.1) {
            None => None,
            Some(gr) => match parse_b_tag_map(gr.1) {
                None => None,
                Some(tr) => match parse_b_opt_string(tr.1) {
                    None => None,
                    Some(cr) => match parse_b_i64(cr.1) {
                        None => None,
                        Some(nr) => match parse_b_opt_i64(nr.1) {
                            None => None,
                            Some(ur) => Some(
                                (
                                    DbV {
                                        files: fr.0,
                                        collections: gr.0,
                                        tags: tr.0,
                                        comment: cr.0,
                                        created: nr.0,
                                        updated: ur.0,
                                    },
                                    ur.1,
                                ),
                            ),
                        },
                    },
                },
            },
        },
    }
}

/// Every count and string length of the body fits the 64-bit length fields.
pub open spec fn dbv_sized(d: DbV) -> bool {
    &&& files_sized(d.files)
    &&& colls_sized(d.collections)
    &&& tags_sized(d.tags)
    &&& match d.comment {
        Some(c) => c.len() < 0x10000000000000000,
        None => true,
    }
}

/// What a binary body decodes to: the store whose bytes read back
/// completely.
pub open spec fn spec_decode_bin(s: Seq<u8>) -> Option<DbV> {
    match parse_bin_db(s) {
        Some(r) => if r.1.len() == 0 {
            Some(r.0)
        } else {
            None
        },
        None => None,
    }
}

#[verifier::rlimit(100)]
#[verifier::spinoff_prover]
pub proof fn lemma_parse_bin_db(d: DbV, rest: Seq<u8>)
    requires
        dbv_wf(d),
        dbv_ranged(d),
        dbv_sized(d),
    ensures
        parse_bin_db(emit_bin_db(d) + rest) == Some((d, rest)),
{
    let e = emit_bin_db(d) + rest;
    let t5 = emit_b_opt_i64(d.updated) + rest;
    let t4 = emit_b_i64(d.created) + t5;
    let t3 = emit_b_opt_string(d.comment) + t4;
    let t2 = emit_b_tag_map(d.tags) + t3;
    let t1 = emit_b_coll_map(d.collections) + t2;
    assert(e =~= emit_b_file_map(d.files) + t1);
    lemma_parse_b_file_map(d.files, t1);
    lemma_parse_b_coll_map(d.collections, t2);
    lemma_parse_b_tag_map(d.tags, t3);
    lemma_parse_b_opt_string(d.comment, t4);
    lemma_parse_b_i64(d.created, t5);
    lemma_parse_b_opt_i64(d.updated, rest);
}

/// The binary round trip: a well-formed store body written in the binary
/// form reads back as itself.
pub proof fn lemma_bin_round_trip(d: DbV)
    requires
        dbv_wf(d),
        dbv_ranged(d),
        dbv_sized(d),
    ensures
        spec_decode_bin(emit_bin_db(d)) == Some(d),
{
    lemma_parse_bin_db(d, Seq::empty());
    assert(emit_bin_db(d) + Seq::<u8>::empty() =~= emit_bin_db(d));
}


/// Writing characters piecewise concatenates their encodings.
pub proof fn lemma_chars_le_concat(a: Seq<char>, b: Seq<char>)
    ensures
        chars_le(a + b) == chars_le(a) + chars_le(b),
    decreases a.len(),
{
    if a.len() == 0 {
        assert(a + b =~= b);
        assert(chars_le(a) + chars_le(b) =~= chars_le(b));
    } else {
        assert((a + b)[0] == a[0]);
        assert((a + b).skip(1) =~= a.skip(1) + b);
        lemma_chars_le_concat(a.skip(1), b);
        assert(chars_le(a + b) =~= chars_le(a) + chars_le(b));
    }
}

fn push_u64_le(out: &mut Vec<u8>, x: u64)
    ensures
        final(out)@ == old(out)@ + u64_le(x as int),
{
    out.push((x % 256) as u8);
    out.push(((x / 256) % 256) as u8);
    out.push(((x / 65536) % 256) as u8);
    out.push(((x / 16777216) % 256) as u8);
    out.push(((x / 4294967296) % 256) as u8);
    out.push(((x / 1099511627776) % 256) as u8);
    out.push(((x / 281474976710656) % 256) as u8);
    out.push(((x / 72057594037927936) % 256) as u8);
    proof {
        assert(out@ =~= old(out)@ + u64_le(x as int));
    }
}

fn push_u32_le(out: &mut Vec<u8>, x: u32)
    ensures
        final(out)@ == old(out)@ + u32_le(x as int),
{
    out.push((x % 256) as u8);
    out.push(((x / 256) % 256) as u8);
    out.push(((x / 65536) % 256) as u8);
    out.push(((x / 16777216) % 256) as u8);
    proof {
        assert(out@ =~= old(out)@ + u32_le(x as int));
    }
}

fn push_b_i64(out: &mut Vec<u8>, v: i64)
    ensures
        final(out)@ == old(out)@ + emit_b_i64(v as int),
{
    let u: u64 = if v >= 0 {
        v as u64
    } else {
        let mag: u64 = ((-(v + 1)) as u64) + 1;
        assert(mag == -(v as int));
        u64::MAX - mag + 1
    };
    assert(u as int == to_u64(v as int));
    push_u64_le(out, u);
}

fn push_b_string(out: &mut Vec<u8>, s: &str)
    ensures
        final(out)@ == old(out)@ + emit_b_string(s@),
{
    let n = s.unicode_len();
    push_u64_le(out, n as u64);
    assert((n as u64) as int == s@.len() as int);
    let mut i: usize = 0;
    proof {
        assert(chars_le(s@.take(0)) =~= Seq::<u8>::empty());
        assert(out@ =~= old(out)@ + u64_le(s@.len() as int) + chars_le(s@.take(0)));
    }
    while i < n
        invariant
            i <= n,
            n == s@.len(),
            out@ == old(out)@ + u64_le(s@.len() as int) + chars_le(s@.take(i as int)),
        decreases n - i,
    {
        let c = s.get_char(i);
        proof {
            assert(s@.take(i as int + 1) =~= s@.take(i as int) + seq![c]);
            lemma_chars_le_concat(s@.take(i as int), seq![c]);
            assert(chars_le(seq![c]) =~= char_le(c)) by {
                assert(seq![c].skip(1) =~= Seq::<char>::empty());
                assert(chars_le(seq![c].skip(1)) == chars_le(Seq::<char>::empty()));
                assert(char_le(c) + Seq::<u8>::empty() =~= char_le(c));
            }
        }
        push_u32_le(out, c as u32);
        proof {
            assert(out@ =~= old(out)@ + u64_le(s@.len() as int) + chars_le(s@.take(i as int + 1)));
        }
        i = i + 1;
    }
    proof {
        assert(s@.take(n as int) =~= s@);
        assert(out@ =~= old(out)@ + emit_b_string(s@));
    }
}

fn push_b_opt_string(out: &mut Vec<u8>, v: &Option<String>)
    ensures
        final(out)@ == old(out)@ + emit_b_opt_string(
            match *v {
                Some(s) => Some(s@),
                None => None,
            },
        ),
{
    match v {
        None => {
            out.push(0u8);
            proof {
                assert(out@ =~= old(out)@ + seq![0u8]);
            }
        },
        Some(s) => {
            out.push(1u8);
            push_b_string(out, s.as_str());
            proof {
                assert(out@ =~= old(out)@ + emit_b_opt_string(Some(s@)));
            }
        },
    }
}

fn push_b_opt_i64(out: &mut Vec<u8>, v: &Option<i64>)
    ensures
        final(out)@ == old(out)@ + emit_b_opt_i64(
            match *v {
                Some(x) => Some(x as int),
                None => None,
            },
        ),
{
    match v {
        None => {
            out.push(0u8);
            proof {
                assert(out@ =~= old(out)@ + seq![0u8]);
            }
        },
        Some(x) => {
            out.push(1u8);
            push_b_i64(out, *x);
            proof {
                assert(out@ =~= old(out)@ + emit_b_opt_i64(Some(*x as int)));
            }
        },
    }
}

fn push_b_tag_value(out: &mut Vec<u8>, v: &TagValue)
    ensures
        final(out)@ == old(out)@ + emit_b_tag_value(v.deep_view()),
{
    match v {
        TagValue::Number(n) => {
            out.push(0u8);
            push_b_i64(out, *n);
            proof {
                assert(out@ =~= old(out)@ + emit_b_tag_value(v.deep_view()));
            }
        },
        TagValue::Bool(b) => {
            out.push(1u8);
            if *b {
                out.push(1u8);
            } else {
                out.push(0u8);
            }
            proof {
                assert(out@ =~= old(out)@ + emit_b_tag_value(v.deep_view()));
            }
        },
        TagValue::Url(s) => {
            out.push(2u8);
            push_b_string(out, s.as_str());
            proof {
                assert(out@ =~= old(out)@ + emit_b_tag_value(v.deep_view()));
            }
        },
        TagValue::Simple(s) => {
            out.push(3u8);
            push_b_string(out, s.as_str());
            proof {
                assert(out@ =~= old(out)@ + emit_b_tag_value(v.deep_view()));
            }
        },
    }
}

fn push_b_opt_tag_value(out: &mut Vec<u8>, v: &Option<TagValue>)
    ensures
        final(out)@ == old(out)@ + emit_b_opt_tag_value(v.deep_view()),
{
    match v {
        None => {
            out.push(0u8);
            proof {
                assert(out@ =~= old(out)@ + seq![0u8]);
            }
        },
        Some(t) => {
            out.push(1u8);
            push_b_tag_value(out, t);
            proof {
                assert(out@ =~= old(out)@ + emit_b_opt_tag_value(v.deep_view()));
            }
        },
    }
}

fn push_b_tag_pairs(out: &mut Vec<u8>, m: &TagsMap, idx: usize)
    requires
        idx <= m@.len(),
    ensures
        final(out)@ == old(out)@ + emit_b_tag_pairs(m@.skip(idx as int)),
    decreases m@.len() - idx,
{
    let n = m.len();
    if idx == n {
        proof {
            assert(m@.skip(idx as int).len() == 0);
            assert(out@ =~= old(out)@ + emit_b_tag_pairs(m@.skip(idx as int)));
        }
        return;
    }
    let ghost tail = m@.skip(idx as int);
    proof {
        assert(tail[0] == m@[idx as int]);
        assert(tail.skip(1) =~= m@.skip(idx as int + 1));
    }
    let pair = m.get_index(idx);
    push_b_string(out, pair.0.as_str());
    push_b_opt_tag_value(out, &pair.1);
    push_b_tag_pairs(out, m, idx + 1);
    proof {
        assert(out@ =~= old(out)@ + emit_b_tag_pairs(tail));
    }
}

fn push_b_tag_map(out: &mut Vec<u8>, m: &TagsMap)
    ensures
        final(out)@ == old(out)@ + emit_b_tag_map(m@),
{
    let n = m.len();
    push_u64_le(out, n as u64);
    proof {
        assert((n as u64) as int == m@.len() as int);
        assert(m@.skip(0) =~= m@);
    }
    push_b_tag_pairs(out, m, 0);
    proof {
        reveal(emit_b_tag_map);
        assert(out@ =~= old(out)@ + emit_b_tag_map(m@));
    }
}

fn push_b_keys(out: &mut Vec<u8>, ks: &KeySet, idx: usize)
    requires
        idx <= ks.view().len(),
    ensures
        final(out)@ == old(out)@ + emit_b_keys(ks.view().skip(idx as int)),
    decreases ks.view().len() - idx,
{
    let n = ks.len();
    if idx == n {
        proof {
            assert(ks.view().skip(idx as int).len() == 0);
            assert(out@ =~= old(out)@ + emit_b_keys(ks.view().skip(idx as int)));
        }
        return;
    }
    let ghost tail = ks.view().skip(idx as int);
    proof {
        assert(tail[0] == ks.view()[idx as int]);
        assert(tail.skip(1) =~= ks.view().skip(idx as int + 1));
    }
    let member = ks.get_index(idx);
    push_b_string(out, member.as_str());
    push_b_keys(out, ks, idx + 1);
    proof {
        assert(out@ =~= old(out)@ + emit_b_keys(tail));
    }
}

fn push_b_key_set(out: &mut Vec<u8>, ks: &KeySet)
    ensures
        final(out)@ == old(out)@ + emit_b_key_set(ks.view()),
{
    let n = ks.len();
    push_u64_le(out, n as u64);
    proof {
        assert((n as u64) as int == ks.view().len() as int);
        assert(ks.view().skip(0) =~= ks.view());
    }
    push_b_keys(out, ks, 0);
    proof {
        assert(out@ =~= old(out)@ + emit_b_key_set(ks.view()));
    }
}

fn push_b_entry(out: &mut Vec<u8>, e: &FileData)
    ensures
        final(out)@ == old(out)@ + emit_b_entry(e.deep_view()),
{
    proof {
        reveal(emit_b_entry);
    }
    push_b_tag_map(out, &e.tags);
    push_b_opt_string(out, &e.comment);
    push_b_i64(out, e.created);
    push_b_opt_i64(out, &e.updated);
    proof {
        reveal(emit_b_entry);
        assert(out@ =~= old(out)@ + emit_b_entry(e.deep_view()));
    }
}

fn push_b_file_pairs(out: &mut Vec<u8>, m: &OrderedMap<FileData>, idx: usize)
    requires
        idx <= m@.len(),
    ensures
        final(out)@ == old(out)@ + emit_b_file_pairs(m@.skip(idx as int)),
    decreases m@.len() - idx,
{
    let n = m.len();
    if idx == n {
        proof {
            assert(m@.skip(idx as int).len() == 0);
            assert(out@ =~= old(out)@ + emit_b_file_pairs(m@.skip(idx as int)));
        }
        return;
    }
    let ghost tail = m@.skip(idx as int);
    proof {
        assert(tail[0] == m@[idx as int]);
        assert(tail.skip(1) =~= m@.skip(idx as int + 1));
    }
    let pair = m.get_index(idx);
    push_b_string(out, pair.0.as_str());
    push_b_entry(out, &pair.1);
    push_b_file_pairs(out, m, idx + 1);
    proof {
        assert(out@ =~= old(out)@ + emit_b_file_pairs(tail));
    }
}

fn push_b_file_map(out: &mut Vec<u8>, m: &OrderedMap<FileData>)
    ensures
        final(out)@ == old(out)@ + emit_b_file_map(m@),
{
    let n = m.len();
    push_u64_le(out, n as u64);
    proof {
        assert((n as u64) as int == m@.len() as int);
        assert(m@.skip(0) =~= m@);
    }
    push_b_file_pairs(out, m, 0);
    proof {
        reveal(emit_b_file_map);
        assert(out@ =~= old(out)@ + emit_b_file_map(m@));
    }
}

fn push_b_coll_pairs(out: &mut Vec<u8>, m: &OrderedMap<KeySet>, idx: usize)
    requires
        idx <= m@.len(),
    ensures
        final(out)@ == old(out)@ + emit_b_coll_pairs(m@.skip(idx as int)),
    decreases m@.len() - idx,
{
    let n = m.len();
    if idx == n {
        proof {
            assert(m@.skip(idx as int).len() == 0);
            assert(out@ =~= old(out)@ + emit_b_coll_pairs(m@.skip(idx as int)));
        }
        return;
    }
    let ghost tail = m@.skip(idx as int);
    proof {
        assert(tail[0] == m@[idx as int]);
        assert(tail.skip(1) =~= m@.skip(idx as int + 1));
    }
    let pair = m.get_index(idx);
    push_b_string(out, pair.0.as_str());
    push_b_key_set(out, &pair.1);
    push_b_coll_pairs(out, m, idx + 1);
    proof {
        assert(out@ =~= old(out)@ + emit_b_coll_pairs(tail));
    }
}

fn push_b_coll_map(out: &mut Vec<u8>, m: &OrderedMap<KeySet>)
    ensures
        final(out)@ == old(out)@ + emit_b_coll_map(m@),
{
    let n = m.len();
    push_u64_le(out, n as u64);
    proof {
        assert((n as u64) as int == m@.len() as int);
        assert(m@.skip(0) =~= m@);
    }
    push_b_coll_pairs(out, m, 0);
    proof {
        reveal(emit_b_coll_map);
        assert(out@ =~= old(out)@ + emit_b_coll_map(m@));
    }
}

/// Writes the binary body of a store.
pub fn encode_bin(db: &Db) -> (r: Vec<u8>)
    ensures
        r@ == emit_bin_db(db@),
{
    let mut out: Vec<u8> = Vec::new();
    push_b_file_map(&mut out, &db.files);
    push_b_coll_map(&mut out, &db.collections);
    push_b_tag_map(&mut out, &db.tags);
    push_b_opt_string(&mut out, &db.comment);
    push_b_i64(&mut out, db.created);
    push_b_opt_i64(&mut out, &db.updated);
    proof {
        assert(out@ =~= emit_bin_db(db@));
    }
    out
}

/// Relies on `char::from_u32`: a scalar value makes the character with that
/// value; surrogates and values above the scalar range make nothing.
#[verifier::external_body]
fn char_from_u32(v: u32) -> (r: Option<char>)
    ensures
        match r {
            Some(c) => (c as u32) == v,
            None => (0xD800 <= v && v <= 0xDFFF) || v > 0x10FFFF,
        },
{
    char::from_u32(v)
}

/// vstd's scalar predicate is exactly the surrogate-free scalar range.
proof fn lemma_is_scalar_ranges(v: u32)
    ensures
        vstd::utf8::is_scalar(v) <==> (v < 0xD800 || (0xE000 <= v && v <= 0x10FFFF)),
{
}

fn r_u64(v: &Vec<u8>, pos: usize) -> (r: Option<(u64, usize)>)
    requires
        pos <= v@.len(),
    ensures
        match r {
            Some(p) => pos < p.1 <= v@.len() && parse_b_u64(v@.skip(pos as int)) == Some(
                (p.0 as int, v@.skip(p.1 as int)),
            ),
            None => parse_b_u64(v@.skip(pos as int)) is None,
        },
{
    let ghost s = v@.skip(pos as int);
    let vlen = v.len();
    if vlen - pos < 8 {
        return None;
    }
    let b0 = v[pos] as u64;
    let b1 = v[pos + 1] as u64;
    let b2 = v[pos + 2] as u64;
    let b3 = v[pos + 3] as u64;
    let b4 = v[pos + 4] as u64;
    let b5 = v[pos + 5] as u64;
    let b6 = v[pos + 6] as u64;
    let b7 = v[pos + 7] as u64;
    let x = b0 + 256 * b1 + 65536 * b2 + 16777216 * b3 + 4294967296 * b4 + 1099511627776 * b5
        + 281474976710656 * b6 + 72057594037927936 * b7;
    proof {
        assert(forall|j: int| 0 <= j < s.len() ==> s[j] == v@[pos + j]);
        assert(s.take(8)[0] == s[0] && s.take(8)[1] == s[1] && s.take(8)[2] == s[2] && s.take(8)[3]
            == s[3] && s.take(8)[4] == s[4] && s.take(8)[5] == s[5] && s.take(8)[6] == s[6]
            && s.take(8)[7] == s[7]);
        assert(x as int == le64(s.take(8)));
        assert(s.skip(8) =~= v@.skip(pos as int + 8));
    }
    Some((x, pos + 8))
}

fn r_u32(v: &Vec<u8>, pos: usize) -> (r: Option<(u32, usize)>)
    requires
        pos <= v@.len(),
    ensures
        match r {
            Some(p) => pos < p.1 <= v@.len() && p.1 == pos + 4 && (p.0 as int) == le32(
                v@.skip(pos as int).take(4),
            ) && v@.skip(pos as int).len() >= 4,
            None => v@.skip(pos as int).len() < 4,
        },
{
    let ghost s = v@.skip(pos as int);
    let vlen = v.len();
    if vlen - pos < 4 {
        return None;
    }
    let b0 = v[pos] as u32;
    let b1 = v[pos + 1] as u32;
    let b2 = v[pos + 2] as u32;
    let b3 = v[pos + 3] as u32;
    let x = b0 + 256 * b1 + 65536 * b2 + 16777216 * b3;
    proof {
        assert(forall|j: int| 0 <= j < s.len() ==> s[j] == v@[pos + j]);
        assert(s.take(4)[0] == s[0] && s.take(4)[1] == s[1] && s.take(4)[2] == s[2] && s.take(4)[3]
            == s[3]);
        assert(x as int == le32(s.take(4)));
    }
    Some((x, pos + 4))
}

fn r_char(v: &Vec<u8>, pos: usize) -> (r: Option<(char, usize)>)
    requires
        pos <= v@.len(),
    ensures
        match r {
            Some(p) => pos < p.1 <= v@.len() && parse_b_char(v@.skip(pos as int)) == Some(
                (p.0, v@.skip(p.1 as int)),
            ),
            None => parse_b_char(v@.skip(pos as int)) is None,
        },
{
    let ghost s = v@.skip(pos as int);
    let (w, np) = match r_u32(v, pos) {
        Some(p) => p,
        None => {
            return None;
        },
    };
    proof {
        lemma_is_scalar_ranges(w);
        assert(s.skip(4) =~= v@.skip(pos as int + 4));
    }
    let ok = w < 0xD800 || (0xE000 <= w && w <= 0x10FFFF);
    if !ok {
        proof {
            assert((le32(s.take(4)) as u32) == w);
            assert(!vstd::utf8::is_scalar(w));
        }
        return None;
    }
    match char_from_u32(w) {
        Some(c) => {
            proof {
                assert((le32(s.take(4)) as u32) == w);
                assert(vstd::utf8::is_scalar(w));
                vstd::utf8::char_u32_cast(c, w);
                assert((w as char) == c);
            }
            Some((c, np))
        },
        None => {
            proof {
                assert(false);
            }
            None
        },
    }
}

fn r_chars(v: &Vec<u8>, pos: usize, n: u64) -> (r: Option<(Vec<char>, usize)>)
    requires
        pos <= v@.len(),
    ensures
        match r {
            Some(p) => pos <= p.1 <= v@.len() && parse_b_chars(v@.skip(pos as int), n as nat)
                == Some((p.0.deep_view(), v@.skip(p.1 as int))),
            None => parse_b_chars(v@.skip(pos as int), n as nat) is None,
        },
    decreases n,
{
    if n == 0 {
        let out: Vec<char> = Vec::new();
        proof {
            assert(out.deep_view() =~= Seq::<char>::empty());
        }
        return Some((out, pos));
    }
    let (c, np) = match r_char(v, pos) {
        Some(p) => p,
        None => {
            return None;
        },
    };
    let rr = match r_chars(v, np, n - 1) {
        Some(p) => p,
        None => {
            return None;
        },
    };
    let mut rest = rr.0;
    let np2 = rr.1;
    let ghost rest_dv = rest.deep_view();
    let ghost before = rest@;
    rest.insert(0, c);
    proof {
        assert(rest@ =~= seq![c] + before);
        assert forall|j: int| 0 <= j < rest.deep_view().len() implies rest.deep_view()[j] == (
            seq![c] + rest_dv)[j] by {
            if j > 0 {
                assert(rest@[j] == before[j - 1]);
            }
        }
        assert(rest.deep_view() =~= seq![c] + rest_dv);
    }
    Some((rest, np2))
}

fn r_string(v: &Vec<u8>, pos: usize) -> (r: Option<(String, usize)>)
    requires
        pos <= v@.len(),
    ensures
        match r {
            Some(p) => pos < p.1 <= v@.len() && parse_b_string(v@.skip(pos as int)) == Some(
                (p.0@, v@.skip(p.1 as int)),
            ),
            None => parse_b_string(v@.skip(pos as int)) is None,
        },
{
    let (n, np) = match r_u64(v, pos) {
        Some(p) => p,
        None => {
            return None;
        },
    };
    let rr = match r_chars(v, np, n) {
        Some(p) => p,
        None => {
            return None;
        },
    };
    let out = crate::text::chars_to_string(&rr.0);
    proof {
        assert(out@ == rr.0.deep_view());
    }
    Some((out, rr.1))
}

fn r_i64(v: &Vec<u8>, pos: usize) -> (r: Option<(i64, usize)>)
    requires
        pos <= v@.len(),
    ensures
        match r {
            Some(p) => pos < p.1 <= v@.len() && parse_b_i64(v@.skip(pos as int)) == Some(
                (p.0 as int, v@.skip(p.1 as int)),
            ),
            None => parse_b_i64(v@.skip(pos as int)) is None,
        },
{
    let (u, np) = match r_u64(v, pos) {
        Some(p) => p,
        None => {
            return None;
        },
    };
    let x: i64 = if u <= 0x7fffffffffffffff {
        u as i64
    } else {
        let m = u64::MAX - u;
        assert(m <= 0x7fffffffffffffff);
        -(m as i64) - 1
    };
    assert(x as int == from_u64(u as int));
    Some((x, np))
}

fn r_opt_i64(v: &Vec<u8>, pos: usize) -> (r: Option<(Option<i64>, usize)>)
    requires
        pos <= v@.len(),
    ensures
        match r {
            Some(p) => pos < p.1 <= v@.len() && parse_b_opt_i64(v@.skip(pos as int)) == Some(
                (
                    match p.0 {
                        Some(x) => Some(x as int),
                        None => None,
                    },
                    v@.skip(p.1 as int),
                ),
            ),
            None => parse_b_opt_i64(v@.skip(pos as int)) is None,
        },
{
    let ghost s = v@.skip(pos as int);
    if pos == v.len() {
        return None;
    }
    assert(s[0] == v@[pos as int]);
    assert(s.skip(1) =~= v@.skip(pos as int + 1));
    let tag = v[pos];
    if tag == 0u8 {
        Some((None, pos + 1))
    } else if tag == 1u8 {
        match r_i64(v, pos + 1) {
            Some(p) => Some((Some(p.0), p.1)),
            None => None,
        }
    } else {
        None
    }
}

fn r_opt_string(v: &Vec<u8>, pos: usize) -> (r: Option<(Option<String>, usize)>)
    requires
        pos <= v@.len(),
    ensures
        match r {
            Some(p) => pos < p.1 <= v@.len() && parse_b_opt_string(v@.skip(pos as int)) == Some(
                (
                    match p.0 {
                        Some(x) => Some(x@),
                        None => None,
                    },
                    v@.skip(p.1 as int),
                ),
            ),
            None => parse_b_opt_string(v@.skip(pos as int)) is None,
        },
{
    let ghost s = v@.skip(pos as int);
    if pos == v.len() {
        return None;
    }
    assert(s[0] == v@[pos as int]);
    assert(s.skip(1) =~= v@.skip(pos as int + 1));
    let tag = v[pos];
    if tag == 0u8 {
        Some((None, pos + 1))
    } else if tag == 1u8 {
        match r_string(v, pos + 1) {
            Some(p) => Some((Some(p.0), p.1)),
            None => None,
        }
    } else {
        None
    }
}

fn r_tag_value(v: &Vec<u8>, pos: usize) -> (r: Option<(TagValue, usize)>)
    requires
        pos <= v@.len(),
    ensures
        match r {
            Some(p) => pos < p.1 <= v@.len() && parse_b_tag_value(v@.skip(pos as int)) == Some(
                (p.0.deep_view(), v@.skip(p.1 as int)),
            ),
            None => parse_b_tag_value(v@.skip(pos as int)) is None,
        },
{
    let ghost s = v@.skip(pos as int);
    if pos == v.len() {
        return None;
    }
    assert(s[0] == v@[pos as int]);
    assert(s.skip(1) =~= v@.skip(pos as int + 1));
    let tag = v[pos];
    if tag == 0u8 {
        match r_i64(v, pos + 1) {
            Some(p) => Some((TagValue::Number(p.0), p.1)),
            None => None,
        }
    } else if tag == 1u8 {
        if pos + 1 == v.len() {
            assert(s.len() < 2);
            return None;
        }
        assert(s[1] == v@[pos as int + 1]);
        assert(s.skip(2) =~= v@.skip(pos as int + 2));
        let b = v[pos + 1];
        if b == 1u8 {
            Some((TagValue::Bool(true), pos + 2))
        } else if b == 0u8 {
            Some((TagValue::Bool(false), pos + 2))
        } else {
            None
        }
    } else if tag == 2u8 {
        match r_string(v, pos + 1) {
            Some(p) => Some((TagValue::Url(p.0), p.1)),
            None => None,
        }
    } else if tag == 3u8 {
        match r_string(v, pos + 1) {
            Some(p) => Some((TagValue::Simple(p.0), p.1)),
            None => None,
        }
    } else {
        None
    }
}

fn r_opt_tag_value(v: &Vec<u8>, pos: usize) -> (r: Option<(Option<TagValue>, usize)>)
    requires
        pos <= v@.len(),
    ensures
        match r {
            Some(p) => pos < p.1 <= v@.len() && parse_b_opt_tag_value(v@.skip(pos as int)) == Some(
                (p.0.deep_view(), v@.skip(p.1 as int)),
            ),
            None => parse_b_opt_tag_value(v@.skip(pos as int)) is None,
        },
{
    let ghost s = v@.skip(pos as int);
    if pos == v.len() {
        return None;
    }
    assert(s[0] == v@[pos as int]);
    assert(s.skip(1) =~= v@.skip(pos as int + 1));
    let tag = v[pos];
    if tag == 0u8 {
        Some((None, pos + 1))
    } else if tag == 1u8 {
        match r_tag_value(v, pos + 1) {
            Some(p) => Some((Some(p.0), p.1)),
            None => None,
        }
    } else {
        None
    }
}

fn r_tag_pairs(v: &Vec<u8>, pos: usize, n: u64) -> (r: Option<
    (Vec<(String, Option<TagValue>)>, usize),
>)
    requires
        pos <= v@.len(),
    ensures
        match r {
            Some(p) => pos <= p.1 <= v@.len() && parse_b_tag_pairs(v@.skip(pos as int), n as nat)
                == Some((p.0.deep_view(), v@.skip(p.1 as int))),
            None => parse_b_tag_pairs(v@.skip(pos as int), n as nat) is None,
        },
    decreases n,
{
    if n == 0 {
        let out: Vec<(String, Option<TagValue>)> = Vec::new();
        proof {
            assert(out.deep_view() =~= Seq::<(Seq<char>, Option<TagValueV>)>::empty());
        }
        return Some((out, pos));
    }
    let (key, np1) = match r_string(v, pos) {
        Some(p) => p,
        None => {
            return None;
        },
    };
    let (val, np2) = match r_opt_tag_value(v, np1) {
        Some(p) => p,
        None => {
            return None;
        },
    };
    let rr = match r_tag_pairs(v, np2, n - 1) {
        Some(p) => p,
        None => {
            return None;
        },
    };
    let mut rest = rr.0;
    let np3 = rr.1;
    let ghost rest_dv = rest.deep_view();
    let ghost before = rest@;
    rest.insert(0, (key, val));
    proof {
        assert(rest@ =~= seq![rest@[0]] + before);
        assert forall|j: int| 0 <= j < rest.deep_view().len() implies rest.deep_view()[j] == (
            seq![(key@, val.deep_view())] + rest_dv)[j] by {
            if j == 0 {
                assert(rest@[0].0@ == key@);
            } else {
                assert(rest@[j] == before[j - 1]);
            }
        }
        assert(rest.deep_view() =~= seq![(key@, val.deep_view())] + rest_dv);
    }
    Some((rest, np3))
}

fn r_tag_map(v: &Vec<u8>, pos: usize) -> (r: Option<(TagsMap, usize)>)
    requires
        pos <= v@.len(),
    ensures
        match r {
            Some(p) => pos < p.1 <= v@.len() && parse_b_tag_map(v@.skip(pos as int)) == Some(
                (p.0@, v@.skip(p.1 as int)),
            ) && p.0.wf(),
            None => parse_b_tag_map(v@.skip(pos as int)) is None,
        },
{
    proof {
        reveal(parse_b_tag_map);
    }
    let (n, np) = match r_u64(v, pos) {
        Some(p) => p,
        None => {
            return None;
        },
    };
    let pr = match r_tag_pairs(v, np, n) {
        Some(p) => p,
        None => {
            return None;
        },
    };
    let mut items = pr.0;
    match build_map(&mut items) {
        Some(m) => Some((m, pr.1)),
        None => None,
    }
}

fn r_keys(v: &Vec<u8>, pos: usize, n: u64) -> (r: Option<(Vec<String>, usize)>)
    requires
        pos <= v@.len(),
    ensures
        match r {
            Some(p) => pos <= p.1 <= v@.len() && parse_b_keys(v@.skip(pos as int), n as nat)
                == Some((p.0.deep_view(), v@.skip(p.1 as int))),
            None => parse_b_keys(v@.skip(pos as int), n as nat) is None,
        },
    decreases n,
{
    if n == 0 {
        let out: Vec<String> = Vec::new();
        proof {
            assert(out.deep_view() =~= Seq::<Seq<char>>::empty());
        }
        return Some((out, pos));
    }
    let (key, np1) = match r_string(v, pos) {
        Some(p) => p,
        None => {
            return None;
        },
    };
    let rr = match r_keys(v, np1, n - 1) {
        Some(p) => p,
        None => {
            return None;
        },
    };
    let mut rest = rr.0;
    let np2 = rr.1;
    let ghost rest_dv = rest.deep_view();
    let ghost before = rest@;
    rest.insert(0, key);
    proof {
        assert(rest@ =~= seq![rest@[0]] + before);
        assert forall|j: int| 0 <= j < rest.deep_view().len() implies rest.deep_view()[j] == (
            seq![rest@[0]@] + rest_dv)[j] by {
            if j > 0 {
                assert(rest@[j] == before[j - 1]);
            }
        }
        assert(rest.deep_view() =~= seq![rest@[0]@] + rest_dv);
    }
    Some((rest, np2))
}

fn r_key_set(v: &Vec<u8>, pos: usize) -> (r: Option<(KeySet, usize)>)
    requires
        pos <= v@.len(),
    ensures
        match r {
            Some(p) => pos < p.1 <= v@.len() && parse_b_key_set(v@.skip(pos as int)) == Some(
                (p.0.view(), v@.skip(p.1 as int)),
            ) && p.0.wf(),
            None => parse_b_key_set(v@.skip(pos as int)) is None,
        },
{
    let (n, np) = match r_u64(v, pos) {
        Some(p) => p,
        None => {
            return None;
        },
    };
    let pr = match r_keys(v, np, n) {
        Some(p) => p,
        None => {
            return None;
        },
    };
    let mut items = pr.0;
    match build_keyset(&mut items) {
        Some(ks) => Some((ks, pr.1)),
        None => None,
    }
}

fn r_entry(v: &Vec<u8>, pos: usize) -> (r: Option<(FileData, usize)>)
    requires
        pos <= v@.len(),
    ensures
        match r {
            Some(p) => pos < p.1 <= v@.len() && parse_b_entry(v@.skip(pos as int)) == Some(
                (p.0.deep_view(), v@.skip(p.1 as int)),
            ) && p.0.wf(),
            None => parse_b_entry(v@.skip(pos as int)) is None,
        },
{
    proof {
        reveal(parse_b_entry);
    }
    let (tags, np1) = match r_tag_map(v, pos) {
        Some(p) => p,
        None => {
            return None;
        },
    };
    let (comment, np2) = match r_opt_string(v, np1) {
        Some(p) => p,
        None => {
            return None;
        },
    };
    let (created, np3) = match r_i64(v, np2) {
        Some(p) => p,
        None => {
            return None;
        },
    };
    let (updated, np4) = match r_opt_i64(v, np3) {
        Some(p) => p,
        None => {
            return None;
        },
    };
    let fd = FileData { tags, comment, created, updated };
    Some((fd, np4))
}

fn r_file_pairs(v: &Vec<u8>, pos: usize, n: u64) -> (r: Option<(Vec<(String, FileData)>, usize)>)
    requires
        pos <= v@.len(),
    ensures
        match r {
            Some(p) => pos <= p.1 <= v@.len() && parse_b_file_pairs(v@.skip(pos as int), n as nat)
                == Some((p.0.deep_view(), v@.skip(p.1 as int))) && (forall|j: int|
                0 <= j < p.0@.len() ==> (#[trigger] p.0@[j]).1.wf()),
            None => parse_b_file_pairs(v@.skip(pos as int), n as nat) is None,
        },
    decreases n,
{
    if n == 0 {
        let out: Vec<(String, FileData)> = Vec::new();
        proof {
            assert(out.deep_view() =~= Seq::<(Seq<char>, FileDataV)>::empty());
        }
        return Some((out, pos));
    }
    let (key, np1) = match r_string(v, pos) {
        Some(p) => p,
        None => {
            return None;
        },
    };
    let (val, np2) = match r_entry(v, np1) {
        Some(p) => p,
        None => {
            return None;
        },
    };
    let rr = match r_file_pairs(v, np2, n - 1) {
        Some(p) => p,
        None => {
            return None;
        },
    };
    let mut rest = rr.0;
    let np3 = rr.1;
    let ghost rest_dv = rest.deep_view();
    let ghost before = rest@;
    rest.insert(0, (key, val));
    proof {
        assert(rest@ =~= seq![rest@[0]] + before);
        assert forall|j: int| 0 <= j < rest.deep_view().len() implies rest.deep_view()[j] == (
            seq![(rest@[0].0@, rest@[0].1.deep_view())] + rest_dv)[j] by {
            if j > 0 {
                assert(rest@[j] == before[j - 1]);
            }
        }
        assert(rest.deep_view() =~= seq![(rest@[0].0@, rest@[0].1.deep_view())] + rest_dv);
    }
    Some((rest, np3))
}

fn r_file_map(v: &Vec<u8>, pos: usize) -> (r: Option<(OrderedMap<FileData>, usize)>)
    requires
        pos <= v@.len(),
    ensures
        match r {
            Some(p) => pos < p.1 <= v@.len() && parse_b_file_map(v@.skip(pos as int)) == Some(
                (p.0@, v@.skip(p.1 as int)),
            ) && p.0.wf() && (forall|j: int|
                0 <= j < p.0@.len() ==> map_sorted((#[trigger] p.0@[j]).1.tags)),
            None => parse_b_file_map(v@.skip(pos as int)) is None,
        },
{
    proof {
        reveal(parse_b_file_map);
    }
    let (n, np) = match r_u64(v, pos) {
        Some(p) => p,
        None => {
            return None;
        },
    };
    let pr = match r_file_pairs(v, np, n) {
        Some(p) => p,
        None => {
            return None;
        },
    };
    let mut items = pr.0;
    let ghost items_dv = items.deep_view();
    match build_map(&mut items) {
        Some(m) => {
            proof {
                assert forall|j: int| 0 <= j < m@.len() implies map_sorted(
                    (#[trigger] m@[j]).1.tags) by {
                    assert(m@[j] == items_dv[j]);
                    assert(items_dv[j].1 == pr.0@[j].1.deep_view());
                }
            }
            Some((m, pr.1))
        },
        None => None,
    }
}

fn r_coll_pairs(v: &Vec<u8>, pos: usize, n: u64) -> (r: Option<(Vec<(String, KeySet)>, usize)>)
    requires
        pos <= v@.len(),
    ensures
        match r {
            Some(p) => pos <= p.1 <= v@.len() && parse_b_coll_pairs(v@.skip(pos as int), n as nat)
                == Some((p.0.deep_view(), v@.skip(p.1 as int))) && (forall|j: int|
                0 <= j < p.0@.len() ==> (#[trigger] p.0@[j]).1.wf()),
            None => parse_b_coll_pairs(v@.skip(pos as int), n as nat) is None,
        },
    decreases n,
{
    if n == 0 {
        let out: Vec<(String, KeySet)> = Vec::new();
        proof {
            assert(out.deep_view() =~= Seq::<(Seq<char>, Seq<Seq<char>>)>::empty());
        }
        return Some((out, pos));
    }
    let (key, np1) = match r_string(v, pos) {
        Some(p) => p,
        None => {
            return None;
        },
    };
    let (val, np2) = match r_key_set(v, np1) {
        Some(p) => p,
        None => {
            return None;
        },
    };
    let rr = match r_coll_pairs(v, np2, n - 1) {
        Some(p) => p,
        None => {
            return None;
        },
    };
    let mut rest = rr.0;
    let np3 = rr.1;
    let ghost rest_dv = rest.deep_view();
    let ghost before = rest@;
    rest.insert(0, (key, val));
    proof {
        assert(rest@ =~= seq![rest@[0]] + before);
        assert forall|j: int| 0 <= j < rest.deep_view().len() implies rest.deep_view()[j] == (
            seq![(rest@[0].0@, rest@[0].1.view())] + rest_dv)[j] by {
            if j > 0 {
                assert(rest@[j] == before[j - 1]);
            }
        }
        assert(rest.deep_view() =~= seq![(rest@[0].0@, rest@[0].1.view())] + rest_dv);
    }
    Some((rest, np3))
}

fn r_coll_map(v: &Vec<u8>, pos: usize) -> (r: Option<(OrderedMap<KeySet>, usize)>)
    requires
        pos <= v@.len(),
    ensures
        match r {
            Some(p) => pos < p.1 <= v@.len() && parse_b_coll_map(v@.skip(pos as int)) == Some(
                (p.0@, v@.skip(p.1 as int)),
            ) && p.0.wf() && (forall|j: int|
                0 <= j < p.0@.len() ==> set_sorted((#[trigger] p.0@[j]).1)),
            None => parse_b_coll_map(v@.skip(pos as int)) is None,
        },
{
    proof {
        reveal(parse_b_coll_map);
    }
    let (n, np) = match r_u64(v, pos) {
        Some(p) => p,
        None => {
            return None;
        },
    };
    let pr = match r_coll_pairs(v, np, n) {
        Some(p) => p,
        None => {
            return None;
        },
    };
    let mut items = pr.0;
    let ghost items_dv = items.deep_view();
    match build_map(&mut items) {
        Some(m) => {
            proof {
                assert forall|j: int| 0 <= j < m@.len() implies set_sorted(
                    (#[trigger] m@[j]).1) by {
                    assert(m@[j] == items_dv[j]);
                    assert(items_dv[j].1 == pr.0@[j].1.view());
                }
            }
            Some((m, pr.1))
        },
        None => None,
    }
}

fn r_db(v: &Vec<u8>, pos: usize) -> (r: Option<(Db, usize)>)
    requires
        pos <= v@.len(),
    ensures
        match r {
            Some(p) => pos < p.1 <= v@.len() && parse_bin_db(v@.skip(pos as int)) == Some(
                (p.0@, v@.skip(p.1 as int)),
            ) && p.0.wf(),
            None => parse_bin_db(v@.skip(pos as int)) is None,
        },
{
    let (files, np1) = match r_file_map(v, pos) {
        Some(p) => p,
        None => {
            return None;
        },
    };
    let (collections, np2) = match r_coll_map(v, np1) {
        Some(p) => p,
        None => {
            return None;
        },
    };
    let (tags, np3) = match r_tag_map(v, np2) {
        Some(p) => p,
        None => {
            return None;
        },
    };
    let (comment, np4) = match r_opt_string(v, np3) {
        Some(p) => p,
        None => {
            return None;
        },
    };
    let (created, np5) = match r_i64(v, np4) {
        Some(p) => p,
        None => {
            return None;
        },
    };
    let (updated, np6) = match r_opt_i64(v, np5) {
        Some(p) => p,
        None => {
            return None;
        },
    };
    let db = Db { files, collections, tags, comment, created, updated };
    Some((db, np6))
}

/// Reads a binary body; only a complete, well-formed body decodes.
pub fn decode_bin(b: &Vec<u8>) -> (r: Option<Db>)
    ensures
        match r {
            Some(db) => spec_decode_bin(b@) == Some(db@) && db.wf(),
            None => spec_decode_bin(b@) is None,
        },
{
    proof {
        assert(b@.skip(0) =~= b@);
    }
    match r_db(b, 0) {
        Some(p) => {
            if p.1 == b.len() {
                proof {
                    assert(b@.skip(p.1 as int).len() == 0);
                }
                Some(p.0)
            } else {
                proof {
                    assert(b@.skip(p.1 as int).len() > 0);
                }
                None
            }
        },
        None => None,
    }
}

} // verus!
