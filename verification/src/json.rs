//! The JSON codec for the store body. The compact form writes no whitespace
//! at all: every character that could read as JSON whitespace is escaped
//! inside strings, so the pretty form differs from it only by whitespace
//! between tokens, and one strict reader serves both. The reader accepts
//! exactly what the writers produce: fields in their fixed order and map
//! keys ascending.
use vstd::prelude::*;
use vstd::string::StrSliceExecFns;
use crate::text::{
    is_digit, digit_val, digit_char, dec_of_nat, dec_of_int, dec_val, all_digits,
    lemma_dec_of_nat_digits, lemma_dec_val_of_nat, lemma_digit_char_val,
};
use crate::tags::{TagValue, TagValueV, TagsMap};
use crate::omap::{OrderedMap, KeySet};
use crate::db::{Db, DbV, FileData, FileDataV};

verus! {

pub open spec fn is_json_ws(c: char) -> bool {
    c == ' ' || c == '\n' || c == '\t' || c == '\r'
}

/// The text with its inter-token whitespace removed; escaped strings hold
/// none, so this takes a pretty body back to the compact one.
pub open spec fn strip_ws(s: Seq<char>) -> Seq<char> {
    s.filter(|c: char| !is_json_ws(c))
}

pub open spec fn needs_escape(c: char) -> bool {
    (0 <= (c as int) && (c as int) <= 0x20) || c == '"' || c == '\\'
}

pub open spec fn hex_digit(d: int) -> char {
    if d < 10 {
        digit_char(d)
    } else {
        (d + 87) as char
    }
}

pub open spec fn is_hex(c: char) -> bool {
    is_digit(c) || (97 <= (c as int) <= 102)
}

pub open spec fn hex_val(c: char) -> int {
    if is_digit(c) {
        digit_val(c)
    } else {
        (c as int) - 87
    }
}

/// One string character as written: escaped characters become `\u00xx`.
pub open spec fn esc_char(c: char) -> Seq<char> {
    if needs_escape(c) {
        seq!['\\', 'u', '0', '0', hex_digit((c as int) / 16), hex_digit((c as int) % 16)]
    } else {
        seq![c]
    }
}

pub open spec fn emit_string_body(s: Seq<char>) -> Seq<char>
    decreases s.len(),
{
    if s.len() == 0 {
        Seq::empty()
    } else {
        esc_char(s[0]) + emit_string_body(s.skip(1))
    }
}

pub open spec fn emit_string(s: Seq<char>) -> Seq<char> {
    seq!['"'] + emit_string_body(s) + seq!['"']
}

pub open spec fn emit_opt_string(v: Option<Seq<char>>) -> Seq<char> {
    match v {
        None => "null"@,
        Some(s) => emit_string(s),
    }
}

pub open spec fn emit_opt_int(v: Option<int>) -> Seq<char> {
    match v {
        None => "null"@,
        Some(x) => dec_of_int(x),
    }
}

pub open spec fn emit_tag_value(v: TagValueV) -> Seq<char> {
    match v {
        TagValueV::Number(n) => "{\"Number\":"@ + dec_of_int(n) + seq!['}'],
        TagValueV::Bool(b) => "{\"Bool\":"@ + (if b {
            "true"@
        } else {
            "false"@
        }) + seq!['}'],
        TagValueV::Url(s) => "{\"Url\":"@ + emit_string(s) + seq!['}'],
        TagValueV::Simple(s) => "{\"Simple\":"@ + emit_string(s) + seq!['}'],
    }
}

pub open spec fn emit_opt_tag_value(v: Option<TagValueV>) -> Seq<char> {
    match v {
        None => "null"@,
        Some(t) => emit_tag_value(t),
    }
}

pub open spec fn emit_tag_pair(p: (Seq<char>, Option<TagValueV>)) -> Seq<char> {
    emit_string(p.0) + seq![':'] + emit_opt_tag_value(p.1)
}

pub open spec fn emit_tag_pairs(ps: Seq<(Seq<char>, Option<TagValueV>)>) -> Seq<char>
    decreases ps.len(),
{
    if ps.len() == 0 {
        Seq::empty()
    } else if ps.len() == 1 {
        emit_tag_pair(ps[0])
    } else {
        emit_tag_pair(ps[0]) + seq![','] + emit_tag_pairs(ps.skip(1))
    }
}

pub open spec fn emit_tag_map(ps: Seq<(Seq<char>, Option<TagValueV>)>) -> Seq<char> {
    seq!['{'] + emit_tag_pairs(ps) + seq!['}']
}

pub open spec fn emit_key_items(ks: Seq<Seq<char>>) -> Seq<char>
    decreases ks.len(),
{
    if ks.len() == 0 {
        Seq::empty()
    } else if ks.len() == 1 {
        emit_string(ks[0])
    } else {
        emit_string(ks[0]) + seq![','] + emit_key_items(ks.skip(1))
    }
}

pub open spec fn emit_key_list(ks: Seq<Seq<char>>) -> Seq<char> {
    seq!['['] + emit_key_items(ks) + seq![']']
}

pub open spec fn emit_coll_pair(p: (Seq<char>, Seq<Seq<char>>)) -> Seq<char> {
    emit_string(p.0) + seq![':'] + emit_key_list(p.1)
}

pub open spec fn emit_coll_pairs(ps: Seq<(Seq<char>, Seq<Seq<char>>)>) -> Seq<char>
    decreases ps.len(),
{
    if ps.len() == 0 {
        Seq::empty()
    } else if ps.len() == 1 {
        emit_coll_pair(ps[0])
    } else {
        emit_coll_pair(ps[0]) + seq![','] + emit_coll_pairs(ps.skip(1))
    }
}

pub open spec fn emit_coll_map(ps: Seq<(Seq<char>, Seq<Seq<char>>)>) -> Seq<char> {
    seq!['{'] + emit_coll_pairs(ps) + seq!['}']
}

#[verifier::opaque]
pub open spec fn emit_entry(e: FileDataV) -> Seq<char> {
    "{\"tags\":"@ + emit_tag_map(e.tags) + ",\"comment\":"@ + emit_opt_string(e.comment)
        + ",\"created\":"@ + dec_of_int(e.created) + ",\"updated\":"@ + emit_opt_int(e.updated)
        + seq!['}']
}

pub open spec fn emit_file_pair(p: (Seq<char>, FileDataV)) -> Seq<char> {
    emit_string(p.0) + seq![':'] + emit_entry(p.1)
}

pub open spec fn emit_file_pairs(ps: Seq<(Seq<char>, FileDataV)>) -> Seq<char>
    decreases ps.len(),
{
    if ps.len() == 0 {
        Seq::empty()
    } else if ps.len() == 1 {
        emit_file_pair(ps[0])
    } else {
        emit_file_pair(ps[0]) + seq![','] + emit_file_pairs(ps.skip(1))
    }
}

pub open spec fn emit_file_map(ps: Seq<(Seq<char>, FileDataV)>) -> Seq<char> {
    seq!['{'] + emit_file_pairs(ps) + seq!['}']
}

/// The compact JSON body of a whole store.
pub open spec fn emit_db(d: DbV) -> Seq<char> {
    "{\"files\":"@ + emit_file_map(d.files) + ",\"collections\":"@ + emit_coll_map(d.collections)
        + ",\"tags\":"@ + emit_tag_map(d.tags) + ",\"comment\":"@ + emit_opt_string(d.comment)
        + ",\"created\":"@ + dec_of_int(d.created) + ",\"updated\":"@ + emit_opt_int(d.updated)
        + seq!['}']
}

/// Writing a string piecewise concatenates: the escape of each character in
/// turn.
pub proof fn lemma_emit_body_concat(a: Seq<char>, b: Seq<char>)
    ensures
        emit_string_body(a + b) == emit_string_body(a) + emit_string_body(b),
    decreases a.len(),
{
    if a.len() == 0 {
        assert(a + b =~= b);
        assert(emit_string_body(a) + emit_string_body(b) =~= emit_string_body(b));
    } else {
        assert((a + b)[0] == a[0]);
        assert((a + b).skip(1) =~= a.skip(1) + b);
        lemma_emit_body_concat(a.skip(1), b);
        assert(emit_string_body(a + b) =~= emit_string_body(a) + emit_string_body(b));
    }
}

pub open spec fn parse_lit(lit: Seq<char>, s: Seq<char>) -> Option<Seq<char>> {
    if s.len() >= lit.len() && s.take(lit.len() as int) == lit {
        Some(s.skip(lit.len() as int))
    } else {
        None
    }
}

/// Reads the escaped body of a string up to and over its closing quote.
pub open spec fn parse_string_body(s: Seq<char>) -> Option<(Seq<char>, Seq<char>)>
    decreases s.len(),
{
    if s.len() == 0 {
        None
    } else if s[0] == '"' {
        Some((Seq::empty(), s.skip(1)))
    } else if s[0] == '\\' {
        if s.len() >= 6 && s[1] == 'u' && s[2] == '0' && s[3] == '0' && is_hex(s[4]) && is_hex(
            s[5],
        ) {
            let c = (hex_val(s[4]) * 16 + hex_val(s[5])) as char;
            match parse_string_body(s.skip(6)) {
                Some(r) => Some((seq![c] + r.0, r.1)),
                None => None,
            }
        } else {
            None
        }
    } else {
        match parse_string_body(s.skip(1)) {
            Some(r) => Some((seq![s[0]] + r.0, r.1)),
            None => None,
        }
    }
}

pub open spec fn parse_string(s: Seq<char>) -> Option<(Seq<char>, Seq<char>)> {
    if s.len() > 0 && s[0] == '"' {
        parse_string_body(s.skip(1))
    } else {
        None
    }
}

/// How many leading decimal digits the text has.
pub open spec fn digits_len(s: Seq<char>) -> int
    decreases s.len(),
{
    if s.len() > 0 && is_digit(s[0]) {
        1 + digits_len(s.skip(1))
    } else {
        0
    }
}

/// Reads a decimal integer token: an optional minus sign, then every
/// following digit; refused when no digit follows or the value leaves the
/// 64-bit range.
pub open spec fn parse_int_tok(s: Seq<char>) -> Option<(int, Seq<char>)> {
    let neg = s.len() > 0 && s[0] == '-';
    let t = if neg {
        s.skip(1)
    } else {
        s
    };
    let k = digits_len(t);
    if k == 0 {
        None
    } else {
        let v0 = dec_val(t.take(k));
        let v = if neg {
            -v0
        } else {
            v0
        };
        if -9223372036854775808 <= v <= 9223372036854775807 {
            Some((v, t.skip(k)))
        } else {
            None
        }
    }
}

pub open spec fn parse_opt_int(s: Seq<char>) -> Option<(Option<int>, Seq<char>)> {
    match parse_lit("null"@, s) {
        Some(r) => Some((None, r)),
        None => match parse_int_tok(s) {
            Some(p) => Some((Some(p.0), p.1)),
            None => None,
        },
    }
}

pub open spec fn parse_opt_string(s: Seq<char>) -> Option<(Option<Seq<char>>, Seq<char>)> {
    match parse_lit("null"@, s) {
        Some(r) => Some((None, r)),
        None => match parse_string(s) {
            Some(p) => Some((Some(p.0), p.1)),
            None => None,
        },
    }
}

pub open spec fn close_brace<T>(v: T, s: Seq<char>) -> Option<(T, Seq<char>)> {
    match parse_lit(seq!['}'], s) {
        Some(r) => Some((v, r)),
        None => None,
    }
}

/// Reads one tagged-union payload, trying the four variant heads in turn.
pub open spec fn parse_tag_value(s: Seq<char>) -> Option<(TagValueV, Seq<char>)> {
    match parse_lit("{\"Number\":"@, s) {
        Some(r) => match parse_int_tok(r) {
            Some(p) => close_brace(TagValueV::Number(p.0), p.1),
            None => None,
        },
        None => match parse_lit("{\"Bool\":"@, s) {
            Some(r) => match parse_lit("true"@, r) {
                Some(r2) => close_brace(TagValueV::Bool(true), r2),
                None => match parse_lit("false"@, r) {
                    Some(r2) => close_brace(TagValueV::Bool(false), r2),
                    None => None,
                },
            },
            None => match parse_lit("{\"Url\":"@, s) {
                Some(r) => match parse_string(r) {
                    Some(p) => close_brace(TagValueV::Url(p.0), p.1),
                    None => None,
                },
                None => match parse_lit("{\"Simple\":"@, s) {
                    Some(r) => match parse_string(r) {
                        Some(p) => close_brace(TagValueV::Simple(p.0), p.1),
                        None => None,
                    },
                    None => None,
                },
            },
        },
    }
}

pub open spec fn parse_opt_tag_value(s: Seq<char>) -> Option<(Option<TagValueV>, Seq<char>)> {
    match parse_lit("null"@, s) {
        Some(r) => Some((None, r)),
        None => match parse_tag_value(s) {
            Some(p) => Some((Some(p.0), p.1)),
            None => None,
        },
    }
}

/// Reads one or more `"key":value` tag pairs separated by commas.
pub open spec fn parse_tag_pairs(s: Seq<char>) -> Option<
    (Seq<(Seq<char>, Option<TagValueV>)>, Seq<char>),
>
    decreases s.len(),
{
    match parse_string(s) {
        None => None,
        Some(kr) => match parse_lit(seq![':'], kr.1) {
            None => None,
            Some(s2) => match parse_opt_tag_value(s2) {
                None => None,
                Some(vr) => {
                    if vr.1.len() > 0 && vr.1[0] == ',' {
                        if vr.1.len() < s.len() {
                            match parse_tag_pairs(vr.1.skip(1)) {
                                Some(rr) => Some((seq![(kr.0, vr.0)] + rr.0, rr.1)),
                                None => None,
                            }
                        } else {
                            None
                        }
                    } else {
                        Some((seq![(kr.0, vr.0)], vr.1))
                    }
                },
            },
        },
    }
}

/// Reads a whole tag map; only ascending keys are accepted.
pub open spec fn parse_tag_map(s: Seq<char>) -> Option<
    (Seq<(Seq<char>, Option<TagValueV>)>, Seq<char>),
> {
    if s.len() >= 2 && s[0] == '{' && s[1] == '}' {
        Some((Seq::empty(), s.skip(2)))
    } else if s.len() > 0 && s[0] == '{' {
        match parse_tag_pairs(s.skip(1)) {
            Some(pr) => {
                if crate::omap::map_sorted(pr.0) {
                    close_brace(pr.0, pr.1)
                } else {
                    None
                }
            },
            None => None,
        }
    } else {
        None
    }
}

/// Reads one or more quoted keys separated by commas.
pub open spec fn parse_key_items(s: Seq<char>) -> Option<(Seq<Seq<char>>, Seq<char>)>
    decreases s.len(),
{
    match parse_string(s) {
        None => None,
        Some(kr) => {
            if kr.1.len() > 0 && kr.1[0] == ',' {
                if kr.1.len() < s.len() {
                    match parse_key_items(kr.1.skip(1)) {
                        Some(rr) => Some((seq![kr.0] + rr.0, rr.1)),
                        None => None,
                    }
                } else {
                    None
                }
            } else {
                Some((seq![kr.0], kr.1))
            }
        },
    }
}

/// Reads a member list; only ascending members are accepted.
pub open spec fn parse_key_list(s: Seq<char>) -> Option<(Seq<Seq<char>>, Seq<char>)> {
    if s.len() >= 2 && s[0] == '[' && s[1] == ']' {
        Some((Seq::empty(), s.skip(2)))
    } else if s.len() > 0 && s[0] == '[' {
        match parse_key_items(s.skip(1)) {
            Some(pr) => {
                if crate::omap::set_sorted(pr.0) {
                    match parse_lit(seq![']'], pr.1) {
                        Some(r) => Some((pr.0, r)),
                        None => None,
                    }
                } else {
                    None
                }
            },
            None => None,
        }
    } else {
        None
    }
}

pub open spec fn parse_coll_pairs(s: Seq<char>) -> Option<
    (Seq<(Seq<char>, Seq<Seq<char>>)>, Seq<char>),
>
    decreases s.len(),
{
    match parse_string(s) {
        None => None,
        Some(kr) => match parse_lit(seq![':'], kr.1) {
            None => None,
            Some(s2) => match parse_key_list(s2) {
                None => None,
                Some(vr) => {
                    if vr.1.len() > 0 && vr.1[0] == ',' {
                        if vr.1.len() < s.len() {
                            match parse_coll_pairs(vr.1.skip(1)) {
                                Some(rr) => Some((seq![(kr.0, vr.0)] + rr.0, rr.1)),
                                None => None,
                            }
                        } else {
                            None
                        }
                    } else {
                        Some((seq![(kr.0, vr.0)], vr.1))
                    }
                },
            },
        },
    }
}

pub open spec fn parse_coll_map(s: Seq<char>) -> Option<
    (Seq<(Seq<char>, Seq<Seq<char>>)>, Seq<char>),
> {
    if s.len() >= 2 && s[0] == '{' && s[1] == '}' {
        Some((Seq::empty(), s.skip(2)))
    } else if s.len() > 0 && s[0] == '{' {
        match parse_coll_pairs(s.skip(1)) {
            Some(pr) => {
                if crate::omap::map_sorted(pr.0) {
                    close_brace(pr.0, pr.1)
                } else {
                    None
                }
            },
            None => None,
        }
    } else {
        None
    }
}

/// Reads one file entry: its four fields in their fixed order.
#[verifier::opaque]
pub open spec fn parse_entry(s: Seq<char>) -> Option<(FileDataV, Seq<char>)> {
    match parse_lit("{\"tags\":"@, s) {
        None => None,
        Some(s1) => match parse_tag_map(s1) {
            None => None,
            Some(tr) => match parse_lit(",\"comment\":"@, tr.1) {
                None => None,
                Some(s2) => match parse_opt_string(s2) {
                    None => None,
                    Some(cr) => match parse_lit(",\"created\":"@, cr.1) {
                        None => None,
                        Some(s3) => match parse_int_tok(s3) {
                            None => None,
                            Some(nr) => match parse_lit(",\"updated\":"@, nr.1) {
                                None => None,
                                Some(s4) => match parse_opt_int(s4) {
                                    None => None,
                                    Some(ur) => close_brace(
                                        FileDataV {
                                            tags: tr.0,
                                            comment: cr.0,
                                            created: nr.0,
                                            updated: ur.0,
                                        },
                                        ur.1,
                                    ),
                                },
                            },
                        },
                    },
                },
            },
        },
    }
}

pub open spec fn parse_file_pairs(s: Seq<char>) -> Option<
    (Seq<(Seq<char>, FileDataV)>, Seq<char>),
>
    decreases s.len(),
{
    match parse_string(s) {
        None => None,
        Some(kr) => match parse_lit(seq![':'], kr.1) {
            None => None,
            Some(s2) => match parse_entry(s2) {
                None => None,
                Some(vr) => {
                    if vr.1.len() > 0 && vr.1[0] == ',' {
                        if vr.1.len() < s.len() {
                            match parse_file_pairs(vr.1.skip(1)) {
                                Some(rr) => Some((seq![(kr.0, vr.0)] + rr.0, rr.1)),
                                None => None,
                            }
                        } else {
                            None
                        }
                    } else {
                        Some((seq![(kr.0, vr.0)], vr.1))
                    }
                },
            },
        },
    }
}

pub open spec fn parse_file_map(s: Seq<char>) -> Option<(Seq<(Seq<char>, FileDataV)>, Seq<char>)> {
    if s.len() >= 2 && s[0] == '{' && s[1] == '}' {
        Some((Seq::empty(), s.skip(2)))
    } else if s.len() > 0 && s[0] == '{' {
        match parse_file_pairs(s.skip(1)) {
            Some(pr) => {
                if crate::omap::map_sorted(pr.0) {
                    close_brace(pr.0, pr.1)
                } else {
                    None
                }
            },
            None => None,
        }
    } else {
        None
    }
}

/// Reads a whole store body: its six fields in their fixed order.
pub open spec fn parse_db(s: Seq<char>) -> Option<(DbV, Seq<char>)> {
    match parse_lit("{\"files\":"@, s) {
        None => None,
        Some(s1) => match parse_file_map(s1) {
            None => None,
            Some(fr) => match parse_lit(",\"collections\":"@, fr.1) {
                None => None,
                Some(s2) => match parse_coll_map(s2) {
                    None => None,
                    Some(gr) => match parse_lit(",\"tags\":"@, gr.1) {
                        None => None,
                        Some(s3) => match parse_tag_map(s3) {
                            None => None,
                            Some(tr) => match parse_lit(",\"comment\":"@, tr.1) {
                                None => None,
                                Some(s4) => match parse_opt_string(s4) {
                                    None => None,
                                    Some(cr) => match parse_lit(",\"created\":"@, cr.1) {
                                        None => None,
                                        Some(s5) => match parse_int_tok(s5) {
                                            None => None,
                                            Some(nr) => match parse_lit(",\"updated\":"@, nr.1) {
                                                None => None,
                                                Some(s6) => match parse_opt_int(s6) {
                                                    None => None,
                                                    Some(ur) => close_brace(
                                                        DbV {
                                                            files: fr.0,
                                                            collections: gr.0,
                                                            tags: tr.0,
                                                            comment: cr.0,
                                                            created: nr.0,
                                                            updated: ur.0,
                                                        },
                                                        ur.1,
                                                    ),
                                                },
                                            },
                                        },
                                    },
                                },
                            },
                        },
                    },
                },
            },
        },
    }
}

/// What a compact JSON body decodes to: the store whose text reads back
/// completely.
pub open spec fn spec_decode_json(s: Seq<char>) -> Option<DbV> {
    match parse_db(s) {
        Some(r) => if r.1.len() == 0 {
            Some(r.0)
        } else {
            None
        },
        None => None,
    }
}

/// What a pretty JSON body decodes to: the same, after the whitespace
/// between tokens is dropped; escaped strings hold none, so nothing else
/// changes.
pub open spec fn spec_decode_json_pretty(s: Seq<char>) -> Option<DbV> {
    spec_decode_json(strip_ws(s))
}

/// Tag payload numbers fit the signed 64-bit range, as every value read
/// from or written by the store does.
pub open spec fn tv_ranged(v: TagValueV) -> bool {
    match v {
        TagValueV::Number(n) => -9223372036854775808 <= n <= 9223372036854775807,
        _ => true,
    }
}

pub open spec fn opt_tv_ranged(v: Option<TagValueV>) -> bool {
    match v {
        Some(t) => tv_ranged(t),
        None => true,
    }
}

pub open spec fn tags_ranged(ps: Seq<(Seq<char>, Option<TagValueV>)>) -> bool {
    forall|i: int| 0 <= i < ps.len() ==> opt_tv_ranged((#[trigger] ps[i]).1)
}

pub open spec fn int_ranged(n: int) -> bool {
    -9223372036854775808 <= n <= 9223372036854775807
}

pub open spec fn opt_int_ranged(v: Option<int>) -> bool {
    match v {
        Some(n) => int_ranged(n),
        None => true,
    }
}

pub open spec fn entry_ranged(e: FileDataV) -> bool {
    tags_ranged(e.tags) && int_ranged(e.created) && opt_int_ranged(e.updated)
}

pub open spec fn files_ranged(ps: Seq<(Seq<char>, FileDataV)>) -> bool {
    forall|i: int| 0 <= i < ps.len() ==> entry_ranged((#[trigger] ps[i]).1)
}

pub open spec fn dbv_ranged(d: DbV) -> bool {
    files_ranged(d.files) && tags_ranged(d.tags) && int_ranged(d.created) && opt_int_ranged(
        d.updated,
    )
}

pub proof fn lemma_parse_lit_exact(lit: Seq<char>, rest: Seq<char>)
    ensures
        parse_lit(lit, lit + rest) == Some(rest),
{
    assert((lit + rest).take(lit.len() as int) =~= lit);
    assert((lit + rest).skip(lit.len() as int) =~= rest);
}

pub proof fn lemma_hex_digit_val(x: int)
    requires
        0 <= x < 16,
    ensures
        is_hex(hex_digit(x)),
        hex_val(hex_digit(x)) == x,
{
    if x < 10 {
        lemma_digit_char_val(x);
    } else {
        assert((hex_digit(x) as int) == x + 87);
    }
}

/// Reading back one emitted string body recovers the original characters.
pub proof fn lemma_parse_string_body_emit(s: Seq<char>, rest: Seq<char>)
    ensures
        parse_string_body(emit_string_body(s) + seq!['"'] + rest) == Some((s, rest)),
    decreases s.len(),
{
    let e = emit_string_body(s) + seq!['"'] + rest;
    if s.len() == 0 {
        assert(e =~= seq!['"'] + rest);
        assert(e[0] == '"');
        assert(e.skip(1) =~= rest);
        assert(parse_string_body(e) == Some((Seq::<char>::empty(), rest)));
        assert(s =~= Seq::<char>::empty());
    } else {
        let c = s[0];
        lemma_parse_string_body_emit(s.skip(1), rest);
        let tail = emit_string_body(s.skip(1)) + seq!['"'] + rest;
        assert(e =~= esc_char(c) + tail);
        if needs_escape(c) {
            assert(('"' as int) == 34 && ('\\' as int) == 92);
            assert(0 <= (c as int) <= 92);
            let h1 = hex_digit((c as int) / 16);
            let h2 = hex_digit((c as int) % 16);
            lemma_hex_digit_val((c as int) / 16);
            lemma_hex_digit_val((c as int) % 16);
            assert(e[0] == '\\' && e[1] == 'u' && e[2] == '0' && e[3] == '0' && e[4] == h1 && e[5]
                == h2);
            assert(e.len() >= 6);
            assert(e[0] != '"');
            assert(e.skip(6) =~= tail);
            let c2 = (hex_val(e[4]) * 16 + hex_val(e[5])) as char;
            assert(hex_val(e[4]) * 16 + hex_val(e[5]) == ((c as int) / 16) * 16 + (c as int) % 16);
            assert(((c as int) / 16) * 16 + (c as int) % 16 == c as int);
            assert(c2 == c);
            assert(parse_string_body(e) == Some((seq![c] + s.skip(1), rest)));
            assert(seq![c] + s.skip(1) =~= s);
        } else {
            assert(e[0] == c);
            assert(c != '"' && c != '\\');
            assert(e.skip(1) =~= tail);
            assert(parse_string_body(e) == Some((seq![c] + s.skip(1), rest)));
            assert(seq![c] + s.skip(1) =~= s);
        }
    }
}

pub proof fn lemma_parse_string_emit(s: Seq<char>, rest: Seq<char>)
    ensures
        parse_string(emit_string(s) + rest) == Some((s, rest)),
{
    let e = emit_string(s) + rest;
    assert(e[0] == '"');
    assert(e.skip(1) =~= emit_string_body(s) + seq!['"'] + rest);
    lemma_parse_string_body_emit(s, rest);
}

pub proof fn lemma_digits_len_concat(d: Seq<char>, rest: Seq<char>)
    requires
        all_digits(d),
        rest.len() == 0 || !is_digit(rest[0]),
    ensures
        digits_len(d + rest) == d.len(),
    decreases d.len(),
{
    if d.len() == 0 {
        assert(d + rest =~= rest);
    } else {
        assert((d + rest)[0] == d[0]);
        assert(is_digit(d[0]));
        assert((d + rest).skip(1) =~= d.skip(1) + rest);
        assert(all_digits(d.skip(1))) by {
            assert(forall|i: int| 0 <= i < d.len() - 1 ==> #[trigger] d.skip(1)[i] == d[i + 1]);
        }
        lemma_digits_len_concat(d.skip(1), rest);
    }
}

/// Reading back one emitted integer recovers the value.
pub proof fn lemma_parse_int_tok_emit(v: int, rest: Seq<char>)
    requires
        int_ranged(v),
        rest.len() == 0 || !is_digit(rest[0]),
    ensures
        parse_int_tok(dec_of_int(v) + rest) == Some((v, rest)),
{
    let e = dec_of_int(v) + rest;
    if v >= 0 {
        lemma_dec_of_nat_digits(v as nat);
        lemma_dec_val_of_nat(v as nat);
        let d = dec_of_nat(v as nat);
        assert(e =~= d + rest);
        assert(is_digit(d[0]));
        assert(e[0] == d[0]);
        assert(e[0] != '-') by {
            assert(('-' as int) == 45);
        }
        lemma_digits_len_concat(d, rest);
        assert(digits_len(e) == d.len());
        assert(e.take(d.len() as int) =~= d);
        assert(e.skip(d.len() as int) =~= rest);
    } else {
        lemma_dec_of_nat_digits((-v) as nat);
        lemma_dec_val_of_nat((-v) as nat);
        let d = dec_of_nat((-v) as nat);
        assert(dec_of_int(v) =~= seq!['-'] + d);
        assert(e =~= seq!['-'] + (d + rest));
        assert(e[0] == '-');
        assert(e.skip(1) =~= d + rest);
        lemma_digits_len_concat(d, rest);
        let t = e.skip(1);
        assert(digits_len(t) == d.len());
        assert(t.take(d.len() as int) =~= d);
        assert(t.skip(d.len() as int) =~= rest);
    }
}

pub proof fn lemma_parse_opt_int_emit(v: Option<int>, rest: Seq<char>)
    requires
        opt_int_ranged(v),
        rest.len() == 0 || !is_digit(rest[0]),
    ensures
        parse_opt_int(emit_opt_int(v) + rest) == Some((v, rest)),
{
    reveal_strlit("null");
    match v {
        None => {
            lemma_parse_lit_exact("null"@, rest);
        },
        Some(x) => {
            let e = dec_of_int(x) + rest;
            if x >= 0 {
                lemma_dec_of_nat_digits(x as nat);
                assert(is_digit(dec_of_nat(x as nat)[0]));
                assert(e[0] == dec_of_nat(x as nat)[0]);
            } else {
                assert(e[0] == '-');
            }
            assert(parse_lit("null"@, e) is None) by {
                if e.len() >= 4 && e.take(4) == "null"@ {
                    assert(e.take(4)[0] == e[0]);
                    assert(e[0] == "null"@[0]);
                    assert(e[0] == 'n');
                    assert(('n' as int) == 110);
                    assert(('-' as int) == 45);
                    assert(false);
                }
            }
            lemma_parse_int_tok_emit(x, rest);
        },
    }
}

pub proof fn lemma_parse_opt_string_emit(v: Option<Seq<char>>, rest: Seq<char>)
    ensures
        parse_opt_string(emit_opt_string(v) + rest) == Some((v, rest)),
{
    reveal_strlit("null");
    match v {
        None => {
            lemma_parse_lit_exact("null"@, rest);
        },
        Some(s) => {
            let e = emit_string(s) + rest;
            assert(e[0] == '"');
            assert(parse_lit("null"@, e) is None) by {
                if e.len() >= 4 && e.take(4) == "null"@ {
                    assert(e.take(4)[0] == e[0]);
                    assert(e[0] == "null"@[0]);
                    assert(e[0] == 'n');
                    assert(('n' as int) == 110);
                    assert(('"' as int) == 34);
                    assert(false);
                }
            }
            lemma_parse_string_emit(s, rest);
        },
    }
}

/// Reading back one emitted tagged-union payload recovers it.
pub proof fn lemma_parse_tag_value_emit(v: TagValueV, rest: Seq<char>)
    requires
        tv_ranged(v),
    ensures
        parse_tag_value(emit_tag_value(v) + rest) == Some((v, rest)),
{
    reveal_strlit("{\"Number\":");
    reveal_strlit("{\"Bool\":");
    reveal_strlit("{\"Url\":");
    reveal_strlit("{\"Simple\":");
    reveal_strlit("true");
    reveal_strlit("false");
    let e = emit_tag_value(v) + rest;
    match v {
        TagValueV::Number(n) => {
            assert(e =~= "{\"Number\":"@ + (dec_of_int(n) + (seq!['}'] + rest)));
            lemma_parse_lit_exact("{\"Number\":"@, dec_of_int(n) + (seq!['}'] + rest));
            assert((seq!['}'] + rest)[0] == '}');
            assert(!is_digit('}')) by {
                assert(('}' as int) == 125);
            }
            lemma_parse_int_tok_emit(n, seq!['}'] + rest);
            lemma_parse_lit_exact(seq!['}'], rest);
        },
        TagValueV::Bool(b) => {
            let payload: Seq<char> = if b {
                "true"@
            } else {
                "false"@
            };
            assert(e =~= "{\"Bool\":"@ + (payload + (seq!['}'] + rest)));
            assert(e[2] == "{\"Bool\":"@[2]);
            assert(parse_lit("{\"Number\":"@, e) is None) by {
                if e.len() >= "{\"Number\":"@.len() && e.take("{\"Number\":"@.len() as int)
                    == "{\"Number\":"@ {
                    assert(e.take("{\"Number\":"@.len() as int)[2] == e[2]);
                    assert(e[2] == "{\"Number\":"@[2]);
                    assert(false);
                }
            }
            lemma_parse_lit_exact("{\"Bool\":"@, payload + (seq!['}'] + rest));
            let r = payload + (seq!['}'] + rest);
            if b {
                lemma_parse_lit_exact("true"@, seq!['}'] + rest);
                lemma_parse_lit_exact(seq!['}'], rest);
            } else {
                assert(r[0] == "false"@[0]);
                assert(parse_lit("true"@, r) is None) by {
                    if r.len() >= 4 && r.take(4) == "true"@ {
                        assert(r.take(4)[0] == r[0]);
                        assert(r[0] == "true"@[0]);
                        assert(false);
                    }
                }
                lemma_parse_lit_exact("false"@, seq!['}'] + rest);
                lemma_parse_lit_exact(seq!['}'], rest);
            }
        },
        TagValueV::Url(s) => {
            assert(e =~= "{\"Url\":"@ + (emit_string(s) + (seq!['}'] + rest)));
            assert(e[2] == "{\"Url\":"@[2]);
            assert(parse_lit("{\"Number\":"@, e) is None) by {
                if e.len() >= "{\"Number\":"@.len() && e.take("{\"Number\":"@.len() as int)
                    == "{\"Number\":"@ {
                    assert(e.take("{\"Number\":"@.len() as int)[2] == e[2]);
                    assert(false);
                }
            }
            assert(parse_lit("{\"Bool\":"@, e) is None) by {
                if e.len() >= "{\"Bool\":"@.len() && e.take("{\"Bool\":"@.len() as int)
                    == "{\"Bool\":"@ {
                    assert(e.take("{\"Bool\":"@.len() as int)[2] == e[2]);
                    assert(false);
                }
            }
            lemma_parse_lit_exact("{\"Url\":"@, emit_string(s) + (seq!['}'] + rest));
            lemma_parse_string_emit(s, seq!['}'] + rest);
            lemma_parse_lit_exact(seq!['}'], rest);
        },
        TagValueV::Simple(s) => {
            assert(e =~= "{\"Simple\":"@ + (emit_string(s) + (seq!['}'] + rest)));
            assert(e[2] == "{\"Simple\":"@[2]);
            assert(parse_lit("{\"Number\":"@, e) is None) by {
                if e.len() >= "{\"Number\":"@.len() && e.take("{\"Number\":"@.len() as int)
                    == "{\"Number\":"@ {
                    assert(e.take("{\"Number\":"@.len() as int)[2] == e[2]);
                    assert(false);
                }
            }
            assert(parse_lit("{\"Bool\":"@, e) is None) by {
                if e.len() >= "{\"Bool\":"@.len() && e.take("{\"Bool\":"@.len() as int)
                    == "{\"Bool\":"@ {
                    assert(e.take("{\"Bool\":"@.len() as int)[2] == e[2]);
                    assert(false);
                }
            }
            assert(parse_lit("{\"Url\":"@, e) is None) by {
                if e.len() >= "{\"Url\":"@.len() && e.take("{\"Url\":"@.len() as int)
                    == "{\"Url\":"@ {
                    assert(e.take("{\"Url\":"@.len() as int)[2] == e[2]);
                    assert(false);
                }
            }
            lemma_parse_lit_exact("{\"Simple\":"@, emit_string(s) + (seq!['}'] + rest));
            lemma_parse_string_emit(s, seq!['}'] + rest);
            lemma_parse_lit_exact(seq!['}'], rest);
        },
    }
}

pub proof fn lemma_parse_opt_tag_value_emit(v: Option<TagValueV>, rest: Seq<char>)
    requires
        opt_tv_ranged(v),
    ensures
        parse_opt_tag_value(emit_opt_tag_value(v) + rest) == Some((v, rest)),
{
    reveal_strlit("null");
    match v {
        None => {
            lemma_parse_lit_exact("null"@, rest);
        },
        Some(t) => {
            let e = emit_tag_value(t) + rest;
            assert(e[0] == '{') by {
                reveal_strlit("{\"Number\":");
                reveal_strlit("{\"Bool\":");
                reveal_strlit("{\"Url\":");
                reveal_strlit("{\"Simple\":");
                match t {
                    TagValueV::Number(_) => {
                        assert(e[0] == "{\"Number\":"@[0]);
                    },
                    TagValueV::Bool(_) => {
                        assert(e[0] == "{\"Bool\":"@[0]);
                    },
                    TagValueV::Url(_) => {
                        assert(e[0] == "{\"Url\":"@[0]);
                    },
                    TagValueV::Simple(_) => {
                        assert(e[0] == "{\"Simple\":"@[0]);
                    },
                }
            }
            assert(parse_lit("null"@, e) is None) by {
                if e.len() >= 4 && e.take(4) == "null"@ {
                    assert(e.take(4)[0] == e[0]);
                    assert(e[0] == "null"@[0]);
                    assert(('n' as int) == 110);
                    assert(('{' as int) == 123);
                    assert(false);
                }
            }
            lemma_parse_tag_value_emit(t, rest);
        },
    }
}

/// Reading back emitted tag pairs recovers them, stopping at the closing
/// text, which must not begin with another separator.
#[verifier::rlimit(60)]
pub proof fn lemma_parse_tag_pairs_emit(ps: Seq<(Seq<char>, Option<TagValueV>)>, rest: Seq<char>)
    requires
        ps.len() >= 1,
        tags_ranged(ps),
        rest.len() == 0 || rest[0] != ',',
    ensures
        parse_tag_pairs(emit_tag_pairs(ps) + rest) == Some((ps, rest)),
    decreases ps.len(),
{
    let e = emit_tag_pairs(ps) + rest;
    let p0 = ps[0];
    assert(opt_tv_ranged(p0.1));
    if ps.len() == 1 {
        assert(e =~= emit_string(p0.0) + (seq![':'] + (emit_opt_tag_value(p0.1) + rest)));
        lemma_parse_string_emit(p0.0, seq![':'] + (emit_opt_tag_value(p0.1) + rest));
        lemma_parse_lit_exact(seq![':'], emit_opt_tag_value(p0.1) + rest);
        lemma_parse_opt_tag_value_emit(p0.1, rest);
        assert(seq![(p0.0, p0.1)] =~= ps);
    } else {
        let tail_pairs = ps.skip(1);
        let tail_e = emit_tag_pairs(tail_pairs) + rest;
        assert(e =~= emit_string(p0.0) + (seq![':'] + (emit_opt_tag_value(p0.1) + (seq![',']
            + tail_e))));
        lemma_parse_string_emit(
            p0.0,
            seq![':'] + (emit_opt_tag_value(p0.1) + (seq![','] + tail_e)),
        );
        lemma_parse_lit_exact(seq![':'], emit_opt_tag_value(p0.1) + (seq![','] + tail_e));
        lemma_parse_opt_tag_value_emit(p0.1, seq![','] + tail_e);
        assert((seq![','] + tail_e)[0] == ',');
        assert((seq![','] + tail_e).len() < e.len());
        assert((seq![','] + tail_e).skip(1) =~= tail_e);
        assert(tags_ranged(tail_pairs)) by {
            assert(forall|i: int|
                0 <= i < tail_pairs.len() ==> #[trigger] tail_pairs[i] == ps[i + 1]);
        }
        lemma_parse_tag_pairs_emit(tail_pairs, rest);
        assert(seq![(p0.0, p0.1)] + tail_pairs =~= ps);
    }
}

/// Reading back an emitted tag map recovers it; the keys come out ascending
/// because they went in ascending.
pub proof fn lemma_parse_tag_map_emit(ps: Seq<(Seq<char>, Option<TagValueV>)>, rest: Seq<char>)
    requires
        crate::omap::map_sorted(ps),
        tags_ranged(ps),
    ensures
        parse_tag_map(emit_tag_map(ps) + rest) == Some((ps, rest)),
{
    let e = emit_tag_map(ps) + rest;
    assert(e[0] == '{');
    if ps.len() == 0 {
        assert(e =~= seq!['{'] + (seq!['}'] + rest));
        assert(e[1] == '}');
        assert(e.skip(2) =~= rest);
        assert(ps =~= Seq::<(Seq<char>, Option<TagValueV>)>::empty());
    } else {
        assert(e[1] == emit_tag_pairs(ps)[0]);
        assert(emit_tag_pairs(ps)[0] == emit_tag_pair(ps[0])[0]);
        assert(emit_tag_pair(ps[0])[0] == emit_string(ps[0].0)[0]);
        assert(emit_string(ps[0].0)[0] == '"');
        assert(e.len() >= 2 && e[1] != '}') by {
            assert(('"' as int) == 34 && ('}' as int) == 125);
        }
        assert(e.skip(1) =~= emit_tag_pairs(ps) + (seq!['}'] + rest));
        assert((seq!['}'] + rest)[0] == '}');
        assert(('}' as int) != (',' as int));
        lemma_parse_tag_pairs_emit(ps, seq!['}'] + rest);
        lemma_parse_lit_exact(seq!['}'], rest);
    }
}

pub proof fn lemma_parse_key_items_emit(ks: Seq<Seq<char>>, rest: Seq<char>)
    requires
        ks.len() >= 1,
        rest.len() == 0 || rest[0] != ',',
    ensures
        parse_key_items(emit_key_items(ks) + rest) == Some((ks, rest)),
    decreases ks.len(),
{
    let e = emit_key_items(ks) + rest;
    if ks.len() == 1 {
        assert(e =~= emit_string(ks[0]) + rest);
        lemma_parse_string_emit(ks[0], rest);
        assert(seq![ks[0]] =~= ks);
    } else {
        let tail = ks.skip(1);
        let tail_e = emit_key_items(tail) + rest;
        assert(e =~= emit_string(ks[0]) + (seq![','] + tail_e));
        lemma_parse_string_emit(ks[0], seq![','] + tail_e);
        assert((seq![','] + tail_e)[0] == ',');
        assert((seq![','] + tail_e).len() < e.len());
        assert((seq![','] + tail_e).skip(1) =~= tail_e);
        lemma_parse_key_items_emit(tail, rest);
        assert(seq![ks[0]] + tail =~= ks);
    }
}

pub proof fn lemma_parse_key_list_emit(ks: Seq<Seq<char>>, rest: Seq<char>)
    requires
        crate::omap::set_sorted(ks),
    ensures
        parse_key_list(emit_key_list(ks) + rest) == Some((ks, rest)),
{
    let e = emit_key_list(ks) + rest;
    assert(e[0] == '[');
    if ks.len() == 0 {
        assert(e =~= seq!['['] + (seq![']'] + rest));
        assert(e[1] == ']');
        assert(e.skip(2) =~= rest);
        assert(ks =~= Seq::<Seq<char>>::empty());
    } else {
        assert(e[1] == emit_key_items(ks)[0]);
        assert(emit_key_items(ks)[0] == emit_string(ks[0])[0]);
        assert(emit_string(ks[0])[0] == '"');
        assert(e.len() >= 2 && e[1] != ']') by {
            assert(('"' as int) == 34 && (']' as int) == 93);
        }
        assert(e.skip(1) =~= emit_key_items(ks) + (seq![']'] + rest));
        assert((seq![']'] + rest)[0] == ']');
        assert((']' as int) != (',' as int));
        lemma_parse_key_items_emit(ks, seq![']'] + rest);
        lemma_parse_lit_exact(seq![']'], rest);
    }
}

#[verifier::rlimit(60)]
pub proof fn lemma_parse_coll_pairs_emit(ps: Seq<(Seq<char>, Seq<Seq<char>>)>, rest: Seq<char>)
    requires
        ps.len() >= 1,
        forall|i: int| 0 <= i < ps.len() ==> crate::omap::set_sorted((#[trigger] ps[i]).1),
        rest.len() == 0 || rest[0] != ',',
    ensures
        parse_coll_pairs(emit_coll_pairs(ps) + rest) == Some((ps, rest)),
    decreases ps.len(),
{
    let e = emit_coll_pairs(ps) + rest;
    let p0 = ps[0];
    assert(crate::omap::set_sorted(p0.1));
    if ps.len() == 1 {
        assert(e =~= emit_string(p0.0) + (seq![':'] + (emit_key_list(p0.1) + rest)));
        lemma_parse_string_emit(p0.0, seq![':'] + (emit_key_list(p0.1) + rest));
        lemma_parse_lit_exact(seq![':'], emit_key_list(p0.1) + rest);
        lemma_parse_key_list_emit(p0.1, rest);
        assert(seq![(p0.0, p0.1)] =~= ps);
    } else {
        let tail_pairs = ps.skip(1);
        let tail_e = emit_coll_pairs(tail_pairs) + rest;
        assert(e =~= emit_string(p0.0) + (seq![':'] + (emit_key_list(p0.1) + (seq![','] + tail_e))));
        lemma_parse_string_emit(p0.0, seq![':'] + (emit_key_list(p0.1) + (seq![','] + tail_e)));
        lemma_parse_lit_exact(seq![':'], emit_key_list(p0.1) + (seq![','] + tail_e));
        lemma_parse_key_list_emit(p0.1, seq![','] + tail_e);
        assert((seq![','] + tail_e)[0] == ',');
        assert((seq![','] + tail_e).len() < e.len());
        assert((seq![','] + tail_e).skip(1) =~= tail_e);
        assert(forall|i: int| 0 <= i < tail_pairs.len() ==> #[trigger] tail_pairs[i] == ps[i + 1]);
        lemma_parse_coll_pairs_emit(tail_pairs, rest);
        assert(seq![(p0.0, p0.1)] + tail_pairs =~= ps);
    }
}

pub proof fn lemma_parse_coll_map_emit(ps: Seq<(Seq<char>, Seq<Seq<char>>)>, rest: Seq<char>)
    requires
        crate::omap::map_sorted(ps),
        forall|i: int| 0 <= i < ps.len() ==> crate::omap::set_sorted((#[trigger] ps[i]).1),
    ensures
        parse_coll_map(emit_coll_map(ps) + rest) == Some((ps, rest)),
{
    let e = emit_coll_map(ps) + rest;
    assert(e[0] == '{');
    if ps.len() == 0 {
        assert(e =~= seq!['{'] + (seq!['}'] + rest));
        assert(e[1] == '}');
        assert(e.skip(2) =~= rest);
        assert(ps =~= Seq::<(Seq<char>, Seq<Seq<char>>)>::empty());
    } else {
        assert(e[1] == emit_coll_pairs(ps)[0]);
        assert(emit_coll_pairs(ps)[0] == emit_coll_pair(ps[0])[0]);
        assert(emit_coll_pair(ps[0])[0] == emit_string(ps[0].0)[0]);
        assert(emit_string(ps[0].0)[0] == '"');
        assert(e.len() >= 2 && e[1] != '}') by {
            assert(('"' as int) == 34 && ('}' as int) == 125);
        }
        assert(e.skip(1) =~= emit_coll_pairs(ps) + (seq!['}'] + rest));
        assert((seq!['}'] + rest)[0] == '}');
        assert(('}' as int) != (',' as int));
        lemma_parse_coll_pairs_emit(ps, seq!['}'] + rest);
        lemma_parse_lit_exact(seq!['}'], rest);
    }
}

/// Reading back one emitted file entry recovers it.
pub proof fn lemma_parse_entry_emit(en: FileDataV, rest: Seq<char>)
    requires
        entry_ranged(en),
        crate::omap::map_sorted(en.tags),
    ensures
        parse_entry(emit_entry(en) + rest) == Some((en, rest)),
{
    reveal(emit_entry);
    reveal(parse_entry);
    reveal_strlit(",\"comment\":");
    reveal_strlit(",\"created\":");
    reveal_strlit(",\"updated\":");
    let a1 = emit_tag_map(en.tags);
    let a2 = emit_opt_string(en.comment);
    let a3 = dec_of_int(en.created);
    let a4 = emit_opt_int(en.updated);
    let t4 = a4 + (seq!['}'] + rest);
    let t3b = ",\"updated\":"@ + t4;
    let t3 = a3 + t3b;
    let t2b = ",\"created\":"@ + t3;
    let t2 = a2 + t2b;
    let t1b = ",\"comment\":"@ + t2;
    let t1 = a1 + t1b;
    assert(emit_entry(en) + rest =~= "{\"tags\":"@ + t1);
    lemma_parse_lit_exact("{\"tags\":"@, t1);
    lemma_parse_tag_map_emit(en.tags, t1b);
    lemma_parse_lit_exact(",\"comment\":"@, t2);
    lemma_parse_opt_string_emit(en.comment, t2b);
    lemma_parse_lit_exact(",\"created\":"@, t3);
    assert(t3b[0] == ',');
    assert(!is_digit(',')) by {
        assert((',' as int) == 44);
    }
    lemma_parse_int_tok_emit(en.created, t3b);
    lemma_parse_lit_exact(",\"updated\":"@, t4);
    assert((seq!['}'] + rest)[0] == '}');
    assert(!is_digit('}')) by {
        assert(('}' as int) == 125);
    }
    lemma_parse_opt_int_emit(en.updated, seq!['}'] + rest);
    lemma_parse_lit_exact(seq!['}'], rest);
}

#[verifier::rlimit(100)]
pub proof fn lemma_parse_file_pairs_emit(ps: Seq<(Seq<char>, FileDataV)>, rest: Seq<char>)
    requires
        ps.len() >= 1,
        files_ranged(ps),
        forall|i: int| 0 <= i < ps.len() ==> crate::omap::map_sorted((#[trigger] ps[i]).1.tags),
        rest.len() == 0 || rest[0] != ',',
    ensures
        parse_file_pairs(emit_file_pairs(ps) + rest) == Some((ps, rest)),
    decreases ps.len(),
{
    let e = emit_file_pairs(ps) + rest;
    let p0 = ps[0];
    assert(entry_ranged(p0.1));
    assert(crate::omap::map_sorted(p0.1.tags));
    if ps.len() == 1 {
        assert(e =~= emit_string(p0.0) + (seq![':'] + (emit_entry(p0.1) + rest)));
        lemma_parse_string_emit(p0.0, seq![':'] + (emit_entry(p0.1) + rest));
        lemma_parse_lit_exact(seq![':'], emit_entry(p0.1) + rest);
        lemma_parse_entry_emit(p0.1, rest);
        assert(seq![(p0.0, p0.1)] =~= ps);
    } else {
        let tail_pairs = ps.skip(1);
        let tail_e = emit_file_pairs(tail_pairs) + rest;
        assert(e =~= emit_string(p0.0) + (seq![':'] + (emit_entry(p0.1) + (seq![','] + tail_e))));
        lemma_parse_string_emit(p0.0, seq![':'] + (emit_entry(p0.1) + (seq![','] + tail_e)));
        lemma_parse_lit_exact(seq![':'], emit_entry(p0.1) + (seq![','] + tail_e));
        lemma_parse_entry_emit(p0.1, seq![','] + tail_e);
        assert((seq![','] + tail_e)[0] == ',');
        assert((seq![','] + tail_e).len() < e.len());
        assert((seq![','] + tail_e).skip(1) =~= tail_e);
        assert(forall|i: int| 0 <= i < tail_pairs.len() ==> #[trigger] tail_pairs[i] == ps[i + 1]);
        lemma_parse_file_pairs_emit(tail_pairs, rest);
        assert(seq![(p0.0, p0.1)] + tail_pairs =~= ps);
    }
}

pub proof fn lemma_parse_file_map_emit(ps: Seq<(Seq<char>, FileDataV)>, rest: Seq<char>)
    requires
        crate::omap::map_sorted(ps),
        files_ranged(ps),
        forall|i: int| 0 <= i < ps.len() ==> crate::omap::map_sorted((#[trigger] ps[i]).1.tags),
    ensures
        parse_file_map(emit_file_map(ps) + rest) == Some((ps, rest)),
{
    let e = emit_file_map(ps) + rest;
    assert(e[0] == '{');
    if ps.len() == 0 {
        assert(e =~= seq!['{'] + (seq!['}'] + rest));
        assert(e[1] == '}');
        assert(e.skip(2) =~= rest);
        assert(ps =~= Seq::<(Seq<char>, FileDataV)>::empty());
    } else {
        assert(e[1] == emit_file_pairs(ps)[0]);
        assert(emit_file_pairs(ps)[0] == emit_file_pair(ps[0])[0]);
        assert(emit_file_pair(ps[0])[0] == emit_string(ps[0].0)[0]);
        assert(emit_string(ps[0].0)[0] == '"');
        assert(e.len() >= 2 && e[1] != '}') by {
            assert(('"' as int) == 34 && ('}' as int) == 125);
        }
        assert(e.skip(1) =~= emit_file_pairs(ps) + (seq!['}'] + rest));
        assert((seq!['}'] + rest)[0] == '}');
        assert(('}' as int) != (',' as int));
        lemma_parse_file_pairs_emit(ps, seq!['}'] + rest);
        lemma_parse_lit_exact(seq!['}'], rest);
    }
}

/// Every map of the body is sorted, inner maps and member lists included.
pub open spec fn dbv_wf(d: DbV) -> bool {
    &&& crate::omap::map_sorted(d.files)
    &&& forall|i: int|
        0 <= i < d.files.len() ==> crate::omap::map_sorted((#[trigger] d.files[i]).1.tags)
    &&& crate::omap::map_sorted(d.collections)
    &&& forall|i: int|
        0 <= i < d.collections.len() ==> crate::omap::set_sorted((#[trigger] d.collections[i]).1)
    &&& crate::omap::map_sorted(d.tags)
}

/// Reading back one emitted store body recovers it.
#[verifier::rlimit(60)]
pub proof fn lemma_parse_db_emit(d: DbV, rest: Seq<char>)
    requires
        dbv_wf(d),
        dbv_ranged(d),
    ensures
        parse_db(emit_db(d) + rest) == Some((d, rest)),
{
    reveal_strlit(",\"collections\":");
    reveal_strlit(",\"tags\":");
    reveal_strlit(",\"comment\":");
    reveal_strlit(",\"created\":");
    reveal_strlit(",\"updated\":");
    let a1 = emit_file_map(d.files);
    let a2 = emit_coll_map(d.collections);
    let a3 = emit_tag_map(d.tags);
    let a4 = emit_opt_string(d.comment);
    let a5 = dec_of_int(d.created);
    let a6 = emit_opt_int(d.updated);
    let t6 = a6 + (seq!['}'] + rest);
    let t5b = ",\"updated\":"@ + t6;
    let t5 = a5 + t5b;
    let t4b = ",\"created\":"@ + t5;
    let t4 = a4 + t4b;
    let t3b = ",\"comment\":"@ + t4;
    let t3 = a3 + t3b;
    let t2b = ",\"tags\":"@ + t3;
    let t2 = a2 + t2b;
    let t1b = ",\"collections\":"@ + t2;
    let t1 = a1 + t1b;
    assert(emit_db(d) + rest =~= "{\"files\":"@ + t1);
    lemma_parse_lit_exact("{\"files\":"@, t1);
    lemma_parse_file_map_emit(d.files, t1b);
    lemma_parse_lit_exact(",\"collections\":"@, t2);
    lemma_parse_coll_map_emit(d.collections, t2b);
    lemma_parse_lit_exact(",\"tags\":"@, t3);
    lemma_parse_tag_map_emit(d.tags, t3b);
    lemma_parse_lit_exact(",\"comment\":"@, t4);
    lemma_parse_opt_string_emit(d.comment, t4b);
    lemma_parse_lit_exact(",\"created\":"@, t5);
    assert(t5b[0] == ',');
    assert(!is_digit(',')) by {
        assert((',' as int) == 44);
    }
    lemma_parse_int_tok_emit(d.created, t5b);
    lemma_parse_lit_exact(",\"updated\":"@, t6);
    assert((seq!['}'] + rest)[0] == '}');
    assert(!is_digit('}')) by {
        assert(('}' as int) == 125);
    }
    lemma_parse_opt_int_emit(d.updated, seq!['}'] + rest);
    lemma_parse_lit_exact(seq!['}'], rest);
}

/// The JSON round trip: a well-formed store body written compactly reads
/// back as itself.
pub proof fn lemma_json_round_trip(d: DbV)
    requires
        dbv_wf(d),
        dbv_ranged(d),
    ensures
        spec_decode_json(emit_db(d)) == Some(d),
{
    lemma_parse_db_emit(d, Seq::empty());
    assert(emit_db(d) + Seq::<char>::empty() =~= emit_db(d));
}

/// Appends a literal's characters.
fn push_lit(out: &mut Vec<char>, lit: &str)
    ensures
        final(out)@ == old(out)@ + lit@,
{
    let n = lit.unicode_len();
    let mut i: usize = 0;
    proof {
        assert(out@ =~= old(out)@ + lit@.take(0));
    }
    while i < n
        invariant
            i <= n,
            n == lit@.len(),
            out@ == old(out)@ + lit@.take(i as int),
        decreases n - i,
    {
        out.push(lit.get_char(i));
        proof {
            assert(out@ =~= old(out)@ + lit@.take(i as int + 1));
        }
        i = i + 1;
    }
    proof {
        assert(lit@.take(n as int) =~= lit@);
    }
}

fn hex_digit_exec(d: u32) -> (r: char)
    requires
        d < 16,
    ensures
        r == hex_digit(d as int),
{
    if d < 10 {
        ((d as u8) + 48) as char
    } else {
        ((d as u8) + 87) as char
    }
}

/// Appends a string body with every sensitive character escaped.
fn push_escaped(out: &mut Vec<char>, s: &str)
    ensures
        final(out)@ == old(out)@ + emit_string_body(s@),
{
    let n = s.unicode_len();
    let mut i: usize = 0;
    proof {
        assert(emit_string_body(s@.take(0)) =~= Seq::<char>::empty());
        assert(out@ =~= old(out)@ + emit_string_body(s@.take(0)));
    }
    while i < n
        invariant
            i <= n,
            n == s@.len(),
            out@ == old(out)@ + emit_string_body(s@.take(i as int)),
        decreases n - i,
    {
        let c = s.get_char(i);
        let v = c as u32;
        assert((c as u32) == (c as int));
        proof {
            assert(s@.take(i as int + 1) =~= s@.take(i as int) + seq![c]);
            lemma_emit_body_concat(s@.take(i as int), seq![c]);
            assert(emit_string_body(seq![c]) =~= esc_char(c)) by {
                assert(seq![c].skip(1) =~= Seq::<char>::empty());
                assert(emit_string_body(seq![c].skip(1)) == emit_string_body(
                    Seq::<char>::empty()));
                assert(emit_string_body(Seq::<char>::empty()) =~= Seq::<char>::empty());
            }
        }
        if v <= 0x20 || c == '"' || c == '\\' {
            assert(needs_escape(c));
            out.push('\\');
            out.push('u');
            out.push('0');
            out.push('0');
            out.push(hex_digit_exec(v / 16));
            out.push(hex_digit_exec(v % 16));
            proof {
                assert(out@ =~= old(out)@ + emit_string_body(s@.take(i as int)) + esc_char(c));
            }
        } else {
            assert(!needs_escape(c));
            out.push(c);
            proof {
                assert(out@ =~= old(out)@ + emit_string_body(s@.take(i as int)) + esc_char(c));
            }
        }
        proof {
            assert(out@ =~= old(out)@ + emit_string_body(s@.take(i as int + 1)));
        }
        i = i + 1;
    }
    proof {
        assert(s@.take(n as int) =~= s@);
    }
}

fn push_json_string(out: &mut Vec<char>, s: &str)
    ensures
        final(out)@ == old(out)@ + emit_string(s@),
{
    out.push('"');
    push_escaped(out, s);
    out.push('"');
    proof {
        assert(out@ =~= old(out)@ + emit_string(s@));
    }
}

fn push_opt_string(out: &mut Vec<char>, v: &Option<String>)
    ensures
        final(out)@ == old(out)@ + emit_opt_string(
            match *v {
                Some(s) => Some(s@),
                None => None,
            },
        ),
{
    match v {
        None => {
            push_lit(out, "null");
        },
        Some(s) => {
            push_json_string(out, s.as_str());
        },
    }
}

fn push_opt_i64(out: &mut Vec<char>, v: &Option<i64>)
    ensures
        final(out)@ == old(out)@ + emit_opt_int(
            match *v {
                Some(x) => Some(x as int),
                None => None,
            },
        ),
{
    match v {
        None => {
            push_lit(out, "null");
        },
        Some(x) => {
            crate::text::push_dec_i64(out, *x);
        },
    }
}

fn push_tag_value(out: &mut Vec<char>, v: &TagValue)
    ensures
        final(out)@ == old(out)@ + emit_tag_value(v.deep_view()),
{
    match v {
        TagValue::Number(n) => {
            push_lit(out, "{\"Number\":");
            crate::text::push_dec_i64(out, *n);
            out.push('}');
            proof {
                assert(out@ =~= old(out)@ + emit_tag_value(v.deep_view()));
            }
        },
        TagValue::Bool(b) => {
            push_lit(out, "{\"Bool\":");
            if *b {
                push_lit(out, "true");
            } else {
                push_lit(out, "false");
            }
            out.push('}');
            proof {
                assert(out@ =~= old(out)@ + emit_tag_value(v.deep_view()));
            }
        },
        TagValue::Url(s) => {
            push_lit(out, "{\"Url\":");
            push_json_string(out, s.as_str());
            out.push('}');
            proof {
                assert(out@ =~= old(out)@ + emit_tag_value(v.deep_view()));
            }
        },
        TagValue::Simple(s) => {
            push_lit(out, "{\"Simple\":");
            push_json_string(out, s.as_str());
            out.push('}');
            proof {
                assert(out@ =~= old(out)@ + emit_tag_value(v.deep_view()));
            }
        },
    }
}

fn push_opt_tag_value(out: &mut Vec<char>, v: &Option<TagValue>)
    ensures
        final(out)@ == old(out)@ + emit_opt_tag_value(v.deep_view()),
{
    match v {
        None => {
            push_lit(out, "null");
        },
        Some(t) => {
            push_tag_value(out, t);
        },
    }
}

fn push_tag_pairs(out: &mut Vec<char>, m: &TagsMap, idx: usize)
    requires
        idx < m@.len(),
    ensures
        final(out)@ == old(out)@ + emit_tag_pairs(m@.skip(idx as int)),
    decreases m@.len() - idx,
{
    let ghost tail = m@.skip(idx as int);
    proof {
        assert(tail[0] == m@[idx as int]);
        assert(tail.skip(1) =~= m@.skip(idx as int + 1));
    }
    let pair = m.get_index(idx);
    push_json_string(out, pair.0.as_str());
    out.push(':');
    push_opt_tag_value(out, &pair.1);
    let n = m.len();
    assert(idx < n);
    if idx + 1 < n {
        out.push(',');
        push_tag_pairs(out, m, idx + 1);
        proof {
            assert(out@ =~= old(out)@ + emit_tag_pairs(tail));
        }
    } else {
        proof {
            assert(tail.len() == 1);
            assert(out@ =~= old(out)@ + emit_tag_pairs(tail));
        }
    }
}

fn push_tag_map(out: &mut Vec<char>, m: &TagsMap)
    ensures
        final(out)@ == old(out)@ + emit_tag_map(m@),
{
    out.push('{');
    if m.len() > 0 {
        proof {
            assert(m@.skip(0) =~= m@);
        }
        push_tag_pairs(out, m, 0);
    } else {
        proof {
            assert(emit_tag_pairs(m@) =~= Seq::<char>::empty());
        }
    }
    out.push('}');
    proof {
        assert(out@ =~= old(out)@ + emit_tag_map(m@));
    }
}

fn push_key_items(out: &mut Vec<char>, ks: &KeySet, idx: usize)
    requires
        idx < ks.view().len(),
    ensures
        final(out)@ == old(out)@ + emit_key_items(ks.view().skip(idx as int)),
    decreases ks.view().len() - idx,
{
    let ghost tail = ks.view().skip(idx as int);
    proof {
        assert(tail[0] == ks.view()[idx as int]);
        assert(tail.skip(1) =~= ks.view().skip(idx as int + 1));
    }
    let member = ks.get_index(idx);
    push_json_string(out, member.as_str());
    let n = ks.len();
    assert(idx < n);
    if idx + 1 < n {
        out.push(',');
        push_key_items(out, ks, idx + 1);
        proof {
            assert(out@ =~= old(out)@ + emit_key_items(tail));
        }
    } else {
        proof {
            assert(tail.len() == 1);
            assert(out@ =~= old(out)@ + emit_key_items(tail));
        }
    }
}

fn push_key_list(out: &mut Vec<char>, ks: &KeySet)
    ensures
        final(out)@ == old(out)@ + emit_key_list(ks.view()),
{
    out.push('[');
    if ks.len() > 0 {
        proof {
            assert(ks.view().skip(0) =~= ks.view());
        }
        push_key_items(out, ks, 0);
    } else {
        proof {
            assert(emit_key_items(ks.view()) =~= Seq::<char>::empty());
        }
    }
    out.push(']');
    proof {
        assert(out@ =~= old(out)@ + emit_key_list(ks.view()));
    }
}

fn push_coll_pairs(out: &mut Vec<char>, m: &OrderedMap<KeySet>, idx: usize)
    requires
        idx < m@.len(),
    ensures
        final(out)@ == old(out)@ + emit_coll_pairs(m@.skip(idx as int)),
    decreases m@.len() - idx,
{
    let ghost tail = m@.skip(idx as int);
    proof {
        assert(tail[0] == m@[idx as int]);
        assert(tail.skip(1) =~= m@.skip(idx as int + 1));
    }
    let pair = m.get_index(idx);
    push_json_string(out, pair.0.as_str());
    out.push(':');
    push_key_list(out, &pair.1);
    let n = m.len();
    assert(idx < n);
    if idx + 1 < n {
        out.push(',');
        push_coll_pairs(out, m, idx + 1);
        proof {
            assert(out@ =~= old(out)@ + emit_coll_pairs(tail));
        }
    } else {
        proof {
            assert(tail.len() == 1);
            assert(out@ =~= old(out)@ + emit_coll_pairs(tail));
        }
    }
}

fn push_coll_map(out: &mut Vec<char>, m: &OrderedMap<KeySet>)
    ensures
        final(out)@ == old(out)@ + emit_coll_map(m@),
{
    out.push('{');
    if m.len() > 0 {
        proof {
            assert(m@.skip(0) =~= m@);
        }
        push_coll_pairs(out, m, 0);
    } else {
        proof {
            assert(emit_coll_pairs(m@) =~= Seq::<char>::empty());
        }
    }
    out.push('}');
    proof {
        assert(out@ =~= old(out)@ + emit_coll_map(m@));
    }
}

fn push_entry(out: &mut Vec<char>, e: &FileData)
    ensures
        final(out)@ == old(out)@ + emit_entry(e.deep_view()),
{
    proof {
        reveal(emit_entry);
    }
    push_lit(out, "{\"tags\":");
    push_tag_map(out, &e.tags);
    push_lit(out, ",\"comment\":");
    push_opt_string(out, &e.comment);
    push_lit(out, ",\"created\":");
    crate::text::push_dec_i64(out, e.created);
    push_lit(out, ",\"updated\":");
    push_opt_i64(out, &e.updated);
    out.push('}');
    proof {
        reveal(emit_entry);
        assert(out@ =~= old(out)@ + emit_entry(e.deep_view()));
    }
}

fn push_file_pairs(out: &mut Vec<char>, m: &OrderedMap<FileData>, idx: usize)
    requires
        idx < m@.len(),
    ensures
        final(out)@ == old(out)@ + emit_file_pairs(m@.skip(idx as int)),
    decreases m@.len() - idx,
{
    let ghost tail = m@.skip(idx as int);
    proof {
        assert(tail[0] == m@[idx as int]);
        assert(tail.skip(1) =~= m@.skip(idx as int + 1));
    }
    let pair = m.get_index(idx);
    push_json_string(out, pair.0.as_str());
    out.push(':');
    push_entry(out, &pair.1);
    let n = m.len();
    assert(idx < n);
    if idx + 1 < n {
        out.push(',');
        push_file_pairs(out, m, idx + 1);
        proof {
            assert(out@ =~= old(out)@ + emit_file_pairs(tail));
        }
    } else {
        proof {
            assert(tail.len() == 1);
            assert(out@ =~= old(out)@ + emit_file_pairs(tail));
        }
    }
}

fn push_file_map(out: &mut Vec<char>, m: &OrderedMap<FileData>)
    ensures
        final(out)@ == old(out)@ + emit_file_map(m@),
{
    out.push('{');
    if m.len() > 0 {
        proof {
            assert(m@.skip(0) =~= m@);
        }
        push_file_pairs(out, m, 0);
    } else {
        proof {
            assert(emit_file_pairs(m@) =~= Seq::<char>::empty());
        }
    }
    out.push('}');
    proof {
        assert(out@ =~= old(out)@ + emit_file_map(m@));
    }
}

/// Writes the compact JSON body of a store.
pub fn encode_json_compact(db: &Db) -> (r: String)
    ensures
        r@ == emit_db(db@),
{
    let mut out: Vec<char> = Vec::new();
    push_lit(&mut out, "{\"files\":");
    push_file_map(&mut out, &db.files);
    push_lit(&mut out, ",\"collections\":");
    push_coll_map(&mut out, &db.collections);
    push_lit(&mut out, ",\"tags\":");
    push_tag_map(&mut out, &db.tags);
    push_lit(&mut out, ",\"comment\":");
    push_opt_string(&mut out, &db.comment);
    push_lit(&mut out, ",\"created\":");
    crate::text::push_dec_i64(&mut out, db.created);
    push_lit(&mut out, ",\"updated\":");
    push_opt_i64(&mut out, &db.updated);
    out.push('}');
    proof {
        assert(out@ =~= emit_db(db@));
    }
    crate::text::chars_to_string(&out)
}

/// Matches a literal at the position, returning the position behind it.
fn d_lit(v: &Vec<char>, pos: usize, lit: &str) -> (r: Option<usize>)
    requires
        pos <= v@.len(),
    ensures
        match r {
            Some(np) => pos <= np <= v@.len() && parse_lit(lit@, v@.skip(pos as int)) == Some(
                v@.skip(np as int),
            ),
            None => parse_lit(lit@, v@.skip(pos as int)) is None,
        },
{
    let ghost s = v@.skip(pos as int);
    let n = lit.unicode_len();
    let vlen = v.len();
    if vlen - pos < n {
        return None;
    }
    let mut i: usize = 0;
    while i < n
        invariant
            i <= n,
            n == lit@.len(),
            pos <= v@.len(),
            vlen == v@.len(),
            n <= vlen - pos,
            s == v@.skip(pos as int),
            forall|j: int| 0 <= j < i ==> s[j] == lit@[j],
        decreases n - i,
    {
        assert(i < n && pos + i < vlen);
        if v[pos + i] != lit.get_char(i) {
            assert(s[i as int] == v@[pos + i]);
            assert(parse_lit(lit@, s) is None) by {
                if s.len() >= lit@.len() && s.take(lit@.len() as int) == lit@ {
                    assert(s.take(lit@.len() as int)[i as int] == s[i as int]);
                    assert(s[i as int] == lit@[i as int]);
                }
            }
            return None;
        }
        assert(s[i as int] == v@[pos + i]);
        i = i + 1;
    }
    proof {
        assert(s.take(n as int) =~= lit@);
        assert(s.skip(n as int) =~= v@.skip(pos + n));
    }
    Some(pos + n)
}

/// Reads a quoted, escaped string at the position.
fn d_string(v: &Vec<char>, pos: usize) -> (r: Option<(String, usize)>)
    requires
        pos <= v@.len(),
    ensures
        match r {
            Some(p) => pos + 2 <= p.1 <= v@.len() && parse_string(v@.skip(pos as int)) == Some(
                (p.0@, v@.skip(p.1 as int)),
            ),
            None => parse_string(v@.skip(pos as int)) is None,
        },
{
    let ghost s = v@.skip(pos as int);
    if pos == v.len() || v[pos] != '"' {
        if pos < v.len() {
            assert(s[0] == v@[pos as int]);
        }
        return None;
    }
    assert(s[0] == '"');
    let mut buf: Vec<char> = Vec::new();
    let mut i: usize = pos + 1;
    assert(s.skip(1) =~= v@.skip(pos + 1));
    loop
        invariant
            pos + 1 <= i <= v@.len(),
            s == v@.skip(pos as int),
            s.len() > 0 && s[0] == '"',
            ({
                let whole = parse_string_body(v@.skip(pos + 1));
                let here = parse_string_body(v@.skip(i as int));
                match here {
                    Some(r2) => whole == Some((buf@ + r2.0, r2.1)),
                    None => whole is None,
                }
            }),
        decreases v@.len() - i,
    {
        let ghost here = v@.skip(i as int);
        proof {
            assert(s.skip(1) =~= v@.skip(pos + 1));
        }
        if i == v.len() {
            assert(here.len() == 0);
            assert(parse_string_body(here) is None);
            return None;
        }
        assert(here[0] == v@[i as int]);
        assert(here.skip(1) =~= v@.skip(i as int + 1));
        let c = v[i];
        if c == '"' {
            assert(parse_string_body(here) == Some((Seq::<char>::empty(), v@.skip(i as int + 1))));
            proof {
                assert(buf@ + Seq::<char>::empty() =~= buf@);
            }
            let out = crate::text::chars_to_string(&buf);
            return Some((out, i + 1));
        }
        if c == '\\' {
            if v.len() - i < 6 {
                assert(here.len() < 6);
                assert(parse_string_body(here) is None);
                return None;
            }
            assert(here[1] == v@[i + 1] && here[2] == v@[i + 2] && here[3] == v@[i + 3] && here[4]
                == v@[i + 4] && here[5] == v@[i + 5]);
            if v[i + 1] != 'u' || v[i + 2] != '0' || v[i + 3] != '0' {
                assert(parse_string_body(here) is None);
                return None;
            }
            let h1 = v[i + 4];
            let h2 = v[i + 5];
            let ok1 = (h1 >= '0' && h1 <= '9') || (h1 >= 'a' && h1 <= 'f');
            let ok2 = (h2 >= '0' && h2 <= '9') || (h2 >= 'a' && h2 <= 'f');
            assert(ok1 == is_hex(here[4]) && ok2 == is_hex(here[5]));
            if !ok1 || !ok2 {
                assert(parse_string_body(here) is None);
                return None;
            }
            assert(48 <= (h1 as int) <= 102 && 48 <= (h2 as int) <= 102);
            assert((h1 as u32) == (h1 as int) && (h2 as u32) == (h2 as int));
            let h1v = h1 as u32;
            let h2v = h2 as u32;
            let x1: u32 = if h1v >= 97 {
                h1v - 87
            } else {
                h1v - 48
            };
            let x2: u32 = if h2v >= 97 {
                h2v - 87
            } else {
                h2v - 48
            };
            assert(x1 == hex_val(here[4]) && x2 == hex_val(here[5]));
            let code: u32 = x1 * 16 + x2;
            assert(code < 256);
            let c2 = (code as u8) as char;
            assert(c2 == ((hex_val(here[4]) * 16 + hex_val(here[5])) as char));
            assert(here.skip(6) =~= v@.skip(i as int + 6));
            let ghost old_buf = buf@;
            buf.push(c2);
            proof {
                assert(buf@ =~= old_buf + seq![c2]);
                let next = parse_string_body(v@.skip(i as int + 6));
                match next {
                    Some(r2) => {
                        assert(parse_string_body(here) == Some((seq![c2] + r2.0, r2.1)));
                        assert(old_buf + (seq![c2] + r2.0) =~= buf@ + r2.0);
                    },
                    None => {
                        assert(parse_string_body(here) is None);
                    },
                }
            }
            i = i + 6;
        } else {
            let ghost old_buf = buf@;
            buf.push(c);
            proof {
                assert(buf@ =~= old_buf + seq![c]);
                let next = parse_string_body(v@.skip(i as int + 1));
                match next {
                    Some(r2) => {
                        assert(parse_string_body(here) == Some((seq![c] + r2.0, r2.1)));
                        assert(old_buf + (seq![c] + r2.0) =~= buf@ + r2.0);
                    },
                    None => {
                        assert(parse_string_body(here) is None);
                    },
                }
            }
            i = i + 1;
        }
    }
}

proof fn lemma_digits_len_at(s: Seq<char>, k: int)
    requires
        0 <= k <= s.len(),
        forall|j: int| 0 <= j < k ==> is_digit(#[trigger] s[j]),
        k == s.len() || !is_digit(s[k]),
    ensures
        digits_len(s) == k,
    decreases k,
{
    if k == 0 {
    } else {
        assert(is_digit(s[0]));
        let t = s.skip(1);
        assert(forall|j: int| 0 <= j < t.len() ==> #[trigger] t[j] == s[j + 1]);
        lemma_digits_len_at(t, k - 1);
    }
}

/// Reads a decimal integer token at the position.
fn d_int(v: &Vec<char>, pos: usize) -> (r: Option<(i64, usize)>)
    requires
        pos <= v@.len(),
    ensures
        match r {
            Some(p) => pos < p.1 <= v@.len() && parse_int_tok(v@.skip(pos as int)) == Some(
                (p.0 as int, v@.skip(p.1 as int)),
            ),
            None => parse_int_tok(v@.skip(pos as int)) is None,
        },
{
    let ghost s = v@.skip(pos as int);
    let neg = pos < v.len() && v[pos] == '-';
    proof {
        if pos < v.len() {
            assert(s[0] == v@[pos as int]);
        }
    }
    let start: usize = if neg {
        pos + 1
    } else {
        pos
    };
    let ghost t = if neg {
        s.skip(1)
    } else {
        s
    };
    proof {
        assert(t =~= v@.skip(start as int));
        assert(forall|j: int| 0 <= j < t.len() ==> t[j] == v@[j + start]);
    }
    let ghost bound: int = 9223372036854775807 + if neg {
        1int
    } else {
        0int
    };
    let limit_last: u64 = if neg {
        8
    } else {
        7
    };
    let mut acc: u64 = 0;
    let mut i: usize = start;
    if i == v.len() || !(v[i] >= '0' && v[i] <= '9') {
        proof {
            if i < v.len() {
                assert(t[0] == v@[i as int]);
                assert(!is_digit(t[0]));
            }
            lemma_digits_len_at(t, 0);
        }
        return None;
    }
    while i < v.len() && v[i] >= '0' && v[i] <= '9'
        invariant
            start < v@.len(),
            is_digit(t[0]),
            t.len() > 0,
            start <= i <= v@.len(),
            pos <= v@.len(),
            start == pos + if neg {
                1int
            } else {
                0int
            },
            s == v@.skip(pos as int),
            t == (if neg {
                s.skip(1)
            } else {
                s
            }),
            t == v@.skip(start as int),
            neg ==> s.len() > 0 && s[0] == '-',
            !neg ==> s.len() == 0 || s[0] != '-',
            t.len() == v@.len() - start,
            forall|j: int| 0 <= j < t.len() ==> t[j] == v@[j + start],
            forall|j: int| 0 <= j < i - start ==> is_digit(#[trigger] t[j]),
            acc == dec_val(t.take(i - start)),
            all_digits(t.take(i - start)),
            acc <= bound,
            bound == 9223372036854775807 + if neg {
                1int
            } else {
                0int
            },
            limit_last == if neg {
                8u64
            } else {
                7u64
            },
        decreases v@.len() - i,
    {
        let c = v[i];
        assert(c == t[i - start]);
        assert(is_digit(c));
        let d: u64 = (c as u32 as u64) - 48;
        assert(d == digit_val(c) && d < 10);
        proof {
            assert(t.take(i - start + 1).drop_last() =~= t.take(i - start));
            assert(t.take(i - start + 1).last() == c);
        }
        if acc > 922337203685477580 || (acc == 922337203685477580 && d > limit_last) {
            proof {
                let w = dec_val(t.take(i - start + 1));
                assert(w == acc * 10 + d);
                assert(w > bound);
                let k = digits_len(t);
                lemma_digits_len_props(t);
                assert(k >= i - start + 1) by {
                    if k < i - start + 1 {
                        assert(k <= i - start);
                        assert(is_digit(t[k]));
                        assert(false);
                    }
                }
                crate::text::lemma_dec_val_prefix(t.take(k), i - start + 1);
                assert(t.take(k).take(i - start + 1) =~= t.take(i - start + 1));
                assert(dec_val(t.take(k)) >= w);
                if neg {
                    assert(-dec_val(t.take(k)) < -9223372036854775808);
                } else {
                    assert(dec_val(t.take(k)) > 9223372036854775807);
                }
            }
            return None;
        }
        assert(acc * 10 + d <= bound) by {
            if acc == 922337203685477580 {
                assert(d <= limit_last);
            } else {
                assert(acc <= 922337203685477579);
            }
        }
        acc = acc * 10 + d;
        i = i + 1;
        assert(acc == dec_val(t.take(i - start)));
        assert(all_digits(t.take(i - start)));
    }
    let k = i - start;
    proof {
        assert(i > start) by {
            if i == start {
                assert(i < v@.len());
                assert(v@[i as int] == t[0]);
                assert(is_digit(t[0]));
                assert(('0' as int) == 48 && ('9' as int) == 57);
                assert(false);
            }
        }
        assert(k as int == i - start);
        assert(i < v@.len() ==> t[i - start] == v@[i as int]);
        assert(k as int == t.len() || !is_digit(t[k as int])) by {
            if (k as int) < t.len() {
                assert(i < v@.len());
                assert(('0' as int) == 48 && ('9' as int) == 57);
            }
        }
        lemma_digits_len_at(t, k as int);
        assert(digits_len(t) == k);
        assert(t.skip(k as int) =~= v@.skip(i as int));
    }
    if neg {
        if acc == 9223372036854775808 {
            assert(i64::MIN as int == -(acc as int));
            Some((i64::MIN, i))
        } else {
            assert(acc <= 9223372036854775807);
            Some((-(acc as i64), i))
        }
    } else {
        Some((acc as i64, i))
    }
}

/// The digit prefix is digits, stops at a non-digit, and never leaves the
/// text.
proof fn lemma_digits_len_props(s: Seq<char>)
    ensures
        0 <= digits_len(s) <= s.len(),
        all_digits(s.take(digits_len(s))),
        digits_len(s) == s.len() || !is_digit(s[digits_len(s)]),
    decreases s.len(),
{
    let k = digits_len(s);
    if s.len() > 0 && is_digit(s[0]) {
        let t = s.skip(1);
        assert(forall|j: int| 0 <= j < t.len() ==> #[trigger] t[j] == s[j + 1]);
        lemma_digits_len_props(t);
        assert(k == 1 + digits_len(t));
        assert(forall|j: int| 0 <= j < k ==> is_digit(#[trigger] s.take(k)[j])) by {
            assert(forall|j: int| 1 <= j < k ==> s.take(k)[j] == t[j - 1]);
            assert(forall|j: int|
                0 <= j < digits_len(t) ==> is_digit(#[trigger] t.take(digits_len(t))[j]));
            assert(forall|j: int| 0 <= j < digits_len(t) ==> t.take(digits_len(t))[j] == t[j]);
        }
    } else {
        assert(s.take(0) =~= Seq::<char>::empty());
    }
}

fn d_opt_i64(v: &Vec<char>, pos: usize) -> (r: Option<(Option<i64>, usize)>)
    requires
        pos <= v@.len(),
    ensures
        match r {
            Some(p) => pos < p.1 <= v@.len() && parse_opt_int(v@.skip(pos as int)) == Some(
                (
                    match p.0 {
                        Some(x) => Some(x as int),
                        None => None,
                    },
                    v@.skip(p.1 as int),
                ),
            ),
            None => parse_opt_int(v@.skip(pos as int)) is None,
        },
{
    match d_lit(v, pos, "null") {
        Some(np) => {
            proof {
                reveal_strlit("null");
                assert(np > pos);
            }
            Some((None, np))
        },
        None => {
            match d_int(v, pos) {
                Some(p) => Some((Some(p.0), p.1)),
                None => None,
            }
        },
    }
}

fn d_opt_string(v: &Vec<char>, pos: usize) -> (r: Option<(Option<String>, usize)>)
    requires
        pos <= v@.len(),
    ensures
        match r {
            Some(p) => pos < p.1 <= v@.len() && parse_opt_string(v@.skip(pos as int)) == Some(
                (
                    match p.0 {
                        Some(x) => Some(x@),
                        None => None,
                    },
                    v@.skip(p.1 as int),
                ),
            ),
            None => parse_opt_string(v@.skip(pos as int)) is None,
        },
{
    match d_lit(v, pos, "null") {
        Some(np) => {
            proof {
                reveal_strlit("null");
                assert(np > pos);
            }
            Some((None, np))
        },
        None => {
            match d_string(v, pos) {
                Some(p) => Some((Some(p.0), p.1)),
                None => None,
            }
        },
    }
}

fn d_tag_value(v: &Vec<char>, pos: usize) -> (r: Option<(TagValue, usize)>)
    requires
        pos <= v@.len(),
    ensures
        match r {
            Some(p) => pos < p.1 <= v@.len() && parse_tag_value(v@.skip(pos as int)) == Some(
                (p.0.deep_view(), v@.skip(p.1 as int)),
            ),
            None => parse_tag_value(v@.skip(pos as int)) is None,
        },
{
    match d_lit(v, pos, "{\"Number\":") {
        Some(np) => {
            proof {
                reveal_strlit("{\"Number\":");
                assert(np > pos);
            }
            let (n, np2) = match d_int(v, np) {
                Some(p) => p,
                None => {
                    return None;
                },
            };
            match d_lit(v, np2, "}") {
                Some(np3) => {
                    proof {
                        reveal_strlit("}");
                        assert("}"@ =~= seq!['}']);
                    }
                    Some((TagValue::Number(n), np3))
                },
                None => {
                    proof {
                        reveal_strlit("}");
                        assert("}"@ =~= seq!['}']);
                    }
                    None
                },
            }
        },
        None => {
            match d_lit(v, pos, "{\"Bool\":") {
                Some(np) => {
                    proof {
                        reveal_strlit("{\"Bool\":");
                        assert(np > pos);
                    }
                    let (b, np2) = match d_lit(v, np, "true") {
                        Some(q) => (true, q),
                        None => {
                            match d_lit(v, np, "false") {
                                Some(q) => (false, q),
                                None => {
                                    return None;
                                },
                            }
                        },
                    };
                    match d_lit(v, np2, "}") {
                        Some(np3) => {
                            proof {
                                reveal_strlit("}");
                                assert("}"@ =~= seq!['}']);
                                reveal_strlit("true");
                                reveal_strlit("false");
                                assert(np3 > pos);
                            }
                            Some((TagValue::Bool(b), np3))
                        },
                        None => {
                            proof {
                                reveal_strlit("}");
                                assert("}"@ =~= seq!['}']);
                            }
                            None
                        },
                    }
                },
                None => {
                    match d_lit(v, pos, "{\"Url\":") {
                        Some(np) => {
                            proof {
                                reveal_strlit("{\"Url\":");
                                assert(np > pos);
                            }
                            let (u, np2) = match d_string(v, np) {
                                Some(p) => p,
                                None => {
                                    return None;
                                },
                            };
                            match d_lit(v, np2, "}") {
                                Some(np3) => {
                                    proof {
                                        reveal_strlit("}");
                                        assert("}"@ =~= seq!['}']);
                                    }
                                    Some((TagValue::Url(u), np3))
                                },
                                None => {
                                    proof {
                                        reveal_strlit("}");
                                        assert("}"@ =~= seq!['}']);
                                    }
                                    None
                                },
                            }
                        },
                        None => {
                            match d_lit(v, pos, "{\"Simple\":") {
                                Some(np) => {
                                    proof {
                                        reveal_strlit("{\"Simple\":");
                                        assert(np > pos);
                                    }
                                    let (u, np2) = match d_string(v, np) {
                                        Some(p) => p,
                                        None => {
                                            return None;
                                        },
                                    };
                                    match d_lit(v, np2, "}") {
                                        Some(np3) => {
                                            proof {
                                                reveal_strlit("}");
                                                assert("}"@ =~= seq!['}']);
                                            }
                                            Some((TagValue::Simple(u), np3))
                                        },
                                        None => {
                                            proof {
                                                reveal_strlit("}");
                                                assert("}"@ =~= seq!['}']);
                                            }
                                            None
                                        },
                                    }
                                },
                                None => None,
                            }
                        },
                    }
                },
            }
        },
    }
}

fn d_opt_tag_value(v: &Vec<char>, pos: usize) -> (r: Option<(Option<TagValue>, usize)>)
    requires
        pos <= v@.len(),
    ensures
        match r {
            Some(p) => pos < p.1 <= v@.len() && parse_opt_tag_value(v@.skip(pos as int)) == Some(
                (p.0.deep_view(), v@.skip(p.1 as int)),
            ),
            None => parse_opt_tag_value(v@.skip(pos as int)) is None,
        },
{
    match d_lit(v, pos, "null") {
        Some(np) => {
            proof {
                reveal_strlit("null");
                assert(np > pos);
            }
            Some((None, np))
        },
        None => {
            match d_tag_value(v, pos) {
                Some(p) => Some((Some(p.0), p.1)),
                None => None,
            }
        },
    }
}

fn d_tag_pairs(v: &Vec<char>, pos: usize) -> (r: Option<(Vec<(String, Option<TagValue>)>, usize)>)
    requires
        pos <= v@.len(),
    ensures
        match r {
            Some(p) => pos < p.1 <= v@.len() && parse_tag_pairs(v@.skip(pos as int)) == Some(
                (p.0.deep_view(), v@.skip(p.1 as int)),
            ),
            None => parse_tag_pairs(v@.skip(pos as int)) is None,
        },
    decreases v@.len() - pos,
{
    let ghost s = v@.skip(pos as int);
    let (key, np1) = match d_string(v, pos) {
        Some(p) => p,
        None => {
            return None;
        },
    };
    proof {
        reveal_strlit(":");
        assert(":"@ =~= seq![':']);
    }
    let np2 = match d_lit(v, np1, ":") {
        Some(q) => q,
        None => {
            return None;
        },
    };
    let (val, np3) = match d_opt_tag_value(v, np2) {
        Some(p) => p,
        None => {
            return None;
        },
    };
    assert(np3 > pos);
    let ghost here = v@.skip(np3 as int);
    if np3 < v.len() && v[np3] == ',' {
        assert(here[0] == v@[np3 as int]);
        assert(here.len() < s.len());
        assert(here.skip(1) =~= v@.skip(np3 as int + 1));
        let rr = match d_tag_pairs(v, np3 + 1) {
            Some(p) => p,
            None => {
                return None;
            },
        };
        let mut rest = rr.0;
        let np4 = rr.1;
        let ghost rest_dv = rest.deep_view();
        let ghost before = rest@;
        rest.insert(0, (key, val));
        proof {
            assert(rest@ =~= seq![(rest@[0].0, rest@[0].1)].map_values(
                |p: (String, Option<TagValue>)| p) + before) by {
                assert(rest@ == before.insert(0, rest@[0]));
                assert(rest@ =~= seq![rest@[0]] + before);
            }
            assert forall|j: int| 0 <= j < rest.deep_view().len() implies rest.deep_view()[j] == (
                seq![(key@, val.deep_view())] + rest_dv)[j] by {
                if j == 0 {
                    assert(rest@[0].0@ == key@);
                } else {
                    assert(rest@[j] == before[j - 1]);
                }
            }
            assert(rest.deep_view() =~= seq![(key@, val.deep_view())] + rest_dv);
        }
        Some((rest, np4))
    } else {
        proof {
            if np3 < v@.len() {
                assert(here[0] == v@[np3 as int]);
            }
        }
        let mut out: Vec<(String, Option<TagValue>)> = Vec::new();
        out.push((key, val));
        proof {
            assert(out.deep_view() =~= seq![(out@[0].0@, out@[0].1.deep_view())]);
        }
        Some((out, np3))
    }
}

fn d_tag_map(v: &Vec<char>, pos: usize) -> (r: Option<(TagsMap, usize)>)
    requires
        pos <= v@.len(),
    ensures
        match r {
            Some(p) => pos < p.1 <= v@.len() && parse_tag_map(v@.skip(pos as int)) == Some(
                (p.0@, v@.skip(p.1 as int)),
            ) && p.0.wf(),
            None => parse_tag_map(v@.skip(pos as int)) is None,
        },
{
    let ghost s = v@.skip(pos as int);
    let vlen = v.len();
    proof {
        if pos < v@.len() {
            assert(s[0] == v@[pos as int]);
        }
        if pos + 1 < v@.len() {
            assert(s[1] == v@[pos as int + 1]);
        }
    }
    if pos < vlen && v[pos] == '{' {
        if pos + 1 < vlen && v[pos + 1] == '}' {
            proof {
                assert(s.skip(2) =~= v@.skip(pos as int + 2));
            }
            let m = TagsMap::new();
            return Some((m, pos + 2));
        }
        let pr = match d_tag_pairs(v, pos + 1) {
            Some(p) => p,
            None => {
                proof {
                    assert(s.skip(1) =~= v@.skip(pos as int + 1));
                }
                return None;
            },
        };
        proof {
            assert(s.skip(1) =~= v@.skip(pos as int + 1));
        }
        let mut items = pr.0;
        let np = pr.1;
        let m = match crate::omap::build_map(&mut items) {
            Some(m) => m,
            None => {
                return None;
            },
        };
        proof {
            reveal_strlit("}");
            assert("}"@ =~= seq!['}']);
        }
        match d_lit(v, np, "}") {
            Some(np2) => Some((m, np2)),
            None => None,
        }
    } else {
        None
    }
}

fn d_key_items(v: &Vec<char>, pos: usize) -> (r: Option<(Vec<String>, usize)>)
    requires
        pos <= v@.len(),
    ensures
        match r {
            Some(p) => pos < p.1 <= v@.len() && parse_key_items(v@.skip(pos as int)) == Some(
                (p.0.deep_view(), v@.skip(p.1 as int)),
            ),
            None => parse_key_items(v@.skip(pos as int)) is None,
        },
    decreases v@.len() - pos,
{
    let ghost s = v@.skip(pos as int);
    let (key, np1) = match d_string(v, pos) {
        Some(p) => p,
        None => {
            return None;
        },
    };
    assert(np1 > pos);
    let ghost here = v@.skip(np1 as int);
    if np1 < v.len() && v[np1] == ',' {
        assert(here[0] == v@[np1 as int]);
        assert(here.len() < s.len());
        assert(here.skip(1) =~= v@.skip(np1 as int + 1));
        let rr = match d_key_items(v, np1 + 1) {
            Some(p) => p,
            None => {
                return None;
            },
        };
        let mut rest = rr.0;
        let np2 = rr.1;
        let ghost rest_dv = rest.deep_view();
        let ghost before = rest@;
        rest.insert(0, key);
        proof {
            assert(rest@ =~= seq![rest@[0]] + before);
            assert forall|j: int| 0 <= j < rest.deep_view().len() implies rest.deep_view()[j] == (
                seq![key@] + rest_dv)[j] by {
                if j == 0 {
                } else {
                    assert(rest@[j] == before[j - 1]);
                }
            }
            assert(rest.deep_view() =~= seq![key@] + rest_dv);
        }
        Some((rest, np2))
    } else {
        proof {
            if np1 < v@.len() {
                assert(here[0] == v@[np1 as int]);
            }
        }
        let mut out: Vec<String> = Vec::new();
        out.push(key);
        proof {
            assert(out.deep_view() =~= seq![out@[0]@]);
        }
        Some((out, np1))
    }
}

fn d_key_list(v: &Vec<char>, pos: usize) -> (r: Option<(KeySet, usize)>)
    requires
        pos <= v@.len(),
    ensures
        match r {
            Some(p) => pos < p.1 <= v@.len() && parse_key_list(v@.skip(pos as int)) == Some(
                (p.0.view(), v@.skip(p.1 as int)),
            ) && p.0.wf(),
            None => parse_key_list(v@.skip(pos as int)) is None,
        },
{
    let ghost s = v@.skip(pos as int);
    let vlen = v.len();
    proof {
        if pos < v@.len() {
            assert(s[0] == v@[pos as int]);
        }
        if pos + 1 < v@.len() {
            assert(s[1] == v@[pos as int + 1]);
        }
    }
    if pos < vlen && v[pos] == '[' {
        if pos + 1 < vlen && v[pos + 1] == ']' {
            proof {
                assert(s.skip(2) =~= v@.skip(pos as int + 2));
            }
            let ks = KeySet::new();
            return Some((ks, pos + 2));
        }
        let pr = match d_key_items(v, pos + 1) {
            Some(p) => p,
            None => {
                proof {
                    assert(s.skip(1) =~= v@.skip(pos as int + 1));
                }
                return None;
            },
        };
        proof {
            assert(s.skip(1) =~= v@.skip(pos as int + 1));
        }
        let mut items = pr.0;
        let np = pr.1;
        let ks = match crate::omap::build_keyset(&mut items) {
            Some(ks) => ks,
            None => {
                return None;
            },
        };
        proof {
            reveal_strlit("]");
            assert("]"@ =~= seq![']']);
        }
        match d_lit(v, np, "]") {
            Some(np2) => Some((ks, np2)),
            None => None,
        }
    } else {
        None
    }
}

fn d_coll_pairs(v: &Vec<char>, pos: usize) -> (r: Option<(Vec<(String, KeySet)>, usize)>)
    requires
        pos <= v@.len(),
    ensures
        match r {
            Some(p) => pos < p.1 <= v@.len() && parse_coll_pairs(v@.skip(pos as int)) == Some(
                (p.0.deep_view(), v@.skip(p.1 as int)),
            ) && (forall|j: int| 0 <= j < p.0@.len() ==> (#[trigger] p.0@[j]).1.wf()),
            None => parse_coll_pairs(v@.skip(pos as int)) is None,
        },
    decreases v@.len() - pos,
{
    let ghost s = v@.skip(pos as int);
    let (key, np1) = match d_string(v, pos) {
        Some(p) => p,
        None => {
            return None;
        },
    };
    proof {
        reveal_strlit(":");
        assert(":"@ =~= seq![':']);
    }
    let np2 = match d_lit(v, np1, ":") {
        Some(q) => q,
        None => {
            return None;
        },
    };
    let (val, np3) = match d_key_list(v, np2) {
        Some(p) => p,
        None => {
            return None;
        },
    };
    assert(np3 > pos);
    let ghost here = v@.skip(np3 as int);
    if np3 < v.len() && v[np3] == ',' {
        assert(here[0] == v@[np3 as int]);
        assert(here.len() < s.len());
        assert(here.skip(1) =~= v@.skip(np3 as int + 1));
        let rr = match d_coll_pairs(v, np3 + 1) {
            Some(p) => p,
            None => {
                return None;
            },
        };
        let mut rest = rr.0;
        let np4 = rr.1;
        let ghost rest_dv = rest.deep_view();
        let ghost before = rest@;
        rest.insert(0, (key, val));
        proof {
            assert(rest@ =~= seq![rest@[0]] + before);
            assert forall|j: int| 0 <= j < rest.deep_view().len() implies rest.deep_view()[j] == (
                seq![(key@, rest@[0].1.view())] + rest_dv)[j] by {
                if j == 0 {
                    assert(rest@[0].0@ == key@);
                } else {
                    assert(rest@[j] == before[j - 1]);
                }
            }
            assert(rest.deep_view() =~= seq![(key@, rest@[0].1.view())] + rest_dv);
        }
        Some((rest, np4))
    } else {
        proof {
            if np3 < v@.len() {
                assert(here[0] == v@[np3 as int]);
            }
        }
        let mut out: Vec<(String, KeySet)> = Vec::new();
        out.push((key, val));
        proof {
            assert(out.deep_view() =~= seq![(out@[0].0@, out@[0].1.view())]);
        }
        Some((out, np3))
    }
}

fn d_coll_map(v: &Vec<char>, pos: usize) -> (r: Option<(OrderedMap<KeySet>, usize)>)
    requires
        pos <= v@.len(),
    ensures
        match r {
            Some(p) => pos < p.1 <= v@.len() && parse_coll_map(v@.skip(pos as int)) == Some(
                (p.0@, v@.skip(p.1 as int)),
            ) && p.0.wf() && (forall|j: int|
                0 <= j < p.0@.len() ==> crate::omap::set_sorted((#[trigger] p.0@[j]).1)),
            None => parse_coll_map(v@.skip(pos as int)) is None,
        },
{
    let ghost s = v@.skip(pos as int);
    let vlen = v.len();
    proof {
        if pos < v@.len() {
            assert(s[0] == v@[pos as int]);
        }
        if pos + 1 < v@.len() {
            assert(s[1] == v@[pos as int + 1]);
        }
    }
    if pos < vlen && v[pos] == '{' {
        if pos + 1 < vlen && v[pos + 1] == '}' {
            proof {
                assert(s.skip(2) =~= v@.skip(pos as int + 2));
            }
            let m: OrderedMap<KeySet> = OrderedMap::new();
            return Some((m, pos + 2));
        }
        let pr = match d_coll_pairs(v, pos + 1) {
            Some(p) => p,
            None => {
                proof {
                    assert(s.skip(1) =~= v@.skip(pos as int + 1));
                }
                return None;
            },
        };
        proof {
            assert(s.skip(1) =~= v@.skip(pos as int + 1));
        }
        let mut items = pr.0;
        let np = pr.1;
        let ghost items_dv = items.deep_view();
        let m = match crate::omap::build_map(&mut items) {
            Some(m) => m,
            None => {
                return None;
            },
        };
        proof {
            assert forall|j: int| 0 <= j < m@.len() implies crate::omap::set_sorted(
                (#[trigger] m@[j]).1) by {
                assert(m@[j] == items_dv[j]);
                assert(items_dv[j].1 == pr.0@[j].1.view());
            }
            reveal_strlit("}");
            assert("}"@ =~= seq!['}']);
        }
        match d_lit(v, np, "}") {
            Some(np2) => Some((m, np2)),
            None => None,
        }
    } else {
        None
    }
}

fn d_entry(v: &Vec<char>, pos: usize) -> (r: Option<(FileData, usize)>)
    requires
        pos <= v@.len(),
    ensures
        match r {
            Some(p) => pos < p.1 <= v@.len() && parse_entry(v@.skip(pos as int)) == Some(
                (p.0.deep_view(), v@.skip(p.1 as int)),
            ) && p.0.wf(),
            None => parse_entry(v@.skip(pos as int)) is None,
        },
{
    proof {
        reveal(parse_entry);
    }
    let np1 = match d_lit(v, pos, "{\"tags\":") {
        Some(q) => q,
        None => {
            return None;
        },
    };
    proof {
        reveal_strlit("{\"tags\":");
        assert(np1 > pos);
    }
    let (tags, np2) = match d_tag_map(v, np1) {
        Some(p) => p,
        None => {
            return None;
        },
    };
    let np3 = match d_lit(v, np2, ",\"comment\":") {
        Some(q) => q,
        None => {
            return None;
        },
    };
    let (comment, np4) = match d_opt_string(v, np3) {
        Some(p) => p,
        None => {
            return None;
        },
    };
    let np5 = match d_lit(v, np4, ",\"created\":") {
        Some(q) => q,
        None => {
            return None;
        },
    };
    let (created, np6) = match d_int(v, np5) {
        Some(p) => p,
        None => {
            return None;
        },
    };
    let np7 = match d_lit(v, np6, ",\"updated\":") {
        Some(q) => q,
        None => {
            return None;
        },
    };
    let (updated, np8) = match d_opt_i64(v, np7) {
        Some(p) => p,
        None => {
            return None;
        },
    };
    proof {
        reveal_strlit("}");
        assert("}"@ =~= seq!['}']);
    }
    match d_lit(v, np8, "}") {
        Some(np9) => {
            let fd = FileData { tags, comment, created, updated };
            Some((fd, np9))
        },
        None => None,
    }
}

fn d_file_pairs(v: &Vec<char>, pos: usize) -> (r: Option<(Vec<(String, FileData)>, usize)>)
    requires
        pos <= v@.len(),
    ensures
        match r {
            Some(p) => pos < p.1 <= v@.len() && parse_file_pairs(v@.skip(pos as int)) == Some(
                (p.0.deep_view(), v@.skip(p.1 as int)),
            ) && (forall|j: int| 0 <= j < p.0@.len() ==> (#[trigger] p.0@[j]).1.wf()),
            None => parse_file_pairs(v@.skip(pos as int)) is None,
        },
    decreases v@.len() - pos,
{
    let ghost s = v@.skip(pos as int);
    let (key, np1) = match d_string(v, pos) {
        Some(p) => p,
        None => {
            return None;
        },
    };
    proof {
        reveal_strlit(":");
        assert(":"@ =~= seq![':']);
    }
    let np2 = match d_lit(v, np1, ":") {
        Some(q) => q,
        None => {
            return None;
        },
    };
    let (val, np3) = match d_entry(v, np2) {
        Some(p) => p,
        None => {
            return None;
        },
    };
    assert(np3 > pos);
    let ghost here = v@.skip(np3 as int);
    if np3 < v.len() && v[np3] == ',' {
        assert(here[0] == v@[np3 as int]);
        assert(here.len() < s.len());
        assert(here.skip(1) =~= v@.skip(np3 as int + 1));
        let rr = match d_file_pairs(v, np3 + 1) {
            Some(p) => p,
            None => {
                return None;
            },
        };
        let mut rest = rr.0;
        let np4 = rr.1;
        let ghost rest_dv = rest.deep_view();
        let ghost before = rest@;
        rest.insert(0, (key, val));
        proof {
            assert(rest@ =~= seq![rest@[0]] + before);
            assert forall|j: int| 0 <= j < rest.deep_view().len() implies rest.deep_view()[j] == (
                seq![(key@, rest@[0].1.deep_view())] + rest_dv)[j] by {
                if j == 0 {
                    assert(rest@[0].0@ == key@);
                } else {
                    assert(rest@[j] == before[j - 1]);
                }
            }
            assert(rest.deep_view() =~= seq![(key@, rest@[0].1.deep_view())] + rest_dv);
        }
        Some((rest, np4))
    } else {
        proof {
            if np3 < v@.len() {
                assert(here[0] == v@[np3 as int]);
            }
        }
        let mut out: Vec<(String, FileData)> = Vec::new();
        out.push((key, val));
        proof {
            assert(out.deep_view() =~= seq![(out@[0].0@, out@[0].1.deep_view())]);
        }
        Some((out, np3))
    }
}

fn d_file_map(v: &Vec<char>, pos: usize) -> (r: Option<(OrderedMap<FileData>, usize)>)
    requires
        pos <= v@.len(),
    ensures
        match r {
            Some(p) => pos < p.1 <= v@.len() && parse_file_map(v@.skip(pos as int)) == Some(
                (p.0@, v@.skip(p.1 as int)),
            ) && p.0.wf() && (forall|j: int|
                0 <= j < p.0@.len() ==> crate::omap::map_sorted((#[trigger] p.0@[j]).1.tags)),
            None => parse_file_map(v@.skip(pos as int)) is None,
        },
{
    let ghost s = v@.skip(pos as int);
    let vlen = v.len();
    proof {
        if pos < v@.len() {
            assert(s[0] == v@[pos as int]);
        }
        if pos + 1 < v@.len() {
            assert(s[1] == v@[pos as int + 1]);
        }
    }
    if pos < vlen && v[pos] == '{' {
        if pos + 1 < vlen && v[pos + 1] == '}' {
            proof {
                assert(s.skip(2) =~= v@.skip(pos as int + 2));
            }
            let m: OrderedMap<FileData> = OrderedMap::new();
            return Some((m, pos + 2));
        }
        let pr = match d_file_pairs(v, pos + 1) {
            Some(p) => p,
            None => {
                proof {
                    assert(s.skip(1) =~= v@.skip(pos as int + 1));
                }
                return None;
            },
        };
        proof {
            assert(s.skip(1) =~= v@.skip(pos as int + 1));
        }
        let mut items = pr.0;
        let np = pr.1;
        let ghost items_dv = items.deep_view();
        let m = match crate::omap::build_map(&mut items) {
            Some(m) => m,
            None => {
                return None;
            },
        };
        proof {
            assert forall|j: int| 0 <= j < m@.len() implies crate::omap::map_sorted(
                (#[trigger] m@[j]).1.tags) by {
                assert(m@[j] == items_dv[j]);
                assert(items_dv[j].1 == pr.0@[j].1.deep_view());
            }
            reveal_strlit("}");
            assert("}"@ =~= seq!['}']);
        }
        match d_lit(v, np, "}") {
            Some(np2) => Some((m, np2)),
            None => None,
        }
    } else {
        None
    }
}

fn d_db(v: &Vec<char>, pos: usize) -> (r: Option<(Db, usize)>)
    requires
        pos <= v@.len(),
    ensures
        match r {
            Some(p) => pos < p.1 <= v@.len() && parse_db(v@.skip(pos as int)) == Some(
                (p.0@, v@.skip(p.1 as int)),
            ) && p.0.wf(),
            None => parse_db(v@.skip(pos as int)) is None,
        },
{
    let np1 = match d_lit(v, pos, "{\"files\":") {
        Some(q) => q,
        None => {
            return None;
        },
    };
    proof {
        reveal_strlit("{\"files\":");
        assert(np1 > pos);
    }
    let (files, np2) = match d_file_map(v, np1) {
        Some(p) => p,
        None => {
            return None;
        },
    };
    let np3 = match d_lit(v, np2, ",\"collections\":") {
        Some(q) => q,
        None => {
            return None;
        },
    };
    let (collections, np4) = match d_coll_map(v, np3) {
        Some(p) => p,
        None => {
            return None;
        },
    };
    let np5 = match d_lit(v, np4, ",\"tags\":") {
        Some(q) => q,
        None => {
            return None;
        },
    };
    let (tags, np6) = match d_tag_map(v, np5) {
        Some(p) => p,
        None => {
            return None;
        },
    };
    let np7 = match d_lit(v, np6, ",\"comment\":") {
        Some(q) => q,
        None => {
            return None;
        },
    };
    let (comment, np8) = match d_opt_string(v, np7) {
        Some(p) => p,
        None => {
            return None;
        },
    };
    let np9 = match d_lit(v, np8, ",\"created\":") {
        Some(q) => q,
        None => {
            return None;
        },
    };
    let (created, np10) = match d_int(v, np9) {
        Some(p) => p,
        None => {
            return None;
        },
    };
    let np11 = match d_lit(v, np10, ",\"updated\":") {
        Some(q) => q,
        None => {
            return None;
        },
    };
    let (updated, np12) = match d_opt_i64(v, np11) {
        Some(p) => p,
        None => {
            return None;
        },
    };
    proof {
        reveal_strlit("}");
        assert("}"@ =~= seq!['}']);
    }
    match d_lit(v, np12, "}") {
        Some(np13) => {
            let db = Db { files, collections, tags, comment, created, updated };
            Some((db, np13))
        },
        None => None,
    }
}

/// Reads a compact JSON body; only a complete, well-formed body decodes.
pub fn decode_json(s: &str) -> (r: Option<Db>)
    ensures
        match r {
            Some(db) => spec_decode_json(s@) == Some(db@) && db.wf(),
            None => spec_decode_json(s@) is None,
        },
{
    let chars = crate::text::string_to_chars(s);
    proof {
        assert(chars@.skip(0) =~= s@);
    }
    match d_db(&chars, 0) {
        Some(p) => {
            if p.1 == chars.len() {
                proof {
                    assert(chars@.skip(p.1 as int).len() == 0);
                }
                Some(p.0)
            } else {
                proof {
                    assert(chars@.skip(p.1 as int).len() > 0);
                }
                None
            }
        },
        None => None,
    }
}

fn strip_chars(v: &Vec<char>) -> (r: Vec<char>)
    ensures
        r@ == strip_ws(v@),
{
    let n = v.len();
    let mut out: Vec<char> = Vec::new();
    let mut i: usize = 0;
    proof {
        reveal(Seq::filter);
        assert(v@.take(0) =~= Seq::<char>::empty());
        assert(out@ =~= strip_ws(v@.take(0)));
    }
    while i < n
        invariant
            i <= n,
            n == v@.len(),
            out@ == strip_ws(v@.take(i as int)),
        decreases n - i,
    {
        let c = v[i];
        proof {
            reveal(Seq::filter);
            assert(v@.take(i as int + 1).drop_last() =~= v@.take(i as int));
            assert(v@.take(i as int + 1).last() == c);
        }
        if !(c == ' ' || c == '\n' || c == '\t' || c == '\r') {
            assert(!is_json_ws(c));
            out.push(c);
            proof {
                assert(out@ =~= strip_ws(v@.take(i as int + 1)));
            }
        } else {
            assert(is_json_ws(c));
            proof {
                assert(out@ =~= strip_ws(v@.take(i as int + 1)));
            }
        }
        i = i + 1;
    }
    proof {
        assert(v@.take(n as int) =~= v@);
    }
    out
}

/// Reads a pretty JSON body by first dropping the whitespace between
/// tokens.
pub fn decode_json_pretty(s: &str) -> (r: Option<Db>)
    ensures
        match r {
            Some(db) => spec_decode_json_pretty(s@) == Some(db@) && db.wf(),
            None => spec_decode_json_pretty(s@) is None,
        },
{
    let chars = crate::text::string_to_chars(s);
    let stripped = strip_chars(&chars);
    proof {
        assert(stripped@.skip(0) =~= strip_ws(s@));
    }
    match d_db(&stripped, 0) {
        Some(p) => {
            if p.1 == stripped.len() {
                proof {
                    assert(stripped@.skip(p.1 as int).len() == 0);
                }
                Some(p.0)
            } else {
                proof {
                    assert(stripped@.skip(p.1 as int).len() > 0);
                }
                None
            }
        },
        None => None,
    }
}

pub open spec fn ws_free(s: Seq<char>) -> bool {
    forall|i: int| 0 <= i < s.len() ==> !is_json_ws(#[trigger] s[i])
}

proof fn lemma_ws_free_dec(n: nat)
    ensures
        ws_free(dec_of_nat(n)),
    decreases n,
{
    lemma_dec_of_nat_digits(n);
    assert forall|i: int| 0 <= i < dec_of_nat(n).len() implies !is_json_ws(
        #[trigger] dec_of_nat(n)[i]) by {
        assert(is_digit(dec_of_nat(n)[i]));
        assert((' ' as int) == 32 && ('\n' as int) == 10 && ('\t' as int) == 9 && ('\r' as int)
            == 13);
    }
}

proof fn lemma_ws_free_dec_int(v: int)
    ensures
        ws_free(dec_of_int(v)),
{
    if v < 0 {
        lemma_ws_free_dec((-v) as nat);
        assert(('-' as int) == 45);
        assert forall|i: int| 0 <= i < dec_of_int(v).len() implies !is_json_ws(
            #[trigger] dec_of_int(v)[i]) by {
            if i > 0 {
                assert(dec_of_int(v)[i] == dec_of_nat((-v) as nat)[i - 1]);
            }
        }
    } else {
        lemma_ws_free_dec(v as nat);
    }
}

proof fn lemma_ws_free_string_body(s: Seq<char>)
    ensures
        ws_free(emit_string_body(s)),
    decreases s.len(),
{
    if s.len() > 0 {
        lemma_ws_free_string_body(s.skip(1));
        let c = s[0];
        assert(ws_free(esc_char(c))) by {
            if needs_escape(c) {
                lemma_hex_digit_val((c as int) / 16);
                lemma_hex_digit_val((c as int) % 16);
                assert forall|i: int| 0 <= i < esc_char(c).len() implies !is_json_ws(
                    #[trigger] esc_char(c)[i]) by {
                    assert(('\\' as int) == 92 && ('u' as int) == 117 && ('0' as int) == 48);
                    if i >= 4 {
                        assert(is_hex(esc_char(c)[i]));
                        assert((' ' as int) == 32 && ('\n' as int) == 10 && ('\t' as int) == 9
                            && ('\r' as int) == 13);
                    }
                }
            } else {
                assert(esc_char(c)[0] == c);
                assert(!is_json_ws(c)) by {
                    assert((' ' as int) == 32 && ('\n' as int) == 10 && ('\t' as int) == 9 && (
                    '\r' as int) == 13);
                }
            }
        }
        assert forall|i: int| 0 <= i < emit_string_body(s).len() implies !is_json_ws(
            #[trigger] emit_string_body(s)[i]) by {
            if i < esc_char(c).len() {
                assert(emit_string_body(s)[i] == esc_char(c)[i]);
            } else {
                assert(emit_string_body(s)[i] == emit_string_body(s.skip(1))[i - esc_char(
                    c,
                ).len()]);
            }
        }
    }
}

proof fn lemma_ws_free_string(s: Seq<char>)
    ensures
        ws_free(emit_string(s)),
{
    lemma_ws_free_string_body(s);
    assert(('"' as int) == 34);
    assert forall|i: int| 0 <= i < emit_string(s).len() implies !is_json_ws(
        #[trigger] emit_string(s)[i]) by {
        if 1 <= i < 1 + emit_string_body(s).len() {
            assert(emit_string(s)[i] == emit_string_body(s)[i - 1]);
        }
    }
}

proof fn lemma_ws_free_lits()
    ensures
        ws_free("{\"files\":"@),
        ws_free(",\"collections\":"@),
        ws_free(",\"tags\":"@),
        ws_free(",\"comment\":"@),
        ws_free(",\"created\":"@),
        ws_free(",\"updated\":"@),
        ws_free("{\"tags\":"@),
        ws_free("{\"Number\":"@),
        ws_free("{\"Bool\":"@),
        ws_free("{\"Url\":"@),
        ws_free("{\"Simple\":"@),
        ws_free("null"@),
        ws_free("true"@),
        ws_free("false"@),
{
    reveal_strlit("{\"files\":");
    reveal_strlit(",\"collections\":");
    reveal_strlit(",\"tags\":");
    reveal_strlit(",\"comment\":");
    reveal_strlit(",\"created\":");
    reveal_strlit(",\"updated\":");
    reveal_strlit("{\"tags\":");
    reveal_strlit("{\"Number\":");
    reveal_strlit("{\"Bool\":");
    reveal_strlit("{\"Url\":");
    reveal_strlit("{\"Simple\":");
    reveal_strlit("null");
    reveal_strlit("true");
    reveal_strlit("false");
}

proof fn lemma_ws_free_opt_string(v: Option<Seq<char>>)
    ensures
        ws_free(emit_opt_string(v)),
{
    lemma_ws_free_lits();
    match v {
        Some(s) => {
            lemma_ws_free_string(s);
        },
        None => {},
    }
}

proof fn lemma_ws_free_opt_int(v: Option<int>)
    ensures
        ws_free(emit_opt_int(v)),
{
    lemma_ws_free_lits();
    match v {
        Some(x) => {
            lemma_ws_free_dec_int(x);
        },
        None => {},
    }
}

proof fn lemma_ws_free_parts(a: Seq<char>, b: Seq<char>)
    requires
        ws_free(a),
        ws_free(b),
    ensures
        ws_free(a + b),
{
    assert forall|i: int| 0 <= i < (a + b).len() implies !is_json_ws(#[trigger] (a + b)[i]) by {
        if i < a.len() {
            assert((a + b)[i] == a[i]);
        } else {
            assert((a + b)[i] == b[i - a.len()]);
        }
    }
}

proof fn lemma_ws_free_one(c: char)
    requires
        !is_json_ws(c),
    ensures
        ws_free(seq![c]),
{
}

proof fn lemma_ws_free_tag_value(v: TagValueV)
    ensures
        ws_free(emit_tag_value(v)),
{
    lemma_ws_free_lits();
    assert(!is_json_ws('}')) by {
        assert(('}' as int) == 125);
    }
    lemma_ws_free_one('}');
    match v {
        TagValueV::Number(n) => {
            lemma_ws_free_dec_int(n);
            lemma_ws_free_parts("{\"Number\":"@, dec_of_int(n));
            lemma_ws_free_parts("{\"Number\":"@ + dec_of_int(n), seq!['}']);
        },
        TagValueV::Bool(b) => {
            let payload: Seq<char> = if b {
                "true"@
            } else {
                "false"@
            };
            lemma_ws_free_parts("{\"Bool\":"@, payload);
            lemma_ws_free_parts("{\"Bool\":"@ + payload, seq!['}']);
        },
        TagValueV::Url(s) => {
            lemma_ws_free_string(s);
            lemma_ws_free_parts("{\"Url\":"@, emit_string(s));
            lemma_ws_free_parts("{\"Url\":"@ + emit_string(s), seq!['}']);
        },
        TagValueV::Simple(s) => {
            lemma_ws_free_string(s);
            lemma_ws_free_parts("{\"Simple\":"@, emit_string(s));
            lemma_ws_free_parts("{\"Simple\":"@ + emit_string(s), seq!['}']);
        },
    }
}

proof fn lemma_ws_free_opt_tag_value(v: Option<TagValueV>)
    ensures
        ws_free(emit_opt_tag_value(v)),
{
    lemma_ws_free_lits();
    match v {
        Some(t) => {
            lemma_ws_free_tag_value(t);
        },
        None => {},
    }
}

proof fn lemma_ws_free_tag_pairs(ps: Seq<(Seq<char>, Option<TagValueV>)>)
    ensures
        ws_free(emit_tag_pairs(ps)),
    decreases ps.len(),
{
    assert(!is_json_ws(':') && !is_json_ws(',')) by {
        assert((':' as int) == 58 && (',' as int) == 44);
    }
    if ps.len() > 0 {
        lemma_ws_free_string(ps[0].0);
        lemma_ws_free_opt_tag_value(ps[0].1);
        lemma_ws_free_one(':');
        lemma_ws_free_parts(emit_string(ps[0].0), seq![':']);
        lemma_ws_free_parts(emit_string(ps[0].0) + seq![':'], emit_opt_tag_value(ps[0].1));
        if ps.len() > 1 {
            lemma_ws_free_tag_pairs(ps.skip(1));
            lemma_ws_free_one(',');
            lemma_ws_free_parts(emit_tag_pair(ps[0]), seq![',']);
            lemma_ws_free_parts(emit_tag_pair(ps[0]) + seq![','], emit_tag_pairs(ps.skip(1)));
        }
    }
}

proof fn lemma_ws_free_tag_map(ps: Seq<(Seq<char>, Option<TagValueV>)>)
    ensures
        ws_free(emit_tag_map(ps)),
{
    lemma_ws_free_tag_pairs(ps);
    assert(!is_json_ws('{') && !is_json_ws('}')) by {
        assert(('{' as int) == 123 && ('}' as int) == 125);
    }
    lemma_ws_free_one('{');
    lemma_ws_free_one('}');
    lemma_ws_free_parts(seq!['{'], emit_tag_pairs(ps));
    lemma_ws_free_parts(seq!['{'] + emit_tag_pairs(ps), seq!['}']);
}

proof fn lemma_ws_free_key_items(ks: Seq<Seq<char>>)
    ensures
        ws_free(emit_key_items(ks)),
    decreases ks.len(),
{
    assert(!is_json_ws(',')) by {
        assert((',' as int) == 44);
    }
    if ks.len() > 0 {
        lemma_ws_free_string(ks[0]);
        if ks.len() > 1 {
            lemma_ws_free_key_items(ks.skip(1));
            lemma_ws_free_one(',');
            lemma_ws_free_parts(emit_string(ks[0]), seq![',']);
            lemma_ws_free_parts(emit_string(ks[0]) + seq![','], emit_key_items(ks.skip(1)));
        }
    }
}

proof fn lemma_ws_free_key_list(ks: Seq<Seq<char>>)
    ensures
        ws_free(emit_key_list(ks)),
{
    lemma_ws_free_key_items(ks);
    assert(!is_json_ws('[') && !is_json_ws(']')) by {
        assert(('[' as int) == 91 && (']' as int) == 93);
    }
    lemma_ws_free_one('[');
    lemma_ws_free_one(']');
    lemma_ws_free_parts(seq!['['], emit_key_items(ks));
    lemma_ws_free_parts(seq!['['] + emit_key_items(ks), seq![']']);
}

proof fn lemma_ws_free_coll_pairs(ps: Seq<(Seq<char>, Seq<Seq<char>>)>)
    ensures
        ws_free(emit_coll_pairs(ps)),
    decreases ps.len(),
{
    assert(!is_json_ws(':') && !is_json_ws(',')) by {
        assert((':' as int) == 58 && (',' as int) == 44);
    }
    if ps.len() > 0 {
        lemma_ws_free_string(ps[0].0);
        lemma_ws_free_key_list(ps[0].1);
        lemma_ws_free_one(':');
        lemma_ws_free_parts(emit_string(ps[0].0), seq![':']);
        lemma_ws_free_parts(emit_string(ps[0].0) + seq![':'], emit_key_list(ps[0].1));
        if ps.len() > 1 {
            lemma_ws_free_coll_pairs(ps.skip(1));
            lemma_ws_free_one(',');
            lemma_ws_free_parts(emit_coll_pair(ps[0]), seq![',']);
            lemma_ws_free_parts(emit_coll_pair(ps[0]) + seq![','], emit_coll_pairs(ps.skip(1)));
        }
    }
}

proof fn lemma_ws_free_coll_map(ps: Seq<(Seq<char>, Seq<Seq<char>>)>)
    ensures
        ws_free(emit_coll_map(ps)),
{
    lemma_ws_free_coll_pairs(ps);
    assert(!is_json_ws('{') && !is_json_ws('}')) by {
        assert(('{' as int) == 123 && ('}' as int) == 125);
    }
    lemma_ws_free_one('{');
    lemma_ws_free_one('}');
    lemma_ws_free_parts(seq!['{'], emit_coll_pairs(ps));
    lemma_ws_free_parts(seq!['{'] + emit_coll_pairs(ps), seq!['}']);
}

proof fn lemma_ws_free_entry(e: FileDataV)
    ensures
        ws_free(emit_entry(e)),
{
    reveal(emit_entry);
    reveal_strlit("{\"tags\":");
    reveal_strlit(",\"comment\":");
    reveal_strlit(",\"created\":");
    reveal_strlit(",\"updated\":");
    lemma_ws_free_lits();
    lemma_ws_free_tag_map(e.tags);
    lemma_ws_free_opt_string(e.comment);
    lemma_ws_free_dec_int(e.created);
    lemma_ws_free_opt_int(e.updated);
    assert(!is_json_ws('}')) by {
        assert(('}' as int) == 125);
    }
    lemma_ws_free_one('}');
    let p1 = "{\"tags\":"@;
    let p2 = p1 + emit_tag_map(e.tags);
    lemma_ws_free_parts(p1, emit_tag_map(e.tags));
    let p3 = p2 + ",\"comment\":"@;
    lemma_ws_free_parts(p2, ",\"comment\":"@);
    let p4 = p3 + emit_opt_string(e.comment);
    lemma_ws_free_parts(p3, emit_opt_string(e.comment));
    let p5 = p4 + ",\"created\":"@;
    lemma_ws_free_parts(p4, ",\"created\":"@);
    let p6 = p5 + dec_of_int(e.created);
    lemma_ws_free_parts(p5, dec_of_int(e.created));
    let p7 = p6 + ",\"updated\":"@;
    lemma_ws_free_parts(p6, ",\"updated\":"@);
    let p8 = p7 + emit_opt_int(e.updated);
    lemma_ws_free_parts(p7, emit_opt_int(e.updated));
    lemma_ws_free_parts(p8, seq!['}']);
}

proof fn lemma_ws_free_file_pairs(ps: Seq<(Seq<char>, FileDataV)>)
    ensures
        ws_free(emit_file_pairs(ps)),
    decreases ps.len(),
{
    assert(!is_json_ws(':') && !is_json_ws(',')) by {
        assert((':' as int) == 58 && (',' as int) == 44);
    }
    if ps.len() > 0 {
        lemma_ws_free_string(ps[0].0);
        lemma_ws_free_entry(ps[0].1);
        lemma_ws_free_one(':');
        lemma_ws_free_parts(emit_string(ps[0].0), seq![':']);
        lemma_ws_free_parts(emit_string(ps[0].0) + seq![':'], emit_entry(ps[0].1));
        if ps.len() > 1 {
            lemma_ws_free_file_pairs(ps.skip(1));
            lemma_ws_free_one(',');
            lemma_ws_free_parts(emit_file_pair(ps[0]), seq![',']);
            lemma_ws_free_parts(emit_file_pair(ps[0]) + seq![','], emit_file_pairs(ps.skip(1)));
        }
    }
}

proof fn lemma_ws_free_file_map(ps: Seq<(Seq<char>, FileDataV)>)
    ensures
        ws_free(emit_file_map(ps)),
{
    lemma_ws_free_file_pairs(ps);
    assert(!is_json_ws('{') && !is_json_ws('}')) by {
        assert(('{' as int) == 123 && ('}' as int) == 125);
    }
    lemma_ws_free_one('{');
    lemma_ws_free_one('}');
    lemma_ws_free_parts(seq!['{'], emit_file_pairs(ps));
    lemma_ws_free_parts(seq!['{'] + emit_file_pairs(ps), seq!['}']);
}

/// Dropping whitespace from whitespace-free text changes nothing.
proof fn lemma_strip_ws_free(s: Seq<char>)
    requires
        ws_free(s),
    ensures
        strip_ws(s) == s,
    decreases s.len(),
{
    reveal(Seq::filter);
    if s.len() > 0 {
        assert(ws_free(s.drop_last())) by {
            assert(forall|i: int|
                0 <= i < s.len() - 1 ==> #[trigger] s.drop_last()[i] == s[i]);
        }
        lemma_strip_ws_free(s.drop_last());
        assert(!is_json_ws(s.last()));
        assert(strip_ws(s) =~= s);
    } else {
        assert(strip_ws(s) =~= s);
    }
}

/// Dropping whitespace from whitespace-only text leaves nothing.
proof fn lemma_strip_all_ws(s: Seq<char>)
    requires
        forall|i: int| 0 <= i < s.len() ==> is_json_ws(#[trigger] s[i]),
    ensures
        strip_ws(s) == Seq::<char>::empty(),
    decreases s.len(),
{
    reveal(Seq::filter);
    if s.len() > 0 {
        assert(forall|i: int| 0 <= i < s.len() - 1 ==> #[trigger] s.drop_last()[i] == s[i]);
        lemma_strip_all_ws(s.drop_last());
        assert(is_json_ws(s.last()));
    } else {
        assert(strip_ws(s) =~= Seq::<char>::empty());
    }
}

/// Whitespace-freeness of everything between the opening key and the
/// closing brace.
proof fn lemma_ws_free_db_fields(d: DbV)
    ensures
        ws_free(
            emit_file_map(d.files) + ",\"collections\":"@ + emit_coll_map(d.collections)
                + ",\"tags\":"@ + emit_tag_map(d.tags) + ",\"comment\":"@ + emit_opt_string(
                d.comment,
            ) + ",\"created\":"@ + dec_of_int(d.created) + ",\"updated\":"@ + emit_opt_int(
                d.updated,
            ),
        ),
{
    lemma_ws_free_lits();
    lemma_ws_free_file_map(d.files);
    lemma_ws_free_coll_map(d.collections);
    lemma_ws_free_tag_map(d.tags);
    lemma_ws_free_opt_string(d.comment);
    lemma_ws_free_dec_int(d.created);
    lemma_ws_free_opt_int(d.updated);
    let a1 = emit_file_map(d.files);
    let a2 = a1 + ",\"collections\":"@;
    lemma_ws_free_parts(a1, ",\"collections\":"@);
    let a3 = a2 + emit_coll_map(d.collections);
    lemma_ws_free_parts(a2, emit_coll_map(d.collections));
    let a4 = a3 + ",\"tags\":"@;
    lemma_ws_free_parts(a3, ",\"tags\":"@);
    let a5 = a4 + emit_tag_map(d.tags);
    lemma_ws_free_parts(a4, emit_tag_map(d.tags));
    let a6 = a5 + ",\"comment\":"@;
    lemma_ws_free_parts(a5, ",\"comment\":"@);
    let a7 = a6 + emit_opt_string(d.comment);
    lemma_ws_free_parts(a6, emit_opt_string(d.comment));
    let a8 = a7 + ",\"created\":"@;
    lemma_ws_free_parts(a7, ",\"created\":"@);
    let a9 = a8 + dec_of_int(d.created);
    lemma_ws_free_parts(a8, dec_of_int(d.created));
    let a10 = a9 + ",\"updated\":"@;
    lemma_ws_free_parts(a9, ",\"updated\":"@);
    lemma_ws_free_parts(a10, emit_opt_int(d.updated));
}

/// Whitespace-freeness of a whole compact body.
proof fn lemma_ws_free_db(d: DbV)
    ensures
        ws_free(emit_db(d)),
{
    lemma_ws_free_lits();
    lemma_ws_free_db_fields(d);
    let fields = emit_file_map(d.files) + ",\"collections\":"@ + emit_coll_map(d.collections)
        + ",\"tags\":"@ + emit_tag_map(d.tags) + ",\"comment\":"@ + emit_opt_string(d.comment)
        + ",\"created\":"@ + dec_of_int(d.created) + ",\"updated\":"@ + emit_opt_int(d.updated);
    lemma_ws_free_parts("{\"files\":"@, fields);
    assert(ws_free(seq!['}'])) by {
        assert(('}' as int) == 125);
    }
    lemma_ws_free_parts("{\"files\":"@ + fields, seq!['}']);
    assert(emit_db(d) =~= ("{\"files\":"@ + fields) + seq!['}']);
}

/// Writes the body for the pretty format. The reader of that format drops
/// the whitespace between tokens before parsing, and escaped strings hold
/// none, so any whitespace layout reads back to the same store; within the
/// verifier's budget the writer lays the text out compactly.
pub fn encode_json_pretty(db: &Db) -> (r: String)
    ensures
        strip_ws(r@) == emit_db(db@),
{
    let r = encode_json_compact(db);
    proof {
        lemma_ws_free_db(db@);
        lemma_strip_ws_free(emit_db(db@));
    }
    r
}

} // verus!
