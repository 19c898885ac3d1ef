//! Character-sequence utilities shared by the store: the lexicographic key
//! order, decimal rendering and parsing of integers, and conversions between
//! `String` and `Vec<char>`.
use vstd::prelude::*;
use vstd::string::StrSliceExecFns;

verus! {

/// Strict lexicographic order on character sequences, comparing Unicode
/// scalar values; a proper prefix sorts before its extensions. Because UTF-8
/// preserves scalar-value order, this is also the byte order of the encoded
/// strings.
pub open spec fn lex_lt(a: Seq<char>, b: Seq<char>) -> bool
    decreases a.len(),
{
    if b.len() == 0 {
        false
    } else if a.len() == 0 {
        true
    } else if (a[0] as int) < (b[0] as int) {
        true
    } else if (a[0] as int) == (b[0] as int) {
        lex_lt(a.skip(1), b.skip(1))
    } else {
        false
    }
}

/// The order is strict: at most one of `a < b`, `a == b`, `b < a`, and at
/// least one of them.
pub proof fn lemma_lex_lt_strict(a: Seq<char>, b: Seq<char>)
    ensures
        lex_lt(a, b) ==> !lex_lt(b, a) && a != b,
        !lex_lt(a, b) && !lex_lt(b, a) ==> a == b,
    decreases a.len(),
{
    if a.len() == 0 || b.len() == 0 {
        if !lex_lt(a, b) && !lex_lt(b, a) {
            assert(a =~= b);
        }
    } else {
        lemma_lex_lt_strict(a.skip(1), b.skip(1));
        if (a[0] as int) == (b[0] as int) {
            assert(a[0] == b[0]);
            if !lex_lt(a, b) && !lex_lt(b, a) {
                assert(a.skip(1) == b.skip(1));
                assert forall|i: int| 0 <= i < a.len() implies a[i] == b[i] by {
                    if i > 0 {
                        assert(a[i] == a.skip(1)[i - 1]);
                        assert(b[i] == b.skip(1)[i - 1]);
                    }
                }
                assert(a =~= b);
            }
        }
    }
}

pub proof fn lemma_lex_lt_trans(a: Seq<char>, b: Seq<char>, c: Seq<char>)
    requires
        lex_lt(a, b),
        lex_lt(b, c),
    ensures
        lex_lt(a, c),
    decreases a.len(),
{
    if a.len() == 0 {
    } else {
        if (a[0] as int) == (b[0] as int) && (b[0] as int) == (c[0] as int) {
            lemma_lex_lt_trans(a.skip(1), b.skip(1), c.skip(1));
        }
    }
}

/// Comparing sequences that agree on their first `i` characters reduces to
/// comparing the remainders.
pub proof fn lemma_lex_lt_common_prefix(a: Seq<char>, b: Seq<char>, i: int)
    requires
        0 <= i <= a.len(),
        i <= b.len(),
        forall|j: int| 0 <= j < i ==> a[j] == b[j],
    ensures
        lex_lt(a, b) == lex_lt(a.skip(i), b.skip(i)),
    decreases i,
{
    if i > 0 {
        assert(a[0] == b[0]);
        lemma_lex_lt_common_prefix(a.skip(1), b.skip(1), i - 1);
        assert(a.skip(1).skip(i - 1) =~= a.skip(i));
        assert(b.skip(1).skip(i - 1) =~= b.skip(i));
    } else {
        assert(a.skip(0) =~= a);
        assert(b.skip(0) =~= b);
    }
}

/// Decides `lex_lt(a@, b@)` by walking the two strings in parallel.
pub fn str_lt(a: &str, b: &str) -> (r: bool)
    ensures
        r == lex_lt(a@, b@),
{
    let a_len = a.unicode_len();
    let b_len = b.unicode_len();
    let mut i: usize = 0;
    loop
        invariant
            i <= a_len,
            i <= b_len,
            a_len == a@.len(),
            b_len == b@.len(),
            forall|j: int| 0 <= j < i ==> a@[j] == b@[j],
        decreases a_len - i,
    {
        proof {
            lemma_lex_lt_common_prefix(a@, b@, i as int);
        }
        if i == a_len {
            assert(a@.skip(i as int).len() == 0);
            return i < b_len;
        }
        if i == b_len {
            assert(b@.skip(i as int).len() == 0);
            return false;
        }
        let ca = a.get_char(i);
        let cb = b.get_char(i);
        assert(a@.skip(i as int)[0] == a@[i as int]);
        assert(b@.skip(i as int)[0] == b@[i as int]);
        assert((ca as u32) == (ca as int) && (cb as u32) == (cb as int));
        if (ca as u32) < (cb as u32) {
            return true;
        }
        if (ca as u32) > (cb as u32) {
            return false;
        }
        i = i + 1;
    }
}

/// Decides view equality of two strings through the strict order.
pub fn str_eq(a: &str, b: &str) -> (r: bool)
    ensures
        r == (a@ == b@),
{
    proof {
        lemma_lex_lt_strict(a@, b@);
        lemma_lex_lt_strict(b@, a@);
    }
    if str_lt(a, b) {
        false
    } else {
        !str_lt(b, a)
    }
}

pub open spec fn is_digit(c: char) -> bool {
    48 <= (c as int) <= 57
}

pub open spec fn digit_val(c: char) -> int {
    (c as int) - 48
}

pub open spec fn digit_char(d: int) -> char {
    (d + 48) as char
}

/// The decimal digits of `n`, most significant first, no leading zeros.
pub open spec fn dec_of_nat(n: nat) -> Seq<char>
    decreases n,
{
    if n < 10 {
        seq![digit_char(n as int)]
    } else {
        dec_of_nat(n / 10).push(digit_char((n % 10) as int))
    }
}

/// The decimal rendering of a possibly negative integer.
pub open spec fn dec_of_int(v: int) -> Seq<char> {
    if v < 0 {
        seq!['-'] + dec_of_nat((-v) as nat)
    } else {
        dec_of_nat(v as nat)
    }
}

/// The value of a digit string, read most significant first.
pub open spec fn dec_val(s: Seq<char>) -> int
    decreases s.len(),
{
    if s.len() == 0 {
        0
    } else {
        dec_val(s.drop_last()) * 10 + digit_val(s.last())
    }
}

pub open spec fn all_digits(s: Seq<char>) -> bool {
    forall|i: int| 0 <= i < s.len() ==> is_digit(#[trigger] s[i])
}

pub proof fn lemma_digit_char_val(d: int)
    requires
        0 <= d < 10,
    ensures
        is_digit(digit_char(d)),
        digit_val(digit_char(d)) == d,
{
    assert((digit_char(d) as int) == d + 48);
}

pub proof fn lemma_dec_of_nat_digits(n: nat)
    ensures
        dec_of_nat(n).len() >= 1,
        all_digits(dec_of_nat(n)),
    decreases n,
{
    if n >= 10 {
        lemma_dec_of_nat_digits(n / 10);
    }
}

/// Rendering then reading a natural number gives the number back.
pub proof fn lemma_dec_val_of_nat(n: nat)
    ensures
        dec_val(dec_of_nat(n)) == n,
    decreases n,
{
    let s = dec_of_nat(n);
    if n < 10 {
        lemma_digit_char_val(n as int);
        assert(s.len() == 1);
        assert(s.last() == digit_char(n as int));
        assert(s.drop_last().len() == 0);
        assert(dec_val(s.drop_last()) == 0);
        assert(dec_val(s) == dec_val(s.drop_last()) * 10 + digit_val(s.last()));
    } else {
        lemma_dec_val_of_nat(n / 10);
        lemma_digit_char_val((n % 10) as int);
        assert(s.drop_last() =~= dec_of_nat(n / 10));
        assert(s.last() == digit_char((n % 10) as int));
        assert(dec_val(s) == dec_val(s.drop_last()) * 10 + digit_val(s.last()));
        assert(dec_val(s) == (n / 10) * 10 + (n % 10));
        assert(n == (n / 10) * 10 + (n % 10));
    }
}

pub proof fn lemma_dec_val_bounds(s: Seq<char>)
    requires
        all_digits(s),
    ensures
        dec_val(s) >= 0,
    decreases s.len(),
{
    if s.len() > 0 {
        assert(all_digits(s.drop_last())) by {
            assert(forall|i: int|
                0 <= i < s.len() - 1 ==> #[trigger] s.drop_last()[i] == s[i]);
        }
        lemma_dec_val_bounds(s.drop_last());
    }
}

/// Extending a digit string can only grow its value.
pub proof fn lemma_dec_val_prefix(s: Seq<char>, i: int)
    requires
        all_digits(s),
        0 <= i <= s.len(),
    ensures
        dec_val(s.take(i)) <= dec_val(s),
    decreases s.len() - i,
{
    assert(all_digits(s.take(i))) by {
        assert(forall|j: int| 0 <= j < i ==> #[trigger] s.take(i)[j] == s[j]);
    }
    if i < s.len() {
        lemma_dec_val_prefix(s, i + 1);
        lemma_dec_val_bounds(s.take(i));
        assert(s.take(i + 1).drop_last() =~= s.take(i));
        assert(dec_val(s.take(i + 1)) == dec_val(s.take(i)) * 10 + digit_val(s.take(i + 1).last()));
        assert(digit_val(s.take(i + 1).last()) >= 0);
        assert(dec_val(s.take(i)) * 10 >= dec_val(s.take(i))) by (nonlinear_arith)
            requires dec_val(s.take(i)) >= 0;
    } else {
        assert(s.take(i) =~= s);
    }
}

fn digit_char_exec(d: u8) -> (r: char)
    requires
        d < 10,
    ensures
        r == digit_char(d as int),
{
    (d + 48) as char
}

/// Appends the decimal digits of `n` to `out`.
pub fn push_dec_u64(out: &mut Vec<char>, n: u64)
    ensures
        final(out)@ == old(out)@ + dec_of_nat(n as nat),
    decreases n,
{
    if n < 10 {
        out.push(digit_char_exec(n as u8));
        assert(final(out)@ =~= old(out)@ + dec_of_nat(n as nat));
    } else {
        push_dec_u64(out, n / 10);
        out.push(digit_char_exec((n % 10) as u8));
        assert(final(out)@ =~= old(out)@ + dec_of_nat(n as nat));
    }
}

/// Appends the decimal rendering of `v`, with a leading minus sign when
/// negative.
pub fn push_dec_i64(out: &mut Vec<char>, v: i64)
    ensures
        final(out)@ == old(out)@ + dec_of_int(v as int),
{
    if v < 0 {
        out.push('-');
        let mag: u64 = ((-(v + 1)) as u64) + 1;
        assert(mag == -(v as int));
        push_dec_u64(out, mag);
        assert(final(out)@ =~= old(out)@ + dec_of_int(v as int));
    } else {
        push_dec_u64(out, v as u64);
    }
}

/// The value of `s` read as a decimal integer with an optional leading sign,
/// exactly when `s` is non-empty, all digits after the sign, and the value
/// fits a 64-bit signed integer.
pub open spec fn spec_parse_i64(s: Seq<char>) -> Option<int> {
    let signed = s.len() > 0 && (s[0] == '-' || s[0] == '+');
    let mag = if signed { s.skip(1) } else { s };
    let sign: int = if signed && s[0] == '-' { -1 } else { 1 };
    if mag.len() > 0 && all_digits(mag) {
        let v = sign * dec_val(mag);
        if -9223372036854775808 <= v <= 9223372036854775807 {
            Some(v)
        } else {
            None
        }
    } else {
        None
    }
}

/// Reads `s` as a decimal 64-bit integer, as the decimal grammar above
/// defines it.
pub fn parse_i64(s: &str) -> (r: Option<i64>)
    ensures
        match r {
            Some(v) => spec_parse_i64(s@) == Some(v as int),
            None => spec_parse_i64(s@) is None,
        },
{
    let n = s.unicode_len();
    if n == 0 {
        return None;
    }
    let first = s.get_char(0);
    let neg = first == '-';
    let signed = neg || first == '+';
    let start: usize = if signed { 1 } else { 0 };
    let ghost mag = if signed { s@.skip(1) } else { s@ };
    assert(mag.len() == n - start);
    assert(forall|j: int| 0 <= j < mag.len() ==> mag[j] == s@[j + start]);
    if start == n {
        return None;
    }
    let limit_last: u64 = if neg { 8 } else { 7 };
    let ghost bound: int = 9223372036854775807 + if neg { 1int } else { 0int };
    let mut acc: u64 = 0;
    let mut i: usize = start;
    while i < n
        invariant
            start <= i <= n,
            n == s@.len(),
            start == if signed { 1int } else { 0int },
            signed ==> s@.len() > 0 && (s@[0] == '-' || s@[0] == '+'),
            !signed ==> s@.len() == 0 || (s@[0] != '-' && s@[0] != '+'),
            neg == (signed && s@[0] == '-'),
            limit_last == if neg { 8u64 } else { 7u64 },
            bound == 9223372036854775807 + if neg { 1int } else { 0int },
            mag == (if signed { s@.skip(1) } else { s@ }),
            mag.len() == n - start,
            forall|j: int| 0 <= j < mag.len() ==> mag[j] == s@[j + start],
            all_digits(mag.take(i - start)),
            acc == dec_val(mag.take(i - start)),
            acc <= bound,
        decreases n - i,
    {
        let c = s.get_char(i);
        assert(c == mag[i - start]);
        if c < '0' || c > '9' {
            assert((c as int) < 48 || (c as int) > 57);
            assert(!is_digit(mag[i - start]));
            assert(!all_digits(mag));
            return None;
        }
        let d: u64 = (c as u32 as u64) - 48;
        assert(d == digit_val(c) && d < 10);
        let ghost prev = mag.take(i - start);
        proof {
            assert(mag.take(i - start + 1).drop_last() =~= prev);
            assert(mag.take(i - start + 1).last() == c);
        }
        if acc > 922337203685477580 || (acc == 922337203685477580 && d > limit_last) {
            // the digits read so far already exceed the representable range
            proof {
                let v = dec_val(mag.take(i - start + 1));
                assert(v == acc * 10 + d);
                assert(v > bound);
                if all_digits(mag) {
                    lemma_dec_val_prefix(mag, i - start + 1);
                    assert(dec_val(mag) >= v);
                    let spec_signed = s@.len() > 0 && (s@[0] == '-' || s@[0] == '+');
                    let sign: int = if spec_signed && s@[0] == '-' { -1int } else { 1int };
                    let w = sign * dec_val(mag);
                    if neg {
                        assert(sign == -1);
                        assert(w == -dec_val(mag)) by (nonlinear_arith)
                            requires sign == -1, w == sign * dec_val(mag);
                        assert(w < -9223372036854775808);
                    } else {
                        assert(sign == 1);
                        assert(w == dec_val(mag)) by (nonlinear_arith)
                            requires sign == 1, w == sign * dec_val(mag);
                        assert(w > 9223372036854775807);
                    }
                }
                assert(spec_parse_i64(s@) is None);
            }
            return None;
        }
        assert(acc * 10 + d <= bound) by {
            if acc == 922337203685477580 {
                assert(d <= limit_last);
            } else {
                assert(acc <= 922337203685477579);
            }
        }
        acc = acc * 10 + d;
        i = i + 1;
        assert(acc == dec_val(mag.take(i - start)));
        assert(all_digits(mag.take(i - start)));
    }
    assert(mag.take(n - start) =~= mag);
    assert(acc == dec_val(mag));
    assert(mag.len() > 0);
    assert(all_digits(mag));
    assert(acc <= bound);
    proof {
        let spec_signed = s@.len() > 0 && (s@[0] == '-' || s@[0] == '+');
        assert(spec_signed == signed);
        let spec_mag = if spec_signed { s@.skip(1) } else { s@ };
        assert(spec_mag == mag);
        let sign: int = if spec_signed && s@[0] == '-' { -1int } else { 1int };
        let v = sign * dec_val(spec_mag);
        if neg {
            assert(sign == -1);
            assert(v == -dec_val(spec_mag)) by (nonlinear_arith)
                requires sign == -1, v == sign * dec_val(spec_mag);
        } else {
            assert(sign == 1);
            assert(v == dec_val(spec_mag)) by (nonlinear_arith)
                requires sign == 1, v == sign * dec_val(spec_mag);
        }
        assert(-9223372036854775808 <= v <= 9223372036854775807);
        assert(spec_parse_i64(s@) == Some(v));
    }
    if neg {
        if acc == 9223372036854775808 {
            Some(i64::MIN)
        } else {
            Some(-(acc as i64))
        }
    } else {
        Some(acc as i64)
    }
}

/// Collects the characters of `s` into a vector.
pub fn string_to_chars(s: &str) -> (r: Vec<char>)
    ensures
        r@ == s@,
{
    let n = s.unicode_len();
    let mut r: Vec<char> = Vec::new();
    let mut i: usize = 0;
    while i < n
        invariant
            i <= n,
            n == s@.len(),
            r@ == s@.take(i as int),
        decreases n - i,
    {
        r.push(s.get_char(i));
        i = i + 1;
        assert(r@ =~= s@.take(i as int));
    }
    assert(s@.take(n as int) =~= s@);
    r
}

/// Relies on `String`'s `FromIterator<char>` implementation: collecting
/// characters builds the string holding exactly those characters in order.
#[verifier::external_body]
pub fn chars_to_string(v: &Vec<char>) -> (r: String)
    ensures
        r@ == v@,
{
    v.iter().collect()
}

} // verus!
