//! The language filter applied to what the text extractor reports for a
//! record body.
use vstd::prelude::*;
use crate::domain::{split_dots, split_labels, views};
use crate::json::{json_compact, json_compact_of, json_field, json_field_of};
use crate::num::{all_digits, char_codes, digits_value, is_digit_code, lemma_digits_value_nonneg};

verus! {

pub open spec fn is_digit_char(c: char) -> bool {
    '0' <= c <= '9'
}

pub open spec fn digit_string(s: Seq<char>) -> bool {
    forall|i: int| 0 <= i < s.len() ==> is_digit_char(#[trigger] s[i])
}

pub open spec fn has_nonzero_from(s: Seq<char>, from: int) -> bool {
    exists|i: int| from <= i < s.len() && #[trigger] s[i] != '0'
}

/// The fraction digits of a number written `I` or `I.F`.
pub open spec fn fraction_part(s: Seq<char>) -> Seq<char> {
    let ls = split_labels(s);
    if ls.len() == 2 {
        ls[1]
    } else {
        Seq::<char>::empty()
    }
}

/// A number in plain decimal notation: digits, optionally a `.` and more
/// digits, with at least one digit in all.
pub open spec fn plain_decimal(s: Seq<char>) -> bool {
    let ls = split_labels(s);
    (ls.len() == 1 || ls.len() == 2) && digit_string(ls[0]) && digit_string(fraction_part(s))
        && ls[0].len() + fraction_part(s).len() > 0
}

/// A plain decimal strictly greater than 0.8: its integer part is not zero,
/// or its first fraction digit is 9, or that digit is 8 and a non-zero digit
/// follows it.
pub open spec fn plain_exceeds(s: Seq<char>) -> bool {
    let i = split_labels(s)[0];
    let f = fraction_part(s);
    plain_decimal(s) && (has_nonzero_from(i, 0) || (f.len() > 0 && (f[0] == '9' || (f[0] == '8'
        && has_nonzero_from(f, 1)))))
}

/// Whether an extracted document is kept: its language is `target`, its
/// language probability exceeds 0.8, and its text is over 100 characters.
pub open spec fn accepted(lang: Seq<char>, lang_prob: Seq<char>, text: Seq<char>, target: Seq<char>) -> bool {
    lang == target && exceeds_eight_tenths(lang_prob) && text.len() > 100
}

pub open spec fn pow10(k: nat) -> nat
    decreases k,
{
    if k == 0 {
        1
    } else {
        10 * pow10((k - 1) as nat)
    }
}

/// The value of the plain decimal `s`, as a fraction over `pow10` of its
/// number of fraction digits, exceeds 8/10.
pub open spec fn value_exceeds_eight_tenths(s: Seq<char>) -> bool {
    let i = char_codes(split_labels(s)[0]);
    let f = char_codes(fraction_part(s));
    10 * (digits_value(i) * pow10(f.len()) + digits_value(f)) > 8 * pow10(f.len())
}

proof fn lemma_pow10_positive(k: nat)
    ensures
        pow10(k) >= 1,
    decreases k,
{
    if k > 0 {
        lemma_pow10_positive((k - 1) as nat);
    }
}

proof fn lemma_all_digits_drop_last(s: Seq<u32>)
    requires
        all_digits(s),
        s.len() > 0,
    ensures
        all_digits(s.drop_last()),
        is_digit_code(s.last()),
{
    assert forall|i: int| 0 <= i < s.drop_last().len() implies is_digit_code(
        #[trigger] s.drop_last()[i],
    ) by {
        assert(s.drop_last()[i] == s[i]);
    }
}

proof fn lemma_digits_below_pow(s: Seq<u32>)
    requires
        all_digits(s),
    ensures
        digits_value(s) < pow10(s.len()),
    decreases s.len(),
{
    if s.len() > 0 {
        lemma_all_digits_drop_last(s);
        lemma_digits_below_pow(s.drop_last());
    }
}

proof fn lemma_digits_positive(s: Seq<u32>)
    requires
        all_digits(s),
    ensures
        digits_value(s) > 0 <==> exists|i: int| 0 <= i < s.len() && #[trigger] s[i] != 48,
    decreases s.len(),
{
    if s.len() > 0 {
        let t = s.drop_last();
        lemma_all_digits_drop_last(s);
        lemma_digits_positive(t);
        lemma_digits_value_nonneg(t);
        if exists|i: int| 0 <= i < t.len() && #[trigger] t[i] != 48 {
            let i = choose|i: int| 0 <= i < t.len() && #[trigger] t[i] != 48;
            assert(s[i] == t[i]);
        }
        if exists|i: int| 0 <= i < s.len() && #[trigger] s[i] != 48 {
            let i = choose|i: int| 0 <= i < s.len() && #[trigger] s[i] != 48;
            if i < t.len() {
                assert(t[i] == s[i]);
            }
        }
    }
}

proof fn lemma_digits_front(s: Seq<u32>)
    requires
        all_digits(s),
        s.len() > 0,
    ensures
        digits_value(s) == (s[0] as int - 48) * pow10((s.len() - 1) as nat) + digits_value(s.skip(1)),
    decreases s.len(),
{
    if s.len() == 1 {
        assert(s.drop_last() =~= Seq::<u32>::empty());
        assert(s.skip(1) =~= Seq::<u32>::empty());
        assert(s.last() == s[0]);
        assert(digits_value(s) == digits_value(s.drop_last()) * 10 + (s.last() as int - 48));
        assert(pow10(0) == 1);
        assert((s[0] as int - 48) * 1 == s[0] as int - 48);
    } else {
        let t = s.drop_last();
        lemma_all_digits_drop_last(s);
        lemma_digits_front(t);
        assert(s.skip(1).drop_last() =~= t.skip(1));
        assert(s.skip(1).last() == s.last());
        let a = s[0] as int - 48;
        let p = pow10((t.len() - 1) as nat);
        assert(t[0] == s[0]);
        assert(digits_value(s) == digits_value(t) * 10 + (s.last() as int - 48));
        assert(digits_value(s.skip(1)) == digits_value(t.skip(1)) * 10 + (s.last() as int - 48));
        assert(digits_value(t) == a * p + digits_value(t.skip(1)));
        assert(pow10((s.len() - 1) as nat) == 10 * p);
        assert((a * p) * 10 == a * (10 * p)) by (nonlinear_arith);
    }
}

proof fn lemma_char_codes_digits(s: Seq<char>)
    requires
        digit_string(s),
    ensures
        all_digits(char_codes(s)),
        forall|i: int| 0 <= i < s.len() ==> (s[i] != '0' <==> #[trigger] char_codes(s)[i] != 48),
{
    assert forall|i: int| 0 <= i < s.len() implies is_digit_code(#[trigger] char_codes(s)[i]) by {
        assert(is_digit_char(s[i]));
    }
}

/// The digit-wise reading of "greater than 0.8" agrees with the value of
/// the number: for a plain decimal `I.F`, it holds exactly when
/// `10 * (I * 10^|F| + F) > 8 * 10^|F|`.
pub proof fn lemma_threshold_is_value(s: Seq<char>)
    requires
        plain_decimal(s),
    ensures
        plain_exceeds(s) <==> value_exceeds_eight_tenths(s),
{
    let is = split_labels(s)[0];
    let fs = fraction_part(s);
    let i = char_codes(is);
    let f = char_codes(fs);
    lemma_char_codes_digits(is);
    lemma_char_codes_digits(fs);
    lemma_digits_positive(i);
    lemma_digits_value_nonneg(i);
    lemma_digits_value_nonneg(f);
    lemma_digits_below_pow(f);
    let k = f.len();
    let p = pow10(k);
    lemma_pow10_positive(k);
    if has_nonzero_from(is, 0) {
        let j = choose|j: int| 0 <= j < is.len() && #[trigger] is[j] != '0';
        assert(i[j] != 48);
        assert(digits_value(i) >= 1);
        assert(digits_value(i) * p >= p) by (nonlinear_arith)
            requires
                digits_value(i) >= 1,
                p >= 1,
        ;
    } else {
        assert forall|j: int| 0 <= j < i.len() implies #[trigger] i[j] == 48 by {
            assert(is[j] == '0');
        }
        assert(digits_value(i) == 0);
        assert(digits_value(i) * p == 0) by (nonlinear_arith)
            requires
                digits_value(i) == 0,
        ;
        if k > 0 {
            let rest = f.skip(1);
            let q = pow10((k - 1) as nat);
            lemma_digits_front(f);
            assert(all_digits(rest)) by {
                assert forall|j: int| 0 <= j < rest.len() implies is_digit_code(#[trigger] rest[j]) by {
                    assert(rest[j] == f[j + 1]);
                }
            }
            lemma_digits_below_pow(rest);
            lemma_digits_value_nonneg(rest);
            lemma_digits_positive(rest);
            assert(p == 10 * q);
            assert(has_nonzero_from(fs, 1) <==> exists|j: int| 0 <= j < rest.len() && #[trigger] rest[j] != 48) by {
                if has_nonzero_from(fs, 1) {
                    let j = choose|j: int| 1 <= j < fs.len() && #[trigger] fs[j] != '0';
                    assert(rest[j - 1] == f[j]);
                }
                if exists|j: int| 0 <= j < rest.len() && #[trigger] rest[j] != 48 {
                    let j = choose|j: int| 0 <= j < rest.len() && #[trigger] rest[j] != 48;
                    assert(rest[j] == f[j + 1]);
                    assert(fs[j + 1] != '0');
                }
            }
            let d = f[0] as int - 48;
            assert(is_digit_code(f[0]));
            assert(fs[0] == '9' <==> d == 9);
            assert(fs[0] == '8' <==> d == 8);
            if d == 9 {
                assert(d * q == 9 * q);
            } else if d == 8 {
                assert(d * q == 8 * q);
            } else {
                assert(d * q <= 7 * q) by (nonlinear_arith)
                    requires
                        d <= 7,
                        q >= 0,
                ;
            }
        }
    }
}

proof fn lemma_first_nonzero(d: Seq<char>, i: int)
    requires
        0 <= i <= d.len(),
    ensures
        i <= first_nonzero(d, i) <= d.len(),
        forall|j: int| i <= j < first_nonzero(d, i) ==> d[j] == '0',
        first_nonzero(d, i) < d.len() ==> d[first_nonzero(d, i)] != '0',
    decreases d.len() - i,
{
    if i < d.len() && d[i] == '0' {
        lemma_first_nonzero(d, i + 1);
    }
}

proof fn lemma_exp_index_none(b: Seq<char>, i: int)
    requires
        0 <= i <= b.len(),
        forall|j: int| 0 <= j < b.len() ==> b[j] != 'e' && b[j] != 'E',
    ensures
        exp_index(b, i) == b.len(),
    decreases b.len() - i,
{
    if i < b.len() {
        lemma_exp_index_none(b, i + 1);
    }
}

/// For an unsigned number without exponent, the digit-wise reading of
/// "greater than 0.8" agrees with its value: with `s` written `I.F`, it
/// holds exactly when `10 * (I * 10^|F| + F) > 8 * 10^|F|`.
pub proof fn lemma_plain_threshold_is_value(s: Seq<char>)
    requires
        plain_decimal(s),
    ensures
        exceeds_eight_tenths(s) <==> value_exceeds_eight_tenths(s),
{
    lemma_threshold_is_value(s);
    let ls = split_labels(s);
    crate::domain::lemma_join_split(s);
    let is = ls[0];
    let fs = fraction_part(s);
    if ls.len() == 2 {
        assert(ls.drop_last() =~= seq![is]);
        assert(crate::domain::join_labels(seq![is]) == is);
        assert(crate::domain::join_labels(ls) == crate::domain::join_labels(ls.drop_last()) + seq![
            '.',
        ] + ls.last());
        assert(s == is + seq!['.'] + fs);
    } else {
        assert(s == is);
    }
    assert forall|j: int| 0 <= j < s.len() implies s[j] != 'e' && s[j] != 'E' && s[j] != '+'
        && s[j] != '-' by {
        if j < is.len() {
            assert(s[j] == is[j]);
            assert(is_digit_char(is[j]));
        } else if j > is.len() {
            assert(s[j] == fs[j - is.len() - 1]);
            assert(is_digit_char(fs[j - is.len() - 1]));
        }
    }
    assert(sign_len(s) == 0);
    assert(unsigned_part(s) =~= s);
    lemma_exp_index_none(s, 0);
    assert(mantissa(s) =~= s);
    assert(!has_exponent(s));
    let d = mantissa_digits(s);
    assert(d == is + fs);
    lemma_first_nonzero(d, 0);
    let z = first_nonzero(d, 0);
    if has_nonzero_from(is, 0) {
        let j = choose|j: int| 0 <= j < is.len() && #[trigger] is[j] != '0';
        assert(d[j] == is[j]);
        assert(z <= j);
    } else {
        assert forall|j: int| 0 <= j < is.len() implies d[j] == '0' by {
            assert(d[j] == is[j]);
        }
        assert(z >= is.len()) by {
            if z < is.len() {
                assert(d[z] == '0');
            }
        }
        if fs.len() > 0 {
            assert(d[is.len() as int] == fs[0]);
            if fs[0] != '0' {
                assert(z == is.len());
                assert(has_nonzero_from(d, z + 1) <==> has_nonzero_from(fs, 1)) by {
                    if has_nonzero_from(d, z + 1) {
                        let j = choose|j: int| z + 1 <= j < d.len() && #[trigger] d[j] != '0';
                        assert(fs[j - is.len()] == d[j]);
                    }
                    if has_nonzero_from(fs, 1) {
                        let j = choose|j: int| 1 <= j < fs.len() && #[trigger] fs[j] != '0';
                        assert(d[is.len() + j] == fs[j]);
                    }
                }
            } else {
                assert(z > is.len());
            }
        } else {
            assert(d.len() == is.len());
        }
    }
}

/// The value of a number `±I.F e E` exceeds 8/10. With `M` the value of the
/// digits `IF` and `t = E - |F|`, the value is `M * 10^t`; the comparison is
/// made on integers by moving the power to the side where it is positive.
pub open spec fn number_exceeds_eight_tenths(s: Seq<char>) -> bool {
    let m = digits_value(char_codes(mantissa_digits(s)));
    let exp = if has_exponent(s) {
        exponent_value(exponent_text(s))
    } else {
        0
    };
    let t = exp - fraction_part(mantissa(s)).len();
    decimal_number(s) && !(s.len() > 0 && s[0] == '-') && if t >= 0 {
        10 * m * pow10(t as nat) > 8
    } else {
        10 * m > 8 * pow10((-t) as nat)
    }
}

proof fn lemma_pow10_mono(a: nat, b: nat)
    requires
        a <= b,
    ensures
        pow10(a) <= pow10(b),
    decreases b,
{
    if a < b {
        lemma_pow10_mono(a, (b - 1) as nat);
        lemma_pow10_positive((b - 1) as nat);
    }
}

proof fn lemma_leading_zeros(d: Seq<u32>, z: int)
    requires
        all_digits(d),
        0 <= z <= d.len(),
        forall|j: int| 0 <= j < z ==> d[j] == 48,
    ensures
        digits_value(d) == digits_value(d.skip(z)),
        all_digits(d.skip(z)),
    decreases z,
{
    assert(all_digits(d.skip(z))) by {
        assert forall|j: int| 0 <= j < d.skip(z).len() implies is_digit_code(#[trigger] d.skip(z)[j]) by {
            assert(d.skip(z)[j] == d[z + j]);
        }
    }
    if z > 0 {
        lemma_digits_front(d);
        let r = d.skip(1);
        assert(all_digits(r)) by {
            assert forall|j: int| 0 <= j < r.len() implies is_digit_code(#[trigger] r[j]) by {
                assert(r[j] == d[j + 1]);
            }
        }
        assert forall|j: int| 0 <= j < z - 1 implies r[j] == 48 by {
            assert(r[j] == d[j + 1]);
        }
        lemma_leading_zeros(r, z - 1);
        assert(r.skip(z - 1) =~= d.skip(z));
        assert(d[0] == 48);
        assert((d[0] as int - 48) == 0);
        assert((d[0] as int - 48) * pow10((d.len() - 1) as nat) == 0) by (nonlinear_arith)
            requires
                (d[0] as int - 48) == 0,
        ;
    } else {
        assert(d.skip(0) =~= d);
    }
}

/// For every number that `exceeds_threshold` reads, its digit-wise decision
/// agrees with the value of the number, exponent and sign included.
pub proof fn lemma_threshold_is_number_value(s: Seq<char>)
    requires
        decimal_number(s),
    ensures
        exceeds_eight_tenths(s) <==> number_exceeds_eight_tenths(s),
{
    let mant = mantissa(s);
    let is = split_labels(mant)[0];
    let fs = fraction_part(mant);
    let dc = mantissa_digits(s);
    let d = char_codes(dc);
    assert(digit_string(dc)) by {
        assert forall|j: int| 0 <= j < dc.len() implies is_digit_char(#[trigger] dc[j]) by {
            if j < is.len() {
                assert(dc[j] == is[j]);
            } else {
                assert(dc[j] == fs[j - is.len()]);
            }
        }
    }
    lemma_char_codes_digits(dc);
    let n = dc.len() as int;
    lemma_first_nonzero(dc, 0);
    let z = first_nonzero(dc, 0);
    let m = digits_value(d);
    let exp = if has_exponent(s) {
        exponent_value(exponent_text(s))
    } else {
        0
    };
    let t = exp - fs.len();
    assert forall|j: int| 0 <= j < z implies d[j] == 48 by {
        assert(dc[j] == '0');
    }
    lemma_leading_zeros(d, z);
    if z == n {
        assert(d.skip(z) =~= Seq::<u32>::empty());
        assert(m == 0);
        lemma_pow10_positive((-t) as nat);
        assert(10 * m * pow10(t as nat) == 0) by (nonlinear_arith)
            requires
                m == 0,
        ;
    } else {
        let ds = d.skip(z);
        let l = (n - z - 1) as nat;
        let p = pow10(l);
        let r = ds.skip(1);
        lemma_digits_front(ds);
        assert(ds[0] == d[z]);
        assert(d[z] != 48);
        assert(is_digit_code(d[z]));
        let dg = d[z] as int - 48;
        assert(1 <= dg <= 9);
        assert(all_digits(r)) by {
            assert forall|j: int| 0 <= j < r.len() implies is_digit_code(#[trigger] r[j]) by {
                assert(r[j] == ds[j + 1]);
            }
        }
        lemma_digits_below_pow(r);
        lemma_digits_value_nonneg(r);
        lemma_digits_positive(r);
        lemma_pow10_positive(l);
        let rv = digits_value(r);
        assert(m == dg * p + rv);
        assert(has_nonzero_from(dc, z + 1) <==> exists|j: int| 0 <= j < r.len() && #[trigger] r[j]
            != 48) by {
            if has_nonzero_from(dc, z + 1) {
                let j = choose|j: int| z + 1 <= j < dc.len() && #[trigger] dc[j] != '0';
                assert(r[j - z - 1] == d[j]);
            }
            if exists|j: int| 0 <= j < r.len() && #[trigger] r[j] != 48 {
                let j = choose|j: int| 0 <= j < r.len() && #[trigger] r[j] != 48;
                assert(r[j] == d[z + 1 + j]);
                assert(dc[z + 1 + j] != '0');
            }
        }
        assert(dc[z] == '9' <==> dg == 9);
        assert(dc[z] == '8' <==> dg == 8);
        let w = leading_weight(s);
        assert(w == is.len() - 1 - z + exp);
        assert(n == is.len() + fs.len());
        assert(t == w - l);
        assert(p <= m < 10 * p) by (nonlinear_arith)
            requires
                m == dg * p + rv,
                1 <= dg <= 9,
                0 <= rv < p,
        ;
        if t >= 0 {
            assert(w >= 0);
            lemma_pow10_positive(t as nat);
            assert(10 * m * pow10(t as nat) > 8) by (nonlinear_arith)
                requires
                    m >= 1,
                    pow10(t as nat) >= 1,
            ;
        } else {
            let u = (-t) as nat;
            let q = pow10(u);
            if w >= 0 {
                lemma_pow10_mono(u, l);
                assert(10 * m > 8 * q);
            } else if w == -1 {
                assert(u == l + 1);
                assert(q == 10 * p);
                if dg == 9 {
                    assert(dg * p == 9 * p);
                } else if dg == 8 {
                    assert(dg * p == 8 * p);
                } else {
                    assert(dg * p <= 7 * p) by (nonlinear_arith)
                        requires
                            dg <= 7,
                            p >= 0,
                    ;
                }
            } else {
                lemma_pow10_mono(l + 2, u);
                assert(pow10(l + 2) == 100 * p) by {
                    assert(pow10(l + 1) == 10 * p);
                }
                assert(!(10 * m > 8 * q));
            }
        }
    }
}

fn all_digit_chars(s: &String) -> (r: bool)
    ensures
        r == digit_string(s@),
{
    let n = s.as_str().unicode_len();
    let mut i: usize = 0;
    while i < n
        invariant
            i <= n == s@.len(),
            forall|j: int| 0 <= j < i ==> is_digit_char(#[trigger] s@[j]),
        decreases n - i,
    {
        let c = s.as_str().get_char(i);
        if !('0' <= c && c <= '9') {
            return false;
        }
        i = i + 1;
    }
    true
}

fn nonzero_from(s: &String, from: usize) -> (r: bool)
    ensures
        r == has_nonzero_from(s@, from as int),
{
    let n = s.as_str().unicode_len();
    let mut i: usize = from;
    while i < n
        invariant
            n == s@.len(),
            from <= i,
            forall|j: int| from <= j < i && j < n ==> #[trigger] s@[j] == '0',
        decreases n - i,
    {
        if s.as_str().get_char(i) != '0' {
            return true;
        }
        i = i + 1;
    }
    false
}

/// The position of the first `e` or `E` at or after `i`, or the length.
pub open spec fn exp_index(b: Seq<char>, i: int) -> int
    decreases b.len() - i,
{
    if i < 0 || i >= b.len() {
        b.len() as int
    } else if b[i] == 'e' || b[i] == 'E' {
        i
    } else {
        exp_index(b, i + 1)
    }
}

/// The position of the first digit other than `0` at or after `i`, or the length.
pub open spec fn first_nonzero(d: Seq<char>, i: int) -> int
    decreases d.len() - i,
{
    if i < 0 || i >= d.len() {
        d.len() as int
    } else if d[i] != '0' {
        i
    } else {
        first_nonzero(d, i + 1)
    }
}

pub open spec fn sign_len(s: Seq<char>) -> int {
    if s.len() > 0 && (s[0] == '+' || s[0] == '-') {
        1
    } else {
        0
    }
}

/// The text after the optional sign.
pub open spec fn unsigned_part(s: Seq<char>) -> Seq<char> {
    s.skip(sign_len(s))
}

pub open spec fn mantissa(s: Seq<char>) -> Seq<char> {
    let b = unsigned_part(s);
    b.subrange(0, exp_index(b, 0))
}

pub open spec fn has_exponent(s: Seq<char>) -> bool {
    let b = unsigned_part(s);
    exp_index(b, 0) < b.len()
}

/// The text after `e` or `E`.
pub open spec fn exponent_text(s: Seq<char>) -> Seq<char> {
    let b = unsigned_part(s);
    b.skip(exp_index(b, 0) + 1)
}

/// An exponent: an optional sign and at least one digit.
pub open spec fn exponent_ok(e: Seq<char>) -> bool {
    let d = e.skip(sign_len(e));
    d.len() > 0 && digit_string(d)
}

pub open spec fn exponent_value(e: Seq<char>) -> int {
    let v = digits_value(char_codes(e.skip(sign_len(e))));
    if e.len() > 0 && e[0] == '-' {
        -v
    } else {
        v
    }
}

/// A finite number as `str::parse::<f64>` reads it: an optional sign, a
/// plain decimal, and optionally `e` or `E` with a signed integer exponent.
pub open spec fn decimal_number(s: Seq<char>) -> bool {
    plain_decimal(mantissa(s)) && (has_exponent(s) ==> exponent_ok(exponent_text(s)))
}

/// All mantissa digits, integer part first.
pub open spec fn mantissa_digits(s: Seq<char>) -> Seq<char> {
    split_labels(mantissa(s))[0] + fraction_part(mantissa(s))
}

/// The decimal position of the leading non-zero digit: 0 for units, -1 for
/// tenths, and so on.
pub open spec fn leading_weight(s: Seq<char>) -> int {
    let exp = if has_exponent(s) {
        exponent_value(exponent_text(s))
    } else {
        0
    };
    split_labels(mantissa(s))[0].len() - 1 - first_nonzero(mantissa_digits(s), 0) + exp
}

/// A number strictly greater than 0.8: it is not negative and not zero, and
/// either its leading digit stands at the units or above, or it stands at the
/// tenths and is 9, or 8 with a non-zero digit after it.
pub open spec fn exceeds_eight_tenths(s: Seq<char>) -> bool {
    let d = mantissa_digits(s);
    let z = first_nonzero(d, 0);
    let w = leading_weight(s);
    decimal_number(s) && !(s.len() > 0 && s[0] == '-') && z < d.len() && (w >= 0 || (w == -1 && (
    d[z] == '9' || (d[z] == '8' && has_nonzero_from(d, z + 1)))))
}

fn find_exp(b: &str) -> (r: usize)
    ensures
        r as int == exp_index(b@, 0),
        r <= b@.len(),
{
    let n = b.unicode_len();
    let mut i: usize = 0;
    while i < n
        invariant
            i <= n == b@.len(),
            exp_index(b@, 0) == exp_index(b@, i as int),
        decreases n - i,
    {
        let c = b.get_char(i);
        if c == 'e' || c == 'E' {
            return i;
        }
        i = i + 1;
    }
    i
}

fn find_nonzero(d: &String) -> (r: usize)
    ensures
        r as int == first_nonzero(d@, 0),
        r <= d@.len(),
{
    let n = d.as_str().unicode_len();
    let mut i: usize = 0;
    while i < n
        invariant
            i <= n == d@.len(),
            first_nonzero(d@, 0) == first_nonzero(d@, i as int),
        decreases n - i,
    {
        if d.as_str().get_char(i) != '0' {
            return i;
        }
        i = i + 1;
    }
    i
}

/// Bound above which an exponent's exact size no longer matters.
const EXP_CAP: u128 = 0x4_0000_0000_0000_0000;

/// The digits' value, or `EXP_CAP` when it is at least that.
fn capped_value(d: &str) -> (r: u128)
    requires
        digit_string(d@),
    ensures
        r == (if digits_value(char_codes(d@)) >= EXP_CAP {
            EXP_CAP as int
        } else {
            digits_value(char_codes(d@))
        }),
{
    let n = d.unicode_len();
    let ghost c = char_codes(d@);
    proof {
        lemma_char_codes_digits(d@);
    }
    let mut v: u128 = 0;
    let mut i: usize = 0;
    assert(c.take(0) =~= Seq::<u32>::empty());
    while i < n
        invariant
            i <= n == d@.len(),
            c == char_codes(d@),
            all_digits(c),
            v <= EXP_CAP,
            v == (if digits_value(c.take(i as int)) >= EXP_CAP {
                EXP_CAP as int
            } else {
                digits_value(c.take(i as int))
            }),
        decreases n - i,
    {
        let ch = d.get_char(i);
        assert(c[i as int] == ch as u32);
        assert(crate::num::is_digit_code(c[i as int]));
        let dig = (ch as u32 - 48) as u128;
        assert(c.take(i + 1).drop_last() =~= c.take(i as int));
        assert(c.take(i + 1).last() == c[i as int]);
        proof {
            assert(all_digits(c.take(i as int))) by {
                assert forall|j: int| 0 <= j < i implies is_digit_code(#[trigger] c.take(i as int)[j]) by {
                    assert(c.take(i as int)[j] == c[j]);
                }
            }
            lemma_digits_value_nonneg(c.take(i as int));
        }
        if v >= EXP_CAP {
            v = EXP_CAP;
        } else {
            let next = v * 10 + dig;
            v = if next >= EXP_CAP {
                EXP_CAP
            } else {
                next
            };
        }
        i = i + 1;
    }
    assert(c.take(n as int) =~= c);
    v
}

/// Whether `s` is a number greater than 0.8, decided exactly on its digits
/// rather than through a rounded binary value: `0.8`, `0.80` and `8e-1` fail,
/// `0.8000001`, `+0.9` and `8.5E-1` pass.
pub fn exceeds_threshold(s: &str) -> (r: bool)
    ensures
        r == exceeds_eight_tenths(s@),
        r == number_exceeds_eight_tenths(s@),
{
    proof {
        if decimal_number(s@) {
            lemma_threshold_is_number_value(s@);
        }
    }
    let n = s.unicode_len();
    let negative = n > 0 && s.get_char(0) == '-';
    let sl: usize = if n > 0 && (s.get_char(0) == '+' || s.get_char(0) == '-') {
        1
    } else {
        0
    };
    let b = s.substring_char(sl, n);
    assert(b@ =~= unsigned_part(s@));
    let nb = b.unicode_len();
    let k = find_exp(b);
    let mant = b.substring_char(0, k);
    assert(mant@ == mantissa(s@));
    let parts = split_dots(mant);
    proof {
        crate::domain::lemma_split_nonempty(mant@);
    }
    assert(views(parts@)[0] == parts@[0]@);
    if parts.len() > 2 {
        return false;
    }
    let whole = &parts[0];
    let empty = String::new();
    let frac = if parts.len() == 2 {
        assert(views(parts@)[1] == parts@[1]@);
        &parts[1]
    } else {
        &empty
    };
    assert(frac@ == fraction_part(mant@));
    let nw = whole.as_str().unicode_len();
    let nf = frac.as_str().unicode_len();
    if !all_digit_chars(whole) || !all_digit_chars(frac) || (nw == 0 && nf == 0) {
        return false;
    }
    // the exponent, capped in size
    let mut exp_neg = false;
    let mut exp_abs: u128 = 0;
    if k < nb {
        let e = b.substring_char(k + 1, nb);
        assert(e@ =~= exponent_text(s@));
        let ne = e.unicode_len();
        let esl: usize = if ne > 0 && (e.get_char(0) == '+' || e.get_char(0) == '-') {
            1
        } else {
            0
        };
        exp_neg = ne > 0 && e.get_char(0) == '-';
        let ed = e.substring_char(esl, ne);
        assert(ed@ =~= e@.skip(sign_len(e@)));
        let eds = String::from_str(ed);
        if ed.unicode_len() == 0 || !all_digit_chars(&eds) {
            return false;
        }
        exp_abs = capped_value(ed);
    }
    if negative {
        return false;
    }
    let mut digits = String::from_str(whole.as_str());
    digits.append(frac.as_str());
    assert(digits@ == mantissa_digits(s@));
    let z = find_nonzero(&digits);
    let nd = digits.as_str().unicode_len();
    if z >= nd {
        return false;
    }
    // leading weight = nw - 1 - z + exponent; every length is below 2^64
    let base: i128 = nw as i128 - 1 - z as i128;
    let w: i128 = if exp_neg {
        base - exp_abs as i128
    } else {
        base + exp_abs as i128
    };
    proof {
        let ev = if has_exponent(s@) {
            exponent_value(exponent_text(s@))
        } else {
            0
        };
        let lw = leading_weight(s@);
        assert(lw == base + ev);
        if k < nb {
            let e = exponent_text(s@);
            lemma_char_codes_digits(e.skip(sign_len(e)));
            lemma_digits_value_nonneg(char_codes(e.skip(sign_len(e))));
        }
        assert(exp_abs < EXP_CAP ==> w == lw);
        assert(exp_abs == EXP_CAP && !exp_neg ==> w >= 0 && lw >= 0);
        assert(exp_abs == EXP_CAP && exp_neg ==> w < -1 && lw < -1);
    }
    if w >= 0 {
        return true;
    }
    if w < -1 {
        return false;
    }
    let d0 = digits.as_str().get_char(z);
    d0 == '9' || (d0 == '8' && nonzero_from(&digits, z + 1))
}

/// Decides whether an extracted document is kept (see `accepted`).
pub fn accept_document(lang: &str, lang_prob: &str, text: &str, target: &str) -> (r: bool)
    ensures
        r == accepted(lang@, lang_prob@, text@, target@),
{
    let l = String::from_str(lang);
    let t = String::from_str(target);
    l == t && exceeds_threshold(lang_prob) && text.unicode_len() > 100
}

/// What became of the extractor's report on one record body.
pub enum Extraction {
    /// The document passed the filter; this is the line to append.
    Accepted(String),
    /// The report parsed but the document failed the filter.
    Rejected,
    /// The report was no JSON document.
    Malformed,
}

/// A string member, or empty when it is missing or no string.
pub open spec fn field_or_empty(text: Seq<char>, key: Seq<char>) -> Seq<char> {
    match json_field_of(text, key) {
        Some((v, true)) => v,
        _ => Seq::<char>::empty(),
    }
}

/// A string or number member as text, or empty when it is missing.
pub open spec fn scalar_or_empty(text: Seq<char>, key: Seq<char>) -> Seq<char> {
    match json_field_of(text, key) {
        Some((v, _)) => v,
        None => Seq::<char>::empty(),
    }
}

/// The decision on a report `doc`: malformed when it does not parse; else
/// accepted, with its compact form, when its string `lang` and `text`
/// members and its `lang_prob` member (a string or a number) pass the filter
/// (a missing member counts as empty); else rejected.
pub open spec fn extraction_of(doc: Seq<char>, target: Seq<char>) -> Option<Option<Seq<char>>> {
    match json_compact_of(doc) {
        None => None,
        Some(line) => if accepted(
            field_or_empty(doc, "lang"@),
            scalar_or_empty(doc, "lang_prob"@),
            field_or_empty(doc, "text"@),
            target,
        ) {
            Some(Some(line))
        } else {
            Some(None)
        },
    }
}

pub open spec fn extraction_view(e: Extraction) -> Option<Option<Seq<char>>> {
    match e {
        Extraction::Accepted(line) => Some(Some(line@)),
        Extraction::Rejected => Some(None),
        Extraction::Malformed => None,
    }
}

fn field_text(doc: &str, key: &str) -> (r: String)
    ensures
        r@ == field_or_empty(doc@, key@),
{
    match json_field(doc, key) {
        Some((v, true)) => v,
        _ => String::new(),
    }
}

fn scalar_text(doc: &str, key: &str) -> (r: String)
    ensures
        r@ == scalar_or_empty(doc@, key@),
{
    match json_field(doc, key) {
        Some((v, _)) => v,
        None => String::new(),
    }
}

/// Reads the extractor's JSON report `doc` and applies the filter for the
/// language `target`.
pub fn evaluate_extraction(doc: &str, target: &str) -> (r: Extraction)
    ensures
        extraction_view(r) == extraction_of(doc@, target@),
{
    match json_compact(doc) {
        None => Extraction::Malformed,
        Some(line) => {
            let lang = field_text(doc, "lang");
            let prob = scalar_text(doc, "lang_prob");
            let text = field_text(doc, "text");
            if accept_document(lang.as_str(), prob.as_str(), text.as_str(), target) {
                Extraction::Accepted(line)
            } else {
                Extraction::Rejected
            }
        },
    }
}

} // verus!
