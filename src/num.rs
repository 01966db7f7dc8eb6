//! Unsigned decimal numbers as `str::parse::<u64>` reads them: an optional
//! leading `+`, then one or more ASCII digits, with a value that fits in 64 bits.
use vstd::prelude::*;

verus! {

pub open spec fn is_digit_code(c: u32) -> bool {
    48 <= c <= 57
}

pub open spec fn all_digits(s: Seq<u32>) -> bool {
    forall|i: int| 0 <= i < s.len() ==> is_digit_code(#[trigger] s[i])
}

/// The value of a string of digit codes, most significant first.
pub open spec fn digits_value(s: Seq<u32>) -> int
    decreases s.len(),
{
    if s.len() == 0 {
        0
    } else {
        digits_value(s.drop_last()) * 10 + (s.last() as int - 48)
    }
}

/// The digits after an optional leading `+`.
pub open spec fn unsigned_digits(s: Seq<u32>) -> Seq<u32> {
    if s.len() > 0 && s[0] == 43 {
        s.skip(1)
    } else {
        s
    }
}

/// The number that the codes spell, if they spell one that fits in a `u64`.
pub open spec fn decimal_of(s: Seq<u32>) -> Option<u64> {
    let b = unsigned_digits(s);
    if b.len() > 0 && all_digits(b) && digits_value(b) <= u64::MAX {
        Some(digits_value(b) as u64)
    } else {
        None
    }
}

pub open spec fn byte_codes(s: Seq<u8>) -> Seq<u32> {
    s.map_values(|b: u8| b as u32)
}

pub open spec fn char_codes(s: Seq<char>) -> Seq<u32> {
    s.map_values(|c: char| c as u32)
}

pub proof fn lemma_digits_value_nonneg(s: Seq<u32>)
    requires
        all_digits(s),
    ensures
        digits_value(s) >= 0,
    decreases s.len(),
{
    if s.len() > 0 {
        assert(all_digits(s.drop_last())) by {
            assert forall|i: int| 0 <= i < s.drop_last().len() implies is_digit_code(
                #[trigger] s.drop_last()[i],
            ) by {
                assert(s.drop_last()[i] == s[i]);
            }
        }
        lemma_digits_value_nonneg(s.drop_last());
        assert(is_digit_code(s[s.len() - 1]));
    }
}

/// A digit string is worth at least as much as any of its prefixes.
pub proof fn lemma_digits_value_prefix(s: Seq<u32>, k: int)
    requires
        all_digits(s),
        0 <= k <= s.len(),
    ensures
        digits_value(s) >= digits_value(s.take(k)),
    decreases s.len(),
{
    if k < s.len() {
        let t = s.drop_last();
        assert(all_digits(t)) by {
            assert forall|i: int| 0 <= i < t.len() implies is_digit_code(#[trigger] t[i]) by {
                assert(t[i] == s[i]);
            }
        }
        lemma_digits_value_prefix(t, k);
        assert(t.take(k) =~= s.take(k));
        lemma_digits_value_nonneg(t);
        assert(is_digit_code(s[s.len() - 1]));
    } else {
        assert(s.take(k) =~= s);
    }
}

/// Reads the digit codes `s[from..]` as a number; nothing when one of them is
/// not a digit or the value does not fit in a `u64`.
fn digits_to_u64(s: &Vec<u32>, from: usize) -> (r: Option<u64>)
    requires
        from <= s@.len(),
    ensures
        r == (if all_digits(s@.skip(from as int)) && digits_value(s@.skip(from as int)) <= u64::MAX {
            Some(digits_value(s@.skip(from as int)) as u64)
        } else {
            None::<u64>
        }),
{
    let ghost b = s@.skip(from as int);
    let mut v: u64 = 0;
    let mut i: usize = from;
    assert(b.take(0) =~= Seq::<u32>::empty());
    while i < s.len()
        invariant
            from <= i <= s@.len(),
            b == s@.skip(from as int),
            all_digits(b.take(i - from)),
            v as int == digits_value(b.take(i - from)),
        decreases s@.len() - i,
    {
        let c = s[i];
        let ghost k = i - from;
        assert(b[k] == c);
        if c < 48 || c > 57 {
            assert(!is_digit_code(b[k]));
            return None;
        }
        let d: u64 = (c - 48) as u64;
        assert(b.take(k + 1).drop_last() =~= b.take(k));
        assert(b.take(k + 1).last() == c);
        let next = match v.checked_mul(10) {
            Some(m) => m.checked_add(d),
            None => None,
        };
        match next {
            Some(n) => {
                v = n;
                assert(all_digits(b.take(k + 1))) by {
                    assert forall|j: int| 0 <= j < b.take(k + 1).len() implies is_digit_code(
                        #[trigger] b.take(k + 1)[j],
                    ) by {
                        if j < k {
                            assert(b.take(k + 1)[j] == b.take(k)[j]);
                        }
                    }
                }
            },
            None => {
                proof {
                    if all_digits(b) {
                        lemma_digits_value_prefix(b, k + 1);
                    }
                }
                return None;
            },
        }
        i = i + 1;
    }
    assert(b.take(i - from) =~= b);
    Some(v)
}

/// Reads the codes `s` as `str::parse::<u64>` does.
fn codes_to_u64(s: &Vec<u32>) -> (r: Option<u64>)
    ensures
        r == decimal_of(s@),
{
    let from: usize = if s.len() > 0 && s[0] == 43 {
        1
    } else {
        0
    };
    assert(unsigned_digits(s@) =~= s@.skip(from as int));
    if from >= s.len() {
        return None;
    }
    digits_to_u64(s, from)
}

/// Reads the bytes `d[from..to]` as an unsigned decimal number.
pub fn parse_u64_bytes(d: &[u8], from: usize, to: usize) -> (r: Option<u64>)
    requires
        from <= to <= d@.len(),
    ensures
        r == decimal_of(byte_codes(d@.subrange(from as int, to as int))),
{
    let mut codes: Vec<u32> = Vec::new();
    let mut i: usize = from;
    while i < to
        invariant
            from <= i <= to <= d@.len(),
            codes@ == byte_codes(d@.subrange(from as int, i as int)),
        decreases to - i,
    {
        codes.push(d[i] as u32);
        assert(byte_codes(d@.subrange(from as int, i + 1)) =~= byte_codes(
            d@.subrange(from as int, i as int),
        ).push(d@[i as int] as u32));
        i = i + 1;
    }
    codes_to_u64(&codes)
}

/// Reads a string as an unsigned decimal number, as `str::parse::<u64>` does.
pub fn parse_u64(s: &str) -> (r: Option<u64>)
    ensures
        r == decimal_of(char_codes(s@)),
{
    let n = s.unicode_len();
    let mut codes: Vec<u32> = Vec::new();
    let mut i: usize = 0;
    while i < n
        invariant
            i <= n == s@.len(),
            codes@ == char_codes(s@.subrange(0, i as int)),
        decreases n - i,
    {
        let c = s.get_char(i);
        codes.push(c as u32);
        assert(char_codes(s@.subrange(0, i + 1)) =~= char_codes(s@.subrange(0, i as int)).push(
            c as u32,
        ));
        i = i + 1;
    }
    assert(s@.subrange(0, n as int) =~= s@);
    codes_to_u64(&codes)
}

} // verus!
