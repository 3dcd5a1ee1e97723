use vstd::prelude::*;
use vstd::string::StrSliceExecFns;

verus! {

broadcast use vstd::seq::group_seq_axioms;

/// Canonical text of the number denoted by the literal `s`, or nothing when
/// `s` is not a well-formed number literal.
pub uninterp spec fn parsed_number(s: Seq<char>) -> Option<Seq<char>>;

/// Canonical text of the sum of the two numbers with texts `a` and `b`.
pub uninterp spec fn number_sum(a: Seq<char>, b: Seq<char>) -> Seq<char>;

/// Relies on serde_json: `from_str::<Number>` reads a number literal, and
/// `Number`'s display prints the parsed number's canonical text.
#[verifier::external_body]
pub(crate) fn parse_number(s: &str) -> (r: Option<String>)
    ensures
        match r {
            Some(t) => parsed_number(s@) == Some(t@),
            None => parsed_number(s@) is None,
        },
{
    serde_json::from_str::<serde_json::Number>(s).ok().map(|n| n.to_string())
}

/// Relies on jaq_json::Num: each text is read as a number the way jaq reads
/// one (`from_str_radix` for integers, `from_dec_str` otherwise), the two
/// are summed with `+`, and the sum's display prints its text.
#[verifier::external_body]
pub(crate) fn add_numbers(a: &str, b: &str) -> (r: String)
    ensures
        r@ == number_sum(a@, b@),
{
    let x = jaq_json::Num::from_str_radix(a, 10).unwrap_or_else(|| jaq_json::Num::from_dec_str(a));
    let y = jaq_json::Num::from_str_radix(b, 10).unwrap_or_else(|| jaq_json::Num::from_dec_str(b));
    (x + y).to_string()
}

/// Relies on std's `String::push`: appends exactly one character.
#[verifier::external_body]
pub(crate) fn push_char(s: &mut String, c: char)
    ensures
        final(s)@ == old(s)@.push(c),
{
    s.push(c);
}

/// Whether `c` is a decimal digit.
pub open spec fn is_digit(c: char) -> bool {
    '0' as u32 <= c as u32 && c as u32 <= '9' as u32
}

/// The value of the decimal digit `c`.
pub open spec fn digit_val(c: char) -> int {
    c as u32 - '0' as u32
}

/// Whether every character of `s` is a decimal digit.
pub open spec fn all_digits(s: Seq<char>) -> bool {
    forall|i: int| 0 <= i < s.len() ==> is_digit(s[i])
}

/// The value of `s` read as a big-endian sequence of decimal digits.
pub open spec fn digits_val(s: Seq<char>) -> int
    decreases s.len(),
{
    if s.len() == 0 {
        0
    } else {
        digits_val(s.drop_last()) * 10 + digit_val(s.last())
    }
}

/// The number text `s` read as a non-negative 64-bit integer: defined when
/// `s` is nothing but digits and its value fits.
pub open spec fn text_as_u64(s: Seq<char>) -> Option<u64> {
    if s.len() > 0 && all_digits(s) && digits_val(s) <= u64::MAX {
        Some(digits_val(s) as u64)
    } else {
        None
    }
}

/// The number text `s` read as a signed 64-bit integer: an optional minus
/// sign followed by nothing but digits, the value in range.
pub open spec fn text_as_i64(s: Seq<char>) -> Option<i64> {
    if s.len() > 0 && s[0] == '-' {
        let m = s.drop_first();
        if m.len() > 0 && all_digits(m) && digits_val(m) <= 0x8000_0000_0000_0000int {
            Some((-digits_val(m)) as i64)
        } else {
            None
        }
    } else if s.len() > 0 && all_digits(s) && digits_val(s) <= i64::MAX {
        Some(digits_val(s) as i64)
    } else {
        None
    }
}

/// A digit string's value is non-negative.
pub proof fn lemma_digits_val_nonneg(s: Seq<char>)
    requires
        all_digits(s),
    ensures
        digits_val(s) >= 0,
    decreases s.len(),
{
    if s.len() > 0 {
        assert(all_digits(s.drop_last())) by {
            assert(forall|i: int|
                0 <= i < s.len() - 1 ==> s.drop_last()[i] == s[i]);
        }
        lemma_digits_val_nonneg(s.drop_last());
    }
}

/// Extending a digit string never shrinks its value.
pub proof fn lemma_digits_val_prefix(s: Seq<char>, m: int)
    requires
        all_digits(s),
        0 <= m <= s.len(),
    ensures
        digits_val(s) >= digits_val(s.take(m)),
    decreases s.len() - m,
{
    if m < s.len() {
        lemma_digits_val_prefix(s, m + 1);
        assert(s.take(m + 1).drop_last() =~= s.take(m));
        assert(digits_val(s.take(m + 1)) == digits_val(s.take(m)) * 10 + digit_val(s[m]));
        assert(all_digits(s.take(m)));
        lemma_digits_val_nonneg(s.take(m));
        assert(digits_val(s.take(m)) * 10 >= digits_val(s.take(m))) by (nonlinear_arith)
            requires
                digits_val(s.take(m)) >= 0,
        ;
    } else {
        assert(s.take(m) =~= s);
    }
}

/// Read a string of decimal digits as a 64-bit integer.
pub fn str_as_u64(s: &str) -> (r: Option<u64>)
    ensures
        r == text_as_u64(s@),
{
    let n = s.unicode_len();
    if n == 0 {
        return None;
    }
    let mut i: usize = 0;
    let mut acc: u64 = 0;
    while i < n
        invariant
            0 < n == s@.len(),
            0 <= i <= n,
            all_digits(s@.take(i as int)),
            acc == digits_val(s@.take(i as int)),
        decreases n - i,
    {
        let c = s.get_char(i);
        let cv = c as u32;
        if cv < 48 || cv > 57 {
            assert(!is_digit(s@[i as int]));
            return None;
        }
        let d = (cv - 48) as u64;
        assert(d == digit_val(s@[i as int]));
        proof {
            assert(s@.take(i + 1).drop_last() =~= s@.take(i as int));
            assert(digits_val(s@.take(i + 1)) == acc * 10 + d);
            assert(all_digits(s@.take(i + 1)));
        }
        if acc > (u64::MAX - d) / 10 {
            proof {
                assert(acc * 10 + d > u64::MAX) by (nonlinear_arith)
                    requires
                        acc > (u64::MAX - d) / 10,
                        0 <= d <= 9,
                        acc >= 0,
                ;
                if all_digits(s@) {
                    lemma_digits_val_prefix(s@, i + 1);
                    assert(digits_val(s@) > u64::MAX);
                }
            }
            return None;
        }
        proof {
            assert(acc * 10 + d <= u64::MAX) by (nonlinear_arith)
                requires
                    acc <= (u64::MAX - d) / 10,
                    0 <= d <= 9,
                    acc >= 0,
            ;
        }
        acc = acc * 10 + d;
        i = i + 1;
    }
    proof {
        assert(s@.take(n as int) =~= s@);
    }
    Some(acc)
}

/// Read a number text as a signed 64-bit integer: an optional minus sign
/// followed by decimal digits.
pub fn str_as_i64(s: &str) -> (r: Option<i64>)
    ensures
        r == text_as_i64(s@),
{
    let n = s.unicode_len();
    if n == 0 {
        return None;
    }
    if s.get_char(0) == '-' {
        let m = s.substring_char(1, n);
        proof {
            assert(m@ =~= s@.drop_first());
        }
        match str_as_u64(m) {
            Some(mag) => {
                assert(text_as_u64(s@.drop_first()) == Some(mag));
                proof {
                    lemma_digits_val_nonneg(s@.drop_first());
                }
                assert(digits_val(s@.drop_first()) == mag);
                if mag <= 0x8000_0000_0000_0000u64 {
                    assert(text_as_i64(s@) == Some((-digits_val(s@.drop_first())) as i64));
                    if mag == 0x8000_0000_0000_0000u64 {
                        assert(i64::MIN == (-digits_val(s@.drop_first())) as i64);
                        Some(i64::MIN)
                    } else {
                        assert(-(mag as i64) == (-digits_val(s@.drop_first())) as i64);
                        Some(-(mag as i64))
                    }
                } else {
                    assert(text_as_i64(s@) is None);
                    None
                }
            },
            None => {
                assert(text_as_i64(s@) is None);
                None
            },
        }
    } else {
        match str_as_u64(s) {
            Some(v) => {
                proof {
                    lemma_digits_val_nonneg(s@);
                }
                if v <= i64::MAX as u64 {
                    Some(v as i64)
                } else {
                    None
                }
            },
            None => {
                None
            },
        }
    }
}

} // verus!
