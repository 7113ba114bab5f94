//! Decimal integers in URL segments: parsing and rendering, with the
//! round-trip law the router's `Link` rendering relies on.

use vstd::prelude::*;

verus! {

pub open spec fn is_digit(c: char) -> bool {
    '0' <= c && c <= '9'
}

pub open spec fn digit_val(c: char) -> int {
    c as int - '0' as int
}

pub open spec fn all_digits(s: Seq<char>) -> bool {
    forall|i: int| 0 <= i < s.len() ==> is_digit(#[trigger] s[i])
}

/// The value of a digit string, most significant first.
pub open spec fn digits_val(s: Seq<char>) -> int
    decreases s.len(),
{
    if s.len() == 0 {
        0
    } else {
        digits_val(s.drop_last()) * 10 + digit_val(s.last())
    }
}

/// An optional leading `-`, then at least one digit, nothing else.
pub open spec fn int_format_ok(s: Seq<char>) -> bool {
    if s.len() > 0 && s[0] == '-' {
        s.len() > 1 && all_digits(s.skip(1))
    } else {
        s.len() > 0 && all_digits(s)
    }
}

pub open spec fn spec_str_int(s: Seq<char>) -> int {
    if s.len() > 0 && s[0] == '-' {
        -digits_val(s.skip(1))
    } else {
        digits_val(s)
    }
}

/// What parsing an integer segment yields: the value when the segment is a
/// well-formed decimal integer that fits, nothing otherwise.
pub open spec fn spec_parse_int(s: Seq<char>) -> Option<i64> {
    if int_format_ok(s) && i64::MIN <= spec_str_int(s) && spec_str_int(s) <= i64::MAX {
        Some(spec_str_int(s) as i64)
    } else {
        None
    }
}

pub open spec fn digit_char(d: int) -> char {
    if d == 0 {
        '0'
    } else if d == 1 {
        '1'
    } else if d == 2 {
        '2'
    } else if d == 3 {
        '3'
    } else if d == 4 {
        '4'
    } else if d == 5 {
        '5'
    } else if d == 6 {
        '6'
    } else if d == 7 {
        '7'
    } else if d == 8 {
        '8'
    } else {
        '9'
    }
}

/// The canonical decimal digits of a non-negative value.
pub open spec fn spec_render_nat(n: int) -> Seq<char>
    decreases n,
{
    if n < 10 {
        seq![digit_char(n)]
    } else {
        spec_render_nat(n / 10) + seq![digit_char(n % 10)]
    }
}

/// The canonical decimal form of an integer.
pub open spec fn spec_render_int(v: int) -> Seq<char> {
    if v < 0 {
        seq!['-'] + spec_render_nat(-v)
    } else {
        spec_render_nat(v)
    }
}

pub proof fn lemma_digits_val_bounds(s: Seq<char>)
    requires
        all_digits(s),
    ensures
        digits_val(s) >= 0,
    decreases s.len(),
{
    if s.len() > 0 {
        assert(all_digits(s.drop_last())) by {
            assert(forall|i: int|
                0 <= i < s.len() - 1 ==> is_digit(#[trigger] s.drop_last()[i]) == is_digit(s[i]));
        }
        lemma_digits_val_bounds(s.drop_last());
        assert(is_digit(s.last()));
    }
}

/// The rendered digits of `n` are digits, value back to `n`.
pub proof fn lemma_render_nat_ok(n: int)
    requires
        n >= 0,
    ensures
        spec_render_nat(n).len() >= 1,
        all_digits(spec_render_nat(n)),
        digits_val(spec_render_nat(n)) == n,
    decreases n,
{
    if n < 10 {
        assert(spec_render_nat(n) == seq![digit_char(n)]);
        assert(is_digit(digit_char(n)));
        assert(seq![digit_char(n)].drop_last().len() == 0);
        assert(digits_val(seq![digit_char(n)].drop_last()) == 0);
        assert(seq![digit_char(n)].last() == digit_char(n));
        assert(digits_val(seq![digit_char(n)]) == digit_val(digit_char(n)));
        assert(digit_val(digit_char(n)) == n);
    } else {
        lemma_render_nat_ok(n / 10);
        let a = spec_render_nat(n / 10);
        let s = a + seq![digit_char(n % 10)];
        assert(s.drop_last() =~= a);
        assert(s.last() == digit_char(n % 10));
        assert(digit_val(digit_char(n % 10)) == n % 10);
        assert(digits_val(s) == digits_val(a) * 10 + n % 10);
        assert(digits_val(a) == n / 10);
        assert(n / 10 * 10 + n % 10 == n) by (nonlinear_arith)
            requires
                n >= 10,
        ;
        assert(all_digits(s)) by {
            assert(forall|i: int| 0 <= i < a.len() ==> #[trigger] s[i] == a[i]);
            assert(is_digit(s[s.len() - 1]));
        }
    }
}

/// Rendering then parsing gives the value back: the heart of the router's
/// link round-trip for integer parameters.
pub proof fn lemma_parse_render_int(v: int)
    requires
        i64::MIN <= v <= i64::MAX,
    ensures
        spec_parse_int(spec_render_int(v)) == Some(v as i64),
{
    if v < 0 {
        lemma_render_nat_ok(-v);
        let d = spec_render_nat(-v);
        let s = seq!['-'] + d;
        assert(s[0] == '-');
        assert(s.skip(1) =~= d);
        assert(int_format_ok(s));
        assert(spec_str_int(s) == -digits_val(d));
        assert(digits_val(d) == -v);
    } else {
        lemma_render_nat_ok(v);
        let s = spec_render_nat(v);
        assert(is_digit(s[0]));
        assert(s[0] != '-');
        assert(spec_str_int(s) == v);
    }
}

/// Parse a decimal integer segment; `None` exactly when the text is not a
/// well-formed decimal integer in `i64` range.
pub fn parse_int(s: &str) -> (r: Option<i64>)
    ensures
        r == spec_parse_int(s@),
{
    let len = s.unicode_len();
    if len == 0 {
        return None;
    }
    let neg = s.get_char(0) == '-';
    let start: usize = if neg {
        1
    } else {
        0
    };
    if start >= len {
        assert(!int_format_ok(s@));
        return None;
    }
    let ghost digits = if neg {
        s@.skip(1)
    } else {
        s@
    };
    let mut acc: i128 = 0;
    let mut ovf: bool = false;
    let mut i: usize = start;
    while i < len
        invariant
            start <= i <= len,
            len == s@.len(),
            start == if neg {
                1int
            } else {
                0int
            },
            neg ==> s@[0] == '-',
            !neg ==> s@[0] != '-',
            digits == (if neg {
                s@.skip(1)
            } else {
                s@
            }),
            all_digits(digits.take(i - start)),
            !ovf ==> 0 <= acc <= 0x8000_0000_0000_0000i128 && acc == digits_val(
                digits.take(i - start),
            ),
            ovf ==> digits_val(digits.take(i - start)) > 0x8000_0000_0000_0000i128,
        decreases len - i,
    {
        let c = s.get_char(i);
        if c < '0' || c > '9' {
            proof {
                if neg {
                    assert(s@.skip(1)[i - 1] == s@[i as int]);
                    assert(!is_digit(s@.skip(1)[i - 1]));
                    assert(!int_format_ok(s@));
                } else {
                    assert(!is_digit(s@[i as int]));
                    assert(!int_format_ok(s@));
                }
            }
            return None;
        }
        let d: i128 = (c as u32 as i128) - 48;
        proof {
            assert(digits.take(i + 1 - start) == digits.take(i - start).push(digits[i - start]));
            assert(digits[i - start] == s@[i as int]);
            assert(digits.take(i + 1 - start).drop_last() =~= digits.take(i - start));
            assert(digits_val(digits.take(i + 1 - start)) == digits_val(digits.take(i - start))
                * 10 + d);
            assert(all_digits(digits.take(i + 1 - start))) by {
                assert(forall|j: int|
                    0 <= j < i - start ==> #[trigger] digits.take(i + 1 - start)[j] == digits.take(
                        i - start,
                    )[j]);
                assert(is_digit(digits.take(i + 1 - start)[i - start]));
            }
        }
        if ovf {
            proof {
                assert(digits_val(digits.take(i - start)) * 10 + d > 0x8000_0000_0000_0000i128) by {
                    assert(digits_val(digits.take(i - start)) * 10 >= digits_val(
                        digits.take(i - start),
                    )) by (nonlinear_arith)
                        requires
                            digits_val(digits.take(i - start)) >= 0,
                    ;
                    lemma_digits_val_bounds(digits.take(i - start));
                }
            }
        } else if acc > 0x0CCC_CCCC_CCCC_CCCCi128 {
            // acc * 10 would pass 2^63: the value cannot fit either sign.
            ovf = true;
            proof {
                assert(acc * 10 + d > 0x8000_0000_0000_0000i128) by (nonlinear_arith)
                    requires
                        acc > 0x0CCC_CCCC_CCCC_CCCCi128,
                        d >= 0,
                ;
            }
        } else {
            acc = acc * 10 + d;
            if acc > 0x8000_0000_0000_0000i128 {
                ovf = true;
            }
        }
        i += 1;
    }
    proof {
        assert(digits.take(len - start) =~= digits);
        if neg {
            assert(int_format_ok(s@) == (s@.len() > 1 && all_digits(s@.skip(1))));
        }
    }
    if ovf {
        proof {
            lemma_digits_val_bounds(digits);
            if neg {
                assert(spec_str_int(s@) == -digits_val(digits));
                assert(spec_str_int(s@) < i64::MIN);
            } else {
                assert(spec_str_int(s@) > i64::MAX);
            }
        }
        return None;
    }
    if neg {
        if acc == 0x8000_0000_0000_0000i128 {
            Some(i64::MIN)
        } else {
            Some(-(acc as i64))
        }
    } else {
        if acc > 0x7FFF_FFFF_FFFF_FFFFi128 {
            proof {
                assert(spec_str_int(s@) > i64::MAX);
            }
            None
        } else {
            Some(acc as i64)
        }
    }
}

/// Render a non-negative value as decimal digits.
fn render_nat(n: u64) -> (r: String)
    ensures
        r@ == spec_render_nat(n as int),
    decreases n,
{
    if n < 10 {
        digit_str(n)
    } else {
        let rec = render_nat(n / 10);
        let last = digit_str(n % 10);
        let r = rec.concat(last.as_str());
        proof {
            assert(r@ == spec_render_nat(n as int / 10) + seq![digit_char(n as int % 10)]);
        }
        r
    }
}

/// One digit as text.
fn digit_str(d: u64) -> (r: String)
    requires
        d < 10,
    ensures
        r@ == seq![digit_char(d as int)],
{
    proof {
        reveal_strlit("0");
        reveal_strlit("1");
        reveal_strlit("2");
        reveal_strlit("3");
        reveal_strlit("4");
        reveal_strlit("5");
        reveal_strlit("6");
        reveal_strlit("7");
        reveal_strlit("8");
        reveal_strlit("9");
    }
    let t: &str = if d == 0 {
        "0"
    } else if d == 1 {
        "1"
    } else if d == 2 {
        "2"
    } else if d == 3 {
        "3"
    } else if d == 4 {
        "4"
    } else if d == 5 {
        "5"
    } else if d == 6 {
        "6"
    } else if d == 7 {
        "7"
    } else if d == 8 {
        "8"
    } else {
        "9"
    };
    proof {
        assert(t@ =~= seq![digit_char(d as int)]);
    }
    String::from_str(t)
}

/// Render an integer in its canonical decimal form.
pub fn render_int(v: i64) -> (r: String)
    ensures
        r@ == spec_render_int(v as int),
{
    if v >= 0 {
        render_nat(v as u64)
    } else {
        let mag: u64 = if v == i64::MIN {
            9223372036854775808u64
        } else {
            (-v) as u64
        };
        proof {
            reveal_strlit("-");
            assert("-"@ =~= seq!['-']);
        }
        let r = String::from_str("-").concat(render_nat(mag).as_str());
        proof {
            assert(r@ == seq!['-'] + spec_render_nat(mag as int));
        }
        r
    }
}

} // verus!
