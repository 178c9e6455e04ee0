//! Decimal rendering of the numeric track properties.
//!
//! The catalog presents numeric fields (year, duration, bitrate, ...) as
//! strings; `i32_to_decimal` renders an `i32` exactly as its mathematical
//! decimal numeral, specified by `spec_i32_str`.

use vstd::prelude::*;
use vstd::string::StringExecFns;

verus! {

/// The decimal digit character for `d` (`0 <= d <= 9`).
pub open spec fn spec_digit(d: int) -> char {
    if d == 0 {
        '0'
    } else if d == 1 {
        '1'
    } else if d == 2 {
        '2'
    } else if d == 3 {
        '3'
    } else if d == 4 {
        '4'
    } else if d == 5 {
        '5'
    } else if d == 6 {
        '6'
    } else if d == 7 {
        '7'
    } else if d == 8 {
        '8'
    } else {
        '9'
    }
}

/// The decimal numeral of a non-negative integer, most significant digit
/// first, without leading zeros (`0` itself is rendered as `"0"`).
pub open spec fn spec_udec(n: int) -> Seq<char>
    recommends
        n >= 0,
    decreases n,
{
    if n < 10 {
        seq![spec_digit(n)]
    } else {
        spec_udec(n / 10).push(spec_digit(n % 10))
    }
}

/// The decimal numeral of an integer: a `-` sign for negative values,
/// followed by the numeral of the absolute value.
pub open spec fn spec_i32_str(n: int) -> Seq<char> {
    if n < 0 {
        seq!['-'] + spec_udec(-n)
    } else {
        spec_udec(n)
    }
}

/// The characters of a digit stack as produced by repeated division:
/// `ds` holds the least significant digit first, so the rendered numeral
/// reads the stack from the top down.
spec fn chars_of(ds: Seq<u32>) -> Seq<char>
    decreases ds.len(),
{
    if ds.len() == 0 {
        Seq::empty()
    } else {
        seq![spec_digit(ds.last() as int)] + chars_of(ds.drop_last())
    }
}

/// The one-character string for the digit `d`.
fn digit_str(d: u32) -> (s: &'static str)
    requires
        d < 10,
    ensures
        s@ == seq![spec_digit(d as int)],
{
    if d == 0 {
        proof {
            reveal_strlit("0");
            assert("0"@ =~= seq![spec_digit(0)]);
        }
        "0"
    } else if d == 1 {
        proof {
            reveal_strlit("1");
            assert("1"@ =~= seq![spec_digit(1)]);
        }
        "1"
    } else if d == 2 {
        proof {
            reveal_strlit("2");
            assert("2"@ =~= seq![spec_digit(2)]);
        }
        "2"
    } else if d == 3 {
        proof {
            reveal_strlit("3");
            assert("3"@ =~= seq![spec_digit(3)]);
        }
        "3"
    } else if d == 4 {
        proof {
            reveal_strlit("4");
            assert("4"@ =~= seq![spec_digit(4)]);
        }
        "4"
    } else if d == 5 {
        proof {
            reveal_strlit("5");
            assert("5"@ =~= seq![spec_digit(5)]);
        }
        "5"
    } else if d == 6 {
        proof {
            reveal_strlit("6");
            assert("6"@ =~= seq![spec_digit(6)]);
        }
        "6"
    } else if d == 7 {
        proof {
            reveal_strlit("7");
            assert("7"@ =~= seq![spec_digit(7)]);
        }
        "7"
    } else if d == 8 {
        proof {
            reveal_strlit("8");
            assert("8"@ =~= seq![spec_digit(8)]);
        }
        "8"
    } else {
        proof {
            reveal_strlit("9");
            assert("9"@ =~= seq![spec_digit(9)]);
        }
        "9"
    }
}

/// Renders `n` as its decimal numeral.
pub fn i32_to_decimal(n: i32) -> (s: String)
    ensures
        s@ == spec_i32_str(n as int),
{
    let neg: bool = n < 0;
    let m0: u32 = if neg {
        (-(n as i64)) as u32
    } else {
        n as u32
    };
    let ghost mv: int = m0 as int;

    // Peel digits off the value, least significant first.
    let mut digits: Vec<u32> = Vec::new();
    let mut m: u32 = m0;
    if m == 0 {
        digits.push(0);
        proof {
            assert(digits@.drop_last() =~= Seq::<u32>::empty());
            assert(chars_of(Seq::<u32>::empty()) =~= Seq::<char>::empty());
            assert(digits@.last() == 0u32);
            assert(chars_of(digits@) =~= spec_udec(mv));
        }
    } else {
        while m > 0
            invariant
                m > 0 ==> spec_udec(mv) =~= spec_udec(m as int) + chars_of(digits@),
                m == 0 ==> digits@.len() > 0 && spec_udec(mv) =~= chars_of(digits@),
                forall|i: int| 0 <= i < digits@.len() ==> digits@[i] < 10,
            decreases m,
        {
            let ghost pre = digits@;
            let d = m % 10;
            digits.push(d);
            proof {
                assert(digits@.last() == d);
                assert(digits@.drop_last() =~= pre);
                assert(chars_of(digits@) =~= seq![spec_digit(d as int)] + chars_of(pre));
            }
            let m_old = m;
            m = m / 10;
            proof {
                if m_old < 10 {
                    assert(spec_udec(m_old as int) =~= seq![spec_digit(d as int)]);
                    assert(spec_udec(mv) =~= chars_of(digits@));
                } else {
                    assert(spec_udec(m_old as int) == spec_udec(m as int).push(
                        spec_digit(m_old as int % 10),
                    ));
                    assert(spec_udec(m as int).push(spec_digit(d as int)) =~= spec_udec(m as int)
                        + seq![spec_digit(d as int)]);
                    assert(spec_udec(mv) =~= spec_udec(m as int) + chars_of(digits@));
                }
            }
        }
    }
    assert(spec_udec(mv) == chars_of(digits@));

    // Emit the digits, most significant first.
    let mut s = String::new();
    if neg {
        s.append("-");
        proof {
            reveal_strlit("-");
            assert(s@ =~= seq!['-']);
        }
    }
    let ghost base = s@;
    let mut i: usize = digits.len();
    proof {
        assert(digits@.take(i as int) =~= digits@);
    }
    while i > 0
        invariant
            i <= digits@.len(),
            forall|k: int| 0 <= k < digits@.len() ==> digits@[k] < 10,
            s@ + chars_of(digits@.take(i as int)) =~= base + chars_of(digits@),
        decreases i,
    {
        i = i - 1;
        let ghost s_pre = s@;
        s.append(digit_str(digits[i]));
        proof {
            let taken = digits@.take(i as int + 1);
            assert(taken.last() == digits@[i as int]);
            assert(taken.drop_last() =~= digits@.take(i as int));
            assert(chars_of(taken) =~= seq![spec_digit(digits@[i as int] as int)] + chars_of(
                digits@.take(i as int),
            ));
            assert(s@ + chars_of(digits@.take(i as int)) =~= s_pre + chars_of(taken));
        }
    }
    proof {
        assert(digits@.take(0) =~= Seq::<u32>::empty());
        assert(s@ =~= base + spec_udec(mv));
        assert(s@ =~= spec_i32_str(n as int));
    }
    s
}

} // verus!
