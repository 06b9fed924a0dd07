//! Decimal rendering and parsing of unsigned integers.
//!
//! Rendering builds the key names the log handler stores under (an offset
//! is part of the key of each log entry); parsing reads the one
//! command-line knob, the gossip interval in milliseconds.

use vstd::prelude::*;
use vstd::string::StringSliceAdditionalSpecFns;

verus! {

/// The character for one decimal digit.
pub open spec fn spec_digit_char(d: nat) -> char {
    if d == 0 {
        '0'
    } else if d == 1 {
        '1'
    } else if d == 2 {
        '2'
    } else if d == 3 {
        '3'
    } else if d == 4 {
        '4'
    } else if d == 5 {
        '5'
    } else if d == 6 {
        '6'
    } else if d == 7 {
        '7'
    } else if d == 8 {
        '8'
    } else {
        '9'
    }
}

/// The decimal rendering of `n`, most significant digit first, with no
/// leading zeroes (`0` renders as "0").
pub open spec fn spec_dec(n: nat) -> Seq<char>
    decreases n,
{
    if n < 10 {
        seq![spec_digit_char(n)]
    } else {
        spec_dec(n / 10).push(spec_digit_char(n % 10))
    }
}

/// A non-empty run of ASCII decimal digit bytes.
pub open spec fn is_dec_digits(s: Seq<u8>) -> bool {
    s.len() > 0 && forall|i: int| 0 <= i < s.len() ==> 48 <= #[trigger] s[i] <= 57
}

/// The bytes that carry the value: everything after an optional leading
/// `+` sign.
pub open spec fn spec_digits_part(s: Seq<u8>) -> Seq<u8> {
    if s.len() > 0 && s[0] == 43 {
        s.drop_first()
    } else {
        s
    }
}

/// The value of a run of decimal digit bytes, most significant first.
pub open spec fn spec_dec_value(s: Seq<u8>) -> nat
    decreases s.len(),
{
    if s.len() == 0 {
        0
    } else {
        spec_dec_value(s.drop_last()) * 10 + ((s.last() - 48) as nat)
    }
}

/// One digit as a borrowed one-character string.
fn digit_str(d: u64) -> (r: &'static str)
    requires
        d < 10,
    ensures
        r@ == seq![spec_digit_char(d as nat)],
{
    proof {
        reveal_strlit("0");
        reveal_strlit("1");
        reveal_strlit("2");
        reveal_strlit("3");
        reveal_strlit("4");
        reveal_strlit("5");
        reveal_strlit("6");
        reveal_strlit("7");
        reveal_strlit("8");
        reveal_strlit("9");
    }
    match d {
        0 => "0",
        1 => "1",
        2 => "2",
        3 => "3",
        4 => "4",
        5 => "5",
        6 => "6",
        7 => "7",
        8 => "8",
        _ => "9",
    }
}

/// Renders `n` in decimal, most significant digit first.
pub fn u64_to_dec(n: u64) -> (r: String)
    ensures
        r@ == spec_dec(n as nat),
    decreases n,
{
    if n < 10 {
        digit_str(n).to_owned()
    } else {
        let mut s = u64_to_dec(n / 10);
        s.append(digit_str(n % 10));
        proof {
            assert(s@ =~= spec_dec((n / 10) as nat).push(spec_digit_char((n % 10) as nat)));
        }
        s
    }
}

/// Renders `n` in decimal, most significant digit first.
pub fn usize_to_dec(n: usize) -> (r: String)
    ensures
        r@ == spec_dec(n as nat),
{
    u64_to_dec(n as u64)
}

/// Appending digit bytes never shrinks the value.
proof fn lemma_dec_value_prefix_le(s: Seq<u8>, i: int)
    requires
        0 <= i <= s.len(),
    ensures
        spec_dec_value(s.take(i)) <= spec_dec_value(s),
    decreases s.len() - i,
{
    if i < s.len() {
        assert(s.take(i + 1).drop_last() =~= s.take(i));
        assert(s.take(i + 1).last() == s[i]);
        assert(spec_dec_value(s.take(i + 1)) == spec_dec_value(s.take(i)) * 10 + ((s[i] - 48)
            as nat));
        lemma_dec_value_prefix_le(s, i + 1);
        assert(s.take(s.len() as int) =~= s);
    } else {
        assert(s.take(i) =~= s);
    }
}

/// Parses an unsigned decimal integer: an optional leading `+`, then one
/// or more ASCII digits, whose value must fit in a `u64`.  Anything else
/// — an empty string, a stray character, a value past `u64::MAX` — is
/// rejected.
pub fn parse_u64(s: &str) -> (r: Option<u64>)
    ensures
        r matches Some(v) ==> {
            &&& is_dec_digits(spec_digits_part(s.spec_bytes()))
            &&& spec_dec_value(spec_digits_part(s.spec_bytes())) == v as nat
        },
        r is None ==> !is_dec_digits(spec_digits_part(s.spec_bytes())) || spec_dec_value(
            spec_digits_part(s.spec_bytes()),
        ) > u64::MAX,
{
    let b = s.as_bytes();
    let n = b.len();
    let start: usize = if n > 0 && b[0] == 43 {
        1
    } else {
        0
    };
    let ghost digits = spec_digits_part(s.spec_bytes());
    proof {
        assert(digits =~= b@.subrange(start as int, n as int));
    }
    if n == start {
        return None;
    }
    let mut acc: u64 = 0;
    let mut i: usize = start;
    while i < n
        invariant
            start <= i <= n,
            n == b@.len(),
            b@ == s.spec_bytes(),
            digits == spec_digits_part(s.spec_bytes()),
            digits =~= b@.subrange(start as int, n as int),
            forall|j: int| start <= j < i ==> 48 <= #[trigger] b@[j] <= 57,
            acc as nat == spec_dec_value(b@.subrange(start as int, i as int)),
        decreases n - i,
    {
        let c = b[i];
        if c < 48 || c > 57 {
            proof {
                assert(digits[i - start] == b@[i as int]);
            }
            return None;
        }
        let d = c - 48;
        proof {
            assert(b@.subrange(start as int, i + 1).drop_last() =~= b@.subrange(
                start as int,
                i as int,
            ));
            assert(b@.subrange(start as int, i + 1).last() == b@[i as int]);
        }
        if acc > (u64::MAX - d as u64) / 10 {
            proof {
                assert(spec_dec_value(b@.subrange(start as int, i + 1)) == acc as nat * 10 + ((
                b@[i as int] - 48) as nat));
                assert(acc as nat * 10 + d as nat > u64::MAX) by (nonlinear_arith)
                    requires
                        acc > (u64::MAX - d as u64) / 10,
                        d < 10,
                {}
                lemma_dec_value_prefix_le(digits, i + 1 - start);
                assert(digits.take(i + 1 - start) =~= b@.subrange(start as int, i + 1));
            }
            return None;
        }
        proof {
            assert(acc as nat * 10 + d as nat <= u64::MAX) by (nonlinear_arith)
                requires
                    acc <= (u64::MAX - d as u64) / 10,
                    d < 10,
            {}
        }
        acc = acc * 10 + d as u64;
        i = i + 1;
    }
    proof {
        assert(b@.subrange(start as int, n as int) =~= digits);
    }
    Some(acc)
}

} // verus!
