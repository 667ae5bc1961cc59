//! Decimal text for 64-bit integers, with its specification.

use vstd::prelude::*;
use vstd::string::StringExecFns;

verus! {

/// The decimal digit character for `d`, for `0 <= d <= 9`.
pub open spec fn digit_char(d: int) -> char {
    if d == 0 {
        '0'
    } else if d == 1 {
        '1'
    } else if d == 2 {
        '2'
    } else if d == 3 {
        '3'
    } else if d == 4 {
        '4'
    } else if d == 5 {
        '5'
    } else if d == 6 {
        '6'
    } else if d == 7 {
        '7'
    } else if d == 8 {
        '8'
    } else {
        '9'
    }
}

/// The decimal digits of `v`, most significant first, with no sign and no
/// leading zero except for `v == 0` itself.
pub open spec fn dec_seq(v: nat) -> Seq<char>
    decreases v,
{
    if v < 10 {
        seq![digit_char(v as int)]
    } else {
        dec_seq(v / 10) + seq![digit_char((v % 10) as int)]
    }
}

/// The decimal text of `n`: a minus sign for negative values, then the
/// digits of the absolute value.
pub open spec fn int_seq(n: int) -> Seq<char> {
    if n < 0 {
        seq!['-'] + dec_seq((-n) as nat)
    } else {
        dec_seq(n as nat)
    }
}

/// Relies on `String::push`: it appends exactly the one character `c` at the
/// end of the string.
#[verifier::external_body]
pub fn push_char(s: &mut String, c: char)
    ensures
        final(s)@ == old(s)@.push(c),
{
    s.push(c);
}

/// The digit character for `d`, as an executable value.
pub fn digit_char_of(d: u64) -> (c: char)
    requires
        d < 10,
    ensures
        c == digit_char(d as int),
{
    if d == 0 {
        '0'
    } else if d == 1 {
        '1'
    } else if d == 2 {
        '2'
    } else if d == 3 {
        '3'
    } else if d == 4 {
        '4'
    } else if d == 5 {
        '5'
    } else if d == 6 {
        '6'
    } else if d == 7 {
        '7'
    } else if d == 8 {
        '8'
    } else {
        '9'
    }
}

/// The decimal digits of `m` as a string.
pub fn u64_dec_string(m: u64) -> (s: String)
    ensures
        s@ == dec_seq(m as nat),
{
    let mut rev: Vec<char> = Vec::new();
    let mut v: u64 = m;
    if v == 0 {
        let mut s = String::new();
        push_char(&mut s, '0');
        proof {
            assert(s@ =~= dec_seq(0));
        }
        return s;
    }
    while v > 0
        invariant
            dec_seq(m as nat) == if v > 0 {
                dec_seq(v as nat) + rev@.reverse()
            } else {
                rev@.reverse()
            },
        decreases v,
    {
        let ghost old_rev = rev@;
        let ghost old_v = v as nat;
        let d: u64 = v % 10;
        rev.push(digit_char_of(d));
        v = v / 10;
        proof {
            assert(rev@.reverse() =~= seq![digit_char(d as int)] + old_rev.reverse());
            if v > 0 {
                assert(dec_seq(old_v) == dec_seq(old_v / 10) + seq![
                    digit_char((old_v % 10) as int),
                ]);
                assert(dec_seq(v as nat) + rev@.reverse() =~= (dec_seq(v as nat) + seq![
                    digit_char(d as int),
                ]) + old_rev.reverse());
            } else {
                assert(old_v < 10);
                assert(dec_seq(old_v) == seq![digit_char(old_v as int)]);
            }
        }
    }
    proof {
        assert(dec_seq(m as nat) == rev@.reverse());
    }
    let mut s = String::new();
    let n: usize = rev.len();
    let mut i: usize = n;
    while i > 0
        invariant
            i <= n,
            n == rev@.len(),
            dec_seq(m as nat) == rev@.reverse(),
            s@ =~= rev@.reverse().subrange(0, n - i),
        decreases i,
    {
        i = i - 1;
        push_char(&mut s, rev[i]);
        proof {
            assert(rev@.reverse()[n - i - 1] == rev@[i as int]);
            assert(s@ =~= rev@.reverse().subrange(0, n - i));
        }
    }
    proof {
        assert(rev@.reverse().subrange(0, n as int) =~= rev@.reverse());
    }
    s
}

/// The decimal text of `n`, matching `int_seq`.
pub fn i64_to_string(n: i64) -> (s: String)
    ensures
        s@ == int_seq(n as int),
{
    if n >= 0 {
        u64_dec_string(n as u64)
    } else {
        let m: u64 = if n == i64::MIN {
            9223372036854775808u64
        } else {
            (-n) as u64
        };
        let mut s = String::new();
        push_char(&mut s, '-');
        let digits = u64_dec_string(m);
        s.append(digits.as_str());
        proof {
            assert(s@ =~= seq!['-'] + dec_seq((-(n as int)) as nat));
        }
        s
    }
}

} // verus!
