//! Decimal text of integers, and the float-token grammar.

use vstd::prelude::*;
use crate::text::push_char;

verus! {

/// The digit character for `d < 10`.
pub open spec fn digit_char(d: nat) -> char {
    (('0' as u8) + d) as char
}

/// Whether `c` is an ASCII decimal digit.
pub open spec fn is_digit(c: char) -> bool {
    '0' <= c && c <= '9'
}

/// The value of a digit character.
pub open spec fn digit_value(c: char) -> nat {
    (c as nat - '0' as nat) as nat
}

/// The shortest decimal text of `n`.
pub open spec fn nat_text(n: nat) -> Seq<char>
    decreases n,
{
    if n < 10 {
        seq![digit_char(n)]
    } else {
        nat_text(n / 10).push(digit_char(n % 10))
    }
}

/// The decimal text of `n`, with a leading `-` when negative.
pub open spec fn int_text(n: int) -> Seq<char> {
    if n < 0 {
        seq!['-'] + nat_text((-n) as nat)
    } else {
        nat_text(n as nat)
    }
}

/// Whether `s` is a non-empty run of digits.
pub open spec fn all_digits(s: Seq<char>) -> bool {
    s.len() > 0 && forall|i: int| 0 <= i < s.len() ==> is_digit(s[i])
}

/// The value of a run of digits.
pub open spec fn digits_value(s: Seq<char>) -> nat
    decreases s.len(),
{
    if s.len() == 0 {
        0
    } else {
        digits_value(s.subrange(0, s.len() - 1)) * 10 + digit_value(s[s.len() - 1])
    }
}

/// The integer that `s` spells as an optional `-` followed by digits, if it
/// spells one.
pub open spec fn int_of_text(s: Seq<char>) -> Option<int> {
    if s.len() > 0 && s[0] == '-' && all_digits(s.subrange(1, s.len() as int)) {
        Some(-digits_value(s.subrange(1, s.len() as int)))
    } else if all_digits(s) {
        Some(digits_value(s) as int)
    } else {
        None
    }
}

/// Whether `c` can appear in a decimal floating-point literal.
pub open spec fn is_float_char(c: char) -> bool {
    is_digit(c) || c == '.' || c == '-' || c == '+' || c == 'e' || c == 'E'
}

/// Whether `s` is accepted as the text of a float: `NaN`, `Infinity`,
/// `-Infinity`, or a non-empty run of decimal-literal characters.
pub open spec fn is_float_text(s: Seq<char>) -> bool {
    s == seq!['N', 'a', 'N'] || s == seq!['I', 'n', 'f', 'i', 'n', 'i', 't', 'y'] || s == seq![
        '-',
        'I',
        'n',
        'f',
        'i',
        'n',
        'i',
        't',
        'y',
    ] || (s.len() > 0 && forall|i: int| 0 <= i < s.len() ==> is_float_char(s[i]))
}

/// Appends the decimal text of `m`.
pub fn push_nat_text(out: &mut String, m: u64)
    ensures
        final(out)@ == old(out)@ + nat_text(m as nat),
    decreases m,
{
    if m >= 10 {
        push_nat_text(out, m / 10);
    }
    let d = (m % 10) as u8;
    push_char(out, (48u8 + d) as char);
    assert(old(out)@ + nat_text(m as nat) == if m >= 10 {
        old(out)@ + nat_text((m / 10) as nat) + seq![digit_char((m % 10) as nat)]
    } else {
        old(out)@ + seq![digit_char(m as nat)]
    });
}

/// Appends the decimal text of `n`.
pub fn push_int_text(out: &mut String, n: i64)
    ensures
        final(out)@ == old(out)@ + int_text(n as int),
{
    if n < 0 {
        push_char(out, '-');
        let m: u64 = if n == i64::MIN {
            9223372036854775808u64
        } else {
            (-n) as u64
        };
        push_nat_text(out, m);
        assert(old(out)@.push('-') + nat_text(m as nat) == old(out)@ + int_text(n as int));
    } else {
        push_nat_text(out, n as u64);
    }
}

/// The integer spelled by `s`, if it spells one that fits in `i64`.
pub fn parse_int(s: &Vec<char>) -> (r: Option<i64>)
    ensures
        r matches Some(n) ==> int_of_text(s@) == Some(n as int),
        r is None ==> int_of_text(s@) matches None || !(i64::MIN <= int_of_text(s@)->0
            <= i64::MAX),
{
    let neg = s.len() > 0 && s[0] == '-';
    let start: usize = if neg { 1 } else { 0 };
    if start >= s.len() {
        assert(!all_digits(s@.subrange(start as int, s.len() as int)));
        assert(!all_digits(s@)) by {
            if s.len() > 0 {
                assert(!is_digit(s@[0]));
            }
        }
        return None;
    }
    let ghost body = s@.subrange(start as int, s.len() as int);
    let mut acc: u64 = 0;
    let mut i: usize = start;
    while i < s.len()
        invariant
            start <= i <= s.len(),
            start < s.len(),
            neg == (s@.len() > 0 && s@[0] == '-'),
            start == (if neg { 1usize } else { 0usize }),
            body == s@.subrange(start as int, s.len() as int),
            forall|j: int| start <= j < i ==> is_digit(s@[j]),
            acc as nat == digits_value(s@.subrange(start as int, i as int)),
            acc <= 9223372036854775808u64,
        decreases s.len() - i,
    {
        let c = s[i];
        if !('0' <= c && c <= '9') {
            assert(!is_digit(body[i - start]));
            assert(!all_digits(s@)) by {
                if !neg {
                    assert(!is_digit(s@[i as int]));
                } else {
                    assert(!is_digit(s@[0]));
                }
            }
            return None;
        }
        let d = (c as u32 - '0' as u32) as u64;
        assert(s@.subrange(start as int, i + 1).subrange(0, i - start) == s@.subrange(
            start as int,
            i as int,
        ));
        if acc > 922337203685477580u64 || (acc == 922337203685477580u64 && d > 8) {
            proof {
                let pre = s@.subrange(start as int, i + 1);
                assert(pre[pre.len() - 1] == c);
                assert(digits_value(pre) == acc * 10 + d);
                lemma_digits_value_grows(body, i + 1 - start);
                assert(body.subrange(0, i + 1 - start) == pre);
                assert(digits_value(body) > 9223372036854775808);
                if neg {
                    assert(s@.subrange(1, s.len() as int) == body);
                } else {
                    assert(s@ == body);
                }
            }
            return None;
        }
        acc = acc * 10 + d;
        i += 1;
    }
    assert(s@.subrange(start as int, s.len() as int) == body);
    assert(all_digits(body));
    if neg {
        if acc == 9223372036854775808u64 {
            Some(i64::MIN)
        } else {
            Some(-(acc as i64))
        }
    } else {
        assert(body == s@);
        if acc > 9223372036854775807u64 {
            None
        } else {
            Some(acc as i64)
        }
    }
}

/// A longer run of digits is worth at least as much as its prefix.
proof fn lemma_digits_value_grows(s: Seq<char>, k: int)
    requires
        0 <= k <= s.len(),
    ensures
        digits_value(s) >= digits_value(s.subrange(0, k)),
    decreases s.len(),
{
    if k < s.len() {
        let p = s.subrange(0, s.len() - 1);
        lemma_digits_value_grows(p, k);
        assert(p.subrange(0, k) == s.subrange(0, k));
    } else {
        assert(s.subrange(0, k) == s);
    }
}

/// Whether `s` is accepted as the text of a float.
pub fn check_float_text(s: &Vec<char>) -> (r: bool)
    ensures
        r == is_float_text(s@),
{
    let nan = s.len() == 3 && s[0] == 'N' && s[1] == 'a' && s[2] == 'N';
    let inf = s.len() == 8 && s[0] == 'I' && s[1] == 'n' && s[2] == 'f' && s[3] == 'i' && s[4]
        == 'n' && s[5] == 'i' && s[6] == 't' && s[7] == 'y';
    let ninf = s.len() == 9 && s[0] == '-' && s[1] == 'I' && s[2] == 'n' && s[3] == 'f' && s[4]
        == 'i' && s[5] == 'n' && s[6] == 'i' && s[7] == 't' && s[8] == 'y';
    if nan || inf || ninf {
        if nan {
            assert(s@ == seq!['N', 'a', 'N']);
        }
        if inf {
            assert(s@ == seq!['I', 'n', 'f', 'i', 'n', 'i', 't', 'y']);
        }
        if ninf {
            assert(s@ == seq!['-', 'I', 'n', 'f', 'i', 'n', 'i', 't', 'y']);
        }
        return true;
    }
    if s.len() == 0 {
        return false;
    }
    assert(s@ != seq!['N', 'a', 'N']) by {
        if s@ == seq!['N', 'a', 'N'] {
            assert(nan);
        }
    }
    assert(s@ != seq!['I', 'n', 'f', 'i', 'n', 'i', 't', 'y']) by {
        if s@ == seq!['I', 'n', 'f', 'i', 'n', 'i', 't', 'y'] {
            assert(inf);
        }
    }
    assert(s@ != seq!['-', 'I', 'n', 'f', 'i', 'n', 'i', 't', 'y']) by {
        if s@ == seq!['-', 'I', 'n', 'f', 'i', 'n', 'i', 't', 'y'] {
            assert(ninf);
        }
    }
    let mut i: usize = 0;
    while i < s.len()
        invariant
            i <= s.len(),
            s@ != seq!['N', 'a', 'N'],
            s@ != seq!['I', 'n', 'f', 'i', 'n', 'i', 't', 'y'],
            s@ != seq!['-', 'I', 'n', 'f', 'i', 'n', 'i', 't', 'y'],
            forall|j: int| 0 <= j < i ==> is_float_char(s@[j]),
        decreases s.len() - i,
    {
        let c = s[i];
        if !(('0' <= c && c <= '9') || c == '.' || c == '-' || c == '+' || c == 'e' || c == 'E') {
            assert(!is_float_char(s@[i as int]));
            return false;
        }
        i += 1;
    }
    true
}


proof fn lemma_nat_text_digits(n: nat)
    ensures
        all_digits(nat_text(n)),
        digits_value(nat_text(n)) == n,
        nat_text(n)[0] != '-',
    decreases n,
{
    if n >= 10 {
        lemma_nat_text_digits(n / 10);
        let t = nat_text(n);
        let p = nat_text(n / 10);
        assert(t.subrange(0, t.len() - 1) == p);
        assert(t[t.len() - 1] == digit_char(n % 10));
        assert(digit_value(digit_char(n % 10)) == n % 10);
        assert(digits_value(t) == digits_value(p) * 10 + digit_value(t[t.len() - 1]));
        assert((n / 10) * 10 + n % 10 == n) by (nonlinear_arith);
    } else {
        let t = nat_text(n);
        assert(digit_value(digit_char(n)) == n);
        assert(t.subrange(0, 0) =~= Seq::<char>::empty());
        assert(digits_value(t.subrange(0, 0)) == 0);
        assert(digits_value(t) == digits_value(t.subrange(0, 0)) * 10 + digit_value(t[0]));
    }
}

/// The decimal text of an integer reads back as that integer.
pub proof fn lemma_int_text_round_trip(n: int)
    ensures
        int_of_text(int_text(n)) == Some(n),
{
    if n < 0 {
        let m = (-n) as nat;
        lemma_nat_text_digits(m);
        let t = int_text(n);
        assert(t.subrange(1, t.len() as int) == nat_text(m));
        assert(t[0] == '-');
    } else {
        lemma_nat_text_digits(n as nat);
        assert(!(int_text(n)[0] == '-'));
    }
}

} // verus!
