//! Names for the throwaway users that isolated runs execute as.

use vstd::prelude::*;
use crate::isolation::{is_base36, now_nanos};
use crate::text::{chars_of, push_char, push_str, string_of};

verus! {

/// The lower-case hexadecimal digit for `d < 16`.
pub open spec fn hex_char(d: nat) -> char {
    if d < 10 {
        (('0' as u8) + d) as char
    } else {
        (('a' as u8) + d - 10) as char
    }
}

/// The shortest lower-case hexadecimal text of `n`.
pub open spec fn hex_text(n: nat) -> Seq<char>
    decreases n,
{
    if n < 16 {
        seq![hex_char(n)]
    } else {
        hex_text(n / 16).push(hex_char(n % 16))
    }
}

fn push_hex_text(out: &mut String, m: u64)
    ensures
        final(out)@ == old(out)@ + hex_text(m as nat),
    decreases m,
{
    if m >= 16 {
        push_hex_text(out, m / 16);
    }
    let d = (m % 16) as u8;
    let c = if d < 10 {
        (48u8 + d) as char
    } else {
        (97u8 + d - 10) as char
    };
    push_char(out, c);
    assert(old(out)@ + hex_text(m as nat) == if m >= 16 {
        old(out)@ + hex_text((m / 16) as nat) + seq![hex_char((m % 16) as nat)]
    } else {
        old(out)@ + seq![hex_char(m as nat)]
    });
}

/// At most the first `n` characters of `s`.
pub open spec fn take(s: Seq<char>, n: nat) -> Seq<char> {
    if s.len() <= n {
        s
    } else {
        s.subrange(0, n as int)
    }
}

/// A fresh user name: the prefix (`start` by default), a dash, the time in
/// hexadecimal milliseconds and four base-36 characters, cut to 31
/// characters.
pub fn generate_isolated_username(prefix: Option<&str>) -> (r: String)
    ensures
        exists|ms: nat, rnd: Seq<char>|
            rnd.len() == 4 && is_base36(rnd) && r@ == take(
                match prefix {
                    Some(p) => p@,
                    None => "start"@,
                } + "-"@ + hex_text(ms) + rnd,
                31,
            ),
        r@.len() <= 31,
{
    let nanos = now_nanos();
    let mut full = match prefix {
        Some(p) => p.to_owned(),
        None => "start".to_owned(),
    };
    push_str(&mut full, "-");
    push_hex_text(&mut full, nanos / 1000000);
    let ghost head = full@;
    crate::isolation::push_base36_chars(&mut full, nanos / 7, 4);
    let ghost rnd = full@.subrange(head.len() as int, full@.len() as int);
    assert(full@ =~= head + rnd);
    let cs = chars_of(full.as_str());
    if cs.len() <= 31 {
        return full;
    }
    let mut out: Vec<char> = Vec::new();
    let mut i: usize = 0;
    while i < 31
        invariant
            i <= 31 < cs@.len(),
            out@ == cs@.subrange(0, i as int),
        decreases 31 - i,
    {
        out.push(cs[i]);
        assert(cs@.subrange(0, i + 1) == cs@.subrange(0, i as int).push(cs@[i as int]));
        i += 1;
    }
    string_of(&out)
}

} // verus!
