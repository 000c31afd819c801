//! Lossless textual codec for structured values.
//!
//! Every value is written as a tagged node: `(null)`, `(bool true)`,
//! `(int 42)`, `(float 3.14)`, `(str <base64 of UTF-8>)`, `(array e1 e2 ...)`
//! and `(object (k1 v1) (k2 v2) ...)` with each key written as a `str` node.
//!
//! Floats are carried as their decimal text, so they round-trip exactly.
//! `NaN`, `Infinity` and `-Infinity` are kept as those words; any other float
//! text must consist of digits, `.`, `-`, `+`, `e` and `E`.

use vstd::prelude::*;
use vstd::utf8::{decode_utf8, encode_utf8, valid_utf8};
use base64::Engine;
use crate::link::{
    child_text, children_text, escape_single_quotes, escaped, link_text, needs_quoting, opt_chars,
    Link,
};
use crate::text::has_char;
use crate::numbers::{
    check_float_text, int_of_text, int_text, is_float_text, parse_int, push_int_text,
};
use crate::text::{chars_of, push_char, push_str, str_eq};

verus! {

/// A structured value.
pub enum Value {
    Null,
    Bool(bool),
    Int(i64),
    /// A float, by its decimal text.
    Float(String),
    Str(String),
    Array(Vec<Value>),
    /// Entries in insertion order.
    Object(Vec<(String, Value)>),
}

/// Why a text could not be decoded.
#[derive(PartialEq, Eq, Debug, Clone, Copy)]
pub enum DecodeError {
    /// A quoted identifier runs to the end of the input.
    UnterminatedString,
    /// The input ends inside a parenthesised node.
    UnexpectedEnd,
    /// An identifier was expected and none was found.
    ExpectedIdentifier,
    /// The node's tag is none of the known type tags.
    UnknownTypeMarker,
    /// An `int` payload is not a 64-bit decimal integer.
    InvalidInt,
    /// A `float` payload is not float text.
    InvalidFloat,
    /// A `str` payload is not canonical base64.
    InvalidBase64,
    /// A `str` payload does not decode to UTF-8.
    InvalidUtf8,
    /// An `object` entry is not a pair whose first element is a string.
    MalformedEntry,
}

/// The text of the standard, padded base64 encoding of `b`.
pub uninterp spec fn base64_text(b: Seq<u8>) -> Seq<char>;

/// Whether `c` belongs to the standard base64 alphabet or is its padding.
pub open spec fn is_base64_char(c: char) -> bool {
    ('A' <= c && c <= 'Z') || ('a' <= c && c <= 'z') || ('0' <= c && c <= '9') || c == '+' || c
        == '/' || c == '='
}

/// Relies on base64's `STANDARD` engine `encode`, a function of the bytes
/// alone, whose output uses the standard alphabet and `=` padding only, and
/// which no two byte strings share.
#[verifier::external_body]
fn base64_encode(b: &[u8]) -> (r: String)
    ensures
        r@ == base64_text(b@),
        forall|i: int| 0 <= i < r@.len() ==> is_base64_char(#[trigger] r@[i]),
        forall|c: Seq<u8>| #[trigger] base64_text(c) == r@ ==> c == b@,
{
    base64::engine::general_purpose::STANDARD.encode(b)
}

/// Relies on base64's `STANDARD` engine `decode`. Its configuration requires
/// canonical padding and rejects trailing bits, so a success is the one byte
/// string whose encoding is the input, and the encoding of any bytes is
/// accepted and decodes back to them.
#[verifier::external_body]
fn base64_decode(t: &str) -> (r: Option<Vec<u8>>)
    ensures
        r matches Some(x) ==> base64_text(x@) == t@,
        r matches Some(x) ==> forall|b: Seq<u8>| #[trigger] base64_text(b) == t@ ==> x@ == b,
        r is None ==> forall|b: Seq<u8>| #[trigger] base64_text(b) != t@,
{
    base64::engine::general_purpose::STANDARD.decode(t).ok()
}

/// Relies on `String::from_utf8`: it succeeds exactly on valid UTF-8 and then
/// holds the characters that the bytes encode.
#[verifier::external_body]
fn string_from_utf8(b: Vec<u8>) -> (r: Option<String>)
    ensures
        r is Some <==> valid_utf8(b@),
        r matches Some(s) ==> s@ == decode_utf8(b@),
{
    String::from_utf8(b).ok()
}

/// The encoded text of a string.
pub open spec fn str_text(s: Seq<char>) -> Seq<char> {
    seq!['(', 's', 't', 'r', ' '] + base64_text(encode_utf8(s)) + seq![')']
}

/// The encoded text of a value.
pub open spec fn value_text(v: Value) -> Seq<char>
    decreases v, 1int,
{
    match v {
        Value::Null => seq!['(', 'n', 'u', 'l', 'l', ')'],
        Value::Bool(b) => if b {
            seq!['(', 'b', 'o', 'o', 'l', ' ', 't', 'r', 'u', 'e', ')']
        } else {
            seq!['(', 'b', 'o', 'o', 'l', ' ', 'f', 'a', 'l', 's', 'e', ')']
        },
        Value::Int(n) => seq!['(', 'i', 'n', 't', ' '] + int_text(n as int) + seq![')'],
        Value::Float(t) => seq!['(', 'f', 'l', 'o', 'a', 't', ' '] + t@ + seq![')'],
        Value::Str(s) => str_text(s@),
        Value::Array(vs) => seq!['(', 'a', 'r', 'r', 'a', 'y'] + items_text(vs@) + seq![')'],
        Value::Object(ps) => seq!['(', 'o', 'b', 'j', 'e', 'c', 't'] + entries_text(ps@) + seq![
            ')',
        ],
    }
}

/// Each element's text, preceded by a space.
pub open spec fn items_text(vs: Seq<Value>) -> Seq<char>
    decreases vs, 0int,
{
    if vs.len() == 0 {
        Seq::empty()
    } else {
        items_text(vs.subrange(0, vs.len() - 1)) + seq![' '] + value_text(vs[vs.len() - 1])
    }
}

/// Each entry as ` (<key> <value>)`.
pub open spec fn entries_text(ps: Seq<(String, Value)>) -> Seq<char>
    decreases ps, 0int,
{
    if ps.len() == 0 {
        Seq::empty()
    } else {
        let last = ps[ps.len() - 1];
        entries_text(ps.subrange(0, ps.len() - 1)) + seq![' ', '('] + str_text(last.0@) + seq![' ']
            + value_text(last.1) + seq![')']
    }
}

/// Whether every float in `v` holds float text.
pub open spec fn well_formed(v: Value) -> bool
    decreases v,
{
    match v {
        Value::Float(t) => is_float_text(t@),
        Value::Array(vs) => forall|i: int| 0 <= i < vs@.len() ==> well_formed(#[trigger] vs@[i]),
        Value::Object(ps) => forall|i: int|
            0 <= i < ps@.len() ==> well_formed(#[trigger] ps@[i].1),
        _ => true,
    }
}

fn push_str_value(out: &mut String, s: &String)
    ensures
        final(out)@ == old(out)@ + str_text(s@),
        payload_ok(s@),
{
    push_str(out, "(str ");
    let b = base64_encode(s.as_str().as_bytes());
    assert(b@.len() == 0 || plain(b@)) by {
        if b@.len() > 0 {
            assert(is_base64_char(b@[0]));
            assert forall|i: int| 0 <= i < b@.len() implies !ends_token(#[trigger] b@[i]) by {
                assert(is_base64_char(b@[i]));
            }
        }
    }
    push_str(out, b.as_str());
    push_char(out, ')');
    proof {
        reveal_strlit("(str ");
    }
}

fn encode_into(v: &Value, out: &mut String)
    ensures
        final(out)@ == old(out)@ + value_text(*v),
        payloads_plain(*v),
    decreases v,
{
    proof {
        reveal_strlit("(null)");
        reveal_strlit("(bool true)");
        reveal_strlit("(bool false)");
        reveal_strlit("(int ");
        reveal_strlit("(float ");
        reveal_strlit("(array");
        reveal_strlit("(object");
    }
    match v {
        Value::Null => push_str(out, "(null)"),
        Value::Bool(b) => if *b {
            push_str(out, "(bool true)")
        } else {
            push_str(out, "(bool false)")
        },
        Value::Int(n) => {
            push_str(out, "(int ");
            push_int_text(out, *n);
            push_char(out, ')');
        },
        Value::Float(t) => {
            push_str(out, "(float ");
            push_str(out, t.as_str());
            push_char(out, ')');
        },
        Value::Str(s) => push_str_value(out, s),
        Value::Array(vs) => {
            push_str(out, "(array");
            let ghost head = out@;
            let mut i: usize = 0;
            while i < vs.len()
                invariant
                    i <= vs.len(),
                    out@ == head + items_text(vs@.subrange(0, i as int)),
                    *v == Value::Array(*vs),
                    forall|j: int| 0 <= j < i ==> payloads_plain(#[trigger] vs@[j]),
                decreases vs.len() - i,
            {
                push_char(out, ' ');
                proof {
                    vstd::std_specs::vec::axiom_vec_index_decreases(*vs, i as int);
                    assert(decreases_to!(*v => (*v)->Array_0));
                }
                encode_into(&vs[i], out);
                proof {
                    let sub = vs@.subrange(0, i + 1);
                    assert(sub.subrange(0, i as int) == vs@.subrange(0, i as int));
                }
                i += 1;
            }
            assert(vs@.subrange(0, vs.len() as int) == vs@);
            push_char(out, ')');
        },
        Value::Object(ps) => {
            push_str(out, "(object");
            let ghost head = out@;
            let mut i: usize = 0;
            while i < ps.len()
                invariant
                    i <= ps.len(),
                    out@ == head + entries_text(ps@.subrange(0, i as int)),
                    *v == Value::Object(*ps),
                    forall|j: int|
                        0 <= j < i ==> payload_ok((#[trigger] ps@[j]).0@) && payloads_plain(
                            ps@[j].1,
                        ),
                decreases ps.len() - i,
            {
                push_char(out, ' ');
                push_char(out, '(');
                push_str_value(out, &ps[i].0);
                push_char(out, ' ');
                proof {
                    vstd::std_specs::vec::axiom_vec_index_decreases(*ps, i as int);
                    assert(decreases_to!(*v => (*v)->Object_0));
                    assert(decreases_to!(ps[i as int] => ps[i as int].1));
                }
                encode_into(&ps[i].1, out);
                push_char(out, ')');
                proof {
                    let sub = ps@.subrange(0, i + 1);
                    assert(sub.subrange(0, i as int) == ps@.subrange(0, i as int));
                }
                i += 1;
            }
            assert(ps@.subrange(0, ps.len() as int) == ps@);
            push_char(out, ')');
        },
    }
}

/// The text of `v`. Its string payloads read back as single identifiers.
pub fn encode(v: &Value) -> (r: String)
    ensures
        r@ == value_text(*v),
        payloads_plain(*v),
{
    let mut out = String::new();
    encode_into(v, &mut out);
    out
}


/// Whether `c` separates tokens.
pub open spec fn is_space(c: char) -> bool {
    c == ' ' || c == '\t' || c == '\n' || c == '\r' || c == '\x0b' || c == '\x0c'
}

/// Whether `c` ends an unquoted identifier.
pub open spec fn ends_token(c: char) -> bool {
    is_space(c) || c == ':' || c == '(' || c == ')'
}

fn is_space_char(c: char) -> (r: bool)
    ensures
        r == is_space(c),
{
    c == ' ' || c == '\t' || c == '\n' || c == '\r' || c == '\x0b' || c == '\x0c'
}

/// The first position at or after `pos` that holds no whitespace.
fn skip_space(s: &Vec<char>, pos: usize) -> (r: usize)
    requires
        pos <= s@.len(),
    ensures
        pos <= r <= s@.len(),
        forall|j: int| pos <= j < r ==> is_space(s@[j]),
        r < s@.len() ==> !is_space(s@[r as int]),
{
    let mut i = pos;
    while i < s.len() && is_space_char(s[i])
        invariant
            pos <= i <= s@.len(),
            forall|j: int| pos <= j < i ==> is_space(s@[j]),
        decreases s.len() - i,
    {
        i += 1;
    }
    i
}

/// The characters that quoted text `t` stands for, each backslash taking
/// the next character literally, and whether a backslash is left pending.
pub open spec fn unquote(t: Seq<char>) -> (Seq<char>, bool)
    decreases t.len(),
{
    if t.len() == 0 {
        (Seq::empty(), false)
    } else {
        let prev = unquote(t.subrange(0, t.len() - 1));
        let c = t[t.len() - 1];
        if prev.1 {
            (prev.0.push(c), false)
        } else if c == '\\' {
            (prev.0, true)
        } else {
            (prev.0.push(c), false)
        }
    }
}

/// Whether position `m` of `s` closes the quote opened at `pos`: it holds the
/// same quote character, not escaped by a backslash.
pub open spec fn closes_quote(s: Seq<char>, pos: int, m: int) -> bool {
    s[m] == s[pos] && !unquote(s.subrange(pos + 1, m)).1
}

/// A quoted identifier starting at `pos`; a backslash takes the next
/// character literally. It ends at the first quote that closes it, and holds
/// what the characters in between stand for.
fn parse_quoted(s: &Vec<char>, pos: usize) -> (r: Result<(String, usize), DecodeError>)
    requires
        pos < s@.len(),
    ensures
        r matches Ok((_, p)) ==> pos < p <= s@.len() && s@[p - 1] == s@[pos as int],
        r matches Ok((x, p)) ==> pos + 2 <= p && closes_quote(s@, pos as int, p - 1) && x@
            == unquote(s@.subrange(pos + 1, p - 1)).0 && forall|m: int|
            pos < m < p - 1 ==> !closes_quote(s@, pos as int, m),
        r matches Err(e) ==> e == DecodeError::UnterminatedString,
        r is Err ==> forall|m: int| pos < m < s@.len() ==> !closes_quote(s@, pos as int, m),
        (forall|j: int| pos < j < s@.len() ==> s@[j] != s@[pos as int]) ==> r
            == Err::<(String, usize), DecodeError>(DecodeError::UnterminatedString),
{
    let quote = s[pos];
    let n = s.len();
    let mut out = String::new();
    let mut escaped = false;
    let mut i = pos + 1;
    assert(s@.subrange(pos + 1, pos + 1) =~= Seq::<char>::empty());
    while i < s.len()
        invariant
            pos < i <= s@.len(),
            quote == s@[pos as int],
            (out@, escaped) == unquote(s@.subrange(pos + 1, i as int)),
            forall|m: int| pos < m < i ==> !closes_quote(s@, pos as int, m),
        decreases s.len() - i,
    {
        let c = s[i];
        proof {
            let t = s@.subrange(pos + 1, i + 1);
            assert(t.subrange(0, t.len() - 1) == s@.subrange(pos + 1, i as int));
            assert(t[t.len() - 1] == c);
        }
        if !escaped && c == quote {
            return Ok((out, i + 1));
        }
        if escaped {
            push_char(&mut out, c);
            escaped = false;
        } else if c == '\\' {
            escaped = true;
        } else {
            push_char(&mut out, c);
        }
        i += 1;
    }
    Err(DecodeError::UnterminatedString)
}

/// Whether `s` holds `t` at `pos`, followed by a space or `)`.
pub open spec fn followed_at(s: Seq<char>, pos: int, t: Seq<char>) -> bool {
    0 <= pos && pos + t.len() < s.len() && s.subrange(pos, pos + t.len()) == t && (s[pos
        + t.len()] == ' ' || s[pos + t.len()] == ')')
}

/// Whether something other than whitespace comes at or after `pos`.
pub open spec fn has_more_from(s: Seq<char>, pos: int) -> bool {
    exists|k: int| pos <= k < s.len() && !is_space(#[trigger] s[k])
}

/// Whether the text from `pos` on never closes a node: it holds no `)`,
/// `:` or quote, and every `(` in it is followed by something other than
/// whitespace.
pub open spec fn open_text(s: Seq<char>, pos: int) -> bool {
    (forall|j: int|
        pos <= j < s.len() ==> #[trigger] s[j] != ')' && s[j] != ':' && s[j] != '"' && s[j]
            != '\'') && (forall|j: int|
        pos <= j < s.len() && #[trigger] s[j] == '(' ==> has_more_from(s, j + 1))
}

/// Whether, from `pos`, the text reaches a quote at `j` that nothing closes:
/// the quote follows whitespace or `(`, and no `)`, `:` or quote comes
/// before it.
pub open spec fn unclosed_after(s: Seq<char>, pos: int, j: int) -> bool {
    0 <= pos <= j && unclosed_quote_at(s, j) && j > 0 && (is_space(s[j - 1]) || s[j - 1] == '(')
        && forall|m: int|
        pos <= m < j ==> #[trigger] s[m] != ')' && s[m] != ':' && s[m] != '"' && s[m] != '\''
}

/// Whether `s` has a quote at `pos` that nothing after it closes.
pub open spec fn unclosed_quote_at(s: Seq<char>, pos: int) -> bool {
    0 <= pos < s.len() && (s[pos] == '"' || s[pos] == '\'') && forall|j: int|
        pos < j < s.len() ==> s[j] != s[pos]
}

/// Whether `s` holds, at `pos`, the quoted form that `escape_reference`
/// gives the readable leaf `x`.
pub open spec fn leaf_quoted_at(s: Seq<char>, pos: int, x: Seq<char>) -> bool {
    leaf_ok(x) && needs_quoting(x) && 0 <= pos && pos + escaped(x).len() <= s.len() && s.subrange(
        pos,
        pos + escaped(x).len(),
    ) == escaped(x)
}

/// Whether `t` is an identifier that reads back as itself.
pub open spec fn token_ok(t: Seq<char>) -> bool {
    plain(t)
}

/// Whether a value's text can be read back: well-formed, with plain
/// string payloads.
pub open spec fn value_ok(v: Value) -> bool {
    well_formed(v) && payloads_plain(v)
}

pub open spec fn part_ok(p: Part) -> bool {
    match p {
        Part::Token(t) => token_ok(t),
        Part::Tree(v) => value_ok(v),
        Part::Pair(k, v) => value_ok(Value::Str(k)) && value_ok(v),
        Part::Leaf(x) => leaf_ok(x),
        Part::Sub(m) => link_ok(m),
    }
}

pub open spec fn shape_ok(sh: Shape) -> bool {
    sh.parts.len() >= 1 && forall|i: int| 0 <= i < sh.parts.len() ==> part_ok(#[trigger] sh.parts[i])
}

/// An identifier at the first non-blank position from `pos`: quoted, or a
/// run of characters up to whitespace, `:` or a parenthesis.
fn parse_id(s: &Vec<char>, pos: usize) -> (r: Result<(String, usize), DecodeError>)
    requires
        pos <= s@.len(),
    ensures
        r matches Ok((_, p)) ==> pos < p <= s@.len(),
        r matches Err(e) ==> (e == DecodeError::UnterminatedString || e
            == DecodeError::ExpectedIdentifier),
        forall|t: Seq<char>|
            token_ok(t) && #[trigger] followed_at(s@, pos as int, t) ==> (r matches Ok((id, p))
                && id@ == t && p == pos + t.len()),
        unclosed_quote_at(s@, pos as int) ==> r == Err::<(String, usize), DecodeError>(
            DecodeError::UnterminatedString,
        ),
        pos < s@.len() && !ends_token(s@[pos as int]) && s@[pos as int] != '"' && s@[pos as int]
            != '\'' ==> r is Ok,
        r matches Ok((_, p)) ==> (pos < s@.len() && !is_space(s@[pos as int]) && s@[pos as int]
            != '"' && s@[pos as int] != '\'' ==> forall|m: int|
            pos <= m < p ==> !ends_token(#[trigger] s@[m])),
        forall|x: Seq<char>|
            #[trigger] leaf_quoted_at(s@, pos as int, x) ==> (r matches Ok((id, p)) && id@ == x && p
                == pos + escaped(x).len()),
{
    let start = skip_space(s, pos);
    assert forall|x: Seq<char>| #[trigger] leaf_quoted_at(s@, pos as int, x) implies start == pos
        && (s@[pos as int] == '"' || s@[pos as int] == '\'') by {
        lemma_leaf_text(x);
        assert(s@[pos as int] == escaped(x)[0]);
    }
    assert(unclosed_quote_at(s@, pos as int) ==> start == pos);
    assert forall|t: Seq<char>| token_ok(t) && #[trigger] followed_at(s@, pos as int, t) implies start
        == pos && s@[pos as int] != '"' && s@[pos as int] != '\'' by {
        assert(s@[pos as int] == t[0]);
        assert(!ends_token(t[0]));
    }
    if start < s.len() && (s[start] == '"' || s[start] == '\'') {
        let r = parse_quoted(s, start);
        assert forall|x: Seq<char>| #[trigger] leaf_quoted_at(s@, pos as int, x) implies (r matches Ok(
            (id, p),
        ) && id@ == x && p == pos + escaped(x).len()) by {
            lemma_leaf_text(x);
            let e = escaped(x);
            let q = e[0];
            let c = e.subrange(1, e.len() - 1);
            let endq = pos + e.len() - 1;
            assert(s@[endq] == e[e.len() - 1]);
            assert(s@[pos as int] == q);
            assert(s@.subrange(pos + 1, endq) =~= c);
            assert(closes_quote(s@, pos as int, endq));
            if let Ok((y, p)) = r {
                if p - 1 < endq {
                    let m = p - 1;
                    assert(s@.subrange(pos + 1, m) =~= c.subrange(0, m - pos - 1));
                    assert(s@[m] == c[m - pos - 1]);
                    assert(unquote(c.subrange(0, m - pos - 1)).1);
                }
                if p - 1 > endq {
                    assert(!closes_quote(s@, pos as int, endq));
                }
                assert(s@.subrange(pos + 1, p - 1) =~= c);
            }
        }
        return r;
    }
    let mut i = start;
    while i < s.len() && !(is_space_char(s[i]) || s[i] == ':' || s[i] == '(' || s[i] == ')')
        invariant
            start <= i <= s@.len(),
            forall|m: int| start <= m < i ==> !ends_token(#[trigger] s@[m]),
            forall|t: Seq<char>|
                token_ok(t) && #[trigger] followed_at(s@, pos as int, t) ==> start == pos && i
                    <= pos + t.len(),
        decreases s.len() - i,
    {
        assert forall|t: Seq<char>| token_ok(t) && #[trigger] followed_at(s@, pos as int, t) implies i
            + 1 <= pos + t.len() by {
            if i == pos + t.len() {
                assert(ends_token(s@[i as int]));
            }
        }
        i += 1;
    }
    assert forall|t: Seq<char>| token_ok(t) && #[trigger] followed_at(s@, pos as int, t) implies i
        == pos + t.len() by {
        if i < pos + t.len() {
            assert(s@[i as int] == s@.subrange(pos as int, pos + t.len())[i - pos]);
            assert(!ends_token(t[i - pos]));
        }
    }
    if i == start {
        return Err(DecodeError::ExpectedIdentifier);
    }
    let mut id = String::new();
    let mut k = start;
    while k < i
        invariant
            start <= k <= i <= s@.len(),
            id@ == s@.subrange(start as int, k as int),
        decreases i - k,
    {
        push_char(&mut id, s[k]);
        assert(s@.subrange(start as int, k + 1) == s@.subrange(start as int, k as int).push(
            s@[k as int],
        ));
        k += 1;
    }
    Ok((id, i))
}

/// Whether a part is written as a parenthesised node.
pub open spec fn is_node_part(p: Part) -> bool {
    p is Tree || p is Pair || p is Sub
}

/// Whether an identifier can stand as a leaf that reads back: non-empty and
/// without backslashes.
pub open spec fn leaf_ok(x: Seq<char>) -> bool {
    x.len() > 0 && !has_char(x, '\\')
}

/// Whether a link has the form the encoder builds: no identifier, at least
/// one child, every child a readable leaf or such a link.
pub open spec fn link_ok(m: Link) -> bool
    decreases m, 0int,
{
    m.id is None && m.values@.len() >= 1 && forall|i: int|
        0 <= i < m.values@.len() ==> child_ok(#[trigger] m.values@[i])
}

pub open spec fn child_ok(c: Link) -> bool
    decreases c, 1int,
{
    if c.values@.len() == 0 {
        c.id matches Some(x) && leaf_ok(x@)
    } else {
        link_ok(c)
    }
}

/// How a child of a link stands in its parent's text.
pub open spec fn child_part(c: Link) -> Part {
    if c.values@.len() == 0 {
        Part::Leaf(opt_chars(c.id))
    } else {
        Part::Sub(c)
    }
}

/// The shape of a link's text: one part per child.
pub open spec fn link_shape(m: Link) -> Shape {
    Shape { parts: m.values@.map_values(|c: Link| child_part(c)), trailing: false }
}

/// Whether two links agree: equal identifiers and children, at every depth.
pub open spec fn same_link(a: Link, b: Link) -> bool
    decreases a,
{
    opt_chars(a.id) == opt_chars(b.id) && (a.id is None <==> b.id is None) && a.values@.len()
        == b.values@.len() && forall|i: int|
        0 <= i < a.values@.len() ==> same_link(#[trigger] a.values@[i], b.values@[i])
}

/// The shape whose text a part is, for parts that are nodes.
pub open spec fn part_shape(p: Part) -> Shape {
    match p {
        Part::Tree(v) => shape_of(v),
        Part::Pair(k, v) => pair_shape(k, v),
        Part::Sub(m) => link_shape(m),
        _ => Shape { parts: Seq::empty(), trailing: false },
    }
}

/// A child: a parenthesised node, or a leaf identifier.
fn parse_item(s: &Vec<char>, pos: usize) -> (r: Result<(Link, usize), DecodeError>)
    requires
        pos <= s@.len(),
    ensures
        r matches Ok((_, p)) ==> pos < p <= s@.len(),
        r matches Err(e) ==> (e == DecodeError::UnterminatedString || e
            == DecodeError::UnexpectedEnd || e == DecodeError::ExpectedIdentifier),
        forall|pt: Part|
            part_ok(pt) && #[trigger] followed_at(s@, pos as int, part_text(pt)) ==> (r matches Ok(
                (l, p),
            ) && p == pos + part_text(pt).len() && part_tree(l, pt)),
        unclosed_quote_at(s@, pos as int) ==> r == Err::<(Link, usize), DecodeError>(
            DecodeError::UnterminatedString,
        ),
        open_text(s@, pos as int) && has_more_from(s@, pos as int) ==> (r is Ok || r
            == Err::<(Link, usize), DecodeError>(DecodeError::UnexpectedEnd)),
        forall|j: int|
            #[trigger] unclosed_after(s@, pos as int, j) ==> ((r matches Ok((_, p)) && p <= j) || r
                == Err::<(Link, usize), DecodeError>(DecodeError::UnterminatedString)),
        forall|pt: Part|
            is_node_part(pt) && part_ok(pt) && #[trigger] node_at(s@, pos as int, pt) ==> (r matches Ok(
                (l, p),
            ) && p == pos + part_text(pt).len() && part_tree(l, pt)),
    decreases s@.len() - pos, 1int,
{
    let start = skip_space(s, pos);
    assert(unclosed_quote_at(s@, pos as int) ==> start == pos);
    assert forall|j: int| #[trigger] unclosed_after(s@, pos as int, j) implies start <= j && (start
        < j ==> !is_space(s@[start as int]) && s@[start as int] != ')' && s@[start as int] != ':'
        && s@[start as int] != '"' && s@[start as int] != '\'' && unclosed_after(s@, start as int, j))
        && (start == j ==> unclosed_quote_at(s@, start as int)) by {
        if start > j {
            assert(is_space(s@[j]));
        }
    }
    assert(has_more_from(s@, pos as int) ==> start < s@.len()) by {
        if has_more_from(s@, pos as int) && start == s@.len() {
            let k = choose|k: int| pos <= k < s@.len() && !is_space(#[trigger] s@[k]);
            assert(is_space(s@[k]));
        }
    }
    assert(open_text(s@, pos as int) && start < s@.len() ==> open_text(s@, start as int) && has_more_from(
        s@,
        start as int,
    )) by {
        if open_text(s@, pos as int) && start < s@.len() {
            assert(!is_space(s@[start as int]));
        }
    }
    assert forall|pt: Part| part_ok(pt) && #[trigger] followed_at(s@, pos as int, part_text(pt)) implies start
        == pos by {
        lemma_part_shape(pt);
        assert(s@[pos as int] == part_text(pt)[0]);
    }
    assert forall|pt: Part| is_node_part(pt) && part_ok(pt) && #[trigger] node_at(s@, pos as int, pt) implies start
        == pos && s@[pos as int] == '(' && pre_node(s@, pos as int, part_shape(pt)) by {
        lemma_part_shape(pt);
        assert(s@[pos as int] == part_text(pt)[0]);
    }
    if start < s.len() && s[start] == '(' {
        let r = parse_node(s, start);
        assert forall|pt: Part| is_node_part(pt) && part_ok(pt) && #[trigger] node_at(s@, pos as int, pt) implies (
        r matches Ok((l, p)) && p == pos + part_text(pt).len() && part_tree(l, pt)) by {
            lemma_part_shape(pt);
            assert(pre_node(s@, pos as int, part_shape(pt)));
        }
        assert forall|j: int| #[trigger] unclosed_after(s@, pos as int, j) implies r == Err::<
            (Link, usize),
            DecodeError,
        >(DecodeError::UnterminatedString) by {
            assert(unclosed_after(s@, start as int, j));
        }
        assert forall|pt: Part| part_ok(pt) && #[trigger] followed_at(s@, pos as int, part_text(pt)) implies (
        r matches Ok((l, p)) && p == pos + part_text(pt).len() && part_tree(l, pt)) by {
            lemma_part_shape(pt);
            assert(s@[pos as int] == part_text(pt)[0]);
            let sh = part_shape(pt);
            assert(s@.subrange(pos as int, pos + shape_text(sh).len()) == shape_text(sh));
            assert(pre_node(s@, pos as int, sh));
        }
        r
    } else {
        let r = parse_id(s, start);
        let out = match r {
            Ok((id, p)) => Ok((Link { id: Some(id), values: Vec::new() }, p)),
            Err(e) => Err(e),
        };
        assert forall|j: int| #[trigger] unclosed_after(s@, pos as int, j) implies ((out matches Ok(
            (_, p),
        ) && p <= j) || out == Err::<(Link, usize), DecodeError>(DecodeError::UnterminatedString)) by {
            if start < j {
                assert(!ends_token(s@[start as int]));
                if let Ok((_, p)) = r {
                    if p > j {
                        assert(ends_token(s@[j - 1]));
                    }
                }
            }
        }
        assert forall|pt: Part| part_ok(pt) && #[trigger] followed_at(s@, pos as int, part_text(pt)) implies (
        out matches Ok((l, p)) && p == pos + part_text(pt).len() && part_tree(l, pt)) by {
            lemma_part_shape(pt);
            assert(s@[pos as int] == part_text(pt)[0]);
            if let Part::Token(t) = pt {
                assert(followed_at(s@, pos as int, t));
            }
            if let Part::Leaf(x) = pt {
                lemma_leaf_text(x);
                if needs_quoting(x) {
                    assert(leaf_quoted_at(s@, pos as int, x));
                } else {
                    assert(followed_at(s@, pos as int, x));
                    assert(token_ok(x));
                }
            }
        }
        out
    }
}

proof fn lemma_parts_text_concat(a: Seq<Part>, b: Seq<Part>)
    ensures
        parts_text(a + b) == parts_text(a) + parts_text(b),
    decreases b.len(),
{
    if b.len() == 0 {
        assert(a + b =~= a);
    } else {
        let n = b.len() - 1;
        lemma_parts_text_concat(a, b.subrange(0, n));
        assert((a + b).subrange(0, a.len() + n) =~= a + b.subrange(0, n));
        assert((a + b)[a.len() + n] == b[n]);
    }
}

proof fn lemma_parts_text_one(x: Part)
    ensures
        parts_text(seq![x]) == seq![' '] + part_text(x),
{
    assert(seq![x].subrange(0, 0) =~= Seq::<Part>::empty());
    assert(parts_text(Seq::<Part>::empty()) == Seq::<char>::empty());
}

/// Facts about the first character of a part that the parser relies on.
proof fn lemma_part_shape(p: Part)
    requires
        part_ok(p),
    ensures
        part_text(p).len() > 0,
        !is_space(part_text(p)[0]) && part_text(p)[0] != ')' && part_text(p)[0] != ':',
        (part_text(p)[0] == '(') <==> is_node_part(p),
        is_node_part(p) ==> shape_ok(part_shape(p)) && shape_text(part_shape(p)) == part_text(p),
        p is Token ==> part_text(p)[0] != '"' && part_text(p)[0] != '\'',
{
    match p {
        Part::Token(t) => {
            assert(!ends_token(t[0]));
        },
        Part::Leaf(x) => {
            lemma_leaf_text(x);
        },
        Part::Sub(m) => {
            lemma_link_shape(m);
        },
        Part::Tree(v) => {
            lemma_shape_text(v);
            lemma_shape_ok(v);
        },
        Part::Pair(k, v) => {
            lemma_shape_ok(Value::Str(k));
            lemma_shape_ok(v);
            let sh = pair_shape(k, v);
            assert(sh.parts.subrange(1, 2) =~= seq![Part::Tree(v)]);
            lemma_parts_text_one(Part::Tree(v));
            assert(shape_text(sh) =~= part_text(p));
            assert(shape_ok(sh)) by {
                assert(part_ok(sh.parts[0]));
                assert(part_ok(sh.parts[1]));
            }
        },
    }
}

proof fn lemma_plain_tag(t: Seq<char>)
    requires
        t.len() > 0,
        forall|i: int| 0 <= i < t.len() ==> 'a' <= #[trigger] t[i] <= 'z',
    ensures
        plain(t),
{
}

proof fn lemma_int_text_plain(n: int)
    ensures
        plain(int_text(n)),
{
    crate::numbers::lemma_int_text_round_trip(n);
    let t = int_text(n);
    if n < 0 {
        let d = t.subrange(1, t.len() as int);
        assert forall|i: int| 0 <= i < t.len() implies !ends_token(#[trigger] t[i]) by {
            if i > 0 {
                assert(t[i] == d[i - 1]);
            }
        }
    }
}

proof fn lemma_float_text_plain(t: Seq<char>)
    requires
        is_float_text(t),
    ensures
        plain(t),
{
}

/// The shape of a readable value is readable.
proof fn lemma_shape_ok(v: Value)
    requires
        value_ok(v),
    ensures
        shape_ok(shape_of(v)),
        shape_text(shape_of(v)) == value_text(v),
{
    lemma_shape_text(v);
    let sh = shape_of(v);
    lemma_plain_tag(tag_null());
    lemma_plain_tag(tag_bool());
    lemma_plain_tag(tag_int());
    lemma_plain_tag(tag_float());
    lemma_plain_tag(tag_str());
    lemma_plain_tag(tag_array());
    lemma_plain_tag(tag_object());
    lemma_plain_tag(seq!['t', 'r', 'u', 'e']);
    lemma_plain_tag(seq!['f', 'a', 'l', 's', 'e']);
    match v {
        Value::Int(n) => {
            lemma_int_text_plain(n as int);
        },
        Value::Float(t) => {
            lemma_float_text_plain(t@);
        },
        _ => {},
    }
    assert forall|i: int| 0 <= i < sh.parts.len() implies part_ok(#[trigger] sh.parts[i]) by {
        match v {
            Value::Array(vs) => {
                if i > 0 {
                    assert(sh.parts[i] == Part::Tree(vs@[i - 1]));
                }
            },
            Value::Object(ps) => {
                if i > 0 {
                    assert(sh.parts[i] == Part::Pair(ps@[i - 1].0, ps@[i - 1].1));
                }
            },
            _ => {},
        }
    }
}

/// What follows the first `k` parts of a shape's text.
pub open spec fn shape_rest(sh: Shape, k: int) -> Seq<char> {
    parts_text(sh.parts.subrange(k, sh.parts.len() as int)) + (if sh.trailing {
        seq![' ']
    } else {
        Seq::empty()
    }) + seq![')']
}

/// The start of a shape's text, up to the end of its first `k` parts.
pub open spec fn shape_head(sh: Shape, k: int) -> Seq<char> {
    seq!['('] + part_text(sh.parts[0]) + parts_text(sh.parts.subrange(1, k))
}

proof fn lemma_shape_split(sh: Shape, k: int)
    requires
        1 <= k <= sh.parts.len(),
    ensures
        shape_text(sh) == shape_head(sh, k) + shape_rest(sh, k),
        shape_rest(sh, k).len() > 0,
        shape_rest(sh, k)[0] == ' ' || shape_rest(sh, k)[0] == ')',
        k < sh.parts.len() ==> shape_rest(sh, k) == seq![' '] + part_text(sh.parts[k])
            + shape_rest(sh, k + 1),
        k < sh.parts.len() ==> shape_head(sh, k + 1) == shape_head(sh, k) + seq![' ']
            + part_text(sh.parts[k]),
        k == sh.parts.len() ==> shape_rest(sh, k) == (if sh.trailing {
            seq![' ', ')']
        } else {
            seq![')']
        }),
{
    let m = sh.parts.len() as int;
    let a = sh.parts.subrange(1, k);
    let b = sh.parts.subrange(k, m);
    lemma_parts_text_concat(a, b);
    assert(a + b =~= sh.parts.subrange(1, m));
    if k < m {
        let c = sh.parts.subrange(k + 1, m);
        lemma_parts_text_concat(seq![sh.parts[k]], c);
        assert(seq![sh.parts[k]] + c =~= b);
        lemma_parts_text_one(sh.parts[k]);
        lemma_parts_text_concat(a, seq![sh.parts[k]]);
        assert(a + seq![sh.parts[k]] =~= sh.parts.subrange(1, k + 1));
        assert(shape_rest(sh, k) =~= seq![' '] + part_text(sh.parts[k]) + shape_rest(sh, k + 1));
    } else {
        assert(b =~= Seq::<Part>::empty());
        assert(parts_text(b) == Seq::<char>::empty());
        assert(shape_rest(sh, k) =~= (if sh.trailing {
            seq![' ', ')']
        } else {
            seq![')']
        }));
    }
    assert(shape_text(sh) =~= shape_head(sh, k) + shape_rest(sh, k));
}

/// Whether `s` holds the text of the readable shape `sh` at `pos`.
pub open spec fn pre_node(s: Seq<char>, pos: int, sh: Shape) -> bool {
    shape_ok(sh) && 0 <= pos && pos + shape_text(sh).len() <= s.len() && s.subrange(
        pos,
        pos + shape_text(sh).len(),
    ) == shape_text(sh)
}

/// What holds, for a shape at `pos`, once its first `values.len()` parts
/// are read and the scan stands at `i`.
pub open spec fn node_progress(
    s: Seq<char>,
    pos: int,
    sh: Shape,
    i: int,
    id: Option<String>,
    values: Seq<Link>,
) -> bool {
    let k = values.len() as int;
    let q = pos + shape_head(sh, k).len();
    &&& id is None
    &&& 1 <= k <= sh.parts.len()
    &&& (i == q || (i == q + 1 && s[q] == ' '))
    &&& forall|j: int| 0 <= j < k ==> part_tree(#[trigger] values[j], sh.parts[j])
}

/// Where the scan stands after the first `k` parts, and what comes next.
proof fn lemma_after_parts(s: Seq<char>, pos: int, sh: Shape, k: int)
    requires
        pre_node(s, pos, sh),
        1 <= k <= sh.parts.len(),
    ensures
        ({
            let q = pos + shape_head(sh, k).len();
            &&& q < pos + shape_text(sh).len()
            &&& s.subrange(q, pos + shape_text(sh).len()) == shape_rest(sh, k)
            &&& (s[q] == ' ' || s[q] == ')')
            &&& (k < sh.parts.len() ==> s[q] == ' ' && s[q + 1] == part_text(sh.parts[k])[0]
                && !is_space(s[q + 1]) && s[q + 1] != ')' && followed_at(
                s,
                q + 1,
                part_text(sh.parts[k]),
            ) && pos + shape_head(sh, k + 1).len() == q + 1 + part_text(sh.parts[k]).len())
            &&& (k == sh.parts.len() && s[q] == ' ' ==> s[q + 1] == ')' && q + 2 == pos
                + shape_text(sh).len())
            &&& (k == sh.parts.len() && s[q] == ')' ==> q + 1 == pos + shape_text(sh).len())
        }),
{
    let n = shape_text(sh).len() as int;
    lemma_shape_split(sh, k);
    let h = shape_head(sh, k);
    let rest = shape_rest(sh, k);
    let q = pos + h.len();
    assert(shape_text(sh) =~= h + rest);
    assert(s.subrange(q, pos + n) =~= rest) by {
        assert forall|j: int| 0 <= j < rest.len() implies s.subrange(q, pos + n)[j] == rest[j] by {
            assert(s[q + j] == s.subrange(pos, pos + n)[h.len() + j]);
        }
    }
    assert(s[q] == rest[0]);
    if k < sh.parts.len() {
        lemma_part_shape(sh.parts[k]);
        assert(part_ok(sh.parts[k]));
        lemma_shape_split(sh, k + 1);
        let tk = part_text(sh.parts[k]);
        let rest2 = shape_rest(sh, k + 1);
        assert(rest =~= seq![' '] + tk + rest2);
        assert(s[q + 1] == rest[1]);
        assert(s.subrange(q + 1, q + 1 + tk.len()) =~= tk) by {
            assert forall|j: int| 0 <= j < tk.len() implies s.subrange(q + 1, q + 1 + tk.len())[j]
                == tk[j] by {
                assert(s[q + 1 + j] == s.subrange(q, pos + n)[1 + j]);
            }
        }
        assert(s[q + 1 + tk.len()] == s.subrange(q, pos + n)[1 + tk.len() as int]);
        assert(rest[1 + tk.len() as int] == rest2[0]);
    } else if s[q] == ' ' {
        assert(s[q + 1] == rest[1]);
    }
}

/// Whether `s` ends, at `pos`, with the text of the readable shape `sh`
/// lacking only its final `)`; the shape has at least two parts, the last a
/// node, and no space before its `)`.
pub open spec fn open_node_at(s: Seq<char>, pos: int, sh: Shape) -> bool {
    shape_ok(sh) && !sh.trailing && sh.parts.len() >= 2 && is_node_part(
        sh.parts[sh.parts.len() - 1],
    ) && 0 <= pos && pos + shape_text(sh).len() - 1 == s.len() && s.subrange(pos, s.len() as int)
        == shape_text(sh).subrange(0, shape_text(sh).len() - 1)
}

/// Whether `s` holds a part's node text at `pos`.
pub open spec fn node_at(s: Seq<char>, pos: int, pt: Part) -> bool {
    0 <= pos && pos + part_text(pt).len() <= s.len() && s.subrange(pos, pos + part_text(pt).len())
        == part_text(pt)
}

/// Where the scan stands after the first `k` parts of a shape whose text
/// lacks its final `)`.
proof fn lemma_after_parts_open(s: Seq<char>, pos: int, sh: Shape, k: int)
    requires
        open_node_at(s, pos, sh),
        1 <= k <= sh.parts.len(),
    ensures
        ({
            let m = sh.parts.len() as int;
            let q = pos + shape_head(sh, k).len();
            &&& (k == m ==> q == s.len())
            &&& (k < m ==> q + 1 < s.len() && s[q] == ' ' && s[q + 1] == part_text(sh.parts[k])[0]
                && !is_space(s[q + 1]) && s[q + 1] != ')' && s[q + 1] != ':' && pos + shape_head(
                sh,
                k + 1,
            ).len() == q + 1 + part_text(sh.parts[k]).len() && part_ok(sh.parts[k]))
            &&& (k + 1 < m ==> followed_at(s, q + 1, part_text(sh.parts[k])))
            &&& (k + 1 == m ==> node_at(s, q + 1, sh.parts[k]) && is_node_part(sh.parts[k]))
            &&& (k == 1 ==> s[pos] == '(' && s.subrange(pos + 1, pos + 1 + part_text(sh.parts[0]).len())
                == part_text(sh.parts[0]) && q == pos + 1 + part_text(sh.parts[0]).len() && part_ok(
                sh.parts[0],
            ) && !is_space(s[pos + 1]) && s[pos + 1] != ')' && followed_at(
                s,
                pos + 1,
                part_text(sh.parts[0]),
            ))
        }),
{
    let m = sh.parts.len() as int;
    let t = shape_text(sh);
    let n = t.len() as int;
    lemma_shape_split(sh, k);
    let h = shape_head(sh, k);
    let rest = shape_rest(sh, k);
    let q = pos + h.len();
    assert(t =~= h + rest);
    assert forall|j: int| pos <= j < s.len() implies s[j] == t[j - pos] by {
        assert(s.subrange(pos, s.len() as int)[j - pos] == t.subrange(0, n - 1)[j - pos]);
    }
    if k == 1 {
        let t0 = part_text(sh.parts[0]);
        lemma_part_shape(sh.parts[0]);
        assert(part_ok(sh.parts[0]));
        assert(sh.parts.subrange(1, 1) =~= Seq::<Part>::empty());
        assert(parts_text(sh.parts.subrange(1, 1)) == Seq::<char>::empty());
        assert(h =~= seq!['('] + t0);
        assert(s[pos] == t[0]);
        assert(s[pos + 1] == t[1]);
        assert(s.subrange(pos + 1, pos + 1 + t0.len()) =~= t0) by {
            assert forall|j: int| 0 <= j < t0.len() implies s.subrange(pos + 1, pos + 1 + t0.len())[j]
                == t0[j] by {
                assert(s[pos + 1 + j] == t[1 + j]);
            }
        }
    }
    if k < m {
        lemma_part_shape(sh.parts[k]);
        assert(part_ok(sh.parts[k]));
        lemma_shape_split(sh, k + 1);
        let tk = part_text(sh.parts[k]);
        let rest2 = shape_rest(sh, k + 1);
        assert(rest =~= seq![' '] + tk + rest2);
        assert(s[q] == t[h.len() as int]);
        assert(s[q + 1] == t[h.len() + 1int]);
        assert(s.subrange(q + 1, q + 1 + tk.len()) =~= tk) by {
            assert forall|j: int| 0 <= j < tk.len() implies s.subrange(q + 1, q + 1 + tk.len())[j]
                == tk[j] by {
                assert(s[q + 1 + j] == t[h.len() + 1 + j]);
            }
        }
        if k + 1 < m {
            lemma_part_shape(sh.parts[k + 1]);
            assert(part_ok(sh.parts[k + 1]));
            lemma_shape_split(sh, k + 2);
            assert(rest2 =~= seq![' '] + part_text(sh.parts[k + 1]) + shape_rest(sh, k + 2));
            assert(s[q + 1 + tk.len()] == t[(h.len() + 1 + tk.len()) as int]);
        } else {
            assert(rest2 =~= seq![')']) by {
                lemma_shape_split(sh, k + 1);
            }
        }
    } else {
        assert(rest =~= seq![')']);
    }
}

/// A node at the first non-blank position from `pos`. Inside parentheses a
/// first element followed by `:` is the node's identifier; otherwise it is
/// the first child.
#[verifier::rlimit(80)]
fn parse_node(s: &Vec<char>, pos: usize) -> (r: Result<(Link, usize), DecodeError>)
    requires
        pos <= s@.len(),
    ensures
        r matches Ok((_, p)) ==> pos < p <= s@.len(),
        r matches Err(e) ==> (e == DecodeError::UnterminatedString || e
            == DecodeError::UnexpectedEnd || e == DecodeError::ExpectedIdentifier),
        forall|sh: Shape|
            #[trigger] pre_node(s@, pos as int, sh) ==> (r matches Ok((l, p)) && p == pos
                + shape_text(sh).len() && tree_of(l, sh)),
        pos < s@.len() && s@[pos as int] == '(' && open_text(s@, pos as int) ==> r
            == Err::<(Link, usize), DecodeError>(DecodeError::UnexpectedEnd),
        pos < s@.len() && s@[pos as int] == '(' && (exists|j: int|
            #[trigger] unclosed_after(s@, pos as int, j)) ==> r == Err::<(Link, usize), DecodeError>(
            DecodeError::UnterminatedString,
        ),
        (exists|sh: Shape| #[trigger] open_node_at(s@, pos as int, sh)) ==> r == Err::<
            (Link, usize),
            DecodeError,
        >(DecodeError::UnexpectedEnd),
    decreases s@.len() - pos, 0int,
{
    let ghost ue: bool = exists|sh: Shape| #[trigger] open_node_at(s@, pos as int, sh);
    let ghost ush: Shape = if ue {
        choose|sh: Shape| #[trigger] open_node_at(s@, pos as int, sh)
    } else {
        Shape { parts: Seq::empty(), trailing: false }
    };
    proof {
        if ue {
            lemma_after_parts_open(s@, pos as int, ush, 1);
        }
    }
    let ghost oe: bool = pos < s@.len() && s@[pos as int] == '(' && open_text(s@, pos as int);
    let ghost uq: bool = pos < s@.len() && s@[pos as int] == '(' && (exists|j: int|
        #[trigger] unclosed_after(s@, pos as int, j));
    let ghost uj: int = if uq {
        choose|j: int| #[trigger] unclosed_after(s@, pos as int, j)
    } else {
        0
    };
    let start = skip_space(s, pos);
    assert forall|sh: Shape| #[trigger] pre_node(s@, pos as int, sh) implies start == pos && s@[pos as int]
        == '(' && s@[pos + 1] == part_text(sh.parts[0])[0] && !is_space(s@[pos + 1]) && s@[pos
        + 1] != ')' by {
        assert(s@[pos as int] == shape_text(sh)[0]);
        lemma_part_shape(sh.parts[0]);
        assert(part_ok(sh.parts[0]));
        assert(s@[pos + 1] == shape_text(sh)[1]);
    }
    if start >= s.len() || s[start] != '(' {
        return match parse_id(s, start) {
            Ok((id, p)) => Ok((Link { id: Some(id), values: Vec::new() }, p)),
            Err(e) => Err(e),
        };
    }
    let mut i = skip_space(s, start + 1);
    proof {
        if oe {
            assert(has_more_from(s@, pos + 1));
            if i == s@.len() {
                let k = choose|k: int| pos + 1 <= k < s@.len() && !is_space(#[trigger] s@[k]);
                assert(is_space(s@[k]));
            }
            assert(s@[i as int] != ')');
            assert(!is_space(s@[i as int]));
            assert(has_more_from(s@, i as int));
        }
        if uq {
            assert(unclosed_after(s@, pos as int, uj));
            assert(uj > pos);
            if i > uj {
                assert(is_space(s@[uj]));
            }
            assert(unclosed_after(s@, i as int, uj));
        }
        if ue {
            lemma_after_parts_open(s@, pos as int, ush, 1);
            assert(i == pos + 1);
        }
    }
    if i < s.len() && s[i] == ')' {
        return Ok((Link { id: None, values: Vec::new() }, i + 1));
    }
    assert forall|sh: Shape| #[trigger] pre_node(s@, pos as int, sh) implies i == pos + 1 && followed_at(
        s@,
        pos + 1,
        part_text(sh.parts[0]),
    ) && part_ok(sh.parts[0]) by {
        lemma_shape_split(sh, 1);
        let t0 = part_text(sh.parts[0]);
        assert(sh.parts.subrange(1, 1) =~= Seq::<Part>::empty());
        assert(parts_text(sh.parts.subrange(1, 1)) == Seq::<char>::empty());
        assert(shape_head(sh, 1) =~= seq!['('] + t0);
        lemma_after_parts(s@, pos as int, sh, 1);
        let n = shape_text(sh).len() as int;
        assert(s@.subrange(i as int, i + t0.len()) =~= t0) by {
            assert forall|j: int| 0 <= j < t0.len() implies s@.subrange(i as int, i + t0.len())[j]
                == t0[j] by {
                assert(s@[i + j] == s@.subrange(pos as int, pos + n)[1 + j]);
                assert(shape_text(sh)[1 + j] == t0[j]);
            }
        }
        assert(part_ok(sh.parts[0]));
    }
    let (first, p) = match parse_item(s, i) {
        Ok(x) => x,
        Err(e) => return Err(e),
    };
    assert forall|sh: Shape| #[trigger] pre_node(s@, pos as int, sh) implies p == pos + shape_head(
        sh,
        1,
    ).len() && part_tree(first, sh.parts[0]) by {
        assert(sh.parts.subrange(1, 1) =~= Seq::<Part>::empty());
        assert(parts_text(sh.parts.subrange(1, 1)) == Seq::<char>::empty());
        assert(followed_at(s@, pos + 1, part_text(sh.parts[0])));
        lemma_after_parts(s@, pos as int, sh, 1);
    }
    assert(uq ==> p <= uj);
    proof {
        if ue {
            lemma_after_parts_open(s@, pos as int, ush, 1);
            assert(p == pos + shape_head(ush, 1).len());
            assert(part_tree(first, ush.parts[0]));
        }
    }
    i = skip_space(s, p);
    let mut values: Vec<Link> = Vec::new();
    let mut id: Option<String> = None;
    assert(oe && i < s@.len() ==> s@[i as int] != ':');
    proof {
        if uq {
            if i > uj {
                assert(is_space(s@[uj]));
            }
            assert(s@[i as int] != ':');
        }
        if ue {
            lemma_after_parts_open(s@, pos as int, ush, 1);
            assert(i == p + 1);
            assert(s@[i as int] != ':');
        }
    }
    if i < s.len() && s[i] == ':' {
        assert forall|sh: Shape| #[trigger] pre_node(s@, pos as int, sh) implies false by {
            lemma_after_parts(s@, pos as int, sh, 1);
            if s@[p as int] == ' ' && 1 < sh.parts.len() {
                lemma_part_shape(sh.parts[1]);
                assert(part_ok(sh.parts[1]));
            }
        }
        id = first.id;
        i += 1;
    } else {
        values.push(first);
    }
    assert forall|sh: Shape| #[trigger] pre_node(s@, pos as int, sh) implies node_progress(
        s@,
        pos as int,
        sh,
        i as int,
        id,
        values@,
    ) by {
        lemma_after_parts(s@, pos as int, sh, 1);
        assert(values@[0] == first);
    }
    proof {
        if ue {
            lemma_after_parts_open(s@, pos as int, ush, 1);
            assert(values@[0] == first);
            assert(node_progress(s@, pos as int, ush, i as int, id, values@));
        }
    }
    loop
        invariant
            pos <= start < i <= s@.len(),
            oe == (pos < s@.len() && s@[pos as int] == '(' && open_text(s@, pos as int)),
            uq == (pos < s@.len() && s@[pos as int] == '(' && (exists|j: int|
                #[trigger] unclosed_after(s@, pos as int, j))),
            uq ==> unclosed_after(s@, pos as int, uj) && i <= uj,
            ue == (exists|sh: Shape| #[trigger] open_node_at(s@, pos as int, sh)),
            ue ==> open_node_at(s@, pos as int, ush) && node_progress(
                s@,
                pos as int,
                ush,
                i as int,
                id,
                values@,
            ),
            forall|sh: Shape| #[trigger]
                pre_node(s@, pos as int, sh) ==> node_progress(
                    s@,
                    pos as int,
                    sh,
                    i as int,
                    id,
                    values@,
                ),
        decreases s@.len() - i,
    {
        let i0 = i;
        i = skip_space(s, i);
        assert forall|sh: Shape| #[trigger] pre_node(s@, pos as int, sh) implies {
            let k = values@.len() as int;
            let q = pos + shape_head(sh, k).len();
            &&& i < s@.len()
            &&& (s@[i as int] == ')' <==> k == sh.parts.len())
            &&& (k == sh.parts.len() ==> i + 1 == pos + shape_text(sh).len())
            &&& (k < sh.parts.len() ==> i == q + 1)
        } by {
            let k = values@.len() as int;
            lemma_after_parts(s@, pos as int, sh, k);
        }
        proof {
            if uq {
                if i > uj {
                    assert(is_space(s@[uj]));
                }
                assert(unclosed_after(s@, i as int, uj));
            }
            if ue {
                let k = values@.len() as int;
                lemma_after_parts_open(s@, pos as int, ush, k);
                if k < ush.parts.len() {
                    assert(i == pos + shape_head(ush, k).len() + 1);
                } else {
                    assert(i == s@.len());
                }
            }
        }
        if i >= s.len() {
            return Err(DecodeError::UnexpectedEnd);
        }
        assert(oe ==> s@[i as int] != ')');
        if s[i] == ')' {
            return Ok((Link { id, values }, i + 1));
        }
        assert(oe ==> open_text(s@, i as int) && has_more_from(s@, i as int)) by {
            if oe {
                assert(!is_space(s@[i as int]));
            }
        }
        let r = parse_item(s, i);
        assert forall|sh: Shape| #[trigger] pre_node(s@, pos as int, sh) implies {
            let k = values@.len() as int;
            &&& k < sh.parts.len()
            &&& r matches Ok((l, p)) && p == pos + shape_head(sh, k + 1).len() && part_tree(
                l,
                sh.parts[k],
            )
        } by {
            let k = values@.len() as int;
            lemma_after_parts(s@, pos as int, sh, k);
            assert(followed_at(s@, i as int, part_text(sh.parts[k])));
            lemma_part_shape(sh.parts[k]);
            assert(part_ok(sh.parts[k]));
        }
        proof {
            if ue {
                let k = values@.len() as int;
                lemma_after_parts_open(s@, pos as int, ush, k);
                assert(k < ush.parts.len());
                if k + 1 < ush.parts.len() {
                    assert(followed_at(s@, i as int, part_text(ush.parts[k])));
                } else {
                    assert(node_at(s@, i as int, ush.parts[k]));
                }
                assert(r matches Ok((l, p)) && p == pos + shape_head(ush, k + 1).len() && part_tree(
                    l,
                    ush.parts[k],
                ));
            }
        }
        match r {
            Ok((l, p)) => {
                let ghost before = values@;
                values.push(l);
                i = p;
                assert forall|sh: Shape| #[trigger] pre_node(s@, pos as int, sh) implies node_progress(
                    s@,
                    pos as int,
                    sh,
                    i as int,
                    id,
                    values@,
                ) by {
                    let k = before.len() as int;
                    assert(node_progress(s@, pos as int, sh, i0 as int, id, before));
                    assert forall|j: int| 0 <= j < k + 1 implies part_tree(
                        #[trigger] values@[j],
                        sh.parts[j],
                    ) by {
                        if j < k {
                            assert(values@[j] == before[j]);
                        }
                    }
                }
                proof {
                    if ue {
                        let k = before.len() as int;
                        assert(node_progress(s@, pos as int, ush, i0 as int, id, before));
                        assert forall|j: int| 0 <= j < k + 1 implies part_tree(
                            #[trigger] values@[j],
                            ush.parts[j],
                        ) by {
                            if j < k {
                                assert(values@[j] == before[j]);
                            }
                        }
                        assert(node_progress(s@, pos as int, ush, i as int, id, values@));
                    }
                }
            },
            Err(e) => return Err(e),
        }
    }
}

/// The notation tree written in `text`; blank text is the empty node.
pub fn parse(text: &str) -> (r: Result<Link, DecodeError>)
    ensures
        (exists|sh: Shape| #[trigger] open_node_at(text@, 0, sh)) ==> r == Err::<
            Link,
            DecodeError,
        >(DecodeError::UnexpectedEnd),
        text@.len() > 0 && text@[0] == '(' && (exists|j: int|
            #[trigger] unclosed_after(text@, 0, j)) ==> r == Err::<Link, DecodeError>(
            DecodeError::UnterminatedString,
        ),
        text@.len() > 0 && text@[0] == '(' && open_text(text@, 0) ==> r == Err::<Link, DecodeError>(
            DecodeError::UnexpectedEnd,
        ),
        r matches Err(e) ==> (e == DecodeError::UnterminatedString || e
            == DecodeError::UnexpectedEnd || e == DecodeError::ExpectedIdentifier),
        (forall|i: int| 0 <= i < text@.len() ==> is_space(#[trigger] text@[i])) ==> (r matches Ok(
            l,
        ) && l.id is None && l.values@.len() == 0),
        forall|w: Value|
            value_ok(w) && #[trigger] value_text(w) == text@ ==> (r matches Ok(l) && tree_of(
                l,
                shape_of(w),
            )),
        forall|sh: Shape|
            shape_ok(sh) && #[trigger] shape_text(sh) == text@ ==> (r matches Ok(l) && tree_of(
                l,
                sh,
            )),
        forall|m: Link|
            link_ok(m) && #[trigger] link_text(m) == text@ ==> (r matches Ok(l) && same_link(l, m)),
{
    let r = parse_text(text);
    assert forall|m: Link| link_ok(m) && #[trigger] link_text(m) == text@ implies (r matches Ok(l)
        && same_link(l, m)) by {
        lemma_link_shape(m);
        assert(shape_text(link_shape(m)) == text@);
        if let Ok(l) = r {
            lemma_tree_link(l, m);
        }
    }
    r
}

fn parse_text(text: &str) -> (r: Result<Link, DecodeError>)
    ensures
        (exists|sh: Shape| #[trigger] open_node_at(text@, 0, sh)) ==> r == Err::<
            Link,
            DecodeError,
        >(DecodeError::UnexpectedEnd),
        text@.len() > 0 && text@[0] == '(' && (exists|j: int|
            #[trigger] unclosed_after(text@, 0, j)) ==> r == Err::<Link, DecodeError>(
            DecodeError::UnterminatedString,
        ),
        text@.len() > 0 && text@[0] == '(' && open_text(text@, 0) ==> r == Err::<Link, DecodeError>(
            DecodeError::UnexpectedEnd,
        ),
        r matches Err(e) ==> (e == DecodeError::UnterminatedString || e
            == DecodeError::UnexpectedEnd || e == DecodeError::ExpectedIdentifier),
        (forall|i: int| 0 <= i < text@.len() ==> is_space(#[trigger] text@[i])) ==> (r matches Ok(
            l,
        ) && l.id is None && l.values@.len() == 0),
        forall|w: Value|
            value_ok(w) && #[trigger] value_text(w) == text@ ==> (r matches Ok(l) && tree_of(
                l,
                shape_of(w),
            )),
        forall|sh: Shape|
            shape_ok(sh) && #[trigger] shape_text(sh) == text@ ==> (r matches Ok(l) && tree_of(
                l,
                sh,
            )),
{
    let s = chars_of(text);
    assert forall|sh: Shape| shape_ok(sh) && #[trigger] shape_text(sh) == text@ implies pre_node(
        s@,
        0,
        sh,
    ) && s@[0] == '(' by {
        assert(s@.subrange(0, s@.len() as int) == s@);
    }
    let start = skip_space(&s, 0);
    assert forall|w: Value| value_ok(w) && #[trigger] value_text(w) == text@ implies start == 0
        && pre_node(s@, 0, shape_of(w)) by {
        lemma_shape_ok(w);
        assert(s@.subrange(0, s@.len() as int) == s@);
        assert(s@[0] == '(');
    }
    proof {
        if exists|sh: Shape| #[trigger] open_node_at(text@, 0, sh) {
            let sh = choose|sh: Shape| #[trigger] open_node_at(text@, 0, sh);
            lemma_after_parts_open(s@, 0, sh, 1);
        }
    }
    assert(text@.len() > 0 && text@[0] == '(' ==> start == 0);
    if start == s.len() {
        return Ok(Link::empty());
    }
    assert(!is_space(text@[start as int]));
    match parse_node(&s, start) {
        Ok((l, _)) => Ok(l),
        Err(e) => Err(e),
    }
}

pub open spec fn tag_null() -> Seq<char> {
    seq!['n', 'u', 'l', 'l']
}

pub open spec fn tag_bool() -> Seq<char> {
    seq!['b', 'o', 'o', 'l']
}

pub open spec fn tag_int() -> Seq<char> {
    seq!['i', 'n', 't']
}

pub open spec fn tag_float() -> Seq<char> {
    seq!['f', 'l', 'o', 'a', 't']
}

pub open spec fn tag_str() -> Seq<char> {
    seq!['s', 't', 'r']
}

pub open spec fn tag_array() -> Seq<char> {
    seq!['a', 'r', 'r', 'a', 'y']
}

pub open spec fn tag_object() -> Seq<char> {
    seq!['o', 'b', 'j', 'e', 'c', 't']
}

/// The type tag of a node with children: its first child's identifier.
pub open spec fn tag_of(l: Link) -> Seq<char> {
    opt_chars(l.values@[0].id)
}

/// The payload of a node with children: its second child's identifier.
pub open spec fn payload(l: Link) -> Option<String> {
    if l.values@.len() > 1 {
        l.values@[1].id
    } else {
        None
    }
}

/// Whether `p` is the base64 text of some UTF-8 bytes.
pub open spec fn str_payload_ok(p: Seq<char>) -> bool {
    exists|b: Seq<u8>| #[trigger] base64_text(b) == p && valid_utf8(b)
}

/// Whether a node can stand as an object key: a leaf with an identifier,
/// or a decodable `str` node.
pub open spec fn key_ok(k: Link) -> bool
    decreases k, 1int,
{
    if k.values@.len() == 0 {
        k.id is Some
    } else {
        tag_of(k) == tag_str() && decodable(k)
    }
}

/// Whether an object entry is a pair with a string key and a decodable value.
pub open spec fn entry_ok(e: Link) -> bool
    decreases e, 2int,
{
    e.values@.len() >= 2 && key_ok(e.values@[0]) && decodable(e.values@[1])
}

/// Whether decoding a node succeeds.
pub open spec fn decodable(l: Link) -> bool
    decreases l, 0int,
{
    if l.values@.len() == 0 {
        true
    } else {
        let t = tag_of(l);
        if t == tag_null() || t == tag_bool() {
            true
        } else if t == tag_int() {
            payload(l) matches Some(p) ==> (int_of_text(p@) matches Some(n) && i64::MIN <= n
                <= i64::MAX)
        } else if t == tag_float() {
            payload(l) matches Some(p) ==> is_float_text(p@)
        } else if t == tag_str() {
            str_payload_ok(opt_chars(payload(l)))
        } else if t == tag_array() {
            forall|i: int| 1 <= i < l.values@.len() ==> decodable(#[trigger] l.values@[i])
        } else if t == tag_object() {
            forall|i: int| 1 <= i < l.values@.len() ==> entry_ok(#[trigger] l.values@[i])
        } else {
            false
        }
    }
}

/// Whether `v` is what an object entry decodes to, as key and value.
pub open spec fn entry_decodes_as(e: Link, k: String, v: Value) -> bool
    decreases e, 2int,
{
    e.values@.len() >= 2 && decodes_as(e.values@[0], Value::Str(k)) && decodes_as(
        e.values@[1],
        v,
    )
}

/// Whether `v` is the value that the node decodes to.
pub open spec fn decodes_as(l: Link, v: Value) -> bool
    decreases l, 0int,
{
    if l.values@.len() == 0 {
        match l.id {
            Some(x) => v matches Value::Str(s) && s@ == x@,
            None => v is Null,
        }
    } else {
        let t = tag_of(l);
        if t == tag_null() {
            v is Null
        } else if t == tag_bool() {
            v matches Value::Bool(b) && b == (payload(l) matches Some(p) && p@ == seq![
                't',
                'r',
                'u',
                'e',
            ])
        } else if t == tag_int() {
            v matches Value::Int(n) && match payload(l) {
                Some(p) => int_of_text(p@) == Some(n as int),
                None => n == 0,
            }
        } else if t == tag_float() {
            v matches Value::Float(x) && match payload(l) {
                Some(p) => x@ == p@,
                None => x@ == seq!['0'],
            }
        } else if t == tag_str() {
            v matches Value::Str(x) && base64_text(encode_utf8(x@)) == opt_chars(payload(l))
        } else if t == tag_array() {
            v matches Value::Array(vs) && vs@.len() == l.values@.len() - 1 && forall|i: int|
                0 <= i < vs@.len() ==> decodes_as(#[trigger] l.values@[i + 1], vs@[i])
        } else if t == tag_object() {
            v matches Value::Object(ps) && ps@.len() == l.values@.len() - 1 && forall|i: int|
                0 <= i < ps@.len() ==> entry_decodes_as(
                    #[trigger] l.values@[i + 1],
                    ps@[i].0,
                    ps@[i].1,
                )
        } else {
            false
        }
    }
}

proof fn lemma_tag_literals()
    ensures
        "null"@ == tag_null(),
        "bool"@ == tag_bool(),
        "int"@ == tag_int(),
        "float"@ == tag_float(),
        "str"@ == tag_str(),
        "array"@ == tag_array(),
        "object"@ == tag_object(),
        "true"@ == seq!['t', 'r', 'u', 'e'],
        "0"@ == seq!['0'],
{
    reveal_strlit("null");
    reveal_strlit("bool");
    reveal_strlit("int");
    reveal_strlit("float");
    reveal_strlit("str");
    reveal_strlit("array");
    reveal_strlit("object");
    reveal_strlit("true");
    reveal_strlit("0");
    assert("null"@ =~= tag_null());
    assert("bool"@ =~= tag_bool());
    assert("int"@ =~= tag_int());
    assert("float"@ =~= tag_float());
    assert("str"@ =~= tag_str());
    assert("array"@ =~= tag_array());
    assert("object"@ =~= tag_object());
    assert("true"@ =~= seq!['t', 'r', 'u', 'e']);
    assert("0"@ =~= seq!['0']);
}

fn chars_are(id: &Option<String>, lit: &str) -> (r: bool)
    ensures
        r == (opt_chars(*id) == lit@),
{
    match id {
        Some(x) => {
            let r = str_eq(x.as_str(), lit);
            assert(opt_chars(*id) == x@);
            r
        },
        None => {
            let r = lit.is_empty();
            assert(r ==> lit@ =~= Seq::<char>::empty());
            r
        },
    }
}

fn decode_str_payload(p: &String) -> (r: Result<String, DecodeError>)
    ensures
        r is Ok <==> str_payload_ok(p@),
        r matches Ok(x) ==> base64_text(encode_utf8(x@)) == p@,
        r matches Ok(x) ==> forall|y: Seq<char>|
            #[trigger] base64_text(encode_utf8(y)) == p@ ==> x@ == y,
{
    match base64_decode(p.as_str()) {
        None => Err(DecodeError::InvalidBase64),
        Some(b) => {
            let ghost bs = b@;
            match string_from_utf8(b) {
                Some(x) => {
                    proof {
                        vstd::utf8::decode_utf8_encode_utf8(bs);
                        assert forall|y: Seq<char>| #[trigger] base64_text(encode_utf8(y)) == p@ implies x@
                            == y by {
                            assert(bs == encode_utf8(y));
                            vstd::utf8::encode_utf8_decode_utf8(y);
                        }
                    }
                    Ok(x)
                },
                None => Err(DecodeError::InvalidUtf8),
            }
        },
    }
}

/// Whether `t` is one of the type tags.
pub open spec fn known_tag(t: Seq<char>) -> bool {
    t == tag_null() || t == tag_bool() || t == tag_int() || t == tag_float() || t == tag_str()
        || t == tag_array() || t == tag_object()
}

/// The value that a notation tree stands for.
pub fn decode_link(l: &Link) -> (r: Result<Value, DecodeError>)
    ensures
        r is Ok <==> decodable(*l),
        r matches Ok(v) ==> decodes_as(*l, v),
        l.values@.len() > 0 && !known_tag(tag_of(*l)) ==> r == Err::<Value, DecodeError>(
            DecodeError::UnknownTypeMarker,
        ),
        l.values@.len() > 0 && tag_of(*l) == tag_str() ==> (r matches Ok(v) ==> (v matches Value::Str(
            x,
        ) && forall|y: Seq<char>|
            #[trigger] base64_text(encode_utf8(y)) == opt_chars(payload(*l)) ==> x@ == y)),
    decreases l,
{
    if l.values.len() == 0 {
        return match &l.id {
            Some(x) => Ok(Value::Str(x.clone())),
            None => Ok(Value::Null),
        };
    }
    proof {
        lemma_tag_literals();
    }
    let first = &l.values[0];
    let pay: Option<&String> = if l.values.len() > 1 {
        match &l.values[1].id {
            Some(x) => Some(x),
            None => None,
        }
    } else {
        None
    };
    assert(pay matches Some(x) ==> payload(*l) == Some(*x));
    assert(pay is None ==> payload(*l) is None);
    if chars_are(&first.id, "null") {
        assert(tag_of(*l) == tag_null());
        Ok(Value::Null)
    } else if chars_are(&first.id, "bool") {
        let b = match pay {
            Some(x) => str_eq(x.as_str(), "true"),
            None => false,
        };
        Ok(Value::Bool(b))
    } else if chars_are(&first.id, "int") {
        match pay {
            Some(x) => match parse_int(&chars_of(x.as_str())) {
                Some(n) => Ok(Value::Int(n)),
                None => Err(DecodeError::InvalidInt),
            },
            None => Ok(Value::Int(0)),
        }
    } else if chars_are(&first.id, "float") {
        match pay {
            Some(x) => if check_float_text(&chars_of(x.as_str())) {
                Ok(Value::Float(x.clone()))
            } else {
                Err(DecodeError::InvalidFloat)
            },
            None => {
                proof {
                    reveal_strlit("0");
                }
                Ok(Value::Float("0".to_owned()))
            },
        }
    } else if chars_are(&first.id, "str") {
        match pay {
            Some(x) => match decode_str_payload(x) {
                Ok(t) => Ok(Value::Str(t)),
                Err(e) => Err(e),
            },
            None => match decode_str_payload(&String::new()) {
                Ok(t) => Ok(Value::Str(t)),
                Err(e) => Err(e),
            },
        }
    } else if chars_are(&first.id, "array") {
        let mut vs: Vec<Value> = Vec::new();
        let mut i: usize = 1;
        while i < l.values.len()
            invariant
                1 <= i <= l.values@.len(),
                tag_of(*l) == tag_array(),
                vs@.len() == i - 1,
                forall|j: int| 1 <= j < i ==> decodable(#[trigger] l.values@[j]),
                forall|j: int| 0 <= j < vs@.len() ==> decodes_as(#[trigger] l.values@[j + 1], vs@[j]),
            decreases l.values.len() - i,
        {
            proof {
                vstd::std_specs::vec::axiom_vec_index_decreases(l.values, i as int);
            }
            match decode_link(&l.values[i]) {
                Ok(v) => {
                    vs.push(v);
                },
                Err(e) => {
                    assert(!decodable(l.values@[i as int]));
                    return Err(e);
                },
            }
            i += 1;
        }
        Ok(Value::Array(vs))
    } else if chars_are(&first.id, "object") {
        let mut ps: Vec<(String, Value)> = Vec::new();
        let mut i: usize = 1;
        while i < l.values.len()
            invariant
                1 <= i <= l.values@.len(),
                tag_of(*l) == tag_object(),
                ps@.len() == i - 1,
                forall|j: int| 1 <= j < i ==> entry_ok(#[trigger] l.values@[j]),
                forall|j: int|
                    0 <= j < ps@.len() ==> entry_decodes_as(
                        #[trigger] l.values@[j + 1],
                        ps@[j].0,
                        ps@[j].1,
                    ),
            decreases l.values.len() - i,
        {
            let e = &l.values[i];
            if e.values.len() < 2 {
                assert(!entry_ok(l.values@[i as int]));
                return Err(DecodeError::MalformedEntry);
            }
            proof {
                vstd::std_specs::vec::axiom_vec_index_decreases(l.values, i as int);
                vstd::std_specs::vec::axiom_vec_index_decreases(e.values, 0);
                vstd::std_specs::vec::axiom_vec_index_decreases(e.values, 1);
            }
            proof {
                lemma_tag_literals();
            }
            let k = &e.values[0];
            if k.values.len() > 0 && !chars_are(&k.values[0].id, "str") {
                assert(!key_ok(*k));
                assert(!entry_ok(l.values@[i as int]));
                return Err(DecodeError::MalformedEntry);
            }
            let key = match decode_link(k) {
                Ok(Value::Str(x)) => x,
                Ok(other) => {
                    assert(decodes_as(*k, other));
                    if k.values.len() > 0 {
                        assert(tag_of(*k) == tag_str());
                        assert(other is Str);
                    }
                    assert(!key_ok(*k));
                    assert(!entry_ok(l.values@[i as int]));
                    return Err(DecodeError::MalformedEntry);
                },
                Err(err) => {
                    assert(!key_ok(*k));
                    assert(!entry_ok(l.values@[i as int]));
                    return Err(err);
                },
            };
            match decode_link(&e.values[1]) {
                Ok(v) => {
                    ps.push((key, v));
                },
                Err(err) => {
                    assert(!entry_ok(l.values@[i as int]));
                    return Err(err);
                },
            }
            i += 1;
        }
        Ok(Value::Object(ps))
    } else {
        Err(DecodeError::UnknownTypeMarker)
    }
}

/// The value written in `text`. The text of a readable value (as `encode`
/// writes for any well-formed value) decodes to that value.
pub fn decode(text: &str) -> (r: Result<Value, DecodeError>)
    ensures
        (exists|sh: Shape| #[trigger] open_node_at(text@, 0, sh)) ==> r == Err::<
            Value,
            DecodeError,
        >(DecodeError::UnexpectedEnd),
        text@.len() > 0 && text@[0] == '(' && (exists|j: int|
            #[trigger] unclosed_after(text@, 0, j)) ==> r == Err::<Value, DecodeError>(
            DecodeError::UnterminatedString,
        ),
        text@.len() > 0 && text@[0] == '(' && open_text(text@, 0) ==> r == Err::<Value, DecodeError>(
            DecodeError::UnexpectedEnd,
        ),
        (forall|i: int| 0 <= i < text@.len() ==> is_space(#[trigger] text@[i])) ==> r
            == Ok::<Value, DecodeError>(Value::Null),
        r matches Ok(x) ==> exists|l: Link| #[trigger] decodes_as(l, x),
        forall|w: Value|
            value_ok(w) && #[trigger] value_text(w) == text@ ==> (r matches Ok(x) && same_value(
                x,
                w,
            )),
        forall|sh: Shape|
            shape_ok(sh) && #[trigger] shape_text(sh) == text@ && (sh.parts[0] matches Part::Token(
                t,
            ) && !known_tag(t)) ==> r == Err::<Value, DecodeError>(DecodeError::UnknownTypeMarker),
{
    match parse_text(text) {
        Ok(l) => {
            let r = decode_link(&l);
            assert(r matches Ok(x) ==> decodes_as(l, x));
            assert forall|sh: Shape|
                shape_ok(sh) && #[trigger] shape_text(sh) == text@ && (sh.parts[0] matches Part::Token(
                    t,
                ) && !known_tag(t)) implies r == Err::<Value, DecodeError>(
                DecodeError::UnknownTypeMarker,
            ) by {
                assert(tree_of(l, sh));
                assert(part_tree(l.values@[0], sh.parts[0]));
            }
            assert forall|w: Value| value_ok(w) && #[trigger] value_text(w) == text@ implies (
            r matches Ok(x) && same_value(x, w)) by {
                lemma_tree_decodes(l, w);
            }
            r
        },
        Err(e) => Err(e),
    }
}

/// Whether two values are the same: the same variant at every node, with
/// equal integers, float texts, strings, list elements and entries.
pub open spec fn same_value(a: Value, b: Value) -> bool
    decreases a,
{
    match a {
        Value::Null => b is Null,
        Value::Bool(x) => b matches Value::Bool(y) && x == y,
        Value::Int(x) => b matches Value::Int(y) && x == y,
        Value::Float(x) => b matches Value::Float(y) && x@ == y@,
        Value::Str(x) => b matches Value::Str(y) && x@ == y@,
        Value::Array(xs) => b matches Value::Array(ys) && xs@.len() == ys@.len() && forall|i: int|
            0 <= i < xs@.len() ==> same_value(#[trigger] xs@[i], ys@[i]),
        Value::Object(xs) => b matches Value::Object(ys) && xs@.len() == ys@.len() && forall|i: int|
            0 <= i < xs@.len() ==> (#[trigger] xs@[i]).0@ == ys@[i].0@ && same_value(
                xs@[i].1,
                ys@[i].1,
            ),
    }
}

/// Whether `t` reads as one unquoted identifier: non-empty, not starting
/// with a quote, and free of whitespace, colons and parentheses.
pub open spec fn plain(t: Seq<char>) -> bool {
    t.len() > 0 && t[0] != '"' && t[0] != '\'' && forall|i: int|
        0 <= i < t.len() ==> !ends_token(#[trigger] t[i])
}

/// The base64 text of a string's UTF-8 bytes.
pub open spec fn str_payload(s: Seq<char>) -> Seq<char> {
    base64_text(encode_utf8(s))
}

/// Whether every string payload in `v` is empty or reads as one identifier.
/// Whether a string's payload reads back as one identifier (or is empty) and
/// is the payload of that string alone.
pub open spec fn payload_ok(s: Seq<char>) -> bool {
    (str_payload(s).len() == 0 || plain(str_payload(s))) && forall|c: Seq<u8>|
        #[trigger] base64_text(c) == str_payload(s) ==> c == encode_utf8(s)
}

pub open spec fn payloads_plain(v: Value) -> bool
    decreases v,
{
    match v {
        Value::Str(s) => payload_ok(s@),
        Value::Array(vs) => forall|i: int| 0 <= i < vs@.len() ==> payloads_plain(#[trigger] vs@[i]),
        Value::Object(ps) => forall|i: int|
            0 <= i < ps@.len() ==> payload_ok((#[trigger] ps@[i]).0@) && payloads_plain(ps@[i].1),
        _ => true,
    }
}

/// One element of an encoded node: an identifier, a value's node, or an
/// object entry.
pub enum Part {
    Token(Seq<char>),
    Tree(Value),
    Pair(String, Value),
    /// A leaf identifier, written as `escape_reference` writes it.
    Leaf(Seq<char>),
    /// An inner node of a link.
    Sub(Link),
}

/// The elements of an encoded node, and whether a space precedes its `)`.
pub struct Shape {
    pub parts: Seq<Part>,
    pub trailing: bool,
}

pub open spec fn part_text(p: Part) -> Seq<char> {
    match p {
        Part::Token(t) => t,
        Part::Tree(v) => value_text(v),
        Part::Pair(k, v) => seq!['('] + str_text(k@) + seq![' '] + value_text(v) + seq![')'],
        Part::Leaf(x) => escaped(x),
        Part::Sub(m) => link_text(m),
    }
}

/// Each part's text, preceded by a space.
pub open spec fn parts_text(ps: Seq<Part>) -> Seq<char>
    decreases ps.len(),
{
    if ps.len() == 0 {
        Seq::empty()
    } else {
        parts_text(ps.subrange(0, ps.len() - 1)) + seq![' '] + part_text(ps[ps.len() - 1])
    }
}

pub open spec fn shape_text(sh: Shape) -> Seq<char> {
    seq!['('] + part_text(sh.parts[0]) + parts_text(sh.parts.subrange(1, sh.parts.len() as int))
        + (if sh.trailing {
        seq![' ']
    } else {
        Seq::empty()
    }) + seq![')']
}

/// How the text of `v` is made of parts.
pub open spec fn shape_of(v: Value) -> Shape {
    match v {
        Value::Null => Shape { parts: seq![Part::Token(tag_null())], trailing: false },
        Value::Bool(b) => Shape {
            parts: seq![
                Part::Token(tag_bool()),
                Part::Token(
                    if b {
                        seq!['t', 'r', 'u', 'e']
                    } else {
                        seq!['f', 'a', 'l', 's', 'e']
                    },
                ),
            ],
            trailing: false,
        },
        Value::Int(n) => Shape {
            parts: seq![Part::Token(tag_int()), Part::Token(int_text(n as int))],
            trailing: false,
        },
        Value::Float(t) => Shape {
            parts: seq![Part::Token(tag_float()), Part::Token(t@)],
            trailing: false,
        },
        Value::Str(x) => if str_payload(x@).len() == 0 {
            Shape { parts: seq![Part::Token(tag_str())], trailing: true }
        } else {
            Shape {
                parts: seq![Part::Token(tag_str()), Part::Token(str_payload(x@))],
                trailing: false,
            }
        },
        Value::Array(vs) => Shape {
            parts: seq![Part::Token(tag_array())] + vs@.map_values(|x: Value| Part::Tree(x)),
            trailing: false,
        },
        Value::Object(ps) => Shape {
            parts: seq![Part::Token(tag_object())] + ps@.map_values(
                |p: (String, Value)| Part::Pair(p.0, p.1),
            ),
            trailing: false,
        },
    }
}

pub open spec fn pair_shape(k: String, v: Value) -> Shape {
    Shape { parts: seq![Part::Tree(Value::Str(k)), Part::Tree(v)], trailing: false }
}

/// Whether a node is the tree of a shape: no identifier, one child per part.
pub open spec fn tree_of(l: Link, sh: Shape) -> bool
    decreases l, 0int,
{
    l.id is None && l.values@.len() == sh.parts.len() && forall|i: int|
        0 <= i < sh.parts.len() ==> part_tree(#[trigger] l.values@[i], sh.parts[i])
}

pub open spec fn part_tree(l: Link, p: Part) -> bool
    decreases l, 1int,
{
    match p {
        Part::Token(t) => l.values@.len() == 0 && (l.id matches Some(x) && x@ == t),
        Part::Tree(v) => tree_of(l, shape_of(v)),
        Part::Pair(k, v) => tree_of(l, pair_shape(k, v)),
        Part::Leaf(x) => l.values@.len() == 0 && (l.id matches Some(y) && y@ == x),
        Part::Sub(m) => tree_of(l, link_shape(m)),
    }
}

proof fn lemma_items_parts(vs: Seq<Value>)
    ensures
        items_text(vs) == parts_text(vs.map_values(|x: Value| Part::Tree(x))),
    decreases vs.len(),
{
    if vs.len() > 0 {
        let n = vs.len() - 1;
        lemma_items_parts(vs.subrange(0, n));
        assert(vs.map_values(|x: Value| Part::Tree(x)).subrange(0, n) =~= vs.subrange(
            0,
            n,
        ).map_values(|x: Value| Part::Tree(x)));
    }
}

proof fn lemma_entries_parts(ps: Seq<(String, Value)>)
    ensures
        entries_text(ps) == parts_text(ps.map_values(|p: (String, Value)| Part::Pair(p.0, p.1))),
    decreases ps.len(),
{
    if ps.len() > 0 {
        let n = ps.len() - 1;
        lemma_entries_parts(ps.subrange(0, n));
        assert(ps.map_values(|p: (String, Value)| Part::Pair(p.0, p.1)).subrange(0, n)
            =~= ps.subrange(0, n).map_values(|p: (String, Value)| Part::Pair(p.0, p.1)));
        let last = ps[n];
        assert(entries_text(ps) =~= entries_text(ps.subrange(0, n)) + seq![' '] + part_text(
            Part::Pair(last.0, last.1),
        ));
    }
}

/// The text of a value is the text of its shape.
proof fn lemma_shape_text(v: Value)
    ensures
        value_text(v) == shape_text(shape_of(v)),
{
    let sh = shape_of(v);
    match v {
        Value::Array(vs) => {
            lemma_items_parts(vs@);
            assert(sh.parts.subrange(1, sh.parts.len() as int) =~= vs@.map_values(
                |x: Value| Part::Tree(x),
            ));
        },
        Value::Object(ps) => {
            lemma_entries_parts(ps@);
            assert(sh.parts.subrange(1, sh.parts.len() as int) =~= ps@.map_values(
                |p: (String, Value)| Part::Pair(p.0, p.1),
            ));
        },
        _ => {
            assert(sh.parts.len() <= 2);
            if sh.parts.len() == 2 {
                let q = sh.parts.subrange(1, 2);
                assert(q.subrange(0, 0) =~= Seq::<Part>::empty());
                assert(parts_text(q.subrange(0, 0)) == Seq::<char>::empty());
                assert(q[0] == sh.parts[1]);
                assert(parts_text(q) =~= seq![' '] + part_text(sh.parts[1]));
            } else {
                assert(sh.parts.subrange(1, 1) =~= Seq::<Part>::empty());
            }
        },
    }
    assert(value_text(v) =~= shape_text(sh));
}


proof fn lemma_items_same_text(ws: Seq<Value>, vs: Seq<Value>)
    requires
        ws.len() == vs.len(),
        forall|i: int| 0 <= i < vs.len() ==> value_text(#[trigger] ws[i]) == value_text(vs[i]),
    ensures
        items_text(ws) == items_text(vs),
    decreases vs.len(),
{
    if vs.len() > 0 {
        let n = vs.len() - 1;
        lemma_items_same_text(ws.subrange(0, n), vs.subrange(0, n));
        assert(value_text(ws[n]) == value_text(vs[n]));
    }
}

proof fn lemma_entries_same_text(ws: Seq<(String, Value)>, vs: Seq<(String, Value)>)
    requires
        ws.len() == vs.len(),
        forall|i: int|
            0 <= i < vs.len() ==> str_text((#[trigger] ws[i]).0@) == str_text(vs[i].0@)
                && value_text(ws[i].1) == value_text(vs[i].1),
    ensures
        entries_text(ws) == entries_text(vs),
    decreases vs.len(),
{
    if vs.len() > 0 {
        let n = vs.len() - 1;
        lemma_entries_same_text(ws.subrange(0, n), vs.subrange(0, n));
        assert(str_text(ws[n].0@) == str_text(vs[n].0@));
    }
}

proof fn lemma_tags_differ()
    ensures
        tag_null() != tag_bool() && tag_null() != tag_int() && tag_null() != tag_float()
            && tag_null() != tag_str() && tag_null() != tag_array() && tag_null() != tag_object(),
        tag_bool() != tag_int() && tag_bool() != tag_float() && tag_bool() != tag_str()
            && tag_bool() != tag_array() && tag_bool() != tag_object(),
        tag_int() != tag_float() && tag_int() != tag_str() && tag_int() != tag_array()
            && tag_int() != tag_object(),
        tag_float() != tag_str() && tag_float() != tag_array() && tag_float() != tag_object(),
        tag_str() != tag_array() && tag_str() != tag_object(),
        tag_array() != tag_object(),
        seq!['f', 'a', 'l', 's', 'e'] != seq!['t', 'r', 'u', 'e'],
{
    assert(tag_null()[0] == 'n' && tag_bool()[0] == 'b' && tag_int()[0] == 'i');
    assert(tag_float()[0] == 'f' && tag_str()[0] == 's' && tag_array()[0] == 'a');
    assert(tag_object()[0] == 'o');
    assert(seq!['f', 'a', 'l', 's', 'e'].len() != seq!['t', 'r', 'u', 'e'].len());
}

/// The tree of a well-formed value's shape decodes, and whatever it decodes
/// to has the same text as the value.
proof fn lemma_tree_decodes(l: Link, v: Value)
    requires
        tree_of(l, shape_of(v)),
        value_ok(v),
    ensures
        decodable(l),
        forall|w: Value| decodes_as(l, w) ==> value_text(w) == value_text(v),
        forall|w: Value| #[trigger] decodes_as(l, w) ==> same_value(w, v),
    decreases l,
{
    lemma_tags_differ();
    let sh = shape_of(v);
    assert(part_tree(l.values@[0], sh.parts[0]));
    match v {
        Value::Null => {},
        Value::Int(n) => {
            assert(part_tree(l.values@[1], sh.parts[1]));
            crate::numbers::lemma_int_text_round_trip(n as int);
        },
        Value::Bool(b) => {
            assert(part_tree(l.values@[1], sh.parts[1]));
        },
        Value::Float(t) => {
            assert(part_tree(l.values@[1], sh.parts[1]));
        },
        Value::Str(x) => {
            if sh.parts.len() > 1 {
                assert(part_tree(l.values@[1], sh.parts[1]));
            }
            assert(opt_chars(payload(l)) == str_payload(x@));
            vstd::utf8::encode_utf8_valid_utf8(x@);
            assert(str_payload_ok(str_payload(x@)));
            assert forall|w: Value| #[trigger] decodes_as(l, w) implies same_value(w, v) by {
                let y = w->Str_0;
                assert(base64_text(encode_utf8(y@)) == str_payload(x@));
                assert(encode_utf8(y@) == encode_utf8(x@));
                vstd::utf8::encode_utf8_decode_utf8(y@);
                vstd::utf8::encode_utf8_decode_utf8(x@);
            }
        },
        Value::Array(vs) => {
            assert forall|i: int| 0 <= i < vs@.len() implies decodable(l.values@[i + 1]) && (
            forall|w: Value| #[trigger] decodes_as(l.values@[i + 1], w) ==> value_text(w) == value_text(
                #[trigger] vs@[i],
            ) && same_value(w, vs@[i])) by {
                assert(part_tree(l.values@[i + 1], sh.parts[i + 1]));
                assert(sh.parts[i + 1] == Part::Tree(vs@[i]));
                vstd::std_specs::vec::axiom_vec_index_decreases(l.values, i + 1);
                lemma_tree_decodes(l.values@[i + 1], vs@[i]);
            }
            assert forall|i: int| 1 <= i < l.values@.len() implies decodable(
                #[trigger] l.values@[i],
            ) by {
                assert(decodable(l.values@[(i - 1) + 1]));
            }
            assert forall|w: Value| decodes_as(l, w) implies value_text(w) == value_text(v) by {
                let ws = w->Array_0;
                assert forall|i: int| 0 <= i < vs@.len() implies value_text(#[trigger] ws@[i])
                    == value_text(vs@[i]) by {
                    assert(decodes_as(l.values@[i + 1], ws@[i]));
                }
                lemma_items_same_text(ws@, vs@);
            }
            assert forall|w: Value| #[trigger] decodes_as(l, w) implies same_value(w, v) by {
                let ws = w->Array_0;
                assert forall|i: int| 0 <= i < ws@.len() implies same_value(#[trigger] ws@[i], vs@[i]) by {
                    assert(decodes_as(l.values@[i + 1], ws@[i]));
                }
            }
        },
        Value::Object(ps) => {
            assert forall|i: int| 0 <= i < ps@.len() implies entry_ok(l.values@[i + 1]) && (
            forall|k: String, w: Value|
                #[trigger] entry_decodes_as(l.values@[i + 1], k, w) ==> str_text(k@) == str_text((#[trigger] ps@[i]).0@)
                    && value_text(w) == value_text(ps@[i].1) && k@ == ps@[i].0@ && same_value(w, ps@[i].1)) by {
                let e = l.values@[i + 1];
                assert(part_tree(e, sh.parts[i + 1]));
                assert(sh.parts[i + 1] == Part::Pair(ps@[i].0, ps@[i].1));
                let ps2 = pair_shape(ps@[i].0, ps@[i].1);
                assert(tree_of(e, ps2));
                assert(part_tree(e.values@[0], ps2.parts[0]));
                assert(part_tree(e.values@[1], ps2.parts[1]));
                vstd::std_specs::vec::axiom_vec_index_decreases(l.values, i + 1);
                vstd::std_specs::vec::axiom_vec_index_decreases(e.values, 0);
                vstd::std_specs::vec::axiom_vec_index_decreases(e.values, 1);
                lemma_tree_decodes(e.values@[0], Value::Str(ps@[i].0));
                lemma_tree_decodes(e.values@[1], ps@[i].1);
                let key_shape = shape_of(Value::Str(ps@[i].0));
                assert(part_tree(e.values@[0].values@[0], key_shape.parts[0]));
                assert(key_ok(e.values@[0]));
                assert(entry_ok(e));
                assert forall|k: String, w: Value| #[trigger] entry_decodes_as(e, k, w) implies str_text(k@)
                    == str_text(ps@[i].0@) && value_text(w) == value_text(ps@[i].1) && k@ == ps@[i].0@
                    && same_value(w, ps@[i].1) by {
                    assert(decodes_as(e.values@[0], Value::Str(k)));
                    assert(value_text(Value::Str(k)) == value_text(Value::Str(ps@[i].0)));
                    assert(same_value(Value::Str(k), Value::Str(ps@[i].0)));
                    assert(decodes_as(e.values@[1], w));
                }
            }
            assert forall|i: int| 1 <= i < l.values@.len() implies entry_ok(
                #[trigger] l.values@[i],
            ) by {
                assert(entry_ok(l.values@[(i - 1) + 1]));
            }
            assert forall|w: Value| decodes_as(l, w) implies value_text(w) == value_text(v) by {
                let ws = w->Object_0;
                assert forall|i: int| 0 <= i < ps@.len() implies str_text((#[trigger] ws@[i]).0@)
                    == str_text(ps@[i].0@) && value_text(ws@[i].1) == value_text(ps@[i].1) by {
                    assert(entry_decodes_as(l.values@[i + 1], ws@[i].0, ws@[i].1));
                }
                lemma_entries_same_text(ws@, ps@);
            }
            assert forall|w: Value| #[trigger] decodes_as(l, w) implies same_value(w, v) by {
                let ws = w->Object_0;
                assert forall|i: int| 0 <= i < ws@.len() implies (#[trigger] ws@[i]).0@ == ps@[i].0@
                    && same_value(ws@[i].1, ps@[i].1) by {
                    assert(entry_decodes_as(l.values@[i + 1], ws@[i].0, ws@[i].1));
                }
            }
        },
    }
}


proof fn lemma_unquote_plain(x: Seq<char>)
    requires
        !has_char(x, '\\'),
    ensures
        unquote(x) == (x, false),
    decreases x.len(),
{
    if x.len() > 0 {
        let n = x.len() - 1;
        lemma_unquote_plain(x.subrange(0, n));
        assert(x.subrange(0, n).push(x[n]) =~= x);
        if x[n] == '\\' {
            assert(has_char(x, '\\'));
        }
    }
}

proof fn lemma_unquote_escaped(x: Seq<char>)
    requires
        !has_char(x, '\\'),
    ensures
        unquote(escape_single_quotes(x)) == (x, false),
        forall|m: int|
            0 <= m < escape_single_quotes(x).len() && escape_single_quotes(x)[m] == '\'' ==> unquote(
                escape_single_quotes(x).subrange(0, m),
            ).1,
    decreases x.len(),
{
    if x.len() > 0 {
        let n = x.len() - 1;
        let xp = x.subrange(0, n);
        assert(!has_char(xp, '\\')) by {
            if has_char(xp, '\\') {
                let i = choose|i: int| 0 <= i < xp.len() && xp[i] == '\\';
                assert(x[i] == '\\');
            }
        }
        lemma_unquote_escaped(xp);
        let ep = escape_single_quotes(xp);
        let e = escape_single_quotes(x);
        let c = x[n];
        if c == '\\' {
            assert(has_char(x, '\\'));
        }
        assert(xp.push(c) =~= x);
        if c == '\'' {
            assert(e =~= ep + seq!['\\', '\'']);
            let e1 = e.subrange(0, e.len() - 1);
            assert(e1 =~= ep.push('\\'));
            assert(e1.subrange(0, e1.len() - 1) =~= ep);
            assert(unquote(e1) == (x.subrange(0, n), true));
            assert forall|m: int| 0 <= m < e.len() && e[m] == '\'' implies unquote(e.subrange(0, m)).1 by {
                if m < ep.len() {
                    assert(e.subrange(0, m) =~= ep.subrange(0, m));
                    assert(ep[m] == e[m]);
                } else {
                    assert(m == ep.len() + 1);
                    assert(e.subrange(0, m) =~= e1);
                }
            }
        } else {
            assert(e =~= ep.push(c));
            assert(e.subrange(0, e.len() - 1) =~= ep);
            assert forall|m: int| 0 <= m < e.len() && e[m] == '\'' implies unquote(e.subrange(0, m)).1 by {
                assert(m < ep.len());
                assert(e.subrange(0, m) =~= ep.subrange(0, m));
                assert(ep[m] == e[m]);
            }
        }
    }
}

/// What the parser relies on in the written form of a leaf.
proof fn lemma_leaf_text(x: Seq<char>)
    requires
        leaf_ok(x),
    ensures
        escaped(x).len() > 0,
        !is_space(escaped(x)[0]) && escaped(x)[0] != ')' && escaped(x)[0] != ':' && escaped(x)[0]
            != '(',
        !needs_quoting(x) ==> escaped(x) == x && plain(x),
        needs_quoting(x) ==> ({
            let e = escaped(x);
            let q = e[0];
            let c = e.subrange(1, e.len() - 1);
            &&& e.len() >= 2
            &&& (q == '\'' || q == '"')
            &&& e[e.len() - 1] == q
            &&& unquote(c) == (x, false)
            &&& forall|m: int| 0 <= m < c.len() && c[m] == q ==> unquote(c.subrange(0, m)).1
        }),
{
    if !needs_quoting(x) {
        assert forall|i: int| 0 <= i < x.len() implies !ends_token(#[trigger] x[i]) by {
            assert(has_char(x, x[i]));
        }
        assert(has_char(x, x[0]));
    } else {
        let e = escaped(x);
        let sq = has_char(x, '\'');
        let dq = has_char(x, '"');
        if sq && dq {
            lemma_unquote_escaped(x);
            assert(e.subrange(1, e.len() - 1) =~= escape_single_quotes(x));
        } else {
            lemma_unquote_plain(x);
            assert(e.subrange(1, e.len() - 1) =~= x);
            let q = e[0];
            assert forall|m: int| 0 <= m < x.len() && x[m] == q implies unquote(x.subrange(0, m)).1 by {
                assert(has_char(x, q));
            }
        }
    }
}

proof fn lemma_children_parts(vs: Seq<Link>)
    requires
        vs.len() >= 1,
    ensures
        children_text(vs) == part_text(child_part(vs[0])) + parts_text(
            vs.map_values(|c: Link| child_part(c)).subrange(1, vs.len() as int),
        ),
    decreases vs.len(),
{
    let ps = vs.map_values(|c: Link| child_part(c));
    if vs.len() == 1 {
        assert(ps.subrange(1, 1) =~= Seq::<Part>::empty());
        assert(parts_text(Seq::<Part>::empty()) == Seq::<char>::empty());
    } else {
        let n = vs.len() - 1;
        lemma_children_parts(vs.subrange(0, n));
        assert(vs.subrange(0, n).map_values(|c: Link| child_part(c)).subrange(1, n) =~= ps.subrange(
            1,
            n,
        ));
        assert(ps.subrange(1, vs.len() as int).subrange(0, n - 1) =~= ps.subrange(1, n));
        assert(ps.subrange(1, vs.len() as int)[n - 1] == child_part(vs[n]));
        assert(vs.subrange(0, n)[0] == vs[0]);
        assert(part_text(child_part(vs[n])) == child_text(vs[n]));
        assert(children_text(vs) == children_text(vs.subrange(0, n)) + seq![' '] + child_text(
            vs[n],
        ));
        assert(parts_text(ps.subrange(1, vs.len() as int)) == parts_text(ps.subrange(1, n)) + seq![
            ' ',
        ] + part_text(child_part(vs[n])));
    }
    assert(part_text(child_part(vs[0])) == child_text(vs[0]));
}

/// An encoder-shaped link's text is the text of its shape, which is readable.
proof fn lemma_link_shape(m: Link)
    requires
        link_ok(m),
    ensures
        shape_ok(link_shape(m)),
        shape_text(link_shape(m)) == link_text(m),
{
    let sh = link_shape(m);
    assert forall|i: int| 0 <= i < sh.parts.len() implies part_ok(#[trigger] sh.parts[i]) by {
        assert(child_ok(m.values@[i]));
    }
    lemma_children_parts(m.values@);
    assert(shape_text(sh) =~= link_text(m));
}

/// The tree of an encoder-shaped link's shape is that link.
proof fn lemma_tree_link(a: Link, m: Link)
    requires
        link_ok(m),
        tree_of(a, link_shape(m)),
    ensures
        same_link(a, m),
    decreases a,
{
    let sh = link_shape(m);
    assert forall|i: int| 0 <= i < a.values@.len() implies same_link(#[trigger] a.values@[i], m.values@[i]) by {
        assert(part_tree(a.values@[i], sh.parts[i]));
        assert(child_ok(m.values@[i]));
        vstd::std_specs::vec::axiom_vec_index_decreases(a.values, i);
        if m.values@[i].values@.len() > 0 {
            lemma_tree_link(a.values@[i], m.values@[i]);
        }
    }
}


/// Values that are the same have the same text.
pub proof fn lemma_same_value_text(a: Value, b: Value)
    requires
        same_value(a, b),
    ensures
        value_text(a) == value_text(b),
    decreases a,
{
    match a {
        Value::Array(xs) => {
            let ys = b->Array_0;
            assert forall|i: int| 0 <= i < xs@.len() implies value_text(#[trigger] xs@[i]) == value_text(
                ys@[i],
            ) by {
                lemma_same_value_text(xs@[i], ys@[i]);
            }
            lemma_items_same_text(xs@, ys@);
        },
        Value::Object(xs) => {
            let ys = b->Object_0;
            assert forall|i: int| 0 <= i < xs@.len() implies str_text((#[trigger] xs@[i]).0@) == str_text(
                ys@[i].0@,
            ) && value_text(xs@[i].1) == value_text(ys@[i].1) by {
                lemma_same_value_text(xs@[i].1, ys@[i].1);
            }
            lemma_entries_same_text(xs@, ys@);
        },
        _ => {},
    }
}

} // verus!
