//! The notation tree: an optional identifier with ordered children, and its
//! textual form.

use vstd::prelude::*;
use crate::text::{chars_of, contains_char, has_char, push_char, push_str};

verus! {

/// A node of the notation: `()`, `(id)`, `(id: c1 c2 ...)` or `(c1 c2 ...)`.
pub struct Link {
    pub id: Option<String>,
    pub values: Vec<Link>,
}

/// Whether a reference must be wrapped in quotes to survive parsing.
pub open spec fn needs_quoting(s: Seq<char>) -> bool {
    has_char(s, ':') || has_char(s, '(') || has_char(s, ')') || has_char(s, ' ')
        || has_char(s, '\t') || has_char(s, '\n') || has_char(s, '\r') || has_char(s, '\x0b')
        || has_char(s, '\x0c')
        || has_char(s, '\'') || has_char(s, '"')
}

/// `s` with a backslash put before each single quote.
pub open spec fn escape_single_quotes(s: Seq<char>) -> Seq<char>
    decreases s.len(),
{
    if s.len() == 0 {
        Seq::empty()
    } else {
        let last = s[s.len() - 1];
        escape_single_quotes(s.subrange(0, s.len() - 1)) + if last == '\'' {
            seq!['\\', '\'']
        } else {
            seq![last]
        }
    }
}

/// The escaped form of a reference: bare when it needs no quoting, otherwise
/// wrapped in the quote character it does not contain (single quotes, with
/// inner single quotes escaped, when it holds both).
pub open spec fn escaped(s: Seq<char>) -> Seq<char> {
    let sq = has_char(s, '\'');
    let dq = has_char(s, '"');
    if s.len() == 0 {
        Seq::empty()
    } else if sq && dq {
        seq!['\''] + escape_single_quotes(s) + seq!['\'']
    } else if dq {
        seq!['\''] + s + seq!['\'']
    } else if sq {
        seq!['"'] + s + seq!['"']
    } else if needs_quoting(s) {
        seq!['\''] + s + seq!['\'']
    } else {
        s
    }
}

/// The characters of an optional string (empty when absent).
pub open spec fn opt_chars(o: Option<String>) -> Seq<char> {
    match o {
        Some(s) => s@,
        None => Seq::empty(),
    }
}

/// How a child stands inside its parent: a leaf by its escaped identifier,
/// any other node by its full text.
pub open spec fn child_text(l: Link) -> Seq<char>
    decreases l, 1int,
{
    if l.values.len() == 0 {
        escaped(opt_chars(l.id))
    } else {
        link_text(l)
    }
}

/// The children's texts joined by single spaces.
pub open spec fn children_text(vs: Seq<Link>) -> Seq<char>
    decreases vs, 0int,
{
    if vs.len() == 0 {
        Seq::empty()
    } else if vs.len() == 1 {
        child_text(vs[0])
    } else {
        children_text(vs.subrange(0, vs.len() - 1)) + seq![' '] + child_text(vs[vs.len() - 1])
    }
}

/// The textual form of a node.
pub open spec fn link_text(l: Link) -> Seq<char>
    decreases l, 0int,
{
    if l.values.len() == 0 {
        match l.id {
            None => seq!['(', ')'],
            Some(id) => seq!['('] + escaped(id@) + seq![')'],
        }
    } else {
        match l.id {
            None => seq!['('] + children_text(l.values@) + seq![')'],
            Some(id) => seq!['('] + escaped(id@) + seq![':', ' '] + children_text(l.values@)
                + seq![')'],
        }
    }
}

impl Link {
    /// A leaf holding `id`.
    pub fn new(id: &str) -> (r: Link)
        ensures
            r.id matches Some(s) && s@ == id@,
            r.values@.len() == 0,
    {
        Link { id: Some(id.to_owned()), values: Vec::new() }
    }

    /// A node with the given identifier and children.
    pub fn with_values(id: Option<String>, values: Vec<Link>) -> (r: Link)
        ensures
            r.id == id,
            r.values == values,
    {
        Link { id, values }
    }

    /// The node with neither identifier nor children.
    pub fn empty() -> (r: Link)
        ensures
            r.id is None,
            r.values@.len() == 0,
    {
        Link { id: None, values: Vec::new() }
    }

    /// The escaped form of `reference`, as it stands in the notation.
    pub fn escape_reference(reference: &str) -> (r: String)
        ensures
            r@ == escaped(reference@),
    {
        let s = chars_of(reference);
        if s.len() == 0 {
            return String::new();
        }
        let sq = contains_char(&s, '\'');
        let dq = contains_char(&s, '"');
        let needs = contains_char(&s, ':') || contains_char(&s, '(') || contains_char(&s, ')')
            || contains_char(&s, ' ') || contains_char(&s, '\t') || contains_char(&s, '\n')
            || contains_char(&s, '\r') || contains_char(&s, '\x0b') || contains_char(&s, '\x0c')
            || sq || dq;
        let mut out = String::new();
        if sq && dq {
            push_char(&mut out, '\'');
            let mut i: usize = 0;
            while i < s.len()
                invariant
                    i <= s.len(),
                    out@ == seq!['\''] + escape_single_quotes(s@.subrange(0, i as int)),
                decreases s.len() - i,
            {
                let c = s[i];
                if c == '\'' {
                    push_char(&mut out, '\\');
                }
                push_char(&mut out, c);
                assert(s@.subrange(0, i + 1).subrange(0, i as int) == s@.subrange(0, i as int));
                i += 1;
            }
            assert(s@.subrange(0, s.len() as int) == s@);
            push_char(&mut out, '\'');
            out
        } else if dq || needs {
            let q = if dq || !sq { '\'' } else { '"' };
            push_char(&mut out, q);
            push_str(&mut out, reference);
            push_char(&mut out, q);
            out
        } else {
            reference.to_owned()
        }
    }

    /// The textual form of this node.
    pub fn format(&self) -> (r: String)
        ensures
            r@ == link_text(*self),
        decreases self,
    {
        if self.values.len() == 0 {
            let mut out = String::new();
            push_char(&mut out, '(');
            match &self.id {
                Some(id) => {
                    let e = Link::escape_reference(id.as_str());
                    push_str(&mut out, e.as_str());
                },
                None => {},
            }
            push_char(&mut out, ')');
            return out;
        }
        let mut out = String::new();
        push_char(&mut out, '(');
        match &self.id {
            Some(id) => {
                let e = Link::escape_reference(id.as_str());
                push_str(&mut out, e.as_str());
                push_char(&mut out, ':');
                push_char(&mut out, ' ');
            },
            None => {},
        }
        let ghost head = out@;
        let mut i: usize = 0;
        while i < self.values.len()
            invariant
                i <= self.values.len(),
                out@ == head + children_text(self.values@.subrange(0, i as int)),
            decreases self.values.len() - i,
        {
            let c = &self.values[i];
            if i > 0 {
                push_char(&mut out, ' ');
            }
            let piece = if c.values.len() == 0 {
                match &c.id {
                    Some(id) => Link::escape_reference(id.as_str()),
                    None => String::new(),
                }
            } else {
                c.format()
            };
            assert(piece@ == child_text(*c));
            push_str(&mut out, piece.as_str());
            proof {
                let sub = self.values@.subrange(0, i + 1);
                assert(sub.subrange(0, i as int) == self.values@.subrange(0, i as int));
                assert(sub[i as int] == *c);
            }
            i += 1;
        }
        assert(self.values@.subrange(0, self.values.len() as int) == self.values@);
        push_char(&mut out, ')');
        out
    }
}


/// A reference that needs no quoting stays as it is; one with whitespace, a
/// colon or a parenthesis is wrapped in quotes; one with both quote kinds is
/// wrapped in single quotes with its single quotes backslash-escaped.
pub proof fn lemma_escaping(s: Seq<char>)
    ensures
        !needs_quoting(s) ==> escaped(s) == s,
        s.len() > 0 && needs_quoting(s) ==> escaped(s).len() >= 2 && (escaped(s)[0] == '\''
            || escaped(s)[0] == '"') && escaped(s)[escaped(s).len() - 1] == escaped(s)[0],
        has_char(s, '\'') && has_char(s, '"') ==> escaped(s) == seq!['\''] + escape_single_quotes(
            s,
        ) + seq!['\''],
{
    if s.len() > 0 && needs_quoting(s) {
        let e = escaped(s);
        if has_char(s, '\'') && has_char(s, '"') {
            let m = escape_single_quotes(s);
            assert(e == seq!['\''] + m + seq!['\'']);
            assert(e[0] == '\'');
            assert(e[e.len() - 1] == '\'');
        }
    }
    if has_char(s, '\'') {
        assert(s.len() > 0);
    }
}

} // verus!
