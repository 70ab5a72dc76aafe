//! The escape codec of PO quoted fields.

use vstd::prelude::*;
use crate::text::{chars_of, push_char, push_str};

verus! {

/// What one character becomes inside a quoted PO field.
pub open spec fn escape_char(c: char) -> Seq<char> {
    if c == '\\' {
        seq!['\\', '\\']
    } else if c == '"' {
        seq!['\\', '"']
    } else if c == '\n' {
        seq!['\\', 'n']
    } else if c == '\r' {
        seq!['\\', 'r']
    } else if c == '\t' {
        seq!['\\', 't']
    } else {
        seq![c]
    }
}

/// Whether a character is written as a two-character escape sequence.
pub open spec fn needs_escape(c: char) -> bool {
    c == '\\' || c == '"' || c == '\n' || c == '\r' || c == '\t'
}

/// The escaped form of a whole string: each character escaped in turn.
pub open spec fn escaped(s: Seq<char>) -> Seq<char>
    decreases s.len(),
{
    if s.len() == 0 {
        Seq::empty()
    } else {
        escaped(s.drop_last()) + escape_char(s.last())
    }
}

/// The character that `\c` stands for, if `\c` is a known escape sequence.
pub open spec fn unescape_char(c: char) -> Option<char> {
    if c == '\\' {
        Some('\\')
    } else if c == '"' {
        Some('"')
    } else if c == 'n' {
        Some('\n')
    } else if c == 'r' {
        Some('\r')
    } else if c == 't' {
        Some('\t')
    } else {
        None
    }
}

/// `Some(p + r)` when `o` is `Some(r)`; `None` otherwise.
pub open spec fn prepend(p: Seq<char>, o: Option<Seq<char>>) -> Option<Seq<char>> {
    match o {
        Some(r) => Some(p + r),
        None => None,
    }
}

/// The unescaped form of a string, or `None` when it holds a backslash that
/// starts no known escape sequence (a trailing backslash included).
pub open spec fn unescaped(s: Seq<char>) -> Option<Seq<char>>
    decreases s.len(),
{
    if s.len() == 0 {
        Some(Seq::empty())
    } else if s[0] != '\\' {
        prepend(seq![s[0]], unescaped(s.drop_first()))
    } else if s.len() == 1 {
        None
    } else {
        match unescape_char(s[1]) {
            Some(c) => prepend(seq![c], unescaped(s.subrange(2, s.len() as int))),
            None => None,
        }
    }
}

/// The character after the first backslash of `s` that starts no known
/// escape sequence (a backslash when the string ends right after one).
pub open spec fn escape_fault(s: Seq<char>) -> char
    decreases s.len(),
{
    if s.len() == 0 {
        '\\'
    } else if s[0] != '\\' {
        escape_fault(s.drop_first())
    } else if s.len() == 1 {
        '\\'
    } else if unescape_char(s[1]) is None {
        s[1]
    } else {
        escape_fault(s.subrange(2, s.len() as int))
    }
}

/// Error for an invalid backslash sequence met while unescaping.
#[derive(Debug)]
pub struct UnescapeError {
    /// The character that followed the backslash (a backslash when the
    /// string ended right after one).
    pub seq: String,
}

impl UnescapeError {
    /// The error for the offending character `seq`.
    pub fn new(seq: char) -> (r: Self)
        ensures
            r.seq@ == seq![seq],
    {
        let mut s = String::new();
        push_char(&mut s, seq);
        UnescapeError { seq: s }
    }

    /// A human readable description of the error.
    pub fn message(&self) -> (r: String)
        ensures
            r@ == "invalid unescape sequence "@ + self.seq@,
    {
        let mut r = "invalid unescape sequence ".to_owned();
        push_str(&mut r, self.seq.as_str());
        r
    }
}

proof fn lemma_escaped_concat(a: Seq<char>, b: Seq<char>)
    ensures
        escaped(a + b) == escaped(a) + escaped(b),
    decreases b.len(),
{
    if b.len() == 0 {
        assert(a + b =~= a);
        assert(escaped(b) =~= Seq::<char>::empty());
        assert(escaped(a) + escaped(b) =~= escaped(a));
    } else {
        let b0 = b.drop_last();
        lemma_escaped_concat(a, b0);
        assert((a + b).drop_last() =~= a + b0);
        assert((a + b).last() == b.last());
        assert(escaped(a) + escaped(b0) + escape_char(b.last()) =~= escaped(a) + (escaped(b0)
            + escape_char(b.last())));
    }
}

proof fn lemma_escaped_plain(s: Seq<char>)
    requires
        forall|i: int| 0 <= i < s.len() ==> !needs_escape(#[trigger] s[i]),
    ensures
        escaped(s) == s,
    decreases s.len(),
{
    if s.len() > 0 {
        lemma_escaped_plain(s.drop_last());
        assert(!needs_escape(s[s.len() - 1]));
        assert(s.drop_last() + seq![s.last()] =~= s);
    }
}

proof fn lemma_unescaped_plain(s: Seq<char>)
    requires
        forall|i: int| 0 <= i < s.len() ==> #[trigger] s[i] != '\\',
    ensures
        unescaped(s) == Some(s),
    decreases s.len(),
{
    if s.len() > 0 {
        assert(s[0] != '\\');
        assert forall|i: int| 0 <= i < s.drop_first().len() implies #[trigger] s.drop_first()[i]
            != '\\' by {
            assert(s.drop_first()[i] == s[i + 1]);
        }
        lemma_unescaped_plain(s.drop_first());
        assert(seq![s[0]] + s.drop_first() =~= s);
    }
}

/// Unescaping undoes escaping: for every string `s`,
/// `unescape(escape(s))` succeeds and gives `s` back.
pub proof fn lemma_escape_round_trip(s: Seq<char>)
    ensures
        unescaped(escaped(s)) == Some(s),
    decreases s.len(),
{
    if s.len() == 0 {
        assert(escaped(s) =~= Seq::<char>::empty());
    } else {
        let c = s[0];
        let rest = s.drop_first();
        assert(seq![c] + rest =~= s);
        lemma_escaped_concat(seq![c], rest);
        assert(seq![c].drop_last() =~= Seq::<char>::empty());
        assert(escaped(seq![c]) =~= escaped(Seq::<char>::empty()) + escape_char(c));
        assert(escaped(seq![c]) =~= escape_char(c));
        lemma_escape_round_trip(rest);
        let e = escaped(s);
        assert(e == escape_char(c) + escaped(rest));
        if needs_escape(c) {
            assert(e[0] == '\\');
            assert(e.subrange(2, e.len() as int) =~= escaped(rest));
        } else {
            assert(e[0] == c);
            assert(e.drop_first() =~= escaped(rest));
        }
    }
}

/// Escapes a string for placing inside a quoted PO field: backslash, double
/// quote, newline, carriage return and tab become `\\`, `\"`, `\n`, `\r` and
/// `\t`; every other character is kept.
pub fn escape(unescaped: &str) -> (r: String)
    ensures
        r@ == escaped(unescaped@),
{
    let v = chars_of(unescaped);
    let mut plain = true;
    let mut i: usize = 0;
    while i < v.len()
        invariant
            0 <= i <= v@.len(),
            v@ == unescaped@,
            plain == forall|j: int| 0 <= j < i ==> !needs_escape(#[trigger] v@[j]),
        decreases v.len() - i,
    {
        let c = v[i];
        if c == '\\' || c == '"' || c == '\n' || c == '\r' || c == '\t' {
            plain = false;
        }
        i += 1;
    }
    if plain {
        proof {
            lemma_escaped_plain(v@);
        }
        return unescaped.to_owned();
    }
    let mut out = String::new();
    let mut i: usize = 0;
    while i < v.len()
        invariant
            0 <= i <= v@.len(),
            v@ == unescaped@,
            out@ == escaped(v@.take(i as int)),
        decreases v.len() - i,
    {
        let c = v[i];
        if c == '\\' {
            push_char(&mut out, '\\');
            push_char(&mut out, '\\');
        } else if c == '"' {
            push_char(&mut out, '\\');
            push_char(&mut out, '"');
        } else if c == '\n' {
            push_char(&mut out, '\\');
            push_char(&mut out, 'n');
        } else if c == '\r' {
            push_char(&mut out, '\\');
            push_char(&mut out, 'r');
        } else if c == '\t' {
            push_char(&mut out, '\\');
            push_char(&mut out, 't');
        } else {
            push_char(&mut out, c);
        }
        assert(v@.take(i + 1).drop_last() =~= v@.take(i as int));
        assert(out@ =~= escaped(v@.take(i as int)) + escape_char(c));
        i += 1;
    }
    assert(v@.take(v@.len() as int) =~= v@);
    out
}

/// Reverses `escape`: each of `\\`, `\"`, `\n`, `\r`, `\t` becomes the
/// character it stands for. A backslash followed by anything else, or ending
/// the string, is an error.
pub fn unescape(escaped: &str) -> (r: Result<String, UnescapeError>)
    ensures
        match r {
            Ok(s) => unescaped(escaped@) == Some(s@),
            Err(e) => unescaped(escaped@) is None && e.seq@ == seq![escape_fault(escaped@)],
        },
{
    let v = chars_of(escaped);
    let n = v.len();
    let mut has_backslash = false;
    let mut i: usize = 0;
    while i < n
        invariant
            0 <= i <= n == v@.len(),
            v@ == escaped@,
            !has_backslash == forall|j: int| 0 <= j < i ==> #[trigger] v@[j] != '\\',
        decreases n - i,
    {
        if v[i] == '\\' {
            has_backslash = true;
        }
        i += 1;
    }
    if !has_backslash {
        proof {
            lemma_unescaped_plain(v@);
        }
        return Ok(escaped.to_owned());
    }
    let mut out = String::new();
    proof {
        assert(v@.subrange(0, n as int) =~= v@);
        let u = unescaped(v@);
        assert(escape_fault(v@) == escape_fault(v@.subrange(0, n as int)));
        if u is Some {
            assert(out@ + u->0 =~= u->0);
        }
    }
    let mut i: usize = 0;
    while i < n
        invariant
            0 <= i <= n == v@.len(),
            v@ == escaped@,
            unescaped(v@) == prepend(out@, unescaped(v@.subrange(i as int, n as int))),
            escape_fault(v@) == escape_fault(v@.subrange(i as int, n as int)),
        decreases n - i,
    {
        let ghost rest = v@.subrange(i as int, n as int);
        let c = v[i];
        if c != '\\' {
            assert(rest.drop_first() =~= v@.subrange(i + 1, n as int));
            assert(out@ + (seq![c] + v@.subrange(i + 1, n as int)) =~= out@.push(c) + v@.subrange(
                i + 1,
                n as int,
            ));
            proof {
                let u = unescaped(v@.subrange(i + 1, n as int));
                if u is Some {
                    assert(out@ + (seq![c] + u->0) =~= out@.push(c) + u->0);
                }
            }
            push_char(&mut out, c);
            i += 1;
        } else if i + 1 == n {
            return Err(UnescapeError::new('\\'));
        } else {
            let d = v[i + 1];
            let m: char;
            if d == '\\' {
                m = '\\';
            } else if d == '"' {
                m = '"';
            } else if d == 'n' {
                m = '\n';
            } else if d == 'r' {
                m = '\r';
            } else if d == 't' {
                m = '\t';
            } else {
                return Err(UnescapeError::new(d));
            }
            assert(rest.subrange(2, rest.len() as int) =~= v@.subrange(i + 2, n as int));
            proof {
                let u = unescaped(v@.subrange(i + 2, n as int));
                if u is Some {
                    assert(out@ + (seq![m] + u->0) =~= out@.push(m) + u->0);
                }
            }
            push_char(&mut out, m);
            i += 2;
        }
    }
    assert(v@.subrange(n as int, n as int) =~= Seq::<char>::empty());
    assert(out@ + Seq::<char>::empty() =~= out@);
    Ok(out)
}

} // verus!
