//! The PO writer: a catalog as PO text, with escaping and line wrapping.

use vstd::prelude::*;
use crate::po_file::escape::{escape, escaped, unescaped};
use crate::catalog::{live_messages, Catalog};
use crate::message::{joined, strings_view, Message, MessageBody};
use crate::metadata::CatalogMetadata;
use crate::plural::{decimal, push_decimal};
use crate::text::{chars_of, push_char, push_chars, push_str, split, split_chars};

verus! {

/// Width of a wrapped continuation line, in characters.
pub const WRAP_WIDTH: usize = 77;

/// Widest `NAME "content"` line that is written unwrapped, counting the
/// name and the escaped content.
pub const FIELD_WIDTH: usize = 78;

/// The pieces of `s` that each end with `sep` (but possibly the last), as
/// `str::split_inclusive` gives them; none for an empty `s`.
pub open spec fn split_inclusive(s: Seq<char>, sep: char) -> Seq<Seq<char>>
    decreases s.len(),
{
    if s.len() == 0 {
        Seq::empty()
    } else {
        let prev = split_inclusive(s.drop_last(), sep);
        if prev.len() == 0 || prev.last().last() == sep {
            prev.push(seq![s.last()])
        } else {
            prev.update(prev.len() - 1, prev.last().push(s.last()))
        }
    }
}

/// Whether `s` ends with the escape sequence `\n`.
pub open spec fn ends_with_newline_escape(s: Seq<char>) -> bool {
    s.len() >= 2 && s[s.len() - 2] == '\\' && s.last() == 'n'
}

/// The pieces of the escaped text `s` that each end with the escape
/// sequence `\n` (but possibly the last), as
/// `str::split_inclusive("\\n")` gives them.
pub open spec fn newline_chunks(s: Seq<char>) -> Seq<Seq<char>>
    decreases s.len(),
{
    if s.len() == 0 {
        Seq::empty()
    } else {
        let prev = newline_chunks(s.drop_last());
        if prev.len() == 0 || ends_with_newline_escape(prev.last()) {
            prev.push(seq![s.last()])
        } else {
            prev.update(prev.len() - 1, prev.last().push(s.last()))
        }
    }
}

/// Greedy wrapping of `words`: the finished lines, the current line, and
/// whether a word has been placed yet.
pub open spec fn wrap_state(words: Seq<Seq<char>>) -> (Seq<Seq<char>>, Seq<char>, bool)
    decreases words.len(),
{
    if words.len() == 0 {
        (Seq::empty(), Seq::empty(), false)
    } else {
        let (lines, cur, started) = wrap_state(words.drop_last());
        let w = words.last();
        if !started || cur.len() + w.len() <= WRAP_WIDTH {
            (lines, cur + w, true)
        } else {
            (lines.push(cur), w, true)
        }
    }
}

/// `s` wrapped at spaces into lines of at most 77 characters; a word longer
/// than that stands on a line of its own.
pub open spec fn wrapped(s: Seq<char>) -> Seq<Seq<char>> {
    let (lines, cur, _) = wrap_state(split_inclusive(s, ' '));
    lines.push(cur)
}

/// The pieces of `v` that each end with `sep` (but possibly the last).
fn split_inclusive_chars(v: &Vec<char>, sep: char) -> (r: Vec<Vec<char>>)
    ensures
        r@.len() == split_inclusive(v@, sep).len(),
        forall|k: int| 0 <= k < r@.len() ==> (#[trigger] r@[k])@ == split_inclusive(v@, sep)[k],
{
    let mut done: Vec<Vec<char>> = Vec::new();
    let mut i: usize = 0;
    while i < v.len()
        invariant
            0 <= i <= v@.len(),
            done@.len() == split_inclusive(v@.take(i as int), sep).len(),
            forall|k: int| 0 <= k < done@.len() ==> (#[trigger] done@[k])@ == split_inclusive(v@.take(i as int), sep)[k],
            forall|k: int| 0 <= k < done@.len() ==> (#[trigger] done@[k])@.len() > 0,
        decreases v.len() - i,
    {
        assert(v@.take(i + 1).drop_last() =~= v@.take(i as int));
        let c = v[i];
        let n = done.len();
        if n == 0 || done[n - 1][done[n - 1].len() - 1] == sep {
            let mut w: Vec<char> = Vec::new();
            w.push(c);
            done.push(w);
            assert(done@[n as int]@ =~= seq![c]);
        } else {
            let mut w = done.pop().unwrap();
            w.push(c);
            done.push(w);
        }
        i += 1;
    }
    assert(v@.take(v@.len() as int) =~= v@);
    done
}

/// The pieces of `v` that each end with the escape sequence `\n` (but
/// possibly the last).
fn newline_chunks_chars(v: &Vec<char>) -> (r: Vec<Vec<char>>)
    ensures
        r@.len() == newline_chunks(v@).len(),
        forall|k: int| 0 <= k < r@.len() ==> (#[trigger] r@[k])@ == newline_chunks(v@)[k],
{
    let mut done: Vec<Vec<char>> = Vec::new();
    let mut i: usize = 0;
    while i < v.len()
        invariant
            0 <= i <= v@.len(),
            done@.len() == newline_chunks(v@.take(i as int)).len(),
            forall|k: int| 0 <= k < done@.len() ==> (#[trigger] done@[k])@ == newline_chunks(v@.take(i as int))[k],
            forall|k: int| 0 <= k < done@.len() ==> (#[trigger] done@[k])@.len() > 0,
        decreases v.len() - i,
    {
        assert(v@.take(i + 1).drop_last() =~= v@.take(i as int));
        let c = v[i];
        let n = done.len();
        let fresh = if n == 0 {
            true
        } else {
            let l = done[n - 1].len();
            l >= 2 && done[n - 1][l - 2] == '\\' && done[n - 1][l - 1] == 'n'
        };
        if fresh {
            let mut w: Vec<char> = Vec::new();
            w.push(c);
            done.push(w);
            assert(done@[n as int]@ =~= seq![c]);
        } else {
            let mut w = done.pop().unwrap();
            w.push(c);
            done.push(w);
        }
        i += 1;
    }
    assert(v@.take(v@.len() as int) =~= v@);
    done
}

/// Wraps `content` into lines of at most 77 characters at spaces.
pub fn wrap(content: &Vec<char>) -> (r: Vec<Vec<char>>)
    ensures
        r@.len() == wrapped(content@).len(),
        forall|k: int| 0 <= k < r@.len() ==> (#[trigger] r@[k])@ == wrapped(content@)[k],
{
    let words = split_inclusive_chars(content, ' ');
    let ghost ws = split_inclusive(content@, ' ');
    let mut lines: Vec<Vec<char>> = Vec::new();
    let mut cur: Vec<char> = Vec::new();
    let mut started = false;
    let mut k: usize = 0;
    while k < words.len()
        invariant
            0 <= k <= words@.len() == ws.len(),
            ws == split_inclusive(content@, ' '),
            forall|j: int| 0 <= j < words@.len() ==> (#[trigger] words@[j])@ == ws[j],
            wrap_state(ws.take(k as int)).0.len() == lines@.len(),
            forall|j: int| 0 <= j < lines@.len() ==> (#[trigger] lines@[j])@ == wrap_state(ws.take(k as int)).0[j],
            wrap_state(ws.take(k as int)).1 == cur@,
            wrap_state(ws.take(k as int)).2 == started,
        decreases words.len() - k,
    {
        assert(ws.take(k + 1).drop_last() =~= ws.take(k as int));
        let w = &words[k];
        if !started || (cur.len() <= WRAP_WIDTH && w.len() <= WRAP_WIDTH - cur.len()) {
            let mut i: usize = 0;
            let ghost c0 = cur@;
            while i < w.len()
                invariant
                    0 <= i <= w@.len(),
                    cur@ == c0 + w@.take(i as int),
                decreases w.len() - i,
            {
                cur.push(w[i]);
                assert(cur@ =~= c0 + w@.take(i + 1));
                i += 1;
            }
            assert(w@.take(w@.len() as int) =~= w@);
            started = true;
        } else {
            let finished = cur;
            lines.push(finished);
            let mut fresh: Vec<char> = Vec::new();
            let mut i: usize = 0;
            while i < w.len()
                invariant
                    0 <= i <= w@.len(),
                    fresh@ == w@.take(i as int),
                decreases w.len() - i,
            {
                fresh.push(w[i]);
                assert(fresh@ =~= w@.take(i + 1));
                i += 1;
            }
            assert(w@.take(w@.len() as int) =~= w@);
            cur = fresh;
        }
        k += 1;
    }
    assert(ws.take(ws.len() as int) =~= ws);
    lines.push(cur);
    lines
}

/// Number of occurrences of `c` in `s`.
pub open spec fn count_char(s: Seq<char>, c: char) -> nat
    decreases s.len(),
{
    if s.len() == 0 {
        0
    } else {
        count_char(s.drop_last(), c) + if s.last() == c {
            1nat
        } else {
            0nat
        }
    }
}

/// A continuation line: `t` in quotes.
pub open spec fn quoted_line(t: Seq<char>) -> Seq<char> {
    "\""@ + t + "\"\n"@
}

/// The continuation lines for `lines`.
pub open spec fn lines_text(lines: Seq<Seq<char>>) -> Seq<char>
    decreases lines.len(),
{
    if lines.len() == 0 {
        Seq::empty()
    } else {
        lines_text(lines.drop_last()) + quoted_line(lines.last())
    }
}

/// The continuation lines for `chunks`, each chunk wrapped.
pub open spec fn chunks_text(chunks: Seq<Seq<char>>) -> Seq<char>
    decreases chunks.len(),
{
    if chunks.len() == 0 {
        Seq::empty()
    } else {
        chunks_text(chunks.drop_last()) + lines_text(wrapped(chunks.last()))
    }
}

/// Whether a field is written on one line: at most one line break in its
/// content, and the name and escaped content together at most 78 wide.
pub open spec fn fits_one_line(name: Seq<char>, content: Seq<char>) -> bool {
    count_char(content, '\n') <= 1 && name.len() + escaped(content).len() <= FIELD_WIDTH
}

/// A field as written: `NAME "content"` on one line when it fits, else
/// `NAME ""` followed by the escaped content split after each `\n` and
/// wrapped.
#[verifier::opaque]
pub open spec fn field_text(name: Seq<char>, content: Seq<char>) -> Seq<char> {
    if fits_one_line(name, content) {
        name + " \""@ + escaped(content) + "\"\n"@
    } else {
        name + " \"\"\n"@ + chunks_text(newline_chunks(escaped(content)))
    }
}

/// A field whose content has no line break and whose name and escaped
/// content are exactly 78 characters wide is written on one line; one
/// character more and it is written in the `NAME ""` form with
/// continuation lines.
pub proof fn lemma_field_width_boundary(name: Seq<char>, content: Seq<char>)
    requires
        count_char(content, '\n') == 0,
    ensures
        name.len() + escaped(content).len() == 78 ==> field_text(name, content) == name + " \""@
            + escaped(content) + "\"\n"@,
        name.len() + escaped(content).len() == 79 ==> field_text(name, content) == name
            + " \"\"\n"@ + chunks_text(newline_chunks(escaped(content))),
{
    reveal(field_text);
}

/// The strings of `ws` one after another.
pub open spec fn flat(ws: Seq<Seq<char>>) -> Seq<char>
    decreases ws.len(),
{
    if ws.len() == 0 {
        Seq::empty()
    } else {
        flat(ws.drop_last()) + ws.last()
    }
}

/// The wrapped lines of each chunk, one after another.
pub open spec fn flat_wrapped(chunks: Seq<Seq<char>>) -> Seq<char>
    decreases chunks.len(),
{
    if chunks.len() == 0 {
        Seq::empty()
    } else {
        flat_wrapped(chunks.drop_last()) + flat(wrapped(chunks.last()))
    }
}

proof fn lemma_flat_split_inclusive(s: Seq<char>, sep: char)
    ensures
        flat(split_inclusive(s, sep)) == s,
    decreases s.len(),
{
    if s.len() > 0 {
        let prev = split_inclusive(s.drop_last(), sep);
        lemma_flat_split_inclusive(s.drop_last(), sep);
        let cur = split_inclusive(s, sep);
        if prev.len() == 0 || prev.last().last() == sep {
            assert(cur.drop_last() =~= prev);
        } else {
            assert(cur.drop_last() =~= prev.drop_last());
            assert(flat(prev) == flat(prev.drop_last()) + prev.last());
        }
        assert(s.drop_last() + seq![s.last()] =~= s);
        assert(flat(cur) =~= s);
    } else {
        assert(split_inclusive(s, sep) =~= Seq::<Seq<char>>::empty());
    }
}

proof fn lemma_flat_newline_chunks(s: Seq<char>)
    ensures
        flat(newline_chunks(s)) == s,
    decreases s.len(),
{
    if s.len() > 0 {
        let prev = newline_chunks(s.drop_last());
        lemma_flat_newline_chunks(s.drop_last());
        let cur = newline_chunks(s);
        if prev.len() == 0 || ends_with_newline_escape(prev.last()) {
            assert(cur.drop_last() =~= prev);
        } else {
            assert(cur.drop_last() =~= prev.drop_last());
            assert(flat(prev) == flat(prev.drop_last()) + prev.last());
        }
        assert(s.drop_last() + seq![s.last()] =~= s);
        assert(flat(cur) =~= s);
    } else {
        assert(newline_chunks(s) =~= Seq::<Seq<char>>::empty());
    }
}

proof fn lemma_wrap_state_flat(words: Seq<Seq<char>>)
    ensures
        flat(wrap_state(words).0) + wrap_state(words).1 == flat(words),
    decreases words.len(),
{
    if words.len() > 0 {
        lemma_wrap_state_flat(words.drop_last());
        let (lines, cur, started) = wrap_state(words.drop_last());
        let w = words.last();
        if !started || cur.len() + w.len() <= WRAP_WIDTH {
            assert(flat(lines) + (cur + w) =~= flat(lines) + cur + w);
        } else {
            assert(lines.push(cur).drop_last() =~= lines);
            assert(flat(lines.push(cur)) + w =~= flat(lines) + cur + w);
        }
    }
}

proof fn lemma_flat_wrapped_chunks(chunks: Seq<Seq<char>>)
    ensures
        flat_wrapped(chunks) == flat(chunks),
    decreases chunks.len(),
{
    if chunks.len() > 0 {
        lemma_flat_wrapped_chunks(chunks.drop_last());
        let c = chunks.last();
        let ws = split_inclusive(c, ' ');
        lemma_wrap_state_flat(ws);
        lemma_flat_split_inclusive(c, ' ');
        let (lines, cur, _) = wrap_state(ws);
        assert(lines.push(cur).drop_last() =~= lines);
        assert(flat(wrapped(c)) == flat(lines) + cur);
    }
}

/// Whether `s` holds no line feed.
pub open spec fn one_line(s: Seq<char>) -> bool {
    forall|i: int| 0 <= i < s.len() ==> s[i] != '\n'
}

/// The lines `ls`, each followed by a line feed.
pub open spec fn nl_joined(ls: Seq<Seq<char>>) -> Seq<char>
    decreases ls.len(),
{
    if ls.len() == 0 {
        Seq::empty()
    } else {
        nl_joined(ls.drop_last()) + ls.last() + seq!['\n']
    }
}

proof fn lemma_split_extend(x: Seq<char>, y: Seq<char>)
    requires
        one_line(y),
    ensures
        split(x + y, '\n') == split(x, '\n').update(
            split(x, '\n').len() - 1,
            split(x, '\n').last() + y,
        ),
    decreases y.len(),
{
    crate::text::lemma_split_nonempty(x, '\n');
    if y.len() == 0 {
        assert(x + y =~= x);
        assert(split(x, '\n').last() + y =~= split(x, '\n').last());
        assert(split(x, '\n').update(split(x, '\n').len() - 1, split(x, '\n').last())
            =~= split(x, '\n'));
    } else {
        let y0 = y.drop_last();
        let c = y.last();
        assert(one_line(y0)) by {
            assert forall|i: int| 0 <= i < y0.len() implies y0[i] != '\n' by {
                assert(y0[i] == y[i]);
            }
        }
        assert(c != '\n') by {
            assert(y[y.len() - 1] == c);
        }
        lemma_split_extend(x, y0);
        assert((x + y).drop_last() =~= x + y0);
        assert((x + y).last() == c);
        crate::text::lemma_split_nonempty(x + y0, '\n');
        let sx = split(x, '\n');
        assert(split(x + y, '\n') =~= sx.update(sx.len() - 1, sx.last() + y0).update(
            sx.len() - 1,
            (sx.last() + y0).push(c),
        ));
        assert((sx.last() + y0).push(c) =~= sx.last() + y);
        assert(sx.update(sx.len() - 1, sx.last() + y0).update(sx.len() - 1, sx.last() + y)
            =~= sx.update(sx.len() - 1, sx.last() + y));
    }
}

/// Lines without line feeds, each followed by one, split back into the
/// same lines (and the empty piece after the last line feed).
pub proof fn lemma_split_nl_joined(ls: Seq<Seq<char>>)
    requires
        forall|k: int| 0 <= k < ls.len() ==> one_line(#[trigger] ls[k]),
    ensures
        split(nl_joined(ls), '\n') == ls.push(Seq::empty()),
    decreases ls.len(),
{
    if ls.len() == 0 {
        assert(split(Seq::<char>::empty(), '\n') =~= seq![Seq::<char>::empty()]);
        assert(ls.push(Seq::empty()) =~= seq![Seq::<char>::empty()]);
    } else {
        let p = ls.drop_last();
        let l = ls.last();
        assert forall|k: int| 0 <= k < p.len() implies one_line(#[trigger] p[k]) by {
            assert(p[k] == ls[k]);
        }
        lemma_split_nl_joined(p);
        let x = nl_joined(p);
        assert(one_line(l)) by {
            assert(ls[ls.len() - 1] == l);
        }
        lemma_split_extend(x, l);
        assert(split(x + l, '\n') =~= p.push(l)) by {
            assert(p.push(Seq::<char>::empty()).update(p.len() as int, Seq::<char>::empty() + l) =~= p.push(l));
        }
        let t = x + l + seq!['\n'];
        assert(t.drop_last() =~= x + l);
        assert(t.last() == '\n');
        assert(split(t, '\n') == p.push(l).push(Seq::empty()));
        assert(p.push(l) =~= ls);
    }
}

proof fn lemma_escaped_one_line(c: Seq<char>)
    ensures
        one_line(escaped(c)),
    decreases c.len(),
{
    if c.len() > 0 {
        lemma_escaped_one_line(c.drop_last());
        let a = escaped(c.drop_last());
        let b = crate::po_file::escape::escape_char(c.last());
        assert forall|i: int| 0 <= i < (a + b).len() implies (a + b)[i] != '\n' by {
            if i >= a.len() {
                assert((a + b)[i] == b[i - a.len()]);
            }
        }
    }
}

/// `t` between double quotes.
pub open spec fn in_quotes(t: Seq<char>) -> Seq<char> {
    seq!['"'] + t + seq!['"']
}

/// Each of `ws` between double quotes.
pub open spec fn quoted_all(ws: Seq<Seq<char>>) -> Seq<Seq<char>>
    decreases ws.len(),
{
    if ws.len() == 0 {
        Seq::empty()
    } else {
        quoted_all(ws.drop_last()).push(in_quotes(ws.last()))
    }
}

/// The quoted wrapped lines of each chunk, in order.
pub open spec fn quoted_chunks(cs: Seq<Seq<char>>) -> Seq<Seq<char>>
    decreases cs.len(),
{
    if cs.len() == 0 {
        Seq::empty()
    } else {
        quoted_chunks(cs.drop_last()) + quoted_all(wrapped(cs.last()))
    }
}

/// The lines of a written field, without their line feeds: the name line,
/// then, for a wrapped field, one quoted line per wrapped piece.
pub open spec fn field_lines(name: Seq<char>, content: Seq<char>) -> Seq<Seq<char>> {
    if fits_one_line(name, content) {
        seq![name + seq![' '] + in_quotes(escaped(content))]
    } else {
        seq![name + seq![' '] + in_quotes(Seq::empty())] + quoted_chunks(newline_chunks(escaped(content)))
    }
}

/// The text between the quotes of each of `ls`, in order.
pub open spec fn unquoted_all(ls: Seq<Seq<char>>) -> Seq<char>
    decreases ls.len(),
{
    if ls.len() == 0 {
        Seq::empty()
    } else {
        unquoted_all(ls.drop_last()) + crate::po_file::po_file_parser::unquoted(ls.last())
    }
}

/// What the parser reads from the lines of a field named `name`: the
/// quoted part of the name line, then that of each continuation line.
pub open spec fn read_field(name: Seq<char>, ls: Seq<Seq<char>>) -> Seq<char> {
    crate::po_file::po_file_parser::unquoted(ls[0].subrange(name.len() as int + 1, ls[0].len() as int))
        + unquoted_all(ls.drop_first())
}

proof fn lemma_nl_joined_concat(a: Seq<Seq<char>>, b: Seq<Seq<char>>)
    ensures
        nl_joined(a + b) == nl_joined(a) + nl_joined(b),
    decreases b.len(),
{
    if b.len() == 0 {
        assert(a + b =~= a);
        assert(nl_joined(a) + nl_joined(b) =~= nl_joined(a));
    } else {
        lemma_nl_joined_concat(a, b.drop_last());
        assert((a + b).drop_last() =~= a + b.drop_last());
        assert(nl_joined(a + b) =~= nl_joined(a) + nl_joined(b));
    }
}

proof fn lemma_unquoted_all_concat(a: Seq<Seq<char>>, b: Seq<Seq<char>>)
    ensures
        unquoted_all(a + b) == unquoted_all(a) + unquoted_all(b),
    decreases b.len(),
{
    if b.len() == 0 {
        assert(a + b =~= a);
        assert(unquoted_all(a) + unquoted_all(b) =~= unquoted_all(a));
    } else {
        lemma_unquoted_all_concat(a, b.drop_last());
        assert((a + b).drop_last() =~= a + b.drop_last());
        assert(unquoted_all(a + b) =~= unquoted_all(a) + unquoted_all(b));
    }
}

proof fn lemma_lines_text(ws: Seq<Seq<char>>)
    ensures
        lines_text(ws) == nl_joined(quoted_all(ws)),
        unquoted_all(quoted_all(ws)) == flat(ws),
        quoted_all(ws).len() == ws.len(),
        forall|k: int| 0 <= k < ws.len() ==> #[trigger] quoted_all(ws)[k] == in_quotes(ws[k]),
    decreases ws.len(),
{
    if ws.len() > 0 {
        lemma_lines_text(ws.drop_last());
        reveal_strlit("\"");
        reveal_strlit("\"\n");
        let q = quoted_all(ws);
        assert(q.drop_last() =~= quoted_all(ws.drop_last()));
        assert(quoted_line(ws.last()) =~= in_quotes(ws.last()) + seq!['\n']);
        assert(lines_text(ws) =~= nl_joined(q));
        assert(crate::po_file::po_file_parser::unquoted(in_quotes(ws.last())) =~= ws.last());
        assert forall|k: int| 0 <= k < ws.len() implies #[trigger] quoted_all(ws)[k] == in_quotes(ws[k]) by {
            if k < ws.len() - 1 {
                assert(quoted_all(ws)[k] == quoted_all(ws.drop_last())[k]);
                assert(ws.drop_last()[k] == ws[k]);
            }
        }
    }
}

proof fn lemma_chunks_text(cs: Seq<Seq<char>>)
    ensures
        chunks_text(cs) == nl_joined(quoted_chunks(cs)),
        unquoted_all(quoted_chunks(cs)) == flat_wrapped(cs),
    decreases cs.len(),
{
    if cs.len() > 0 {
        lemma_chunks_text(cs.drop_last());
        lemma_lines_text(wrapped(cs.last()));
        lemma_nl_joined_concat(quoted_chunks(cs.drop_last()), quoted_all(wrapped(cs.last())));
        lemma_unquoted_all_concat(quoted_chunks(cs.drop_last()), quoted_all(wrapped(cs.last())));
    }
}

proof fn lemma_flat_one_line(ws: Seq<Seq<char>>)
    requires
        one_line(flat(ws)),
    ensures
        forall|k: int| 0 <= k < ws.len() ==> one_line(#[trigger] ws[k]),
    decreases ws.len(),
{
    if ws.len() > 0 {
        let p = ws.drop_last();
        let f = flat(p);
        assert(flat(ws) == f + ws.last());
        assert(one_line(f)) by {
            assert forall|i: int| 0 <= i < f.len() implies f[i] != '\n' by {
                assert(flat(ws)[i] == f[i]);
            }
        }
        assert(one_line(ws.last())) by {
            assert forall|i: int| 0 <= i < ws.last().len() implies ws.last()[i] != '\n' by {
                assert(flat(ws)[f.len() + i] == ws.last()[i]);
            }
        }
        lemma_flat_one_line(p);
        assert forall|k: int| 0 <= k < ws.len() implies one_line(#[trigger] ws[k]) by {
            if k < p.len() {
                assert(ws[k] == p[k]);
            }
        }
    }
}

proof fn lemma_quoted_chunks_one_line(cs: Seq<Seq<char>>)
    requires
        forall|k: int| 0 <= k < cs.len() ==> one_line(#[trigger] cs[k]),
    ensures
        forall|k: int| 0 <= k < quoted_chunks(cs).len() ==> one_line(#[trigger] quoted_chunks(cs)[k]),
    decreases cs.len(),
{
    if cs.len() > 0 {
        let p = cs.drop_last();
        assert forall|k: int| 0 <= k < p.len() implies one_line(#[trigger] p[k]) by {
            assert(p[k] == cs[k]);
        }
        lemma_quoted_chunks_one_line(p);
        let c = cs.last();
        assert(one_line(c)) by {
            assert(cs[cs.len() - 1] == c);
        }
        let ws = wrapped(c);
        lemma_flat_wrapped_chunks(seq![c]);
        assert(seq![c].drop_last() =~= Seq::<Seq<char>>::empty());
        assert(seq![c].last() == c);
        assert(flat_wrapped(seq![c].drop_last()) == Seq::<char>::empty());
        assert(flat_wrapped(seq![c]) =~= flat(ws));
        assert(flat(seq![c].drop_last()) == Seq::<char>::empty());
        assert(flat(seq![c]) =~= c);
        lemma_flat_one_line(ws);
        lemma_lines_text(ws);
        let q = quoted_all(ws);
        assert forall|k: int| 0 <= k < q.len() implies one_line(#[trigger] q[k]) by {
            assert(q[k] == in_quotes(ws[k]));
            assert(one_line(ws[k]));
            let t = in_quotes(ws[k]);
            assert forall|i: int| 0 <= i < t.len() implies t[i] != '\n' by {
                if 1 <= i < t.len() - 1 {
                    assert(t[i] == ws[k][i - 1]);
                }
            }
        }
        let all = quoted_chunks(cs);
        assert(all == quoted_chunks(p) + q);
        assert forall|k: int| 0 <= k < all.len() implies one_line(#[trigger] all[k]) by {
            if k < quoted_chunks(p).len() {
                assert(all[k] == quoted_chunks(p)[k]);
            } else {
                assert(all[k] == q[k - quoted_chunks(p).len()]);
            }
        }
    }
}

/// A written field splits at its line feeds into `field_lines`: the name
/// line and, for a wrapped field, one quoted line per wrapped piece, none
/// holding a line feed of its own. What the parser takes from those lines
/// (the quoted part after the name, then each continuation line between its
/// quotes) is the escaped content, and unescaping it gives the content
/// back.
pub proof fn lemma_field_read_back(name: Seq<char>, content: Seq<char>)
    requires
        one_line(name),
    ensures
        split(field_text(name, content), '\n') == field_lines(name, content).push(Seq::empty()),
        read_field(name, field_lines(name, content)) == escaped(content),
        unescaped(read_field(name, field_lines(name, content))) == Some(content),
{
    reveal(field_text);
    reveal_strlit(" \"");
    reveal_strlit("\"\n");
    reveal_strlit(" \"\"\n");
    let e = escaped(content);
    lemma_escaped_one_line(content);
    crate::po_file::escape::lemma_escape_round_trip(content);
    let ls = field_lines(name, content);
    let first = ls[0];
    let head = name + seq![' '];
    if fits_one_line(name, content) {
        assert(first == head + in_quotes(e));
        assert(one_line(first)) by {
            assert forall|i: int| 0 <= i < first.len() implies first[i] != '\n' by {
                if i < name.len() {
                    assert(first[i] == name[i]);
                } else if name.len() + 2 <= i < name.len() + 2 + e.len() {
                    assert(first[i] == e[i - name.len() - 2]);
                }
            }
        }
        assert(ls.drop_last() =~= Seq::<Seq<char>>::empty());
        assert(nl_joined(ls.drop_last()) == Seq::<char>::empty());
        assert(ls.last() == first);
        assert(nl_joined(ls) == first + seq!['\n']);
        assert(" \""@ =~= seq![' ', '"']);
        assert("\"\n"@ =~= seq!['"', '\n']);
        assert(nl_joined(ls) =~= field_text(name, content));
        lemma_split_nl_joined(ls);
        assert(first.subrange(name.len() as int + 1, first.len() as int) =~= in_quotes(e));
        assert(ls.drop_first() =~= Seq::<Seq<char>>::empty());
        assert(read_field(name, ls) =~= e);
    } else {
        let cs = newline_chunks(e);
        lemma_chunks_text(cs);
        lemma_flat_newline_chunks(e);
        lemma_flat_wrapped_chunks(cs);
        lemma_flat_one_line(cs);
        lemma_quoted_chunks_one_line(cs);
        let rest = quoted_chunks(cs);
        assert(first == head + in_quotes(Seq::empty()));
        assert(one_line(first)) by {
            assert forall|i: int| 0 <= i < first.len() implies first[i] != '\n' by {
                if i < name.len() {
                    assert(first[i] == name[i]);
                }
            }
        }
        assert(ls == seq![first] + rest);
        lemma_nl_joined_concat(seq![first], rest);
        assert(seq![first].drop_last() =~= Seq::<Seq<char>>::empty());
        assert(nl_joined(seq![first].drop_last()) == Seq::<char>::empty());
        assert(seq![first].last() == first);
        assert(nl_joined(seq![first]) =~= first + seq!['\n']);
        assert(" \"\"\n"@ =~= seq![' ', '"', '"', '\n']);
        assert(nl_joined(ls) =~= field_text(name, content));
        assert forall|k: int| 0 <= k < ls.len() implies one_line(#[trigger] ls[k]) by {
            if k > 0 {
                assert(ls[k] == rest[k - 1]);
            }
        }
        lemma_split_nl_joined(ls);
        assert(first.subrange(name.len() as int + 1, first.len() as int) =~= in_quotes(Seq::empty()));
        assert(ls.drop_first() =~= rest);
        assert(crate::po_file::po_file_parser::unquoted(in_quotes(Seq::<char>::empty())) =~= Seq::<char>::empty());
        assert(read_field(name, ls) =~= e);
    }
}

/// Number of line feeds in `v`.
fn count_newlines(v: &Vec<char>) -> (r: usize)
    ensures
        r == count_char(v@, '\n'),
{
    let mut n: usize = 0;
    let mut i: usize = 0;
    while i < v.len()
        invariant
            0 <= i <= v@.len(),
            n == count_char(v@.take(i as int), '\n'),
            n <= i,
        decreases v.len() - i,
    {
        assert(v@.take(i + 1).drop_last() =~= v@.take(i as int));
        if v[i] == '\n' {
            n += 1;
        }
        i += 1;
    }
    assert(v@.take(v@.len() as int) =~= v@);
    n
}

/// Appends one field, wrapped as `field_text` says.
pub fn write_field(out: &mut String, name: &str, content: &str)
    ensures
        final(out)@ == old(out)@ + field_text(name@, content@),
{
    reveal(field_text);
    let escaped_content = escape(content);
    let e = chars_of(escaped_content.as_str());
    let nm = chars_of(name);
    let cv = chars_of(content);
    let newlines = count_newlines(&cv);
    if newlines <= 1 && nm.len() <= FIELD_WIDTH && e.len() <= FIELD_WIDTH - nm.len() {
        push_str(out, name);
        push_str(out, " \"");
        push_str(out, escaped_content.as_str());
        push_str(out, "\"\n");
        assert(final(out)@ =~= old(out)@ + field_text(name@, content@));
    } else {
        push_str(out, name);
        push_str(out, " \"\"\n");
        let ghost head = out@;
        let chunks = newline_chunks_chars(&e);
        let ghost cs = newline_chunks(e@);
        let mut k: usize = 0;
        while k < chunks.len()
            invariant
                0 <= k <= chunks@.len() == cs.len(),
                cs == newline_chunks(e@),
                forall|j: int| 0 <= j < chunks@.len() ==> (#[trigger] chunks@[j])@ == cs[j],
                out@ == head + chunks_text(cs.take(k as int)),
            decreases chunks.len() - k,
        {
            assert(cs.take(k + 1).drop_last() =~= cs.take(k as int));
            let lines = wrap(&chunks[k]);
            let ghost ls = wrapped(chunks@[k as int]@);
            let ghost mid = out@;
            let mut j: usize = 0;
            while j < lines.len()
                invariant
                    0 <= j <= lines@.len() == ls.len(),
                    forall|t: int| 0 <= t < lines@.len() ==> (#[trigger] lines@[t])@ == ls[t],
                    out@ == mid + lines_text(ls.take(j as int)),
                decreases lines.len() - j,
            {
                assert(ls.take(j + 1).drop_last() =~= ls.take(j as int));
                push_char(out, '"');
                push_chars(out, &lines[j], 0, lines[j].len());
                push_str(out, "\"\n");
                assert(lines@[j as int]@.subrange(0, lines@[j as int]@.len() as int) =~= ls[j as int]);
                assert(out@ =~= mid + lines_text(ls.take(j + 1))) by {
                    reveal_strlit("\"");
                }
                j += 1;
            }
            assert(ls.take(ls.len() as int) =~= ls);
            assert(out@ =~= head + chunks_text(cs.take(k + 1)));
            k += 1;
        }
        assert(cs.take(cs.len() as int) =~= cs);
        assert(final(out)@ =~= old(out)@ + field_text(name@, content@));
    }
}

/// `prefix + line + "\n"` for each of `lines`.
pub open spec fn prefixed(prefix: Seq<char>, lines: Seq<Seq<char>>) -> Seq<char>
    decreases lines.len(),
{
    if lines.len() == 0 {
        Seq::empty()
    } else {
        prefixed(prefix, lines.drop_last()) + prefix + lines.last() + "\n"@
    }
}

/// A comment field as written: one `prefix` line per line of `text`, or
/// nothing when `text` is empty.
pub open spec fn comment_text(prefix: Seq<char>, text: Seq<char>) -> Seq<char> {
    if text.len() == 0 {
        Seq::empty()
    } else {
        prefixed(prefix, split(text, '\n'))
    }
}

/// The `#, ` line of the flags, or nothing when there are none.
pub open spec fn flags_text(flags: Seq<Seq<char>>) -> Seq<char> {
    if flags.len() == 0 {
        Seq::empty()
    } else {
        "#, "@ + joined(flags, ", "@) + "\n"@
    }
}

/// The name of the field of plural form `i`: `msgstr[i]`.
pub open spec fn form_name(i: nat) -> Seq<char> {
    "msgstr["@ + decimal(i) + "]"@
}

/// The `msgstr[i]` fields of the plural forms.
pub open spec fn forms_text(forms: Seq<Seq<char>>) -> Seq<char>
    decreases forms.len(),
{
    if forms.len() == 0 {
        Seq::empty()
    } else {
        forms_text(forms.drop_last()) + field_text(form_name((forms.len() - 1) as nat), forms.last())
    }
}

/// The lines of a message before its translation: comments, source
/// locations, flags, context and `msgid`.
pub open spec fn head_text(m: Message) -> Seq<char> {
    comment_text("#. "@, m.comments@) + comment_text("#: "@, m.source@) + flags_text(m.flags@) + (
    if m.msgctxt@.len() > 0 {
        field_text("msgctxt"@, m.msgctxt@)
    } else {
        Seq::empty()
    }) + field_text("msgid"@, m.msgid@)
}

/// The translation fields of a message.
pub open spec fn body_text(b: MessageBody) -> Seq<char> {
    match b {
        MessageBody::Singular { msgstr } => field_text("msgstr"@, msgstr@),
        MessageBody::Plural { msgid_plural, msgstr_plural } => field_text(
            "msgid_plural"@,
            msgid_plural@,
        ) + forms_text(strings_view(msgstr_plural@)),
    }
}

/// One message as written, followed by a blank line.
pub open spec fn message_text(m: Message) -> Seq<char> {
    head_text(m) + body_text(m.body) + "\n"@
}

/// The messages as written, in order.
pub open spec fn messages_text(ms: Seq<Message>) -> Seq<char>
    decreases ms.len(),
{
    if ms.len() == 0 {
        Seq::empty()
    } else {
        messages_text(ms.drop_last()) + message_text(ms.last())
    }
}

/// A catalog as written: a blank line, the metadata block, a blank line,
/// then each message.
pub open spec fn po_text(metadata: CatalogMetadata, ms: Seq<Message>) -> Seq<char> {
    "\nmsgid \"\"\n"@ + field_text("msgstr"@, metadata.text(true)) + "\n"@ + messages_text(ms)
}

/// Appends one line `prefix + line` per line of `text`.
fn write_comment(out: &mut String, prefix: &str, text: &String)
    ensures
        final(out)@ == old(out)@ + comment_text(prefix@, text@),
{
    if text.as_str().is_empty() {
        assert(final(out)@ =~= old(out)@ + comment_text(prefix@, text@));
        return;
    }
    let v = chars_of(text.as_str());
    let lines = split_chars(&v, '\n');
    let ghost ls = split(v@, '\n');
    let mut k: usize = 0;
    while k < lines.len()
        invariant
            0 <= k <= lines@.len() == ls.len(),
            ls == split(text@, '\n'),
            text@.len() > 0,
            forall|j: int| 0 <= j < lines@.len() ==> (#[trigger] lines@[j])@ == ls[j],
            out@ == old(out)@ + prefixed(prefix@, ls.take(k as int)),
        decreases lines.len() - k,
    {
        assert(ls.take(k + 1).drop_last() =~= ls.take(k as int));
        push_str(out, prefix);
        push_chars(out, &lines[k], 0, lines[k].len());
        push_str(out, "\n");
        assert(lines@[k as int]@.subrange(0, lines@[k as int]@.len() as int) =~= ls[k as int]);
        assert(out@ =~= old(out)@ + prefixed(prefix@, ls.take(k + 1)));
        k += 1;
    }
    assert(ls.take(ls.len() as int) =~= ls);
}

/// Appends the lines of a message before its translation.
fn write_head(out: &mut String, m: &Message)
    ensures
        final(out)@ == old(out)@ + head_text(*m),
{
    write_comment(out, "#. ", &m.comments);
    write_comment(out, "#: ", &m.source);
    let ghost a = out@;
    if !m.flags.is_empty() {
        push_str(out, "#, ");
        let f = m.flags.export();
        push_str(out, f.as_str());
        push_str(out, "\n");
    }
    assert(out@ =~= a + flags_text(m.flags@));
    let ghost b = out@;
    if !m.msgctxt.as_str().is_empty() {
        write_field(out, "msgctxt", m.msgctxt.as_str());
    }
    assert(out@ =~= b + (if m.msgctxt@.len() > 0 {
        field_text("msgctxt"@, m.msgctxt@)
    } else {
        Seq::empty()
    }));
    write_field(out, "msgid", m.msgid.as_str());
    assert(final(out)@ =~= old(out)@ + head_text(*m));
}

/// Appends the translation fields of a message.
fn write_body(out: &mut String, body: &MessageBody)
    ensures
        final(out)@ == old(out)@ + body_text(*body),
{
    match body {
        MessageBody::Singular { msgstr } => {
            write_field(out, "msgstr", msgstr.as_str());
        },
        MessageBody::Plural { msgid_plural, msgstr_plural } => {
            write_field(out, "msgid_plural", msgid_plural.as_str());
            let ghost fs = strings_view(msgstr_plural@);
            let ghost mid = out@;
            let mut i: usize = 0;
            while i < msgstr_plural.len()
                invariant
                    0 <= i <= msgstr_plural@.len(),
                    fs == strings_view(msgstr_plural@),
                    out@ == mid + forms_text(fs.take(i as int)),
                decreases msgstr_plural.len() - i,
            {
                assert(fs.take(i + 1).drop_last() =~= fs.take(i as int));
                let mut name = "msgstr[".to_owned();
                push_decimal(&mut name, i);
                push_str(&mut name, "]");
                write_field(out, name.as_str(), msgstr_plural[i].as_str());
                assert(out@ =~= mid + forms_text(fs.take(i + 1)));
                i += 1;
            }
            assert(fs.take(fs.len() as int) =~= fs);
            assert(final(out)@ =~= old(out)@ + body_text(*body));
        },
    }
}

/// Appends one message and the blank line after it.
fn write_message(out: &mut String, m: &Message)
    ensures
        final(out)@ == old(out)@ + message_text(*m),
{
    write_head(out, m);
    write_body(out, &m.body);
    push_str(out, "\n");
    assert(final(out)@ =~= old(out)@ + message_text(*m));
}

/// Writes the metadata block and then `ms`.
fn write_messages(metadata: &CatalogMetadata, ms: &Vec<&Message>) -> (r: String)
    ensures
        r@ == po_text(*metadata, ms@.map_values(|m: &Message| *m)),
{
    let ghost all = ms@.map_values(|m: &Message| *m);
    let mut out = "\nmsgid \"\"\n".to_owned();
    let header = metadata.export_for_po();
    write_field(&mut out, "msgstr", header.as_str());
    push_str(&mut out, "\n");
    let ghost head = out@;
    let mut k: usize = 0;
    while k < ms.len()
        invariant
            0 <= k <= ms@.len(),
            all == ms@.map_values(|m: &Message| *m),
            out@ == head + messages_text(all.take(k as int)),
        decreases ms.len() - k,
    {
        assert(all.take(k + 1).drop_last() =~= all.take(k as int));
        write_message(&mut out, ms[k]);
        assert(out@ =~= head + messages_text(all.take(k + 1)));
        k += 1;
    }
    assert(all.take(all.len() as int) =~= all);
    assert(out@ =~= po_text(*metadata, all));
    out
}

/// A catalog as PO text, its messages in catalog order.
pub fn write(catalog: &Catalog) -> (r: String)
    ensures
        r@ == po_text(catalog.metadata, live_messages(catalog@)),
{
    let ms = catalog.messages();
    assert(ms@.map_values(|m: &Message| *m) =~= live_messages(catalog@));
    write_messages(&catalog.metadata, &ms)
}

/// A catalog as PO text, its messages in the given order: `order[k]` is the
/// position, in catalog order, of the `k`-th message to write. (A caller
/// that sorts with a comparator passes the sorted positions.)
pub fn write_sort_by(catalog: &Catalog, order: &Vec<usize>) -> (r: String)
    requires
        forall|k: int| 0 <= k < order@.len() ==> #[trigger] order@[k] < live_messages(catalog@).len(),
    ensures
        r@ == po_text(
            catalog.metadata,
            order@.map_values(|i: usize| live_messages(catalog@)[i as int]),
        ),
{
    let all = catalog.messages();
    let mut ms: Vec<&Message> = Vec::new();
    let mut k: usize = 0;
    while k < order.len()
        invariant
            0 <= k <= order@.len(),
            all@.len() == live_messages(catalog@).len(),
            forall|j: int| 0 <= j < all@.len() ==> *all@[j] == #[trigger] live_messages(catalog@)[j],
            forall|j: int| 0 <= j < order@.len() ==> #[trigger] order@[j] < live_messages(catalog@).len(),
            ms@.len() == k,
            forall|j: int| 0 <= j < k ==> *ms@[j] == live_messages(catalog@)[order@[j] as int],
        decreases order.len() - k,
    {
        ms.push(all[order[k]]);
        k += 1;
    }
    assert(ms@.map_values(|m: &Message| *m) =~= order@.map_values(
        |i: usize| live_messages(catalog@)[i as int],
    ));
    write_messages(&catalog.metadata, &ms)
}

} // verus!
