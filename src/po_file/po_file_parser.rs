//! The PO parser: a line-by-line state machine that fills a catalog.

use vstd::prelude::*;
use crate::catalog::{appended, Catalog, Slots};
use crate::message::{parsed_flags, strings_view, Message, MessageBody, MessageFlags};
use crate::metadata::{header_ok, CatalogMetadata};
use crate::po_file::escape::{unescape, unescaped};
use crate::text::{chars_of, push_char, push_chars, split, split_chars};

verus! {

/// Options of the PO parser.
#[derive(Clone, Copy, Debug)]
pub struct POParseOptions {
    /// Only read `msgctxt`, `msgid`, `msgid_plural` and the translations;
    /// comments, source locations and flags are skipped.
    pub message_body_only: bool,
    /// Drop the messages that are not translated.
    pub translated_only: bool,
    /// Skip UTF-8 validation of the input (for callers that read bytes).
    pub unsafe_utf8_decode: bool,
}

impl POParseOptions {
    /// The default options: everything is read and kept.
    pub fn new() -> (r: Self)
        ensures
            !r.message_body_only,
            !r.translated_only,
            !r.unsafe_utf8_decode,
    {
        POParseOptions { message_body_only: false, translated_only: false, unsafe_utf8_decode: false }
    }
}

/// Error in parsing a PO file.
#[derive(Debug)]
pub struct POParseError {
    /// What is wrong.
    pub message: String,
}

impl POParseError {
    /// An error with the given description.
    pub fn new(s: &str) -> (r: Self)
        ensures
            r.message@ == s@,
    {
        POParseError { message: s.to_owned() }
    }
}

/// The buffer that continuation lines (`"..."`) append to.
#[derive(Clone, Copy, Debug)]
pub enum POMessageField {
    /// No field selected yet.
    Unset,
    /// `#. ` developer comments.
    Comments,
    /// `#: ` source locations.
    Source,
    /// `#, ` flags.
    Flags,
    /// `msgctxt`.
    Context,
    /// `msgid`.
    ID,
    /// `msgid_plural`.
    IDPlural,
    /// `msgstr`.
    Translated,
    /// `msgstr[N]`.
    TranslatedPlural(usize),
}

/// A message as read so far: its fields still escaped as in the file.
#[derive(Debug)]
pub struct POMessage {
    /// `#. ` lines, joined with line breaks.
    pub comments: String,
    /// `#: ` lines, joined with line breaks.
    pub source: String,
    /// `#, ` lines, joined with commas.
    pub flags: String,
    /// `msgctxt`.
    pub msgctxt: String,
    /// `msgid`.
    pub msgid: String,
    /// `msgid_plural`.
    pub msgid_plural: String,
    /// `msgstr`.
    pub msgstr: String,
    /// `msgstr[N]`, by `N`.
    pub msgstr_plural: Vec<String>,
}

/// The characters of the fields of a `POMessage`.
pub struct PendingView {
    /// `#. ` lines.
    pub comments: Seq<char>,
    /// `#: ` lines.
    pub source: Seq<char>,
    /// `#, ` lines.
    pub flags: Seq<char>,
    /// `msgctxt`.
    pub msgctxt: Seq<char>,
    /// `msgid`.
    pub msgid: Seq<char>,
    /// `msgid_plural`.
    pub msgid_plural: Seq<char>,
    /// `msgstr`.
    pub msgstr: Seq<char>,
    /// `msgstr[N]`, by `N`.
    pub msgstr_plural: Seq<Seq<char>>,
}

impl View for POMessage {
    type V = PendingView;

    open spec fn view(&self) -> PendingView {
        PendingView {
            comments: self.comments@,
            source: self.source@,
            flags: self.flags@,
            msgctxt: self.msgctxt@,
            msgid: self.msgid@,
            msgid_plural: self.msgid_plural@,
            msgstr: self.msgstr@,
            msgstr_plural: crate::message::strings_view(self.msgstr_plural@),
        }
    }
}

/// The message with nothing read yet.
pub open spec fn empty_pending() -> PendingView {
    PendingView {
        comments: Seq::empty(),
        source: Seq::empty(),
        flags: Seq::empty(),
        msgctxt: Seq::empty(),
        msgid: Seq::empty(),
        msgid_plural: Seq::empty(),
        msgstr: Seq::empty(),
        msgstr_plural: Seq::empty(),
    }
}

/// `v` extended with empty strings to at least `n` entries.
pub open spec fn padded(v: Seq<Seq<char>>, n: int) -> Seq<Seq<char>> {
    if v.len() >= n {
        v
    } else {
        v + Seq::new((n - v.len()) as nat, |i: int| Seq::<char>::empty())
    }
}

/// The text of field `f` of `p` (empty for `None`).
pub open spec fn field_text(p: PendingView, f: POMessageField) -> Seq<char> {
    match f {
        POMessageField::Unset => Seq::empty(),
        POMessageField::Comments => p.comments,
        POMessageField::Source => p.source,
        POMessageField::Flags => p.flags,
        POMessageField::Context => p.msgctxt,
        POMessageField::ID => p.msgid,
        POMessageField::IDPlural => p.msgid_plural,
        POMessageField::Translated => p.msgstr,
        POMessageField::TranslatedPlural(i) => if i < p.msgstr_plural.len() {
            p.msgstr_plural[i as int]
        } else {
            Seq::empty()
        },
    }
}

/// `p` with field `f` holding `t` (plural forms are first padded to reach
/// form `N`). Nothing changes for `None`.
pub open spec fn with_field(p: PendingView, f: POMessageField, t: Seq<char>) -> PendingView {
    match f {
        POMessageField::Unset => p,
        POMessageField::Comments => PendingView { comments: t, ..p },
        POMessageField::Source => PendingView { source: t, ..p },
        POMessageField::Flags => PendingView { flags: t, ..p },
        POMessageField::Context => PendingView { msgctxt: t, ..p },
        POMessageField::ID => PendingView { msgid: t, ..p },
        POMessageField::IDPlural => PendingView { msgid_plural: t, ..p },
        POMessageField::Translated => PendingView { msgstr: t, ..p },
        POMessageField::TranslatedPlural(i) => PendingView {
            msgstr_plural: padded(p.msgstr_plural, i + 1).update(i as int, t),
            ..p
        },
    }
}

/// `data` appended to field `f`.
pub open spec fn filled(p: PendingView, f: POMessageField, data: Seq<char>) -> PendingView {
    with_field(p, f, field_text(p, f) + data)
}

/// `data` appended to field `f` as a new entry: flags are joined with a
/// comma; comments and source locations with a line break, which goes
/// first when the field is non-empty and does not end with one.
pub open spec fn filled_line(p: PendingView, f: POMessageField, data: Seq<char>) -> PendingView {
    let t = field_text(p, f);
    if f is Flags {
        if t.len() > 0 {
            with_field(p, f, t.push(',') + data)
        } else {
            with_field(p, f, data)
        }
    } else if t.len() > 0 && t.last() != '\n' {
        with_field(p, f, t.push('\n') + data)
    } else {
        with_field(p, f, t + data)
    }
}

/// Whether `s` starts with `p`.
pub open spec fn starts_with(s: Seq<char>, p: Seq<char>) -> bool {
    p.len() <= s.len() && s.take(p.len() as int) == p
}

/// The field that a comment line selects: `#. `, `#: ` or `#, `.
pub open spec fn comment_field(line: Seq<char>) -> Option<POMessageField> {
    if starts_with(line, "#. "@) {
        Some(POMessageField::Comments)
    } else if starts_with(line, "#: "@) {
        Some(POMessageField::Source)
    } else if starts_with(line, "#, "@) {
        Some(POMessageField::Flags)
    } else {
        None
    }
}

/// The field that a keyword line selects, with the length of its keyword
/// and the space after it.
pub open spec fn keyword_field(line: Seq<char>) -> Option<(POMessageField, int)> {
    if starts_with(line, "msgctxt "@) {
        Some((POMessageField::Context, 8))
    } else if starts_with(line, "msgid "@) {
        Some((POMessageField::ID, 6))
    } else if starts_with(line, "msgid_plural "@) {
        Some((POMessageField::IDPlural, 13))
    } else if starts_with(line, "msgstr "@) {
        Some((POMessageField::Translated, 7))
    } else if line.len() >= 10 && starts_with(line, "msgstr["@) && '0' <= line[7] && line[7]
        <= '9' && line[8] == ']' && line[9] == ' ' {
        Some((POMessageField::TranslatedPlural((line[7] as u32 - '0' as u32) as usize), 10))
    } else {
        None
    }
}

/// The text between the first and the last character of `s` (the quotes
/// of a quoted field).
pub open spec fn unquoted(s: Seq<char>) -> Seq<char> {
    s.subrange(1, s.len() - 1)
}

} // verus!

verus! {

/// What a non-empty line does to the parser.
pub enum LineEffect {
    /// Nothing changes.
    Keep,
    /// The field is selected and the message becomes the given one.
    Select(POMessageField, PendingView),
    /// The line is malformed.
    Fail,
}

/// The plural forms padded to `n` entries when `f` is `msgid_plural`.
pub open spec fn presized(p: PendingView, f: POMessageField, n: usize) -> PendingView {
    match f {
        POMessageField::IDPlural => PendingView { msgstr_plural: padded(p.msgstr_plural, n as int), ..p },
        _ => p,
    }
}

/// The effect of the non-empty line `line` on a parser whose message is
/// `p`, whose selected field is `f`, and whose catalog declares `nplurals`
/// plural forms.
pub open spec fn line_effect(
    p: PendingView,
    f: POMessageField,
    body_only: bool,
    nplurals: usize,
    line: Seq<char>,
) -> LineEffect {
    if line[0] == '#' {
        if body_only {
            LineEffect::Keep
        } else {
            match comment_field(line) {
                Some(g) => LineEffect::Select(g, filled_line(p, g, line.subrange(3, line.len() as int))),
                None => LineEffect::Keep,
            }
        }
    } else if line[0] == 'm' {
        match keyword_field(line) {
            Some((g, n)) => if line.len() < n + 2 {
                LineEffect::Fail
            } else {
                LineEffect::Select(g, filled(presized(p, g, nplurals), g, unquoted(line.subrange(n, line.len() as int))))
            },
            None => LineEffect::Keep,
        }
    } else if line[0] == '"' {
        if line.len() < 2 || f is Unset {
            LineEffect::Fail
        } else {
            LineEffect::Select(f, filled(p, f, unquoted(line)))
        }
    } else {
        LineEffect::Keep
    }
}

/// Whether a message is plural: it has a non-empty `msgid_plural`.
pub open spec fn pending_plural(p: PendingView) -> bool {
    p.msgid_plural.len() > 0
}

/// Whether a message read from the file counts as translated: a non-empty
/// `msgstr`, or plural forms that are all non-empty.
pub open spec fn pending_translated(p: PendingView) -> bool {
    if pending_plural(p) {
        crate::message::all_non_empty(p.msgstr_plural)
    } else {
        p.msgstr.len() > 0
    }
}

/// Whether every quoted field of the message unescapes.
pub open spec fn pending_unescapes(p: PendingView) -> bool {
    &&& unescaped(p.msgctxt) is Some
    &&& unescaped(p.msgid) is Some
    &&& if pending_plural(p) {
        &&& unescaped(p.msgid_plural) is Some
        &&& forall|i: int| 0 <= i < p.msgstr_plural.len() ==> (#[trigger] unescaped(p.msgstr_plural[i])) is Some
    } else {
        unescaped(p.msgstr) is Some
    }
}

/// Whether `m` is the message built from `p`: quoted fields unescaped,
/// flags parsed, comments and source kept as they are.
pub open spec fn built_from(m: Message, p: PendingView) -> bool {
    &&& m.comments@ == p.comments
    &&& m.source@ == p.source
    &&& m.flags@ == parsed_flags(p.flags)
    &&& unescaped(p.msgctxt) == Some(m.msgctxt@)
    &&& unescaped(p.msgid) == Some(m.msgid@)
    &&& if pending_plural(p) {
        m.body matches MessageBody::Plural { msgid_plural: q, msgstr_plural: v } && unescaped(
            p.msgid_plural,
        ) == Some(q@) && v@.len() == p.msgstr_plural.len() && forall|i: int|
            0 <= i < v@.len() ==> unescaped(p.msgstr_plural[i]) == Some(#[trigger] v@[i]@)
    } else {
        m.body matches MessageBody::Singular { msgstr: s } && unescaped(p.msgstr) == Some(s@)
    }
}

/// Whether the first message is a valid metadata block: empty `msgid`, a
/// non-empty `msgstr` that unescapes to a valid header.
pub open spec fn header_message_ok(p: PendingView) -> bool {
    &&& p.msgid.len() == 0
    &&& p.msgstr.len() > 0
    &&& unescaped(p.msgstr) is Some
    &&& header_ok(unescaped(p.msgstr)->0)
}

/// The state of the PO parser between two lines.
pub struct POParserState {
    /// Whether a message has been started since the last save.
    pub dirty: bool,
    /// Whether the metadata block has been read.
    pub metadata_parsed: bool,
    /// The parse options.
    pub options: POParseOptions,
    /// The message being read.
    pub current_message: POMessage,
    /// The field that continuation lines go to.
    pub current_field: POMessageField,
    /// The catalog filled so far.
    pub catalog: Catalog,
}

impl POParserState {
    /// The catalog is well formed and a selected plural form is one that a
    /// line can name (0 to 9).
    pub open spec fn wf(&self) -> bool {
        &&& self.catalog.wf()
        &&& self.current_field matches POMessageField::TranslatedPlural(i) ==> i < 10
    }

    /// The state before the first line.
    pub fn new(options: &POParseOptions) -> (r: Self)
        ensures
            r.wf(),
            !r.dirty,
            !r.metadata_parsed,
            r.options == *options,
            r.current_message@ == empty_pending(),
            r.current_field is Unset,
            r.catalog@ == Slots::empty(),
            r.catalog.metadata.plural_rules.nplurals == 1,
    {
        POParserState {
            dirty: false,
            metadata_parsed: false,
            options: *options,
            current_message: POMessage::new(),
            current_field: POMessageField::Unset,
            catalog: Catalog::empty(),
        }
    }

    /// Appends `v[lo..hi]` to the selected field.
    fn fill_field(&mut self, v: &Vec<char>, lo: usize, hi: usize) -> (r: Result<(), POParseError>)
        requires
            lo <= hi <= v@.len(),
            old(self).wf(),
        ensures
            r is Ok == !(old(self).current_field is Unset),
            r is Ok ==> final(self).current_message@ == filled(
                old(self).current_message@,
                old(self).current_field,
                v@.subrange(lo as int, hi as int),
            ),
            final(self).current_field == old(self).current_field,
            final(self).dirty == old(self).dirty,
            final(self).metadata_parsed == old(self).metadata_parsed,
            final(self).options == old(self).options,
            final(self).catalog == old(self).catalog,
    {
        let ghost data = v@.subrange(lo as int, hi as int);
        let ghost p = self.current_message@;
        match self.current_field {
            POMessageField::Unset => {
                return Err(POParseError::new("continuation line without a field"));
            },
            POMessageField::Comments => push_chars(&mut self.current_message.comments, v, lo, hi),
            POMessageField::Source => push_chars(&mut self.current_message.source, v, lo, hi),
            POMessageField::Flags => push_chars(&mut self.current_message.flags, v, lo, hi),
            POMessageField::Context => push_chars(&mut self.current_message.msgctxt, v, lo, hi),
            POMessageField::ID => push_chars(&mut self.current_message.msgid, v, lo, hi),
            POMessageField::IDPlural => push_chars(&mut self.current_message.msgid_plural, v, lo, hi),
            POMessageField::Translated => push_chars(&mut self.current_message.msgstr, v, lo, hi),
            POMessageField::TranslatedPlural(i) => {
                pad_forms(&mut self.current_message.msgstr_plural, i + 1);
                assert(strings_view(self.current_message.msgstr_plural@).len() >= i + 1);
                let ghost q = strings_view(self.current_message.msgstr_plural@);
                self.current_message.msgstr_plural.push(String::new());
                let mut s = self.current_message.msgstr_plural.swap_remove(i);
                push_chars(&mut s, v, lo, hi);
                self.current_message.msgstr_plural.push(s);
                let _e = self.current_message.msgstr_plural.swap_remove(i);
                assert(strings_view(self.current_message.msgstr_plural@) =~= q.update(i as int, q[i as int] + data));
            },
        }
        assert(self.current_message@ == filled(p, self.current_field, data));
        Ok(())
    }

    /// Appends `v[lo..hi]` as a new entry of the selected comment field.
    fn fill_field_with_newline(&mut self, v: &Vec<char>, lo: usize, hi: usize)
        requires
            lo <= hi <= v@.len(),
            old(self).current_field is Comments || old(self).current_field is Source
                || old(self).current_field is Flags,
        ensures
            final(self).current_message@ == filled_line(
                old(self).current_message@,
                old(self).current_field,
                v@.subrange(lo as int, hi as int),
            ),
            final(self).current_field == old(self).current_field,
            final(self).dirty == old(self).dirty,
            final(self).metadata_parsed == old(self).metadata_parsed,
            final(self).options == old(self).options,
            final(self).catalog == old(self).catalog,
    {
        match self.current_field {
            POMessageField::Comments => append_line(&mut self.current_message.comments, v, lo, hi),
            POMessageField::Source => append_line(&mut self.current_message.source, v, lo, hi),
            _ => {
                if !self.current_message.flags.as_str().is_empty() {
                    push_char(&mut self.current_message.flags, ',');
                }
                push_chars(&mut self.current_message.flags, v, lo, hi);
                assert(self.current_message@ =~= filled_line(
                    old(self).current_message@,
                    old(self).current_field,
                    v@.subrange(lo as int, hi as int),
                ));
            },
        }
    }
}

/// Whether saving the message of `pre` gives `post`, successfully when
/// `ok`. The first message must be the metadata block; a later one is
/// added to the catalog unless it is untranslated and only translated
/// messages are kept.
pub open spec fn saved(pre: POParserState, post: POParserState, ok: bool) -> bool {
    let p = pre.current_message@;
    if !pre.metadata_parsed {
        &&& ok == header_message_ok(p)
        &&& ok ==> post.metadata_parsed && post.catalog@ == pre.catalog@
            && post.catalog.metadata.parsed_from(unescaped(p.msgstr)->0)
    } else if pending_translated(p) || !pre.options.translated_only {
        &&& ok == (pending_unescapes(p) && pre.catalog@.len() < usize::MAX)
        &&& ok ==> post.metadata_parsed && post.catalog.metadata == pre.catalog.metadata && exists|
            m: Message,
        | built_from(m, p) && post.catalog@ == appended(pre.catalog@, m)
    } else {
        ok && post.metadata_parsed && post.catalog == pre.catalog
    }
}

/// A message read before the metadata block that has a non-empty `msgid`
/// cannot be saved: the first message of a PO file must be its metadata.
pub proof fn lemma_metadata_comes_first(pre: POParserState, post: POParserState, ok: bool)
    requires
        !pre.metadata_parsed,
        pre.current_message@.msgid.len() > 0,
        saved(pre, post, ok),
    ensures
        !ok,
{
}

/// Whether consuming `line` takes the parser from `pre` to `post`,
/// successfully when `ok`. An empty line ends the message being read, if
/// any.
#[verifier::opaque]
pub open spec fn consumed(pre: POParserState, post: POParserState, line: Seq<char>, ok: bool) -> bool {
    if line.len() == 0 {
        if pre.dirty {
            &&& saved(pre, post, ok)
            &&& ok ==> !post.dirty && post.current_message@ == empty_pending() && post.current_field
                == pre.current_field && post.options == pre.options
        } else {
            ok && post == pre
        }
    } else {
        match line_effect(
            pre.current_message@,
            pre.current_field,
            pre.options.message_body_only,
            pre.catalog.metadata.plural_rules.nplurals,
            line,
        ) {
            LineEffect::Keep => ok && post == pre,
            LineEffect::Select(f, p) => {
                &&& ok
                &&& post.current_field == f
                &&& post.current_message@ == p
                &&& post.dirty
                &&& post.metadata_parsed == pre.metadata_parsed
                &&& post.options == pre.options
                &&& post.catalog == pre.catalog
            },
            LineEffect::Fail => !ok,
        }
    }
}

impl POParserState {
    /// Ends the message being read: the first one is parsed as the
    /// metadata block, a later one goes into the catalog.
    #[verifier::loop_isolation(false)]
    fn save_message(&mut self) -> (r: Result<(), POParseError>)
        requires
            old(self).wf(),
        ensures
            final(self).wf(),
            final(self).current_message@ == empty_pending(),
            final(self).current_field == old(self).current_field,
            final(self).dirty == old(self).dirty,
            final(self).options == old(self).options,
            saved(*old(self), *final(self), r is Ok),
    {
        let mut pending = POMessage::new();
        std::mem::swap(&mut pending, &mut self.current_message);
        let ghost p = pending@;
        if !self.metadata_parsed {
            if pending.msgid.as_str().is_empty() && !pending.msgstr.as_str().is_empty() {
                let text = match unescape(pending.msgstr.as_str()) {
                    Ok(t) => t,
                    Err(e) => {
                        return Err(POParseError { message: e.message() });
                    },
                };
                match CatalogMetadata::parse(text.as_str()) {
                    Ok(m) => {
                        self.catalog.metadata = m;
                        self.metadata_parsed = true;
                        Ok(())
                    },
                    Err(e) => Err(POParseError { message: e.message }),
                }
            } else {
                Err(POParseError::new("metadata does not exist or is ill-formed"))
            }
        } else if pending.is_translated() || !self.options.translated_only {
            let msgctxt = match unescape(pending.msgctxt.as_str()) {
                Ok(t) => t,
                Err(e) => {
                    return Err(POParseError { message: e.message() });
                },
            };
            let msgid = match unescape(pending.msgid.as_str()) {
                Ok(t) => t,
                Err(e) => {
                    return Err(POParseError { message: e.message() });
                },
            };
            let body = if pending.is_plural() {
                let msgid_plural = match unescape(pending.msgid_plural.as_str()) {
                    Ok(t) => t,
                    Err(e) => {
                        return Err(POParseError { message: e.message() });
                    },
                };
                let mut forms: Vec<String> = Vec::new();
                let mut i: usize = 0;
                while i < pending.msgstr_plural.len()
                    invariant
                        0 <= i <= pending.msgstr_plural@.len(),
                        p == pending@,
                        forms@.len() == i,
                        forall|j: int| 0 <= j < i ==> (#[trigger] unescaped(p.msgstr_plural[j])) is Some,
                        forall|j: int| 0 <= j < i ==> unescaped(p.msgstr_plural[j]) == Some(#[trigger] forms@[j]@),
                    decreases pending.msgstr_plural.len() - i,
                {
                    match unescape(pending.msgstr_plural[i].as_str()) {
                        Ok(t) => {
                            forms.push(t);
                        },
                        Err(e) => {
                            assert(unescaped(p.msgstr_plural[i as int]) is None);
                            return Err(POParseError { message: e.message() });
                        },
                    }
                    i += 1;
                }
                MessageBody::Plural { msgid_plural, msgstr_plural: forms }
            } else {
                match unescape(pending.msgstr.as_str()) {
                    Ok(t) => MessageBody::Singular { msgstr: t },
                    Err(e) => {
                        return Err(POParseError { message: e.message() });
                    },
                }
            };
            if self.catalog.slots_len() == usize::MAX {
                return Err(POParseError::new("too many messages"));
            }
            let flags = MessageFlags::parse(pending.flags.as_str());
            let m = Message {
                comments: pending.comments,
                source: pending.source,
                flags,
                msgctxt,
                msgid,
                body,
            };
            assert(built_from(m, p));
            self.catalog.append_or_update(m);
            Ok(())
        } else {
            Ok(())
        }
    }

    /// Reads one line of a PO file (without its line terminator).
    pub fn consume_line(&mut self, line: &str) -> (r: Result<(), POParseError>)
        requires
            old(self).wf(),
        ensures
            r is Ok ==> final(self).wf(),
            consumed(*old(self), *final(self), line@, r is Ok),
    {
        let v = chars_of(line);
        self.consume_chars(&v)
    }

    /// Reads one line as it came from a reader: a trailing line feed, then
    /// a trailing carriage return, are taken off first.
    pub fn consume_raw_line(&mut self, line: &str) -> (r: Result<(), POParseError>)
        requires
            old(self).wf(),
        ensures
            r is Ok ==> final(self).wf(),
            consumed(*old(self), *final(self), without_cr(without_lf(line@)), r is Ok),
    {
        let v = chars_of(line);
        let mut end = v.len();
        if end > 0 && v[end - 1] == '\n' {
            end -= 1;
        }
        if end > 0 && v[end - 1] == '\r' {
            end -= 1;
        }
        let mut l: Vec<char> = Vec::new();
        let mut i: usize = 0;
        while i < end
            invariant
                0 <= i <= end <= v@.len(),
                l@ == v@.take(i as int),
            decreases end - i,
        {
            l.push(v[i]);
            assert(l@ =~= v@.take(i + 1));
            i += 1;
        }
        assert(l@ =~= without_cr(without_lf(line@)));
        self.consume_chars(&l)
    }

    /// Ends the input: reads the empty line that saves the last message,
    /// then hands over the catalog, or fails when no metadata block was
    /// found.
    pub fn finish(self) -> (r: Result<Catalog, POParseError>)
        requires
            self.wf(),
        ensures
            match r {
                Ok(c) => c.wf() && exists|post: POParserState|
                    consumed(self, post, Seq::empty(), true) && post.metadata_parsed && c == post.catalog,
                Err(_) => exists|post: POParserState|
                    consumed(self, post, Seq::empty(), false) || (consumed(self, post, Seq::empty(), true)
                        && !post.metadata_parsed),
            },
    {
        let mut state = self;
        let empty: Vec<char> = Vec::new();
        match state.consume_chars(&empty) {
            Ok(()) => {},
            Err(e) => {
                return Err(e);
            },
        }
        if !state.metadata_parsed {
            return Err(POParseError::new("metadata does not exist"));
        }
        Ok(state.catalog)
    }

    /// Reads one line, given as characters.
    fn consume_chars(&mut self, v: &Vec<char>) -> (r: Result<(), POParseError>)
        requires
            old(self).wf(),
        ensures
            r is Ok ==> final(self).wf(),
            consumed(*old(self), *final(self), v@, r is Ok),
    {
        reveal(consumed);
        let n = v.len();
        if n == 0 {
            if self.dirty {
                self.save_message()?;
                self.dirty = false;
            }
            return Ok(());
        }
        proof {
            reveal_strlit("#. ");
            reveal_strlit("#: ");
            reveal_strlit("#, ");
            reveal_strlit("msgctxt ");
            reveal_strlit("msgid ");
            reveal_strlit("msgid_plural ");
            reveal_strlit("msgstr ");
            reveal_strlit("msgstr[");
        }
        if v[0] == '#' {
            if !self.options.message_body_only {
                let f = if has_prefix(v, "#. ") {
                    POMessageField::Comments
                } else if has_prefix(v, "#: ") {
                    POMessageField::Source
                } else if has_prefix(v, "#, ") {
                    POMessageField::Flags
                } else {
                    return Ok(());
                };
                self.current_field = f;
                self.fill_field_with_newline(v, 3, n);
                self.dirty = true;
            }
            Ok(())
        } else if v[0] == 'm' {
            let (f, k) = if has_prefix(v, "msgctxt ") {
                (POMessageField::Context, 8usize)
            } else if has_prefix(v, "msgid ") {
                (POMessageField::ID, 6usize)
            } else if has_prefix(v, "msgid_plural ") {
                (POMessageField::IDPlural, 13usize)
            } else if has_prefix(v, "msgstr ") {
                (POMessageField::Translated, 7usize)
            } else if n >= 10 && has_prefix(v, "msgstr[") && '0' <= v[7] && v[7] <= '9' && v[8]
                == ']' && v[9] == ' ' {
                (POMessageField::TranslatedPlural((v[7] as u32 - '0' as u32) as usize), 10usize)
            } else {
                return Ok(());
            };
            assert(keyword_field(v@) == Some((f, k as int)));
            if n < k + 2 {
                return Err(POParseError::new("field content is not quoted"));
            }
            if let POMessageField::IDPlural = f {
                let forms = self.catalog.metadata.plural_rules.nplurals;
                pad_forms(&mut self.current_message.msgstr_plural, forms);
            }
            self.current_field = f;
            assert(unquoted(v@.subrange(k as int, n as int)) =~= v@.subrange(k + 1, n - 1));
            let _ = self.fill_field(v, k + 1, n - 1);
            self.dirty = true;
            Ok(())
        } else if v[0] == '"' {
            if n < 2 {
                return Err(POParseError::new("continuation line is not quoted"));
            }
            self.fill_field(v, 1, n - 1)?;
            self.dirty = true;
            Ok(())
        } else {
            Ok(())
        }
    }
}

/// A line without the line feed that may end it.
pub open spec fn without_lf(l: Seq<char>) -> Seq<char> {
    if l.len() > 0 && l.last() == '\n' {
        l.drop_last()
    } else {
        l
    }
}

/// A line without the carriage return that may end it.
pub open spec fn without_cr(l: Seq<char>) -> Seq<char> {
    if l.len() > 0 && l.last() == '\r' {
        l.drop_last()
    } else {
        l
    }
}

/// The lines of a PO buffer as the parser reads them: split at line
/// feeds, a trailing carriage return taken off each, and one empty line
/// after the last so that the last message is saved.
pub open spec fn po_lines(text: Seq<char>) -> Seq<Seq<char>> {
    split(text, '\n').map_values(|l: Seq<char>| without_cr(l)).push(Seq::empty())
}

/// Whether `s` is the parser state before the first line.
pub open spec fn initial(s: POParserState, options: POParseOptions) -> bool {
    &&& s.wf()
    &&& !s.dirty
    &&& !s.metadata_parsed
    &&& s.options == options
    &&& s.current_message@ == empty_pending()
    &&& s.current_field is Unset
    &&& s.catalog@ == Slots::empty()
    &&& s.catalog.metadata.plural_rules.nplurals == 1
}

/// Whether `trace` runs the parser from its initial state through the
/// first `k` lines, each one read successfully.
pub open spec fn ran(trace: Seq<POParserState>, options: POParseOptions, lines: Seq<Seq<char>>, k: int) -> bool {
    &&& 0 <= k <= lines.len()
    &&& trace.len() == k + 1
    &&& initial(trace[0], options)
    &&& forall|i: int| 0 <= i < k ==> consumed(#[trigger] trace[i], trace[i + 1], lines[i], true)
}

/// Whether `trace` runs the parser through the first `k` lines and line
/// `k` then fails.
pub open spec fn failed_at(trace: Seq<POParserState>, options: POParseOptions, lines: Seq<Seq<char>>, k: int) -> bool {
    &&& ran(trace, options, lines, k)
    &&& k < lines.len()
    &&& exists|post: POParserState| consumed(trace.last(), post, lines[k], false)
}

proof fn lemma_ran_step(
    trace: Seq<POParserState>,
    options: POParseOptions,
    lines: Seq<Seq<char>>,
    k: int,
    post: POParserState,
)
    requires
        ran(trace, options, lines, k),
        k < lines.len(),
        consumed(trace.last(), post, lines[k], true),
    ensures
        ran(trace.push(post), options, lines, k + 1),
        trace.push(post).last() == post,
{
    let t = trace.push(post);
    assert forall|i: int| 0 <= i < k + 1 implies consumed(#[trigger] t[i], t[i + 1], lines[i], true) by {
        if i < k {
            assert(t[i] == trace[i] && t[i + 1] == trace[i + 1]);
        } else {
            assert(t[i] == trace.last());
        }
    }
}

/// Parses a whole PO buffer. The result is what running the parser over
/// the lines of `text` gives: the catalog of the last state when every line
/// was read and the metadata block was found; an error when a line fails
/// or the buffer has no metadata block.
pub fn parse_text(text: &str, options: &POParseOptions) -> (r: Result<Catalog, POParseError>)
    ensures
        match r {
            Ok(c) => exists|trace: Seq<POParserState>|
                ran(trace, *options, po_lines(text@), po_lines(text@).len() as int)
                    && trace.last().metadata_parsed && c == trace.last().catalog && c.wf(),
            Err(_) => (exists|trace: Seq<POParserState>, k: int|
                #[trigger] failed_at(trace, *options, po_lines(text@), k)) || (exists|trace: Seq<POParserState>|
                ran(trace, *options, po_lines(text@), po_lines(text@).len() as int)
                    && !trace.last().metadata_parsed),
        },
{
    let v = chars_of(text);
    let raw = split_chars(&v, '\n');
    let ghost lines = po_lines(text@);
    let mut state = POParserState::new(options);
    let ghost mut trace: Seq<POParserState> = seq![state];
    let mut k: usize = 0;
    while k < raw.len()
        invariant
            0 <= k <= raw@.len(),
            v@ == text@,
            raw@.len() == split(v@, '\n').len(),
            forall|j: int| 0 <= j < raw@.len() ==> (#[trigger] raw@[j])@ == split(v@, '\n')[j],
            lines == po_lines(text@),
            lines.len() == raw@.len() + 1,
            ran(trace, *options, lines, k as int),
            trace.last() == state,
            state.wf(),
        decreases raw.len() - k,
    {
        let line = line_at(&raw, k);
        assert(lines[k as int] == without_cr(split(v@, '\n')[k as int]));
        let ghost pre = state;
        match state.consume_chars(&line) {
            Ok(()) => {},
            Err(e) => {
                assert(failed_at(trace, *options, lines, k as int));
                return Err(e);
            },
        }
        proof {
            lemma_ran_step(trace, *options, lines, k as int, state);
            trace = trace.push(state);
        }
        k += 1;
    }
    let last = line_at(&raw, k);
    assert(lines[k as int] == Seq::<char>::empty());
    assert(last@ == lines[k as int]);
    match state.consume_chars(&last) {
        Ok(()) => {},
        Err(e) => {
            assert(failed_at(trace, *options, lines, k as int));
            return Err(e);
        },
    }
    proof {
        lemma_ran_step(trace, *options, lines, k as int, state);
        trace = trace.push(state);
    }
    if !state.metadata_parsed {
        return Err(POParseError::new("metadata does not exist"));
    }
    Ok(state.catalog)
}

/// Line `k` of `raw` without a trailing carriage return; empty past the
/// end.
fn line_at(raw: &Vec<Vec<char>>, k: usize) -> (r: Vec<char>)
    ensures
        k < raw@.len() ==> r@ == without_cr(raw@[k as int]@),
        k >= raw@.len() ==> r@ == Seq::<char>::empty(),
{
    let mut line: Vec<char> = Vec::new();
    if k < raw.len() {
        let l = &raw[k];
        let mut end = l.len();
        if end > 0 && l[end - 1] == '\r' {
            end -= 1;
        }
        let mut i: usize = 0;
        while i < end
            invariant
                0 <= i <= end <= l@.len(),
                line@ == l@.take(i as int),
            decreases end - i,
        {
            line.push(l[i]);
            assert(line@ =~= l@.take(i + 1));
            i += 1;
        }
        assert(line@ =~= without_cr(l@));
    } else {
        assert(line@ =~= Seq::<char>::empty());
    }
    line
}

/// Whether `v` starts with `p`.
fn has_prefix(v: &Vec<char>, p: &str) -> (r: bool)
    ensures
        r == starts_with(v@, p@),
{
    let q = chars_of(p);
    if q.len() > v.len() {
        return false;
    }
    let mut i: usize = 0;
    while i < q.len()
        invariant
            0 <= i <= q@.len() <= v@.len(),
            q@ == p@,
            forall|j: int| 0 <= j < i ==> v@[j] == q@[j],
        decreases q.len() - i,
    {
        if v[i] != q[i] {
            assert(v@.take(q@.len() as int)[i as int] != p@[i as int]);
            return false;
        }
        i += 1;
    }
    assert(v@.take(q@.len() as int) =~= p@);
    true
}

impl POMessage {
    /// A message with every field empty.
    pub fn new() -> (r: Self)
        ensures
            r@ == empty_pending(),
    {
        let r = POMessage {
            comments: String::new(),
            source: String::new(),
            flags: String::new(),
            msgctxt: String::new(),
            msgid: String::new(),
            msgid_plural: String::new(),
            msgstr: String::new(),
            msgstr_plural: Vec::new(),
        };
        assert(r@.msgstr_plural =~= Seq::<Seq<char>>::empty());
        r
    }

    /// Whether the message is plural: it has a non-empty `msgid_plural`.
    pub fn is_plural(&self) -> (r: bool)
        ensures
            r == pending_plural(self@),
    {
        !self.msgid_plural.as_str().is_empty()
    }

    /// Whether the message counts as translated: a non-empty `msgstr`, or
    /// plural forms that are all non-empty.
    pub fn is_translated(&self) -> (r: bool)
        ensures
            r == pending_translated(self@),
    {
        if self.is_plural() {
            let mut i: usize = 0;
            while i < self.msgstr_plural.len()
                invariant
                    0 <= i <= self.msgstr_plural@.len(),
                    pending_plural(self@),
                    forall|j: int| 0 <= j < i ==> self.msgstr_plural@[j]@.len() > 0,
                decreases self.msgstr_plural.len() - i,
            {
                if self.msgstr_plural[i].as_str().is_empty() {
                    assert(strings_view(self.msgstr_plural@)[i as int].len() == 0);
                    return false;
                }
                i += 1;
            }
            assert(crate::message::all_non_empty(strings_view(self.msgstr_plural@)));
            true
        } else {
            !self.msgstr.as_str().is_empty()
        }
    }
}

/// Pads `v` with empty strings to at least `n` entries.
fn pad_forms(v: &mut Vec<String>, n: usize)
    ensures
        strings_view(final(v)@) == padded(strings_view(old(v)@), n as int),
{
    let ghost o = strings_view(v@);
    while v.len() < n
        invariant
            v@.len() >= o.len(),
            forall|j: int| 0 <= j < o.len() ==> (#[trigger] v@[j])@ == o[j],
            forall|j: int| o.len() <= j < v@.len() ==> (#[trigger] v@[j])@.len() == 0,
            v@.len() == o.len() || v@.len() <= n,
            o == strings_view(old(v)@),
        decreases n - v.len(),
    {
        v.push(String::new());
    }
    let ghost w = strings_view(v@);
    let ghost pd = padded(o, n as int);
    assert(w.len() == pd.len());
    assert forall|j: int| 0 <= j < w.len() implies w[j] == pd[j] by {
        if j >= o.len() {
            assert(w[j] =~= Seq::<char>::empty());
        }
    }
    assert(w =~= pd);
}

/// Appends `v[lo..hi]` to `s` as a new line.
fn append_line(s: &mut String, v: &Vec<char>, lo: usize, hi: usize)
    requires
        lo <= hi <= v@.len(),
    ensures
        final(s)@ == if old(s)@.len() > 0 && old(s)@.last() != '\n' {
            old(s)@.push('\n') + v@.subrange(lo as int, hi as int)
        } else {
            old(s)@ + v@.subrange(lo as int, hi as int)
        },
{
    let cur = chars_of(s.as_str());
    if cur.len() > 0 && cur[cur.len() - 1] != '\n' {
        push_char(s, '\n');
    }
    push_chars(s, v, lo, hi);
}

} // verus!
