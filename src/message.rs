//! Messages: the entries of a catalog, their flags and their identity.

use vstd::prelude::*;
use crate::text::{
    chars_of, push_char, push_str, split, split_chars, string_of, trim_chars, trimmed,
};

verus! {

/// The characters of a list of strings.
pub open spec fn strings_view(v: Seq<String>) -> Seq<Seq<char>> {
    v.map_values(|e: String| e@)
}

/// Error when a field that belongs to the other variant (singular or
/// plural) of a message is read or written.
#[derive(Debug)]
pub struct SingularPluralMismatchError;

impl SingularPluralMismatchError {
    /// A human readable description of the error.
    pub fn message(&self) -> (r: String)
        ensures
            r@ == "singular/plural type mismatch"@,
    {
        "singular/plural type mismatch".to_owned()
    }
}

/// The set of flags of a message (`fuzzy`, `c-format`, ...), in the order
/// in which they were written.
#[derive(Debug)]
pub struct MessageFlags {
    /// The individual flags.
    pub entries: Vec<String>,
}

impl View for MessageFlags {
    type V = Seq<Seq<char>>;

    open spec fn view(&self) -> Seq<Seq<char>> {
        strings_view(self.entries@)
    }
}

/// `s` with every `c` taken out.
pub open spec fn without_char(s: Seq<char>, c: char) -> Seq<char>
    decreases s.len(),
{
    if s.len() == 0 {
        s
    } else if s.last() == c {
        without_char(s.drop_last(), c)
    } else {
        without_char(s.drop_last(), c).push(s.last())
    }
}

/// The flags listed in the comma-separated pieces `segs`: each non-empty
/// piece, trimmed.
pub open spec fn flag_entries(segs: Seq<Seq<char>>) -> Seq<Seq<char>>
    decreases segs.len(),
{
    if segs.len() == 0 {
        Seq::empty()
    } else if segs.last().len() == 0 {
        flag_entries(segs.drop_last())
    } else {
        flag_entries(segs.drop_last()).push(trimmed(segs.last()))
    }
}

/// The flags of a `#, ` line: line breaks are dropped, the text is split at
/// commas, and each non-empty piece is trimmed.
pub open spec fn parsed_flags(s: Seq<char>) -> Seq<Seq<char>> {
    flag_entries(split(without_char(s, '\n'), ','))
}

/// `parts` joined with `sep` between each two.
pub open spec fn joined(parts: Seq<Seq<char>>, sep: Seq<char>) -> Seq<char>
    decreases parts.len(),
{
    if parts.len() == 0 {
        Seq::empty()
    } else if parts.len() == 1 {
        parts[0]
    } else {
        joined(parts.drop_last(), sep) + sep + parts.last()
    }
}

impl MessageFlags {
    /// An empty set of flags.
    pub fn new() -> (r: Self)
        ensures
            r@ == Seq::<Seq<char>>::empty(),
    {
        let r = MessageFlags { entries: Vec::new() };
        assert(r@ =~= Seq::<Seq<char>>::empty());
        r
    }

    /// Parses the text of a `#, ` line (comma-separated flags).
    pub fn parse(flags: &str) -> (r: Self)
        ensures
            r@ == parsed_flags(flags@),
    {
        let v = chars_of(flags);
        let mut w: Vec<char> = Vec::new();
        let mut i: usize = 0;
        while i < v.len()
            invariant
                0 <= i <= v@.len(),
                w@ == without_char(v@.take(i as int), '\n'),
            decreases v.len() - i,
        {
            assert(v@.take(i + 1).drop_last() =~= v@.take(i as int));
            if v[i] != '\n' {
                w.push(v[i]);
            }
            i += 1;
        }
        assert(v@.take(v@.len() as int) =~= v@);
        let segs = split_chars(&w, ',');
        let mut entries: Vec<String> = Vec::new();
        let mut k: usize = 0;
        while k < segs.len()
            invariant
                0 <= k <= segs@.len(),
                segs@.len() == split(w@, ',').len(),
                forall|j: int| 0 <= j < segs@.len() ==> (#[trigger] segs@[j])@ == split(w@, ',')[j],
                strings_view(entries@) == flag_entries(split(w@, ',').take(k as int)),
            decreases segs.len() - k,
        {
            let seg = &segs[k];
            assert(split(w@, ',').take(k + 1).drop_last() =~= split(w@, ',').take(k as int));
            if seg.len() > 0 {
                let t = trim_chars(seg, 0, seg.len());
                assert(seg@.subrange(0, seg@.len() as int) =~= seg@);
                let s = string_of(&t, 0, t.len());
                assert(t@.subrange(0, t@.len() as int) =~= t@);
                entries.push(s);
                assert(strings_view(entries@) =~= flag_entries(split(w@, ',').take(k as int)).push(
                    trimmed(seg@),
                ));
            }
            k += 1;
        }
        assert(split(w@, ',').take(segs@.len() as int) =~= split(w@, ','));
        MessageFlags { entries }
    }

    /// The flags joined with `", "`, as written on a `#, ` line.
    pub fn export(&self) -> (r: String)
        ensures
            r@ == joined(self@, ", "@),
    {
        let mut r = String::new();
        let mut i: usize = 0;
        while i < self.entries.len()
            invariant
                0 <= i <= self.entries@.len(),
                r@ == joined(self@.take(i as int), ", "@),
            decreases self.entries.len() - i,
        {
            assert(self@.take(i + 1).drop_last() =~= self@.take(i as int));
            if i > 0 {
                push_str(&mut r, ", ");
            }
            push_str(&mut r, self.entries[i].as_str());
            proof {
                if i == 0 {
                    assert(r@ =~= self@.take(1)[0]);
                }
            }
            i += 1;
        }
        assert(self@.take(self@.len() as int) =~= self@);
        r
    }

    /// Number of flags.
    pub fn count(&self) -> (r: usize)
        ensures
            r == self@.len(),
    {
        self.entries.len()
    }

    /// Whether there are no flags.
    pub fn is_empty(&self) -> (r: bool)
        ensures
            r == (self@.len() == 0),
    {
        self.entries.len() == 0
    }

    /// Whether `flag` is one of the flags.
    pub fn contains(&self, flag: &str) -> (r: bool)
        ensures
            r == self@.contains(flag@),
    {
        let mut i: usize = 0;
        while i < self.entries.len()
            invariant
                0 <= i <= self.entries@.len(),
                forall|j: int| 0 <= j < i ==> self@[j] != flag@,
            decreases self.entries.len() - i,
        {
            if str_eq(self.entries[i].as_str(), flag) {
                assert(self@[i as int] == flag@);
                return true;
            }
            i += 1;
        }
        false
    }

    /// Whether the `fuzzy` flag is present.
    pub fn is_fuzzy(&self) -> (r: bool)
        ensures
            r == self@.contains("fuzzy"@),
    {
        self.contains("fuzzy")
    }

    /// Adds a flag, unless it is present already.
    pub fn add_flag(&mut self, flag: &str)
        ensures
            final(self)@ == if old(self)@.contains(flag@) {
                old(self)@
            } else {
                old(self)@.push(flag@)
            },
    {
        if !self.contains(flag) {
            self.entries.push(flag.to_owned());
            assert(self@ =~= old(self)@.push(flag@));
        }
    }

    /// Removes the first occurrence of a flag, if there is one.
    pub fn remove_flag(&mut self, flag: &str)
        ensures
            !old(self)@.contains(flag@) ==> final(self)@ == old(self)@,
            old(self)@.contains(flag@) ==> exists|i: int|
                0 <= i < old(self)@.len() && old(self)@[i] == flag@ && (forall|j: int|
                    0 <= j < i ==> old(self)@[j] != flag@) && final(self)@ == old(self)@.remove(i),
    {
        let mut i: usize = 0;
        while i < self.entries.len()
            invariant
                0 <= i <= self.entries@.len(),
                self@ == old(self)@,
                forall|j: int| 0 <= j < i ==> self@[j] != flag@,
            decreases self.entries.len() - i,
        {
            if str_eq(self.entries[i].as_str(), flag) {
                let ghost k = i as int;
                assert(old(self)@[k] == flag@);
                self.entries.remove(i);
                assert(self@ =~= old(self)@.remove(k));
                return ;
            }
            i += 1;
        }
    }

    /// The flags, in order.
    pub fn iter(&self) -> (r: &Vec<String>)
        ensures
            strings_view(r@) == self@,
    {
        &self.entries
    }
}

impl std::str::FromStr for MessageFlags {
    type Err = ();

    fn from_str(s: &str) -> Result<Self, ()> {
        Ok(MessageFlags::parse(s))
    }
}

/// Whether two string slices hold the same characters.
pub(crate) fn str_eq(a: &str, b: &str) -> (r: bool)
    ensures
        r == (a@ == b@),
{
    let x = chars_of(a);
    let y = chars_of(b);
    if x.len() != y.len() {
        return false;
    }
    let mut i: usize = 0;
    while i < x.len()
        invariant
            0 <= i <= x@.len() == y@.len(),
            x@ == a@,
            y@ == b@,
            forall|j: int| 0 <= j < i ==> x@[j] == y@[j],
        decreases x.len() - i,
    {
        if x[i] != y[i] {
            assert(a@[i as int] != b@[i as int]);
            return false;
        }
        i += 1;
    }
    assert(x@ =~= y@);
    true
}

/// The translation part of a message: one `msgstr`, or a `msgid_plural`
/// with one `msgstr` per plural form.
#[derive(Debug)]
pub enum MessageBody {
    /// A singular message.
    Singular {
        /// The translation.
        msgstr: String,
    },
    /// A plural message.
    Plural {
        /// The original-language plural text.
        msgid_plural: String,
        /// The translations, one per plural form.
        msgstr_plural: Vec<String>,
    },
}

/// One translatable unit of a catalog.
#[derive(Debug)]
pub struct Message {
    /// Developer comments, joined with line breaks.
    pub comments: String,
    /// Source code locations, joined with line breaks.
    pub source: String,
    /// Flags.
    pub flags: MessageFlags,
    /// Context; empty when there is none.
    pub msgctxt: String,
    /// The original-language (singular) text.
    pub msgid: String,
    /// The translation(s).
    pub body: MessageBody,
}

/// The internal key of a message with context `ctxt` and text `id`:
/// `ctxt`, the character U+0004 and `id`, or `id` alone without a context.
pub open spec fn key_of(ctxt: Seq<char>, id: Seq<char>) -> Seq<char> {
    if ctxt.len() == 0 {
        id
    } else {
        ctxt + seq!['\u{4}'] + id
    }
}

/// Whether every string of `v` is non-empty.
pub open spec fn all_non_empty(v: Seq<Seq<char>>) -> bool {
    forall|i: int| 0 <= i < v.len() ==> (#[trigger] v[i]).len() > 0
}

impl Message {
    /// Whether the message is plural.
    pub open spec fn plural(&self) -> bool {
        self.body is Plural
    }

    /// Whether the message is translated: a non-empty `msgstr`, or plural
    /// forms all non-empty.
    pub open spec fn translated(&self) -> bool {
        match self.body {
            MessageBody::Singular { msgstr } => msgstr@.len() > 0,
            MessageBody::Plural { msgstr_plural, .. } => all_non_empty(
                strings_view(msgstr_plural@),
            ),
        }
    }

    /// Whether `self` and `other` hold the same fields.
    pub open spec fn same_content(&self, other: &Message) -> bool {
        &&& self.comments@ == other.comments@
        &&& self.source@ == other.source@
        &&& self.flags@ == other.flags@
        &&& self.msgctxt@ == other.msgctxt@
        &&& self.msgid@ == other.msgid@
        &&& match (self.body, other.body) {
            (MessageBody::Singular { msgstr: a }, MessageBody::Singular { msgstr: b }) => a@ == b@,
            (
                MessageBody::Plural { msgid_plural: a, msgstr_plural: v },
                MessageBody::Plural { msgid_plural: b, msgstr_plural: w },
            ) => a@ == b@ && strings_view(v@) == strings_view(w@),
            _ => false,
        }
    }

    /// Whether `self` and `other` are the same translatable unit: equal
    /// context and equal `msgid`.
    pub open spec fn same_unit(&self, other: &Message) -> bool {
        self.msgctxt@ == other.msgctxt@ && self.msgid@ == other.msgid@
    }

    /// Whether the message answers a lookup by context, `msgid` and
    /// (for a plural message) `msgid_plural`.
    pub open spec fn answers(&self, ctxt: Seq<char>, id: Seq<char>, plural: Option<Seq<char>>) -> bool {
        &&& self.msgctxt@ == ctxt
        &&& self.msgid@ == id
        &&& match plural {
            None => !self.plural(),
            Some(p) => match self.body {
                MessageBody::Plural { msgid_plural, .. } => msgid_plural@ == p,
                MessageBody::Singular { .. } => false,
            },
        }
    }

    /// A singular message from its fields; `flags` is the text of a `#, `
    /// line.
    pub fn new_singular(
        comments: &str,
        source: &str,
        flags: &str,
        msgctxt: &str,
        msgid: &str,
        msgstr: &str,
    ) -> (r: Message)
        ensures
            r.comments@ == comments@,
            r.source@ == source@,
            r.flags@ == parsed_flags(flags@),
            r.msgctxt@ == msgctxt@,
            r.msgid@ == msgid@,
            r.body matches MessageBody::Singular { msgstr: s } && s@ == msgstr@,
    {
        Message {
            comments: comments.to_owned(),
            source: source.to_owned(),
            flags: MessageFlags::parse(flags),
            msgctxt: msgctxt.to_owned(),
            msgid: msgid.to_owned(),
            body: MessageBody::Singular { msgstr: msgstr.to_owned() },
        }
    }

    /// A plural message from its fields; `flags` is the text of a `#, `
    /// line.
    pub fn new_plural(
        comments: &str,
        source: &str,
        flags: &str,
        msgctxt: &str,
        msgid: &str,
        msgid_plural: &str,
        msgstr_plural: Vec<String>,
    ) -> (r: Message)
        ensures
            r.comments@ == comments@,
            r.source@ == source@,
            r.flags@ == parsed_flags(flags@),
            r.msgctxt@ == msgctxt@,
            r.msgid@ == msgid@,
            r.body matches MessageBody::Plural { msgid_plural: p, msgstr_plural: v } && p@
                == msgid_plural@ && v@ == msgstr_plural@,
    {
        Message {
            comments: comments.to_owned(),
            source: source.to_owned(),
            flags: MessageFlags::parse(flags),
            msgctxt: msgctxt.to_owned(),
            msgid: msgid.to_owned(),
            body: MessageBody::Plural { msgid_plural: msgid_plural.to_owned(), msgstr_plural },
        }
    }

    /// The internal key of the message (see `gen_internal_key`).
    pub fn internal_key(&self) -> (r: String)
        ensures
            r@ == key_of(self.msgctxt@, self.msgid@),
    {
        gen_internal_key(self.msgctxt.as_str(), self.msgid.as_str())
    }

    /// Whether the message is singular.
    pub fn is_singular(&self) -> (r: bool)
        ensures
            r == !self.plural(),
    {
        match &self.body {
            MessageBody::Singular { .. } => true,
            MessageBody::Plural { .. } => false,
        }
    }

    /// Whether the message is plural.
    pub fn is_plural(&self) -> (r: bool)
        ensures
            r == self.plural(),
    {
        !self.is_singular()
    }

    /// Whether the message is translated: a singular message when its
    /// `msgstr` is non-empty, a plural one when every plural form is.
    pub fn is_translated(&self) -> (r: bool)
        ensures
            r == self.translated(),
    {
        match &self.body {
            MessageBody::Singular { msgstr } => !msgstr.as_str().is_empty(),
            MessageBody::Plural { msgstr_plural, .. } => {
                let mut i: usize = 0;
                while i < msgstr_plural.len()
                    invariant
                        0 <= i <= msgstr_plural@.len(),
                        self.translated() == all_non_empty(strings_view(msgstr_plural@)),
                        forall|j: int| 0 <= j < i ==> msgstr_plural@[j]@.len() > 0,
                    decreases msgstr_plural.len() - i,
                {
                    if msgstr_plural[i].as_str().is_empty() {
                        assert(strings_view(msgstr_plural@)[i as int].len() == 0);
                        return false;
                    }
                    i += 1;
                }
                assert(all_non_empty(strings_view(msgstr_plural@)));
                true
            }
        }
    }

    /// Whether the message carries the `fuzzy` flag.
    pub fn is_fuzzy(&self) -> (r: bool)
        ensures
            r == self.flags@.contains("fuzzy"@),
    {
        self.flags.is_fuzzy()
    }
}

impl Message {
    /// A singular message with every field empty.
    pub fn new() -> (r: Message)
        ensures
            r.comments@.len() == 0,
            r.source@.len() == 0,
            r.flags@.len() == 0,
            r.msgctxt@.len() == 0,
            r.msgid@.len() == 0,
            r.body matches MessageBody::Singular { msgstr } && msgstr@.len() == 0,
    {
        Message {
            comments: String::new(),
            source: String::new(),
            flags: MessageFlags::new(),
            msgctxt: String::new(),
            msgid: String::new(),
            body: MessageBody::Singular { msgstr: String::new() },
        }
    }

    /// Starts building a singular message.
    pub fn build_singular() -> (r: MessageBuilder)
        ensures
            r@.comments@.len() == 0,
            r@.source@.len() == 0,
            r@.flags@.len() == 0,
            r@.msgctxt@.len() == 0,
            r@.msgid@.len() == 0,
            r@.body matches MessageBody::Singular { msgstr } && msgstr@.len() == 0,
    {
        MessageBuilder { m: Message::new() }
    }

    /// Starts building a plural message.
    pub fn build_plural() -> (r: MessageBuilder)
        ensures
            r@.comments@.len() == 0,
            r@.source@.len() == 0,
            r@.flags@.len() == 0,
            r@.msgctxt@.len() == 0,
            r@.msgid@.len() == 0,
            r@.body matches MessageBody::Plural { msgid_plural, msgstr_plural } && msgid_plural@.len()
                == 0 && msgstr_plural@.len() == 0,
    {
        let mut m = Message::new();
        m.body = MessageBody::Plural { msgid_plural: String::new(), msgstr_plural: Vec::new() };
        MessageBuilder { m }
    }

    /// The developer comments.
    pub fn comments(&self) -> (r: &str)
        ensures
            r@ == self.comments@,
    {
        self.comments.as_str()
    }

    /// The source code locations.
    pub fn source(&self) -> (r: &str)
        ensures
            r@ == self.source@,
    {
        self.source.as_str()
    }

    /// The flags.
    pub fn flags(&self) -> (r: &MessageFlags)
        ensures
            *r == self.flags,
    {
        &self.flags
    }

    /// The context, or `None` when it is empty.
    pub fn msgctxt(&self) -> (r: Option<&str>)
        ensures
            r is None == (self.msgctxt@.len() == 0),
            r matches Some(c) ==> c@ == self.msgctxt@,
    {
        if self.msgctxt.as_str().is_empty() {
            None
        } else {
            Some(self.msgctxt.as_str())
        }
    }

    /// The `msgid`.
    pub fn msgid(&self) -> (r: &str)
        ensures
            r@ == self.msgid@,
    {
        self.msgid.as_str()
    }

    /// The `msgid_plural` of a plural message; an error for a singular one.
    pub fn msgid_plural(&self) -> (r: Result<&str, SingularPluralMismatchError>)
        ensures
            r is Ok == self.plural(),
            r matches Ok(p) ==> self.body matches MessageBody::Plural { msgid_plural, .. }
                && p@ == msgid_plural@,
    {
        match &self.body {
            MessageBody::Plural { msgid_plural, .. } => Ok(msgid_plural.as_str()),
            MessageBody::Singular { .. } => Err(SingularPluralMismatchError),
        }
    }

    /// The `msgstr` of a singular message; an error for a plural one.
    pub fn msgstr(&self) -> (r: Result<&str, SingularPluralMismatchError>)
        ensures
            r is Ok == !self.plural(),
            r matches Ok(s) ==> self.body matches MessageBody::Singular { msgstr } && s@ == msgstr@,
    {
        match &self.body {
            MessageBody::Singular { msgstr } => Ok(msgstr.as_str()),
            MessageBody::Plural { .. } => Err(SingularPluralMismatchError),
        }
    }

    /// The plural forms of a plural message; an error for a singular one.
    pub fn msgstr_plural(&self) -> (r: Result<&Vec<String>, SingularPluralMismatchError>)
        ensures
            r is Ok == self.plural(),
            r matches Ok(v) ==> self.body matches MessageBody::Plural { msgstr_plural, .. } && *v
                == msgstr_plural,
    {
        match &self.body {
            MessageBody::Plural { msgstr_plural, .. } => Ok(msgstr_plural),
            MessageBody::Singular { .. } => Err(SingularPluralMismatchError),
        }
    }

    /// A copy of the message.
    pub fn to_owned(&self) -> (r: Message)
        ensures
            r.same_content(self),
    {
        let body = match &self.body {
            MessageBody::Singular { msgstr } => MessageBody::Singular { msgstr: msgstr.clone() },
            MessageBody::Plural { msgid_plural, msgstr_plural } => {
                let mut forms: Vec<String> = Vec::new();
                let mut i: usize = 0;
                while i < msgstr_plural.len()
                    invariant
                        0 <= i <= msgstr_plural@.len(),
                        forms@ == msgstr_plural@.take(i as int),
                    decreases msgstr_plural.len() - i,
                {
                    forms.push(msgstr_plural[i].clone());
                    assert(forms@ =~= msgstr_plural@.take(i + 1));
                    i += 1;
                }
                assert(forms@ =~= msgstr_plural@);
                MessageBody::Plural { msgid_plural: msgid_plural.clone(), msgstr_plural: forms }
            },
        };
        let mut entries: Vec<String> = Vec::new();
        let mut i: usize = 0;
        while i < self.flags.entries.len()
            invariant
                0 <= i <= self.flags.entries@.len(),
                entries@ == self.flags.entries@.take(i as int),
            decreases self.flags.entries.len() - i,
        {
            entries.push(self.flags.entries[i].clone());
            assert(entries@ =~= self.flags.entries@.take(i + 1));
            i += 1;
        }
        assert(entries@ =~= self.flags.entries@);
        Message {
            comments: self.comments.clone(),
            source: self.source.clone(),
            flags: MessageFlags { entries },
            msgctxt: self.msgctxt.clone(),
            msgid: self.msgid.clone(),
            body,
        }
    }

    /// Replaces the developer comments.
    pub fn set_comments(&mut self, comments: String)
        ensures
            *final(self) == (Message { comments, ..*old(self) }),
    {
        self.comments = comments;
    }

    /// Replaces the source code locations.
    pub fn set_source(&mut self, source: String)
        ensures
            *final(self) == (Message { source, ..*old(self) }),
    {
        self.source = source;
    }

    /// Replaces the flags.
    pub fn set_flags(&mut self, flags: MessageFlags)
        ensures
            *final(self) == (Message { flags, ..*old(self) }),
    {
        self.flags = flags;
    }

    /// Replaces the context.
    pub fn set_msgctxt(&mut self, msgctxt: String)
        ensures
            *final(self) == (Message { msgctxt, ..*old(self) }),
    {
        self.msgctxt = msgctxt;
    }

    /// Replaces the `msgid`.
    pub fn set_msgid(&mut self, msgid: String)
        ensures
            *final(self) == (Message { msgid, ..*old(self) }),
    {
        self.msgid = msgid;
    }

    /// Replaces the `msgid_plural` of a plural message; an error (and no
    /// change) for a singular one.
    pub fn set_msgid_plural(&mut self, msgid_plural: String) -> (r: Result<(), SingularPluralMismatchError>)
        ensures
            r is Ok == old(self).plural(),
            r is Ok ==> (old(self).body matches MessageBody::Plural { msgstr_plural: v, .. }
                && *final(self) == (Message {
                body: MessageBody::Plural { msgid_plural, msgstr_plural: v },
                ..*old(self)
            })),
            r is Err ==> *final(self) == *old(self),
    {
        if self.is_plural() {
            let mut v: Vec<String> = Vec::new();
            if let MessageBody::Plural { msgstr_plural, .. } = &mut self.body {
                std::mem::swap(&mut v, msgstr_plural);
            }
            self.body = MessageBody::Plural { msgid_plural, msgstr_plural: v };
            Ok(())
        } else {
            Err(SingularPluralMismatchError)
        }
    }

    /// Replaces the `msgstr` of a singular message; an error (and no
    /// change) for a plural one.
    pub fn set_msgstr(&mut self, msgstr: String) -> (r: Result<(), SingularPluralMismatchError>)
        ensures
            r is Ok == !old(self).plural(),
            r is Ok ==> *final(self) == (Message { body: MessageBody::Singular { msgstr }, ..*old(self) }),
            r is Err ==> *final(self) == *old(self),
    {
        if self.is_singular() {
            self.body = MessageBody::Singular { msgstr };
            Ok(())
        } else {
            Err(SingularPluralMismatchError)
        }
    }

    /// Replaces the plural forms of a plural message; an error (and no
    /// change) for a singular one.
    pub fn set_msgstr_plural(&mut self, msgstr_plural: Vec<String>) -> (r: Result<(), SingularPluralMismatchError>)
        ensures
            r is Ok == old(self).plural(),
            r is Ok ==> (old(self).body matches MessageBody::Plural { msgid_plural: p, .. }
                && *final(self) == (Message {
                body: MessageBody::Plural { msgid_plural: p, msgstr_plural },
                ..*old(self)
            })),
            r is Err ==> *final(self) == *old(self),
    {
        if self.is_plural() {
            let mut p = String::new();
            if let MessageBody::Plural { msgid_plural, .. } = &mut self.body {
                std::mem::swap(&mut p, msgid_plural);
            }
            self.body = MessageBody::Plural { msgid_plural: p, msgstr_plural };
            Ok(())
        } else {
            Err(SingularPluralMismatchError)
        }
    }
}

/// Builds a `Message` by method chaining.
pub struct MessageBuilder {
    m: Message,
}

impl View for MessageBuilder {
    type V = Message;

    closed spec fn view(&self) -> Message {
        self.m
    }
}

impl MessageBuilder {
    /// Sets the developer comments.
    pub fn with_comments(&mut self, comments: String) -> (r: &mut Self)
        ensures
            r@ == (Message { comments, ..old(self)@ }),
            *final(self) == *final(r),
    {
        self.m.comments = comments;
        self
    }

    /// Sets the source code locations.
    pub fn with_source(&mut self, source: String) -> (r: &mut Self)
        ensures
            r@ == (Message { source, ..old(self)@ }),
            *final(self) == *final(r),
    {
        self.m.source = source;
        self
    }

    /// Sets the flags.
    pub fn with_flags(&mut self, flags: MessageFlags) -> (r: &mut Self)
        ensures
            r@ == (Message { flags, ..old(self)@ }),
            *final(self) == *final(r),
    {
        self.m.flags = flags;
        self
    }

    /// Sets the context.
    pub fn with_msgctxt(&mut self, msgctxt: String) -> (r: &mut Self)
        ensures
            r@ == (Message { msgctxt, ..old(self)@ }),
            *final(self) == *final(r),
    {
        self.m.msgctxt = msgctxt;
        self
    }

    /// Sets the `msgid`.
    pub fn with_msgid(&mut self, msgid: String) -> (r: &mut Self)
        ensures
            r@ == (Message { msgid, ..old(self)@ }),
            *final(self) == *final(r),
    {
        self.m.msgid = msgid;
        self
    }

    /// Sets the `msgid_plural` of a plural message (a singular one has
    /// none and is left as it is).
    pub fn with_msgid_plural(&mut self, msgid_plural: String) -> (r: &mut Self)
        ensures
            old(self)@.plural() ==> (old(self)@.body matches MessageBody::Plural { msgstr_plural: v, .. }
                && r@ == (Message { body: MessageBody::Plural { msgid_plural, msgstr_plural: v }, ..old(self)@ })),
            !old(self)@.plural() ==> r@ == old(self)@,
            *final(self) == *final(r),
    {
        let _ = self.m.set_msgid_plural(msgid_plural);
        self
    }

    /// Sets the `msgstr` of a singular message (a plural one has none and
    /// is left as it is).
    pub fn with_msgstr(&mut self, msgstr: String) -> (r: &mut Self)
        ensures
            !old(self)@.plural() ==> r@ == (Message { body: MessageBody::Singular { msgstr }, ..old(self)@ }),
            old(self)@.plural() ==> r@ == old(self)@,
            *final(self) == *final(r),
    {
        let _ = self.m.set_msgstr(msgstr);
        self
    }

    /// Sets the plural forms of a plural message (a singular one has none
    /// and is left as it is).
    pub fn with_msgstr_plural(&mut self, msgstr_plural: Vec<String>) -> (r: &mut Self)
        ensures
            old(self)@.plural() ==> (old(self)@.body matches MessageBody::Plural { msgid_plural: p, .. }
                && r@ == (Message { body: MessageBody::Plural { msgid_plural: p, msgstr_plural }, ..old(self)@ })),
            !old(self)@.plural() ==> r@ == old(self)@,
            *final(self) == *final(r),
    {
        let _ = self.m.set_msgstr_plural(msgstr_plural);
        self
    }

    /// The message built; the builder is left holding an empty singular
    /// message.
    pub fn done(&mut self) -> (r: Message)
        ensures
            r == old(self)@,
            final(self)@.comments@.len() == 0,
            final(self)@.source@.len() == 0,
            final(self)@.flags@.len() == 0,
            final(self)@.msgctxt@.len() == 0,
            final(self)@.msgid@.len() == 0,
            final(self)@.body matches MessageBody::Singular { msgstr } && msgstr@.len() == 0,
    {
        let mut m = Message::new();
        std::mem::swap(&mut m, &mut self.m);
        m
    }
}

/// The internal key of a message: `msgctxt`, U+0004 and `msgid`, or `msgid`
/// alone when the context is empty. This is also how the `.mo` format writes
/// a message's original string.
pub fn gen_internal_key(msgctxt: &str, msgid: &str) -> (r: String)
    ensures
        r@ == key_of(msgctxt@, msgid@),
{
    if msgctxt.is_empty() {
        msgid.to_owned()
    } else {
        let mut r = msgctxt.to_owned();
        push_char(&mut r, '\u{4}');
        push_str(&mut r, msgid);
        r
    }
}

} // verus!
