//! The header block of a catalog.

use vstd::prelude::*;
use crate::plural::{plural_rules_of, plural_rules_text, CatalogPluralRules};
use crate::text::{chars_of, find_char, has_char, push_str, split, split_chars, string_of, trim_chars, trimmed};

verus! {

/// The key of a header line: the text before its first colon.
pub open spec fn line_key(line: Seq<char>) -> Seq<char> {
    line.take(find_char(line, ':'))
}

/// The value of a header line: the text after its first colon, trimmed.
pub open spec fn line_value(line: Seq<char>) -> Seq<char> {
    trimmed(line.subrange(find_char(line, ':') + 1, line.len() as int))
}

/// The value that the last line of `lines` with the given key gives it.
pub open spec fn header_value(lines: Seq<Seq<char>>, key: Seq<char>) -> Option<Seq<char>>
    decreases lines.len(),
{
    if lines.len() == 0 {
        None
    } else if has_char(lines.last(), ':') && line_key(lines.last()) == key {
        Some(line_value(lines.last()))
    } else {
        header_value(lines.drop_last(), key)
    }
}

/// The value of `key` in the header block `text`; empty when absent.
pub open spec fn header_field(text: Seq<char>, key: Seq<char>) -> Seq<char> {
    match header_value(split(text, '\n'), key) {
        Some(v) => v,
        None => Seq::empty(),
    }
}

/// The `Plural-Forms` value of the header block `text`, empty when it has
/// none.
pub open spec fn plural_forms_source(text: Seq<char>) -> Seq<char> {
    match header_value(split(text, '\n'), "Plural-Forms"@) {
        Some(v) => v,
        None => Seq::empty(),
    }
}

/// Whether the header block `text` is valid: it has a `Plural-Forms` line
/// whose plural rules are well formed.
pub open spec fn header_ok(text: Seq<char>) -> bool {
    &&& header_value(split(text, '\n'), "Plural-Forms"@) is Some
    &&& plural_rules_of(plural_forms_source(text)) is Some
}

/// One header line `key: value`, or nothing when the value is empty.
pub open spec fn header_line(key: Seq<char>, value: Seq<char>) -> Seq<char> {
    if value.len() == 0 {
        Seq::empty()
    } else {
        key + ": "@ + value + "\n"@
    }
}

/// Metadata of a translation catalog: the fields of its header block.
#[derive(Debug)]
pub struct CatalogMetadata {
    /// `Project-Id-Version`
    pub project_id_version: String,
    /// `POT-Creation-Date`
    pub pot_creation_date: String,
    /// `PO-Revision-Date`
    pub po_revision_date: String,
    /// `Last-Translator`
    pub last_translator: String,
    /// `Language-Team`
    pub language_team: String,
    /// `MIME-Version`
    pub mime_version: String,
    /// `Content-Type`
    pub content_type: String,
    /// `Content-Transfer-Encoding`
    pub content_transfer_encoding: String,
    /// `Language`
    pub language: String,
    /// `Plural-Forms`
    pub plural_rules: CatalogPluralRules,
}

/// Error in the metadata (header block) of a catalog.
#[derive(Debug)]
pub struct MetadataParseError {
    /// What is wrong.
    pub message: String,
}

/// Finds the value of `key` in `lines`, scanning from the last line.
fn lookup(lines: &Vec<Vec<char>>, key: &str) -> (r: Option<String>)
    ensures
        match r {
            Some(v) => header_value(lines@.map_values(|l: Vec<char>| l@), key@) == Some(v@),
            None => header_value(lines@.map_values(|l: Vec<char>| l@), key@) is None,
        },
{
    let ghost all = lines@.map_values(|l: Vec<char>| l@);
    let k = chars_of(key);
    let mut i = lines.len();
    assert(all.take(i as int) =~= all);
    while i > 0
        invariant
            0 <= i <= lines@.len(),
            k@ == key@,
            all == lines@.map_values(|l: Vec<char>| l@),
            header_value(all, key@) == header_value(all.take(i as int), key@),
        decreases i,
    {
        let line = &lines[i - 1];
        assert(all.take(i as int).last() == line@);
        assert(all.take(i as int).drop_last() =~= all.take(i - 1));
        let mut e: usize = 0;
        assert(line@.subrange(0, line@.len() as int) =~= line@);
        while e < line.len() && line[e] != ':'
            invariant
                0 <= e <= line@.len(),
                forall|j: int| 0 <= j < e ==> line@[j] != ':',
                find_char(line@, ':') == e + find_char(line@.subrange(e as int, line@.len() as int), ':'),
            decreases line.len() - e,
        {
            assert(line@.subrange(e as int, line@.len() as int).drop_first() =~= line@.subrange(e + 1, line@.len() as int));
            e += 1;
        }
        if e < line.len() {
            assert(has_char(line@, ':'));
            assert(find_char(line@, ':') == e);
            if e == k.len() {
                let mut j: usize = 0;
                while j < e && line[j] == k[j]
                    invariant
                        0 <= j <= e == k@.len() <= line@.len(),
                        forall|t: int| 0 <= t < j ==> line@[t] == k@[t],
                    decreases e - j,
                {
                    j += 1;
                }
                if j == e {
                    assert(line_key(line@) =~= key@);
                    let t = trim_chars(line, e + 1, line.len());
                    return Some(string_of(&t, 0, t.len()));
                } else {
                    assert(line_key(line@)[j as int] != key@[j as int]);
                }
            } else {
                assert(line_key(line@).len() != key@.len());
            }
        } else {
            assert(!has_char(line@, ':'));
        }
        i -= 1;
    }
    None
}

impl CatalogMetadata {
    /// Whether this metadata is what the header block `text` declares.
    pub open spec fn parsed_from(&self, text: Seq<char>) -> bool {
        &&& self.project_id_version@ == header_field(text, "Project-Id-Version"@)
        &&& self.pot_creation_date@ == header_field(text, "POT-Creation-Date"@)
        &&& self.po_revision_date@ == header_field(text, "PO-Revision-Date"@)
        &&& self.last_translator@ == header_field(text, "Last-Translator"@)
        &&& self.language_team@ == header_field(text, "Language-Team"@)
        &&& self.mime_version@ == header_field(text, "MIME-Version"@)
        &&& self.content_type@ == header_field(text, "Content-Type"@)
        &&& self.content_transfer_encoding@ == header_field(text, "Content-Transfer-Encoding"@)
        &&& self.language@ == header_field(text, "Language"@)
        &&& plural_rules_of(plural_forms_source(text)) == Some(
            (self.plural_rules.nplurals, self.plural_rules.expr@),
        )
    }

    /// The header block text of the metadata: one `Key: value` line per
    /// non-empty field, `POT-Creation-Date` only when asked for, and always
    /// a `Plural-Forms` line.
    pub open spec fn text(&self, include_pot_creation_date: bool) -> Seq<char> {
        header_line("Project-Id-Version"@, self.project_id_version@) + (if include_pot_creation_date {
            header_line("POT-Creation-Date"@, self.pot_creation_date@)
        } else {
            Seq::empty()
        }) + header_line("PO-Revision-Date"@, self.po_revision_date@) + header_line(
            "Last-Translator"@,
            self.last_translator@,
        ) + header_line("Language-Team"@, self.language_team@) + header_line(
            "MIME-Version"@,
            self.mime_version@,
        ) + header_line("Content-Type"@, self.content_type@) + header_line(
            "Content-Transfer-Encoding"@,
            self.content_transfer_encoding@,
        ) + header_line("Language"@, self.language@) + "Plural-Forms: "@ + plural_rules_text(
            self.plural_rules.nplurals,
            self.plural_rules.expr@,
        ) + "\n"@
    }

    /// Writes the header block; see `text`.
    pub fn dump(&self, include_pot_creation_date: bool) -> (r: String)
        ensures
            r@ == self.text(include_pot_creation_date),
    {
        let mut buffer = String::new();
        push_header_line(&mut buffer, "Project-Id-Version", &self.project_id_version);
        if include_pot_creation_date {
            push_header_line(&mut buffer, "POT-Creation-Date", &self.pot_creation_date);
        }
        push_header_line(&mut buffer, "PO-Revision-Date", &self.po_revision_date);
        push_header_line(&mut buffer, "Last-Translator", &self.last_translator);
        push_header_line(&mut buffer, "Language-Team", &self.language_team);
        push_header_line(&mut buffer, "MIME-Version", &self.mime_version);
        push_header_line(&mut buffer, "Content-Type", &self.content_type);
        push_header_line(&mut buffer, "Content-Transfer-Encoding", &self.content_transfer_encoding);
        push_header_line(&mut buffer, "Language", &self.language);
        push_str(&mut buffer, "Plural-Forms: ");
        let rules = self.plural_rules.dump();
        push_str(&mut buffer, rules.as_str());
        push_str(&mut buffer, "\n");
        assert(buffer@ =~= self.text(include_pot_creation_date));
        buffer
    }

    /// The header block as written in a `.po` file.
    pub fn export_for_po(&self) -> (r: String)
        ensures
            r@ == self.text(true),
    {
        self.dump(true)
    }

    /// The header block as written in a `.mo` file (without
    /// `POT-Creation-Date`).
    pub fn export_for_mo(&self) -> (r: String)
        ensures
            r@ == self.text(false),
    {
        self.dump(false)
    }

    /// Parses the header block of a catalog: one `Key: value` line per
    /// field. Unknown keys are ignored; when a key appears twice the last
    /// line wins. A block without a `Plural-Forms` line is an error.
    pub fn parse(metadata: &str) -> (r: Result<Self, MetadataParseError>)
        ensures
            match r {
                Ok(m) => header_ok(metadata@) && m.parsed_from(metadata@),
                Err(_) => !header_ok(metadata@),
            },
    {
        let v = chars_of(metadata);
        let lines = split_chars(&v, '\n');
        assert(lines@.map_values(|l: Vec<char>| l@) =~= split(metadata@, '\n'));
        let plural_text = match lookup(&lines, "Plural-Forms") {
            Some(p) => p,
            None => {
                return Err(
                    MetadataParseError {
                        message: "invalid catalog metadata: Plural-Forms does not exist".to_owned(),
                    },
                );
            },
        };
        let plural_rules = match CatalogPluralRules::parse(plural_text.as_str()) {
            Ok(p) => p,
            Err(e) => {
                let mut message = "invalid catalog metadata: ".to_owned();
                push_str(&mut message, e.message.as_str());
                return Err(MetadataParseError { message });
            },
        };
        Ok(CatalogMetadata {
            project_id_version: field(&lines, "Project-Id-Version"),
            pot_creation_date: field(&lines, "POT-Creation-Date"),
            po_revision_date: field(&lines, "PO-Revision-Date"),
            last_translator: field(&lines, "Last-Translator"),
            language_team: field(&lines, "Language-Team"),
            mime_version: field(&lines, "MIME-Version"),
            content_type: field(&lines, "Content-Type"),
            content_transfer_encoding: field(&lines, "Content-Transfer-Encoding"),
            language: field(&lines, "Language"),
            plural_rules,
        })
    }

    /// Empty metadata, with the one-form plural rules.
    pub fn new() -> (r: Self)
        ensures
            r.project_id_version@.len() == 0,
            r.pot_creation_date@.len() == 0,
            r.po_revision_date@.len() == 0,
            r.last_translator@.len() == 0,
            r.language_team@.len() == 0,
            r.mime_version@.len() == 0,
            r.content_type@.len() == 0,
            r.content_transfer_encoding@.len() == 0,
            r.language@.len() == 0,
            r.plural_rules.nplurals == 1,
            r.plural_rules.expr@ == "0"@,
    {
        CatalogMetadata {
            project_id_version: String::new(),
            pot_creation_date: String::new(),
            po_revision_date: String::new(),
            last_translator: String::new(),
            language_team: String::new(),
            mime_version: String::new(),
            content_type: String::new(),
            content_transfer_encoding: String::new(),
            language: String::new(),
            plural_rules: CatalogPluralRules::new(),
        }
    }
}

/// Appends the header line `key: value` unless `value` is empty.
fn push_header_line(buffer: &mut String, key: &str, value: &String)
    ensures
        final(buffer)@ == old(buffer)@ + header_line(key@, value@),
{
    if !value.as_str().is_empty() {
        push_str(buffer, key);
        push_str(buffer, ": ");
        push_str(buffer, value.as_str());
        push_str(buffer, "\n");
        assert(final(buffer)@ =~= old(buffer)@ + header_line(key@, value@));
    } else {
        assert(final(buffer)@ =~= old(buffer)@ + header_line(key@, value@));
    }
}

/// The value of `key` in `lines`, empty when absent.
fn field(lines: &Vec<Vec<char>>, key: &str) -> (r: String)
    ensures
        r@ == match header_value(lines@.map_values(|l: Vec<char>| l@), key@) {
            Some(v) => v,
            None => Seq::empty(),
        },
{
    match lookup(lines, key) {
        Some(v) => v,
        None => String::new(),
    }
}

} // verus!
