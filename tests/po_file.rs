use polib::catalog::Catalog;
use polib::message::Message;
use polib::po_file::{escape, parse_text, unescape, write_field, write_sort_by, wrap, POParseOptions, POParserState};

const SAMPLE: &str = "
msgid \"\"
msgstr \"\"
\"Project-Id-Version: demo\\n\"
\"Language: fr\\n\"
\"Plural-Forms: nplurals=2; plural=(n != 1);\\n\"

#. A greeting
#: src/a.rs:1
msgid \"Hello\"
msgstr \"Translated_Hello\"

#: src/b.rs:2
msgid \"Book\"
msgid_plural \"Books\"
msgstr[0] \"Translated\\n_\\nBook\"
msgstr[1] \"Translated_Books\"

#, fuzzy
#: src/c.rs:3
msgctxt \"Context\"
msgid \"Good\"
msgstr \"\\\"\\n\\\"123\"

#: src/d.rs:4
msgid \"Untranslated\"
msgstr \"\"
";

fn validate_catalog(catalog: &Catalog) {
    assert_eq!(catalog.count(), 4);
    let messages = catalog.messages();
    assert_eq!(messages.len(), 4);
    let m = messages[0];
    assert!(m.msgctxt().is_none());
    assert_eq!(m.msgid(), "Hello");
    assert!(m.is_singular());
    assert!(m.is_translated());
    assert_eq!(m.msgstr().unwrap(), "Translated_Hello");
    assert_eq!(m.comments(), "A greeting");
    assert_eq!(m.source(), "src/a.rs:1");
    let m = messages[1];
    assert!(m.msgctxt().is_none());
    assert_eq!(m.msgid(), "Book");
    assert!(m.is_plural());
    assert!(m.is_translated());
    assert_eq!(m.msgid_plural().unwrap(), "Books");
    assert_eq!(m.msgstr_plural().unwrap()[0], "Translated\n_\nBook");
    let m = messages[2];
    assert_eq!(m.msgctxt().unwrap(), "Context");
    assert_eq!(m.msgid(), "Good");
    assert!(m.is_singular());
    assert!(m.is_translated());
    assert!(m.is_fuzzy());
    assert_eq!(m.msgstr().unwrap(), "\"\n\"123");
    let m = messages[3];
    assert!(m.msgctxt().is_none());
    assert_eq!(m.msgid(), "Untranslated");
    assert!(!m.is_translated());
    assert_eq!(m.msgstr().unwrap(), "");
}

#[test]
fn parse_sample_po() {
    let catalog = parse_text(SAMPLE, &POParseOptions::new()).unwrap();
    validate_catalog(&catalog);
    assert_eq!(catalog.metadata.project_id_version, "demo");
    assert_eq!(catalog.metadata.language, "fr");
}

#[test]
fn po_round_trip() {
    let catalog = parse_text(SAMPLE, &POParseOptions::new()).unwrap();
    let text = polib::po_file::po_file_writer::write(&catalog);
    let catalog_2 = parse_text(&text, &POParseOptions::new()).unwrap();
    validate_catalog(&catalog_2);
    let again = polib::po_file::po_file_writer::write(&catalog_2);
    assert_eq!(text, again);
}

#[test]
fn po_round_trip_sort() {
    let catalog = parse_text(SAMPLE, &POParseOptions::new()).unwrap();
    let messages = catalog.messages();
    let mut order: Vec<usize> = (0..messages.len()).collect();
    order.sort_by(|a, b| messages[*a].source().cmp(messages[*b].source()));
    let text = write_sort_by(&catalog, &order);
    let catalog_2 = parse_text(&text, &POParseOptions::new()).unwrap();
    validate_catalog(&catalog_2);
}

#[test]
fn sorted_write_follows_the_order() {
    let catalog = parse_text(SAMPLE, &POParseOptions::new()).unwrap();
    let text = write_sort_by(&catalog, &vec![3, 0]);
    let catalog_2 = parse_text(&text, &POParseOptions::new()).unwrap();
    let messages = catalog_2.messages();
    assert_eq!(messages.len(), 2);
    assert_eq!(messages[0].msgid(), "Untranslated");
    assert_eq!(messages[1].msgid(), "Hello");
}

#[test]
fn round_trip_keeps_every_field() {
    let catalog = parse_text(SAMPLE, &POParseOptions::new()).unwrap();
    let catalog_2 = parse_text(&polib::po_file::po_file_writer::write(&catalog), &POParseOptions::new()).unwrap();
    let a = catalog.messages();
    let b = catalog_2.messages();
    assert_eq!(a.len(), b.len());
    for i in 0..a.len() {
        assert_eq!(a[i].msgctxt(), b[i].msgctxt());
        assert_eq!(a[i].msgid(), b[i].msgid());
        assert_eq!(a[i].msgid_plural().ok(), b[i].msgid_plural().ok());
        assert_eq!(a[i].msgstr().ok(), b[i].msgstr().ok());
        assert_eq!(a[i].msgstr_plural().ok(), b[i].msgstr_plural().ok());
        assert_eq!(a[i].comments(), b[i].comments());
        assert_eq!(a[i].source(), b[i].source());
        assert_eq!(a[i].flags().entries, b[i].flags().entries);
    }
}

#[test]
fn concrete_plural_sample() {
    let text = "msgid \"\"\nmsgstr \"Plural-Forms: nplurals=2; plural=(n != 1);\\n\"\n\nmsgid \"Book\"\nmsgid_plural \"Books\"\nmsgstr[0] \"Livre\"\nmsgstr[1] \"Livres\"\n";
    let catalog = parse_text(text, &POParseOptions::new()).unwrap();
    assert_eq!(catalog.count(), 1);
    assert_eq!(catalog.metadata.plural_rules.nplurals, 2);
    let m = catalog.find_message(None, "Book", Some("Books")).unwrap();
    assert_eq!(m.msgstr_plural().unwrap(), &vec![String::from("Livre"), String::from("Livres")]);
    assert!(catalog.find_message(None, "Book", None).is_none());
    assert!(catalog.find_message(None, "Book", Some("Bookz")).is_none());
}

#[test]
fn malformed_metadata_is_fatal() {
    let text = "msgid \"Hello\"\nmsgstr \"Bonjour\"\n";
    assert!(parse_text(text, &POParseOptions::new()).is_err());
    let empty = parse_text("", &POParseOptions::new());
    assert!(empty.is_err());
    let no_rules = "msgid \"\"\nmsgstr \"Language: fr\\n\"\n";
    assert!(parse_text(no_rules, &POParseOptions::new()).is_err());
    let bad_rules = "msgid \"\"\nmsgstr \"Plural-Forms: nplurals=0; plural=0;\\n\"\n";
    assert!(parse_text(bad_rules, &POParseOptions::new()).is_err());
}

#[test]
fn plural_forms_are_presized_to_nplurals() {
    let text = "msgid \"\"\nmsgstr \"Plural-Forms: nplurals=3; plural=n;\\n\"\n\nmsgid \"a\"\nmsgid_plural \"b\"\nmsgstr[0] \"x\"\n";
    let catalog = parse_text(text, &POParseOptions::new()).unwrap();
    let m = catalog.find_message(None, "a", Some("b")).unwrap();
    assert_eq!(m.msgstr_plural().unwrap(), &vec![String::from("x"), String::new(), String::new()]);
    assert!(!m.is_translated());
}

#[test]
fn translated_only_drops_plurals_with_an_empty_form() {
    let text = "msgid \"\"\nmsgstr \"Plural-Forms: nplurals=2; plural=(n != 1);\\n\"\n\nmsgid \"Book\"\nmsgid_plural \"Books\"\nmsgstr[0] \"x\"\nmsgstr[1] \"\"\n\nmsgid \"Pen\"\nmsgid_plural \"Pens\"\nmsgstr[0] \"x\"\nmsgstr[1] \"y\"\n";
    let options = POParseOptions {
        message_body_only: false,
        translated_only: true,
        unsafe_utf8_decode: false,
    };
    let catalog = parse_text(text, &options).unwrap();
    assert_eq!(catalog.count(), 1);
    assert!(catalog.find_message(None, "Book", Some("Books")).is_none());
    assert!(catalog.find_message(None, "Pen", Some("Pens")).is_some());
    let mut state = POParserState::new(&POParseOptions::new());
    for line in ["msgid \"\"\r\n", "msgstr \"Plural-Forms: nplurals=1; plural=0;\\n\"\n", "\n", "msgid \"k\"\n", "msgstr \"v\""] {
        state.consume_raw_line(line).unwrap();
    }
    let c = state.finish().unwrap();
    assert_eq!(c.find_message(None, "k", None).unwrap().msgstr().unwrap(), "v");
}

#[test]
fn options_filter_untranslated_and_comments() {
    let options = POParseOptions {
        message_body_only: true,
        translated_only: true,
        unsafe_utf8_decode: false,
    };
    let catalog = parse_text(SAMPLE, &options).unwrap();
    assert_eq!(catalog.count(), 3);
    for m in catalog.messages() {
        assert_eq!(m.comments(), "");
        assert_eq!(m.source(), "");
        assert!(m.flags().is_empty());
    }
}

#[test]
fn crlf_lines_and_continuations_are_read() {
    let text = "msgid \"\"\r\nmsgstr \"\"\r\n\"Plural-Forms: nplurals=1; plural=0;\\n\"\r\n\r\nmsgid \"\"\r\n\"long \"\r\n\"text\"\r\nmsgstr \"t\"\r\n";
    let catalog = parse_text(text, &POParseOptions::new()).unwrap();
    assert!(catalog.find_message(None, "long text", None).is_some());
}

#[test]
fn duplicate_units_collapse_in_parse() {
    let text = "msgid \"\"\nmsgstr \"Language: x\\nPlural-Forms: nplurals=1; plural=0;\\n\"\n\nmsgid \"a\"\nmsgstr \"1\"\n\nmsgid \"b\"\nmsgstr \"2\"\n\nmsgid \"a\"\nmsgstr \"3\"\n";
    let catalog = parse_text(text, &POParseOptions::new()).unwrap();
    assert_eq!(catalog.count(), 2);
    let messages = catalog.messages();
    assert_eq!(messages[0].msgid(), "a");
    assert_eq!(messages[0].msgstr().unwrap(), "3");
}

#[test]
fn parse_errors() {
    let head = "msgid \"\"\nmsgstr \"Language: x\\nPlural-Forms: nplurals=1; plural=0;\\n\"\n\n";
    let bad_escape = format!("{}msgid \"a\\q\"\nmsgstr \"b\"\n", head);
    assert!(parse_text(&bad_escape, &POParseOptions::new()).is_err());
    let unquoted = format!("{}msgid \n", head);
    assert!(parse_text(&unquoted, &POParseOptions::new()).is_err());
    assert!(parse_text("\"orphan\"\n", &POParseOptions::new()).is_err());
    let e = parse_text("msgid \"x\"\nmsgstr \"y\"\n", &POParseOptions::new()).unwrap_err();
    assert_eq!(e.message, "metadata does not exist or is ill-formed");
}

#[test]
fn parser_state_line_by_line() {
    let mut state = POParserState::new(&POParseOptions::new());
    for line in ["msgid \"\"", "msgstr \"Language: de\\nPlural-Forms: nplurals=1; plural=0;\\n\"", "", "#~ obsolete", "msgid \"k\"", "msgstr \"v\"", ""] {
        state.consume_line(line).unwrap();
    }
    assert!(state.metadata_parsed);
    assert_eq!(state.catalog.metadata.language, "de");
    assert_eq!(state.catalog.find_message(None, "k", None).unwrap().msgstr().unwrap(), "v");
}

#[test]
fn test_escape() {
    let unescaped = "1\n2\n3\n";
    let expected = r"1\n2\n3\n";
    assert_eq!(escape(unescaped), expected);
}

#[test]
fn test_unescape() {
    let raw = r"1\n2\n3\n";
    let expected = "1\n2\n3\n";
    assert_eq!(unescape(raw).unwrap(), expected);
}

#[test]
fn escape_round_trip_corpus() {
    for s in ["", "plain", "back\\slash", "\"quoted\"", "tab\there", "cr\rlf\n", "héllo wörld ✓ 日本語", "\\n literal", "end\\"] {
        let e = escape(s);
        assert_eq!(unescape(&e).unwrap(), s);
    }
    assert_eq!(escape("a\"b\\c\td\re"), "a\\\"b\\\\c\\td\\re");
}

#[test]
fn unescape_errors() {
    let e = unescape("bad \\q").unwrap_err();
    assert_eq!(e.seq, "q");
    assert_eq!(e.message(), "invalid unescape sequence q");
    let e = unescape("trailing \\").unwrap_err();
    assert_eq!(e.seq, "\\");
    assert_eq!(unescape("no escapes").unwrap(), "no escapes");
}

#[test]
fn field_exactly_78_wide_is_not_wrapped() {
    let id = "x".repeat(72);
    let mut out = String::new();
    write_field(&mut out, "msgid", &id);
    assert_eq!(out, format!("msgid \"{}\"\n", id));
    let id = "x".repeat(73);
    let mut out = String::new();
    write_field(&mut out, "msgid", &id);
    assert_eq!(out, format!("msgid \"{}\"\n", id));
}

#[test]
fn field_79_wide_is_wrapped() {
    let id = "x".repeat(74);
    let mut out = String::new();
    write_field(&mut out, "msgid", &id);
    assert_eq!(out, format!("msgid \"\"\n\"{}\"\n", id));
}

#[test]
fn wrapped_field_splits_at_newlines_and_spaces() {
    let mut out = String::new();
    write_field(&mut out, "msgstr", "a\nb\nc");
    assert_eq!(out, "msgstr \"\"\n\"a\\n\"\n\"b\\n\"\n\"c\"\n");
    let words: Vec<String> = (0..20).map(|i| format!("word{:02}", i)).collect();
    let content = words.join(" ");
    let mut out = String::new();
    write_field(&mut out, "msgid", &content);
    let lines: Vec<&str> = out.lines().collect();
    assert_eq!(lines[0], "msgid \"\"");
    for l in &lines[1..] {
        assert!(l.chars().count() <= 79);
    }
    let rebuilt: String = lines[1..].iter().map(|l| &l[1..l.len() - 1]).collect();
    assert_eq!(rebuilt, content);
}

#[test]
fn wrap_greedy_lines() {
    let text: Vec<char> = "aaa bbb ccc".chars().collect();
    let lines = wrap(&text);
    assert_eq!(lines.len(), 1);
    let long: Vec<char> = format!("{} {}", "a".repeat(80), "b".repeat(10)).chars().collect();
    let lines = wrap(&long);
    assert_eq!(lines.len(), 2);
    assert_eq!(lines[0].len(), 81);
    assert_eq!(lines[1].iter().collect::<String>(), "b".repeat(10));
    let empty: Vec<char> = Vec::new();
    assert_eq!(wrap(&empty).len(), 1);
}

#[test]
fn written_catalog_text() {
    let mut catalog = Catalog::new(polib::metadata::CatalogMetadata::new());
    catalog.append_or_update(Message::new_singular("c1\nc2", "s", "fuzzy, c-format", "ctx", "id", "str"));
    catalog.append_or_update(Message::new_plural("", "", "", "", "one", "many", vec![String::from("un"), String::from("plusieurs")]));
    let text = polib::po_file::po_file_writer::write(&catalog);
    assert_eq!(
        text,
        "\nmsgid \"\"\nmsgstr \"Plural-Forms: nplurals=1; plural=0;\\n\"\n\n#. c1\n#. c2\n#: s\n#, fuzzy, c-format\nmsgctxt \"ctx\"\nmsgid \"id\"\nmsgstr \"str\"\n\nmsgid \"one\"\nmsgid_plural \"many\"\nmsgstr[0] \"un\"\nmsgstr[1] \"plusieurs\"\n\n"
    );
}

#[test]
fn repeated_flag_lines_are_comma_joined() {
    let text = "msgid \"\"\nmsgstr \"Language: x\\nPlural-Forms: nplurals=1; plural=0;\\n\"\n\n#, fuzzy\n#, c-format, no-wrap\nmsgid \"a\"\nmsgstr \"b\"\n";
    let catalog = parse_text(text, &POParseOptions::new()).unwrap();
    let m = catalog.find_message(None, "a", None).unwrap();
    assert_eq!(m.flags().entries, vec!["fuzzy", "c-format", "no-wrap"]);
    assert_eq!(catalog.slots_len(), 1);
}
