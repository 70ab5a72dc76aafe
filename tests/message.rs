use polib::message::{gen_internal_key, Message, MessageBody, MessageFlags};
use std::str::FromStr;

#[test]
fn message_test_flags_from_string() {
    assert_eq!(MessageFlags::parse("").entries, Vec::<String>::new());
    assert_eq!(MessageFlags::parse("fuzzy").entries, vec!["fuzzy"]);
    assert_eq!(
        MessageFlags::parse("c-format, fuzzy").entries,
        vec!["c-format", "fuzzy"]
    );
}

#[test]
fn message_test_flags_to_string() {
    assert_eq!(MessageFlags { entries: vec![] }.export(), "");
    assert_eq!(
        MessageFlags {
            entries: vec![String::from("fuzzy")]
        }
        .export(),
        "fuzzy"
    );
    assert_eq!(
        MessageFlags {
            entries: vec![String::from("c-format"), String::from("fuzzy")]
        }
        .export(),
        "c-format, fuzzy"
    );
}

#[test]
fn message_test_internal_key_without_ctxt() {
    let message = Message::new_singular("", "", "", "", "ID", "STR");
    assert_eq!("ID", message.internal_key());
}

#[test]
fn message_test_internal_key_with_ctxt() {
    let message = Message::new_singular("", "", "", "CTXT", "ID", "STR");
    assert_eq!("CTXT\u{0004}ID", message.internal_key());
}

#[test]
fn flags_test_flags_from_string() {
    assert_eq!(
        MessageFlags::from_str("").unwrap().entries,
        Vec::<String>::new()
    );
    assert_eq!(
        MessageFlags::from_str("fuzzy").unwrap().entries,
        vec!["fuzzy"]
    );
    assert_eq!(
        MessageFlags::from_str("c-format, fuzzy").unwrap().entries,
        vec!["c-format", "fuzzy"]
    );
}

#[test]
fn flags_test_flags_to_string() {
    assert_eq!(MessageFlags { entries: vec![] }.export(), "");
    assert_eq!(
        MessageFlags {
            entries: vec![String::from("fuzzy")]
        }
        .export(),
        "fuzzy"
    );
    assert_eq!(
        MessageFlags {
            entries: vec![String::from("c-format"), String::from("fuzzy")]
        }
        .export(),
        "c-format, fuzzy"
    );
}

#[test]
fn test_singular_message_key_without_ctxt() {
    let message = Message::build_singular()
        .with_msgid(String::from("ID"))
        .done();
    assert_eq!("ID", message.internal_key());
}

#[test]
fn test_singular_message_key_with_ctxt() {
    let message = Message::build_singular()
        .with_msgctxt(String::from("CTXT"))
        .with_msgid(String::from("ID"))
        .done();
    assert_eq!("CTXT\u{0004}ID", message.internal_key());
}

#[test]
fn flags_parse_drops_line_breaks_and_empty_pieces() {
    let f = MessageFlags::parse("fuzzy,\nc-format,, no-wrap ");
    assert_eq!(f.entries, vec!["fuzzy", "c-format", "no-wrap"]);
    assert_eq!(f.count(), 3);
    assert!(f.is_fuzzy());
    assert!(f.contains("no-wrap"));
    assert!(!f.contains("python-format"));
}

#[test]
fn flags_add_and_remove() {
    let mut f = MessageFlags::new();
    assert!(f.is_empty());
    f.add_flag("fuzzy");
    f.add_flag("fuzzy");
    f.add_flag("c-format");
    assert_eq!(f.entries, vec!["fuzzy", "c-format"]);
    f.remove_flag("fuzzy");
    assert_eq!(f.entries, vec!["c-format"]);
    f.remove_flag("absent");
    assert_eq!(f.entries, vec!["c-format"]);
    assert!(!f.is_fuzzy());
    assert_eq!(f.iter().len(), 1);
}

#[test]
fn singular_translated_iff_msgstr_non_empty() {
    let m = Message::new_singular("", "", "", "", "id", "");
    assert!(m.is_singular());
    assert!(!m.is_translated());
    let m = Message::new_singular("", "", "", "", "id", "x");
    assert!(m.is_translated());
}

#[test]
fn plural_translated_iff_every_form_non_empty() {
    let m = Message::new_plural("", "", "", "", "id", "ids", vec![String::from("x"), String::from("")]);
    assert!(m.is_plural());
    assert!(!m.is_translated());
    let m = Message::new_plural("", "", "", "", "id", "ids", vec![String::from("x"), String::from("y")]);
    assert!(m.is_translated());
}

#[test]
fn wrong_variant_access_is_an_error() {
    let mut s = Message::new_singular("", "", "fuzzy", "", "id", "str");
    assert!(s.is_fuzzy());
    assert!(s.msgid_plural().is_err());
    assert!(s.msgstr_plural().is_err());
    assert_eq!(s.msgstr().unwrap(), "str");
    assert!(s.set_msgid_plural(String::from("p")).is_err());
    assert!(s.set_msgstr_plural(vec![]).is_err());
    assert!(s.set_msgstr(String::from("new")).is_ok());
    assert_eq!(s.msgstr().unwrap(), "new");
    let e = s.msgid_plural().unwrap_err();
    assert_eq!(e.message(), "singular/plural type mismatch");

    let mut p = Message::new_plural("", "", "", "", "id", "ids", vec![String::from("a")]);
    assert!(p.msgstr().is_err());
    assert!(p.set_msgstr(String::from("x")).is_err());
    assert!(p.set_msgid_plural(String::from("idz")).is_ok());
    assert_eq!(p.msgid_plural().unwrap(), "idz");
    assert!(p.set_msgstr_plural(vec![String::from("b"), String::from("c")]).is_ok());
    assert_eq!(p.msgstr_plural().unwrap(), &vec![String::from("b"), String::from("c")]);
    assert_eq!(p.msgid_plural().unwrap(), "idz");
}

#[test]
fn builder_sets_fields_of_its_variant() {
    let m = Message::build_plural()
        .with_comments(String::from("c"))
        .with_source(String::from("s"))
        .with_flags(MessageFlags::parse("fuzzy"))
        .with_msgctxt(String::from("ctx"))
        .with_msgid(String::from("one"))
        .with_msgid_plural(String::from("many"))
        .with_msgstr(String::from("ignored"))
        .with_msgstr_plural(vec![String::from("un"), String::from("des")])
        .done();
    assert_eq!(m.comments(), "c");
    assert_eq!(m.source(), "s");
    assert!(m.flags().is_fuzzy());
    assert_eq!(m.msgctxt(), Some("ctx"));
    assert_eq!(m.msgid(), "one");
    match &m.body {
        MessageBody::Plural { msgid_plural, msgstr_plural } => {
            assert_eq!(msgid_plural, "many");
            assert_eq!(msgstr_plural, &vec![String::from("un"), String::from("des")]);
        }
        MessageBody::Singular { .. } => panic!("expected a plural message"),
    }
    let s = Message::build_singular().with_msgid_plural(String::from("x")).done();
    assert!(s.is_singular());
    assert_eq!(s.msgctxt(), None);
}

#[test]
fn internal_key_joins_context_and_msgid() {
    assert_eq!(gen_internal_key("", "a"), "a");
    assert_eq!(gen_internal_key("c", "a"), "c\u{4}a");
}

#[test]
fn to_owned_copies_every_field() {
    let m = Message::new_plural("c", "s", "fuzzy", "x", "one", "many", vec![String::from("a"), String::from("b")]);
    let c = m.to_owned();
    assert_eq!(c.comments(), "c");
    assert_eq!(c.source(), "s");
    assert!(c.is_fuzzy());
    assert_eq!(c.msgctxt(), Some("x"));
    assert_eq!(c.msgid(), "one");
    assert_eq!(c.msgid_plural().unwrap(), "many");
    assert_eq!(c.msgstr_plural().unwrap(), m.msgstr_plural().unwrap());
}
