use polib::catalog::Catalog;
use polib::message::Message;
use polib::metadata::CatalogMetadata;
use polib::mo_file::{mo_bytes, original_repr_len, translated_repr_len};

fn singular(ctxt: &str, id: &str, s: &str) -> Message {
    Message::new_singular("", "", "", ctxt, id, s)
}

#[test]
fn same_unit_appended_twice_keeps_the_second_in_first_place() {
    let mut catalog = Catalog::new(CatalogMetadata::new());
    assert!(catalog.is_empty());
    catalog.append_or_update(singular("", "a", "first"));
    catalog.append_or_update(singular("", "b", "other"));
    catalog.append_or_update(singular("", "a", "second"));
    assert_eq!(catalog.count(), 2);
    let messages = catalog.messages();
    assert_eq!(messages[0].msgid(), "a");
    assert_eq!(messages[0].msgstr().unwrap(), "second");
    assert_eq!(messages[1].msgid(), "b");
}

#[test]
fn identity_collapse_from_empty() {
    let mut catalog = Catalog::new(CatalogMetadata::new());
    catalog.append_or_update(singular("ctx", "a", "1"));
    catalog.append_or_update(Message::new_plural("", "", "", "ctx", "a", "as", vec![String::from("x")]));
    assert_eq!(catalog.count(), 1);
    assert!(catalog.find_message(Some("ctx"), "a", Some("as")).is_some());
    assert!(catalog.find_message(Some("ctx"), "a", None).is_none());
}

#[test]
fn context_distinguishes_units() {
    let mut catalog = Catalog::new(CatalogMetadata::new());
    catalog.append_or_update(singular("", "a", "1"));
    catalog.append_or_update(singular("menu", "a", "2"));
    assert_eq!(catalog.count(), 2);
    assert_eq!(catalog.find_message(None, "a", None).unwrap().msgstr().unwrap(), "1");
    assert_eq!(catalog.find_message(Some(""), "a", None).unwrap().msgstr().unwrap(), "1");
    assert_eq!(catalog.find_message(Some("menu"), "a", None).unwrap().msgstr().unwrap(), "2");
    assert!(catalog.find_message(Some("other"), "a", None).is_none());
}

#[test]
fn delete_then_find_and_delete_again() {
    let mut catalog = Catalog::new(CatalogMetadata::new());
    catalog.append_or_update(singular("", "a", "1"));
    catalog.append_or_update(singular("", "b", "2"));
    catalog.append_or_update(singular("", "c", "3"));
    assert!(catalog.delete_message(None, "b", None));
    assert!(catalog.find_message(None, "b", None).is_none());
    assert_eq!(catalog.count(), 2);
    assert!(!catalog.delete_message(None, "b", None));
    assert_eq!(catalog.count(), 2);
    let ids: Vec<&str> = catalog.messages().iter().map(|m| m.msgid()).collect();
    assert_eq!(ids, vec!["a", "c"]);
    catalog.append_or_update(singular("", "b", "again"));
    let ids: Vec<&str> = catalog.messages().iter().map(|m| m.msgid()).collect();
    assert_eq!(ids, vec!["a", "c", "b"]);
}

#[test]
fn detach_returns_the_message() {
    let mut catalog = Catalog::new(CatalogMetadata::new());
    catalog.append_or_update(singular("", "a", "1"));
    assert!(catalog.detach_message(None, "a", Some("p")).is_none());
    let m = catalog.detach_message(None, "a", None).unwrap();
    assert_eq!(m.msgstr().unwrap(), "1");
    assert!(catalog.is_empty());
    assert!(catalog.detach_message(None, "a", None).is_none());
}

#[test]
fn repr_lengths_are_in_bytes() {
    let m = Message::new_singular("", "", "", "ctx", "é", "ü");
    assert_eq!(original_repr_len(&m), 3 + 1 + 2);
    assert_eq!(translated_repr_len(&m), 2);
    let p = Message::new_plural("", "", "", "", "a", "bb", vec![String::from("x"), String::from("yz")]);
    assert_eq!(original_repr_len(&p), 1 + 1 + 2);
    assert_eq!(translated_repr_len(&p), 1 + 1 + 2);
}

fn word(b: &[u8], at: usize) -> u32 {
    u32::from_le_bytes([b[at], b[at + 1], b[at + 2], b[at + 3]])
}

#[test]
fn mo_layout_of_a_small_catalog() {
    let mut catalog = Catalog::new(CatalogMetadata::new());
    catalog.append_or_update(singular("", "b", "B"));
    catalog.append_or_update(singular("", "a", "A"));
    catalog.append_or_update(singular("", "untranslated", ""));
    let b = mo_bytes(&catalog).unwrap();
    assert_eq!(word(&b, 0), 0x950412de);
    assert_eq!(word(&b, 4), 0);
    assert_eq!(word(&b, 8), 3);
    assert_eq!(word(&b, 12), 28);
    assert_eq!(word(&b, 16), 28 + 24);
    assert_eq!(word(&b, 20), 0);
    assert_eq!(word(&b, 24), 0);
    let start = 28 + 48;
    assert_eq!(word(&b, 28), 0);
    assert_eq!(word(&b, 32), start);
    assert_eq!(word(&b, 36), 1);
    assert_eq!(word(&b, 40), start + 1);
    assert_eq!(word(&b, 44), 1);
    assert_eq!(word(&b, 48), start + 3);
    let header = "Plural-Forms: nplurals=1; plural=0;\n";
    assert_eq!(word(&b, 52) as usize, header.len());
    let s = start as usize;
    assert_eq!(&b[s..s + 5], b"\0a\0b\0");
    assert_eq!(&b[s + 5..s + 5 + header.len()], header.as_bytes());
    assert_eq!(&b[s + 5 + header.len()..], b"\0A\0B\0");
}

#[test]
fn rekeying_setters_keep_units_unique() {
    let mut catalog = Catalog::new(CatalogMetadata::new());
    catalog.append_or_update(singular("", "a", "1"));
    catalog.append_or_update(singular("", "b", "2"));
    let idx = catalog.find_message_index(None, "b", None).unwrap();
    assert!(!catalog.set_msgid(idx, String::from("a")));
    assert!(catalog.set_msgid(idx, String::from("c")));
    assert!(catalog.find_message(None, "b", None).is_none());
    assert_eq!(catalog.find_message(None, "c", None).unwrap().msgstr().unwrap(), "2");
    assert!(catalog.set_msgctxt(idx, String::from("menu")));
    assert!(catalog.find_message(Some("menu"), "c", None).is_some());
    assert!(catalog.find_message(None, "c", None).is_none());
    assert_eq!(catalog.message_indices(), vec![0, 1]);
    assert!(!catalog.set_msgid(7, String::from("z")));
}

#[test]
fn update_by_index_replaces_in_place() {
    let mut catalog = Catalog::new(CatalogMetadata::new());
    catalog.append_or_update(singular("", "a", "1"));
    catalog.append_or_update(singular("", "b", "2"));
    catalog.append_or_update(singular("", "c", "3"));
    assert!(catalog.delete_message(None, "a", None));
    assert_eq!(catalog.message_indices(), vec![1, 2]);
    assert!(catalog.get_message_by_index(0).is_none());
    let old = catalog.update_message_by_index(1, singular("", "b", "two")).unwrap();
    assert_eq!(old.msgstr().unwrap(), "2");
    assert_eq!(catalog.get_message_by_index(1).unwrap().msgstr().unwrap(), "two");
    let back = catalog.update_message_by_index(1, singular("", "c", "clash")).unwrap_err();
    assert_eq!(back.msgstr().unwrap(), "clash");
    assert!(catalog.update_message_by_index(0, singular("", "z", "z")).is_err());
    assert_eq!(catalog.count(), 2);
}
