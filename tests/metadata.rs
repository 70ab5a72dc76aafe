use polib::metadata::CatalogMetadata;
use polib::plural::CatalogPluralRules;

#[test]
fn test_metadata_parse() {
    let input_data = "Plural-Forms: nplurals=1; plural=0;\n";
    let res = CatalogMetadata::parse(input_data);
    let catalog_metadata = res.unwrap();
    assert_eq!(catalog_metadata.project_id_version, "");
    assert_eq!(catalog_metadata.pot_creation_date, "");
    assert_eq!(catalog_metadata.po_revision_date, "");
    assert_eq!(catalog_metadata.last_translator, "");
    assert_eq!(catalog_metadata.language_team, "");
    assert_eq!(catalog_metadata.mime_version, "");
    assert_eq!(catalog_metadata.content_type, "");
    assert_eq!(catalog_metadata.content_transfer_encoding, "");
    assert_eq!(catalog_metadata.language, "");
}

#[test]
fn test_metadata_dump() {
    let input_data = "Plural-Forms: nplurals=1; plural=0;\n";
    let res = CatalogMetadata::parse(input_data);
    let catalog_metadata = res.unwrap();
    let dump_res = catalog_metadata.dump(true);
    assert_eq!(dump_res, input_data);
}

#[test]
fn metadata_fields_are_trimmed_and_last_line_wins() {
    let text = "Project-Id-Version:  demo 1.0 \nLanguage: fr\nLanguage: de\nX-Unknown: y\nno colon here\nPlural-Forms: nplurals=2; plural=(n != 1);\n";
    let m = CatalogMetadata::parse(text).unwrap();
    assert_eq!(m.project_id_version, "demo 1.0");
    assert_eq!(m.language, "de");
    assert_eq!(m.plural_rules.nplurals, 2);
    assert_eq!(m.plural_rules.expr, "(n != 1)");
    assert_eq!(
        m.export_for_po(),
        "Project-Id-Version: demo 1.0\nLanguage: de\nPlural-Forms: nplurals=2; plural=(n != 1);\n"
    );
}

#[test]
fn export_for_mo_leaves_out_creation_date() {
    let m = CatalogMetadata::parse("POT-Creation-Date: 2020-01-01\nMIME-Version: 1.0\nPlural-Forms: nplurals=1; plural=0;\n").unwrap();
    assert_eq!(
        m.export_for_po(),
        "POT-Creation-Date: 2020-01-01\nMIME-Version: 1.0\nPlural-Forms: nplurals=1; plural=0;\n"
    );
    assert_eq!(
        m.export_for_mo(),
        "MIME-Version: 1.0\nPlural-Forms: nplurals=1; plural=0;\n"
    );
}

#[test]
fn bad_plural_forms_fail_metadata() {
    let e = CatalogMetadata::parse("Plural-Forms: nplurals=0; plural=0;\n").unwrap_err();
    assert!(e.message.contains("nplurals equals to zero"));
    let e = CatalogMetadata::parse("Language: fr\n").unwrap_err();
    assert!(e.message.contains("Plural-Forms does not exist"));
    let fresh = CatalogMetadata::new();
    assert_eq!(fresh.plural_rules.nplurals, 1);
}

#[test]
fn plural_rules_parse_and_dump() {
    let r = CatalogPluralRules::parse("nplurals=3; plural=(n%10==1 ? 0 : n ? 1 : 2);").unwrap();
    assert_eq!(r.nplurals, 3);
    assert_eq!(r.expr, "(n%10==1 ? 0 : n ? 1 : 2)");
    assert_eq!(r.dump(), "nplurals=3; plural=(n%10==1 ? 0 : n ? 1 : 2);");
    let r = CatalogPluralRules::parse(" nplurals=+12 ;plural=n").unwrap();
    assert_eq!(r.nplurals, 12);
    assert_eq!(r.dump(), "nplurals=12; plural=n;");
    assert_eq!(CatalogPluralRules::new().dump(), "nplurals=1; plural=0;");
}

#[test]
fn plural_rules_errors() {
    for bad in [
        "nplurals=0; plural=0;",
        "nplurals=2; plural=;",
        "nplurals=2;",
        "plural=n;",
        "nplurals=2; plural=n; other=1;",
        "nplurals=x; plural=n;",
        "nplurals=2; plural",
        "nplurals=99999999999999999999999; plural=n;",
    ] {
        assert!(CatalogPluralRules::parse(bad).is_err(), "{}", bad);
    }
    let e = CatalogPluralRules::parse("nplurals=2").unwrap_err();
    assert_eq!(e.message, "plural rule expression does not exist");
}
