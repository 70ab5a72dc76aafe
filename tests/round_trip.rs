use polib::catalog::Catalog;
use polib::message::Message;
use polib::metadata::CatalogMetadata;
use polib::po_file::po_file_writer::write as write_po;
use polib::po_file::{parse_text, POParseOptions};

struct Lcg(u64);

impl Lcg {
    fn next(&mut self) -> u64 {
        self.0 = self.0.wrapping_mul(6364136223846793005).wrapping_add(1442695040888963407);
        self.0 >> 33
    }

    fn text(&mut self, max: u64) -> String {
        const PIECES: [&str; 14] = [
            "a", "word", " ", "  ", "\n", "\t", "\r", "\\", "\"", "é", "日本", "\\n", "x y z", "long-segment-without-spaces",
        ];
        let n = self.next() % (max + 1);
        let mut s = String::new();
        for _ in 0..n {
            s.push_str(PIECES[(self.next() % PIECES.len() as u64) as usize]);
        }
        s
    }
}

#[test]
fn generated_catalogs_survive_write_and_parse() {
    let mut rng = Lcg(7);
    for round in 0..40 {
        let metadata = CatalogMetadata::parse("Language: xx\nPlural-Forms: nplurals=2; plural=(n != 1);\n").unwrap();
        let mut catalog = Catalog::new(metadata);
        let count = 1 + rng.next() % 6;
        for k in 0..count {
            let id = format!("id{}-{}{}", round, k, rng.text(12));
            let ctxt = if rng.next() % 3 == 0 { format!("ctx{}", rng.text(3)) } else { String::new() };
            let m = if rng.next() % 2 == 0 {
                Message::new_singular("", "", "", &ctxt, &id, &rng.text(30))
            } else {
                let forms = vec![format!("f0{}", rng.text(20)), format!("f1{}", rng.text(20))];
                Message::new_plural("", "", "", &ctxt, &id, &format!("p{}", rng.text(10)), forms)
            };
            catalog.append_or_update(m);
        }
        let text = write_po(&catalog);
        let again = parse_text(&text, &POParseOptions::new()).unwrap();
        let a = catalog.messages();
        let b = again.messages();
        assert_eq!(a.len(), b.len());
        for i in 0..a.len() {
            assert_eq!(a[i].msgctxt(), b[i].msgctxt());
            assert_eq!(a[i].msgid(), b[i].msgid());
            assert_eq!(a[i].msgid_plural().ok(), b[i].msgid_plural().ok());
            assert_eq!(a[i].msgstr().ok(), b[i].msgstr().ok());
            assert_eq!(a[i].msgstr_plural().ok(), b[i].msgstr_plural().ok());
        }
        assert_eq!(write_po(&again), text);
    }
}
