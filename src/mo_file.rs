//! Compiling a catalog to the binary `.mo` format.

use vstd::prelude::*;
use crate::catalog::{live_messages, Catalog};
use crate::message::{Message, MessageBody};

verus! {

/// The UTF-8 encoding of one character.
pub open spec fn utf8_char(c: char) -> Seq<u8> {
    let x = c as u32;
    if x < 0x80 {
        seq![x as u8]
    } else if x < 0x800 {
        seq![(0xc0 + x / 64) as u8, (0x80 + x % 64) as u8]
    } else if x < 0x10000 {
        seq![(0xe0 + x / 4096) as u8, (0x80 + (x / 64) % 64) as u8, (0x80 + x % 64) as u8]
    } else {
        seq![
            (0xf0 + x / 262144) as u8,
            (0x80 + (x / 4096) % 64) as u8,
            (0x80 + (x / 64) % 64) as u8,
            (0x80 + x % 64) as u8,
        ]
    }
}

/// The UTF-8 encoding of a string.
pub open spec fn utf8(s: Seq<char>) -> Seq<u8>
    decreases s.len(),
{
    if s.len() == 0 {
        Seq::empty()
    } else {
        utf8(s.drop_last()) + utf8_char(s.last())
    }
}

/// The UTF-8 encoding of the characters of `s`.
fn utf8_bytes(s: &str) -> (r: Vec<u8>)
    ensures
        r@ == utf8(s@),
{
    let v = crate::text::chars_of(s);
    let mut r: Vec<u8> = Vec::new();
    let mut i: usize = 0;
    while i < v.len()
        invariant
            0 <= i <= v@.len(),
            v@ == s@,
            r@ == utf8(v@.take(i as int)),
        decreases v.len() - i,
    {
        assert(v@.take(i + 1).drop_last() =~= v@.take(i as int));
        let c = v[i];
        let x = c as u32;
        let ghost before = r@;
        if x < 0x80 {
            r.push(x as u8);
        } else if x < 0x800 {
            r.push((0xc0 + x / 64) as u8);
            r.push((0x80 + x % 64) as u8);
        } else if x < 0x10000 {
            r.push((0xe0 + x / 4096) as u8);
            r.push((0x80 + (x / 64) % 64) as u8);
            r.push((0x80 + x % 64) as u8);
        } else {
            r.push((0xf0 + x / 262144) as u8);
            r.push((0x80 + (x / 4096) % 64) as u8);
            r.push((0x80 + (x / 64) % 64) as u8);
            r.push((0x80 + x % 64) as u8);
        }
        assert(r@ =~= before + utf8_char(c));
        i += 1;
    }
    assert(v@.take(v@.len() as int) =~= v@);
    r
}

/// The original string of a message in a `.mo` file: the context and
/// U+0004 when there is a context, the `msgid`, and for a plural message a
/// NUL and the `msgid_plural`.
pub open spec fn original_repr(m: Message) -> Seq<u8> {
    (if m.msgctxt@.len() > 0 {
        utf8(m.msgctxt@).push(4u8)
    } else {
        Seq::empty()
    }) + utf8(m.msgid@) + match m.body {
        MessageBody::Plural { msgid_plural, .. } => seq![0u8] + utf8(msgid_plural@),
        MessageBody::Singular { .. } => Seq::empty(),
    }
}

/// `parts` joined with NUL bytes.
pub open spec fn nul_joined(parts: Seq<Seq<char>>) -> Seq<u8>
    decreases parts.len(),
{
    if parts.len() == 0 {
        Seq::empty()
    } else if parts.len() == 1 {
        utf8(parts[0])
    } else {
        nul_joined(parts.drop_last()) + seq![0u8] + utf8(parts.last())
    }
}

/// The translated string of a message in a `.mo` file: the `msgstr`, or
/// the plural forms joined with NUL bytes.
pub open spec fn translated_repr(m: Message) -> Seq<u8> {
    match m.body {
        MessageBody::Singular { msgstr } => utf8(msgstr@),
        MessageBody::Plural { msgstr_plural, .. } => nul_joined(
            crate::message::strings_view(msgstr_plural@),
        ),
    }
}

/// Whether `a` comes before `b` in byte order.
pub open spec fn bytes_lt(a: Seq<u8>, b: Seq<u8>) -> bool
    decreases a.len(),
{
    if a.len() == 0 {
        b.len() > 0
    } else if b.len() == 0 {
        false
    } else if a[0] != b[0] {
        a[0] < b[0]
    } else {
        bytes_lt(a.drop_first(), b.drop_first())
    }
}

/// The entries of a `.mo` file: (original, translation) pairs.
pub type MoEntries = Seq<(Seq<u8>, Seq<u8>)>;

/// Where `e` goes into the sorted `list`: before the first entry whose
/// original comes after its own.
pub open spec fn insert_pos(list: MoEntries, e: (Seq<u8>, Seq<u8>)) -> int
    decreases list.len(),
{
    if list.len() == 0 {
        0
    } else if bytes_lt(e.0, list[0].0) {
        0
    } else {
        1 + insert_pos(list.drop_first(), e)
    }
}

/// `es` ordered by original string in byte order; entries with equal
/// originals keep their order.
pub open spec fn sorted_entries(es: MoEntries) -> MoEntries
    decreases es.len(),
{
    if es.len() == 0 {
        es
    } else {
        let s = sorted_entries(es.drop_last());
        s.insert(insert_pos(s, es.last()), es.last())
    }
}

/// The entries for the translated messages among `ms`, in order.
pub open spec fn entries_of(ms: Seq<Message>) -> MoEntries
    decreases ms.len(),
{
    if ms.len() == 0 {
        Seq::empty()
    } else if ms.last().translated() {
        entries_of(ms.drop_last()).push((original_repr(ms.last()), translated_repr(ms.last())))
    } else {
        entries_of(ms.drop_last())
    }
}

/// A 32-bit word, little-endian.
pub open spec fn le32(x: nat) -> Seq<u8> {
    seq![(x % 256) as u8, ((x / 256) % 256) as u8, ((x / 65536) % 256) as u8, ((x / 16777216) % 256) as u8]
}

/// Room the strings take in the string area: each one with its NUL.
pub open spec fn strings_size(strs: Seq<Seq<u8>>) -> nat
    decreases strs.len(),
{
    if strs.len() == 0 {
        0
    } else {
        strings_size(strs.drop_last()) + strs.last().len() + 1
    }
}

/// The (length, offset) table of `strs`, the first starting at `start`.
pub open spec fn string_table(strs: Seq<Seq<u8>>, start: nat) -> Seq<u8>
    decreases strs.len(),
{
    if strs.len() == 0 {
        Seq::empty()
    } else {
        string_table(strs.drop_last(), start) + le32(strs.last().len()) + le32(
            start + strings_size(strs.drop_last()),
        )
    }
}

/// The strings, each followed by a NUL.
pub open spec fn string_area(strs: Seq<Seq<u8>>) -> Seq<u8>
    decreases strs.len(),
{
    if strs.len() == 0 {
        Seq::empty()
    } else {
        string_area(strs.drop_last()) + strs.last() + seq![0u8]
    }
}

/// The original strings of the entries.
pub open spec fn firsts(es: MoEntries) -> Seq<Seq<u8>>
    decreases es.len(),
{
    if es.len() == 0 {
        Seq::empty()
    } else {
        firsts(es.drop_last()).push(es.last().0)
    }
}

/// The translated strings of the entries.
pub open spec fn seconds(es: MoEntries) -> Seq<Seq<u8>>
    decreases es.len(),
{
    if es.len() == 0 {
        Seq::empty()
    } else {
        seconds(es.drop_last()).push(es.last().1)
    }
}

/// The originals of a `.mo` file: the metadata's empty one, then those of
/// the entries.
pub open spec fn originals(es: MoEntries) -> Seq<Seq<u8>> {
    seq![Seq::<u8>::empty()] + firsts(es)
}

/// The translations of a `.mo` file: the metadata, then those of the
/// entries.
pub open spec fn translations(header: Seq<u8>, es: MoEntries) -> Seq<Seq<u8>> {
    seq![header] + seconds(es)
}

/// Offset of the string area: the 28-byte header and two tables of 8 bytes
/// per string.
pub open spec fn area_start(es: MoEntries) -> nat {
    28 + 16 * (es.len() + 1)
}

/// Size of a whole `.mo` file.
pub open spec fn mo_size(header: Seq<u8>, es: MoEntries) -> nat {
    area_start(es) + strings_size(originals(es)) + strings_size(translations(header, es))
}

/// A `.mo` file: magic number, format 0, string count, the offsets of the
/// two tables, two zero words (no hash table), the two tables, then the
/// original strings and the translated strings.
pub open spec fn mo_layout(header: Seq<u8>, es: MoEntries) -> Seq<u8> {
    let n = es.len() + 1;
    le32(0x950412de) + le32(0) + le32(n) + le32(28) + le32(28 + 8 * n) + le32(0) + le32(0)
        + string_table(originals(es), area_start(es)) + string_table(
        translations(header, es),
        area_start(es) + strings_size(originals(es)),
    ) + string_area(originals(es)) + string_area(translations(header, es))
}

/// The byte strings of `v`.
pub open spec fn bytes_view(v: Seq<Vec<u8>>) -> Seq<Seq<u8>> {
    v.map_values(|b: Vec<u8>| b@)
}

proof fn lemma_strings_size_prefix(strs: Seq<Seq<u8>>, i: int)
    requires
        0 <= i <= strs.len(),
    ensures
        strings_size(strs.take(i)) <= strings_size(strs),
    decreases strs.len() - i,
{
    if i < strs.len() {
        assert(strs.take(i + 1).drop_last() =~= strs.take(i));
        lemma_strings_size_prefix(strs, i + 1);
    } else {
        assert(strs.take(i) =~= strs);
    }
}

/// Appends a 32-bit word, little-endian.
fn push_le32(out: &mut Vec<u8>, x: u32)
    ensures
        final(out)@ == old(out)@ + le32(x as nat),
{
    out.push((x % 256) as u8);
    out.push(((x / 256) % 256) as u8);
    out.push(((x / 65536) % 256) as u8);
    out.push(((x / 16777216) % 256) as u8);
    assert(final(out)@ =~= old(out)@ + le32(x as nat));
}

/// Appends the bytes of `b`.
fn push_bytes(out: &mut Vec<u8>, b: &Vec<u8>)
    ensures
        final(out)@ == old(out)@ + b@,
{
    let mut i: usize = 0;
    while i < b.len()
        invariant
            0 <= i <= b@.len(),
            out@ == old(out)@ + b@.take(i as int),
        decreases b.len() - i,
    {
        out.push(b[i]);
        assert(out@ =~= old(out)@ + b@.take(i + 1));
        i += 1;
    }
    assert(b@.take(b@.len() as int) =~= b@);
}

/// The original string of a message (see `original_repr`).
fn original_bytes(m: &Message) -> (r: Vec<u8>)
    ensures
        r@ == original_repr(*m),
{
    let mut r: Vec<u8> = Vec::new();
    if !m.msgctxt.as_str().is_empty() {
        r = utf8_bytes(m.msgctxt.as_str());
        r.push(4u8);
    }
    let ghost a = r@;
    let id = utf8_bytes(m.msgid.as_str());
    push_bytes(&mut r, &id);
    match &m.body {
        MessageBody::Plural { msgid_plural, .. } => {
            r.push(0u8);
            let p = utf8_bytes(msgid_plural.as_str());
            push_bytes(&mut r, &p);
        },
        MessageBody::Singular { .. } => {},
    }
    assert(r@ =~= original_repr(*m));
    r
}

/// The translated string of a message (see `translated_repr`).
fn translated_bytes(m: &Message) -> (r: Vec<u8>)
    ensures
        r@ == translated_repr(*m),
{
    match &m.body {
        MessageBody::Singular { msgstr } => utf8_bytes(msgstr.as_str()),
        MessageBody::Plural { msgstr_plural, .. } => {
            let ghost fs = crate::message::strings_view(msgstr_plural@);
            let mut r: Vec<u8> = Vec::new();
            let mut i: usize = 0;
            while i < msgstr_plural.len()
                invariant
                    0 <= i <= msgstr_plural@.len(),
                    fs == crate::message::strings_view(msgstr_plural@),
                    r@ == nul_joined(fs.take(i as int)),
                decreases msgstr_plural.len() - i,
            {
                assert(fs.take(i + 1).drop_last() =~= fs.take(i as int));
                if i > 0 {
                    r.push(0u8);
                }
                let b = utf8_bytes(msgstr_plural[i].as_str());
                push_bytes(&mut r, &b);
                proof {
                    if i == 0 {
                        assert(r@ =~= nul_joined(fs.take(1)));
                    } else {
                        assert(r@ =~= nul_joined(fs.take(i + 1)));
                    }
                }
                i += 1;
            }
            assert(fs.take(fs.len() as int) =~= fs);
            r
        },
    }
}

/// Byte length of the original string of a message.
pub fn original_repr_len(m: &Message) -> (r: usize)
    ensures
        r == original_repr(*m).len(),
{
    original_bytes(m).len()
}

/// Byte length of the translated string of a message.
pub fn translated_repr_len(m: &Message) -> (r: usize)
    ensures
        r == translated_repr(*m).len(),
{
    translated_bytes(m).len()
}

/// Whether `a` comes before `b` in byte order.
fn bytes_less(a: &Vec<u8>, b: &Vec<u8>) -> (r: bool)
    ensures
        r == bytes_lt(a@, b@),
{
    let mut i: usize = 0;
    assert(a@.subrange(0, a@.len() as int) =~= a@);
    assert(b@.subrange(0, b@.len() as int) =~= b@);
    while i < a.len() && i < b.len() && a[i] == b[i]
        invariant
            0 <= i <= a@.len(),
            i <= b@.len(),
            bytes_lt(a@, b@) == bytes_lt(a@.subrange(i as int, a@.len() as int), b@.subrange(i as int, b@.len() as int)),
        decreases a.len() - i,
    {
        assert(a@.subrange(i as int, a@.len() as int).drop_first() =~= a@.subrange(i + 1, a@.len() as int));
        assert(b@.subrange(i as int, b@.len() as int).drop_first() =~= b@.subrange(i + 1, b@.len() as int));
        i += 1;
    }
    if i == a.len() {
        i < b.len()
    } else if i == b.len() {
        false
    } else {
        a[i] < b[i]
    }
}

/// The entries of the translated messages, ordered by original string.
fn sorted_mo_entries(ms: &Vec<&Message>) -> (r: Vec<(Vec<u8>, Vec<u8>)>)
    ensures
        r@.map_values(|e: (Vec<u8>, Vec<u8>)| (e.0@, e.1@)) == sorted_entries(
            entries_of(ms@.map_values(|m: &Message| *m)),
        ),
{
    let ghost all = ms@.map_values(|m: &Message| *m);
    let mut r: Vec<(Vec<u8>, Vec<u8>)> = Vec::new();
    let mut k: usize = 0;
    while k < ms.len()
        invariant
            0 <= k <= ms@.len(),
            all == ms@.map_values(|m: &Message| *m),
            r@.map_values(|e: (Vec<u8>, Vec<u8>)| (e.0@, e.1@)) == sorted_entries(entries_of(all.take(k as int))),
        decreases ms.len() - k,
    {
        assert(all.take(k + 1).drop_last() =~= all.take(k as int));
        let m = ms[k];
        if m.is_translated() {
            let o = original_bytes(m);
            let t = translated_bytes(m);
            let ghost e = (o@, t@);
            let ghost sv = r@.map_values(|e: (Vec<u8>, Vec<u8>)| (e.0@, e.1@));
            let ghost ent = entries_of(all.take(k as int));
            assert(all.take(k + 1).last() == *m);
            assert(entries_of(all.take(k + 1)) == ent.push(e));
            assert(ent.push(e).drop_last() =~= ent);
            assert(sv.subrange(0, sv.len() as int) =~= sv);
            let mut j: usize = 0;
            while j < r.len() && !bytes_less(&o, &r[j].0)
                invariant
                    0 <= j <= r@.len(),
                    sv == r@.map_values(|e: (Vec<u8>, Vec<u8>)| (e.0@, e.1@)),
                    e == (o@, t@),
                    insert_pos(sv, e) == j + insert_pos(sv.subrange(j as int, sv.len() as int), e),
                decreases r.len() - j,
            {
                assert(sv.subrange(j as int, sv.len() as int).drop_first() =~= sv.subrange(j + 1, sv.len() as int));
                assert(sv.subrange(j as int, sv.len() as int)[0] == sv[j as int]);
                assert(sv[j as int].0 == r@[j as int].0@);
                j += 1;
            }
            proof {
                if j < r@.len() {
                    assert(sv.subrange(j as int, sv.len() as int)[0] == sv[j as int]);
                }
            }
            assert(insert_pos(sv, e) == j);
            r.insert(j, (o, t));
            assert(r@.map_values(|e: (Vec<u8>, Vec<u8>)| (e.0@, e.1@)) =~= sv.insert(j as int, e));
        } else {
            assert(all.take(k + 1).last() == *m);
        }
        k += 1;
    }
    assert(all.take(all.len() as int) =~= all);
    r
}

/// Room that `strs` take in the string area, if it fits in 32 bits.
fn area_size(strs: &Vec<Vec<u8>>) -> (r: Option<u32>)
    ensures
        r is Some == (strings_size(bytes_view(strs@)) <= u32::MAX),
        r matches Some(t) ==> t == strings_size(bytes_view(strs@)),
{
    let ghost sv = bytes_view(strs@);
    let mut t: u32 = 0;
    let mut i: usize = 0;
    while i < strs.len()
        invariant
            0 <= i <= strs@.len(),
            sv == bytes_view(strs@),
            t == strings_size(sv.take(i as int)),
        decreases strs.len() - i,
    {
        assert(sv.take(i + 1).drop_last() =~= sv.take(i as int));
        let l = strs[i].len();
        if l >= u32::MAX as usize || t > u32::MAX - 1 - l as u32 {
            proof {
                lemma_strings_size_prefix(sv, i + 1);
            }
            return None;
        }
        t = t + l as u32 + 1;
        i += 1;
    }
    assert(sv.take(sv.len() as int) =~= sv);
    Some(t)
}

/// Appends the (length, offset) table of `strs`, starting at `start`.
fn push_table(out: &mut Vec<u8>, strs: &Vec<Vec<u8>>, start: u32)
    requires
        start + strings_size(bytes_view(strs@)) <= u32::MAX,
    ensures
        final(out)@ == old(out)@ + string_table(bytes_view(strs@), start as nat),
{
    let ghost sv = bytes_view(strs@);
    let mut off: u32 = start;
    let mut i: usize = 0;
    while i < strs.len()
        invariant
            0 <= i <= strs@.len(),
            sv == bytes_view(strs@),
            start + strings_size(sv) <= u32::MAX,
            off == start + strings_size(sv.take(i as int)),
            out@ == old(out)@ + string_table(sv.take(i as int), start as nat),
        decreases strs.len() - i,
    {
        assert(sv.take(i + 1).drop_last() =~= sv.take(i as int));
        proof {
            lemma_strings_size_prefix(sv, i + 1);
        }
        let l = strs[i].len() as u32;
        push_le32(out, l);
        push_le32(out, off);
        off = off + l + 1;
        assert(out@ =~= old(out)@ + string_table(sv.take(i + 1), start as nat));
        i += 1;
    }
    assert(sv.take(sv.len() as int) =~= sv);
}

/// Appends each of `strs` followed by a NUL.
fn push_area(out: &mut Vec<u8>, strs: &Vec<Vec<u8>>)
    ensures
        final(out)@ == old(out)@ + string_area(bytes_view(strs@)),
{
    let ghost sv = bytes_view(strs@);
    let mut i: usize = 0;
    while i < strs.len()
        invariant
            0 <= i <= strs@.len(),
            sv == bytes_view(strs@),
            out@ == old(out)@ + string_area(sv.take(i as int)),
        decreases strs.len() - i,
    {
        assert(sv.take(i + 1).drop_last() =~= sv.take(i as int));
        push_bytes(out, &strs[i]);
        out.push(0u8);
        assert(out@ =~= old(out)@ + string_area(sv.take(i + 1)));
        i += 1;
    }
    assert(sv.take(sv.len() as int) =~= sv);
}

/// The `.mo` file of a catalog: its translated messages, ordered by
/// original string, and its metadata (without `POT-Creation-Date`).
/// `None` when the file would not fit the format's 32-bit offsets.
pub fn mo_bytes(catalog: &Catalog) -> (r: Option<Vec<u8>>)
    ensures
        ({
            let es = sorted_entries(entries_of(live_messages(catalog@)));
            let h = utf8(catalog.metadata.text(false));
            &&& r is Some == (mo_size(h, es) <= u32::MAX)
            &&& r matches Some(b) ==> b@ == mo_layout(h, es)
        }),
{
    let ms = catalog.messages();
    assert(ms@.map_values(|m: &Message| *m) =~= live_messages(catalog@));
    let es = sorted_mo_entries(&ms);
    let ghost ev = es@.map_values(|e: (Vec<u8>, Vec<u8>)| (e.0@, e.1@));
    let header_text = catalog.metadata.export_for_mo();
    let header = utf8_bytes(header_text.as_str());
    let mut origs: Vec<Vec<u8>> = Vec::new();
    let mut trans: Vec<Vec<u8>> = Vec::new();
    origs.push(Vec::new());
    trans.push(header);
    assert(bytes_view(origs@) =~= originals(ev.take(0)));
    assert(bytes_view(trans@) =~= translations(utf8(catalog.metadata.text(false)), ev.take(0)));
    let mut k: usize = 0;
    while k < es.len()
        invariant
            0 <= k <= es@.len(),
            ev == es@.map_values(|e: (Vec<u8>, Vec<u8>)| (e.0@, e.1@)),
            bytes_view(origs@) == originals(ev.take(k as int)),
            bytes_view(trans@) == translations(utf8(catalog.metadata.text(false)), ev.take(k as int)),
        decreases es.len() - k,
    {
        let entry = &es[k];
        assert(*entry == es@[k as int]);
        let mut o: Vec<u8> = Vec::new();
        push_bytes(&mut o, &entry.0);
        let mut t: Vec<u8> = Vec::new();
        push_bytes(&mut t, &entry.1);
        assert(o@ =~= es@[k as int].0@);
        assert(t@ =~= es@[k as int].1@);
        assert(ev[k as int] == (es@[k as int].0@, es@[k as int].1@));
        assert(ev.take(k + 1).drop_last() =~= ev.take(k as int));
        assert(ev.take(k + 1).last() == ev[k as int]);
        let ghost oo = bytes_view(origs@);
        let ghost ot = bytes_view(trans@);
        let ghost ov = o@;
        let ghost tv = t@;
        origs.push(o);
        trans.push(t);
        assert(bytes_view(origs@) =~= oo.push(ov));
        assert(bytes_view(trans@) =~= ot.push(tv));
        assert(firsts(ev.take(k + 1)) == firsts(ev.take(k as int)).push(ov));
        assert(seconds(ev.take(k + 1)) == seconds(ev.take(k as int)).push(tv));
        assert(bytes_view(origs@) =~= originals(ev.take(k + 1)));
        assert(bytes_view(trans@) =~= translations(utf8(catalog.metadata.text(false)), ev.take(k + 1)));
        k += 1;
    }
    assert(ev.take(ev.len() as int) =~= ev);
    let h = Ghost(utf8(catalog.metadata.text(false)));
    let n = es.len();
    if n >= (u32::MAX as usize - 28) / 16 {
        return None;
    }
    let so = match area_size(&origs) {
        Some(t) => t,
        None => return None,
    };
    let st = match area_size(&trans) {
        Some(t) => t,
        None => return None,
    };
    let start: u32 = 28 + 16 * (n as u32 + 1);
    if so > u32::MAX - start || st > u32::MAX - start - so {
        return None;
    }
    let mut out: Vec<u8> = Vec::new();
    push_le32(&mut out, 0x950412de);
    push_le32(&mut out, 0);
    push_le32(&mut out, n as u32 + 1);
    push_le32(&mut out, 28);
    push_le32(&mut out, 28 + 8 * (n as u32 + 1));
    push_le32(&mut out, 0);
    push_le32(&mut out, 0);
    push_table(&mut out, &origs, start);
    push_table(&mut out, &trans, start + so);
    push_area(&mut out, &origs);
    push_area(&mut out, &trans);
    assert(out@ =~= mo_layout(h@, ev));
    Some(out)
}

} // verus!
