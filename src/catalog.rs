//! The catalog: messages in order, at most one per translatable unit.

use vstd::prelude::*;
use crate::message::{str_eq, Message, MessageBody};
use crate::metadata::CatalogMetadata;
use crate::text::chars_of;
use std::collections::HashMap;

verus! {

broadcast use vstd::std_specs::hash::group_hash_axioms;

/// Offset basis of the 64-bit FNV-1a hash.
pub const FNV_BASIS: u64 = 0xcbf29ce484222325;

/// Prime of the 64-bit FNV-1a hash.
pub const FNV_PRIME: u64 = 0x100000001b3;

/// The FNV-1a hash of the characters of `s` (each taken as its code
/// point), starting from `h`.
pub open spec fn hash_chars(h: u64, s: Seq<char>) -> u64
    decreases s.len(),
{
    if s.len() == 0 {
        h
    } else {
        (hash_chars(h, s.drop_last()) ^ (s.last() as u32 as u64)).wrapping_mul(FNV_PRIME)
    }
}

/// The hash of the unit (`ctxt`, `id`): context, U+0004, then `msgid`.
pub open spec fn unit_hash(ctxt: Seq<char>, id: Seq<char>) -> u64 {
    hash_chars(hash_chars(FNV_BASIS, ctxt.push('\u{4}')), id)
}

/// The hash of the unit of `m`.
pub open spec fn msg_hash(m: Message) -> u64 {
    unit_hash(m.msgctxt@, m.msgid@)
}

/// The positions in each bucket of a hash index.
pub open spec fn buckets(m: Map<u64, Vec<usize>>) -> Map<u64, Seq<usize>> {
    m.map_values(|v: Vec<usize>| v@)
}

/// The bucket of `k`, empty when there is none.
pub open spec fn bucket(b: Map<u64, Seq<usize>>, k: u64) -> Seq<usize> {
    if b.contains_key(k) {
        b[k]
    } else {
        Seq::empty()
    }
}

/// Whether `b` indexes the slots: every message is listed in the bucket
/// of its hash, and every listed position holds a message of that hash.
pub open spec fn index_ok(s: Slots, b: Map<u64, Seq<usize>>) -> bool {
    &&& forall|i: int|
        0 <= i < s.len() && #[trigger] s[i] is Some ==> bucket(b, msg_hash(s[i]->0)).contains(
            i as usize,
        )
    &&& forall|k: u64, j: int|
        b.contains_key(k) && 0 <= j < b[k].len() ==> {
            let i = #[trigger] b[k][j];
            &&& i < s.len()
            &&& s[i as int] is Some
            &&& msg_hash(s[i as int]->0) == k
        }
}

/// `v` without any `x`.
pub open spec fn without(v: Seq<usize>, x: usize) -> Seq<usize>
    decreases v.len(),
{
    if v.len() == 0 {
        v
    } else if v.last() == x {
        without(v.drop_last(), x)
    } else {
        without(v.drop_last(), x).push(v.last())
    }
}

proof fn lemma_without(v: Seq<usize>, x: usize)
    ensures
        forall|y: usize| #[trigger] without(v, x).contains(y) <==> (v.contains(y) && y != x),
        forall|j: int| 0 <= j < without(v, x).len() ==> v.contains(#[trigger] without(v, x)[j]),
    decreases v.len(),
{
    if v.len() > 0 {
        let p = v.drop_last();
        lemma_without(p, x);
        assert forall|y: usize| v.contains(y) <==> (p.contains(y) || y == v.last()) by {
            if v.contains(y) {
                let j = choose|j: int| 0 <= j < v.len() && v[j] == y;
                if j < p.len() {
                    assert(p[j] == y);
                }
            }
            if p.contains(y) {
                let j = choose|j: int| 0 <= j < p.len() && p[j] == y;
                assert(v[j] == y);
            }
            if y == v.last() {
                assert(v[v.len() - 1] == y);
            }
        }
        let w = without(p, x);
        if v.last() != x {
            assert forall|y: usize| w.push(v.last()).contains(y) <==> (w.contains(y) || y == v.last()) by {
                if w.push(v.last()).contains(y) {
                    let j = choose|j: int| 0 <= j < w.push(v.last()).len() && w.push(v.last())[j] == y;
                    if j < w.len() {
                        assert(w[j] == y);
                    }
                }
                if w.contains(y) {
                    let j = choose|j: int| 0 <= j < w.len() && w[j] == y;
                    assert(w.push(v.last())[j] == y);
                }
                if y == v.last() {
                    assert(w.push(v.last())[w.len() as int] == y);
                }
            }
            assert forall|j: int| 0 <= j < w.push(v.last()).len() implies v.contains(#[trigger] w.push(v.last())[j]) by {
                if j < w.len() {
                    assert(w.push(v.last())[j] == w[j]);
                    assert(p.contains(w[j]));
                    let t = choose|t: int| 0 <= t < p.len() && p[t] == w[j];
                    assert(v[t] == w[j]);
                } else {
                    assert(v[v.len() - 1] == v.last());
                }
            }
            assert forall|y: usize| #[trigger] without(v, x).contains(y) <==> (v.contains(y) && y != x) by {
                assert(without(v, x) == w.push(v.last()));
                assert(w.contains(y) <==> (p.contains(y) && y != x));
                assert(w.push(v.last()).contains(y) <==> (w.contains(y) || y == v.last()));
                assert(v.contains(y) <==> (p.contains(y) || y == v.last()));
            }
        } else {
            assert forall|j: int| 0 <= j < w.len() implies v.contains(#[trigger] w[j]) by {
                assert(p.contains(w[j]));
                let t = choose|t: int| 0 <= t < p.len() && p[t] == w[j];
                assert(v[t] == w[j]);
            }
            assert forall|y: usize| #[trigger] without(v, x).contains(y) <==> (v.contains(y) && y != x) by {
                assert(without(v, x) == w);
                assert(w.contains(y) <==> (p.contains(y) && y != x));
            }
        }
    } else {
        assert forall|y: usize| #[trigger] without(v, x).contains(y) <==> (v.contains(y) && y != x) by {
            assert(without(v, x) == v);
            if v.contains(y) {
                let j = choose|j: int| 0 <= j < v.len() && v[j] == y;
            }
        }
    }
}

proof fn lemma_index_remove(s: Slots, b: Map<u64, Seq<usize>>, i: int)
    requires
        index_ok(s, b),
        0 <= i < s.len(),
        s.len() <= usize::MAX,
        s[i] is Some,
    ensures
        index_ok(
            s.update(i, None),
            b.insert(msg_hash(s[i]->0), without(bucket(b, msg_hash(s[i]->0)), i as usize)),
        ),
{
    let h = msg_hash(s[i]->0);
    let t = s.update(i, None);
    let w = without(bucket(b, h), i as usize);
    let c = b.insert(h, w);
    lemma_without(bucket(b, h), i as usize);
    assert forall|a: int| 0 <= a < t.len() && #[trigger] t[a] is Some implies bucket(c, msg_hash(t[a]->0)).contains(a as usize) by {
        assert(a != i);
        assert(t[a] == s[a]);
        assert(s[a] is Some);
        assert(bucket(b, msg_hash(s[a]->0)).contains(a as usize));
        if msg_hash(s[a]->0) == h {
            assert(w.contains(a as usize));
        }
    }
    assert forall|k: u64, j: int| c.contains_key(k) && 0 <= j < c[k].len() implies {
        let x = #[trigger] c[k][j];
        &&& x < t.len()
        &&& t[x as int] is Some
        &&& msg_hash(t[x as int]->0) == k
    } by {
        if k == h {
            let x = w[j];
            assert(bucket(b, h).contains(x));
            let q = choose|q: int| 0 <= q < bucket(b, h).len() && bucket(b, h)[q] == x;
            assert(b.contains_key(h));
            assert(b[h][q] == x);
            assert(w.contains(x));
            assert(x != i as usize);
        } else {
            let x = b[k][j];
            assert(c[k][j] == x);
            if x == i as usize {
                assert(msg_hash(s[i]->0) == k);
            }
        }
    }
}

proof fn lemma_index_add(s: Slots, b: Map<u64, Seq<usize>>, i: int, m: Message)
    requires
        index_ok(s, b),
        0 <= i < s.len(),
        s.len() <= usize::MAX,
        s[i] is None,
    ensures
        index_ok(s.update(i, Some(m)), b.insert(msg_hash(m), bucket(b, msg_hash(m)).push(i as usize))),
{
    let h = msg_hash(m);
    let t = s.update(i, Some(m));
    let w = bucket(b, h).push(i as usize);
    let c = b.insert(h, w);
    assert forall|a: int| 0 <= a < t.len() && #[trigger] t[a] is Some implies bucket(c, msg_hash(t[a]->0)).contains(a as usize) by {
        if a == i {
            assert(w[w.len() - 1] == i as usize);
        } else {
            assert(t[a] == s[a]);
            let v = bucket(b, msg_hash(s[a]->0));
            assert(v.contains(a as usize));
            if msg_hash(s[a]->0) == h {
                let q = choose|q: int| 0 <= q < v.len() && v[q] == a as usize;
                assert(w[q] == a as usize);
            }
        }
    }
    assert forall|k: u64, j: int| c.contains_key(k) && 0 <= j < c[k].len() implies {
        let x = #[trigger] c[k][j];
        &&& x < t.len()
        &&& t[x as int] is Some
        &&& msg_hash(t[x as int]->0) == k
    } by {
        if k == h {
            if j < w.len() - 1 {
                assert(b.contains_key(h));
                assert(w[j] == b[h][j]);
                let x = b[h][j];
                assert(s[x as int] is Some);
                assert(x != i as usize);
            }
        } else {
            let x = b[k][j];
            assert(c[k][j] == x);
            assert(s[x as int] is Some);
            assert(x != i as usize);
        }
    }
}

proof fn lemma_index_push_none(s: Slots, b: Map<u64, Seq<usize>>)
    requires
        index_ok(s, b),
    ensures
        index_ok(s.push(None), b),
{
    let t = s.push(None);
    assert forall|a: int| 0 <= a < t.len() && #[trigger] t[a] is Some implies bucket(b, msg_hash(t[a]->0)).contains(a as usize) by {
        assert(t[a] == s[a]);
    }
    assert forall|k: u64, j: int| b.contains_key(k) && 0 <= j < b[k].len() implies {
        let x = #[trigger] b[k][j];
        &&& x < t.len()
        &&& t[x as int] is Some
        &&& msg_hash(t[x as int]->0) == k
    } by {
        let x = b[k][j];
        assert(t[x as int] == s[x as int]);
    }
}

proof fn lemma_index_same_hash(s: Slots, b: Map<u64, Seq<usize>>, i: int, m: Message)
    requires
        index_ok(s, b),
        0 <= i < s.len(),
        s[i] is Some,
        msg_hash(s[i]->0) == msg_hash(m),
    ensures
        index_ok(s.update(i, Some(m)), b),
{
    let t = s.update(i, Some(m));
    assert forall|a: int| 0 <= a < t.len() && #[trigger] t[a] is Some implies bucket(b, msg_hash(t[a]->0)).contains(a as usize) by {
        if a != i {
            assert(t[a] == s[a]);
        } else {
            assert(s[i] is Some);
        }
    }
    assert forall|k: u64, j: int| b.contains_key(k) && 0 <= j < b[k].len() implies {
        let x = #[trigger] b[k][j];
        &&& x < t.len()
        &&& t[x as int] is Some
        &&& msg_hash(t[x as int]->0) == k
    } by {
        let x = b[k][j];
        if x as int != i {
            assert(t[x as int] == s[x as int]);
        }
    }
}

/// The slots of a catalog: a deleted message leaves an empty slot, so that
/// the positions of the others do not move.
pub type Slots = Seq<Option<Message>>;

/// Number of messages (non-empty slots).
pub open spec fn live_count(s: Slots) -> nat
    decreases s.len(),
{
    if s.len() == 0 {
        0
    } else {
        live_count(s.drop_last()) + if s.last() is Some {
            1nat
        } else {
            0nat
        }
    }
}

/// The messages of the slots, in slot order.
pub open spec fn live_messages(s: Slots) -> Seq<Message>
    decreases s.len(),
{
    if s.len() == 0 {
        Seq::empty()
    } else if s.last() is Some {
        live_messages(s.drop_last()).push(s.last()->0)
    } else {
        live_messages(s.drop_last())
    }
}

/// No two messages are the same translatable unit.
pub open spec fn slots_wf(s: Slots) -> bool {
    forall|i: int, j: int|
        0 <= i < s.len() && 0 <= j < s.len() && i != j && s[i] is Some && s[j] is Some ==> !(
        #[trigger] s[i])->0.same_unit(&(#[trigger] s[j])->0)
}

/// Slot `i` holds a message that is the same unit as `m`.
pub open spec fn unit_at(s: Slots, i: int, m: Message) -> bool {
    0 <= i < s.len() && s[i] is Some && s[i]->0.same_unit(&m)
}

/// The slots after `m` was appended, or put in the place of the message
/// that is the same unit: a later message wins, in the earlier place.
pub open spec fn appended(s: Slots, m: Message) -> Slots {
    if exists|i: int| unit_at(s, i, m) {
        s.update(choose|i: int| unit_at(s, i, m), Some(m))
    } else {
        s.push(Some(m))
    }
}

/// Slot `i` holds a message that answers a lookup by context, `msgid` and
/// `msgid_plural`.
pub open spec fn answers_at(s: Slots, i: int, ctxt: Seq<char>, id: Seq<char>, plural: Option<Seq<char>>) -> bool {
    0 <= i < s.len() && s[i] is Some && s[i]->0.answers(ctxt, id, plural)
}

/// The context that a lookup names: none is the empty context.
pub open spec fn ctxt_of(c: Option<&str>) -> Seq<char> {
    match c {
        Some(s) => s@,
        None => Seq::empty(),
    }
}

/// The plural text that a lookup names, if any.
pub open spec fn plural_of(p: Option<&str>) -> Option<Seq<char>> {
    match p {
        Some(s) => Some(s@),
        None => None,
    }
}

/// The message slots of a catalog. Only the catalog's own operations can
/// change them, so that no two messages become the same unit.
#[derive(Debug)]
pub struct MessageSlots {
    slots: Vec<Option<Message>>,
    index: HashMap<u64, Vec<usize>>,
}

impl View for MessageSlots {
    type V = Slots;

    closed spec fn view(&self) -> Slots {
        self.slots@
    }
}

impl MessageSlots {
    /// The hash index lists exactly the slots of the messages.
    pub closed spec fn indexed(&self) -> bool {
        index_ok(self.slots@, buckets(self.index@))
    }
}

/// The hash of the unit (`ctxt`, `id`), computed.
fn hash_unit(ctxt: &str, id: &str) -> (r: u64)
    ensures
        r == unit_hash(ctxt@, id@),
{
    let mut c = chars_of(ctxt);
    c.push('\u{4}');
    let h = hash_vec(FNV_BASIS, &c);
    let v = chars_of(id);
    hash_vec(h, &v)
}

/// `hash_chars(h, v)`, computed.
fn hash_vec(h: u64, v: &Vec<char>) -> (r: u64)
    ensures
        r == hash_chars(h, v@),
{
    let mut x = h;
    let mut i: usize = 0;
    while i < v.len()
        invariant
            0 <= i <= v@.len(),
            x == hash_chars(h, v@.take(i as int)),
        decreases v.len() - i,
    {
        assert(v@.take(i + 1).drop_last() =~= v@.take(i as int));
        x = (x ^ (v[i] as u32 as u64)).wrapping_mul(FNV_PRIME);
        i += 1;
    }
    assert(v@.take(v@.len() as int) =~= v@);
    x
}

/// Adds position `i` to the bucket of `k`.
fn bucket_add(index: &mut HashMap<u64, Vec<usize>>, k: u64, i: usize)
    ensures
        buckets(final(index)@) == buckets(old(index)@).insert(k, bucket(buckets(old(index)@), k).push(i)),
{
    let mut v = match index.remove(&k) {
        Some(v) => v,
        None => Vec::new(),
    };
    v.push(i);
    index.insert(k, v);
    assert(buckets(index@) =~= buckets(old(index)@).insert(k, bucket(buckets(old(index)@), k).push(i)));
}

/// Takes position `i` out of the bucket of `k`.
fn bucket_remove(index: &mut HashMap<u64, Vec<usize>>, k: u64, i: usize)
    ensures
        buckets(final(index)@) == buckets(old(index)@).insert(k, without(bucket(buckets(old(index)@), k), i)),
{
    let v = match index.remove(&k) {
        Some(v) => v,
        None => Vec::new(),
    };
    let ghost old_v = bucket(buckets(old(index)@), k);
    assert(v@ == old_v);
    let mut w: Vec<usize> = Vec::new();
    let mut j: usize = 0;
    while j < v.len()
        invariant
            0 <= j <= v@.len(),
            w@ == without(v@.take(j as int), i),
        decreases v.len() - j,
    {
        assert(v@.take(j + 1).drop_last() =~= v@.take(j as int));
        if v[j] != i {
            w.push(v[j]);
        }
        j += 1;
    }
    assert(v@.take(v@.len() as int) =~= v@);
    index.insert(k, w);
    assert(buckets(index@) =~= buckets(old(index)@).insert(k, without(old_v, i)));
}

/// A collection of messages, as stored in a `.po` or `.mo` file, with its
/// metadata.
#[derive(Debug)]
pub struct Catalog {
    /// Metadata of the catalog.
    pub metadata: CatalogMetadata,
    /// The messages, in order.
    pub messages: MessageSlots,
}

impl View for Catalog {
    type V = Slots;

    open spec fn view(&self) -> Slots {
        self.messages@
    }
}

impl Catalog {
    /// No two messages of the catalog are the same translatable unit, and
    /// the hash index lists exactly the positions of the messages.
    pub open spec fn wf(&self) -> bool {
        slots_wf(self@) && self.messages.indexed()
    }

    /// An empty catalog with empty metadata.
    pub(crate) fn empty() -> (r: Self)
        ensures
            r@ == Slots::empty(),
            r.wf(),
            r.metadata.plural_rules.nplurals == 1,
    {
        Catalog { metadata: CatalogMetadata::new(), messages: MessageSlots { slots: Vec::new(), index: HashMap::new() } }
    }

    /// An empty catalog with the given metadata.
    pub fn new(metadata: CatalogMetadata) -> (r: Self)
        ensures
            r@ == Slots::empty(),
            r.metadata == metadata,
            r.wf(),
    {
        Catalog { metadata, messages: MessageSlots { slots: Vec::new(), index: HashMap::new() } }
    }

    /// Number of messages in the catalog (deleted ones are not counted).
    pub fn count(&self) -> (r: usize)
        ensures
            r == live_count(self@),
    {
        let mut n: usize = 0;
        let mut i: usize = 0;
        while i < self.messages.slots.len()
            invariant
                0 <= i <= self@.len(),
                n == live_count(self@.take(i as int)),
                n <= i,
            decreases self.messages.slots.len() - i,
        {
            assert(self@.take(i + 1).drop_last() =~= self@.take(i as int));
            if self.messages.slots[i].is_some() {
                n += 1;
            }
            i += 1;
        }
        assert(self@.take(self@.len() as int) =~= self@);
        n
    }

    /// Number of slots, deleted ones included (the position that the next
    /// appended message takes).
    pub fn slots_len(&self) -> (r: usize)
        ensures
            r == self@.len(),
    {
        self.messages.slots.len()
    }

    /// Whether the catalog holds no message.
    pub fn is_empty(&self) -> (r: bool)
        ensures
            r == (live_count(self@) == 0),
    {
        self.count() == 0
    }

    /// The messages of the catalog, in order.
    pub fn messages(&self) -> (r: Vec<&Message>)
        ensures
            r@.len() == live_messages(self@).len(),
            forall|k: int| 0 <= k < r@.len() ==> *r@[k] == #[trigger] live_messages(self@)[k],
    {
        let mut r: Vec<&Message> = Vec::new();
        let mut i: usize = 0;
        while i < self.messages.slots.len()
            invariant
                0 <= i <= self@.len(),
                r@.len() == live_messages(self@.take(i as int)).len(),
                forall|k: int| 0 <= k < r@.len() ==> *r@[k] == #[trigger] live_messages(self@.take(i as int))[k],
            decreases self.messages.slots.len() - i,
        {
            assert(self@.take(i + 1).drop_last() =~= self@.take(i as int));
            match &self.messages.slots[i] {
                Some(m) => {
                    r.push(m);
                },
                None => {},
            }
            i += 1;
        }
        assert(self@.take(self@.len() as int) =~= self@);
        r
    }

    /// Position of the message that is the unit (`ctxt`, `id`), if any,
    /// found through the hash index.
    fn find_index(&self, ctxt: &str, id: &str) -> (r: Option<usize>)
        requires
            self.wf(),
        ensures
            match r {
                Some(i) => 0 <= i < self@.len() && self@[i as int] is Some && self@[i as int]->0.msgctxt@
                    == ctxt@ && self@[i as int]->0.msgid@ == id@,
                None => forall|i: int|
                    0 <= i < self@.len() && #[trigger] self@[i] is Some ==> !(self@[i]->0.msgctxt@
                        == ctxt@ && self@[i]->0.msgid@ == id@),
            },
    {
        let h = hash_unit(ctxt, id);
        let _len = self.messages.slots.len();
        let ghost b = buckets(self.messages.index@);
        match self.messages.index.get(&h) {
            Some(v) => {
                assert(b.contains_key(h) && b[h] == v@);
                let mut t: usize = 0;
                while t < v.len()
                    invariant
                        0 <= t <= v@.len(),
                        self.wf(),
                        b == buckets(self.messages.index@),
                        b.contains_key(h),
                        b[h] == v@,
                        h == unit_hash(ctxt@, id@),
                        _len == self@.len(),
                        forall|q: int|
                            0 <= q < t ==> !(self@[v@[q] as int]->0.msgctxt@ == ctxt@
                                && self@[v@[q] as int]->0.msgid@ == id@),
                    decreases v.len() - t,
                {
                    let i = v[t];
                    assert(b[h][t as int] == i);
                    assert(i < self@.len() && self@[i as int] is Some);
                    let m = self.messages.slots[i].as_ref().unwrap();
                    if str_eq(m.msgctxt.as_str(), ctxt) && str_eq(m.msgid.as_str(), id) {
                        return Some(i);
                    }
                    t += 1;
                }
                assert forall|i: int|
                    0 <= i < self@.len() && #[trigger] self@[i] is Some implies !(self@[i]->0.msgctxt@
                        == ctxt@ && self@[i]->0.msgid@ == id@) by {
                    if self@[i]->0.msgctxt@ == ctxt@ && self@[i]->0.msgid@ == id@ {
                        assert(msg_hash(self@[i]->0) == h);
                        assert(bucket(b, msg_hash(self@[i]->0)).contains(i as usize));
                        let q = choose|q: int| 0 <= q < b[h].len() && b[h][q] == i as usize;
                        assert(v@[q] == i as usize);
                        assert((i as usize) as int == i);
                        assert(!(self@[v@[q] as int]->0.msgctxt@ == ctxt@ && self@[v@[q] as int]->0.msgid@ == id@));
                    }
                }
                None
            },
            None => {
                assert(!b.contains_key(h));
                assert forall|i: int|
                    0 <= i < self@.len() && #[trigger] self@[i] is Some implies !(self@[i]->0.msgctxt@
                        == ctxt@ && self@[i]->0.msgid@ == id@) by {
                    if self@[i]->0.msgctxt@ == ctxt@ && self@[i]->0.msgid@ == id@ {
                        assert(bucket(b, msg_hash(self@[i]->0)).contains(i as usize));
                    }
                }
                None
            },
        }
    }

    /// Takes the message out of slot `i`, leaving the slot empty.
    fn take_slot(&mut self, i: usize) -> (r: Message)
        requires
            old(self).wf(),
            0 <= i < old(self)@.len(),
            old(self)@[i as int] is Some,
        ensures
            final(self).wf(),
            final(self)@ == old(self)@.update(i as int, None),
            old(self)@[i as int] == Some(r),
            final(self).metadata == old(self).metadata,
    {
        let _len = self.messages.slots.len();
        let ghost b = buckets(self.messages.index@);
        let ghost s0 = self@;
        proof {
            lemma_index_remove(s0, b, i as int);
        }
        self.messages.slots.push(None);
        let taken = self.messages.slots.swap_remove(i);
        assert(self@ =~= s0.update(i as int, None));
        let m = taken.unwrap();
        let h = hash_unit(m.msgctxt.as_str(), m.msgid.as_str());
        bucket_remove(&mut self.messages.index, h, i);
        assert forall|a: int, c: int|
            0 <= a < self@.len() && 0 <= c < self@.len() && a != c && self@[a] is Some && self@[c] is Some
                implies !(#[trigger] self@[a])->0.same_unit(&(#[trigger] self@[c])->0) by {
            assert(self@[a] == s0[a] && self@[c] == s0[c]);
        }
        m
    }

    /// Puts `m` into the empty slot `i`.
    fn fill_slot(&mut self, i: usize, m: Message)
        requires
            old(self).messages.indexed(),
            0 <= i < old(self)@.len(),
            old(self)@[i as int] is None,
        ensures
            final(self).messages.indexed(),
            final(self)@ == old(self)@.update(i as int, Some(m)),
            final(self).metadata == old(self).metadata,
    {
        let _len = self.messages.slots.len();
        let ghost b = buckets(self.messages.index@);
        let ghost s0 = self@;
        let ghost gm = m;
        proof {
            lemma_index_add(s0, b, i as int, gm);
        }
        let h = hash_unit(m.msgctxt.as_str(), m.msgid.as_str());
        self.messages.slots.push(Some(m));
        let _e = self.messages.slots.swap_remove(i);
        assert(self@ =~= s0.update(i as int, Some(gm)));
        bucket_add(&mut self.messages.index, h, i);
    }

    /// Appends an empty slot.
    fn push_empty_slot(&mut self)
        requires
            old(self).messages.indexed(),
        ensures
            final(self).messages.indexed(),
            final(self)@ == old(self)@.push(None),
            final(self).metadata == old(self).metadata,
    {
        proof {
            lemma_index_push_none(self@, buckets(self.messages.index@));
        }
        self.messages.slots.push(None);
    }

    /// Finds the message with the given context, `msgid` and, for a plural
    /// message, `msgid_plural` (`None` asks for a singular message). No
    /// context is the empty context.
    pub fn find_message(
        &self,
        msgctxt: Option<&str>,
        msgid: &str,
        msgid_plural: Option<&str>,
    ) -> (r: Option<&Message>)
        requires
            self.wf(),
        ensures
            match r {
                Some(m) => exists|i: int|
                    answers_at(self@, i, ctxt_of(msgctxt), msgid@, plural_of(msgid_plural))
                        && self@[i] == Some(*m),
                None => forall|i: int|
                    !answers_at(self@, i, ctxt_of(msgctxt), msgid@, plural_of(msgid_plural)),
            },
    {
        let ctxt = match msgctxt {
            Some(c) => c,
            None => "",
        };
        proof {
            reveal_strlit("");
            assert(ctxt@ =~= ctxt_of(msgctxt));
        }
        match self.find_index(ctxt, msgid) {
            Some(i) => {
                let m = self.messages.slots[i].as_ref().unwrap();
                if plural_matches(m, msgid_plural) {
                    Some(m)
                } else {
                    None
                }
            },
            None => None,
        }
    }

    /// Deletes the message with the given context, `msgid` and
    /// `msgid_plural`. Returns whether there was one.
    pub fn delete_message(&mut self, msgctxt: Option<&str>, msgid: &str, msgid_plural: Option<&str>) -> (r: bool)
        requires
            old(self).wf(),
        ensures
            final(self).wf(),
            final(self).metadata == old(self).metadata,
            r == exists|i: int|
                answers_at(old(self)@, i, ctxt_of(msgctxt), msgid@, plural_of(msgid_plural)),
            r ==> exists|i: int|
                answers_at(old(self)@, i, ctxt_of(msgctxt), msgid@, plural_of(msgid_plural))
                    && final(self)@ == old(self)@.update(i, None),
            !r ==> final(self)@ == old(self)@,
    {
        self.detach_message(msgctxt, msgid, msgid_plural).is_some()
    }

    /// Takes the message with the given context, `msgid` and `msgid_plural`
    /// out of the catalog and returns it, or `None` if there is none.
    pub fn detach_message(
        &mut self,
        msgctxt: Option<&str>,
        msgid: &str,
        msgid_plural: Option<&str>,
    ) -> (r: Option<Message>)
        requires
            old(self).wf(),
        ensures
            final(self).wf(),
            final(self).metadata == old(self).metadata,
            r is Some == exists|i: int|
                answers_at(old(self)@, i, ctxt_of(msgctxt), msgid@, plural_of(msgid_plural)),
            r is Some ==> exists|i: int|
                answers_at(old(self)@, i, ctxt_of(msgctxt), msgid@, plural_of(msgid_plural))
                    && old(self)@[i] == r && final(self)@ == old(self)@.update(i, None),
            r is None ==> final(self)@ == old(self)@,
    {
        let ctxt = match msgctxt {
            Some(c) => c,
            None => "",
        };
        proof {
            reveal_strlit("");
            assert(ctxt@ =~= ctxt_of(msgctxt));
        }
        match self.find_index(ctxt, msgid) {
            Some(i) => {
                let hit = plural_matches(self.messages.slots[i].as_ref().unwrap(), msgid_plural);
                if hit {
                    let taken = self.take_slot(i);
                    assert(answers_at(old(self)@, i as int, ctxt_of(msgctxt), msgid@, plural_of(msgid_plural)));
                    Some(taken)
                } else {
                    assert forall|j: int| !answers_at(old(self)@, j, ctxt_of(msgctxt), msgid@, plural_of(msgid_plural)) by {
                        if answers_at(old(self)@, j, ctxt_of(msgctxt), msgid@, plural_of(msgid_plural)) && j != i {
                            assert(old(self)@[j]->0.same_unit(&old(self)@[i as int]->0));
                        }
                    }
                    None
                }
            },
            None => None,
        }
    }

    /// The slot positions of the messages, in order. A position stays
    /// valid until that message is deleted or detached.
    pub fn message_indices(&self) -> (r: Vec<usize>)
        ensures
            forall|k: int| 0 <= k < r@.len() ==> #[trigger] r@[k] < self@.len() && self@[r@[k] as int] is Some,
            forall|i: int| 0 <= i < self@.len() && #[trigger] self@[i] is Some ==> r@.contains(i as usize),
            forall|a: int, b: int| 0 <= a < b < r@.len() ==> r@[a] < r@[b],
    {
        let mut r: Vec<usize> = Vec::new();
        let mut i: usize = 0;
        while i < self.messages.slots.len()
            invariant
                0 <= i <= self@.len(),
                forall|k: int| 0 <= k < r@.len() ==> #[trigger] r@[k] < i && self@[r@[k] as int] is Some,
                forall|j: int| 0 <= j < i && #[trigger] self@[j] is Some ==> r@.contains(j as usize),
                forall|a: int, b: int| 0 <= a < b < r@.len() ==> r@[a] < r@[b],
            decreases self.messages.slots.len() - i,
        {
            let ghost old_r = r@;
            if self.messages.slots[i].is_some() {
                r.push(i);
                assert(r@[r@.len() - 1] == i);
            }
            assert forall|j: int| 0 <= j < i + 1 && #[trigger] self@[j] is Some implies r@.contains(j as usize) by {
                if j < i {
                    assert(old_r.contains(j as usize));
                    let k = choose|k: int| 0 <= k < old_r.len() && old_r[k] == j as usize;
                    assert(r@[k] == j as usize);
                } else {
                    assert(r@[r@.len() - 1] == i);
                }
            }
            i += 1;
        }
        r
    }

    /// Slot position of the message with the given context, `msgid` and
    /// `msgid_plural`, if there is one.
    pub fn find_message_index(
        &self,
        msgctxt: Option<&str>,
        msgid: &str,
        msgid_plural: Option<&str>,
    ) -> (r: Option<usize>)
        requires
            self.wf(),
        ensures
            match r {
                Some(i) => answers_at(self@, i as int, ctxt_of(msgctxt), msgid@, plural_of(msgid_plural)),
                None => forall|i: int|
                    !answers_at(self@, i, ctxt_of(msgctxt), msgid@, plural_of(msgid_plural)),
            },
    {
        let ctxt = match msgctxt {
            Some(c) => c,
            None => "",
        };
        proof {
            reveal_strlit("");
            assert(ctxt@ =~= ctxt_of(msgctxt));
        }
        match self.find_index(ctxt, msgid) {
            Some(i) => {
                if plural_matches(self.messages.slots[i].as_ref().unwrap(), msgid_plural) {
                    Some(i)
                } else {
                    assert forall|j: int| !answers_at(self@, j, ctxt_of(msgctxt), msgid@, plural_of(msgid_plural)) by {
                        if answers_at(self@, j, ctxt_of(msgctxt), msgid@, plural_of(msgid_plural)) && j != i {
                            assert(self@[j]->0.same_unit(&self@[i as int]->0));
                        }
                    }
                    None
                }
            },
            None => None,
        }
    }

    /// The message in slot `index`, if that slot holds one.
    pub fn get_message_by_index(&self, index: usize) -> (r: Option<&Message>)
        ensures
            match r {
                Some(m) => 0 <= index < self@.len() && self@[index as int] == Some(*m),
                None => !(0 <= index < self@.len() && self@[index as int] is Some),
            },
    {
        if index < self.messages.slots.len() {
            self.messages.slots[index].as_ref()
        } else {
            None
        }
    }

    /// Puts `message` in slot `index` in place of the message there, and
    /// returns the one replaced. Fails, handing `message` back, when the
    /// slot is empty or out of range, or when another message of the
    /// catalog is the same unit as `message`.
    pub fn update_message_by_index(&mut self, index: usize, message: Message) -> (r: Result<Message, Message>)
        requires
            old(self).wf(),
        ensures
            final(self).wf(),
            final(self).metadata == old(self).metadata,
            r is Ok == (0 <= index < old(self)@.len() && old(self)@[index as int] is Some && forall|j: int|
                0 <= j < old(self)@.len() && j != index && #[trigger] old(self)@[j] is Some
                    ==> !old(self)@[j]->0.same_unit(&message)),
            r matches Ok(m) ==> old(self)@[index as int] == Some(m) && final(self)@ == old(self)@.update(
                index as int,
                Some(message),
            ),
            r matches Err(m) ==> m == message && final(self)@ == old(self)@,
    {
        if index >= self.messages.slots.len() || self.messages.slots[index].is_none() {
            return Err(message);
        }
        match self.find_index(message.msgctxt.as_str(), message.msgid.as_str()) {
            Some(j) => {
                if j != index {
                    assert(old(self)@[j as int]->0.same_unit(&message));
                    return Err(message);
                }
            },
            None => {},
        }
        let ghost gm = message;
        let old_message = self.take_slot(index);
        self.fill_slot(index, message);
        assert(self@ =~= old(self)@.update(index as int, Some(gm)));
        assert forall|a: int, b: int|
            0 <= a < self@.len() && 0 <= b < self@.len() && a != b && self@[a] is Some && self@[b] is Some
                implies !(#[trigger] self@[a])->0.same_unit(&(#[trigger] self@[b])->0) by {
            if a == index {
                assert(!old(self)@[b]->0.same_unit(&gm));
            } else if b == index {
                assert(!old(self)@[a]->0.same_unit(&gm));
            }
        }
        Ok(old_message)
    }

    /// Sets the context of the message in slot `index`, keeping it where it
    /// is. Fails (and changes nothing) when the slot is empty or out of
    /// range, or when another message already is the unit that the message
    /// would become.
    pub fn set_msgctxt(&mut self, index: usize, msgctxt: String) -> (r: bool)
        requires
            old(self).wf(),
        ensures
            final(self).wf(),
            final(self).metadata == old(self).metadata,
            r == (0 <= index < old(self)@.len() && old(self)@[index as int] is Some && forall|j: int|
                0 <= j < old(self)@.len() && j != index && #[trigger] old(self)@[j] is Some ==> !(
                old(self)@[j]->0.msgctxt@ == msgctxt@ && old(self)@[j]->0.msgid@
                    == old(self)@[index as int]->0.msgid@)),
            r ==> final(self)@ == old(self)@.update(
                index as int,
                Some(Message { msgctxt, ..old(self)@[index as int]->0 }),
            ),
            !r ==> final(self)@ == old(self)@,
    {
        if index >= self.messages.slots.len() || self.messages.slots[index].is_none() {
            return false;
        }
        let clash = self.find_index(msgctxt.as_str(), self.messages.slots[index].as_ref().unwrap().msgid.as_str());
        if let Some(j) = clash {
            if j != index {
                return false;
            }
        }
        let mut m = self.take_slot(index);
        m.set_msgctxt(msgctxt);
        self.put_back(index, m);
        true
    }

    /// Sets the `msgid` of the message in slot `index`, keeping it where it
    /// is. Fails (and changes nothing) when the slot is empty or out of
    /// range, or when another message already is the unit that the message
    /// would become.
    pub fn set_msgid(&mut self, index: usize, msgid: String) -> (r: bool)
        requires
            old(self).wf(),
        ensures
            final(self).wf(),
            final(self).metadata == old(self).metadata,
            r == (0 <= index < old(self)@.len() && old(self)@[index as int] is Some && forall|j: int|
                0 <= j < old(self)@.len() && j != index && #[trigger] old(self)@[j] is Some ==> !(
                old(self)@[j]->0.msgctxt@ == old(self)@[index as int]->0.msgctxt@
                    && old(self)@[j]->0.msgid@ == msgid@)),
            r ==> final(self)@ == old(self)@.update(
                index as int,
                Some(Message { msgid, ..old(self)@[index as int]->0 }),
            ),
            !r ==> final(self)@ == old(self)@,
    {
        if index >= self.messages.slots.len() || self.messages.slots[index].is_none() {
            return false;
        }
        let clash = self.find_index(self.messages.slots[index].as_ref().unwrap().msgctxt.as_str(), msgid.as_str());
        if let Some(j) = clash {
            if j != index {
                return false;
            }
        }
        let mut m = self.take_slot(index);
        m.set_msgid(msgid);
        self.put_back(index, m);
        true
    }

    /// Puts `m` into slot `index`, which was emptied to change it.
    fn put_back(&mut self, index: usize, m: Message)
        requires
            0 <= index < old(self)@.len(),
            old(self)@[index as int] is None,
            old(self).messages.indexed(),
            forall|j: int|
                0 <= j < old(self)@.len() && j != index && #[trigger] old(self)@[j] is Some ==> !old(
                    self,
                )@[j]->0.same_unit(&m),
            slots_wf(old(self)@),
        ensures
            final(self)@ == old(self)@.update(index as int, Some(m)),
            final(self).wf(),
            final(self).metadata == old(self).metadata,
    {
        let ghost pre = self@;
        let ghost gm = m;
        self.fill_slot(index, m);
        assert forall|a: int, b: int|
            0 <= a < self@.len() && 0 <= b < self@.len() && a != b && self@[a] is Some && self@[b] is Some
                implies !(#[trigger] self@[a])->0.same_unit(&(#[trigger] self@[b])->0) by {
            if a == index {
                assert(!pre[b]->0.same_unit(&gm));
            } else if b == index {
                assert(!pre[a]->0.same_unit(&gm));
            } else {
                assert(pre[a] == self@[a] && pre[b] == self@[b]);
            }
        }
    }

    /// Appends a message at the end of the catalog; a message that is the
    /// same unit (equal context and `msgid`) is replaced in its place instead.
    pub fn append_or_update(&mut self, m: Message)
        requires
            old(self).wf(),
            old(self)@.len() < usize::MAX,
        ensures
            final(self).wf(),
            final(self).metadata == old(self).metadata,
            final(self)@ == appended(old(self)@, m),
    {
        let ghost gm = m;
        match self.find_index(m.msgctxt.as_str(), m.msgid.as_str()) {
            Some(i) => {
                assert(unit_at(old(self)@, i as int, gm));
                proof {
                    let k = choose|k: int| unit_at(old(self)@, k, gm);
                    if k != i {
                        assert(old(self)@[k]->0.same_unit(&old(self)@[i as int]->0));
                    }
                }
                let _len = self.messages.slots.len();
                proof {
                    lemma_index_same_hash(old(self)@, buckets(self.messages.index@), i as int, gm);
                }
                self.messages.slots.push(Some(m));
                let _old = self.messages.slots.swap_remove(i);
                assert(self@ =~= old(self)@.update(i as int, Some(gm)));
            },
            None => {
                assert(!exists|k: int| unit_at(old(self)@, k, gm));
                let n = self.messages.slots.len();
                self.push_empty_slot();
                self.fill_slot(n, m);
                assert(self@ =~= old(self)@.push(Some(gm)));
            },
        }
    }
}

proof fn lemma_live_count_update(s: Slots, i: int, x: Option<Message>)
    requires
        0 <= i < s.len(),
    ensures
        live_count(s.update(i, x)) + (if s[i] is Some { 1int } else { 0int }) == live_count(s) + (
        if x is Some { 1int } else { 0int }),
    decreases s.len(),
{
    if i == s.len() - 1 {
        assert(s.update(i, x).drop_last() =~= s.drop_last());
    } else {
        assert(s.update(i, x).drop_last() =~= s.drop_last().update(i, x));
        lemma_live_count_update(s.drop_last(), i, x);
    }
}

proof fn lemma_appended_wf(s: Slots, m: Message)
    requires
        slots_wf(s),
    ensures
        slots_wf(appended(s, m)),
        exists|i: int| 0 <= i < appended(s, m).len() && appended(s, m)[i] == Some(m),
        live_count(appended(s, m)) == live_count(s) + if exists|i: int| unit_at(s, i, m) {
            0int
        } else {
            1int
        },
{
    if exists|i: int| unit_at(s, i, m) {
        let k = choose|i: int| unit_at(s, i, m);
        let t = appended(s, m);
        assert forall|i: int, j: int|
            0 <= i < t.len() && 0 <= j < t.len() && i != j && t[i] is Some && t[j] is Some
                implies !(#[trigger] t[i])->0.same_unit(&(#[trigger] t[j])->0) by {
            if i == k {
                assert(s[j]->0.same_unit(&s[k]->0) == t[j]->0.same_unit(&m));
            } else if j == k {
                assert(s[i]->0.same_unit(&s[k]->0) == t[i]->0.same_unit(&m));
            } else {
                assert(t[i] == s[i] && t[j] == s[j]);
            }
        }
        assert(t[k] == Some(m));
        lemma_live_count_update(s, k, Some(m));
    } else {
        let t = appended(s, m);
        assert(t == s.push(Some(m)));
        assert forall|i: int, j: int|
            0 <= i < t.len() && 0 <= j < t.len() && i != j && t[i] is Some && t[j] is Some
                implies !(#[trigger] t[i])->0.same_unit(&(#[trigger] t[j])->0) by {
            if i == s.len() {
                assert(!unit_at(s, j, m));
            } else if j == s.len() {
                assert(!unit_at(s, i, m));
            } else {
                assert(t[i] == s[i] && t[j] == s[j]);
            }
        }
        assert(t[s.len() as int] == Some(m));
        assert(t.drop_last() =~= s);
    }
}

/// Appending two messages that are the same unit (equal context and
/// `msgid`) keeps one of them: the second, in the place where the first went.
/// The number of messages grows by at most one, and an empty catalog ends
/// with exactly one message.
pub proof fn lemma_same_unit_collapses(s: Slots, a: Message, b: Message)
    requires
        slots_wf(s),
        a.same_unit(&b),
    ensures
        slots_wf(appended(appended(s, a), b)),
        live_count(appended(appended(s, a), b)) == live_count(appended(s, a)),
        exists|i: int|
            0 <= i < appended(s, a).len() && appended(s, a)[i] == Some(a) && appended(
                appended(s, a),
                b,
            ) == appended(s, a).update(i, Some(b)),
        live_count(s) == 0 ==> live_count(appended(appended(s, a), b)) == 1,
{
    lemma_appended_wf(s, a);
    let s1 = appended(s, a);
    lemma_appended_wf(s1, b);
    let i = choose|i: int| 0 <= i < s1.len() && s1[i] == Some(a);
    assert(unit_at(s1, i, b));
    let k = choose|k: int| unit_at(s1, k, b);
    if k != i {
        assert(s1[k]->0.same_unit(&s1[i]->0));
    }
    assert(appended(s1, b) == s1.update(i, Some(b)));
    if live_count(s) == 0 {
        lemma_live_count_zero(s);
        assert(!exists|j: int| unit_at(s, j, a));
    }
}

proof fn lemma_live_count_zero(s: Slots)
    requires
        live_count(s) == 0,
    ensures
        forall|i: int| 0 <= i < s.len() ==> #[trigger] s[i] is None,
    decreases s.len(),
{
    if s.len() > 0 {
        lemma_live_count_zero(s.drop_last());
        assert forall|i: int| 0 <= i < s.len() implies #[trigger] s[i] is None by {
            if i < s.len() - 1 {
                assert(s[i] == s.drop_last()[i]);
            }
        }
    }
}

proof fn lemma_live_len(s: Slots)
    ensures
        live_messages(s).len() == live_count(s),
    decreases s.len(),
{
    if s.len() > 0 {
        lemma_live_len(s.drop_last());
    }
}

proof fn lemma_live_update(s: Slots, i: int, m: Message)
    requires
        0 <= i < s.len(),
        s[i] is Some,
    ensures
        live_count(s.take(i)) < live_messages(s).len(),
        live_messages(s)[live_count(s.take(i)) as int] == s[i]->0,
        live_messages(s.update(i, Some(m))) == live_messages(s).update(live_count(s.take(i)) as int, m),
    decreases s.len(),
{
    let p = s.drop_last();
    lemma_live_len(p);
    lemma_live_len(s.take(i));
    if i == s.len() - 1 {
        assert(s.take(i) =~= p);
        assert(s.update(i, Some(m)).drop_last() =~= p);
        assert(live_messages(s.update(i, Some(m))) =~= live_messages(p).push(m));
        assert(live_messages(s) == live_messages(p).push(s[i]->0));
        assert(live_messages(p).push(s[i]->0).update(live_messages(p).len() as int, m) =~= live_messages(p).push(m));
    } else {
        lemma_live_update(p, i, m);
        assert(p.take(i) =~= s.take(i));
        assert(s.update(i, Some(m)).drop_last() =~= p.update(i, Some(m)));
        assert(s.update(i, Some(m)).last() == s.last());
        let j = live_count(s.take(i)) as int;
        if s.last() is Some {
            assert(live_messages(s) == live_messages(p).push(s.last()->0));
            assert(live_messages(s.update(i, Some(m))) =~= live_messages(s).update(j, m));
        } else {
            assert(live_messages(s) == live_messages(p));
        }
    }
}

/// Appending a message either replaces, in its place, the one message
/// that is the same unit (the catalog's messages keep their order and
/// number), or adds it after all others (one message more).
pub proof fn lemma_append_order(s: Slots, m: Message)
    requires
        slots_wf(s),
    ensures
        (exists|i: int| unit_at(s, i, m)) ==> exists|j: int|
            0 <= j < live_messages(s).len() && live_messages(s)[j].same_unit(&m) && live_messages(
                appended(s, m),
            ) == live_messages(s).update(j, m),
        !(exists|i: int| unit_at(s, i, m)) ==> live_messages(appended(s, m)) == live_messages(s).push(m),
        live_messages(appended(s, m)).len() == live_count(appended(s, m)),
{
    lemma_live_len(appended(s, m));
    if exists|i: int| unit_at(s, i, m) {
        let i = choose|i: int| unit_at(s, i, m);
        lemma_live_update(s, i, m);
        let j = live_count(s.take(i)) as int;
        assert(live_messages(s)[j].same_unit(&m));
    } else {
        assert(s.push(Some(m)).drop_last() =~= s);
    }
}

/// After a message that answers a lookup is deleted, nothing answers that
/// lookup any more (so a second deletion finds nothing), and the catalog
/// holds one message less.
pub proof fn lemma_delete_consistent(
    s: Slots,
    i: int,
    ctxt: Seq<char>,
    id: Seq<char>,
    plural: Option<Seq<char>>,
)
    requires
        slots_wf(s),
        answers_at(s, i, ctxt, id, plural),
    ensures
        slots_wf(s.update(i, None)),
        forall|j: int| !answers_at(s.update(i, None), j, ctxt, id, plural),
        live_count(s.update(i, None)) + 1 == live_count(s),
{
    let t = s.update(i, None);
    assert forall|j: int| !answers_at(t, j, ctxt, id, plural) by {
        if answers_at(t, j, ctxt, id, plural) {
            assert(j != i);
            assert(s[j]->0.same_unit(&s[i]->0));
        }
    }
    assert forall|a: int, b: int|
        0 <= a < t.len() && 0 <= b < t.len() && a != b && t[a] is Some && t[b] is Some
            implies !(#[trigger] t[a])->0.same_unit(&(#[trigger] t[b])->0) by {
        assert(t[a] == s[a] && t[b] == s[b]);
    }
    lemma_live_count_update(s, i, None);
}

/// Whether `m` is the variant that a lookup asks for: singular for `None`,
/// plural with that `msgid_plural` for `Some`.
fn plural_matches(m: &Message, msgid_plural: Option<&str>) -> (r: bool)
    ensures
        r == match plural_of(msgid_plural) {
            None => !m.plural(),
            Some(p) => match m.body {
                MessageBody::Plural { msgid_plural, .. } => msgid_plural@ == p,
                MessageBody::Singular { .. } => false,
            },
        },
{
    match (&m.body, msgid_plural) {
        (MessageBody::Singular { .. }, None) => true,
        (MessageBody::Plural { msgid_plural: q, .. }, Some(p)) => str_eq(q.as_str(), p),
        _ => false,
    }
}

} // verus!
