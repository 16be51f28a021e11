//! The storage engine: two independently readable families inside one store,
//! a raw family holding the exact bytes last received for each key and a
//! projection family holding, for keys whose value decodes, bytes that decode
//! to the same status projection.
//!
//! Each family is a sequence of (key, value) entries kept strictly sorted by
//! byte-lexicographic key order, so a key occurs at most once and a scan is
//! ordered. A write is an upsert: it overwrites the entry for its key or
//! inserts a new one at its position; the raw family is always written, the
//! projection family only where the value decodes, and never before the raw
//! family.

use vstd::prelude::*;
use vstd::slice::slice_index_get;
use vstd::slice::slice_to_vec;
use crate::codec::bytes_eq;
use crate::codec::decode_projection;
use crate::codec::parse_projection;

verus! {

/// Byte-lexicographic order on the suffixes of `a` and `b` from `i`.
pub open spec fn lex_lt_from(a: Seq<u8>, b: Seq<u8>, i: int) -> bool
    decreases a.len() - i,
{
    if 0 <= i < a.len() && i < b.len() {
        a[i] < b[i] || (a[i] == b[i] && lex_lt_from(a, b, i + 1))
    } else {
        a.len() < b.len()
    }
}

/// Byte-lexicographic order: `a` strictly before `b`.
pub open spec fn lex_lt(a: Seq<u8>, b: Seq<u8>) -> bool {
    lex_lt_from(a, b, 0)
}

proof fn lemma_lex_irrefl_from(a: Seq<u8>, i: int)
    ensures
        !lex_lt_from(a, a, i),
    decreases a.len() - i,
{
    if 0 <= i < a.len() {
        lemma_lex_irrefl_from(a, i + 1);
    }
}

/// No byte sequence is before itself.
pub proof fn lemma_lex_irrefl(a: Seq<u8>)
    ensures
        !lex_lt(a, a),
{
    lemma_lex_irrefl_from(a, 0);
}

proof fn lemma_lex_asym_from(a: Seq<u8>, b: Seq<u8>, i: int)
    requires
        lex_lt_from(a, b, i),
    ensures
        !lex_lt_from(b, a, i),
    decreases a.len() - i,
{
    if 0 <= i < a.len() && i < b.len() {
        if a[i] == b[i] {
            lemma_lex_asym_from(a, b, i + 1);
        }
    }
}

/// The order is asymmetric.
pub proof fn lemma_lex_asym(a: Seq<u8>, b: Seq<u8>)
    requires
        lex_lt(a, b),
    ensures
        !lex_lt(b, a),
        a != b,
{
    lemma_lex_asym_from(a, b, 0);
    if a == b {
        lemma_lex_irrefl(a);
    }
}

proof fn lemma_lex_connex_from(a: Seq<u8>, b: Seq<u8>, i: int)
    requires
        0 <= i <= a.len(),
        i <= b.len(),
    ensures
        lex_lt_from(a, b, i) || lex_lt_from(b, a, i) || (a.len() == b.len() && forall|j: int|
            i <= j < a.len() ==> a[j] == b[j]),
    decreases a.len() - i,
{
    if i < a.len() && i < b.len() {
        if a[i] == b[i] {
            lemma_lex_connex_from(a, b, i + 1);
        }
    }
}

/// Two byte sequences are ordered one way or the other, or equal.
pub proof fn lemma_lex_total(a: Seq<u8>, b: Seq<u8>)
    ensures
        lex_lt(a, b) || lex_lt(b, a) || a == b,
{
    lemma_lex_connex_from(a, b, 0);
    if !lex_lt(a, b) && !lex_lt(b, a) {
        assert(a =~= b);
    }
}

/// Whether the suffixes of `a` and `b` from `i` are in strict order.
fn lex_lt_x(a: &[u8], b: &[u8], i: usize) -> (r: bool)
    requires
        i <= a.len(),
        i <= b.len(),
    ensures
        r == lex_lt_from(a@, b@, i as int),
    decreases a.len() - i,
{
    if i < a.len() && i < b.len() {
        let x = *slice_index_get(a, i);
        let y = *slice_index_get(b, i);
        if x < y {
            true
        } else if x == y {
            lex_lt_x(a, b, i + 1)
        } else {
            false
        }
    } else {
        a.len() < b.len()
    }
}

proof fn lemma_lex_trans_from(a: Seq<u8>, b: Seq<u8>, c: Seq<u8>, i: int)
    requires
        0 <= i,
        lex_lt_from(a, b, i),
        lex_lt_from(b, c, i),
    ensures
        lex_lt_from(a, c, i),
    decreases a.len() - i,
{
    if i < a.len() && i < b.len() && i < c.len() {
        if a[i] == b[i] && b[i] == c[i] && lex_lt_from(a, b, i + 1) && lex_lt_from(b, c, i + 1) {
            lemma_lex_trans_from(a, b, c, i + 1);
        }
    }
}

/// The order is transitive.
pub proof fn lemma_lex_trans(a: Seq<u8>, b: Seq<u8>, c: Seq<u8>)
    requires
        lex_lt(a, b),
        lex_lt(b, c),
    ensures
        lex_lt(a, c),
{
    lemma_lex_trans_from(a, b, c, 0);
}

/// The entries of a family, as byte sequences.
pub open spec fn entries_view(es: Seq<(Vec<u8>, Vec<u8>)>) -> Seq<(Seq<u8>, Seq<u8>)> {
    es.map_values(|e: (Vec<u8>, Vec<u8>)| (e.0@, e.1@))
}

/// Entries strictly sorted by key.
pub open spec fn entries_sorted(es: Seq<(Seq<u8>, Seq<u8>)>) -> bool {
    forall|i: int| 0 <= i && i + 1 < es.len() ==> lex_lt(#[trigger] es[i].0, es[i + 1].0)
}

/// Value of the first entry for `key`, if any.
pub open spec fn lookup(es: Seq<(Seq<u8>, Seq<u8>)>, key: Seq<u8>) -> Option<Seq<u8>>
    decreases es.len(),
{
    if es.len() == 0 {
        None
    } else if es[0].0 == key {
        Some(es[0].1)
    } else {
        lookup(es.drop_first(), key)
    }
}

/// The entries after an upsert of (`key`, `value`): the entry for `key` is
/// overwritten in place, or a new one stands at its position in the order.
pub open spec fn sorted_insert(es: Seq<(Seq<u8>, Seq<u8>)>, key: Seq<u8>, value: Seq<u8>) -> Seq<
    (Seq<u8>, Seq<u8>),
>
    decreases es.len(),
{
    if es.len() == 0 {
        seq![(key, value)]
    } else if lex_lt(key, es[0].0) {
        seq![(key, value)] + es
    } else if key == es[0].0 {
        seq![(key, value)] + es.drop_first()
    } else {
        seq![es[0]] + sorted_insert(es.drop_first(), key, value)
    }
}

/// An upsert at the position found by a left-to-right scan is an update where
/// the key already stands and an insertion otherwise.
proof fn lemma_sorted_insert_at(es: Seq<(Seq<u8>, Seq<u8>)>, key: Seq<u8>, value: Seq<u8>, p: int)
    requires
        0 <= p <= es.len(),
        forall|i: int| 0 <= i < p ==> lex_lt(#[trigger] es[i].0, key),
        p < es.len() ==> !lex_lt(es[p].0, key),
    ensures
        p < es.len() && es[p].0 == key ==> sorted_insert(es, key, value) == es.update(
            p,
            (key, value),
        ),
        (p == es.len() || es[p].0 != key) ==> sorted_insert(es, key, value) == es.insert(
            p,
            (key, value),
        ),
    decreases es.len(),
{
    if p == 0 {
        if es.len() == 0 {
            assert(sorted_insert(es, key, value) =~= es.insert(0, (key, value)));
        } else if es[0].0 == key {
            lemma_lex_irrefl(key);
            assert(sorted_insert(es, key, value) =~= es.update(0, (key, value)));
        } else {
            lemma_lex_total(key, es[0].0);
            assert(sorted_insert(es, key, value) =~= es.insert(0, (key, value)));
        }
    } else {
        assert(lex_lt(es[0].0, key));
        lemma_lex_asym(es[0].0, key);
        let rest = es.drop_first();
        assert forall|i: int| 0 <= i < p - 1 implies lex_lt(#[trigger] rest[i].0, key) by {
            assert(rest[i] == es[i + 1]);
        }
        lemma_sorted_insert_at(rest, key, value, p - 1);
        if p < es.len() && es[p].0 == key {
            assert(rest[p - 1].0 == key);
            assert(seq![es[0]] + rest.update(p - 1, (key, value)) =~= es.update(p, (key, value)));
        } else {
            assert(seq![es[0]] + rest.insert(p - 1, (key, value)) =~= es.insert(p, (key, value)));
        }
    }
}

/// Overwriting the entry that already holds `key` keeps the order.
proof fn lemma_update_sorted(es: Seq<(Seq<u8>, Seq<u8>)>, key: Seq<u8>, value: Seq<u8>, p: int)
    requires
        entries_sorted(es),
        0 <= p < es.len(),
        es[p].0 == key,
    ensures
        entries_sorted(es.update(p, (key, value))),
{
    let upd = es.update(p, (key, value));
    assert forall|i: int| 0 <= i && i + 1 < upd.len() implies lex_lt(
        #[trigger] upd[i].0,
        upd[i + 1].0,
    ) by {
        assert(upd[i].0 == es[i].0);
        assert(upd[i + 1].0 == es[i + 1].0);
    }
}

/// Inserting a fresh key at its position keeps the order.
proof fn lemma_insert_sorted(es: Seq<(Seq<u8>, Seq<u8>)>, key: Seq<u8>, value: Seq<u8>, p: int)
    requires
        entries_sorted(es),
        0 <= p <= es.len(),
        forall|i: int| 0 <= i < p ==> lex_lt(#[trigger] es[i].0, key),
        p < es.len() ==> lex_lt(key, es[p].0),
    ensures
        entries_sorted(es.insert(p, (key, value))),
{
    let ins = es.insert(p, (key, value));
    assert forall|i: int| 0 <= i && i + 1 < ins.len() implies lex_lt(
        #[trigger] ins[i].0,
        ins[i + 1].0,
    ) by {
        if i + 1 < p {
            assert(ins[i] == es[i]);
            assert(ins[i + 1] == es[i + 1]);
        } else if i + 1 == p {
            assert(ins[i] == es[i]);
            assert(ins[i + 1] == (key, value));
        } else if i == p {
            assert(ins[i] == (key, value));
            assert(ins[i + 1] == es[i]);
        } else {
            assert(ins[i] == es[i - 1]);
            assert(ins[i + 1] == es[i]);
        }
    }
}

/// After an upsert of (`key`, `value`), `key` reads back exactly `value`.
pub proof fn lemma_lookup_inserted(es: Seq<(Seq<u8>, Seq<u8>)>, key: Seq<u8>, value: Seq<u8>)
    ensures
        lookup(sorted_insert(es, key, value), key) == Some(value),
    decreases es.len(),
{
    let ins = sorted_insert(es, key, value);
    if es.len() == 0 {
        assert(ins[0] == (key, value));
    } else if lex_lt(key, es[0].0) {
        assert(ins[0] == (key, value));
    } else if key == es[0].0 {
        assert(ins[0] == (key, value));
    } else {
        lemma_lookup_inserted(es.drop_first(), key, value);
        assert(ins[0] == es[0]);
        assert(ins.drop_first() =~= sorted_insert(es.drop_first(), key, value));
    }
}

/// An upsert of one key leaves every other key's entry as it was.
pub proof fn lemma_lookup_other(
    es: Seq<(Seq<u8>, Seq<u8>)>,
    key: Seq<u8>,
    value: Seq<u8>,
    k: Seq<u8>,
)
    requires
        k != key,
    ensures
        lookup(sorted_insert(es, key, value), k) == lookup(es, k),
    decreases es.len(),
{
    let ins = sorted_insert(es, key, value);
    if es.len() == 0 {
        assert(ins[0] == (key, value));
        assert(ins.drop_first() =~= es);
    } else if lex_lt(key, es[0].0) {
        assert(ins[0] == (key, value));
        assert(ins.drop_first() =~= es);
    } else if key == es[0].0 {
        assert(ins[0] == (key, value));
        assert(ins.drop_first() =~= es.drop_first());
    } else {
        lemma_lookup_other(es.drop_first(), key, value, k);
        assert(ins[0] == es[0]);
        assert(ins.drop_first() =~= sorted_insert(es.drop_first(), key, value));
    }
}

/// Writing the same (key, value) pair onto a family that already went through
/// that write leaves it unchanged: reprocessing a stream is idempotent.
pub proof fn lemma_write_idempotent(es: Seq<(Seq<u8>, Seq<u8>)>, key: Seq<u8>, value: Seq<u8>)
    ensures
        sorted_insert(sorted_insert(es, key, value), key, value) == sorted_insert(es, key, value),
    decreases es.len(),
{
    let ins = sorted_insert(es, key, value);
    lemma_lex_irrefl(key);
    if es.len() == 0 {
        assert(ins[0] == (key, value));
        assert(sorted_insert(ins, key, value) =~= ins);
    } else if lex_lt(key, es[0].0) {
        assert(ins[0] == (key, value));
        assert(seq![(key, value)] + ins.drop_first() =~= ins);
    } else if key == es[0].0 {
        assert(ins[0] == (key, value));
        assert(seq![(key, value)] + ins.drop_first() =~= ins);
    } else {
        lemma_write_idempotent(es.drop_first(), key, value);
        assert(ins[0] == es[0]);
        assert(ins.drop_first() =~= sorted_insert(es.drop_first(), key, value));
        assert(seq![ins[0]] + sorted_insert(ins.drop_first(), key, value) =~= ins);
    }
}

/// In a sorted family any two entries are in order, so keys never repeat.
proof fn lemma_sorted_global(es: Seq<(Seq<u8>, Seq<u8>)>, i: int, j: int)
    requires
        entries_sorted(es),
        0 <= i < j < es.len(),
    ensures
        lex_lt(es[i].0, es[j].0),
        es[i].0 != es[j].0,
    decreases j - i,
{
    if i + 1 < j {
        lemma_sorted_global(es, i, j - 1);
        lemma_lex_trans(es[i].0, es[j - 1].0, es[j].0);
    }
    lemma_lex_asym(es[i].0, es[j].0);
}

/// A key an entry holds is a key a lookup finds.
proof fn lemma_entry_lookup_some(es: Seq<(Seq<u8>, Seq<u8>)>, j: int)
    requires
        0 <= j < es.len(),
    ensures
        lookup(es, es[j].0) is Some,
    decreases es.len(),
{
    if es[0].0 != es[j].0 {
        assert(es.drop_first()[j - 1] == es[j]);
        lemma_entry_lookup_some(es.drop_first(), j - 1);
    }
}

/// A key a lookup finds is held, with the found value, by some entry.
proof fn lemma_lookup_some_entry(es: Seq<(Seq<u8>, Seq<u8>)>, k: Seq<u8>)
    requires
        lookup(es, k) is Some,
    ensures
        exists|j: int|
            0 <= j < es.len() && #[trigger] es[j].0 == k && es[j].1 == lookup(es, k).unwrap(),
    decreases es.len(),
{
    if es[0].0 == k {
        assert(es[0].0 == k && es[0].1 == lookup(es, k).unwrap());
    } else {
        lemma_lookup_some_entry(es.drop_first(), k);
        let j = choose|j: int|
            0 <= j < es.drop_first().len() && #[trigger] es.drop_first()[j].0 == k
                && es.drop_first()[j].1 == lookup(es.drop_first(), k).unwrap();
        assert(es[j + 1] == es.drop_first()[j]);
        assert(es[j + 1].0 == k && es[j + 1].1 == lookup(es, k).unwrap());
    }
}

/// Where a value decodes, the dual write leaves a projection entry that
/// decodes to exactly what the value decodes to: the projection family is a
/// derivable cache of the raw family, never a divergent copy.
pub proof fn lemma_projection_consistent(
    proj: Seq<(Seq<u8>, Seq<u8>)>,
    key: Seq<u8>,
    value: Seq<u8>,
)
    requires
        decode_projection(value) is Some,
    ensures
        lookup(sorted_insert(proj, key, value), key) matches Some(pv) && decode_projection(pv)
            == decode_projection(value),
{
    lemma_lookup_inserted(proj, key, value);
}

/// Writing the same (key, value) pair twice leaves both families exactly as
/// one write leaves them, whether or not the value decodes.
pub proof fn lemma_dual_write_idempotent(
    raw: Seq<(Seq<u8>, Seq<u8>)>,
    proj: Seq<(Seq<u8>, Seq<u8>)>,
    key: Seq<u8>,
    value: Seq<u8>,
)
    ensures
        sorted_insert(sorted_insert(raw, key, value), key, value) == sorted_insert(
            raw,
            key,
            value,
        ),
        sorted_insert(sorted_insert(proj, key, value), key, value) == sorted_insert(
            proj,
            key,
            value,
        ),
{
    lemma_write_idempotent(raw, key, value);
    lemma_write_idempotent(proj, key, value);
}

/// First position whose key is not before `key`.
fn insert_pos(es: &Vec<(Vec<u8>, Vec<u8>)>, key: &Vec<u8>) -> (p: usize)
    ensures
        p <= es.len(),
        forall|i: int| 0 <= i < p ==> lex_lt(#[trigger] entries_view(es@)[i].0, key@),
        p < es.len() ==> !lex_lt(entries_view(es@)[p as int].0, key@),
{
    let mut p: usize = 0;
    while p < es.len()
        invariant
            p <= es.len(),
            forall|i: int| 0 <= i < p ==> lex_lt(#[trigger] entries_view(es@)[i].0, key@),
        decreases es.len() - p,
    {
        let e = slice_index_get(es.as_slice(), p);
        proof {
            assert(entries_view(es@)[p as int].0 == es@[p as int].0@);
        }
        if !lex_lt_x(e.0.as_slice(), key.as_slice(), 0) {
            return p;
        }
        p += 1;
    }
    p
}

/// Upsert (`key`, `value`) into a sorted family.
fn upsert(es: &mut Vec<(Vec<u8>, Vec<u8>)>, key: &Vec<u8>, value: &Vec<u8>)
    requires
        entries_sorted(entries_view(old(es)@)),
    ensures
        entries_view(final(es)@) == sorted_insert(entries_view(old(es)@), key@, value@),
        entries_sorted(entries_view(final(es)@)),
{
    let ghost old_view = entries_view(es@);
    let p = insert_pos(es, key);
    let kc = slice_to_vec(key.as_slice());
    let vc = slice_to_vec(value.as_slice());
    let mut matched = false;
    if p < es.len() {
        let e = slice_index_get(es.as_slice(), p);
        matched = bytes_eq(e.0.as_slice(), key.as_slice());
    }
    proof {
        lemma_sorted_insert_at(old_view, key@, value@, p as int);
    }
    if matched {
        let _superseded = es.remove(p);
        es.insert(p, (kc, vc));
        proof {
            assert(entries_view(es@) =~= old_view.update(p as int, (key@, value@)));
            lemma_update_sorted(old_view, key@, value@, p as int);
        }
    } else {
        proof {
            if p < es.len() {
                lemma_lex_total(key@, old_view[p as int].0);
            }
        }
        es.insert(p, (kc, vc));
        proof {
            assert(entries_view(es@) =~= old_view.insert(p as int, (key@, value@)));
            lemma_insert_sorted(old_view, key@, value@, p as int);
        }
    }
}

/// Value of the first entry for `key` at or after position `i`.
fn lookup_x<'a>(es: &'a Vec<(Vec<u8>, Vec<u8>)>, key: &Vec<u8>, i: usize) -> (r: Option<
    &'a Vec<u8>,
>)
    requires
        i <= es.len(),
    ensures
        (match r {
            Some(v) => lookup(entries_view(es@).skip(i as int), key@) == Some(v@),
            None => lookup(entries_view(es@).skip(i as int), key@) is None,
        }),
    decreases es.len() - i,
{
    let ghost suffix = entries_view(es@).skip(i as int);
    if i < es.len() {
        let e = slice_index_get(es.as_slice(), i);
        proof {
            assert(suffix[0] == entries_view(es@)[i as int]);
            assert(suffix.drop_first() =~= entries_view(es@).skip(i as int + 1));
        }
        if bytes_eq(e.0.as_slice(), key.as_slice()) {
            Some(&e.1)
        } else {
            lookup_x(es, key, i + 1)
        }
    } else {
        None
    }
}

/// A key's entry in the projection family never outruns the raw family:
/// whatever the projection family holds for a key decodes to a status
/// projection, and the raw family holds some bytes for that key.
pub open spec fn covered(raw: Seq<(Seq<u8>, Seq<u8>)>, proj: Seq<(Seq<u8>, Seq<u8>)>) -> bool {
    forall|k: Seq<u8>|
        (#[trigger] lookup(proj, k)) matches Some(v) ==> decode_projection(v) is Some && lookup(
            raw,
            k,
        ) is Some
}

/// The store: a raw family and a projection family, each sorted by key.
pub struct Store {
    raw_entries: Vec<(Vec<u8>, Vec<u8>)>,
    proj_entries: Vec<(Vec<u8>, Vec<u8>)>,
}

impl Store {
    /// The raw family's entries.
    pub closed spec fn raw(self) -> Seq<(Seq<u8>, Seq<u8>)> {
        entries_view(self.raw_entries@)
    }

    /// The projection family's entries.
    pub closed spec fn proj(self) -> Seq<(Seq<u8>, Seq<u8>)> {
        entries_view(self.proj_entries@)
    }

    /// Well-formed: both families sorted, and the projection family covered
    /// by the raw family.
    pub open spec fn wf(self) -> bool {
        entries_sorted(self.raw()) && entries_sorted(self.proj()) && covered(
            self.raw(),
            self.proj(),
        )
    }

    /// An empty store.
    pub fn new() -> (r: Store)
        ensures
            r.wf(),
            r.raw() == Seq::<(Seq<u8>, Seq<u8>)>::empty(),
            r.proj() == Seq::<(Seq<u8>, Seq<u8>)>::empty(),
    {
        let r = Store { raw_entries: Vec::new(), proj_entries: Vec::new() };
        proof {
            assert(r.raw() =~= Seq::<(Seq<u8>, Seq<u8>)>::empty());
            assert(r.proj() =~= Seq::<(Seq<u8>, Seq<u8>)>::empty());
        }
        r
    }

    /// The dual write: `value` goes into the raw family at `key` unchanged;
    /// where it decodes to a status projection, the same bytes go into the
    /// projection family at `key`, and nowhere otherwise. Returns whether the
    /// projection family was written.
    ///
    /// The raw family is written first, so the projection family never holds
    /// a key the raw family lacks.
    pub fn write(&mut self, key: &Vec<u8>, value: &Vec<u8>) -> (projected: bool)
        requires
            old(self).wf(),
        ensures
            final(self).wf(),
            final(self).raw() == sorted_insert(old(self).raw(), key@, value@),
            projected == (decode_projection(value@) is Some),
            projected ==> final(self).proj() == sorted_insert(old(self).proj(), key@, value@),
            !projected ==> final(self).proj() == old(self).proj(),
            lookup(final(self).raw(), key@) == Some(value@),
            projected ==> lookup(final(self).proj(), key@) == Some(value@),
    {
        upsert(&mut self.raw_entries, key, value);
        let projected = match parse_projection(value) {
            Some(_) => true,
            None => false,
        };
        if projected {
            upsert(&mut self.proj_entries, key, value);
        }
        proof {
            let raw0 = old(self).raw();
            let proj0 = old(self).proj();
            lemma_lookup_inserted(raw0, key@, value@);
            if projected {
                lemma_lookup_inserted(proj0, key@, value@);
            }
            assert forall|k: Seq<u8>| (#[trigger] lookup(self.proj(), k)) is Some
                implies decode_projection(lookup(self.proj(), k).unwrap()) is Some && lookup(
                self.raw(),
                k,
            ) is Some by {
                if k == key@ {
                    if !projected {
                        assert(lookup(proj0, k) matches Some(w) ==> decode_projection(w) is Some);
                    }
                } else {
                    lemma_lookup_other(raw0, key@, value@, k);
                    if projected {
                        lemma_lookup_other(proj0, key@, value@, k);
                    }
                    assert(lookup(proj0, k) == lookup(self.proj(), k));
                }
            }
        }
        projected
    }

    /// Point lookup in the raw family; no decoding on this path.
    pub fn read_raw(&self, key: &Vec<u8>) -> (r: Option<&Vec<u8>>)
        ensures
            (match r {
                Some(v) => lookup(self.raw(), key@) == Some(v@),
                None => lookup(self.raw(), key@) is None,
            }),
    {
        proof {
            assert(entries_view(self.raw_entries@).skip(0) =~= self.raw());
        }
        lookup_x(&self.raw_entries, key, 0)
    }

    /// Point lookup in the projection family.
    pub fn read_projection(&self, key: &Vec<u8>) -> (r: Option<&Vec<u8>>)
        ensures
            (match r {
                Some(v) => lookup(self.proj(), key@) == Some(v@),
                None => lookup(self.proj(), key@) is None,
            }),
    {
        proof {
            assert(entries_view(self.proj_entries@).skip(0) =~= self.proj());
        }
        lookup_x(&self.proj_entries, key, 0)
    }

    /// The whole projection family, ordered by key.
    pub fn scan_projection(&self) -> (r: &Vec<(Vec<u8>, Vec<u8>)>)
        ensures
            entries_view(r@) == self.proj(),
    {
        &self.proj_entries
    }

    /// Reconciliation: the raw family is ground truth, and every missing or
    /// stale projection entry is recomputed from it. Afterwards every raw key
    /// whose value decodes has that value in the projection family; a raw key
    /// whose value does not decode, and a key the raw family lacks, leave
    /// their projection entry exactly as it was.
    pub fn reconcile(&mut self)
        requires
            old(self).wf(),
        ensures
            final(self).wf(),
            final(self).raw() == old(self).raw(),
            forall|k: Seq<u8>|
                (#[trigger] lookup(old(self).raw(), k)) matches Some(v) ==> (
                decode_projection(v) is Some ==> lookup(final(self).proj(), k) == Some(v)) && (
                decode_projection(v) is None ==> lookup(final(self).proj(), k) == lookup(
                    old(self).proj(),
                    k,
                )),
            forall|k: Seq<u8>|
                (#[trigger] lookup(old(self).raw(), k)) is None ==> lookup(
                    final(self).proj(),
                    k,
                ) == lookup(old(self).proj(), k),
    {
        let ghost raw0 = old(self).raw();
        let ghost proj0 = old(self).proj();
        let mut i: usize = 0;
        while i < self.raw_entries.len()
            invariant
                i <= self.raw_entries.len(),
                raw0 == entries_view(self.raw_entries@),
                proj0 == old(self).proj(),
                raw0.len() == self.raw_entries@.len(),
                entries_sorted(raw0),
                entries_sorted(self.proj()),
                covered(raw0, self.proj()),
                forall|j: int|
                    0 <= j < i ==> #[trigger] lookup(self.proj(), raw0[j].0) == (
                    if decode_projection(raw0[j].1) is Some {
                        Some(raw0[j].1)
                    } else {
                        lookup(proj0, raw0[j].0)
                    }),
                forall|j: int|
                    i <= j < raw0.len() ==> #[trigger] lookup(self.proj(), raw0[j].0) == lookup(
                        proj0,
                        raw0[j].0,
                    ),
                forall|k: Seq<u8>|
                    (#[trigger] lookup(raw0, k)) is None ==> lookup(self.proj(), k) == lookup(
                        proj0,
                        k,
                    ),
            decreases self.raw_entries.len() - i,
        {
            let ghost proj_pre = self.proj();
            let entry = slice_index_get(self.raw_entries.as_slice(), i);
            proof {
                assert(raw0 == entries_view(self.raw_entries@));
                assert(entries_view(self.raw_entries@)[i as int] == (
                    self.raw_entries@[i as int].0@,
                    self.raw_entries@[i as int].1@,
                ));
                assert(raw0[i as int] == (entry.0@, entry.1@));
            }
            let decodes = match parse_projection(&entry.1) {
                Some(_) => true,
                None => false,
            };
            if decodes {
                upsert(&mut self.proj_entries, &entry.0, &entry.1);
                proof {
                    let key = raw0[i as int].0;
                    let value = raw0[i as int].1;
                    lemma_lookup_inserted(proj_pre, key, value);
                    assert forall|j: int| 0 <= j < raw0.len() && j != i implies lookup(
                        self.proj(),
                        raw0[j].0,
                    ) == lookup(proj_pre, raw0[j].0) by {
                        if j < i {
                            lemma_sorted_global(raw0, j, i as int);
                        } else {
                            lemma_sorted_global(raw0, i as int, j);
                        }
                        lemma_lookup_other(proj_pre, key, value, raw0[j].0);
                    }
                    lemma_entry_lookup_some(raw0, i as int);
                    assert forall|k: Seq<u8>| (#[trigger] lookup(raw0, k)) is None implies lookup(
                        self.proj(),
                        k,
                    ) == lookup(proj0, k) by {
                        lemma_lookup_other(proj_pre, key, value, k);
                    }
                    assert forall|k: Seq<u8>| (#[trigger] lookup(self.proj(), k)) is Some
                        implies decode_projection(lookup(self.proj(), k).unwrap()) is Some
                        && lookup(raw0, k) is Some by {
                        if k != key {
                            lemma_lookup_other(proj_pre, key, value, k);
                        }
                    }
                }
            }
            i += 1;
        }
        proof {
            assert forall|k: Seq<u8>| (#[trigger] lookup(raw0, k)) is Some implies {
                let v = lookup(raw0, k).unwrap();
                (decode_projection(v) is Some ==> lookup(self.proj(), k) == Some(v)) && (
                decode_projection(v) is None ==> lookup(self.proj(), k) == lookup(proj0, k))
            } by {
                lemma_lookup_some_entry(raw0, k);
                let j = choose|j: int|
                    0 <= j < raw0.len() && #[trigger] raw0[j].0 == k && raw0[j].1 == lookup(
                        raw0,
                        k,
                    ).unwrap();
                assert(lookup(self.proj(), raw0[j].0) == (if decode_projection(
                    raw0[j].1,
                ) is Some {
                    Some(raw0[j].1)
                } else {
                    lookup(proj0, raw0[j].0)
                }));
            }
        }
    }
}

} // verus!
