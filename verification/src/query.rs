//! The query scanner: walk the projection family in key order, decode each
//! entry, keep the keys whose status matches the one asked for, and emit each
//! kept key as a text identifier. An entry that does not decode is counted
//! and skipped; it never aborts the query.

use vstd::prelude::*;
use vstd::slice::slice_index_get;
use vstd::slice::slice_to_vec;
use crate::codec::decode_projection;
use crate::codec::parse_projection;
use crate::record::Status;
use crate::store::Store;
use crate::store::entries_view;

verus! {

/// Keys of the entries at or after `i` whose value decodes to a projection
/// with status `wanted`, in entry order.
pub open spec fn filter_from(es: Seq<(Seq<u8>, Seq<u8>)>, wanted: Status, i: int) -> Seq<Seq<u8>>
    decreases es.len() - i,
{
    if 0 <= i < es.len() {
        let rest = filter_from(es, wanted, i + 1);
        match decode_projection(es[i].1) {
            Some(p) => if p.status == wanted {
                seq![es[i].0] + rest
            } else {
                rest
            },
            None => rest,
        }
    } else {
        Seq::empty()
    }
}

/// Number of entries at or after `i` whose value does not decode.
pub open spec fn corrupt_from(es: Seq<(Seq<u8>, Seq<u8>)>, i: int) -> nat
    decreases es.len() - i,
{
    if 0 <= i < es.len() {
        corrupt_from(es, i + 1) + (if decode_projection(es[i].1) is None {
            1nat
        } else {
            0nat
        })
    } else {
        0
    }
}

/// A sequence of keys, as byte sequences.
pub open spec fn keys_view(ks: Seq<Vec<u8>>) -> Seq<Seq<u8>> {
    ks.map_values(|k: Vec<u8>| k@)
}

fn filter_entries_from(es: &Vec<(Vec<u8>, Vec<u8>)>, wanted: Status, i: usize) -> (r: (
    Vec<Vec<u8>>,
    usize,
))
    requires
        i <= es.len(),
    ensures
        keys_view(r.0@) == filter_from(entries_view(es@), wanted, i as int),
        r.1 == corrupt_from(entries_view(es@), i as int),
        r.1 <= es.len() - i,
    decreases es.len() - i,
{
    if i < es.len() {
        let rest = filter_entries_from(es, wanted, i + 1);
        let mut keys = rest.0;
        let ghost keys0 = keys@;
        let e = slice_index_get(es.as_slice(), i);
        proof {
            assert(entries_view(es@)[i as int] == (es@[i as int].0@, es@[i as int].1@));
        }
        match parse_projection(&e.1) {
            Some(p) => {
                if p.status == wanted {
                    let kc = slice_to_vec(e.0.as_slice());
                    keys.insert(0, kc);
                    proof {
                        assert(keys_view(keys@) =~= seq![es@[i as int].0@] + keys_view(keys0));
                    }
                    (keys, rest.1)
                } else {
                    (keys, rest.1)
                }
            }
            None => (keys, rest.1 + 1),
        }
    } else {
        let keys: Vec<Vec<u8>> = Vec::new();
        proof {
            assert(keys_view(keys@) =~= Seq::<Seq<u8>>::empty());
        }
        (keys, 0)
    }
}

/// Filter a family's entries by status: the keys whose entry decodes to a
/// projection with status `wanted`, in entry order, and the count of entries
/// that did not decode.
pub fn filter_entries(es: &Vec<(Vec<u8>, Vec<u8>)>, wanted: Status) -> (r: (Vec<Vec<u8>>, usize))
    ensures
        keys_view(r.0@) == filter_from(entries_view(es@), wanted, 0),
        r.1 == corrupt_from(entries_view(es@), 0),
{
    filter_entries_from(es, wanted, 0)
}

/// A byte a terminal shows as itself.
pub open spec fn is_printable(b: u8) -> bool {
    32 <= b <= 126
}

pub open spec fn all_printable(k: Seq<u8>) -> bool {
    forall|i: int| 0 <= i < k.len() ==> is_printable(#[trigger] k[i])
}

/// The digit `0` to `9` or letter `a` to `f` that writes `n` in base 16.
pub open spec fn hex_digit(n: u8) -> u8
    recommends
        n < 16,
{
    if n < 10 {
        (48 + n) as u8
    } else {
        (87 + n) as u8
    }
}

/// The key written out in base 16, two digits a byte.
pub open spec fn hex_bytes(k: Seq<u8>) -> Seq<u8>
    decreases k.len(),
{
    if k.len() == 0 {
        Seq::empty()
    } else {
        hex_bytes(k.drop_last()) + seq![hex_digit(k.last() / 16), hex_digit(k.last() % 16)]
    }
}

/// A key as a text identifier: the key's own bytes where they are all
/// printable, else a deterministic base-16 rendering.
pub open spec fn key_text(k: Seq<u8>) -> Seq<u8> {
    if all_printable(k) {
        k
    } else {
        hex_bytes(k)
    }
}

fn all_printable_x(k: &Vec<u8>) -> (r: bool)
    ensures
        r == all_printable(k@),
{
    let mut i: usize = 0;
    while i < k.len()
        invariant
            i <= k.len(),
            forall|j: int| 0 <= j < i ==> is_printable(#[trigger] k@[j]),
        decreases k.len() - i,
    {
        let b = k[i];
        if b < 32 || b > 126 {
            assert(!is_printable(k@[i as int]));
            return false;
        }
        i += 1;
    }
    true
}

fn hex_bytes_x(k: &Vec<u8>) -> (r: Vec<u8>)
    ensures
        r@ == hex_bytes(k@),
{
    let mut out: Vec<u8> = Vec::new();
    let mut i: usize = 0;
    proof {
        assert(out@ =~= hex_bytes(k@.take(0)));
    }
    while i < k.len()
        invariant
            i <= k.len(),
            out@ == hex_bytes(k@.take(i as int)),
        decreases k.len() - i,
    {
        let b = k[i];
        let hi = b / 16;
        let lo = b % 16;
        out.push(if hi < 10 {
            48 + hi
        } else {
            87 + hi
        });
        out.push(if lo < 10 {
            48 + lo
        } else {
            87 + lo
        });
        proof {
            assert(k@.take(i as int + 1).drop_last() =~= k@.take(i as int));
            assert(k@.take(i as int + 1).last() == k@[i as int]);
            assert(out@ =~= hex_bytes(k@.take(i as int + 1)));
        }
        i += 1;
    }
    proof {
        assert(k@.take(k@.len() as int) =~= k@);
    }
    out
}

/// The text identifier for a key.
pub fn key_to_text(k: &Vec<u8>) -> (r: Vec<u8>)
    ensures
        r@ == key_text(k@),
{
    if all_printable_x(k) {
        slice_to_vec(k.as_slice())
    } else {
        hex_bytes_x(k)
    }
}

/// Text identifiers for a sequence of keys.
pub open spec fn texts_of(ks: Seq<Seq<u8>>) -> Seq<Seq<u8>> {
    ks.map_values(|k: Seq<u8>| key_text(k))
}

/// The audit query: scan the projection family in key order and return the
/// text identifiers of the keys whose entry carries status `wanted`, with
/// the count of entries that did not decode.
pub fn audit(store: &Store, wanted: Status) -> (r: (Vec<Vec<u8>>, usize))
    ensures
        keys_view(r.0@) == texts_of(filter_from(store.proj(), wanted, 0)),
        r.1 == corrupt_from(store.proj(), 0),
{
    let entries = store.scan_projection();
    let filtered = filter_entries(entries, wanted);
    let keys = filtered.0;
    let ghost matched = filter_from(store.proj(), wanted, 0);
    let mut out: Vec<Vec<u8>> = Vec::new();
    let mut i: usize = 0;
    while i < keys.len()
        invariant
            i <= keys.len(),
            keys_view(keys@) == matched,
            keys@.len() == matched.len(),
            out@.len() == i,
            forall|j: int| 0 <= j < i ==> (#[trigger] out@[j])@ == key_text(matched[j]),
        decreases keys.len() - i,
    {
        let t = key_to_text(slice_index_get(keys.as_slice(), i));
        proof {
            assert(keys_view(keys@)[i as int] == keys@[i as int]@);
            assert(t@ == key_text(matched[i as int]));
        }
        out.push(t);
        i += 1;
    }
    proof {
        assert forall|j: int| 0 <= j < out@.len() implies keys_view(out@)[j] == texts_of(
            matched,
        )[j] by {
            assert(keys_view(out@)[j] == out@[j]@);
            assert(texts_of(matched)[j] == key_text(matched[j]));
        }
        assert(keys_view(out@) =~= texts_of(matched));
    }
    (out, filtered.1)
}

/// Entries past a dropped position, read through the shortened sequence.
proof fn lemma_filter_shift(es: Seq<(Seq<u8>, Seq<u8>)>, wanted: Status, m: int, i: int)
    requires
        0 <= m < es.len(),
        m <= i <= es.len() - 1,
    ensures
        filter_from(es, wanted, i + 1) == filter_from(es.remove(m), wanted, i),
        corrupt_from(es, i + 1) == corrupt_from(es.remove(m), i),
    decreases es.len() - i,
{
    if i < es.len() - 1 {
        assert(es.remove(m)[i] == es[i + 1]);
        lemma_filter_shift(es, wanted, m, i + 1);
    } else {
        assert(filter_from(es, wanted, i + 1) =~= Seq::<Seq<u8>>::empty());
        assert(filter_from(es.remove(m), wanted, i) =~= Seq::<Seq<u8>>::empty());
    }
}

proof fn lemma_filter_prefix(es: Seq<(Seq<u8>, Seq<u8>)>, wanted: Status, m: int, i: int)
    requires
        0 <= i <= m < es.len(),
        decode_projection(es[m].1) is None,
    ensures
        filter_from(es, wanted, i) == filter_from(es.remove(m), wanted, i),
        corrupt_from(es, i) == corrupt_from(es.remove(m), i) + 1,
    decreases m - i,
{
    if i == m {
        lemma_filter_shift(es, wanted, m, m);
    } else {
        assert(es.remove(m)[i] == es[i]);
        lemma_filter_prefix(es, wanted, m, i + 1);
    }
}

/// One undecodable entry among the rest changes nothing of the filtered
/// keys: the query yields exactly what it would yield without that entry,
/// and counts it.
pub proof fn lemma_corrupt_entry_dropped(es: Seq<(Seq<u8>, Seq<u8>)>, wanted: Status, m: int)
    requires
        0 <= m < es.len(),
        decode_projection(es[m].1) is None,
    ensures
        filter_from(es, wanted, 0) == filter_from(es.remove(m), wanted, 0),
        corrupt_from(es, 0) == corrupt_from(es.remove(m), 0) + 1,
{
    lemma_filter_prefix(es, wanted, m, 0);
}

} // verus!
