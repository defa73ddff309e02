//! The BRep colour trailer.
//!
//! A BRep file is a plain BinTools payload followed, when anything is coloured, by
//!
//! ```text
//! [b"CDCL"][u32 count][count x (u32 index, f32 r, f32 g, f32 b)]   little-endian
//! ```
//!
//! The reader looks for the magic exactly where the payload ends. `index` is a
//! position in the trailer's index space (every solid of the shape, then every face),
//! not a TShape id: ids are addresses, and a re-read invents fresh ones. Colour
//! channels are carried here as the bit patterns of their `f32` values, which is
//! exactly what the file holds.

use vstd::prelude::*;
use std::collections::HashMap;
use vstd::std_specs::iter::IteratorSpec;

verus! {

broadcast use vstd::std_specs::hash::group_hash_axioms;

/// A colour as the trailer stores it: the bits of its red, green and blue `f32` channels.
#[derive(Clone, Copy, Debug, PartialEq, Eq, Structural)]
pub struct ColorBits {
    pub r: u32,
    pub g: u32,
    pub b: u32,
}

// ==================== Byte model ====================

/// The trailer's magic, `b"CDCL"`.
pub open spec fn magic() -> Seq<u8> {
    seq![67u8, 68u8, 67u8, 76u8]
}

/// The little-endian `u32` at `at`.
pub open spec fn le32(b: Seq<u8>, at: int) -> u32 {
    (b[at] as int + b[at + 1] as int * 256 + b[at + 2] as int * 65536 + b[at + 3] as int
        * 16777216) as u32
}

/// The four little-endian bytes of `x`.
pub open spec fn le32_bytes(x: u32) -> Seq<u8> {
    seq![(x % 256) as u8, ((x / 256) % 256) as u8, ((x / 65536) % 256) as u8, (x / 16777216) as u8]
}

/// The entry count a trailer announces.
pub open spec fn trailer_count(tail: Seq<u8>) -> int {
    le32(tail, 4) as int
}

/// Whether `tail` starts with a complete trailer: the magic, a count, and that many
/// 16-byte entries (bytes after them are allowed).
pub open spec fn trailer_present(tail: Seq<u8>) -> bool {
    &&& tail.len() >= 8
    &&& tail.take(4) == magic()
    &&& 8 + 16 * trailer_count(tail) <= usize::MAX
    &&& 8 + 16 * trailer_count(tail) <= tail.len()
}

/// The `k`-th entry of a trailer: index and colour.
pub open spec fn trailer_entry(tail: Seq<u8>, k: int) -> (u32, ColorBits) {
    let at = 8 + 16 * k;
    (le32(tail, at), ColorBits { r: le32(tail, at + 4), g: le32(tail, at + 8), b: le32(tail, at + 12) })
}

/// The entries of the trailer at the start of `tail`, in file order; none when there is no trailer.
pub open spec fn trailer_entries(tail: Seq<u8>) -> Seq<(u32, ColorBits)> {
    if trailer_present(tail) {
        Seq::new(trailer_count(tail) as nat, |k: int| trailer_entry(tail, k))
    } else {
        seq![]
    }
}

/// The map that inserting `es` in order builds: a key given twice keeps its later value.
pub open spec fn map_of<K, V>(es: Seq<(K, V)>) -> Map<K, V>
    decreases es.len(),
{
    if es.len() == 0 {
        Map::empty()
    } else {
        map_of(es.drop_last()).insert(es.last().0, es.last().1)
    }
}

/// The bytes of one entry.
pub open spec fn entry_bytes(e: (u32, ColorBits)) -> Seq<u8> {
    le32_bytes(e.0) + le32_bytes(e.1.r) + le32_bytes(e.1.g) + le32_bytes(e.1.b)
}

/// The bytes of a list of entries, back to back.
pub open spec fn entries_bytes(es: Seq<(u32, ColorBits)>) -> Seq<u8>
    decreases es.len(),
{
    if es.len() == 0 {
        seq![]
    } else {
        entries_bytes(es.drop_last()) + entry_bytes(es.last())
    }
}

/// A whole trailer: magic, count and entries; nothing at all for no entry.
pub open spec fn trailer_bytes(es: Seq<(u32, ColorBits)>) -> Seq<u8> {
    if es.len() == 0 {
        seq![]
    } else {
        magic() + le32_bytes(es.len() as u32) + entries_bytes(es)
    }
}

// ==================== Decoding ====================

/// Reads the little-endian `u32` at `at`.
fn read_le32(b: &[u8], at: usize) -> (r: u32)
    requires
        at + 4 <= b@.len(),
    ensures
        r == le32(b@, at as int),
{
    b[at] as u32 + b[at + 1] as u32 * 256 + b[at + 2] as u32 * 65536 + b[at + 3] as u32 * 16777216
}

/// Decodes the trailer at `tail` (the bytes the BRep parser did not take) into a map
/// from trailer index to colour. Anything that is not a complete trailer (nothing at
/// all, a truncated tail, another tool's section) yields an empty map.
pub fn read_color_trailer(tail: &[u8]) -> (r: HashMap<u32, ColorBits>)
    ensures
        r@ == map_of(trailer_entries(tail@)),
{
    let entries = read_color_trailer_entries(tail);
    let mut map: HashMap<u32, ColorBits> = HashMap::new();
    let mut i: usize = 0;
    while i < entries.len()
        invariant
            i <= entries.len(),
            entries@ == trailer_entries(tail@),
            map@ == map_of(entries@.take(i as int)),
        decreases entries.len() - i,
    {
        let (idx, c) = entries[i];
        map.insert(idx, c);
        proof {
            assert(entries@.take(i + 1).drop_last() =~= entries@.take(i as int));
            assert(entries@.take(i + 1).last() == entries@[i as int]);
        }
        i += 1;
    }
    proof {
        assert(entries@.take(entries.len() as int) =~= entries@);
    }
    map
}

/// The entries of the trailer at `tail`, in file order; none when there is no trailer.
pub fn read_color_trailer_entries(tail: &[u8]) -> (r: Vec<(u32, ColorBits)>)
    ensures
        r@ == trailer_entries(tail@),
{
    let mut out: Vec<(u32, ColorBits)> = Vec::new();
    if tail.len() < 8 || tail[0] != 67 || tail[1] != 68 || tail[2] != 67 || tail[3] != 76 {
        proof {
            if tail@.len() >= 8 {
                assert(tail@.take(4)[0] == tail@[0]);
                assert(tail@.take(4)[1] == tail@[1]);
                assert(tail@.take(4)[2] == tail@[2]);
                assert(tail@.take(4)[3] == tail@[3]);
            }
            assert(!trailer_present(tail@));
        }
        return out;
    }
    proof {
        assert(tail@.take(4) =~= magic());
    }
    let count = read_le32(tail, 4) as usize;
    let end = match count.checked_mul(16) {
        Some(n) => n.checked_add(8),
        None => None,
    };
    let end = match end {
        Some(e) => e,
        None => {
            return out;
        },
    };
    if tail.len() < end {
        return out;
    }
    let mut k: usize = 0;
    while k < count
        invariant
            k <= count,
            count == trailer_count(tail@),
            trailer_present(tail@),
            out@ == trailer_entries(tail@).take(k as int),
        decreases count - k,
    {
        let at = 8 + 16 * k;
        let idx = read_le32(tail, at);
        let r = read_le32(tail, at + 4);
        let g = read_le32(tail, at + 8);
        let b = read_le32(tail, at + 12);
        out.push((idx, ColorBits { r, g, b }));
        proof {
            assert(trailer_entries(tail@).take(k + 1) =~= trailer_entries(tail@).take(k as int).push(
                trailer_entry(tail@, k as int),
            ));
        }
        k += 1;
    }
    proof {
        assert(trailer_entries(tail@).take(count as int) =~= trailer_entries(tail@));
    }
    out
}

// ==================== Byte lemmas ====================

/// Reading back the four bytes of `x` gives `x`.
pub proof fn lemma_le32_roundtrip(x: u32)
    ensures
        le32(le32_bytes(x), 0) == x,
{
    let b = le32_bytes(x);
    let b0 = (x % 256) as u8;
    let b1 = ((x / 256) % 256) as u8;
    let b2 = ((x / 65536) % 256) as u8;
    let b3 = (x / 16777216) as u8;
    assert(((x % 256) as u8) as u32 + (((x / 256) % 256) as u8) as u32 * 256 + (((x / 65536)
        % 256) as u8) as u32 * 65536 + ((x / 16777216) as u8) as u32 * 16777216 == x)
        by (bit_vector);
    assert(b[0] == b0 && b[1] == b1 && b[2] == b2 && b[3] == b3);
}

/// A little-endian read sees only the four bytes it starts at.
pub proof fn lemma_le32_at(b: Seq<u8>, at: int, x: u32)
    requires
        0 <= at,
        at + 4 <= b.len(),
        b.subrange(at, at + 4) == le32_bytes(x),
    ensures
        le32(b, at) == x,
{
    let w = b.subrange(at, at + 4);
    assert(w[0] == b[at]);
    assert(w[1] == b[at + 1]);
    assert(w[2] == b[at + 2]);
    assert(w[3] == b[at + 3]);
    lemma_le32_roundtrip(x);
}

/// The entries' bytes are 16 per entry, entry `k` at `16 * k`.
pub proof fn lemma_entries_bytes(es: Seq<(u32, ColorBits)>)
    ensures
        entries_bytes(es).len() == 16 * es.len(),
        forall|k: int|
            0 <= k < es.len() ==> #[trigger] entries_bytes(es).subrange(16 * k, 16 * k + 16)
                == entry_bytes(es[k]),
    decreases es.len(),
{
    if es.len() > 0 {
        let init = es.drop_last();
        lemma_entries_bytes(init);
        let a = entries_bytes(init);
        let e = entry_bytes(es.last());
        assert forall|k: int| 0 <= k < es.len() implies #[trigger] entries_bytes(es).subrange(
            16 * k,
            16 * k + 16,
        ) == entry_bytes(es[k]) by {
            if k < init.len() {
                assert(init[k] == es[k]);
                assert((a + e).subrange(16 * k, 16 * k + 16) =~= a.subrange(16 * k, 16 * k + 16));
            } else {
                assert((a + e).subrange(16 * k, 16 * k + 16) =~= e);
            }
        }
    }
}

/// The four fields of an entry read back from its sixteen bytes.
pub proof fn lemma_entry_at(t: Seq<u8>, at: int, e: (u32, ColorBits))
    requires
        0 <= at,
        at + 16 <= t.len(),
        t.subrange(at, at + 16) == entry_bytes(e),
    ensures
        le32(t, at) == e.0,
        le32(t, at + 4) == e.1.r,
        le32(t, at + 8) == e.1.g,
        le32(t, at + 12) == e.1.b,
{
    let w = t.subrange(at, at + 16);
    assert(t.subrange(at, at + 4) =~= w.subrange(0, 4));
    assert(t.subrange(at + 4, at + 8) =~= w.subrange(4, 8));
    assert(t.subrange(at + 8, at + 12) =~= w.subrange(8, 12));
    assert(t.subrange(at + 12, at + 16) =~= w.subrange(12, 16));
    assert(w.subrange(0, 4) =~= le32_bytes(e.0));
    assert(w.subrange(4, 8) =~= le32_bytes(e.1.r));
    assert(w.subrange(8, 12) =~= le32_bytes(e.1.g));
    assert(w.subrange(12, 16) =~= le32_bytes(e.1.b));
    lemma_le32_at(t, at, e.0);
    lemma_le32_at(t, at + 4, e.1.r);
    lemma_le32_at(t, at + 8, e.1.g);
    lemma_le32_at(t, at + 12, e.1.b);
}

/// Entry `k` of a written trailer sits at `8 + 16 * k`.
proof fn lemma_trailer_entry_k(es: Seq<(u32, ColorBits)>, rest: Seq<u8>, k: int)
    requires
        0 < es.len(),
        0 <= k < es.len(),
    ensures
        (trailer_bytes(es) + rest).subrange(8 + 16 * k, 8 + 16 * k + 16) == entry_bytes(es[k]),
{
    let body = entries_bytes(es);
    lemma_entries_bytes(es);
    let head = magic() + le32_bytes(es.len() as u32);
    assert(head.len() == 8);
    let t = trailer_bytes(es) + rest;
    assert(t =~= head + (body + rest));
    assert(t.subrange(8 + 16 * k, 8 + 16 * k + 16) =~= body.subrange(16 * k, 16 * k + 16));
}

/// A trailer written for non-empty entries reads back as those entries, whatever follows it.
pub proof fn lemma_trailer_roundtrip(es: Seq<(u32, ColorBits)>, rest: Seq<u8>)
    requires
        0 < es.len() <= u32::MAX,
        8 + 16 * es.len() <= usize::MAX,
    ensures
        trailer_entries(trailer_bytes(es) + rest) == es,
{
    let t = trailer_bytes(es) + rest;
    let n = es.len() as u32;
    lemma_entries_bytes(es);
    assert(t.take(4) =~= magic());
    assert(t.subrange(4, 8) =~= le32_bytes(n));
    lemma_le32_at(t, 4, n);
    assert(trailer_count(t) == es.len());
    assert(trailer_present(t));
    assert forall|k: int| 0 <= k < es.len() implies #[trigger] trailer_entry(t, k) == es[k] by {
        lemma_trailer_entry_k(es, rest, k);
        lemma_entry_at(t, 8 + 16 * k, es[k]);
    }
    assert(trailer_entries(t) =~= es);
}

// ==================== Encoding ====================

/// The trailer's index space: every solid of the shape, then every face.
pub fn trailer_ids(solid_ids: &[u64], face_ids: &[u64]) -> (r: Vec<u64>)
    ensures
        r@ == solid_ids@ + face_ids@,
{
    let mut r: Vec<u64> = Vec::new();
    let mut i: usize = 0;
    while i < solid_ids.len()
        invariant
            i <= solid_ids.len(),
            r@ == solid_ids@.take(i as int),
        decreases solid_ids.len() - i,
    {
        r.push(solid_ids[i]);
        proof {
            assert(solid_ids@.take(i + 1) =~= solid_ids@.take(i as int).push(solid_ids@[i as int]));
        }
        i += 1;
    }
    let mut k: usize = 0;
    while k < face_ids.len()
        invariant
            k <= face_ids.len(),
            r@ == solid_ids@ + face_ids@.take(k as int),
        decreases face_ids.len() - k,
    {
        r.push(face_ids[k]);
        proof {
            assert(face_ids@.take(k + 1) =~= face_ids@.take(k as int).push(face_ids@[k as int]));
        }
        k += 1;
    }
    proof {
        assert(solid_ids@.take(solid_ids@.len() as int) =~= solid_ids@);
        assert(face_ids@.take(face_ids@.len() as int) =~= face_ids@);
    }
    r
}

/// `(id, position)` for every id, in order.
pub open spec fn enumerated(ids: Seq<u64>) -> Seq<(u64, u32)> {
    Seq::new(ids.len(), |i: int| (ids[i], i as u32))
}

/// No later position holds the same id as position `i`.
pub open spec fn last_occurrence(ids: Seq<u64>, i: int) -> bool {
    forall|j: int| i < j < ids.len() ==> ids[j] != ids[i]
}

/// The entries written for the first `n` positions: a position is written when it is
/// the last to hold its id and that id has a colour.
pub open spec fn plan_upto(ids: Seq<u64>, cm: Map<u64, ColorBits>, n: nat) -> Seq<(u32, ColorBits)>
    decreases n,
{
    if n == 0 {
        seq![]
    } else {
        let i = n - 1;
        plan_upto(ids, cm, i as nat) + if last_occurrence(ids, i) && cm.contains_key(ids[i]) {
            seq![(i as u32, cm[ids[i]])]
        } else {
            seq![]
        }
    }
}

/// The entries a trailer holds for colours `cm` over the index space `ids`, by index.
pub open spec fn trailer_plan(ids: Seq<u64>, cm: Map<u64, ColorBits>) -> Seq<(u32, ColorBits)> {
    plan_upto(ids, cm, ids.len())
}

/// The id-to-position map of the first `n` ids keeps, for every id, its last position.
pub proof fn lemma_index_map(ids: Seq<u64>, n: nat)
    requires
        n <= ids.len() <= u32::MAX + 1,
    ensures
        forall|i: int|
            0 <= i < n ==> #[trigger] map_of(enumerated(ids).take(n as int)).contains_key(ids[i]),
        forall|i: int|
            0 <= i < n ==> (#[trigger] map_of(enumerated(ids).take(n as int))[ids[i]] == i as u32
                <==> last_occurrence(ids.take(n as int), i)),
    decreases n,
{
    if n > 0 {
        let e = enumerated(ids);
        let k = (n - 1) as int;
        lemma_index_map(ids, k as nat);
        assert(e.take(n as int).drop_last() =~= e.take(k));
        assert(e.take(n as int).last() == (ids[k], k as u32));
        let m = map_of(e.take(n as int));
        let m0 = map_of(e.take(k));
        assert(m == m0.insert(ids[k], k as u32));
        assert forall|i: int| 0 <= i < n implies (#[trigger] m[ids[i]] == i as u32 <==> last_occurrence(
            ids.take(n as int),
            i,
        )) by {
            if i == k {
            } else if ids[k] == ids[i] {
                assert(ids.take(n as int)[k] == ids[i]);
            } else {
                assert(m[ids[i]] == m0[ids[i]]);
                if last_occurrence(ids.take(k), i) {
                    assert forall|j: int| i < j < ids.take(n as int).len() implies ids.take(
                        n as int,
                    )[j] != ids.take(n as int)[i] by {
                        if j < k {
                            assert(ids.take(k)[j] == ids.take(n as int)[j]);
                        }
                    }
                }
                if last_occurrence(ids.take(n as int), i) {
                    assert forall|j: int| i < j < ids.take(k).len() implies ids.take(k)[j]
                        != ids.take(k)[i] by {
                        assert(ids.take(k)[j] == ids.take(n as int)[j]);
                    }
                }
            }
        }
    }
}

/// Appends the four little-endian bytes of `x`.
fn push_le32(out: &mut Vec<u8>, x: u32)
    ensures
        final(out)@ == old(out)@ + le32_bytes(x),
{
    out.push((x % 256) as u8);
    out.push(((x / 256) % 256) as u8);
    out.push(((x / 65536) % 256) as u8);
    out.push((x / 16777216) as u8);
    proof {
        assert(out@ =~= old(out)@ + le32_bytes(x));
    }
}

/// The plan's entries are ordered by strictly increasing index below `n`.
pub proof fn lemma_plan_sorted(ids: Seq<u64>, cm: Map<u64, ColorBits>, n: nat)
    requires
        n <= ids.len() <= u32::MAX + 1,
    ensures
        plan_upto(ids, cm, n).len() <= n,
        forall|a: int, b: int|
            0 <= a < b < plan_upto(ids, cm, n).len() ==> (#[trigger] plan_upto(ids, cm, n)[a]).0
                < (#[trigger] plan_upto(ids, cm, n)[b]).0,
        forall|a: int|
            0 <= a < plan_upto(ids, cm, n).len() ==> ((#[trigger] plan_upto(ids, cm, n)[a]).0 as int)
                < n,
    decreases n,
{
    if n > 0 {
        lemma_plan_sorted(ids, cm, (n - 1) as nat);
    }
}

/// The bytes of the colour trailer for colours `colormap` over the index space `ids`
/// (see `trailer_ids`): entries sorted by index, an id's index being its last position
/// in `ids`. Ids that `ids` does not hold drop out; when none is left, no byte is
/// written, so a colourless shape's file has no trailer at all.
pub fn encode_color_trailer(ids: &[u64], colormap: &HashMap<u64, ColorBits>) -> (r: Vec<u8>)
    requires
        ids@.len() <= u32::MAX,
    ensures
        r@ == trailer_bytes(trailer_plan(ids@, colormap@)),
{
    let n = ids.len();
    let ghost e = enumerated(ids@);
    let mut id_to_index: HashMap<u64, u32> = HashMap::new();
    let mut i: usize = 0;
    proof {
        assert(e.take(0) =~= Seq::<(u64, u32)>::empty());
    }
    while i < n
        invariant
            i <= n,
            n == ids@.len(),
            n <= u32::MAX,
            e == enumerated(ids@),
            id_to_index@ == map_of(e.take(i as int)),
        decreases n - i,
    {
        id_to_index.insert(ids[i], i as u32);
        proof {
            assert(e.take(i + 1).drop_last() =~= e.take(i as int));
            assert(e.take(i + 1).last() == (ids@[i as int], i as u32));
        }
        i += 1;
    }
    proof {
        assert(e.take(n as int) =~= e);
        assert(ids@.take(n as int) =~= ids@);
        lemma_index_map(ids@, n as nat);
    }
    let mut entries: Vec<(u32, ColorBits)> = Vec::new();
    let mut i: usize = 0;
    while i < n
        invariant
            i <= n,
            n == ids@.len(),
            n <= u32::MAX,
            e == enumerated(ids@),
            id_to_index@ == map_of(e),
            forall|t: int| 0 <= t < n ==> #[trigger] id_to_index@.contains_key(ids@[t]),
            forall|t: int|
                0 <= t < n ==> (#[trigger] id_to_index@[ids@[t]] == t as u32 <==> last_occurrence(
                    ids@,
                    t,
                )),
            entries@ == plan_upto(ids@, colormap@, i as nat),
        decreases n - i,
    {
        let id = ids[i];
        assert(id_to_index@.contains_key(ids@[i as int]));
        let at = id_to_index.get(&id);
        let last = match at {
            Some(k) => *k == i as u32,
            None => false,
        };
        if last {
            match colormap.get(&id) {
                Some(c) => {
                    entries.push((i as u32, *c));
                },
                None => {},
            }
        }
        proof {
            let p = plan_upto(ids@, colormap@, (i + 1) as nat);
            assert(p == plan_upto(ids@, colormap@, i as nat) + if last_occurrence(ids@, i as int)
                && colormap@.contains_key(ids@[i as int]) {
                seq![(i as u32, colormap@[ids@[i as int]])]
            } else {
                seq![]
            });
            if !(last_occurrence(ids@, i as int) && colormap@.contains_key(ids@[i as int])) {
                assert(p =~= plan_upto(ids@, colormap@, i as nat));
            }
        }
        i += 1;
    }
    let mut out: Vec<u8> = Vec::new();
    if entries.len() == 0 {
        return out;
    }
    out.push(67u8);
    out.push(68u8);
    out.push(67u8);
    out.push(76u8);
    proof {
        lemma_plan_sorted(ids@, colormap@, n as nat);
    }
    push_le32(&mut out, entries.len() as u32);
    let ghost head = out@;
    proof {
        assert(head =~= magic() + le32_bytes(entries@.len() as u32));
        assert(entries@.take(0) =~= Seq::<(u32, ColorBits)>::empty());
        assert(entries_bytes(entries@.take(0)) =~= Seq::<u8>::empty());
    }
    let mut k: usize = 0;
    while k < entries.len()
        invariant
            k <= entries.len(),
            out@ == head + entries_bytes(entries@.take(k as int)),
        decreases entries.len() - k,
    {
        let (idx, c) = entries[k];
        push_le32(&mut out, idx);
        push_le32(&mut out, c.r);
        push_le32(&mut out, c.g);
        push_le32(&mut out, c.b);
        proof {
            assert(entries@.take(k + 1).drop_last() =~= entries@.take(k as int));
            assert(entries@.take(k + 1).last() == entries@[k as int]);
            assert(out@ =~= head + entries_bytes(entries@.take(k + 1)));
        }
        k += 1;
    }
    proof {
        assert(entries@.take(entries.len() as int) =~= entries@);
    }
    out
}

// ==================== Resolving indices back to ids ====================

/// Trailer entries with their index looked up in `ids`; an index `ids` does not reach drops out.
pub open spec fn resolved(es: Seq<(u32, ColorBits)>, ids: Seq<u64>) -> Seq<(u64, ColorBits)>
    decreases es.len(),
{
    if es.len() == 0 {
        seq![]
    } else {
        resolved(es.drop_last(), ids) + if (es.last().0 as int) < ids.len() {
            seq![(ids[es.last().0 as int], es.last().1)]
        } else {
            seq![]
        }
    }
}

/// The colours the trailer at `tail` gives the shape whose index space is `ids`, keyed
/// by id. An index that `ids` has no entry for (a trailer written under an older index
/// layout, a corrupt tail) drops out rather than colouring some unrelated face.
pub fn resolve_color_trailer(tail: &[u8], ids: &[u64]) -> (r: HashMap<u64, ColorBits>)
    ensures
        r@ == map_of(resolved(trailer_entries(tail@), ids@)),
{
    let entries = read_color_trailer_entries(tail);
    let mut map: HashMap<u64, ColorBits> = HashMap::new();
    let mut i: usize = 0;
    while i < entries.len()
        invariant
            i <= entries.len(),
            map@ == map_of(resolved(entries@.take(i as int), ids@)),
        decreases entries.len() - i,
    {
        let (idx, c) = entries[i];
        let ghost prev = resolved(entries@.take(i as int), ids@);
        proof {
            assert(entries@.take(i + 1).drop_last() =~= entries@.take(i as int));
            assert(entries@.take(i + 1).last() == entries@[i as int]);
        }
        if (idx as usize) < ids.len() {
            map.insert(ids[idx as usize], c);
            proof {
                assert(resolved(entries@.take(i + 1), ids@) =~= prev.push((ids@[idx as int], c)));
                assert(prev.push((ids@[idx as int], c)).drop_last() =~= prev);
            }
        } else {
            proof {
                assert(resolved(entries@.take(i + 1), ids@) =~= prev);
            }
        }
        i += 1;
    }
    proof {
        assert(entries@.take(entries.len() as int) =~= entries@);
    }
    map
}

/// The ids of the first `n` positions that are the last to hold their id.
pub open spec fn lasts(ids: Seq<u64>, n: int) -> Set<u64> {
    Set::new(|x: u64| exists|i: int| 0 <= i < n && ids[i] == x && last_occurrence(ids, i))
}

/// Every id has a last position.
proof fn lemma_last_exists(ids: Seq<u64>, i: int)
    requires
        0 <= i < ids.len(),
    ensures
        exists|j: int| i <= j < ids.len() && ids[j] == ids[i] && last_occurrence(ids, j),
    decreases ids.len() - i,
{
    if !last_occurrence(ids, i) {
        let j = choose|j: int| i < j < ids.len() && ids[j] == ids[i];
        lemma_last_exists(ids, j);
        let k = choose|k: int| j <= k < ids.len() && ids[k] == ids[j] && last_occurrence(ids, k);
        assert(i <= k < ids.len() && ids[k] == ids[i] && last_occurrence(ids, k));
    }
}

/// The plan's entries for the first `n` positions resolve back to exactly the colours of
/// the ids whose last position is among them.
pub proof fn lemma_plan_resolves(ids: Seq<u64>, cm: Map<u64, ColorBits>, n: nat)
    requires
        n <= ids.len() <= u32::MAX,
    ensures
        map_of(resolved(plan_upto(ids, cm, n), ids)) == cm.restrict(lasts(ids, n as int)),
    decreases n,
{
    if n == 0 {
        assert(lasts(ids, 0) =~= Set::<u64>::empty());
        assert(cm.restrict(Set::<u64>::empty()) =~= Map::<u64, ColorBits>::empty());
    } else {
        let k = (n - 1) as int;
        lemma_plan_resolves(ids, cm, k as nat);
        let p0 = plan_upto(ids, cm, k as nat);
        if last_occurrence(ids, k) {
            assert(lasts(ids, n as int) =~= lasts(ids, k).insert(ids[k])) by {
                assert forall|x: u64| lasts(ids, n as int).contains(x) implies lasts(ids, k).insert(ids[k]).contains(x) by {
                    let t = choose|t: int| 0 <= t < n && ids[t] == x && last_occurrence(ids, t);
                    if t < k {
                        assert(lasts(ids, k).contains(x));
                    }
                }
                assert forall|x: u64| lasts(ids, k).insert(ids[k]).contains(x) implies lasts(ids, n as int).contains(x) by {
                    if x == ids[k] {
                        assert(0 <= k < n && ids[k] == x && last_occurrence(ids, k));
                    } else {
                        let t = choose|t: int| 0 <= t < k && ids[t] == x && last_occurrence(ids, t);
                        assert(0 <= t < n && ids[t] == x && last_occurrence(ids, t));
                    }
                }
            }
            if cm.contains_key(ids[k]) {
                let p = p0.push((k as u32, cm[ids[k]]));
                assert(plan_upto(ids, cm, n) =~= p);
                assert(p.drop_last() =~= p0);
                assert(resolved(p, ids) =~= resolved(p0, ids).push((ids[k], cm[ids[k]])));
                assert(resolved(p0, ids).push((ids[k], cm[ids[k]])).drop_last() =~= resolved(p0, ids));
                assert(map_of(resolved(p, ids)) =~= cm.restrict(lasts(ids, n as int)));
            } else {
                assert(plan_upto(ids, cm, n) =~= p0);
                assert(cm.restrict(lasts(ids, n as int)) =~= cm.restrict(lasts(ids, k)));
            }
        } else {
            assert(plan_upto(ids, cm, n) =~= p0);
            assert(lasts(ids, n as int) =~= lasts(ids, k)) by {
                assert forall|x: u64| lasts(ids, n as int).contains(x) implies lasts(ids, k).contains(x) by {
                    let t = choose|t: int| 0 <= t < n && ids[t] == x && last_occurrence(ids, t);
                    assert(t != k);
                    assert(0 <= t < k && ids[t] == x && last_occurrence(ids, t));
                }
                assert forall|x: u64| lasts(ids, k).contains(x) implies lasts(ids, n as int).contains(x) by {
                    let t = choose|t: int| 0 <= t < k && ids[t] == x && last_occurrence(ids, t);
                    assert(0 <= t < n && ids[t] == x && last_occurrence(ids, t));
                }
            }
        }
    }
}

/// Writing a trailer and reading it back against the same index space returns every
/// colour whose id the index space holds, and only those: the write-then-read law of
/// the BRep colour trailer.
pub proof fn law_color_trailer_round_trip(ids: Seq<u64>, cm: Map<u64, ColorBits>)
    requires
        ids.len() <= u32::MAX,
        8 + 16 * ids.len() <= usize::MAX,
    ensures
        map_of(resolved(trailer_entries(trailer_bytes(trailer_plan(ids, cm))), ids)) == cm.restrict(
            ids.to_set(),
        ),
{
    let plan = trailer_plan(ids, cm);
    lemma_plan_sorted(ids, cm, ids.len());
    lemma_plan_resolves(ids, cm, ids.len());
    assert(lasts(ids, ids.len() as int) =~= ids.to_set()) by {
        assert forall|x: u64| ids.to_set().contains(x) implies lasts(ids, ids.len() as int).contains(x) by {
            let i = choose|i: int| 0 <= i < ids.len() && ids[i] == x;
            lemma_last_exists(ids, i);
        }
    }
    if plan.len() == 0 {
        assert(trailer_bytes(plan) =~= Seq::<u8>::empty());
        assert(trailer_entries(Seq::<u8>::empty()) =~= Seq::<(u32, ColorBits)>::empty());
        assert(resolved(plan, ids) =~= Seq::<(u64, ColorBits)>::empty());
    } else {
        lemma_trailer_roundtrip(plan, seq![]);
        assert(trailer_bytes(plan) + Seq::<u8>::empty() =~= trailer_bytes(plan));
    }
}

// ==================== STEP colours and mesh colours ====================

/// The `(id, colour)` pairs of a STEP read: each id with the next three channels, as far
/// as both lists go.
pub open spec fn step_entries(ids: Seq<u64>, rgb: Seq<u32>) -> Seq<(u64, ColorBits)> {
    let n = if ids.len() <= rgb.len() / 3 {
        ids.len()
    } else {
        rgb.len() / 3
    };
    Seq::new(n, |k: int| (ids[k], ColorBits { r: rgb[3 * k], g: rgb[3 * k + 1], b: rgb[3 * k + 2] }))
}

/// The colour map a STEP read returns: id `ids[k]` gets channels `rgb[3k..3k+3]`, as far
/// as both lists go; an id given twice keeps its later colour.
pub fn step_colormap(ids: &Vec<u64>, rgb: &Vec<u32>) -> (r: HashMap<u64, ColorBits>)
    ensures
        r@ == map_of(step_entries(ids@, rgb@)),
{
    let ghost es = step_entries(ids@, rgb@);
    let n = if ids.len() <= rgb.len() / 3 {
        ids.len()
    } else {
        rgb.len() / 3
    };
    let mut map: HashMap<u64, ColorBits> = HashMap::new();
    let mut k: usize = 0;
    let m = rgb.len();
    proof {
        assert(es.take(0) =~= Seq::<(u64, ColorBits)>::empty());
    }
    while k < n
        invariant
            m == rgb@.len(),
            n == es.len(),
            es == step_entries(ids@, rgb@),
            3 * n <= rgb@.len(),
            n <= ids@.len(),
            k <= n,
            map@ == map_of(es.take(k as int)),
        decreases n - k,
    {
        let c = ColorBits { r: rgb[3 * k], g: rgb[3 * k + 1], b: rgb[3 * k + 2] };
        map.insert(ids[k], c);
        proof {
            assert(es.take(k + 1).drop_last() =~= es.take(k as int));
            assert(es.take(k + 1).last() == es[k as int]);
        }
        k += 1;
    }
    proof {
        assert(es.take(n as int) =~= es);
    }
    map
}

/// `ids` and `rgb` are the parallel lists a STEP write hands over for `cm`: every
/// coloured id once, in some order, each followed in `rgb` by its three channels.
pub open spec fn step_lists_of(ids: Seq<u64>, rgb: Seq<u32>, cm: Map<u64, ColorBits>) -> bool {
    &&& rgb.len() == 3 * ids.len()
    &&& ids.no_duplicates()
    &&& ids.to_set() == cm.dom()
    &&& forall|k: int|
        0 <= k < ids.len() ==> cm[#[trigger] ids[k]] == ColorBits {
            r: rgb[3 * k],
            g: rgb[3 * k + 1],
            b: rgb[3 * k + 2],
        }
}

/// The colour lists a STEP write hands over: every entry of `colormap` once, in the map's
/// own order, the channels of each id three at a time in `rgb`.
pub fn step_color_lists(colormap: &HashMap<u64, ColorBits>) -> (r: (Vec<u64>, Vec<u32>))
    ensures
        step_lists_of(r.0@, r.1@, colormap@),
{
    let ghost v = vstd::std_specs::hash::spec_hash_map_iter(colormap).remaining();
    let mut ids: Vec<u64> = Vec::new();
    let mut rgb: Vec<u32> = Vec::new();
    for (id, c) in it: colormap.iter()
        invariant
            it.seq() == v,
            v == vstd::std_specs::hash::spec_hash_map_iter(colormap).remaining(),
            ids@.len() == it.index(),
            rgb@.len() == 3 * ids@.len(),
            forall|k: int| 0 <= k < ids@.len() ==> #[trigger] ids@[k] == *v[k].0,
            forall|k: int|
                0 <= k < ids@.len() ==> #[trigger] v[k].1 == (ColorBits {
                    r: rgb@[3 * k],
                    g: rgb@[3 * k + 1],
                    b: rgb@[3 * k + 2],
                }),
    {
        let ghost k0 = ids@.len() as int;
        let ghost i0 = ids@;
        let ghost g0 = rgb@;
        ids.push(*id);
        rgb.push(c.r);
        rgb.push(c.g);
        rgb.push(c.b);
        assert forall|k: int| 0 <= k < ids@.len() implies #[trigger] ids@[k] == *v[k].0 && *v[k].1 == (
        ColorBits { r: rgb@[3 * k], g: rgb@[3 * k + 1], b: rgb@[3 * k + 2] }) by {
            if k < k0 {
                assert(ids@[k] == i0[k]);
                assert(rgb@[3 * k] == g0[3 * k] && rgb@[3 * k + 1] == g0[3 * k + 1] && rgb@[3 * k + 2]
                    == g0[3 * k + 2]);
            }
        }
    }
    proof {
        let m = colormap@;
        assert(ids@.len() == v.len());
        assert(ids@.no_duplicates()) by {
            assert forall|a: int, b: int| 0 <= a < ids@.len() && 0 <= b < ids@.len() && a != b implies ids@[a] != ids@[b] by {
                if ids@[a] == ids@[b] {
                    assert(m.contains_key(*v[a].0) && m[*v[a].0] == *v[a].1);
                    assert(m.contains_key(*v[b].0) && m[*v[b].0] == *v[b].1);
                    assert(v[a] == v[b]);
                }
            }
        }
        assert(ids@.to_set() =~= m.dom()) by {
            assert forall|x: u64| ids@.to_set().contains(x) implies m.dom().contains(x) by {
                let a = choose|a: int| 0 <= a < ids@.len() && ids@[a] == x;
                assert(m.contains_key(*v[a].0));
            }
            assert forall|x: u64| m.dom().contains(x) implies ids@.to_set().contains(x) by {
                assert(m.contains_key(x));
                assert(v.contains((&x, &m[x])));
                let a = choose|a: int| 0 <= a < v.len() && v[a] == (&x, &m[x]);
                assert(ids@[a] == x);
            }
        }
    }
    (ids, rgb)
}

/// With no key given twice, the map that `es` builds has exactly the keys of `es`, each
/// with its own value.
pub proof fn lemma_map_of_distinct(es: Seq<(u64, ColorBits)>)
    requires
        forall|a: int, b: int| 0 <= a < b < es.len() ==> (#[trigger] es[a]).0 != (#[trigger] es[b]).0,
    ensures
        forall|k: int| 0 <= k < es.len() ==> #[trigger] map_of(es).contains_key(es[k].0) && map_of(es)[es[k].0] == es[k].1,
        forall|x: u64| #[trigger] map_of(es).contains_key(x) ==> exists|k: int| 0 <= k < es.len() && es[k].0 == x,
    decreases es.len(),
{
    if es.len() > 0 {
        let init = es.drop_last();
        assert forall|a: int, b: int| 0 <= a < b < init.len() implies (#[trigger] init[a]).0 != (#[trigger] init[b]).0 by {
            assert(init[a] == es[a] && init[b] == es[b]);
        }
        lemma_map_of_distinct(init);
        let n = es.len() - 1;
        assert(map_of(es) == map_of(init).insert(es[n].0, es[n].1));
        assert forall|k: int| 0 <= k < es.len() implies #[trigger] map_of(es).contains_key(es[k].0) && map_of(es)[es[k].0] == es[k].1 by {
            if k < n {
                assert(init[k] == es[k]);
                assert(es[k].0 != es[n].0);
            }
        }
        assert forall|x: u64| #[trigger] map_of(es).contains_key(x) implies exists|k: int| 0 <= k < es.len() && es[k].0 == x by {
            if x != es[n].0 {
                assert(map_of(init).contains_key(x));
                let k = choose|k: int| 0 <= k < init.len() && init[k].0 == x;
                assert(es[k].0 == x);
            }
        }
    }
}

/// Writing a colour map to STEP as `step_color_lists` lays it out, and reading the lists
/// back as `step_colormap` does, gives the same map: the write-then-read law of STEP
/// colours, for a backend that hands the lists through unchanged.
pub proof fn law_step_color_round_trip(ids: Seq<u64>, rgb: Seq<u32>, cm: Map<u64, ColorBits>)
    requires
        step_lists_of(ids, rgb, cm),
    ensures
        map_of(step_entries(ids, rgb)) == cm,
{
    let es = step_entries(ids, rgb);
    assert(es.len() == ids.len());
    assert forall|a: int, b: int| 0 <= a < b < es.len() implies (#[trigger] es[a]).0 != (#[trigger] es[b]).0 by {
        assert(es[a].0 == ids[a] && es[b].0 == ids[b]);
    }
    lemma_map_of_distinct(es);
    let m = map_of(es);
    assert forall|x: u64| m.contains_key(x) <==> cm.contains_key(x) by {
        if m.contains_key(x) {
            let k = choose|k: int| 0 <= k < es.len() && es[k].0 == x;
            assert(ids[k] == x);
            assert(ids.to_set().contains(x));
        }
        if cm.contains_key(x) {
            assert(ids.to_set().contains(x));
            let k = choose|k: int| 0 <= k < ids.len() && ids[k] == x;
            assert(es[k].0 == x);
            assert(m.contains_key(es[k].0));
        }
    }
    assert forall|x: u64| m.contains_key(x) implies m[x] == cm[x] by {
        let k = choose|k: int| 0 <= k < es.len() && es[k].0 == x;
        assert(m.contains_key(es[k].0) && m[es[k].0] == es[k].1);
        assert(cm[ids[k]] == es[k].1);
    }
    assert(m =~= cm);
}

/// What the mesh needs of one solid's colours: its id, its faces, and its colour map as
/// `(id, colour)` entries (solid-level under the solid's id, face-level under face ids).
pub struct SolidColors {
    pub id: u64,
    pub faces: Vec<u64>,
    pub colors: Vec<(u64, ColorBits)>,
}

/// Every face of `faces` in colour `c`.
pub open spec fn fill(faces: Seq<u64>, c: ColorBits) -> Map<u64, ColorBits> {
    Map::new(|f: u64| faces.contains(f), |f: u64| c)
}

/// The face colours after one more solid: its solid-level colour, if any, spread over its
/// faces, then its own entries over that (face colours are the more specific style).
pub open spec fn after_solid(m: Map<u64, ColorBits>, s: SolidColors) -> Map<u64, ColorBits> {
    let cm = map_of(s.colors@);
    let spread = if cm.contains_key(s.id) {
        m.union_prefer_right(fill(s.faces@, cm[s.id]))
    } else {
        m
    };
    spread.union_prefer_right(cm)
}

/// The face colours of the solids, taken in order.
pub open spec fn painted(solids: Seq<SolidColors>) -> Map<u64, ColorBits>
    decreases solids.len(),
{
    if solids.len() == 0 {
        Map::empty()
    } else {
        after_solid(painted(solids.drop_last()), solids.last())
    }
}

/// Copies every entry of `src` into `map`, in order, replacing what was there.
fn overlay(map: &mut HashMap<u64, ColorBits>, src: &Vec<(u64, ColorBits)>)
    ensures
        final(map)@ == old(map)@.union_prefer_right(map_of(src@)),
{
    let ghost m0 = map@;
    let mut i: usize = 0;
    proof {
        assert(src@.take(0) =~= Seq::<(u64, ColorBits)>::empty());
        assert(m0.union_prefer_right(map_of(src@.take(0))) =~= m0);
    }
    while i < src.len()
        invariant
            i <= src@.len(),
            map@ == m0.union_prefer_right(map_of(src@.take(i as int))),
        decreases src@.len() - i,
    {
        let (k, v) = src[i];
        let ghost before = map_of(src@.take(i as int));
        map.insert(k, v);
        proof {
            assert(src@.take(i + 1).drop_last() =~= src@.take(i as int));
            assert(src@.take(i + 1).last() == src@[i as int]);
            assert(map_of(src@.take(i + 1)) == before.insert(k, v));
            assert(map@ =~= m0.union_prefer_right(before.insert(k, v)));
        }
        i += 1;
    }
    proof {
        assert(src@.take(i as int) =~= src@);
    }
}

/// The colour of every meshed face: each solid's colour spread over its faces, its face
/// colours over that, solid after solid, kept for the faces in `face_ids` (those the mesh
/// holds).
pub fn mesh_face_colors(solids: &Vec<SolidColors>, face_ids: &Vec<u64>) -> (r: HashMap<u64, ColorBits>)
    ensures
        r@ == painted(solids@).restrict(face_ids@.to_set()),
{
    let mut map: HashMap<u64, ColorBits> = HashMap::new();
    let mut i: usize = 0;
    proof {
        assert(solids@.take(0) =~= Seq::<SolidColors>::empty());
        assert(map@ =~= painted(solids@.take(0)));
    }
    while i < solids.len()
        invariant
            i <= solids@.len(),
            map@ == painted(solids@.take(i as int)),
        decreases solids@.len() - i,
    {
        let s = &solids[i];
        let ghost before = map@;
        let mut own: HashMap<u64, ColorBits> = HashMap::new();
        overlay(&mut own, &s.colors);
        proof {
            assert(own@ =~= map_of(s.colors@));
        }
        match own.get(&s.id) {
            Some(c) => {
                let c = *c;
                let mut j: usize = 0;
                proof {
                    assert(s.faces@.take(0) =~= Seq::<u64>::empty());
                    assert(map@ =~= before.union_prefer_right(fill(s.faces@.take(0), c)));
                }
                while j < s.faces.len()
                    invariant
                        j <= s.faces@.len(),
                        map@ == before.union_prefer_right(fill(s.faces@.take(j as int), c)),
                    decreases s.faces@.len() - j,
                {
                    map.insert(s.faces[j], c);
                    proof {
                        let f = s.faces@[j as int];
                        assert(s.faces@.take(j + 1) =~= s.faces@.take(j as int).push(f));
                        assert(fill(s.faces@.take(j + 1), c) =~= fill(s.faces@.take(j as int), c).insert(f, c)) by {
                            let a = s.faces@.take(j + 1);
                            let b = s.faces@.take(j as int);
                            assert forall|x: u64| a.contains(x) == (b.contains(x) || x == f) by {
                                if a.contains(x) {
                                    let t = choose|t: int| 0 <= t < a.len() && a[t] == x;
                                    if t < j {
                                        assert(b[t] == x);
                                    }
                                }
                                if b.contains(x) {
                                    let t = choose|t: int| 0 <= t < b.len() && b[t] == x;
                                    assert(a[t] == x);
                                }
                                if x == f {
                                    assert(a[j as int] == x);
                                }
                            }
                        }
                        assert(map@ =~= before.union_prefer_right(fill(s.faces@.take(j + 1), c)));
                    }
                    j += 1;
                }
                proof {
                    assert(s.faces@.take(j as int) =~= s.faces@);
                }
            },
            None => {},
        }
        overlay(&mut map, &s.colors);
        proof {
            assert(solids@.take(i + 1).drop_last() =~= solids@.take(i as int));
            assert(solids@.take(i + 1).last() == solids@[i as int]);
            assert(map@ =~= after_solid(before, solids@[i as int]));
        }
        i += 1;
    }
    proof {
        assert(solids@.take(i as int) =~= solids@);
    }
    let mut out: HashMap<u64, ColorBits> = HashMap::new();
    let mut k: usize = 0;
    let ghost full = map@;
    while k < face_ids.len()
        invariant
            k <= face_ids@.len(),
            map@ == full,
            out@ == full.restrict(face_ids@.take(k as int).to_set()),
        decreases face_ids@.len() - k,
    {
        let fid = face_ids[k];
        let ghost before = out@;
        match map.get(&fid) {
            Some(c) => {
                out.insert(fid, *c);
            },
            None => {},
        }
        proof {
            assert(face_ids@.take(k + 1).to_set() =~= face_ids@.take(k as int).to_set().insert(fid)) by {
                assert(face_ids@.take(k + 1) =~= face_ids@.take(k as int).push(fid));
                assert forall|x: u64| face_ids@.take(k + 1).to_set().contains(x) == face_ids@.take(k as int).to_set().insert(fid).contains(x) by {
                    let a = face_ids@.take(k + 1);
                    let b = face_ids@.take(k as int);
                    if a.contains(x) {
                        let t = choose|t: int| 0 <= t < a.len() && a[t] == x;
                        if t < k {
                            assert(b[t] == x);
                        }
                    }
                    if b.contains(x) {
                        let t = choose|t: int| 0 <= t < b.len() && b[t] == x;
                        assert(a[t] == x);
                    }
                    if x == fid {
                        assert(a[k as int] == x);
                    }
                }
            }
            assert(out@ =~= full.restrict(face_ids@.take(k + 1).to_set()));
        }
        k += 1;
    }
    proof {
        assert(face_ids@.take(k as int) =~= face_ids@);
    }
    out
}

} // verus!
