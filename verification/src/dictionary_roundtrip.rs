//! How writing a jisyo back from a dictionary gives back the entries it was made of.
use vstd::prelude::*;
use crate::bytes::{lemma_find_from, spec_contains_byte, spec_find_from};
use crate::dictionary_creator::{temp_entry, LF, SPACE};
use crate::dictionary_lookup::{
    cut_run, entries_block, entries_readable, entry_pos, lemma_block_facts, lemma_block_run, lemma_entry_lines_prefix,
    lemma_readable_run, lemma_unit_byte,
};
use crate::dictionary_creator::{cut_info, cut_infos, UnitCut};
use crate::jisyo_creator::{units_into_maps, vectors_into_maps, OkuriMaps};
use crate::on_memory::{empty_model, model_apply_all, spec_ascii_hiragana_index, InfoView};
use crate::dictionary_creator::{spec_block_units, spec_max_entry_from};
use crate::dictionary_lookup::{
    entry_pairs, index_place, key_entries, key_indices, lemma_aligned_block_prefix, lemma_build_parts, lemma_key_entries,
    lemma_key_indices, lemma_temporary_blocks, lemma_walk_entries, places_distinct,
};
use crate::byte_map::ByteMap;
use crate::encoding_simple::euc::pack_bytes;
use crate::jisyo_creator::{index_vectors, spec_jisyo_text};
use crate::on_memory::OnMemory;
use crate::outside::fx_u64_table_contents;
use crate::dictionary::header_stored_in;
use crate::dictionary_creator::{creates, is_dictionary_of};
use crate::dictionary_format::{lemma_dictionary_blocks, lemma_setup_after_create, records_fit_blocks};
use crate::dictionary_reader::encoding_of;
use crate::encoding::encoding_number;
use crate::encoding_simple::encoding_table::{combine_unit_ok, le_u32, spec_table_model, table_combine_length, table_well_sized};
use crate::jisyo_creator::{creates_jisyo, jisyo_of_index};
use crate::jisyo_reader::entries_of_jisyos;
use crate::dictionary::spec_midashi_key;
use crate::dictionary_creator::{aligned_block_after, build_all, spec_temporary_block_map};
use crate::dictionary_reader::spec_is_okuri_ari;
use crate::encoding::Encoding;
use crate::encoding_simple::EncodingTable;
use crate::error::SkkError;
use crate::jisyo_creator::{converted_candidates, converted_midashi, okuri_maps_after, unit_entries_from};

verus! {

/// Reading the entries of a block made of readable entry lines from the LF before entry `k`
/// gives the entries from `k` on.
pub proof fn lemma_unit_entries_block(r: Seq<(Seq<u8>, Seq<u8>)>, k: int)
    requires
        entries_readable(r),
        0 <= k <= r.len(),
    ensures
        unit_entries_from(entries_block(r), entry_pos(r, k)) == Some(r.subrange(k, r.len() as int)),
    decreases r.len() - k,
{
    let b = entries_block(r);
    let n = r.len() as int;
    let p = entry_pos(r, k);
    lemma_block_facts(r, k);
    lemma_block_facts(r, n);
    if k == n {
        lemma_find_from(b, p, SPACE);
        assert(spec_find_from(b, p, SPACE) is None);
        assert(r.subrange(n, n) =~= Seq::<(Seq<u8>, Seq<u8>)>::empty());
    } else {
        let m = r[k].0;
        let c = r[k].1;
        let te = temp_entry(m, c);
        let s = p + 1 + m.len();
        lemma_entry_lines_prefix(r, k);
        let e = entry_pos(r, k + 1);
        lemma_block_facts(r, k + 1);
        assert(e == p + te.len());
        assert(!spec_contains_byte(c, LF));
        assert forall|x: int| s <= x < e implies b[x] != LF by {
            lemma_unit_byte(r, k, x - p - 1);
            let y = x - p - 1;
            if y == m.len() {
                assert(te[y] == SPACE);
            } else {
                assert(te[y] == c[y - m.len() - 1]);
            }
        }
        lemma_find_from(b, s, LF);
        assert(spec_find_from(b, s, LF) == Some(e));
        assert(b.subrange(p + 1, s) =~= m) by {
            assert forall|x: int| 0 <= x < m.len() implies b.subrange(p + 1, s)[x] == m[x] by {
                lemma_unit_byte(r, k, x);
            }
        }
        assert(b.subrange(s + 1, e) =~= c) by {
            assert forall|x: int| 0 <= x < c.len() implies b.subrange(s + 1, e)[x] == c[x] by {
                lemma_unit_byte(r, k, m.len() + 1 + x);
                assert(te[m.len() + 1 + x] == c[x]);
            }
        }
        lemma_unit_entries_block(r, k + 1);
        assert(seq![(m, c)] + r.subrange(k + 1, n) =~= r.subrange(k, n));
    }
}

/// Adding entries to the okuri maps in two runs is adding them all.
pub proof fn lemma_maps_after_concat(
    t: EncodingTable,
    a: Map<Seq<u8>, Seq<u8>>,
    n: Map<Seq<u8>, Seq<u8>>,
    p: Seq<(Seq<u8>, Seq<u8>)>,
    q: Seq<(Seq<u8>, Seq<u8>)>,
    out: Encoding,
    dict: Encoding,
)
    ensures
        okuri_maps_after(t, a, n, p + q, out, dict) == ({
            let (a1, n1) = okuri_maps_after(t, a, n, p, out, dict);
            okuri_maps_after(t, a1, n1, q, out, dict)
        }),
    decreases q.len(),
{
    if q.len() == 0 {
        assert(p + q =~= p);
    } else {
        lemma_maps_after_concat(t, a, n, p, q.drop_last(), out, dict);
        assert((p + q).drop_last() =~= p + q.drop_last());
        assert((p + q).last() == q.last());
    }
}

/// Which okuri map an entry goes to, and under which midashi.
pub open spec fn entry_place(t: EncodingTable, e: (Seq<u8>, Seq<u8>), out: Encoding) -> (bool, Seq<u8>) {
    (spec_is_okuri_ari(e.0), converted_midashi(t, e.0, out))
}

/// Whether entries that go to the same place of the okuri maps carry the same candidates.
pub open spec fn places_agree(t: EncodingTable, p: Seq<(Seq<u8>, Seq<u8>)>, out: Encoding, dict: Encoding) -> bool {
    forall|i: int, j: int| 0 <= i < p.len() && 0 <= j < p.len()
        && #[trigger] entry_place(t, p[i], out) == #[trigger] entry_place(t, p[j], out)
        ==> converted_candidates(t, p[i].1, out, dict) == converted_candidates(t, p[j].1, out, dict)
}

/// The okuri maps of entries whose places agree, from empty maps: each map holds exactly the
/// midashi of its entries, each with its entry's candidates.
pub proof fn lemma_maps_pointwise(t: EncodingTable, p: Seq<(Seq<u8>, Seq<u8>)>, out: Encoding, dict: Encoding)
    requires
        places_agree(t, p, out, dict),
    ensures
        ({
            let (a, nn) = okuri_maps_after(t, Map::empty(), Map::empty(), p, out, dict);
            &&& forall|k: Seq<u8>| #[trigger] a.contains_key(k) ==> exists|i: int| 0 <= i < p.len()
                && #[trigger] entry_place(t, p[i], out) == (true, k)
            &&& forall|k: Seq<u8>| #[trigger] nn.contains_key(k) ==> exists|i: int| 0 <= i < p.len()
                && #[trigger] entry_place(t, p[i], out) == (false, k)
            &&& forall|i: int| 0 <= i < p.len() ==> {
                let (ari, m) = #[trigger] entry_place(t, p[i], out);
                if ari {
                    a.contains_key(m) && a[m] == converted_candidates(t, p[i].1, out, dict)
                } else {
                    nn.contains_key(m) && nn[m] == converted_candidates(t, p[i].1, out, dict)
                }
            }
        }),
    decreases p.len(),
{
    if p.len() > 0 {
        let d = p.drop_last();
        assert forall|i: int, j: int| 0 <= i < d.len() && 0 <= j < d.len()
            && #[trigger] entry_place(t, d[i], out) == #[trigger] entry_place(t, d[j], out)
            implies converted_candidates(t, d[i].1, out, dict) == converted_candidates(t, d[j].1, out, dict) by {
            assert(d[i] == p[i] && d[j] == p[j]);
        }
        lemma_maps_pointwise(t, d, out, dict);
        let (a0, n0) = okuri_maps_after(t, Map::empty(), Map::empty(), d, out, dict);
        let (a, nn) = okuri_maps_after(t, Map::empty(), Map::empty(), p, out, dict);
        let l = p.len() - 1;
        let (la, lm) = entry_place(t, p[l], out);
        let lc = converted_candidates(t, p[l].1, out, dict);
        assert(p.last() == p[l]);
        assert forall|k: Seq<u8>| #[trigger] a.contains_key(k) implies exists|i: int| 0 <= i < p.len()
            && #[trigger] entry_place(t, p[i], out) == (true, k) by {
            if la && k == lm {
                assert(entry_place(t, p[l], out) == (true, k));
            } else {
                assert(a0.contains_key(k));
                let i = choose|i: int| 0 <= i < d.len() && #[trigger] entry_place(t, d[i], out) == (true, k);
                assert(d[i] == p[i]);
                assert(entry_place(t, p[i], out) == (true, k));
            }
        }
        assert forall|k: Seq<u8>| #[trigger] nn.contains_key(k) implies exists|i: int| 0 <= i < p.len()
            && #[trigger] entry_place(t, p[i], out) == (false, k) by {
            if !la && k == lm {
                assert(entry_place(t, p[l], out) == (false, k));
            } else {
                assert(n0.contains_key(k));
                let i = choose|i: int| 0 <= i < d.len() && #[trigger] entry_place(t, d[i], out) == (false, k);
                assert(d[i] == p[i]);
                assert(entry_place(t, p[i], out) == (false, k));
            }
        }
        assert forall|i: int| 0 <= i < p.len() implies {
            let (ari, m) = #[trigger] entry_place(t, p[i], out);
            if ari {
                a.contains_key(m) && a[m] == converted_candidates(t, p[i].1, out, dict)
            } else {
                nn.contains_key(m) && nn[m] == converted_candidates(t, p[i].1, out, dict)
            }
        } by {
            if i < l {
                assert(d[i] == p[i]);
                let _ = entry_place(t, d[i], out);
                if entry_place(t, p[i], out) == entry_place(t, p[l], out) {
                    assert(converted_candidates(t, p[i].1, out, dict) == lc);
                }
            }
        }
    }
}

/// Entries with the same elements, whose places agree, give the same okuri maps from empty
/// maps, whatever their order and however often an entry occurs.
pub proof fn lemma_maps_same_entries(
    t: EncodingTable,
    p: Seq<(Seq<u8>, Seq<u8>)>,
    q: Seq<(Seq<u8>, Seq<u8>)>,
    out: Encoding,
    dict: Encoding,
)
    requires
        forall|x: (Seq<u8>, Seq<u8>)| p.contains(x) <==> q.contains(x),
        places_agree(t, p, out, dict),
    ensures
        places_agree(t, q, out, dict),
        okuri_maps_after(t, Map::empty(), Map::empty(), p, out, dict)
            == okuri_maps_after(t, Map::empty(), Map::empty(), q, out, dict),
{
    assert forall|i: int, j: int| 0 <= i < q.len() && 0 <= j < q.len()
        && #[trigger] entry_place(t, q[i], out) == #[trigger] entry_place(t, q[j], out)
        implies converted_candidates(t, q[i].1, out, dict) == converted_candidates(t, q[j].1, out, dict) by {
        assert(q.contains(q[i]));
        assert(q.contains(q[j]));
        let i2 = choose|x: int| 0 <= x < p.len() && p[x] == q[i];
        let j2 = choose|x: int| 0 <= x < p.len() && p[x] == q[j];
        assert(entry_place(t, p[i2], out) == entry_place(t, p[j2], out));
    }
    lemma_maps_pointwise(t, p, out, dict);
    lemma_maps_pointwise(t, q, out, dict);
    let (ap, np) = okuri_maps_after(t, Map::empty(), Map::empty(), p, out, dict);
    let (aq, nq) = okuri_maps_after(t, Map::empty(), Map::empty(), q, out, dict);
    assert forall|k: Seq<u8>| ap.contains_key(k) <==> aq.contains_key(k) by {
        if ap.contains_key(k) {
            let i = choose|i: int| 0 <= i < p.len() && #[trigger] entry_place(t, p[i], out) == (true, k);
            assert(p.contains(p[i]));
            let j = choose|x: int| 0 <= x < q.len() && q[x] == p[i];
            assert(entry_place(t, q[j], out) == (true, k));
        }
        if aq.contains_key(k) {
            let i = choose|i: int| 0 <= i < q.len() && #[trigger] entry_place(t, q[i], out) == (true, k);
            assert(q.contains(q[i]));
            let j = choose|x: int| 0 <= x < p.len() && p[x] == q[i];
            assert(entry_place(t, p[j], out) == (true, k));
        }
    }
    assert forall|k: Seq<u8>| ap.contains_key(k) implies ap[k] == aq[k] by {
        let i = choose|i: int| 0 <= i < p.len() && #[trigger] entry_place(t, p[i], out) == (true, k);
        assert(p.contains(p[i]));
        let j = choose|x: int| 0 <= x < q.len() && q[x] == p[i];
        assert(entry_place(t, q[j], out) == (true, k));
    }
    assert forall|k: Seq<u8>| np.contains_key(k) <==> nq.contains_key(k) by {
        if np.contains_key(k) {
            let i = choose|i: int| 0 <= i < p.len() && #[trigger] entry_place(t, p[i], out) == (false, k);
            assert(p.contains(p[i]));
            let j = choose|x: int| 0 <= x < q.len() && q[x] == p[i];
            assert(entry_place(t, q[j], out) == (false, k));
        }
        if nq.contains_key(k) {
            let i = choose|i: int| 0 <= i < q.len() && #[trigger] entry_place(t, q[i], out) == (false, k);
            assert(q.contains(q[i]));
            let j = choose|x: int| 0 <= x < p.len() && p[x] == q[i];
            assert(entry_place(t, p[j], out) == (false, k));
        }
    }
    assert forall|k: Seq<u8>| np.contains_key(k) implies np[k] == nq[k] by {
        let i = choose|i: int| 0 <= i < p.len() && #[trigger] entry_place(t, p[i], out) == (false, k);
        assert(p.contains(p[i]));
        let j = choose|x: int| 0 <= x < q.len() && q[x] == p[i];
        assert(entry_place(t, q[j], out) == (false, k));
    }
    assert(ap =~= aq);
    assert(np =~= nq);
}


/// A run of the entries `x` up to `z` holds `y` where `y` lies in the run.
proof fn lemma_run_contains(es: Seq<(Seq<u8>, Seq<u8>)>, a: int, b: int, c: int, x: (Seq<u8>, Seq<u8>))
    requires
        0 <= a <= b <= c <= es.len(),
    ensures
        es.subrange(a, c).contains(x) <==> (es.subrange(a, b).contains(x) || es.subrange(b, c).contains(x)),
{
    if es.subrange(a, c).contains(x) {
        let i = choose|i: int| 0 <= i < c - a && es.subrange(a, c)[i] == x;
        if a + i < b {
            assert(es.subrange(a, b)[i] == x);
        } else {
            assert(es.subrange(b, c)[a + i - b] == x);
        }
    }
    if es.subrange(a, b).contains(x) {
        let i = choose|i: int| 0 <= i < b - a && es.subrange(a, b)[i] == x;
        assert(es.subrange(a, c)[i] == x);
    }
    if es.subrange(b, c).contains(x) {
        let i = choose|i: int| 0 <= i < c - b && es.subrange(b, c)[i] == x;
        assert(es.subrange(a, c)[b - a + i] == x);
    }
}

/// Two runs of entries laid end to end hold what either holds.
proof fn lemma_concat_contains(p: Seq<(Seq<u8>, Seq<u8>)>, q: Seq<(Seq<u8>, Seq<u8>)>, x: (Seq<u8>, Seq<u8>))
    ensures
        (p + q).contains(x) <==> (p.contains(x) || q.contains(x)),
{
    if (p + q).contains(x) {
        let i = choose|i: int| 0 <= i < (p + q).len() && (p + q)[i] == x;
        if i < p.len() {
            assert(p[i] == x);
        } else {
            assert(q[i - p.len()] == x);
        }
    }
    if p.contains(x) {
        let i = choose|i: int| 0 <= i < p.len() && p[i] == x;
        assert((p + q)[i] == x);
    }
    if q.contains(x) {
        let i = choose|i: int| 0 <= i < q.len() && q[i] == x;
        assert((p + q)[p.len() + i] == x);
    }
}

/// The entries of the unit `u` of the dictionary `d`, its blocks at `bo`: none where the unit
/// lies outside the dictionary or cannot be read.
pub open spec fn unit_read(d: Seq<u8>, bo: int, u: InfoView) -> Option<Seq<(Seq<u8>, Seq<u8>)>> {
    let start = bo + u.1;
    let end = start + u.2;
    if end > d.len() {
        None
    } else {
        unit_entries_from(d.subrange(start, end), 0)
    }
}

/// The entries of the first `n` units of `us`, in order; none where one cannot be read.
pub open spec fn units_read(d: Seq<u8>, bo: int, us: Seq<InfoView>, n: nat) -> Option<Seq<(Seq<u8>, Seq<u8>)>>
    decreases n,
{
    if n == 0 {
        Some(Seq::empty())
    } else {
        match units_read(d, bo, us, (n - 1) as nat) {
            None => None,
            Some(p) => match unit_read(d, bo, us[n - 1]) {
                None => None,
                Some(r) => Some(p + r),
            },
        }
    }
}

/// The entries of the units of the first `n` unit vectors of `vs`, in order.
pub open spec fn vectors_read(d: Seq<u8>, bo: int, vs: Seq<Seq<InfoView>>, n: nat) -> Option<Seq<(Seq<u8>, Seq<u8>)>>
    decreases n,
{
    if n == 0 {
        Some(Seq::empty())
    } else {
        match vectors_read(d, bo, vs, (n - 1) as nat) {
            None => None,
            Some(p) => match units_read(d, bo, vs[n - 1], vs[n - 1].len()) {
                None => None,
                Some(r) => Some(p + r),
            },
        }
    }
}

/// Where the units can be read, adding them to the okuri maps is adding their entries.
pub proof fn lemma_units_read_maps(t: EncodingTable, d: Seq<u8>, bo: int, us: Seq<InfoView>, n: nat, maps: OkuriMaps, out: Encoding, dict: Encoding)
    requires
        units_read(d, bo, us, n) is Some,
    ensures
        units_into_maps(t, d, bo, us, n, maps, out, dict)
            == Ok::<OkuriMaps, SkkError>(okuri_maps_after(t, maps.0, maps.1, units_read(d, bo, us, n).unwrap(), out, dict)),
    decreases n,
{
    if n == 0 {
        assert(okuri_maps_after(t, maps.0, maps.1, Seq::empty(), out, dict) == (maps.0, maps.1));
    } else {
        lemma_units_read_maps(t, d, bo, us, (n - 1) as nat, maps, out, dict);
        let p = units_read(d, bo, us, (n - 1) as nat).unwrap();
        let r = unit_read(d, bo, us[n - 1]).unwrap();
        lemma_maps_after_concat(t, maps.0, maps.1, p, r, out, dict);
    }
}

/// Where the unit vectors can be read, adding them to the okuri maps is adding their entries.
pub proof fn lemma_vectors_read_maps(t: EncodingTable, d: Seq<u8>, bo: int, vs: Seq<Seq<InfoView>>, n: nat, maps: OkuriMaps, out: Encoding, dict: Encoding)
    requires
        vectors_read(d, bo, vs, n) is Some,
    ensures
        vectors_into_maps(t, d, bo, vs, n, maps, out, dict)
            == Ok::<OkuriMaps, SkkError>(okuri_maps_after(t, maps.0, maps.1, vectors_read(d, bo, vs, n).unwrap(), out, dict)),
    decreases n,
{
    if n == 0 {
        assert(okuri_maps_after(t, maps.0, maps.1, Seq::empty(), out, dict) == (maps.0, maps.1));
    } else {
        lemma_vectors_read_maps(t, d, bo, vs, (n - 1) as nat, maps, out, dict);
        let p = vectors_read(d, bo, vs, (n - 1) as nat).unwrap();
        let m = okuri_maps_after(t, maps.0, maps.1, p, out, dict);
        lemma_units_read_maps(t, d, bo, vs[n - 1], vs[n - 1].len(), m, out, dict);
        let r = units_read(d, bo, vs[n - 1], vs[n - 1].len()).unwrap();
        lemma_maps_after_concat(t, maps.0, maps.1, p, r, out, dict);
    }
}

/// What the unit vectors read hold: what one of them holds.
pub proof fn lemma_vectors_read_contains(d: Seq<u8>, bo: int, vs: Seq<Seq<InfoView>>, n: nat, x: (Seq<u8>, Seq<u8>))
    requires
        n <= vs.len(),
        vectors_read(d, bo, vs, n) is Some,
    ensures
        forall|v: int| 0 <= v < n ==> #[trigger] units_read(d, bo, vs[v], vs[v].len()) is Some,
        vectors_read(d, bo, vs, n).unwrap().contains(x) <==> exists|v: int| 0 <= v < n
            && #[trigger] units_read(d, bo, vs[v], vs[v].len()).unwrap().contains(x),
    decreases n,
{
    if n > 0 {
        lemma_vectors_read_contains(d, bo, vs, (n - 1) as nat, x);
        let p = vectors_read(d, bo, vs, (n - 1) as nat).unwrap();
        let r = units_read(d, bo, vs[n - 1], vs[n - 1].len()).unwrap();
        lemma_concat_contains(p, r, x);
        if r.contains(x) {
            assert(units_read(d, bo, vs[n - 1], vs[n - 1].len()).unwrap().contains(x));
        }
        if exists|v: int| 0 <= v < n && #[trigger] units_read(d, bo, vs[v], vs[v].len()).unwrap().contains(x) {
            let v = choose|v: int| 0 <= v < n && #[trigger] units_read(d, bo, vs[v], vs[v].len()).unwrap().contains(x);
            if v < n - 1 {
                assert(p.contains(x));
            }
        }
    }
}

/// Reading the last `n` units of a block made of readable entry lines, as the index lists them
/// (last cut first), from a dictionary that holds the block at `bo + base`, gives, as a
/// collection, the entries from the start of the `n`-th last cut on.
#[verifier::spinoff_prover]
#[verifier::rlimit(40)]
pub proof fn lemma_block_units_read(
    d: Seq<u8>,
    bo: int,
    es: Seq<(Seq<u8>, Seq<u8>)>,
    base: int,
    cs: Seq<UnitCut>,
    xs: Seq<int>,
    n: nat,
)
    requires
        entries_readable(es),
        xs.len() == cs.len() + 1,
        xs[cs.len() as int] == es.len(),
        forall|q: int| 0 <= q < cs.len() ==> #[trigger] cut_run(es, cs[q], xs[q], xs[q + 1]),
        n <= cs.len(),
        0 <= bo,
        0 <= base,
        base + entries_block(es).len() <= u32::MAX,
        bo + base + entries_block(es).len() <= d.len(),
        d.subrange(bo + base, bo + base + entries_block(es).len()) == entries_block(es),
    ensures
        units_read(d, bo, cut_infos(entries_block(es), base, cs), n) matches Some(p)
            && forall|x: (Seq<u8>, Seq<u8>)| p.contains(x) <==> es.subrange(xs[cs.len() - n], es.len() as int).contains(x),
    decreases n,
{
    let b = entries_block(es);
    let nc = cs.len() as int;
    let infos = cut_infos(b, base, cs);
    let ne = es.len() as int;
    if n == 0 {
        assert(es.subrange(ne, ne) =~= Seq::<(Seq<u8>, Seq<u8>)>::empty());
    } else {
        lemma_block_units_read(d, bo, es, base, cs, xs, (n - 1) as nat);
        let prev = units_read(d, bo, infos, (n - 1) as nat).unwrap();
        let i = nc - n;
        let c = cs[i];
        let x = xs[i];
        let z = xs[i + 1];
        assert(cut_run(es, c, x, z));
        assert(infos[n - 1] == cut_info(b, base, c));
        lemma_block_facts(es, x);
        lemma_block_facts(es, z);
        lemma_block_facts(es, ne);
        let r = es.subrange(x, z);
        lemma_block_run(es, x, z);
        lemma_readable_run(es, x, z);
        crate::dictionary_lookup::lemma_entry_pos_increasing(es, x, z);
        assert(0 <= c.0 < c.2 < b.len());
        let u = infos[n - 1];
        assert(u.1 == base + c.0);
        assert(u.2 == c.2 + 1 - c.0);
        let start = bo + u.1;
        let end = start + u.2;
        assert(d.subrange(start, end) =~= b.subrange(c.0, c.2 + 1));
        assert(r.take(0) =~= Seq::<(Seq<u8>, Seq<u8>)>::empty());
        assert(entry_pos(r, 0) == 0);
        lemma_unit_entries_block(r, 0);
        assert(r.subrange(0, r.len() as int) =~= r);
        assert(unit_read(d, bo, u) == Some(r));
        let p = prev + r;
        assert(units_read(d, bo, infos, n) == Some(p));
        assert forall|y: (Seq<u8>, Seq<u8>)| p.contains(y) <==> es.subrange(x, ne).contains(y) by {
            lemma_concat_contains(prev, r, y);
            lemma_run_contains(es, x, z, ne, y);
        }
        assert(nc - (n - 1) == i + 1);
    }
}


/// Every unit vector of an index built from the empty one by giving keys units is empty or the
/// units given to some key.
pub proof fn lemma_applied_vectors(units: Seq<(Seq<u8>, Seq<InfoView>)>)
    ensures
        model_apply_all(empty_model(), units).slots.len() == 256,
        forall|i: int| 0 <= i < 256 ==> (#[trigger] model_apply_all(empty_model(), units).slots[i]).len() == 0
            || exists|k: int| 0 <= k < units.len() && model_apply_all(empty_model(), units).slots[i] == #[trigger] units[k].1,
        forall|p: u64| #[trigger] model_apply_all(empty_model(), units).map.contains_key(p) ==>
            exists|k: int| 0 <= k < units.len() && model_apply_all(empty_model(), units).map[p] == #[trigger] units[k].1,
    decreases units.len(),
{
    if units.len() > 0 {
        let d = units.drop_last();
        lemma_applied_vectors(d);
        let m0 = model_apply_all(empty_model(), d);
        let m = model_apply_all(empty_model(), units);
        let l = units.len() - 1;
        assert(units.last() == units[l]);
        if let Some(i) = spec_ascii_hiragana_index(units[l].0) {
            assert(0 <= i < 256);
        }
        assert forall|i: int| 0 <= i < 256 implies (#[trigger] m.slots[i]).len() == 0
            || exists|k: int| 0 <= k < units.len() && m.slots[i] == #[trigger] units[k].1 by {
            if m.slots[i] == units[l].1 {
            } else if m0.slots[i].len() != 0 {
                let k = choose|k: int| 0 <= k < d.len() && m0.slots[i] == #[trigger] d[k].1;
                assert(d[k] == units[k]);
            }
        }
        assert forall|p: u64| #[trigger] m.map.contains_key(p) implies
            exists|k: int| 0 <= k < units.len() && m.map[p] == #[trigger] units[k].1 by {
            if m.map[p] == units[l].1 {
            } else {
                assert(m0.map.contains_key(p));
                let k = choose|k: int| 0 <= k < d.len() && m0.map[p] == #[trigger] d[k].1;
                assert(d[k] == units[k]);
            }
        }
    }
}

/// Reading every unit of a block made of readable entry lines, as the index lists them, from a
/// dictionary that holds the block at `bo + base`, gives, as a collection, the block's entries;
/// the block has at least one unit.
pub proof fn lemma_block_read_all(d: Seq<u8>, bo: int, es: Seq<(Seq<u8>, Seq<u8>)>, base: int)
    requires
        entries_readable(es),
        es.len() >= 1,
        spec_block_units(entries_block(es)) is Some,
        0 <= bo,
        0 <= base,
        base + entries_block(es).len() <= u32::MAX,
        bo + base + entries_block(es).len() <= d.len(),
        d.subrange(bo + base, bo + base + entries_block(es).len()) == entries_block(es),
    ensures
        ({
            let us = cut_infos(entries_block(es), base, spec_block_units(entries_block(es)).unwrap());
            &&& us.len() >= 1
            &&& units_read(d, bo, us, us.len()) matches Some(p)
                && forall|x: (Seq<u8>, Seq<u8>)| p.contains(x) <==> es.contains(x)
        }),
{
    let b = entries_block(es);
    let max = spec_max_entry_from(b, 0, 0).unwrap();
    let cs = spec_block_units(b).unwrap();
    assert(es.take(0) =~= Seq::<(Seq<u8>, Seq<u8>)>::empty());
    assert(entry_pos(es, 0) == 0);
    let xs = lemma_walk_entries(es, 0, max);
    let nc = cs.len() as int;
    if nc == 0 {
        assert(xs[0] == xs[nc]);
        assert(false);
    }
    lemma_block_units_read(d, bo, es, base, cs, xs, cs.len());
    assert(es.subrange(0, es.len() as int) =~= es);
    assert(cut_infos(b, base, cs).len() == nc);
}

/// Where every unit vector can be read, they can all be read.
pub proof fn lemma_vectors_read_some(d: Seq<u8>, bo: int, vs: Seq<Seq<InfoView>>, n: nat)
    requires
        n <= vs.len(),
        forall|v: int| 0 <= v < n ==> #[trigger] units_read(d, bo, vs[v], vs[v].len()) is Some,
    ensures
        vectors_read(d, bo, vs, n) is Some,
    decreases n,
{
    if n > 0 {
        lemma_vectors_read_some(d, bo, vs, (n - 1) as nat);
        assert(units_read(d, bo, vs[n - 1], vs[n - 1].len()) is Some);
    }
}


/// The unit vector that a dictionary made of the string blocks of `entries` keeps for block
/// `k` has units, and reading them gives entries of `entries`, among them every entry whose
/// midashi has the block's key.
#[verifier::spinoff_prover]
#[verifier::rlimit(60)]
pub proof fn lemma_created_block(d: Seq<u8>, bo: int, entries: ByteMap, blocks: ByteMap, k: int)
    requires
        entries.wf(),
        blocks.wf(),
        entries_readable(entry_pairs(entries)),
        spec_temporary_block_map(entries.keys(), entries.values(), entries.keys().len()) == Some(blocks.view()),
        build_all(blocks.keys(), blocks.values(), blocks.keys().len()) is Some,
        places_distinct(blocks.keys()),
        0 <= bo,
        bo + build_all(blocks.keys(), blocks.values(), blocks.keys().len()).unwrap().blocks.len() == d.len(),
        d.subrange(bo, d.len() as int) == build_all(blocks.keys(), blocks.values(), blocks.keys().len()).unwrap().blocks,
        0 <= k < blocks.keys().len(),
    ensures
        ({
            let st = build_all(blocks.keys(), blocks.values(), blocks.keys().len()).unwrap();
            let u = st.units[k].1;
            &&& st.units.len() == blocks.keys().len()
            &&& st.units[k].0 == blocks.keys()[k]
            &&& u.len() >= 1
            &&& units_read(d, bo, u, u.len()) matches Some(p)
                && (forall|x: (Seq<u8>, Seq<u8>)| p.contains(x) ==> entry_pairs(entries).contains(x))
                && (forall|j: int| 0 <= j < entries.keys().len() && spec_midashi_key(entries.keys()[j]) == Some(blocks.keys()[k])
                    ==> p.contains(#[trigger] entry_pairs(entries)[j]))
        }),
{
    let ks = entries.keys();
    let vs = entries.values();
    let n = ks.len();
    let bk = blocks.keys();
    let bv = blocks.values();
    let st = build_all(bk, bv, bk.len()).unwrap();
    let key = bk[k];
    let pairs = entry_pairs(entries);
    assert(vs.len() == n);
    assert(bv.len() == bk.len());
    assert(bk.contains(key));
    let kk = bk.index_of(key);
    assert(0 <= kk < bk.len() && bk[kk] == key);
    if kk != k {
        if kk < k {
            assert(index_place(bk[kk]) != index_place(bk[k]));
        } else {
            assert(index_place(bk[k]) != index_place(bk[kk]));
        }
    }
    assert(blocks.view().contains_key(key));
    assert(bv[k] == blocks.view()[key]);
    lemma_temporary_blocks(ks, vs, n);
    let es = key_entries(ks, vs, n, key);
    assert(bv[k] == entries_block(es));
    lemma_build_parts(bk, bv, bk.len(), k);
    let base = build_all(bk, bv, k as nat).unwrap().blocks.len() as int;
    let b = entries_block(es);
    let cs = spec_block_units(b).unwrap();
    let al = aligned_block_after(Seq::empty(), b, cs);
    let idx = key_indices(ks, n, key);
    lemma_key_indices(ks, n, key);
    if es.len() == 0 {
        assert(b =~= seq![LF]);
        lemma_find_from(b, 0, SPACE);
        assert(spec_find_from(b, 0, SPACE) is None);
        assert(false);
    }
    assert(es[0] == (ks[idx[0]], vs[idx[0]]));
    lemma_key_entries(entries, key, idx[0]);
    lemma_aligned_block_prefix(es);
    assert(d.subrange(bo + base, bo + base + b.len()) =~= st.blocks.subrange(base, base + b.len()));
    assert(st.blocks.subrange(base, base + b.len()) =~= al.subrange(0, b.len() as int));
    lemma_block_read_all(d, bo, es, base);
    let u = st.units[k].1;
    let p = units_read(d, bo, u, u.len()).unwrap();
    assert forall|x: (Seq<u8>, Seq<u8>)| p.contains(x) implies pairs.contains(x) by {
        assert(es.contains(x));
        let q = choose|q: int| 0 <= q < es.len() && es[q] == x;
        assert(es[q] == (ks[idx[q]], vs[idx[q]]));
        assert(pairs[idx[q]] == x);
    }
    assert forall|j: int| 0 <= j < n && spec_midashi_key(ks[j]) == Some(key) implies p.contains(#[trigger] pairs[j]) by {
        let q = choose|q: int| 0 <= q < idx.len() && #[trigger] idx[q] == j;
        assert(es[q] == (ks[j], vs[j]));
        assert(es.contains(pairs[j]));
    }
}


/// Whether `r` is the jisyo of `entries`, converted from `dict` to `out` with the convert table
/// `t`: the okuri maps that adding the entries to empty maps gives (see `okuri_maps_after`),
/// written as `spec_jisyo_text`.
pub open spec fn is_jisyo_of_entries(t: EncodingTable, entries: ByteMap, out: Encoding, dict: Encoding, r: Result<Seq<u8>, SkkError>) -> bool {
    let (a, n) = okuri_maps_after(t, Map::empty(), Map::empty(), entry_pairs(entries), out, dict);
    r matches Ok(j) && exists|am: ByteMap, nm: ByteMap| am.wf() && nm.wf() && am.view() == a && nm.view() == n
        && j == #[trigger] spec_jisyo_text(out, am, nm)
}

/// Each unit vector of the index of a dictionary made of the string blocks of `entries` reads
/// back, and what the vectors read holds is exactly the entries.
#[verifier::spinoff_prover]
#[verifier::rlimit(80)]
proof fn lemma_index_vectors_read(d: Seq<u8>, bo: int, entries: ByteMap, blocks: ByteMap, om: OnMemory)
    requires
        entries.wf(),
        blocks.wf(),
        entries_readable(entry_pairs(entries)),
        spec_temporary_block_map(entries.keys(), entries.values(), entries.keys().len()) == Some(blocks.view()),
        build_all(blocks.keys(), blocks.values(), blocks.keys().len()) is Some,
        places_distinct(blocks.keys()),
        0 <= bo,
        bo + build_all(blocks.keys(), blocks.values(), blocks.keys().len()).unwrap().blocks.len() == d.len(),
        d.subrange(bo, d.len() as int) == build_all(blocks.keys(), blocks.values(), blocks.keys().len()).unwrap().blocks,
        om.wf(),
        om.model() == model_apply_all(empty_model(), build_all(blocks.keys(), blocks.values(), blocks.keys().len()).unwrap().units),
    ensures
        vectors_read(d, bo, index_vectors(om), index_vectors(om).len()) matches Some(q)
            && forall|x: (Seq<u8>, Seq<u8>)| q.contains(x) <==> entry_pairs(entries).contains(x),
{
    let bk = blocks.keys();
    let bv = blocks.values();
    let st = build_all(bk, bv, bk.len()).unwrap();
    let units = st.units;
    let pairs = entry_pairs(entries);
    let ks = entries.keys();
    let n = ks.len();
    let vs = index_vectors(om);
    let nm = om.index_map_values.len() as int;
    let m = om.model();
    let c = fx_u64_table_contents(om.index_map);
    lemma_applied_vectors(units);
    assert(vs.len() == nm + 256);
    crate::dictionary_lookup::lemma_units_count(bk, bv, bk.len());
    assert(units.len() == bk.len());
    assert forall|k: int| 0 <= k < units.len() implies #[trigger] units[k].0 == bk[k] by {
        lemma_created_block(d, bo, entries, blocks, k);
    }
    assert forall|v: int| 0 <= v < vs.len() implies (#[trigger] units_read(d, bo, vs[v], vs[v].len())) matches Some(p)
        && forall|x: (Seq<u8>, Seq<u8>)| p.contains(x) ==> pairs.contains(x) by {
        let ghost src: Seq<InfoView>;
        if v < nm {
            assert(om.refers_to(v));
            let pk = choose|pk: u64| #[trigger] c.contains_key(pk) && c[pk] == v;
            assert(m.map.contains_key(pk));
            assert(vs[v] == m.map[pk]);
            let k = choose|k: int| 0 <= k < units.len() && m.map[pk] == #[trigger] units[k].1;
            lemma_created_block(d, bo, entries, blocks, k);
        } else {
            let i = v - nm;
            assert(vs[v] == m.slots[i]);
            if m.slots[i].len() == 0 {
                assert(units_read(d, bo, vs[v], 0) == Some(Seq::<(Seq<u8>, Seq<u8>)>::empty()));
            } else {
                let k = choose|k: int| 0 <= k < units.len() && m.slots[i] == #[trigger] units[k].1;
                lemma_created_block(d, bo, entries, blocks, k);
            }
        }
    }
    lemma_vectors_read_some(d, bo, vs, vs.len());
    let q = vectors_read(d, bo, vs, vs.len()).unwrap();
    assert forall|x: (Seq<u8>, Seq<u8>)| q.contains(x) <==> pairs.contains(x) by {
        lemma_vectors_read_contains(d, bo, vs, vs.len(), x);
        if q.contains(x) {
            let v = choose|v: int| 0 <= v < vs.len() && #[trigger] units_read(d, bo, vs[v], vs[v].len()).unwrap().contains(x);
            assert(units_read(d, bo, vs[v], vs[v].len()) is Some);
        }
        if pairs.contains(x) {
            let j = choose|j: int| 0 <= j < pairs.len() && pairs[j] == x;
            lemma_temporary_blocks(ks, entries.values(), n);
            let key = spec_midashi_key(ks[j]).unwrap();
            assert(blocks.view().contains_key(key));
            assert(bk.contains(key));
            let kk = bk.index_of(key);
            assert(0 <= kk < bk.len() && bk[kk] == key);
            lemma_created_block(d, bo, entries, blocks, kk);
            let u = units[kk].1;
            assert(units_read(d, bo, u, u.len()).unwrap().contains(x));
            assert forall|i: int| 0 <= i < units.len() && i != kk implies index_place(#[trigger] units[i].0) != index_place(units[kk].0) by {
                assert(units[i].0 == bk[i]);
                if i < kk {
                    assert(index_place(bk[i]) != index_place(bk[kk]));
                } else {
                    assert(index_place(bk[kk]) != index_place(bk[i]));
                }
            }
            crate::dictionary_lookup::lemma_lookup_applied(units, kk);
            let v: int = match spec_ascii_hiragana_index(key) {
                Some(i) => {
                    assert(0 <= i < 256);
                    assert(m.slots[i] == u);
                    assert(vs[nm + i] == m.slots[i]);
                    nm + i
                },
                None => {
                    let pk = pack_bytes(key);
                    assert(m.map.contains_key(pk) && m.map[pk] == u);
                    assert(c.contains_key(pk));
                    let jj = c[pk] as int;
                    assert(vs[jj] == m.map[pk]);
                    jj
                },
            };
            assert(units_read(d, bo, vs[v], vs[v].len()).unwrap().contains(x));
        }
    }
}


/// Writing a jisyo back from a dictionary that `DictionaryCreator::create` made of jisyo files
/// gives back the entries of those files: whatever `JisyoCreator::create` returns for the
/// dictionary (see `creates_jisyo`) is the jisyo of the merged entries, sorted into okuri-ari and
/// okuri-nasi maps, converted with the dictionary's convert table from the dictionary's encoding
/// to `out`, and written in midashi order (see `is_jisyo_of_entries`). This holds where the
/// dictionary reads back and its lookups find the entries (see `lemma_lookup_after_create`),
/// and where no two entries that go to the same place of the okuri maps carry different
/// candidates after conversion (always so for EUC output: see `lemma_places_agree_euc`).
#[verifier::spinoff_prover]
#[verifier::rlimit(80)]
pub proof fn lemma_jisyo_after_create(
    t: EncodingTable,
    table: Seq<u8>,
    jisyos: Seq<Seq<u8>>,
    encoding: Encoding,
    d: Seq<u8>,
    entries: ByteMap,
    blocks: ByteMap,
    out: Encoding,
    r: Result<Seq<u8>, SkkError>,
)
    requires
        creates(t, table, jisyos, encoding, Ok(d)),
        entries.wf(),
        entries_of_jisyos(t, jisyos, jisyos.len(), Some(encoding)) == Ok::<Map<Seq<u8>, Seq<u8>>, SkkError>(entries.view()),
        blocks.wf(),
        spec_temporary_block_map(entries.keys(), entries.values(), entries.keys().len()) == Some(blocks.view()),
        build_all(blocks.keys(), blocks.values(), blocks.keys().len()) matches Some(st) && records_fit_blocks(st),
        table_well_sized(table),
        forall|k: int| 0 <= k < table_combine_length(table) ==> combine_unit_ok(table, k),
        entries_readable(entry_pairs(entries)),
        places_distinct(blocks.keys()),
        forall|tb: EncodingTable| tb.wf() && tb.model() == spec_table_model(table)
            ==> #[trigger] places_agree(tb, entry_pairs(entries), out, encoding),
        creates_jisyo(d, out, r),
    ensures
        exists|tb: EncodingTable| tb.wf() && tb.model() == spec_table_model(table)
            && #[trigger] is_jisyo_of_entries(tb, entries, out, encoding, r),
{
    lemma_setup_after_create(t, table, jisyos, encoding, d, entries, blocks);
    let st = build_all(blocks.keys(), blocks.values(), blocks.keys().len()).unwrap();
    reveal(creates);
    assert(entries.wf() && entries.view() == entries.view());
    assert(blocks.wf() && blocks.view() == blocks.view());
    assert(is_dictionary_of(d, table, st, encoding));
    lemma_dictionary_blocks(d, table, st, encoding);
    let bo = le_u32(d, 28);
    let (om, tb) = choose|om: OnMemory, tb: EncodingTable| {
        &&& om.wf()
        &&& om.model() == model_apply_all(empty_model(), st.units)
        &&& header_stored_in(om.dictionary_fixed_header, d)
        &&& tb.wf()
        &&& tb.model() == spec_table_model(table)
        &&& #[trigger] jisyo_of_index(tb, d, om, out, r)
    };
    let h = om.dictionary_fixed_header;
    assert(h.encoding == encoding_number(encoding));
    assert(encoding_of(h.encoding) == encoding);
    assert(h.blocks_offset == bo);
    lemma_index_vectors_read(d, bo, entries, blocks, om);
    let vs = index_vectors(om);
    let q = vectors_read(d, bo, vs, vs.len()).unwrap();
    let m0 = (Map::<Seq<u8>, Seq<u8>>::empty(), Map::<Seq<u8>, Seq<u8>>::empty());
    lemma_vectors_read_maps(tb, d, bo, vs, vs.len(), m0, out, encoding);
    assert(places_agree(tb, entry_pairs(entries), out, encoding));
    lemma_maps_same_entries(tb, entry_pairs(entries), q, out, encoding);
    assert(is_jisyo_of_entries(tb, entries, out, encoding, r));
}


/// Writing EUC, the entries of a map never disagree about a place of the okuri maps: the
/// midashi are kept as they are, and no two entries share one.
pub proof fn lemma_places_agree_euc(t: EncodingTable, entries: ByteMap, dict: Encoding)
    requires
        entries.wf(),
    ensures
        places_agree(t, entry_pairs(entries), Encoding::Euc, dict),
{
    let p = entry_pairs(entries);
    let ks = entries.keys();
    assert forall|i: int, j: int| 0 <= i < p.len() && 0 <= j < p.len()
        && #[trigger] entry_place(t, p[i], Encoding::Euc) == #[trigger] entry_place(t, p[j], Encoding::Euc)
        implies converted_candidates(t, p[i].1, Encoding::Euc, dict) == converted_candidates(t, p[j].1, Encoding::Euc, dict) by {
        assert(p[i].0 == ks[i] && p[j].0 == ks[j]);
        if i < j {
            assert(crate::byte_map::lex_lt(ks[i], ks[j]));
            crate::byte_map::lemma_lex_irreflexive(ks[i]);
        } else if j < i {
            assert(crate::byte_map::lex_lt(ks[j], ks[i]));
            crate::byte_map::lemma_lex_irreflexive(ks[j]);
        }
    }
}

} // verus!
