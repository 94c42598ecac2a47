//! How looking a midashi up finds the entries that a dictionary was made from.
use vstd::prelude::*;
use crate::byte_map::lex_lt;
use crate::bytes::{
    lemma_find_from, lemma_rfind_before, occurs_at, spec_contains_byte, spec_find_from, spec_first_occurrence,
    spec_rfind_before,
};
use crate::candidates::SLASH;
use crate::dictionary::spec_midashi_key;
use crate::dictionary_creator::{
    advance, build_all, lemma_build_all_step, unit_bytes,
    aligned_block_after, cut_bytes, cut_info, cut_infos, spec_block_units, spec_block_walk, spec_cut_step, spec_max_entry_from,
    spec_temporary_block_map, temp_entry, UnitCut, LF, SPACE,
};
use crate::dictionary_reader::{first_not_after_from, search_pattern, spec_unit_candidates, strictly_decreasing, view_midashi};
use crate::byte_map::ByteMap;
use crate::dictionary_creator::{creates, is_dictionary_of};
use crate::dictionary_format::{lemma_dictionary_blocks, records_fit_blocks};
use crate::dictionary_reader::{read_outcome, spec_add_candidates, unit_bytes_in};
use crate::encoding::Encoding;
use crate::encoding_simple::encoding_table::{combine_unit_ok, le_u32, table_combine_length, table_well_sized};
use crate::encoding_simple::EncodingTable;
use crate::encoding_simple::euc::pack_bytes;
use crate::jisyo_reader::entries_of_jisyos;
use crate::on_memory::spec_setup;
use crate::error::SkkError;
use crate::on_memory::{empty_model, model_apply_all, model_lookup, spec_ascii_hiragana_index, InfoView};

verus! {

/// Entry lines laid end to end: each midashi, a space, its candidates and an LF.
pub open spec fn entry_lines(es: Seq<(Seq<u8>, Seq<u8>)>) -> Seq<u8>
    decreases es.len(),
{
    if es.len() == 0 {
        Seq::empty()
    } else {
        entry_lines(es.drop_last()) + temp_entry(es.last().0, es.last().1)
    }
}

/// Where the LF before entry `k` stands in a unit that is an LF followed by the entry lines
/// of `es` (for `k == es.len()`, the unit's last LF).
pub open spec fn entry_pos(es: Seq<(Seq<u8>, Seq<u8>)>, k: int) -> int {
    entry_lines(es.take(k)).len() as int
}

/// Whether the midashi of the entries `es` can be looked up in their lines: no midashi holds a
/// space or an LF, no candidates hold an LF, all candidates start with `/`, and no midashi
/// occurs twice.
pub open spec fn entries_readable(es: Seq<(Seq<u8>, Seq<u8>)>) -> bool {
    &&& forall|i: int| 0 <= i < es.len() ==> {
        &&& !spec_contains_byte(#[trigger] es[i].0, SPACE)
        &&& !spec_contains_byte(es[i].0, LF)
        &&& !spec_contains_byte(es[i].1, LF)
        &&& es[i].1.len() >= 1
        &&& es[i].1[0] == SLASH
    }
    &&& forall|i: int, j: int| 0 <= i < j < es.len() ==> #[trigger] es[i].0 != #[trigger] es[j].0
}

/// The lines of the first `k` entries come first, followed by entry `k`'s line.
pub(crate) proof fn lemma_entry_lines_prefix(es: Seq<(Seq<u8>, Seq<u8>)>, k: int)
    requires
        0 <= k <= es.len(),
    ensures
        entry_pos(es, k) <= entry_lines(es).len(),
        entry_lines(es).subrange(0, entry_pos(es, k)) == entry_lines(es.take(k)),
        k < es.len() ==> entry_pos(es, k + 1) == entry_pos(es, k) + temp_entry(es[k].0, es[k].1).len(),
        k < es.len() ==> entry_lines(es).subrange(entry_pos(es, k), entry_pos(es, k + 1)) == temp_entry(es[k].0, es[k].1),
    decreases es.len(),
{
    if k == es.len() {
        assert(es.take(k) =~= es);
    } else {
        let d = es.drop_last();
        assert(es.take(k + 1).drop_last() =~= es.take(k));
        assert(es.take(k + 1).last() == es[k]);
        if k + 1 == es.len() {
            assert(es.take(k + 1) =~= es);
            assert(d =~= es.take(k));
            assert(entry_lines(es).subrange(0, entry_pos(es, k)) =~= entry_lines(d));
            assert(entry_lines(es).subrange(entry_pos(es, k), entry_pos(es, k + 1)) =~= temp_entry(es[k].0, es[k].1));
        } else {
            lemma_entry_lines_prefix(d, k);
            lemma_entry_lines_prefix(d, k + 1);
            assert(d.take(k) =~= es.take(k));
            assert(d.take(k + 1) =~= es.take(k + 1));
            assert(d[k] == es[k]);
            assert(entry_lines(es).subrange(0, entry_pos(es, k)) =~= entry_lines(d).subrange(0, entry_pos(es, k)));
            assert(entry_lines(es).subrange(entry_pos(es, k), entry_pos(es, k + 1))
                =~= entry_lines(d).subrange(entry_pos(es, k), entry_pos(es, k + 1)));
        }
    }
}

/// Entry positions grow with the entry.
pub(crate) proof fn lemma_entry_pos_increasing(es: Seq<(Seq<u8>, Seq<u8>)>, k: int, l: int)
    requires
        0 <= k < l <= es.len(),
    ensures
        entry_pos(es, k) < entry_pos(es, l),
    decreases l - k,
{
    lemma_entry_lines_prefix(es, l - 1);
    if k < l - 1 {
        lemma_entry_pos_increasing(es, k, l - 1);
    }
}

/// In a unit that is an LF followed by entry lines, LFs stand only before each entry and at
/// the end.
#[verifier::spinoff_prover]
proof fn lemma_unit_lfs(es: Seq<(Seq<u8>, Seq<u8>)>, i: int)
    requires
        entries_readable(es),
        0 <= i < 1 + entry_lines(es).len(),
        (seq![LF] + entry_lines(es))[i] == LF,
    ensures
        exists|k: int| 0 <= k <= es.len() && i == entry_pos(es, k),
    decreases es.len(),
{
    let buf = seq![LF] + entry_lines(es);
    if es.len() == 0 {
        assert(es.take(0) =~= es);
        assert(i == entry_pos(es, 0));
    } else {
        let d = es.drop_last();
        let n = es.len() - 1;
        lemma_entry_lines_prefix(es, n);
        assert(es.take(n) =~= d);
        let pd = entry_lines(d).len() as int;
        let e = es[n];
        let te = temp_entry(e.0, e.1);
        assert(entry_lines(es) == entry_lines(d) + te);
        if i <= pd {
            assert forall|x: int| 0 <= x < d.len() implies {
                &&& !spec_contains_byte(#[trigger] d[x].0, SPACE)
                &&& !spec_contains_byte(d[x].0, LF)
                &&& !spec_contains_byte(d[x].1, LF)
                &&& d[x].1.len() >= 1
                &&& d[x].1[0] == SLASH
            } by {
                assert(d[x] == es[x]);
            }
            assert forall|x: int, y: int| 0 <= x < y < d.len() implies #[trigger] d[x].0 != #[trigger] d[y].0 by {
                assert(d[x] == es[x]);
                assert(d[y] == es[y]);
            }
            assert((seq![LF] + entry_lines(d))[i] == buf[i]);
            lemma_unit_lfs(d, i);
            let k = choose|k: int| 0 <= k <= d.len() && i == entry_pos(d, k);
            assert(d.take(k) =~= es.take(k));
            assert(i == entry_pos(es, k));
        } else {
            let t = i - 1 - pd;
            assert(0 <= t < te.len());
            assert(buf[i] == te[t]);
            assert(!spec_contains_byte(e.0, LF));
            assert(!spec_contains_byte(e.1, LF));
            if t < e.0.len() {
                assert(te[t] == e.0[t]);
            } else if t == e.0.len() {
                assert(te[t] == SPACE);
            } else if t < e.0.len() + 1 + e.1.len() {
                assert(te[t] == e.1[t - e.0.len() - 1]);
            } else {
                assert(es.take(es.len() as int) =~= es);
                assert(i == entry_pos(es, es.len() as int));
            }
        }
    }
}

/// The byte at `x` of the line of entry `k` in a unit that is an LF followed by entry lines.
pub(crate) proof fn lemma_unit_byte(es: Seq<(Seq<u8>, Seq<u8>)>, k: int, x: int)
    requires
        0 <= k < es.len(),
        0 <= x < temp_entry(es[k].0, es[k].1).len(),
    ensures
        (seq![LF] + entry_lines(es))[entry_pos(es, k) + 1 + x] == temp_entry(es[k].0, es[k].1)[x],
        entry_pos(es, k) + 1 + x < 1 + entry_lines(es).len(),
{
    lemma_entry_lines_prefix(es, k);
    lemma_entry_lines_prefix(es, k + 1);
    let l = entry_lines(es);
    let te = temp_entry(es[k].0, es[k].1);
    let a = entry_pos(es, k);
    assert(l.subrange(a, a + te.len()) == te);
    assert(l.subrange(a, a + te.len())[x] == l[a + x]);
    assert((seq![LF] + l)[a + 1 + x] == l[a + x]);
}

/// The search pattern of `m` occurs before entry `k` of a unit only where `k`'s midashi is `m`.
proof fn lemma_pattern_only_at_own(es: Seq<(Seq<u8>, Seq<u8>)>, k: int, m: Seq<u8>)
    requires
        entries_readable(es),
        0 <= k < es.len(),
        !spec_contains_byte(m, SPACE),
        occurs_at(seq![LF] + entry_lines(es), search_pattern(m), entry_pos(es, k)),
    ensures
        es[k].0 == m,
{
    let buf = seq![LF] + entry_lines(es);
    let pat = search_pattern(m);
    let p = entry_pos(es, k);
    let mk = es[k].0;
    let te = temp_entry(mk, es[k].1);
    assert(!spec_contains_byte(mk, SPACE));
    assert forall|x: int| 0 <= x < pat.len() implies buf[p + x] == pat[x] by {
        assert(buf.subrange(p, p + pat.len())[x] == buf[p + x]);
    }
    if mk.len() < m.len() {
        lemma_unit_byte(es, k, mk.len() as int);
        assert(te[mk.len() as int] == SPACE);
        assert(pat[1 + mk.len() as int] == m[mk.len() as int]);
        assert(buf[p + 1 + mk.len() as int] == m[mk.len() as int]);
        assert(spec_contains_byte(m, SPACE));
    } else if mk.len() > m.len() {
        lemma_unit_byte(es, k, m.len() as int);
        assert(te[m.len() as int] == mk[m.len() as int]);
        assert(pat[1 + m.len() as int] == SPACE);
        assert(spec_contains_byte(mk, SPACE));
    } else {
        assert forall|x: int| 0 <= x < m.len() implies mk[x] == m[x] by {
            lemma_unit_byte(es, k, x);
            assert(te[x] == mk[x]);
            assert(pat[1 + x] == m[x]);
        }
        assert(mk =~= m);
    }
}

/// The search pattern of entry `j`'s midashi occurs before entry `j`.
proof fn lemma_pattern_at_own(es: Seq<(Seq<u8>, Seq<u8>)>, j: int)
    requires
        entries_readable(es),
        0 <= j < es.len(),
    ensures
        occurs_at(seq![LF] + entry_lines(es), search_pattern(es[j].0), entry_pos(es, j)),
{
    let buf = seq![LF] + entry_lines(es);
    let m = es[j].0;
    let c = es[j].1;
    let pat = search_pattern(m);
    let p = entry_pos(es, j);
    let te = temp_entry(m, c);
    assert(c[0] == SLASH);
    assert(c.len() >= 1);
    assert(pat.len() == m.len() + 3);
    lemma_unit_byte(es, j, te.len() - 1);
    assert(p + 1 + te.len() <= buf.len());
    assert(buf[p] == LF) by {
        if j == 0 {
            assert(es.take(0) =~= Seq::<(Seq<u8>, Seq<u8>)>::empty());
            assert(p == 0);
        } else {
            let tp = temp_entry(es[j - 1].0, es[j - 1].1);
            lemma_entry_lines_prefix(es, j - 1);
            lemma_unit_byte(es, j - 1, tp.len() - 1);
            assert(tp[tp.len() - 1] == LF);
        }
    }
    assert forall|x: int| 1 <= x < pat.len() implies buf[p + x] == pat[x] by {
        lemma_unit_byte(es, j, x - 1);
        if x <= m.len() {
            assert(te[x - 1] == m[x - 1]);
            assert(pat[x] == m[x - 1]);
        } else if x == m.len() + 1 {
            assert(te[x - 1] == SPACE);
        } else {
            assert(te[x - 1] == c[0]);
        }
    }
    assert(buf.subrange(p, p + pat.len()) =~= pat);
}

/// The first occurrence of the search pattern of entry `j`'s midashi is before entry `j`.
#[verifier::spinoff_prover]
proof fn lemma_first_pattern(es: Seq<(Seq<u8>, Seq<u8>)>, j: int)
    requires
        entries_readable(es),
        0 <= j < es.len(),
    ensures
        spec_first_occurrence(seq![LF] + entry_lines(es), search_pattern(es[j].0)) == Some(entry_pos(es, j)),
{
    let buf = seq![LF] + entry_lines(es);
    let m = es[j].0;
    let pat = search_pattern(m);
    let p = entry_pos(es, j);
    assert(!spec_contains_byte(m, SPACE));
    lemma_pattern_at_own(es, j);
    assert forall|y: int| 0 <= y < p implies !occurs_at(buf, pat, y) by {
        if occurs_at(buf, pat, y) {
            assert(buf.subrange(y, y + pat.len())[0] == buf[y]);
            lemma_unit_lfs(es, y);
            let k = choose|k: int| 0 <= k <= es.len() && y == entry_pos(es, k);
            if k >= j {
                if k > j {
                    lemma_entry_pos_increasing(es, j, k);
                }
            } else {
                lemma_pattern_only_at_own(es, k, m);
                assert(es[k].0 != es[j].0);
            }
        }
    }
    reveal(spec_first_occurrence);
    let q = choose|i: int| occurs_at(buf, pat, i) && forall|y: int| 0 <= y < i ==> !occurs_at(buf, pat, y);
    assert(occurs_at(buf, pat, q) && forall|y: int| 0 <= y < q ==> !occurs_at(buf, pat, y));
    if q < p {
        assert(!occurs_at(buf, pat, q));
    } else if q > p {
        assert(!occurs_at(buf, pat, p));
    }
}

/// After the search pattern of entry `j`'s midashi, its candidates run up to the next LF.
#[verifier::spinoff_prover]
proof fn lemma_candidates_end(es: Seq<(Seq<u8>, Seq<u8>)>, j: int)
    requires
        entries_readable(es),
        0 <= j < es.len(),
    ensures
        ({
            let buf = seq![LF] + entry_lines(es);
            let cs = entry_pos(es, j) + search_pattern(es[j].0).len();
            &&& spec_find_from(buf, cs, LF) == Some(entry_pos(es, j + 1))
            &&& buf.subrange(cs, entry_pos(es, j + 1)) == es[j].1.subrange(1, es[j].1.len() as int)
        }),
{
    let buf = seq![LF] + entry_lines(es);
    let m = es[j].0;
    let c = es[j].1;
    let p = entry_pos(es, j);
    let te = temp_entry(m, c);
    let cs = p + search_pattern(m).len();
    lemma_entry_lines_prefix(es, j);
    let e = entry_pos(es, j + 1);
    assert(e == p + te.len());
    assert(c.len() >= 1);
    assert(cs == p + m.len() + 3);
    lemma_unit_byte(es, j, te.len() - 1);
    assert(buf[e] == LF);
    lemma_find_from(buf, cs, LF);
    assert forall|x: int| cs <= x < e implies buf[x] != LF by {
        lemma_unit_byte(es, j, x - p - 1);
        assert(te[x - p - 1] == c[x - p - 1 - m.len() - 1]);
        assert(!spec_contains_byte(c, LF));
    }
    assert forall|x: int| 0 <= x < c.len() - 1 implies buf.subrange(cs, e)[x] == c.subrange(1, c.len() as int)[x] by {
        lemma_unit_byte(es, j, m.len() + 2 + x);
        assert(te[m.len() + 2 + x] == c[1 + x]);
        assert(buf.subrange(cs, e)[x] == buf[cs + x]);
    }
    assert(buf.subrange(cs, e) =~= c.subrange(1, c.len() as int));
}

/// Looking a midashi up in a unit that is an LF followed by entry lines gives the candidates
/// of its entry, after their leading `/`, where no midashi holds a space or an LF, no
/// candidates hold an LF, all candidates start with `/` and no midashi occurs twice.
pub proof fn lemma_unit_lookup(es: Seq<(Seq<u8>, Seq<u8>)>, j: int)
    requires
        entries_readable(es),
        0 <= j < es.len(),
    ensures
        spec_unit_candidates(seq![LF] + entry_lines(es), es[j].0)
            == Ok::<Option<Seq<u8>>, SkkError>(Some(es[j].1.subrange(1, es[j].1.len() as int))),
{
    lemma_first_pattern(es, j);
    lemma_candidates_end(es, j);
}

/// A block made of entry lines: an LF, then the lines.
pub open spec fn entries_block(es: Seq<(Seq<u8>, Seq<u8>)>) -> Seq<u8> {
    seq![LF] + entry_lines(es)
}

/// The facts about a block made of entry lines that cutting it rests on: its length, the LF
/// before every entry and at its end, and where the space after each midashi stands.
pub(crate) proof fn lemma_block_facts(es: Seq<(Seq<u8>, Seq<u8>)>, k: int)
    requires
        entries_readable(es),
        0 <= k <= es.len(),
    ensures
        entries_block(es).len() == entry_pos(es, es.len() as int) + 1,
        entries_block(es)[entry_pos(es, k)] == LF,
        0 <= entry_pos(es, k) <= entry_pos(es, es.len() as int),
        k < es.len() ==> spec_find_from(entries_block(es), entry_pos(es, k), SPACE) == Some(entry_pos(es, k) + 1 + es[k].0.len()),
{
    let b = entries_block(es);
    let n = es.len() as int;
    assert(es.take(n) =~= es);
    lemma_entry_lines_prefix(es, k);
    if k == 0 {
        assert(es.take(0) =~= Seq::<(Seq<u8>, Seq<u8>)>::empty());
    } else {
        let tp = temp_entry(es[k - 1].0, es[k - 1].1);
        lemma_entry_lines_prefix(es, k - 1);
        lemma_unit_byte(es, k - 1, tp.len() - 1);
        assert(tp[tp.len() - 1] == LF);
    }
    if k < n {
        let m = es[k].0;
        let te = temp_entry(m, es[k].1);
        let p = entry_pos(es, k);
        assert(!spec_contains_byte(m, SPACE));
        lemma_unit_byte(es, k, m.len() as int);
        assert(te[m.len() as int] == SPACE);
        lemma_find_from(b, p, SPACE);
        assert forall|x: int| p <= x < p + 1 + m.len() implies b[x] != SPACE by {
            if x > p {
                lemma_unit_byte(es, k, x - p - 1);
                assert(te[x - p - 1] == m[x - p - 1]);
            }
        }
        match spec_find_from(b, p, SPACE) {
            Some(i) => {
                if i > p + 1 + m.len() {
                    assert(b[p + 1 + m.len()] == SPACE);
                }
            },
            None => {
                assert(b[p + 1 + m.len()] == SPACE);
            },
        }
    }
    if k < n {
        lemma_entry_pos_increasing(es, k, n);
    }
}

/// The position of an LF of a block made of entry lines names the entry it stands before.
proof fn lemma_pos_index(es: Seq<(Seq<u8>, Seq<u8>)>, k: int, l: int)
    requires
        0 <= k <= es.len(),
        0 <= l <= es.len(),
        entry_pos(es, k) == entry_pos(es, l),
    ensures
        k == l,
{
    if k < l {
        lemma_entry_pos_increasing(es, k, l);
    } else if l < k {
        lemma_entry_pos_increasing(es, l, k);
    }
}

/// Whether the cut `c` runs from the LF before entry `x` to the LF before entry `z`, the space
/// after entry `x`'s midashi in between.
pub open spec fn cut_run(es: Seq<(Seq<u8>, Seq<u8>)>, c: UnitCut, x: int, z: int) -> bool {
    &&& 0 <= x < z <= es.len()
    &&& c.0 == entry_pos(es, x)
    &&& c.1 == entry_pos(es, x) + 1 + es[x].0.len()
    &&& c.2 == entry_pos(es, z)
}

/// One cut of a block made of entry lines from the LF before entry `a`: it stops at the space
/// after entry `a`'s midashi and ends at the LF before a later entry; the last cut ends at the
/// block's last LF.
proof fn lemma_cut_step_entries(es: Seq<(Seq<u8>, Seq<u8>)>, a: int, max: int)
    requires
        entries_readable(es),
        0 <= a < es.len(),
        spec_cut_step(entries_block(es), entry_pos(es, a), max) is Some,
    ensures
        ({
            let (sp, rf, sb) = spec_cut_step(entries_block(es), entry_pos(es, a), max).unwrap();
            &&& sp == entry_pos(es, a) + 1 + es[a].0.len()
            &&& entry_pos(es, a) <= rf
            &&& exists|z: int| a <= z <= es.len() && rf == entry_pos(es, z)
            &&& sb ==> rf == entry_pos(es, es.len() as int)
        }),
{
    let b = entries_block(es);
    let n = es.len() as int;
    let offset = entry_pos(es, a);
    lemma_block_facts(es, a);
    lemma_block_facts(es, n);
    let (sp, rf, sb) = spec_cut_step(b, offset, max).unwrap();
    let sb0 = 2048 >= b.len() - offset;
    let ul0 = if sb0 { b.len() - offset } else { 2048 };
    let long = spec_rfind_before(b, offset + ul0, LF) == Some(offset);
    let ul = if long { max } else { ul0 };
    lemma_rfind_before(b, offset + ul, LF);
    assert(b[rf] == LF);
    lemma_unit_lfs(es, rf);
    let z = choose|z: int| 0 <= z <= es.len() && rf == entry_pos(es, z);
    if z < a {
        lemma_entry_pos_increasing(es, z, a);
    }
    assert(a <= z);
    let last = entry_pos(es, n);
    assert(spec_rfind_before(b, b.len() as int, LF) == Some(last));
    if sb {
        if sb0 {
            assert(offset + ul0 == b.len());
            lemma_entry_pos_increasing(es, a, n);
            assert(!long);
        }
    }
}

/// Cutting a block made of entry lines from the LF before entry `a` cuts it into runs of whole
/// entries, one after another, the first starting at entry `a` and the last ending at the
/// block's last LF.
#[verifier::spinoff_prover]
pub(crate) proof fn lemma_walk_entries(es: Seq<(Seq<u8>, Seq<u8>)>, a: int, max: int) -> (xs: Seq<int>)
    requires
        entries_readable(es),
        0 <= a < es.len(),
        spec_block_walk(entries_block(es), entry_pos(es, a), max) is Some,
    ensures
        ({
            let cs = spec_block_walk(entries_block(es), entry_pos(es, a), max).unwrap();
            &&& xs.len() == cs.len() + 1
            &&& xs[0] == a
            &&& xs[cs.len() as int] == es.len()
            &&& forall|i: int| 0 <= i < cs.len() ==> #[trigger] cut_run(es, cs[i], xs[i], xs[i + 1])
        }),
    decreases entries_block(es).len() - entry_pos(es, a),
{
    let b = entries_block(es);
    let n = es.len() as int;
    let offset = entry_pos(es, a);
    lemma_block_facts(es, a);
    lemma_cut_step_entries(es, a, max);
    let (sp, rf, sb) = spec_cut_step(b, offset, max).unwrap();
    let z = choose|z: int| a <= z <= es.len() && rf == entry_pos(es, z);
    if sb {
        lemma_pos_index(es, z, n);
        let cs = seq![(offset, sp, rf)];
        let xs = seq![a, n];
        assert(cut_run(es, cs[0], xs[0], xs[1]));
        xs
    } else {
        assert(rf > offset);
        if z == a {
            assert(false);
        }
        if z == n {
            lemma_block_facts(es, n);
            lemma_find_from(b, rf, SPACE);
            assert(spec_cut_step(b, rf, max) is None);
            assert(false);
        }
        let rest_cs = spec_block_walk(b, rf, max).unwrap();
        let rest = lemma_walk_entries(es, z, max);
        assert(rest_cs == spec_block_walk(entries_block(es), entry_pos(es, z), max).unwrap());
        let cs = seq![(offset, sp, rf)] + rest_cs;
        let xs = seq![a] + rest;
        assert forall|i: int| 0 <= i < cs.len() implies #[trigger] cut_run(es, cs[i], xs[i], xs[i + 1]) by {
            if i > 0 {
                let i1 = i - 1;
                assert(cs[i] == rest_cs[i1]);
                assert(cut_run(es, rest_cs[i1], rest[i1], rest[i1 + 1]));
                assert(xs[i] == rest[i1]);
                assert(xs[i + 1] == rest[i1 + 1]);
            }
        }
        xs
    }
}

/// The bytes of a block made of entry lines from the LF before entry `x` to the LF before
/// entry `z`, both included, are the block of the entries from `x` to `z`.
pub(crate) proof fn lemma_block_run(es: Seq<(Seq<u8>, Seq<u8>)>, x: int, z: int)
    requires
        entries_readable(es),
        0 <= x <= z <= es.len(),
    ensures
        entries_block(es).subrange(entry_pos(es, x), entry_pos(es, z) + 1) == entries_block(es.subrange(x, z)),
    decreases z - x,
{
    let b = entries_block(es);
    let l = entry_lines(es);
    lemma_block_facts(es, x);
    lemma_block_facts(es, z);
    if z == x {
        assert(es.subrange(x, z) =~= Seq::<(Seq<u8>, Seq<u8>)>::empty());
        assert(b.subrange(entry_pos(es, x), entry_pos(es, z) + 1) =~= seq![LF]);
        assert(entries_block(es.subrange(x, z)) =~= seq![LF]);
    } else {
        lemma_block_run(es, x, z - 1);
        lemma_entry_lines_prefix(es, z - 1);
        lemma_block_facts(es, z - 1);
        let te = temp_entry(es[z - 1].0, es[z - 1].1);
        let px = entry_pos(es, x);
        let py = entry_pos(es, z - 1);
        let pz = entry_pos(es, z);
        assert(l.subrange(py, pz) == te);
        if x < z - 1 {
            lemma_entry_pos_increasing(es, x, z - 1);
        }
        assert(px <= py < pz);
        assert(pz + 1 <= b.len());
        assert(b.subrange(py + 1, pz + 1) =~= l.subrange(py, pz));
        assert(b.subrange(px, pz + 1) =~= b.subrange(px, py + 1) + b.subrange(py + 1, pz + 1));
        let r = es.subrange(x, z);
        assert(r.drop_last() =~= es.subrange(x, z - 1));
        assert(r.last() == es[z - 1]);
        assert(entries_block(r) =~= entries_block(es.subrange(x, z - 1)) + te);
    }
}

/// A run of readable entries is readable.
pub(crate) proof fn lemma_readable_run(es: Seq<(Seq<u8>, Seq<u8>)>, x: int, z: int)
    requires
        entries_readable(es),
        0 <= x <= z <= es.len(),
    ensures
        entries_readable(es.subrange(x, z)),
{
    let r = es.subrange(x, z);
    assert forall|i: int| 0 <= i < r.len() implies {
        &&& !spec_contains_byte(#[trigger] r[i].0, SPACE)
        &&& !spec_contains_byte(r[i].0, LF)
        &&& !spec_contains_byte(r[i].1, LF)
        &&& r[i].1.len() >= 1
        &&& r[i].1[0] == SLASH
    } by {
        assert(r[i] == es[x + i]);
    }
    assert forall|i: int, k: int| 0 <= i < k < r.len() implies #[trigger] r[i].0 != #[trigger] r[k].0 by {
        assert(r[i] == es[x + i]);
        assert(r[k] == es[x + k]);
    }
}

/// Midashi in strictly increasing order.
pub open spec fn entries_sorted(es: Seq<(Seq<u8>, Seq<u8>)>) -> bool {
    forall|i: int, k: int| 0 <= i < k < es.len() ==> lex_lt(#[trigger] es[i].0, #[trigger] es[k].0)
}

/// The first midashi of a cut that runs from entry `x` is entry `x`'s midashi.
proof fn lemma_cut_midashi(es: Seq<(Seq<u8>, Seq<u8>)>, c: UnitCut, x: int, z: int)
    requires
        entries_readable(es),
        cut_run(es, c, x, z),
    ensures
        entries_block(es).subrange(c.0 + 1, c.1) == es[x].0,
{
    let m = es[x].0;
    let te = temp_entry(m, es[x].1);
    lemma_unit_byte(es, x, m.len() as int);
    assert forall|k: int| 0 <= k < m.len() implies entries_block(es).subrange(c.0 + 1, c.1)[k] == m[k] by {
        lemma_unit_byte(es, x, k);
        assert(te[k] == m[k]);
    }
    assert(entries_block(es).subrange(c.0 + 1, c.1) =~= m);
}

/// The bounds of consecutive runs grow.
proof fn lemma_bounds_increasing(es: Seq<(Seq<u8>, Seq<u8>)>, cs: Seq<UnitCut>, xs: Seq<int>, i: int, k: int)
    requires
        xs.len() == cs.len() + 1,
        forall|q: int| 0 <= q < cs.len() ==> #[trigger] cut_run(es, cs[q], xs[q], xs[q + 1]),
        0 <= i < k <= cs.len(),
    ensures
        xs[i] < xs[k],
    decreases k - i,
{
    assert(cut_run(es, cs[k - 1], xs[k - 1], xs[k - 1 + 1]));
    if i < k - 1 {
        lemma_bounds_increasing(es, cs, xs, i, k - 1);
    }
}

/// The run that holds entry `j`.
proof fn lemma_run_of(es: Seq<(Seq<u8>, Seq<u8>)>, cs: Seq<UnitCut>, xs: Seq<int>, j: int) -> (t: int)
    requires
        xs.len() == cs.len() + 1,
        cs.len() >= 1,
        forall|q: int| 0 <= q < cs.len() ==> #[trigger] cut_run(es, cs[q], xs[q], xs[q + 1]),
        xs[0] <= j < xs[cs.len() as int],
    ensures
        0 <= t < cs.len(),
        xs[t] <= j < xs[t + 1],
    decreases cs.len(),
{
    let n = cs.len() as int;
    assert(cut_run(es, cs[n - 1], xs[n - 1], xs[n - 1 + 1]));
    if xs[n - 1] <= j {
        n - 1
    } else {
        let cs2 = cs.drop_last();
        let xs2 = xs.drop_last();
        if n == 1 {
            assert(false);
        }
        assert forall|q: int| 0 <= q < cs2.len() implies #[trigger] cut_run(es, cs2[q], xs2[q], xs2[q + 1]) by {
            assert(cut_run(es, cs[q], xs[q], xs[q + 1]));
        }
        let t = lemma_run_of(es, cs2, xs2, j);
        t
    }
}

/// Looking a midashi up in a block made of sorted, readable entry lines through the units that
/// cutting the block gives (see `spec_block_units`; the units last cut first, as the index
/// holds them): their midashi are in decreasing order, and the unit that the lookup reads, the
/// first whose midashi does not come after the midashi, holds the midashi's candidates, after
/// their leading `/`.
#[verifier::spinoff_prover]
pub proof fn lemma_block_lookup(es: Seq<(Seq<u8>, Seq<u8>)>, base: int, j: int)
    requires
        entries_readable(es),
        entries_sorted(es),
        0 <= j < es.len(),
        spec_block_units(entries_block(es)) is Some,
        base + entries_block(es).len() <= u32::MAX,
        0 <= base,
    ensures
        ({
            let b = entries_block(es);
            let infos = cut_infos(b, base, spec_block_units(b).unwrap());
            &&& strictly_decreasing(view_midashi(infos))
            &&& infos.len() == spec_block_units(b).unwrap().len()
            &&& forall|t: int| #[trigger] first_not_after_from(es[j].0, view_midashi(infos), 0, t) ==> {
                &&& 0 <= t < infos.len()
                &&& 0 <= infos[t].1 - base
                &&& infos[t].1 - base + infos[t].2 <= b.len()
                &&& spec_unit_candidates(b.subrange(infos[t].1 - base, infos[t].1 - base + infos[t].2), es[j].0)
                    == Ok::<Option<Seq<u8>>, SkkError>(Some(es[j].1.subrange(1, es[j].1.len() as int)))
            }
        }),
{
    let b = entries_block(es);
    let n = es.len() as int;
    let max = spec_max_entry_from(b, 0, 0).unwrap();
    let cs = spec_block_units(b).unwrap();
    assert(es.take(0) =~= Seq::<(Seq<u8>, Seq<u8>)>::empty());
    assert(entry_pos(es, 0) == 0);
    let xs = lemma_walk_entries(es, 0, max);
    let nc = cs.len() as int;
    let infos = cut_infos(b, base, cs);
    let vm = view_midashi(infos);
    lemma_block_facts(es, n);
    assert forall|k: int| 0 <= k < nc implies #[trigger] vm[k] == es[xs[nc - 1 - k]].0 by {
        let i = nc - 1 - k;
        assert(cut_run(es, cs[i], xs[i], xs[i + 1]));
        lemma_cut_midashi(es, cs[i], xs[i], xs[i + 1]);
        assert(infos[k] == cut_info(b, base, cs[i]));
    }
    assert(strictly_decreasing(vm)) by {
        assert forall|p: int, q: int| 0 <= p < q < vm.len() implies lex_lt(#[trigger] vm[q], #[trigger] vm[p]) by {
            lemma_bounds_increasing(es, cs, xs, nc - 1 - q, nc - 1 - p);
            assert(cut_run(es, cs[nc - 1 - p], xs[nc - 1 - p], xs[nc - 1 - p + 1]));
            assert(cut_run(es, cs[nc - 1 - q], xs[nc - 1 - q], xs[nc - 1 - q + 1]));
            assert(vm[q] == es[xs[nc - 1 - q]].0);
            assert(vm[p] == es[xs[nc - 1 - p]].0);
        }
    }
    let t0 = lemma_run_of(es, cs, xs, j);
    let tt = nc - 1 - t0;
    assert(infos.len() == nc);
    assert(vm.len() == nc);
    assert(first_not_after_from(es[j].0, vm, 0, tt)) by {
        assert forall|k: int| 0 <= k < tt implies lex_lt(es[j].0, #[trigger] vm[k]) by {
            let i = nc - 1 - k;
            assert(vm[k] == es[xs[i]].0);
            if t0 + 1 < i {
                lemma_bounds_increasing(es, cs, xs, t0 + 1, i);
            }
            assert(cut_run(es, cs[i], xs[i], xs[i + 1]));
            assert(j < xs[i]);
        }
        assert(vm[tt] == es[xs[t0]].0);
        assert(cut_run(es, cs[t0], xs[t0], xs[t0 + 1]));
        if xs[t0] < j {
            assert(lex_lt(es[xs[t0]].0, es[j].0));
        }
        assert(crate::byte_map::lex_le(vm[tt], es[j].0));
    }
    assert forall|t: int| #[trigger] first_not_after_from(es[j].0, vm, 0, t) implies {
        &&& 0 <= t < infos.len()
        &&& 0 <= infos[t].1 - base
        &&& infos[t].1 - base + infos[t].2 <= b.len()
        &&& spec_unit_candidates(b.subrange(infos[t].1 - base, infos[t].1 - base + infos[t].2), es[j].0)
            == Ok::<Option<Seq<u8>>, SkkError>(Some(es[j].1.subrange(1, es[j].1.len() as int)))
    } by {
        crate::dictionary_reader::lemma_first_unique(es[j].0, vm, t, tt);
        let c = cs[t0];
        assert(cut_run(es, c, xs[t0], xs[t0 + 1]));
        assert(infos[tt] == cut_info(b, base, c));
        lemma_block_facts(es, xs[t0 + 1]);
        lemma_block_facts(es, xs[t0]);
        lemma_entry_pos_increasing(es, xs[t0], xs[t0 + 1]);
        lemma_block_facts(es, n);
        assert(0 <= c.0 < c.2 < b.len());
        assert(infos[tt].1 - base == c.0);
        assert(infos[tt].2 == c.2 + 1 - c.0);
        lemma_block_run(es, xs[t0], xs[t0 + 1]);
        lemma_readable_run(es, xs[t0], xs[t0 + 1]);
        let r = es.subrange(xs[t0], xs[t0 + 1]);
        assert(r[j - xs[t0]] == es[j]);
        lemma_unit_lookup(r, j - xs[t0]);
    }
}

/// The indices of the first `n` midashi of `ks` whose midashi key is `key`, in order.
pub open spec fn key_indices(ks: Seq<Seq<u8>>, n: nat, key: Seq<u8>) -> Seq<int>
    decreases n,
{
    if n == 0 {
        Seq::empty()
    } else if spec_midashi_key(ks[n - 1]) == Some(key) {
        key_indices(ks, (n - 1) as nat, key).push(n - 1)
    } else {
        key_indices(ks, (n - 1) as nat, key)
    }
}

/// The entries among the first `n` whose midashi key is `key`, in order.
pub open spec fn key_entries(ks: Seq<Seq<u8>>, vs: Seq<Seq<u8>>, n: nat, key: Seq<u8>) -> Seq<(Seq<u8>, Seq<u8>)> {
    key_indices(ks, n, key).map_values(|i: int| (ks[i], vs[i]))
}

/// The indices of a midashi key are increasing, below `n`, and they are every index whose
/// midashi has that key.
pub(crate) proof fn lemma_key_indices(ks: Seq<Seq<u8>>, n: nat, key: Seq<u8>)
    ensures
        forall|p: int, q: int| 0 <= p < q < key_indices(ks, n, key).len() ==> #[trigger] key_indices(ks, n, key)[p] < #[trigger] key_indices(ks, n, key)[q],
        forall|p: int| 0 <= p < key_indices(ks, n, key).len() ==> 0 <= #[trigger] key_indices(ks, n, key)[p] < n
            && spec_midashi_key(ks[key_indices(ks, n, key)[p]]) == Some(key),
        forall|i: int| 0 <= i < n && spec_midashi_key(ks[i]) == Some(key) ==> exists|p: int| 0 <= p < key_indices(ks, n, key).len() && #[trigger] key_indices(ks, n, key)[p] == i,
    decreases n,
{
    if n > 0 {
        lemma_key_indices(ks, (n - 1) as nat, key);
        let prev = key_indices(ks, (n - 1) as nat, key);
        let cur = key_indices(ks, n, key);
        if spec_midashi_key(ks[n - 1]) == Some(key) {
            assert(cur == prev.push(n - 1));
            assert forall|i: int| 0 <= i < n && spec_midashi_key(ks[i]) == Some(key) implies exists|p: int| 0 <= p < cur.len() && #[trigger] cur[p] == i by {
                if i == n - 1 {
                    assert(cur[prev.len() as int] == i);
                } else {
                    let p = choose|p: int| 0 <= p < prev.len() && #[trigger] prev[p] == i;
                    assert(cur[p] == i);
                }
            }
        }
    }
}

/// The string blocks of the entries are, for each midashi key, the block of its entries.
#[verifier::spinoff_prover]
pub proof fn lemma_temporary_blocks(ks: Seq<Seq<u8>>, vs: Seq<Seq<u8>>, n: nat)
    requires
        n <= ks.len(),
        n <= vs.len(),
        spec_temporary_block_map(ks, vs, n) is Some,
    ensures
        forall|key: Seq<u8>| #[trigger] spec_temporary_block_map(ks, vs, n).unwrap().contains_key(key) ==>
            spec_temporary_block_map(ks, vs, n).unwrap()[key] == entries_block(key_entries(ks, vs, n, key)),
        forall|i: int| 0 <= i < n ==> #[trigger] spec_midashi_key(ks[i]) is Some
            && spec_temporary_block_map(ks, vs, n).unwrap().contains_key(spec_midashi_key(ks[i]).unwrap()),
    decreases n,
{
    if n > 0 {
        let k = (n - 1) as nat;
        lemma_temporary_blocks(ks, vs, k);
        let m = spec_temporary_block_map(ks, vs, k).unwrap();
        let mid = ks[k as int];
        let key = spec_midashi_key(mid).unwrap();
        let m2 = spec_temporary_block_map(ks, vs, n).unwrap();
        let e = (mid, vs[k as int]);
        assert forall|key2: Seq<u8>| #[trigger] m2.contains_key(key2) implies m2[key2] == entries_block(key_entries(ks, vs, n, key2)) by {
            if key2 == key {
                let es = key_entries(ks, vs, k, key);
                assert(key_entries(ks, vs, n, key) =~= es.push(e));
                assert(es.push(e).drop_last() =~= es);
                if m.contains_key(key) {
                    assert(entries_block(es.push(e)) =~= entries_block(es) + temp_entry(e.0, e.1));
                } else {
                    assert(key_indices(ks, k, key).len() == 0) by {
                        lemma_key_indices(ks, k, key);
                        if key_indices(ks, k, key).len() > 0 {
                            let i = key_indices(ks, k, key)[0];
                            assert(spec_midashi_key(ks[i]) == Some(key));
                        }
                    }
                    assert(es =~= Seq::<(Seq<u8>, Seq<u8>)>::empty());
                    assert(entry_lines(es) =~= Seq::<u8>::empty());
                    assert(entries_block(es.push(e)) =~= seq![LF] + temp_entry(e.0, e.1));
                }
            } else {
                assert(key_entries(ks, vs, n, key2) =~= key_entries(ks, vs, k, key2));
            }
        }
    }
}

/// The cuts laid end to end are the block without its last LF.
proof fn lemma_cut_bytes_prefix(es: Seq<(Seq<u8>, Seq<u8>)>, cs: Seq<UnitCut>, xs: Seq<int>, i: int)
    requires
        entries_readable(es),
        xs.len() == cs.len() + 1,
        xs[0] == 0,
        forall|q: int| 0 <= q < cs.len() ==> #[trigger] cut_run(es, cs[q], xs[q], xs[q + 1]),
        0 <= i <= cs.len(),
    ensures
        cut_bytes(entries_block(es), cs.take(i)) == entries_block(es).subrange(0, entry_pos(es, xs[i])),
    decreases i,
{
    let b = entries_block(es);
    if i == 0 {
        assert(es.take(0) =~= Seq::<(Seq<u8>, Seq<u8>)>::empty());
        assert(cs.take(0) =~= Seq::<UnitCut>::empty());
        assert(b.subrange(0, 0) =~= Seq::<u8>::empty());
    } else {
        lemma_cut_bytes_prefix(es, cs, xs, i - 1);
        assert(cut_run(es, cs[i - 1], xs[i - 1], xs[i - 1 + 1]));
        assert(cs.take(i).drop_last() =~= cs.take(i - 1));
        assert(cs.take(i).last() == cs[i - 1]);
        lemma_block_facts(es, xs[i - 1]);
        lemma_block_facts(es, xs[i]);
        lemma_entry_pos_increasing(es, xs[i - 1], xs[i]);
        assert(b.subrange(0, entry_pos(es, xs[i])) =~= b.subrange(0, entry_pos(es, xs[i - 1]))
            + b.subrange(entry_pos(es, xs[i - 1]), entry_pos(es, xs[i])));
    }
}

/// A block made of entry lines, as the dictionary holds it padded, starts with the block.
pub proof fn lemma_aligned_block_prefix(es: Seq<(Seq<u8>, Seq<u8>)>)
    requires
        entries_readable(es),
        es.len() >= 1,
        spec_block_units(entries_block(es)) is Some,
    ensures
        entries_block(es).len() <= aligned_block_after(Seq::empty(), entries_block(es), spec_block_units(entries_block(es)).unwrap()).len(),
        aligned_block_after(Seq::empty(), entries_block(es), spec_block_units(entries_block(es)).unwrap())
            .subrange(0, entries_block(es).len() as int) == entries_block(es),
{
    let b = entries_block(es);
    let n = es.len() as int;
    let max = spec_max_entry_from(b, 0, 0).unwrap();
    let cs = spec_block_units(b).unwrap();
    assert(es.take(0) =~= Seq::<(Seq<u8>, Seq<u8>)>::empty());
    let xs = lemma_walk_entries(es, 0, max);
    lemma_cut_bytes_prefix(es, cs, xs, cs.len() as int);
    assert(cs.take(cs.len() as int) =~= cs);
    lemma_block_facts(es, n);
    let body = Seq::<u8>::empty() + cut_bytes(b, cs) + seq![LF];
    assert(body =~= b.subrange(0, b.len() - 1) + seq![LF]);
    assert(body =~= b);
    let al = aligned_block_after(Seq::empty(), b, cs);
    assert(al.subrange(0, b.len() as int) =~= body);
}

/// What step `k` of building the string blocks `ks`, `vs` leaves in the final index: the
/// record of key `ks[k]` with the units of its block, cut where the blocks area stood before
/// the step, and that block, padded, at that place of the blocks area.
pub proof fn lemma_build_parts(ks: Seq<Seq<u8>>, vs: Seq<Seq<u8>>, n: nat, k: int)
    requires
        build_all(ks, vs, n) is Some,
        0 <= k < n,
    ensures
        build_all(ks, vs, k as nat) is Some,
        spec_block_units(vs[k]) is Some,
        ({
            let st = build_all(ks, vs, n).unwrap();
            let base = build_all(ks, vs, k as nat).unwrap().blocks.len() as int;
            let cs = spec_block_units(vs[k]).unwrap();
            let al = aligned_block_after(Seq::empty(), vs[k], cs);
            &&& st.units.len() == n
            &&& st.units[k] == (ks[k], cut_infos(vs[k], base, cs))
            &&& base + al.len() <= st.blocks.len()
            &&& st.blocks.subrange(base, base + al.len()) == al
            &&& base + vs[k].len() + 96 <= u32::MAX
            &&& unit_bytes(ks[k], cut_infos(vs[k], base, cs)).len() <= u32::MAX
        }),
    decreases n,
{
    lemma_build_all_step(ks, vs, (n - 1) as nat);
    if build_all(ks, vs, (n - 1) as nat) is None {
        assert(false);
    }
    lemma_units_count(ks, vs, (n - 1) as nat);
    let prev = build_all(ks, vs, (n - 1) as nat).unwrap();
    let st = build_all(ks, vs, n).unwrap();
    let key = ks[n - 1];
    let block = vs[n - 1];
    let cs_last = spec_block_units(block).unwrap();
    let infos_last = cut_infos(block, prev.blocks.len() as int, cs_last);
    let al_last = aligned_block_after(Seq::empty(), block, cs_last);
    assert(st == advance(prev, key, infos_last, unit_bytes(key, infos_last), al_last));
    if k == n - 1 {
        assert(st.units[k] == (key, infos_last));
        assert(st.blocks.subrange(prev.blocks.len() as int, (prev.blocks.len() + al_last.len()) as int) =~= al_last);
    } else {
        lemma_build_parts(ks, vs, (n - 1) as nat, k);
        let base = build_all(ks, vs, k as nat).unwrap().blocks.len() as int;
        let cs = spec_block_units(vs[k]).unwrap();
        let al = aligned_block_after(Seq::empty(), vs[k], cs);
        assert(st.units[k] == prev.units[k]);
        assert(st.blocks.subrange(base, base + al.len()) =~= prev.blocks.subrange(base, base + al.len()));
    }
}

/// Building `n` string blocks gives `n` unit records.
pub(crate) proof fn lemma_units_count(ks: Seq<Seq<u8>>, vs: Seq<Seq<u8>>, n: nat)
    ensures
        build_all(ks, vs, n) matches Some(st) ==> st.units.len() == n,
    decreases n,
{
    lemma_build_all_step(ks, vs, 0);
    if n > 0 {
        lemma_units_count(ks, vs, (n - 1) as nat);
        lemma_build_all_step(ks, vs, (n - 1) as nat);
    }
}

/// Where the index keeps the units of `key`: a slot of its vector, or its packed key in its
/// map.
pub open spec fn index_place(key: Seq<u8>) -> (bool, int) {
    match spec_ascii_hiragana_index(key) {
        Some(i) => (true, i),
        None => (false, pack_bytes(key) as int),
    }
}

/// Whether no two of `keys` share a place in the index.
pub open spec fn places_distinct(keys: Seq<Seq<u8>>) -> bool {
    forall|i: int, k: int| 0 <= i < k < keys.len() ==> index_place(#[trigger] keys[i]) != index_place(#[trigger] keys[k])
}

/// The vector of an index built from the empty one keeps its 256 slots.
pub(crate) proof fn lemma_slots_len(units: Seq<(Seq<u8>, Seq<InfoView>)>)
    ensures
        model_apply_all(empty_model(), units).slots.len() == 256,
    decreases units.len(),
{
    if units.len() > 0 {
        lemma_slots_len(units.drop_last());
    }
}

/// Looking a key up in an index that was given units for keys in distinct places gives the
/// units given to that key.
pub proof fn lemma_lookup_applied(units: Seq<(Seq<u8>, Seq<InfoView>)>, k: int)
    requires
        0 <= k < units.len(),
        units[k].1.len() > 0,
        forall|i: int| 0 <= i < units.len() && i != k ==> index_place(#[trigger] units[i].0) != index_place(units[k].0),
    ensures
        model_lookup(model_apply_all(empty_model(), units), units[k].0) == Some(units[k].1),
    decreases units.len(),
{
    let d = units.drop_last();
    let n = units.len() - 1;
    lemma_slots_len(d);
    let m = model_apply_all(empty_model(), d);
    let key = units[k].0;
    let last = units[n];
    if let Some(i) = spec_ascii_hiragana_index(key) {
        assert(0 <= i < 256);
    }
    if let Some(i) = spec_ascii_hiragana_index(last.0) {
        assert(0 <= i < 256);
    }
    if k < n {
        assert forall|i: int| 0 <= i < d.len() && i != k implies index_place(#[trigger] d[i].0) != index_place(d[k].0) by {
            assert(d[i] == units[i]);
        }
        assert(d[k] == units[k]);
        lemma_lookup_applied(d, k);
        assert(index_place(last.0) != index_place(key));
    }
}

/// The entries of a map as pairs of midashi and candidates, in midashi order.
pub open spec fn entry_pairs(m: ByteMap) -> Seq<(Seq<u8>, Seq<u8>)> {
    Seq::new(m.keys().len(), |i: int| (m.keys()[i], m.values()[i]))
}

/// The entries of one midashi key, taken in midashi order from readable entries in midashi
/// order, are readable and in midashi order, and entry `j` is among them where its midashi
/// has that key.
#[verifier::spinoff_prover]
pub(crate) proof fn lemma_key_entries(m: ByteMap, key: Seq<u8>, j: int) -> (p: int)
    requires
        m.wf(),
        entries_readable(entry_pairs(m)),
        0 <= j < m.keys().len(),
        spec_midashi_key(m.keys()[j]) == Some(key),
    ensures
        entries_readable(key_entries(m.keys(), m.values(), m.keys().len(), key)),
        entries_sorted(key_entries(m.keys(), m.values(), m.keys().len(), key)),
        0 <= p < key_entries(m.keys(), m.values(), m.keys().len(), key).len(),
        key_entries(m.keys(), m.values(), m.keys().len(), key)[p] == (m.keys()[j], m.values()[j]),
{
    let ks = m.keys();
    let vs = m.values();
    let n = ks.len();
    let pairs = entry_pairs(m);
    let idx = key_indices(ks, n, key);
    let es = key_entries(ks, vs, n, key);
    lemma_key_indices(ks, n, key);
    assert(vs.len() == n);
    assert forall|q: int| 0 <= q < es.len() implies #[trigger] es[q] == pairs[idx[q]] by {}
    assert forall|q: int| 0 <= q < es.len() implies {
        &&& !spec_contains_byte(#[trigger] es[q].0, SPACE)
        &&& !spec_contains_byte(es[q].0, LF)
        &&& !spec_contains_byte(es[q].1, LF)
        &&& es[q].1.len() >= 1
        &&& es[q].1[0] == SLASH
    } by {
        assert(es[q] == pairs[idx[q]]);
        assert(0 <= idx[q] < n);
    }
    assert forall|q: int, r: int| 0 <= q < r < es.len() implies lex_lt(#[trigger] es[q].0, #[trigger] es[r].0) by {
        assert(es[q] == pairs[idx[q]]);
        assert(es[r] == pairs[idx[r]]);
        assert(idx[q] < idx[r]);
        assert(0 <= idx[q] && idx[r] < n);
        assert(lex_lt(ks[idx[q]], ks[idx[r]]));
    }
    assert forall|q: int, r: int| 0 <= q < r < es.len() implies #[trigger] es[q].0 != #[trigger] es[r].0 by {
        assert(lex_lt(es[q].0, es[r].0));
        crate::byte_map::lemma_lex_irreflexive(es[q].0);
    }
    let p = choose|p: int| 0 <= p < idx.len() && #[trigger] idx[p] == j;
    p
}

/// Looking up a midashi of the jisyo entries in a dictionary that `DictionaryCreator::create`
/// made of them finds its candidates: setting the dictionary up gives the index built from
/// the string blocks (see `lemma_setup_after_create`); the index gives the midashi's key units
/// in decreasing midashi order; and reading the unit that the lookup reads, the first whose
/// midashi does not come after the midashi, adds the midashi's candidates (after their leading
/// `/`) to what the answer holds (see `read_outcome`). This holds where the convert table can
/// be set up, every unit record fits in an index block, no two midashi keys share a place in
/// the index, and the entries are readable (see `entries_readable`).
#[verifier::spinoff_prover]
#[verifier::rlimit(80)]
pub proof fn lemma_lookup_after_create(
    t: EncodingTable,
    table: Seq<u8>,
    jisyos: Seq<Seq<u8>>,
    encoding: Encoding,
    d: Seq<u8>,
    entries: ByteMap,
    blocks: ByteMap,
    j: int,
    initial: Seq<u8>,
)
    requires
        creates(t, table, jisyos, encoding, Ok(d)),
        entries.wf(),
        entries_of_jisyos(t, jisyos, jisyos.len(), Some(encoding)) == Ok::<Map<Seq<u8>, Seq<u8>>, SkkError>(entries.view()),
        blocks.wf(),
        spec_temporary_block_map(entries.keys(), entries.values(), entries.keys().len()) == Some(blocks.view()),
        build_all(blocks.keys(), blocks.values(), blocks.keys().len()) matches Some(st) && records_fit_blocks(st),
        table_well_sized(table),
        forall|k: int| 0 <= k < table_combine_length(table) ==> combine_unit_ok(table, k),
        entries_readable(entry_pairs(entries)),
        places_distinct(blocks.keys()),
        0 <= j < entries.keys().len(),
    ensures
        ({
            let st = build_all(blocks.keys(), blocks.values(), blocks.keys().len()).unwrap();
            let m = entries.keys()[j];
            let c = entries.values()[j];
            &&& spec_setup(d) == Ok::<(Seq<u8>, Seq<(Seq<u8>, Seq<InfoView>)>), SkkError>((table, st.units))
            &&& spec_midashi_key(m) matches Some(key)
            &&& model_lookup(model_apply_all(empty_model(), st.units), key) matches Some(ivs)
            &&& ivs.len() <= 0x3fff_ffff
            &&& strictly_decreasing(view_midashi(ivs))
            &&& forall|u: int| #[trigger] first_not_after_from(m, view_midashi(ivs), 0, u)
                ==> read_outcome(d, le_u32(d, 28), ivs, m, u, initial) == Ok::<Seq<u8>, SkkError>(
                    spec_add_candidates(initial, c.subrange(1, c.len() as int)))
        }),
{
    crate::dictionary_format::lemma_setup_after_create(t, table, jisyos, encoding, d, entries, blocks);
    let st = build_all(blocks.keys(), blocks.values(), blocks.keys().len()).unwrap();
    reveal(creates);
    assert(entries.wf() && entries.view() == entries.view());
    assert(blocks.wf() && blocks.view() == blocks.view());
    assert(is_dictionary_of(d, table, st, encoding));
    lemma_dictionary_blocks(d, table, st, encoding);
    let ks = entries.keys();
    let vs = entries.values();
    let m = ks[j];
    let c = vs[j];
    assert(vs.len() == ks.len());
    lemma_temporary_blocks(ks, vs, ks.len());
    assert(spec_midashi_key(ks[j]) is Some);
    let key = spec_midashi_key(m).unwrap();
    let tmap = spec_temporary_block_map(ks, vs, ks.len()).unwrap();
    assert(tmap.contains_key(key));
    let es = key_entries(ks, vs, ks.len(), key);
    assert(tmap[key] == entries_block(es));
    let p = lemma_key_entries(entries, key, j);
    let bk = blocks.keys();
    let bv = blocks.values();
    assert(blocks.view().contains_key(key));
    let kk = bk.index_of(key);
    assert(bk.contains(key));
    assert(0 <= kk < bk.len() && bk[kk] == key);
    assert(bv[kk] == blocks.view()[key]);
    assert(bv[kk] == entries_block(es));
    lemma_build_parts(bk, bv, bk.len(), kk);
    let base = build_all(bk, bv, kk as nat).unwrap().blocks.len() as int;
    let b = entries_block(es);
    let cs = spec_block_units(b).unwrap();
    let ivs = cut_infos(b, base, cs);
    let al = aligned_block_after(Seq::empty(), b, cs);
    assert(st.units[kk] == (key, ivs));
    assert(es[p].0 == m && es[p].1 == c);
    lemma_block_lookup(es, base, p);
    lemma_aligned_block_prefix(es);
    let vm = view_midashi(ivs);
    assert(ivs.len() > 0) by {
        if ivs.len() == 0 {
            assert(first_not_after_from(m, vm, 0, 0));
        }
    }
    assert forall|i: int| 0 <= i < st.units.len() && i != kk implies index_place(#[trigger] st.units[i].0) != index_place(st.units[kk].0) by {
        lemma_build_parts(bk, bv, bk.len(), i);
        assert(st.units[i].0 == bk[i]);
    }
    lemma_lookup_applied(st.units, kk);
    crate::dictionary_creator::lemma_offsets_bytes_len(ivs);
    assert(ivs.len() <= 0x3fff_ffff);
    let bo = le_u32(d, 28);
    assert forall|u: int| #[trigger] first_not_after_from(m, vm, 0, u) implies read_outcome(d, bo, ivs, m, u, initial)
        == Ok::<Seq<u8>, SkkError>(spec_add_candidates(initial, c.subrange(1, c.len() as int))) by {
        let off = ivs[u].1 - base;
        let len = ivs[u].2 as int;
        assert(0 <= off && off + len <= b.len());
        let start = bo + ivs[u].1;
        assert(d.subrange(start, start + len) =~= st.blocks.subrange(base + off, base + off + len));
        assert(st.blocks.subrange(base + off, base + off + len) =~= al.subrange(off, off + len));
        assert(al.subrange(off, off + len) =~= b.subrange(off, off + len));
        assert(unit_bytes_in(d, bo, ivs[u]) == Some(b.subrange(off, off + len)));
    }
}

} // verus!
