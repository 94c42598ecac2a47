//! What a merge of two candidate lists keeps, stated over the candidates themselves.
use vstd::prelude::*;
use crate::bytes::{lemma_first_index_of_bounds, lemma_first_index_of_char, lemma_split_join, lemma_split_len,
    spec_contains_byte, spec_first_index_of, spec_join, spec_join_terminated, spec_split};
use crate::candidates::{annotation_removed, base_units_of, kept_new_units, merged_base_unit, new_unit_kept,
    spec_dedup, spec_merge, spec_remove_duplicates_bytes, spec_trim_one_slash, unit_keys, SEMICOLON, SLASH};
use crate::dictionary::spec_midashi_candidates;
use crate::encoding::Encoding;
use crate::encoding_simple::EncodingTable;
use crate::jisyo_reader::{entries_after_line, entries_after_lines, spec_encode_midashi_candidates, spec_skip_reason};

verus! {

/// No candidate of `us` holds a `/`.
pub open spec fn slash_free(us: Seq<Seq<u8>>) -> bool {
    forall|i: int| 0 <= i < us.len() ==> !spec_contains_byte(#[trigger] us[i], SLASH)
}

/// No two candidates of `us` have the same text before `;`.
pub open spec fn keys_distinct(us: Seq<Seq<u8>>) -> bool {
    forall|i: int, j: int| 0 <= i < j < us.len() ==> annotation_removed(#[trigger] us[i]) != annotation_removed(#[trigger] us[j])
}

/// Some candidate of `us` has the text `k` before `;`.
pub open spec fn has_key(us: Seq<Seq<u8>>, k: Seq<u8>) -> bool {
    exists|i: int| 0 <= i < us.len() && annotation_removed(#[trigger] us[i]) == k
}

/// `j` is the first candidate of `ns` with the text `k` before `;`.
pub open spec fn first_with_key(ns: Seq<Seq<u8>>, k: Seq<u8>, j: int) -> bool {
    &&& 0 <= j < ns.len()
    &&& annotation_removed(ns[j]) == k
    &&& forall|x: int| 0 <= x < j ==> annotation_removed(#[trigger] ns[x]) != k
}

/// What the merge of `bs` (the base candidates) and `ns` (the new ones) must be, as the list
/// `us` of its candidates: the base candidates in their places, each replaced by the first new
/// candidate with the same text only where that one has an annotation and the base one has
/// none; then new candidates only; every candidate's text of both lists present; and, where
/// each list names each text once, each text once.
pub open spec fn merge_keeps(bs: Seq<Seq<u8>>, ns: Seq<Seq<u8>>, us: Seq<Seq<u8>>) -> bool {
    &&& slash_free(us)
    &&& us.len() >= bs.len()
    &&& forall|i: int| 0 <= i < bs.len() ==> annotation_removed(#[trigger] us[i]) == annotation_removed(bs[i])
    &&& forall|i: int| 0 <= i < bs.len() && spec_contains_byte(bs[i], SEMICOLON) ==> #[trigger] us[i] == bs[i]
    &&& forall|i: int, j: int| 0 <= i < bs.len() && first_with_key(ns, annotation_removed(bs[i]), j)
            && !spec_contains_byte(bs[i], SEMICOLON) ==>
            #[trigger] us[i] == (if spec_contains_byte(#[trigger] ns[j], SEMICOLON) { ns[j] } else { bs[i] })
    &&& forall|i: int| 0 <= i < bs.len() && !has_key(ns, annotation_removed(bs[i])) ==> #[trigger] us[i] == bs[i]
    &&& forall|k: int| bs.len() <= k < us.len() ==> exists|j: int| 0 <= j < ns.len() && #[trigger] us[k] == ns[j]
    &&& forall|j: int| 0 <= j < ns.len() ==> has_key(us, annotation_removed(#[trigger] ns[j]))
    &&& forall|i: int| 0 <= i < bs.len() ==> has_key(us, annotation_removed(#[trigger] bs[i]))
    &&& keys_distinct(bs) && keys_distinct(ns) ==> keys_distinct(us)
}

/// A piece of `spec_split(s, sep)` never holds `sep`.
pub proof fn lemma_split_pieces_no_sep(s: Seq<u8>, sep: u8)
    ensures
        forall|k: int| 0 <= k < spec_split(s, sep).len() ==> !spec_contains_byte(#[trigger] spec_split(s, sep)[k], sep),
    decreases s.len(),
{
    if s.len() > 0 {
        let d = s.drop_last();
        lemma_split_pieces_no_sep(d, sep);
        crate::bytes::lemma_split_len(d, sep);
        let p = spec_split(d, sep);
        assert forall|k: int| 0 <= k < spec_split(s, sep).len() implies !spec_contains_byte(#[trigger] spec_split(s, sep)[k], sep) by {
            if s.last() != sep && k == p.len() - 1 {
                let q = p.last().push(s.last());
                assert(spec_split(s, sep)[k] == q);
                if spec_contains_byte(q, sep) {
                    let i = choose|i: int| 0 <= i < q.len() && q[i] == sep;
                    if i < q.len() - 1 {
                        assert(p[k][i] == sep);
                    }
                }
            } else if k < p.len() {
                assert(spec_split(s, sep)[k] == p[k]);
            } else {
                assert(spec_split(s, sep)[k] == Seq::<u8>::empty());
            }
        }
    }
}

/// Joining two lists, each piece followed by `sep`, is joining each and concatenating.
pub proof fn lemma_join_terminated_append(a: Seq<Seq<u8>>, b: Seq<Seq<u8>>, sep: u8)
    ensures
        spec_join_terminated(a, sep) + spec_join_terminated(b, sep) == spec_join_terminated(a + b, sep),
    decreases b.len(),
{
    if b.len() == 0 {
        assert(a + b =~= a);
        assert(spec_join_terminated(b, sep) =~= Seq::<u8>::empty());
    } else {
        lemma_join_terminated_append(a, b.drop_last(), sep);
        assert((a + b).drop_last() =~= a + b.drop_last());
        assert((a + b).last() == b.last());
        assert(spec_join_terminated(a, sep) + spec_join_terminated(b, sep) =~=
            spec_join_terminated(a, sep) + spec_join_terminated(b.drop_last(), sep) + b.last() + seq![sep]);
    }
}

/// Each kept new unit among the first `n` is a new unit that is kept, and each new unit that
/// is kept is among them; where the keys of the new units are distinct, so are the kept ones'.
proof fn lemma_kept_units(nu: Seq<Seq<u8>>, bk: Seq<Seq<u8>>, n: nat)
    requires
        n <= nu.len(),
    ensures
        ({
            let nk = unit_keys(nu, true);
            let kept = kept_new_units(nu, nk, bk, n);
            &&& forall|p: int| 0 <= p < kept.len() ==>
                    exists|k: int| 0 <= k < n && new_unit_kept(nk, bk, k) && #[trigger] kept[p] == nu[k]
            &&& forall|k: int| 0 <= k < n && new_unit_kept(nk, bk, k) ==> kept.contains(#[trigger] nu[k])
            &&& keys_distinct(nu) ==> forall|p: int, q: int| 0 <= p < q < kept.len() ==>
                    annotation_removed(#[trigger] kept[p]) != annotation_removed(#[trigger] kept[q])
            &&& keys_distinct(nu) ==> forall|p: int| 0 <= p < kept.len() ==>
                    exists|k: int| 0 <= k < n && #[trigger] kept[p] == nu[k]
                        && forall|x: int| n <= x < nu.len() ==> annotation_removed(#[trigger] nu[x]) != annotation_removed(nu[k])
        }),
    decreases n,
{
    let nk = unit_keys(nu, true);
    if n > 0 {
        lemma_kept_units(nu, bk, (n - 1) as nat);
        let prev = kept_new_units(nu, nk, bk, (n - 1) as nat);
        let kept = kept_new_units(nu, nk, bk, n);
        if new_unit_kept(nk, bk, n - 1) {
            assert(kept == prev.push(nu[n - 1]));
            assert forall|p: int| 0 <= p < kept.len() implies
                exists|k: int| 0 <= k < n && new_unit_kept(nk, bk, k) && #[trigger] kept[p] == nu[k] by {
                if p < prev.len() {
                    assert(kept[p] == prev[p]);
                } else {
                    assert(kept[p] == nu[n - 1]);
                }
            }
            assert forall|k: int| 0 <= k < n && new_unit_kept(nk, bk, k) implies kept.contains(#[trigger] nu[k]) by {
                if k < n - 1 {
                    assert(prev.contains(nu[k]));
                    let p = choose|p: int| 0 <= p < prev.len() && prev[p] == nu[k];
                    assert(kept[p] == nu[k]);
                    assert(kept.contains(nu[k]));
                } else {
                    assert(kept[prev.len() as int] == nu[k]);
                    assert(kept.contains(nu[k]));
                }
            }
            if keys_distinct(nu) {
                assert forall|p: int| 0 <= p < kept.len() implies
                    exists|k: int| 0 <= k < n && #[trigger] kept[p] == nu[k]
                        && forall|x: int| n <= x < nu.len() ==> annotation_removed(#[trigger] nu[x]) != annotation_removed(nu[k]) by {
                    if p < prev.len() {
                        assert(kept[p] == prev[p]);
                        let k = choose|k: int| 0 <= k < n - 1 && #[trigger] prev[p] == nu[k]
                            && forall|x: int| n - 1 <= x < nu.len() ==> annotation_removed(#[trigger] nu[x]) != annotation_removed(nu[k]);
                        assert(kept[p] == nu[k]);
                    } else {
                        assert(kept[p] == nu[n - 1]);
                        assert forall|x: int| n <= x < nu.len() implies annotation_removed(#[trigger] nu[x]) != annotation_removed(nu[n - 1]) by {
                            assert(annotation_removed(nu[n - 1]) != annotation_removed(nu[x]));
                        }
                    }
                }
                assert forall|p: int, q: int| 0 <= p < q < kept.len() implies
                    annotation_removed(#[trigger] kept[p]) != annotation_removed(#[trigger] kept[q]) by {
                    assert(kept[p] == prev[p]);
                    if q < prev.len() {
                        assert(kept[q] == prev[q]);
                    } else {
                        let k = choose|k: int| 0 <= k < n - 1 && #[trigger] prev[p] == nu[k]
                            && forall|x: int| n - 1 <= x < nu.len() ==> annotation_removed(#[trigger] nu[x]) != annotation_removed(nu[k]);
                        assert(kept[q] == nu[n - 1]);
                    }
                }
            }
        } else {
            assert(kept == prev);
            assert forall|p: int| 0 <= p < kept.len() implies
                exists|k: int| 0 <= k < n && new_unit_kept(nk, bk, k) && #[trigger] kept[p] == nu[k] by {
                let k = choose|k: int| 0 <= k < n - 1 && new_unit_kept(nk, bk, k) && #[trigger] prev[p] == nu[k];
                assert(kept[p] == nu[k]);
            }
            assert forall|k: int| 0 <= k < n && new_unit_kept(nk, bk, k) implies kept.contains(#[trigger] nu[k]) by {
                if k < n - 1 {
                    assert(prev.contains(nu[k]));
                }
            }
            if keys_distinct(nu) {
                assert forall|p: int| 0 <= p < kept.len() implies
                    exists|k: int| 0 <= k < n && #[trigger] kept[p] == nu[k]
                        && forall|x: int| n <= x < nu.len() ==> annotation_removed(#[trigger] nu[x]) != annotation_removed(nu[k]) by {
                    let k = choose|k: int| 0 <= k < n - 1 && #[trigger] prev[p] == nu[k]
                        && forall|x: int| n - 1 <= x < nu.len() ==> annotation_removed(#[trigger] nu[x]) != annotation_removed(nu[k]);
                    assert(kept[p] == nu[k]);
                }
            }
        }
    }
}

/// The merge of two candidate lists (`a/b`, without the outer `/`) is `/`, then candidates
/// each followed by `/`, as `merge_keeps` says: every candidate's text of both lists stays;
/// a base candidate keeps its place, and its annotation where it has one, and takes the
/// annotation of the first new candidate with its text where it has none; new candidates come
/// after; and no text comes twice where neither list names one twice. So merging `a` and
/// `a;note` gives `/a;note/`, not `/a/a;note/`.
pub proof fn lemma_merge_keeps(base: Seq<u8>, new: Seq<u8>)
    ensures
        exists|us: Seq<Seq<u8>>| merge_keeps(base_units_of(base), spec_split(new, SLASH), us)
            && spec_merge(base, new) == seq![SLASH] + spec_join_terminated(us, SLASH),
{
    let bs = base_units_of(base);
    let ns = spec_split(new, SLASH);
    let nk = unit_keys(ns, true);
    let bk = unit_keys(bs, true);
    let mapped = bs.map_values(|b: Seq<u8>| merged_base_unit(b, ns, true));
    let kept = kept_new_units(ns, nk, bk, ns.len());
    let us = mapped + kept;
    lemma_join_terminated_append(mapped, kept, SLASH);
    lemma_split_pieces_no_sep(new, SLASH);
    lemma_split_pieces_no_sep(base, SLASH);
    lemma_kept_units(ns, bk, ns.len());
    assert(slash_free(bs));
    assert(slash_free(ns));
    // Each base place: its key, and what stands there.
    assert forall|i: int| 0 <= i < bs.len() implies
        annotation_removed(#[trigger] us[i]) == annotation_removed(bs[i])
        && !spec_contains_byte(us[i], SLASH)
        && (us[i] == bs[i] || (exists|j: int| 0 <= j < ns.len() && us[i] == ns[j])) by {
        let b = bs[i];
        assert(us[i] == merged_base_unit(b, ns, true));
        let j = spec_first_index_of(nk, annotation_removed(b));
        lemma_first_index_of_bounds(nk, annotation_removed(b));
        if j >= 0 {
            assert(nk[j] == annotation_removed(ns[j]));
        }
    }
    assert forall|i: int| 0 <= i < bs.len() && spec_contains_byte(bs[i], SEMICOLON) implies #[trigger] us[i] == bs[i] by {
        assert(us[i] == merged_base_unit(bs[i], ns, true));
    }
    assert forall|i: int, j: int| 0 <= i < bs.len() && first_with_key(ns, annotation_removed(bs[i]), j)
        && !spec_contains_byte(bs[i], SEMICOLON) implies
        #[trigger] us[i] == (if spec_contains_byte(#[trigger] ns[j], SEMICOLON) { ns[j] } else { bs[i] }) by {
        assert(us[i] == merged_base_unit(bs[i], ns, true));
        assert forall|x: int| 0 <= x < j implies nk[x] != annotation_removed(bs[i]) by {
            assert(nk[x] == annotation_removed(ns[x]));
        }
        lemma_first_index_of_char(nk, annotation_removed(bs[i]), j);
    }
    assert forall|i: int| 0 <= i < bs.len() && !has_key(ns, annotation_removed(bs[i])) implies #[trigger] us[i] == bs[i] by {
        assert(us[i] == merged_base_unit(bs[i], ns, true));
        let j = spec_first_index_of(nk, annotation_removed(bs[i]));
        lemma_first_index_of_bounds(nk, annotation_removed(bs[i]));
        if j >= 0 {
            assert(annotation_removed(ns[j]) == nk[j]);
        }
    }
    assert forall|k: int| bs.len() <= k < us.len() implies exists|j: int| 0 <= j < ns.len() && #[trigger] us[k] == ns[j] by {
        assert(us[k] == kept[k - bs.len()]);
    }
    assert(slash_free(us)) by {
        assert forall|k: int| 0 <= k < us.len() implies !spec_contains_byte(#[trigger] us[k], SLASH) by {
            if k < bs.len() {
            } else {
                assert(us[k] == kept[k - bs.len()]);
                let j = choose|j: int| 0 <= j < ns.len() && new_unit_kept(nk, bk, j) && #[trigger] kept[k - bs.len()] == ns[j];
            }
        }
    }
    assert forall|i: int| 0 <= i < bs.len() implies has_key(us, annotation_removed(#[trigger] bs[i])) by {
        assert(annotation_removed(us[i]) == annotation_removed(bs[i]));
    }
    assert forall|j: int| 0 <= j < ns.len() implies has_key(us, annotation_removed(#[trigger] ns[j])) by {
        assert(nk[j] == annotation_removed(ns[j]));
        if new_unit_kept(nk, bk, j) {
            assert(kept.contains(ns[j]));
            let p = choose|p: int| 0 <= p < kept.len() && kept[p] == ns[j];
            assert(us[bs.len() + p] == ns[j]);
        } else {
            let i = choose|i: int| 0 <= i < bk.len() && bk[i] == nk[j];
            assert(bk[i] == annotation_removed(bs[i]));
            assert(annotation_removed(us[i]) == annotation_removed(bs[i]));
        }
    }
    if keys_distinct(bs) && keys_distinct(ns) {
        assert forall|i: int, j: int| 0 <= i < j < us.len() implies
            annotation_removed(#[trigger] us[i]) != annotation_removed(#[trigger] us[j]) by {
            if j < bs.len() {
                assert(annotation_removed(bs[i]) != annotation_removed(bs[j]));
            } else if i >= bs.len() {
                assert(us[i] == kept[i - bs.len()]);
                assert(us[j] == kept[j - bs.len()]);
            } else {
                let q = j - bs.len();
                assert(us[j] == kept[q]);
                let k = choose|k: int| 0 <= k < ns.len() && new_unit_kept(nk, bk, k) && #[trigger] kept[q] == ns[k];
                assert(nk[k] == annotation_removed(ns[k]));
                assert forall|x: int| 0 <= x < k implies nk[x] != nk[k] by {
                    assert(nk[x] == annotation_removed(ns[x]));
                    assert(annotation_removed(ns[x]) != annotation_removed(ns[k]));
                }
                lemma_first_index_of_char(nk, nk[k], k);
                assert(!bk.contains(nk[k]));
                assert(bk[i] == annotation_removed(bs[i]));
                assert(annotation_removed(us[i]) == annotation_removed(bs[i]));
            }
        }
    }
    assert(merge_keeps(bs, ns, us));
    assert(spec_merge(base, new) == seq![SLASH] + spec_join_terminated(us, SLASH));
}

/// Removing repeats keeps exactly the elements there were.
pub proof fn lemma_dedup_elements<T>(s: Seq<T>)
    ensures
        forall|x: T| s.contains(x) <==> #[trigger] spec_dedup(s).contains(x),
    decreases s.len(),
{
    if s.len() > 0 {
        let d = s.drop_last();
        lemma_dedup_elements(d);
        assert forall|x: T| s.contains(x) <==> #[trigger] spec_dedup(s).contains(x) by {
            if s.contains(x) {
                let k = choose|k: int| 0 <= k < s.len() && s[k] == x;
                if k < d.len() {
                    assert(d[k] == x);
                }
            }
            if d.contains(x) {
                let k = choose|k: int| 0 <= k < d.len() && d[k] == x;
                assert(s[k] == x);
            }
            if !d.contains(s.last()) {
                let e = spec_dedup(d).push(s.last());
                assert(e[e.len() - 1] == s.last());
                if e.contains(x) {
                    let k = choose|k: int| 0 <= k < e.len() && e[k] == x;
                    if k < e.len() - 1 {
                        assert(spec_dedup(d)[k] == x);
                    }
                }
                if spec_dedup(d).contains(x) {
                    let k = choose|k: int| 0 <= k < spec_dedup(d).len() && spec_dedup(d)[k] == x;
                    assert(e[k] == x);
                }
            }
            assert(s[s.len() - 1] == s.last());
        }
    }
}

/// A leading separator gives an empty first piece, then the pieces of the rest.
pub proof fn lemma_split_leading_sep(y: Seq<u8>, sep: u8)
    ensures
        spec_split(seq![sep] + y, sep) == seq![Seq::<u8>::empty()] + spec_split(y, sep),
    decreases y.len(),
{
    let s = seq![sep] + y;
    if y.len() == 0 {
        assert(s =~= seq![sep]);
        assert(s.drop_last() =~= Seq::<u8>::empty());
        assert(y =~= Seq::<u8>::empty());
        assert(spec_split(Seq::<u8>::empty(), sep) == seq![Seq::<u8>::empty()]);
        assert(s.last() == sep);
        assert(spec_split(s, sep) == spec_split(s.drop_last(), sep).push(Seq::<u8>::empty()));
        assert(spec_split(s, sep) =~= seq![Seq::<u8>::empty()] + spec_split(y, sep));
    } else {
        lemma_split_leading_sep(y.drop_last(), sep);
        lemma_split_len(y.drop_last(), sep);
        assert(s.drop_last() =~= seq![sep] + y.drop_last());
        assert(s.last() == y.last());
        let p = spec_split(y.drop_last(), sep);
        assert(spec_split(s, sep) =~= seq![Seq::<u8>::empty()] + spec_split(y, sep));
    }
}

/// Every non-empty candidate of a candidate list `c` (`/a/b/`) is a candidate of its list
/// with repeats removed and the outer `/` trimmed.
proof fn lemma_trimmed_removed_keeps(c: Seq<u8>)
    ensures
        forall|x: Seq<u8>| x.len() > 0 && spec_split(c, SLASH).contains(x) ==>
            #[trigger] spec_split(spec_trim_one_slash(spec_remove_duplicates_bytes(c)), SLASH).contains(x),
        forall|x: Seq<u8>| spec_split(c, SLASH).contains(x) ==>
            #[trigger] spec_split(spec_remove_duplicates_bytes(c), SLASH).contains(x),
        forall|x: Seq<u8>| #[trigger] spec_split(spec_remove_duplicates_bytes(c), SLASH).contains(x) ==>
            x.len() == 0 || spec_split(c, SLASH).contains(x),
{
    let p = spec_split(c, SLASH);
    let d = spec_dedup(p);
    lemma_dedup_elements(p);
    lemma_split_len(c, SLASH);
    lemma_split_pieces_no_sep(c, SLASH);
    assert(p.contains(p[0]));
    assert(d.contains(p[0]));
    assert(d.len() >= 1);
    assert forall|i: int| 0 <= i < d.len() implies !spec_contains_byte(#[trigger] d[i], SLASH) by {
        assert(d.contains(d[i]));
        assert(p.contains(d[i]));
        let k = choose|k: int| 0 <= k < p.len() && p[k] == d[i];
    }
    lemma_split_join(d, SLASH);
    let j = spec_join(d, SLASH);
    let r = spec_remove_duplicates_bytes(c);
    assert(r == j.push(SLASH));
    assert(r.drop_last() =~= j);
    assert(spec_split(r, SLASH) == d.push(Seq::<u8>::empty()));
    assert forall|x: Seq<u8>| spec_split(c, SLASH).contains(x) implies
        #[trigger] spec_split(spec_remove_duplicates_bytes(c), SLASH).contains(x) by {
        assert(d.contains(x));
        let k = choose|k: int| 0 <= k < d.len() && d[k] == x;
        assert(d.push(Seq::<u8>::empty())[k] == x);
    }
    assert forall|x: Seq<u8>| #[trigger] spec_split(spec_remove_duplicates_bytes(c), SLASH).contains(x) implies
        x.len() == 0 || spec_split(c, SLASH).contains(x) by {
        let e = d.push(Seq::<u8>::empty());
        let k = choose|k: int| 0 <= k < e.len() && e[k] == x;
        if k < d.len() {
            assert(d[k] == x);
            assert(d.contains(x));
        }
    }
    let t = spec_trim_one_slash(r);
    if r.len() == 1 {
        assert(j.len() == 0);
        assert(spec_split(j, SLASH) =~= seq![Seq::<u8>::empty()]);
        assert forall|x: Seq<u8>| x.len() > 0 && spec_split(c, SLASH).contains(x) implies
            #[trigger] spec_split(spec_trim_one_slash(spec_remove_duplicates_bytes(c)), SLASH).contains(x) by {
            assert(d.contains(x));
            let k = choose|k: int| 0 <= k < d.len() && d[k] == x;
        }
    } else if r[0] == SLASH {
        assert(t =~= j.subrange(1, j.len() as int));
        assert(j =~= seq![SLASH] + t);
        lemma_split_leading_sep(t, SLASH);
        assert forall|x: Seq<u8>| x.len() > 0 && spec_split(c, SLASH).contains(x) implies
            #[trigger] spec_split(spec_trim_one_slash(spec_remove_duplicates_bytes(c)), SLASH).contains(x) by {
            assert(d.contains(x));
            let k = choose|k: int| 0 <= k < d.len() && d[k] == x;
            assert(k > 0);
            assert(spec_split(t, SLASH)[k - 1] == x);
        }
    } else {
        assert(t =~= j);
    }
}

/// Reading a jisyo line `midashi /c1/c2/.../` into the entries `m`: the midashi then has
/// entries; no other midashi changes. Where the midashi had none, its candidates are those of
/// the line (and empty pieces), every one of them present. Where it had some (a second jisyo,
/// or a second line), its candidates are `/`, then candidates each followed by `/`, merged from
/// those it had and those of the line as `merge_keeps` says, so that among them stands, without
/// regard to annotations, every candidate it had and every candidate of the line: reading a
/// second line keeps the first line's candidates and adds the new ones.
pub proof fn lemma_line_keeps_candidates(
    t: EncodingTable,
    m: Map<Seq<u8>, Seq<u8>>,
    line: Seq<u8>,
    jisyo_encoding: Encoding,
    output_encoding: Option<Encoding>,
)
    requires
        spec_midashi_candidates(line) is Some,
    ensures
        ({
            let (mi, ca) = spec_midashi_candidates(line)->0;
            let (midashi, candidates) = spec_encode_midashi_candidates(t, mi, ca, jisyo_encoding, output_encoding);
            let r = entries_after_line(t, m, line, jisyo_encoding, output_encoding);
            &&& r.contains_key(midashi)
            &&& forall|k: Seq<u8>| k != midashi ==> (#[trigger] r.contains_key(k) == m.contains_key(k)
                    && (m.contains_key(k) ==> r[k] == m[k]))
            &&& !m.contains_key(midashi) ==> forall|x: Seq<u8>| spec_split(candidates, SLASH).contains(x) ==>
                    #[trigger] spec_split(r[midashi], SLASH).contains(x)
            &&& !m.contains_key(midashi) ==> forall|x: Seq<u8>| #[trigger] spec_split(r[midashi], SLASH).contains(x) ==>
                    x.len() == 0 || spec_split(candidates, SLASH).contains(x)
            &&& m.contains_key(midashi) ==> exists|us: Seq<Seq<u8>>| {
                    &&& slash_free(us)
                    &&& merge_keeps(base_units_of(spec_trim_one_slash(m[midashi])),
                            spec_split(spec_trim_one_slash(spec_remove_duplicates_bytes(candidates)), SLASH), us)
                    &&& r[midashi] == seq![SLASH] + spec_join_terminated(us, SLASH)
                    &&& forall|x: Seq<u8>| x.len() > 0 && spec_split(candidates, SLASH).contains(x) ==>
                            has_key(us, annotation_removed(x))
                    &&& spec_trim_one_slash(m[midashi]).len() > 0 ==> forall|x: Seq<u8>|
                            spec_split(spec_trim_one_slash(m[midashi]), SLASH).contains(x) ==> has_key(us, annotation_removed(x))
                }
        }),
{
    let (mi, ca) = spec_midashi_candidates(line)->0;
    let (midashi, candidates) = spec_encode_midashi_candidates(t, mi, ca, jisyo_encoding, output_encoding);
    let r = entries_after_line(t, m, line, jisyo_encoding, output_encoding);
    let removed = spec_remove_duplicates_bytes(candidates);
    lemma_trimmed_removed_keeps(candidates);
    if m.contains_key(midashi) {
        let base = spec_trim_one_slash(m[midashi]);
        let new = spec_trim_one_slash(removed);
        assert(r[midashi] == spec_merge(base, new));
        lemma_merge_keeps(base, new);
        let us = choose|us: Seq<Seq<u8>>| merge_keeps(base_units_of(base), spec_split(new, SLASH), us)
            && spec_merge(base, new) == seq![SLASH] + spec_join_terminated(us, SLASH);
        assert forall|x: Seq<u8>| x.len() > 0 && spec_split(candidates, SLASH).contains(x) implies
            has_key(us, annotation_removed(x)) by {
            assert(spec_split(new, SLASH).contains(x));
            let j = choose|j: int| 0 <= j < spec_split(new, SLASH).len() && spec_split(new, SLASH)[j] == x;
            assert(has_key(us, annotation_removed(spec_split(new, SLASH)[j])));
        }
        if base.len() > 0 {
            assert forall|x: Seq<u8>| spec_split(base, SLASH).contains(x) implies has_key(us, annotation_removed(x)) by {
                let i = choose|i: int| 0 <= i < spec_split(base, SLASH).len() && spec_split(base, SLASH)[i] == x;
                assert(base_units_of(base) == spec_split(base, SLASH));
                assert(has_key(us, annotation_removed(base_units_of(base)[i])));
            }
        }
    }
}

/// Each piece followed by `sep` is the pieces joined with `sep`, then one `sep`.
pub proof fn lemma_join_terminated_is_join(us: Seq<Seq<u8>>, sep: u8)
    requires
        us.len() >= 1,
    ensures
        spec_join_terminated(us, sep) == spec_join(us, sep).push(sep),
    decreases us.len(),
{
    if us.len() == 1 {
        assert(us.drop_last() =~= Seq::<Seq<u8>>::empty());
        assert(spec_join_terminated(us.drop_last(), sep) =~= Seq::<u8>::empty());
        assert(us.last() == us[0]);
        assert(spec_join(us, sep) == us[0]);
        assert(spec_join_terminated(us, sep) =~= spec_join(us, sep).push(sep));
    } else {
        lemma_join_terminated_is_join(us.drop_last(), sep);
        assert(spec_join_terminated(us, sep) =~= spec_join(us, sep).push(sep));
    }
}

/// The candidates of `/u1/u2/.../` (without `/` in any), the outer `/` trimmed, are `us`.
proof fn lemma_trim_framed(us: Seq<Seq<u8>>)
    requires
        us.len() >= 1,
        slash_free(us),
    ensures
        spec_split(spec_trim_one_slash(seq![SLASH] + spec_join_terminated(us, SLASH)), SLASH) == us,
{
    lemma_join_terminated_is_join(us, SLASH);
    let j = spec_join(us, SLASH);
    let v = seq![SLASH] + spec_join_terminated(us, SLASH);
    assert(v =~= seq![SLASH] + j + seq![SLASH]);
    assert(spec_trim_one_slash(v) =~= j);
    lemma_split_join(us, SLASH);
}

/// The midashi and candidates of a jisyo line, in the encoding the entries take.
pub open spec fn line_entry(t: EncodingTable, line: Seq<u8>, jisyo_encoding: Encoding, output_encoding: Option<Encoding>) -> (Seq<u8>, Seq<u8>) {
    let (mi, ca) = spec_midashi_candidates(line)->0;
    spec_encode_midashi_candidates(t, mi, ca, jisyo_encoding, output_encoding)
}

/// Whether, after the outer `/` is trimmed, some candidate of `v` has the text `k` before `;`.
pub open spec fn candidates_have_key(v: Seq<u8>, k: Seq<u8>) -> bool {
    has_key(spec_split(spec_trim_one_slash(v), SLASH), k)
}

/// Reading a line keeps, for every midashi, the texts of its candidates.
proof fn lemma_line_preserves_key(
    t: EncodingTable,
    m: Map<Seq<u8>, Seq<u8>>,
    line: Seq<u8>,
    jisyo_encoding: Encoding,
    output_encoding: Option<Encoding>,
    mid: Seq<u8>,
    k: Seq<u8>,
)
    requires
        k.len() > 0,
        m.contains_key(mid),
        candidates_have_key(m[mid], k),
    ensures
        entries_after_line(t, m, line, jisyo_encoding, output_encoding).contains_key(mid),
        candidates_have_key(entries_after_line(t, m, line, jisyo_encoding, output_encoding)[mid], k),
{
    if spec_midashi_candidates(line) is Some {
        let (mi, ca) = spec_midashi_candidates(line)->0;
        let (midashi, candidates) = spec_encode_midashi_candidates(t, mi, ca, jisyo_encoding, output_encoding);
        if midashi == mid {
            let r = entries_after_line(t, m, line, jisyo_encoding, output_encoding);
            let base = spec_trim_one_slash(m[mid]);
            let new = spec_trim_one_slash(spec_remove_duplicates_bytes(candidates));
            assert(r[mid] == spec_merge(base, new));
            let ps = spec_split(base, SLASH);
            let i = choose|i: int| 0 <= i < ps.len() && annotation_removed(#[trigger] ps[i]) == k;
            if base.len() == 0 {
                assert(spec_split(base, SLASH) == seq![Seq::<u8>::empty()]);
                assert(annotation_removed(Seq::<u8>::empty()) =~= Seq::<u8>::empty()) by {
                    lemma_first_index_of_bounds(Seq::<u8>::empty(), SEMICOLON);
                }
            }
            assert(base_units_of(base) == ps);
            lemma_merge_keeps(base, new);
            let us = choose|us: Seq<Seq<u8>>| merge_keeps(base_units_of(base), spec_split(new, SLASH), us)
                && spec_merge(base, new) == seq![SLASH] + spec_join_terminated(us, SLASH);
            assert(has_key(us, annotation_removed(ps[i])));
            lemma_trim_framed(us);
        }
    }
}

/// After its own line is read, a midashi has, among its candidates, the text of every
/// candidate of that line.
proof fn lemma_line_gives_key(
    t: EncodingTable,
    m: Map<Seq<u8>, Seq<u8>>,
    line: Seq<u8>,
    jisyo_encoding: Encoding,
    output_encoding: Option<Encoding>,
    x: Seq<u8>,
)
    requires
        spec_midashi_candidates(line) is Some,
        annotation_removed(x).len() > 0,
        spec_split(line_entry(t, line, jisyo_encoding, output_encoding).1, SLASH).contains(x),
    ensures
        ({
            let midashi = line_entry(t, line, jisyo_encoding, output_encoding).0;
            let r = entries_after_line(t, m, line, jisyo_encoding, output_encoding);
            r.contains_key(midashi) && candidates_have_key(r[midashi], annotation_removed(x))
        }),
{
    let (mi, ca) = spec_midashi_candidates(line)->0;
    let (midashi, candidates) = spec_encode_midashi_candidates(t, mi, ca, jisyo_encoding, output_encoding);
    let r = entries_after_line(t, m, line, jisyo_encoding, output_encoding);
    assert(x.len() > 0) by {
        if x.len() == 0 {
            assert(x =~= Seq::<u8>::empty());
            lemma_first_index_of_bounds(x, SEMICOLON);
            assert(annotation_removed(x) =~= x);
        }
    }
    lemma_trimmed_removed_keeps(candidates);
    let removed = spec_remove_duplicates_bytes(candidates);
    if m.contains_key(midashi) {
        lemma_line_keeps_candidates(t, m, line, jisyo_encoding, output_encoding);
        let us = choose|us: Seq<Seq<u8>>| {
            &&& slash_free(us)
            &&& merge_keeps(base_units_of(spec_trim_one_slash(m[midashi])),
                    spec_split(spec_trim_one_slash(spec_remove_duplicates_bytes(candidates)), SLASH), us)
            &&& r[midashi] == seq![SLASH] + spec_join_terminated(us, SLASH)
            &&& forall|y: Seq<u8>| y.len() > 0 && spec_split(candidates, SLASH).contains(y) ==>
                    has_key(us, annotation_removed(y))
            &&& spec_trim_one_slash(m[midashi]).len() > 0 ==> forall|y: Seq<u8>|
                    spec_split(spec_trim_one_slash(m[midashi]), SLASH).contains(y) ==> has_key(us, annotation_removed(y))
        };
        assert(has_key(us, annotation_removed(x)));
        lemma_trim_framed(us);
    } else {
        assert(r[midashi] == removed);
        let ps = spec_split(spec_trim_one_slash(removed), SLASH);
        assert(ps.contains(x));
        let j = choose|j: int| 0 <= j < ps.len() && ps[j] == x;
        assert(annotation_removed(ps[j]) == annotation_removed(x));
    }
}

/// Reading the lines `ls` of jisyo files into the entries `m`: for every line `ls[i]` that is
/// read (not skipped) with a midashi and candidates, the midashi ends with entries among which
/// stands the text (before `;`) of every candidate of that line, whatever lines come after:
/// a later line for the same midashi (in the same or another jisyo) adds to its candidates and
/// loses none.
pub proof fn lemma_lines_keep_candidates(
    t: EncodingTable,
    m: Map<Seq<u8>, Seq<u8>>,
    ls: Seq<Seq<u8>>,
    jisyo_encoding: Encoding,
    output_encoding: Option<Encoding>,
    i: int,
    x: Seq<u8>,
)
    requires
        0 <= i < ls.len(),
        spec_skip_reason(ls[i]) is None,
        spec_midashi_candidates(ls[i]) is Some,
        annotation_removed(x).len() > 0,
        spec_split(line_entry(t, ls[i], jisyo_encoding, output_encoding).1, SLASH).contains(x),
    ensures
        ({
            let midashi = line_entry(t, ls[i], jisyo_encoding, output_encoding).0;
            let r = entries_after_lines(t, m, ls, jisyo_encoding, output_encoding);
            r.contains_key(midashi) && candidates_have_key(r[midashi], annotation_removed(x))
        }),
    decreases ls.len(),
{
    let d = ls.drop_last();
    let m2 = entries_after_lines(t, m, d, jisyo_encoding, output_encoding);
    assert(entries_after_lines(t, m, ls, jisyo_encoding, output_encoding) == if spec_skip_reason(ls.last()) is Some {
        m2
    } else {
        entries_after_line(t, m2, ls.last(), jisyo_encoding, output_encoding)
    }) by {
        reveal(entries_after_lines);
    }
    let midashi = line_entry(t, ls[i], jisyo_encoding, output_encoding).0;
    if i == ls.len() - 1 {
        lemma_line_gives_key(t, m2, ls[i], jisyo_encoding, output_encoding, x);
    } else {
        assert(d[i] == ls[i]);
        lemma_lines_keep_candidates(t, m, d, jisyo_encoding, output_encoding, i, x);
        if spec_skip_reason(ls.last()) is None {
            lemma_line_preserves_key(t, m2, ls.last(), jisyo_encoding, output_encoding, midashi, annotation_removed(x));
        }
    }
}

} // verus!
