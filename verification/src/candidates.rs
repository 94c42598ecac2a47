//! Candidate lists of an SKK dictionary entry, written as `/a/b/c/`.
//!
//! A candidate may carry an annotation after `;` (`/word;note/`). When two lists are merged,
//! a candidate is identified by its text without the annotation; the annotation of the base
//! list wins, unless only the new list has one.
use vstd::prelude::*;
use crate::bytes::{append_bytes, contains_byte, first_index_of_unit, join_bytes, lemma_first_index_of_bounds, lemma_first_index_of_char, lemma_split_pieces_lack, spec_contains_byte, spec_first_index_of, spec_join, spec_join_terminated, spec_split, split_bytes, vv};
use crate::outside::{fx_byte_set_contents, fx_byte_set_insert, fx_byte_set_new};

verus! {

/// Namespace for the operations on candidate lists.
pub struct Candidates;

pub const SLASH: u8 = 0x2f;
pub const SEMICOLON: u8 = 0x3b;

/// The slice with one leading and one trailing `/` removed, where they are present.
pub open spec fn spec_trim_one_slash(s: Seq<u8>) -> Seq<u8> {
    if s.len() == 0 {
        s
    } else {
        let end: int = if s.len() > 1 && s[s.len() - 1] == SLASH { s.len() - 1 } else { s.len() as int };
        let start: int = if s[0] == SLASH { 1 } else { 0 };
        s.subrange(start, end)
    }
}

/// Whether byte `b` must be quoted in a candidate: CR, LF, `\`, `"`, `;` or `/`.
pub open spec fn is_quote_byte(b: u8) -> bool {
    b == 0x0d || b == 0x0a || b == 0x5c || b == 0x22 || b == SEMICOLON || b == SLASH
}

/// `(concat "\0NN")` with the digits `d1`, `d2`, `d3`.
pub open spec fn concat_octal(d1: u8, d2: u8, d3: u8) -> Seq<u8> {
    seq![0x28u8, 0x63, 0x6f, 0x6e, 0x63, 0x61, 0x74, 0x20, 0x22, 0x5c, d1, d2, d3, 0x22, 0x29]
}

/// What one byte of a candidate becomes once quoted: CR and LF vanish, `\` and `"` are
/// escaped with `\`, `;` and `/` become `(concat "\073")` and `(concat "\057")`.
pub open spec fn quote_byte(b: u8) -> Seq<u8> {
    if b == 0x0d || b == 0x0a {
        Seq::<u8>::empty()
    } else if b == 0x5c {
        seq![0x5cu8, 0x5c]
    } else if b == 0x22 {
        seq![0x5cu8, 0x22]
    } else if b == SEMICOLON {
        concat_octal(0x30, 0x37, 0x33)
    } else if b == SLASH {
        concat_octal(0x30, 0x35, 0x37)
    } else {
        seq![b]
    }
}

/// The quoted form of a candidate: each byte quoted in turn.
pub open spec fn spec_quote(s: Seq<u8>) -> Seq<u8>
    decreases s.len(),
{
    if s.len() == 0 {
        Seq::<u8>::empty()
    } else {
        spec_quote(s.drop_last()) + quote_byte(s.last())
    }
}

/// The optional prefix byte as a sequence.
pub open spec fn prefix_seq(prefix: Option<u8>) -> Seq<u8> {
    match prefix {
        Some(p) => seq![p],
        None => Seq::<u8>::empty(),
    }
}

/// A candidate without its annotation: the bytes before the first `;`.
pub open spec fn annotation_removed(u: Seq<u8>) -> Seq<u8> {
    let p = spec_first_index_of(u, SEMICOLON);
    if p < 0 {
        u
    } else {
        u.subrange(0, p)
    }
}

/// The keys by which units are matched: without annotation, or the units themselves.
pub open spec fn unit_keys(units: Seq<Seq<u8>>, annotated: bool) -> Seq<Seq<u8>> {
    if annotated {
        units.map_values(|u: Seq<u8>| annotation_removed(u))
    } else {
        units
    }
}

/// The candidates of a trimmed list; an empty list has none.
pub open spec fn base_units_of(base: Seq<u8>) -> Seq<Seq<u8>> {
    if base.len() == 0 {
        Seq::<Seq<u8>>::empty()
    } else {
        spec_split(base, SLASH)
    }
}

/// The output for base unit `b`: the new unit that matches it takes its place only when the
/// merge is annotated, `b` has no annotation and the new unit has one.
pub open spec fn merged_base_unit(b: Seq<u8>, new_units: Seq<Seq<u8>>, annotated: bool) -> Seq<u8> {
    let j = spec_first_index_of(unit_keys(new_units, annotated), if annotated { annotation_removed(b) } else { b });
    if annotated && j >= 0 && !spec_contains_byte(b, SEMICOLON) && spec_contains_byte(new_units[j], SEMICOLON) {
        new_units[j]
    } else {
        b
    }
}

/// Whether new unit `j` is appended after the base units: it is, unless its key is a key of
/// the base and `j` is the first new unit with that key.
pub open spec fn new_unit_kept(new_keys: Seq<Seq<u8>>, base_keys: Seq<Seq<u8>>, j: int) -> bool {
    !(base_keys.contains(new_keys[j]) && spec_first_index_of(new_keys, new_keys[j]) == j)
}

/// The new units that are kept, among the first `n`, in order.
pub open spec fn kept_new_units(new_units: Seq<Seq<u8>>, new_keys: Seq<Seq<u8>>, base_keys: Seq<Seq<u8>>, n: nat) -> Seq<Seq<u8>>
    decreases n,
{
    if n == 0 {
        Seq::<Seq<u8>>::empty()
    } else {
        let prev = kept_new_units(new_units, new_keys, base_keys, (n - 1) as nat);
        if new_unit_kept(new_keys, base_keys, n - 1) {
            prev.push(new_units[n - 1])
        } else {
            prev
        }
    }
}

/// The merge of two trimmed lists: `/`, each base unit (see `merged_base_unit`) followed by
/// `/`, then each kept new unit (see `new_unit_kept`) followed by `/`.
pub open spec fn spec_merge_with(base: Seq<u8>, new: Seq<u8>, annotated: bool) -> Seq<u8> {
    let base_units = base_units_of(base);
    let new_units = spec_split(new, SLASH);
    let new_keys = unit_keys(new_units, annotated);
    let base_keys = unit_keys(base_units, annotated);
    seq![SLASH]
        + spec_join_terminated(base_units.map_values(|b: Seq<u8>| merged_base_unit(b, new_units, annotated)), SLASH)
        + spec_join_terminated(kept_new_units(new_units, new_keys, base_keys, new_units.len()), SLASH)
}

/// The merge of two trimmed lists, candidates identified without their annotation.
pub open spec fn spec_merge(base: Seq<u8>, new: Seq<u8>) -> Seq<u8> {
    spec_merge_with(base, new, true)
}

/// Each element once, at its first occurrence.
pub open spec fn spec_dedup<T>(s: Seq<T>) -> Seq<T>
    decreases s.len(),
{
    if s.len() == 0 {
        Seq::<T>::empty()
    } else {
        let d = spec_dedup(s.drop_last());
        if s.drop_last().contains(s.last()) {
            d
        } else {
            d.push(s.last())
        }
    }
}

/// A `/`-framed list with every repeated candidate removed (the empty piece before the first
/// `/` included): the distinct pieces joined with `/`, and a closing `/`.
pub open spec fn spec_remove_duplicates_bytes(c: Seq<u8>) -> Seq<u8> {
    spec_join(spec_dedup(spec_split(c, SLASH)), SLASH).push(SLASH)
}

/// Appends the bytes of `(concat "\0NN")`.
fn push_concat_octal(result: &mut Vec<u8>, d1: u8, d2: u8, d3: u8)
    ensures
        final(result)@ == old(result)@ + concat_octal(d1, d2, d3),
{
    let q: [u8; 15] = [0x28, 0x63, 0x6f, 0x6e, 0x63, 0x61, 0x74, 0x20, 0x22, 0x5c, d1, d2, d3, 0x22, 0x29];
    append_bytes(result, &q);
    assert(q@ =~= concat_octal(d1, d2, d3));
}

/// The annotation-removed form of a unit, as a new vector.
fn annotation_removed_vec(u: &[u8]) -> (r: Vec<u8>)
    ensures
        r@ == annotation_removed(u@),
{
    proof {
        lemma_first_index_of_bounds(u@, SEMICOLON);
    }
    let mut i: usize = 0;
    while i < u.len()
        invariant
            0 <= i <= u.len(),
            forall|k: int| 0 <= k < i ==> u@[k] != SEMICOLON,
        decreases u.len() - i,
    {
        if u[i] == SEMICOLON {
            proof {
                lemma_first_index_of_char(u@, SEMICOLON, i as int);
            }
            let mut r: Vec<u8> = Vec::new();
            append_bytes(&mut r, &u[0..i]);
            return r;
        }
        i += 1;
    }
    proof {
        if u@.contains(SEMICOLON) {
            let k = choose|k: int| 0 <= k < u@.len() && u@[k] == SEMICOLON;
            assert(u@[k] != SEMICOLON);
        }
    }
    let mut r: Vec<u8> = Vec::new();
    append_bytes(&mut r, u);
    assert(r@ =~= u@);
    r
}

/// Keys of the units of `units`.
fn unit_keys_vec(units: &Vec<Vec<u8>>, annotated: bool) -> (r: Vec<Vec<u8>>)
    ensures
        vv(r@) == unit_keys(vv(units@), annotated),
{
    let mut r: Vec<Vec<u8>> = Vec::new();
    let mut i: usize = 0;
    let ghost keys = unit_keys(vv(units@), annotated);
    assert(keys.len() == units@.len());
    while i < units.len()
        invariant
            0 <= i <= units.len(),
            keys == unit_keys(vv(units@), annotated),
            keys.len() == units@.len(),
            vv(r@) =~= keys.subrange(0, i as int),
        decreases units.len() - i,
    {
        let ghost want = if annotated { annotation_removed(units@[i as int]@) } else { units@[i as int]@ };
        assert(keys[i as int] == want);
        let c: Vec<u8>;
        if annotated {
            c = annotation_removed_vec(units[i].as_slice());
        } else {
            let mut d: Vec<u8> = Vec::new();
            append_bytes(&mut d, units[i].as_slice());
            assert(d@ =~= units@[i as int]@);
            c = d;
        }
        assert(c@ == want);
        let ghost prev = r@;
        r.push(c);
        assert(vv(r@) =~= vv(prev).push(want));
        i += 1;
    }
    r
}

/// `(exists i. first(new_keys, base_keys[i]) == j)` is the complement of `new_unit_kept`.
proof fn lemma_marked_iff_not_kept(new_keys: Seq<Seq<u8>>, base_keys: Seq<Seq<u8>>, j: int)
    requires
        0 <= j < new_keys.len(),
    ensures
        (exists|i: int| 0 <= i < base_keys.len() && spec_first_index_of(new_keys, #[trigger] base_keys[i]) == j)
            <==> !new_unit_kept(new_keys, base_keys, j),
{
    if exists|i: int| 0 <= i < base_keys.len() && spec_first_index_of(new_keys, #[trigger] base_keys[i]) == j {
        let i = choose|i: int| 0 <= i < base_keys.len() && spec_first_index_of(new_keys, #[trigger] base_keys[i]) == j;
        lemma_first_index_of_bounds(new_keys, base_keys[i]);
        assert(base_keys.contains(new_keys[j]));
    }
    if !new_unit_kept(new_keys, base_keys, j) {
        let i = choose|i: int| 0 <= i < base_keys.len() && base_keys[i] == new_keys[j];
        assert(spec_first_index_of(new_keys, base_keys[i]) == j);
    }
}

impl Candidates {
    /// Whether a candidate holds a byte that must be quoted.
    pub fn need_quote(source: &[u8]) -> (r: bool)
        ensures
            r == exists|i: int| 0 <= i < source@.len() && is_quote_byte(#[trigger] source@[i]),
    {
        let mut i: usize = 0;
        while i < source.len()
            invariant
                0 <= i <= source.len(),
                forall|k: int| 0 <= k < i ==> !is_quote_byte(#[trigger] source@[k]),
            decreases source.len() - i,
        {
            let u = source[i];
            if u == 0x0d || u == 0x0a || u == 0x5c || u == 0x22 || u == SEMICOLON || u == SLASH {
                assert(is_quote_byte(source@[i as int]));
                return true;
            }
            i += 1;
        }
        false
    }

    /// The optional prefix byte followed by the quoted candidate.
    pub fn quote_and_add_prefix(source: &[u8], prefix: Option<u8>) -> (r: Vec<u8>)
        ensures
            r@ == prefix_seq(prefix) + spec_quote(source@),
    {
        let mut result: Vec<u8> = Vec::new();
        if let Some(p) = prefix {
            result.push(p);
        }
        assert(result@ =~= prefix_seq(prefix) + spec_quote(source@.subrange(0, 0)));
        let mut i: usize = 0;
        while i < source.len()
            invariant
                0 <= i <= source.len(),
                result@ == prefix_seq(prefix) + spec_quote(source@.subrange(0, i as int)),
            decreases source.len() - i,
        {
            let u = source[i];
            let ghost before = result@;
            if u == 0x0d || u == 0x0a {
            } else if u == 0x5c {
                result.push(0x5c);
                result.push(0x5c);
            } else if u == 0x22 {
                result.push(0x5c);
                result.push(0x22);
            } else if u == SEMICOLON {
                push_concat_octal(&mut result, 0x30, 0x37, 0x33);
            } else if u == SLASH {
                push_concat_octal(&mut result, 0x30, 0x35, 0x37);
            } else {
                result.push(u);
            }
            assert(result@ =~= before + quote_byte(u));
            assert(source@.subrange(0, i + 1).drop_last() =~= source@.subrange(0, i as int));
            i += 1;
            assert(result@ =~= prefix_seq(prefix) + spec_quote(source@.subrange(0, i as int)));
        }
        assert(source@.subrange(0, source.len() as int) =~= source@);
        result
    }

    /// Removes one `/` at the start and one at the end, where present.
    pub fn trim_one_slash(source: &[u8]) -> (r: &[u8])
        ensures
            r@ == spec_trim_one_slash(source@),
    {
        let mut end = source.len();
        if end > 1 && source[end - 1] == SLASH {
            end -= 1;
        } else if end == 0 {
            return source;
        }
        let start: usize = if source[0] == SLASH { 1 } else { 0 };
        &source[start..end]
    }

    /// Merges two trimmed candidate lists (`a/b/c`, without the outer `/`): see `spec_merge`.
    ///
    /// Where neither list holds a `;`, candidates are compared as they stand, which is the
    /// same as comparing them without annotation.
    pub fn merge_trimmed_slash_candidates(
        base_trimmed_slash_candidates: &[u8],
        new_trimmed_slash_candidates: &[u8],
    ) -> (r: Vec<u8>)
        ensures
            r@ == spec_merge(base_trimmed_slash_candidates@, new_trimmed_slash_candidates@),
    {
        if contains_byte(base_trimmed_slash_candidates, SEMICOLON)
            || contains_byte(new_trimmed_slash_candidates, SEMICOLON)
        {
            Self::merge_annotated_trimmed_slash_candidates(
                base_trimmed_slash_candidates,
                new_trimmed_slash_candidates,
            )
        } else {
            let r = Self::merge_core(base_trimmed_slash_candidates, new_trimmed_slash_candidates, false);
            proof {
                lemma_merge_plain_is_annotated(base_trimmed_slash_candidates@, new_trimmed_slash_candidates@);
            }
            r
        }
    }

    /// Merges two trimmed candidate lists whose candidates may carry annotations.
    fn merge_annotated_trimmed_slash_candidates(
        base_trimmed_slash_candidates: &[u8],
        new_trimmed_slash_candidates: &[u8],
    ) -> (r: Vec<u8>)
        ensures
            r@ == spec_merge(base_trimmed_slash_candidates@, new_trimmed_slash_candidates@),
    {
        Self::merge_core(base_trimmed_slash_candidates, new_trimmed_slash_candidates, true)
    }

    fn merge_core(base: &[u8], new: &[u8], annotated: bool) -> (r: Vec<u8>)
        ensures
            r@ == spec_merge_with(base@, new@, annotated),
    {
        let new_units = split_bytes(new, SLASH);
        let new_keys = unit_keys_vec(&new_units, annotated);
        let ghost nu = vv(new_units@);
        let ghost nk = vv(new_keys@);
        let ghost bu = base_units_of(base@);
        let ghost bk = unit_keys(bu, annotated);
        let mut flags: Vec<bool> = Vec::new();
        let mut k: usize = 0;
        while k < new_units.len()
            invariant
                0 <= k <= new_units.len(),
                flags@.len() == k,
                forall|t: int| 0 <= t < k ==> flags@[t],
            decreases new_units.len() - k,
        {
            flags.push(true);
            k += 1;
        }
        let mut result: Vec<u8> = Vec::new();
        result.push(SLASH);
        let ghost mapped = bu.map_values(|b: Seq<u8>| merged_base_unit(b, nu, annotated));
        if base.len() > 0 {
            let base_units = split_bytes(base, SLASH);
            assert(vv(base_units@) == bu);
            let mut i: usize = 0;
            while i < base_units.len()
                invariant
                    0 <= i <= base_units.len(),
                    vv(base_units@) == bu,
                    bk == unit_keys(bu, annotated),
                    nu == vv(new_units@),
                    nk == vv(new_keys@),
                    nk == unit_keys(nu, annotated),
                    mapped == bu.map_values(|b: Seq<u8>| merged_base_unit(b, nu, annotated)),
                    flags@.len() == new_units.len(),
                    forall|t: int| 0 <= t < flags@.len() ==> (flags@[t] <==> !(exists|s: int| 0 <= s < i && spec_first_index_of(nk, #[trigger] bk[s]) == t)),
                    result@ == seq![SLASH] + spec_join_terminated(mapped.subrange(0, i as int), SLASH),
                decreases base_units.len() - i,
            {
                let b = base_units[i].as_slice();
                let key = if annotated { annotation_removed_vec(b) } else {
                    let mut c: Vec<u8> = Vec::new();
                    append_bytes(&mut c, b);
                    c
                };
                assert(key@ == bk[i as int]);
                let found = first_index_of_unit(&new_keys, key.as_slice());
                let ghost before = result@;
                match found {
                    Some(j) => {
                        proof { lemma_first_index_of_bounds(nk, key@); }
                        flags.set(j, false);
                        if annotated && !contains_byte(b, SEMICOLON) && contains_byte(new_units[j].as_slice(), SEMICOLON) {
                            append_bytes(&mut result, new_units[j].as_slice());
                        } else {
                            append_bytes(&mut result, b);
                        }
                    },
                    None => {
                        append_bytes(&mut result, b);
                    },
                }
                result.push(SLASH);
                proof {
                    assert(before + mapped[i as int] + seq![SLASH] =~= result@);
                    assert(mapped.subrange(0, i + 1).drop_last() =~= mapped.subrange(0, i as int));
                    assert forall|t: int| 0 <= t < flags@.len() implies (flags@[t] <==> !(exists|s: int| 0 <= s < i + 1 && spec_first_index_of(nk, #[trigger] bk[s]) == t)) by {
                        if exists|s: int| 0 <= s < i + 1 && spec_first_index_of(nk, #[trigger] bk[s]) == t {
                            let s = choose|s: int| 0 <= s < i + 1 && spec_first_index_of(nk, #[trigger] bk[s]) == t;
                            if s < i {
                            }
                        }
                    }
                }
                i += 1;
            }
            assert(mapped.subrange(0, base_units.len() as int) =~= mapped);
            assert forall|t: int| 0 <= t < flags@.len() implies (flags@[t] <==> new_unit_kept(nk, bk, t)) by {
                lemma_marked_iff_not_kept(nk, bk, t);
            }
        } else {
            assert(mapped =~= Seq::<Seq<u8>>::empty());
            assert(bk =~= Seq::<Seq<u8>>::empty());
            assert(result@ =~= seq![SLASH] + spec_join_terminated(mapped, SLASH));
            assert forall|t: int| 0 <= t < flags@.len() implies (flags@[t] <==> new_unit_kept(nk, bk, t)) by {
                lemma_marked_iff_not_kept(nk, bk, t);
            }
        }
        let ghost head = result@;
        let mut j: usize = 0;
        while j < new_units.len()
            invariant
                0 <= j <= new_units.len(),
                nu == vv(new_units@),
                nk == vv(new_keys@),
                flags@.len() == new_units.len(),
                forall|t: int| 0 <= t < flags@.len() ==> (flags@[t] <==> new_unit_kept(nk, bk, t)),
                result@ == head + spec_join_terminated(kept_new_units(nu, nk, bk, j as nat), SLASH),
            decreases new_units.len() - j,
        {
            if flags[j] {
                append_bytes(&mut result, new_units[j].as_slice());
                result.push(SLASH);
            }
            j += 1;
            proof {
                let kp = kept_new_units(nu, nk, bk, (j - 1) as nat);
                if new_unit_kept(nk, bk, j - 1) {
                    assert(kept_new_units(nu, nk, bk, j as nat).drop_last() =~= kp);
                }
                assert(result@ =~= head + spec_join_terminated(kept_new_units(nu, nk, bk, j as nat), SLASH));
            }
        }
        result
    }

    /// Each candidate once, in the order of first occurrence.
    pub fn remove_duplicates(candidates: &Vec<Vec<u8>>) -> (r: Vec<Vec<u8>>)
        ensures
            vv(r@) == spec_dedup(vv(candidates@)),
    {
        let mut duplicates_hash = fx_byte_set_new();
        let mut result: Vec<Vec<u8>> = Vec::new();
        let mut i: usize = 0;
        while i < candidates.len()
            invariant
                0 <= i <= candidates.len(),
                forall|x: Seq<u8>| fx_byte_set_contents(duplicates_hash).contains(x) <==> vv(candidates@).subrange(0, i as int).contains(x),
                vv(result@) == spec_dedup(vv(candidates@).subrange(0, i as int)),
            decreases candidates.len() - i,
        {
            let ghost pre = vv(candidates@).subrange(0, i as int);
            let ghost c = vv(candidates@)[i as int];
            assert(vv(candidates@).subrange(0, i + 1).drop_last() =~= pre);
            assert(vv(candidates@).subrange(0, i + 1) =~= pre.push(c));
            let mut key: Vec<u8> = Vec::new();
            append_bytes(&mut key, candidates[i].as_slice());
            let is_new = fx_byte_set_insert(&mut duplicates_hash, key);
            if is_new {
                let mut kept: Vec<u8> = Vec::new();
                append_bytes(&mut kept, candidates[i].as_slice());
                result.push(kept);
            }
            i += 1;
            proof {
                assert forall|x: Seq<u8>| fx_byte_set_contents(duplicates_hash).contains(x) <==> vv(candidates@).subrange(0, i as int).contains(x) by {
                    lemma_push_contains(pre, c, x);
                }
                assert(vv(result@) =~= spec_dedup(vv(candidates@).subrange(0, i as int)));
            }
        }
        assert(vv(candidates@).subrange(0, candidates.len() as int) =~= vv(candidates@));
        result
    }

    /// Removes repeated candidates from a `/`-framed list (`/a/b/c/`).
    pub fn remove_duplicates_bytes(candidates_bytes: &[u8]) -> (r: Vec<u8>)
        ensures
            r@ == spec_remove_duplicates_bytes(candidates_bytes@),
    {
        let splited_candidates = split_bytes(candidates_bytes, SLASH);
        let removed = Self::remove_duplicates(&splited_candidates);
        let mut result = join_bytes(&removed, SLASH);
        result.push(SLASH);
        result
    }
}

proof fn lemma_push_contains<T>(s: Seq<T>, c: T, x: T)
    ensures
        s.push(c).contains(x) <==> (s.contains(x) || x == c),
{
    if s.contains(x) {
        let k = choose|k: int| 0 <= k < s.len() && s[k] == x;
        assert(s.push(c)[k] == x);
    }
    if x == c {
        assert(s.push(c)[s.len() as int] == x);
    }
    if s.push(c).contains(x) {
        let k = choose|k: int| 0 <= k < s.push(c).len() && s.push(c)[k] == x;
        if k < s.len() {
            assert(s[k] == x);
        }
    }
}

/// Where neither list holds a `;`, the plain merge is the annotated merge.
proof fn lemma_merge_plain_is_annotated(base: Seq<u8>, new: Seq<u8>)
    requires
        !spec_contains_byte(base, SEMICOLON),
        !spec_contains_byte(new, SEMICOLON),
    ensures
        spec_merge_with(base, new, false) == spec_merge_with(base, new, true),
{
    let bu = base_units_of(base);
    let nu = spec_split(new, SLASH);
    lemma_split_pieces_lack(new, SLASH, SEMICOLON);
    lemma_split_pieces_lack(base, SLASH, SEMICOLON);
    assert forall|u: Seq<u8>| !spec_contains_byte(u, SEMICOLON) implies annotation_removed(u) == u by {
        lemma_first_index_of_bounds(u, SEMICOLON);
        if u.contains(SEMICOLON) {
            let k = choose|k: int| 0 <= k < u.len() && u[k] == SEMICOLON;
            assert(spec_contains_byte(u, SEMICOLON));
        }
    }
    assert(unit_keys(nu, true) =~= nu) by {
        assert forall|k: int| 0 <= k < nu.len() implies unit_keys(nu, true)[k] == nu[k] by {
            assert(!spec_contains_byte(nu[k], SEMICOLON));
        }
    }
    assert(unit_keys(bu, true) =~= bu) by {
        assert forall|k: int| 0 <= k < bu.len() implies unit_keys(bu, true)[k] == bu[k] by {
            assert(!spec_contains_byte(bu[k], SEMICOLON));
        }
    }
    assert(bu.map_values(|b: Seq<u8>| merged_base_unit(b, nu, false)) =~= bu.map_values(|b: Seq<u8>| merged_base_unit(b, nu, true))) by {
        assert forall|k: int| 0 <= k < bu.len() implies merged_base_unit(bu[k], nu, false) == merged_base_unit(bu[k], nu, true) by {
            let b = bu[k];
            assert(!spec_contains_byte(b, SEMICOLON));
            assert(annotation_removed(b) == b);
            let j = spec_first_index_of(nu, b);
            lemma_first_index_of_bounds(nu, b);
            if j >= 0 {
                assert(!spec_contains_byte(nu[j], SEMICOLON));
            }
        }
    }
}


/// A candidate that needs no quoting is left as it is: where no byte of `s` is a quote byte
/// (`need_quote` is false), its quoted form is `s`.
pub proof fn lemma_quote_unquoted(s: Seq<u8>)
    requires
        forall|i: int| 0 <= i < s.len() ==> !is_quote_byte(#[trigger] s[i]),
    ensures
        spec_quote(s) == s,
    decreases s.len(),
{
    if s.len() > 0 {
        assert forall|i: int| 0 <= i < s.drop_last().len() implies !is_quote_byte(#[trigger] s.drop_last()[i]) by {
            assert(s.drop_last()[i] == s[i]);
        }
        lemma_quote_unquoted(s.drop_last());
        assert(!is_quote_byte(s[s.len() - 1]));
        assert(s.drop_last().push(s.last()) =~= s);
    }
}
} // verus!
