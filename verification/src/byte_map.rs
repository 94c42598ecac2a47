//! Byte strings in lexicographic order, and a map from byte strings kept sorted by key.
use vstd::prelude::*;
use crate::bytes::append_bytes;

verus! {

/// `a` comes before `b` in lexicographic (byte-wise, then shorter first) order, as `Ord` on
/// `[u8]` orders them.
pub open spec fn lex_lt(a: Seq<u8>, b: Seq<u8>) -> bool
    decreases a.len(),
{
    if a.len() == 0 {
        b.len() > 0
    } else if b.len() == 0 {
        false
    } else if a[0] < b[0] {
        true
    } else if a[0] > b[0] {
        false
    } else {
        lex_lt(a.drop_first(), b.drop_first())
    }
}

/// `a` does not come after `b`.
pub open spec fn lex_le(a: Seq<u8>, b: Seq<u8>) -> bool {
    lex_lt(a, b) || a == b
}

pub proof fn lemma_lex_irreflexive(a: Seq<u8>)
    ensures
        !lex_lt(a, a),
    decreases a.len(),
{
    if a.len() > 0 {
        lemma_lex_irreflexive(a.drop_first());
    }
}

pub proof fn lemma_lex_transitive(a: Seq<u8>, b: Seq<u8>, c: Seq<u8>)
    requires
        lex_lt(a, b),
        lex_lt(b, c),
    ensures
        lex_lt(a, c),
    decreases a.len(),
{
    if a.len() > 0 && b.len() > 0 && c.len() > 0 && a[0] == b[0] && b[0] == c[0] {
        lemma_lex_transitive(a.drop_first(), b.drop_first(), c.drop_first());
    }
}

pub proof fn lemma_lex_total(a: Seq<u8>, b: Seq<u8>)
    ensures
        lex_lt(a, b) || lex_lt(b, a) || a == b,
    decreases a.len(),
{
    if a.len() == 0 && b.len() == 0 {
        assert(a =~= b);
    } else if a.len() > 0 && b.len() > 0 && a[0] == b[0] {
        lemma_lex_total(a.drop_first(), b.drop_first());
        if a.drop_first() == b.drop_first() {
            assert(a.drop_first().len() == b.drop_first().len());
            assert(a.len() == b.len());
            assert forall|i: int| 0 <= i < a.len() implies a[i] == b[i] by {
                if i > 0 {
                    assert(a[i] == a.drop_first()[i - 1]);
                    assert(b[i] == b.drop_first()[i - 1]);
                }
            }
            assert(a =~= b);
        }
    }
}

pub proof fn lemma_lex_asymmetric(a: Seq<u8>, b: Seq<u8>)
    requires
        lex_lt(a, b),
    ensures
        !lex_lt(b, a),
        a != b,
{
    lemma_lex_irreflexive(a);
    if lex_lt(b, a) {
        lemma_lex_transitive(a, b, a);
    }
}

/// Compares two byte strings: -1, 0 or 1 as `a` comes before, equals or comes after `b`.
pub fn compare_bytes(a: &[u8], b: &[u8]) -> (r: i8)
    ensures
        r == -1 <==> lex_lt(a@, b@),
        r == 0 <==> a@ == b@,
        r == 1 <==> lex_lt(b@, a@),
        r == -1 || r == 0 || r == 1,
{
    let mut i: usize = 0;
    while i < a.len() && i < b.len()
        invariant
            0 <= i <= a.len(),
            i <= b.len(),
            a@.subrange(0, i as int) == b@.subrange(0, i as int),
        decreases a.len() - i,
    {
        if a[i] != b[i] {
            proof {
                lemma_lex_prefix(a@, b@, i as int);
                lemma_lex_asymmetric_cases(a@, b@);
            }
            if a[i] < b[i] {
                return -1;
            } else {
                return 1;
            }
        }
        assert(a@.subrange(0, i + 1) =~= a@.subrange(0, i as int).push(a@[i as int]));
        assert(b@.subrange(0, i + 1) =~= b@.subrange(0, i as int).push(b@[i as int]));
        i += 1;
    }
    proof {
        lemma_lex_prefix(a@, b@, i as int);
        lemma_lex_asymmetric_cases(a@, b@);
        if a.len() == b.len() {
            assert(a@ =~= a@.subrange(0, i as int));
            assert(b@ =~= b@.subrange(0, i as int));
        }
    }
    if a.len() < b.len() {
        -1
    } else if a.len() > b.len() {
        1
    } else {
        0
    }
}

proof fn lemma_lex_asymmetric_cases(a: Seq<u8>, b: Seq<u8>)
    ensures
        lex_lt(a, b) ==> !lex_lt(b, a) && a != b,
        lex_lt(b, a) ==> !lex_lt(a, b) && a != b,
        a == b ==> !lex_lt(a, b),
{
    if lex_lt(a, b) {
        lemma_lex_asymmetric(a, b);
    }
    if lex_lt(b, a) {
        lemma_lex_asymmetric(b, a);
    }
    lemma_lex_irreflexive(a);
}

/// Where `a` and `b` agree on their first `i` bytes, their order is decided from `i` on.
proof fn lemma_lex_prefix(a: Seq<u8>, b: Seq<u8>, i: int)
    requires
        0 <= i <= a.len(),
        i <= b.len(),
        a.subrange(0, i) == b.subrange(0, i),
    ensures
        i < a.len() && i < b.len() && a[i] < b[i] ==> lex_lt(a, b),
        i < a.len() && i < b.len() && a[i] > b[i] ==> lex_lt(b, a),
        i == a.len() && i < b.len() ==> lex_lt(a, b),
        i == b.len() && i < a.len() ==> lex_lt(b, a),
        i == a.len() && i == b.len() ==> !lex_lt(a, b) && !lex_lt(b, a),
    decreases i,
{
    if i > 0 {
        assert(a[0] == a.subrange(0, i)[0]);
        assert(b[0] == b.subrange(0, i)[0]);
        assert(a.drop_first().subrange(0, i - 1) =~= a.subrange(0, i).drop_first());
        assert(b.drop_first().subrange(0, i - 1) =~= b.subrange(0, i).drop_first());
        lemma_lex_prefix(a.drop_first(), b.drop_first(), i - 1);
    } else {
        lemma_lex_irreflexive(a);
        if i == a.len() && i == b.len() {
            assert(a =~= b);
        }
    }
}

/// The keys of a sequence of entries.
pub open spec fn keys_of(entries: Seq<(Vec<u8>, Vec<u8>)>) -> Seq<Seq<u8>> {
    entries.map_values(|e: (Vec<u8>, Vec<u8>)| e.0@)
}

/// The values of a sequence of entries.
pub open spec fn values_of(entries: Seq<(Vec<u8>, Vec<u8>)>) -> Seq<Seq<u8>> {
    entries.map_values(|e: (Vec<u8>, Vec<u8>)| e.1@)
}

/// Keys in strictly increasing order.
pub open spec fn strictly_sorted(keys: Seq<Seq<u8>>) -> bool {
    forall|i: int, j: int| 0 <= i < j < keys.len() ==> lex_lt(#[trigger] keys[i], #[trigger] keys[j])
}

/// A map from byte strings to byte strings, iterated in key order.
pub struct ByteMap {
    pub entries: Vec<(Vec<u8>, Vec<u8>)>,
}

impl ByteMap {
    /// The keys in increasing order, without repetition.
    pub open spec fn wf(&self) -> bool {
        strictly_sorted(keys_of(self.entries@))
    }

    /// The keys, in order.
    pub open spec fn keys(&self) -> Seq<Seq<u8>> {
        keys_of(self.entries@)
    }

    /// The values, in key order.
    pub open spec fn values(&self) -> Seq<Seq<u8>> {
        values_of(self.entries@)
    }

    /// The map that the entries describe.
    pub open spec fn view(&self) -> Map<Seq<u8>, Seq<u8>> {
        Map::new(|k: Seq<u8>| self.keys().contains(k),
            |k: Seq<u8>| self.values()[self.keys().index_of(k)])
    }

    /// An empty map.
    pub fn new() -> (r: Self)
        ensures
            r.wf(),
            r.keys() == Seq::<Seq<u8>>::empty(),
    {
        let r = ByteMap { entries: Vec::new() };
        assert(r.keys() =~= Seq::<Seq<u8>>::empty());
        r
    }

    /// The number of entries.
    pub fn len(&self) -> (r: usize)
        ensures
            r == self.keys().len(),
    {
        self.entries.len()
    }

    /// The position at which `key` stands or would stand.
    fn position(&self, key: &[u8]) -> (r: (usize, bool))
        requires
            self.wf(),
        ensures
            r.0 <= self.keys().len(),
            forall|i: int| 0 <= i < r.0 ==> lex_lt(#[trigger] self.keys()[i], key@),
            forall|i: int| r.0 <= i < self.keys().len() ==> lex_le(key@, #[trigger] self.keys()[i]),
            r.1 <==> (r.0 < self.keys().len() && self.keys()[r.0 as int] == key@),
    {
        let ghost ks = self.keys();
        let mut lo: usize = 0;
        let mut hi: usize = self.entries.len();
        while lo < hi
            invariant
                ks == self.keys(),
                self.wf(),
                0 <= lo <= hi <= ks.len(),
                forall|i: int| 0 <= i < lo ==> lex_lt(#[trigger] ks[i], key@),
                forall|i: int| hi <= i < ks.len() ==> lex_le(key@, #[trigger] ks[i]),
            decreases hi - lo,
        {
            let mid = lo + (hi - lo) / 2;
            let c = compare_bytes(self.entries[mid].0.as_slice(), key);
            assert(self.entries@[mid as int].0@ == ks[mid as int]);
            if c == -1 {
                proof {
                    assert forall|i: int| 0 <= i < mid + 1 implies lex_lt(#[trigger] ks[i], key@) by {
                        if i < mid {
                            lemma_lex_transitive(ks[i], ks[mid as int], key@);
                        }
                    }
                }
                lo = mid + 1;
            } else {
                proof {
                    assert forall|i: int| mid <= i < ks.len() implies lex_le(key@, #[trigger] ks[i]) by {
                        if i > mid {
                            if c == 0 {
                            } else {
                                lemma_lex_transitive(key@, ks[mid as int], ks[i]);
                            }
                        }
                    }
                }
                hi = mid;
            }
        }
        let found = lo < self.entries.len() && compare_bytes(self.entries[lo].0.as_slice(), key) == 0;
        proof {
            if lo < ks.len() {
                assert(self.entries@[lo as int].0@ == ks[lo as int]);
            }
        }
        (lo, found)
    }

    /// The index of `key`, if the map holds it.
    pub fn find(&self, key: &[u8]) -> (r: Option<usize>)
        requires
            self.wf(),
        ensures
            match r {
                Some(i) => i < self.keys().len() && self.keys()[i as int] == key@,
                None => !self.keys().contains(key@),
            },
    {
        let (p, found) = self.position(key);
        if found {
            Some(p)
        } else {
            proof {
                if self.keys().contains(key@) {
                    let i = choose|i: int| 0 <= i < self.keys().len() && self.keys()[i] == key@;
                    if i < p {
                        lemma_lex_irreflexive(key@);
                    } else {
                        assert(lex_le(key@, self.keys()[i]));
                        if i > p {
                            assert(lex_le(key@, self.keys()[p as int]));
                            lemma_lex_asymmetric_cases(self.keys()[p as int], key@);
                            if lex_lt(key@, self.keys()[p as int]) {
                                assert(lex_lt(self.keys()[p as int], self.keys()[i]));
                                lemma_lex_transitive(key@, self.keys()[p as int], key@);
                                lemma_lex_irreflexive(key@);
                            }
                        }
                    }
                }
            }
            None
        }
    }

    /// Sets `key` to `value`: replaces the value of a key that the map holds, else inserts the
    /// key at its place in the order.
    pub fn insert(&mut self, key: Vec<u8>, value: Vec<u8>)
        requires
            old(self).wf(),
        ensures
            final(self).wf(),
            old(self).keys().contains(key@) ==> ({
                let i = old(self).keys().index_of(key@);
                &&& final(self).keys() == old(self).keys()
                &&& final(self).values() == old(self).values().update(i, value@)
            }),
            !old(self).keys().contains(key@) ==> (exists|p: int| 0 <= p <= old(self).keys().len() && {
                &&& #[trigger] final(self).keys() == old(self).keys().insert(p, key@)
                &&& final(self).values() == old(self).values().insert(p, value@)
            }),
    {
        let (p, found) = self.position(key.as_slice());
        let ghost ks = self.keys();
        let ghost vs = self.values();
        if found {
            let k2 = key;
            self.entries.set(p, (k2, value));
            proof {
                assert(final_keys_eq(self.keys(), ks));
                assert(ks.index_of(ks[p as int]) == p) by {
                    lemma_sorted_index_of(ks, p as int);
                }
                assert(self.values() =~= vs.update(p as int, value@));
            }
        } else {
            let ghost kv = key@;
            self.entries.insert(p, (key, value));
            proof {
                assert(self.keys() =~= ks.insert(p as int, kv));
                assert(self.values() =~= vs.insert(p as int, value@));
                let nk = self.keys();
                if p < ks.len() {
                    assert(ks[p as int] != kv);
                    assert(lex_le(kv, ks[p as int]));
                    assert(lex_lt(kv, ks[p as int]));
                }
                assert forall|i: int, j: int| 0 <= i < j < nk.len() implies lex_lt(#[trigger] nk[i], #[trigger] nk[j]) by {
                    if j < p {
                        assert(nk[i] == ks[i] && nk[j] == ks[j]);
                    } else if i > p {
                        assert(nk[i] == ks[i - 1] && nk[j] == ks[j - 1]);
                    } else if i == p {
                        assert(nk[i] == kv && nk[j] == ks[j - 1]);
                        if j - 1 > p {
                            assert(lex_lt(ks[p as int], ks[j - 1]));
                            lemma_lex_transitive(kv, ks[p as int], ks[j - 1]);
                        }
                    } else if j == p {
                        assert(nk[i] == ks[i] && nk[j] == kv);
                    } else {
                        assert(nk[i] == ks[i] && nk[j] == ks[j - 1]);
                        assert(i < j - 1);
                    }
                }
                if ks.contains(kv) {
                    let q = choose|q: int| 0 <= q < ks.len() && ks[q] == kv;
                    if q < p {
                        lemma_lex_irreflexive(kv);
                    } else if q > p {
                        assert(lex_le(kv, ks[p as int]));
                        lemma_lex_asymmetric_cases(ks[p as int], kv);
                        if lex_lt(kv, ks[p as int]) {
                            lemma_lex_transitive(kv, ks[p as int], kv);
                            lemma_lex_irreflexive(kv);
                        }
                    }
                }
                assert(self.keys() == ks.insert(p as int, kv));
            }
        }
    }

    /// The key and the value at index `i`.
    pub fn get_index(&self, i: usize) -> (r: (&Vec<u8>, &Vec<u8>))
        requires
            i < self.keys().len(),
        ensures
            r.0@ == self.keys()[i as int],
            r.1@ == self.values()[i as int],
    {
        let e = &self.entries[i];
        (&e.0, &e.1)
    }

}

spec fn final_keys_eq(a: Seq<Seq<u8>>, b: Seq<Seq<u8>>) -> bool {
    a =~= b
}

/// In a strictly sorted sequence, the index of an element is where it stands.
pub proof fn lemma_sorted_index_of(ks: Seq<Seq<u8>>, p: int)
    requires
        strictly_sorted(ks),
        0 <= p < ks.len(),
    ensures
        ks.index_of(ks[p]) == p,
{
    assert(ks.contains(ks[p]));
    let q = ks.index_of(ks[p]);
    assert(ks[q] == ks[p]);
    if q < p {
        lemma_lex_irreflexive(ks[p]);
    } else if q > p {
        lemma_lex_irreflexive(ks[p]);
    }
}


impl ByteMap {
    /// Inserting `key` with `value` makes the map `old.view().insert(key, value)`.
    pub proof fn lemma_insert_view(old: ByteMap, new: ByteMap, key: Seq<u8>, value: Seq<u8>)
        requires
            old.wf(),
            new.wf(),
            old.keys().contains(key) ==> ({
                let i = old.keys().index_of(key);
                &&& new.keys() == old.keys()
                &&& new.values() == old.values().update(i, value)
            }),
            !old.keys().contains(key) ==> (exists|p: int| 0 <= p <= old.keys().len() && {
                &&& #[trigger] new.keys() == old.keys().insert(p, key)
                &&& new.values() == old.values().insert(p, value)
            }),
        ensures
            new.view() == old.view().insert(key, value),
    {
        let ok = old.keys();
        let nk = new.keys();
        if ok.contains(key) {
            let i = ok.index_of(key);
            assert forall|k: Seq<u8>| nk.contains(k) implies #[trigger] new.view()[k] == old.view().insert(key, value)[k] by {
                let a = nk.index_of(k);
                if k == key {
                    assert(a == i);
                } else {
                    assert(ok.index_of(k) == a);
                }
            }
            assert(new.view() =~= old.view().insert(key, value));
        } else {
            let p = choose|p: int| 0 <= p <= ok.len() && {
                &&& #[trigger] new.keys() == ok.insert(p, key)
                &&& new.values() == old.values().insert(p, value)
            };
            assert(nk[p] == key);
            assert(nk.index_of(key) == p) by {
                lemma_sorted_index_of(nk, p);
            }
            assert forall|k: Seq<u8>| #[trigger] nk.contains(k) <==> (ok.contains(k) || k == key) by {
                if nk.contains(k) {
                    let a = choose|a: int| 0 <= a < nk.len() && nk[a] == k;
                    if a < p { assert(ok[a] == k); } else if a > p { assert(ok[a - 1] == k); }
                }
                if ok.contains(k) {
                    let a = choose|a: int| 0 <= a < ok.len() && ok[a] == k;
                    if a < p { assert(nk[a] == k); } else { assert(nk[a + 1] == k); }
                }
            }
            assert forall|k: Seq<u8>| nk.contains(k) implies #[trigger] new.view()[k] == old.view().insert(key, value)[k] by {
                if k != key {
                    let a = ok.index_of(k);
                    assert(ok[a] == k);
                    if a < p {
                        assert(nk[a] == k);
                        lemma_sorted_index_of(nk, a);
                    } else {
                        assert(nk[a + 1] == k);
                        lemma_sorted_index_of(nk, a + 1);
                    }
                }
            }
            assert(new.view() =~= old.view().insert(key, value));
        }
    }

    /// The value of `key`, if the map holds it.
    pub fn get(&self, key: &[u8]) -> (r: Option<&Vec<u8>>)
        requires
            self.wf(),
        ensures
            match r {
                Some(v) => self.view().contains_key(key@) && v@ == self.view()[key@],
                None => !self.view().contains_key(key@),
            },
    {
        match self.find(key) {
            Some(i) => {
                proof { lemma_sorted_index_of(self.keys(), i as int); }
                Some(&self.entries[i].1)
            },
            None => None,
        }
    }
}

/// Two strictly sorted sequences with the same elements are equal.
pub proof fn lemma_sorted_same_elements(a: Seq<Seq<u8>>, b: Seq<Seq<u8>>)
    requires
        strictly_sorted(a),
        strictly_sorted(b),
        forall|x: Seq<u8>| a.contains(x) <==> b.contains(x),
    ensures
        a == b,
    decreases a.len(),
{
    if a.len() == 0 {
        if b.len() > 0 {
            assert(b.contains(b[0]));
        }
        assert(a =~= b);
    } else {
        assert(a.contains(a[0]));
        assert(b.len() > 0);
        assert(b.contains(b[0]));
        let ia = choose|i: int| 0 <= i < a.len() && a[i] == b[0];
        let ib = choose|i: int| 0 <= i < b.len() && b[i] == a[0];
        if a[0] != b[0] {
            assert(ia > 0 && ib > 0);
            assert(lex_lt(a[0], a[ia]));
            assert(lex_lt(b[0], b[ib]));
            lemma_lex_asymmetric(a[0], b[0]);
        }
        let a2 = a.drop_first();
        let b2 = b.drop_first();
        assert forall|x: Seq<u8>| a2.contains(x) <==> b2.contains(x) by {
            if a2.contains(x) {
                let i = choose|i: int| 0 <= i < a2.len() && a2[i] == x;
                assert(a[i + 1] == x);
                assert(lex_lt(a[0], x));
                lemma_lex_irreflexive(x);
                assert(b.contains(x));
                let j = choose|j: int| 0 <= j < b.len() && b[j] == x;
                assert(j != 0);
                assert(b2[j - 1] == x);
            }
            if b2.contains(x) {
                let i = choose|i: int| 0 <= i < b2.len() && b2[i] == x;
                assert(b[i + 1] == x);
                assert(lex_lt(b[0], x));
                lemma_lex_irreflexive(x);
                assert(a.contains(x));
                let j = choose|j: int| 0 <= j < a.len() && a[j] == x;
                assert(j != 0);
                assert(a2[j - 1] == x);
            }
        }
        assert(strictly_sorted(a2)) by {
            assert forall|i: int, j: int| 0 <= i < j < a2.len() implies lex_lt(#[trigger] a2[i], #[trigger] a2[j]) by {
                assert(a2[i] == a[i + 1] && a2[j] == a[j + 1]);
            }
        }
        assert(strictly_sorted(b2)) by {
            assert forall|i: int, j: int| 0 <= i < j < b2.len() implies lex_lt(#[trigger] b2[i], #[trigger] b2[j]) by {
                assert(b2[i] == b[i + 1] && b2[j] == b[j + 1]);
            }
        }
        lemma_sorted_same_elements(a2, b2);
        assert(a =~= b) by {
            assert forall|i: int| 0 <= i < a.len() implies a[i] == b[i] by {
                if i > 0 {
                    assert(a[i] == a2[i - 1]);
                    assert(b[i] == b2[i - 1]);
                }
            }
        }
    }
}

impl ByteMap {
    /// Two maps with the same view hold the same keys and values in the same order.
    pub proof fn lemma_view_determines(a: ByteMap, b: ByteMap)
        requires
            a.wf(),
            b.wf(),
            a.view() == b.view(),
        ensures
            a.keys() == b.keys(),
            a.values() == b.values(),
    {
        assert forall|x: Seq<u8>| a.keys().contains(x) <==> b.keys().contains(x) by {
            assert(a.view().contains_key(x) == a.keys().contains(x));
            assert(b.view().contains_key(x) == b.keys().contains(x));
        }
        lemma_sorted_same_elements(a.keys(), b.keys());
        assert(a.values().len() == b.values().len());
        assert forall|i: int| 0 <= i < a.values().len() implies a.values()[i] == b.values()[i] by {
            let k = a.keys()[i];
            lemma_sorted_index_of(a.keys(), i);
            assert(a.keys().contains(k));
            assert(a.view()[k] == a.values()[i]);
            assert(b.view()[k] == b.values()[i]);
        }
        assert(a.values() =~= b.values());
    }
}

} // verus!
