//! The cache of Google answers: for each midashi (UTF-8), the time of the answer followed by
//! its candidates, in key order, bounded in age and in number; and the framing of its file.
use vstd::prelude::*;
use crate::byte_map::{compare_bytes, lemma_lex_transitive, lex_lt};
use crate::bytes::{append_bytes, lemma_vv_push, vv};
use crate::config::copy_bytes;
use crate::config_file::{spec_parse_integer, u64_max, Yaskkserv2ConfigFile};
use crate::error::SkkError;
use crate::google::copy_units;
use crate::outside::{
    bincode_deserialize_cache, bincode_serialize_cache, is_valid_utf8, serialized_empty_cache_length, sha1_digest,
    spec_cache_decode, spec_cache_encode, spec_sha1,
};
use vstd::utf8::valid_utf8;

verus! {

/// An entry by its bytes.
pub open spec fn entry_view(e: (Vec<u8>, Vec<Vec<u8>>)) -> (Seq<u8>, Seq<Seq<u8>>) {
    (e.0@, vv(e.1@))
}

/// Entries by their bytes.
pub open spec fn entries_view(es: Seq<(Vec<u8>, Vec<Vec<u8>>)>) -> Seq<(Seq<u8>, Seq<Seq<u8>>)> {
    es.map_values(|e: (Vec<u8>, Vec<Vec<u8>>)| entry_view(e))
}

/// The time of an entry's value: its first element read as a `u64` count of seconds, 0 where
/// it does not read as one.
pub open spec fn time_of(v: Seq<Seq<u8>>) -> int {
    match spec_parse_integer(v[0], 0, u64_max()) {
        Some(x) => x,
        None => 0,
    }
}

/// Whether the keys increase strictly, as a `BTreeMap` holds them.
pub open spec fn sorted_keys(es: Seq<(Seq<u8>, Seq<Seq<u8>>)>) -> bool {
    forall|i: int, j: int| 0 <= i < j < es.len() ==> lex_lt(#[trigger] es[i].0, #[trigger] es[j].0)
}

/// Whether each value starts with a time held as UTF-8 text.
pub open spec fn values_timed(es: Seq<(Seq<u8>, Seq<Seq<u8>>)>) -> bool {
    forall|i: int| 0 <= i < es.len() ==> (#[trigger] es[i]).1.len() >= 1 && valid_utf8(es[i].1[0])
}

/// Whether the entries can stand in the cache.
pub open spec fn entries_ok(es: Seq<(Seq<u8>, Seq<Seq<u8>>)>) -> bool {
    sorted_keys(es) && values_timed(es)
}

/// The index of the entry of key `k`, -1 where there is none.
pub open spec fn index_of_key(es: Seq<(Seq<u8>, Seq<Seq<u8>>)>, k: Seq<u8>) -> int
    decreases es.len(),
{
    if es.len() == 0 {
        -1
    } else if es.last().0 == k {
        es.len() - 1
    } else {
        index_of_key(es.drop_last(), k)
    }
}

/// The candidates the cache holds for `k`: its value without the time, where that holds
/// at least one candidate; none otherwise.
pub open spec fn spec_cached(es: Seq<(Seq<u8>, Seq<Seq<u8>>)>, k: Seq<u8>) -> Seq<Seq<u8>> {
    let i = index_of_key(es, k);
    if i >= 0 && es[i].1.len() >= 2 { es[i].1.skip(1) } else { Seq::empty() }
}

/// The entries with `(k, v)` put in key order, replacing the entry of key `k`.
pub open spec fn insert_sorted(es: Seq<(Seq<u8>, Seq<Seq<u8>>)>, k: Seq<u8>, v: Seq<Seq<u8>>) -> Seq<(Seq<u8>, Seq<Seq<u8>>)>
    decreases es.len(),
{
    if es.len() == 0 {
        seq![(k, v)]
    } else if es[0].0 == k {
        seq![(k, v)] + es.skip(1)
    } else if lex_lt(k, es[0].0) {
        seq![(k, v)] + es
    } else {
        seq![es[0]] + insert_sorted(es.skip(1), k, v)
    }
}

/// The entries whose time is after `threshold`, in order.
pub open spec fn fresh_entries(es: Seq<(Seq<u8>, Seq<Seq<u8>>)>, threshold: int) -> Seq<(Seq<u8>, Seq<Seq<u8>>)>
    decreases es.len(),
{
    if es.len() == 0 {
        Seq::empty()
    } else {
        let p = fresh_entries(es.drop_last(), threshold);
        if time_of(es.last().1) > threshold { p.push(es.last()) } else { p }
    }
}

/// The index of the first entry of least time among the first `n` entries (`n >= 1`).
pub open spec fn oldest_index(es: Seq<(Seq<u8>, Seq<Seq<u8>>)>, n: nat) -> int
    decreases n,
{
    if n <= 1 {
        0
    } else {
        let m = oldest_index(es, (n - 1) as nat);
        if time_of(es[n - 1].1) < time_of(es[m].1) { n - 1 } else { m }
    }
}

/// The decimal text of `n`, as `to_string` writes it.
pub open spec fn decimal_text(n: nat) -> Seq<u8>
    decreases n,
{
    if n < 10 { seq![(0x30 + n) as u8] } else { decimal_text(n / 10).push((0x30 + n % 10) as u8) }
}

/// Whether writing `c` for `k` changes the cache: where it holds no entry for `k`, or one
/// whose value (time included) is not `c`.
pub open spec fn spec_should_write(es: Seq<(Seq<u8>, Seq<Seq<u8>>)>, k: Seq<u8>, c: Seq<Seq<u8>>) -> bool {
    let i = index_of_key(es, k);
    i < 0 || es[i].1 != c
}

/// The entries after writing candidates `c` for `k` at time `now`: the entry put in with the
/// time first, then only the entries younger than `expire` seconds kept, then, where more than
/// `n` remain, the oldest of them (the first in key order among equally old ones) dropped.
pub open spec fn spec_written(
    es: Seq<(Seq<u8>, Seq<Seq<u8>>)>,
    k: Seq<u8>,
    c: Seq<Seq<u8>>,
    n: nat,
    expire: nat,
    now: nat,
) -> Seq<(Seq<u8>, Seq<Seq<u8>>)> {
    let inserted = insert_sorted(es, k, seq![decimal_text(now)] + c);
    let fresh = fresh_entries(inserted, now - expire);
    if fresh.len() > n { fresh.remove(oldest_index(fresh, fresh.len())) } else { fresh }
}

/// The bytes of pushed entries.
proof fn lemma_entries_push(a: Seq<(Vec<u8>, Vec<Vec<u8>>)>, x: (Vec<u8>, Vec<Vec<u8>>))
    ensures
        entries_view(a.push(x)) == entries_view(a).push(entry_view(x)),
{
    assert(entries_view(a.push(x)) =~= entries_view(a).push(entry_view(x)));
}

/// The Google cache.
pub struct GoogleCache {
    entries: Vec<(Vec<u8>, Vec<Vec<u8>>)>,
}

impl GoogleCache {
    /// The entries of the cache, in key order.
    pub closed spec fn model(&self) -> Seq<(Seq<u8>, Seq<Seq<u8>>)> {
        entries_view(self.entries@)
    }

    #[verifier::type_invariant]
    closed spec fn inv(self) -> bool {
        entries_ok(entries_view(self.entries@))
    }

    /// An empty cache.
    pub fn new() -> (r: Self)
        ensures
            r.model().len() == 0,
    {
        let r = GoogleCache { entries: Vec::new() };
        assert(entries_view(r.entries@) =~= Seq::empty());
        r
    }

    /// The cache that holds `entries`, where they can stand in it (see `entries_ok`).
    pub fn from_entries(entries: Vec<(Vec<u8>, Vec<Vec<u8>>)>) -> (r: Option<Self>)
        ensures
            r is Some <==> entries_ok(entries_view(entries@)),
            r is Some ==> r->0.model() == entries_view(entries@),
    {
        let ghost es = entries_view(entries@);
        let mut i: usize = 0;
        while i < entries.len()
            invariant
                0 <= i <= entries.len(),
                es == entries_view(entries@),
                forall|a: int, b: int| 0 <= a < b < i ==> lex_lt(#[trigger] es[a].0, #[trigger] es[b].0),
                forall|a: int| 0 <= a < i ==> (#[trigger] es[a]).1.len() >= 1 && valid_utf8(es[a].1[0]),
            decreases entries.len() - i,
        {
            assert(entry_view(entries@[i as int]) == es[i as int]);
            if entries[i].1.len() == 0 {
                return None;
            }
            assert(entries@[i as int].1@[0]@ == es[i as int].1[0]);
            if !is_valid_utf8(entries[i].1[0].as_slice()) {
                return None;
            }
            if i > 0 {
                assert(entry_view(entries@[i - 1]) == es[i - 1]);
                if compare_bytes(entries[i - 1].0.as_slice(), entries[i].0.as_slice()) != -1 {
                    assert(!lex_lt(es[i - 1].0, es[i as int].0));
                    return None;
                }
                assert forall|a: int, b: int| 0 <= a < b < i + 1 implies lex_lt(#[trigger] es[a].0, #[trigger] es[b].0) by {
                    if b == i && a < i - 1 {
                        lemma_lex_transitive(es[a].0, es[i - 1].0, es[i as int].0);
                    }
                }
            }
            i += 1;
        }
        Some(GoogleCache { entries })
    }

    /// A copy of the entries, in key order.
    pub fn entries(&self) -> (r: Vec<(Vec<u8>, Vec<Vec<u8>>)>)
        ensures
            entries_view(r@) == self.model(),
            entries_ok(self.model()),
    {
        proof { use_type_invariant(self); }
        let mut r: Vec<(Vec<u8>, Vec<Vec<u8>>)> = Vec::new();
        let mut i: usize = 0;
        while i < self.entries.len()
            invariant
                0 <= i <= self.entries.len(),
                entries_view(r@) == entries_view(self.entries@).take(i as int),
            decreases self.entries.len() - i,
        {
            let e = (copy_bytes(self.entries[i].0.as_slice()), copy_units(&self.entries[i].1));
            proof { lemma_entries_push(r@, e); }
            r.push(e);
            i += 1;
            assert(entries_view(r@) =~= entries_view(self.entries@).take(i as int));
        }
        assert(entries_view(self.entries@).take(self.entries.len() as int) =~= entries_view(self.entries@));
        r
    }

    /// The index of the entry of key `k` (see `index_of_key`).
    fn find(&self, k: &[u8]) -> (r: Option<usize>)
        ensures
            match r {
                Some(i) => index_of_key(self.model(), k@) == i as int && i < self.model().len(),
                None => index_of_key(self.model(), k@) == -1,
            },
    {
        let ghost es = self.model();
        let mut i: usize = self.entries.len();
        assert(es.take(i as int) =~= es);
        while i > 0
            invariant
                0 <= i <= self.entries.len(),
                es == entries_view(self.entries@),
                index_of_key(es, k@) == index_of_key(es.take(i as int), k@),
            decreases i,
        {
            assert(es.take(i as int).drop_last() =~= es.take(i - 1));
            assert(es.take(i as int).last() == es[i - 1]);
            if crate::bytes::bytes_eq(self.entries[i - 1].0.as_slice(), k) {
                return Some(i - 1);
            }
            i -= 1;
        }
        assert(es.take(0) =~= Seq::<(Seq<u8>, Seq<Seq<u8>>)>::empty());
        None
    }

    /// The candidates the cache holds for `midashi`: see `spec_cached`.
    pub fn get_candidates(&self, midashi: &[u8]) -> (r: Vec<Vec<u8>>)
        ensures
            vv(r@) == spec_cached(self.model(), midashi@),
    {
        match self.find(midashi) {
            Some(i) => {
                if self.entries[i].1.len() >= 2 {
                    let v = &self.entries[i].1;
                    let mut r: Vec<Vec<u8>> = Vec::new();
                    let mut j: usize = 1;
                    while j < v.len()
                        invariant
                            1 <= j <= v.len(),
                            vv(r@) == vv(v@).subrange(1, j as int),
                        decreases v.len() - j,
                    {
                        let c = copy_bytes(v[j].as_slice());
                        proof { lemma_vv_push(r@, c); }
                        r.push(c);
                        j += 1;
                        assert(vv(r@) =~= vv(v@).subrange(1, j as int));
                    }
                    assert(vv(v@).subrange(1, v.len() as int) =~= vv(v@).skip(1));
                    r
                } else {
                    Vec::new()
                }
            },
            None => Vec::new(),
        }
    }
}


/// The decimal text of `n` (see `decimal_text`): ASCII digits.
pub fn u64_decimal(n: u64) -> (r: Vec<u8>)
    ensures
        r@ == decimal_text(n as nat),
        forall|i: int| 0 <= i < r@.len() ==> 0x30 <= #[trigger] r@[i] <= 0x39,
    decreases n,
{
    if n < 10 {
        let r: Vec<u8> = vec![(0x30 + n) as u8];
        assert(r@ =~= decimal_text(n as nat));
        r
    } else {
        let mut r = u64_decimal(n / 10);
        r.push((0x30 + n % 10) as u8);
        r
    }
}

/// The time that `bytes` (UTF-8) reads as, 0 where it does not read as a `u64`.
pub fn parse_or_zero_u64(bytes: &[u8]) -> (r: u64)
    requires
        valid_utf8(bytes@),
    ensures
        r as int == match spec_parse_integer(bytes@, 0, u64_max()) {
            Some(x) => x,
            None => 0,
        },
{
    reveal(spec_parse_integer);
    match Yaskkserv2ConfigFile::parse_decimal(bytes, false) {
        Some(x) => {
            if 0 <= x && x <= 0xffff_ffff_ffff_ffff {
                x as u64
            } else {
                0
            }
        },
        None => 0,
    }
}

/// ASCII text is well-formed UTF-8.
proof fn lemma_ascii_valid_utf8(s: Seq<u8>)
    requires
        forall|i: int| 0 <= i < s.len() ==> s[i] < 0x80,
    ensures
        valid_utf8(s),
{
    assert(s.subrange(0, 0) =~= Seq::<u8>::empty());
    assert forall|i: int| 0 <= 0 <= i < s.len() <= s.len() implies #[trigger] vstd::utf8::is_leading_byte_width_1(s[i]) by {}
    vstd::utf8::partial_valid_utf8_extend_ascii_block(s, 0, s.len() as int);
    assert(s.subrange(0, s.len() as int) =~= s);
}

/// A copy of an entry.
fn copy_entry(e: &(Vec<u8>, Vec<Vec<u8>>)) -> (r: (Vec<u8>, Vec<Vec<u8>>))
    ensures
        entry_view(r) == entry_view(*e),
{
    (copy_bytes(e.0.as_slice()), copy_units(&e.1))
}

/// Where `(k, v)` goes among sorted entries, keys from `i` on.
proof fn lemma_insert_step(es: Seq<(Seq<u8>, Seq<Seq<u8>>)>, i: int, k: Seq<u8>, v: Seq<Seq<u8>>)
    requires
        0 <= i < es.len(),
    ensures
        insert_sorted(es.skip(i), k, v) == if es[i].0 == k {
            seq![(k, v)] + es.skip(i + 1)
        } else if lex_lt(k, es[i].0) {
            seq![(k, v)] + es.skip(i)
        } else {
            seq![es[i]] + insert_sorted(es.skip(i + 1), k, v)
        },
{
    assert(es.skip(i).skip(1) =~= es.skip(i + 1));
    assert(es.skip(i)[0] == es[i]);
}

/// A lower bound of the keys of sorted entries and of `k` bounds the keys after the insertion.
proof fn lemma_insert_sorted_ok(es: Seq<(Seq<u8>, Seq<Seq<u8>>)>, k: Seq<u8>, v: Seq<Seq<u8>>)
    requires
        sorted_keys(es),
    ensures
        sorted_keys(insert_sorted(es, k, v)),
        forall|x: Seq<u8>| lex_lt(x, k) && (forall|i: int| 0 <= i < es.len() ==> lex_lt(x, #[trigger] es[i].0)) ==>
            (forall|j: int| 0 <= j < insert_sorted(es, k, v).len() ==> lex_lt(x, #[trigger] insert_sorted(es, k, v)[j].0)),
        forall|j: int| 0 <= j < insert_sorted(es, k, v).len() ==> (#[trigger] insert_sorted(es, k, v)[j] == (k, v)
            || es.contains(insert_sorted(es, k, v)[j])),
    decreases es.len(),
{
    let ins = insert_sorted(es, k, v);
    if es.len() == 0 {
    } else if es[0].0 == k {
        assert forall|a: int, b: int| 0 <= a < b < ins.len() implies lex_lt(#[trigger] ins[a].0, #[trigger] ins[b].0) by {
            if a == 0 {
                assert(ins[b] == es[b]);
            } else {
                assert(ins[a] == es[a] && ins[b] == es[b]);
            }
        }
        assert forall|j: int| 0 <= j < ins.len() implies (#[trigger] ins[j] == (k, v) || es.contains(ins[j])) by {
            if j > 0 {
                assert(ins[j] == es[j]);
            }
        }
    } else if lex_lt(k, es[0].0) {
        assert forall|a: int, b: int| 0 <= a < b < ins.len() implies lex_lt(#[trigger] ins[a].0, #[trigger] ins[b].0) by {
            if a == 0 {
                assert(ins[b] == es[b - 1]);
                if b > 1 {
                    lemma_lex_transitive(k, es[0].0, es[b - 1].0);
                }
            } else {
                assert(ins[a] == es[a - 1] && ins[b] == es[b - 1]);
            }
        }
        assert forall|j: int| 0 <= j < ins.len() implies (#[trigger] ins[j] == (k, v) || es.contains(ins[j])) by {
            if j > 0 {
                assert(ins[j] == es[j - 1]);
            }
        }
        assert forall|x: Seq<u8>| lex_lt(x, k) && (forall|i: int| 0 <= i < es.len() ==> lex_lt(x, #[trigger] es[i].0)) implies
            (forall|j: int| 0 <= j < ins.len() ==> lex_lt(x, #[trigger] ins[j].0)) by {
            assert forall|j: int| 0 <= j < ins.len() implies lex_lt(x, #[trigger] ins[j].0) by {
                if j > 0 {
                    assert(ins[j] == es[j - 1]);
                }
            }
        }
    } else {
        let rest = es.skip(1);
        assert forall|a: int, b: int| 0 <= a < b < rest.len() implies lex_lt(#[trigger] rest[a].0, #[trigger] rest[b].0) by {
            assert(rest[a] == es[a + 1] && rest[b] == es[b + 1]);
        }
        lemma_insert_sorted_ok(rest, k, v);
        let tail = insert_sorted(rest, k, v);
        assert(ins == seq![es[0]] + tail);
        assert(lex_lt(es[0].0, k)) by {
            crate::byte_map::lemma_lex_total(k, es[0].0);
        }
        assert forall|i: int| 0 <= i < rest.len() implies lex_lt(es[0].0, #[trigger] rest[i].0) by {
            assert(rest[i] == es[i + 1]);
        }
        assert forall|a: int, b: int| 0 <= a < b < ins.len() implies lex_lt(#[trigger] ins[a].0, #[trigger] ins[b].0) by {
            if a == 0 {
                assert(ins[b] == tail[b - 1]);
            } else {
                assert(ins[a] == tail[a - 1] && ins[b] == tail[b - 1]);
            }
        }
        assert forall|j: int| 0 <= j < ins.len() implies (#[trigger] ins[j] == (k, v) || es.contains(ins[j])) by {
            if j == 0 {
                assert(es[0] == ins[0]);
            } else {
                assert(ins[j] == tail[j - 1]);
                if tail[j - 1] != (k, v) {
                    let w = choose|w: int| 0 <= w < rest.len() && rest[w] == tail[j - 1];
                    assert(es[w + 1] == ins[j]);
                }
            }
        }
        assert forall|x: Seq<u8>| lex_lt(x, k) && (forall|i: int| 0 <= i < es.len() ==> lex_lt(x, #[trigger] es[i].0)) implies
            (forall|j: int| 0 <= j < ins.len() ==> lex_lt(x, #[trigger] ins[j].0)) by {
            assert forall|i: int| 0 <= i < rest.len() implies lex_lt(x, #[trigger] rest[i].0) by {
                assert(rest[i] == es[i + 1]);
            }
            assert forall|j: int| 0 <= j < ins.len() implies lex_lt(x, #[trigger] ins[j].0) by {
                if j == 0 {
                    assert(ins[0] == es[0]);
                } else {
                    assert(ins[j] == tail[j - 1]);
                }
            }
        }
    }
}

/// The entries kept by `fresh_entries` are entries of `es`, in order.
proof fn lemma_fresh_ok(es: Seq<(Seq<u8>, Seq<Seq<u8>>)>, t: int)
    requires
        entries_ok(es),
    ensures
        entries_ok(fresh_entries(es, t)),
        forall|j: int| 0 <= j < fresh_entries(es, t).len() ==> es.contains(#[trigger] fresh_entries(es, t)[j]),
        fresh_entries(es, t).len() <= es.len(),
    decreases es.len(),
{
    if es.len() > 0 {
        let d = es.drop_last();
        assert forall|a: int, b: int| 0 <= a < b < d.len() implies lex_lt(#[trigger] d[a].0, #[trigger] d[b].0) by {
            assert(d[a] == es[a] && d[b] == es[b]);
        }
        assert forall|i: int| 0 <= i < d.len() implies (#[trigger] d[i]).1.len() >= 1 && valid_utf8(d[i].1[0]) by {
            assert(d[i] == es[i]);
        }
        lemma_fresh_ok(d, t);
        let p = fresh_entries(d, t);
        let f = fresh_entries(es, t);
        assert forall|j: int| 0 <= j < p.len() implies es.contains(#[trigger] p[j]) by {
            let w = choose|w: int| 0 <= w < d.len() && d[w] == p[j];
            assert(es[w] == p[j]);
        }
        if time_of(es.last().1) > t {
            assert(f == p.push(es.last()));
            assert forall|a: int, b: int| 0 <= a < b < f.len() implies lex_lt(#[trigger] f[a].0, #[trigger] f[b].0) by {
                if b == f.len() - 1 {
                    let w = choose|w: int| 0 <= w < d.len() && d[w] == p[a];
                    assert(es[w] == p[a]);
                    assert(f[b] == es[es.len() - 1]);
                } else {
                    assert(f[a] == p[a] && f[b] == p[b]);
                }
            }
            assert forall|i: int| 0 <= i < f.len() implies (#[trigger] f[i]).1.len() >= 1 && valid_utf8(f[i].1[0]) by {
                if i < p.len() {
                    assert(f[i] == p[i]);
                } else {
                    assert(f[i] == es[es.len() - 1]);
                }
            }
            assert forall|j: int| 0 <= j < f.len() implies es.contains(#[trigger] f[j]) by {
                if j < p.len() {
                    assert(f[j] == p[j]);
                } else {
                    assert(f[j] == es[es.len() - 1]);
                }
            }
        }
    }
}

/// Dropping one entry keeps the entries in order.
proof fn lemma_remove_ok(es: Seq<(Seq<u8>, Seq<Seq<u8>>)>, i: int)
    requires
        entries_ok(es),
        0 <= i < es.len(),
    ensures
        entries_ok(es.remove(i)),
{
    let r = es.remove(i);
    assert forall|a: int, b: int| 0 <= a < b < r.len() implies lex_lt(#[trigger] r[a].0, #[trigger] r[b].0) by {
        let a1 = if a < i { a } else { a + 1 };
        let b1 = if b < i { b } else { b + 1 };
        assert(r[a] == es[a1] && r[b] == es[b1]);
    }
    assert forall|k: int| 0 <= k < r.len() implies (#[trigger] r[k]).1.len() >= 1 && valid_utf8(r[k].1[0]) by {
        let k1 = if k < i { k } else { k + 1 };
        assert(r[k] == es[k1]);
    }
}

/// The entries with `(k, v)` put in (see `insert_sorted`).
fn insert_entry(es: &Vec<(Vec<u8>, Vec<Vec<u8>>)>, k: &[u8], v: &Vec<Vec<u8>>) -> (r: Vec<(Vec<u8>, Vec<Vec<u8>>)>)
    ensures
        entries_view(r@) == insert_sorted(entries_view(es@), k@, vv(v@)),
{
    let ghost ev = entries_view(es@);
    let ghost kv = (k@, vv(v@));
    let mut r: Vec<(Vec<u8>, Vec<Vec<u8>>)> = Vec::new();
    let mut inserted = false;
    let mut i: usize = 0;
    assert(ev.skip(0) =~= ev);
    while i < es.len()
        invariant
            0 <= i <= es.len(),
            ev == entries_view(es@),
            kv == (k@, vv(v@)),
            !inserted ==> entries_view(r@) + insert_sorted(ev.skip(i as int), k@, vv(v@)) == insert_sorted(ev, k@, vv(v@)),
            inserted ==> entries_view(r@) + ev.skip(i as int) == insert_sorted(ev, k@, vv(v@)),
        decreases es.len() - i,
    {
        let ghost before = entries_view(r@);
        assert(entry_view(es@[i as int]) == ev[i as int]);
        if inserted {
            let e = copy_entry(&es[i]);
            proof { lemma_entries_push(r@, e); }
            r.push(e);
            assert(ev.skip(i as int) =~= seq![ev[i as int]] + ev.skip(i + 1));
            assert(entries_view(r@) + ev.skip(i + 1) =~= before + ev.skip(i as int));
        } else {
            proof { lemma_insert_step(ev, i as int, k@, vv(v@)); }
            let c = compare_bytes(es[i].0.as_slice(), k);
            if c == 0 {
                let e = (copy_bytes(k), copy_units(v));
                proof { lemma_entries_push(r@, e); }
                r.push(e);
                inserted = true;
                assert(entries_view(r@) + ev.skip(i + 1) =~= before + (seq![kv] + ev.skip(i + 1)));
            } else if c == 1 {
                let e = (copy_bytes(k), copy_units(v));
                proof { lemma_entries_push(r@, e); }
                r.push(e);
                let e2 = copy_entry(&es[i]);
                proof { lemma_entries_push(r@, e2); }
                r.push(e2);
                inserted = true;
                assert(ev.skip(i as int) =~= seq![ev[i as int]] + ev.skip(i + 1));
                assert(entries_view(r@) + ev.skip(i + 1) =~= before + (seq![kv] + ev.skip(i as int)));
            } else {
                let e = copy_entry(&es[i]);
                proof { lemma_entries_push(r@, e); }
                r.push(e);
                assert(entries_view(r@) + insert_sorted(ev.skip(i + 1), k@, vv(v@))
                    =~= before + (seq![ev[i as int]] + insert_sorted(ev.skip(i + 1), k@, vv(v@))));
            }
        }
        i += 1;
    }
    assert(ev.skip(es.len() as int) =~= Seq::<(Seq<u8>, Seq<Seq<u8>>)>::empty());
    if !inserted {
        let e = (copy_bytes(k), copy_units(v));
        proof { lemma_entries_push(r@, e); }
        r.push(e);
        assert(entries_view(r@) =~= entries_view(r@).drop_last() + seq![kv]);
    } else {
        assert(entries_view(r@) + Seq::<(Seq<u8>, Seq<Seq<u8>>)>::empty() =~= entries_view(r@));
    }
    r
}

/// The entries whose time is after `threshold` (see `fresh_entries`).
fn fresh_of(es: &Vec<(Vec<u8>, Vec<Vec<u8>>)>, threshold: u64) -> (r: Vec<(Vec<u8>, Vec<Vec<u8>>)>)
    requires
        values_timed(entries_view(es@)),
    ensures
        entries_view(r@) == fresh_entries(entries_view(es@), threshold as int),
{
    let ghost ev = entries_view(es@);
    let mut r: Vec<(Vec<u8>, Vec<Vec<u8>>)> = Vec::new();
    let mut i: usize = 0;
    while i < es.len()
        invariant
            0 <= i <= es.len(),
            ev == entries_view(es@),
            values_timed(ev),
            entries_view(r@) == fresh_entries(ev.take(i as int), threshold as int),
        decreases es.len() - i,
    {
        assert(entry_view(es@[i as int]) == ev[i as int]);
        assert(ev.take(i + 1).drop_last() =~= ev.take(i as int));
        assert(ev.take(i + 1).last() == ev[i as int]);
        assert(es@[i as int].1@[0]@ == ev[i as int].1[0]);
        let t = parse_or_zero_u64(es[i].1[0].as_slice());
        if t > threshold {
            let e = copy_entry(&es[i]);
            proof { lemma_entries_push(r@, e); }
            r.push(e);
        }
        i += 1;
    }
    assert(ev.take(es.len() as int) =~= ev);
    r
}

/// The index of the first entry of least time (see `oldest_index`).
fn oldest_of(es: &Vec<(Vec<u8>, Vec<Vec<u8>>)>) -> (r: usize)
    requires
        es.len() >= 1,
        values_timed(entries_view(es@)),
    ensures
        r as int == oldest_index(entries_view(es@), es.len() as nat),
        r < es.len(),
{
    let ghost ev = entries_view(es@);
    assert(entry_view(es@[0]) == ev[0]);
    assert(es@[0].1@[0]@ == ev[0].1[0]);
    let mut m: usize = 0;
    let mut mt = parse_or_zero_u64(es[0].1[0].as_slice());
    let mut i: usize = 1;
    while i < es.len()
        invariant
            1 <= i <= es.len(),
            ev == entries_view(es@),
            values_timed(ev),
            m as int == oldest_index(ev, i as nat),
            m < i,
            mt as int == time_of(ev[m as int].1),
        decreases es.len() - i,
    {
        assert(entry_view(es@[i as int]) == ev[i as int]);
        assert(es@[i as int].1@[0]@ == ev[i as int].1[0]);
        let t = parse_or_zero_u64(es[i].1[0].as_slice());
        if t < mt {
            m = i;
            mt = t;
        }
        i += 1;
    }
    m
}

impl GoogleCache {
    /// Writes the candidates `candidates` of `midashi` at time `now` (seconds since the Unix
    /// epoch), where that changes the cache (see `spec_should_write`): the entry is put in with
    /// the time first, entries older than `cache_expire_seconds` are dropped, and where more
    /// than `cache_entries` remain, the oldest one. Returns whether the cache changed (and so
    /// its file must be written).
    pub fn write_candidates(
        &mut self,
        midashi: &[u8],
        candidates: &Vec<Vec<u8>>,
        cache_entries: usize,
        cache_expire_seconds: u64,
        now: u64,
    ) -> (r: bool)
        requires
            now >= cache_expire_seconds,
        ensures
            r == spec_should_write(old(self).model(), midashi@, vv(candidates@)),
            r ==> final(self).model() == spec_written(old(self).model(), midashi@, vv(candidates@), cache_entries as nat,
                cache_expire_seconds as nat, now as nat),
            !r ==> final(self).model() == old(self).model(),
            r && candidates@.len() >= 1 && cache_expire_seconds >= 1
                && fresh_entries(insert_sorted(old(self).model(), midashi@, seq![decimal_text(now as nat)] + vv(candidates@)),
                    now - cache_expire_seconds).len() <= cache_entries
                ==> spec_cached(final(self).model(), midashi@) == vv(candidates@),
    {
        proof { use_type_invariant(&*self); }
        let should_write = match self.find(midashi) {
            Some(i) => {
                assert(vv(self.entries@[i as int].1@) == self.model()[i as int].1);
                !crate::bytes::units_eq(&self.entries[i].1, candidates)
            },
            None => true,
        };
        if !should_write {
            return false;
        }
        let ghost es = self.model();
        let stamp = u64_decimal(now);
        proof { lemma_ascii_valid_utf8(stamp@); }
        let mut value: Vec<Vec<u8>> = Vec::new();
        value.push(stamp);
        let rest = copy_units(candidates);
        let mut j: usize = 0;
        let ghost v0 = vv(value@);
        assert(v0 =~= seq![decimal_text(now as nat)]);
        while j < rest.len()
            invariant
                0 <= j <= rest.len(),
                vv(value@) == v0 + vv(rest@).take(j as int),
            decreases rest.len() - j,
        {
            let c = copy_bytes(rest[j].as_slice());
            proof { lemma_vv_push(value@, c); }
            value.push(c);
            j += 1;
            assert(vv(value@) =~= v0 + vv(rest@).take(j as int));
        }
        assert(vv(rest@).take(rest.len() as int) =~= vv(candidates@));
        let inserted = insert_entry(&self.entries, midashi, &value);
        let ghost ins = insert_sorted(es, midashi@, vv(value@));
        proof {
            lemma_insert_sorted_ok(es, midashi@, vv(value@));
            assert forall|i: int| 0 <= i < ins.len() implies (#[trigger] ins[i]).1.len() >= 1 && valid_utf8(ins[i].1[0]) by {
                if ins[i] != (midashi@, vv(value@)) {
                    let w = choose|w: int| 0 <= w < es.len() && es[w] == ins[i];
                }
            }
        }
        let mut fresh = fresh_of(&inserted, now - cache_expire_seconds);
        proof { lemma_fresh_ok(ins, (now - cache_expire_seconds) as int); }
        if fresh.len() > cache_entries {
            let m = oldest_of(&fresh);
            let ghost before = fresh@;
            fresh.remove(m);
            proof {
                lemma_remove_ok(entries_view(before), m as int);
                assert(entries_view(fresh@) =~= entries_view(before).remove(m as int));
            }
        }
        self.entries = fresh;
        proof {
            if candidates@.len() >= 1 && cache_expire_seconds >= 1
                && fresh_entries(insert_sorted(es, midashi@, seq![decimal_text(now as nat)] + vv(candidates@)),
                    now - cache_expire_seconds).len() <= cache_entries {
                lemma_cache_read_after_write(es, midashi@, vv(candidates@), cache_entries as nat,
                    cache_expire_seconds as nat, now as nat);
            }
        }
        true
    }
}

/// The content of a cache file: the SHA-1 digest of the serialized cache, then the
/// serialized cache.
pub open spec fn spec_framed(serialized: Seq<u8>) -> Seq<u8> {
    spec_sha1(serialized) + serialized
}

/// Whether a cache file `buffer` is whole: at least as long as the digest and an empty
/// serialized cache (`empty_length`), and the digest matches what follows it.
pub open spec fn cache_file_ok(buffer: Seq<u8>, empty_length: int) -> bool {
    buffer.len() >= 20 + empty_length && spec_sha1(buffer.skip(20)) == buffer.take(20)
}

impl GoogleCache {
    /// The content of the cache file for the serialized cache `serialized`: see `spec_framed`.
    pub fn frame(serialized: &[u8]) -> (r: Vec<u8>)
        ensures
            r@ == spec_framed(serialized@),
    {
        let digest = sha1_digest(serialized);
        let mut r: Vec<u8> = Vec::new();
        append_bytes(&mut r, &digest);
        append_bytes(&mut r, serialized);
        r
    }

    /// The serialized cache that the cache file `buffer` holds, where it is whole (see
    /// `cache_file_ok`, with the 8 bytes of an empty serialized cache); `BrokenCache` otherwise.
    pub fn unframe(buffer: &[u8]) -> (r: Result<&[u8], SkkError>)
        ensures
            match r {
                Ok(p) => cache_file_ok(buffer@, 8) && p@ == buffer@.skip(20),
                Err(e) => !cache_file_ok(buffer@, 8) && e == SkkError::BrokenCache,
            },
    {
        let empty_length = match serialized_empty_cache_length() {
            Some(n) => n,
            None => return Err(SkkError::Bincode),
        };
        if buffer.len() >= 20 && buffer.len() - 20 >= empty_length {
            let payload = &buffer[20..buffer.len()];
            let digest = sha1_digest(payload);
            let head = &buffer[0..20];
            if crate::bytes::bytes_eq(&digest, head) {
                assert(buffer@.subrange(20, buffer@.len() as int) =~= buffer@.skip(20));
                assert(buffer@.subrange(0, 20) =~= buffer@.take(20));
                return Ok(payload);
            }
            assert(buffer@.subrange(20, buffer@.len() as int) =~= buffer@.skip(20));
            assert(buffer@.subrange(0, 20) =~= buffer@.take(20));
        }
        Err(SkkError::BrokenCache)
    }
}

/// What reading a cache file `buffer` gives: `BrokenCache` where it is not whole (see
/// `cache_file_ok`); `Bincode` where what follows the digest does not read as a cache (see
/// `spec_cache_decode`); `BrokenCache` where its entries cannot stand in a cache (see
/// `entries_ok`); else those entries.
pub open spec fn spec_read_bytes(buffer: Seq<u8>) -> Result<Seq<(Seq<u8>, Seq<Seq<u8>>)>, SkkError> {
    if !cache_file_ok(buffer, 8) {
        Err(SkkError::BrokenCache)
    } else {
        match spec_cache_decode(buffer.skip(20)) {
            None => Err(SkkError::Bincode),
            Some(es) => if entries_ok(es) { Ok(es) } else { Err(SkkError::BrokenCache) },
        }
    }
}

/// A cache result by its entries.
pub open spec fn cache_result(r: Result<GoogleCache, SkkError>) -> Result<Seq<(Seq<u8>, Seq<Seq<u8>>)>, SkkError> {
    match r {
        Ok(c) => Ok(c.model()),
        Err(e) => Err(e),
    }
}

impl GoogleCache {
    /// The cache that the cache file `buffer` holds: see `spec_read_bytes`.
    pub fn read_bytes(buffer: &[u8]) -> (r: Result<GoogleCache, SkkError>)
        ensures
            cache_result(r) == spec_read_bytes(buffer@),
    {
        let payload = match Self::unframe(buffer) {
            Ok(p) => p,
            Err(e) => return Err(e),
        };
        let entries = match bincode_deserialize_cache(payload) {
            Some(v) => v,
            None => return Err(SkkError::Bincode),
        };
        match Self::from_entries(entries) {
            Some(c) => Ok(c),
            None => Err(SkkError::BrokenCache),
        }
    }

    /// The content of the cache file for this cache: its entries serialized (see
    /// `spec_cache_encode`) and framed with their digest (see `spec_framed`); `Bincode` where
    /// serializing fails. What is written reads back as this cache (see `spec_read_bytes`).
    pub fn write_bytes(&self) -> (r: Result<Vec<u8>, SkkError>)
        ensures
            match r {
                Ok(b) => b@ == spec_framed(spec_cache_encode(self.model())) && spec_read_bytes(b@) == Ok::<Seq<(Seq<u8>, Seq<Seq<u8>>)>, SkkError>(self.model()),
                Err(e) => e == SkkError::Bincode,
            },
    {
        let entries = self.entries();
        let serialized = match bincode_serialize_cache(&entries) {
            Some(v) => v,
            None => return Err(SkkError::Bincode),
        };
        let digest = sha1_digest(serialized.as_slice());
        let framed = Self::frame(serialized.as_slice());
        proof {
            let f = framed@;
            let s = serialized@;
            assert(digest@.len() == 20);
            assert(f.skip(20) =~= s);
            assert(f.take(20) =~= spec_sha1(s));
            assert(cache_file_ok(f, 8));
        }
        Ok(framed)
    }
}

/// The decimal text of `n` is ASCII digits that read back as `n`.
proof fn lemma_decimal_text(n: nat)
    ensures
        decimal_text(n).len() >= 1,
        forall|i: int| 0 <= i < decimal_text(n).len() ==> crate::config_file::is_digit(#[trigger] decimal_text(n)[i]),
        crate::config_file::decimal_value(decimal_text(n)) == n,
    decreases n,
{
    let t = decimal_text(n);
    if n < 10 {
        assert(t.drop_last() =~= Seq::<u8>::empty());
        assert(t.last() == (0x30 + n) as u8);
        assert(crate::config_file::decimal_value(t) == crate::config_file::decimal_value(t.drop_last()) * 10 + (t.last() - 0x30));
    } else {
        lemma_decimal_text(n / 10);
        assert(t.drop_last() =~= decimal_text(n / 10));
        assert((n / 10) * 10 + n % 10 == n) by (nonlinear_arith);
        assert(t.last() == (0x30 + n % 10) as u8);
        assert(crate::config_file::decimal_value(t) == crate::config_file::decimal_value(t.drop_last()) * 10 + (t.last() - 0x30));
        assert forall|i: int| 0 <= i < t.len() implies crate::config_file::is_digit(#[trigger] t[i]) by {
            if i < t.len() - 1 {
                assert(t[i] == decimal_text(n / 10)[i]);
            }
        }
    }
}

/// The time written for an entry reads back as that time.
proof fn lemma_time_of_stamp(now: nat, c: Seq<Seq<u8>>)
    requires
        now <= u64_max(),
    ensures
        time_of(seq![decimal_text(now)] + c) == now,
{
    reveal(spec_parse_integer);
    reveal(crate::config_file::spec_parse_decimal);
    lemma_decimal_text(now);
    let t = decimal_text(now);
    assert((seq![t] + c)[0] == t);
    assert(!crate::config_file::has_sign(t, false));
    assert(crate::config_file::digits_of(t, false) == t);
}

/// `(k, v)` is among the entries once it is put in.
proof fn lemma_insert_sorted_holds(es: Seq<(Seq<u8>, Seq<Seq<u8>>)>, k: Seq<u8>, v: Seq<Seq<u8>>)
    ensures
        insert_sorted(es, k, v).contains((k, v)),
        insert_sorted(es, k, v).len() <= es.len() + 1,
    decreases es.len(),
{
    let ins = insert_sorted(es, k, v);
    if es.len() == 0 {
        assert(ins[0] == (k, v));
    } else if es[0].0 == k || lex_lt(k, es[0].0) {
        assert(ins[0] == (k, v));
    } else {
        lemma_insert_sorted_holds(es.skip(1), k, v);
        let tail = insert_sorted(es.skip(1), k, v);
        let j = choose|j: int| 0 <= j < tail.len() && tail[j] == (k, v);
        assert(ins[j + 1] == (k, v));
    }
}

/// An entry younger than the threshold stays.
proof fn lemma_fresh_keeps(es: Seq<(Seq<u8>, Seq<Seq<u8>>)>, t: int, x: (Seq<u8>, Seq<Seq<u8>>))
    requires
        es.contains(x),
        time_of(x.1) > t,
    ensures
        fresh_entries(es, t).contains(x),
    decreases es.len(),
{
    let f = fresh_entries(es, t);
    if es.last() == x {
        assert(f[f.len() - 1] == x);
    } else {
        let j = choose|j: int| 0 <= j < es.len() && es[j] == x;
        assert(es.drop_last()[j] == x);
        lemma_fresh_keeps(es.drop_last(), t, x);
        let p = fresh_entries(es.drop_last(), t);
        let w = choose|w: int| 0 <= w < p.len() && p[w] == x;
        assert(f[w] == x);
    }
}

/// In entries with increasing keys, the entry that `index_of_key` finds for the key of one of
/// them is that one.
proof fn lemma_index_of_key_finds(es: Seq<(Seq<u8>, Seq<Seq<u8>>)>, j: int)
    requires
        sorted_keys(es),
        0 <= j < es.len(),
    ensures
        index_of_key(es, es[j].0) == j,
    decreases es.len(),
{
    if es.last().0 != es[j].0 {
        assert(j < es.len() - 1);
        let d = es.drop_last();
        assert forall|a: int, b: int| 0 <= a < b < d.len() implies lex_lt(#[trigger] d[a].0, #[trigger] d[b].0) by {
            assert(d[a] == es[a] && d[b] == es[b]);
        }
        assert(d[j] == es[j]);
        lemma_index_of_key_finds(d, j);
    } else if j < es.len() - 1 {
        assert(lex_lt(es[j].0, es[es.len() - 1].0));
        crate::byte_map::lemma_lex_irreflexive(es[j].0);
    }
}

/// What the cache gives back for a midashi is what was last written for it, where the cache
/// holds at most `n` midashi afterwards (so no entry is dropped for room; always so where it
/// held fewer than `n` before, see `lemma_room_for_write`) and the entry is not expired at once (`expire >= 1`): after
/// `write_candidates`, `get_candidates` gives the candidates written.
pub proof fn lemma_cache_read_after_write(
    es: Seq<(Seq<u8>, Seq<Seq<u8>>)>,
    k: Seq<u8>,
    c: Seq<Seq<u8>>,
    n: nat,
    expire: nat,
    now: nat,
)
    requires
        entries_ok(es),
        fresh_entries(insert_sorted(es, k, seq![decimal_text(now)] + c), now - expire).len() <= n,
        1 <= expire <= now <= u64_max(),
        c.len() >= 1,
    ensures
        spec_cached(spec_written(es, k, c, n, expire, now), k) == c,
{
    let v = seq![decimal_text(now)] + c;
    let ins = insert_sorted(es, k, v);
    lemma_insert_sorted_ok(es, k, v);
    lemma_insert_sorted_holds(es, k, v);
    lemma_time_of_stamp(now, c);
    assert forall|i: int| 0 <= i < ins.len() implies (#[trigger] ins[i]).1.len() >= 1 && valid_utf8(ins[i].1[0]) by {
        if ins[i] != (k, v) {
            let w = choose|w: int| 0 <= w < es.len() && es[w] == ins[i];
        } else {
            lemma_decimal_text(now);
            assert(v[0] == decimal_text(now));
            assert forall|x: int| 0 <= x < decimal_text(now).len() implies decimal_text(now)[x] < 0x80 by {
                assert(crate::config_file::is_digit(decimal_text(now)[x]));
            }
            lemma_ascii_valid_utf8(decimal_text(now));
        }
    }
    let t = now - expire;
    lemma_fresh_ok(ins, t);
    lemma_fresh_keeps(ins, t, (k, v));
    let fr = fresh_entries(ins, t);
    assert(spec_written(es, k, c, n, expire, now) == fr);
    let j = choose|j: int| 0 <= j < fr.len() && fr[j] == (k, v);
    lemma_index_of_key_finds(fr, j);
    assert(fr[j].1.skip(1) =~= c);
}

/// Inserting an entry adds at most one.
proof fn lemma_insert_sorted_len(es: Seq<(Seq<u8>, Seq<Seq<u8>>)>, k: Seq<u8>, v: Seq<Seq<u8>>)
    ensures
        insert_sorted(es, k, v).len() <= es.len() + 1,
    decreases es.len(),
{
    if es.len() > 0 && es[0].0 != k && !lex_lt(k, es[0].0) {
        lemma_insert_sorted_len(es.skip(1), k, v);
    }
}

/// Keeping the fresh entries keeps at most all of them.
proof fn lemma_fresh_len(es: Seq<(Seq<u8>, Seq<Seq<u8>>)>, t: int)
    ensures
        fresh_entries(es, t).len() <= es.len(),
    decreases es.len(),
{
    if es.len() > 0 {
        lemma_fresh_len(es.drop_last(), t);
    }
}

/// Writing into a cache that holds fewer than `n` midashi leaves at most `n`, so the law of
/// `lemma_cache_read_after_write` holds there.
pub proof fn lemma_room_for_write(es: Seq<(Seq<u8>, Seq<Seq<u8>>)>, k: Seq<u8>, c: Seq<Seq<u8>>, n: nat, expire: nat, now: nat)
    requires
        es.len() < n,
    ensures
        fresh_entries(insert_sorted(es, k, seq![decimal_text(now)] + c), now - expire).len() <= n,
{
    lemma_insert_sorted_len(es, k, seq![decimal_text(now)] + c);
    lemma_fresh_len(insert_sorted(es, k, seq![decimal_text(now)] + c), now - expire);
}
} // verus!
