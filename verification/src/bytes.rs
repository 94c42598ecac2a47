//! Byte-sequence helpers: splitting at a separator, joining, searching.
use vstd::prelude::*;

verus! {

/// Appends `s` to `v`.
pub fn append_bytes(v: &mut Vec<u8>, s: &[u8])
    ensures
        final(v)@ == old(v)@ + s@,
{
    v.extend_from_slice(s);
    assert(final(v)@ =~= old(v)@ + s@);
}

/// The pieces of `s` between occurrences of `sep`, as `<[u8]>::split` yields them:
/// one piece more than there are separators, empty pieces included.
pub open spec fn spec_split(s: Seq<u8>, sep: u8) -> Seq<Seq<u8>>
    decreases s.len(),
{
    if s.len() == 0 {
        seq![Seq::<u8>::empty()]
    } else {
        let p = spec_split(s.drop_last(), sep);
        if s.last() == sep {
            p.push(Seq::<u8>::empty())
        } else {
            p.update(p.len() - 1, p.last().push(s.last()))
        }
    }
}

/// The pieces joined with `sep` between them (`[T]::join`).
pub open spec fn spec_join(units: Seq<Seq<u8>>, sep: u8) -> Seq<u8>
    decreases units.len(),
{
    if units.len() == 0 {
        Seq::<u8>::empty()
    } else if units.len() == 1 {
        units[0]
    } else {
        spec_join(units.drop_last(), sep) + seq![sep] + units.last()
    }
}

/// Each piece followed by `sep`, all concatenated.
pub open spec fn spec_join_terminated(units: Seq<Seq<u8>>, sep: u8) -> Seq<u8>
    decreases units.len(),
{
    if units.len() == 0 {
        Seq::<u8>::empty()
    } else {
        spec_join_terminated(units.drop_last(), sep) + units.last() + seq![sep]
    }
}

/// Whether byte `b` occurs in `s`.
pub open spec fn spec_contains_byte(s: Seq<u8>, b: u8) -> bool {
    exists|i: int| 0 <= i < s.len() && s[i] == b
}

/// Index of the first element of `s` equal to `x`, or -1.
pub open spec fn spec_first_index_of<T>(s: Seq<T>, x: T) -> int
    decreases s.len(),
{
    if s.len() == 0 {
        -1
    } else if s[0] == x {
        0
    } else {
        let r = spec_first_index_of(s.drop_first(), x);
        if r < 0 {
            -1
        } else {
            r + 1
        }
    }
}

/// Whether `pattern` occurs in `text` at `i`.
pub open spec fn occurs_at(text: Seq<u8>, pattern: Seq<u8>, i: int) -> bool {
    0 <= i && i + pattern.len() <= text.len() && text.subrange(i, i + pattern.len()) == pattern
}

pub proof fn lemma_first_index_of_bounds<T>(s: Seq<T>, x: T)
    ensures
        -1 <= spec_first_index_of(s, x) < s.len(),
        spec_first_index_of(s, x) >= 0 ==> s[spec_first_index_of(s, x)] == x,
        spec_first_index_of(s, x) >= 0 ==> forall|k: int| 0 <= k < spec_first_index_of(s, x) ==> s[k] != x,
        spec_first_index_of(s, x) < 0 <==> !s.contains(x),
    decreases s.len(),
{
    if s.len() > 0 && s[0] != x {
        lemma_first_index_of_bounds(s.drop_first(), x);
        let r = spec_first_index_of(s, x);
        assert forall|k: int| 0 <= k < r implies s[k] != x by {
            if k > 0 {
                assert(s[k] == s.drop_first()[k - 1]);
            }
        }
        if s.contains(x) {
            let k = choose|k: int| 0 <= k < s.len() && s[k] == x;
            assert(s.drop_first()[k - 1] == x);
        }
        if s.drop_first().contains(x) {
            let k = choose|k: int| 0 <= k < s.drop_first().len() && s.drop_first()[k] == x;
            assert(s[k + 1] == x);
        }
    } else if s.len() > 0 {
        assert(s.contains(x)) by { assert(s[0] == x); }
    }
}

/// The first index at which `x` occurs in `s`, computed by a scan.
pub proof fn lemma_first_index_of_char<T>(s: Seq<T>, x: T, j: int)
    requires
        0 <= j < s.len(),
        s[j] == x,
        forall|k: int| 0 <= k < j ==> s[k] != x,
    ensures
        spec_first_index_of(s, x) == j,
{
    lemma_first_index_of_bounds(s, x);
    assert(s.contains(x));
}

/// The byte sequences held by a vector of byte vectors.
pub open spec fn vv(r: Seq<Vec<u8>>) -> Seq<Seq<u8>> {
    r.map_values(|v: Vec<u8>| v@)
}

/// The bytes of a pushed list are the bytes of the list with the bytes of the new element.
pub proof fn lemma_vv_push(a: Seq<Vec<u8>>, x: Vec<u8>)
    ensures
        vv(a.push(x)) == vv(a).push(x@),
{
    assert(vv(a.push(x)) =~= vv(a).push(x@));
}

/// Splits `s` at every `sep`.
pub fn split_bytes(s: &[u8], sep: u8) -> (r: Vec<Vec<u8>>)
    ensures
        vv(r@) == spec_split(s@, sep),
        r.len() >= 1,
{
    let mut r: Vec<Vec<u8>> = Vec::new();
    let mut current: Vec<u8> = Vec::new();
    let mut i: usize = 0;
    while i < s.len()
        invariant
            0 <= i <= s.len(),
            vv(r@).push(current@) == spec_split(s@.subrange(0, i as int), sep),
        decreases s.len() - i,
    {
        let ghost prev = s@.subrange(0, i as int);
        let ghost p = spec_split(prev, sep);
        assert(s@.subrange(0, i + 1).drop_last() == prev);
        let c = s[i];
        if c == sep {
            let done = current;
            r.push(done);
            current = Vec::new();
            assert(vv(r@).push(current@) =~= p.push(Seq::<u8>::empty()));
        } else {
            current.push(c);
            assert(vv(r@).push(current@) =~= p.update(p.len() - 1, p.last().push(c)));
        }
        i += 1;
    }
    assert(s@.subrange(0, s.len() as int) == s@);
    r.push(current);
    r
}

/// Whether `a` and `b` hold the same bytes.
pub fn bytes_eq(a: &[u8], b: &[u8]) -> (r: bool)
    ensures
        r == (a@ == b@),
{
    if a.len() != b.len() {
        return false;
    }
    let mut i: usize = 0;
    while i < a.len()
        invariant
            a.len() == b.len(),
            0 <= i <= a.len(),
            forall|k: int| 0 <= k < i ==> a@[k] == b@[k],
        decreases a.len() - i,
    {
        if a[i] != b[i] {
            return false;
        }
        i += 1;
    }
    assert(a@ =~= b@);
    true
}

/// Whether two lists of byte strings hold the same byte strings.
pub fn units_eq(a: &Vec<Vec<u8>>, b: &Vec<Vec<u8>>) -> (r: bool)
    ensures
        r == (vv(a@) == vv(b@)),
{
    if a.len() != b.len() {
        assert(vv(a@).len() != vv(b@).len());
        return false;
    }
    let mut i: usize = 0;
    while i < a.len()
        invariant
            a.len() == b.len(),
            0 <= i <= a.len(),
            forall|k: int| 0 <= k < i ==> vv(a@)[k] == vv(b@)[k],
        decreases a.len() - i,
    {
        if !bytes_eq(a[i].as_slice(), b[i].as_slice()) {
            assert(vv(a@)[i as int] != vv(b@)[i as int]);
            return false;
        }
        i += 1;
    }
    assert(vv(a@) =~= vv(b@));
    true
}

/// Whether byte `b` occurs in `s`.
pub fn contains_byte(s: &[u8], b: u8) -> (r: bool)
    ensures
        r == spec_contains_byte(s@, b),
{
    let mut i: usize = 0;
    while i < s.len()
        invariant
            0 <= i <= s.len(),
            forall|k: int| 0 <= k < i ==> s@[k] != b,
        decreases s.len() - i,
    {
        if s[i] == b {
            return true;
        }
        i += 1;
    }
    false
}

/// The index of the first unit of `units` equal to `x`.
pub fn first_index_of_unit(units: &Vec<Vec<u8>>, x: &[u8]) -> (r: Option<usize>)
    ensures
        match r {
            Some(j) => spec_first_index_of(vv(units@), x@) == j as int,
            None => spec_first_index_of(vv(units@), x@) < 0,
        },
{
    proof {
        lemma_first_index_of_bounds(vv(units@), x@);
    }
    let mut j: usize = 0;
    while j < units.len()
        invariant
            0 <= j <= units.len(),
            forall|k: int| 0 <= k < j ==> vv(units@)[k] != x@,
        decreases units.len() - j,
    {
        if bytes_eq(units[j].as_slice(), x) {
            proof {
                lemma_first_index_of_char(vv(units@), x@, j as int);
            }
            return Some(j);
        }
        j += 1;
    }
    proof {
        if vv(units@).contains(x@) {
            let k = choose|k: int| 0 <= k < vv(units@).len() && vv(units@)[k] == x@;
            assert(vv(units@)[k] != x@);
        }
    }
    None
}

/// The units joined with `sep` between them.
pub fn join_bytes(units: &Vec<Vec<u8>>, sep: u8) -> (r: Vec<u8>)
    ensures
        r@ == spec_join(vv(units@), sep),
{
    let mut r: Vec<u8> = Vec::new();
    let mut i: usize = 0;
    while i < units.len()
        invariant
            0 <= i <= units.len(),
            r@ == spec_join(vv(units@).subrange(0, i as int), sep),
        decreases units.len() - i,
    {
        let ghost pre = vv(units@).subrange(0, i as int);
        assert(vv(units@).subrange(0, i + 1).drop_last() =~= pre);
        if i > 0 {
            r.push(sep);
        } else {
            assert(pre.len() == 0);
        }
        append_bytes(&mut r, units[i].as_slice());
        i += 1;
        assert(vv(units@).subrange(0, i as int).last() == units@[i - 1]@);
        assert(r@ =~= spec_join(vv(units@).subrange(0, i as int), sep));
    }
    assert(vv(units@).subrange(0, units.len() as int) =~= vv(units@));
    r
}

/// `spec_split` yields at least one piece.
pub proof fn lemma_split_len(s: Seq<u8>, sep: u8)
    ensures
        spec_split(s, sep).len() >= 1,
    decreases s.len(),
{
    if s.len() > 0 {
        lemma_split_len(s.drop_last(), sep);
    }
}

/// A piece of `spec_split(s, sep)` holds no byte that `s` lacks.
pub proof fn lemma_split_pieces_lack(s: Seq<u8>, sep: u8, b: u8)
    requires
        !spec_contains_byte(s, b),
    ensures
        forall|k: int| 0 <= k < spec_split(s, sep).len() ==> !spec_contains_byte(#[trigger] spec_split(s, sep)[k], b),
    decreases s.len(),
{
    if s.len() > 0 {
        let d = s.drop_last();
        assert(!spec_contains_byte(d, b)) by {
            if spec_contains_byte(d, b) {
                let i = choose|i: int| 0 <= i < d.len() && d[i] == b;
                assert(s[i] == b);
            }
        }
        lemma_split_pieces_lack(d, sep, b);
        lemma_split_len(d, sep);
        let p = spec_split(d, sep);
        assert(s[s.len() - 1] != b);
        assert forall|k: int| 0 <= k < spec_split(s, sep).len() implies !spec_contains_byte(#[trigger] spec_split(s, sep)[k], b) by {
            if s.last() != sep && k == p.len() - 1 {
                let q = p.last().push(s.last());
                assert(spec_split(s, sep)[k] == q);
                if spec_contains_byte(q, b) {
                    let i = choose|i: int| 0 <= i < q.len() && q[i] == b;
                    if i < q.len() - 1 {
                        assert(p[k][i] == b);
                    }
                }
            } else if k < p.len() {
                assert(spec_split(s, sep)[k] == p[k]);
            } else {
                assert(spec_split(s, sep)[k] == Seq::<u8>::empty());
            }
        }
    }
}

/// Splitting a text without the separator gives the text itself.
pub proof fn lemma_split_without_sep(y: Seq<u8>, sep: u8)
    requires
        !spec_contains_byte(y, sep),
    ensures
        spec_split(y, sep) == seq![y],
    decreases y.len(),
{
    if y.len() > 0 {
        let d = y.drop_last();
        assert(!spec_contains_byte(d, sep)) by {
            if spec_contains_byte(d, sep) {
                let i = choose|i: int| 0 <= i < d.len() && d[i] == sep;
                assert(y[i] == sep);
            }
        }
        lemma_split_without_sep(d, sep);
        assert(y.last() != sep);
        assert(d.push(y.last()) =~= y);
        assert(spec_split(y, sep) =~= seq![y]);
    } else {
        assert(y =~= Seq::<u8>::empty());
    }
}

/// Splitting `x`, the separator and a piece `y` without it gives the pieces of `x`, then `y`.
pub proof fn lemma_split_after_sep(x: Seq<u8>, y: Seq<u8>, sep: u8)
    requires
        !spec_contains_byte(y, sep),
    ensures
        spec_split(x + seq![sep] + y, sep) == spec_split(x, sep).push(y),
    decreases y.len(),
{
    lemma_split_len(x, sep);
    if y.len() == 0 {
        assert(y =~= Seq::<u8>::empty());
        assert(x + seq![sep] + y =~= (x + seq![sep]));
        assert((x + seq![sep]).drop_last() =~= x);
        assert((x + seq![sep]).last() == sep);
    } else {
        let d = y.drop_last();
        assert(!spec_contains_byte(d, sep)) by {
            if spec_contains_byte(d, sep) {
                let i = choose|i: int| 0 <= i < d.len() && d[i] == sep;
                assert(y[i] == sep);
            }
        }
        lemma_split_after_sep(x, d, sep);
        let s = x + seq![sep] + y;
        assert(s.drop_last() =~= x + seq![sep] + d);
        assert(s.last() == y.last());
        assert(y.last() != sep);
        assert(d.push(y.last()) =~= y);
        assert(spec_split(s, sep) =~= spec_split(x, sep).push(y));
    }
}

/// Splitting pieces joined with a separator that none of them holds gives the pieces back.
pub proof fn lemma_split_join(units: Seq<Seq<u8>>, sep: u8)
    requires
        units.len() >= 1,
        forall|i: int| 0 <= i < units.len() ==> !spec_contains_byte(#[trigger] units[i], sep),
    ensures
        spec_split(spec_join(units, sep), sep) == units,
    decreases units.len(),
{
    if units.len() == 1 {
        lemma_split_without_sep(units[0], sep);
        assert(units =~= seq![units[0]]);
    } else {
        let d = units.drop_last();
        assert forall|i: int| 0 <= i < d.len() implies !spec_contains_byte(#[trigger] d[i], sep) by {
            assert(d[i] == units[i]);
        }
        lemma_split_join(d, sep);
        assert(!spec_contains_byte(units[units.len() - 1], sep));
        lemma_split_after_sep(spec_join(d, sep), units.last(), sep);
        assert(d.push(units.last()) =~= units);
    }
}

/// The first position at or after `from` where `x` stands in `s`.
pub open spec fn spec_find_from(s: Seq<u8>, from: int, x: u8) -> Option<int>
    decreases s.len() - from,
{
    if from < 0 || from >= s.len() {
        None
    } else if s[from] == x {
        Some(from)
    } else {
        spec_find_from(s, from + 1, x)
    }
}

/// The last position before `end` where `x` stands in `s`.
pub open spec fn spec_rfind_before(s: Seq<u8>, end: int, x: u8) -> Option<int>
    decreases end,
{
    if end <= 0 || end > s.len() {
        None
    } else if s[end - 1] == x {
        Some(end - 1)
    } else {
        spec_rfind_before(s, end - 1, x)
    }
}

/// `spec_find_from` is the first position from `from` on holding `x`.
pub proof fn lemma_find_from(s: Seq<u8>, from: int, x: u8)
    requires
        0 <= from <= s.len(),
    ensures
        match spec_find_from(s, from, x) {
            Some(i) => from <= i < s.len() && s[i] == x && forall|j: int| from <= j < i ==> s[j] != x,
            None => forall|j: int| from <= j < s.len() ==> s[j] != x,
        },
    decreases s.len() - from,
{
    if from < s.len() && s[from] != x {
        lemma_find_from(s, from + 1, x);
    }
}

/// `spec_rfind_before` is the last position before `end` holding `x`.
pub proof fn lemma_rfind_before(s: Seq<u8>, end: int, x: u8)
    requires
        0 <= end <= s.len(),
    ensures
        match spec_rfind_before(s, end, x) {
            Some(i) => 0 <= i < end && s[i] == x && forall|j: int| i < j < end ==> s[j] != x,
            None => forall|j: int| 0 <= j < end ==> s[j] != x,
        },
    decreases end,
{
    if end > 0 && s[end - 1] != x {
        lemma_rfind_before(s, end - 1, x);
    }
}

/// The first position at or after `from` where `x` stands (`twoway::find_bytes` on the rest).
pub fn find_byte_from(s: &[u8], from: usize, x: u8) -> (r: Option<usize>)
    requires
        from <= s.len(),
    ensures
        match r {
            Some(i) => spec_find_from(s@, from as int, x) == Some(i as int),
            None => spec_find_from(s@, from as int, x) is None,
        },
{
    let pattern: [u8; 1] = [x];
    let rest = &s[from..s.len()];
    proof { lemma_find_from(s@, from as int, x); }
    match crate::outside::find_bytes(rest, &pattern) {
        Some(k) => {
            proof {
                assert(pattern@ =~= seq![x]);
                assert(rest@.subrange(k as int, k + 1)[0] == rest@[k as int]);
                assert(rest@[k as int] == x);
                assert forall|j: int| from <= j < from + k implies s@[j] != x by {
                    assert(rest@[j - from] == s@[j]);
                    if s@[j] == x {
                        assert(rest@.subrange(j - from, j - from + 1) =~= seq![x]);
                        assert(occurs_at(rest@, pattern@, j - from));
                    }
                }
                match spec_find_from(s@, from as int, x) {
                    Some(i) => {
                        if i < from + k {
                        } else if i > from + k {
                            assert(s@[from + k] == x);
                        }
                    },
                    None => { assert(s@[from + k] == x); },
                }
            }
            Some(from + k)
        },
        None => {
            proof {
                assert(pattern@ =~= seq![x]);
                match spec_find_from(s@, from as int, x) {
                    Some(i) => {
                        assert(rest@.subrange(i - from, i - from + 1) =~= seq![x]);
                        assert(occurs_at(rest@, pattern@, i - from));
                    },
                    None => {},
                }
            }
            None
        },
    }
}

/// The last position before `end` where `x` stands (`twoway::rfind_bytes` on the prefix).
pub fn rfind_byte_before(s: &[u8], end: usize, x: u8) -> (r: Option<usize>)
    requires
        end <= s.len(),
    ensures
        match r {
            Some(i) => spec_rfind_before(s@, end as int, x) == Some(i as int),
            None => spec_rfind_before(s@, end as int, x) is None,
        },
{
    let pattern: [u8; 1] = [x];
    let head = &s[0..end];
    proof { lemma_rfind_before(s@, end as int, x); }
    match crate::outside::rfind_bytes(head, &pattern) {
        Some(k) => {
            proof {
                assert(pattern@ =~= seq![x]);
                assert(head@.subrange(k as int, k + 1)[0] == head@[k as int]);
                assert(head@[k as int] == x);
                assert forall|j: int| k < j < end implies s@[j] != x by {
                    assert(head@[j] == s@[j]);
                    if s@[j] == x {
                        assert(head@.subrange(j, j + 1) =~= seq![x]);
                        assert(occurs_at(head@, pattern@, j));
                    }
                }
                match spec_rfind_before(s@, end as int, x) {
                    Some(i) => {
                        if i > k {
                        } else if i < k {
                            assert(s@[k as int] == x);
                        }
                    },
                    None => { assert(s@[k as int] == x); },
                }
            }
            Some(k)
        },
        None => {
            proof {
                assert(pattern@ =~= seq![x]);
                match spec_rfind_before(s@, end as int, x) {
                    Some(i) => {
                        assert(head@.subrange(i, i + 1) =~= seq![x]);
                        assert(occurs_at(head@, pattern@, i));
                    },
                    None => {},
                }
            }
            None
        },
    }
}

/// The first position where `pat` occurs in `text`, if any.
#[verifier::opaque]
pub open spec fn spec_first_occurrence(text: Seq<u8>, pat: Seq<u8>) -> Option<int> {
    if exists|i: int| occurs_at(text, pat, i) {
        Some(choose|i: int| occurs_at(text, pat, i) && forall|j: int| 0 <= j < i ==> !occurs_at(text, pat, j))
    } else {
        None
    }
}

/// The first position where `pat` occurs in `text` (`twoway::find_bytes`).
pub fn find_pattern(text: &[u8], pat: &[u8]) -> (r: Option<usize>)
    ensures
        match spec_first_occurrence(text@, pat@) {
            Some(i) => r == Some(i as usize) && occurs_at(text@, pat@, i),
            None => r is None,
        },
{
    reveal(spec_first_occurrence);
    let r = crate::outside::find_bytes(text, pat);
    proof {
        match r {
            Some(k) => {
                let c = choose|i: int| occurs_at(text@, pat@, i) && forall|j: int| 0 <= j < i ==> !occurs_at(text@, pat@, j);
                assert(occurs_at(text@, pat@, c) && forall|j: int| 0 <= j < c ==> !occurs_at(text@, pat@, j));
                if c < k {
                } else if c > k {
                }
            },
            None => {},
        }
    }
    r
}

/// The length of the white space character (Unicode `White_Space`, as `\s` of the regex
/// crate) that starts at `i` in UTF-8 text `s`, 0 where none does.
pub open spec fn space_len(s: Seq<u8>, i: int) -> int {
    if i < 0 || i >= s.len() {
        0
    } else if (0x09 <= s[i] <= 0x0d) || s[i] == 0x20 {
        1
    } else if s.len() - i > 1 && s[i] == 0xc2 && (s[i + 1] == 0x85 || s[i + 1] == 0xa0) {
        2
    } else if s.len() - i > 2 && ((s[i] == 0xe1 && s[i + 1] == 0x9a && s[i + 2] == 0x80)
        || (s[i] == 0xe2 && s[i + 1] == 0x80 && (s[i + 2] <= 0x8a || s[i + 2] == 0xa8 || s[i + 2] == 0xa9 || s[i + 2] == 0xaf)
            && s[i + 2] >= 0x80)
        || (s[i] == 0xe2 && s[i + 1] == 0x81 && s[i + 2] == 0x9f)
        || (s[i] == 0xe3 && s[i + 1] == 0x80 && s[i + 2] == 0x80)) {
        3
    } else {
        0
    }
}

/// The length of the white space character that starts at `i`: see `space_len`.
pub fn space_len_at(s: &[u8], i: usize) -> (r: usize)
    ensures
        r as int == space_len(s@, i as int),
        r <= 3,
{
    if i >= s.len() {
        0
    } else if (0x09 <= s[i] && s[i] <= 0x0d) || s[i] == 0x20 {
        1
    } else if s.len() - i > 1 && s[i] == 0xc2 && (s[i + 1] == 0x85 || s[i + 1] == 0xa0) {
        2
    } else if s.len() - i > 2 && ((s[i] == 0xe1 && s[i + 1] == 0x9a && s[i + 2] == 0x80)
        || (s[i] == 0xe2 && s[i + 1] == 0x80 && (s[i + 2] <= 0x8a || s[i + 2] == 0xa8 || s[i + 2] == 0xa9 || s[i + 2] == 0xaf)
            && s[i + 2] >= 0x80)
        || (s[i] == 0xe2 && s[i + 1] == 0x81 && s[i + 2] == 0x9f)
        || (s[i] == 0xe3 && s[i + 1] == 0x80 && s[i + 2] == 0x80)) {
        3
    } else {
        0
    }
}

} // verus!
