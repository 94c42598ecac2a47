//! The answers of Google Japanese Input and Google Suggest: the candidates the server takes
//! from them.
use vstd::prelude::*;
use crate::bytes::{append_bytes, lemma_vv_push, space_len, space_len_at, vv};
use crate::config::copy_bytes;
use crate::error::SkkError;
use crate::outside::{parse_google_json, spec_google_json};
use crate::request::{spec_should_add, spec_should_add_tail, Request};
use crate::candidates::{prefix_seq, spec_dedup, spec_merge, spec_quote, spec_trim_one_slash, Candidates};
use crate::config::GoogleTiming;
use crate::dictionary_reader::DictionaryReader;
use crate::encoding_simple::EncodingTable;
use crate::encoding_simple::euc::spec_encode;

verus! {

/// One element of the Google Japanese Input answer, `[head, [member, ...]]`: whether it is
/// an array and its length, its head where that is a string, and each member of its second
/// element as a string or `None`.
pub struct JsonSegment {
    pub is_array: bool,
    pub len: usize,
    pub head: Option<Vec<u8>>,
    pub members: Vec<Option<Vec<u8>>>,
}

/// The Google Japanese Input answer as the server reads it: whether it is an array, and its
/// elements.
pub struct GoogleJson {
    pub is_array: bool,
    pub segments: Vec<JsonSegment>,
}

/// The bytes of an optional string.
pub open spec fn opt_bytes(o: Option<Vec<u8>>) -> Option<Seq<u8>> {
    match o {
        Some(v) => Some(v@),
        None => None,
    }
}

/// The members by their bytes.
pub open spec fn members_view(m: Seq<Option<Vec<u8>>>) -> Seq<Option<Seq<u8>>> {
    m.map_values(|o: Option<Vec<u8>>| opt_bytes(o))
}

/// A segment by its bytes.
pub open spec fn segment_view(s: JsonSegment) -> (bool, nat, Option<Seq<u8>>, Seq<Option<Seq<u8>>>) {
    (s.is_array, s.len as nat, opt_bytes(s.head), members_view(s.members@))
}

impl View for GoogleJson {
    type V = (bool, Seq<(bool, nat, Option<Seq<u8>>, Seq<Option<Seq<u8>>>)>);

    open spec fn view(&self) -> Self::V {
        (self.is_array, self.segments@.map_values(|s: JsonSegment| segment_view(s)))
    }
}

/// Whether the answer is an array whose first element is an array of at least two elements.
pub open spec fn is_candidates_array(j: (bool, Seq<(bool, nat, Option<Seq<u8>>, Seq<Option<Seq<u8>>>)>)) -> bool {
    j.0 && j.1.len() >= 1 && j.1[0].0 && j.1[0].1 >= 2
}

/// Byte strings of byte strings of byte strings, by their bytes.
pub open spec fn vvv(x: Seq<Vec<Vec<u8>>>) -> Seq<Seq<Seq<u8>>> {
    x.map_values(|v: Vec<Vec<u8>>| vv(v@))
}

/// The bytes of a pushed list of lists.
proof fn lemma_vvv_push(a: Seq<Vec<Vec<u8>>>, x: Vec<Vec<u8>>)
    ensures
        vvv(a.push(x)) == vvv(a).push(vv(x@)),
{
    assert(vvv(a.push(x)) =~= vvv(a).push(vv(x@)));
}

/// The strings among the members, in order.
pub open spec fn member_strings(m: Seq<Option<Seq<u8>>>) -> Seq<Seq<u8>>
    decreases m.len(),
{
    if m.len() == 0 {
        Seq::empty()
    } else {
        let p = member_strings(m.drop_last());
        match m.last() {
            Some(s) => p.push(s),
            None => p,
        }
    }
}

/// Each of `tails` with one of the first `n` of `heads` put in front: heads in order, and for
/// each head the tails in order.
pub open spec fn prepend_all(heads: Seq<Seq<u8>>, tails: Seq<Seq<Seq<u8>>>, n: nat) -> Seq<Seq<Seq<u8>>>
    decreases n,
{
    if n == 0 {
        Seq::empty()
    } else {
        prepend_all(heads, tails, (n - 1) as nat) + tails.map_values(|t: Seq<Seq<u8>>| seq![heads[n - 1]] + t)
    }
}

/// All the ways to take one string from each of `ss[k..]`, the earlier choices varying
/// slowest.
pub open spec fn combinations(ss: Seq<Seq<Seq<u8>>>, k: nat) -> Seq<Seq<Seq<u8>>>
    decreases ss.len() - k,
{
    if k >= ss.len() {
        seq![Seq::empty()]
    } else {
        prepend_all(ss[k as int], combinations(ss, k + 1), ss[k as int].len())
    }
}

/// The parts joined.
pub open spec fn concat(parts: Seq<Seq<u8>>) -> Seq<u8>
    decreases parts.len(),
{
    if parts.len() == 0 { Seq::empty() } else { concat(parts.drop_last()) + parts.last() }
}

/// A combination composed into one candidate: its parts joined, the last one only where
/// `with_last`.
pub open spec fn compose(parts: Seq<Seq<u8>>, with_last: bool) -> Seq<u8> {
    if with_last || parts.len() == 0 { concat(parts) } else { concat(parts.drop_last()) }
}

/// The first `n` combinations that are kept (see `spec_should_add`), composed, in order.
pub open spec fn kept_composed(cs: Seq<Seq<Seq<u8>>>, with_last: bool, h: bool, k: bool, hk: bool, n: nat) -> Seq<Seq<u8>>
    decreases n,
{
    if n == 0 {
        Seq::empty()
    } else {
        let p = kept_composed(cs, with_last, h, k, hk, (n - 1) as nat);
        if spec_should_add(cs[n - 1], h, k, hk) { p.push(compose(cs[n - 1], with_last)) } else { p }
    }
}

/// The member strings of each segment.
pub open spec fn segment_strings(segs: Seq<(bool, nat, Option<Seq<u8>>, Seq<Option<Seq<u8>>>)>) -> Seq<Seq<Seq<u8>>> {
    Seq::new(segs.len(), |i: int| member_strings(segs[i].3))
}

/// The candidates of a Google Japanese Input answer that holds 2 to 4 segments (one per
/// phrase): each combination of one member string per segment that is kept, joined; the part
/// of the last segment only where that segment's head does not end in a lower-case ASCII
/// letter. No candidate where the last segment has no head. With any other number of
/// segments, the kept member strings of the first segment. At most `max` of them.
pub open spec fn spec_google_result(
    segs: Seq<(bool, nat, Option<Seq<u8>>, Seq<Option<Seq<u8>>>)>,
    max: nat,
    h: bool,
    k: bool,
    hk: bool,
) -> Seq<Seq<u8>> {
    let n = segs.len();
    let raw = if 2 <= n <= 4 {
        match segs[n - 1].2 {
            None => Seq::empty(),
            Some(tail) => {
                let cs = combinations(segment_strings(segs), 0);
                kept_composed(cs, spec_should_add_tail(tail), h, k, hk, cs.len())
            },
        }
    } else {
        let cs = combinations(seq![member_strings(segs[0].3)], 0);
        kept_composed(cs, true, h, k, hk, cs.len())
    };
    if raw.len() > max { raw.take(max as int) } else { raw }
}

/// What the server takes from a Google Japanese Input answer `text`: `Json` where it is not
/// JSON; `Request` where it is not an array of arrays, or no candidate is kept; else the
/// candidates of `spec_google_result`.
pub open spec fn spec_google_japanese_input(
    text: Seq<u8>,
    max: nat,
    h: bool,
    k: bool,
    hk: bool,
) -> Result<Seq<Seq<u8>>, SkkError> {
    match spec_google_json(text) {
        None => Err(SkkError::Json),
        Some(j) => if !is_candidates_array(j) {
            Err(SkkError::Request)
        } else {
            let r = spec_google_result(j.1, max, h, k, hk);
            if r.len() == 0 { Err(SkkError::Request) } else { Ok(r) }
        },
    }
}

/// A copy of a list of byte strings.
pub fn copy_units(v: &Vec<Vec<u8>>) -> (r: Vec<Vec<u8>>)
    ensures
        vv(r@) == vv(v@),
{
    let mut r: Vec<Vec<u8>> = Vec::new();
    let mut i: usize = 0;
    while i < v.len()
        invariant
            0 <= i <= v.len(),
            vv(r@) == vv(v@).subrange(0, i as int),
        decreases v.len() - i,
    {
        let c = copy_bytes(v[i].as_slice());
        proof { lemma_vv_push(r@, c); }
        r.push(c);
        i += 1;
        assert(vv(r@) =~= vv(v@).subrange(0, i as int));
    }
    assert(vv(v@).subrange(0, v.len() as int) =~= vv(v@));
    r
}

/// The strings among the members (see `member_strings`).
fn member_strings_of(m: &Vec<Option<Vec<u8>>>) -> (r: Vec<Vec<u8>>)
    ensures
        vv(r@) == member_strings(members_view(m@)),
{
    let ghost mv = members_view(m@);
    let mut r: Vec<Vec<u8>> = Vec::new();
    let mut i: usize = 0;
    while i < m.len()
        invariant
            0 <= i <= m.len(),
            mv == members_view(m@),
            vv(r@) == member_strings(mv.subrange(0, i as int)),
        decreases m.len() - i,
    {
        assert(mv.subrange(0, i + 1).drop_last() =~= mv.subrange(0, i as int));
        match &m[i] {
            Some(s) => {
                let c = copy_bytes(s.as_slice());
                proof { lemma_vv_push(r@, c); }
                r.push(c);
                assert(vv(r@) =~= member_strings(mv.subrange(0, i as int)).push(s@));
            },
            None => {},
        }
        i += 1;
    }
    assert(mv.subrange(0, m.len() as int) =~= mv);
    r
}

/// Each of `tails` with each of `heads` put in front (see `prepend_all`).
fn prepend_all_of(heads: &Vec<Vec<u8>>, tails: &Vec<Vec<Vec<u8>>>) -> (r: Vec<Vec<Vec<u8>>>)
    ensures
        vvv(r@) == prepend_all(vv(heads@), vvv(tails@), heads.len() as nat),
{
    let ghost hs = vv(heads@);
    let ghost ts = vvv(tails@);
    let mut r: Vec<Vec<Vec<u8>>> = Vec::new();
    let mut i: usize = 0;
    while i < heads.len()
        invariant
            0 <= i <= heads.len(),
            hs == vv(heads@),
            ts == vvv(tails@),
            vvv(r@) == prepend_all(hs, ts, i as nat),
        decreases heads.len() - i,
    {
        let ghost before = vvv(r@);
        let mut j: usize = 0;
        while j < tails.len()
            invariant
                0 <= i < heads.len(),
                0 <= j <= tails.len(),
                hs == vv(heads@),
                ts == vvv(tails@),
                vvv(r@) == before + ts.take(j as int).map_values(|t: Seq<Seq<u8>>| seq![hs[i as int]] + t),
            decreases tails.len() - j,
        {
            let mut c: Vec<Vec<u8>> = Vec::new();
            let head = copy_bytes(heads[i].as_slice());
            proof { lemma_vv_push(c@, head); }
            c.push(head);
            let rest = copy_units(&tails[j]);
            let mut k: usize = 0;
            let ghost c0 = vv(c@);
            while k < rest.len()
                invariant
                    0 <= k <= rest.len(),
                    vv(c@) == c0 + vv(rest@).take(k as int),
                decreases rest.len() - k,
            {
                let part = copy_bytes(rest[k].as_slice());
                proof { lemma_vv_push(c@, part); }
                c.push(part);
                k += 1;
                assert(vv(c@) =~= c0 + vv(rest@).take(k as int));
            }
            assert(vv(rest@).take(rest.len() as int) =~= vv(rest@));
            assert(c0 =~= seq![hs[i as int]]);
            assert(vv(rest@) == ts[j as int]);
            proof { lemma_vvv_push(r@, c); }
            r.push(c);
            j += 1;
            assert(vvv(r@) =~= before + ts.take(j as int).map_values(|t: Seq<Seq<u8>>| seq![hs[i as int]] + t));
        }
        assert(ts.take(tails.len() as int) =~= ts);
        i += 1;
    }
    r
}

/// All the ways to take one string from each of `ss[k..]` (see `combinations`).
fn combinations_of(ss: &Vec<Vec<Vec<u8>>>, k: usize) -> (r: Vec<Vec<Vec<u8>>>)
    requires
        k <= ss.len(),
    ensures
        vvv(r@) == combinations(vvv(ss@), k as nat),
    decreases ss.len() - k,
{
    if k >= ss.len() {
        let mut r: Vec<Vec<Vec<u8>>> = Vec::new();
        let e: Vec<Vec<u8>> = Vec::new();
        assert(vv(e@) =~= Seq::<Seq<u8>>::empty());
        r.push(e);
        assert(vvv(r@) =~= seq![Seq::<Seq<u8>>::empty()]);
        r
    } else {
        let tails = combinations_of(ss, k + 1);
        let r = prepend_all_of(&ss[k], &tails);
        assert(vv(ss@[k as int]@) == vvv(ss@)[k as int]);
        r
    }
}

/// The parts joined (see `compose`).
fn compose_of(parts: &Vec<Vec<u8>>, with_last: bool) -> (r: Vec<u8>)
    ensures
        r@ == compose(vv(parts@), with_last),
{
    let n: usize = if with_last || parts.len() == 0 { parts.len() } else { parts.len() - 1 };
    let ghost ps = vv(parts@);
    let mut r: Vec<u8> = Vec::new();
    let mut i: usize = 0;
    while i < n
        invariant
            0 <= i <= n <= parts.len(),
            ps == vv(parts@),
            r@ == concat(ps.take(i as int)),
        decreases n - i,
    {
        append_bytes(&mut r, parts[i].as_slice());
        assert(ps.take(i + 1).drop_last() =~= ps.take(i as int));
        i += 1;
    }
    if with_last {
        assert(ps.take(n as int) =~= ps);
    } else if parts.len() == 0 {
        assert(ps.take(0) =~= ps);
    } else {
        assert(ps.take(n as int) =~= ps.drop_last());
    }
    r
}

/// The combinations that are kept, composed (see `kept_composed`).
fn kept_composed_of(cs: &Vec<Vec<Vec<u8>>>, with_last: bool, h: bool, k: bool, hk: bool) -> (r: Vec<Vec<u8>>)
    ensures
        vv(r@) == kept_composed(vvv(cs@), with_last, h, k, hk, cs.len() as nat),
{
    let mut r: Vec<Vec<u8>> = Vec::new();
    let mut i: usize = 0;
    while i < cs.len()
        invariant
            0 <= i <= cs.len(),
            vv(r@) == kept_composed(vvv(cs@), with_last, h, k, hk, i as nat),
        decreases cs.len() - i,
    {
        assert(vv(cs@[i as int]@) == vvv(cs@)[i as int]);
        if Request::should_add(&cs[i], h, k, hk) {
            let c = compose_of(&cs[i], with_last);
            proof { lemma_vv_push(r@, c); }
            r.push(c);
            assert(vv(r@) =~= kept_composed(vvv(cs@), with_last, h, k, hk, i as nat).push(c@));
        }
        i += 1;
    }
    r
}

impl Request {
    /// The candidates of a Google Japanese Input answer: see `spec_google_result`.
    pub fn get_google_japanese_input_result(
        json: &GoogleJson,
        max_candidates_length: usize,
        is_insert_hiragana_only_candidate: bool,
        is_insert_katakana_only_candidate: bool,
        is_insert_hankaku_katakana_only_candidate: bool,
    ) -> (r: Vec<Vec<u8>>)
        requires
            json.segments.len() >= 1,
        ensures
            vv(r@) == spec_google_result(json@.1, max_candidates_length as nat, is_insert_hiragana_only_candidate,
                is_insert_katakana_only_candidate, is_insert_hankaku_katakana_only_candidate),
    {
        let ghost segs = json@.1;
        let n = json.segments.len();
        let result = if 2 <= n && n <= 4 {
            match &json.segments[n - 1].head {
                None => Vec::new(),
                Some(tail) => {
                    let mut ss: Vec<Vec<Vec<u8>>> = Vec::new();
                    let mut i: usize = 0;
                    while i < n
                        invariant
                            0 <= i <= n,
                            n == json.segments.len(),
                            segs == json@.1,
                            vvv(ss@) == segment_strings(segs).take(i as int),
                        decreases n - i,
                    {
                        let strings = member_strings_of(&json.segments[i].members);
                        assert(segment_view(json.segments@[i as int]) == segs[i as int]);
                        proof { lemma_vvv_push(ss@, strings); }
                        ss.push(strings);
                        i += 1;
                        assert(vvv(ss@) =~= segment_strings(segs).take(i as int));
                    }
                    assert(segment_strings(segs).take(n as int) =~= segment_strings(segs));
                    let cs = combinations_of(&ss, 0);
                    assert(segment_view(json.segments@[n - 1]) == segs[n - 1]);
                    let with_last = Request::should_add_tail_candidates(tail.as_slice());
                    kept_composed_of(&cs, with_last, is_insert_hiragana_only_candidate, is_insert_katakana_only_candidate,
                        is_insert_hankaku_katakana_only_candidate)
                },
            }
        } else {
            let first = member_strings_of(&json.segments[0].members);
            assert(segment_view(json.segments@[0]) == segs[0]);
            let mut ss: Vec<Vec<Vec<u8>>> = Vec::new();
            ss.push(first);
            assert(vvv(ss@) =~= seq![member_strings(segs[0].3)]);
            let cs = combinations_of(&ss, 0);
            kept_composed_of(&cs, true, is_insert_hiragana_only_candidate, is_insert_katakana_only_candidate,
                is_insert_hankaku_katakana_only_candidate)
        };
        if result.len() > max_candidates_length {
            let mut r: Vec<Vec<u8>> = Vec::new();
            let mut i: usize = 0;
            while i < max_candidates_length
                invariant
                    0 <= i <= max_candidates_length < result.len(),
                    vv(r@) == vv(result@).take(i as int),
                decreases max_candidates_length - i,
            {
                let c = copy_bytes(result[i].as_slice());
                proof { lemma_vv_push(r@, c); }
                r.push(c);
                i += 1;
                assert(vv(r@) =~= vv(result@).take(i as int));
            }
            r
        } else {
            result
        }
    }

    /// The candidates that the server takes from a Google Japanese Input answer `content`:
    /// see `spec_google_japanese_input`.
    pub fn request_google_japanese_input(
        content: &[u8],
        max_candidates_length: usize,
        is_insert_hiragana_only_candidate: bool,
        is_insert_katakana_only_candidate: bool,
        is_insert_hankaku_katakana_only_candidate: bool,
    ) -> (r: Result<Vec<Vec<u8>>, SkkError>)
        ensures
            match r {
                Ok(v) => spec_google_japanese_input(content@, max_candidates_length as nat, is_insert_hiragana_only_candidate,
                    is_insert_katakana_only_candidate, is_insert_hankaku_katakana_only_candidate) == Ok::<Seq<Seq<u8>>, SkkError>(vv(v@)),
                Err(e) => spec_google_japanese_input(content@, max_candidates_length as nat, is_insert_hiragana_only_candidate,
                    is_insert_katakana_only_candidate, is_insert_hankaku_katakana_only_candidate) == Err::<Seq<Seq<u8>>, SkkError>(e),
            },
    {
        let json = match parse_google_json(content) {
            Some(j) => j,
            None => return Err(SkkError::Json),
        };
        if !(json.is_array && json.segments.len() >= 1 && json.segments[0].is_array && json.segments[0].len >= 2) {
            assert(json.segments.len() >= 1 ==> segment_view(json.segments@[0]) == json@.1[0]);
            return Err(SkkError::Request);
        }
        assert(segment_view(json.segments@[0]) == json@.1[0]);
        let result = Self::get_google_japanese_input_result(&json, max_candidates_length, is_insert_hiragana_only_candidate,
            is_insert_katakana_only_candidate, is_insert_hankaku_katakana_only_candidate);
        if result.len() == 0 {
            Err(SkkError::Request)
        } else {
            Ok(result)
        }
    }
}


/// The end of the run of non-white-space text that starts at `i`.
pub open spec fn word_end(s: Seq<u8>, i: int) -> int
    decreases s.len() - i,
{
    if i < 0 || i >= s.len() || space_len(s, i) > 0 { i } else { word_end(s, i + 1) }
}

/// What `^([^\s]+)\s.+$` captures in `t`: the first word, where white space and at least one
/// more character, none of them LF, follow it.
pub open spec fn first_word(t: Seq<u8>) -> Option<Seq<u8>> {
    let k = word_end(t, 0);
    let w = space_len(t, k);
    if k > 0 && w > 0 && k + w < t.len() && (forall|j: int| k + w <= j < t.len() ==> t[j] != 0x0a) {
        Some(t.take(k))
    } else {
        None
    }
}

/// `s` without every repetition of `p` at its start (`str::trim_start_matches`).
pub open spec fn trim_start_all(s: Seq<u8>, p: Seq<u8>) -> Seq<u8>
    decreases s.len(),
{
    if p.len() > 0 && s.len() >= p.len() && s.take(p.len() as int) == p {
        trim_start_all(s.skip(p.len() as int), p)
    } else {
        s
    }
}

/// `s` without every repetition of `p` at its end (`str::trim_end_matches`).
pub open spec fn trim_end_all(s: Seq<u8>, p: Seq<u8>) -> Seq<u8>
    decreases s.len(),
{
    if p.len() > 0 && s.len() >= p.len() && s.skip(s.len() - p.len()) == p {
        trim_end_all(s.take(s.len() - p.len()), p)
    } else {
        s
    }
}

/// `suggestion data="`
pub open spec fn suggestion_open() -> Seq<u8> {
    seq![0x73u8, 0x75, 0x67, 0x67, 0x65, 0x73, 0x74, 0x69, 0x6f, 0x6e, 0x20, 0x64, 0x61, 0x74, 0x61, 0x3d, 0x22]
}

/// `"/>`
pub open spec fn suggestion_close() -> Seq<u8> {
    seq![0x22u8, 0x2f, 0x3e]
}

/// The suggestion of a piece that starts with `suggestion data="`: the text between the
/// quotes, cut at its first white space where more follows.
pub open spec fn suggestion_of(piece: Seq<u8>) -> Seq<u8> {
    let t = trim_end_all(trim_start_all(piece, suggestion_open()), suggestion_close());
    match first_word(t) {
        Some(w) => w,
        None => t,
    }
}

/// The suggestions of the first `n` pieces (the answer split at `<`), in order.
pub open spec fn suggestions(pieces: Seq<Seq<u8>>, n: nat) -> Seq<Seq<u8>>
    decreases n,
{
    if n == 0 {
        Seq::empty()
    } else {
        let p = suggestions(pieces, (n - 1) as nat);
        let piece = pieces[n - 1];
        if piece.len() >= suggestion_open().len() && piece.take(suggestion_open().len() as int) == suggestion_open() {
            p.push(suggestion_of(piece))
        } else {
            p
        }
    }
}

/// The candidates of a Google Suggest answer: each `<suggestion data="..."/>` element's
/// text (see `suggestion_of`).
pub open spec fn spec_google_suggest(text: Seq<u8>) -> Seq<Seq<u8>> {
    let pieces = crate::bytes::spec_split(text, 0x3c);
    suggestions(pieces, pieces.len())
}

/// `first_word(t)`.
fn first_word_of(t: &[u8]) -> (r: Option<Vec<u8>>)
    ensures
        match r {
            Some(w) => first_word(t@) == Some(w@),
            None => first_word(t@) is None,
        },
{
    let mut k: usize = 0;
    while k < t.len() && space_len_at(t, k) == 0
        invariant
            0 <= k <= t.len(),
            word_end(t@, 0) == word_end(t@, k as int),
        decreases t.len() - k,
    {
        k += 1;
    }
    let w = space_len_at(t, k);
    if k == 0 || w == 0 || k + w >= t.len() {
        return None;
    }
    let mut j: usize = k + w;
    while j < t.len()
        invariant
            k + w <= j <= t.len(),
            k == word_end(t@, 0),
            w == space_len(t@, k as int),
            forall|x: int| k + w <= x < j ==> t@[x] != 0x0a,
        decreases t.len() - j,
    {
        if t[j] == 0x0a {
            return None;
        }
        j += 1;
    }
    let r = copy_bytes(&t[0..k]);
    assert(r@ =~= t@.take(k as int));
    Some(r)
}

/// Whether `s` starts with `p`.
fn starts_with_bytes(s: &[u8], from: usize, p: &[u8]) -> (r: bool)
    requires
        from <= s.len(),
    ensures
        r == (s.len() - from >= p.len() && s@.skip(from as int).take(p.len() as int) == p@),
{
    if s.len() - from < p.len() {
        return false;
    }
    let mut i: usize = 0;
    while i < p.len()
        invariant
            0 <= i <= p.len(),
            s.len() - from >= p.len(),
            forall|x: int| 0 <= x < i ==> s@[from + x] == p@[x],
        decreases p.len() - i,
    {
        if s[from + i] != p[i] {
            assert(s@.skip(from as int).take(p.len() as int)[i as int] != p@[i as int]);
            return false;
        }
        i += 1;
    }
    assert(s@.skip(from as int).take(p.len() as int) =~= p@);
    true
}

/// Whether `s[..end]` ends with `p`.
fn ends_with_bytes(s: &[u8], end: usize, p: &[u8]) -> (r: bool)
    requires
        end <= s.len(),
    ensures
        r == (end >= p.len() && s@.take(end as int).skip(end - p.len()) == p@),
{
    if end < p.len() {
        return false;
    }
    let start = end - p.len();
    let mut i: usize = 0;
    while i < p.len()
        invariant
            0 <= i <= p.len(),
            start + p.len() == end,
            end <= s.len(),
            forall|x: int| 0 <= x < i ==> s@[start + x] == p@[x],
        decreases p.len() - i,
    {
        if s[start + i] != p[i] {
            assert(s@.take(end as int).skip(end - p.len())[i as int] != p@[i as int]);
            return false;
        }
        i += 1;
    }
    assert(s@.take(end as int).skip(end - p.len()) =~= p@);
    true
}

/// `suggestion_of(piece)`.
fn suggestion_of_piece(piece: &[u8]) -> (r: Vec<u8>)
    ensures
        r@ == suggestion_of(piece@),
{
    let open: [u8; 17] = [0x73, 0x75, 0x67, 0x67, 0x65, 0x73, 0x74, 0x69, 0x6f, 0x6e, 0x20, 0x64, 0x61, 0x74, 0x61, 0x3d, 0x22];
    let close: [u8; 3] = [0x22, 0x2f, 0x3e];
    assert(open@ =~= suggestion_open());
    assert(close@ =~= suggestion_close());
    let mut a: usize = 0;
    assert(piece@.skip(0) =~= piece@);
    while starts_with_bytes(piece, a, &open)
        invariant
            0 <= a <= piece.len(),
            open@ == suggestion_open(),
            trim_start_all(piece@, open@) == trim_start_all(piece@.skip(a as int), open@),
        decreases piece.len() - a,
    {
        assert(piece@.skip(a as int).skip(17) =~= piece@.skip(a + 17));
        a += 17;
    }
    let ghost t0 = piece@.skip(a as int);
    let mut b: usize = piece.len();
    while b - a >= 3 && ends_with_bytes(piece, b, &close)
        invariant
            a <= b <= piece.len(),
            close@ == suggestion_close(),
            t0 == piece@.skip(a as int),
            trim_end_all(t0, close@) == trim_end_all(piece@.subrange(a as int, b as int), close@),
        decreases b,
    {
        let ghost cur = piece@.subrange(a as int, b as int);
        assert(cur.skip(cur.len() - 3) =~= piece@.take(b as int).skip(b - 3));
        assert(cur.take(cur.len() - 3) =~= piece@.subrange(a as int, b - 3));
        b -= 3;
    }
    proof {
        let cur = piece@.subrange(a as int, b as int);
        if b - a >= 3 {
            assert(cur.skip(cur.len() - 3) =~= piece@.take(b as int).skip(b - 3));
        }
        assert(piece@.skip(a as int) =~= piece@.subrange(a as int, piece.len() as int));
    }
    let t = copy_bytes(&piece[a..b]);
    match first_word_of(&t) {
        Some(w) => w,
        None => t,
    }
}

impl Request {
    /// The candidates of a Google Suggest answer `content`: see `spec_google_suggest`;
    /// `Request` where there is none.
    pub fn request_google_suggest(content: &[u8]) -> (r: Result<Vec<Vec<u8>>, SkkError>)
        ensures
            match r {
                Ok(v) => vv(v@) == spec_google_suggest(content@) && v.len() > 0,
                Err(e) => e == SkkError::Request && spec_google_suggest(content@).len() == 0,
            },
    {
        let pieces = crate::bytes::split_bytes(content, 0x3c);
        let ghost ps = crate::bytes::spec_split(content@, 0x3c);
        let open: [u8; 17] = [0x73, 0x75, 0x67, 0x67, 0x65, 0x73, 0x74, 0x69, 0x6f, 0x6e, 0x20, 0x64, 0x61, 0x74, 0x61, 0x3d, 0x22];
        assert(open@ =~= suggestion_open());
        let mut result: Vec<Vec<u8>> = Vec::new();
        let mut i: usize = 0;
        while i < pieces.len()
            invariant
                0 <= i <= pieces.len(),
                vv(pieces@) == ps,
                open@ == suggestion_open(),
                vv(result@) == suggestions(ps, i as nat),
            decreases pieces.len() - i,
        {
            assert(pieces@[i as int]@ == ps[i as int]);
            if starts_with_bytes(&pieces[i], 0, &open) {
                assert(ps[i as int].skip(0) =~= ps[i as int]);
                let c = suggestion_of_piece(&pieces[i]);
                proof { lemma_vv_push(result@, c); }
                result.push(c);
            } else {
                assert(ps[i as int].skip(0) =~= ps[i as int]);
            }
            i += 1;
        }
        if result.len() == 0 {
            Err(SkkError::Request)
        } else {
            Ok(result)
        }
    }
}

/// The hexadecimal digit of `n` (below 16), upper case.
pub open spec fn upper_hex(n: int) -> u8 {
    if n < 10 { (0x30 + n) as u8 } else { (0x41 + n - 10) as u8 }
}

/// Whether `application/x-www-form-urlencoded` keeps the byte as it is: `*-._`, digits and
/// ASCII letters.
pub open spec fn is_unreserved(b: u8) -> bool {
    b == 0x2a || b == 0x2d || b == 0x2e || (0x30 <= b <= 0x39) || (0x41 <= b <= 0x5a) || b == 0x5f || (0x61 <= b <= 0x7a)
}

/// A byte as `application/x-www-form-urlencoded` writes it: `*-._`, digits and ASCII letters
/// as they are, space as `+`, any other byte as `%` and two upper-case hexadecimal digits.
pub open spec fn urlencode_byte(b: u8) -> Seq<u8> {
    if is_unreserved(b) {
        seq![b]
    } else if b == 0x20 {
        seq![0x2bu8]
    } else {
        seq![0x25u8, upper_hex(b as int / 16), upper_hex(b as int % 16)]
    }
}

/// Each byte of `s` written by `urlencode_byte`.
pub open spec fn spec_form_urlencode(s: Seq<u8>) -> Seq<u8>
    decreases s.len(),
{
    if s.len() == 0 { Seq::empty() } else { spec_form_urlencode(s.drop_last()) + urlencode_byte(s.last()) }
}

/// `http` or `https`.
pub open spec fn protocol(is_http: bool) -> Seq<u8> {
    if is_http { seq![0x68u8, 0x74, 0x74, 0x70] } else { seq![0x68u8, 0x74, 0x74, 0x70, 0x73] }
}

/// `://www.google.com/transliterate?langpair=ja-Hira|ja&text=`
pub open spec fn google_japanese_input_address() -> Seq<u8> {
    seq![0x3au8, 0x2f, 0x2f, 0x77, 0x77, 0x77, 0x2e, 0x67, 0x6f, 0x6f, 0x67, 0x6c, 0x65, 0x2e, 0x63, 0x6f, 0x6d, 0x2f, 0x74, 0x72, 0x61, 0x6e, 0x73, 0x6c, 0x69, 0x74, 0x65, 0x72, 0x61, 0x74, 0x65, 0x3f, 0x6c, 0x61, 0x6e, 0x67, 0x70, 0x61, 0x69, 0x72, 0x3d, 0x6a, 0x61, 0x2d, 0x48, 0x69, 0x72, 0x61, 0x7c, 0x6a, 0x61, 0x26, 0x74, 0x65, 0x78, 0x74, 0x3d]
}

/// `://www.google.com/complete/search?hl=ja&output=toolbar&q=`
pub open spec fn google_suggest_address() -> Seq<u8> {
    seq![0x3au8, 0x2f, 0x2f, 0x77, 0x77, 0x77, 0x2e, 0x67, 0x6f, 0x6f, 0x67, 0x6c, 0x65, 0x2e, 0x63, 0x6f, 0x6d, 0x2f, 0x63, 0x6f, 0x6d, 0x70, 0x6c, 0x65, 0x74, 0x65, 0x2f, 0x73, 0x65, 0x61, 0x72, 0x63, 0x68, 0x3f, 0x68, 0x6c, 0x3d, 0x6a, 0x61, 0x26, 0x6f, 0x75, 0x74, 0x70, 0x75, 0x74, 0x3d, 0x74, 0x6f, 0x6f, 0x6c, 0x62, 0x61, 0x72, 0x26, 0x71, 0x3d]
}

/// `http` or `https` where `is_http` is off.
fn protocol_bytes(is_http: bool) -> (r: Vec<u8>)
    ensures
        r@ == protocol(is_http),
{
    let r: Vec<u8> = if is_http { vec![0x68, 0x74, 0x74, 0x70] } else { vec![0x68, 0x74, 0x74, 0x70, 0x73] };
    assert(r@ =~= protocol(is_http));
    r
}

impl Request {
    /// The address that asks Google Japanese Input for `midashi` (UTF-8).
    pub fn google_japanese_input_url(is_http: bool, midashi: &[u8]) -> (r: Vec<u8>)
        ensures
            r@ == protocol(is_http) + google_japanese_input_address() + spec_form_urlencode(midashi@),
    {
        let mut r = protocol_bytes(is_http);
        let a: [u8; 57] = [0x3a, 0x2f, 0x2f, 0x77, 0x77, 0x77, 0x2e, 0x67, 0x6f, 0x6f, 0x67, 0x6c, 0x65, 0x2e, 0x63, 0x6f, 0x6d, 0x2f, 0x74, 0x72, 0x61, 0x6e, 0x73, 0x6c, 0x69, 0x74, 0x65, 0x72, 0x61, 0x74, 0x65, 0x3f, 0x6c, 0x61, 0x6e, 0x67, 0x70, 0x61, 0x69, 0x72, 0x3d, 0x6a, 0x61, 0x2d, 0x48, 0x69, 0x72, 0x61, 0x7c, 0x6a, 0x61, 0x26, 0x74, 0x65, 0x78, 0x74, 0x3d];
        assert(a@ =~= google_japanese_input_address());
        append_bytes(&mut r, &a);
        let encoded = crate::outside::form_urlencode(midashi);
        append_bytes(&mut r, encoded.as_slice());
        r
    }

    /// The address that asks Google Suggest for `midashi` (UTF-8).
    pub fn google_suggest_url(is_http: bool, midashi: &[u8]) -> (r: Vec<u8>)
        ensures
            r@ == protocol(is_http) + google_suggest_address() + spec_form_urlencode(midashi@),
    {
        let mut r = protocol_bytes(is_http);
        let a: [u8; 57] = [0x3a, 0x2f, 0x2f, 0x77, 0x77, 0x77, 0x2e, 0x67, 0x6f, 0x6f, 0x67, 0x6c, 0x65, 0x2e, 0x63, 0x6f, 0x6d, 0x2f, 0x63, 0x6f, 0x6d, 0x70, 0x6c, 0x65, 0x74, 0x65, 0x2f, 0x73, 0x65, 0x61, 0x72, 0x63, 0x68, 0x3f, 0x68, 0x6c, 0x3d, 0x6a, 0x61, 0x26, 0x6f, 0x75, 0x74, 0x70, 0x75, 0x74, 0x3d, 0x74, 0x6f, 0x6f, 0x6c, 0x62, 0x61, 0x72, 0x26, 0x71, 0x3d];
        assert(a@ =~= google_suggest_address());
        append_bytes(&mut r, &a);
        let encoded = crate::outside::form_urlencode(midashi);
        append_bytes(&mut r, encoded.as_slice());
        r
    }
}

/// Each candidate quoted (see `spec_quote`) with a `/` before it.
pub open spec fn slash_quoted(cs: Seq<Seq<u8>>) -> Seq<u8>
    decreases cs.len(),
{
    if cs.len() == 0 {
        Seq::empty()
    } else {
        slash_quoted(cs.drop_last()) + prefix_seq(Some(0x2fu8)) + spec_quote(cs.last())
    }
}

/// The answer `result` (`1` and its candidates) with the Google candidates `google` (UTF-8)
/// merged in after it (see `spec_merge`), converted to EUC where `euc`.
pub open spec fn spec_merge_google(t: EncodingTable, result: Seq<u8>, google: Seq<Seq<u8>>, euc: bool) -> Seq<u8> {
    let base = spec_trim_one_slash(result.skip(1));
    let new = spec_trim_one_slash(slash_quoted(google));
    seq![0x31u8] + spec_merge(base, if euc { spec_encode(t, new) } else { new })
}

/// The candidates of a list of results by their bytes.
pub open spec fn units_result(r: Result<Vec<Vec<u8>>, SkkError>) -> Result<Seq<Seq<u8>>, SkkError> {
    match r {
        Ok(v) => Ok(vv(v@)),
        Err(e) => Err(e),
    }
}

/// The candidates of an answer, none where it failed.
pub open spec fn or_none(r: Result<Seq<Seq<u8>>, SkkError>) -> Seq<Seq<u8>> {
    match r {
        Ok(v) => v,
        Err(_) => Seq::empty(),
    }
}

/// The Google candidates the server takes: the cached ones where there are any; else, where
/// Google Suggest is on, those of both answers (a failed one giving none), each once; else
/// those of the Google Japanese Input answer, each once, or its error. `Request` where that
/// leaves none.
pub open spec fn spec_google_candidates(
    cached: Seq<Seq<u8>>,
    suggest_enabled: bool,
    japanese_input: Result<Seq<Seq<u8>>, SkkError>,
    suggest: Result<Seq<Seq<u8>>, SkkError>,
) -> Result<Seq<Seq<u8>>, SkkError> {
    let chosen = if cached.len() > 0 {
        Ok(cached)
    } else if suggest_enabled {
        Ok(spec_dedup(or_none(japanese_input) + or_none(suggest)))
    } else {
        match japanese_input {
            Ok(v) => Ok(spec_dedup(v)),
            Err(e) => Err(e),
        }
    };
    match chosen {
        Ok(v) => if v.len() == 0 { Err(SkkError::Request) } else { Ok(v) },
        Err(e) => Err(e),
    }
}

/// The concatenation of two lists of candidates.
fn concat_units(a: Vec<Vec<u8>>, b: Vec<Vec<u8>>) -> (r: Vec<Vec<u8>>)
    ensures
        vv(r@) == vv(a@) + vv(b@),
{
    let mut r = a;
    let ghost ra = vv(r@);
    let mut i: usize = 0;
    while i < b.len()
        invariant
            0 <= i <= b.len(),
            vv(r@) == ra + vv(b@).take(i as int),
        decreases b.len() - i,
    {
        let c = copy_bytes(b[i].as_slice());
        proof { lemma_vv_push(r@, c); }
        r.push(c);
        i += 1;
        assert(vv(r@) =~= ra + vv(b@).take(i as int));
    }
    assert(vv(b@).take(b.len() as int) =~= vv(b@));
    r
}

impl DictionaryReader {
    /// Merges the Google candidates `google` (UTF-8) into the answer `result`: see
    /// `spec_merge_google`, where `euc` is whether the dictionary is EUC.
    pub fn merge_google_candidates(result: &[u8], google: &Vec<Vec<u8>>, euc: bool, table: &EncodingTable) -> (r: Vec<u8>)
        requires
            result.len() >= 1,
            table.wf(),
        ensures
            r@ == spec_merge_google(*table, result@, vv(google@), euc),
    {
        let base = Candidates::trim_one_slash(&result[1..result.len()]);
        assert(result@.subrange(1, result@.len() as int) =~= result@.skip(1));
        let ghost gs = vv(google@);
        let mut joined: Vec<u8> = Vec::new();
        let mut i: usize = 0;
        while i < google.len()
            invariant
                0 <= i <= google.len(),
                gs == vv(google@),
                joined@ == slash_quoted(gs.take(i as int)),
            decreases google.len() - i,
        {
            let q = Candidates::quote_and_add_prefix(google[i].as_slice(), Some(0x2f));
            append_bytes(&mut joined, q.as_slice());
            assert(gs.take(i + 1).drop_last() =~= gs.take(i as int));
            i += 1;
        }
        assert(gs.take(google.len() as int) =~= gs);
        let new = Candidates::trim_one_slash(joined.as_slice());
        let mut r: Vec<u8> = Vec::new();
        r.push(0x31);
        if euc {
            let encoded = match crate::encoding_simple::Euc::encode(new, table) {
                Ok(e) => e,
                Err(_) => Vec::new(),
            };
            let merged = Candidates::merge_trimmed_slash_candidates(base, encoded.as_slice());
            append_bytes(&mut r, merged.as_slice());
        } else {
            let merged = Candidates::merge_trimmed_slash_candidates(base, new);
            append_bytes(&mut r, merged.as_slice());
        }
        assert(r@ =~= spec_merge_google(*table, result@, gs, euc));
        r
    }

    /// Reads the Google candidates into the answer `result` (see `spec_google_candidates` and
    /// `spec_merge_google`): `cached` are the candidates the cache holds for the midashi, and
    /// `japanese_input` and `suggest` what the two services answered (asked only where the
    /// cache holds none; `suggest` only where `suggest_enabled`). Returns the candidates taken,
    /// for the cache. On an error `result` is left as it is.
    pub fn read_google_candidates(
        result: &mut Vec<u8>,
        cached: Vec<Vec<u8>>,
        suggest_enabled: bool,
        japanese_input: Result<Vec<Vec<u8>>, SkkError>,
        suggest: Result<Vec<Vec<u8>>, SkkError>,
        euc: bool,
        table: &EncodingTable,
    ) -> (r: Result<Vec<Vec<u8>>, SkkError>)
        requires
            old(result).len() >= 1,
            table.wf(),
        ensures
            units_result(r) == spec_google_candidates(vv(cached@), suggest_enabled, units_result(japanese_input),
                units_result(suggest)),
            r is Ok ==> final(result)@ == spec_merge_google(*table, old(result)@, vv(r->Ok_0@), euc),
            r is Err ==> final(result)@ == old(result)@,
    {
        let google = if cached.len() > 0 {
            cached
        } else if suggest_enabled {
            let a = match japanese_input {
                Ok(v) => v,
                Err(_) => Vec::new(),
            };
            let b = match suggest {
                Ok(v) => v,
                Err(_) => Vec::new(),
            };
            let both = concat_units(a, b);
            Candidates::remove_duplicates(&both)
        } else {
            match japanese_input {
                Ok(v) => Candidates::remove_duplicates(&v),
                Err(e) => return Err(e),
            }
        };
        if google.len() == 0 {
            return Err(SkkError::Request);
        }
        let merged = Self::merge_google_candidates(result.as_slice(), &google, euc, table);
        *result = merged;
        Ok(google)
    }

    /// Whether Google is asked after the dictionary: always where its timing is `Last`; where
    /// it is `NotFound`, only where the dictionary gave no candidate (`result` is `1` alone).
    pub fn should_read_google_after(timing: GoogleTiming, result: &[u8]) -> (r: bool)
        ensures
            r == (timing == GoogleTiming::Last || (timing == GoogleTiming::NotFound && result@.len() == 1)),
    {
        timing == GoogleTiming::Last || (timing == GoogleTiming::NotFound && Self::is_empty_candidates(result))
    }

    /// Whether Google is asked before the dictionary for the request `1midashi `: where its
    /// timing is `First` and the request's midashi key can be read (otherwise the request fails
    /// with `Encoding` before anything is asked).
    pub fn should_read_google_before(timing: GoogleTiming, request: &[u8]) -> (r: bool)
        ensures
            r == (timing == GoogleTiming::First && request@.len() >= 3
                && crate::dictionary_reader::request_key(request@) is Some),
    {
        if timing != GoogleTiming::First || request.len() < 3 {
            return false;
        }
        let rest = &request[1..request.len()];
        assert(rest@ == request@.subrange(1, request@.len() as int));
        if !crate::dictionary::Dictionary::is_midashi_key_readable(rest) {
            return false;
        }
        crate::dictionary::Dictionary::get_dictionary_midashi_key(rest).is_ok()
    }
}

/// The server takes at most `max` candidates from a Google Japanese Input answer.
pub proof fn lemma_google_result_bounded(
    segs: Seq<(bool, nat, Option<Seq<u8>>, Seq<Option<Seq<u8>>>)>,
    max: nat,
    h: bool,
    k: bool,
    hk: bool,
)
    ensures
        spec_google_result(segs, max, h, k, hk).len() <= max,
{
}

/// Text made only of the bytes that `application/x-www-form-urlencoded` keeps (`*-._`, digits
/// and ASCII letters) is its own encoding.
pub proof fn lemma_urlencode_unreserved(s: Seq<u8>)
    requires
        forall|i: int| 0 <= i < s.len() ==> is_unreserved(#[trigger] s[i]),
    ensures
        spec_form_urlencode(s) == s,
    decreases s.len(),
{
    if s.len() > 0 {
        assert forall|i: int| 0 <= i < s.drop_last().len() implies is_unreserved(#[trigger] s.drop_last()[i]) by {
            assert(s.drop_last()[i] == s[i]);
        }
        lemma_urlencode_unreserved(s.drop_last());
        assert(is_unreserved(s[s.len() - 1]));
        assert(s.drop_last() + seq![s.last()] =~= s);
    }
}
} // verus!
