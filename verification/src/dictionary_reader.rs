//! Looking midashi up in a dictionary.
use vstd::prelude::*;
use crate::byte_map::{compare_bytes, lex_lt, lex_le, lemma_lex_transitive};
use crate::dictionary::{Dictionary, DictionaryBlockInformation, midashi_key_readable, spec_midashi_key};
use crate::bytes::{append_bytes, spec_first_occurrence, find_pattern, spec_find_from, find_byte_from, lemma_find_from};
use crate::candidates::{Candidates, spec_merge, spec_quote, spec_trim_one_slash};
use crate::error::SkkError;
use crate::encoding::Encoding;
use crate::encoding_simple::{EncodingTable, Euc};
use crate::encoding_simple::euc::spec_decode;
use crate::on_memory::{OnMemory, InfoView, info_view, model_lookup, infos_view};

verus! {

/// Namespace for reading a dictionary.
pub struct DictionaryReader;

/// Whether an EUC midashi is okuri-ari: at least 3 bytes, ending in a lower-case ASCII letter
/// right after a hiragana (`0xa4`, then `0xa1..=0xf3`).
pub open spec fn spec_is_okuri_ari(m: Seq<u8>) -> bool {
    m.len() >= 3
        && 0x61 <= m[m.len() - 1] <= 0x7a
        && 0xa1 <= m[m.len() - 2] <= 0xf3
        && m[m.len() - 3] == 0xa4
}

/// An EUC hiragana (`0xa4`, then `h`) followed by the byte `l`.
pub open spec fn hiragana_then(h: u8, l: u8) -> Seq<u8> {
    seq![0xa4u8, h, l]
}

/// A midashi is okuri-ari exactly when it ends in one EUC hiragana (`0xa4`, then
/// `0xa1..=0xf3`) followed by one lower-case ASCII letter, whatever stands before them: `かk`
/// (`0xa4 0xab k`) is, and so is `書かk`; `か` alone, `kk` or `かK` are not.
pub proof fn lemma_okuri_ari_shape(p: Seq<u8>, h: u8, l: u8, m: Seq<u8>)
    ensures
        0xa1 <= h <= 0xf3 && 0x61 <= l <= 0x7a ==> spec_is_okuri_ari(p + hiragana_then(h, l)),
        spec_is_okuri_ari(m) <==> exists|q: Seq<u8>, h2: u8, l2: u8|
            0xa1 <= h2 <= 0xf3 && 0x61 <= l2 <= 0x7a && m == #[trigger] (q + hiragana_then(h2, l2)),
{
    let w = p + hiragana_then(h, l);
    assert(w.len() >= 3);
    assert(w[w.len() - 1] == l && w[w.len() - 2] == h && w[w.len() - 3] == 0xa4);
    if spec_is_okuri_ari(m) {
        let q = m.subrange(0, m.len() - 3);
        assert(m == q + hiragana_then(m[m.len() - 2], m[m.len() - 1]));
    }
    if exists|q: Seq<u8>, h2: u8, l2: u8|
        0xa1 <= h2 <= 0xf3 && 0x61 <= l2 <= 0x7a && m == #[trigger] (q + hiragana_then(h2, l2)) {
        let (q, h2, l2) = choose|q: Seq<u8>, h2: u8, l2: u8|
            0xa1 <= h2 <= 0xf3 && 0x61 <= l2 <= 0x7a && m == #[trigger] (q + hiragana_then(h2, l2));
        assert(m[m.len() - 1] == l2 && m[m.len() - 2] == h2 && m[m.len() - 3] == 0xa4);
    }
}

impl DictionaryReader {
    /// Whether an EUC midashi is okuri-ari: see `spec_is_okuri_ari`.
    pub fn is_okuri_ari(midashi: &[u8]) -> (r: bool)
        ensures
            r == spec_is_okuri_ari(midashi@),
    {
        let length = midashi.len();
        if length < 3 {
            return false;
        }
        let last = length - 1;
        if !(midashi[last] >= 0x61 && midashi[last] <= 0x7a) {
            return false;
        }
        if !(midashi[last - 1] >= 0xa1 && midashi[last - 1] <= 0xf3) {
            return false;
        }
        midashi[last - 2] == 0xa4
    }
}

/// The midashi of a request `1midashi ` or `4midashi `: the bytes between the protocol byte
/// and the closing space.
pub open spec fn spec_get_midashi(buffer: Seq<u8>) -> Seq<u8> {
    buffer.subrange(1, buffer.len() - 1)
}

/// Where the scan for `midashi` may start in units sorted by decreasing midashi: 0 for fewer
/// than 10 units; for fewer than 30, 0 where `midashi` comes after the middle unit's midashi,
/// else the middle.
pub open spec fn small_loop_start(midashi: Seq<u8>, ms: Seq<Seq<u8>>) -> int {
    if ms.len() < 10 {
        0
    } else if lex_lt(ms[(ms.len() / 2) as int], midashi) {
        0
    } else {
        (ms.len() / 2) as int
    }
}

/// The halving search for where the scan for `m` starts among `n` units of midashi `ms`, from
/// the unit at `index` with step `diff`, the last step's direction `prev` (1 towards later units)
/// and `dzc` the steps taken at step 1 so far: a unit whose midashi comes before `m` sends the
/// search `diff` units back, any other `diff` units on; running off either end gives that end;
/// the step halves down to 1, and the search ends, one unit back, where a step of 1 turns round.
pub open spec fn halving_from(m: Seq<u8>, ms: Seq<Seq<u8>>, n: int, index: int, diff: int, prev: int, dzc: int) -> int
    decreases (if dzc == 0 { 1int } else { 0int }), diff, (if prev == 1 { n - index } else { index + 1 }),
{
    if !(0 <= index < n && n <= ms.len() && diff >= 1 && dzc >= 0 && (dzc >= 1 ==> diff == 1)) {
        index
    } else {
        let back = lex_lt(ms[index], m);
        let i2 = if back { index - diff } else { index + diff };
        let dir: int = if back { 0 } else { 1 };
        if back && i2 < 0 {
            0
        } else if !back && i2 >= n {
            n - 1
        } else if diff / 2 == 0 {
            if dzc >= 1 && dir != prev {
                if i2 - 1 > 0 { i2 - 1 } else { 0 }
            } else {
                halving_from(m, ms, n, i2, 1, dir, if dzc < 0x4000_0000 { dzc + 1 } else { dzc })
            }
        } else {
            halving_from(m, ms, n, i2, diff / 2, dir, dzc)
        }
    }
}

/// Where the halving search for `m` among the units of midashi `ms` starts the scan: see
/// `halving_from`, from the middle unit with a quarter of the units as the first step.
pub open spec fn halving_hint(m: Seq<u8>, ms: Seq<Seq<u8>>) -> int {
    let n = ms.len() as int;
    halving_from(m, ms, n, n / 2, (n / 2) / 2, 0, 0)
}

/// Where the scan for `m` among units of midashi `ms` starts: `small_loop_start` below 30
/// units, else `halving_hint`.
pub open spec fn block_start(m: Seq<u8>, ms: Seq<Seq<u8>>) -> int {
    if ms.len() < 30 { small_loop_start(m, ms) } else { halving_hint(m, ms) }
}

/// The midashi of the units.
pub open spec fn unit_midashi(v: Seq<DictionaryBlockInformation>) -> Seq<Seq<u8>> {
    v.map_values(|i: DictionaryBlockInformation| i.midashi@)
}

/// The midashi of the unit views.
pub open spec fn view_midashi(v: Seq<InfoView>) -> Seq<Seq<u8>> {
    v.map_values(|i: InfoView| i.0)
}

/// The midashi of units are those of their views.
pub proof fn lemma_view_midashi(v: Seq<DictionaryBlockInformation>)
    ensures
        view_midashi(infos_view(v)) == unit_midashi(v),
{
    assert(view_midashi(infos_view(v)) =~= unit_midashi(v));
}

/// Whether `r` is the first index at or after `start` whose midashi does not come after
/// `midashi` (or the length where there is none).
pub open spec fn first_not_after_from(midashi: Seq<u8>, ms: Seq<Seq<u8>>, start: int, r: int) -> bool {
    &&& start <= r <= ms.len()
    &&& forall|k: int| start <= k < r ==> lex_lt(midashi, #[trigger] ms[k])
    &&& r < ms.len() ==> lex_le(ms[r], midashi)
}

/// Midashi in strictly decreasing order, as the units of a block are.
pub open spec fn strictly_decreasing(ms: Seq<Seq<u8>>) -> bool {
    forall|i: int, j: int| 0 <= i < j < ms.len() ==> lex_lt(#[trigger] ms[j], #[trigger] ms[i])
}

/// Every midashi before index `k` comes after `m`.
pub open spec fn all_after(m: Seq<u8>, ms: Seq<Seq<u8>>, k: int) -> bool {
    forall|j: int| 0 <= j < k ==> lex_lt(m, #[trigger] ms[j])
}

/// In decreasing order, every midashi before one that does not come before `m` comes after
/// `m`.
proof fn lemma_all_after(m: Seq<u8>, ms: Seq<Seq<u8>>, i: int)
    requires
        strictly_decreasing(ms),
        0 <= i < ms.len(),
        !lex_lt(ms[i], m),
    ensures
        all_after(m, ms, i),
{
    crate::byte_map::lemma_lex_total(ms[i], m);
    assert forall|j: int| 0 <= j < i implies lex_lt(m, #[trigger] ms[j]) by {
        assert(lex_lt(ms[i], ms[j]));
        if ms[i] != m {
            lemma_lex_transitive(m, ms[i], ms[j]);
        }
    }
}

impl DictionaryReader {
    /// The midashi of a request: see `spec_get_midashi`.
    pub fn get_midashi(buffer: &[u8]) -> (r: &[u8])
        requires
            buffer.len() >= 2,
        ensures
            r@ == spec_get_midashi(buffer@),
    {
        &buffer[1..buffer.len() - 1]
    }

    /// The first index at or after `start` whose midashi does not come after `midashi`.
    fn scan_from(midashi: &[u8], infos: &[DictionaryBlockInformation], start: usize) -> (r: usize)
        requires
            start <= infos.len(),
        ensures
            first_not_after_from(midashi@, unit_midashi(infos@), start as int, r as int),
    {
        let ghost ms = unit_midashi(infos@);
        let mut k = start;
        while k < infos.len()
            invariant
                start <= k <= infos.len(),
                ms == unit_midashi(infos@),
                forall|j: int| start <= j < k ==> lex_lt(midashi@, #[trigger] ms[j]),
            decreases infos.len() - k,
        {
            let c = compare_bytes(infos[k].midashi.as_slice(), midashi);
            assert(ms[k as int] == infos@[k as int].midashi@);
            if c != 1 {
                return k;
            }
            k += 1;
        }
        k
    }

    /// Where the scan for `midashi` may start in units sorted by decreasing midashi: see
    /// `small_loop_start` below 30 units; from 30 on, the hint of the halving search
    /// (`halving_hint`), moved on to the first unit whose midashi does not come after `midashi`.
    /// In decreasing order, every unit before the result comes after `midashi`.
    pub fn get_block_informations_loop_start_index(midashi: &[u8], infos: &[DictionaryBlockInformation]) -> (r: usize)
        requires
            infos.len() <= 0x3fff_ffff,
        ensures
            r <= infos.len(),
            infos.len() < 30 ==> r == small_loop_start(midashi@, unit_midashi(infos@)),
            infos.len() >= 30 ==> 0 <= halving_hint(midashi@, unit_midashi(infos@)) <= r
                && first_not_after_from(midashi@, unit_midashi(infos@), halving_hint(midashi@, unit_midashi(infos@)), r as int),
            strictly_decreasing(unit_midashi(infos@)) ==> all_after(midashi@, unit_midashi(infos@), r as int),
    {
        let n = infos.len();
        let ghost ms = unit_midashi(infos@);
        if n < 10 {
            return 0;
        } else if n < 30 {
            let half_index = n / 2;
            assert(ms[half_index as int] == infos@[half_index as int].midashi@);
            if compare_bytes(infos[half_index].midashi.as_slice(), midashi) == -1 {
                return 0;
            } else {
                proof {
                    if strictly_decreasing(ms) {
                        lemma_all_after(midashi@, ms, half_index as int);
                    }
                }
                return half_index;
            }
        }
        let ni = n as i32;
        assert(ms.len() == n);
        let mut index: i32 = ni / 2;
        let mut diff: i32 = index / 2;
        let mut previous_direction: i32 = 0;
        let mut diff_zero_count: i32 = 0;
        loop
            invariant_except_break
                ni == n as i32,
                n == infos.len(),
                30 <= n <= 0x3fff_ffff,
                diff <= ni,
                0 <= index < ni,
                1 <= diff,
                diff_zero_count >= 1 ==> diff == 1,
                0 <= diff_zero_count <= 0x4000_0000,
                previous_direction == 0 || previous_direction == 1,
                ms == unit_midashi(infos@),
                diff_zero_count == 0 ==> index - 2 * diff >= 0 && index + 2 * diff <= ni,
                diff_zero_count >= 1 && previous_direction == 1 ==> index >= 1 && !lex_lt(ms[index - 1], midashi@),
                diff_zero_count >= 1 && previous_direction == 0 ==> index + 1 < ni && lex_lt(ms[index + 1], midashi@),
                halving_from(midashi@, ms, ni as int, index as int, diff as int, previous_direction as int, diff_zero_count as int)
                    == halving_hint(midashi@, ms),
            ensures
                index as int == halving_hint(midashi@, ms),
                0 <= index < ni,
                ni == n as i32,
                n == infos.len(),
                ms == unit_midashi(infos@),
                strictly_decreasing(ms) ==> all_after(midashi@, ms, index as int),
            decreases (if diff_zero_count == 0 { 1int } else { 0int }), diff, (if previous_direction == 1 { ni - index } else { index + 1 }),
        {
            let mut direction: i32 = 0;
            let x = index;
            assert(ms[x as int] == infos@[x as int].midashi@);
            if compare_bytes(midashi, infos[index as usize].midashi.as_slice()) == 1 {
                index = index - diff;
                if index < 0 {
                    index = 0;
                    break;
                }
            } else {
                direction = 1;
                index = index + diff;
                if index >= ni {
                    index = ni - 1;
                    proof {
                        if strictly_decreasing(ms) {
                            lemma_all_after(midashi@, ms, x as int);
                            assert forall|j: int| 0 <= j < index implies lex_lt(midashi@, #[trigger] ms[j]) by {
                                if j >= x {
                                    assert(lex_lt(ms[x as int], midashi@) == false);
                                    crate::byte_map::lemma_lex_total(ms[x as int], midashi@);
                                    if j > x {
                                        assert(lex_lt(ms[j], ms[x as int]));
                                    }
                                    if ms[x as int] != midashi@ {
                                        if j > x {
                                            lemma_lex_transitive(midashi@, ms[x as int], ms[j]);
                                        }
                                    }
                                }
                            }
                        }
                    }
                    break;
                }
            }
            diff = diff / 2;
            if diff == 0 {
                diff = 1;
                if diff_zero_count >= 1 && direction != previous_direction {
                    proof {
                        if strictly_decreasing(ms) {
                            if previous_direction == 1 {
                                lemma_all_after(midashi@, ms, x - 1);
                            } else {
                                lemma_all_after(midashi@, ms, x as int);
                            }
                        }
                    }
                    index = if index - 1 > 0 { index - 1 } else { 0 };
                    break;
                }
                if diff_zero_count < 0x4000_0000 {
                    diff_zero_count = diff_zero_count + 1;
                }
            }
            previous_direction = direction;
        }
        let r = Self::scan_from(midashi, infos, index as usize);
        r
    }

    /// The unit to read for `midashi`: the first unit from the loop start on whose midashi does
    /// not come after `midashi`, or the number of units where there is none.
    pub fn get_block_informations_index(midashi: &[u8], infos: &[DictionaryBlockInformation]) -> (r: usize)
        requires
            infos.len() <= 0x3fff_ffff,
        ensures
            r <= infos.len(),
            exists|start: int| 0 <= start <= r && first_not_after_from(midashi@, unit_midashi(infos@), start, r as int),
            infos.len() < 30 ==> first_not_after_from(midashi@, unit_midashi(infos@), small_loop_start(midashi@, unit_midashi(infos@)), r as int),
            strictly_decreasing(unit_midashi(infos@)) ==> first_not_after_from(midashi@, unit_midashi(infos@), 0, r as int),
            first_not_after_from(midashi@, unit_midashi(infos@), block_start(midashi@, unit_midashi(infos@)), r as int),
    {
        let loop_start_index = Self::get_block_informations_loop_start_index(midashi, infos);
        Self::scan_from(midashi, infos, loop_start_index)
    }
}

pub const LF: u8 = 0x0a;
pub const SPACE: u8 = 0x20;
pub const SLASH: u8 = 0x2f;

/// What the entry of `m` in a unit is looked up by: LF, the midashi, space, `/`.
pub open spec fn search_pattern(m: Seq<u8>) -> Seq<u8> {
    seq![LF] + m + seq![SPACE, SLASH]
}

/// The candidates of `m` in the unit `buf` (after the first `/`, up to the LF), none where
/// the unit has no entry of `m`; `BrokenDictionary` where the entry has no LF.
pub open spec fn spec_unit_candidates(buf: Seq<u8>, m: Seq<u8>) -> Result<Option<Seq<u8>>, SkkError> {
    match spec_first_occurrence(buf, search_pattern(m)) {
        None => Ok(None),
        Some(p) => {
            let cs = p + search_pattern(m).len();
            match spec_find_from(buf, cs, LF) {
                None => Err(SkkError::BrokenDictionary),
                Some(e) => Ok(Some(buf.subrange(cs, e))),
            }
        },
    }
}

/// The result after the candidates `c` found in the dictionary are added to `result`: framed by
/// `/` after `1` where `result` holds nothing yet, else `1` and the merge of what it holds with
/// them (see `spec_merge`). Either way the result starts with the `1` it started with.
pub open spec fn spec_add_candidates(result: Seq<u8>, c: Seq<u8>) -> Seq<u8> {
    if result.len() == 1 {
        result + seq![SLASH] + c
    } else {
        seq![0x31u8] + spec_merge(spec_trim_one_slash(result.subrange(1, result.len() as int)), spec_trim_one_slash(c))
    }
}

/// The bytes of the unit `u` in the dictionary `d`, whose blocks start at `blocks_offset`;
/// none where they lie outside it.
pub open spec fn unit_bytes_in(d: Seq<u8>, blocks_offset: int, u: InfoView) -> Option<Seq<u8>> {
    let start = blocks_offset + u.1;
    let end = start + u.2;
    if end > d.len() { None } else { Some(d.subrange(start, end)) }
}

/// What reading the unit at index `t` for the midashi `m` gives: nothing where `t` is past the
/// units; `Io` where the unit lies outside the dictionary; else the candidates of `m` in the
/// unit added to `result`.
pub open spec fn read_outcome(
    d: Seq<u8>,
    blocks_offset: int,
    infos: Seq<InfoView>,
    m: Seq<u8>,
    t: int,
    result: Seq<u8>,
) -> Result<Seq<u8>, SkkError> {
    if t >= infos.len() {
        Ok(result)
    } else {
        match unit_bytes_in(d, blocks_offset, infos[t]) {
            None => Err(SkkError::Io),
            Some(buf) => match spec_unit_candidates(buf, m) {
                Err(e) => Err(e),
                Ok(None) => Ok(result),
                Ok(Some(c)) => Ok(spec_add_candidates(result, c)),
            },
        }
    }
}

/// The result as a `Result` of byte sequences.
pub open spec fn outcome_of(r: Result<(), SkkError>, result: Seq<u8>) -> Result<Seq<u8>, SkkError> {
    match r {
        Ok(()) => Ok(result),
        Err(e) => Err(e),
    }
}

impl DictionaryReader {
    /// Whether a `1` or `4` answer holds no candidates.
    pub fn is_empty_candidates(candidates: &[u8]) -> (r: bool)
        ensures
            r == (candidates@.len() == 1),
    {
        candidates.len() == 1
    }

    /// The bytes of the unit `u`: see `unit_bytes_in`.
    pub fn read_unit<'a>(dictionary: &'a [u8], blocks_offset: u32, u: &DictionaryBlockInformation) -> (r: Option<&'a [u8]>)
        ensures
            match unit_bytes_in(dictionary@, blocks_offset as int, info_view(*u)) {
                None => r is None,
                Some(b) => r matches Some(x) && x@ == b,
            },
    {
        let start: u64 = blocks_offset as u64 + u.offset as u64;
        let end: u64 = start + u.length as u64;
        if end > dictionary.len() as u64 {
            return None;
        }
        Some(&dictionary[start as usize..end as usize])
    }

    /// The candidates of `midashi` in a unit: see `spec_unit_candidates`.
    pub fn unit_candidates<'a>(buffer: &'a [u8], midashi: &[u8]) -> (r: Result<Option<&'a [u8]>, SkkError>)
        ensures
            match spec_unit_candidates(buffer@, midashi@) {
                Err(e) => r == Err::<Option<&[u8]>, SkkError>(e),
                Ok(None) => r == Ok::<Option<&[u8]>, SkkError>(None),
                Ok(Some(c)) => r matches Ok(Some(x)) && x@ == c,
            },
    {
        let mut search: Vec<u8> = Vec::new();
        search.push(LF);
        append_bytes(&mut search, midashi);
        search.push(SPACE);
        search.push(SLASH);
        assert(search@ =~= search_pattern(midashi@));
        let ghost sp = search_pattern(midashi@);
        match find_pattern(buffer, search.as_slice()) {
            None => {
                assert(spec_unit_candidates(buffer@, midashi@) == Ok::<Option<Seq<u8>>, SkkError>(None)) by {
                    reveal(spec_unit_candidates);
                }
                Ok(None)
            },
            Some(p) => {
                assert(p + sp.len() <= buffer@.len());
                assert(search@.len() == sp.len());
                assert(p + search.len() <= buffer.len());
                let cs = p + search.len();
                proof { lemma_find_from(buffer@, cs as int, LF); }
                match find_byte_from(buffer, cs, LF) {
                    None => {
                        assert(spec_unit_candidates(buffer@, midashi@) == Err::<Option<Seq<u8>>, SkkError>(SkkError::BrokenDictionary)) by {
                            reveal(spec_unit_candidates);
                        }
                        Err(SkkError::BrokenDictionary)
                    },
                    Some(e) => {
                        assert(spec_unit_candidates(buffer@, midashi@) == Ok::<Option<Seq<u8>>, SkkError>(Some(buffer@.subrange(cs as int, e as int)))) by {
                            reveal(spec_unit_candidates);
                        }
                        Ok(Some(&buffer[cs..e]))
                    },
                }
            },
        }
    }

    /// Adds the candidates `c` found in the dictionary to `result`: see
    /// `spec_add_candidates`.
    pub fn add_candidates(result: &mut Vec<u8>, c: &[u8])
        requires
            old(result).len() >= 1,
        ensures
            final(result)@ == spec_add_candidates(old(result)@, c@),
            final(result)@.len() >= 1,
            old(result)@[0] == 0x31 ==> final(result)@[0] == 0x31,
    {
        if Self::is_empty_candidates(result.as_slice()) {
            result.push(SLASH);
            append_bytes(result, c);
        } else {
            let new_result = {
                let base_candidates_bytes = Candidates::trim_one_slash(&result.as_slice()[1..result.len()]);
                let new_candidates_bytes = Candidates::trim_one_slash(c);
                let merged = Candidates::merge_trimmed_slash_candidates(base_candidates_bytes, new_candidates_bytes);
                let mut v: Vec<u8> = Vec::new();
                v.push(0x31);
                append_bytes(&mut v, merged.as_slice());
                v
            };
            *result = new_result;
        }
    }

    /// Adds the candidates of `midashi` found in its units to `result`. Where the units are in
    /// decreasing midashi order, the unit read is the first whose midashi does not come after
    /// `midashi` (see `read_outcome`).
    pub fn read_dictionary_for_read_candidates(
        midashi: &[u8],
        infos: &[DictionaryBlockInformation],
        blocks_offset: u32,
        dictionary: &[u8],
        result: &mut Vec<u8>,
    ) -> (r: Result<(), SkkError>)
        requires
            old(result).len() >= 1,
            infos.len() <= 0x3fff_ffff,
        ensures
            strictly_decreasing(unit_midashi(infos@)) ==> forall|t: int| #[trigger] first_not_after_from(midashi@, unit_midashi(infos@), 0, t)
                ==> outcome_of(r, final(result)@) == read_outcome(dictionary@, blocks_offset as int, infos_view(infos@), midashi@, t, old(result)@),
            final(result)@.len() >= 1,
            old(result)@[0] == 0x31 ==> final(result)@[0] == 0x31,
            forall|t: int| #[trigger] first_not_after_from(midashi@, unit_midashi(infos@), block_start(midashi@, unit_midashi(infos@)), t)
                ==> outcome_of(r, final(result)@) == read_outcome(dictionary@, blocks_offset as int, infos_view(infos@), midashi@, t, old(result)@),
    {
        let index = Self::get_block_informations_index(midashi, infos);
        proof {
            assert forall|t: int| #[trigger] first_not_after_from(midashi@, unit_midashi(infos@), block_start(midashi@, unit_midashi(infos@)), t)
                implies t == index by {
                lemma_first_unique_from(midashi@, unit_midashi(infos@), block_start(midashi@, unit_midashi(infos@)), t, index as int);
            }
            assert forall|t: int| strictly_decreasing(unit_midashi(infos@)) && #[trigger] first_not_after_from(midashi@, unit_midashi(infos@), 0, t)
                implies t == index by {
                lemma_first_unique(midashi@, unit_midashi(infos@), t, index as int);
            }
        }
        if index >= infos.len() {
            return Ok(());
        }
        let unit = &infos[index];
        let buffer = match Self::read_unit(dictionary, blocks_offset, unit) {
            Some(b) => b,
            None => return Err(SkkError::Io),
        };
        match Self::unit_candidates(buffer, midashi) {
            Err(e) => Err(e),
            Ok(None) => Ok(()),
            Ok(Some(c)) => {
                Self::add_candidates(result, c);
                Ok(())
            },
        }
    }
}

/// From a given start, at most one index is the first that does not come after `m`.
pub proof fn lemma_first_unique_from(m: Seq<u8>, ms: Seq<Seq<u8>>, s: int, a: int, b: int)
    requires
        first_not_after_from(m, ms, s, a),
        first_not_after_from(m, ms, s, b),
    ensures
        a == b,
{
    if a < b {
        assert(lex_lt(m, ms[a]));
        crate::byte_map::lemma_lex_asymmetric(m, ms[a]);
    } else if b < a {
        assert(lex_lt(m, ms[b]));
        crate::byte_map::lemma_lex_asymmetric(m, ms[b]);
    }
}

/// At most one index is the first that does not come after `m`.
pub proof fn lemma_first_unique(m: Seq<u8>, ms: Seq<Seq<u8>>, a: int, b: int)
    requires
        first_not_after_from(m, ms, 0, a),
        first_not_after_from(m, ms, 0, b),
    ensures
        a == b,
{
    if a < b {
        assert(lex_lt(m, ms[a]));
        crate::byte_map::lemma_lex_asymmetric(m, ms[a]);
    } else if b < a {
        assert(lex_lt(m, ms[b]));
        crate::byte_map::lemma_lex_asymmetric(m, ms[b]);
    }
}

/// The midashi key of the request `buffer` (`1midashi ` or `4midashi `), if its midashi starts
/// with a whole EUC character.
pub open spec fn request_key(buffer: Seq<u8>) -> Option<Seq<u8>> {
    let rest = buffer.subrange(1, buffer.len() as int);
    if !midashi_key_readable(rest) { None } else { spec_midashi_key(rest) }
}

impl DictionaryReader {
    /// Looks the request `1midashi ` up in the dictionary: the answer is `initial` (`1` and
    /// the candidates read before the dictionary, if any) with the candidates of the
    /// dictionary added (see `read_outcome`), read from the first unit from `block_start` on
    /// whose midashi does not come after the midashi (in decreasing midashi order, the first such
    /// unit of all); it starts with `1` where `initial` does; `Encoding`
    /// where the midashi does not start with a whole EUC character; `BrokenDictionary` where a
    /// key has more units than an `i32` counts.
    pub fn read_candidates(on_memory: &OnMemory, dictionary: &[u8], midashi_buffer: &[u8], initial: Vec<u8>) -> (r: Result<Vec<u8>, SkkError>)
        requires
            on_memory.wf(),
            midashi_buffer.len() >= 3,
            initial.len() >= 1,
        ensures
            match request_key(midashi_buffer@) {
                None => r == Err::<Vec<u8>, SkkError>(SkkError::Encoding),
                Some(key) => match model_lookup(on_memory.model(), key) {
                    None => r matches Ok(v) && v@ == initial@,
                    Some(ivs) => ivs.len() <= 0x3fff_ffff && strictly_decreasing(view_midashi(ivs)) ==>
                        forall|t: int| #[trigger] first_not_after_from(spec_get_midashi(midashi_buffer@), view_midashi(ivs), 0, t)
                            ==> result_bytes(r) == read_outcome(dictionary@, on_memory.dictionary_fixed_header.blocks_offset as int,
                                ivs, spec_get_midashi(midashi_buffer@), t, initial@),
                },
            },
            initial@[0] == 0x31 ==> (r matches Ok(v) ==> v@.len() >= 1 && v@[0] == 0x31),
            (match request_key(midashi_buffer@) {
                None => true,
                Some(key) => match model_lookup(on_memory.model(), key) {
                    None => true,
                    Some(ivs) => ivs.len() <= 0x3fff_ffff ==> forall|t: int| #[trigger] first_not_after_from(spec_get_midashi(midashi_buffer@),
                        view_midashi(ivs), block_start(spec_get_midashi(midashi_buffer@), view_midashi(ivs)), t)
                        ==> result_bytes(r) == read_outcome(dictionary@, on_memory.dictionary_fixed_header.blocks_offset as int,
                            ivs, spec_get_midashi(midashi_buffer@), t, initial@),
                },
            }),
    {
        let mut result = initial;
        let midashi = Self::get_midashi(midashi_buffer);
        let rest = &midashi_buffer[1..midashi_buffer.len()];
        if !Dictionary::is_midashi_key_readable(rest) {
            return Err(SkkError::Encoding);
        }
        let key = match Dictionary::get_dictionary_midashi_key(rest) {
            Ok(k) => k,
            Err(e) => return Err(e),
        };
        match on_memory.get_block_information_vectors(key) {
            None => {},
            Some(infos) => {
                if infos.len() > 0x3fff_ffff {
                    return Err(SkkError::BrokenDictionary);
                }
                proof { lemma_view_midashi(infos@); }
                match Self::read_dictionary_for_read_candidates(midashi, infos, on_memory.dictionary_fixed_header.blocks_offset, dictionary, &mut result) {
                    Ok(()) => {},
                    Err(e) => return Err(e),
                }
            },
        }
        Ok(result)
    }
}

/// A result with its bytes taken by their view.
pub open spec fn result_bytes(r: Result<Vec<u8>, SkkError>) -> Result<Seq<u8>, SkkError> {
    match r {
        Ok(v) => Ok(v@),
        Err(e) => Err(e),
    }
}

/// Whether `s` starts with `p`.
pub open spec fn starts_with(s: Seq<u8>, p: Seq<u8>) -> bool {
    p.len() <= s.len() && s.subrange(0, p.len() as int) == p
}

impl DictionaryReader {
    /// Whether `s` starts with `p`.
    pub fn bytes_starts_with(s: &[u8], p: &[u8]) -> (r: bool)
        ensures
            r == starts_with(s@, p@),
    {
        if p.len() > s.len() {
            return false;
        }
        let r = crate::bytes::bytes_eq(&s[0..p.len()], p);
        r
    }
}

/// How collecting completions in one unit ends: every completion wanted is found (`Done`); the
/// unit's entries are used up (`Continue`); an entry has no space (`Broken`).
#[derive(PartialEq, Eq, Structural)]
pub enum UnitScan {
    Done,
    Continue,
    Broken,
}

/// What a completion of `m` is looked up by in a unit: LF, then `m`.
pub open spec fn abbrev_search(m: Seq<u8>) -> Seq<u8> {
    seq![LF] + m
}

/// Collecting completions of `m` in the unit `buf` from `offset` on, with `found` completions
/// found and `acc` collected so far: the next entry whose midashi starts with `m` ends at the
/// first space after it; where its midashi is not okuri-ari it adds `/` and the quoted midashi,
/// and collecting ends as soon as `max` completions are found.
pub open spec fn abbrev_in_unit(buf: Seq<u8>, m: Seq<u8>, offset: int, found: nat, max: nat, acc: Seq<u8>) -> (UnitScan, Seq<u8>, nat)
    decreases buf.len() - offset,
{
    if offset < 0 || offset > buf.len() {
        (UnitScan::Broken, acc, found)
    } else {
        match spec_first_occurrence(buf.subrange(offset, buf.len() as int), abbrev_search(m)) {
            None => (UnitScan::Continue, acc, found),
            Some(p) => match spec_find_from(buf, offset + p + abbrev_search(m).len(), SPACE) {
                None => (UnitScan::Broken, acc, found),
                Some(sp) => {
                    let c = buf.subrange(offset + p + 1, sp);
                    if sp <= offset || sp > buf.len() {
                        (UnitScan::Broken, acc, found)
                    } else if spec_is_okuri_ari(c) {
                        abbrev_in_unit(buf, m, sp, found, max, acc)
                    } else if found + 1 >= max {
                        (UnitScan::Done, acc + seq![SLASH] + spec_quote(c), found + 1)
                    } else {
                        abbrev_in_unit(buf, m, sp, found + 1, max, acc + seq![SLASH] + spec_quote(c))
                    }
                },
            },
        }
    }
}

/// Collecting completions of `m` from the unit at `index` towards larger midashi (smaller
/// indices): the unit the walk starts at (`first`) is always read, a later unit only where its
/// first midashi starts with `m` (the midashi that start with `m` come one after another, so
/// the walk ends at the first later unit that does not); `Io` where a unit lies outside the
/// dictionary; `BrokenDictionary` where an entry has no space.
pub open spec fn abbrev_units(
    d: Seq<u8>,
    blocks_offset: int,
    infos: Seq<InfoView>,
    m: Seq<u8>,
    index: nat,
    first: bool,
    found: nat,
    max: nat,
    acc: Seq<u8>,
) -> Result<Seq<u8>, SkkError>
    decreases index,
{
    if index >= infos.len() {
        Ok(acc)
    } else if !first && !starts_with(infos[index as int].0, m) {
        Ok(acc)
    } else {
        match unit_bytes_in(d, blocks_offset, infos[index as int]) {
            None => Err(SkkError::Io),
            Some(buf) => {
                let (s, acc2, found2) = abbrev_in_unit(buf, m, 0, found, max, acc);
                match s {
                    UnitScan::Broken => Err(SkkError::BrokenDictionary),
                    UnitScan::Done => Ok(acc2),
                    UnitScan::Continue => if index == 0 {
                        Ok(acc2)
                    } else {
                        abbrev_units(d, blocks_offset, infos, m, (index - 1) as nat, false, found2, max, acc2)
                    },
                }
            },
        }
    }
}

/// The completions of `m` added to `result`, collected from the unit at `t` (the first whose
/// midashi does not come after `m`), or from the last unit where `t` is past them, and decoded
/// to UTF-8 where the dictionary is UTF-8; `result` unchanged where there are no units.
pub open spec fn spec_collect_abbrev(
    d: Seq<u8>,
    blocks_offset: int,
    infos: Seq<InfoView>,
    m: Seq<u8>,
    t: int,
    max: nat,
    encoding: Encoding,
    table: EncodingTable,
    result: Seq<u8>,
) -> Result<Seq<u8>, SkkError> {
    if infos.len() == 0 {
        Ok(result)
    } else {
        let start = if t >= infos.len() { infos.len() - 1 } else { t };
        collect_from(abbrev_units(d, blocks_offset, infos, m, start as nat, true, 0, max, result), encoding, table)
    }
}

/// The completions collected, `total`, decoded to UTF-8 where the dictionary is UTF-8.
pub open spec fn collect_from(total: Result<Seq<u8>, SkkError>, encoding: Encoding, table: EncodingTable) -> Result<Seq<u8>, SkkError> {
    match total {
        Err(e) => Err(e),
        Ok(acc) => if encoding == Encoding::Utf8 { Ok(spec_decode(table, acc)) } else { Ok(acc) },
    }
}

/// Whether, for units in decreasing midashi order, collecting from the first unit that does
/// not come after `m` gives `total` before decoding.
spec fn abbrev_linked(
    d: Seq<u8>,
    blocks_offset: int,
    infos: Seq<InfoView>,
    m: Seq<u8>,
    ms: Seq<Seq<u8>>,
    max: nat,
    encoding: Encoding,
    table: EncodingTable,
    result: Seq<u8>,
    total: Result<Seq<u8>, SkkError>,
) -> bool {
    &&& strictly_decreasing(ms) ==> forall|t: int| #[trigger] first_not_after_from(m, ms, 0, t)
        ==> spec_collect_abbrev(d, blocks_offset, infos, m, t, max, encoding, table, result) == collect_from(total, encoding, table)
    &&& forall|t: int| #[trigger] first_not_after_from(m, ms, block_start(m, ms), t)
        ==> spec_collect_abbrev(d, blocks_offset, infos, m, t, max, encoding, table, result) == collect_from(total, encoding, table)
}

/// The answer to `4midashi `: the collected bytes, closed by `/` where they hold any
/// completion.
pub open spec fn abbrev_answer(collected: Result<Seq<u8>, SkkError>) -> Result<Seq<u8>, SkkError> {
    match collected {
        Err(e) => Err(e),
        Ok(v) => Ok(if v.len() > 1 { v.push(SLASH) } else { v }),
    }
}

impl DictionaryReader {
    /// Collects completions of `midashi` into `result`: see `spec_collect_abbrev`, for units in
    /// decreasing midashi order.
    pub fn read_dictionary_for_read_abbrev(
        midashi: &[u8],
        infos: &[DictionaryBlockInformation],
        blocks_offset: u32,
        dictionary: &[u8],
        result: &mut Vec<u8>,
        max_server_completions: usize,
        encoding: Encoding,
        table: &EncodingTable,
    ) -> (r: Result<(), SkkError>)
        requires
            infos.len() <= 0x3fff_ffff,
            table.wf(),
        ensures
            strictly_decreasing(unit_midashi(infos@)) ==> forall|t: int| #[trigger] first_not_after_from(midashi@, unit_midashi(infos@), 0, t)
                ==> outcome_of(r, final(result)@) == spec_collect_abbrev(dictionary@, blocks_offset as int, infos_view(infos@),
                    midashi@, t, max_server_completions as nat, encoding, *table, old(result)@),
            forall|t: int| #[trigger] first_not_after_from(midashi@, unit_midashi(infos@), block_start(midashi@, unit_midashi(infos@)), t)
                ==> outcome_of(r, final(result)@) == spec_collect_abbrev(dictionary@, blocks_offset as int, infos_view(infos@),
                    midashi@, t, max_server_completions as nat, encoding, *table, old(result)@),
    {
        if infos.len() == 0 {
            return Ok(());
        }
        let first = Self::get_block_informations_index(midashi, infos);
        proof {
            assert forall|t: int| #[trigger] first_not_after_from(midashi@, unit_midashi(infos@), block_start(midashi@, unit_midashi(infos@)), t)
                implies t == first by {
                lemma_first_unique_from(midashi@, unit_midashi(infos@), block_start(midashi@, unit_midashi(infos@)), t, first as int);
            }
            assert forall|t: int| strictly_decreasing(unit_midashi(infos@)) && #[trigger] first_not_after_from(midashi@, unit_midashi(infos@), 0, t)
                implies t == first by {
                lemma_first_unique(midashi@, unit_midashi(infos@), t, first as int);
            }
        }
        let mut index = first;
        if index >= infos.len() {
            index = index - 1;
        }
        let ghost iv = infos_view(infos@);
        let ghost d = dictionary@;
        let ghost bo = blocks_offset as int;
        let ghost m = midashi@;
        let ghost max = max_server_completions as nat;
        assert(iv.len() == infos@.len());
        let ghost r0 = result@;
        let ghost total = abbrev_units(d, bo, iv, m, index as nat, true, 0, max, r0);
        let start = index;
        assert(abbrev_linked(d, bo, iv, m, unit_midashi(infos@), max, encoding, *table, r0, total));
        let mut search: Vec<u8> = Vec::new();
        search.push(LF);
        append_bytes(&mut search, midashi);
        assert(search@ =~= abbrev_search(m));
        let mut found_count: usize = 0;
        loop
            invariant_except_break
                index < infos.len(),
                index <= start,
                found_count == 0 || found_count < max_server_completions,
                abbrev_units(d, bo, iv, m, index as nat, index == start, found_count as nat, max, result@) == total,
            invariant
                abbrev_linked(d, bo, iv, m, unit_midashi(infos@), max, encoding, *table, r0, total),
                r0 == old(result)@,
                iv == infos_view(infos@),
                iv.len() == infos@.len(),
                d == dictionary@,
                bo == blocks_offset as int,
                m == midashi@,
                max == max_server_completions as nat,
                search@ == abbrev_search(m),
            ensures
                total == Ok::<Seq<u8>, SkkError>(result@),
            decreases index,
        {
            let unit = &infos[index];
            assert(iv[index as int] == info_view(*unit));
            if index != start && !Self::bytes_starts_with(unit.midashi.as_slice(), midashi) {
                break;
            }
            let buffer = match Self::read_unit(dictionary, blocks_offset, unit) {
                Some(b) => b,
                None => {
                    assert(total == Err::<Seq<u8>, SkkError>(SkkError::Io));
                    return Err(SkkError::Io);
                },
            };
            let ghost f0 = found_count as nat;
            let ghost acc0 = result@;
            let ghost unit_outcome = abbrev_in_unit(buffer@, m, 0, f0, max, acc0);
            let mut offset: usize = 0;
            let mut stop = false;
            loop
                invariant_except_break
                    !stop,
                    found_count == 0 || found_count < max_server_completions,
                    abbrev_in_unit(buffer@, m, offset as int, found_count as nat, max, result@) == unit_outcome,
                invariant
                    abbrev_linked(d, bo, iv, m, unit_midashi(infos@), max, encoding, *table, r0, total),
                    r0 == old(result)@,
                    iv == infos_view(infos@),
                    d == dictionary@,
                    bo == blocks_offset as int,
                    offset <= buffer.len(),
                    search@ == abbrev_search(m),
                    m == midashi@,
                    max == max_server_completions as nat,
                    unit_outcome == abbrev_in_unit(buffer@, m, 0, f0, max, acc0),
                    unit_bytes_in(d, bo, iv[index as int]) == Some(buffer@),
                    index <= start,
                    !(index != start && !starts_with(iv[index as int].0, m)),
                    index < infos.len(),
                    iv.len() == infos@.len(),
                    abbrev_units(d, bo, iv, m, index as nat, index == start, f0, max, acc0) == total,
                ensures
                    unit_outcome == (if stop { UnitScan::Done } else { UnitScan::Continue }, result@, found_count as nat),
                    !stop ==> found_count == 0 || found_count < max_server_completions,
                decreases buffer.len() - offset,
            {
                let rest = &buffer[offset..buffer.len()];
                assert(rest@ == buffer@.subrange(offset as int, buffer@.len() as int));
                let ghost offset0 = offset as int;
                let ghost found0 = found_count as nat;
                let ghost before = result@;
                match find_pattern(rest, search.as_slice()) {
                    Some(midashi_find) => {
                        let midashi_start = offset + midashi_find + 1;
                        let space_start = offset + midashi_find + search.len();
                        proof { lemma_find_from(buffer@, space_start as int, SPACE); }
                        match find_byte_from(buffer, space_start, SPACE) {
                            Some(space) => {
                                offset = space;
                                let candidate = &buffer[midashi_start..space];
                                assert(candidate@ == buffer@.subrange(offset0 + midashi_find + 1, space as int));
                                assert(offset0 < space <= buffer@.len());
                                if !Self::is_okuri_ari(candidate) {
                                    let q = Candidates::quote_and_add_prefix(candidate, Some(SLASH));
                                    assert(q@ == seq![SLASH] + spec_quote(candidate@));
                                    append_bytes(result, q.as_slice());
                                    assert(result@ == before + seq![SLASH] + spec_quote(candidate@));
                                    found_count = found_count + 1;
                                    if found_count >= max_server_completions {
                                        stop = true;
                                        break;
                                    }
                                    assert(abbrev_in_unit(buffer@, m, offset0, found0, max, before)
                                        == abbrev_in_unit(buffer@, m, offset as int, found_count as nat, max, result@));
                                } else {
                                    assert(abbrev_in_unit(buffer@, m, offset0, found0, max, before)
                                        == abbrev_in_unit(buffer@, m, offset as int, found_count as nat, max, result@));
                                }
                            },
                            None => {
                                assert(unit_outcome.0 == UnitScan::Broken);
                                assert(total == Err::<Seq<u8>, SkkError>(SkkError::BrokenDictionary));
                                return Err(SkkError::BrokenDictionary);
                            },
                        }
                    },
                    None => {
                        break;
                    },
                }
            }
            if stop || index == 0 {
                break;
            }
            index = index - 1;
        }
        if encoding == Encoding::Utf8 {
            let decoded = match Euc::decode(result.as_slice(), table) {
                Ok(v) => v,
                Err(e) => return Err(e),
            };
            *result = decoded;
        }
        Ok(())
    }

    /// Looks the request `4midashi ` up for completions: `1`, then the completions collected
    /// for the midashi (see `spec_collect_abbrev`), from the first unit from `block_start` on whose
    /// midashi does not come after the midashi (in decreasing midashi order, the first of all), then
    /// a closing `/` where there are any; `Encoding` where the midashi does not start with a
    /// whole EUC character; `BrokenDictionary` where the header names no encoding or a key has
    /// more units than an `i32` counts.
    pub fn read_abbrev(
        on_memory: &OnMemory,
        dictionary: &[u8],
        midashi_buffer: &[u8],
        max_server_completions: usize,
        table: &EncodingTable,
    ) -> (r: Result<Vec<u8>, SkkError>)
        requires
            on_memory.wf(),
            midashi_buffer.len() >= 3,
            table.wf(),
        ensures
            match request_key(midashi_buffer@) {
                None => r == Err::<Vec<u8>, SkkError>(SkkError::Encoding),
                Some(key) => if on_memory.dictionary_fixed_header.encoding > 1 {
                    r == Err::<Vec<u8>, SkkError>(SkkError::BrokenDictionary)
                } else {
                    match model_lookup(on_memory.model(), key) {
                        None => r matches Ok(v) && v@ == seq![0x31u8],
                        Some(ivs) => ivs.len() <= 0x3fff_ffff && strictly_decreasing(view_midashi(ivs)) ==>
                            forall|t: int| #[trigger] first_not_after_from(spec_get_midashi(midashi_buffer@), view_midashi(ivs), 0, t)
                                ==> result_bytes(r) == abbrev_answer(spec_collect_abbrev(dictionary@,
                                    on_memory.dictionary_fixed_header.blocks_offset as int, ivs, spec_get_midashi(midashi_buffer@), t,
                                    max_server_completions as nat, encoding_of(on_memory.dictionary_fixed_header.encoding), *table,
                                    seq![0x31u8])),
                    }
                },
            },
            (match request_key(midashi_buffer@) {
                None => true,
                Some(key) => on_memory.dictionary_fixed_header.encoding <= 1 ==> match model_lookup(on_memory.model(), key) {
                    None => true,
                    Some(ivs) => ivs.len() <= 0x3fff_ffff ==> forall|t: int| #[trigger] first_not_after_from(spec_get_midashi(midashi_buffer@),
                        view_midashi(ivs), block_start(spec_get_midashi(midashi_buffer@), view_midashi(ivs)), t)
                        ==> result_bytes(r) == abbrev_answer(spec_collect_abbrev(dictionary@,
                            on_memory.dictionary_fixed_header.blocks_offset as int, ivs, spec_get_midashi(midashi_buffer@), t,
                            max_server_completions as nat, encoding_of(on_memory.dictionary_fixed_header.encoding), *table,
                            seq![0x31u8])),
                },
            }),
    {
        let mut result: Vec<u8> = Vec::new();
        result.push(0x31);
        let midashi = Self::get_midashi(midashi_buffer);
        let rest = &midashi_buffer[1..midashi_buffer.len()];
        if !Dictionary::is_midashi_key_readable(rest) {
            return Err(SkkError::Encoding);
        }
        let key = match Dictionary::get_dictionary_midashi_key(rest) {
            Ok(k) => k,
            Err(e) => return Err(e),
        };
        if on_memory.dictionary_fixed_header.encoding > 1 {
            return Err(SkkError::BrokenDictionary);
        }
        let encoding = Encoding::from_u32(on_memory.dictionary_fixed_header.encoding);
        assert(encoding == encoding_of(on_memory.dictionary_fixed_header.encoding));
        match on_memory.get_block_information_vectors(key) {
            None => {
                assert(result@ =~= seq![0x31u8]);
            },
            Some(infos) => {
                if infos.len() > 0x3fff_ffff {
                    return Err(SkkError::BrokenDictionary);
                }
                proof { lemma_view_midashi(infos@); }
                match Self::read_dictionary_for_read_abbrev(midashi, infos, on_memory.dictionary_fixed_header.blocks_offset,
                    dictionary, &mut result, max_server_completions, encoding, table) {
                    Ok(()) => {},
                    Err(e) => return Err(e),
                }
            },
        }
        if result.len() > 1 {
            result.push(SLASH);
        }
        Ok(result)
    }
}

/// The encoding that a header number of at most 1 stands for.
pub open spec fn encoding_of(n: u32) -> Encoding {
    if n == 0 { Encoding::Euc } else { Encoding::Utf8 }
}

} // verus!
