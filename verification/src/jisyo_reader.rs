//! Reading jisyo files (SKK dictionaries in text form) into one map of entries.
use vstd::prelude::*;
use crate::byte_map::ByteMap;
use crate::bytes::{append_bytes, occurs_at, spec_find_from, find_byte_from, lemma_find_from};
use crate::candidates::{Candidates, spec_merge, spec_remove_duplicates_bytes, spec_trim_one_slash};
use crate::dictionary::{Dictionary, spec_midashi_candidates};
use crate::encoding::{Encoding, EncodingOptions};
use crate::encoding_simple::{EncodingTable, Euc, Utility, spec_detect_encoding};
use crate::encoding_simple::euc::{spec_encode, spec_decode};
use crate::error::SkkError;
use crate::outside::find_bytes;

verus! {

/// Lines shorter than this are skipped.
pub const JISYO_MINIMUM_LINE_LENGTH: usize = 5;
/// Lines longer than this are skipped.
pub const JISYO_MAXIMUM_LINE_LENGTH: usize = 128 * 1024;
/// Candidates shorter than this (`/C/`) make a line skipped.
pub const JISYO_MINIMUM_CANDIDATES_LENGTH: usize = 3;
/// How many bytes the encoding of a jisyo is guessed from.
pub const JISYO_ENCODING_DETECT_BUFFER_LENGTH: usize = 16 * 1024;

pub const CR: u8 = 0x0d;
pub const LF: u8 = 0x0a;

/// Namespace for reading jisyo files.
pub struct JisyoReader;

/// Why a jisyo line is skipped.
#[derive(Clone, Copy, Debug, PartialEq, Eq, Structural)]
pub enum SkipReason {
    EmptyLine,
    Comment,
    BeginSpace,
    BeginTab,
    LineTooShort,
    LineTooLong,
    SpaceNotFound,
    CandidatesTooShort,
    MultiSpace,
    IllegalCandidates,
}

/// Whether `b` ends a line.
pub open spec fn is_cr_or_lf(b: u8) -> bool {
    b == CR || b == LF
}

/// The first CR or LF at or after `pos`, if any.
pub open spec fn line_end_from(c: Seq<u8>, pos: int) -> Option<int>
    decreases c.len() - pos,
{
    if pos < 0 || pos >= c.len() {
        None
    } else if is_cr_or_lf(c[pos]) {
        Some(pos)
    } else {
        line_end_from(c, pos + 1)
    }
}

/// The lines of `c` from `pos` on, `last_cr` telling whether the previous line ended with a CR.
/// A line runs up to and including the next CR or LF (or to the end of `c`) and loses its last
/// byte; a lone LF right after a CR (a CRLF) gives no line.
#[verifier::opaque]
pub open spec fn jisyo_lines_from(c: Seq<u8>, pos: int, last_cr: bool) -> Seq<Seq<u8>>
    decreases c.len() - pos,
{
    if pos < 0 || pos >= c.len() {
        Seq::empty()
    } else {
        let end = match line_end_from(c, pos) {
            Some(e) => e + 1,
            None => c.len() as int,
        };
        if end <= pos || end > c.len() {
            Seq::empty()
        } else if last_cr && c[pos] == LF && end - pos == 1 {
            jisyo_lines_from(c, end, last_cr)
        } else {
            seq![c.subrange(pos, end - 1)] + jisyo_lines_from(c, end, c[end - 1] == CR)
        }
    }
}

/// `//`, which no candidates may hold.
pub open spec fn double_slash() -> Seq<u8> {
    seq![0x2fu8, 0x2fu8]
}

/// Whether `line` holds nothing but spaces, CRs and LFs.
pub open spec fn spec_is_space_cr_lf_only(line: Seq<u8>) -> bool {
    forall|i: int| 0 <= i < line.len() ==> (line[i] == 0x20 || line[i] == CR || line[i] == LF)
}

/// Why `line` is skipped, checked in this order; none where it is read.
#[verifier::opaque]
pub open spec fn spec_skip_reason(line: Seq<u8>) -> Option<SkipReason> {
    if line.len() == 0 || spec_is_space_cr_lf_only(line) {
        Some(SkipReason::EmptyLine)
    } else if line[0] == 0x3b {
        Some(SkipReason::Comment)
    } else if line[0] == 0x20 {
        Some(SkipReason::BeginSpace)
    } else if line[0] == 0x09 {
        Some(SkipReason::BeginTab)
    } else if line.len() < JISYO_MINIMUM_LINE_LENGTH {
        Some(SkipReason::LineTooShort)
    } else if line.len() > JISYO_MAXIMUM_LINE_LENGTH {
        Some(SkipReason::LineTooLong)
    } else {
        match spec_find_from(line, 0, 0x20) {
            None => Some(SkipReason::SpaceNotFound),
            Some(space) => {
                if line.len() < space + JISYO_MINIMUM_CANDIDATES_LENGTH {
                    Some(SkipReason::CandidatesTooShort)
                } else if line[space + 1] == 0x20 {
                    Some(SkipReason::MultiSpace)
                } else if exists|i: int| #[trigger] occurs_at(line.subrange(space + 1, line.len() as int), double_slash(), i) {
                    Some(SkipReason::IllegalCandidates)
                } else {
                    None
                }
            },
        }
    }
}

/// The midashi and candidates of an entry converted for the output: the midashi stays as it is
/// where the jisyo is EUC or there is no output encoding, else it is encoded to EUC; the
/// candidates are converted where the jisyo and the output encodings differ.
pub open spec fn spec_encode_midashi_candidates(
    t: EncodingTable,
    m: Seq<u8>,
    c: Seq<u8>,
    jisyo_encoding: Encoding,
    output_encoding: Option<Encoding>,
) -> (Seq<u8>, Seq<u8>) {
    let midashi = if jisyo_encoding == Encoding::Euc || output_encoding is None { m } else { spec_encode(t, m) };
    let candidates = if output_encoding == Some(Encoding::Euc) && jisyo_encoding == Encoding::Utf8 {
        spec_encode(t, c)
    } else if output_encoding == Some(Encoding::Utf8) && jisyo_encoding == Encoding::Euc {
        spec_decode(t, c)
    } else {
        c
    };
    (midashi, candidates)
}

/// The entries after the line `line` is read: lines without a midashi and candidates change
/// nothing; else the candidates, without repeats, are merged into those the midashi has or
/// become its candidates.
pub open spec fn entries_after_line(
    t: EncodingTable,
    m: Map<Seq<u8>, Seq<u8>>,
    line: Seq<u8>,
    jisyo_encoding: Encoding,
    output_encoding: Option<Encoding>,
) -> Map<Seq<u8>, Seq<u8>> {
    match spec_midashi_candidates(line) {
        None => m,
        Some((mi, ca)) => {
            let (midashi, candidates) = spec_encode_midashi_candidates(t, mi, ca, jisyo_encoding, output_encoding);
            let removed = spec_remove_duplicates_bytes(candidates);
            if m.contains_key(midashi) {
                m.insert(midashi, spec_merge(spec_trim_one_slash(m[midashi]), spec_trim_one_slash(removed)))
            } else {
                m.insert(midashi, removed)
            }
        },
    }
}

/// The entries after the lines `ls` that are not skipped are read in order.
#[verifier::opaque]
pub open spec fn entries_after_lines(
    t: EncodingTable,
    m: Map<Seq<u8>, Seq<u8>>,
    ls: Seq<Seq<u8>>,
    jisyo_encoding: Encoding,
    output_encoding: Option<Encoding>,
) -> Map<Seq<u8>, Seq<u8>>
    decreases ls.len(),
{
    if ls.len() == 0 {
        m
    } else {
        let m2 = entries_after_lines(t, m, ls.drop_last(), jisyo_encoding, output_encoding);
        if spec_skip_reason(ls.last()) is Some {
            m2
        } else {
            entries_after_line(t, m2, ls.last(), jisyo_encoding, output_encoding)
        }
    }
}

/// The encoding of a jisyo, guessed from its first 16 KiB; `JisyoRead` where it is shorter
/// than a line can be.
pub open spec fn spec_detect_jisyo_encoding(c: Seq<u8>) -> Result<(Encoding, EncodingOptions), SkkError> {
    let n = if c.len() < JISYO_ENCODING_DETECT_BUFFER_LENGTH { c.len() } else { JISYO_ENCODING_DETECT_BUFFER_LENGTH as nat };
    if n < JISYO_MINIMUM_LINE_LENGTH {
        Err(SkkError::JisyoRead)
    } else {
        spec_detect_encoding(c.subrange(0, n as int))
    }
}

/// The entries after the jisyo `c` is read into `m`: its lines after the byte order mark, where
/// it has one.
#[verifier::opaque]
pub open spec fn entries_after_jisyo(
    t: EncodingTable,
    m: Map<Seq<u8>, Seq<u8>>,
    c: Seq<u8>,
    output_encoding: Option<Encoding>,
) -> Result<Map<Seq<u8>, Seq<u8>>, SkkError> {
    match spec_detect_jisyo_encoding(c) {
        Err(e) => Err(e),
        Ok((enc, opt)) => {
            let start = if opt == EncodingOptions::Bom { 3int } else { 0int };
            Ok(entries_after_lines(t, m, jisyo_lines_from(c, start, false), enc, output_encoding))
        },
    }
}

/// The entries of the first `n` jisyo files, read in order into one map.
pub open spec fn entries_of_jisyos(
    t: EncodingTable,
    cs: Seq<Seq<u8>>,
    n: nat,
    output_encoding: Option<Encoding>,
) -> Result<Map<Seq<u8>, Seq<u8>>, SkkError>
    decreases n,
{
    if n == 0 {
        Ok(Map::empty())
    } else {
        match entries_of_jisyos(t, cs, (n - 1) as nat, output_encoding) {
            Err(e) => Err(e),
            Ok(m) => entries_after_jisyo(t, m, cs[n - 1], output_encoding),
        }
    }
}

impl JisyoReader {
    /// Guesses the encoding of a jisyo: see `spec_detect_jisyo_encoding`.
    pub fn detect_jisyo_encoding(content: &[u8]) -> (r: Result<(Encoding, EncodingOptions), SkkError>)
        ensures
            r == spec_detect_jisyo_encoding(content@),
    {
        let n = if content.len() < JISYO_ENCODING_DETECT_BUFFER_LENGTH { content.len() } else { JISYO_ENCODING_DETECT_BUFFER_LENGTH };
        if n < JISYO_MINIMUM_LINE_LENGTH {
            return Err(SkkError::JisyoRead);
        }
        Utility::detect_encoding(&content[0..n])
    }

    /// Whether `line` holds nothing but spaces, CRs and LFs.
    pub fn is_space_cr_lf_only(line: &[u8]) -> (r: bool)
        ensures
            r == spec_is_space_cr_lf_only(line@),
    {
        let mut i: usize = 0;
        while i < line.len()
            invariant
                i <= line.len(),
                forall|j: int| 0 <= j < i ==> (line@[j] == 0x20 || line@[j] == CR || line@[j] == LF),
            decreases line.len() - i,
        {
            let b = line[i];
            if b != 0x20 && b != CR && b != LF {
                return false;
            }
            i += 1;
        }
        true
    }

    /// Why `line` is skipped: see `spec_skip_reason`.
    pub fn is_skip(chomped_line: &[u8]) -> (r: Option<SkipReason>)
        ensures
            r == spec_skip_reason(chomped_line@),
    {
        reveal(spec_skip_reason);
        if chomped_line.len() == 0 || Self::is_space_cr_lf_only(chomped_line) {
            return Some(SkipReason::EmptyLine);
        }
        if chomped_line[0] == 0x3b {
            return Some(SkipReason::Comment);
        }
        if chomped_line[0] == 0x20 {
            return Some(SkipReason::BeginSpace);
        }
        if chomped_line[0] == 0x09 {
            return Some(SkipReason::BeginTab);
        }
        if chomped_line.len() < JISYO_MINIMUM_LINE_LENGTH {
            return Some(SkipReason::LineTooShort);
        }
        if chomped_line.len() > JISYO_MAXIMUM_LINE_LENGTH {
            return Some(SkipReason::LineTooLong);
        }
        proof { lemma_find_from(chomped_line@, 0, 0x20); }
        let space = match find_byte_from(chomped_line, 0, 0x20) {
            Some(s) => s,
            None => return Some(SkipReason::SpaceNotFound),
        };
        if chomped_line.len() < space + JISYO_MINIMUM_CANDIDATES_LENGTH {
            return Some(SkipReason::CandidatesTooShort);
        }
        if chomped_line[space + 1] == 0x20 {
            return Some(SkipReason::MultiSpace);
        }
        let pattern: [u8; 2] = [0x2f, 0x2f];
        assert(pattern@ =~= double_slash());
        let rest = &chomped_line[space + 1..chomped_line.len()];
        if find_bytes(rest, &pattern).is_some() {
            return Some(SkipReason::IllegalCandidates);
        }
        None
    }

    /// Converts a midashi and its candidates for the output: see
    /// `spec_encode_midashi_candidates`.
    pub fn encode_midashi_candidates(
        midashi: &[u8],
        candidates: &[u8],
        jisyo_encoding: Encoding,
        output_encoding: Option<Encoding>,
        table: &EncodingTable,
    ) -> (r: (Vec<u8>, Vec<u8>))
        requires
            table.wf(),
        ensures
            (r.0@, r.1@) == spec_encode_midashi_candidates(*table, midashi@, candidates@, jisyo_encoding, output_encoding),
    {
        let m = if jisyo_encoding == Encoding::Euc || output_encoding.is_none() {
            let mut v: Vec<u8> = Vec::new();
            append_bytes(&mut v, midashi);
            assert(v@ =~= midashi@);
            v
        } else {
            match Euc::encode(midashi, table) {
                Ok(v) => v,
                Err(_) => Vec::new(),
            }
        };
        let c = if output_encoding == Some(Encoding::Euc) && jisyo_encoding == Encoding::Utf8 {
            match Euc::encode(candidates, table) {
                Ok(v) => v,
                Err(_) => Vec::new(),
            }
        } else if output_encoding == Some(Encoding::Utf8) && jisyo_encoding == Encoding::Euc {
            match Euc::decode(candidates, table) {
                Ok(v) => v,
                Err(_) => Vec::new(),
            }
        } else {
            let mut v: Vec<u8> = Vec::new();
            append_bytes(&mut v, candidates);
            assert(v@ =~= candidates@);
            v
        };
        (m, c)
    }

    /// Reads one line into the entries: see `entries_after_line`.
    pub fn update_jisyo_entries_map(
        result_jisyo_entries_map: &mut ByteMap,
        chomped_line: &[u8],
        jisyo_encoding: Encoding,
        output_encoding: Option<Encoding>,
        table: &EncodingTable,
    )
        requires
            old(result_jisyo_entries_map).wf(),
            table.wf(),
        ensures
            final(result_jisyo_entries_map).wf(),
            final(result_jisyo_entries_map).view() == entries_after_line(*table, old(result_jisyo_entries_map).view(),
                chomped_line@, jisyo_encoding, output_encoding),
    {
        reveal(entries_after_line);
        let (midashi_in, candidates_in) = match Dictionary::get_midashi_candidates(chomped_line) {
            Ok(mc) => mc,
            Err(_) => return,
        };
        let (midashi, candidates) = Self::encode_midashi_candidates(midashi_in, candidates_in, jisyo_encoding, output_encoding, table);
        let removed = Candidates::remove_duplicates_bytes(candidates.as_slice());
        let ghost old_map = *result_jisyo_entries_map;
        let ghost kv = midashi@;
        let new_value = match result_jisyo_entries_map.get(midashi.as_slice()) {
            Some(existing) => Candidates::merge_trimmed_slash_candidates(
                Candidates::trim_one_slash(existing.as_slice()),
                Candidates::trim_one_slash(removed.as_slice()),
            ),
            None => removed,
        };
        let ghost vv = new_value@;
        result_jisyo_entries_map.insert(midashi, new_value);
        proof {
            ByteMap::lemma_insert_view(old_map, *result_jisyo_entries_map, kv, vv);
        }
    }

    /// The first CR or LF at or after `pos`: see `line_end_from`.
    pub fn find_cr_or_lf(content: &[u8], pos: usize) -> (r: Option<usize>)
        ensures
            match line_end_from(content@, pos as int) {
                Some(e) => r == Some(e as usize),
                None => r is None,
            },
    {
        let mut i = pos;
        while i < content.len()
            invariant
                pos <= i,
                line_end_from(content@, pos as int) == line_end_from(content@, i as int),
            decreases content.len() - i,
        {
            if content[i] == CR || content[i] == LF {
                return Some(i);
            }
            i += 1;
        }
        None
    }

    /// Reads one line into the entries unless it is skipped.
    pub fn read_line(
        result_jisyo_entries_map: &mut ByteMap,
        chomped_line: &[u8],
        jisyo_encoding: Encoding,
        output_encoding: Option<Encoding>,
        table: &EncodingTable,
    )
        requires
            old(result_jisyo_entries_map).wf(),
            table.wf(),
        ensures
            final(result_jisyo_entries_map).wf(),
            final(result_jisyo_entries_map).view() == (if spec_skip_reason(chomped_line@) is Some {
                old(result_jisyo_entries_map).view()
            } else {
                entries_after_line(*table, old(result_jisyo_entries_map).view(), chomped_line@, jisyo_encoding, output_encoding)
            }),
    {
        if Self::is_skip(chomped_line).is_none() {
            Self::update_jisyo_entries_map(result_jisyo_entries_map, chomped_line, jisyo_encoding, output_encoding, table);
        }
    }

    /// Reads the lines of one jisyo into the entries: see `entries_after_jisyo`.
    #[verifier::rlimit(100)]
    pub fn read_jisyo(
        result_jisyo_entries_map: &mut ByteMap,
        content: &[u8],
        output_encoding: Option<Encoding>,
        table: &EncodingTable,
    ) -> (r: Result<(), SkkError>)
        requires
            old(result_jisyo_entries_map).wf(),
            table.wf(),
        ensures
            final(result_jisyo_entries_map).wf(),
            match entries_after_jisyo(*table, old(result_jisyo_entries_map).view(), content@, output_encoding) {
                Ok(m) => r is Ok && final(result_jisyo_entries_map).view() == m,
                Err(e) => r == Err::<(), SkkError>(e),
            },
    {
        let (jisyo_encoding, jisyo_encoding_options) = match Self::detect_jisyo_encoding(content) {
            Ok(x) => x,
            Err(e) => {
                assert(entries_after_jisyo(*table, old(result_jisyo_entries_map).view(), content@, output_encoding) == Err::<Map<Seq<u8>, Seq<u8>>, SkkError>(e)) by {
                    reveal(entries_after_jisyo);
                }
                return Err(e);
            },
        };
        let mut pos: usize = if jisyo_encoding_options == EncodingOptions::Bom { 3 } else { 0 };
        let ghost start = pos as int;
        let ghost m0 = result_jisyo_entries_map.view();
        let mut is_last_cr = false;
        let ghost mut done: Seq<Seq<u8>> = Seq::empty();
        assert(entries_after_lines(*table, m0, done, jisyo_encoding, output_encoding) == m0) by {
            reveal(entries_after_lines);
        }
        assert(jisyo_lines_from(content@, start, false) == done + jisyo_lines_from(content@, pos as int, is_last_cr)) by {
            assert(done + jisyo_lines_from(content@, pos as int, is_last_cr) =~= jisyo_lines_from(content@, pos as int, is_last_cr));
        }
        while pos < content.len()
            invariant
                result_jisyo_entries_map.wf(),
                table.wf(),
                jisyo_lines_from(content@, start, false) == done + jisyo_lines_from(content@, pos as int, is_last_cr),
                pos <= content.len(),
                result_jisyo_entries_map.view() == entries_after_lines(*table, m0, done, jisyo_encoding, output_encoding),
            decreases content.len() - pos,
        {
            proof { lemma_line_end_bounds(content@, pos as int); }
            let end = match Self::find_cr_or_lf(content, pos) {
                Some(e) => e + 1,
                None => content.len(),
            };
            if is_last_cr && content[pos] == LF && end - pos == 1 {
                proof { lemma_lines_step(content@, pos as int, is_last_cr, end as int); }
                pos = end;
                continue;
            }
            let chomped_line = &content[pos..end - 1];
            let ghost line = chomped_line@;
            let ghost rest = jisyo_lines_from(content@, end as int, content@[end - 1] == CR);
            proof {
                lemma_lines_step(content@, pos as int, is_last_cr, end as int);
            }
            is_last_cr = content[end - 1] == CR;
            Self::read_line(result_jisyo_entries_map, chomped_line, jisyo_encoding, output_encoding, table);
            proof {
                let d2 = done.push(line);
                lemma_entries_push(*table, m0, done, line, jisyo_encoding, output_encoding);
                assert(done + (seq![line] + rest) =~= d2 + rest);
                done = d2;
            }
            pos = end;
        }
        proof {
            reveal(jisyo_lines_from);
            assert(jisyo_lines_from(content@, pos as int, is_last_cr) =~= Seq::<Seq<u8>>::empty());
            assert(done + Seq::<Seq<u8>>::empty() =~= done);
        }
        assert(entries_after_jisyo(*table, m0, content@, output_encoding)
            == Ok::<Map<Seq<u8>, Seq<u8>>, SkkError>(entries_after_lines(*table, m0, jisyo_lines_from(content@, start, false), jisyo_encoding, output_encoding))) by {
            reveal(entries_after_jisyo);
        }
        Ok(())
    }

    /// Reads the jisyo files in order into one map of entries: see `entries_of_jisyos`.
    pub fn get_merged_jisyo_entries_map_core(
        jisyos: &Vec<Vec<u8>>,
        output_encoding: Option<Encoding>,
        table: &EncodingTable,
    ) -> (r: Result<ByteMap, SkkError>)
        requires
            table.wf(),
        ensures
            match entries_of_jisyos(*table, crate::bytes::vv(jisyos@), jisyos.len() as nat, output_encoding) {
                Ok(m) => r matches Ok(map) && map.wf() && map.view() == m,
                Err(e) => r == Err::<ByteMap, SkkError>(e),
            },
    {
        let mut map = ByteMap::new();
        assert(map.view() =~= Map::<Seq<u8>, Seq<u8>>::empty());
        let mut i: usize = 0;
        while i < jisyos.len()
            invariant
                i <= jisyos.len(),
                map.wf(),
                table.wf(),
                entries_of_jisyos(*table, crate::bytes::vv(jisyos@), i as nat, output_encoding) == Ok::<Map<Seq<u8>, Seq<u8>>, SkkError>(map.view()),
            decreases jisyos.len() - i,
        {
            assert(crate::bytes::vv(jisyos@)[i as int] == jisyos@[i as int]@);
            match Self::read_jisyo(&mut map, jisyos[i].as_slice(), output_encoding, table) {
                Ok(()) => {},
                Err(e) => {
                    proof { lemma_jisyos_err_stays(*table, crate::bytes::vv(jisyos@), i as nat + 1, jisyos.len() as nat, output_encoding); }
                    return Err(e);
                },
            }
            i += 1;
        }
        Ok(map)
    }

    /// Reads the jisyo files into one map of entries converted to `output_encoding`.
    pub fn get_merged_jisyo_entries_map(
        jisyos: &Vec<Vec<u8>>,
        output_encoding: Encoding,
        table: &EncodingTable,
    ) -> (r: Result<ByteMap, SkkError>)
        requires
            table.wf(),
        ensures
            match entries_of_jisyos(*table, crate::bytes::vv(jisyos@), jisyos.len() as nat, Some(output_encoding)) {
                Ok(m) => r matches Ok(map) && map.wf() && map.view() == m,
                Err(e) => r == Err::<ByteMap, SkkError>(e),
            },
    {
        Self::get_merged_jisyo_entries_map_core(jisyos, Some(output_encoding), table)
    }
}

pub(crate) proof fn lemma_line_end_bounds(c: Seq<u8>, pos: int)
    requires
        0 <= pos,
    ensures
        line_end_from(c, pos) matches Some(e) ==> pos <= e < c.len(),
    decreases c.len() - pos,
{
    if pos < c.len() && !is_cr_or_lf(c[pos]) {
        lemma_line_end_bounds(c, pos + 1);
    }
}

proof fn lemma_jisyos_err_stays(t: EncodingTable, cs: Seq<Seq<u8>>, k: nat, n: nat, o: Option<Encoding>)
    requires
        k <= n,
        entries_of_jisyos(t, cs, k, o) is Err,
    ensures
        entries_of_jisyos(t, cs, n, o) == entries_of_jisyos(t, cs, k, o),
    decreases n - k,
{
    if n > k {
        lemma_jisyos_err_stays(t, cs, k, (n - 1) as nat, o);
    }
}

/// One step of `jisyo_lines_from`.
pub(crate) proof fn lemma_lines_step(c: Seq<u8>, pos: int, last_cr: bool, end: int)
    requires
        0 <= pos < c.len(),
        end == (match line_end_from(c, pos) { Some(e) => e + 1, None => c.len() as int }),
    ensures
        pos < end <= c.len(),
        (last_cr && c[pos] == LF && end - pos == 1) ==> jisyo_lines_from(c, pos, last_cr) == jisyo_lines_from(c, end, last_cr),
        !(last_cr && c[pos] == LF && end - pos == 1) ==> jisyo_lines_from(c, pos, last_cr)
            == seq![c.subrange(pos, end - 1)] + jisyo_lines_from(c, end, c[end - 1] == CR),
{
    lemma_line_end_bounds(c, pos);
    reveal(jisyo_lines_from);
}

/// Reading one more line.
proof fn lemma_entries_push(t: EncodingTable, m: Map<Seq<u8>, Seq<u8>>, ls: Seq<Seq<u8>>, line: Seq<u8>, e: Encoding, o: Option<Encoding>)
    ensures
        entries_after_lines(t, m, ls.push(line), e, o) == (if spec_skip_reason(line) is Some {
            entries_after_lines(t, m, ls, e, o)
        } else {
            entries_after_line(t, entries_after_lines(t, m, ls, e, o), line, e, o)
        }),
{
    reveal(entries_after_lines);
    assert(ls.push(line).drop_last() =~= ls);
}

} // verus!
