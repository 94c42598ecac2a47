//! Building a dictionary from merged jisyo entries.
use vstd::prelude::*;
use crate::bytes::{spec_find_from, spec_rfind_before, lemma_find_from, lemma_rfind_before, find_byte_from, rfind_byte_before, append_bytes};
use crate::dictionary::{DictionaryFixedHeader, DictionaryBlockInformation, DICTIONARY_FIXED_HEADER_AREA_LENGTH, DICTIONARY_VERSION};
use crate::encoding::{Encoding, encoding_number};
use crate::error::SkkError;
use crate::byte_map::ByteMap;
use crate::bytes::{spec_join, join_bytes, vv};
use crate::dictionary::{DictionaryBlockHeads, BlockInformationOffsetLength, IndexDataHeader, IndexDataHeaderBlockHeader};
use crate::encoding_simple::encoding_table::{le_bytes, push_le_u32};
use crate::on_memory::{InfoView, infos_view};
use crate::dictionary::spec_header_bytes;
use crate::outside::{sha1_digest, spec_sha1};
use crate::encoding_simple::EncodingTable;
use crate::jisyo_reader::{JisyoReader, entries_of_jisyos};
use crate::dictionary::{Dictionary, midashi_key_readable, spec_midashi_key};

verus! {

/// Blocks of strings are padded to a multiple of this.
pub const BLOCK_ALIGNMENT_LENGTH: u32 = 16;
/// The blocks area starts at a multiple of this.
pub const HEADER_ALIGNMENT_LENGTH: u32 = 4096;
/// Index blocks are cut at about this many bytes.
pub const INDEX_DATA_BLOCK_LENGTH: usize = 65536;
/// Units of a string block are cut at about this many bytes.
pub const DICTIONARY_BLOCK_UNIT_LENGTH: usize = 2048;

pub const LF: u8 = 0x0a;

/// Namespace for building a dictionary.
pub struct DictionaryCreator;

/// `length` raised to the next multiple of `alignment`; a whole `alignment` more where it is one
/// already.
pub open spec fn spec_aligned(length: int, alignment: int) -> int {
    length + (alignment - length % alignment)
}

/// The longest entry of a block, an entry running from one LF to the next, both included,
/// walking from the LF at `offset` to the last byte; none where an LF is missing on the way.
pub open spec fn spec_max_entry_from(b: Seq<u8>, offset: int, acc: int) -> Option<int>
    decreases b.len() - offset,
{
    if offset < 0 || offset >= b.len() {
        None
    } else {
        match spec_find_from(b, offset + 1, LF) {
            None => None,
            Some(q) => {
                proof { lemma_find_from(b, offset + 1, LF); }
                let a = if acc < q - offset + 1 { q - offset + 1 } else { acc };
                if q == b.len() - 1 {
                    Some(a)
                } else if q <= offset {
                    None
                } else {
                    spec_max_entry_from(b, q, a)
                }
            },
        }
    }
}

/// The fixed header of a dictionary whose parts have the given lengths; the blocks start at the
/// header-aligned end of the index data.
pub open spec fn spec_fixed_header_ok(
    h: DictionaryFixedHeader,
    pad: u32,
    encoding_table_length: int,
    index_data_header_length: int,
    index_data_length: int,
    blocks_length: int,
    encoding: Encoding,
) -> bool {
    let raw = 256 + encoding_table_length + index_data_header_length + index_data_length;
    let aligned = spec_aligned(raw, 4096);
    &&& h.dictionary_version == DICTIONARY_VERSION
    &&& h.encoding_table_offset == 256
    &&& h.encoding_table_length == encoding_table_length
    &&& h.index_data_header_offset == 256 + encoding_table_length
    &&& h.index_data_header_length == index_data_header_length
    &&& h.index_data_offset == 256 + encoding_table_length + index_data_header_length
    &&& h.index_data_length == index_data_length
    &&& h.blocks_offset == aligned
    &&& h.blocks_length == blocks_length
    &&& h.dictionary_length == aligned + blocks_length
    &&& h.encoding == encoding_number(encoding)
    &&& h.sha1sum@ == Seq::new(20, |i: int| 0u8)
    &&& pad == aligned - raw
}

pub const SPACE: u8 = 0x20;

/// One unit of a string block: where it starts (an LF), where the space after its first
/// midashi stands, and the LF where it ends.
pub type UnitCut = (int, int, int);

/// One cut of the block `b` from the LF at `offset`, `max` being its longest entry: the space
/// after the unit's first midashi, the LF where the unit ends, and whether it is the last unit.
/// A unit is about 2048 bytes long and ends at an LF; where one entry is longer than that, the
/// unit is cut `max` bytes long. None where the unit has no space or no closing LF, or where a
/// long entry would be read past the end of the block.
pub open spec fn spec_cut_step(b: Seq<u8>, offset: int, max: int) -> Option<(int, int, bool)> {
    if offset < 0 || offset >= b.len() {
        None
    } else {
        match spec_find_from(b, offset, SPACE) {
            None => None,
            Some(sp) => {
                let sb0 = 2048 >= b.len() - offset;
                let ul0 = if sb0 { b.len() - offset } else { 2048 };
                let long = spec_rfind_before(b, offset + ul0, LF) == Some(offset);
                let ul = if long { max } else { ul0 };
                let sb = if long && b.len() == max { true } else { sb0 };
                if sp < offset + 1 || ul < 0 || offset + ul > b.len() {
                    None
                } else {
                    match spec_rfind_before(b, offset + ul, LF) {
                        None => None,
                        Some(rf) => if rf < offset { None } else { Some((sp, rf, sb)) },
                    }
                }
            },
        }
    }
}

/// A cut lies within the block, past its start.
pub proof fn lemma_cut_step_bounds(b: Seq<u8>, offset: int, max: int)
    ensures
        spec_cut_step(b, offset, max) matches Some((sp, rf, sb)) ==> offset + 1 <= sp < b.len() && offset <= rf < b.len(),
{
    if 0 <= offset < b.len() {
        lemma_find_from(b, offset, SPACE);
        let sb0 = 2048 >= b.len() - offset;
        let ul0 = if sb0 { b.len() - offset } else { 2048 };
        let long = spec_rfind_before(b, offset + ul0, LF) == Some(offset);
        let ul = if long { max } else { ul0 };
        if 0 <= ul && offset + ul <= b.len() {
            lemma_rfind_before(b, offset + ul, LF);
        }
    }
}

/// The units that cutting the block `b` from the LF at `offset` gives: see `spec_cut_step`.
/// None where a cut fails or would not advance.
pub open spec fn spec_block_walk(b: Seq<u8>, offset: int, max: int) -> Option<Seq<UnitCut>>
    decreases b.len() - offset,
{
    match spec_cut_step(b, offset, max) {
        None => None,
        Some((sp, rf, sb)) => {
            if sb {
                Some(seq![(offset, sp, rf)])
            } else if rf <= offset {
                None
            } else {
                proof { lemma_cut_step_bounds(b, offset, max); }
                match spec_block_walk(b, rf, max) {
                    None => None,
                    Some(rest) => Some(seq![(offset, sp, rf)] + rest),
                }
            }
        },
    }
}

/// The units of a whole string block: see `spec_block_walk`.
pub open spec fn spec_block_units(b: Seq<u8>) -> Option<Seq<UnitCut>> {
    match spec_max_entry_from(b, 0, 0) {
        None => None,
        Some(m) => spec_block_walk(b, 0, m),
    }
}

/// The index unit that a cut describes, the block starting at `blocks_len` in the blocks area:
/// its first midashi, where it starts and how long it is up to its closing LF.
pub open spec fn cut_info(b: Seq<u8>, blocks_len: int, c: UnitCut) -> (Seq<u8>, u32, u32) {
    (b.subrange(c.0 + 1, c.1), (blocks_len + c.0) as u32, (c.2 + 1 - c.0) as u32)
}

/// The index units of the cuts, last cut first.
pub open spec fn cut_infos(b: Seq<u8>, blocks_len: int, cs: Seq<UnitCut>) -> Seq<(Seq<u8>, u32, u32)> {
    cs.map_values(|c: UnitCut| cut_info(b, blocks_len, c)).reverse()
}

/// The bytes of the cuts laid end to end, each from its starting LF up to its closing LF.
pub open spec fn cut_bytes(b: Seq<u8>, cs: Seq<UnitCut>) -> Seq<u8>
    decreases cs.len(),
{
    if cs.len() == 0 {
        Seq::empty()
    } else {
        cut_bytes(b, cs.drop_last()) + b.subrange(cs.last().0, cs.last().2)
    }
}

/// `prefix` followed by the cuts, an LF, and `X` up to the next multiple of 16.
pub open spec fn aligned_block_after(prefix: Seq<u8>, b: Seq<u8>, cs: Seq<UnitCut>) -> Seq<u8> {
    let body = prefix + cut_bytes(b, cs) + seq![LF];
    body + Seq::new((spec_aligned(body.len() as int, 16) - body.len()) as nat, |i: int| 0x58u8)
}

/// `units` followed by `rest`, where there is a rest.
pub open spec fn then_cuts(units: Seq<UnitCut>, rest: Option<Seq<UnitCut>>) -> Option<Seq<UnitCut>> {
    match rest {
        None => None,
        Some(r) => Some(units + r),
    }
}

impl DictionaryCreator {
    /// `length` raised to the next multiple of 16 (a whole 16 more where it is one already).
    pub fn get_block_aligned_length(length: u32) -> (r: u32)
        requires
            length <= u32::MAX - BLOCK_ALIGNMENT_LENGTH,
        ensures
            r == spec_aligned(length as int, 16),
            r % 16 == 0,
            length < r <= length + 16,
    {
        length + (BLOCK_ALIGNMENT_LENGTH - (length % BLOCK_ALIGNMENT_LENGTH))
    }

    /// `length` raised to the next multiple of 4096 (a whole 4096 more where it is one already).
    pub fn get_header_aligned_length(length: u32) -> (r: u32)
        requires
            length <= u32::MAX - HEADER_ALIGNMENT_LENGTH,
        ensures
            r == spec_aligned(length as int, 4096),
            r % 4096 == 0,
            length < r <= length + 4096,
    {
        length + (HEADER_ALIGNMENT_LENGTH - (length % HEADER_ALIGNMENT_LENGTH))
    }

    /// The fixed header of a dictionary whose parts have the given lengths, and the number of
    /// padding bytes before the blocks: see `spec_fixed_header_ok`.
    pub fn create_dictionary_fixed_header(
        encoding_table_length: usize,
        index_data_header_length: usize,
        index_data_length: usize,
        blocks_length: usize,
        encoding: Encoding,
    ) -> (r: (DictionaryFixedHeader, u32))
        requires
            256 + encoding_table_length + index_data_header_length + index_data_length + 4096 + blocks_length <= u32::MAX,
        ensures
            spec_fixed_header_ok(r.0, r.1, encoding_table_length as int, index_data_header_length as int,
                index_data_length as int, blocks_length as int, encoding),
    {
        let raw_blocks_offset = (256 + encoding_table_length + index_data_header_length + index_data_length) as u32;
        let aligned_blocks_offset = Self::get_header_aligned_length(raw_blocks_offset);
        let blocks_padding_length = aligned_blocks_offset - raw_blocks_offset;
        let encoding_table_offset: usize = 256;
        let index_data_header_offset = encoding_table_offset + encoding_table_length;
        let index_data_offset = index_data_header_offset + index_data_header_length;
        let dictionary_length = aligned_blocks_offset as usize + blocks_length;
        let mut h = DictionaryFixedHeader::new();
        h.encoding_table_offset = encoding_table_offset as u32;
        h.encoding_table_length = encoding_table_length as u32;
        h.index_data_header_offset = index_data_header_offset as u32;
        h.index_data_header_length = index_data_header_length as u32;
        h.index_data_offset = index_data_offset as u32;
        h.index_data_length = index_data_length as u32;
        h.blocks_offset = aligned_blocks_offset;
        h.blocks_length = blocks_length as u32;
        h.dictionary_length = dictionary_length as u32;
        h.encoding = encoding.to_u32();
        (h, blocks_padding_length)
    }

    /// The longest entry of `buffer`, whose first byte is an LF: see `spec_max_entry_from`.
    /// Fails with `JisyoRead` where that walk misses an LF.
    pub fn get_max_entry_length(buffer: &[u8]) -> (r: Result<usize, SkkError>)
        requires
            buffer.len() >= 1,
        ensures
            match spec_max_entry_from(buffer@, 0, 0) {
                Some(m) => r matches Ok(v) && v == m,
                None => r == Err::<usize, SkkError>(SkkError::JisyoRead),
            },
    {
        let mut offset: usize = 0;
        let mut max_entry_length: usize = 0;
        loop
            invariant
                offset < buffer.len(),
                max_entry_length <= buffer.len(),
                spec_max_entry_from(buffer@, offset as int, max_entry_length as int) == spec_max_entry_from(buffer@, 0, 0),
            decreases buffer.len() - offset,
        {
            proof { lemma_find_from(buffer@, offset + 1, LF); }
            match find_byte_from(buffer, offset + 1, LF) {
                Some(q) => {
                    let length = q - offset + 1;
                    if max_entry_length < length {
                        max_entry_length = length;
                    }
                    if q == buffer.len() - 1 {
                        return Ok(max_entry_length);
                    }
                    offset = q;
                },
                None => {
                    return Err(SkkError::JisyoRead);
                },
            }
        }
    }

    /// Cuts a string block into units of about 2048 bytes and appends the block, padded, to
    /// `aligned_block`: see `spec_block_units`. The units come last cut first. Fails with
    /// `JisyoRead` where the block cannot be cut.
    pub fn get_dictionary_block_informations(
        block_buffer: &[u8],
        blocks_len: usize,
        aligned_block: &mut Vec<u8>,
    ) -> (r: Result<Vec<DictionaryBlockInformation>, SkkError>)
        requires
            block_buffer.len() >= 1,
            blocks_len + block_buffer.len() <= u32::MAX,
            old(aligned_block).len() + block_buffer.len() + 16 <= u32::MAX,
        ensures
            match spec_block_units(block_buffer@) {
                None => r == Err::<Vec<DictionaryBlockInformation>, SkkError>(SkkError::JisyoRead),
                Some(cs) => r matches Ok(v)
                    && crate::on_memory::infos_view(v@) == cut_infos(block_buffer@, blocks_len as int, cs)
                    && final(aligned_block)@ == aligned_block_after(old(aligned_block)@, block_buffer@, cs),
            },
    {
        let ghost b = block_buffer@;
        let ghost prefix = aligned_block@;
        let max_entry_length = match Self::get_max_entry_length(block_buffer) {
            Ok(m) => m,
            Err(e) => return Err(e),
        };
        let len = block_buffer.len();
        let mut walked: Vec<DictionaryBlockInformation> = Vec::new();
        let ghost mut units: Seq<UnitCut> = Seq::empty();
        let mut offset: usize = 0;
        assert(then_cuts(units, spec_block_walk(b, 0, max_entry_length as int)) == spec_block_units(b)) by {
            match spec_block_walk(b, 0, max_entry_length as int) {
                None => {},
                Some(r) => { assert(units + r =~= r); },
            }
        }
        assert(aligned_block@ =~= prefix + cut_bytes(b, units));
        loop
            invariant
                b == block_buffer@,
                len == b.len(),
                offset < len,
                blocks_len + len <= u32::MAX,
                prefix.len() + len + 16 <= u32::MAX,
                spec_max_entry_from(b, 0, 0) == Some(max_entry_length as int),
                spec_block_units(b) == then_cuts(units, spec_block_walk(b, offset as int, max_entry_length as int)),
                aligned_block@ == prefix + cut_bytes(b, units),
                prefix == old(aligned_block)@,
                cut_bytes(b, units).len() <= offset,
                crate::on_memory::infos_view(walked@) == units.map_values(|c: UnitCut| cut_info(b, blocks_len as int, c)),
            decreases len - offset,
        {
            let (find, rfind, should_break) = match Self::next_cut(block_buffer, offset, max_entry_length) {
                Some(c) => c,
                None => return Err(SkkError::JisyoRead),
            };
            proof { lemma_cut_step_bounds(b, offset as int, max_entry_length as int); }
            if !should_break && rfind <= offset {
                return Err(SkkError::JisyoRead);
            }
            let ghost cut: UnitCut = (offset as int, find as int, rfind as int);
            let ghost old_walked = walked@;
            let ghost old_units = units;
            append_bytes(aligned_block, &block_buffer[offset..rfind]);
            let mut midashi: Vec<u8> = Vec::new();
            append_bytes(&mut midashi, &block_buffer[offset + 1..find]);
            let info = DictionaryBlockInformation {
                midashi,
                offset: (blocks_len + offset) as u32,
                length: (rfind + 1 - offset) as u32,
            };
            assert(midashi@ =~= b.subrange(offset + 1, find as int));
            assert(crate::on_memory::info_view(info) == cut_info(b, blocks_len as int, cut));
            walked.push(info);
            proof {
                assert(crate::on_memory::infos_view(walked@) =~= crate::on_memory::infos_view(old_walked).push(cut_info(b, blocks_len as int, cut)));
                units = units.push(cut);
                assert(units.drop_last() =~= old_units);
                assert(cut_bytes(b, units) == cut_bytes(b, old_units) + b.subrange(offset as int, rfind as int));
                assert(aligned_block@ =~= prefix + cut_bytes(b, units));
                assert(crate::on_memory::infos_view(walked@) =~= units.map_values(|c: UnitCut| cut_info(b, blocks_len as int, c))) by {
                    assert(crate::on_memory::info_view(walked@[walked@.len() - 1]) == cut_info(b, blocks_len as int, cut));
                }
            }
            if should_break {
                let ghost before_close = aligned_block@;
                Self::close_block(aligned_block);
                let result = reversed_infos(&walked);
                proof {
                    assert(spec_block_walk(b, offset as int, max_entry_length as int) == Some(seq![cut]));
                    assert(old_units + seq![cut] =~= units);
                    assert(spec_block_units(b) == Some(units));
                    assert(crate::on_memory::infos_view(result@) == cut_infos(b, blocks_len as int, units));
                    assert(before_close == prefix + cut_bytes(b, units));
                    assert(aligned_block@ == aligned_block_after(prefix, b, units));
                }
                return Ok(result);
            }
            proof {
                assert(rfind > offset);
                assert(spec_block_walk(b, offset as int, max_entry_length as int) == then_cuts(seq![cut], spec_block_walk(b, rfind as int, max_entry_length as int)));
                match spec_block_walk(b, rfind as int, max_entry_length as int) {
                    None => {},
                    Some(rest) => { assert(old_units + (seq![cut] + rest) =~= units + rest); },
                }
            }
            offset = rfind;
        }
    }
}

/// The units in reverse order.
pub fn reversed_infos(walked: &Vec<DictionaryBlockInformation>) -> (r: Vec<DictionaryBlockInformation>)
    ensures
        crate::on_memory::infos_view(r@) == crate::on_memory::infos_view(walked@).reverse(),
{
    let mut result: Vec<DictionaryBlockInformation> = Vec::new();
    let mut j: usize = walked.len();
    while j > 0
        invariant
            j <= walked.len(),
            crate::on_memory::infos_view(result@) == crate::on_memory::infos_view(walked@).subrange(j as int, walked.len() as int).reverse(),
        decreases j,
    {
        j -= 1;
        let w = walked[j].clone_info();
        let ghost before_r = result@;
        let ghost wv = crate::on_memory::info_view(w);
        result.push(w);
        assert(crate::on_memory::infos_view(result@) =~= crate::on_memory::infos_view(before_r).push(wv));
        assert(wv == crate::on_memory::infos_view(walked@)[j as int]);
        assert(crate::on_memory::infos_view(result@) =~= crate::on_memory::infos_view(walked@).subrange(j as int, walked.len() as int).reverse());
    }
    assert(crate::on_memory::infos_view(walked@).subrange(0, walked.len() as int) =~= crate::on_memory::infos_view(walked@));
    result
}

impl DictionaryCreator {
    /// One cut of the block from the LF at `offset`: see `spec_cut_step`.
    pub fn next_cut(block_buffer: &[u8], offset: usize, max_entry_length: usize) -> (r: Option<(usize, usize, bool)>)
        requires
            offset < block_buffer.len(),
        ensures
            match spec_cut_step(block_buffer@, offset as int, max_entry_length as int) {
                Some((sp, rf, sb)) => r matches Some((f, rfi, b)) && f == sp && rfi == rf && b == sb,
                None => r is None,
            },
    {
        let len = block_buffer.len();
        let find = match find_byte_from(block_buffer, offset, SPACE) {
            Some(f) => f,
            None => return None,
        };
        let mut unit_length: usize = DICTIONARY_BLOCK_UNIT_LENGTH;
        let mut should_break = unit_length >= len - offset;
        if should_break {
            unit_length = len - offset;
        }
        if let Some(rfind) = rfind_byte_before(block_buffer, offset + unit_length, LF) {
            if rfind == offset {
                unit_length = max_entry_length;
                if len == unit_length {
                    should_break = true;
                }
            }
        }
        if find < offset + 1 || unit_length > len - offset {
            return None;
        }
        let rfind = match rfind_byte_before(block_buffer, offset + unit_length, LF) {
            Some(rf) => rf,
            None => return None,
        };
        if rfind < offset {
            return None;
        }
        Some((find, rfind, should_break))
    }

    /// Closes a string block: an LF, then `X` up to the next multiple of 16.
    pub fn close_block(aligned_block: &mut Vec<u8>)
        requires
            old(aligned_block).len() + 1 + 16 <= u32::MAX,
        ensures
            ({
                let body = old(aligned_block)@ + seq![LF];
                final(aligned_block)@ == body + Seq::new((spec_aligned(body.len() as int, 16) - body.len()) as nat, |i: int| 0x58u8)
            }),
    {
        aligned_block.push(LF);
        let target = Self::get_block_aligned_length(aligned_block.len() as u32);
        let pad = target as usize - aligned_block.len();
        let ghost before_pad = aligned_block@;
        let mut k: usize = 0;
        while k < pad
            invariant
                k <= pad,
                aligned_block@ == before_pad + Seq::new(k as nat, |i: int| 0x58u8),
            decreases pad - k,
        {
            aligned_block.push(0x58);
            k += 1;
            assert(aligned_block@ =~= before_pad + Seq::new(k as nat, |i: int| 0x58u8));
        }
    }
}

impl DictionaryBlockInformation {
    /// A copy of the unit.
    pub fn clone_info(&self) -> (r: Self)
        ensures
            crate::on_memory::info_view(r) == crate::on_memory::info_view(*self),
    {
        let mut midashi: Vec<u8> = Vec::new();
        append_bytes(&mut midashi, self.midashi.as_slice());
        assert(midashi@ =~= self.midashi@);
        DictionaryBlockInformation { midashi, offset: self.offset, length: self.length }
    }
}

/// The line of an entry in a string block: midashi, space, candidates, LF.
pub open spec fn temp_entry(midashi: Seq<u8>, candidates: Seq<u8>) -> Seq<u8> {
    midashi + seq![SPACE] + candidates + seq![LF]
}

/// The string blocks of the first `n` entries (midashi `ks`, candidates `vs`), by midashi key:
/// each block an LF followed by the lines of its entries in order; none where a midashi does not
/// start with a whole EUC character.
pub open spec fn spec_temporary_block_map(ks: Seq<Seq<u8>>, vs: Seq<Seq<u8>>, n: nat) -> Option<Map<Seq<u8>, Seq<u8>>>
    decreases n,
{
    if n == 0 {
        Some(Map::empty())
    } else {
        match spec_temporary_block_map(ks, vs, (n - 1) as nat) {
            None => None,
            Some(m) => {
                let mid = ks[n - 1];
                if !midashi_key_readable(mid) {
                    None
                } else {
                    match spec_midashi_key(mid) {
                        None => None,
                        Some(key) => Some(m.insert(key,
                            (if m.contains_key(key) { m[key] } else { seq![LF] }) + temp_entry(mid, vs[n - 1]))),
                    }
                }
            },
        }
    }
}

impl DictionaryCreator {
    /// Groups the entries into string blocks by midashi key: see `spec_temporary_block_map`.
    /// Fails with `Encoding` where a midashi does not start with a whole EUC character.
    pub fn create_temporary_block_map(entries: &ByteMap) -> (r: Result<ByteMap, SkkError>)
        requires
            entries.wf(),
        ensures
            match spec_temporary_block_map(entries.keys(), entries.values(), entries.keys().len()) {
                Some(m) => r matches Ok(t) && t.wf() && t.view() == m,
                None => r == Err::<ByteMap, SkkError>(SkkError::Encoding),
            },
    {
        let mut t = ByteMap::new();
        assert(t.view() =~= Map::<Seq<u8>, Seq<u8>>::empty());
        let n = entries.len();
        let mut i: usize = 0;
        while i < n
            invariant
                i <= n,
                n == entries.keys().len(),
                entries.wf(),
                t.wf(),
                spec_temporary_block_map(entries.keys(), entries.values(), i as nat) == Some(t.view()),
            decreases n - i,
        {
            let (midashi, candidates) = entries.get_index(i);
            if !Dictionary::is_midashi_key_readable(midashi.as_slice()) {
                proof { lemma_temp_none_stays(entries.keys(), entries.values(), i as nat + 1, n as nat); }
                return Err(SkkError::Encoding);
            }
            let key = match Dictionary::get_dictionary_midashi_key(midashi.as_slice()) {
                Ok(k) => k,
                Err(_) => {
                    proof { lemma_temp_none_stays(entries.keys(), entries.values(), i as nat + 1, n as nat); }
                    return Err(SkkError::Encoding);
                },
            };
            let mut value: Vec<u8> = Vec::new();
            match t.get(&key) {
                Some(existing) => append_bytes(&mut value, existing.as_slice()),
                None => value.push(LF),
            }
            append_bytes(&mut value, midashi.as_slice());
            value.push(SPACE);
            append_bytes(&mut value, candidates.as_slice());
            value.push(LF);
            let mut key_vec: Vec<u8> = Vec::new();
            append_bytes(&mut key_vec, &key);
            let ghost old_t = t;
            let ghost kv = key_vec@;
            let ghost vv = value@;
            t.insert(key_vec, value);
            proof {
                ByteMap::lemma_insert_view(old_t, t, kv, vv);
                let m = old_t.view();
                let mid = entries.keys()[i as int];
                assert(vv =~= (if m.contains_key(kv) { m[kv] } else { seq![LF] }) + temp_entry(mid, entries.values()[i as int]));
            }
            i += 1;
        }
        Ok(t)
    }
}

proof fn lemma_temp_none_stays(ks: Seq<Seq<u8>>, vs: Seq<Seq<u8>>, k: nat, n: nat)
    requires
        k <= n,
        spec_temporary_block_map(ks, vs, k) is None,
    ensures
        spec_temporary_block_map(ks, vs, n) is None,
    decreases n - k,
{
    if n > k {
        lemma_temp_none_stays(ks, vs, k, (n - 1) as nat);
    }
}

/// The offsets and lengths of the units, 8 bytes each.
pub open spec fn offsets_bytes(infos: Seq<InfoView>) -> Seq<u8>
    decreases infos.len(),
{
    if infos.len() == 0 {
        Seq::empty()
    } else {
        offsets_bytes(infos.drop_last()) + le_bytes(infos.last().1 as nat) + le_bytes(infos.last().2 as nat)
    }
}

/// The midashi of the units.
pub open spec fn infos_midashi(infos: Seq<InfoView>) -> Seq<Seq<u8>> {
    infos.map_values(|x: InfoView| x.0)
}

/// The record of one midashi key in the index data: the number of units, the length of their
/// joined midashi, the key, the offsets and lengths, and the midashi joined with spaces.
pub open spec fn unit_bytes(key: Seq<u8>, infos: Seq<InfoView>) -> Seq<u8> {
    let joined = spec_join(infos_midashi(infos), SPACE);
    le_bytes(infos.len()) + le_bytes(joined.len()) + key + offsets_bytes(infos) + joined
}

/// The 12 bytes of an index block header.
pub open spec fn block_header_bytes(offset: nat, length: nat, units: nat) -> Seq<u8> {
    le_bytes(offset) + le_bytes(length) + le_bytes(units)
}

/// What building the index has produced so far.
pub struct IndexBuild {
    pub units: Seq<(Seq<u8>, Seq<InfoView>)>,
    pub index_data: Seq<u8>,
    pub blocks: Seq<u8>,
    pub headers: Seq<u8>,
    pub header_count: nat,
    pub block_offset: nat,
    pub block_length: nat,
    pub block_units: nat,
}

/// Nothing built yet.
pub open spec fn empty_build() -> IndexBuild {
    IndexBuild {
        units: Seq::empty(), index_data: Seq::empty(), blocks: Seq::empty(), headers: Seq::empty(),
        header_count: 0, block_offset: 0, block_length: 0, block_units: 0,
    }
}

/// `st` with one more record `ub` of the units `infos` of `key`, and one more padded string
/// block `aligned`; an index block is closed where the open one would reach 64 KiB.
pub open spec fn advance(st: IndexBuild, key: Seq<u8>, infos: Seq<InfoView>, ub: Seq<u8>, aligned: Seq<u8>) -> IndexBuild {
    let l = ub.len();
    let id = st.index_data + ub;
    let blocks = st.blocks + aligned;
    let units = st.units.push((key, infos));
    if st.block_length + l >= INDEX_DATA_BLOCK_LENGTH {
        IndexBuild {
            units, index_data: id, blocks,
            headers: st.headers + block_header_bytes(st.block_offset, st.block_length, st.block_units),
            header_count: st.header_count + 1,
            block_offset: st.index_data.len(),
            block_length: l,
            block_units: 1,
        }
    } else {
        IndexBuild {
            units, index_data: id, blocks,
            headers: st.headers,
            header_count: st.header_count,
            block_offset: st.block_offset,
            block_length: st.block_length + l,
            block_units: st.block_units + 1,
        }
    }
}

/// Building one more string block under `key`: its units are cut, its record is appended to the
/// index data and the padded block to the blocks (see `advance`). None where the block cannot
/// be cut, the key is not 4 bytes long, or a length would not fit in a `u32`.
pub open spec fn build_step(st: IndexBuild, key: Seq<u8>, block: Seq<u8>) -> Option<IndexBuild> {
    match spec_block_units(block) {
        None => None,
        Some(cs) => {
            let infos = cut_infos(block, st.blocks.len() as int, cs);
            let ub = unit_bytes(key, infos);
            if key.len() != 4 || st.blocks.len() + block.len() + 96 > u32::MAX || st.index_data.len() + ub.len() > u32::MAX {
                None
            } else {
                Some(advance(st, key, infos, ub, aligned_block_after(Seq::empty(), block, cs)))
            }
        },
    }
}

/// Building the first `n` string blocks (keys `ks`, blocks `vs`) in order.
#[verifier::opaque]
pub open spec fn build_all(ks: Seq<Seq<u8>>, vs: Seq<Seq<u8>>, n: nat) -> Option<IndexBuild>
    decreases n,
{
    if n == 0 {
        Some(empty_build())
    } else {
        match build_all(ks, vs, (n - 1) as nat) {
            None => None,
            Some(st) => build_step(st, ks[n - 1], vs[n - 1]),
        }
    }
}

/// The index data header once every block is built: block length limit, number of index
/// blocks, and their headers, the open index block closed where it holds anything.
pub open spec fn final_index_header(st: IndexBuild) -> Seq<u8> {
    if st.block_length > 0 {
        le_bytes(INDEX_DATA_BLOCK_LENGTH as nat) + le_bytes(st.header_count + 1)
            + st.headers + block_header_bytes(st.block_offset, st.block_length, st.block_units)
    } else {
        le_bytes(INDEX_DATA_BLOCK_LENGTH as nat) + le_bytes(st.header_count) + st.headers
    }
}

/// The bounds that building keeps.
pub open spec fn build_bounds(st: IndexBuild) -> bool {
    &&& st.index_data.len() <= u32::MAX
    &&& st.blocks.len() + 64 <= u32::MAX
    &&& st.block_offset + st.block_length == st.index_data.len()
    &&& st.block_units * 12 <= st.block_length
    &&& st.header_count * 12 <= st.block_offset + 12
    &&& st.block_length == 0 ==> st.header_count == 0 && st.block_offset == 0
    &&& st.block_length == 0 || st.block_length >= 12
}

impl DictionaryCreator {
    /// The record of one midashi key in the index data: see `unit_bytes`.
    /// (Where a count does not fit in a `u32`, the record has the same length but its head is
    /// not stated.)
    pub fn write_unit(key: &Vec<u8>, infos: &Vec<DictionaryBlockInformation>, out: &mut Vec<u8>)
        requires
            key@.len() == 4,
        ensures
            final(out)@.len() == old(out)@.len() + unit_bytes(key@, infos_view(infos@)).len(),
            infos.len() <= u32::MAX && spec_join(infos_midashi(infos_view(infos@)), SPACE).len() <= u32::MAX
                ==> final(out)@ == old(out)@ + unit_bytes(key@, infos_view(infos@)),
    {
        let ghost iv = infos_view(infos@);
        let mut midashis: Vec<Vec<u8>> = Vec::new();
        let mut offsets: Vec<u8> = Vec::new();
        let mut i: usize = 0;
        while i < infos.len()
            invariant
                i <= infos.len(),
                iv == infos_view(infos@),
                vv(midashis@) == infos_midashi(iv).subrange(0, i as int),
                offsets@ == offsets_bytes(iv.subrange(0, i as int)),
            decreases infos.len() - i,
        {
            let mut m: Vec<u8> = Vec::new();
            append_bytes(&mut m, infos[i].midashi.as_slice());
            assert(m@ =~= iv[i as int].0);
            let ghost before_m = vv(midashis@);
            midashis.push(m);
            assert(vv(midashis@) =~= before_m.push(iv[i as int].0));
            let ol = BlockInformationOffsetLength { offset: infos[i].offset, length: infos[i].length };
            let b = ol.to_ne_bytes();
            append_bytes(&mut offsets, b.as_slice());
            proof {
                assert(iv.subrange(0, i + 1).drop_last() =~= iv.subrange(0, i as int));
            }
            i += 1;
            assert(vv(midashis@) =~= infos_midashi(iv).subrange(0, i as int));
        }
        assert(iv.subrange(0, infos.len() as int) =~= iv);
        assert(infos_midashi(iv).subrange(0, infos.len() as int) =~= infos_midashi(iv));
        let joined = join_bytes(&midashis, SPACE);
        let heads = DictionaryBlockHeads {
            information_length: #[verifier::truncate] (infos.len() as u32),
            information_midashi_length: #[verifier::truncate] (joined.len() as u32),
            dictionary_midashi_key: [key[0], key[1], key[2], key[3]],
        };
        assert(heads.dictionary_midashi_key@ =~= key@);
        let hb = heads.to_ne_bytes();
        append_bytes(out, hb.as_slice());
        append_bytes(out, offsets.as_slice());
        append_bytes(out, joined.as_slice());
        if infos.len() <= 0xffff_ffff && joined.len() <= 0xffff_ffff {
            assert(final(out)@ =~= old(out)@ + unit_bytes(key@, iv));
        }
    }
}

/// One more step of `build_all`.
pub proof fn lemma_build_all_step(ks: Seq<Seq<u8>>, vs: Seq<Seq<u8>>, n: nat)
    ensures
        build_all(ks, vs, 0) == Some(empty_build()),
        build_all(ks, vs, n + 1) == (match build_all(ks, vs, n) {
            None => None,
            Some(st) => build_step(st, ks[n as int], vs[n as int]),
        }),
{
    reveal(build_all);
}

pub proof fn lemma_build_none_stays(ks: Seq<Seq<u8>>, vs: Seq<Seq<u8>>, k: nat, n: nat)
    requires
        k <= n,
        build_all(ks, vs, k) is None,
    ensures
        build_all(ks, vs, n) is None,
    decreases n - k,
{
    reveal(build_all);
    if n > k {
        lemma_build_none_stays(ks, vs, k, (n - 1) as nat);
    }
}

/// What `create_index_data` returns: the index data header, the index data and the blocks.
pub struct CreateIndexDataResult {
    pub index_data_header: Vec<u8>,
    pub index_data: Vec<u8>,
    pub blocks: Vec<u8>,
}

/// The index being built.
pub struct IndexBuilder {
    pub index_data: Vec<u8>,
    pub blocks: Vec<u8>,
    pub headers: Vec<u8>,
    pub header_count: u32,
    pub block_offset: usize,
    pub block_length: usize,
    pub block_units: u32,
    pub units: Ghost<Seq<(Seq<u8>, Seq<InfoView>)>>,
}

impl IndexBuilder {
    /// What has been built.
    pub open spec fn view(&self) -> IndexBuild {
        IndexBuild {
            units: self.units@,
            index_data: self.index_data@,
            blocks: self.blocks@,
            headers: self.headers@,
            header_count: self.header_count as nat,
            block_offset: self.block_offset as nat,
            block_length: self.block_length as nat,
            block_units: self.block_units as nat,
        }
    }

    /// Adds the record `ub` of the units `infos` of `key` and the padded block `aligned`: see
    /// `advance`.
    pub fn advance(&mut self, ub: &Vec<u8>, aligned: &Vec<u8>, Ghost(key): Ghost<Seq<u8>>, Ghost(infos): Ghost<Seq<InfoView>>)
        requires
            build_bounds(old(self).view()),
            old(self).index_data.len() + ub.len() <= u32::MAX,
            old(self).blocks.len() + aligned.len() + 64 <= u32::MAX,
            ub.len() >= 12,
        ensures
            final(self).view() == advance(old(self).view(), key, infos, ub@, aligned@),
            build_bounds(final(self).view()),
    {
        let l = ub.len();
        append_bytes(&mut self.index_data, ub.as_slice());
        append_bytes(&mut self.blocks, aligned.as_slice());
        if self.block_length + l >= INDEX_DATA_BLOCK_LENGTH {
            let bh = IndexDataHeaderBlockHeader {
                offset: self.block_offset as u32,
                length: self.block_length as u32,
                unit_length: self.block_units,
            };
            let bhb = bh.to_ne_bytes();
            append_bytes(&mut self.headers, bhb.as_slice());
            self.header_count = self.header_count + 1;
            self.block_offset = self.index_data.len() - l;
            self.block_length = l;
            self.block_units = 1;
        } else {
            self.block_length = self.block_length + l;
            self.block_units = self.block_units + 1;
        }
        self.units = Ghost(self.units@.push((key, infos)));
    }
}

impl DictionaryCreator {
    /// Cuts one string block and writes its record, where `build_step` can: see there.
    #[verifier::rlimit(50)]
    pub fn build_one(builder: &IndexBuilder, key: &Vec<u8>, block: &Vec<u8>) -> (r: Option<(Vec<u8>, Vec<u8>, Ghost<Seq<InfoView>>)>)
        requires
            build_bounds(builder.view()),
        ensures
            match build_step(builder.view(), key@, block@) {
                None => r is None,
                Some(st2) => r matches Some((ub, al, g)) && advance(builder.view(), key@, g@, ub@, al@) == st2
                    && builder.index_data.len() + ub.len() <= u32::MAX
                    && builder.blocks.len() + al.len() + 64 <= u32::MAX
                    && ub.len() >= 12,
            },
    {
        if key.len() != 4 || block.len() == 0
            || block.len() as u64 >= 0x1_0000_0000u64
            || builder.blocks.len() as u64 + block.len() as u64 + 96 > 0xffff_ffffu64 {
            return None;
        }
        let mut aligned_block: Vec<u8> = Vec::new();
        let infos = match Self::get_dictionary_block_informations(block.as_slice(), builder.blocks.len(), &mut aligned_block) {
            Ok(v) => v,
            Err(_) => return None,
        };
        let ghost cs = spec_block_units(block@).unwrap();
        let mut ub: Vec<u8> = Vec::new();
        Self::write_unit(key, &infos, &mut ub);
        let ghost iv = infos_view(infos@);
        proof {
            let joined = spec_join(infos_midashi(iv), SPACE);
            lemma_offsets_bytes_len(iv);
            assert(unit_bytes(key@, iv).len() == 12 + 8 * iv.len() + joined.len());
        }
        if ub.len() as u64 > 0xffff_ffffu64 - builder.index_data.len() as u64 {
            return None;
        }
        proof {
            lemma_aligned_after_len(block@, cs);
            let joined = spec_join(infos_midashi(iv), SPACE);
            assert(iv.len() == infos@.len());
            assert(infos.len() <= u32::MAX && joined.len() <= u32::MAX);
            assert(ub@ == unit_bytes(key@, iv));
            assert(iv == cut_infos(block@, builder.blocks@.len() as int, cs));
            assert(aligned_block@ == aligned_block_after(Seq::empty(), block@, cs));
            assert(build_step(builder.view(), key@, block@) == Some(advance(builder.view(), key@, iv, ub@, aligned_block@)));
        }
        Some((ub, aligned_block, Ghost(iv)))
    }
}

impl DictionaryCreator {
    /// Builds the index data header, the index data and the string blocks from the string blocks
    /// by midashi key: see `build_all` and `final_index_header`. Fails with `JisyoRead` where a
    /// block cannot be cut or the dictionary would outgrow `u32` offsets.
    pub fn create_index_data(temporary_block_map: &ByteMap) -> (r: Result<CreateIndexDataResult, SkkError>)
        requires
            temporary_block_map.wf(),
        ensures
            match build_all(temporary_block_map.keys(), temporary_block_map.values(), temporary_block_map.keys().len()) {
                None => r is Err && r == Err::<CreateIndexDataResult, SkkError>(SkkError::JisyoRead),
                Some(st) => r matches Ok(res)
                    && res.index_data_header@ == final_index_header(st)
                    && res.index_data@ == st.index_data
                    && res.blocks@ == st.blocks,
            },
    {
        let ghost ks = temporary_block_map.keys();
        let ghost vs = temporary_block_map.values();
        let n = temporary_block_map.len();
        let mut builder = IndexBuilder {
            index_data: Vec::new(),
            blocks: Vec::new(),
            headers: Vec::new(),
            header_count: 0,
            block_offset: 0,
            block_length: 0,
            block_units: 0,
            units: Ghost(Seq::empty()),
        };
        assert(builder.view() =~= empty_build());
        proof { lemma_build_all_step(ks, vs, 0); }
        let mut i: usize = 0;
        while i < n
            invariant
                i <= n,
                n == ks.len(),
                ks == temporary_block_map.keys(),
                vs == temporary_block_map.values(),
                build_all(ks, vs, i as nat) == Some(builder.view()),
                build_bounds(builder.view()),
            decreases n - i,
        {
            let (key, block) = temporary_block_map.get_index(i);
            proof { lemma_build_all_step(ks, vs, i as nat); }
            let (ub, aligned_block, g) = match Self::build_one(&builder, key, block) {
                Some(x) => x,
                None => {
                    proof { lemma_build_none_stays(ks, vs, i as nat + 1, n as nat); }
                    return Err(SkkError::JisyoRead);
                },
            };
            builder.advance(&ub, &aligned_block, Ghost(key@), g);
            i += 1;
        }
        let mut index_data_header: Vec<u8> = Vec::new();
        push_le_u32(&mut index_data_header, INDEX_DATA_BLOCK_LENGTH as u32);
        if builder.block_length > 0 {
            push_le_u32(&mut index_data_header, builder.header_count + 1);
            append_bytes(&mut index_data_header, builder.headers.as_slice());
            let bh = IndexDataHeaderBlockHeader {
                offset: builder.block_offset as u32,
                length: builder.block_length as u32,
                unit_length: builder.block_units,
            };
            let bhb = bh.to_ne_bytes();
            append_bytes(&mut index_data_header, bhb.as_slice());
        } else {
            push_le_u32(&mut index_data_header, builder.header_count);
            append_bytes(&mut index_data_header, builder.headers.as_slice());
        }
        let index_data = builder.index_data;
        let blocks = builder.blocks;
        Ok(CreateIndexDataResult { index_data_header, index_data, blocks })
    }
}

/// The offsets and lengths take 8 bytes per unit.
pub proof fn lemma_offsets_bytes_len(infos: Seq<InfoView>)
    ensures
        offsets_bytes(infos).len() == 8 * infos.len(),
    decreases infos.len(),
{
    if infos.len() > 0 {
        lemma_offsets_bytes_len(infos.drop_last());
    }
}

/// A padded block is at most 17 bytes longer than the block it was cut from.
pub proof fn lemma_aligned_after_len(b: Seq<u8>, cs: Seq<UnitCut>)
    requires
        spec_block_units(b) == Some(cs),
    ensures
        aligned_block_after(Seq::empty(), b, cs).len() <= b.len() + 17,
{
    lemma_cut_bytes_len(b, cs, spec_max_entry_from(b, 0, 0).unwrap(), 0);
}

/// The cuts of a walk from `offset` lie end to end within the block.
proof fn lemma_cut_bytes_len(b: Seq<u8>, cs: Seq<UnitCut>, max: int, offset: int)
    requires
        spec_block_walk(b, offset, max) == Some(cs),
    ensures
        cut_bytes(b, cs).len() <= b.len() - offset,
    decreases b.len() - offset,
{
    lemma_cut_step_bounds(b, offset, max);
    let (sp, rf, sb) = spec_cut_step(b, offset, max).unwrap();
    let c: UnitCut = (offset, sp, rf);
    lemma_cut_bytes_single(b, c);
    if !sb {
        let rest = spec_block_walk(b, rf, max).unwrap();
        assert(cs == seq![c] + rest);
        lemma_cut_bytes_len(b, rest, max, rf);
        lemma_cut_bytes_prepend(b, c, rest);
    }
}

proof fn lemma_cut_bytes_single(b: Seq<u8>, c: UnitCut)
    requires
        0 <= c.0 <= c.2 <= b.len(),
    ensures
        cut_bytes(b, seq![c]) == b.subrange(c.0, c.2),
{
    assert(seq![c].drop_last() =~= Seq::<UnitCut>::empty());
    assert(seq![c].last() == c);
    assert(cut_bytes(b, Seq::<UnitCut>::empty()) == Seq::<u8>::empty());
    assert(Seq::<u8>::empty() + b.subrange(c.0, c.2) =~= b.subrange(c.0, c.2));
}

/// The bytes of a cut followed by more cuts.
proof fn lemma_cut_bytes_prepend(b: Seq<u8>, c: UnitCut, rest: Seq<UnitCut>)
    requires
        0 <= c.0 <= c.2 <= b.len(),
    ensures
        cut_bytes(b, seq![c] + rest) == b.subrange(c.0, c.2) + cut_bytes(b, rest),
    decreases rest.len(),
{
    if rest.len() == 0 {
        assert(seq![c] + rest =~= seq![c]);
        lemma_cut_bytes_single(b, c);
        assert(b.subrange(c.0, c.2) + Seq::<u8>::empty() =~= b.subrange(c.0, c.2));
    } else {
        lemma_cut_bytes_prepend(b, c, rest.drop_last());
        assert((seq![c] + rest).drop_last() =~= seq![c] + rest.drop_last());
        assert((seq![c] + rest).last() == rest.last());
        let x = b.subrange(c.0, c.2);
        let y = cut_bytes(b, rest.drop_last());
        let z = b.subrange(rest.last().0, rest.last().2);
        assert(x + y + z =~= x + (y + z));
    }
}

/// `h` with the digest `d`.
pub open spec fn with_sha1(h: DictionaryFixedHeader, d: Seq<u8>) -> bool {
    h.sha1sum@ == d
}

/// The dictionary laid out from its parts before its digest is set: the fixed header padded
/// to 256 bytes, the convert table, the index data header, the index data, zeros up to the
/// header-aligned start of the blocks, and the blocks.
pub open spec fn dictionary_body(h: DictionaryFixedHeader, pad: nat, table: Seq<u8>, st: IndexBuild) -> Seq<u8> {
    spec_header_bytes(h) + Seq::new(192, |i: int| 0u8) + table + final_index_header(st) + st.index_data
        + Seq::new(pad, |i: int| 0u8) + st.blocks
}

/// Whether `d` is the dictionary of the convert table `table` and the built index `st` in
/// `encoding`: its body laid out with a zero digest, then the header rewritten with the digest
/// of that body.
#[verifier::opaque]
pub open spec fn is_dictionary_of(d: Seq<u8>, table: Seq<u8>, st: IndexBuild, encoding: Encoding) -> bool {
    exists|h: DictionaryFixedHeader, pad: u32, h2: DictionaryFixedHeader| {
        &&& spec_fixed_header_ok(h, pad, table.len() as int, final_index_header(st).len() as int,
                st.index_data.len() as int, st.blocks.len() as int, encoding)
        &&& #[trigger] with_sha1(h2, spec_sha1(dictionary_body(h, pad as nat, table, st)))
        &&& h2.dictionary_version == h.dictionary_version
        &&& h2.encoding_table_offset == h.encoding_table_offset
        &&& h2.encoding_table_length == h.encoding_table_length
        &&& h2.index_data_header_offset == h.index_data_header_offset
        &&& h2.index_data_header_length == h.index_data_header_length
        &&& h2.index_data_offset == h.index_data_offset
        &&& h2.index_data_length == h.index_data_length
        &&& h2.blocks_offset == h.blocks_offset
        &&& h2.blocks_length == h.blocks_length
        &&& h2.dictionary_length == h.dictionary_length
        &&& h2.encoding == h.encoding
        &&& d == spec_header_bytes(h2) + dictionary_body(h, pad as nat, table, st).subrange(64, dictionary_body(h, pad as nat, table, st).len() as int)
    }
}

/// Whether a dictionary with these parts fits `u32` offsets.
pub open spec fn dictionary_fits(table: Seq<u8>, st: IndexBuild) -> bool {
    256 + table.len() + final_index_header(st).len() + st.index_data.len() + 4096 + st.blocks.len() <= u32::MAX
}

impl DictionaryCreator {
    /// Lays out a dictionary from the convert table and the built index, and sets its digest:
    /// see `is_dictionary_of`.
    pub fn assemble(encoding_table: &[u8], res: &CreateIndexDataResult, encoding: Encoding, Ghost(st): Ghost<IndexBuild>) -> (r: Vec<u8>)
        requires
            res.index_data_header@ == final_index_header(st),
            res.index_data@ == st.index_data,
            res.blocks@ == st.blocks,
            dictionary_fits(encoding_table@, st),
        ensures
            is_dictionary_of(r@, encoding_table@, st, encoding),
    {
        reveal(is_dictionary_of);
        let (mut header, pad) = Self::create_dictionary_fixed_header(
            encoding_table.len(),
            res.index_data_header.len(),
            res.index_data.len(),
            res.blocks.len(),
            encoding,
        );
        let ghost h = header;
        let mut body: Vec<u8> = header.to_ne_bytes();
        let zeros: Vec<u8> = vec_of_zeros(192);
        append_bytes(&mut body, zeros.as_slice());
        append_bytes(&mut body, encoding_table);
        append_bytes(&mut body, res.index_data_header.as_slice());
        append_bytes(&mut body, res.index_data.as_slice());
        let padding: Vec<u8> = vec_of_zeros(pad as usize);
        append_bytes(&mut body, padding.as_slice());
        append_bytes(&mut body, res.blocks.as_slice());
        assert(body@ =~= dictionary_body(h, pad as nat, encoding_table@, st));
        let digest = sha1_digest(body.as_slice());
        header.sha1sum = digest;
        let head = header.to_ne_bytes();
        let mut r: Vec<u8> = Vec::new();
        append_bytes(&mut r, head.as_slice());
        assert(body@.len() >= 64);
        append_bytes(&mut r, &body.as_slice()[64..body.len()]);
        assert(with_sha1(header, spec_sha1(dictionary_body(h, pad as nat, encoding_table@, st))));
        r
    }
}

/// `n` zero bytes.
pub fn vec_of_zeros(n: usize) -> (r: Vec<u8>)
    ensures
        r@ == Seq::new(n as nat, |i: int| 0u8),
{
    let mut r: Vec<u8> = Vec::new();
    let mut k: usize = 0;
    while k < n
        invariant
            k <= n,
            r@ == Seq::new(k as nat, |i: int| 0u8),
        decreases n - k,
    {
        r.push(0);
        k += 1;
        assert(r@ =~= Seq::new(k as nat, |i: int| 0u8));
    }
    r
}

/// What making a dictionary of the jisyo files `jisyos` in `encoding` gives, `t` being set up from
/// the convert table `table_bytes`: the error of reading the jisyo files; `Encoding` where a
/// midashi does not start with a whole EUC character; `JisyoRead` where a string block cannot be
/// cut or the dictionary would outgrow `u32` offsets; else the dictionary of the index built
/// from the string blocks (grouped by midashi key, in key order) of the merged entries.
#[verifier::opaque]
pub open spec fn creates(t: EncodingTable, table_bytes: Seq<u8>, jisyos: Seq<Seq<u8>>, encoding: Encoding, r: Result<Seq<u8>, SkkError>) -> bool {
    match entries_of_jisyos(t, jisyos, jisyos.len(), Some(encoding)) {
        Err(e) => r == Err::<Seq<u8>, SkkError>(e),
        Ok(m) => forall|em: ByteMap| #[trigger] em.wf() && em.view() == m ==>
            match spec_temporary_block_map(em.keys(), em.values(), em.keys().len()) {
                None => r == Err::<Seq<u8>, SkkError>(SkkError::Encoding),
                Some(tmap) => forall|tm: ByteMap| #[trigger] tm.wf() && tm.view() == tmap ==>
                    match build_all(tm.keys(), tm.values(), tm.keys().len()) {
                        None => r == Err::<Seq<u8>, SkkError>(SkkError::JisyoRead),
                        Some(st) => if dictionary_fits(table_bytes, st) {
                            r matches Ok(d) && is_dictionary_of(d, table_bytes, st, encoding)
                        } else {
                            r == Err::<Seq<u8>, SkkError>(SkkError::JisyoRead)
                        },
                    },
            },
    }
}

impl DictionaryCreator {
    /// Makes a dictionary of the jisyo files: see `creates`.
    pub fn create(
        jisyos: &Vec<Vec<u8>>,
        encoding: Encoding,
        encoding_table: &[u8],
        table: &EncodingTable,
    ) -> (r: Result<Vec<u8>, SkkError>)
        requires
            table.wf(),
        ensures
            creates(*table, encoding_table@, crate::bytes::vv(jisyos@), encoding, match r { Ok(d) => Ok(d@), Err(e) => Err(e) }),
    {
        let ghost js = crate::bytes::vv(jisyos@);
        let ghost tb = encoding_table@;
        assert(js.len() == jisyos.len());
        let entries = match JisyoReader::get_merged_jisyo_entries_map(jisyos, encoding, table) {
            Ok(m) => m,
            Err(e) => {
                proof { lemma_creates_read_err(*table, tb, js, encoding, e); }
                return Err(e);
            },
        };
        let temp = match Self::create_temporary_block_map(&entries) {
            Ok(t) => t,
            Err(e) => {
                proof { lemma_creates_temp_err(*table, tb, js, encoding, entries); }
                return Err(e);
            },
        };
        let res = match Self::create_index_data(&temp) {
            Ok(res) => res,
            Err(e) => {
                proof { lemma_creates_build_err(*table, tb, js, encoding, entries, temp); }
                return Err(e);
            },
        };
        let ghost st = build_all(temp.keys(), temp.values(), temp.keys().len()).unwrap();
        if encoding_table.len() as u64 > 0xffff_ffffu64 || res.index_data_header.len() as u64 > 0xffff_ffffu64
            || res.index_data.len() as u64 > 0xffff_ffffu64 || res.blocks.len() as u64 > 0xffff_ffffu64
            || encoding_table.len() as u64 + res.index_data_header.len() as u64 + res.index_data.len() as u64
                + res.blocks.len() as u64 + 4352 > 0xffff_ffffu64 {
            proof { lemma_creates_fits(*table, tb, js, encoding, entries, temp, st, Err(SkkError::JisyoRead)); }
            return Err(SkkError::JisyoRead);
        }
        let d = Self::assemble(encoding_table, &res, encoding, Ghost(st));
        proof { lemma_creates_fits(*table, tb, js, encoding, entries, temp, st, Ok(d@)); }
        Ok(d)
    }
}

proof fn lemma_creates_read_err(t: EncodingTable, tb: Seq<u8>, js: Seq<Seq<u8>>, enc: Encoding, e: SkkError)
    requires
        entries_of_jisyos(t, js, js.len(), Some(enc)) == Err::<Map<Seq<u8>, Seq<u8>>, SkkError>(e),
    ensures
        creates(t, tb, js, enc, Err(e)),
{
    reveal(creates);
}

proof fn lemma_creates_temp_err(t: EncodingTable, tb: Seq<u8>, js: Seq<Seq<u8>>, enc: Encoding, entries: ByteMap)
    requires
        entries.wf(),
        entries_of_jisyos(t, js, js.len(), Some(enc)) == Ok::<Map<Seq<u8>, Seq<u8>>, SkkError>(entries.view()),
        spec_temporary_block_map(entries.keys(), entries.values(), entries.keys().len()) is None,
    ensures
        creates(t, tb, js, enc, Err(SkkError::Encoding)),
{
    reveal(creates);
    assert forall|em: ByteMap| #[trigger] em.wf() && em.view() == entries.view() implies
        spec_temporary_block_map(em.keys(), em.values(), em.keys().len()) is None by {
        ByteMap::lemma_view_determines(em, entries);
    }
}

proof fn lemma_creates_build_err(t: EncodingTable, tb: Seq<u8>, js: Seq<Seq<u8>>, enc: Encoding, entries: ByteMap, temp: ByteMap)
    requires
        entries.wf(),
        temp.wf(),
        entries_of_jisyos(t, js, js.len(), Some(enc)) == Ok::<Map<Seq<u8>, Seq<u8>>, SkkError>(entries.view()),
        spec_temporary_block_map(entries.keys(), entries.values(), entries.keys().len()) == Some(temp.view()),
        build_all(temp.keys(), temp.values(), temp.keys().len()) is None,
    ensures
        creates(t, tb, js, enc, Err(SkkError::JisyoRead)),
{
    reveal(creates);
    assert forall|em: ByteMap| #[trigger] em.wf() && em.view() == entries.view() implies
        (spec_temporary_block_map(em.keys(), em.values(), em.keys().len()) == Some(temp.view())) by {
        ByteMap::lemma_view_determines(em, entries);
    }
    assert forall|tm: ByteMap| #[trigger] tm.wf() && tm.view() == temp.view() implies
        build_all(tm.keys(), tm.values(), tm.keys().len()) is None by {
        ByteMap::lemma_view_determines(tm, temp);
    }
}

proof fn lemma_creates_fits(t: EncodingTable, tb: Seq<u8>, js: Seq<Seq<u8>>, enc: Encoding, entries: ByteMap, temp: ByteMap,
    st: IndexBuild, r: Result<Seq<u8>, SkkError>)
    requires
        entries.wf(),
        temp.wf(),
        entries_of_jisyos(t, js, js.len(), Some(enc)) == Ok::<Map<Seq<u8>, Seq<u8>>, SkkError>(entries.view()),
        spec_temporary_block_map(entries.keys(), entries.values(), entries.keys().len()) == Some(temp.view()),
        build_all(temp.keys(), temp.values(), temp.keys().len()) == Some(st),
        if dictionary_fits(tb, st) {
            r matches Ok(d) && is_dictionary_of(d, tb, st, enc)
        } else {
            r == Err::<Seq<u8>, SkkError>(SkkError::JisyoRead)
        },
    ensures
        creates(t, tb, js, enc, r),
{
    reveal(creates);
    assert forall|em: ByteMap| #[trigger] em.wf() && em.view() == entries.view() implies
        (spec_temporary_block_map(em.keys(), em.values(), em.keys().len()) == Some(temp.view())) by {
        ByteMap::lemma_view_determines(em, entries);
    }
    assert forall|tm: ByteMap| #[trigger] tm.wf() && tm.view() == temp.view() implies
        build_all(tm.keys(), tm.values(), tm.keys().len()) == Some(st) by {
        ByteMap::lemma_view_determines(tm, temp);
    }
}

} // verus!
