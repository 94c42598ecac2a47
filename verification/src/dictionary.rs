//! The dictionary file format: its fixed header and the records of its index.
//!
//! All numbers are `u32`, stored little-endian.
use vstd::prelude::*;
use crate::bytes::{append_bytes, occurs_at};
use crate::encoding_simple::encoding_table::{le_bytes, le_u32, push_le_u32, read_le_u32};
use crate::error::SkkError;
use crate::outside::{find_bytes, rfind_bytes};

verus! {

pub const DICTIONARY_FIXED_HEADER_AREA_LENGTH: u32 = 256;
pub const DICTIONARY_VERSION: u32 = 1;
pub const SHA1SUM_LENGTH: usize = 20;
pub const INDEX_ASCII_HIRAGANA_VEC_LENGTH: usize = 256;
pub const DICTIONARY_FIXED_HEADER_LENGTH: usize = 64;
pub const DICTIONARY_BLOCK_HEADS_LENGTH: usize = 12;
pub const BLOCK_INFORMATION_OFFSET_LENGTH_LENGTH: usize = 8;
pub const INDEX_DATA_HEADER_LENGTH: usize = 8;
pub const INDEX_DATA_HEADER_BLOCK_HEADER_LENGTH: usize = 12;

/// Namespace for reading entries and index records.
pub struct Dictionary;

/// The first bytes of an entry's midashi by which the index groups entries.
pub type DictionaryMidashiKey = [u8; 4];

/// The fixed header at the start of a dictionary.
#[derive(Clone, Debug)]
pub struct DictionaryFixedHeader {
    pub dictionary_version: u32,
    pub encoding_table_offset: u32,
    pub encoding_table_length: u32,
    pub index_data_header_offset: u32,
    pub index_data_header_length: u32,
    pub index_data_offset: u32,
    pub index_data_length: u32,
    pub blocks_offset: u32,
    pub blocks_length: u32,
    pub dictionary_length: u32,
    pub encoding: u32,
    pub sha1sum: [u8; 20],
}

/// The head of the index record of one midashi key.
#[derive(Clone, Copy, Debug)]
pub struct DictionaryBlockHeads {
    pub information_length: u32,
    pub information_midashi_length: u32,
    pub dictionary_midashi_key: DictionaryMidashiKey,
}

/// Where a unit of a block lies in the blocks area.
#[derive(Clone, Copy, Debug, PartialEq, Eq, Structural)]
pub struct BlockInformationOffsetLength {
    pub offset: u32,
    pub length: u32,
}

/// The head of the index data header.
#[derive(Clone, Copy, Debug, PartialEq, Eq, Structural)]
pub struct IndexDataHeader {
    pub block_buffer_length: u32,
    pub block_header_length: u32,
}

/// Where a block of index records lies in the index data, and how many records it holds.
#[derive(Clone, Copy, Debug, PartialEq, Eq, Structural)]
pub struct IndexDataHeaderBlockHeader {
    pub offset: u32,
    pub length: u32,
    pub unit_length: u32,
}

/// A unit of a block: the midashi of its first entry, and where it lies.
pub struct DictionaryBlockInformation {
    pub midashi: Vec<u8>,
    pub offset: u32,
    pub length: u32,
}

/// The 64 bytes of a fixed header.
pub open spec fn spec_header_bytes(h: DictionaryFixedHeader) -> Seq<u8> {
    le_bytes(h.dictionary_version as nat) + le_bytes(h.encoding_table_offset as nat)
        + le_bytes(h.encoding_table_length as nat) + le_bytes(h.index_data_header_offset as nat)
        + le_bytes(h.index_data_header_length as nat) + le_bytes(h.index_data_offset as nat)
        + le_bytes(h.index_data_length as nat) + le_bytes(h.blocks_offset as nat)
        + le_bytes(h.blocks_length as nat) + le_bytes(h.dictionary_length as nat)
        + le_bytes(h.encoding as nat) + h.sha1sum@
}

/// Whether `h` is the fixed header stored in the first 64 bytes of `b`.
pub open spec fn header_stored_in(h: DictionaryFixedHeader, b: Seq<u8>) -> bool {
    &&& h.dictionary_version == le_u32(b, 0)
    &&& h.encoding_table_offset == le_u32(b, 4)
    &&& h.encoding_table_length == le_u32(b, 8)
    &&& h.index_data_header_offset == le_u32(b, 12)
    &&& h.index_data_header_length == le_u32(b, 16)
    &&& h.index_data_offset == le_u32(b, 20)
    &&& h.index_data_length == le_u32(b, 24)
    &&& h.blocks_offset == le_u32(b, 28)
    &&& h.blocks_length == le_u32(b, 32)
    &&& h.dictionary_length == le_u32(b, 36)
    &&& h.encoding == le_u32(b, 40)
    &&& h.sha1sum@ == b.subrange(44, 64)
}

/// The 12 bytes of a block heads record.
pub open spec fn spec_block_heads_bytes(h: DictionaryBlockHeads) -> Seq<u8> {
    le_bytes(h.information_length as nat) + le_bytes(h.information_midashi_length as nat) + h.dictionary_midashi_key@
}

/// The 8 bytes of a unit location.
pub open spec fn spec_offset_length_bytes(h: BlockInformationOffsetLength) -> Seq<u8> {
    le_bytes(h.offset as nat) + le_bytes(h.length as nat)
}

/// The 8 bytes of an index data header.
pub open spec fn spec_index_data_header_bytes(h: IndexDataHeader) -> Seq<u8> {
    le_bytes(h.block_buffer_length as nat) + le_bytes(h.block_header_length as nat)
}

/// The 12 bytes of an index block header.
pub open spec fn spec_index_block_header_bytes(h: IndexDataHeaderBlockHeader) -> Seq<u8> {
    le_bytes(h.offset as nat) + le_bytes(h.length as nat) + le_bytes(h.unit_length as nat)
}

/// Reading a `u32` back from its little-endian bytes gives it.
pub proof fn lemma_le_roundtrip(v: u32)
    ensures
        le_u32(le_bytes(v as nat), 0) == v,
{
    let b = le_bytes(v as nat);
    assert(le_u32(b, 0) == (v % 256) + 256 * ((v / 256) % 256) + 65536 * ((v / 65536) % 256) + 16777216 * ((v / 16777216) % 256));
    assert((v % 256) + 256 * ((v / 256) % 256) + 65536 * ((v / 65536) % 256) + 16777216 * ((v / 16777216) % 256) == v) by (nonlinear_arith)
        requires v <= 0xffff_ffff;
}

/// `le_u32` at `off + k` of a sequence with `bytes` at `off`.
pub proof fn lemma_le_at(s: Seq<u8>, off: int, v: u32)
    requires
        0 <= off,
        off + 4 <= s.len(),
        s.subrange(off, off + 4) == le_bytes(v as nat),
    ensures
        le_u32(s, off) == v,
{
    lemma_le_roundtrip(v);
    let b = le_bytes(v as nat);
    assert(s[off] == b[0] && s[off + 1] == b[1] && s[off + 2] == b[2] && s[off + 3] == b[3]) by {
        assert(s.subrange(off, off + 4)[0] == s[off]);
        assert(s.subrange(off, off + 4)[1] == s[off + 1]);
        assert(s.subrange(off, off + 4)[2] == s[off + 2]);
        assert(s.subrange(off, off + 4)[3] == s[off + 3]);
    }
}

/// Whether `euc` is long enough for the character its first byte announces.
pub open spec fn midashi_key_readable(euc: Seq<u8>) -> bool {
    euc.len() >= 1 && (
        if (0xa1 <= euc[0] <= 0xfe) || euc[0] == 0x8e { euc.len() >= 2 }
        else if euc[0] == 0x8f { euc.len() >= 3 }
        else { true })
}

/// The midashi key of an EUC midashi: its first character, zero-padded to 4 bytes; none for a
/// first byte that starts no EUC character.
pub open spec fn spec_midashi_key(euc: Seq<u8>) -> Option<Seq<u8>> {
    let b = euc[0];
    if (0xa1 <= b <= 0xfe) || b == 0x8e {
        Some(seq![b, euc[1], 0u8, 0u8])
    } else if b <= 0x7f {
        Some(seq![b, 0u8, 0u8, 0u8])
    } else if b == 0x8f {
        Some(seq![b, euc[1], euc[2], 0u8])
    } else {
        None
    }
}

/// An entry line (`midashi candidates`) split at its first space, the candidates running to
/// the last `/`; none where there is no space or no `/` after it.
pub open spec fn spec_midashi_candidates(buffer: Seq<u8>) -> Option<(Seq<u8>, Seq<u8>)> {
    let space = choose|i: int| occurs_at(buffer, seq![0x20u8], i) && forall|j: int| 0 <= j < i ==> !occurs_at(buffer, seq![0x20u8], j);
    let slash = choose|i: int| occurs_at(buffer, seq![0x2fu8], i) && forall|j: int| i < j ==> !occurs_at(buffer, seq![0x2fu8], j);
    if (exists|i: int| occurs_at(buffer, seq![0x20u8], i)) && (exists|i: int| occurs_at(buffer, seq![0x2fu8], i)) && space < slash {
        Some((buffer.subrange(0, space), buffer.subrange(space + 1, slash + 1)))
    } else {
        None
    }
}

impl DictionaryFixedHeader {
    /// A header with the current version and every other field zero.
    pub fn new() -> (r: Self)
        ensures
            r.dictionary_version == DICTIONARY_VERSION,
            r.encoding_table_offset == 0 && r.encoding_table_length == 0,
            r.index_data_header_offset == 0 && r.index_data_header_length == 0,
            r.index_data_offset == 0 && r.index_data_length == 0,
            r.blocks_offset == 0 && r.blocks_length == 0,
            r.dictionary_length == 0 && r.encoding == 0,
            r.sha1sum@ == Seq::new(20, |i: int| 0u8),
    {
        let r = DictionaryFixedHeader {
            dictionary_version: DICTIONARY_VERSION,
            encoding_table_offset: 0,
            encoding_table_length: 0,
            index_data_header_offset: 0,
            index_data_header_length: 0,
            index_data_offset: 0,
            index_data_length: 0,
            blocks_offset: 0,
            blocks_length: 0,
            dictionary_length: 0,
            encoding: 0,
            sha1sum: [0; 20],
        };
        assert(r.sha1sum@ =~= Seq::new(20, |i: int| 0u8));
        r
    }

    /// The 64 bytes of the header.
    pub fn to_ne_bytes(&self) -> (r: Vec<u8>)
        ensures
            r@ == spec_header_bytes(*self),
    {
        let mut r: Vec<u8> = Vec::new();
        push_le_u32(&mut r, self.dictionary_version);
        push_le_u32(&mut r, self.encoding_table_offset);
        push_le_u32(&mut r, self.encoding_table_length);
        push_le_u32(&mut r, self.index_data_header_offset);
        push_le_u32(&mut r, self.index_data_header_length);
        push_le_u32(&mut r, self.index_data_offset);
        push_le_u32(&mut r, self.index_data_length);
        push_le_u32(&mut r, self.blocks_offset);
        push_le_u32(&mut r, self.blocks_length);
        push_le_u32(&mut r, self.dictionary_length);
        push_le_u32(&mut r, self.encoding);
        append_bytes(&mut r, &self.sha1sum);
        r
    }

    /// The header stored in the first 64 bytes of `bytes`.
    pub fn from_ne_bytes(bytes: &[u8]) -> (r: Self)
        requires
            bytes.len() >= DICTIONARY_FIXED_HEADER_LENGTH,
        ensures
            header_stored_in(r, bytes@),
    {
        let sha1sum: [u8; 20] = [
            bytes[44], bytes[45], bytes[46], bytes[47], bytes[48], bytes[49], bytes[50], bytes[51],
            bytes[52], bytes[53], bytes[54], bytes[55], bytes[56], bytes[57], bytes[58], bytes[59],
            bytes[60], bytes[61], bytes[62], bytes[63],
        ];
        assert(sha1sum@ =~= bytes@.subrange(44, 64));
        DictionaryFixedHeader {
            dictionary_version: read_le_u32(bytes, 0),
            encoding_table_offset: read_le_u32(bytes, 4),
            encoding_table_length: read_le_u32(bytes, 8),
            index_data_header_offset: read_le_u32(bytes, 12),
            index_data_header_length: read_le_u32(bytes, 16),
            index_data_offset: read_le_u32(bytes, 20),
            index_data_length: read_le_u32(bytes, 24),
            blocks_offset: read_le_u32(bytes, 28),
            blocks_length: read_le_u32(bytes, 32),
            dictionary_length: read_le_u32(bytes, 36),
            encoding: read_le_u32(bytes, 40),
            sha1sum,
        }
    }
}

impl DictionaryBlockHeads {
    /// The 12 bytes of the record.
    pub fn to_ne_bytes(&self) -> (r: Vec<u8>)
        ensures
            r@ == spec_block_heads_bytes(*self),
    {
        let mut r: Vec<u8> = Vec::new();
        push_le_u32(&mut r, self.information_length);
        push_le_u32(&mut r, self.information_midashi_length);
        append_bytes(&mut r, &self.dictionary_midashi_key);
        r
    }

    /// The record stored at `off` in `bytes`.
    pub fn from_ne_bytes(bytes: &[u8], off: usize) -> (r: Self)
        requires
            off + DICTIONARY_BLOCK_HEADS_LENGTH <= bytes.len(),
        ensures
            r.information_length == le_u32(bytes@, off as int),
            r.information_midashi_length == le_u32(bytes@, off + 4),
            r.dictionary_midashi_key@ == bytes@.subrange(off + 8, off + 12),
    {
        let key: [u8; 4] = [bytes[off + 8], bytes[off + 9], bytes[off + 10], bytes[off + 11]];
        assert(key@ =~= bytes@.subrange(off + 8, off + 12));
        DictionaryBlockHeads {
            information_length: read_le_u32(bytes, off),
            information_midashi_length: read_le_u32(bytes, off + 4),
            dictionary_midashi_key: key,
        }
    }
}

impl BlockInformationOffsetLength {
    /// The 8 bytes of the record.
    pub fn to_ne_bytes(&self) -> (r: Vec<u8>)
        ensures
            r@ == spec_offset_length_bytes(*self),
    {
        let mut r: Vec<u8> = Vec::new();
        push_le_u32(&mut r, self.offset);
        push_le_u32(&mut r, self.length);
        r
    }

    /// The record stored at `off` in `bytes`.
    pub fn from_ne_bytes(bytes: &[u8], off: usize) -> (r: Self)
        requires
            off + BLOCK_INFORMATION_OFFSET_LENGTH_LENGTH <= bytes.len(),
        ensures
            r.offset == le_u32(bytes@, off as int),
            r.length == le_u32(bytes@, off + 4),
    {
        BlockInformationOffsetLength { offset: read_le_u32(bytes, off), length: read_le_u32(bytes, off + 4) }
    }
}

impl IndexDataHeader {
    /// The 8 bytes of the record.
    pub fn to_ne_bytes(&self) -> (r: Vec<u8>)
        ensures
            r@ == spec_index_data_header_bytes(*self),
    {
        let mut r: Vec<u8> = Vec::new();
        push_le_u32(&mut r, self.block_buffer_length);
        push_le_u32(&mut r, self.block_header_length);
        r
    }

    /// The record stored at `off` in `bytes`.
    pub fn from_ne_bytes(bytes: &[u8], off: usize) -> (r: Self)
        requires
            off + INDEX_DATA_HEADER_LENGTH <= bytes.len(),
        ensures
            r.block_buffer_length == le_u32(bytes@, off as int),
            r.block_header_length == le_u32(bytes@, off + 4),
    {
        IndexDataHeader { block_buffer_length: read_le_u32(bytes, off), block_header_length: read_le_u32(bytes, off + 4) }
    }
}

impl IndexDataHeaderBlockHeader {
    /// The 12 bytes of the record.
    pub fn to_ne_bytes(&self) -> (r: Vec<u8>)
        ensures
            r@ == spec_index_block_header_bytes(*self),
    {
        let mut r: Vec<u8> = Vec::new();
        push_le_u32(&mut r, self.offset);
        push_le_u32(&mut r, self.length);
        push_le_u32(&mut r, self.unit_length);
        r
    }

    /// The record stored at `off` in `bytes`.
    pub fn from_ne_bytes(bytes: &[u8], off: usize) -> (r: Self)
        requires
            off + INDEX_DATA_HEADER_BLOCK_HEADER_LENGTH <= bytes.len(),
        ensures
            r.offset == le_u32(bytes@, off as int),
            r.length == le_u32(bytes@, off + 4),
            r.unit_length == le_u32(bytes@, off + 8),
    {
        IndexDataHeaderBlockHeader {
            offset: read_le_u32(bytes, off),
            length: read_le_u32(bytes, off + 4),
            unit_length: read_le_u32(bytes, off + 8),
        }
    }
}

impl Dictionary {
    /// The midashi key of an EUC midashi: see `spec_midashi_key`.
    pub fn get_dictionary_midashi_key(euc_buffer: &[u8]) -> (r: Result<DictionaryMidashiKey, SkkError>)
        requires
            midashi_key_readable(euc_buffer@),
        ensures
            match spec_midashi_key(euc_buffer@) {
                Some(k) => r matches Ok(key) && key@ == k,
                None => r == Err::<DictionaryMidashiKey, SkkError>(SkkError::Encoding),
            },
    {
        let b = euc_buffer[0];
        if (b >= 0xa1 && b <= 0xfe) || b == 0x8e {
            let k: [u8; 4] = [b, euc_buffer[1], 0, 0];
            assert(k@ =~= seq![b, euc_buffer@[1], 0u8, 0u8]);
            Ok(k)
        } else if b <= 0x7f {
            let k: [u8; 4] = [b, 0, 0, 0];
            assert(k@ =~= seq![b, 0u8, 0u8, 0u8]);
            Ok(k)
        } else if b == 0x8f {
            let k: [u8; 4] = [b, euc_buffer[1], euc_buffer[2], 0];
            assert(k@ =~= seq![b, euc_buffer@[1], euc_buffer@[2], 0u8]);
            Ok(k)
        } else {
            Err(SkkError::Encoding)
        }
    }

    /// Whether `euc` is long enough for the character its first byte announces.
    pub fn is_midashi_key_readable(euc: &[u8]) -> (r: bool)
        ensures
            r == midashi_key_readable(euc@),
    {
        if euc.len() < 1 {
            return false;
        }
        let b = euc[0];
        if (b >= 0xa1 && b <= 0xfe) || b == 0x8e {
            euc.len() >= 2
        } else if b == 0x8f {
            euc.len() >= 3
        } else {
            true
        }
    }

    /// Splits an entry line into midashi and candidates: see `spec_midashi_candidates`.
    /// Fails with `JisyoRead` where it has none.
    pub fn get_midashi_candidates(buffer: &[u8]) -> (r: Result<(&[u8], &[u8]), SkkError>)
        ensures
            match spec_midashi_candidates(buffer@) {
                Some((m, c)) => r matches Ok((rm, rc)) && rm@ == m && rc@ == c,
                None => r == Err::<(&[u8], &[u8]), SkkError>(SkkError::JisyoRead),
            },
    {
        let space_pattern: [u8; 1] = [0x20];
        let slash_pattern: [u8; 1] = [0x2f];
        assert(space_pattern@ =~= seq![0x20u8]);
        assert(slash_pattern@ =~= seq![0x2fu8]);
        let space = match find_bytes(buffer, &space_pattern) {
            Some(i) => i,
            None => return Err(SkkError::JisyoRead),
        };
        let last_slash = match rfind_bytes(buffer, &slash_pattern) {
            Some(i) => i,
            None => return Err(SkkError::JisyoRead),
        };
        proof {
            let sp = choose|i: int| occurs_at(buffer@, seq![0x20u8], i) && forall|j: int| 0 <= j < i ==> !occurs_at(buffer@, seq![0x20u8], j);
            if sp != space {
                if sp < space {
                } else {
                    assert(!occurs_at(buffer@, seq![0x20u8], space as int));
                }
            }
            let sl = choose|i: int| occurs_at(buffer@, seq![0x2fu8], i) && forall|j: int| i < j ==> !occurs_at(buffer@, seq![0x2fu8], j);
            if sl != last_slash {
                if sl < last_slash {
                } else {
                    assert(!occurs_at(buffer@, seq![0x2fu8], sl));
                }
            }
        }
        if last_slash <= space {
            return Err(SkkError::JisyoRead);
        }
        assert(occurs_at(buffer@, slash_pattern@, last_slash as int));
        assert(last_slash < buffer.len());
        let end: usize = last_slash + 1;
        Ok((&buffer[0..space], &buffer[space + 1..end]))
    }
}


/// Reading a header back from the bytes it is written as gives the header: what
/// `from_ne_bytes` reads from the bytes of `to_ne_bytes` is `h`.
pub proof fn lemma_header_bytes_roundtrip(h: DictionaryFixedHeader)
    ensures
        header_stored_in(h, spec_header_bytes(h)),
{
    let b = spec_header_bytes(h);
    assert(b.len() == 64);
    assert(b.subrange(0, 4) =~= le_bytes(h.dictionary_version as nat));
    assert(b.subrange(4, 8) =~= le_bytes(h.encoding_table_offset as nat));
    assert(b.subrange(8, 12) =~= le_bytes(h.encoding_table_length as nat));
    assert(b.subrange(12, 16) =~= le_bytes(h.index_data_header_offset as nat));
    assert(b.subrange(16, 20) =~= le_bytes(h.index_data_header_length as nat));
    assert(b.subrange(20, 24) =~= le_bytes(h.index_data_offset as nat));
    assert(b.subrange(24, 28) =~= le_bytes(h.index_data_length as nat));
    assert(b.subrange(28, 32) =~= le_bytes(h.blocks_offset as nat));
    assert(b.subrange(32, 36) =~= le_bytes(h.blocks_length as nat));
    assert(b.subrange(36, 40) =~= le_bytes(h.dictionary_length as nat));
    assert(b.subrange(40, 44) =~= le_bytes(h.encoding as nat));
    assert(b.subrange(44, 64) =~= h.sha1sum@);
    lemma_le_at(b, 0, h.dictionary_version);
    lemma_le_at(b, 4, h.encoding_table_offset);
    lemma_le_at(b, 8, h.encoding_table_length);
    lemma_le_at(b, 12, h.index_data_header_offset);
    lemma_le_at(b, 16, h.index_data_header_length);
    lemma_le_at(b, 20, h.index_data_offset);
    lemma_le_at(b, 24, h.index_data_length);
    lemma_le_at(b, 28, h.blocks_offset);
    lemma_le_at(b, 32, h.blocks_length);
    lemma_le_at(b, 36, h.dictionary_length);
    lemma_le_at(b, 40, h.encoding);
}
} // verus!
