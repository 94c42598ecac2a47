//! `encoding_simple`: conversion between EUC (EUC-JIS-2004) and UTF-8 by tables.
//!
//! 1. `EncodingTable::create_table()` builds a convert table from the lines of
//!    `euc-jis-2004-std.txt`.
//! 2. `EncodingTable::setup()` turns a convert table into the lookup structures.
//! 3. `Euc::encode` / `Euc::decode` convert with them.
//!
//! Convert table format (all numbers `u32`, little-endian):
//!
//! - header: `version (1)`, `header length (32)`, `euc_utf8_combine_length`,
//!   `euc_utf8_length`, four reserved words
//! - `euc_utf8_combine_length` units of `euc (3 bytes) + utf8 (4 bytes) + utf8 (4 bytes)`
//! - `euc_utf8_length` units of `euc (3 bytes) + utf8 (4 bytes)`
//!
//! A byte sequence that has no counterpart in the table is written as `&#x` followed by its
//! bytes in two-digit lower-case hex.

pub mod euc;
pub mod encoding_table;

use vstd::prelude::*;
use crate::encoding::{Encoding, EncodingOptions};
use crate::error::SkkError;
use crate::outside::{find_bytes, FxU64Table};
use crate::bytes::occurs_at;

verus! {

/// EUC <-> UTF-8 conversion.
pub struct Euc {}

/// Helpers on buffers and tables.
pub struct Utility {}

/// Index computations for the EUC -> UTF-8 direction.
pub struct Decoder {}

/// Index computations for the UTF-8 -> EUC direction.
pub struct Encoder {}

/// The lookup structures built from a convert table.
///
/// Frequently used entries stand in vectors, indexed by `Decoder::get_euc_2_to_utf8_vec_index`
/// and `Encoder::get_utf8_3_to_euc_vec_index`; an all-zero element means "absent". The rest
/// stand in maps whose keys and values are byte arrays packed big-endian into `u64`.
pub struct EncodingTable {
    pub euc_2_to_utf8_vec: Vec<[u8; 4]>,
    pub utf8_3_to_euc_vec: Vec<[u8; 3]>,
    pub euc_3_to_utf8_map: FxU64Table,
    pub utf8_2_4_to_euc_map: FxU64Table,
    pub combine_euc_to_utf8_map: FxU64Table,
    pub combine_utf8_4_to_euc_map: FxU64Table,
    pub combine_utf8_6_to_euc_map: FxU64Table,
}

pub const EUC_2_TO_UTF8_VEC_INDEX_MAXIMUM: usize = 0x5d70;
pub const EUC_2_TO_UTF8_VEC_INDEX_EMPTY: usize = 1;
pub const UTF8_3_TO_EUC_VEC_INDEX_RAW_MINIMUM: usize = 0x1e3e;
pub const UTF8_3_TO_EUC_VEC_INDEX_MAXIMUM: usize = 0xff9f - 0x1e3e - (0xdade - 0x8165);
pub const UTF8_3_TO_EUC_VEC_INDEX_EMPTY: usize = 2;

impl EncodingTable {
    /// The vectors have the lengths that their indices need.
    pub open spec fn wf(&self) -> bool {
        &&& self.euc_2_to_utf8_vec@.len() == EUC_2_TO_UTF8_VEC_INDEX_MAXIMUM + 1
        &&& self.utf8_3_to_euc_vec@.len() == UTF8_3_TO_EUC_VEC_INDEX_MAXIMUM + 1
    }
}

/// The index of a 2-byte EUC character in the EUC -> UTF-8 vector.
pub open spec fn spec_euc_2_index(high: u8, low: u8) -> usize {
    if low < 0xa1 || high < 0x8e {
        EUC_2_TO_UTF8_VEC_INDEX_EMPTY
    } else {
        let r = (((low - 0xa1) as usize) << 8usize) | ((high - 0x8e) as usize);
        if r > EUC_2_TO_UTF8_VEC_INDEX_MAXIMUM {
            EUC_2_TO_UTF8_VEC_INDEX_EMPTY
        } else {
            r
        }
    }
}

/// The index of a 3-byte UTF-8 character in the UTF-8 -> EUC vector.
pub open spec fn spec_utf8_3_index(u0: u8, u1: u8, u2: u8) -> usize {
    if u0 < 0xe0 || u1 < 0x80 || u2 < 0x80 {
        UTF8_3_TO_EUC_VEC_INDEX_EMPTY
    } else {
        let raw = (((u0 - 0xe0) as usize) << 12usize) | (((u1 - 0x80) as usize) << 6usize) | ((u2 - 0x80) as usize);
        let raw2: int = if raw > 0xdade { raw - (0xdade - 0x8165) } else { raw as int };
        if raw2 < UTF8_3_TO_EUC_VEC_INDEX_RAW_MINIMUM {
            UTF8_3_TO_EUC_VEC_INDEX_EMPTY
        } else if raw2 - UTF8_3_TO_EUC_VEC_INDEX_RAW_MINIMUM > UTF8_3_TO_EUC_VEC_INDEX_MAXIMUM {
            UTF8_3_TO_EUC_VEC_INDEX_EMPTY
        } else {
            (raw2 - UTF8_3_TO_EUC_VEC_INDEX_RAW_MINIMUM) as usize
        }
    }
}

/// The length of the UTF-8 character whose first byte is `b`, as the tables store it.
pub open spec fn utf8_unit_length(b: u8) -> int {
    if b >= 0xf0 { 4 } else if b >= 0xe0 { 3 } else if b >= 0xc2 { 2 } else { 1 }
}

/// The length of the EUC character whose first byte is `b`, as the tables store it.
pub open spec fn euc_unit_length(b: u8) -> int {
    if b == 0x8f { 3 } else if b >= 0x80 { 2 } else { 1 }
}

/// The character that a stored UTF-8 unit holds.
pub open spec fn utf8_piece(u: Seq<u8>) -> Seq<u8> {
    u.subrange(0, utf8_unit_length(u[0]))
}

/// The character that a stored EUC unit holds.
pub open spec fn euc_piece(e: Seq<u8>) -> Seq<u8> {
    e.subrange(0, euc_unit_length(e[0]))
}

/// The lower-case hex digit for `n < 16`.
pub open spec fn hex_digit(n: u8) -> u8 {
    if n < 10 { (0x30 + n) as u8 } else { (0x57 + n) as u8 }
}

/// Two hex digits per byte.
pub open spec fn hex_digits(bs: Seq<u8>) -> Seq<u8>
    decreases bs.len(),
{
    if bs.len() == 0 {
        Seq::<u8>::empty()
    } else {
        hex_digits(bs.drop_last()) + seq![hex_digit(bs.last() / 16), hex_digit(bs.last() % 16)]
    }
}

/// `&#x` followed by the bytes in hex: how an unconvertible sequence is written.
pub open spec fn hex_ref(bs: Seq<u8>) -> Seq<u8> {
    seq![0x26u8, 0x23, 0x78] + hex_digits(bs)
}

/// Whether `b` is a UTF-8 continuation byte.
pub open spec fn is_cont(b: u8) -> bool {
    0x80 <= b <= 0xbf
}

/// Appends `&#x` and the bytes in hex.
pub fn push_hex_ref(result: &mut Vec<u8>, bs: &[u8])
    ensures
        final(result)@ == old(result)@ + hex_ref(bs@),
{
    result.push(0x26);
    result.push(0x23);
    result.push(0x78);
    let ghost start = result@;
    let mut i: usize = 0;
    while i < bs.len()
        invariant
            0 <= i <= bs.len(),
            start == old(result)@ + seq![0x26u8, 0x23, 0x78],
            result@ == start + hex_digits(bs@.subrange(0, i as int)),
        decreases bs.len() - i,
    {
        let b = bs[i];
        let hi = b / 16;
        let lo = b % 16;
        result.push(if hi < 10 { 0x30 + hi } else { 0x57 + hi });
        result.push(if lo < 10 { 0x30 + lo } else { 0x57 + lo });
        assert(bs@.subrange(0, i + 1).drop_last() =~= bs@.subrange(0, i as int));
        i += 1;
        assert(result@ =~= start + hex_digits(bs@.subrange(0, i as int)));
    }
    assert(bs@.subrange(0, bs.len() as int) =~= bs@);
    assert(final(result)@ =~= old(result)@ + hex_ref(bs@));
}

/// The counts of valid UTF-8 characters and of bytes that start none, scanned from `i` while
/// four bytes remain (`i < len - 3`).
pub open spec fn detect_counts(b: Seq<u8>, i: int, valid: int, invalid: int) -> (int, int)
    decreases b.len() - i,
{
    if i < 0 || i >= b.len() - 3 {
        (valid, invalid)
    } else {
        let b0 = b[i];
        if 0xc2 <= b0 <= 0xdf && is_cont(b[i + 1]) {
            detect_counts(b, i + 2, valid + 1, invalid)
        } else if 0xe0 <= b0 <= 0xef && is_cont(b[i + 1]) && is_cont(b[i + 2]) {
            detect_counts(b, i + 3, valid + 1, invalid)
        } else if 0xf0 <= b0 <= 0xf7 && is_cont(b[i + 1]) && is_cont(b[i + 2]) && is_cont(b[i + 3]) {
            detect_counts(b, i + 4, valid + 1, invalid)
        } else if 0x01 <= b0 <= 0x7f {
            detect_counts(b, i + 1, valid, invalid)
        } else {
            detect_counts(b, i + 1, valid, invalid + 1)
        }
    }
}

/// Whether `pattern` occurs anywhere in `text`.
pub open spec fn occurs(text: Seq<u8>, pattern: Seq<u8>) -> bool {
    exists|j: int| occurs_at(text, pattern, j)
}

/// `coding: euc-`
pub open spec fn coding_euc() -> Seq<u8> {
    seq![0x63u8, 0x6f, 0x64, 0x69, 0x6e, 0x67, 0x3a, 0x20, 0x65, 0x75, 0x63, 0x2d]
}

/// `coding: utf-8`
pub open spec fn coding_utf8() -> Seq<u8> {
    seq![0x63u8, 0x6f, 0x64, 0x69, 0x6e, 0x67, 0x3a, 0x20, 0x75, 0x74, 0x66, 0x2d, 0x38]
}

/// The encoding of a jisyo, guessed from its first bytes: a UTF-8 byte order mark; else the
/// balance of valid UTF-8 characters against bytes that start none; where that balance is
/// within 1% of the length, a `coding:` mark, or a near absence of both (EUC).
pub open spec fn spec_detect_encoding(b: Seq<u8>) -> Result<(Encoding, EncodingOptions), SkkError> {
    if b.len() > 3 && b[0] == 0xef && b[1] == 0xbb && b[2] == 0xbf {
        Ok((Encoding::Utf8, EncodingOptions::Bom))
    } else {
        let (valid, invalid) = detect_counts(b, 0, 0, 0);
        let diff = if valid >= invalid { valid - invalid } else { invalid - valid };
        let threshold = b.len() / 100;
        if diff < threshold {
            let near_zero = if 1000 < b.len() / 1000 { 1000 } else { b.len() / 1000 };
            if occurs(b, coding_euc()) {
                Ok((Encoding::Euc, EncodingOptions::Plain))
            } else if occurs(b, coding_utf8()) {
                Ok((Encoding::Utf8, EncodingOptions::Plain))
            } else if valid <= near_zero && invalid <= near_zero {
                Ok((Encoding::Euc, EncodingOptions::Plain))
            } else {
                Err(SkkError::Encoding)
            }
        } else if valid > invalid {
            Ok((Encoding::Utf8, EncodingOptions::Plain))
        } else {
            Ok((Encoding::Euc, EncodingOptions::Plain))
        }
    }
}

proof fn lemma_detect_counts_bound(b: Seq<u8>, i: int, valid: int, invalid: int)
    requires
        0 <= i,
        0 <= valid,
        0 <= invalid,
        valid + invalid <= i,
    ensures
        detect_counts(b, i, valid, invalid).0 + detect_counts(b, i, valid, invalid).1 <= (if i > b.len() { i } else { b.len() as int }),
        detect_counts(b, i, valid, invalid).0 >= valid,
        detect_counts(b, i, valid, invalid).1 >= invalid,
    decreases b.len() - i,
{
    if i < b.len() - 3 {
        let b0 = b[i];
        if 0xc2 <= b0 <= 0xdf && is_cont(b[i + 1]) {
            lemma_detect_counts_bound(b, i + 2, valid + 1, invalid);
        } else if 0xe0 <= b0 <= 0xef && is_cont(b[i + 1]) && is_cont(b[i + 2]) {
            lemma_detect_counts_bound(b, i + 3, valid + 1, invalid);
        } else if 0xf0 <= b0 <= 0xf7 && is_cont(b[i + 1]) && is_cont(b[i + 2]) && is_cont(b[i + 3]) {
            lemma_detect_counts_bound(b, i + 4, valid + 1, invalid);
        } else if 0x01 <= b0 <= 0x7f {
            lemma_detect_counts_bound(b, i + 1, valid, invalid);
        } else {
            lemma_detect_counts_bound(b, i + 1, valid, invalid + 1);
        }
    }
}

/// Whether `pattern` occurs in `text`.
fn find_found(text: &[u8], pattern: &[u8]) -> (r: bool)
    ensures
        r == occurs(text@, pattern@),
{
    match find_bytes(text, pattern) {
        Some(i) => {
            assert(occurs_at(text@, pattern@, i as int));
            true
        },
        None => false,
    }
}

impl Utility {
    /// Whether the EUC -> UTF-8 vector holds an entry at `index`.
    pub fn contains_euc_2(euc_2_to_utf8_vec: &Vec<[u8; 4]>, index: usize) -> (r: bool)
        requires
            index < euc_2_to_utf8_vec@.len(),
        ensures
            r == (euc_2_to_utf8_vec@[index as int]@ != seq![0u8, 0, 0, 0]),
    {
        let e = euc_2_to_utf8_vec[index];
        let r = !(e[0] == 0 && e[1] == 0 && e[2] == 0 && e[3] == 0);
        assert(r == (e@ != seq![0u8, 0, 0, 0])) by {
            if !r {
                assert(e@ =~= seq![0u8, 0, 0, 0]);
            }
        }
        r
    }

    /// Whether the UTF-8 -> EUC vector holds an entry at `index`.
    pub fn contains_utf8_3(utf8_3_to_euc_vec: &Vec<[u8; 3]>, index: usize) -> (r: bool)
        requires
            index < utf8_3_to_euc_vec@.len(),
        ensures
            r == (utf8_3_to_euc_vec@[index as int]@ != seq![0u8, 0, 0]),
    {
        let e = utf8_3_to_euc_vec[index];
        let r = !(e[0] == 0 && e[1] == 0 && e[2] == 0);
        assert(r == (e@ != seq![0u8, 0, 0])) by {
            if !r {
                assert(e@ =~= seq![0u8, 0, 0]);
            }
        }
        r
    }

    /// Guesses the encoding of a jisyo from its first bytes: see `spec_detect_encoding`.
    pub fn detect_encoding(buffer: &[u8]) -> (r: Result<(Encoding, EncodingOptions), SkkError>)
        requires
            buffer.len() >= 3,
            buffer.len() <= 0x7fff_ffff,
        ensures
            r == spec_detect_encoding(buffer@),
    {
        if buffer.len() > 3 && buffer[0] == 0xef && buffer[1] == 0xbb && buffer[2] == 0xbf {
            return Ok((Encoding::Utf8, EncodingOptions::Bom));
        }
        let mut i: usize = 0;
        let mut utf8_valid_count: i64 = 0;
        let mut utf8_invalid_count: i64 = 0;
        let n = buffer.len();
        while i < n - 3
            invariant
                n == buffer@.len(),
                3 <= n <= 0x7fff_ffff,
                0 <= utf8_valid_count,
                0 <= utf8_invalid_count,
                utf8_valid_count + utf8_invalid_count <= i,
                i <= n,
                detect_counts(buffer@, i as int, utf8_valid_count as int, utf8_invalid_count as int)
                    == detect_counts(buffer@, 0, 0, 0),
            decreases n - i,
        {
            let buffer_0 = buffer[i];
            let buffer_1 = buffer[i + 1];
            let buffer_2 = buffer[i + 2];
            let buffer_3 = buffer[i + 3];
            if buffer_0 >= 0xc2 && buffer_0 <= 0xdf && buffer_1 >= 0x80 && buffer_1 <= 0xbf {
                i += 2;
                utf8_valid_count += 1;
            } else if buffer_0 >= 0xe0 && buffer_0 <= 0xef && buffer_1 >= 0x80 && buffer_1 <= 0xbf
                && buffer_2 >= 0x80 && buffer_2 <= 0xbf {
                i += 3;
                utf8_valid_count += 1;
            } else if buffer_0 >= 0xf0 && buffer_0 <= 0xf7 && buffer_1 >= 0x80 && buffer_1 <= 0xbf
                && buffer_2 >= 0x80 && buffer_2 <= 0xbf && buffer_3 >= 0x80 && buffer_3 <= 0xbf {
                i += 4;
                utf8_valid_count += 1;
            } else if buffer_0 >= 0x01 && buffer_0 <= 0x7f {
                i += 1;
            } else {
                i += 1;
                utf8_invalid_count += 1;
            }
        }
        proof {
            lemma_detect_counts_bound(buffer@, 0, 0, 0);
        }
        let ambiguous_threshold = (n / 100) as i64;
        let diff = if utf8_valid_count >= utf8_invalid_count { utf8_valid_count - utf8_invalid_count } else { utf8_invalid_count - utf8_valid_count };
        if diff < ambiguous_threshold {
            let mark_euc: [u8; 12] = [0x63, 0x6f, 0x64, 0x69, 0x6e, 0x67, 0x3a, 0x20, 0x65, 0x75, 0x63, 0x2d];
            let mark_utf8: [u8; 13] = [0x63, 0x6f, 0x64, 0x69, 0x6e, 0x67, 0x3a, 0x20, 0x75, 0x74, 0x66, 0x2d, 0x38];
            assert(mark_euc@ =~= coding_euc());
            assert(mark_utf8@ =~= coding_utf8());
            if find_found(buffer, &mark_euc) {
                return Ok((Encoding::Euc, EncodingOptions::Plain));
            }
            if find_found(buffer, &mark_utf8) {
                return Ok((Encoding::Utf8, EncodingOptions::Plain));
            }
            let near_zero_threshold = if 1000 < n / 1000 { 1000 } else { (n / 1000) as i64 };
            if utf8_valid_count <= near_zero_threshold && utf8_invalid_count <= near_zero_threshold {
                return Ok((Encoding::Euc, EncodingOptions::Plain));
            }
        } else if utf8_valid_count > utf8_invalid_count {
            return Ok((Encoding::Utf8, EncodingOptions::Plain));
        } else {
            return Ok((Encoding::Euc, EncodingOptions::Plain));
        }
        Err(SkkError::Encoding)
    }

    /// Whether two bytes remain from `index` on.
    pub fn is_enough_2_bytes(buffer_length: usize, index: usize) -> (r: bool)
        ensures
            r == (index + 2 <= buffer_length),
    {
        buffer_length >= 2 && index <= buffer_length - 2
    }

    /// Whether three bytes remain from `index` on.
    pub fn is_enough_3_bytes(buffer_length: usize, index: usize) -> (r: bool)
        ensures
            r == (index + 3 <= buffer_length),
    {
        buffer_length >= 3 && index <= buffer_length - 3
    }

    /// Whether four bytes remain from `index` on.
    pub fn is_enough_4_bytes(buffer_length: usize, index: usize) -> (r: bool)
        ensures
            r == (index + 4 <= buffer_length),
    {
        buffer_length >= 4 && index <= buffer_length - 4
    }

    /// Whether six bytes remain from `index` on.
    pub fn is_enough_6_bytes(buffer_length: usize, index: usize) -> (r: bool)
        ensures
            r == (index + 6 <= buffer_length),
    {
        buffer_length >= 6 && index <= buffer_length - 6
    }
}

impl Decoder {
    /// The index of a 2-byte EUC character in the EUC -> UTF-8 vector; out of range gives 1.
    pub fn get_euc_2_to_utf8_vec_index(high: u8, low: u8) -> (r: usize)
        ensures
            r == spec_euc_2_index(high, low),
            r <= EUC_2_TO_UTF8_VEC_INDEX_MAXIMUM,
    {
        if low < 0xa1 || high < 0x8e {
            return EUC_2_TO_UTF8_VEC_INDEX_EMPTY;
        }
        let high = high - 0x8e;
        let low = low - 0xa1;
        let result = ((low as usize) << 8usize) | high as usize;
        if result > EUC_2_TO_UTF8_VEC_INDEX_MAXIMUM {
            return EUC_2_TO_UTF8_VEC_INDEX_EMPTY;
        }
        result
    }

    /// Appends the UTF-8 character stored in `utf8` (its length read from the first byte).
    pub fn push_to_buffer_utf8(utf8: &[u8], write_buffer: &mut Vec<u8>)
        requires
            utf8@.len() >= 4,
        ensures
            final(write_buffer)@ == old(write_buffer)@ + utf8_piece(utf8@),
    {
        if utf8[0] >= 0xf0 {
            crate::bytes::append_bytes(write_buffer, &utf8[0..4]);
        } else if utf8[0] >= 0xe0 {
            crate::bytes::append_bytes(write_buffer, &utf8[0..3]);
        } else if utf8[0] >= 0xc2 {
            crate::bytes::append_bytes(write_buffer, &utf8[0..2]);
        } else {
            write_buffer.push(utf8[0]);
            assert(utf8@.subrange(0, 1) =~= seq![utf8@[0]]);
        }
    }
}

impl Encoder {
    /// The index of a 3-byte UTF-8 character in the UTF-8 -> EUC vector; out of range gives 2.
    pub fn get_utf8_3_to_euc_vec_index(utf8: &[u8]) -> (r: usize)
        requires
            utf8@.len() >= 3,
        ensures
            r == spec_utf8_3_index(utf8@[0], utf8@[1], utf8@[2]),
            r <= UTF8_3_TO_EUC_VEC_INDEX_MAXIMUM,
    {
        if utf8[0] < 0xe0 || utf8[1] < 0x80 || utf8[2] < 0x80 {
            return UTF8_3_TO_EUC_VEC_INDEX_EMPTY;
        }
        let utf8_a = (utf8[0] - 0xe0) as usize;
        let utf8_b = (utf8[1] - 0x80) as usize;
        let utf8_c = (utf8[2] - 0x80) as usize;
        let mut raw_index = (utf8_a << 12usize) | (utf8_b << 6usize) | utf8_c;
        if raw_index > 0xdade {
            raw_index -= 0xdade - 0x8165;
        }
        if raw_index < UTF8_3_TO_EUC_VEC_INDEX_RAW_MINIMUM {
            return UTF8_3_TO_EUC_VEC_INDEX_EMPTY;
        }
        let result = raw_index - UTF8_3_TO_EUC_VEC_INDEX_RAW_MINIMUM;
        if result > UTF8_3_TO_EUC_VEC_INDEX_MAXIMUM {
            return UTF8_3_TO_EUC_VEC_INDEX_EMPTY;
        }
        result
    }

    /// Appends the EUC character stored in `euc` (its length read from the first byte).
    pub fn push_to_buffer_euc(euc: &[u8], write_buffer: &mut Vec<u8>)
        requires
            euc@.len() >= 3,
        ensures
            final(write_buffer)@ == old(write_buffer)@ + euc_piece(euc@),
    {
        if euc[0] == 0x8f {
            crate::bytes::append_bytes(write_buffer, &euc[0..3]);
        } else if euc[0] >= 0x80 {
            crate::bytes::append_bytes(write_buffer, &euc[0..2]);
        } else {
            write_buffer.push(euc[0]);
            assert(euc@.subrange(0, 1) =~= seq![euc@[0]]);
        }
    }

    /// Whether a 2-byte UTF-8 character (lead byte not checked) starts at `utf8_i`.
    pub fn is_utf8_2_bytes(utf8_buffer: &[u8], utf8_buffer_length: usize, utf8_i: usize) -> (r: bool)
        requires
            utf8_buffer_length == utf8_buffer@.len(),
        ensures
            r == (utf8_i + 2 <= utf8_buffer_length && is_cont(utf8_buffer@[utf8_i + 1])),
    {
        Utility::is_enough_2_bytes(utf8_buffer_length, utf8_i)
            && utf8_buffer[utf8_i + 1] >= 0x80
            && utf8_buffer[utf8_i + 1] <= 0xbf
    }

    /// Whether a 3-byte UTF-8 character (lead byte not checked) starts at `utf8_i`.
    pub fn is_utf8_3_bytes(utf8_buffer: &[u8], utf8_buffer_length: usize, utf8_i: usize) -> (r: bool)
        requires
            utf8_buffer_length == utf8_buffer@.len(),
        ensures
            r == (utf8_i + 3 <= utf8_buffer_length && is_cont(utf8_buffer@[utf8_i + 1])
                && is_cont(utf8_buffer@[utf8_i + 2])),
    {
        Utility::is_enough_3_bytes(utf8_buffer_length, utf8_i)
            && utf8_buffer[utf8_i + 1] >= 0x80
            && utf8_buffer[utf8_i + 1] <= 0xbf
            && utf8_buffer[utf8_i + 2] >= 0x80
            && utf8_buffer[utf8_i + 2] <= 0xbf
    }

    /// Whether a 4-byte UTF-8 character (lead byte not checked) starts at `utf8_i`.
    pub fn is_utf8_4_bytes(utf8_buffer: &[u8], utf8_buffer_length: usize, utf8_i: usize) -> (r: bool)
        requires
            utf8_buffer_length == utf8_buffer@.len(),
        ensures
            r == (utf8_i + 4 <= utf8_buffer_length && is_cont(utf8_buffer@[utf8_i + 1])
                && is_cont(utf8_buffer@[utf8_i + 2]) && is_cont(utf8_buffer@[utf8_i + 3])),
    {
        Utility::is_enough_4_bytes(utf8_buffer_length, utf8_i)
            && utf8_buffer[utf8_i + 1] >= 0x80
            && utf8_buffer[utf8_i + 1] <= 0xbf
            && utf8_buffer[utf8_i + 2] >= 0x80
            && utf8_buffer[utf8_i + 2] <= 0xbf
            && utf8_buffer[utf8_i + 3] >= 0x80
            && utf8_buffer[utf8_i + 3] <= 0xbf
    }

    /// Whether the two characters at `utf8_i` may form a combining pair of 2-byte characters.
    pub fn is_candidate_combine_utf8_4(utf8_buffer: &[u8], utf8_i: usize) -> (r: bool)
        requires
            utf8_i + 2 < utf8_buffer.len(),
        ensures
            r == (utf8_buffer@[utf8_i + 2] == 0xcc || utf8_buffer@[utf8_i + 2] == 0xcb),
    {
        utf8_buffer[utf8_i + 2] == 0xcc || utf8_buffer[utf8_i + 2] == 0xcb
    }

    /// Whether the two characters at `utf8_i` may form a combining pair of 3-byte characters.
    pub fn is_candidate_combine_utf8_6(utf8_buffer: &[u8], utf8_i: usize) -> (r: bool)
        requires
            utf8_i + 5 < utf8_buffer.len(),
        ensures
            r == (utf8_buffer@[utf8_i + 4] == 0x82 && utf8_buffer@[utf8_i + 5] == 0x9a),
    {
        utf8_buffer[utf8_i + 4] == 0x82 && utf8_buffer[utf8_i + 5] == 0x9a
    }
}

} // verus!
