//! Building the lookup structures from a convert table, and the convert table from the lines
//! of `euc-jis-2004-std.txt`.
use vstd::prelude::*;
use crate::bytes::{append_bytes, space_len, space_len_at};
use crate::encoding_simple::euc::{pack_bytes, pack_slice};
use crate::encoding_simple::{
    spec_euc_2_index, spec_utf8_3_index, Decoder, Encoder, EncodingTable,
    EUC_2_TO_UTF8_VEC_INDEX_MAXIMUM, UTF8_3_TO_EUC_VEC_INDEX_MAXIMUM,
};
use crate::error::SkkError;
use vstd::string::*;
use crate::outside::{fx_u64_table_contents, fx_u64_table_insert, fx_u64_table_new};

verus! {

pub const EUC_UTF8_COMBINE_UNIT_LENGTH: usize = 3 + 8;
pub const EUC_UTF8_UNIT_LENGTH: usize = 3 + 4;

/// The `u32` stored little-endian at `off`.
pub open spec fn le_u32(s: Seq<u8>, off: int) -> int {
    s[off] + 256 * s[off + 1] + 65536 * s[off + 2] + 16777216 * s[off + 3]
}

/// The header fields of a convert table: header length, number of combining units, number
/// of plain units.
pub open spec fn table_header_length(t: Seq<u8>) -> int { le_u32(t, 4) }
pub open spec fn table_combine_length(t: Seq<u8>) -> int { le_u32(t, 8) }
pub open spec fn table_unit_length(t: Seq<u8>) -> int { le_u32(t, 12) }

/// The header and every unit that it announces lie within `t`.
pub open spec fn table_well_sized(t: Seq<u8>) -> bool {
    &&& t.len() >= 16
    &&& table_header_length(t) + table_combine_length(t) * 11 + table_unit_length(t) * 7 <= t.len()
}

/// What the lookup structures hold.
pub struct TableModel {
    pub euc_2_to_utf8: Seq<Seq<u8>>,
    pub utf8_3_to_euc: Seq<Seq<u8>>,
    pub euc_3_to_utf8: Map<u64, u64>,
    pub utf8_2_4_to_euc: Map<u64, u64>,
    pub combine_euc_to_utf8: Map<u64, u64>,
    pub combine_utf8_4_to_euc: Map<u64, u64>,
    pub combine_utf8_6_to_euc: Map<u64, u64>,
}

impl EncodingTable {
    /// What the table holds.
    pub open spec fn model(&self) -> TableModel {
        TableModel {
            euc_2_to_utf8: self.euc_2_to_utf8_vec@.map_values(|a: [u8; 4]| a@),
            utf8_3_to_euc: self.utf8_3_to_euc_vec@.map_values(|a: [u8; 3]| a@),
            euc_3_to_utf8: fx_u64_table_contents(self.euc_3_to_utf8_map),
            utf8_2_4_to_euc: fx_u64_table_contents(self.utf8_2_4_to_euc_map),
            combine_euc_to_utf8: fx_u64_table_contents(self.combine_euc_to_utf8_map),
            combine_utf8_4_to_euc: fx_u64_table_contents(self.combine_utf8_4_to_euc_map),
            combine_utf8_6_to_euc: fx_u64_table_contents(self.combine_utf8_6_to_euc_map),
        }
    }
}

/// The offset of combining unit `k`.
pub open spec fn combine_offset(t: Seq<u8>, k: int) -> int {
    table_header_length(t) + k * 11
}

/// The offset of plain unit `k`.
pub open spec fn unit_offset(t: Seq<u8>, k: int) -> int {
    table_header_length(t) + table_combine_length(t) * 11 + k * 7
}

/// Whether combining unit `k` has a first UTF-8 byte that a combining pair can start with.
pub open spec fn combine_unit_ok(t: Seq<u8>, k: int) -> bool {
    let o = combine_offset(t, k);
    0xc2 <= t[o + 3] <= 0xef
}

/// The three combining maps after the first `n` combining units.
pub open spec fn combine_maps(t: Seq<u8>, n: nat) -> (Map<u64, u64>, Map<u64, u64>, Map<u64, u64>)
    decreases n,
{
    if n == 0 {
        (Map::empty(), Map::empty(), Map::empty())
    } else {
        let (e, c4, c6) = combine_maps(t, (n - 1) as nat);
        let o = combine_offset(t, n - 1);
        let euc = pack_bytes(t.subrange(o, o + 3));
        let e2 = e.insert(euc, pack_bytes(t.subrange(o + 3, o + 11)));
        if 0xc2 <= t[o + 3] <= 0xdf {
            (e2, c4.insert(pack_bytes(seq![t[o + 3], t[o + 4], t[o + 7], t[o + 8]]), euc), c6)
        } else {
            (e2, c4, c6.insert(pack_bytes(seq![t[o + 3], t[o + 4], t[o + 5], t[o + 7], t[o + 8], t[o + 9]]), euc))
        }
    }
}

/// The vectors and plain maps after the first `n` plain units.
pub open spec fn unit_tables(t: Seq<u8>, n: nat) -> (Seq<Seq<u8>>, Seq<Seq<u8>>, Map<u64, u64>, Map<u64, u64>)
    decreases n,
{
    if n == 0 {
        (Seq::new((EUC_2_TO_UTF8_VEC_INDEX_MAXIMUM + 1) as nat, |i: int| seq![0u8, 0, 0, 0]),
         Seq::new((UTF8_3_TO_EUC_VEC_INDEX_MAXIMUM + 1) as nat, |i: int| seq![0u8, 0, 0]),
         Map::empty(), Map::empty())
    } else {
        let (v2, v3, m3, m24) = unit_tables(t, (n - 1) as nat);
        let o = unit_offset(t, n - 1);
        let euc = t.subrange(o, o + 3);
        let utf8 = t.subrange(o + 3, o + 7);
        let (v2b, m3b) = if t[o] == 0x8f {
            (v2, m3.insert(pack_bytes(euc), pack_bytes(utf8)))
        } else if t[o] == 0x8e || t[o] >= 0xa0 {
            (v2.update(spec_euc_2_index(t[o], t[o + 1]) as int, utf8), m3)
        } else {
            (v2, m3)
        };
        let (v3b, m24b) = if t[o + 3] <= 0x7f {
            (v3, m24)
        } else if 0xe0 <= t[o + 3] <= 0xef {
            (v3.update(spec_utf8_3_index(utf8[0], utf8[1], utf8[2]) as int, euc), m24)
        } else {
            (v3, m24.insert(pack_bytes(utf8), pack_bytes(euc)))
        };
        (v2b, v3b, m3b, m24b)
    }
}

/// The lookup structures that a well-formed convert table describes.
pub open spec fn spec_table_model(t: Seq<u8>) -> TableModel {
    let (e, c4, c6) = combine_maps(t, table_combine_length(t) as nat);
    let (v2, v3, m3, m24) = unit_tables(t, table_unit_length(t) as nat);
    TableModel {
        euc_2_to_utf8: v2,
        utf8_3_to_euc: v3,
        euc_3_to_utf8: m3,
        utf8_2_4_to_euc: m24,
        combine_euc_to_utf8: e,
        combine_utf8_4_to_euc: c4,
        combine_utf8_6_to_euc: c6,
    }
}

/// Reads the `u32` stored little-endian at `off`.
pub fn read_le_u32(s: &[u8], off: usize) -> (r: u32)
    requires
        off + 4 <= s.len(),
    ensures
        r as int == le_u32(s@, off as int),
{
    (s[off] as u32) + 256 * (s[off + 1] as u32) + 65536 * (s[off + 2] as u32) + 16777216 * (s[off + 3] as u32)
}

/// The value of an ASCII hex digit, if `b` is one.
pub open spec fn hex_digit_value(b: u8) -> Option<nat> {
    if 0x30 <= b <= 0x39 {
        Some((b - 0x30) as nat)
    } else if 0x61 <= b <= 0x66 {
        Some((b - 0x57) as nat)
    } else if 0x41 <= b <= 0x46 {
        Some((b - 0x37) as nat)
    } else {
        None
    }
}

/// The value of a run of hex digits (none if any byte is not one).
pub open spec fn hex_digits_value(s: Seq<u8>) -> Option<nat>
    decreases s.len(),
{
    if s.len() == 0 {
        Some(0)
    } else {
        match (hex_digits_value(s.drop_last()), hex_digit_value(s.last())) {
            (Some(a), Some(d)) => Some(a * 16 + d),
            _ => None,
        }
    }
}

/// What `from_str_radix(s, 16)` accepts for an unsigned type: an optional `+`, then at
/// least one hex digit. (The callers never pass more digits than the type holds.)
pub open spec fn spec_parse_hex(s: Seq<u8>) -> Option<nat> {
    if s.len() == 0 {
        None
    } else if s[0] == 0x2b {
        if s.len() == 1 { None } else { hex_digits_value(s.subrange(1, s.len() as int)) }
    } else {
        hex_digits_value(s)
    }
}

/// Parses hex digits as `from_str_radix(s, 16)` does.
pub fn parse_hex(s: &[u8]) -> (r: Option<u32>)
    requires
        s.len() <= 6,
    ensures
        match r {
            Some(v) => spec_parse_hex(s@) == Some(v as nat),
            None => spec_parse_hex(s@) is None,
        },
{
    if s.len() == 0 {
        return None;
    }
    let start: usize = if s[0] == 0x2b { 1 } else { 0 };
    if start == 1 && s.len() == 1 {
        return None;
    }
    let mut v: u32 = 0;
    let mut i: usize = start;
    let ghost body = s@.subrange(start as int, s.len() as int);
    while i < s.len()
        invariant
            start <= i <= s.len(),
            s.len() <= 6,
            s.len() > 0,
            start == (if s@[0] == 0x2b { 1usize } else { 0usize }),
            start == 1 ==> s.len() > 1,
            body == s@.subrange(start as int, s.len() as int),
            hex_digits_value(s@.subrange(start as int, i as int)) == Some(v as nat),
            (v as nat) < pow16((i - start) as nat),
        decreases s.len() - i,
    {
        let b = s[i];
        let d: u32 = if b >= 0x30 && b <= 0x39 { (b - 0x30) as u32 } else if b >= 0x61 && b <= 0x66 { (b - 0x57) as u32 }
            else if b >= 0x41 && b <= 0x46 { (b - 0x37) as u32 } else {
                proof {
                    assert(s@.subrange(start as int, i + 1).drop_last() =~= s@.subrange(start as int, i as int));
                    assert(s@.subrange(start as int, i + 1) =~= body.subrange(0, i + 1 - start));
                    lemma_hex_digits_none_extends(s@.subrange(start as int, i + 1), body);
                    if start == 0 {
                        assert(body =~= s@);
                    }
                }
                return None;
            };
        proof {
            lemma_pow16_bound((i - start) as nat);
            assert(s@.subrange(start as int, i + 1).drop_last() =~= s@.subrange(start as int, i as int));
        }
        assert((v as nat) * 16 + 15 < pow16((i - start) as nat + 1)) by (nonlinear_arith)
            requires (v as nat) < pow16((i - start) as nat), pow16((i - start) as nat + 1) == 16 * pow16((i - start) as nat);
        v = v * 16 + d;
        i += 1;
    }
    proof {
        if start == 0 {
            assert(s@.subrange(0, s.len() as int) =~= s@);
        }
    }
    Some(v)
}

pub open spec fn pow16(e: nat) -> nat
    decreases e,
{
    if e == 0 { 1 } else { 16 * pow16((e - 1) as nat) }
}

proof fn lemma_pow16_bound(k: nat)
    requires
        k <= 6,
    ensures
        pow16(k + 1) <= 0x1000_0000,
        pow16(k + 1) == 16 * pow16(k),
{
    reveal_with_fuel(pow16, 8);
}

/// A run that has a non-digit in a prefix has no value.
proof fn lemma_hex_digits_none_extends(prefix: Seq<u8>, s: Seq<u8>)
    requires
        hex_digits_value(prefix) is None,
        prefix.len() <= s.len(),
        prefix == s.subrange(0, prefix.len() as int),
    ensures
        hex_digits_value(s) is None,
    decreases s.len(),
{
    if prefix.len() < s.len() {
        assert(s.drop_last().subrange(0, prefix.len() as int) =~= prefix);
        lemma_hex_digits_none_extends(prefix, s.drop_last());
    } else {
        assert(prefix =~= s);
    }
}

proof fn lemma_two_digits_small(s: Seq<u8>)
    requires
        s.len() == 2,
        spec_parse_hex(s) is Some,
    ensures
        spec_parse_hex(s)->0 < 256,
{
    assert(s.drop_last().drop_last() =~= Seq::<u8>::empty());
    assert(s.drop_last() =~= seq![s[0]]);
    if s[0] == 0x2b {
        assert(s.subrange(1, 2).drop_last() =~= Seq::<u8>::empty());
        assert(s.subrange(1, 2) =~= seq![s[1]]);
        assert(hex_digits_value(Seq::<u8>::empty()) == Some(0nat));
    } else {
        assert(hex_digits_value(Seq::<u8>::empty()) == Some(0nat));
        assert(hex_digits_value(seq![s[0]].drop_last()) == Some(0nat));
        let d0 = hex_digit_value(s[0]);
        assert(d0 is Some);
        assert(hex_digits_value(seq![s[0]]) == Some(d0->0));
    }
}

/// The UTF-8 encoding of a code point up to 0x1fffff (nothing beyond).
pub open spec fn spec_unicode_to_utf8(u: u32) -> Seq<u8> {
    if u <= 0x7f {
        seq![u as u8]
    } else if u <= 0x7ff {
        seq![((u / 64) % 32 + 0xc0) as u8, (u % 64 + 0x80) as u8]
    } else if u <= 0xffff {
        seq![((u / 4096) % 16 + 0xe0) as u8, ((u / 64) % 64 + 0x80) as u8, (u % 64 + 0x80) as u8]
    } else if u <= 0x1f_ffff {
        seq![((u / 262144) % 8 + 0xf0) as u8, ((u / 4096) % 64 + 0x80) as u8, ((u / 64) % 64 + 0x80) as u8,
            (u % 64 + 0x80) as u8]
    } else {
        Seq::<u8>::empty()
    }
}

/// `s` padded with zero bytes to length `n`.
pub open spec fn zero_padded(s: Seq<u8>, n: nat) -> Seq<u8> {
    s + Seq::new((n - s.len()) as nat, |i: int| 0u8)
}

/// The 3 bytes of an EUC code written `0xNN`, `0xNNNN` or `0xNNNNNN`, zero-padded.
pub open spec fn spec_euc_code_bytes(code: Seq<u8>) -> Result<Seq<u8>, SkkError> {
    let n = code.len();
    if n != 4 && n != 6 && n != 8 {
        Err(SkkError::Encoding)
    } else if exists|k: int| 0 <= k < (n - 2) / 2 && spec_parse_hex(#[trigger] code.subrange(2 + 2 * k, 4 + 2 * k)) is None {
        Err(SkkError::Parse)
    } else {
        Ok(Seq::new(3, |k: int| if k < (n - 2) / 2 { spec_parse_hex(code.subrange(2 + 2 * k, 4 + 2 * k))->0 as u8 } else { 0u8 }))
    }
}

/// The 8 bytes for a code point written `U+XXXX`, `U+XXXXX` or `U+XXXX+XXXX`, and whether it
/// is a combining pair. A code point whose digits do not parse leaves its bytes zero.
pub open spec fn spec_unicode_code_bytes(code: Seq<u8>) -> Result<(Seq<u8>, bool), SkkError> {
    let n = code.len();
    let zero4 = seq![0u8, 0, 0, 0];
    let enc = |o: Option<nat>| match o { Some(v) => zero_padded(spec_unicode_to_utf8(v as u32), 4), None => zero4 };
    if n == 6 {
        Ok((enc(spec_parse_hex(code.subrange(2, 6))) + zero4, false))
    } else if n == 7 {
        Ok((enc(spec_parse_hex(code.subrange(2, 7))) + zero4, false))
    } else if n == 11 {
        let first = spec_parse_hex(code.subrange(2, 6));
        let second = spec_parse_hex(code.subrange(7, 11));
        if first is Some && second is Some {
            Ok((enc(first) + enc(second), true))
        } else {
            Ok((enc(first) + zero4, false))
        }
    } else {
        Err(SkkError::Encoding)
    }
}

/// The end of the run of white space (`\s`, see `space_len`) that starts at `i`.
pub open spec fn ws_end(s: Seq<u8>, i: int) -> int
    decreases s.len() - i,
{
    if i < 0 || i >= s.len() || space_len(s, i) <= 0 { i } else { ws_end(s, i + space_len(s, i)) }
}

/// The end of the run of text without white space that starts at `i`.
pub open spec fn nonws_end(s: Seq<u8>, i: int) -> int
    decreases s.len() - i,
{
    if i < 0 || i >= s.len() || space_len(s, i) > 0 { i } else { nonws_end(s, i + 1) }
}

/// `^\s*#`: a comment line.
pub open spec fn is_comment_line(s: Seq<u8>) -> bool {
    let j = ws_end(s, 0);
    j < s.len() && s[j] == 0x23
}

/// `^([^\s]+)\s+([^\s]+)\s+#`: the two fields of a table line.
pub open spec fn line_fields(s: Seq<u8>) -> Option<(Seq<u8>, Seq<u8>)> {
    let e1 = nonws_end(s, 0);
    let w1 = ws_end(s, e1);
    let e2 = nonws_end(s, w1);
    let w2 = ws_end(s, e2);
    if e1 == 0 || w1 == e1 || e2 == w1 || w2 == e2 || w2 >= s.len() || s[w2] != 0x23 {
        None
    } else {
        Some((s.subrange(0, e1), s.subrange(w1, e2)))
    }
}

/// The combining units, the plain units and their counts, after the first `n` lines.
pub open spec fn table_units(lines: Seq<Seq<u8>>, n: nat) -> Result<(Seq<u8>, Seq<u8>, nat, nat), SkkError>
    decreases n,
{
    if n == 0 {
        Ok((Seq::<u8>::empty(), Seq::<u8>::empty(), 0, 0))
    } else {
        match table_units(lines, (n - 1) as nat) {
            Err(e) => Err(e),
            Ok((c, u, nc, nu)) => {
                let line = lines[n - 1];
                if is_comment_line(line) {
                    Ok((c, u, nc, nu))
                } else {
                    match line_fields(line) {
                        None => Ok((c, u, nc, nu)),
                        Some((euc, unicode)) => match spec_euc_code_bytes(euc) {
                            Err(e) => Err(e),
                            Ok(eb) => match spec_unicode_code_bytes(unicode) {
                                Err(e) => Err(e),
                                Ok((ub, combine)) => if combine {
                                    Ok((c + eb + ub, u, nc + 1, nu))
                                } else {
                                    Ok((c, u + eb + ub.subrange(0, 4), nc, nu + 1))
                                },
                            },
                        },
                    }
                }
            },
        }
    }
}

/// `v` as 4 little-endian bytes.
pub open spec fn le_bytes(v: nat) -> Seq<u8> {
    seq![(v % 256) as u8, ((v / 256) % 256) as u8, ((v / 65536) % 256) as u8, ((v / 16777216) % 256) as u8]
}

/// The convert table that the lines of `euc-jis-2004-std.txt` describe.
pub open spec fn spec_create_table(text: Seq<u8>) -> Result<Seq<u8>, SkkError> {
    let lines = crate::bytes::spec_split(text, 0x0a);
    match table_units(lines, lines.len()) {
        Err(e) => Err(e),
        Ok((c, u, nc, nu)) => Ok(le_bytes(1) + le_bytes(32) + le_bytes(nc) + le_bytes(nu)
            + Seq::new(16, |i: int| 0u8) + c + u),
    }
}

/// The lower-case hex digit of `d` (below 16).
pub open spec fn hex_lower(d: int) -> u8 {
    if d < 10 { (0x30 + d) as u8 } else { (0x57 + d) as u8 }
}

/// `0x`, the two lower-case hex digits of each byte of `s`, and `,`.
pub open spec fn hex_bytes_text(s: Seq<u8>) -> Seq<u8>
    decreases s.len(),
{
    if s.len() == 0 {
        Seq::<u8>::empty()
    } else {
        hex_bytes_text(s.drop_last()) + seq![0x30u8, 0x78u8, hex_lower((s.last() / 16) as int), hex_lower((s.last() % 16) as int), 0x2cu8]
    }
}

/// The bytes of `s` as hex text, `width` bytes to a line.
pub open spec fn hex_lines(s: Seq<u8>, width: nat) -> Seq<u8>
    decreases s.len(),
{
    if s.len() == 0 || width == 0 {
        Seq::<u8>::empty()
    } else {
        let k = if s.len() < width { s.len() as int } else { width as int };
        hex_bytes_text(s.subrange(0, k)) + seq![0x0au8] + hex_lines(s.subrange(k, s.len() as int), width)
    }
}

/// A header field as a line of hex text: its 4 little-endian bytes, then `comment`.
pub open spec fn header_line(v: nat, comment: Seq<u8>) -> Seq<u8> {
    hex_bytes_text(le_bytes(v)) + comment + seq![0x0au8]
}

/// The convert table that the lines of `euc-jis-2004-std.txt` describe, as Rust source text:
/// the header fields a line each, then the combining units and the plain units a line each,
/// every section under its comment.
pub open spec fn spec_create_src_table(text: Seq<u8>) -> Result<Seq<u8>, SkkError> {
    let lines = crate::bytes::spec_split(text, 0x0a);
    match table_units(lines, lines.len()) {
        Err(e) => Err(e),
        Ok((c, u, nc, nu)) => Ok("// header\n".spec_bytes()
            + header_line(1, "    // version".spec_bytes())
            + header_line(32, "    // header_length".spec_bytes())
            + header_line(nc, "    // euc_utf8_combine_length".spec_bytes())
            + header_line(nu, "    // euc_utf8_length".spec_bytes())
            + header_line(0, "    // reserved".spec_bytes())
            + header_line(0, "    // reserved".spec_bytes())
            + header_line(0, "    // reserved".spec_bytes())
            + header_line(0, "    // reserved".spec_bytes())
            + "// euc_utf8_combine\n// euc 3 bytes, utf8 4 bytes, utf8 4 bytes\n".spec_bytes()
            + hex_lines(c, 11)
            + "// euc_utf8\n// euc 3 bytes, utf8 4 bytes\n".spec_bytes()
            + hex_lines(u, 7)),
    }
}

fn hex_digit(d: u8) -> (r: u8)
    requires
        d < 16,
    ensures
        r == hex_lower(d as int),
{
    if d < 10 { 0x30 + d } else { 0x57 + d }
}

/// Appends the bytes of `s` as hex text: see `hex_bytes_text`.
fn push_hex_bytes(r: &mut Vec<u8>, s: &[u8])
    ensures
        final(r)@ == old(r)@ + hex_bytes_text(s@),
{
    let ghost start = r@;
    let mut i: usize = 0;
    assert(s@.subrange(0, 0) =~= Seq::<u8>::empty());
    assert(r@ =~= start + hex_bytes_text(s@.subrange(0, 0)));
    while i < s.len()
        invariant
            i <= s.len(),
            r@ == start + hex_bytes_text(s@.subrange(0, i as int)),
        decreases s.len() - i,
    {
        let b = s[i];
        r.push(0x30);
        r.push(0x78);
        r.push(hex_digit(b / 16));
        r.push(hex_digit(b % 16));
        r.push(0x2c);
        assert(s@.subrange(0, i + 1).drop_last() =~= s@.subrange(0, i as int));
        i += 1;
        assert(r@ =~= start + hex_bytes_text(s@.subrange(0, i as int)));
    }
    assert(s@.subrange(0, s.len() as int) =~= s@);
}

/// Appends a header field as a line of hex text: see `header_line`.
fn push_header_line(r: &mut Vec<u8>, v: u32, comment: &[u8])
    ensures
        final(r)@ == old(r)@ + header_line(v as nat, comment@),
{
    let mut b: Vec<u8> = Vec::new();
    push_le_u32(&mut b, v);
    assert(b@ =~= le_bytes(v as nat));
    push_hex_bytes(r, b.as_slice());
    append_bytes(r, comment);
    r.push(0x0a);
    assert(final(r)@ =~= old(r)@ + header_line(v as nat, comment@));
}

/// Appends the bytes of `s` as hex text, `width` bytes to a line: see `hex_lines`.
fn push_hex_lines(r: &mut Vec<u8>, s: &[u8], width: usize)
    requires
        width > 0,
    ensures
        final(r)@ == old(r)@ + hex_lines(s@, width as nat),
{
    let ghost start = r@;
    let mut i: usize = 0;
    assert(s@.subrange(0, s@.len() as int) =~= s@);
    assert(r@ + hex_lines(s@.subrange(0, s@.len() as int), width as nat) =~= start + hex_lines(s@, width as nat));
    while i < s.len()
        invariant
            i <= s.len(),
            width > 0,
            r@ + hex_lines(s@.subrange(i as int, s@.len() as int), width as nat) == start + hex_lines(s@, width as nat),
        decreases s.len() - i,
    {
        let rest = s.len() - i;
        let k = if rest < width { rest } else { width };
        let ghost tail = s@.subrange(i as int, s@.len() as int);
        assert(tail.subrange(0, k as int) =~= s@.subrange(i as int, (i + k) as int));
        assert(tail.subrange(k as int, tail.len() as int) =~= s@.subrange((i + k) as int, s@.len() as int));
        let ghost before = r@;
        push_hex_bytes(r, &s[i..i + k]);
        r.push(0x0a);
        let ghost line = hex_bytes_text(s@.subrange(i as int, (i + k) as int)) + seq![0x0au8];
        assert(r@ =~= before + line);
        i = i + k;
        assert(hex_lines(tail, width as nat) == line + hex_lines(s@.subrange(i as int, s@.len() as int), width as nat));
        assert(before + hex_lines(tail, width as nat) =~= r@ + hex_lines(s@.subrange(i as int, s@.len() as int), width as nat));
    }
    assert(s@.subrange(i as int, s@.len() as int) =~= Seq::<u8>::empty());
    assert(r@ + hex_lines(Seq::<u8>::empty(), width as nat) =~= r@);
}

fn ws_end_exec(s: &[u8], i: usize) -> (r: usize)
    requires
        i <= s.len(),
    ensures
        r as int == ws_end(s@, i as int),
        i <= r <= s.len(),
{
    let mut j: usize = i;
    while j < s.len() && space_len_at(s, j) > 0
        invariant
            i <= j <= s.len(),
            ws_end(s@, i as int) == ws_end(s@, j as int),
        decreases s.len() - j,
    {
        j += space_len_at(s, j);
    }
    j
}

fn nonws_end_exec(s: &[u8], i: usize) -> (r: usize)
    requires
        i <= s.len(),
    ensures
        r as int == nonws_end(s@, i as int),
        i <= r <= s.len(),
{
    let mut j: usize = i;
    while j < s.len() && space_len_at(s, j) == 0
        invariant
            i <= j <= s.len(),
            nonws_end(s@, i as int) == nonws_end(s@, j as int),
        decreases s.len() - j,
    {
        j += 1;
    }
    j
}

/// Appends `v` as 4 little-endian bytes.
pub fn push_le_u32(r: &mut Vec<u8>, v: u32)
    ensures
        final(r)@ == old(r)@ + le_bytes(v as nat),
{
    r.push((v % 256) as u8);
    r.push(((v / 256) % 256) as u8);
    r.push(((v / 65536) % 256) as u8);
    r.push(((v / 16777216) % 256) as u8);
    assert(final(r)@ =~= old(r)@ + le_bytes(v as nat));
}

proof fn lemma_table_units_err_stays(lines: Seq<Seq<u8>>, n: nat, m: nat)
    requires
        n <= m,
        table_units(lines, n) is Err,
    ensures
        table_units(lines, m) == table_units(lines, n),
    decreases m - n,
{
    if n < m {
        lemma_table_units_err_stays(lines, n, (m - 1) as nat);
    }
}

proof fn lemma_split_count(s: Seq<u8>, sep: u8)
    ensures
        crate::bytes::spec_split(s, sep).len() <= s.len() + 1,
    decreases s.len(),
{
    if s.len() > 0 {
        lemma_split_count(s.drop_last(), sep);
        crate::bytes::lemma_split_len(s.drop_last(), sep);
    }
}

impl EncodingTable {
    /// Whether `encoding_table` is large enough for its header and the units it announces.
    pub fn is_well_sized(encoding_table: &[u8]) -> (r: bool)
        ensures
            r == table_well_sized(encoding_table@),
    {
        if encoding_table.len() < 16 {
            return false;
        }
        let header_length = read_le_u32(encoding_table, 4) as u64;
        let combine_length = read_le_u32(encoding_table, 8) as u64;
        let unit_length = read_le_u32(encoding_table, 12) as u64;
        header_length + combine_length * 11 + unit_length * 7 <= encoding_table.len() as u64
    }

    /// The UTF-8 bytes of a code point (none beyond 0x1fffff).
    pub fn convert_unicode_to_utf8(unicode: u32) -> (r: Vec<u8>)
        ensures
            r@ == spec_unicode_to_utf8(unicode),
    {
        let mut r: Vec<u8> = Vec::new();
        if unicode <= 0x7f {
            r.push(unicode as u8);
        } else if unicode <= 0x7ff {
            r.push(((unicode / 64) % 32 + 0xc0) as u8);
            r.push((unicode % 64 + 0x80) as u8);
        } else if unicode <= 0xffff {
            r.push(((unicode / 4096) % 16 + 0xe0) as u8);
            r.push(((unicode / 64) % 64 + 0x80) as u8);
            r.push((unicode % 64 + 0x80) as u8);
        } else if unicode <= 0x1f_ffff {
            r.push(((unicode / 262144) % 8 + 0xf0) as u8);
            r.push(((unicode / 4096) % 64 + 0x80) as u8);
            r.push(((unicode / 64) % 64 + 0x80) as u8);
            r.push((unicode % 64 + 0x80) as u8);
        }
        assert(r@ =~= spec_unicode_to_utf8(unicode));
        r
    }

    /// The UTF-8 of the code point written in `digits`, zero-padded to 4 bytes; 4 zero bytes
    /// where the digits do not parse.
    fn unicode_digits_to_utf8_4(digits: &[u8]) -> (r: Vec<u8>)
        requires
            digits.len() <= 5,
        ensures
            r@ == (match spec_parse_hex(digits@) {
                Some(v) => zero_padded(spec_unicode_to_utf8(v as u32), 4),
                None => seq![0u8, 0, 0, 0],
            }),
    {
        let mut r: Vec<u8> = Vec::new();
        if let Some(v) = parse_hex(digits) {
            r = Self::convert_unicode_to_utf8(v);
        }
        let ghost enc = r@;
        assert(enc.len() <= 4);
        while r.len() < 4
            invariant
                enc.len() <= r@.len() <= 4,
                r@.subrange(0, enc.len() as int) == enc,
                forall|i: int| enc.len() <= i < r@.len() ==> r@[i] == 0,
            decreases 4 - r@.len(),
        {
            r.push(0);
        }
        assert(r@ =~= zero_padded(enc, 4));
        proof {
            if spec_parse_hex(digits@) is None {
                assert(r@ =~= seq![0u8, 0, 0, 0]);
            }
        }
        r
    }

    /// The 8 bytes for `U+XXXX`, `U+XXXXX` or `U+XXXX+XXXX`: see `spec_unicode_code_bytes`.
    pub fn convert_unicode_code_to_utf8_8_bytes(unicode_code: &[u8], is_combine: &mut bool) -> (r: Result<Vec<u8>, SkkError>)
        ensures
            match spec_unicode_code_bytes(unicode_code@) {
                Ok((bytes, combine)) => r matches Ok(v) && v@ == bytes && *final(is_combine) == (combine || *old(is_combine)),
                Err(e) => r == Err::<Vec<u8>, SkkError>(e) && *final(is_combine) == *old(is_combine),
            },
    {
        let n = unicode_code.len();
        if n == 6 || n == 7 {
            let mut r = Self::unicode_digits_to_utf8_4(&unicode_code[2..n]);
            let z = Self::unicode_digits_to_utf8_4(&[0x7au8]);
            append_bytes(&mut r, z.as_slice());
            proof {
                assert(spec_parse_hex(seq![0x7au8]) is None) by {
                    assert([0x7au8]@ =~= seq![0x7au8]);
                    assert(seq![0x7au8].drop_last() =~= Seq::<u8>::empty());
                }
                assert([0x7au8]@ =~= seq![0x7au8]);
            }
            Ok(r)
        } else if n == 11 {
            let first = parse_hex(&unicode_code[2..6]);
            let second = parse_hex(&unicode_code[7..11]);
            let mut r = Self::unicode_digits_to_utf8_4(&unicode_code[2..6]);
            if first.is_some() && second.is_some() {
                let r2 = Self::unicode_digits_to_utf8_4(&unicode_code[7..11]);
                append_bytes(&mut r, r2.as_slice());
                *is_combine = true;
            } else {
                let mut k: usize = 0;
                let ghost h = r@;
                while k < 4
                    invariant
                        0 <= k <= 4,
                        r@ == h + Seq::new(k as nat, |i: int| 0u8),
                    decreases 4 - k,
                {
                    r.push(0);
                    k += 1;
                    assert(r@ =~= h + Seq::new(k as nat, |i: int| 0u8));
                }
                assert(Seq::new(4, |i: int| 0u8) =~= seq![0u8, 0, 0, 0]);
            }
            Ok(r)
        } else {
            Err(SkkError::Encoding)
        }
    }

    /// The 3 bytes of `0xNN`, `0xNNNN` or `0xNNNNNN`: see `spec_euc_code_bytes`.
    pub fn convert_euc_code_to_euc_3_bytes(euc_code: &[u8]) -> (r: Result<Vec<u8>, SkkError>)
        ensures
            match spec_euc_code_bytes(euc_code@) {
                Ok(bytes) => r matches Ok(v) && v@ == bytes,
                Err(e) => r == Err::<Vec<u8>, SkkError>(e),
            },
    {
        let n = euc_code.len();
        if n != 4 && n != 6 && n != 8 {
            return Err(SkkError::Encoding);
        }
        let pairs = (n - 2) / 2;
        let mut r: Vec<u8> = Vec::new();
        let mut k: usize = 0;
        while k < 3
            invariant
                n == euc_code@.len(),
                n == 4 || n == 6 || n == 8,
                pairs == (n - 2) / 2,
                0 <= k <= 3,
                r@.len() == k,
                forall|j: int| 0 <= j < k && j < pairs ==> spec_parse_hex(#[trigger] euc_code@.subrange(2 + 2 * j, 4 + 2 * j)) is Some,
                forall|j: int| 0 <= j < k ==> r@[j] == (if j < pairs { spec_parse_hex(euc_code@.subrange(2 + 2 * j, 4 + 2 * j))->0 as u8 } else { 0u8 }),
            decreases 3 - k,
        {
            if k < pairs {
                match parse_hex(&euc_code[2 + 2 * k..4 + 2 * k]) {
                    Some(v) => {
                        assert(v < 256) by {
                            lemma_two_digits_small(euc_code@.subrange(2 + 2 * k, 4 + 2 * k));
                        }
                        r.push(v as u8);
                    },
                    None => {
                        return Err(SkkError::Parse);
                    },
                }
            } else {
                r.push(0);
            }
            k += 1;
        }
        assert(r@ =~= Seq::new(3, |j: int| if j < pairs { spec_parse_hex(euc_code@.subrange(2 + 2 * j, 4 + 2 * j))->0 as u8 } else { 0u8 }));
        Ok(r)
    }

    /// The combining units, the plain units and their counts that the lines of
    /// `euc-jis-2004-std.txt` describe: see `table_units`.
    fn collect_table_units(text: &[u8]) -> (r: Result<(Vec<u8>, Vec<u8>, u32, u32), SkkError>)
        requires
            text.len() < 0xffff_ffff,
        ensures
            match table_units(crate::bytes::spec_split(text@, 0x0a), crate::bytes::spec_split(text@, 0x0a).len()) {
                Ok((c, u, nc, nu)) => r matches Ok((cv, uv, a, b)) && cv@ == c && uv@ == u && a == nc && b == nu,
                Err(e) => r == Err::<(Vec<u8>, Vec<u8>, u32, u32), SkkError>(e),
            },
    {
        let lines = crate::bytes::split_bytes(text, 0x0a);
        let ghost ls = crate::bytes::vv(lines@);
        proof {
            lemma_split_count(text@, 0x0a);
        }
        let mut combine_table: Vec<u8> = Vec::new();
        let mut table: Vec<u8> = Vec::new();
        let mut combine_length: u32 = 0;
        let mut length: u32 = 0;
        let mut k: usize = 0;
        while k < lines.len()
            invariant
                ls == crate::bytes::vv(lines@),
                ls == crate::bytes::spec_split(text@, 0x0a),
                lines.len() <= text.len() + 1,
                text.len() < 0xffff_ffff,
                0 <= k <= lines.len(),
                combine_length as int + length as int <= k,
                table_units(ls, k as nat) == Ok::<(Seq<u8>, Seq<u8>, nat, nat), SkkError>((combine_table@, table@, combine_length as nat, length as nat)),
            decreases lines.len() - k,
        {
            let line = lines[k].as_slice();
            assert(line@ == ls[k as int]);
            let j = ws_end_exec(line, 0);
            if j < line.len() && line[j] == 0x23 {
                k += 1;
                continue;
            }
            let e1 = nonws_end_exec(line, 0);
            let w1 = ws_end_exec(line, e1);
            let e2 = nonws_end_exec(line, w1);
            let w2 = ws_end_exec(line, e2);
            if e1 == 0 || w1 == e1 || e2 == w1 || w2 == e2 || w2 >= line.len() || line[w2] != 0x23 {
                k += 1;
                continue;
            }
            let euc_3 = match Self::convert_euc_code_to_euc_3_bytes(&line[0..e1]) {
                Ok(v) => v,
                Err(e) => {
                    proof { lemma_table_units_err_stays(ls, (k + 1) as nat, ls.len()); }
                    return Err(e);
                },
            };
            let mut is_combine = false;
            let utf8_8 = match Self::convert_unicode_code_to_utf8_8_bytes(&line[w1..e2], &mut is_combine) {
                Ok(v) => v,
                Err(e) => {
                    proof { lemma_table_units_err_stays(ls, (k + 1) as nat, ls.len()); }
                    return Err(e);
                },
            };
            if is_combine {
                combine_length += 1;
                append_bytes(&mut combine_table, euc_3.as_slice());
                append_bytes(&mut combine_table, utf8_8.as_slice());
            } else {
                length += 1;
                append_bytes(&mut table, euc_3.as_slice());
                append_bytes(&mut table, &utf8_8.as_slice()[0..4]);
            }
            k += 1;
        }
        assert(crate::bytes::vv(lines@).len() == lines.len());
        Ok((combine_table, table, combine_length, length))
    }

    /// Builds a convert table from the lines of `euc-jis-2004-std.txt`: see
    /// `spec_create_table`.
    pub fn create_table(text: &[u8]) -> (r: Result<Vec<u8>, SkkError>)
        requires
            text.len() < 0xffff_ffff,
        ensures
            match spec_create_table(text@) {
                Ok(bytes) => r matches Ok(v) && v@ == bytes,
                Err(e) => r == Err::<Vec<u8>, SkkError>(e),
            },
    {
        let (combine_table, table, combine_length, length) = match Self::collect_table_units(text) {
            Ok(units) => units,
            Err(e) => return Err(e),
        };
        let mut result: Vec<u8> = Vec::new();
        push_le_u32(&mut result, 1);
        push_le_u32(&mut result, 32);
        push_le_u32(&mut result, combine_length);
        push_le_u32(&mut result, length);
        let mut z: usize = 0;
        let ghost h = result@;
        while z < 16
            invariant
                0 <= z <= 16,
                result@ == h + Seq::new(z as nat, |i: int| 0u8),
            decreases 16 - z,
        {
            result.push(0);
            z += 1;
            assert(result@ =~= h + Seq::new(z as nat, |i: int| 0u8));
        }
        append_bytes(&mut result, combine_table.as_slice());
        append_bytes(&mut result, table.as_slice());
        Ok(result)
    }

    /// Writes the convert table that the lines of `euc-jis-2004-std.txt` describe as Rust
    /// source text: see `spec_create_src_table`.
    pub fn create_src_table(text: &[u8]) -> (r: Result<Vec<u8>, SkkError>)
        requires
            text.len() < 0xffff_ffff,
        ensures
            match spec_create_src_table(text@) {
                Ok(bytes) => r matches Ok(v) && v@ == bytes,
                Err(e) => r == Err::<Vec<u8>, SkkError>(e),
            },
    {
        let (combine_table, table, combine_length, length) = match Self::collect_table_units(text) {
            Ok(units) => units,
            Err(e) => return Err(e),
        };
        let zero: [u8; 4] = [0, 0, 0, 0];
        let mut result: Vec<u8> = Vec::new();
        append_bytes(&mut result, "// header\n".as_bytes());
        push_header_line(&mut result, 1, "    // version".as_bytes());
        push_header_line(&mut result, 32, "    // header_length".as_bytes());
        push_header_line(&mut result, combine_length, "    // euc_utf8_combine_length".as_bytes());
        push_header_line(&mut result, length, "    // euc_utf8_length".as_bytes());
        push_header_line(&mut result, 0, "    // reserved".as_bytes());
        push_header_line(&mut result, 0, "    // reserved".as_bytes());
        push_header_line(&mut result, 0, "    // reserved".as_bytes());
        push_header_line(&mut result, 0, "    // reserved".as_bytes());
        append_bytes(&mut result, "// euc_utf8_combine\n// euc 3 bytes, utf8 4 bytes, utf8 4 bytes\n".as_bytes());
        push_hex_lines(&mut result, combine_table.as_slice(), EUC_UTF8_COMBINE_UNIT_LENGTH);
        append_bytes(&mut result, "// euc_utf8\n// euc 3 bytes, utf8 4 bytes\n".as_bytes());
        push_hex_lines(&mut result, table.as_slice(), EUC_UTF8_UNIT_LENGTH);
        Ok(result)
    }

    /// Builds the lookup structures from a convert table. Fails with `Encoding` where a
    /// combining unit starts with a byte that no combining pair starts with.
    pub fn setup(encoding_table: &[u8]) -> (r: Result<EncodingTable, SkkError>)
        requires
            table_well_sized(encoding_table@),
        ensures
            match r {
                Ok(table) => table.wf() && table.model() == spec_table_model(encoding_table@),
                Err(e) => e == SkkError::Encoding
                    && exists|k: int| 0 <= k < table_combine_length(encoding_table@) && !combine_unit_ok(encoding_table@, k),
            },
            r is Ok <==> forall|k: int| 0 <= k < table_combine_length(encoding_table@) ==> combine_unit_ok(encoding_table@, k),
    {
        let header_length = read_le_u32(encoding_table, 4) as usize;
        let header_euc_utf8_combine_length = read_le_u32(encoding_table, 8) as usize;
        let header_euc_utf8_length = read_le_u32(encoding_table, 12) as usize;
        let (combine_euc_to_utf8_map, combine_utf8_4_to_euc_map, combine_utf8_6_to_euc_map) =
            match Self::setup_combine_map(encoding_table, header_length, header_euc_utf8_combine_length) {
                Ok(maps) => maps,
                Err(e) => return Err(e),
            };
        let (euc_2_to_utf8_vec, utf8_3_to_euc_vec, euc_3_to_utf8_map, utf8_2_4_to_euc_map) = Self::setup_map(
            encoding_table,
            header_length,
            header_euc_utf8_length,
            header_euc_utf8_combine_length,
        );
        let table = EncodingTable {
            euc_2_to_utf8_vec,
            utf8_3_to_euc_vec,
            euc_3_to_utf8_map,
            utf8_2_4_to_euc_map,
            combine_euc_to_utf8_map,
            combine_utf8_4_to_euc_map,
            combine_utf8_6_to_euc_map,
        };
        assert(table.model() =~= spec_table_model(encoding_table@));
        Ok(table)
    }

    fn setup_combine_map(
        encoding_table: &[u8],
        header_length: usize,
        header_euc_utf8_combine_length: usize,
    ) -> (r: Result<(crate::outside::FxU64Table, crate::outside::FxU64Table, crate::outside::FxU64Table), SkkError>)
        requires
            table_well_sized(encoding_table@),
            header_length == table_header_length(encoding_table@),
            header_euc_utf8_combine_length == table_combine_length(encoding_table@),
        ensures
            match r {
                Ok((e, c4, c6)) => (fx_u64_table_contents(e), fx_u64_table_contents(c4), fx_u64_table_contents(c6))
                    == combine_maps(encoding_table@, header_euc_utf8_combine_length as nat)
                    && forall|k: int| 0 <= k < header_euc_utf8_combine_length ==> combine_unit_ok(encoding_table@, k),
                Err(e) => e == SkkError::Encoding
                    && exists|k: int| 0 <= k < header_euc_utf8_combine_length && !combine_unit_ok(encoding_table@, k),
            },
    {
        let ghost t = encoding_table@;
        let len = encoding_table.len();
        let mut combine_euc_to_utf8_map = fx_u64_table_new();
        let mut combine_utf8_4_to_euc_map = fx_u64_table_new();
        let mut combine_utf8_6_to_euc_map = fx_u64_table_new();
        let mut offset = header_length;
        let mut k: usize = 0;
        assert(fx_u64_table_contents(combine_euc_to_utf8_map) =~= Map::empty());
        assert(fx_u64_table_contents(combine_utf8_4_to_euc_map) =~= Map::empty());
        assert(fx_u64_table_contents(combine_utf8_6_to_euc_map) =~= Map::empty());
        while k < header_euc_utf8_combine_length
            invariant
                table_well_sized(t),
                t == encoding_table@,
                len == t.len(),
                header_length == table_header_length(t),
                header_euc_utf8_combine_length == table_combine_length(t),
                0 <= k <= header_euc_utf8_combine_length,
                offset == combine_offset(t, k as int),
                (fx_u64_table_contents(combine_euc_to_utf8_map), fx_u64_table_contents(combine_utf8_4_to_euc_map),
                    fx_u64_table_contents(combine_utf8_6_to_euc_map)) == combine_maps(t, k as nat),
                forall|j: int| 0 <= j < k ==> combine_unit_ok(t, j),
            decreases header_euc_utf8_combine_length - k,
        {
            let euc = pack_slice(encoding_table, offset, 3);
            let value = pack_slice(encoding_table, offset + 3, 8);
            fx_u64_table_insert(&mut combine_euc_to_utf8_map, euc, value);
            let lead = encoding_table[offset + 3];
            if lead >= 0xc2 && lead <= 0xdf {
                let key: [u8; 4] = [encoding_table[offset + 3], encoding_table[offset + 4], encoding_table[offset + 3 + 4], encoding_table[offset + 4 + 4]];
                let packed = pack_slice(&key, 0, 4);
                assert(key@.subrange(0, 4) =~= seq![t[offset + 3], t[offset + 4], t[offset + 7], t[offset + 8]]);
                fx_u64_table_insert(&mut combine_utf8_4_to_euc_map, packed, euc);
            } else if lead >= 0xe0 && lead <= 0xef {
                let key: [u8; 6] = [encoding_table[offset + 3], encoding_table[offset + 4], encoding_table[offset + 5],
                    encoding_table[offset + 3 + 4], encoding_table[offset + 4 + 4], encoding_table[offset + 5 + 4]];
                let packed = pack_slice(&key, 0, 6);
                assert(key@.subrange(0, 6) =~= seq![t[offset + 3], t[offset + 4], t[offset + 5], t[offset + 7], t[offset + 8], t[offset + 9]]);
                fx_u64_table_insert(&mut combine_utf8_6_to_euc_map, packed, euc);
            } else {
                assert(!combine_unit_ok(t, k as int));
                return Err(SkkError::Encoding);
            }
            offset += EUC_UTF8_COMBINE_UNIT_LENGTH;
            k += 1;
        }
        Ok((combine_euc_to_utf8_map, combine_utf8_4_to_euc_map, combine_utf8_6_to_euc_map))
    }

    fn setup_map(
        encoding_table: &[u8],
        header_length: usize,
        header_euc_utf8_length: usize,
        header_euc_utf8_combine_length: usize,
    ) -> (r: (Vec<[u8; 4]>, Vec<[u8; 3]>, crate::outside::FxU64Table, crate::outside::FxU64Table))
        requires
            table_well_sized(encoding_table@),
            header_length == table_header_length(encoding_table@),
            header_euc_utf8_combine_length == table_combine_length(encoding_table@),
            header_euc_utf8_length == table_unit_length(encoding_table@),
        ensures
            (r.0@.map_values(|a: [u8; 4]| a@), r.1@.map_values(|a: [u8; 3]| a@), fx_u64_table_contents(r.2),
                fx_u64_table_contents(r.3)) == unit_tables(encoding_table@, header_euc_utf8_length as nat),
            r.0@.len() == EUC_2_TO_UTF8_VEC_INDEX_MAXIMUM + 1,
            r.1@.len() == UTF8_3_TO_EUC_VEC_INDEX_MAXIMUM + 1,
    {
        let ghost t = encoding_table@;
        let len = encoding_table.len();
        assert(header_length + header_euc_utf8_combine_length * 11 <= len);
        let mut offset = header_length + header_euc_utf8_combine_length * EUC_UTF8_COMBINE_UNIT_LENGTH;
        let mut euc_2_to_utf8_vec: Vec<[u8; 4]> = Vec::new();
        while euc_2_to_utf8_vec.len() < EUC_2_TO_UTF8_VEC_INDEX_MAXIMUM + 1
            invariant
                euc_2_to_utf8_vec@.len() <= EUC_2_TO_UTF8_VEC_INDEX_MAXIMUM + 1,
                forall|i: int| 0 <= i < euc_2_to_utf8_vec@.len() ==> euc_2_to_utf8_vec@[i]@ == seq![0u8, 0, 0, 0],
            decreases EUC_2_TO_UTF8_VEC_INDEX_MAXIMUM + 1 - euc_2_to_utf8_vec@.len(),
        {
            let z: [u8; 4] = [0, 0, 0, 0];
            assert(z@ =~= seq![0u8, 0, 0, 0]);
            euc_2_to_utf8_vec.push(z);
        }
        let mut utf8_3_to_euc_vec: Vec<[u8; 3]> = Vec::new();
        while utf8_3_to_euc_vec.len() < UTF8_3_TO_EUC_VEC_INDEX_MAXIMUM + 1
            invariant
                utf8_3_to_euc_vec@.len() <= UTF8_3_TO_EUC_VEC_INDEX_MAXIMUM + 1,
                forall|i: int| 0 <= i < utf8_3_to_euc_vec@.len() ==> utf8_3_to_euc_vec@[i]@ == seq![0u8, 0, 0],
            decreases UTF8_3_TO_EUC_VEC_INDEX_MAXIMUM + 1 - utf8_3_to_euc_vec@.len(),
        {
            let z: [u8; 3] = [0, 0, 0];
            assert(z@ =~= seq![0u8, 0, 0]);
            utf8_3_to_euc_vec.push(z);
        }
        let mut euc_3_to_utf8_map = fx_u64_table_new();
        let mut utf8_2_4_to_euc_map = fx_u64_table_new();
        proof {
            let (v2, v3, m3, m24) = unit_tables(t, 0);
            assert(euc_2_to_utf8_vec@.map_values(|a: [u8; 4]| a@) =~= v2);
            assert(utf8_3_to_euc_vec@.map_values(|a: [u8; 3]| a@) =~= v3);
            assert(fx_u64_table_contents(euc_3_to_utf8_map) =~= m3);
            assert(fx_u64_table_contents(utf8_2_4_to_euc_map) =~= m24);
        }
        let mut k: usize = 0;
        while k < header_euc_utf8_length
            invariant
                table_well_sized(t),
                t == encoding_table@,
                len == t.len(),
                header_length == table_header_length(t),
                header_euc_utf8_combine_length == table_combine_length(t),
                header_euc_utf8_length == table_unit_length(t),
                0 <= k <= header_euc_utf8_length,
                offset == unit_offset(t, k as int),
                euc_2_to_utf8_vec@.len() == EUC_2_TO_UTF8_VEC_INDEX_MAXIMUM + 1,
                utf8_3_to_euc_vec@.len() == UTF8_3_TO_EUC_VEC_INDEX_MAXIMUM + 1,
                (euc_2_to_utf8_vec@.map_values(|a: [u8; 4]| a@), utf8_3_to_euc_vec@.map_values(|a: [u8; 3]| a@),
                    fx_u64_table_contents(euc_3_to_utf8_map), fx_u64_table_contents(utf8_2_4_to_euc_map))
                    == unit_tables(t, k as nat),
            decreases header_euc_utf8_length - k,
        {
            let ghost prev2 = euc_2_to_utf8_vec@;
            let ghost prev3 = utf8_3_to_euc_vec@;
            let b0 = encoding_table[offset];
            let euc_3: [u8; 3] = [encoding_table[offset], encoding_table[offset + 1], encoding_table[offset + 2]];
            let utf8: [u8; 4] = [encoding_table[offset + 3], encoding_table[offset + 4], encoding_table[offset + 5], encoding_table[offset + 6]];
            assert(euc_3@ =~= t.subrange(offset as int, offset + 3));
            assert(utf8@ =~= t.subrange(offset + 3, offset + 7));
            if b0 == 0x8f {
                let key = pack_slice(encoding_table, offset, 3);
                let value = pack_slice(encoding_table, offset + 3, 4);
                fx_u64_table_insert(&mut euc_3_to_utf8_map, key, value);
            } else if b0 == 0x8e || b0 >= 0xa0 {
                let index = Decoder::get_euc_2_to_utf8_vec_index(b0, encoding_table[offset + 1]);
                euc_2_to_utf8_vec.set(index, utf8);
                assert(euc_2_to_utf8_vec@.map_values(|a: [u8; 4]| a@) =~= prev2.map_values(|a: [u8; 4]| a@).update(index as int, utf8@));
            }
            let u0 = utf8[0];
            if u0 <= 0x7f {
            } else if u0 >= 0xe0 && u0 <= 0xef {
                let index = Encoder::get_utf8_3_to_euc_vec_index(&utf8);
                utf8_3_to_euc_vec.set(index, euc_3);
                assert(utf8_3_to_euc_vec@.map_values(|a: [u8; 3]| a@) =~= prev3.map_values(|a: [u8; 3]| a@).update(index as int, euc_3@));
            } else {
                let key = pack_slice(encoding_table, offset + 3, 4);
                let value = pack_slice(encoding_table, offset, 3);
                fx_u64_table_insert(&mut utf8_2_4_to_euc_map, key, value);
            }
            offset += EUC_UTF8_UNIT_LENGTH;
            k += 1;
        }
        (euc_2_to_utf8_vec, utf8_3_to_euc_vec, euc_3_to_utf8_map, utf8_2_4_to_euc_map)
    }
}

} // verus!
