//! EUC <-> UTF-8 conversion with an `EncodingTable`.
use vstd::prelude::*;
use crate::encoding_simple::{
    euc_piece, hex_ref, is_cont, push_hex_ref, spec_euc_2_index, spec_utf8_3_index, utf8_piece,
    Decoder, Encoder, EncodingTable, Euc, Utility,
};
use crate::error::SkkError;
use crate::outside::{fx_u64_table_contents, fx_u64_table_get, FxU64Table};

verus! {

/// Bytes packed big-endian into a number, as the table maps key and store them.
pub open spec fn pack_bytes(s: Seq<u8>) -> u64
    decreases s.len(),
{
    if s.len() == 0 {
        0
    } else {
        (pack_bytes(s.drop_last()) * 256 + s.last()) as u64
    }
}

/// Byte `k` (from the most significant end) of `v` read as `n` bytes.
pub open spec fn byte_of(v: u64, n: nat, k: nat) -> u8 {
    ((v as nat / pow256((n - 1 - k) as nat)) % 256) as u8
}

pub open spec fn pow256(e: nat) -> nat
    decreases e,
{
    if e == 0 { 1 } else { 256 * pow256((e - 1) as nat) }
}

/// `v` unpacked into `n` bytes.
pub open spec fn unpack(v: u64, n: nat) -> Seq<u8> {
    Seq::new(n, |k: int| byte_of(v, n, k as nat))
}

/// The value that `m` maps the packed bytes `key` to, if any.
pub open spec fn lookup(m: FxU64Table, key: Seq<u8>) -> Option<u64> {
    if fx_u64_table_contents(m).contains_key(pack_bytes(key)) {
        Some(fx_u64_table_contents(m)[pack_bytes(key)])
    } else {
        None
    }
}

/// The UTF-8 for a 2-byte EUC character (`b0` `b1`).
pub open spec fn decode_2(t: EncodingTable, b0: u8, b1: u8) -> Seq<u8> {
    let e = t.euc_2_to_utf8_vec@[spec_euc_2_index(b0, b1) as int]@;
    if e != seq![0u8, 0, 0, 0] {
        utf8_piece(e)
    } else {
        match lookup(t.combine_euc_to_utf8_map, seq![b0, b1, 0u8]) {
            Some(v) => utf8_piece(unpack(v, 8).subrange(0, 4)) + utf8_piece(unpack(v, 8).subrange(4, 8)),
            None => hex_ref(seq![b0, b1]),
        }
    }
}

/// The UTF-8 for a 3-byte EUC character.
pub open spec fn decode_3(t: EncodingTable, k: Seq<u8>) -> Seq<u8> {
    match lookup(t.euc_3_to_utf8_map, k) {
        Some(v) => utf8_piece(unpack(v, 4)),
        None => hex_ref(k),
    }
}

/// The UTF-8 for the EUC bytes of `s` from `i` on.
pub open spec fn spec_decode_from(t: EncodingTable, s: Seq<u8>, i: int) -> Seq<u8>
    decreases s.len() - i,
{
    if i < 0 || i >= s.len() {
        Seq::<u8>::empty()
    } else {
        let b = s[i];
        if (0xa1 <= b && b <= 0xfe) || b == 0x8e {
            if i + 2 > s.len() {
                hex_ref(seq![b])
            } else {
                decode_2(t, b, s[i + 1]) + spec_decode_from(t, s, i + 2)
            }
        } else if b <= 0x7f {
            seq![b] + spec_decode_from(t, s, i + 1)
        } else if b == 0x8f {
            if i + 3 > s.len() {
                if i + 1 >= s.len() { hex_ref(seq![b]) } else { hex_ref(seq![b, s[i + 1]]) }
            } else {
                decode_3(t, s.subrange(i, i + 3)) + spec_decode_from(t, s, i + 3)
            }
        } else {
            hex_ref(seq![b]) + spec_decode_from(t, s, i + 1)
        }
    }
}

/// The UTF-8 form of an EUC byte sequence.
pub open spec fn spec_decode(t: EncodingTable, s: Seq<u8>) -> Seq<u8> {
    spec_decode_from(t, s, 0)
}

/// Whether the stored EUC unit `e` decodes back to the 3-byte UTF-8 character `u`: the UTF-8
/// that the table gives for it starts with `u`.
#[verifier::opaque]
pub open spec fn euc_decodes_to(t: EncodingTable, e: Seq<u8>, u: Seq<u8>) -> bool {
    if e[0] == 0x8f {
        lookup(t.euc_3_to_utf8_map, e) matches Some(v) && unpack(v, 4).subrange(0, 3) == u
    } else {
        t.euc_2_to_utf8_vec@[spec_euc_2_index(e[0], e[1]) as int]@.subrange(0, 3) == u
    }
}

/// The EUC for a 3-byte UTF-8 character, without looking for a combining pair: the unit that
/// the table stores at the character's index where there is one and it decodes back to the
/// character; else, the character having no EUC form (several characters share an index),
/// its hex form.
pub open spec fn encode_3(t: EncodingTable, u: Seq<u8>) -> Seq<u8> {
    let e = t.utf8_3_to_euc_vec@[spec_utf8_3_index(u[0], u[1], u[2]) as int]@;
    if e != seq![0u8, 0, 0] && euc_decodes_to(t, e, u) { euc_piece(e) } else { hex_ref(u) }
}

/// The EUC bytes for the UTF-8 bytes of `s` from `i` on.
pub open spec fn spec_encode_from(t: EncodingTable, s: Seq<u8>, i: int) -> Seq<u8>
    decreases s.len() - i,
{
    if i < 0 || i >= s.len() {
        Seq::<u8>::empty()
    } else {
        let b = s[i];
        if 0xe0 <= b && b <= 0xef && i + 3 <= s.len() && is_cont(s[i + 1]) && is_cont(s[i + 2]) {
            if i + 6 <= s.len() && s[i + 4] == 0x82 && s[i + 5] == 0x9a
                && lookup(t.combine_utf8_6_to_euc_map, s.subrange(i, i + 6)) is Some {
                euc_piece(unpack(lookup(t.combine_utf8_6_to_euc_map, s.subrange(i, i + 6))->0, 3))
                    + spec_encode_from(t, s, i + 6)
            } else {
                encode_3(t, s.subrange(i, i + 3)) + spec_encode_from(t, s, i + 3)
            }
        } else if b <= 0x7f {
            seq![b] + spec_encode_from(t, s, i + 1)
        } else if 0xc2 <= b && b <= 0xdf && i + 2 <= s.len() && is_cont(s[i + 1]) {
            if i + 4 <= s.len() && (s[i + 2] == 0xcc || s[i + 2] == 0xcb)
                && lookup(t.combine_utf8_4_to_euc_map, s.subrange(i, i + 4)) is Some {
                euc_piece(unpack(lookup(t.combine_utf8_4_to_euc_map, s.subrange(i, i + 4))->0, 3))
                    + spec_encode_from(t, s, i + 4)
            } else {
                (match lookup(t.utf8_2_4_to_euc_map, seq![b, s[i + 1], 0u8, 0u8]) {
                    Some(v) => euc_piece(unpack(v, 3)),
                    None => hex_ref(seq![b, s[i + 1]]),
                }) + spec_encode_from(t, s, i + 2)
            }
        } else if 0xf0 <= b && b <= 0xf7 && i + 4 <= s.len() && is_cont(s[i + 1]) && is_cont(s[i + 2])
            && is_cont(s[i + 3]) {
            (match lookup(t.utf8_2_4_to_euc_map, s.subrange(i, i + 4)) {
                Some(v) => euc_piece(unpack(v, 3)),
                None => hex_ref(s.subrange(i, i + 4)),
            }) + spec_encode_from(t, s, i + 4)
        } else {
            hex_ref(seq![b]) + spec_encode_from(t, s, i + 1)
        }
    }
}

/// The EUC form of a UTF-8 byte sequence.
pub open spec fn spec_encode(t: EncodingTable, s: Seq<u8>) -> Seq<u8> {
    spec_encode_from(t, s, 0)
}

/// How a step of a conversion ended.
pub enum EucResult {
    Nop,
    Break,
}

/// Packs three bytes into a table key.
pub fn pack_3(a: u8, b: u8, c: u8) -> (r: u64)
    ensures
        r == pack_bytes(seq![a, b, c]),
{
    proof {
        assert(seq![a, b, c].drop_last() =~= seq![a, b]);
        assert(seq![a, b].drop_last() =~= seq![a]);
        assert(seq![a].drop_last() =~= Seq::<u8>::empty());
        assert(pack_bytes(Seq::<u8>::empty()) == 0);
        assert(pack_bytes(seq![a]) == a);
        assert(pack_bytes(seq![a, b]) == a * 256 + b);
        assert(pack_bytes(seq![a, b, c]) == (a * 256 + b) * 256 + c);
    }
    ((a as u64) * 256 + (b as u64)) * 256 + (c as u64)
}

/// Packs `s[i..i + n]` into a table key.
pub fn pack_slice(s: &[u8], i: usize, n: usize) -> (r: u64)
    requires
        i + n <= s.len(),
        n <= 8,
    ensures
        r == pack_bytes(s@.subrange(i as int, i + n)),
{
    let mut r: u64 = 0;
    let mut k: usize = 0;
    while k < n
        invariant
            0 <= k <= n,
            n <= 8,
            i + n <= s.len(),
            r == pack_bytes(s@.subrange(i as int, i + k)),
            (r as nat) < pow256(k as nat),
        decreases n - k,
    {
        proof {
            lemma_pow256_bound(k as nat + 1);
            assert(s@.subrange(i as int, i + k + 1).drop_last() =~= s@.subrange(i as int, i + k));
        }
        assert((r as nat) * 256 + 255 < pow256(k as nat + 1)) by (nonlinear_arith)
            requires (r as nat) < pow256(k as nat), pow256(k as nat + 1) == 256 * pow256(k as nat);
        r = r * 256 + s[i + k] as u64;
        k += 1;
    }
    r
}

proof fn lemma_pow256_bound(k: nat)
    requires
        k <= 8,
    ensures
        pow256(k) <= 0x1_0000_0000_0000_0000,
        pow256(k + 1) == 256 * pow256(k),
        k >= 1 ==> pow256(k) == 256 * pow256((k - 1) as nat),
{
    reveal_with_fuel(pow256, 10);
    assert(pow256(8) == 0x1_0000_0000_0000_0000);
}

/// `v` unpacked into its `n` low bytes, most significant first.
pub fn unpack_value(v: u64, n: usize) -> (r: Vec<u8>)
    requires
        1 <= n <= 8,
    ensures
        r@ == unpack(v, n as nat),
{
    let mut r: Vec<u8> = Vec::new();
    let mut k: usize = 0;
    while k < n
        invariant
            0 <= k <= n,
            n <= 8,
            r@ =~= unpack(v, n as nat).subrange(0, k as int),
        decreases n - k,
    {
        let e = (n - 1 - k) as u32;
        let d = divisor(e);
        r.push(((v / d) % 256) as u8);
        k += 1;
    }
    r
}

fn divisor(e: u32) -> (r: u64)
    requires
        e <= 7,
    ensures
        r as nat == pow256(e as nat),
        r > 0,
{
    proof {
        reveal_with_fuel(pow256, 8);
    }
    if e == 0 { 1 } else if e == 1 { 0x100 } else if e == 2 { 0x1_0000 } else if e == 3 { 0x100_0000 }
    else if e == 4 { 0x1_0000_0000 } else if e == 5 { 0x100_0000_0000 } else if e == 6 { 0x1_0000_0000_0000 }
    else { 0x100_0000_0000_0000 }
}

impl Euc {
    /// EUC -> UTF-8: see `spec_decode`. Never fails.
    pub fn decode(euc_buffer: &[u8], table: &EncodingTable) -> (r: Result<Vec<u8>, SkkError>)
        requires
            table.wf(),
        ensures
            r matches Ok(v) && v@ == spec_decode(*table, euc_buffer@),
    {
        if euc_buffer.len() == 0 {
            return Ok(Vec::new());
        }
        let mut euc_i: usize = 0;
        let mut result_utf8: Vec<u8> = Vec::new();
        let euc_buffer_length = euc_buffer.len();
        loop
            invariant_except_break
                euc_i < euc_buffer_length,
                spec_decode(*table, euc_buffer@) == result_utf8@ + spec_decode_from(*table, euc_buffer@, euc_i as int),
            invariant
                table.wf(),
                euc_buffer_length == euc_buffer@.len(),
            ensures
                spec_decode(*table, euc_buffer@) == result_utf8@,
            decreases euc_buffer_length - euc_i,
        {
            let b = euc_buffer[euc_i];
            if (b >= 0xa1 && b <= 0xfe) || b == 0x8e {
                match Self::decode_a1_fe_8e(euc_buffer, euc_buffer_length, table, &mut result_utf8, &mut euc_i) {
                    EucResult::Break => break,
                    EucResult::Nop => {},
                }
            } else if b <= 0x7f {
                result_utf8.push(b);
                euc_i += 1;
            } else if b == 0x8f {
                match Self::decode_8f(euc_buffer, euc_buffer_length, table, &mut result_utf8, &mut euc_i) {
                    EucResult::Break => break,
                    EucResult::Nop => {},
                }
            } else {
                push_hex_ref(&mut result_utf8, &[b]);
                euc_i += 1;
            }
            proof {
                assert([b]@ =~= seq![b]);
            }
            if euc_i >= euc_buffer_length {
                assert(spec_decode_from(*table, euc_buffer@, euc_i as int) =~= Seq::<u8>::empty());
                assert(spec_decode(*table, euc_buffer@) =~= result_utf8@);
                break;
            }
        }
        Ok(result_utf8)
    }

    fn decode_a1_fe_8e(
        euc_buffer: &[u8],
        euc_buffer_length: usize,
        table: &EncodingTable,
        result_utf8: &mut Vec<u8>,
        euc_i: &mut usize,
    ) -> (r: EucResult)
        requires
            table.wf(),
            euc_buffer_length == euc_buffer@.len(),
            *old(euc_i) < euc_buffer_length,
            (0xa1 <= euc_buffer@[*old(euc_i) as int] <= 0xfe) || euc_buffer@[*old(euc_i) as int] == 0x8e,
        ensures
            match r {
                EucResult::Break => final(result_utf8)@ == old(result_utf8)@ + spec_decode_from(*table, euc_buffer@, *old(euc_i) as int),
                EucResult::Nop => *final(euc_i) == *old(euc_i) + 2
                    && old(result_utf8)@ + spec_decode_from(*table, euc_buffer@, *old(euc_i) as int)
                        == final(result_utf8)@ + spec_decode_from(*table, euc_buffer@, *final(euc_i) as int),
            },
    {
        let i = *euc_i;
        let b0 = euc_buffer[i];
        if !Utility::is_enough_2_bytes(euc_buffer_length, i) {
            push_hex_ref(result_utf8, &[b0]);
            assert([b0]@ =~= seq![b0]);
            return EucResult::Break;
        }
        let b1 = euc_buffer[i + 1];
        let ghost before = result_utf8@;
        let euc_2_index = Decoder::get_euc_2_to_utf8_vec_index(b0, b1);
        if Utility::contains_euc_2(&table.euc_2_to_utf8_vec, euc_2_index) {
            Decoder::push_to_buffer_utf8(&table.euc_2_to_utf8_vec[euc_2_index], result_utf8);
        } else {
            let key = pack_3(b0, b1, 0);
            match fx_u64_table_get(&table.combine_euc_to_utf8_map, key) {
                Some(v) => {
                    let unpacked = unpack_value(v, 8);
                    Decoder::push_to_buffer_utf8(&unpacked.as_slice()[0..4], result_utf8);
                    Decoder::push_to_buffer_utf8(&unpacked.as_slice()[4..8], result_utf8);
                },
                None => {
                    push_hex_ref(result_utf8, &[b0, b1]);
                    assert([b0, b1]@ =~= seq![b0, b1]);
                },
            }
        }
        assert(result_utf8@ == before + decode_2(*table, b0, b1));
        *euc_i = i + 2;
        EucResult::Nop
    }

    fn decode_8f(
        euc_buffer: &[u8],
        euc_buffer_length: usize,
        table: &EncodingTable,
        result_utf8: &mut Vec<u8>,
        euc_i: &mut usize,
    ) -> (r: EucResult)
        requires
            euc_buffer_length == euc_buffer@.len(),
            *old(euc_i) < euc_buffer_length,
            euc_buffer@[*old(euc_i) as int] == 0x8f,
        ensures
            match r {
                EucResult::Break => final(result_utf8)@ == old(result_utf8)@ + spec_decode_from(*table, euc_buffer@, *old(euc_i) as int),
                EucResult::Nop => *final(euc_i) == *old(euc_i) + 3
                    && old(result_utf8)@ + spec_decode_from(*table, euc_buffer@, *old(euc_i) as int)
                        == final(result_utf8)@ + spec_decode_from(*table, euc_buffer@, *final(euc_i) as int),
            },
    {
        let i = *euc_i;
        let b0 = euc_buffer[i];
        if !Utility::is_enough_3_bytes(euc_buffer_length, i) {
            if i + 1 >= euc_buffer_length {
                push_hex_ref(result_utf8, &[b0]);
                assert([b0]@ =~= seq![b0]);
            } else {
                let b1 = euc_buffer[i + 1];
                push_hex_ref(result_utf8, &[b0, b1]);
                assert([b0, b1]@ =~= seq![b0, b1]);
            }
            return EucResult::Break;
        }
        let key_3 = &euc_buffer[i..i + 3];
        let key = pack_slice(euc_buffer, i, 3);
        match fx_u64_table_get(&table.euc_3_to_utf8_map, key) {
            Some(v) => {
                let unpacked = unpack_value(v, 4);
                Decoder::push_to_buffer_utf8(unpacked.as_slice(), result_utf8);
            },
            None => {
                push_hex_ref(result_utf8, key_3);
            },
        }
        *euc_i = i + 3;
        EucResult::Nop
    }
    /// UTF-8 -> EUC: see `spec_encode`. Never fails.
    pub fn encode(utf8_buffer: &[u8], table: &EncodingTable) -> (r: Result<Vec<u8>, SkkError>)
        requires
            table.wf(),
        ensures
            r matches Ok(v) && v@ == spec_encode(*table, utf8_buffer@),
    {
        if utf8_buffer.len() == 0 {
            return Ok(Vec::new());
        }
        let mut utf8_i: usize = 0;
        let mut result_euc: Vec<u8> = Vec::new();
        let utf8_buffer_length = utf8_buffer.len();
        loop
            invariant_except_break
                utf8_i < utf8_buffer_length,
                spec_encode(*table, utf8_buffer@) == result_euc@ + spec_encode_from(*table, utf8_buffer@, utf8_i as int),
            invariant
                table.wf(),
                utf8_buffer_length == utf8_buffer@.len(),
            ensures
                spec_encode(*table, utf8_buffer@) == result_euc@,
            decreases utf8_buffer_length - utf8_i,
        {
            let b = utf8_buffer[utf8_i];
            let ghost i0 = utf8_i as int;
            let ghost before = result_euc@;
            if b >= 0xe0 && b <= 0xef && Encoder::is_utf8_3_bytes(utf8_buffer, utf8_buffer_length, utf8_i) {
                Self::encode_e0_ef(utf8_buffer, utf8_buffer_length, table, &mut result_euc, &mut utf8_i);
            } else if b <= 0x7f {
                result_euc.push(b);
                utf8_i += 1;
            } else if b >= 0xc2 && b <= 0xdf && Encoder::is_utf8_2_bytes(utf8_buffer, utf8_buffer_length, utf8_i) {
                Self::encode_c2_df(utf8_buffer, utf8_buffer_length, table, &mut result_euc, &mut utf8_i);
            } else if b >= 0xf0 && b <= 0xf7 && Encoder::is_utf8_4_bytes(utf8_buffer, utf8_buffer_length, utf8_i) {
                Self::encode_f0_f7(utf8_buffer, table, &mut result_euc, &mut utf8_i);
            } else {
                push_hex_ref(&mut result_euc, &[b]);
                assert([b]@ =~= seq![b]);
                utf8_i += 1;
            }
            assert(before + spec_encode_from(*table, utf8_buffer@, i0)
                == result_euc@ + spec_encode_from(*table, utf8_buffer@, utf8_i as int));
            if utf8_i >= utf8_buffer_length {
                assert(spec_encode_from(*table, utf8_buffer@, utf8_i as int) =~= Seq::<u8>::empty());
                assert(spec_encode(*table, utf8_buffer@) =~= result_euc@);
                break;
            }
        }
        Ok(result_euc)
    }

    fn encode_e0_ef(
        utf8_buffer: &[u8],
        utf8_buffer_length: usize,
        table: &EncodingTable,
        result_euc: &mut Vec<u8>,
        utf8_i: &mut usize,
    )
        requires
            table.wf(),
            utf8_buffer_length == utf8_buffer@.len(),
            *old(utf8_i) + 3 <= utf8_buffer_length,
            0xe0 <= utf8_buffer@[*old(utf8_i) as int] <= 0xef,
            is_cont(utf8_buffer@[*old(utf8_i) + 1]),
            is_cont(utf8_buffer@[*old(utf8_i) + 2]),
        ensures
            *old(utf8_i) < *final(utf8_i) <= utf8_buffer_length,
            old(result_euc)@ + spec_encode_from(*table, utf8_buffer@, *old(utf8_i) as int)
                == final(result_euc)@ + spec_encode_from(*table, utf8_buffer@, *final(utf8_i) as int),
    {
        let i = *utf8_i;
        if Utility::is_enough_6_bytes(utf8_buffer_length, i) && Encoder::is_candidate_combine_utf8_6(utf8_buffer, i) {
            let key = pack_slice(utf8_buffer, i, 6);
            if let Some(v) = fx_u64_table_get(&table.combine_utf8_6_to_euc_map, key) {
                let unpacked = unpack_value(v, 3);
                Encoder::push_to_buffer_euc(unpacked.as_slice(), result_euc);
                *utf8_i = i + 3 + 3;
                return;
            }
        }
        Self::encode_e0_ef_encode_3(utf8_buffer, table, result_euc, utf8_i);
    }

    /// Whether the stored EUC unit `e` decodes back to the 3-byte UTF-8 character `u`: see
    /// `euc_decodes_to`.
    fn decodes_to(table: &EncodingTable, e: &[u8; 3], u: &[u8]) -> (r: bool)
        requires
            table.wf(),
            u.len() == 3,
        ensures
            r == euc_decodes_to(*table, e@, u@),
    {
        reveal(euc_decodes_to);
        if e[0] == 0x8f {
            let es: &[u8] = e;
            let key = pack_slice(es, 0, 3);
            assert(es@.subrange(0, 3) =~= e@);
            match fx_u64_table_get(&table.euc_3_to_utf8_map, key) {
                Some(v) => {
                    let un = unpack_value(v, 4);
                    let r = un[0] == u[0] && un[1] == u[1] && un[2] == u[2];
                    assert(r == (un@.subrange(0, 3) =~= u@));
                    r
                },
                None => false,
            }
        } else {
            let idx = Decoder::get_euc_2_to_utf8_vec_index(e[0], e[1]);
            let x = &table.euc_2_to_utf8_vec[idx];
            let r = x[0] == u[0] && x[1] == u[1] && x[2] == u[2];
            assert(r == (x@.subrange(0, 3) =~= u@));
            r
        }
    }

    fn encode_e0_ef_encode_3(
        utf8_buffer: &[u8],
        table: &EncodingTable,
        result_euc: &mut Vec<u8>,
        utf8_i: &mut usize,
    )
        requires
            table.wf(),
            *old(utf8_i) + 3 <= utf8_buffer.len(),
        ensures
            *final(utf8_i) == *old(utf8_i) + 3,
            final(result_euc)@ == old(result_euc)@ + encode_3(*table, utf8_buffer@.subrange(*old(utf8_i) as int, *old(utf8_i) + 3)),
    {
        let i = *utf8_i;
        let u = &utf8_buffer[i..i + 3];
        let utf8_3_index = Encoder::get_utf8_3_to_euc_vec_index(u);
        if Utility::contains_utf8_3(&table.utf8_3_to_euc_vec, utf8_3_index)
            && Self::decodes_to(table, &table.utf8_3_to_euc_vec[utf8_3_index], u) {
            Encoder::push_to_buffer_euc(&table.utf8_3_to_euc_vec[utf8_3_index], result_euc);
        } else {
            push_hex_ref(result_euc, u);
        }
        *utf8_i = i + 3;
    }

    fn encode_c2_df(
        utf8_buffer: &[u8],
        utf8_buffer_length: usize,
        table: &EncodingTable,
        result_euc: &mut Vec<u8>,
        utf8_i: &mut usize,
    )
        requires
            utf8_buffer_length == utf8_buffer@.len(),
            *old(utf8_i) + 2 <= utf8_buffer_length,
            0xc2 <= utf8_buffer@[*old(utf8_i) as int] <= 0xdf,
            is_cont(utf8_buffer@[*old(utf8_i) + 1]),
        ensures
            *old(utf8_i) < *final(utf8_i) <= utf8_buffer_length,
            old(result_euc)@ + spec_encode_from(*table, utf8_buffer@, *old(utf8_i) as int)
                == final(result_euc)@ + spec_encode_from(*table, utf8_buffer@, *final(utf8_i) as int),
    {
        let i = *utf8_i;
        if Utility::is_enough_4_bytes(utf8_buffer_length, i) && Encoder::is_candidate_combine_utf8_4(utf8_buffer, i) {
            let key4 = pack_slice(utf8_buffer, i, 4);
            if let Some(v) = fx_u64_table_get(&table.combine_utf8_4_to_euc_map, key4) {
                let unpacked = unpack_value(v, 3);
                Encoder::push_to_buffer_euc(unpacked.as_slice(), result_euc);
                *utf8_i = i + 2 + 2;
                return;
            }
        }
        let b0 = utf8_buffer[i];
        let b1 = utf8_buffer[i + 1];
        let key = [b0, b1, 0, 0];
        assert(key@ =~= seq![b0, b1, 0u8, 0u8]);
        let packed = pack_slice(&key, 0, 4);
        assert(key@.subrange(0, 4) =~= key@);
        match fx_u64_table_get(&table.utf8_2_4_to_euc_map, packed) {
            Some(v) => {
                let unpacked = unpack_value(v, 3);
                Encoder::push_to_buffer_euc(unpacked.as_slice(), result_euc);
            },
            None => {
                push_hex_ref(result_euc, &[b0, b1]);
                assert([b0, b1]@ =~= seq![b0, b1]);
            },
        }
        *utf8_i = i + 2;
    }

    fn encode_f0_f7(
        utf8_buffer: &[u8],
        table: &EncodingTable,
        result_euc: &mut Vec<u8>,
        utf8_i: &mut usize,
    )
        requires
            *old(utf8_i) + 4 <= utf8_buffer.len(),
        ensures
            *final(utf8_i) == *old(utf8_i) + 4,
            final(result_euc)@ == old(result_euc)@ + (match lookup(table.utf8_2_4_to_euc_map, utf8_buffer@.subrange(*old(utf8_i) as int, *old(utf8_i) + 4)) {
                Some(v) => euc_piece(unpack(v, 3)),
                None => hex_ref(utf8_buffer@.subrange(*old(utf8_i) as int, *old(utf8_i) + 4)),
            }),
    {
        let i = *utf8_i;
        let key = &utf8_buffer[i..i + 4];
        let packed = pack_slice(utf8_buffer, i, 4);
        match fx_u64_table_get(&table.utf8_2_4_to_euc_map, packed) {
            Some(v) => {
                let unpacked = unpack_value(v, 3);
                Encoder::push_to_buffer_euc(unpacked.as_slice(), result_euc);
            },
            None => {
                push_hex_ref(result_euc, key);
            },
        }
        *utf8_i = i + 4;
    }
}


/// A 3-byte UTF-8 character that has an EUC form in the table (the unit stored at its index is
/// an EUC character that decodes back to it) comes back unchanged from encoding and decoding.
pub proof fn lemma_encode_decode_3(t: EncodingTable, u: Seq<u8>)
    requires
        t.wf(),
        u.len() == 3,
        0xe0 <= u[0] <= 0xef,
        is_cont(u[1]),
        is_cont(u[2]),
        ({
            let e = t.utf8_3_to_euc_vec@[spec_utf8_3_index(u[0], u[1], u[2]) as int]@;
            &&& e != seq![0u8, 0, 0]
            &&& euc_decodes_to(t, e, u)
            &&& (0xa1 <= e[0] <= 0xfe || e[0] == 0x8e || e[0] == 0x8f)
        }),
    ensures
        spec_decode(t, spec_encode(t, u)) == u,
{
    reveal(euc_decodes_to);
    let e = t.utf8_3_to_euc_vec@[spec_utf8_3_index(u[0], u[1], u[2]) as int]@;
    assert(u.subrange(0, 3) =~= u);
    assert(spec_encode_from(t, u, 3) == Seq::<u8>::empty());
    assert(spec_encode(t, u) == encode_3(t, u) + Seq::<u8>::empty());
    assert(encode_3(t, u) == euc_piece(e));
    let p = euc_piece(e);
    assert(spec_encode(t, u) =~= p);
    if e[0] == 0x8f {
        assert(p =~= e);
        assert(spec_decode_from(t, p, 3) == Seq::<u8>::empty());
        assert(p.subrange(0, 3) =~= e);
        let v = lookup(t.euc_3_to_utf8_map, e)->0;
        assert(unpack(v, 4)[0] == u[0]);
        assert(utf8_piece(unpack(v, 4)) =~= u);
        assert(spec_decode(t, p) =~= decode_3(t, e) + Seq::<u8>::empty());
    } else {
        assert(p.len() == 2);
        assert(spec_decode_from(t, p, 2) == Seq::<u8>::empty());
        let x = t.euc_2_to_utf8_vec@[spec_euc_2_index(e[0], e[1]) as int]@;
        assert(x[0] == u[0]);
        assert(x != seq![0u8, 0, 0, 0]);
        assert(utf8_piece(x) =~= u);
        assert(spec_decode(t, p) =~= decode_2(t, p[0], p[1]) + Seq::<u8>::empty());
    }
}
} // verus!
