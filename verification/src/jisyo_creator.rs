//! Writing a jisyo back from a dictionary, or from the entries of a Google cache.
use vstd::prelude::*;
use crate::byte_map::ByteMap;
use crate::bytes::{append_bytes, spec_find_from, find_byte_from, lemma_find_from, vv};
use crate::candidates::{Candidates, SLASH, spec_quote};
use crate::dictionary::{Dictionary, DictionaryBlockInformation};
use crate::dictionary_reader::{DictionaryReader, spec_is_okuri_ari};
use crate::encoding::{Encoding, encoding_number};
use crate::encoding_simple::{EncodingTable, Euc};
use crate::encoding_simple::euc::{spec_encode, spec_decode};
use crate::error::SkkError;
use crate::on_memory::{OnMemory, InfoView, infos_view, spec_setup, model_apply_all, empty_model};
use crate::dictionary::header_stored_in;
use crate::dictionary_reader::encoding_of;
use crate::encoding_simple::encoding_table::spec_table_model;

verus! {

pub const SPACE: u8 = 0x20;
pub const LF: u8 = 0x0a;

/// Namespace for writing jisyo files.
pub struct JisyoCreator;

/// The entries of a unit of a string block from the LF at `offset`: each entry's midashi (after
/// the LF, up to the space) and candidates (after the space, up to the next LF). Reading stops
/// where no space follows; none where an entry has no closing LF or an empty midashi place.
pub open spec fn unit_entries_from(b: Seq<u8>, offset: int) -> Option<Seq<(Seq<u8>, Seq<u8>)>>
    decreases b.len() - offset,
{
    if offset < 0 || offset > b.len() {
        None
    } else {
        match spec_find_from(b, offset, SPACE) {
            None => Some(Seq::empty()),
            Some(s) => match spec_find_from(b, s, LF) {
                None => None,
                Some(e) => {
                    proof {
                        lemma_find_from(b, offset, SPACE);
                        lemma_find_from(b, s, LF);
                    }
                    if s <= offset {
                        None
                    } else {
                        match unit_entries_from(b, e) {
                            None => None,
                            Some(rest) => Some(seq![(b.subrange(offset + 1, s), b.subrange(s + 1, e))] + rest),
                        }
                    }
                },
            },
        }
    }
}

/// The candidates of an entry in the output encoding.
pub open spec fn converted_candidates(t: EncodingTable, c: Seq<u8>, out: Encoding, dict: Encoding) -> Seq<u8> {
    if out == Encoding::Euc && dict == Encoding::Utf8 {
        spec_encode(t, c)
    } else if out == Encoding::Utf8 && dict == Encoding::Euc {
        spec_decode(t, c)
    } else {
        c
    }
}

/// The midashi of an entry (always EUC in a dictionary) in the output encoding.
pub open spec fn converted_midashi(t: EncodingTable, m: Seq<u8>, out: Encoding) -> Seq<u8> {
    if out == Encoding::Euc { m } else { spec_decode(t, m) }
}

/// The okuri-ari and okuri-nasi maps after the entries `es` are added, each to the map that its
/// EUC midashi calls for.
pub open spec fn okuri_maps_after(
    t: EncodingTable,
    ari: Map<Seq<u8>, Seq<u8>>,
    nasi: Map<Seq<u8>, Seq<u8>>,
    es: Seq<(Seq<u8>, Seq<u8>)>,
    out: Encoding,
    dict: Encoding,
) -> (Map<Seq<u8>, Seq<u8>>, Map<Seq<u8>, Seq<u8>>)
    decreases es.len(),
{
    if es.len() == 0 {
        (ari, nasi)
    } else {
        let (a, n) = okuri_maps_after(t, ari, nasi, es.drop_last(), out, dict);
        let (m, c) = es.last();
        let midashi = converted_midashi(t, m, out);
        let candidates = converted_candidates(t, c, out, dict);
        if spec_is_okuri_ari(m) {
            (a.insert(midashi, candidates), n)
        } else {
            (a, n.insert(midashi, candidates))
        }
    }
}

/// An entry whose EUC midashi ends in one hiragana and a lower-case letter (`かk`) goes to the
/// okuri-ari section of the jisyo written back, under its midashi in the output encoding, and
/// leaves the okuri-nasi section as it was.
pub proof fn lemma_okuri_ari_entry_section(
    t: EncodingTable,
    ari: Map<Seq<u8>, Seq<u8>>,
    nasi: Map<Seq<u8>, Seq<u8>>,
    es: Seq<(Seq<u8>, Seq<u8>)>,
    out: Encoding,
    dict: Encoding,
    p: Seq<u8>,
    h: u8,
    l: u8,
    c: Seq<u8>,
)
    requires
        0xa1 <= h <= 0xf3,
        0x61 <= l <= 0x7a,
    ensures
        ({
            let m = p + crate::dictionary_reader::hiragana_then(h, l);
            let after = okuri_maps_after(t, ari, nasi, es.push((m, c)), out, dict);
            let before = okuri_maps_after(t, ari, nasi, es, out, dict);
            &&& after.0.contains_key(converted_midashi(t, m, out))
            &&& after.0[converted_midashi(t, m, out)] == converted_candidates(t, c, out, dict)
            &&& after.1 == before.1
        }),
{
    let m = p + crate::dictionary_reader::hiragana_then(h, l);
    crate::dictionary_reader::lemma_okuri_ari_shape(p, h, l, m);
    assert(es.push((m, c)).drop_last() =~= es);
}

impl JisyoCreator {
    /// Adds the entries of one unit to the okuri-ari and okuri-nasi maps: see
    /// `unit_entries_from` and `okuri_maps_after`. Fails with `BrokenDictionary` where the
    /// unit cannot be read.
    pub fn get_okuri_ari_nasi_maps(
        buffer: &[u8],
        output_jisyo_encoding: Encoding,
        dictionary_encoding: Encoding,
        okuri_ari_map: &mut ByteMap,
        okuri_nasi_map: &mut ByteMap,
        table: &EncodingTable,
    ) -> (r: Result<(), SkkError>)
        requires
            old(okuri_ari_map).wf(),
            old(okuri_nasi_map).wf(),
            table.wf(),
        ensures
            final(okuri_ari_map).wf(),
            final(okuri_nasi_map).wf(),
            match unit_entries_from(buffer@, 0) {
                None => r == Err::<(), SkkError>(SkkError::BrokenDictionary),
                Some(es) => r is Ok && (final(okuri_ari_map).view(), final(okuri_nasi_map).view())
                    == okuri_maps_after(*table, old(okuri_ari_map).view(), old(okuri_nasi_map).view(), es,
                        output_jisyo_encoding, dictionary_encoding),
            },
    {
        let ghost b = buffer@;
        let ghost a0 = okuri_ari_map.view();
        let ghost n0 = okuri_nasi_map.view();
        let ghost mut done: Seq<(Seq<u8>, Seq<u8>)> = Seq::empty();
        let mut offset: usize = 0;
        loop
            invariant
                b == buffer@,
                offset <= buffer.len(),
                okuri_ari_map.wf(),
                okuri_nasi_map.wf(),
                table.wf(),
                a0 == old(okuri_ari_map).view(),
                n0 == old(okuri_nasi_map).view(),
                unit_entries_from(b, 0) == (match unit_entries_from(b, offset as int) {
                    None => None,
                    Some(rest) => Some(done + rest),
                }),
                (okuri_ari_map.view(), okuri_nasi_map.view())
                    == okuri_maps_after(*table, a0, n0, done, output_jisyo_encoding, dictionary_encoding),
            decreases buffer.len() - offset,
        {
            proof { lemma_find_from(b, offset as int, SPACE); }
            let space = match find_byte_from(buffer, offset, SPACE) {
                Some(s) => s,
                None => {
                    proof { assert(done + Seq::<(Seq<u8>, Seq<u8>)>::empty() =~= done); }
                    return Ok(());
                },
            };
            proof { lemma_find_from(b, space as int, LF); }
            let lf = match find_byte_from(buffer, space, LF) {
                Some(e) => e,
                None => return Err(SkkError::BrokenDictionary),
            };
            if space <= offset {
                return Err(SkkError::BrokenDictionary);
            }
            let euc_midashi = &buffer[offset + 1..space];
            let candidates_slice = &buffer[space + 1..lf];
            let candidates = if output_jisyo_encoding == Encoding::Euc && dictionary_encoding == Encoding::Utf8 {
                match Euc::encode(candidates_slice, table) { Ok(v) => v, Err(_) => Vec::new() }
            } else if output_jisyo_encoding == Encoding::Utf8 && dictionary_encoding == Encoding::Euc {
                match Euc::decode(candidates_slice, table) { Ok(v) => v, Err(_) => Vec::new() }
            } else {
                let mut v: Vec<u8> = Vec::new();
                append_bytes(&mut v, candidates_slice);
                assert(v@ =~= candidates_slice@);
                v
            };
            let midashi = if output_jisyo_encoding == Encoding::Euc {
                let mut v: Vec<u8> = Vec::new();
                append_bytes(&mut v, euc_midashi);
                assert(v@ =~= euc_midashi@);
                v
            } else {
                match Euc::decode(euc_midashi, table) { Ok(v) => v, Err(_) => Vec::new() }
            };
            let ghost entry = (euc_midashi@, candidates_slice@);
            let ghost mv = midashi@;
            let ghost cv = candidates@;
            if DictionaryReader::is_okuri_ari(euc_midashi) {
                let ghost old_a = *okuri_ari_map;
                okuri_ari_map.insert(midashi, candidates);
                proof { ByteMap::lemma_insert_view(old_a, *okuri_ari_map, mv, cv); }
            } else {
                let ghost old_n = *okuri_nasi_map;
                okuri_nasi_map.insert(midashi, candidates);
                proof { ByteMap::lemma_insert_view(old_n, *okuri_nasi_map, mv, cv); }
            }
            proof {
                let d2 = done.push(entry);
                assert(d2.drop_last() =~= done);
                assert(d2.last() == entry);
                match unit_entries_from(b, lf as int) {
                    None => {},
                    Some(rest) => { assert(done + (seq![entry] + rest) =~= d2 + rest); },
                }
                done = d2;
            }
            offset = lf;
        }
    }
}

/// The okuri-ari and the okuri-nasi maps.
pub type OkuriMaps = (Map<Seq<u8>, Seq<u8>>, Map<Seq<u8>, Seq<u8>>);

/// The okuri maps after the entries of the unit `u` of the dictionary `d` are added (see
/// `read_dictionary_block_information`): `Io` where the unit lies outside the dictionary,
/// `BrokenDictionary` where it cannot be read.
pub open spec fn unit_into_maps(t: EncodingTable, d: Seq<u8>, bo: int, u: InfoView, maps: OkuriMaps, out: Encoding, dict: Encoding) -> Result<OkuriMaps, SkkError> {
    let start = bo + u.1;
    let end = start + u.2;
    if end > d.len() {
        Err(SkkError::Io)
    } else {
        match unit_entries_from(d.subrange(start, end), 0) {
            None => Err(SkkError::BrokenDictionary),
            Some(es) => Ok(okuri_maps_after(t, maps.0, maps.1, es, out, dict)),
        }
    }
}

/// The okuri maps after the first `n` units of `us` are read in order; the first error ends it.
pub open spec fn units_into_maps(t: EncodingTable, d: Seq<u8>, bo: int, us: Seq<InfoView>, n: nat, maps: OkuriMaps, out: Encoding, dict: Encoding) -> Result<OkuriMaps, SkkError>
    decreases n,
{
    if n == 0 {
        Ok(maps)
    } else {
        match units_into_maps(t, d, bo, us, (n - 1) as nat, maps, out, dict) {
            Err(e) => Err(e),
            Ok(m) => unit_into_maps(t, d, bo, us[n - 1], m, out, dict),
        }
    }
}

/// The okuri maps after the units of the first `n` unit vectors of `vs` are read in order.
pub open spec fn vectors_into_maps(t: EncodingTable, d: Seq<u8>, bo: int, vs: Seq<Seq<InfoView>>, n: nat, maps: OkuriMaps, out: Encoding, dict: Encoding) -> Result<OkuriMaps, SkkError>
    decreases n,
{
    if n == 0 {
        Ok(maps)
    } else {
        match vectors_into_maps(t, d, bo, vs, (n - 1) as nat, maps, out, dict) {
            Err(e) => Err(e),
            Ok(m) => units_into_maps(t, d, bo, vs[n - 1], vs[n - 1].len(), m, out, dict),
        }
    }
}

/// The unit vectors of an index: those of its map, then those of its vector.
pub open spec fn index_vectors(om: OnMemory) -> Seq<Seq<InfoView>> {
    om.index_map_values@.map_values(|v: Vec<DictionaryBlockInformation>| infos_view(v@))
        + om.index_ascii_hiragana_vec@.map_values(|v: Vec<DictionaryBlockInformation>| infos_view(v@))
}

/// Whether `r` is the jisyo in `out` of the dictionary `d`: the error of setting it up, or the
/// jisyo of the index that setting it up gives (see `jisyo_of_index`), its unit vectors in some
/// order.
pub open spec fn creates_jisyo(d: Seq<u8>, out: Encoding, r: Result<Seq<u8>, SkkError>) -> bool {
    match spec_setup(d) {
        Err(e) => r == Err::<Seq<u8>, SkkError>(e),
        Ok((tb, us)) => exists|om: OnMemory, table: EncodingTable| {
            &&& om.wf()
            &&& om.model() == model_apply_all(empty_model(), us)
            &&& header_stored_in(om.dictionary_fixed_header, d)
            &&& table.wf()
            &&& table.model() == spec_table_model(tb)
            &&& #[trigger] jisyo_of_index(table, d, om, out, r)
        },
    }
}

/// Whether setting the dictionary `d` up gives the index `om` and the convert table `t`.
pub open spec fn setup_gave(d: Seq<u8>, om: OnMemory, t: EncodingTable) -> bool {
    match spec_setup(d) {
        Ok((tb, us)) => om.wf() && om.model() == model_apply_all(empty_model(), us)
            && header_stored_in(om.dictionary_fixed_header, d) && t.wf() && t.model() == spec_table_model(tb),
        Err(_) => false,
    }
}

/// A result with its bytes taken by their view.
pub open spec fn jisyo_result(r: Result<Vec<u8>, SkkError>) -> Result<Seq<u8>, SkkError> {
    match r {
        Ok(v) => Ok(v@),
        Err(e) => Err(e),
    }
}

/// Whether `r` is the jisyo of the dictionary `d` whose index is `om`: `BrokenDictionary` where
/// its header names no encoding; else the entries of every unit of the index, in the order of
/// `index_vectors`, sorted into okuri-ari and okuri-nasi maps (converted to `out`), written as
/// `spec_jisyo_text`; the first error of reading a unit where there is one.
pub open spec fn jisyo_of_index(t: EncodingTable, d: Seq<u8>, om: OnMemory, out: Encoding, r: Result<Seq<u8>, SkkError>) -> bool {
    if om.dictionary_fixed_header.encoding > 1 {
        r == Err::<Seq<u8>, SkkError>(SkkError::BrokenDictionary)
    } else {
        let vs = index_vectors(om);
        match vectors_into_maps(t, d, om.dictionary_fixed_header.blocks_offset as int, vs, vs.len(),
            (Map::empty(), Map::empty()), out, encoding_of(om.dictionary_fixed_header.encoding)) {
            Err(e) => r == Err::<Seq<u8>, SkkError>(e),
            Ok((a, n)) => r matches Ok(j) && exists|am: ByteMap, nm: ByteMap| am.wf() && nm.wf()
                && am.view() == a && nm.view() == n && j == #[trigger] spec_jisyo_text(out, am, nm),
        }
    }
}

proof fn lemma_units_err_stays(t: EncodingTable, d: Seq<u8>, bo: int, us: Seq<InfoView>, k: nat, n: nat, maps: OkuriMaps, out: Encoding, dict: Encoding)
    requires
        k <= n,
        units_into_maps(t, d, bo, us, k, maps, out, dict) is Err,
    ensures
        units_into_maps(t, d, bo, us, n, maps, out, dict) == units_into_maps(t, d, bo, us, k, maps, out, dict),
    decreases n - k,
{
    if k < n {
        lemma_units_err_stays(t, d, bo, us, k, (n - 1) as nat, maps, out, dict);
    }
}

proof fn lemma_vectors_err_stays(t: EncodingTable, d: Seq<u8>, bo: int, vs: Seq<Seq<InfoView>>, k: nat, n: nat, maps: OkuriMaps, out: Encoding, dict: Encoding)
    requires
        k <= n,
        vectors_into_maps(t, d, bo, vs, k, maps, out, dict) is Err,
    ensures
        vectors_into_maps(t, d, bo, vs, n, maps, out, dict) == vectors_into_maps(t, d, bo, vs, k, maps, out, dict),
    decreases n - k,
{
    if k < n {
        lemma_vectors_err_stays(t, d, bo, vs, k, (n - 1) as nat, maps, out, dict);
    }
}

/// The header line `;; -*- mode: fundamental; coding: euc-jis-2004 -*-`.
pub open spec fn line_coding_euc() -> Seq<u8> {
    seq![0x3bu8, 0x3bu8, 0x20u8, 0x2du8, 0x2au8, 0x2du8, 0x20u8, 0x6du8, 0x6fu8, 0x64u8, 0x65u8, 0x3au8, 0x20u8, 0x66u8, 0x75u8, 0x6eu8, 0x64u8, 0x61u8, 0x6du8, 0x65u8, 0x6eu8, 0x74u8, 0x61u8, 0x6cu8, 0x3bu8, 0x20u8, 0x63u8, 0x6fu8, 0x64u8, 0x69u8, 0x6eu8, 0x67u8, 0x3au8, 0x20u8, 0x65u8, 0x75u8, 0x63u8, 0x2du8, 0x6au8, 0x69u8, 0x73u8, 0x2du8, 0x32u8, 0x30u8, 0x30u8, 0x34u8, 0x20u8, 0x2du8, 0x2au8, 0x2du8, 0x0au8]
}

/// The header line `;; -*- mode: fundamental; coding: utf-8 -*-`.
pub open spec fn line_coding_utf8() -> Seq<u8> {
    seq![0x3bu8, 0x3bu8, 0x20u8, 0x2du8, 0x2au8, 0x2du8, 0x20u8, 0x6du8, 0x6fu8, 0x64u8, 0x65u8, 0x3au8, 0x20u8, 0x66u8, 0x75u8, 0x6eu8, 0x64u8, 0x61u8, 0x6du8, 0x65u8, 0x6eu8, 0x74u8, 0x61u8, 0x6cu8, 0x3bu8, 0x20u8, 0x63u8, 0x6fu8, 0x64u8, 0x69u8, 0x6eu8, 0x67u8, 0x3au8, 0x20u8, 0x75u8, 0x74u8, 0x66u8, 0x2du8, 0x38u8, 0x20u8, 0x2du8, 0x2au8, 0x2du8, 0x0au8]
}

/// The header line `;; yaskkserv2 dictionary`.
pub open spec fn line_title() -> Seq<u8> {
    seq![0x3bu8, 0x3bu8, 0x20u8, 0x79u8, 0x61u8, 0x73u8, 0x6bu8, 0x6bu8, 0x73u8, 0x65u8, 0x72u8, 0x76u8, 0x32u8, 0x20u8, 0x64u8, 0x69u8, 0x63u8, 0x74u8, 0x69u8, 0x6fu8, 0x6eu8, 0x61u8, 0x72u8, 0x79u8, 0x0au8]
}

/// The header line `;; okuri-ari entries.`.
pub open spec fn line_okuri_ari() -> Seq<u8> {
    seq![0x3bu8, 0x3bu8, 0x20u8, 0x6fu8, 0x6bu8, 0x75u8, 0x72u8, 0x69u8, 0x2du8, 0x61u8, 0x72u8, 0x69u8, 0x20u8, 0x65u8, 0x6eu8, 0x74u8, 0x72u8, 0x69u8, 0x65u8, 0x73u8, 0x2eu8, 0x0au8]
}

/// The header line `;; okuri-nasi entries.`.
pub open spec fn line_okuri_nasi() -> Seq<u8> {
    seq![0x3bu8, 0x3bu8, 0x20u8, 0x6fu8, 0x6bu8, 0x75u8, 0x72u8, 0x69u8, 0x2du8, 0x6eu8, 0x61u8, 0x73u8, 0x69u8, 0x20u8, 0x65u8, 0x6eu8, 0x74u8, 0x72u8, 0x69u8, 0x65u8, 0x73u8, 0x2eu8, 0x0au8]
}

/// The entries as jisyo lines: midashi, space, candidates, LF.
pub open spec fn entries_text(ks: Seq<Seq<u8>>, vs: Seq<Seq<u8>>) -> Seq<u8>
    decreases ks.len(),
{
    if ks.len() == 0 {
        Seq::empty()
    } else {
        entries_text(ks.drop_last(), vs.drop_last()) + ks.last() + seq![SPACE] + vs.last() + seq![LF]
    }
}

/// A jisyo in `out`: the coding line, the title line, the okuri-ari entries in reverse midashi
/// order, then the okuri-nasi entries in midashi order, each group after its header line.
pub open spec fn spec_jisyo_text(out: Encoding, ari: ByteMap, nasi: ByteMap) -> Seq<u8> {
    (if out == Encoding::Euc { line_coding_euc() } else { line_coding_utf8() })
        + line_title() + line_okuri_ari() + entries_text(ari.keys().reverse(), ari.values().reverse())
        + line_okuri_nasi() + entries_text(nasi.keys(), nasi.values())
}

impl JisyoCreator {
    /// Appends the header line `;; -*- mode: fundamental; coding: euc-jis-2004 -*-`.
    fn push_line_coding_euc(out: &mut Vec<u8>)
        ensures
            final(out)@ == old(out)@ + line_coding_euc(),
    {
        let line: [u8; 51] = [0x3b, 0x3b, 0x20, 0x2d, 0x2a, 0x2d, 0x20, 0x6d, 0x6f, 0x64, 0x65, 0x3a, 0x20, 0x66, 0x75, 0x6e, 0x64, 0x61, 0x6d, 0x65, 0x6e, 0x74, 0x61, 0x6c, 0x3b, 0x20, 0x63, 0x6f, 0x64, 0x69, 0x6e, 0x67, 0x3a, 0x20, 0x65, 0x75, 0x63, 0x2d, 0x6a, 0x69, 0x73, 0x2d, 0x32, 0x30, 0x30, 0x34, 0x20, 0x2d, 0x2a, 0x2d, 0x0a];
        append_bytes(out, &line);
        assert(line@ =~= line_coding_euc());
    }

    /// Appends the header line `;; -*- mode: fundamental; coding: utf-8 -*-`.
    fn push_line_coding_utf8(out: &mut Vec<u8>)
        ensures
            final(out)@ == old(out)@ + line_coding_utf8(),
    {
        let line: [u8; 44] = [0x3b, 0x3b, 0x20, 0x2d, 0x2a, 0x2d, 0x20, 0x6d, 0x6f, 0x64, 0x65, 0x3a, 0x20, 0x66, 0x75, 0x6e, 0x64, 0x61, 0x6d, 0x65, 0x6e, 0x74, 0x61, 0x6c, 0x3b, 0x20, 0x63, 0x6f, 0x64, 0x69, 0x6e, 0x67, 0x3a, 0x20, 0x75, 0x74, 0x66, 0x2d, 0x38, 0x20, 0x2d, 0x2a, 0x2d, 0x0a];
        append_bytes(out, &line);
        assert(line@ =~= line_coding_utf8());
    }

    /// Appends the header line `;; yaskkserv2 dictionary`.
    fn push_line_title(out: &mut Vec<u8>)
        ensures
            final(out)@ == old(out)@ + line_title(),
    {
        let line: [u8; 25] = [0x3b, 0x3b, 0x20, 0x79, 0x61, 0x73, 0x6b, 0x6b, 0x73, 0x65, 0x72, 0x76, 0x32, 0x20, 0x64, 0x69, 0x63, 0x74, 0x69, 0x6f, 0x6e, 0x61, 0x72, 0x79, 0x0a];
        append_bytes(out, &line);
        assert(line@ =~= line_title());
    }

    /// Appends the header line `;; okuri-ari entries.`.
    fn push_line_okuri_ari(out: &mut Vec<u8>)
        ensures
            final(out)@ == old(out)@ + line_okuri_ari(),
    {
        let line: [u8; 22] = [0x3b, 0x3b, 0x20, 0x6f, 0x6b, 0x75, 0x72, 0x69, 0x2d, 0x61, 0x72, 0x69, 0x20, 0x65, 0x6e, 0x74, 0x72, 0x69, 0x65, 0x73, 0x2e, 0x0a];
        append_bytes(out, &line);
        assert(line@ =~= line_okuri_ari());
    }

    /// Appends the header line `;; okuri-nasi entries.`.
    fn push_line_okuri_nasi(out: &mut Vec<u8>)
        ensures
            final(out)@ == old(out)@ + line_okuri_nasi(),
    {
        let line: [u8; 23] = [0x3b, 0x3b, 0x20, 0x6f, 0x6b, 0x75, 0x72, 0x69, 0x2d, 0x6e, 0x61, 0x73, 0x69, 0x20, 0x65, 0x6e, 0x74, 0x72, 0x69, 0x65, 0x73, 0x2e, 0x0a];
        append_bytes(out, &line);
        assert(line@ =~= line_okuri_nasi());
    }

    /// Appends the entries of `m` as jisyo lines, last first where `rev`.
    fn push_entries(out: &mut Vec<u8>, m: &ByteMap, rev: bool)
        ensures
            final(out)@ == old(out)@ + (if rev {
                entries_text(m.keys().reverse(), m.values().reverse())
            } else {
                entries_text(m.keys(), m.values())
            }),
    {
        let n = m.len();
        let ghost ks = if rev { m.keys().reverse() } else { m.keys() };
        let ghost vs = if rev { m.values().reverse() } else { m.values() };
        let ghost start = out@;
        assert(m.values().len() == n);
        let mut i: usize = 0;
        while i < n
            invariant
                i <= n,
                n == m.keys().len(),
                n == m.values().len(),
                ks == (if rev { m.keys().reverse() } else { m.keys() }),
                vs == (if rev { m.values().reverse() } else { m.values() }),
                out@ == start + entries_text(ks.subrange(0, i as int), vs.subrange(0, i as int)),
            decreases n - i,
        {
            let j = if rev { n - 1 - i } else { i };
            let (k, v) = m.get_index(j);
            append_bytes(out, k.as_slice());
            out.push(SPACE);
            append_bytes(out, v.as_slice());
            out.push(LF);
            proof {
                assert(ks.subrange(0, i + 1).drop_last() =~= ks.subrange(0, i as int));
                assert(vs.subrange(0, i + 1).drop_last() =~= vs.subrange(0, i as int));
                assert(ks[i as int] == k@);
                assert(vs[i as int] == v@);
            }
            i += 1;
            assert(out@ =~= start + entries_text(ks.subrange(0, i as int), vs.subrange(0, i as int)));
        }
        assert(ks.subrange(0, n as int) =~= ks);
        assert(vs.subrange(0, n as int) =~= vs);
    }

    /// The jisyo of the okuri-ari and okuri-nasi maps: see `spec_jisyo_text`.
    pub fn write(output_jisyo_encoding: Encoding, okuri_ari_map: &ByteMap, okuri_nasi_map: &ByteMap) -> (r: Vec<u8>)
        ensures
            r@ == spec_jisyo_text(output_jisyo_encoding, *okuri_ari_map, *okuri_nasi_map),
    {
        let mut out: Vec<u8> = Vec::new();
        if output_jisyo_encoding == Encoding::Euc {
            Self::push_line_coding_euc(&mut out);
        } else {
            Self::push_line_coding_utf8(&mut out);
        }
        Self::push_line_title(&mut out);
        Self::push_line_okuri_ari(&mut out);
        Self::push_entries(&mut out, okuri_ari_map, true);
        Self::push_line_okuri_nasi(&mut out);
        Self::push_entries(&mut out, okuri_nasi_map, false);
        assert(out@ =~= spec_jisyo_text(output_jisyo_encoding, *okuri_ari_map, *okuri_nasi_map));
        out
    }
}

impl JisyoCreator {
    /// Adds the entries of the unit `info` of a dictionary to the okuri maps. Fails with `Io`
    /// where the unit lies outside the dictionary, else as `get_okuri_ari_nasi_maps` does.
    pub fn read_dictionary_block_information(
        output_jisyo_encoding: Encoding,
        dictionary_encoding: Encoding,
        blocks_offset: u32,
        dictionary_block_information: &DictionaryBlockInformation,
        dictionary: &[u8],
        okuri_ari_map: &mut ByteMap,
        okuri_nasi_map: &mut ByteMap,
        table: &EncodingTable,
    ) -> (r: Result<(), SkkError>)
        requires
            old(okuri_ari_map).wf(),
            old(okuri_nasi_map).wf(),
            table.wf(),
        ensures
            final(okuri_ari_map).wf(),
            final(okuri_nasi_map).wf(),
            ({
                let start = blocks_offset + dictionary_block_information.offset;
                let end = start + dictionary_block_information.length;
                if end > dictionary@.len() {
                    r == Err::<(), SkkError>(SkkError::Io)
                } else {
                    match unit_entries_from(dictionary@.subrange(start, end), 0) {
                        None => r == Err::<(), SkkError>(SkkError::BrokenDictionary),
                        Some(es) => r is Ok && (final(okuri_ari_map).view(), final(okuri_nasi_map).view())
                            == okuri_maps_after(*table, old(okuri_ari_map).view(), old(okuri_nasi_map).view(), es,
                                output_jisyo_encoding, dictionary_encoding),
                    }
                }
            }),
    {
        let start: u64 = blocks_offset as u64 + dictionary_block_information.offset as u64;
        let end: u64 = start + dictionary_block_information.length as u64;
        if end > dictionary.len() as u64 {
            return Err(SkkError::Io);
        }
        let buffer = &dictionary[start as usize..end as usize];
        Self::get_okuri_ari_nasi_maps(buffer, output_jisyo_encoding, dictionary_encoding, okuri_ari_map, okuri_nasi_map, table)
    }

    /// Adds the entries of every unit of `units` to the okuri maps, in order: see
    /// `units_into_maps`.
    fn read_units(
        output_jisyo_encoding: Encoding,
        dictionary_encoding: Encoding,
        blocks_offset: u32,
        units: &Vec<DictionaryBlockInformation>,
        dictionary: &[u8],
        okuri_ari_map: &mut ByteMap,
        okuri_nasi_map: &mut ByteMap,
        table: &EncodingTable,
    ) -> (r: Result<(), SkkError>)
        requires
            old(okuri_ari_map).wf(),
            old(okuri_nasi_map).wf(),
            table.wf(),
        ensures
            final(okuri_ari_map).wf(),
            final(okuri_nasi_map).wf(),
            match units_into_maps(*table, dictionary@, blocks_offset as int, infos_view(units@), units@.len(),
                (old(okuri_ari_map).view(), old(okuri_nasi_map).view()), output_jisyo_encoding, dictionary_encoding) {
                Ok(m) => r is Ok && (final(okuri_ari_map).view(), final(okuri_nasi_map).view()) == m,
                Err(e) => r == Err::<(), SkkError>(e),
            },
    {
        let ghost us = infos_view(units@);
        let ghost m0 = (okuri_ari_map.view(), okuri_nasi_map.view());
        assert(us.len() == units@.len());
        let mut i: usize = 0;
        while i < units.len()
            invariant
                i <= units.len(),
                us == infos_view(units@),
                us.len() == units@.len(),
                m0 == (old(okuri_ari_map).view(), old(okuri_nasi_map).view()),
                okuri_ari_map.wf(),
                okuri_nasi_map.wf(),
                table.wf(),
                units_into_maps(*table, dictionary@, blocks_offset as int, us, i as nat, m0, output_jisyo_encoding, dictionary_encoding)
                    == Ok::<OkuriMaps, SkkError>((okuri_ari_map.view(), okuri_nasi_map.view())),
            decreases units.len() - i,
        {
            assert(us[i as int] == crate::on_memory::info_view(units@[i as int]));
            match Self::read_dictionary_block_information(output_jisyo_encoding, dictionary_encoding, blocks_offset,
                &units[i], dictionary, okuri_ari_map, okuri_nasi_map, table) {
                Ok(()) => {},
                Err(e) => {
                    assert(units_into_maps(*table, dictionary@, blocks_offset as int, us, (i + 1) as nat, m0, output_jisyo_encoding, dictionary_encoding)
                        == Err::<OkuriMaps, SkkError>(e));
                    proof {
                        lemma_units_err_stays(*table, dictionary@, blocks_offset as int, us, (i + 1) as nat, us.len(), m0,
                            output_jisyo_encoding, dictionary_encoding);
                    }
                    return Err(e);
                },
            }
            i += 1;
        }
        Ok(())
    }

    /// The jisyo of a dictionary in `output_jisyo_encoding`: see `jisyo_of_index`, for the index
    /// that setting the dictionary up gives, its unit vectors in some order. Fails as
    /// `Dictionary::setup` does.
    pub fn create(dictionary: &[u8], output_jisyo_encoding: Encoding) -> (r: Result<Vec<u8>, SkkError>)
        ensures
            creates_jisyo(dictionary@, output_jisyo_encoding, jisyo_result(r)),
    {
        let (on_memory, table) = match Dictionary::setup(dictionary) {
            Ok(x) => x,
            Err(e) => return Err(e),
        };
        let ghost d = dictionary@;
        assert(setup_gave(dictionary@, on_memory, table));
        if on_memory.dictionary_fixed_header.encoding > 1 {
            assert(jisyo_of_index(table, d, on_memory, output_jisyo_encoding, jisyo_result(Err::<Vec<u8>, SkkError>(SkkError::BrokenDictionary))));
            return Err(SkkError::BrokenDictionary);
        }
        let dictionary_encoding = Encoding::from_u32(on_memory.dictionary_fixed_header.encoding);
        assert(dictionary_encoding == encoding_of(on_memory.dictionary_fixed_header.encoding));
        let blocks_offset = on_memory.dictionary_fixed_header.blocks_offset;
        let ghost vecs = index_vectors(on_memory);
        let ghost bo = blocks_offset as int;
        let ghost m0 = (Map::<Seq<u8>, Seq<u8>>::empty(), Map::<Seq<u8>, Seq<u8>>::empty());
        let ghost total = vectors_into_maps(table, d, bo, vecs, vecs.len(), m0, output_jisyo_encoding, dictionary_encoding);
        assert(vecs.len() == on_memory.index_map_values.len() + on_memory.index_ascii_hiragana_vec.len());
        let mut okuri_ari_map = ByteMap::new();
        let mut okuri_nasi_map = ByteMap::new();
        assert(okuri_ari_map.view() =~= Map::<Seq<u8>, Seq<u8>>::empty());
        assert(okuri_nasi_map.view() =~= Map::<Seq<u8>, Seq<u8>>::empty());
        let nm = on_memory.index_map_values.len();
        let mut i: usize = 0;
        while i < nm
            invariant
                i <= nm,
                nm == on_memory.index_map_values.len(),
                vecs == index_vectors(on_memory),
                d == dictionary@,
                bo == blocks_offset as int,
                blocks_offset == on_memory.dictionary_fixed_header.blocks_offset,
                on_memory.dictionary_fixed_header.encoding <= 1,
                dictionary_encoding == encoding_of(on_memory.dictionary_fixed_header.encoding),
                m0 == (Map::<Seq<u8>, Seq<u8>>::empty(), Map::<Seq<u8>, Seq<u8>>::empty()),
                setup_gave(dictionary@, on_memory, table),
                okuri_ari_map.wf(),
                okuri_nasi_map.wf(),
                table.wf(),
                total == vectors_into_maps(table, d, bo, vecs, vecs.len(), m0, output_jisyo_encoding, dictionary_encoding),
                vectors_into_maps(table, d, bo, vecs, i as nat, m0, output_jisyo_encoding, dictionary_encoding)
                    == Ok::<OkuriMaps, SkkError>((okuri_ari_map.view(), okuri_nasi_map.view())),
            decreases nm - i,
        {
            assert(vecs[i as int] == infos_view(on_memory.index_map_values@[i as int]@));
            assert(vecs[i as int].len() == on_memory.index_map_values@[i as int]@.len());
            match Self::read_units(output_jisyo_encoding, dictionary_encoding, blocks_offset,
                &on_memory.index_map_values[i], dictionary, &mut okuri_ari_map, &mut okuri_nasi_map, &table) {
                Ok(()) => {},
                Err(e) => {
                    proof {
                        assert(vectors_into_maps(table, d, bo, vecs, (i + 1) as nat, m0, output_jisyo_encoding, dictionary_encoding)
                            == Err::<OkuriMaps, SkkError>(e));
                        lemma_vectors_err_stays(table, d, bo, vecs, (i + 1) as nat, vecs.len(), m0, output_jisyo_encoding, dictionary_encoding);
                    }
                    assert(jisyo_of_index(table, d, on_memory, output_jisyo_encoding, jisyo_result(Err::<Vec<u8>, SkkError>(e))));
                    return Err(e);
                },
            }
            i += 1;
        }
        let ns = on_memory.index_ascii_hiragana_vec.len();
        let mut k: usize = 0;
        while k < ns
            invariant
                k <= ns,
                nm == on_memory.index_map_values.len(),
                vecs.len() == nm + ns,
                ns == on_memory.index_ascii_hiragana_vec.len(),
                vecs == index_vectors(on_memory),
                d == dictionary@,
                bo == blocks_offset as int,
                blocks_offset == on_memory.dictionary_fixed_header.blocks_offset,
                on_memory.dictionary_fixed_header.encoding <= 1,
                dictionary_encoding == encoding_of(on_memory.dictionary_fixed_header.encoding),
                m0 == (Map::<Seq<u8>, Seq<u8>>::empty(), Map::<Seq<u8>, Seq<u8>>::empty()),
                setup_gave(dictionary@, on_memory, table),
                okuri_ari_map.wf(),
                okuri_nasi_map.wf(),
                table.wf(),
                total == vectors_into_maps(table, d, bo, vecs, vecs.len(), m0, output_jisyo_encoding, dictionary_encoding),
                vectors_into_maps(table, d, bo, vecs, (nm + k) as nat, m0, output_jisyo_encoding, dictionary_encoding)
                    == Ok::<OkuriMaps, SkkError>((okuri_ari_map.view(), okuri_nasi_map.view())),
            decreases ns - k,
        {
            assert(vecs[nm + k] == infos_view(on_memory.index_ascii_hiragana_vec@[k as int]@));
            assert(vecs[nm + k].len() == on_memory.index_ascii_hiragana_vec@[k as int]@.len());
            match Self::read_units(output_jisyo_encoding, dictionary_encoding, blocks_offset,
                &on_memory.index_ascii_hiragana_vec[k], dictionary, &mut okuri_ari_map, &mut okuri_nasi_map, &table) {
                Ok(()) => {},
                Err(e) => {
                    proof {
                        assert(vectors_into_maps(table, d, bo, vecs, (nm + k + 1) as nat, m0, output_jisyo_encoding, dictionary_encoding)
                            == Err::<OkuriMaps, SkkError>(e));
                        lemma_vectors_err_stays(table, d, bo, vecs, (nm + k + 1) as nat, vecs.len(), m0, output_jisyo_encoding, dictionary_encoding);
                    }
                    assert(jisyo_of_index(table, d, on_memory, output_jisyo_encoding, jisyo_result(Err::<Vec<u8>, SkkError>(e))));
                    return Err(e);
                },
            }
            k += 1;
        }
        let j = Self::write(output_jisyo_encoding, &okuri_ari_map, &okuri_nasi_map);
        assert(jisyo_of_index(table, d, on_memory, output_jisyo_encoding, jisyo_result(Ok::<Vec<u8>, SkkError>(j))));
        Ok(j)
    }

    /// The jisyo of the entries of a Google cache: no okuri-ari entry, and the okuri-nasi
    /// entries that `cache_nasi` gives.
    pub fn create_from_cache(
        cache_entries: &Vec<(Vec<u8>, Vec<Vec<u8>>)>,
        output_jisyo_encoding: Encoding,
        table: &EncodingTable,
    ) -> (r: Vec<u8>)
        requires
            table.wf(),
        ensures
            is_cache_jisyo(*table, output_jisyo_encoding, cache_view(cache_entries@), r@),
    {
        let okuri_ari_map = ByteMap::new();
        let mut okuri_nasi_map = ByteMap::new();
        let ghost entries = cache_view(cache_entries@);
        assert(okuri_ari_map.view() =~= Map::<Seq<u8>, Seq<u8>>::empty());
        assert(okuri_nasi_map.view() =~= Map::<Seq<u8>, Seq<u8>>::empty());
        let mut i: usize = 0;
        while i < cache_entries.len()
            invariant
                okuri_nasi_map.wf(),
                table.wf(),
                i <= cache_entries.len(),
                entries == cache_view(cache_entries@),
                okuri_nasi_map.view() == cache_nasi(*table, output_jisyo_encoding, entries, i as nat),
            decreases cache_entries.len() - i,
        {
            let (key, values) = &cache_entries[i];
            let ghost vs = vv(values@);
            assert(entries[i as int] == (key@, vs));
            let mut utf8_candidates: Vec<u8> = Vec::new();
            let mut k: usize = 1;
            while k < values.len()
                invariant
                    1 <= k,
                    k <= values.len() || k == 1,
                    vs == vv(values@),
                    utf8_candidates@ == cache_values_text(vs, k as nat),
                decreases values.len() - k,
            {
                let q = Candidates::quote_and_add_prefix(values[k].as_slice(), Some(SLASH));
                append_bytes(&mut utf8_candidates, q.as_slice());
                assert(vs[k as int] == values@[k as int]@);
                k += 1;
            }
            assert(vs.len() == values.len());
            if values.len() == 0 {
                assert(cache_values_text(vs, 1) == cache_values_text(vs, 0));
            } else {
                assert(k == values.len());
            }
            assert(utf8_candidates@ == cache_values_text(vs, vs.len()));
            let mut candidates = if output_jisyo_encoding == Encoding::Euc {
                match Euc::encode(utf8_candidates.as_slice(), table) { Ok(v) => v, Err(_) => Vec::new() }
            } else {
                utf8_candidates
            };
            candidates.push(SLASH);
            assert(candidates@ == cache_entry_candidates(*table, output_jisyo_encoding, vs));
            let mut midashi: Vec<u8> = Vec::new();
            append_bytes(&mut midashi, key.as_slice());
            assert(midashi@ == key@);
            let ghost before = okuri_nasi_map;
            okuri_nasi_map.insert(midashi, candidates);
            proof {
                ByteMap::lemma_insert_view(before, okuri_nasi_map, key@, cache_entry_candidates(*table, output_jisyo_encoding, vs));
            }
            i += 1;
        }
        let r = Self::write(output_jisyo_encoding, &okuri_ari_map, &okuri_nasi_map);
        assert(entries.len() == cache_entries@.len());
        assert(is_cache_jisyo(*table, output_jisyo_encoding, entries, r@));
        r
    }
}

/// Whether `j` is the jisyo of the cache entries `entries`: no okuri-ari entry, and the
/// okuri-nasi entries that `cache_nasi` gives, in midashi order.
pub open spec fn is_cache_jisyo(t: EncodingTable, out: Encoding, entries: Seq<(Seq<u8>, Seq<Seq<u8>>)>, j: Seq<u8>) -> bool {
    exists|ari: ByteMap, nasi: ByteMap| ari.wf() && nasi.wf() && ari.view() == Map::<Seq<u8>, Seq<u8>>::empty()
        && nasi.view() == cache_nasi(t, out, entries, entries.len())
        && j == #[trigger] spec_jisyo_text(out, ari, nasi)
}

/// A cache's entries as byte sequences: each midashi with its values.
pub open spec fn cache_view(entries: Seq<(Vec<u8>, Vec<Vec<u8>>)>) -> Seq<(Seq<u8>, Seq<Seq<u8>>)> {
    entries.map_values(|e: (Vec<u8>, Vec<Vec<u8>>)| (e.0@, vv(e.1@)))
}

/// `/` and the quoted value for each of the first `n` values but the first, which is the
/// entry's time.
pub open spec fn cache_values_text(values: Seq<Seq<u8>>, n: nat) -> Seq<u8>
    decreases n,
{
    if n <= 1 {
        Seq::<u8>::empty()
    } else {
        cache_values_text(values, (n - 1) as nat) + seq![SLASH] + spec_quote(values[n - 1])
    }
}

/// The candidates that a cache entry's values give in a jisyo: their text (see
/// `cache_values_text`), encoded to EUC for an EUC jisyo, and a closing `/`.
pub open spec fn cache_entry_candidates(t: EncodingTable, out: Encoding, values: Seq<Seq<u8>>) -> Seq<u8> {
    let text = cache_values_text(values, values.len());
    (if out == Encoding::Euc { spec_encode(t, text) } else { text }).push(SLASH)
}

/// The okuri-nasi entries of the first `n` cache entries, a later midashi replacing an earlier
/// one.
pub open spec fn cache_nasi(t: EncodingTable, out: Encoding, entries: Seq<(Seq<u8>, Seq<Seq<u8>>)>, n: nat) -> Map<Seq<u8>, Seq<u8>>
    decreases n,
{
    if n == 0 {
        Map::empty()
    } else {
        cache_nasi(t, out, entries, (n - 1) as nat).insert(entries[n - 1].0, cache_entry_candidates(t, out, entries[n - 1].1))
    }
}

} // verus!
