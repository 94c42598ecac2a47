//! How the index that a dictionary is built with reads back.
use vstd::prelude::*;
use crate::encoding::encoding_number;
use crate::byte_map::ByteMap;
use crate::bytes::{lemma_find_from, lemma_split_join, spec_contains_byte, spec_join};
use crate::dictionary::{lemma_header_bytes_roundtrip, lemma_le_at, spec_header_bytes, DictionaryFixedHeader};
use crate::dictionary_creator::{
    advance, aligned_block_after, block_header_bytes, build_all, build_bounds, build_step, creates, cut_info, cut_infos,
    dictionary_body, dictionary_fits, empty_build, final_index_header, infos_midashi, is_dictionary_of, lemma_aligned_after_len,
    lemma_build_all_step, lemma_cut_step_bounds, lemma_offsets_bytes_len, offsets_bytes, spec_block_units, spec_block_walk,
    spec_cut_step, spec_fixed_header_ok, spec_max_entry_from, spec_temporary_block_map, unit_bytes, with_sha1, IndexBuild,
    UnitCut, INDEX_DATA_BLOCK_LENGTH, SPACE,
};
use crate::encoding::Encoding;
use crate::encoding_simple::encoding_table::{combine_unit_ok, le_bytes, le_u32, table_combine_length, table_well_sized};
use crate::encoding_simple::EncodingTable;
use crate::error::SkkError;
use crate::jisyo_reader::entries_of_jisyos;
use crate::on_memory::{block_units, blocks_units, hashed_area, index_units, spec_setup, unit_parse, units_parse, InfoView};
use crate::outside::spec_sha1;

verus! {

/// The offset and the length of unit `i` stand at `8 * i` of the offsets and lengths.
proof fn lemma_offsets_bytes_at(infos: Seq<InfoView>, i: int)
    requires
        0 <= i < infos.len(),
    ensures
        offsets_bytes(infos).len() == 8 * infos.len(),
        offsets_bytes(infos).subrange(8 * i, 8 * i + 4) == le_bytes(infos[i].1 as nat),
        offsets_bytes(infos).subrange(8 * i + 4, 8 * i + 8) == le_bytes(infos[i].2 as nat),
    decreases infos.len(),
{
    let d = infos.drop_last();
    lemma_offsets_bytes_len(infos);
    lemma_offsets_bytes_len(d);
    let o = offsets_bytes(infos);
    let od = offsets_bytes(d);
    assert(o == od + le_bytes(infos.last().1 as nat) + le_bytes(infos.last().2 as nat));
    if i == infos.len() - 1 {
        assert(o.subrange(8 * i, 8 * i + 4) =~= le_bytes(infos[i].1 as nat));
        assert(o.subrange(8 * i + 4, 8 * i + 8) =~= le_bytes(infos[i].2 as nat));
    } else {
        lemma_offsets_bytes_at(d, i);
        assert(o.subrange(8 * i, 8 * i + 4) =~= od.subrange(8 * i, 8 * i + 4));
        assert(o.subrange(8 * i + 4, 8 * i + 8) =~= od.subrange(8 * i + 4, 8 * i + 8));
    }
}

/// Whether a unit record can be read back: a 4-byte key, at least one unit, counts that fit in
/// a `u32`, and midashi without a space.
pub open spec fn record_readable(key: Seq<u8>, infos: Seq<InfoView>) -> bool {
    &&& key.len() == 4
    &&& 1 <= infos.len() <= u32::MAX
    &&& spec_join(infos_midashi(infos), SPACE).len() <= u32::MAX
    &&& forall|i: int| 0 <= i < infos.len() ==> !spec_contains_byte(#[trigger] infos[i].0, SPACE)
}

/// A piece of `u` where `b` holds `u` at `off`.
proof fn lemma_piece_at(b: Seq<u8>, off: int, u: Seq<u8>, x: int, y: int)
    requires
        0 <= off,
        off + u.len() <= b.len(),
        b.subrange(off, off + u.len()) == u,
        0 <= x <= y <= u.len(),
    ensures
        b.subrange(off + x, off + y) == u.subrange(x, y),
{
    assert(b.subrange(off + x, off + y) =~= b.subrange(off, off + u.len()).subrange(x, y));
}

/// The head of a unit record where `b` holds it at `off`: the counts, the key and the joined
/// midashi.
proof fn lemma_record_head(b: Seq<u8>, off: int, key: Seq<u8>, infos: Seq<InfoView>)
    requires
        record_readable(key, infos),
        0 <= off,
        off + unit_bytes(key, infos).len() <= b.len(),
        b.subrange(off, off + unit_bytes(key, infos).len()) == unit_bytes(key, infos),
    ensures
        unit_bytes(key, infos).len() == 12 + 8 * infos.len() + spec_join(infos_midashi(infos), SPACE).len(),
        crate::encoding_simple::encoding_table::le_u32(b, off) == infos.len(),
        crate::encoding_simple::encoding_table::le_u32(b, off + 4) == spec_join(infos_midashi(infos), SPACE).len(),
        b.subrange(off + 8, off + 12) == key,
        b.subrange(off + 12 + 8 * infos.len(), off + unit_bytes(key, infos).len()) == spec_join(infos_midashi(infos), SPACE),
{
    let n = infos.len();
    let joined = spec_join(infos_midashi(infos), SPACE);
    let u = unit_bytes(key, infos);
    lemma_offsets_bytes_len(infos);
    let l = u.len() as int;
    assert(l == 12 + 8 * n + joined.len());
    lemma_piece_at(b, off, u, 0, 4);
    assert(u.subrange(0, 4) =~= le_bytes(n));
    lemma_le_at(b, off, n as u32);
    lemma_piece_at(b, off, u, 4, 8);
    assert(u.subrange(4, 8) =~= le_bytes(joined.len()));
    lemma_le_at(b, off + 4, joined.len() as u32);
    lemma_piece_at(b, off, u, 8, 12);
    assert(u.subrange(8, 12) =~= key);
    lemma_piece_at(b, off, u, 12 + 8 * n as int, l);
    assert(u.subrange(12 + 8 * n as int, l) =~= joined);
}

/// The offset and the length of unit `i` of a unit record where `b` holds it at `off`.
proof fn lemma_record_unit(b: Seq<u8>, off: int, key: Seq<u8>, infos: Seq<InfoView>, i: int)
    requires
        record_readable(key, infos),
        0 <= off,
        off + unit_bytes(key, infos).len() <= b.len(),
        b.subrange(off, off + unit_bytes(key, infos).len()) == unit_bytes(key, infos),
        0 <= i < infos.len(),
    ensures
        crate::encoding_simple::encoding_table::le_u32(b, off + 12 + 8 * i) == infos[i].1,
        crate::encoding_simple::encoding_table::le_u32(b, off + 16 + 8 * i) == infos[i].2,
{
    let u = unit_bytes(key, infos);
    let ob = offsets_bytes(infos);
    let joined = spec_join(infos_midashi(infos), SPACE);
    lemma_offsets_bytes_at(infos, i);
    assert(u.len() == 12 + 8 * infos.len() + joined.len());
    lemma_piece_at(b, off, u, 12 + 8 * i, 16 + 8 * i);
    assert(u.subrange(12 + 8 * i, 16 + 8 * i) =~= ob.subrange(8 * i, 8 * i + 4));
    lemma_le_at(b, off + 12 + 8 * i, infos[i].1);
    lemma_piece_at(b, off, u, 16 + 8 * i, 20 + 8 * i);
    assert(u.subrange(16 + 8 * i, 20 + 8 * i) =~= ob.subrange(8 * i + 4, 8 * i + 8));
    lemma_le_at(b, off + 16 + 8 * i, infos[i].2);
}

/// Reading the unit record that `unit_bytes` writes gives back its key and its units, and the
/// position where it ends.
pub proof fn lemma_unit_record_reads_back(b: Seq<u8>, off: int, key: Seq<u8>, infos: Seq<InfoView>)
    requires
        record_readable(key, infos),
        0 <= off,
        off + unit_bytes(key, infos).len() <= b.len(),
        b.subrange(off, off + unit_bytes(key, infos).len()) == unit_bytes(key, infos),
    ensures
        unit_parse(b, off) == Some((key, infos, off + unit_bytes(key, infos).len())),
{
    let n = infos.len();
    let ms = infos_midashi(infos);
    lemma_record_head(b, off, key, infos);
    assert forall|i: int| 0 <= i < ms.len() implies !spec_contains_byte(#[trigger] ms[i], SPACE) by {
        assert(ms[i] == infos[i].0);
    }
    lemma_split_join(ms, SPACE);
    let parsed = Seq::new(n as nat, |i: int| (ms[i], crate::encoding_simple::encoding_table::le_u32(b, off + 12 + 8 * i) as u32,
        crate::encoding_simple::encoding_table::le_u32(b, off + 16 + 8 * i) as u32));
    assert forall|i: int| 0 <= i < n implies #[trigger] parsed[i] == infos[i] by {
        lemma_record_unit(b, off, key, infos, i);
    }
    assert(parsed =~= infos);
}

/// The unit records of `units` laid end to end, as the index data holds them.
pub open spec fn records_bytes(units: Seq<(Seq<u8>, Seq<InfoView>)>) -> Seq<u8>
    decreases units.len(),
{
    if units.len() == 0 {
        Seq::empty()
    } else {
        records_bytes(units.drop_last()) + unit_bytes(units.last().0, units.last().1)
    }
}

/// The records of two runs of units laid end to end are the records of both runs.
pub proof fn lemma_records_bytes_concat(a: Seq<(Seq<u8>, Seq<InfoView>)>, b: Seq<(Seq<u8>, Seq<InfoView>)>)
    ensures
        records_bytes(a + b) == records_bytes(a) + records_bytes(b),
    decreases b.len(),
{
    if b.len() == 0 {
        assert(a + b =~= a);
        assert(records_bytes(a) + records_bytes(b) =~= records_bytes(a));
    } else {
        lemma_records_bytes_concat(a, b.drop_last());
        assert((a + b).drop_last() =~= a + b.drop_last());
        assert((a + b).last() == b.last());
        assert(records_bytes(a + b) =~= records_bytes(a) + records_bytes(b));
    }
}

/// Reading `units.len()` records from where `b` holds the records of `units` gives back the
/// units, and the position where their records end.
pub proof fn lemma_records_read_back(b: Seq<u8>, off: int, units: Seq<(Seq<u8>, Seq<InfoView>)>)
    requires
        0 <= off,
        off + records_bytes(units).len() <= b.len(),
        b.subrange(off, off + records_bytes(units).len()) == records_bytes(units),
        forall|j: int| 0 <= j < units.len() ==> record_readable(#[trigger] units[j].0, units[j].1),
    ensures
        units_parse(b, off, units.len()) == Some((units, off + records_bytes(units).len())),
    decreases units.len(),
{
    if units.len() > 0 {
        let d = units.drop_last();
        let rd = records_bytes(d);
        let last = units.last();
        let u = unit_bytes(last.0, last.1);
        assert(records_bytes(units) == rd + u);
        lemma_piece_at(b, off, records_bytes(units), 0, rd.len() as int);
        assert(records_bytes(units).subrange(0, rd.len() as int) =~= rd);
        assert forall|j: int| 0 <= j < d.len() implies record_readable(#[trigger] d[j].0, d[j].1) by {
            assert(d[j] == units[j]);
        }
        lemma_records_read_back(b, off, d);
        lemma_piece_at(b, off, records_bytes(units), rd.len() as int, (rd.len() + u.len()) as int);
        assert(records_bytes(units).subrange(rd.len() as int, (rd.len() + u.len()) as int) =~= u);
        assert(record_readable(units[units.len() - 1].0, units[units.len() - 1].1));
        lemma_unit_record_reads_back(b, off + rd.len(), last.0, last.1);
        assert(d.push(last) =~= units);
    }
}

/// Every unit that cutting a block from `offset` gives starts before the space after its first
/// midashi, and that midashi holds no space; there is at least one unit.
proof fn lemma_walk_midashi(b: Seq<u8>, offset: int, max: int)
    ensures
        spec_block_walk(b, offset, max) matches Some(cs) ==> cs.len() >= 1 && forall|j: int| 0 <= j < cs.len() ==> {
            &&& 0 <= #[trigger] cs[j].0 + 1 <= cs[j].1 <= b.len()
            &&& !spec_contains_byte(b.subrange(cs[j].0 + 1, cs[j].1), SPACE)
        },
    decreases b.len() - offset,
{
    match spec_cut_step(b, offset, max) {
        None => {},
        Some((sp, rf, sb)) => {
            lemma_cut_step_bounds(b, offset, max);
            lemma_find_from(b, offset, SPACE);
            let mb = b.subrange(offset + 1, sp);
            assert(!spec_contains_byte(mb, SPACE)) by {
                if spec_contains_byte(mb, SPACE) {
                    let i = choose|i: int| 0 <= i < mb.len() && #[trigger] mb[i] == SPACE;
                    assert(b[offset + 1 + i] == SPACE);
                }
            }
            if !sb && rf > offset {
                lemma_walk_midashi(b, rf, max);
                match spec_block_walk(b, rf, max) {
                    None => {},
                    Some(rest) => {
                        let cs = seq![(offset, sp, rf)] + rest;
                        assert forall|j: int| 0 <= j < cs.len() implies {
                            &&& 0 <= #[trigger] cs[j].0 + 1 <= cs[j].1 <= b.len()
                            &&& !spec_contains_byte(b.subrange(cs[j].0 + 1, cs[j].1), SPACE)
                        } by {
                            if j > 0 {
                                assert(cs[j] == rest[j - 1]);
                            }
                        }
                    },
                }
            }
        },
    }
}

/// The units of a cut block can be written as a readable record under a 4-byte key where the
/// record's counts fit in a `u32`.
proof fn lemma_cut_infos_readable(block: Seq<u8>, blocks_len: int, cs: Seq<UnitCut>, key: Seq<u8>)
    requires
        spec_block_units(block) == Some(cs),
        key.len() == 4,
        unit_bytes(key, cut_infos(block, blocks_len, cs)).len() <= u32::MAX,
    ensures
        record_readable(key, cut_infos(block, blocks_len, cs)),
{
    let infos = cut_infos(block, blocks_len, cs);
    let m = spec_max_entry_from(block, 0, 0).unwrap();
    lemma_walk_midashi(block, 0, m);
    lemma_offsets_bytes_len(infos);
    assert forall|i: int| 0 <= i < infos.len() implies !spec_contains_byte(#[trigger] infos[i].0, SPACE) by {
        let c = cs[cs.len() - 1 - i];
        assert(infos[i] == cut_info(block, blocks_len, c));
    }
}

/// What building keeps of the index data: it holds the records of the units built, the open
/// index block starts after the records of the units before it, every block header takes 12
/// bytes, and every record can be read back.
pub open spec fn build_shape(st: IndexBuild) -> bool {
    &&& st.index_data == records_bytes(st.units)
    &&& st.block_units <= st.units.len()
    &&& st.block_offset == records_bytes(st.units.take(st.units.len() - st.block_units)).len()
    &&& st.headers.len() == 12 * st.header_count
    &&& forall|j: int| 0 <= j < st.units.len() ==> record_readable(#[trigger] st.units[j].0, st.units[j].1)
}

/// One step of building keeps its bounds and the shape of the index data.
#[verifier::spinoff_prover]
#[verifier::rlimit(80)]
proof fn lemma_shape_step(st: IndexBuild, key: Seq<u8>, block: Seq<u8>)
    requires
        build_bounds(st),
        build_shape(st),
        build_step(st, key, block) is Some,
    ensures
        build_bounds(build_step(st, key, block).unwrap()),
        build_shape(build_step(st, key, block).unwrap()),
{
    let cs = spec_block_units(block).unwrap();
    let infos = cut_infos(block, st.blocks.len() as int, cs);
    let st2 = build_step(st, key, block).unwrap();
    lemma_offsets_bytes_len(infos);
    lemma_cut_infos_readable(block, st.blocks.len() as int, cs, key);
    lemma_aligned_after_len(block, cs);
    let units2 = st.units.push((key, infos));
    assert(st2.units == units2);
    assert(units2.drop_last() =~= st.units);
    assert(st2.index_data == records_bytes(units2));
    assert forall|j: int| 0 <= j < units2.len() implies record_readable(#[trigger] units2[j].0, units2[j].1) by {
        if j < st.units.len() {
            assert(units2[j] == st.units[j]);
        }
    }
    assert(units2.take(st.units.len() as int) =~= st.units);
    assert(units2.take(st.units.len() - st.block_units) =~= st.units.take(st.units.len() - st.block_units));
}

/// Building keeps its bounds and the shape of the index data.
pub proof fn lemma_build_shape(ks: Seq<Seq<u8>>, vs: Seq<Seq<u8>>, n: nat)
    ensures
        build_all(ks, vs, n) matches Some(st) ==> build_bounds(st) && build_shape(st),
    decreases n,
{
    lemma_build_all_step(ks, vs, 0);
    if n == 0 {
        assert(records_bytes(empty_build().units) =~= Seq::<u8>::empty());
        assert(empty_build().units.take(0) =~= empty_build().units);
    } else {
        let k = (n - 1) as nat;
        lemma_build_shape(ks, vs, k);
        lemma_build_all_step(ks, vs, k);
        if build_all(ks, vs, n) is Some {
            lemma_shape_step(build_all(ks, vs, k).unwrap(), ks[k as int], vs[k as int]);
        }
    }
}

/// Whether every unit record of `st` fits in an index block.
pub open spec fn records_fit_blocks(st: IndexBuild) -> bool {
    forall|j: int| 0 <= j < st.units.len() ==> #[trigger] unit_bytes(st.units[j].0, st.units[j].1).len() <= INDEX_DATA_BLOCK_LENGTH
}

/// Reading the open index block of `st` through its header at `8 + 12 * i` of `h` gives the
/// units that it holds.
#[verifier::spinoff_prover]
#[verifier::rlimit(80)]
proof fn lemma_open_block_reads_back(st: IndexBuild, d: Seq<u8>, io: int, h: Seq<u8>, i: int)
    requires
        build_bounds(st),
        build_shape(st),
        st.block_length <= INDEX_DATA_BLOCK_LENGTH,
        0 <= io,
        io + st.index_data.len() <= d.len(),
        d.subrange(io, io + st.index_data.len()) == st.index_data,
        0 <= i,
        8 + 12 * i + 12 <= h.len(),
        h.subrange(8 + 12 * i, 8 + 12 * i + 12) == block_header_bytes(st.block_offset, st.block_length, st.block_units),
        le_u32(h, 0) == INDEX_DATA_BLOCK_LENGTH,
    ensures
        block_units(d, io, h, i) == Some(st.units.skip(st.units.len() - st.block_units)),
{
    let k = st.units.len() - st.block_units;
    let at = 8 + 12 * i;
    let bh = block_header_bytes(st.block_offset, st.block_length, st.block_units);
    lemma_piece_at(h, at, bh, 0, 4);
    assert(bh.subrange(0, 4) =~= le_bytes(st.block_offset));
    lemma_le_at(h, at, st.block_offset as u32);
    lemma_piece_at(h, at, bh, 4, 8);
    assert(bh.subrange(4, 8) =~= le_bytes(st.block_length));
    lemma_le_at(h, at + 4, st.block_length as u32);
    lemma_piece_at(h, at, bh, 8, 12);
    assert(bh.subrange(8, 12) =~= le_bytes(st.block_units));
    lemma_le_at(h, at + 8, st.block_units as u32);
    let head = st.units.take(k);
    let tail = st.units.skip(k);
    assert(head + tail =~= st.units);
    lemma_records_bytes_concat(head, tail);
    let start = io + st.block_offset;
    let blk = d.subrange(start, start + st.block_length);
    assert(blk =~= st.index_data.subrange(st.block_offset as int, st.index_data.len() as int));
    assert(blk =~= records_bytes(tail));
    assert forall|j: int| 0 <= j < tail.len() implies record_readable(#[trigger] tail[j].0, tail[j].1) by {
        assert(tail[j] == st.units[k + j]);
    }
    assert(blk.subrange(0, records_bytes(tail).len() as int) =~= records_bytes(tail));
    lemma_records_read_back(blk, 0, tail);
}

/// Reading the closed index blocks of `st` through their headers in `h` gives the units that
/// they hold; the open block is no longer than an index block.
#[verifier::spinoff_prover]
#[verifier::rlimit(80)]
proof fn lemma_closed_blocks_read_back(ks: Seq<Seq<u8>>, vs: Seq<Seq<u8>>, n: nat, d: Seq<u8>, io: int, h: Seq<u8>)
    requires
        build_all(ks, vs, n) is Some,
        records_fit_blocks(build_all(ks, vs, n).unwrap()),
        0 <= io,
        io + build_all(ks, vs, n).unwrap().index_data.len() <= d.len(),
        d.subrange(io, io + build_all(ks, vs, n).unwrap().index_data.len()) == build_all(ks, vs, n).unwrap().index_data,
        8 + build_all(ks, vs, n).unwrap().headers.len() <= h.len(),
        h.subrange(8, 8 + build_all(ks, vs, n).unwrap().headers.len() as int) == build_all(ks, vs, n).unwrap().headers,
        le_u32(h, 0) == INDEX_DATA_BLOCK_LENGTH,
    ensures
        ({
            let st = build_all(ks, vs, n).unwrap();
            &&& st.block_length <= INDEX_DATA_BLOCK_LENGTH
            &&& blocks_units(d, io, h, st.header_count) == Some(st.units.take(st.units.len() - st.block_units))
        }),
    decreases n,
{
    lemma_build_all_step(ks, vs, 0);
    lemma_build_shape(ks, vs, n);
    let st2 = build_all(ks, vs, n).unwrap();
    if n == 0 {
        assert(st2.units.take(0) =~= Seq::<(Seq<u8>, Seq<InfoView>)>::empty());
    } else {
        let k = (n - 1) as nat;
        lemma_build_all_step(ks, vs, k);
        lemma_build_shape(ks, vs, k);
        let st = build_all(ks, vs, k).unwrap();
        let key = ks[k as int];
        let block = vs[k as int];
        let cs = spec_block_units(block).unwrap();
        let infos = cut_infos(block, st.blocks.len() as int, cs);
        let ub = unit_bytes(key, infos);
        assert(st2 == advance(st, key, infos, ub, aligned_block_after(Seq::empty(), block, cs)));
        assert(st2.units == st.units.push((key, infos)));
        assert forall|j: int| 0 <= j < st.units.len() implies #[trigger] unit_bytes(st.units[j].0, st.units[j].1).len() <= INDEX_DATA_BLOCK_LENGTH by {
            assert(st.units[j] == st2.units[j]);
        }
        assert(unit_bytes(st2.units[st.units.len() as int].0, st2.units[st.units.len() as int].1).len() <= INDEX_DATA_BLOCK_LENGTH);
        assert(d.subrange(io, io + st.index_data.len()) =~= st2.index_data.subrange(0, st.index_data.len() as int));
        assert(st2.index_data.subrange(0, st.index_data.len() as int) =~= st.index_data);
        assert(h.subrange(8, 8 + st.headers.len() as int) =~= st2.headers.subrange(0, st.headers.len() as int));
        assert(st2.headers.subrange(0, st.headers.len() as int) =~= st.headers);
        lemma_closed_blocks_read_back(ks, vs, k, d, io, h);
        let kk = st.units.len() - st.block_units;
        if st.block_length + ub.len() >= INDEX_DATA_BLOCK_LENGTH {
            assert(h.subrange(8 + 12 * st.header_count as int, 8 + 12 * st.header_count as int + 12)
                =~= st2.headers.subrange(st.headers.len() as int, st.headers.len() as int + 12));
            assert(st2.headers.subrange(st.headers.len() as int, st.headers.len() as int + 12)
                =~= block_header_bytes(st.block_offset, st.block_length, st.block_units));
            lemma_open_block_reads_back(st, d, io, h, st.header_count as int);
            assert(st.units.take(kk) + st.units.skip(kk) =~= st.units);
            assert(st2.units.take(st2.units.len() - st2.block_units) =~= st.units);
        } else {
            assert(st2.units.take(st2.units.len() - st2.block_units) =~= st.units.take(kk));
        }
    }
}

/// The index that building the string blocks `ks`, `vs` produces reads back as the units built,
/// in order, where the dictionary `d` holds its index data at `io` and every unit record fits
/// in an index block.
#[verifier::spinoff_prover]
#[verifier::rlimit(80)]
pub proof fn lemma_index_reads_back(ks: Seq<Seq<u8>>, vs: Seq<Seq<u8>>, n: nat, d: Seq<u8>, io: int)
    requires
        build_all(ks, vs, n) is Some,
        records_fit_blocks(build_all(ks, vs, n).unwrap()),
        0 <= io,
        io + build_all(ks, vs, n).unwrap().index_data.len() <= d.len(),
        d.subrange(io, io + build_all(ks, vs, n).unwrap().index_data.len()) == build_all(ks, vs, n).unwrap().index_data,
    ensures
        index_units(d, io, final_index_header(build_all(ks, vs, n).unwrap())) == Some(build_all(ks, vs, n).unwrap().units),
{
    let st = build_all(ks, vs, n).unwrap();
    lemma_build_shape(ks, vs, n);
    let h = final_index_header(st);
    let lb = le_bytes(INDEX_DATA_BLOCK_LENGTH as nat);
    assert(h.subrange(0, 4) =~= lb);
    lemma_le_at(h, 0, INDEX_DATA_BLOCK_LENGTH as u32);
    let kk = st.units.len() - st.block_units;
    if st.block_length > 0 {
        let c = st.header_count + 1;
        assert(h.subrange(4, 8) =~= le_bytes(c));
        lemma_le_at(h, 4, c as u32);
        assert(h.subrange(8, 8 + st.headers.len() as int) =~= st.headers);
        lemma_closed_blocks_read_back(ks, vs, n, d, io, h);
        assert(h.subrange(8 + 12 * st.header_count as int, 8 + 12 * st.header_count as int + 12)
            =~= block_header_bytes(st.block_offset, st.block_length, st.block_units));
        lemma_open_block_reads_back(st, d, io, h, st.header_count as int);
        assert(st.units.take(kk) + st.units.skip(kk) =~= st.units);
    } else {
        assert(h.subrange(4, 8) =~= le_bytes(st.header_count));
        lemma_le_at(h, 4, st.header_count as u32);
        assert(h.subrange(8, 8 + st.headers.len() as int) =~= st.headers);
        lemma_closed_blocks_read_back(ks, vs, n, d, io, h);
        assert(st.units.take(kk) =~= st.units);
    }
}

/// The fields of two headers that agree on all but the digest are stored alike in their first
/// 44 bytes.
#[verifier::spinoff_prover]
#[verifier::rlimit(40)]
proof fn lemma_header_head(h: DictionaryFixedHeader, h2: DictionaryFixedHeader)
    requires
        h2.dictionary_version == h.dictionary_version,
        h2.encoding_table_offset == h.encoding_table_offset,
        h2.encoding_table_length == h.encoding_table_length,
        h2.index_data_header_offset == h.index_data_header_offset,
        h2.index_data_header_length == h.index_data_header_length,
        h2.index_data_offset == h.index_data_offset,
        h2.index_data_length == h.index_data_length,
        h2.blocks_offset == h.blocks_offset,
        h2.blocks_length == h.blocks_length,
        h2.dictionary_length == h.dictionary_length,
        h2.encoding == h.encoding,
    ensures
        spec_header_bytes(h2).subrange(0, 44) == spec_header_bytes(h).subrange(0, 44),
        spec_header_bytes(h).len() == 64,
        spec_header_bytes(h2).len() == 64,
        spec_header_bytes(h).subrange(44, 64) == h.sha1sum@,
        spec_header_bytes(h2).subrange(44, 64) == h2.sha1sum@,
{
    assert(spec_header_bytes(h2).subrange(0, 44) =~= spec_header_bytes(h).subrange(0, 44));
    assert(spec_header_bytes(h).subrange(44, 64) =~= h.sha1sum@);
    assert(spec_header_bytes(h2).subrange(44, 64) =~= h2.sha1sum@);
}

/// The header of a dictionary laid out as `body` with the digest set by `h2`: its fields read
/// back, and the bytes over which the digest is taken are `body`.
#[verifier::spinoff_prover]
#[verifier::rlimit(40)]
proof fn lemma_layout_header(d: Seq<u8>, body: Seq<u8>, h: DictionaryFixedHeader, h2: DictionaryFixedHeader)
    requires
        h2.dictionary_version == h.dictionary_version,
        h2.encoding_table_offset == h.encoding_table_offset,
        h2.encoding_table_length == h.encoding_table_length,
        h2.index_data_header_offset == h.index_data_header_offset,
        h2.index_data_header_length == h.index_data_header_length,
        h2.index_data_offset == h.index_data_offset,
        h2.index_data_length == h.index_data_length,
        h2.blocks_offset == h.blocks_offset,
        h2.blocks_length == h.blocks_length,
        h2.dictionary_length == h.dictionary_length,
        h2.encoding == h.encoding,
        h.sha1sum@ == Seq::new(20, |i: int| 0u8),
        body.len() >= 64,
        body.subrange(0, 64) == spec_header_bytes(h),
        d == spec_header_bytes(h2) + body.subrange(64, body.len() as int),
    ensures
        d.len() == body.len(),
        le_u32(d, 4) == h.encoding_table_offset,
        le_u32(d, 8) == h.encoding_table_length,
        le_u32(d, 12) == h.index_data_header_offset,
        le_u32(d, 16) == h.index_data_header_length,
        le_u32(d, 20) == h.index_data_offset,
        le_u32(d, 28) == h.blocks_offset,
        le_u32(d, 36) == h.dictionary_length,
        le_u32(d, 40) == h.encoding,
        hashed_area(d, d.len() as int) == body,
        d.subrange(44, 64) == h2.sha1sum@,
        d.subrange(64, d.len() as int) == body.subrange(64, body.len() as int),
{
    lemma_header_head(h, h2);
    let hb = spec_header_bytes(h);
    let hb2 = spec_header_bytes(h2);
    lemma_header_bytes_roundtrip(h2);
    assert forall|k: int| 0 <= k < 64 implies d[k] == hb2[k] by {}
    assert(hashed_area(d, d.len() as int) =~= body) by {
        assert(d.subrange(0, 44) =~= hb2.subrange(0, 44));
        assert(hb =~= hb.subrange(0, 44) + hb.subrange(44, 64));
        assert(d.subrange(64, d.len() as int) =~= body.subrange(64, body.len() as int));
        assert(body =~= body.subrange(0, 64) + body.subrange(64, body.len() as int));
    }
    assert(d.subrange(44, 64) =~= hb2.subrange(44, 64));
    assert(d.subrange(64, d.len() as int) =~= body.subrange(64, body.len() as int));
}

/// Where a laid-out dictionary holds its convert table, its index data header and its index
/// data.
#[verifier::spinoff_prover]
#[verifier::rlimit(40)]
proof fn lemma_layout_regions(d: Seq<u8>, h: DictionaryFixedHeader, pad: nat, table: Seq<u8>, st: IndexBuild)
    requires
        d.len() == dictionary_body(h, pad, table, st).len(),
        d.subrange(64, d.len() as int) == dictionary_body(h, pad, table, st).subrange(64, d.len() as int),
    ensures
        d.subrange(256, 256 + table.len() as int) == table,
        d.subrange(256 + table.len() as int, 256 + table.len() + final_index_header(st).len() as int) == final_index_header(st),
        d.subrange(256 + table.len() + final_index_header(st).len() as int,
            256 + table.len() + final_index_header(st).len() + st.index_data.len() as int) == st.index_data,
        256 + table.len() + final_index_header(st).len() + st.index_data.len() <= d.len(),
{
    let body = dictionary_body(h, pad, table, st);
    let fih = final_index_header(st);
    let t0 = 256int;
    let t1 = t0 + table.len();
    let t2 = t1 + fih.len();
    let t3 = t2 + st.index_data.len();
    assert(spec_header_bytes(h).len() == 64) by {
        assert(spec_header_bytes(h).len() == 44 + h.sha1sum@.len());
    }
    assert(body.subrange(t0, t1) =~= table);
    assert(body.subrange(t1, t2) =~= fih);
    assert(body.subrange(t2, t3) =~= st.index_data);
    let tail = d.subrange(64, d.len() as int);
    assert(d.subrange(t0, t1) =~= tail.subrange(t0 - 64, t1 - 64));
    assert(d.subrange(t1, t2) =~= tail.subrange(t1 - 64, t2 - 64));
    assert(d.subrange(t2, t3) =~= tail.subrange(t2 - 64, t3 - 64));
    assert(body.subrange(64, d.len() as int).subrange(t0 - 64, t1 - 64) =~= body.subrange(t0, t1));
    assert(body.subrange(64, d.len() as int).subrange(t1 - 64, t2 - 64) =~= body.subrange(t1, t2));
    assert(body.subrange(64, d.len() as int).subrange(t2 - 64, t3 - 64) =~= body.subrange(t2, t3));
}

/// Whether `d` is laid out from the convert table `table` and the built index `st` with the
/// fixed header `h`, the padding `pad` and the header `h2` that holds the digest.
#[verifier::opaque]
spec fn laid_out(d: Seq<u8>, table: Seq<u8>, st: IndexBuild, encoding: Encoding, h: DictionaryFixedHeader, pad: u32, h2: DictionaryFixedHeader) -> bool {
    &&& spec_fixed_header_ok(h, pad, table.len() as int, final_index_header(st).len() as int,
            st.index_data.len() as int, st.blocks.len() as int, encoding)
    &&& with_sha1(h2, spec_sha1(dictionary_body(h, pad as nat, table, st)))
    &&& h2.dictionary_version == h.dictionary_version
    &&& h2.encoding_table_offset == h.encoding_table_offset
    &&& h2.encoding_table_length == h.encoding_table_length
    &&& h2.index_data_header_offset == h.index_data_header_offset
    &&& h2.index_data_header_length == h.index_data_header_length
    &&& h2.index_data_offset == h.index_data_offset
    &&& h2.index_data_length == h.index_data_length
    &&& h2.blocks_offset == h.blocks_offset
    &&& h2.blocks_length == h.blocks_length
    &&& h2.dictionary_length == h.dictionary_length
    &&& h2.encoding == h.encoding
    &&& d == spec_header_bytes(h2) + dictionary_body(h, pad as nat, table, st).subrange(64, dictionary_body(h, pad as nat, table, st).len() as int)
}

/// The headers and the padding that a dictionary is laid out with.
proof fn lemma_layout_witness(d: Seq<u8>, table: Seq<u8>, st: IndexBuild, encoding: Encoding) -> (w: (DictionaryFixedHeader, u32, DictionaryFixedHeader))
    requires
        is_dictionary_of(d, table, st, encoding),
    ensures
        laid_out(d, table, st, encoding, w.0, w.1, w.2),
{
    reveal(is_dictionary_of);
    let (h, pad, h2) = choose|h: DictionaryFixedHeader, pad: u32, h2: DictionaryFixedHeader| {
        &&& spec_fixed_header_ok(h, pad, table.len() as int, final_index_header(st).len() as int,
                st.index_data.len() as int, st.blocks.len() as int, encoding)
        &&& #[trigger] with_sha1(h2, spec_sha1(dictionary_body(h, pad as nat, table, st)))
        &&& h2.dictionary_version == h.dictionary_version
        &&& h2.encoding_table_offset == h.encoding_table_offset
        &&& h2.encoding_table_length == h.encoding_table_length
        &&& h2.index_data_header_offset == h.index_data_header_offset
        &&& h2.index_data_header_length == h.index_data_header_length
        &&& h2.index_data_offset == h.index_data_offset
        &&& h2.index_data_length == h.index_data_length
        &&& h2.blocks_offset == h.blocks_offset
        &&& h2.blocks_length == h.blocks_length
        &&& h2.dictionary_length == h.dictionary_length
        &&& h2.encoding == h.encoding
        &&& d == spec_header_bytes(h2) + dictionary_body(h, pad as nat, table, st).subrange(64, dictionary_body(h, pad as nat, table, st).len() as int)
    };
    reveal(laid_out);
    (h, pad, h2)
}

/// What reading the fixed header of a laid-out dictionary finds: its length, its digest, and
/// where it holds its convert table, its index data header and its index data.
#[verifier::spinoff_prover]
#[verifier::rlimit(90)]
proof fn lemma_layout_facts(
    d: Seq<u8>,
    table: Seq<u8>,
    st: IndexBuild,
    encoding: Encoding,
    h: DictionaryFixedHeader,
    pad: u32,
    h2: DictionaryFixedHeader,
)
    requires
        laid_out(d, table, st, encoding, h, pad, h2),
    ensures
        d.len() >= 256,
        le_u32(d, 36) == d.len(),
        spec_sha1(hashed_area(d, d.len() as int)) == d.subrange(44, 64),
        le_u32(d, 4) == 256,
        le_u32(d, 8) == table.len(),
        le_u32(d, 12) == 256 + table.len(),
        le_u32(d, 16) == final_index_header(st).len(),
        le_u32(d, 20) == 256 + table.len() + final_index_header(st).len(),
        d.subrange(256, 256 + table.len() as int) == table,
        d.subrange(256 + table.len() as int, 256 + table.len() + final_index_header(st).len() as int) == final_index_header(st),
        d.subrange(256 + table.len() + final_index_header(st).len() as int,
            256 + table.len() + final_index_header(st).len() + st.index_data.len() as int) == st.index_data,
        256 + table.len() + final_index_header(st).len() + st.index_data.len() <= d.len(),
{
    reveal(laid_out);
    let body = dictionary_body(h, pad as nat, table, st);
    assert(spec_header_bytes(h).len() == 64) by {
        assert(spec_header_bytes(h).len() == 44 + h.sha1sum@.len());
    }
    assert(body.subrange(0, 64) =~= spec_header_bytes(h));
    lemma_layout_header(d, body, h, h2);
    lemma_layout_regions(d, h, pad as nat, table, st);
}

/// Reading a dictionary laid out from the convert table `table` and the index built from the
/// string blocks `ks`, `vs` gives back the convert table and every unit of the index, in
/// order, where the convert table can be set up and every unit record fits in an index block.
#[verifier::spinoff_prover]
#[verifier::rlimit(40)]
pub proof fn lemma_dictionary_reads_back(d: Seq<u8>, table: Seq<u8>, ks: Seq<Seq<u8>>, vs: Seq<Seq<u8>>, n: nat, encoding: Encoding)
    requires
        build_all(ks, vs, n) is Some,
        records_fit_blocks(build_all(ks, vs, n).unwrap()),
        is_dictionary_of(d, table, build_all(ks, vs, n).unwrap(), encoding),
        table_well_sized(table),
        forall|k: int| 0 <= k < table_combine_length(table) ==> combine_unit_ok(table, k),
    ensures
        spec_setup(d) == Ok::<(Seq<u8>, Seq<(Seq<u8>, Seq<InfoView>)>), SkkError>((table, build_all(ks, vs, n).unwrap().units)),
{
    let st = build_all(ks, vs, n).unwrap();
    let (h, pad, h2) = lemma_layout_witness(d, table, st, encoding);
    lemma_layout_facts(d, table, st, encoding, h, pad, h2);
    let ho = 256 + table.len() as int;
    let io = ho + final_index_header(st).len() as int;
    lemma_index_reads_back(ks, vs, n, d, io);
}

/// A dictionary that `DictionaryCreator::create` made from jisyo files reads back: setting it
/// up gives the convert table it was made with and every unit of the index built from the
/// string blocks of the jisyo entries (`entries`, grouped into `blocks`), in order, where that
/// convert table can be set up and every unit record fits in an index block.
pub proof fn lemma_setup_after_create(
    t: EncodingTable,
    table: Seq<u8>,
    jisyos: Seq<Seq<u8>>,
    encoding: Encoding,
    d: Seq<u8>,
    entries: ByteMap,
    blocks: ByteMap,
)
    requires
        creates(t, table, jisyos, encoding, Ok(d)),
        entries.wf(),
        entries_of_jisyos(t, jisyos, jisyos.len(), Some(encoding)) == Ok::<Map<Seq<u8>, Seq<u8>>, SkkError>(entries.view()),
        blocks.wf(),
        spec_temporary_block_map(entries.keys(), entries.values(), entries.keys().len()) == Some(blocks.view()),
        build_all(blocks.keys(), blocks.values(), blocks.keys().len()) matches Some(st) && records_fit_blocks(st),
        table_well_sized(table),
        forall|k: int| 0 <= k < table_combine_length(table) ==> combine_unit_ok(table, k),
    ensures
        spec_setup(d) == Ok::<(Seq<u8>, Seq<(Seq<u8>, Seq<InfoView>)>), SkkError>(
            (table, build_all(blocks.keys(), blocks.values(), blocks.keys().len()).unwrap().units)),
{
    reveal(creates);
    assert(entries.wf() && entries.view() == entries.view());
    assert(blocks.wf() && blocks.view() == blocks.view());
    let st = build_all(blocks.keys(), blocks.values(), blocks.keys().len()).unwrap();
    assert(dictionary_fits(table, st));
    assert(is_dictionary_of(d, table, st, encoding));
    lemma_dictionary_reads_back(d, table, blocks.keys(), blocks.values(), blocks.keys().len(), encoding);
}

/// Where a laid-out dictionary holds its blocks: from the offset its header names to its end.
#[verifier::spinoff_prover]
#[verifier::rlimit(60)]
proof fn lemma_layout_blocks(
    d: Seq<u8>,
    table: Seq<u8>,
    st: IndexBuild,
    encoding: Encoding,
    h: DictionaryFixedHeader,
    pad: u32,
    h2: DictionaryFixedHeader,
)
    requires
        laid_out(d, table, st, encoding, h, pad, h2),
    ensures
        le_u32(d, 28) + st.blocks.len() == d.len(),
        d.subrange(le_u32(d, 28), d.len() as int) == st.blocks,
        le_u32(d, 40) == encoding_number(encoding),
{
    reveal(laid_out);
    let body = dictionary_body(h, pad as nat, table, st);
    assert(spec_header_bytes(h).len() == 64) by {
        assert(spec_header_bytes(h).len() == 44 + h.sha1sum@.len());
    }
    assert(body.subrange(0, 64) =~= spec_header_bytes(h));
    lemma_layout_header(d, body, h, h2);
    assert(body.len() == h.dictionary_length);
    let bo = h.blocks_offset as int;
    assert(bo + st.blocks.len() == body.len());
    assert(body.subrange(bo, body.len() as int) =~= st.blocks);
    let tail = d.subrange(64, d.len() as int);
    assert(d.subrange(bo, d.len() as int) =~= tail.subrange(bo - 64, d.len() - 64));
    assert(body.subrange(64, body.len() as int).subrange(bo - 64, body.len() - 64) =~= body.subrange(bo, body.len() as int));
}

/// A dictionary laid out from a built index holds the blocks of the index from the offset its
/// header names to its end.
pub proof fn lemma_dictionary_blocks(d: Seq<u8>, table: Seq<u8>, st: IndexBuild, encoding: Encoding)
    requires
        is_dictionary_of(d, table, st, encoding),
    ensures
        le_u32(d, 28) + st.blocks.len() == d.len(),
        d.subrange(le_u32(d, 28), d.len() as int) == st.blocks,
        le_u32(d, 40) == encoding_number(encoding),
{
    let (h, pad, h2) = lemma_layout_witness(d, table, st, encoding);
    lemma_layout_blocks(d, table, st, encoding, h, pad, h2);
}


/// The digest in the header of a dictionary that `DictionaryCreator::create` lays out is the
/// SHA-1 of the file (its digest field read as zeros), and the header's length field is the
/// file's length: reading the dictionary back finds its digest right.
pub proof fn lemma_created_digest(d: Seq<u8>, table: Seq<u8>, st: IndexBuild, encoding: Encoding)
    requires
        is_dictionary_of(d, table, st, encoding),
    ensures
        le_u32(d, 36) == d.len(),
        spec_sha1(hashed_area(d, d.len() as int)) == d.subrange(44, 64),
{
    let (h, pad, h2) = lemma_layout_witness(d, table, st, encoding);
    lemma_layout_facts(d, table, st, encoding, h, pad, h2);
}
} // verus!
