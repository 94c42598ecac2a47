//! The index of a dictionary as it is held in memory, and reading it from a dictionary.
use vstd::prelude::*;
use crate::bytes::{spec_split, split_bytes, vv, lemma_split_len};
use crate::dictionary::{
    BlockInformationOffsetLength, Dictionary, DictionaryBlockHeads, DictionaryBlockInformation,
    DictionaryFixedHeader, IndexDataHeader, IndexDataHeaderBlockHeader, DictionaryMidashiKey,
    DICTIONARY_BLOCK_HEADS_LENGTH, BLOCK_INFORMATION_OFFSET_LENGTH_LENGTH,
    INDEX_DATA_HEADER_LENGTH, INDEX_DATA_HEADER_BLOCK_HEADER_LENGTH,
    INDEX_ASCII_HIRAGANA_VEC_LENGTH,
};
use crate::encoding_simple::encoding_table::le_u32;
use crate::encoding_simple::euc::pack_bytes;
use crate::encoding_simple::euc::pack_slice;
use crate::error::SkkError;
use crate::bytes::{append_bytes, bytes_eq};
use crate::dictionary::header_stored_in;
use crate::encoding_simple::EncodingTable;
use crate::encoding_simple::encoding_table::{table_well_sized, table_combine_length, combine_unit_ok, spec_table_model};
use crate::outside::{sha1_digest, spec_sha1};
use crate::outside::{FxU64Table, fx_u64_table_contents, fx_u64_table_get, fx_u64_table_insert, fx_u64_table_new};

verus! {

/// A unit of a block as the contracts see it: midashi, offset, length.
pub type InfoView = (Seq<u8>, u32, u32);

/// The view of one unit.
pub open spec fn info_view(i: DictionaryBlockInformation) -> InfoView {
    (i.midashi@, i.offset, i.length)
}

/// The views of a sequence of units.
pub open spec fn infos_view(v: Seq<DictionaryBlockInformation>) -> Seq<InfoView> {
    v.map_values(|i: DictionaryBlockInformation| info_view(i))
}

/// The slot of the vector index that a midashi key uses: ASCII keys by their byte, keys whose
/// first byte is `0xa4` (hiragana) by their second byte; none for other keys.
pub open spec fn spec_ascii_hiragana_index(key: Seq<u8>) -> Option<int> {
    if key[0] <= 0x7f {
        Some(key[0] as int)
    } else if key[0] == 0xa4 {
        Some(key[1] as int)
    } else {
        None
    }
}

/// The index of a dictionary: the fixed header, the units of the keys held in the map, and the
/// units of the keys held in the vector.
pub struct OnMemory {
    pub dictionary_fixed_header: DictionaryFixedHeader,
    pub index_map: FxU64Table,
    pub index_map_values: Vec<Vec<DictionaryBlockInformation>>,
    pub index_ascii_hiragana_vec: Vec<Vec<DictionaryBlockInformation>>,
}

/// The abstract index: the 256 slots of the vector and the map from packed keys to units.
pub struct IndexModel {
    pub slots: Seq<Seq<InfoView>>,
    pub map: Map<u64, Seq<InfoView>>,
}

/// The index after `key` is given the units `infos`.
pub open spec fn model_apply(m: IndexModel, key: Seq<u8>, infos: Seq<InfoView>) -> IndexModel {
    match spec_ascii_hiragana_index(key) {
        Some(i) => IndexModel { slots: m.slots.update(i, infos), map: m.map },
        None => IndexModel { slots: m.slots, map: m.map.insert(pack_bytes(key), infos) },
    }
}

/// The index after each of `units` is applied in order.
pub open spec fn model_apply_all(m: IndexModel, units: Seq<(Seq<u8>, Seq<InfoView>)>) -> IndexModel
    decreases units.len(),
{
    if units.len() == 0 {
        m
    } else {
        model_apply(model_apply_all(m, units.drop_last()), units.last().0, units.last().1)
    }
}

/// The empty index.
pub open spec fn empty_model() -> IndexModel {
    IndexModel { slots: Seq::new(256, |i: int| Seq::<InfoView>::empty()), map: Map::empty() }
}

/// The units that an index gives for `key`: the slot of the vector where the key has one and
/// the slot is not empty, else the entry of the map.
pub open spec fn model_lookup(m: IndexModel, key: Seq<u8>) -> Option<Seq<InfoView>> {
    match spec_ascii_hiragana_index(key) {
        Some(i) => if m.slots[i].len() == 0 { None } else { Some(m.slots[i]) },
        None => if m.map.contains_key(pack_bytes(key)) { Some(m.map[pack_bytes(key)]) } else { None },
    }
}

/// The unit record at `off` of an index block: its midashi key, its units and where the next
/// record starts; none where the record runs past the block or its midashi do not match the
/// number of units.
pub open spec fn unit_parse(b: Seq<u8>, off: int) -> Option<(Seq<u8>, Seq<InfoView>, int)> {
    if off < 0 || off + 12 > b.len() {
        None
    } else {
        let n = le_u32(b, off);
        let m = le_u32(b, off + 4);
        let mid = off + 12 + 8 * n;
        if mid + m > b.len() {
            None
        } else {
            let pieces = spec_split(b.subrange(mid, mid + m), 0x20);
            if pieces.len() != n {
                None
            } else {
                Some((
                    b.subrange(off + 8, off + 12),
                    Seq::new(n as nat, |i: int| (pieces[i], le_u32(b, off + 12 + 8 * i) as u32, le_u32(b, off + 16 + 8 * i) as u32)),
                    mid + m,
                ))
            }
        }
    }
}

/// The first `count` unit records of a block that starts at `off`, and where they end.
pub open spec fn units_parse(b: Seq<u8>, off: int, count: nat) -> Option<(Seq<(Seq<u8>, Seq<InfoView>)>, int)>
    decreases count,
{
    if count == 0 {
        Some((Seq::empty(), off))
    } else {
        match units_parse(b, off, (count - 1) as nat) {
            None => None,
            Some((us, end)) => match unit_parse(b, end) {
                None => None,
                Some((key, infos, next)) => Some((us.push((key, infos)), next)),
            },
        }
    }
}

impl OnMemory {
    /// Every map entry refers to a stored vector of units, no two to the same one, every stored
    /// vector is referred to, and the vector index has 256 slots.
    pub open spec fn wf(&self) -> bool {
        &&& self.index_ascii_hiragana_vec.len() == INDEX_ASCII_HIRAGANA_VEC_LENGTH
        &&& forall|k: u64| #[trigger] fx_u64_table_contents(self.index_map).contains_key(k)
                ==> fx_u64_table_contents(self.index_map)[k] < self.index_map_values.len()
        &&& forall|k1: u64, k2: u64| #[trigger] fx_u64_table_contents(self.index_map).contains_key(k1)
                && #[trigger] fx_u64_table_contents(self.index_map).contains_key(k2) && k1 != k2
                ==> fx_u64_table_contents(self.index_map)[k1] != fx_u64_table_contents(self.index_map)[k2]
        &&& forall|j: int| 0 <= j < self.index_map_values.len() ==> #[trigger] self.refers_to(j)
    }

    /// Whether some key of the map refers to the stored vector `j`.
    pub open spec fn refers_to(&self, j: int) -> bool {
        exists|k: u64| #[trigger] fx_u64_table_contents(self.index_map).contains_key(k)
            && fx_u64_table_contents(self.index_map)[k] == j
    }

    /// The abstract index.
    pub open spec fn model(&self) -> IndexModel {
        IndexModel {
            slots: self.index_ascii_hiragana_vec@.map_values(|v: Vec<DictionaryBlockInformation>| infos_view(v@)),
            map: Map::new(|k: u64| fx_u64_table_contents(self.index_map).contains_key(k),
                |k: u64| infos_view(self.index_map_values@[fx_u64_table_contents(self.index_map)[k] as int]@)),
        }
    }

    /// An index with no units.
    pub fn new(dictionary_fixed_header: DictionaryFixedHeader) -> (r: Self)
        ensures
            r.wf(),
            r.model() == empty_model(),
            r.dictionary_fixed_header == dictionary_fixed_header,
    {
        let mut slots: Vec<Vec<DictionaryBlockInformation>> = Vec::new();
        let mut i: usize = 0;
        while i < INDEX_ASCII_HIRAGANA_VEC_LENGTH
            invariant
                i <= INDEX_ASCII_HIRAGANA_VEC_LENGTH,
                slots.len() == i,
                forall|j: int| 0 <= j < i ==> (#[trigger] slots@[j])@.len() == 0,
            decreases INDEX_ASCII_HIRAGANA_VEC_LENGTH - i,
        {
            slots.push(Vec::new());
            i += 1;
        }
        let r = OnMemory {
            dictionary_fixed_header,
            index_map: fx_u64_table_new(),
            index_map_values: Vec::new(),
            index_ascii_hiragana_vec: slots,
        };
        assert(r.model().slots =~= empty_model().slots) by {
            assert forall|j: int| 0 <= j < 256 implies r.model().slots[j] == empty_model().slots[j] by {
                assert(infos_view(slots@[j]@) =~= Seq::<InfoView>::empty());
            }
        }
        assert(r.model().map =~= empty_model().map);
        r
    }

    /// The slot of the vector index that `key` uses: see `spec_ascii_hiragana_index`.
    pub fn get_ascii_hiragana_vec_index(key: DictionaryMidashiKey) -> (r: Option<usize>)
        ensures
            match spec_ascii_hiragana_index(key@) {
                Some(i) => r == Some(i as usize),
                None => r is None,
            },
            r matches Some(i) ==> i < INDEX_ASCII_HIRAGANA_VEC_LENGTH,
    {
        if key[0] <= 0x7f {
            Some(key[0] as usize)
        } else if key[0] == 0xa4 {
            Some(key[1] as usize)
        } else {
            None
        }
    }

    /// The units that the index gives for `key`: see `model_lookup`.
    pub fn get_block_information_vectors(&self, key: DictionaryMidashiKey) -> (r: Option<&[DictionaryBlockInformation]>)
        requires
            self.wf(),
        ensures
            match model_lookup(self.model(), key@) {
                Some(s) => r matches Some(v) && infos_view(v@) == s,
                None => r is None,
            },
    {
        if let Some(index) = Self::get_ascii_hiragana_vec_index(key) {
            if self.index_ascii_hiragana_vec[index].len() == 0 {
                None
            } else {
                Some(self.index_ascii_hiragana_vec[index].as_slice())
            }
        } else {
            let packed = pack_slice(&key, 0, 4);
            assert(key@.subrange(0, 4) =~= key@);
            match fx_u64_table_get(&self.index_map, packed) {
                Some(idx) => {
                    assert(fx_u64_table_contents(self.index_map).contains_key(packed));
                    Some(self.index_map_values[idx as usize].as_slice())
                },
                None => None,
            }
        }
    }

    /// Gives `key` the units `infos`: see `model_apply`.
    pub fn set_units(&mut self, key: DictionaryMidashiKey, infos: Vec<DictionaryBlockInformation>)
        requires
            old(self).wf(),
        ensures
            final(self).wf(),
            final(self).model() == model_apply(old(self).model(), key@, infos_view(infos@)),
            final(self).dictionary_fixed_header == old(self).dictionary_fixed_header,
    {
        let ghost m0 = self.model();
        if let Some(index) = Self::get_ascii_hiragana_vec_index(key) {
            let ghost iv = infos_view(infos@);
            self.index_ascii_hiragana_vec.set(index, infos);
            assert(self.model().slots =~= m0.slots.update(index as int, iv));
            assert(self.model().map =~= m0.map);
            assert forall|j: int| 0 <= j < self.index_map_values.len() implies #[trigger] self.refers_to(j) by {
                assert(old(self).refers_to(j));
                let c = fx_u64_table_contents(self.index_map);
                let k = choose|k: u64| #[trigger] c.contains_key(k) && c[k] == j;
                assert(c.contains_key(k) && c[k] == j);
            }
        } else {
            let packed = pack_slice(&key, 0, 4);
            assert(key@.subrange(0, 4) =~= key@);
            let ghost iv = infos_view(infos@);
            match fx_u64_table_get(&self.index_map, packed) {
                Some(idx) => {
                    assert(fx_u64_table_contents(self.index_map).contains_key(packed));
                    self.index_map_values.set(idx as usize, infos);
                    assert forall|j: int| 0 <= j < self.index_map_values.len() implies #[trigger] self.refers_to(j) by {
                        assert(old(self).refers_to(j));
                        let c = fx_u64_table_contents(self.index_map);
                        let k = choose|k: u64| #[trigger] c.contains_key(k) && c[k] == j;
                        assert(c.contains_key(k) && c[k] == j);
                    }
                    assert(self.model().map =~= m0.map.insert(packed, iv)) by {
                        assert forall|k: u64| #[trigger] self.model().map.contains_key(k) implies
                            self.model().map[k] == m0.map.insert(packed, iv)[k] by {
                            if k != packed {
                                assert(fx_u64_table_contents(self.index_map)[k] != idx);
                            }
                        }
                    }
                },
                None => {
                    let n = self.index_map_values.len();
                    let ghost c0 = fx_u64_table_contents(self.index_map);
                    self.index_map_values.push(infos);
                    fx_u64_table_insert(&mut self.index_map, packed, n as u64);
                    assert(self.model().map =~= m0.map.insert(packed, iv));
                    assert forall|j: int| 0 <= j < self.index_map_values.len() implies #[trigger] self.refers_to(j) by {
                        let c1 = fx_u64_table_contents(self.index_map);
                        if j == n {
                            assert(c1.contains_key(packed) && c1[packed] == j);
                        } else {
                            assert(old(self).refers_to(j));
                            let k = choose|k: u64| #[trigger] c0.contains_key(k) && c0[k] == j;
                            assert(k != packed);
                            assert(c1.contains_key(k) && c1[k] == j);
                        }
                    }
                },
            }
            assert(self.model().slots =~= m0.slots);
        }
    }
}


impl Dictionary {
    /// The midashi of the units of the record at `buffer_offset`, split at their spaces.
    pub fn get_joined_midashi(
        buffer: &[u8],
        buffer_offset: usize,
        dictionary_block_informations_length: usize,
        joined_midashi_length: usize,
    ) -> (r: Vec<Vec<u8>>)
        requires
            buffer_offset + DICTIONARY_BLOCK_HEADS_LENGTH
                + dictionary_block_informations_length * BLOCK_INFORMATION_OFFSET_LENGTH_LENGTH
                + joined_midashi_length <= buffer.len(),
        ensures
            ({
                let mid = buffer_offset + 12 + 8 * dictionary_block_informations_length;
                vv(r@) == spec_split(buffer@.subrange(mid, mid + joined_midashi_length), 0x20)
            }),
    {
        let mid = buffer_offset + DICTIONARY_BLOCK_HEADS_LENGTH
            + dictionary_block_informations_length * BLOCK_INFORMATION_OFFSET_LENGTH_LENGTH;
        split_bytes(&buffer[mid..mid + joined_midashi_length], 0x20)
    }

    /// Reads the unit record at `off`: see `unit_parse`.
    pub fn read_unit(buffer: &[u8], off: usize) -> (r: Option<(DictionaryMidashiKey, Vec<DictionaryBlockInformation>, usize)>)
        ensures
            match unit_parse(buffer@, off as int) {
                Some((key, infos, next)) => r matches Some((k, v, n)) && k@ == key && infos_view(v@) == infos && n == next,
                None => r is None,
            },
    {
        if off > buffer.len() || buffer.len() - off < DICTIONARY_BLOCK_HEADS_LENGTH {
            return None;
        }
        let heads = DictionaryBlockHeads::from_ne_bytes(buffer, off);
        let n = heads.information_length as usize;
        let m = heads.information_midashi_length as usize;
        let room = buffer.len() - off - DICTIONARY_BLOCK_HEADS_LENGTH;
        if n > room / BLOCK_INFORMATION_OFFSET_LENGTH_LENGTH {
            proof {
                assert(8 * n > room) by (nonlinear_arith) requires n > room / 8;
            }
            return None;
        }
        proof {
            assert(8 * n <= room) by (nonlinear_arith) requires n <= room / 8;
        }
        let mid = off + DICTIONARY_BLOCK_HEADS_LENGTH + n * BLOCK_INFORMATION_OFFSET_LENGTH_LENGTH;
        if m > buffer.len() - mid {
            return None;
        }
        let pieces = Self::get_joined_midashi(buffer, off, n, m);
        if pieces.len() != n {
            return None;
        }
        let ghost ps = spec_split(buffer@.subrange(mid as int, mid + m), 0x20);
        let ghost want: Seq<InfoView> = Seq::new(n as nat, |i: int| (ps[i], le_u32(buffer@, off + 12 + 8 * i) as u32, le_u32(buffer@, off + 16 + 8 * i) as u32));
        let mut infos: Vec<DictionaryBlockInformation> = Vec::new();
        let mut i: usize = 0;
        while i < n
            invariant
                i <= n,
                n == pieces.len(),
                vv(pieces@) == ps,
                mid == off + 12 + 8 * n,
                mid <= buffer.len(),
                want.len() == n,
                want == Seq::new(n as nat, |i: int| (ps[i], le_u32(buffer@, off + 12 + 8 * i) as u32, le_u32(buffer@, off + 16 + 8 * i) as u32)),
                infos_view(infos@) == want.subrange(0, i as int),
                infos.len() == i,
            decreases n - i,
        {
            let at = off + DICTIONARY_BLOCK_HEADS_LENGTH + i * BLOCK_INFORMATION_OFFSET_LENGTH_LENGTH;
            let ol = BlockInformationOffsetLength::from_ne_bytes(buffer, at);
            let mut midashi: Vec<u8> = Vec::new();
            crate::bytes::append_bytes(&mut midashi, pieces[i].as_slice());
            assert(midashi@ == ps[i as int]) by {
                assert(vv(pieces@)[i as int] == pieces@[i as int]@);
            }
            assert(want[i as int] == (ps[i as int], ol.offset, ol.length));
            let ghost before = infos@;
            infos.push(DictionaryBlockInformation { midashi, offset: ol.offset, length: ol.length });
            assert(infos@ == before.push(infos@[i as int]));
            assert(info_view(infos@[i as int]) == want[i as int]);
            i += 1;
            assert(infos_view(infos@) =~= want.subrange(0, i as int));
        }
        assert(want.subrange(0, n as int) =~= want);
        let key: [u8; 4] = heads.dictionary_midashi_key;
        Some((key, infos, mid + m))
    }

    /// Applies the first `unit_length` records of `buffer` to the index: see `units_parse`.
    /// Fails with `BrokenDictionary` where they cannot be read.
    pub fn update_index_map_and_index_ascii_hiragana_vec(
        index_data_header_block_header: &IndexDataHeaderBlockHeader,
        buffer: &[u8],
        on_memory: &mut OnMemory,
    ) -> (r: Result<(), SkkError>)
        requires
            old(on_memory).wf(),
        ensures
            final(on_memory).wf(),
            final(on_memory).dictionary_fixed_header == old(on_memory).dictionary_fixed_header,
            match units_parse(buffer@, 0, index_data_header_block_header.unit_length as nat) {
                Some((us, _)) => r is Ok && final(on_memory).model() == model_apply_all(old(on_memory).model(), us),
                None => r == Err::<(), SkkError>(SkkError::BrokenDictionary),
            },
    {
        let count = index_data_header_block_header.unit_length;
        let ghost m0 = on_memory.model();
        let mut buffer_offset: usize = 0;
        let mut k: u32 = 0;
        while k < count
            invariant
                k <= count,
                count == index_data_header_block_header.unit_length,
                on_memory.wf(),
                on_memory.dictionary_fixed_header == old(on_memory).dictionary_fixed_header,
                m0 == old(on_memory).model(),
                units_parse(buffer@, 0, k as nat) matches Some((us, end)) && end == buffer_offset
                    && on_memory.model() == model_apply_all(m0, us),
            decreases count - k,
        {
            let ghost us = units_parse(buffer@, 0, k as nat).unwrap().0;
            match Self::read_unit(buffer, buffer_offset) {
                None => {
                    proof {
                        assert(unit_parse(buffer@, buffer_offset as int) is None);
                        lemma_units_parse_none_stays(buffer@, k as nat, count as nat);
                        assert(units_parse(buffer@, 0, count as nat) is None);
                    }
                    return Err(SkkError::BrokenDictionary);
                },
                Some((key, infos, next)) => {
                    on_memory.set_units(key, infos);
                    buffer_offset = next;
                    k += 1;
                    proof {
                        let us2 = units_parse(buffer@, 0, k as nat).unwrap().0;
                        assert(us2.drop_last() == us);
                    }
                },
            }
        }
        Ok(())
    }
}

/// Once a record cannot be read, no longer run of records can be.
proof fn lemma_units_parse_none_stays(b: Seq<u8>, k: nat, count: nat)
    requires
        k < count,
        units_parse(b, 0, k) matches Some((_, end)) && unit_parse(b, end) is None,
    ensures
        units_parse(b, 0, count) is None,
    decreases count - k,
{
    if count > k + 1 {
        lemma_units_parse_none_stays(b, k, (count - 1) as nat);
    }
}

/// Blocks of index data longer than this are refused.
pub const BLOCK_BUFFER_LENGTH_LIMIT: u32 = 0x20_0000;

/// The units of index block `i` of the index data header `h`, the index data starting at
/// `io` in `d`; none where the block header or the block lie outside their buffers, the block is
/// longer than the header allows, or its records cannot be read.
pub open spec fn block_units(d: Seq<u8>, io: int, h: Seq<u8>, i: int) -> Option<Seq<(Seq<u8>, Seq<InfoView>)>> {
    let at = 8 + 12 * i;
    if at + 12 > h.len() {
        None
    } else {
        let start = io + le_u32(h, at);
        let len = le_u32(h, at + 4);
        if len > le_u32(h, 0) || start + len > d.len() {
            None
        } else {
            match units_parse(d.subrange(start, start + len), 0, le_u32(h, at + 8) as nat) {
                Some((us, _)) => Some(us),
                None => None,
            }
        }
    }
}

/// The units of the first `count` index blocks, in order.
pub open spec fn blocks_units(d: Seq<u8>, io: int, h: Seq<u8>, count: nat) -> Option<Seq<(Seq<u8>, Seq<InfoView>)>>
    decreases count,
{
    if count == 0 {
        Some(Seq::empty())
    } else {
        match blocks_units(d, io, h, (count - 1) as nat) {
            None => None,
            Some(us) => match block_units(d, io, h, count - 1) {
                None => None,
                Some(more) => Some(us + more),
            },
        }
    }
}

/// The units of the whole index data of the dictionary `d`, whose index data header is `h`
/// and whose index data starts at `io`.
pub open spec fn index_units(d: Seq<u8>, io: int, h: Seq<u8>) -> Option<Seq<(Seq<u8>, Seq<InfoView>)>> {
    if h.len() < 8 || le_u32(h, 0) >= BLOCK_BUFFER_LENGTH_LIMIT {
        None
    } else {
        blocks_units(d, io, h, le_u32(h, 4) as nat)
    }
}

/// Applying two runs of units is applying their concatenation.
pub proof fn lemma_apply_all_concat(m: IndexModel, a: Seq<(Seq<u8>, Seq<InfoView>)>, b: Seq<(Seq<u8>, Seq<InfoView>)>)
    ensures
        model_apply_all(m, a + b) == model_apply_all(model_apply_all(m, a), b),
    decreases b.len(),
{
    if b.len() == 0 {
        assert(a + b =~= a);
    } else {
        lemma_apply_all_concat(m, a, b.drop_last());
        assert((a + b).drop_last() =~= a + b.drop_last());
        assert((a + b).last() == b.last());
    }
}

proof fn lemma_blocks_units_none_stays(d: Seq<u8>, io: int, h: Seq<u8>, k: nat, count: nat)
    requires
        k <= count,
        blocks_units(d, io, h, k) is None,
    ensures
        blocks_units(d, io, h, count) is None,
    decreases count - k,
{
    if count > k {
        lemma_blocks_units_none_stays(d, io, h, k, (count - 1) as nat);
    }
}

impl Dictionary {
    /// Reads every index block into `on_memory`: see `index_units`. Fails with
    /// `BrokenDictionary` where the index cannot be read.
    pub fn create_index_map_and_index_ascii_hiragana_vec(
        index_data_offset: u32,
        dictionary: &[u8],
        header_buffer: &[u8],
        on_memory: &mut OnMemory,
    ) -> (r: Result<(), SkkError>)
        requires
            old(on_memory).wf(),
        ensures
            final(on_memory).wf(),
            final(on_memory).dictionary_fixed_header == old(on_memory).dictionary_fixed_header,
            match index_units(dictionary@, index_data_offset as int, header_buffer@) {
                Some(us) => r is Ok && final(on_memory).model() == model_apply_all(old(on_memory).model(), us),
                None => r == Err::<(), SkkError>(SkkError::BrokenDictionary),
            },
    {
        if header_buffer.len() < INDEX_DATA_HEADER_LENGTH {
            return Err(SkkError::BrokenDictionary);
        }
        let index_data_header = IndexDataHeader::from_ne_bytes(header_buffer, 0);
        if index_data_header.block_buffer_length >= BLOCK_BUFFER_LENGTH_LIMIT {
            return Err(SkkError::BrokenDictionary);
        }
        let ghost d = dictionary@;
        let ghost h = header_buffer@;
        let ghost io = index_data_offset as int;
        let ghost m0 = on_memory.model();
        let count = index_data_header.block_header_length;
        let mut i: u32 = 0;
        while i < count
            invariant
                i <= count,
                count as int == le_u32(h, 4),
                index_data_header.block_buffer_length as int == le_u32(h, 0),
                h == header_buffer@,
                d == dictionary@,
                io == index_data_offset as int,
                h.len() >= 8,
                on_memory.wf(),
                on_memory.dictionary_fixed_header == old(on_memory).dictionary_fixed_header,
                m0 == old(on_memory).model(),
                blocks_units(d, io, h, i as nat) matches Some(us) && on_memory.model() == model_apply_all(m0, us),
            decreases count - i,
        {
            let ghost us = blocks_units(d, io, h, i as nat).unwrap();
            let room = header_buffer.len() - INDEX_DATA_HEADER_LENGTH;
            if (i as usize) >= room / INDEX_DATA_HEADER_BLOCK_HEADER_LENGTH {
                proof {
                    assert(12 * i + 12 > room) by (nonlinear_arith) requires i >= room / 12;
                    assert(block_units(d, io, h, i as int) is None);
                    assert(blocks_units(d, io, h, i as nat + 1) is None);
                    lemma_blocks_units_none_stays(d, io, h, i as nat + 1, count as nat);
                }
                return Err(SkkError::BrokenDictionary);
            }
            proof {
                assert(12 * i + 12 <= room) by (nonlinear_arith) requires i < room / 12;
            }
            let at = INDEX_DATA_HEADER_LENGTH + (i as usize) * INDEX_DATA_HEADER_BLOCK_HEADER_LENGTH;
            let block_header = IndexDataHeaderBlockHeader::from_ne_bytes(header_buffer, at);
            let start: u64 = index_data_offset as u64 + block_header.offset as u64;
            let length = block_header.length;
            if length > index_data_header.block_buffer_length || start + length as u64 > dictionary.len() as u64 {
                proof {
                    assert(block_units(d, io, h, i as int) is None);
                    assert(blocks_units(d, io, h, i as nat + 1) is None);
                    lemma_blocks_units_none_stays(d, io, h, i as nat + 1, count as nat);
                }
                return Err(SkkError::BrokenDictionary);
            }
            let s = start as usize;
            let e = s + length as usize;
            let block = &dictionary[s..e];
            let ghost mid = on_memory.model();
            let res = Self::update_index_map_and_index_ascii_hiragana_vec(&block_header, block, on_memory);
            if res.is_err() {
                proof {
                    assert(block_units(d, io, h, i as int) is None);
                    assert(blocks_units(d, io, h, i as nat + 1) is None);
                    lemma_blocks_units_none_stays(d, io, h, i as nat + 1, count as nat);
                }
                return Err(SkkError::BrokenDictionary);
            }
            proof {
                let more = block_units(d, io, h, i as int).unwrap();
                assert(blocks_units(d, io, h, i as nat + 1) == Some(us + more));
                lemma_apply_all_concat(m0, us, more);
            }
            i += 1;
        }
        Ok(())
    }
}

/// The bytes over which a dictionary's digest is taken: its first `dl` bytes with the digest
/// field zeroed.
pub open spec fn hashed_area(d: Seq<u8>, dl: int) -> Seq<u8> {
    d.subrange(0, 44) + Seq::new(20, |i: int| 0u8) + d.subrange(64, dl)
}

/// What reading the dictionary `d` gives: its convert table and the units of its index, or the
/// error it fails with.
pub open spec fn spec_setup(d: Seq<u8>) -> Result<(Seq<u8>, Seq<(Seq<u8>, Seq<InfoView>)>), SkkError> {
    let dl = le_u32(d, 36);
    let eto = le_u32(d, 4);
    let etl = le_u32(d, 8);
    let ho = le_u32(d, 12);
    let hl = le_u32(d, 16);
    let t = d.subrange(eto, eto + etl);
    if d.len() < 256 {
        Err(SkkError::Io)
    } else if dl < 256 || dl > d.len() || spec_sha1(hashed_area(d, dl)) != d.subrange(44, 64) {
        Err(SkkError::BrokenDictionary)
    } else if eto + etl > d.len() {
        Err(SkkError::Io)
    } else if !table_well_sized(t)
        || !(forall|k: int| 0 <= k < table_combine_length(t) ==> combine_unit_ok(t, k)) {
        Err(SkkError::Encoding)
    } else if ho + hl > d.len() {
        Err(SkkError::Io)
    } else {
        match index_units(d, le_u32(d, 20), d.subrange(ho, ho + hl)) {
            None => Err(SkkError::BrokenDictionary),
            Some(us) => Ok((t, us)),
        }
    }
}

impl Dictionary {
    /// Reads a dictionary: checks its length and digest, sets up its convert table and reads its
    /// index. See `spec_setup`.
    pub fn setup(dictionary: &[u8]) -> (r: Result<(OnMemory, EncodingTable), SkkError>)
        ensures
            match spec_setup(dictionary@) {
                Ok((t, us)) => r matches Ok((om, table)) && om.wf()
                    && header_stored_in(om.dictionary_fixed_header, dictionary@)
                    && om.model() == model_apply_all(empty_model(), us)
                    && table.wf() && table.model() == spec_table_model(t),
                Err(e) => r == Err::<(OnMemory, EncodingTable), SkkError>(e),
            },
    {
        if dictionary.len() < 256 {
            return Err(SkkError::Io);
        }
        let header = DictionaryFixedHeader::from_ne_bytes(dictionary);
        let dl = header.dictionary_length as usize;
        if dl < 256 || dl > dictionary.len() {
            return Err(SkkError::BrokenDictionary);
        }
        let mut area: Vec<u8> = Vec::new();
        append_bytes(&mut area, &dictionary[0..44]);
        let zeros: [u8; 20] = [0; 20];
        append_bytes(&mut area, &zeros);
        append_bytes(&mut area, &dictionary[64..dl]);
        assert(area@ =~= hashed_area(dictionary@, dl as int)) by {
            assert(zeros@ =~= Seq::new(20, |i: int| 0u8));
        }
        let digest = sha1_digest(area.as_slice());
        if !bytes_eq(&digest, &header.sha1sum) {
            return Err(SkkError::BrokenDictionary);
        }
        let eto = header.encoding_table_offset as u64;
        let etl = header.encoding_table_length as u64;
        if eto + etl > dictionary.len() as u64 {
            return Err(SkkError::Io);
        }
        let t = &dictionary[eto as usize..(eto + etl) as usize];
        if !EncodingTable::is_well_sized(t) {
            return Err(SkkError::Encoding);
        }
        let table = match EncodingTable::setup(t) {
            Ok(table) => table,
            Err(_) => return Err(SkkError::Encoding),
        };
        let ho = header.index_data_header_offset as u64;
        let hl = header.index_data_header_length as u64;
        if ho + hl > dictionary.len() as u64 {
            return Err(SkkError::Io);
        }
        let h = &dictionary[ho as usize..(ho + hl) as usize];
        let index_data_offset = header.index_data_offset;
        let mut on_memory = OnMemory::new(header);
        match Self::create_index_map_and_index_ascii_hiragana_vec(index_data_offset, dictionary, h, &mut on_memory) {
            Ok(()) => Ok((on_memory, table)),
            Err(e) => Err(e),
        }
    }
}

} // verus!
