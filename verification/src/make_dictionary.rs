//! The work of the dictionary maker: which output it makes, and making it.
use vstd::prelude::*;
use crate::bytes::vv;
use crate::dictionary_creator::{DictionaryCreator, creates};
use crate::encoding::Encoding;
use crate::encoding_simple::EncodingTable;
use crate::encoding_simple::encoding_table::{table_well_sized, table_combine_length, combine_unit_ok};
use crate::error::SkkError;
use crate::jisyo_creator::{cache_view, creates_jisyo, is_cache_jisyo, JisyoCreator};

verus! {

/// What the dictionary maker is asked to make, with the inputs it needs.
pub enum MakeDictionaryJob {
    /// A jisyo from the entries of a Google cache.
    JisyoFromCache { cache_entries: Vec<(Vec<u8>, Vec<Vec<u8>>)> },
    /// A dictionary from jisyo files.
    Dictionary { jisyos: Vec<Vec<u8>> },
    /// A jisyo from a dictionary.
    Jisyo { dictionary: Vec<u8> },
}

/// Which of the three outputs the command line asks for.
#[derive(Clone, Copy, Debug, PartialEq, Eq, Structural)]
pub enum MakeDictionaryMode {
    JisyoFromCache,
    Dictionary,
    Jisyo,
}

/// A jisyo from a cache where an input cache is named; else a dictionary where no output jisyo
/// is named; else a jisyo from the dictionary.
pub open spec fn spec_make_dictionary_mode(has_input_cache: bool, has_output_jisyo: bool) -> MakeDictionaryMode {
    if has_input_cache {
        MakeDictionaryMode::JisyoFromCache
    } else if !has_output_jisyo {
        MakeDictionaryMode::Dictionary
    } else {
        MakeDictionaryMode::Jisyo
    }
}

/// Which output the command line asks for: see `spec_make_dictionary_mode`.
pub fn make_dictionary_mode(has_input_cache: bool, has_output_jisyo: bool) -> (r: MakeDictionaryMode)
    ensures
        r == spec_make_dictionary_mode(has_input_cache, has_output_jisyo),
{
    if has_input_cache {
        MakeDictionaryMode::JisyoFromCache
    } else if !has_output_jisyo {
        MakeDictionaryMode::Dictionary
    } else {
        MakeDictionaryMode::Jisyo
    }
}

/// A result with its bytes taken by their view.
pub open spec fn result_view(r: Result<Vec<u8>, SkkError>) -> Result<Seq<u8>, SkkError> {
    match r {
        Ok(d) => Ok(d@),
        Err(e) => Err(e),
    }
}

/// Whether `r` is the jisyo of the cache entries `entries` (see `is_cache_jisyo`).
pub open spec fn cache_jisyo_result(t: EncodingTable, out: Encoding, entries: Seq<(Seq<u8>, Seq<Seq<u8>>)>, r: Result<Seq<u8>, SkkError>) -> bool {
    match r {
        Ok(v) => is_cache_jisyo(t, out, entries, v),
        Err(_) => false,
    }
}

/// Whether the convert table can be set up.
pub open spec fn table_ok(t: Seq<u8>) -> bool {
    table_well_sized(t) && forall|k: int| 0 <= k < table_combine_length(t) ==> combine_unit_ok(t, k)
}

/// Makes what `job` asks for, in `encoding`, with the convert table `encoding_table`: a
/// dictionary (see `creates`), a jisyo from a dictionary (see `JisyoCreator::create`) or a jisyo
/// from cache entries (see `JisyoCreator::create_from_cache`). Fails with `Encoding` where the
/// convert table cannot be set up.
pub fn run_yaskkserv2_make_dictionary(job: &MakeDictionaryJob, encoding: Encoding, encoding_table: &[u8]) -> (r: Result<Vec<u8>, SkkError>)
    ensures
        !table_ok(encoding_table@) ==> r == Err::<Vec<u8>, SkkError>(SkkError::Encoding),
        table_ok(encoding_table@) && job is Dictionary ==> exists|t: EncodingTable| t.wf()
            && t.model() == crate::encoding_simple::encoding_table::spec_table_model(encoding_table@)
            && #[trigger] creates(t, encoding_table@, vv(job->jisyos@), encoding, result_view(r)),
        table_ok(encoding_table@) && job is Jisyo ==> creates_jisyo(job->dictionary@, encoding, result_view(r)),
        table_ok(encoding_table@) && job is JisyoFromCache ==> exists|t: EncodingTable| t.wf()
            && t.model() == crate::encoding_simple::encoding_table::spec_table_model(encoding_table@)
            && #[trigger] cache_jisyo_result(t, encoding, cache_view(job->cache_entries@), result_view(r)),
{
    if !EncodingTable::is_well_sized(encoding_table) {
        return Err(SkkError::Encoding);
    }
    let table = match EncodingTable::setup(encoding_table) {
        Ok(t) => t,
        Err(_) => return Err(SkkError::Encoding),
    };
    match job {
        MakeDictionaryJob::JisyoFromCache { cache_entries } => {
            let r = JisyoCreator::create_from_cache(cache_entries, encoding, &table);
            assert(cache_jisyo_result(table, encoding, cache_view(cache_entries@), result_view(Ok::<Vec<u8>, SkkError>(r))));
            Ok(r)
        },
        MakeDictionaryJob::Dictionary { jisyos } => {
            DictionaryCreator::create(jisyos, encoding, encoding_table, &table)
        },
        MakeDictionaryJob::Jisyo { dictionary } => {
            JisyoCreator::create(dictionary.as_slice(), encoding)
        },
    }
}

} // verus!
