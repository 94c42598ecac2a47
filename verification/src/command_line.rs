//! The command lines of the server and of the dictionary maker: the values their options
//! give, the checks of those values, and the settings they make.
use vstd::prelude::*;
use crate::bytes::vv;
use crate::config::{copy_bytes, Config, GoogleTiming, MAX_CONNECTION};
use crate::config_file::{
    i32_max, i32_min, is_printable_ascii, spec_in_range, spec_parse_integer, spec_timing, u64_max, ConfigError,
    Yaskkserv2ConfigFile,
};
use crate::encoding::Encoding;
use crate::outside::{fx_byte_set_contents, fx_byte_set_insert, fx_byte_set_new};

verus! {

/// The values of the options of the server's command line, as the parser of the command line
/// hands them over: `Some` for an option that has a value (given or default), `true` for a
/// flag that is present.
pub struct CommandLineArgs {
    pub dictionary: Option<Vec<u8>>,
    pub version: bool,
    pub config_filename: Option<Vec<u8>>,
    pub no_daemonize: bool,
    pub port: Option<Vec<u8>>,
    pub max_connections: Option<Vec<u8>>,
    pub listen_address: Option<Vec<u8>>,
    pub hostname_and_ip_address_for_protocol_3: Option<Vec<u8>>,
    pub google_timeout_milliseconds: Option<Vec<u8>>,
    pub google_cache_filename: Option<Vec<u8>>,
    pub google_cache_entries: Option<Vec<u8>>,
    pub google_cache_expire_seconds: Option<Vec<u8>>,
    pub max_server_completions: Option<Vec<u8>>,
    pub google_max_candidates_length: Option<Vec<u8>>,
    pub google_japanese_input: Option<Vec<u8>>,
    pub google_use_http: bool,
    pub midashi_utf8: bool,
    pub google_suggest: bool,
}


/// A text setting: the option's value where it has one, else `current`.
pub open spec fn text_option(o: Option<Vec<u8>>, current: Seq<u8>) -> Seq<u8> {
    match o {
        Some(v) => v@,
        None => current,
    }
}

/// An integer setting of type range `lo..=hi`: the value the option reads as, 0 where it does
/// not read as one, `current` where the option has no value.
pub open spec fn int_option(o: Option<Vec<u8>>, lo: int, hi: int, current: int) -> int {
    match o {
        Some(v) => match spec_parse_integer(v@, lo, hi) {
            Some(x) => x,
            None => 0,
        },
        None => current,
    }
}

/// Whether an integer option has a value that does not read as an integer of `lo..=hi`.
pub open spec fn int_option_fails(o: Option<Vec<u8>>, lo: int, hi: int) -> bool {
    match o {
        Some(v) => spec_parse_integer(v@, lo, hi) is None,
        None => false,
    }
}

/// Whether `v` is one of the four timings that `--google-japanese-input` takes.
pub open spec fn is_timing_word(v: Seq<u8>) -> bool {
    v == seq![0x6eu8, 0x6f, 0x74, 0x66, 0x6f, 0x75, 0x6e, 0x64] || v == seq![0x64u8, 0x69, 0x73, 0x61, 0x62, 0x6c, 0x65]
        || v == seq![0x6cu8, 0x61, 0x73, 0x74] || v == seq![0x66u8, 0x69, 0x72, 0x73, 0x74]
}

/// The timing once the command line is read.
pub open spec fn timing_option(a: CommandLineArgs, current: GoogleTiming) -> GoogleTiming {
    match a.google_japanese_input {
        Some(v) => if is_timing_word(v@) { spec_timing(v@) } else { current },
        None => current,
    }
}

/// Whether `n` holds the settings `c` as the command line `a` changes them.
pub open spec fn config_after_command_line(c: Config, a: CommandLineArgs, n: Config) -> bool {
    let timing = timing_option(a, c.google_timing);
    &&& n.dictionary_full_path@ == text_option(a.dictionary, c.dictionary_full_path@)
    &&& n.config_full_path@ == text_option(a.config_filename, c.config_full_path@)
    &&& n.is_no_daemonize == (a.no_daemonize || c.is_no_daemonize)
    &&& n.port@ == text_option(a.port, c.port@)
    &&& n.max_connections as int == int_option(a.max_connections, i32_min(), i32_max(), c.max_connections as int)
    &&& n.listen_address@ == text_option(a.listen_address, c.listen_address@)
    &&& n.hostname_and_ip_address_for_protocol_3@ == text_option(a.hostname_and_ip_address_for_protocol_3,
        c.hostname_and_ip_address_for_protocol_3@)
    &&& n.google_timeout_milliseconds as int == int_option(a.google_timeout_milliseconds, 0, u64_max(),
        c.google_timeout_milliseconds as int)
    &&& n.is_google_cache_enabled == (a.google_cache_filename is Some || c.is_google_cache_enabled)
    &&& n.google_cache_full_path@ == text_option(a.google_cache_filename, c.google_cache_full_path@)
    &&& n.google_cache_entries as int == int_option(a.google_cache_entries, 0, usize::MAX as int, c.google_cache_entries as int)
    &&& n.google_cache_expire_seconds as int == int_option(a.google_cache_expire_seconds, 0, u64_max(),
        c.google_cache_expire_seconds as int)
    &&& n.max_server_completions as int == int_option(a.max_server_completions, 0, 0xffff_ffff, c.max_server_completions as int)
    &&& n.google_timing == timing
    &&& n.is_http_enabled == ((a.google_use_http && timing != GoogleTiming::Disable) || c.is_http_enabled)
    &&& n.is_midashi_utf8 == (a.midashi_utf8 || c.is_midashi_utf8)
    &&& n.is_google_suggest_enabled == ((a.google_suggest && timing != GoogleTiming::Disable) || c.is_google_suggest_enabled)
    &&& n.google_max_candidates_length as int == int_option(a.google_max_candidates_length, 0, usize::MAX as int,
        c.google_max_candidates_length as int)
    &&& n.google_insert_hiragana_only_candidate == c.google_insert_hiragana_only_candidate
    &&& n.google_insert_katakana_only_candidate == c.google_insert_katakana_only_candidate
    &&& n.google_insert_hankaku_katakana_only_candidate == c.google_insert_hankaku_katakana_only_candidate
    &&& n.encoding == c.encoding
    &&& n.is_verbose == c.is_verbose
}

/// Whether the command line `a` sends the server to its help text, given the timing it
/// starts from: a number that does not read, an unknown timing, or a Google option while
/// Google Japanese Input is disabled.
pub open spec fn command_line_help_exit(a: CommandLineArgs, current: GoogleTiming) -> bool {
    let timing = timing_option(a, current);
    ||| int_option_fails(a.max_connections, i32_min(), i32_max())
    ||| int_option_fails(a.google_timeout_milliseconds, 0, u64_max())
    ||| int_option_fails(a.google_cache_entries, 0, usize::MAX as int)
    ||| int_option_fails(a.google_cache_expire_seconds, 0, u64_max())
    ||| int_option_fails(a.max_server_completions, 0, 0xffff_ffff)
    ||| int_option_fails(a.google_max_candidates_length, 0, usize::MAX as int)
    ||| (a.google_japanese_input matches Some(v) && !is_timing_word(v@))
    ||| (a.google_use_http && timing == GoogleTiming::Disable)
    ||| (a.google_suggest && timing == GoogleTiming::Disable)
}

/// The timing that each of the four words names.
proof fn lemma_timing_words()
    ensures
        spec_timing(seq![0x6eu8, 0x6f, 0x74, 0x66, 0x6f, 0x75, 0x6e, 0x64]) == GoogleTiming::NotFound,
        spec_timing(seq![0x64u8, 0x69, 0x73, 0x61, 0x62, 0x6c, 0x65]) == GoogleTiming::Disable,
        spec_timing(seq![0x6cu8, 0x61, 0x73, 0x74]) == GoogleTiming::Last,
        spec_timing(seq![0x66u8, 0x69, 0x72, 0x73, 0x74]) == GoogleTiming::First,
{
    reveal(spec_timing);
    let nf = seq![0x6eu8, 0x6f, 0x74, 0x66, 0x6f, 0x75, 0x6e, 0x64];
    assert(nf != crate::config_file::key_timing_disable());
    assert(nf.len() != crate::config_file::key_timing_last().len());
    assert(nf.len() != crate::config_file::key_timing_first().len());
    assert(seq![0x6cu8, 0x61, 0x73, 0x74].len() != crate::config_file::key_timing_disable().len());
    assert(seq![0x66u8, 0x69, 0x72, 0x73, 0x74].len() != crate::config_file::key_timing_disable().len());
    assert(seq![0x66u8, 0x69, 0x72, 0x73, 0x74].len() != crate::config_file::key_timing_last().len());
    assert(seq![0x64u8, 0x69, 0x73, 0x61, 0x62, 0x6c, 0x65] =~= crate::config_file::key_timing_disable());
    assert(seq![0x6cu8, 0x61, 0x73, 0x74] =~= crate::config_file::key_timing_last());
    assert(seq![0x66u8, 0x69, 0x72, 0x73, 0x74] =~= crate::config_file::key_timing_first());
}

/// The settings that the server's command line makes.
pub struct Yaskkserv2CommandLine {
    pub config: Config,
}

/// The value of an integer option: the integer it reads as in `lo..=hi`, or 0 where it does
/// not read as one, which also sets `is_help_exit`.
pub fn parse_integer(value: &[u8], lo: i128, hi: i128, is_help_exit: &mut bool) -> (r: i128)
    requires
        -0x1_0000_0000_0000_0000 < lo <= 0 <= hi < 0x1_0000_0000_0000_0000,
    ensures
        r == match spec_parse_integer(value@, lo as int, hi as int) {
            Some(x) => x,
            None => 0,
        },
        *final(is_help_exit) == (*old(is_help_exit) || spec_parse_integer(value@, lo as int, hi as int) is None),
        lo <= r <= hi,
{
    reveal(spec_parse_integer);
    match Yaskkserv2ConfigFile::parse_decimal(value, lo < 0) {
        Some(x) => {
            if lo <= x && x <= hi {
                x
            } else {
                *is_help_exit = true;
                0
            }
        },
        None => {
            *is_help_exit = true;
            0
        },
    }
}

/// `Ok` where `value` reads as an integer of `lo..=hi` that lies in `min..=max`, else `error`.
pub fn range_validator(value: &[u8], error: ConfigError, lo: i128, hi: i128, min: i128, max: i128) -> (r: Result<(), ConfigError>)
    requires
        -0x1_0000_0000_0000_0000 < lo <= min <= max <= hi < 0x1_0000_0000_0000_0000,
    ensures
        r is Ok <==> spec_in_range(value@, lo as int, hi as int, min as int, max as int),
        r is Err ==> r == Err::<(), ConfigError>(error),
{
    reveal(spec_in_range);
    reveal(spec_parse_integer);
    match Yaskkserv2ConfigFile::parse_decimal(value, lo < 0) {
        Some(x) => {
            if lo <= x && x <= hi && min <= x && x <= max {
                Ok(())
            } else {
                Err(error)
            }
        },
        None => Err(error),
    }
}

impl Yaskkserv2CommandLine {
    /// The settings start from the defaults.
    pub fn new() -> (r: Self)
        ensures
            r.config.is_default(),
    {
        Yaskkserv2CommandLine { config: Config::new() }
    }

    /// A copy of the settings.
    pub fn get_config(&self) -> (r: Config)
        ensures
            r.view_eq(self.config),
    {
        self.config.clone_config()
    }

    /// `--port`: an `i32` in `0..=65535`.
    pub fn port_validator(value: &[u8]) -> (r: Result<(), ConfigError>)
        ensures
            r is Ok <==> spec_in_range(value@, i32_min(), i32_max(), 0, 65535),
            r is Err ==> r == Err::<(), ConfigError>(ConfigError::IllegalPortNumber),
    {
        range_validator(value, ConfigError::IllegalPortNumber, -0x8000_0000, 0x7fff_ffff, 0, 65535)
    }

    /// `--max-connections`: an `i32` in `1..=MAX_CONNECTION`.
    pub fn max_connections_validator(value: &[u8]) -> (r: Result<(), ConfigError>)
        ensures
            r is Ok <==> spec_in_range(value@, i32_min(), i32_max(), 1, MAX_CONNECTION as int),
            r is Err ==> r == Err::<(), ConfigError>(ConfigError::IllegalMaxConnectionRange),
    {
        range_validator(value, ConfigError::IllegalMaxConnectionRange, -0x8000_0000, 0x7fff_ffff, 1, 1024)
    }

    /// `--hostname-and-ip-address-for-protocol-3`: printable ASCII without space, not empty.
    pub fn hostname_and_ip_address_address_validator(value: &[u8]) -> (r: Result<(), ConfigError>)
        ensures
            r is Ok <==> is_printable_ascii(value@),
            r is Err ==> r == Err::<(), ConfigError>(ConfigError::IllegalHostnameIp),
    {
        if crate::config_file::printable_ascii(value) {
            Ok(())
        } else {
            Err(ConfigError::IllegalHostnameIp)
        }
    }

    /// `--google-timeout-milliseconds`: a `u64` in `0..=300000` (five minutes).
    pub fn google_timeout_milliseconds_validator(value: &[u8]) -> (r: Result<(), ConfigError>)
        ensures
            r is Ok <==> spec_in_range(value@, 0, u64_max(), 0, 300000),
            r is Err ==> r == Err::<(), ConfigError>(ConfigError::IllegalTimeoutMilliseconds),
    {
        range_validator(value, ConfigError::IllegalTimeoutMilliseconds, 0, 0xffff_ffff_ffff_ffff, 0, 300000)
    }

    /// `--google-cache-entries`: a `usize` in `1..=1048576`.
    pub fn google_cache_entries_validator(value: &[u8]) -> (r: Result<(), ConfigError>)
        ensures
            r is Ok <==> spec_in_range(value@, 0, usize::MAX as int, 1, 1048576),
            r is Err ==> r == Err::<(), ConfigError>(ConfigError::IllegalCacheEntries),
    {
        range_validator(value, ConfigError::IllegalCacheEntries, 0, usize::MAX as i128, 1, 1048576)
    }

    /// `--google-cache-expire-seconds`: a `u64` in `1..=3153600000` (a hundred years).
    pub fn google_cache_expire_seconds_validator(value: &[u8]) -> (r: Result<(), ConfigError>)
        ensures
            r is Ok <==> spec_in_range(value@, 0, u64_max(), 1, 3153600000),
            r is Err ==> r == Err::<(), ConfigError>(ConfigError::IllegalExpireSeconds),
    {
        range_validator(value, ConfigError::IllegalExpireSeconds, 0, 0xffff_ffff_ffff_ffff, 1, 3153600000)
    }

    /// `--google-max-candidates-length`: a `u64` in `1..=1024`.
    pub fn google_max_candidates_length_validator(value: &[u8]) -> (r: Result<(), ConfigError>)
        ensures
            r is Ok <==> spec_in_range(value@, 0, u64_max(), 1, 1024),
            r is Err ==> r == Err::<(), ConfigError>(ConfigError::IllegalCandidatesLength),
    {
        range_validator(value, ConfigError::IllegalCandidatesLength, 0, 0xffff_ffff_ffff_ffff, 1, 1024)
    }

    /// `--max-server-completions`: an `i32` in `1..=65536`.
    pub fn max_server_completions_validator(value: &[u8]) -> (r: Result<(), ConfigError>)
        ensures
            r is Ok <==> spec_in_range(value@, i32_min(), i32_max(), 1, 65536),
            r is Err ==> r == Err::<(), ConfigError>(ConfigError::IllegalMaxServerCompletions),
    {
        range_validator(value, ConfigError::IllegalMaxServerCompletions, -0x8000_0000, 0x7fff_ffff, 1, 65536)
    }

    /// Takes the values of the command line into the settings. `result_is_help_exit` is set
    /// where the command line asks for the help text (see `command_line_help_exit`),
    /// `result_is_exit` where it asks for the version.
    #[verifier::rlimit(60)]
    pub fn setup(&mut self, args: &CommandLineArgs, result_is_help_exit: &mut bool, result_is_exit: &mut bool)
        ensures
            config_after_command_line(old(self).config, *args, final(self).config),
            *final(result_is_help_exit) == (*old(result_is_help_exit) || command_line_help_exit(*args, old(self).config.google_timing)),
            *final(result_is_exit) == (*old(result_is_exit) || args.version),
    {
        let c = &self.config;
        let dictionary_full_path = text_opt(&args.dictionary, &c.dictionary_full_path);
        if args.version {
            *result_is_exit = true;
        }
        let config_full_path = text_opt(&args.config_filename, &c.config_full_path);
        let is_no_daemonize = args.no_daemonize || c.is_no_daemonize;
        let port = text_opt(&args.port, &c.port);
        let max_connections = int_opt(&args.max_connections, -0x8000_0000, 0x7fff_ffff, c.max_connections as i128,
            result_is_help_exit) as i32;
        let listen_address = text_opt(&args.listen_address, &c.listen_address);
        let hostname = text_opt(&args.hostname_and_ip_address_for_protocol_3, &c.hostname_and_ip_address_for_protocol_3);
        let google_timeout_milliseconds = int_opt(&args.google_timeout_milliseconds, 0, 0xffff_ffff_ffff_ffff,
            c.google_timeout_milliseconds as i128, result_is_help_exit) as u64;
        let is_google_cache_enabled = args.google_cache_filename.is_some() || c.is_google_cache_enabled;
        let google_cache_full_path = text_opt(&args.google_cache_filename, &c.google_cache_full_path);
        let google_cache_entries = int_opt(&args.google_cache_entries, 0, usize::MAX as i128,
            c.google_cache_entries as i128, result_is_help_exit) as usize;
        let google_cache_expire_seconds = int_opt(&args.google_cache_expire_seconds, 0, 0xffff_ffff_ffff_ffff,
            c.google_cache_expire_seconds as i128, result_is_help_exit) as u64;
        let max_server_completions = int_opt(&args.max_server_completions, 0, 0xffff_ffff,
            c.max_server_completions as i128, result_is_help_exit) as u32;
        let google_max_candidates_length = int_opt(&args.google_max_candidates_length, 0, usize::MAX as i128,
            c.google_max_candidates_length as i128, result_is_help_exit) as usize;
        let google_timing = timing_opt(&args.google_japanese_input, c.google_timing, result_is_help_exit);
        let mut is_http_enabled = c.is_http_enabled;
        if args.google_use_http {
            if google_timing == GoogleTiming::Disable {
                *result_is_help_exit = true;
            } else {
                is_http_enabled = true;
            }
        }
        let is_midashi_utf8 = args.midashi_utf8 || c.is_midashi_utf8;
        let mut is_google_suggest_enabled = c.is_google_suggest_enabled;
        if args.google_suggest {
            if google_timing == GoogleTiming::Disable {
                *result_is_help_exit = true;
            } else {
                is_google_suggest_enabled = true;
            }
        }
        let n = Config {
            port,
            max_connections,
            listen_address,
            hostname_and_ip_address_for_protocol_3: hostname,
            dictionary_full_path,
            config_full_path,
            google_timeout_milliseconds,
            google_timing,
            google_cache_full_path,
            google_cache_entries,
            google_cache_expire_seconds,
            google_max_candidates_length,
            max_server_completions,
            google_insert_hiragana_only_candidate: c.google_insert_hiragana_only_candidate,
            google_insert_katakana_only_candidate: c.google_insert_katakana_only_candidate,
            google_insert_hankaku_katakana_only_candidate: c.google_insert_hankaku_katakana_only_candidate,
            is_http_enabled,
            is_google_cache_enabled,
            is_google_suggest_enabled,
            is_midashi_utf8,
            encoding: c.encoding,
            is_no_daemonize,
            is_verbose: c.is_verbose,
        };
        self.config = n;
    }
}

/// A text setting from an option (see `text_option`).
fn text_opt(o: &Option<Vec<u8>>, current: &Vec<u8>) -> (r: Vec<u8>)
    ensures
        r@ == text_option(*o, current@),
{
    match o {
        Some(v) => copy_bytes(v),
        None => copy_bytes(current),
    }
}

/// An integer setting from an option (see `int_option`).
fn int_opt(o: &Option<Vec<u8>>, lo: i128, hi: i128, current: i128, is_help_exit: &mut bool) -> (r: i128)
    requires
        -0x1_0000_0000_0000_0000 < lo <= 0 <= hi < 0x1_0000_0000_0000_0000,
        lo <= current <= hi,
    ensures
        r == int_option(*o, lo as int, hi as int, current as int),
        lo <= r <= hi,
        *final(is_help_exit) == (*old(is_help_exit) || int_option_fails(*o, lo as int, hi as int)),
{
    match o {
        Some(v) => parse_integer(v, lo, hi, is_help_exit),
        None => current,
    }
}

/// The timing from `--google-japanese-input`, setting `is_help_exit` for an unknown word.
fn timing_opt(o: &Option<Vec<u8>>, current: GoogleTiming, is_help_exit: &mut bool) -> (r: GoogleTiming)
    ensures
        r == match *o {
            Some(v) => if is_timing_word(v@) { spec_timing(v@) } else { current },
            None => current,
        },
        *final(is_help_exit) == (*old(is_help_exit) || (*o matches Some(v) && !is_timing_word(v@))),
{
    match o {
        Some(v) => {
            let notfound: [u8; 8] = [0x6e, 0x6f, 0x74, 0x66, 0x6f, 0x75, 0x6e, 0x64];
            let disable: [u8; 7] = [0x64, 0x69, 0x73, 0x61, 0x62, 0x6c, 0x65];
            let last: [u8; 4] = [0x6c, 0x61, 0x73, 0x74];
            let first: [u8; 5] = [0x66, 0x69, 0x72, 0x73, 0x74];
            assert(notfound@ =~= seq![0x6eu8, 0x6f, 0x74, 0x66, 0x6f, 0x75, 0x6e, 0x64]);
            assert(disable@ =~= seq![0x64u8, 0x69, 0x73, 0x61, 0x62, 0x6c, 0x65]);
            assert(last@ =~= seq![0x6cu8, 0x61, 0x73, 0x74]);
            assert(first@ =~= seq![0x66u8, 0x69, 0x72, 0x73, 0x74]);
            proof { lemma_timing_words(); }
            if crate::bytes::bytes_eq(v, &notfound) {
                GoogleTiming::NotFound
            } else if crate::bytes::bytes_eq(v, &disable) {
                GoogleTiming::Disable
            } else if crate::bytes::bytes_eq(v, &last) {
                GoogleTiming::Last
            } else if crate::bytes::bytes_eq(v, &first) {
                GoogleTiming::First
            } else {
                *is_help_exit = true;
                current
            }
        },
        None => current,
    }
}

/// Whether no two of `s` are the same.
pub open spec fn all_distinct(s: Seq<Seq<u8>>) -> bool {
    forall|i: int, j: int| 0 <= i < j < s.len() ==> s[i] != s[j]
}

/// The settings that the dictionary maker's command line makes.
pub struct Yaskkserv2MakeDictionaryCommandLine {
    pub config: Config,
    pub jisyo_full_paths: Vec<Vec<u8>>,
    pub output_jisyo_full_path: Vec<u8>,
    pub input_cache_full_path: Vec<u8>,
}

impl Yaskkserv2MakeDictionaryCommandLine {
    /// Whether no jisyo is named twice on the command line (by its name, not by the file).
    pub fn is_unique_jisyo_args(jisyo_full_paths: &Vec<Vec<u8>>) -> (r: bool)
        ensures
            r == all_distinct(vv(jisyo_full_paths@)),
    {
        let ghost s = vv(jisyo_full_paths@);
        let mut seen = fx_byte_set_new();
        let mut i: usize = 0;
        while i < jisyo_full_paths.len()
            invariant
                0 <= i <= jisyo_full_paths.len(),
                s == vv(jisyo_full_paths@),
                fx_byte_set_contents(seen) == Set::new(|x: Seq<u8>| exists|k: int| 0 <= k < i && s[k] == x),
                forall|a: int, b: int| 0 <= a < b < i ==> #[trigger] s[a] != #[trigger] s[b],
            decreases jisyo_full_paths.len() - i,
        {
            let ghost before = fx_byte_set_contents(seen);
            let fresh = fx_byte_set_insert(&mut seen, copy_bytes(&jisyo_full_paths[i]));
            assert(jisyo_full_paths@[i as int]@ == s[i as int]);
            if !fresh {
                let ghost k = choose|k: int| 0 <= k < i && s[k] == s[i as int];
                assert(s[k] == s[i as int]);
                return false;
            }
            assert(fx_byte_set_contents(seen) =~= Set::new(|x: Seq<u8>| exists|k: int| 0 <= k < i + 1 && s[k] == x)) by {
                assert forall|x: Seq<u8>| (exists|k: int| 0 <= k < i + 1 && s[k] == x) implies #[trigger] fx_byte_set_contents(seen).contains(x) by {
                    let k = choose|k: int| 0 <= k < i + 1 && s[k] == x;
                    if k < i {
                        assert(before.contains(x));
                    }
                }
            }
            assert forall|a: int, b: int| 0 <= a < b < i + 1 implies #[trigger] s[a] != #[trigger] s[b] by {
                if b == i {
                    assert(!before.contains(s[i as int]));
                    if s[a] == s[i as int] {
                        assert(before.contains(s[a]));
                    }
                }
            }
            i += 1;
        }
        true
    }

    /// Takes the values of the dictionary maker's command line: the jisyo files, `--utf8`,
    /// `--dictionary-filename`, `--cache-filename`, `--output-jisyo-filename` and
    /// `--verbose`. Returns whether to show the help text and stop: where neither a jisyo nor an
    /// output jisyo is named.
    pub fn setup(
        &mut self,
        jisyo: Vec<Vec<u8>>,
        utf8: bool,
        dictionary_filename: Option<Vec<u8>>,
        cache_filename: Option<Vec<u8>>,
        output_jisyo_filename: Option<Vec<u8>>,
        verbose: bool,
    ) -> (r: bool)
        ensures
            vv(final(self).jisyo_full_paths@) == vv(jisyo@),
            final(self).config.encoding == (if utf8 { Encoding::Utf8 } else { Encoding::Euc }),
            final(self).config.dictionary_full_path@ == text_option(dictionary_filename, old(self).config.dictionary_full_path@),
            final(self).input_cache_full_path@ == text_option(cache_filename, old(self).input_cache_full_path@),
            final(self).output_jisyo_full_path@ == text_option(output_jisyo_filename, old(self).output_jisyo_full_path@),
            final(self).config.is_verbose == verbose,
            r == (jisyo.len() == 0 && final(self).output_jisyo_full_path@.len() == 0),
    {
        let n = jisyo.len();
        self.jisyo_full_paths = jisyo;
        self.config.encoding = if utf8 { Encoding::Utf8 } else { Encoding::Euc };
        if let Some(v) = dictionary_filename {
            self.config.dictionary_full_path = v;
        }
        if let Some(v) = cache_filename {
            self.input_cache_full_path = v;
        }
        if let Some(v) = output_jisyo_filename {
            self.output_jisyo_full_path = v;
        }
        self.config.is_verbose = verbose;
        n == 0 && self.output_jisyo_full_path.len() == 0
    }
}


/// A command line without options and flags changes no setting and asks for neither the help
/// text nor the version.
pub proof fn lemma_empty_command_line(c: Config, a: CommandLineArgs, n: Config)
    requires
        a.dictionary is None && a.config_filename is None && a.port is None && a.max_connections is None,
        a.listen_address is None && a.hostname_and_ip_address_for_protocol_3 is None,
        a.google_timeout_milliseconds is None && a.google_cache_filename is None && a.google_cache_entries is None,
        a.google_cache_expire_seconds is None && a.max_server_completions is None && a.google_max_candidates_length is None && a.google_japanese_input is None,
        !a.version && !a.no_daemonize && !a.google_use_http && !a.midashi_utf8 && !a.google_suggest,
    ensures
        config_after_command_line(c, a, n) <==> n.view_eq(c),
        !command_line_help_exit(a, c.google_timing),
{
}
} // verus!
