//! The settings of the server, their defaults, and the validation of setting values.
use vstd::prelude::*;
use crate::bytes::append_bytes;
use crate::encoding::Encoding;

verus! {

/// When the Google Japanese Input API is asked.
#[derive(Clone, Copy, Debug, PartialEq, Eq, Structural)]
pub enum GoogleTiming {
    NotFound,
    Disable,
    Last,
    First,
}

/// The settings of the server. Text settings are held as UTF-8 bytes.
pub struct Config {
    pub port: Vec<u8>,
    pub max_connections: i32,
    pub listen_address: Vec<u8>,
    pub hostname_and_ip_address_for_protocol_3: Vec<u8>,
    pub dictionary_full_path: Vec<u8>,
    pub config_full_path: Vec<u8>,
    pub google_timeout_milliseconds: u64,
    pub google_timing: GoogleTiming,
    pub google_cache_full_path: Vec<u8>,
    pub google_cache_entries: usize,
    pub google_cache_expire_seconds: u64,
    pub google_max_candidates_length: usize,
    pub max_server_completions: u32,
    pub google_insert_hiragana_only_candidate: bool,
    pub google_insert_katakana_only_candidate: bool,
    pub google_insert_hankaku_katakana_only_candidate: bool,
    pub is_http_enabled: bool,
    pub is_google_cache_enabled: bool,
    pub is_google_suggest_enabled: bool,
    pub is_midashi_utf8: bool,
    pub encoding: Encoding,
    pub is_no_daemonize: bool,
    pub is_verbose: bool,
}

pub const DEFAULT_MAX_CONNECTIONS: i32 = 16;
pub const DEFAULT_GOOGLE_TIMEOUT_MILLISECONDS: u64 = 1000;
pub const DEFAULT_GOOGLE_CACHE_ENTRIES: usize = 1024;
pub const DEFAULT_GOOGLE_CACHE_EXPIRE_SECONDS: u64 = 2592000;
pub const DEFAULT_GOOGLE_MAX_CANDIDATES_LENGTH: usize = 25;
pub const DEFAULT_MAX_SERVER_COMPLETIONS: u32 = 64;
/// The most connections the server takes at once.
pub const MAX_CONNECTION: usize = 1024;

/// `1178`
pub open spec fn default_port() -> Seq<u8> {
    seq![0x31u8, 0x31, 0x37, 0x38]
}

/// `0.0.0.0`
pub open spec fn default_listen_address() -> Seq<u8> {
    seq![0x30u8, 0x2e, 0x30, 0x2e, 0x30, 0x2e, 0x30]
}

/// `localhost:127.0.0.1`
pub open spec fn default_hostname_and_ip_address() -> Seq<u8> {
    seq![0x6cu8, 0x6f, 0x63, 0x61, 0x6c, 0x68, 0x6f, 0x73, 0x74, 0x3a, 0x31, 0x32, 0x37, 0x2e, 0x30, 0x2e, 0x30, 0x2e, 0x31]
}

/// `/etc/yaskkserv2.conf`
pub open spec fn default_config_full_path() -> Seq<u8> {
    seq![0x2fu8, 0x65, 0x74, 0x63, 0x2f, 0x79, 0x61, 0x73, 0x6b, 0x6b, 0x73, 0x65, 0x72, 0x76, 0x32, 0x2e, 0x63, 0x6f, 0x6e, 0x66]
}

/// `/tmp/yaskkserv2.google_cache`
pub open spec fn default_google_cache_full_path() -> Seq<u8> {
    seq![0x2fu8, 0x74, 0x6d, 0x70, 0x2f, 0x79, 0x61, 0x73, 0x6b, 0x6b, 0x73, 0x65, 0x72, 0x76, 0x32, 0x2e,
        0x67, 0x6f, 0x6f, 0x67, 0x6c, 0x65, 0x5f, 0x63, 0x61, 0x63, 0x68, 0x65]
}

impl Config {
    /// Whether `self` holds the default settings.
    pub open spec fn is_default(&self) -> bool {
        &&& self.port@ == default_port()
        &&& self.max_connections == DEFAULT_MAX_CONNECTIONS
        &&& self.listen_address@ == default_listen_address()
        &&& self.hostname_and_ip_address_for_protocol_3@ == default_hostname_and_ip_address()
        &&& self.dictionary_full_path@.len() == 0
        &&& self.config_full_path@ == default_config_full_path()
        &&& self.google_timeout_milliseconds == DEFAULT_GOOGLE_TIMEOUT_MILLISECONDS
        &&& self.google_timing == GoogleTiming::NotFound
        &&& self.google_cache_full_path@ == default_google_cache_full_path()
        &&& self.google_cache_entries == DEFAULT_GOOGLE_CACHE_ENTRIES
        &&& self.google_cache_expire_seconds == DEFAULT_GOOGLE_CACHE_EXPIRE_SECONDS
        &&& self.google_max_candidates_length == DEFAULT_GOOGLE_MAX_CANDIDATES_LENGTH
        &&& self.max_server_completions == DEFAULT_MAX_SERVER_COMPLETIONS
        &&& !self.google_insert_hiragana_only_candidate
        &&& !self.google_insert_katakana_only_candidate
        &&& !self.google_insert_hankaku_katakana_only_candidate
        &&& !self.is_http_enabled
        &&& !self.is_google_cache_enabled
        &&& !self.is_google_suggest_enabled
        &&& !self.is_midashi_utf8
        &&& self.encoding == Encoding::Euc
        &&& !self.is_no_daemonize
        &&& !self.is_verbose
    }

    /// The default settings.
    pub fn new() -> (r: Self)
        ensures
            r.is_default(),
    {
        let port: Vec<u8> = vec![0x31, 0x31, 0x37, 0x38];
        let listen_address: Vec<u8> = vec![0x30, 0x2e, 0x30, 0x2e, 0x30, 0x2e, 0x30];
        let hostname: Vec<u8> = vec![0x6c, 0x6f, 0x63, 0x61, 0x6c, 0x68, 0x6f, 0x73, 0x74, 0x3a, 0x31, 0x32, 0x37, 0x2e, 0x30, 0x2e, 0x30, 0x2e, 0x31];
        let config_full_path: Vec<u8> = vec![0x2f, 0x65, 0x74, 0x63, 0x2f, 0x79, 0x61, 0x73, 0x6b, 0x6b, 0x73, 0x65, 0x72, 0x76, 0x32, 0x2e, 0x63, 0x6f, 0x6e, 0x66];
        let cache: Vec<u8> = vec![0x2f, 0x74, 0x6d, 0x70, 0x2f, 0x79, 0x61, 0x73, 0x6b, 0x6b, 0x73, 0x65, 0x72, 0x76, 0x32, 0x2e,
            0x67, 0x6f, 0x6f, 0x67, 0x6c, 0x65, 0x5f, 0x63, 0x61, 0x63, 0x68, 0x65];
        assert(port@ =~= default_port());
        assert(listen_address@ =~= default_listen_address());
        assert(hostname@ =~= default_hostname_and_ip_address());
        assert(config_full_path@ =~= default_config_full_path());
        assert(cache@ =~= default_google_cache_full_path());
        Config {
            port,
            max_connections: DEFAULT_MAX_CONNECTIONS,
            listen_address,
            hostname_and_ip_address_for_protocol_3: hostname,
            dictionary_full_path: Vec::new(),
            config_full_path,
            google_timeout_milliseconds: DEFAULT_GOOGLE_TIMEOUT_MILLISECONDS,
            google_timing: GoogleTiming::NotFound,
            google_cache_full_path: cache,
            google_cache_entries: DEFAULT_GOOGLE_CACHE_ENTRIES,
            google_cache_expire_seconds: DEFAULT_GOOGLE_CACHE_EXPIRE_SECONDS,
            google_max_candidates_length: DEFAULT_GOOGLE_MAX_CANDIDATES_LENGTH,
            max_server_completions: DEFAULT_MAX_SERVER_COMPLETIONS,
            google_insert_hiragana_only_candidate: false,
            google_insert_katakana_only_candidate: false,
            google_insert_hankaku_katakana_only_candidate: false,
            is_http_enabled: false,
            is_google_cache_enabled: false,
            is_google_suggest_enabled: false,
            is_midashi_utf8: false,
            encoding: Encoding::Euc,
            is_no_daemonize: false,
            is_verbose: false,
        }
    }

    /// A copy of the settings.
    pub fn clone_config(&self) -> (r: Self)
        ensures
            r.view_eq(*self),
    {
        Config {
            port: copy_bytes(&self.port),
            max_connections: self.max_connections,
            listen_address: copy_bytes(&self.listen_address),
            hostname_and_ip_address_for_protocol_3: copy_bytes(&self.hostname_and_ip_address_for_protocol_3),
            dictionary_full_path: copy_bytes(&self.dictionary_full_path),
            config_full_path: copy_bytes(&self.config_full_path),
            google_timeout_milliseconds: self.google_timeout_milliseconds,
            google_timing: self.google_timing,
            google_cache_full_path: copy_bytes(&self.google_cache_full_path),
            google_cache_entries: self.google_cache_entries,
            google_cache_expire_seconds: self.google_cache_expire_seconds,
            google_max_candidates_length: self.google_max_candidates_length,
            max_server_completions: self.max_server_completions,
            google_insert_hiragana_only_candidate: self.google_insert_hiragana_only_candidate,
            google_insert_katakana_only_candidate: self.google_insert_katakana_only_candidate,
            google_insert_hankaku_katakana_only_candidate: self.google_insert_hankaku_katakana_only_candidate,
            is_http_enabled: self.is_http_enabled,
            is_google_cache_enabled: self.is_google_cache_enabled,
            is_google_suggest_enabled: self.is_google_suggest_enabled,
            is_midashi_utf8: self.is_midashi_utf8,
            encoding: self.encoding,
            is_no_daemonize: self.is_no_daemonize,
            is_verbose: self.is_verbose,
        }
    }

    /// Whether two settings hold the same values.
    pub open spec fn view_eq(&self, o: Config) -> bool {
        &&& self.port@ == o.port@
        &&& self.max_connections == o.max_connections
        &&& self.listen_address@ == o.listen_address@
        &&& self.hostname_and_ip_address_for_protocol_3@ == o.hostname_and_ip_address_for_protocol_3@
        &&& self.dictionary_full_path@ == o.dictionary_full_path@
        &&& self.config_full_path@ == o.config_full_path@
        &&& self.google_timeout_milliseconds == o.google_timeout_milliseconds
        &&& self.google_timing == o.google_timing
        &&& self.google_cache_full_path@ == o.google_cache_full_path@
        &&& self.google_cache_entries == o.google_cache_entries
        &&& self.google_cache_expire_seconds == o.google_cache_expire_seconds
        &&& self.google_max_candidates_length == o.google_max_candidates_length
        &&& self.max_server_completions == o.max_server_completions
        &&& self.google_insert_hiragana_only_candidate == o.google_insert_hiragana_only_candidate
        &&& self.google_insert_katakana_only_candidate == o.google_insert_katakana_only_candidate
        &&& self.google_insert_hankaku_katakana_only_candidate == o.google_insert_hankaku_katakana_only_candidate
        &&& self.is_http_enabled == o.is_http_enabled
        &&& self.is_google_cache_enabled == o.is_google_cache_enabled
        &&& self.is_google_suggest_enabled == o.is_google_suggest_enabled
        &&& self.is_midashi_utf8 == o.is_midashi_utf8
        &&& self.encoding == o.encoding
        &&& self.is_no_daemonize == o.is_no_daemonize
        &&& self.is_verbose == o.is_verbose
    }
}

/// A copy of `v`.
pub fn copy_bytes(v: &[u8]) -> (r: Vec<u8>)
    ensures
        r@ == v@,
{
    let mut r: Vec<u8> = Vec::new();
    append_bytes(&mut r, v);
    assert(r@ =~= v@);
    r
}

} // verus!
