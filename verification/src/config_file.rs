//! The config file of the server: its lines of `key = value`, and setting what they give.
use vstd::prelude::*;
use crate::bytes::{append_bytes, bytes_eq, space_len, space_len_at, spec_split, split_bytes, vv};
use crate::config::{
    Config, GoogleTiming, copy_bytes, default_google_cache_full_path, default_hostname_and_ip_address,
    default_listen_address, default_port, DEFAULT_GOOGLE_CACHE_ENTRIES, DEFAULT_GOOGLE_CACHE_EXPIRE_SECONDS,
    DEFAULT_GOOGLE_MAX_CANDIDATES_LENGTH, DEFAULT_GOOGLE_TIMEOUT_MILLISECONDS, DEFAULT_MAX_CONNECTIONS,
    DEFAULT_MAX_SERVER_COMPLETIONS, MAX_CONNECTION,
};
use crate::outside::{FxBytesMap, fx_bytes_map_contents, fx_bytes_map_get, fx_bytes_map_insert, fx_bytes_map_new};

verus! {

/// Why a setting is refused.
#[derive(Clone, Copy, Debug, PartialEq, Eq, Structural)]
pub enum ConfigError {
    DictionaryNotFound,
    IllegalPortNumber,
    IllegalMaxConnectionRange,
    IllegalListenAddress,
    IllegalHostnameIp,
    IllegalTimeoutMilliseconds,
    IllegalCacheEntries,
    IllegalExpireSeconds,
    IllegalCandidatesLength,
    IllegalMaxServerCompletions,
    IllegalCombination,
}

/// The settings of the server, as the config file changes them.
pub struct Yaskkserv2ConfigFile {
    pub config: Config,
}

/// Whether `b` is an ASCII digit.
pub open spec fn is_digit(b: u8) -> bool {
    0x30 <= b <= 0x39
}

/// The value of a run of decimal digits.
pub open spec fn decimal_value(s: Seq<u8>) -> int
    decreases s.len(),
{
    if s.len() == 0 { 0 } else { decimal_value(s.drop_last()) * 10 + (s.last() - 0x30) }
}

/// Whether `s` starts with the sign that `FromStr` on an integer type takes: `+`, or `-`
/// where the type is `signed`.
pub open spec fn has_sign(s: Seq<u8>, signed: bool) -> bool {
    s.len() > 0 && (s[0] == 0x2b || (signed && s[0] == 0x2d))
}

/// The digits part of `s`: what follows the sign, if there is one.
pub open spec fn digits_of(s: Seq<u8>, signed: bool) -> Seq<u8> {
    if has_sign(s, signed) { s.subrange(1, s.len() as int) } else { s }
}

/// What `FromStr` on an integer type reads from `s`, before the type's range is checked: an
/// optional `+` (or `-` where `signed`), then one or more decimal digits.
#[verifier::opaque]
pub open spec fn spec_parse_decimal(s: Seq<u8>, signed: bool) -> Option<int> {
    let digits = digits_of(s, signed);
    if digits.len() == 0 || exists|i: int| 0 <= i < digits.len() && !is_digit(#[trigger] digits[i]) {
        None
    } else if signed && s[0] == 0x2d {
        Some(-decimal_value(digits))
    } else {
        Some(decimal_value(digits))
    }
}

/// The value that `FromStr` reads from `s` for an integer type of range `lo..=hi` (signed
/// where `lo < 0`), if it reads one.
#[verifier::opaque]
pub open spec fn spec_parse_integer(s: Seq<u8>, lo: int, hi: int) -> Option<int> {
    match spec_parse_decimal(s, lo < 0) {
        Some(v) => if lo <= v <= hi { Some(v) } else { None },
        None => None,
    }
}

/// Whether `s` reads as an integer of range `lo..=hi` whose value lies in `min..=max`.
#[verifier::opaque]
pub open spec fn spec_in_range(s: Seq<u8>, lo: int, hi: int, min: int, max: int) -> bool {
    match spec_parse_integer(s, lo, hi) {
        Some(v) => min <= v <= max,
        None => false,
    }
}

/// A line without the CR at its end, if it has one.
pub open spec fn strip_cr(p: Seq<u8>) -> Seq<u8> {
    if p.len() > 0 && p.last() == 0x0d { p.drop_last() } else { p }
}

/// The lines of a text as `BufRead::lines` yields them: split at LF, a CR before the LF
/// dropped, no line after a final LF.
pub open spec fn spec_text_lines(text: Seq<u8>) -> Seq<Seq<u8>> {
    let pieces = spec_split(text, 0x0a);
    let body = Seq::new((pieces.len() - 1) as nat, |i: int| strip_cr(pieces[i]));
    if pieces.last().len() == 0 { body } else { body.push(pieces.last()) }
}

/// The end of the run of white space (`\s`, see `space_len`) that starts at `i`.
pub open spec fn space_end(s: Seq<u8>, i: int) -> int
    decreases s.len() - i,
{
    if i < 0 || i >= s.len() || space_len(s, i) <= 0 { i } else { space_end(s, i + space_len(s, i)) }
}

/// Where the last white space character of the run that starts at `i` starts.
pub open spec fn last_space_start(s: Seq<u8>, i: int) -> int
    decreases s.len() - i,
{
    if i < 0 || i >= s.len() || space_len(s, i) <= 0 || space_len(s, i + space_len(s, i)) <= 0 {
        i
    } else {
        last_space_start(s, i + space_len(s, i))
    }
}

/// The end of the text that is neither `=` nor white space, starting at `i`.
pub open spec fn key_end(s: Seq<u8>, i: int) -> int
    decreases s.len() - i,
{
    if i < 0 || i >= s.len() || space_len(s, i) > 0 || s[i] == 0x3d { i } else { key_end(s, i + 1) }
}

/// `^\s*[;#]`: a comment line.
pub open spec fn is_comment(line: Seq<u8>) -> bool {
    let j = space_end(line, 0);
    j < line.len() && (line[j] == 0x3b || line[j] == 0x23)
}

/// `^\s*([^=\s]+)\s*=\s*(.+)`: the key and the value of a setting line. The value is the rest
/// after `=` without its leading white space, or the last character of the rest where the
/// rest is all white space.
pub open spec fn spec_setting(line: Seq<u8>) -> Option<(Seq<u8>, Seq<u8>)> {
    let k0 = space_end(line, 0);
    let k1 = key_end(line, k0);
    let e = space_end(line, k1);
    if k1 == k0 || e >= line.len() || line[e] != 0x3d {
        None
    } else {
        let v0 = space_end(line, e + 1);
        if e + 1 >= line.len() {
            None
        } else if v0 < line.len() {
            Some((line.subrange(k0, k1), line.subrange(v0, line.len() as int)))
        } else {
            Some((line.subrange(k0, k1), line.subrange(last_space_start(line, e + 1), line.len() as int)))
        }
    }
}

/// The setting of a line, if it holds one: lines shorter than 2 bytes and comment lines hold
/// none.
pub open spec fn spec_line_setting(line: Seq<u8>) -> Option<(Seq<u8>, Seq<u8>)> {
    if line.len() < 2 || is_comment(line) { None } else { spec_setting(line) }
}

/// The settings of the first `n` lines, a later setting of a key replacing an earlier one.
pub open spec fn settings_of(lines: Seq<Seq<u8>>, n: nat) -> Map<Seq<u8>, Seq<u8>>
    decreases n,
{
    if n == 0 {
        Map::empty()
    } else {
        let m = settings_of(lines, (n - 1) as nat);
        match spec_line_setting(lines[n - 1]) {
            None => m,
            Some((k, v)) => m.insert(k, v),
        }
    }
}

/// `^[\x21-\x7e]+$`
#[verifier::opaque]
pub open spec fn is_printable_ascii(s: Seq<u8>) -> bool {
    s.len() > 0 && forall|i: int| 0 <= i < s.len() ==> 0x21 <= #[trigger] s[i] <= 0x7e
}

/// `^(?i)\s*enable\s*$`
#[verifier::opaque]
pub open spec fn is_enable(s: Seq<u8>) -> bool {
    let a = space_end(s, 0);
    &&& a + 6 <= s.len()
    &&& (s[a] == 0x65 || s[a] == 0x45)
    &&& (s[a + 1] == 0x6e || s[a + 1] == 0x4e)
    &&& (s[a + 2] == 0x61 || s[a + 2] == 0x41)
    &&& (s[a + 3] == 0x62 || s[a + 3] == 0x42)
    &&& (s[a + 4] == 0x6c || s[a + 4] == 0x4c)
    &&& (s[a + 5] == 0x65 || s[a + 5] == 0x45)
    &&& space_end(s, a + 6) == s.len()
}

/// The timing that a `google-japanese-input` value names (`notfound` for any other value).
#[verifier::opaque]
pub open spec fn spec_timing(v: Seq<u8>) -> GoogleTiming {
    if v == key_timing_disable() {
        GoogleTiming::Disable
    } else if v == key_timing_last() {
        GoogleTiming::Last
    } else if v == key_timing_first() {
        GoogleTiming::First
    } else {
        GoogleTiming::NotFound
    }
}

/// `dictionary`
pub open spec fn key_dictionary() -> Seq<u8> {
    seq![0x64u8, 0x69, 0x63, 0x74, 0x69, 0x6f, 0x6e, 0x61, 0x72, 0x79]
}

/// `port`
pub open spec fn key_port() -> Seq<u8> {
    seq![0x70u8, 0x6f, 0x72, 0x74]
}

/// `max-connections`
pub open spec fn key_max_connections() -> Seq<u8> {
    seq![0x6du8, 0x61, 0x78, 0x2d, 0x63, 0x6f, 0x6e, 0x6e, 0x65, 0x63, 0x74, 0x69, 0x6f, 0x6e, 0x73]
}

/// `listen-address`
pub open spec fn key_listen_address() -> Seq<u8> {
    seq![0x6cu8, 0x69, 0x73, 0x74, 0x65, 0x6e, 0x2d, 0x61, 0x64, 0x64, 0x72, 0x65, 0x73, 0x73]
}

/// `hostname-and-ip-address-for-protocol-3`
pub open spec fn key_hostname() -> Seq<u8> {
    seq![0x68u8, 0x6f, 0x73, 0x74, 0x6e, 0x61, 0x6d, 0x65, 0x2d, 0x61, 0x6e, 0x64, 0x2d, 0x69, 0x70, 0x2d, 0x61, 0x64, 0x64, 0x72, 0x65, 0x73, 0x73, 0x2d, 0x66, 0x6f, 0x72, 0x2d, 0x70, 0x72, 0x6f, 0x74, 0x6f, 0x63, 0x6f, 0x6c, 0x2d, 0x33]
}

/// `google-timeout-milliseconds`
pub open spec fn key_google_timeout() -> Seq<u8> {
    seq![0x67u8, 0x6f, 0x6f, 0x67, 0x6c, 0x65, 0x2d, 0x74, 0x69, 0x6d, 0x65, 0x6f, 0x75, 0x74, 0x2d, 0x6d, 0x69, 0x6c, 0x6c, 0x69, 0x73, 0x65, 0x63, 0x6f, 0x6e, 0x64, 0x73]
}

/// `google-cache-filename`
pub open spec fn key_google_cache_filename() -> Seq<u8> {
    seq![0x67u8, 0x6f, 0x6f, 0x67, 0x6c, 0x65, 0x2d, 0x63, 0x61, 0x63, 0x68, 0x65, 0x2d, 0x66, 0x69, 0x6c, 0x65, 0x6e, 0x61, 0x6d, 0x65]
}

/// `google-cache-entries`
pub open spec fn key_google_cache_entries() -> Seq<u8> {
    seq![0x67u8, 0x6f, 0x6f, 0x67, 0x6c, 0x65, 0x2d, 0x63, 0x61, 0x63, 0x68, 0x65, 0x2d, 0x65, 0x6e, 0x74, 0x72, 0x69, 0x65, 0x73]
}

/// `google-cache-expire-seconds`
pub open spec fn key_google_cache_expire() -> Seq<u8> {
    seq![0x67u8, 0x6f, 0x6f, 0x67, 0x6c, 0x65, 0x2d, 0x63, 0x61, 0x63, 0x68, 0x65, 0x2d, 0x65, 0x78, 0x70, 0x69, 0x72, 0x65, 0x2d, 0x73, 0x65, 0x63, 0x6f, 0x6e, 0x64, 0x73]
}

/// `google-max-candidates-length`
pub open spec fn key_google_max_candidates() -> Seq<u8> {
    seq![0x67u8, 0x6f, 0x6f, 0x67, 0x6c, 0x65, 0x2d, 0x6d, 0x61, 0x78, 0x2d, 0x63, 0x61, 0x6e, 0x64, 0x69, 0x64, 0x61, 0x74, 0x65, 0x73, 0x2d, 0x6c, 0x65, 0x6e, 0x67, 0x74, 0x68]
}

/// `max-server-completions`
pub open spec fn key_max_server_completions() -> Seq<u8> {
    seq![0x6du8, 0x61, 0x78, 0x2d, 0x73, 0x65, 0x72, 0x76, 0x65, 0x72, 0x2d, 0x63, 0x6f, 0x6d, 0x70, 0x6c, 0x65, 0x74, 0x69, 0x6f, 0x6e, 0x73]
}

/// `google-japanese-input`
pub open spec fn key_google_japanese_input() -> Seq<u8> {
    seq![0x67u8, 0x6f, 0x6f, 0x67, 0x6c, 0x65, 0x2d, 0x6a, 0x61, 0x70, 0x61, 0x6e, 0x65, 0x73, 0x65, 0x2d, 0x69, 0x6e, 0x70, 0x75, 0x74]
}

/// `google-use-http`
pub open spec fn key_google_use_http() -> Seq<u8> {
    seq![0x67u8, 0x6f, 0x6f, 0x67, 0x6c, 0x65, 0x2d, 0x75, 0x73, 0x65, 0x2d, 0x68, 0x74, 0x74, 0x70]
}

/// `google-suggest`
pub open spec fn key_google_suggest() -> Seq<u8> {
    seq![0x67u8, 0x6f, 0x6f, 0x67, 0x6c, 0x65, 0x2d, 0x73, 0x75, 0x67, 0x67, 0x65, 0x73, 0x74]
}

/// `google-insert-hiragana-only-candidate`
pub open spec fn key_google_insert_hiragana() -> Seq<u8> {
    seq![0x67u8, 0x6f, 0x6f, 0x67, 0x6c, 0x65, 0x2d, 0x69, 0x6e, 0x73, 0x65, 0x72, 0x74, 0x2d, 0x68, 0x69, 0x72, 0x61, 0x67, 0x61, 0x6e, 0x61, 0x2d, 0x6f, 0x6e, 0x6c, 0x79, 0x2d, 0x63, 0x61, 0x6e, 0x64, 0x69, 0x64, 0x61, 0x74, 0x65]
}

/// `google-insert-katakana-only-candidate`
pub open spec fn key_google_insert_katakana() -> Seq<u8> {
    seq![0x67u8, 0x6f, 0x6f, 0x67, 0x6c, 0x65, 0x2d, 0x69, 0x6e, 0x73, 0x65, 0x72, 0x74, 0x2d, 0x6b, 0x61, 0x74, 0x61, 0x6b, 0x61, 0x6e, 0x61, 0x2d, 0x6f, 0x6e, 0x6c, 0x79, 0x2d, 0x63, 0x61, 0x6e, 0x64, 0x69, 0x64, 0x61, 0x74, 0x65]
}

/// `google-insert-hankaku-katakana-only-candidate`
pub open spec fn key_google_insert_hankaku() -> Seq<u8> {
    seq![0x67u8, 0x6f, 0x6f, 0x67, 0x6c, 0x65, 0x2d, 0x69, 0x6e, 0x73, 0x65, 0x72, 0x74, 0x2d, 0x68, 0x61, 0x6e, 0x6b, 0x61, 0x6b, 0x75, 0x2d, 0x6b, 0x61, 0x74, 0x61, 0x6b, 0x61, 0x6e, 0x61, 0x2d, 0x6f, 0x6e, 0x6c, 0x79, 0x2d, 0x63, 0x61, 0x6e, 0x64, 0x69, 0x64, 0x61, 0x74, 0x65]
}

/// `disable`
pub open spec fn key_timing_disable() -> Seq<u8> {
    seq![0x64u8, 0x69, 0x73, 0x61, 0x62, 0x6c, 0x65]
}

/// `last`
pub open spec fn key_timing_last() -> Seq<u8> {
    seq![0x6cu8, 0x61, 0x73, 0x74]
}

/// `first`
pub open spec fn key_timing_first() -> Seq<u8> {
    seq![0x66u8, 0x69, 0x72, 0x73, 0x74]
}



impl Yaskkserv2ConfigFile {
    /// `dictionary`
    fn key_dictionary_bytes() -> (r: Vec<u8>)
        ensures
            r@ == key_dictionary(),
    {
        let a: [u8; 10] = [0x64, 0x69, 0x63, 0x74, 0x69, 0x6f, 0x6e, 0x61, 0x72, 0x79];
        let mut r: Vec<u8> = Vec::new();
        append_bytes(&mut r, &a);
        assert(r@ =~= key_dictionary());
        r
    }

    /// `port`
    fn key_port_bytes() -> (r: Vec<u8>)
        ensures
            r@ == key_port(),
    {
        let a: [u8; 4] = [0x70, 0x6f, 0x72, 0x74];
        let mut r: Vec<u8> = Vec::new();
        append_bytes(&mut r, &a);
        assert(r@ =~= key_port());
        r
    }

    /// `max-connections`
    fn key_max_connections_bytes() -> (r: Vec<u8>)
        ensures
            r@ == key_max_connections(),
    {
        let a: [u8; 15] = [0x6d, 0x61, 0x78, 0x2d, 0x63, 0x6f, 0x6e, 0x6e, 0x65, 0x63, 0x74, 0x69, 0x6f, 0x6e, 0x73];
        let mut r: Vec<u8> = Vec::new();
        append_bytes(&mut r, &a);
        assert(r@ =~= key_max_connections());
        r
    }

    /// `listen-address`
    fn key_listen_address_bytes() -> (r: Vec<u8>)
        ensures
            r@ == key_listen_address(),
    {
        let a: [u8; 14] = [0x6c, 0x69, 0x73, 0x74, 0x65, 0x6e, 0x2d, 0x61, 0x64, 0x64, 0x72, 0x65, 0x73, 0x73];
        let mut r: Vec<u8> = Vec::new();
        append_bytes(&mut r, &a);
        assert(r@ =~= key_listen_address());
        r
    }

    /// `hostname-and-ip-address-for-protocol-3`
    fn key_hostname_bytes() -> (r: Vec<u8>)
        ensures
            r@ == key_hostname(),
    {
        let a: [u8; 38] = [0x68, 0x6f, 0x73, 0x74, 0x6e, 0x61, 0x6d, 0x65, 0x2d, 0x61, 0x6e, 0x64, 0x2d, 0x69, 0x70, 0x2d, 0x61, 0x64, 0x64, 0x72, 0x65, 0x73, 0x73, 0x2d, 0x66, 0x6f, 0x72, 0x2d, 0x70, 0x72, 0x6f, 0x74, 0x6f, 0x63, 0x6f, 0x6c, 0x2d, 0x33];
        let mut r: Vec<u8> = Vec::new();
        append_bytes(&mut r, &a);
        assert(r@ =~= key_hostname());
        r
    }

    /// `google-timeout-milliseconds`
    fn key_google_timeout_bytes() -> (r: Vec<u8>)
        ensures
            r@ == key_google_timeout(),
    {
        let a: [u8; 27] = [0x67, 0x6f, 0x6f, 0x67, 0x6c, 0x65, 0x2d, 0x74, 0x69, 0x6d, 0x65, 0x6f, 0x75, 0x74, 0x2d, 0x6d, 0x69, 0x6c, 0x6c, 0x69, 0x73, 0x65, 0x63, 0x6f, 0x6e, 0x64, 0x73];
        let mut r: Vec<u8> = Vec::new();
        append_bytes(&mut r, &a);
        assert(r@ =~= key_google_timeout());
        r
    }

    /// `google-cache-filename`
    fn key_google_cache_filename_bytes() -> (r: Vec<u8>)
        ensures
            r@ == key_google_cache_filename(),
    {
        let a: [u8; 21] = [0x67, 0x6f, 0x6f, 0x67, 0x6c, 0x65, 0x2d, 0x63, 0x61, 0x63, 0x68, 0x65, 0x2d, 0x66, 0x69, 0x6c, 0x65, 0x6e, 0x61, 0x6d, 0x65];
        let mut r: Vec<u8> = Vec::new();
        append_bytes(&mut r, &a);
        assert(r@ =~= key_google_cache_filename());
        r
    }

    /// `google-cache-entries`
    fn key_google_cache_entries_bytes() -> (r: Vec<u8>)
        ensures
            r@ == key_google_cache_entries(),
    {
        let a: [u8; 20] = [0x67, 0x6f, 0x6f, 0x67, 0x6c, 0x65, 0x2d, 0x63, 0x61, 0x63, 0x68, 0x65, 0x2d, 0x65, 0x6e, 0x74, 0x72, 0x69, 0x65, 0x73];
        let mut r: Vec<u8> = Vec::new();
        append_bytes(&mut r, &a);
        assert(r@ =~= key_google_cache_entries());
        r
    }

    /// `google-cache-expire-seconds`
    fn key_google_cache_expire_bytes() -> (r: Vec<u8>)
        ensures
            r@ == key_google_cache_expire(),
    {
        let a: [u8; 27] = [0x67, 0x6f, 0x6f, 0x67, 0x6c, 0x65, 0x2d, 0x63, 0x61, 0x63, 0x68, 0x65, 0x2d, 0x65, 0x78, 0x70, 0x69, 0x72, 0x65, 0x2d, 0x73, 0x65, 0x63, 0x6f, 0x6e, 0x64, 0x73];
        let mut r: Vec<u8> = Vec::new();
        append_bytes(&mut r, &a);
        assert(r@ =~= key_google_cache_expire());
        r
    }

    /// `google-max-candidates-length`
    fn key_google_max_candidates_bytes() -> (r: Vec<u8>)
        ensures
            r@ == key_google_max_candidates(),
    {
        let a: [u8; 28] = [0x67, 0x6f, 0x6f, 0x67, 0x6c, 0x65, 0x2d, 0x6d, 0x61, 0x78, 0x2d, 0x63, 0x61, 0x6e, 0x64, 0x69, 0x64, 0x61, 0x74, 0x65, 0x73, 0x2d, 0x6c, 0x65, 0x6e, 0x67, 0x74, 0x68];
        let mut r: Vec<u8> = Vec::new();
        append_bytes(&mut r, &a);
        assert(r@ =~= key_google_max_candidates());
        r
    }

    /// `max-server-completions`
    fn key_max_server_completions_bytes() -> (r: Vec<u8>)
        ensures
            r@ == key_max_server_completions(),
    {
        let a: [u8; 22] = [0x6d, 0x61, 0x78, 0x2d, 0x73, 0x65, 0x72, 0x76, 0x65, 0x72, 0x2d, 0x63, 0x6f, 0x6d, 0x70, 0x6c, 0x65, 0x74, 0x69, 0x6f, 0x6e, 0x73];
        let mut r: Vec<u8> = Vec::new();
        append_bytes(&mut r, &a);
        assert(r@ =~= key_max_server_completions());
        r
    }

    /// `google-japanese-input`
    fn key_google_japanese_input_bytes() -> (r: Vec<u8>)
        ensures
            r@ == key_google_japanese_input(),
    {
        let a: [u8; 21] = [0x67, 0x6f, 0x6f, 0x67, 0x6c, 0x65, 0x2d, 0x6a, 0x61, 0x70, 0x61, 0x6e, 0x65, 0x73, 0x65, 0x2d, 0x69, 0x6e, 0x70, 0x75, 0x74];
        let mut r: Vec<u8> = Vec::new();
        append_bytes(&mut r, &a);
        assert(r@ =~= key_google_japanese_input());
        r
    }

    /// `google-use-http`
    fn key_google_use_http_bytes() -> (r: Vec<u8>)
        ensures
            r@ == key_google_use_http(),
    {
        let a: [u8; 15] = [0x67, 0x6f, 0x6f, 0x67, 0x6c, 0x65, 0x2d, 0x75, 0x73, 0x65, 0x2d, 0x68, 0x74, 0x74, 0x70];
        let mut r: Vec<u8> = Vec::new();
        append_bytes(&mut r, &a);
        assert(r@ =~= key_google_use_http());
        r
    }

    /// `google-suggest`
    fn key_google_suggest_bytes() -> (r: Vec<u8>)
        ensures
            r@ == key_google_suggest(),
    {
        let a: [u8; 14] = [0x67, 0x6f, 0x6f, 0x67, 0x6c, 0x65, 0x2d, 0x73, 0x75, 0x67, 0x67, 0x65, 0x73, 0x74];
        let mut r: Vec<u8> = Vec::new();
        append_bytes(&mut r, &a);
        assert(r@ =~= key_google_suggest());
        r
    }

    /// `google-insert-hiragana-only-candidate`
    fn key_google_insert_hiragana_bytes() -> (r: Vec<u8>)
        ensures
            r@ == key_google_insert_hiragana(),
    {
        let a: [u8; 37] = [0x67, 0x6f, 0x6f, 0x67, 0x6c, 0x65, 0x2d, 0x69, 0x6e, 0x73, 0x65, 0x72, 0x74, 0x2d, 0x68, 0x69, 0x72, 0x61, 0x67, 0x61, 0x6e, 0x61, 0x2d, 0x6f, 0x6e, 0x6c, 0x79, 0x2d, 0x63, 0x61, 0x6e, 0x64, 0x69, 0x64, 0x61, 0x74, 0x65];
        let mut r: Vec<u8> = Vec::new();
        append_bytes(&mut r, &a);
        assert(r@ =~= key_google_insert_hiragana());
        r
    }

    /// `google-insert-katakana-only-candidate`
    fn key_google_insert_katakana_bytes() -> (r: Vec<u8>)
        ensures
            r@ == key_google_insert_katakana(),
    {
        let a: [u8; 37] = [0x67, 0x6f, 0x6f, 0x67, 0x6c, 0x65, 0x2d, 0x69, 0x6e, 0x73, 0x65, 0x72, 0x74, 0x2d, 0x6b, 0x61, 0x74, 0x61, 0x6b, 0x61, 0x6e, 0x61, 0x2d, 0x6f, 0x6e, 0x6c, 0x79, 0x2d, 0x63, 0x61, 0x6e, 0x64, 0x69, 0x64, 0x61, 0x74, 0x65];
        let mut r: Vec<u8> = Vec::new();
        append_bytes(&mut r, &a);
        assert(r@ =~= key_google_insert_katakana());
        r
    }

    /// `google-insert-hankaku-katakana-only-candidate`
    fn key_google_insert_hankaku_bytes() -> (r: Vec<u8>)
        ensures
            r@ == key_google_insert_hankaku(),
    {
        let a: [u8; 45] = [0x67, 0x6f, 0x6f, 0x67, 0x6c, 0x65, 0x2d, 0x69, 0x6e, 0x73, 0x65, 0x72, 0x74, 0x2d, 0x68, 0x61, 0x6e, 0x6b, 0x61, 0x6b, 0x75, 0x2d, 0x6b, 0x61, 0x74, 0x61, 0x6b, 0x61, 0x6e, 0x61, 0x2d, 0x6f, 0x6e, 0x6c, 0x79, 0x2d, 0x63, 0x61, 0x6e, 0x64, 0x69, 0x64, 0x61, 0x74, 0x65];
        let mut r: Vec<u8> = Vec::new();
        append_bytes(&mut r, &a);
        assert(r@ =~= key_google_insert_hankaku());
        r
    }





    /// What `FromStr` reads from `s` before the range check (see `spec_parse_decimal`), where
    /// its magnitude is below 2^64.
    pub fn parse_decimal(s: &[u8], signed: bool) -> (r: Option<i128>)
        ensures
            r is Some ==> spec_parse_decimal(s@, signed) == Some(r->0 as int),
            r is None ==> spec_parse_decimal(s@, signed) is None
                || spec_parse_decimal(s@, signed)->0 >= 0x1_0000_0000_0000_0000
                || spec_parse_decimal(s@, signed)->0 <= -0x1_0000_0000_0000_0000,
    {
        reveal(spec_parse_decimal);
        if s.len() == 0 {
            return None;
        }
        let neg = signed && s[0] == 0x2d;
        let start: usize = if s[0] == 0x2b || (signed && s[0] == 0x2d) { 1 } else { 0 };
        let ghost digits = digits_of(s@, signed);
        assert(digits =~= s@.subrange(start as int, s@.len() as int));
        if start == s.len() {
            return None;
        }
        let mut value: u128 = 0;
        let mut i: usize = start;
        while i < s.len()
            invariant
                start <= i <= s.len(),
                start == 0 || start == 1,
                digits == s@.subrange(start as int, s@.len() as int),
                digits == digits_of(s@, signed),
                forall|j: int| start <= j < i ==> is_digit(s@[j]),
                value as int == decimal_value(s@.subrange(start as int, i as int)),
                value < 0x1_0000_0000_0000_0000,
            decreases s.len() - i,
        {
            let c = s[i];
            if c < 0x30 || c > 0x39 {
                assert(!is_digit(digits[i - start]));
                proof { reveal(spec_parse_decimal); }
                return None;
            }
            let ghost pre = s@.subrange(start as int, i as int);
            assert(s@.subrange(start as int, i + 1).drop_last() =~= pre);
            value = value * 10 + (c - 0x30) as u128;
            i += 1;
            if value >= 0x1_0000_0000_0000_0000 {
                let mut k: usize = i;
                while k < s.len()
                    invariant
                        i <= k <= s.len(),
                        start < i,
                        start == 0 || start == 1,
                        digits == s@.subrange(start as int, s@.len() as int),
                        digits == digits_of(s@, signed),
                        forall|j: int| start <= j < k ==> is_digit(s@[j]),
                    decreases s.len() - k,
                {
                    if s[k] < 0x30 || s[k] > 0x39 {
                        assert(!is_digit(digits[k - start]));
                        proof { reveal(spec_parse_decimal); }
                        return None;
                    }
                    k += 1;
                }
                proof {
                    assert forall|j: int| 0 <= j < digits.len() implies is_digit(#[trigger] digits[j]) by {
                        assert(digits[j] == s@[j + start]);
                    }
                    lemma_decimal_prefix_le(digits, i - start);
                    assert(digits.subrange(0, i - start) =~= s@.subrange(start as int, i as int));
                    reveal(spec_parse_decimal);
                }
                return None;
            }
        }
        proof {
            assert(s@.subrange(start as int, s@.len() as int) == digits);
            assert forall|j: int| 0 <= j < digits.len() implies is_digit(#[trigger] digits[j]) by {
                assert(digits[j] == s@[j + start]);
            }
        }
        if neg { Some(-(value as i128)) } else { Some(value as i128) }
    }
}

/// A run of digits is at least as large as any prefix of it.
proof fn lemma_decimal_prefix_le(d: Seq<u8>, k: int)
    requires
        0 <= k <= d.len(),
        forall|j: int| 0 <= j < d.len() ==> is_digit(#[trigger] d[j]),
    ensures
        decimal_value(d) >= decimal_value(d.subrange(0, k)),
    decreases d.len() - k,
{
    if k < d.len() {
        lemma_decimal_prefix_le(d, k + 1);
        let p = d.subrange(0, k + 1);
        assert(p.drop_last() =~= d.subrange(0, k));
        assert forall|j: int| 0 <= j < k implies is_digit(#[trigger] d.subrange(0, k)[j]) by {
            assert(d.subrange(0, k)[j] == d[j]);
        }
        lemma_decimal_nonneg(d.subrange(0, k));
        let x = decimal_value(d.subrange(0, k));
        assert(p.last() == d[k]);
        assert(is_digit(p.last()));
        assert(decimal_value(p) == x * 10 + (p.last() - 0x30));
        assert(x * 10 + (p.last() - 0x30) >= x) by (nonlinear_arith)
            requires
                x >= 0,
                p.last() >= 0x30,
        ;
    } else {
        assert(d.subrange(0, k) =~= d);
    }
}

/// A run of digits has a value of at least zero.
proof fn lemma_decimal_nonneg(d: Seq<u8>)
    requires
        forall|j: int| 0 <= j < d.len() ==> is_digit(#[trigger] d[j]),
    ensures
        decimal_value(d) >= 0,
    decreases d.len(),
{
    if d.len() > 0 {
        assert forall|j: int| 0 <= j < d.len() - 1 implies is_digit(#[trigger] d.drop_last()[j]) by {
            assert(d.drop_last()[j] == d[j]);
        }
        lemma_decimal_nonneg(d.drop_last());
        let x = decimal_value(d.drop_last());
        assert(is_digit(d.last()));
        assert(x * 10 + (d.last() - 0x30) >= 0) by (nonlinear_arith)
            requires
                x >= 0,
                d.last() >= 0x30,
        ;
    }
}


/// `space_end(s, i)`.
fn space_end_at(s: &[u8], i: usize) -> (r: usize)
    requires
        i <= s.len(),
    ensures
        r as int == space_end(s@, i as int),
        i <= r <= s.len(),
{
    let mut j: usize = i;
    while j < s.len() && space_len_at(s, j) > 0
        invariant
            i <= j <= s.len(),
            space_end(s@, i as int) == space_end(s@, j as int),
        decreases s.len() - j,
    {
        j += space_len_at(s, j);
    }
    j
}

/// `last_space_start(s, i)`.
fn last_space_start_at(s: &[u8], i: usize) -> (r: usize)
    requires
        i <= s.len(),
    ensures
        r as int == last_space_start(s@, i as int),
        i <= r <= s.len(),
{
    let mut j: usize = i;
    while j < s.len() && space_len_at(s, j) > 0 && space_len_at(s, j + space_len_at(s, j)) > 0
        invariant
            i <= j <= s.len(),
            last_space_start(s@, i as int) == last_space_start(s@, j as int),
        decreases s.len() - j,
    {
        j += space_len_at(s, j);
    }
    j
}

/// `key_end(s, i)`.
fn key_end_at(s: &[u8], i: usize) -> (r: usize)
    requires
        i <= s.len(),
    ensures
        r as int == key_end(s@, i as int),
        i <= r <= s.len(),
{
    let mut j: usize = i;
    while j < s.len() && space_len_at(s, j) == 0 && s[j] != 0x3d
        invariant
            i <= j <= s.len(),
            key_end(s@, i as int) == key_end(s@, j as int),
        decreases s.len() - j,
    {
        j += 1;
    }
    j
}

/// A copy of the bytes of `s` from `a` to `b`.
fn copy_range(s: &[u8], a: usize, b: usize) -> (r: Vec<u8>)
    requires
        a <= b <= s.len(),
    ensures
        r@ == s@.subrange(a as int, b as int),
{
    let mut r: Vec<u8> = Vec::new();
    let mut i: usize = a;
    while i < b
        invariant
            a <= i <= b <= s.len(),
            r@ == s@.subrange(a as int, i as int),
        decreases b - i,
    {
        r.push(s[i]);
        i += 1;
        assert(r@ =~= s@.subrange(a as int, i as int));
    }
    r
}

impl Yaskkserv2ConfigFile {
    /// The settings start from `config`.
    pub fn new(config: &Config) -> (r: Self)
        ensures
            r.config.view_eq(*config),
    {
        Yaskkserv2ConfigFile { config: config.clone_config() }
    }

    /// The settings, once the config file has changed them.
    pub fn get_config(self) -> (r: Config)
        ensures
            r == self.config,
    {
        self.config
    }

    /// The lines of `text`, as `BufRead::lines` yields them.
    pub fn text_lines(text: &[u8]) -> (r: Vec<Vec<u8>>)
        ensures
            vv(r@) == spec_text_lines(text@),
    {
        let pieces = split_bytes(text, 0x0a);
        let ghost ps = spec_split(text@, 0x0a);
        let n = pieces.len();
        let mut r: Vec<Vec<u8>> = Vec::new();
        let mut i: usize = 0;
        while i + 1 < n
            invariant
                n == pieces.len(),
                n >= 1,
                i + 1 <= n,
                vv(pieces@) == ps,
                r.len() == i,
                forall|j: int| 0 <= j < i ==> (#[trigger] r@[j])@ == strip_cr(ps[j]),
            decreases n - i,
        {
            let p = &pieces[i];
            assert(p@ == ps[i as int]);
            let line = if p.len() > 0 && p[p.len() - 1] == 0x0d {
                copy_range(p, 0, p.len() - 1)
            } else {
                copy_range(p, 0, p.len())
            };
            assert(p@.subrange(0, p@.len() as int) =~= p@);
            assert(p@.subrange(0, p@.len() - 1) =~= p@.drop_last());
            r.push(line);
            i += 1;
        }
        let ghost body = Seq::new((ps.len() - 1) as nat, |j: int| strip_cr(ps[j]));
        assert(vv(r@) =~= body);
        let last = &pieces[n - 1];
        assert(last@ == ps.last());
        if last.len() > 0 {
            r.push(copy_range(last, 0, last.len()));
            assert(last@.subrange(0, last@.len() as int) =~= last@);
            assert(vv(r@) =~= body.push(ps.last()));
        }
        r
    }

    /// The key and the value that `line` sets, if it sets one (see `spec_line_setting`).
    pub fn line_setting(line: &[u8]) -> (r: Option<(Vec<u8>, Vec<u8>)>)
        ensures
            match r {
                Some(kv) => spec_line_setting(line@) == Some((kv.0@, kv.1@)),
                None => spec_line_setting(line@) is None,
            },
    {
        if line.len() < 2 {
            return None;
        }
        let k0 = space_end_at(line, 0);
        if k0 < line.len() && (line[k0] == 0x3b || line[k0] == 0x23) {
            return None;
        }
        let k1 = key_end_at(line, k0);
        let e = space_end_at(line, k1);
        if k1 == k0 || e >= line.len() || line[e] != 0x3d {
            return None;
        }
        if e + 1 >= line.len() {
            return None;
        }
        let v0 = space_end_at(line, e + 1);
        let key = copy_range(line, k0, k1);
        let value = if v0 < line.len() {
            copy_range(line, v0, line.len())
        } else {
            copy_range(line, last_space_start_at(line, e + 1), line.len())
        };
        Some((key, value))
    }

    /// The settings that `text`, the content of a config file, holds: key to value, a later
    /// line replacing what an earlier one set for the same key.
    pub fn read_settings(text: &[u8]) -> (r: FxBytesMap)
        ensures
            fx_bytes_map_contents(r) == settings_of(spec_text_lines(text@), spec_text_lines(text@).len()),
    {
        let lines = Self::text_lines(text);
        let ghost ls = spec_text_lines(text@);
        let mut m = fx_bytes_map_new();
        assert(fx_bytes_map_contents(m) =~= Map::<Seq<u8>, Seq<u8>>::empty());
        let mut i: usize = 0;
        while i < lines.len()
            invariant
                0 <= i <= lines.len(),
                vv(lines@) == ls,
                fx_bytes_map_contents(m) == settings_of(ls, i as nat),
            decreases lines.len() - i,
        {
            assert(lines@[i as int]@ == ls[i as int]);
            match Self::line_setting(&lines[i]) {
                Some(kv) => {
                    let (k, v) = kv;
                    fx_bytes_map_insert(&mut m, k, v);
                },
                None => {},
            }
            i += 1;
        }
        m
    }
}

/// The least `i32`.
pub open spec fn i32_min() -> int { -0x8000_0000 }

/// The greatest `i32`.
pub open spec fn i32_max() -> int { 0x7fff_ffff }

/// The greatest `u64`.
pub open spec fn u64_max() -> int { 0xffff_ffff_ffff_ffff }

/// Whether the file sets `key` here: it holds the key, and the setting still has its default.
pub open spec fn file_sets(m: Map<Seq<u8>, Seq<u8>>, key: Seq<u8>, at_default: bool) -> bool {
    at_default && m.contains_key(key)
}

/// Whether an integer setting of the file is refused: not an integer of `lo..=hi`, or one
/// outside `min..=max`.
pub open spec fn int_setting_fails(
    m: Map<Seq<u8>, Seq<u8>>,
    key: Seq<u8>,
    at_default: bool,
    lo: int,
    hi: int,
    min: int,
    max: int,
) -> bool {
    file_sets(m, key, at_default) && !spec_in_range(m[key], lo, hi, min, max)
}

/// The value of an integer setting once the file is read.
pub open spec fn int_setting_value(
    m: Map<Seq<u8>, Seq<u8>>,
    key: Seq<u8>,
    at_default: bool,
    lo: int,
    hi: int,
    current: int,
) -> int {
    if file_sets(m, key, at_default) { spec_parse_integer(m[key], lo, hi)->0 } else { current }
}

/// The value of a text setting once the file is read.
pub open spec fn bytes_setting_value(m: Map<Seq<u8>, Seq<u8>>, key: Seq<u8>, at_default: bool, current: Seq<u8>) -> Seq<u8> {
    if file_sets(m, key, at_default) { m[key] } else { current }
}

/// The value of a Google switch once the file is read (its default is off).
pub open spec fn switch_setting_value(m: Map<Seq<u8>, Seq<u8>>, key: Seq<u8>, current: bool) -> bool {
    if file_sets(m, key, !current) { is_enable(m[key]) } else { current }
}

/// Whether the file turns a Google switch on while Google Japanese Input is disabled.
pub open spec fn switch_setting_fails(m: Map<Seq<u8>, Seq<u8>>, key: Seq<u8>, current: bool, timing: GoogleTiming) -> bool {
    file_sets(m, key, !current) && is_enable(m[key]) && timing == GoogleTiming::Disable
}

/// The timing of Google Japanese Input once the file is read.
pub open spec fn file_timing(c: Config, m: Map<Seq<u8>, Seq<u8>>) -> GoogleTiming {
    if file_sets(m, key_google_japanese_input(), c.google_timing == GoogleTiming::NotFound) {
        spec_timing(m[key_google_japanese_input()])
    } else {
        c.google_timing
    }
}

/// The first of the settings from `dictionary` to `google-cache-filename` that the file holds
/// and that is refused, where the settings start from `c`. `dictionary_exists` tells whether
/// the file named by `dictionary` exists, `listen_address_is_ip` whether `listen-address` is an
/// IP address.
pub open spec fn head_error(
    c: Config,
    m: Map<Seq<u8>, Seq<u8>>,
    dictionary_exists: bool,
    listen_address_is_ip: bool,
) -> Option<ConfigError> {
    if file_sets(m, key_dictionary(), c.dictionary_full_path@.len() == 0) && !dictionary_exists {
        Some(ConfigError::DictionaryNotFound)
    } else if int_setting_fails(m, key_port(), c.port@ == default_port(), i32_min(), i32_max(), 0, 65535) {
        Some(ConfigError::IllegalPortNumber)
    } else if int_setting_fails(m, key_max_connections(), c.max_connections == DEFAULT_MAX_CONNECTIONS,
        i32_min(), i32_max(), 1, MAX_CONNECTION as int) {
        Some(ConfigError::IllegalMaxConnectionRange)
    } else if file_sets(m, key_listen_address(), c.listen_address@ == default_listen_address()) && !listen_address_is_ip {
        Some(ConfigError::IllegalListenAddress)
    } else if file_sets(m, key_hostname(), c.hostname_and_ip_address_for_protocol_3@ == default_hostname_and_ip_address())
        && !is_printable_ascii(m[key_hostname()]) {
        Some(ConfigError::IllegalHostnameIp)
    } else if int_setting_fails(m, key_google_timeout(), c.google_timeout_milliseconds == DEFAULT_GOOGLE_TIMEOUT_MILLISECONDS,
        0, u64_max(), 0, 300000) {
        Some(ConfigError::IllegalTimeoutMilliseconds)
    } else {
        None
    }
}

/// The first of the settings from `google-cache-entries` on that the file holds and that is
/// refused, where the settings start from `c`.
pub open spec fn rest_error(c: Config, m: Map<Seq<u8>, Seq<u8>>) -> Option<ConfigError> {
    let timing = file_timing(c, m);
    if int_setting_fails(m, key_google_cache_entries(), c.google_cache_entries == DEFAULT_GOOGLE_CACHE_ENTRIES,
        0, usize::MAX as int, 1, 1048576) {
        Some(ConfigError::IllegalCacheEntries)
    } else if int_setting_fails(m, key_google_cache_expire(), c.google_cache_expire_seconds == DEFAULT_GOOGLE_CACHE_EXPIRE_SECONDS,
        0, u64_max(), 1, 3153600000) {
        Some(ConfigError::IllegalExpireSeconds)
    } else if int_setting_fails(m, key_google_max_candidates(), c.google_max_candidates_length == DEFAULT_GOOGLE_MAX_CANDIDATES_LENGTH,
        0, u64_max(), 1, 1024) {
        Some(ConfigError::IllegalCandidatesLength)
    } else if int_setting_fails(m, key_max_server_completions(), c.max_server_completions == DEFAULT_MAX_SERVER_COMPLETIONS,
        i32_min(), i32_max(), 1, 65536) {
        Some(ConfigError::IllegalMaxServerCompletions)
    } else if switch_setting_fails(m, key_google_use_http(), c.is_http_enabled, timing)
        || switch_setting_fails(m, key_google_suggest(), c.is_google_suggest_enabled, timing)
        || switch_setting_fails(m, key_google_insert_hiragana(), c.google_insert_hiragana_only_candidate, timing)
        || switch_setting_fails(m, key_google_insert_katakana(), c.google_insert_katakana_only_candidate, timing)
        || switch_setting_fails(m, key_google_insert_hankaku(), c.google_insert_hankaku_katakana_only_candidate, timing) {
        Some(ConfigError::IllegalCombination)
    } else {
        None
    }
}

/// The first setting of the config file `m` that is refused, in the order in which the
/// settings are taken, where they start from `c` (see `head_error`).
#[verifier::opaque]
pub open spec fn config_file_error(
    c: Config,
    m: Map<Seq<u8>, Seq<u8>>,
    dictionary_exists: bool,
    listen_address_is_ip: bool,
) -> Option<ConfigError> {
    match head_error(c, m, dictionary_exists, listen_address_is_ip) {
        Some(e) => Some(e),
        None => rest_error(c, m),
    }
}

/// Whether the settings of `n` from `dictionary` to `google-cache-filename` are those of `c`
/// as the file `m` changes them: each setting the file holds replaces the current one where
/// that one still has its default.
pub open spec fn head_after_file(c: Config, m: Map<Seq<u8>, Seq<u8>>, n: Config) -> bool {
    &&& n.dictionary_full_path@ == bytes_setting_value(m, key_dictionary(), c.dictionary_full_path@.len() == 0, c.dictionary_full_path@)
    &&& n.port@ == bytes_setting_value(m, key_port(), c.port@ == default_port(), c.port@)
    &&& n.max_connections as int == int_setting_value(m, key_max_connections(), c.max_connections == DEFAULT_MAX_CONNECTIONS,
        i32_min(), i32_max(), c.max_connections as int)
    &&& n.listen_address@ == bytes_setting_value(m, key_listen_address(), c.listen_address@ == default_listen_address(), c.listen_address@)
    &&& n.hostname_and_ip_address_for_protocol_3@ == bytes_setting_value(m, key_hostname(),
        c.hostname_and_ip_address_for_protocol_3@ == default_hostname_and_ip_address(), c.hostname_and_ip_address_for_protocol_3@)
    &&& n.google_timeout_milliseconds as int == int_setting_value(m, key_google_timeout(),
        c.google_timeout_milliseconds == DEFAULT_GOOGLE_TIMEOUT_MILLISECONDS, 0, u64_max(), c.google_timeout_milliseconds as int)
    &&& n.google_cache_full_path@ == bytes_setting_value(m, key_google_cache_filename(),
        c.google_cache_full_path@ == default_google_cache_full_path(), c.google_cache_full_path@)
}

/// Whether the other settings of `n` are those of `c` as the file `m` changes them, the
/// settings that no line of the file names unchanged.
pub open spec fn rest_after_file(c: Config, m: Map<Seq<u8>, Seq<u8>>, n: Config) -> bool {
    &&& n.google_cache_entries as int == int_setting_value(m, key_google_cache_entries(),
        c.google_cache_entries == DEFAULT_GOOGLE_CACHE_ENTRIES, 0, usize::MAX as int, c.google_cache_entries as int)
    &&& n.google_cache_expire_seconds as int == int_setting_value(m, key_google_cache_expire(),
        c.google_cache_expire_seconds == DEFAULT_GOOGLE_CACHE_EXPIRE_SECONDS, 0, u64_max(), c.google_cache_expire_seconds as int)
    &&& n.google_max_candidates_length as int == int_setting_value(m, key_google_max_candidates(),
        c.google_max_candidates_length == DEFAULT_GOOGLE_MAX_CANDIDATES_LENGTH, 0, u64_max(), c.google_max_candidates_length as int)
    &&& n.max_server_completions as int == int_setting_value(m, key_max_server_completions(),
        c.max_server_completions == DEFAULT_MAX_SERVER_COMPLETIONS, i32_min(), i32_max(), c.max_server_completions as int)
    &&& n.google_timing == file_timing(c, m)
    &&& n.is_http_enabled == switch_setting_value(m, key_google_use_http(), c.is_http_enabled)
    &&& n.is_google_suggest_enabled == switch_setting_value(m, key_google_suggest(), c.is_google_suggest_enabled)
    &&& n.google_insert_hiragana_only_candidate == switch_setting_value(m, key_google_insert_hiragana(),
        c.google_insert_hiragana_only_candidate)
    &&& n.google_insert_katakana_only_candidate == switch_setting_value(m, key_google_insert_katakana(),
        c.google_insert_katakana_only_candidate)
    &&& n.google_insert_hankaku_katakana_only_candidate == switch_setting_value(m, key_google_insert_hankaku(),
        c.google_insert_hankaku_katakana_only_candidate)
    &&& n.config_full_path@ == c.config_full_path@
    &&& n.is_google_cache_enabled == c.is_google_cache_enabled
    &&& n.is_midashi_utf8 == c.is_midashi_utf8
    &&& n.encoding == c.encoding
    &&& n.is_no_daemonize == c.is_no_daemonize
    &&& n.is_verbose == c.is_verbose
}

/// Where the config file `m` is refused, counting its settings in the order they are taken:
/// 0 `dictionary`, 1 `port`, 2 `max-connections`, 3 `listen-address`, 4
/// `hostname-and-ip-address-for-protocol-3`, 5 `google-timeout-milliseconds`, (6
/// `google-cache-filename`, never refused), 7 `google-cache-entries`, 8
/// `google-cache-expire-seconds`, 9 `google-max-candidates-length`, 10
/// `max-server-completions`, (11 `google-japanese-input`, never refused), 12 `google-use-http`,
/// 13 `google-suggest`, 14 to 16 the three `google-insert-*` switches; 17 where nothing is
/// refused. See `head_error` and `rest_error`.
pub open spec fn refused_stage(c: Config, m: Map<Seq<u8>, Seq<u8>>, dictionary_exists: bool, listen_address_is_ip: bool) -> int {
    let h = head_refused_stage(c, m, dictionary_exists, listen_address_is_ip);
    if h < 6 { h } else { rest_refused_stage(c, m) }
}

/// The stage among the first six at which the file is refused; 7 where none is (stage 6,
/// `google-cache-filename`, is never refused).
pub open spec fn head_refused_stage(c: Config, m: Map<Seq<u8>, Seq<u8>>, dictionary_exists: bool, listen_address_is_ip: bool) -> int {
    if file_sets(m, key_dictionary(), c.dictionary_full_path@.len() == 0) && !dictionary_exists {
        0
    } else if int_setting_fails(m, key_port(), c.port@ == default_port(), i32_min(), i32_max(), 0, 65535) {
        1
    } else if int_setting_fails(m, key_max_connections(), c.max_connections == DEFAULT_MAX_CONNECTIONS,
        i32_min(), i32_max(), 1, MAX_CONNECTION as int) {
        2
    } else if file_sets(m, key_listen_address(), c.listen_address@ == default_listen_address()) && !listen_address_is_ip {
        3
    } else if file_sets(m, key_hostname(), c.hostname_and_ip_address_for_protocol_3@ == default_hostname_and_ip_address())
        && !is_printable_ascii(m[key_hostname()]) {
        4
    } else if int_setting_fails(m, key_google_timeout(), c.google_timeout_milliseconds == DEFAULT_GOOGLE_TIMEOUT_MILLISECONDS,
        0, u64_max(), 0, 300000) {
        5
    } else {
        7
    }
}

/// The stage from `google-cache-entries` on at which the file is refused, 17 where none is.
pub open spec fn rest_refused_stage(c: Config, m: Map<Seq<u8>, Seq<u8>>) -> int {
    let i = int_refused_stage(c, m);
    if i < 12 { i } else { switch_refused_stage(c, m, file_timing(c, m)) }
}

/// The stage among stages 7 to 10 at which the file is refused; 12 where none is (stage 11,
/// `google-japanese-input`, is never refused).
pub open spec fn int_refused_stage(c: Config, m: Map<Seq<u8>, Seq<u8>>) -> int {
    if int_setting_fails(m, key_google_cache_entries(), c.google_cache_entries == DEFAULT_GOOGLE_CACHE_ENTRIES,
        0, usize::MAX as int, 1, 1048576) {
        7
    } else if int_setting_fails(m, key_google_cache_expire(), c.google_cache_expire_seconds == DEFAULT_GOOGLE_CACHE_EXPIRE_SECONDS,
        0, u64_max(), 1, 3153600000) {
        8
    } else if int_setting_fails(m, key_google_max_candidates(), c.google_max_candidates_length == DEFAULT_GOOGLE_MAX_CANDIDATES_LENGTH,
        0, u64_max(), 1, 1024) {
        9
    } else if int_setting_fails(m, key_max_server_completions(), c.max_server_completions == DEFAULT_MAX_SERVER_COMPLETIONS,
        i32_min(), i32_max(), 1, 65536) {
        10
    } else {
        12
    }
}

/// The stage among the Google switches (12 to 16) at which the file is refused, the timing
/// being `timing`; 17 where none is.
pub open spec fn switch_refused_stage(c: Config, m: Map<Seq<u8>, Seq<u8>>, timing: GoogleTiming) -> int {
    if switch_setting_fails(m, key_google_use_http(), c.is_http_enabled, timing) {
        12
    } else if switch_setting_fails(m, key_google_suggest(), c.is_google_suggest_enabled, timing) {
        13
    } else if switch_setting_fails(m, key_google_insert_hiragana(), c.google_insert_hiragana_only_candidate, timing) {
        14
    } else if switch_setting_fails(m, key_google_insert_katakana(), c.google_insert_katakana_only_candidate, timing) {
        15
    } else if switch_setting_fails(m, key_google_insert_hankaku(), c.google_insert_hankaku_katakana_only_candidate, timing) {
        16
    } else {
        17
    }
}

/// Whether `n` holds the settings `c` with the settings of the config file `m` that come
/// before stage `k` (see `refused_stage`) taken as `config_after_file` takes them, and the
/// others as they were.
pub open spec fn config_before_stage(c: Config, m: Map<Seq<u8>, Seq<u8>>, k: int, n: Config) -> bool {
    &&& head_before_stage(c, m, k, n)
    &&& rest_before_stage(c, m, k, n)
    &&& n.config_full_path@ == c.config_full_path@
    &&& n.is_google_cache_enabled == c.is_google_cache_enabled
    &&& n.is_midashi_utf8 == c.is_midashi_utf8
    &&& n.encoding == c.encoding
    &&& n.is_no_daemonize == c.is_no_daemonize
    &&& n.is_verbose == c.is_verbose
}

/// The settings of stages 0 to 6 of `config_before_stage`.
pub open spec fn head_before_stage(c: Config, m: Map<Seq<u8>, Seq<u8>>, k: int, n: Config) -> bool {
    &&& n.dictionary_full_path@ == if k > 0 {
            bytes_setting_value(m, key_dictionary(), c.dictionary_full_path@.len() == 0, c.dictionary_full_path@)
        } else { c.dictionary_full_path@ }
    &&& n.port@ == if k > 1 { bytes_setting_value(m, key_port(), c.port@ == default_port(), c.port@) } else { c.port@ }
    &&& n.max_connections as int == if k > 2 {
            int_setting_value(m, key_max_connections(), c.max_connections == DEFAULT_MAX_CONNECTIONS, i32_min(), i32_max(),
                c.max_connections as int)
        } else { c.max_connections as int }
    &&& n.listen_address@ == if k > 3 {
            bytes_setting_value(m, key_listen_address(), c.listen_address@ == default_listen_address(), c.listen_address@)
        } else { c.listen_address@ }
    &&& n.hostname_and_ip_address_for_protocol_3@ == if k > 4 {
            bytes_setting_value(m, key_hostname(), c.hostname_and_ip_address_for_protocol_3@ == default_hostname_and_ip_address(),
                c.hostname_and_ip_address_for_protocol_3@)
        } else { c.hostname_and_ip_address_for_protocol_3@ }
    &&& n.google_timeout_milliseconds as int == if k > 5 {
            int_setting_value(m, key_google_timeout(), c.google_timeout_milliseconds == DEFAULT_GOOGLE_TIMEOUT_MILLISECONDS,
                0, u64_max(), c.google_timeout_milliseconds as int)
        } else { c.google_timeout_milliseconds as int }
    &&& n.google_cache_full_path@ == if k > 6 {
            bytes_setting_value(m, key_google_cache_filename(), c.google_cache_full_path@ == default_google_cache_full_path(),
                c.google_cache_full_path@)
        } else { c.google_cache_full_path@ }
}

/// The settings of stages 7 to 16 of `config_before_stage`.
pub open spec fn rest_before_stage(c: Config, m: Map<Seq<u8>, Seq<u8>>, k: int, n: Config) -> bool {
    &&& int_before_stage(c, m, k, n)
    &&& switch_before_stage(c, m, k, n)
}

/// The settings of stages 7 to 11 of `config_before_stage`.
pub open spec fn int_before_stage(c: Config, m: Map<Seq<u8>, Seq<u8>>, k: int, n: Config) -> bool {
    &&& n.google_cache_entries as int == if k > 7 {
            int_setting_value(m, key_google_cache_entries(), c.google_cache_entries == DEFAULT_GOOGLE_CACHE_ENTRIES, 0,
                usize::MAX as int, c.google_cache_entries as int)
        } else { c.google_cache_entries as int }
    &&& n.google_cache_expire_seconds as int == if k > 8 {
            int_setting_value(m, key_google_cache_expire(), c.google_cache_expire_seconds == DEFAULT_GOOGLE_CACHE_EXPIRE_SECONDS,
                0, u64_max(), c.google_cache_expire_seconds as int)
        } else { c.google_cache_expire_seconds as int }
    &&& n.google_max_candidates_length as int == if k > 9 {
            int_setting_value(m, key_google_max_candidates(), c.google_max_candidates_length == DEFAULT_GOOGLE_MAX_CANDIDATES_LENGTH,
                0, u64_max(), c.google_max_candidates_length as int)
        } else { c.google_max_candidates_length as int }
    &&& n.max_server_completions as int == if k > 10 {
            int_setting_value(m, key_max_server_completions(), c.max_server_completions == DEFAULT_MAX_SERVER_COMPLETIONS,
                i32_min(), i32_max(), c.max_server_completions as int)
        } else { c.max_server_completions as int }
    &&& n.google_timing == if k > 11 { file_timing(c, m) } else { c.google_timing }
}

/// The Google switches (stages 12 to 16) of `config_before_stage`.
pub open spec fn switch_before_stage(c: Config, m: Map<Seq<u8>, Seq<u8>>, k: int, n: Config) -> bool {
    &&& n.is_http_enabled == if k > 12 { switch_setting_value(m, key_google_use_http(), c.is_http_enabled) } else { c.is_http_enabled }
    &&& n.is_google_suggest_enabled == if k > 13 {
            switch_setting_value(m, key_google_suggest(), c.is_google_suggest_enabled)
        } else { c.is_google_suggest_enabled }
    &&& n.google_insert_hiragana_only_candidate == if k > 14 {
            switch_setting_value(m, key_google_insert_hiragana(), c.google_insert_hiragana_only_candidate)
        } else { c.google_insert_hiragana_only_candidate }
    &&& n.google_insert_katakana_only_candidate == if k > 15 {
            switch_setting_value(m, key_google_insert_katakana(), c.google_insert_katakana_only_candidate)
        } else { c.google_insert_katakana_only_candidate }
    &&& n.google_insert_hankaku_katakana_only_candidate == if k > 16 {
            switch_setting_value(m, key_google_insert_hankaku(), c.google_insert_hankaku_katakana_only_candidate)
        } else { c.google_insert_hankaku_katakana_only_candidate }
}

/// Whether `n` holds the settings `c` as the config file `m` changes them.
#[verifier::opaque]
pub open spec fn config_after_file(c: Config, m: Map<Seq<u8>, Seq<u8>>, n: Config) -> bool {
    head_after_file(c, m, n) && rest_after_file(c, m, n)
}

/// The integer that `v` reads as in `lo..=hi`, where it lies in `min..=max`.
fn setting_in_range(v: &[u8], lo: i128, hi: i128, min: i128, max: i128) -> (r: Option<i128>)
    requires
        -0x1_0000_0000_0000_0000 < lo <= min <= max <= hi < 0x1_0000_0000_0000_0000,
    ensures
        r is Some <==> spec_in_range(v@, lo as int, hi as int, min as int, max as int),
        r is Some ==> r->0 == spec_parse_integer(v@, lo as int, hi as int)->0 && min <= r->0 <= max,
{
    reveal(spec_in_range);
    reveal(spec_parse_integer);
    match Yaskkserv2ConfigFile::parse_decimal(v, lo < 0) {
        Some(x) => {
            if lo <= x && x <= hi && min <= x && x <= max {
                Some(x)
            } else {
                None
            }
        },
        None => None,
    }
}

/// Whether `s` is `^[\x21-\x7e]+$`.
pub(crate) fn printable_ascii(s: &[u8]) -> (r: bool)
    ensures
        r == is_printable_ascii(s@),
{
    reveal(is_printable_ascii);
    if s.len() == 0 {
        return false;
    }
    let mut i: usize = 0;
    while i < s.len()
        invariant
            0 <= i <= s.len(),
            forall|j: int| 0 <= j < i ==> 0x21 <= #[trigger] s@[j] <= 0x7e,
        decreases s.len() - i,
    {
        if s[i] < 0x21 || s[i] > 0x7e {
            proof { reveal(is_printable_ascii); }
            return false;
        }
        i += 1;
    }
    true
}

/// Whether `s` is `^(?i)\s*enable\s*$`.
fn enable_word(s: &[u8]) -> (r: bool)
    ensures
        r == is_enable(s@),
{
    reveal(is_enable);
    let a = space_end_at(s, 0);
    if s.len() - a < 6 {
        return false;
    }
    let word = (s[a] == 0x65 || s[a] == 0x45) && (s[a + 1] == 0x6e || s[a + 1] == 0x4e)
        && (s[a + 2] == 0x61 || s[a + 2] == 0x41) && (s[a + 3] == 0x62 || s[a + 3] == 0x42)
        && (s[a + 4] == 0x6c || s[a + 4] == 0x4c) && (s[a + 5] == 0x65 || s[a + 5] == 0x45);
    if !word {
        return false;
    }
    space_end_at(s, a + 6) == s.len()
}

/// The timing that `v` names.
fn timing_of(v: &[u8]) -> (r: GoogleTiming)
    ensures
        r == spec_timing(v@),
{
    let disable: [u8; 7] = [0x64, 0x69, 0x73, 0x61, 0x62, 0x6c, 0x65];
    let last: [u8; 4] = [0x6c, 0x61, 0x73, 0x74];
    let first: [u8; 5] = [0x66, 0x69, 0x72, 0x73, 0x74];
    assert(disable@ =~= key_timing_disable());
    assert(last@ =~= key_timing_last());
    assert(first@ =~= key_timing_first());
    reveal(spec_timing);
    if bytes_eq(v, &disable) {
        GoogleTiming::Disable
    } else if bytes_eq(v, &last) {
        GoogleTiming::Last
    } else if bytes_eq(v, &first) {
        GoogleTiming::First
    } else {
        GoogleTiming::NotFound
    }
}

/// The value that the file gives for `key`, where it sets it.
fn text_step(candidates: &FxBytesMap, key: &[u8], at_default: bool) -> (r: Option<Vec<u8>>)
    ensures
        r is Some <==> file_sets(fx_bytes_map_contents(*candidates), key@, at_default),
        r is Some ==> r->0@ == fx_bytes_map_contents(*candidates)[key@],
{
    if !at_default {
        return None;
    }
    match fx_bytes_map_get(candidates, key) {
        Some(v) => Some(copy_bytes(v)),
        None => None,
    }
}

/// One Google switch of the file: its new value, or the refusal of the combination.
fn switch_step(candidates: &FxBytesMap, key: &[u8], current: bool, timing: GoogleTiming) -> (r: Result<bool, ConfigError>)
    ensures
        match r {
            Ok(b) => !switch_setting_fails(fx_bytes_map_contents(*candidates), key@, current, timing)
                && b == switch_setting_value(fx_bytes_map_contents(*candidates), key@, current),
            Err(e) => switch_setting_fails(fx_bytes_map_contents(*candidates), key@, current, timing)
                && e == ConfigError::IllegalCombination,
        },
{
    if current {
        return Ok(current);
    }
    match fx_bytes_map_get(candidates, key) {
        Some(v) => {
            let enabled = enable_word(v);
            if enabled && timing == GoogleTiming::Disable {
                Err(ConfigError::IllegalCombination)
            } else {
                Ok(enabled)
            }
        },
        None => Ok(current),
    }
}

/// One integer setting of the file: its value where the file sets it, or the refusal.
fn int_step(
    candidates: &FxBytesMap,
    key: &[u8],
    at_default: bool,
    lo: i128,
    hi: i128,
    min: i128,
    max: i128,
    error: ConfigError,
) -> (r: Result<Option<i128>, ConfigError>)
    requires
        -0x1_0000_0000_0000_0000 < lo <= min <= max <= hi < 0x1_0000_0000_0000_0000,
    ensures
        match r {
            Ok(o) => !int_setting_fails(fx_bytes_map_contents(*candidates), key@, at_default, lo as int, hi as int, min as int, max as int)
                && (o is Some <==> file_sets(fx_bytes_map_contents(*candidates), key@, at_default))
                && (o is Some ==> o->0 == spec_parse_integer(fx_bytes_map_contents(*candidates)[key@], lo as int, hi as int)->0
                    && min <= o->0 <= max),
            Err(e) => int_setting_fails(fx_bytes_map_contents(*candidates), key@, at_default, lo as int, hi as int, min as int, max as int)
                && e == error,
        },
{
    if !at_default {
        return Ok(None);
    }
    match fx_bytes_map_get(candidates, key) {
        Some(v) => match setting_in_range(v, lo, hi, min, max) {
            Some(x) => Ok(Some(x)),
            None => Err(error),
        },
        None => Ok(None),
    }
}

impl Yaskkserv2ConfigFile {
    /// The settings from `dictionary` to `google-cache-filename` of `c0` as the config file,
    /// `candidates`, changes them, or the first of them that is refused.
    #[verifier::rlimit(50)]
    fn validated_head(c0: &Config, candidates: &FxBytesMap, dictionary_exists: bool, listen_address_is_ip: bool)
        -> (r: Result<(Vec<u8>, Vec<u8>, i32, Vec<u8>, Vec<u8>, u64, Vec<u8>), ConfigError>)
        ensures
            match r {
                Ok(h) => head_error(*c0, fx_bytes_map_contents(*candidates), dictionary_exists, listen_address_is_ip) is None
                    && h.0@ == bytes_setting_value(fx_bytes_map_contents(*candidates), key_dictionary(),
                        c0.dictionary_full_path@.len() == 0, c0.dictionary_full_path@)
                    && h.1@ == bytes_setting_value(fx_bytes_map_contents(*candidates), key_port(), c0.port@ == default_port(), c0.port@)
                    && h.2 as int == int_setting_value(fx_bytes_map_contents(*candidates), key_max_connections(),
                        c0.max_connections == DEFAULT_MAX_CONNECTIONS, i32_min(), i32_max(), c0.max_connections as int)
                    && h.3@ == bytes_setting_value(fx_bytes_map_contents(*candidates), key_listen_address(),
                        c0.listen_address@ == default_listen_address(), c0.listen_address@)
                    && h.4@ == bytes_setting_value(fx_bytes_map_contents(*candidates), key_hostname(),
                        c0.hostname_and_ip_address_for_protocol_3@ == default_hostname_and_ip_address(),
                        c0.hostname_and_ip_address_for_protocol_3@)
                    && h.5 as int == int_setting_value(fx_bytes_map_contents(*candidates), key_google_timeout(),
                        c0.google_timeout_milliseconds == DEFAULT_GOOGLE_TIMEOUT_MILLISECONDS, 0, u64_max(),
                        c0.google_timeout_milliseconds as int)
                    && h.6@ == bytes_setting_value(fx_bytes_map_contents(*candidates), key_google_cache_filename(),
                        c0.google_cache_full_path@ == default_google_cache_full_path(), c0.google_cache_full_path@),
                Err(e) => head_error(*c0, fx_bytes_map_contents(*candidates), dictionary_exists, listen_address_is_ip) == Some(e),
            },
    {
        let default = Config::new();
        let key = Self::key_dictionary_bytes();
        let dictionary_full_path = match text_step(candidates, key.as_slice(), c0.dictionary_full_path.len() == 0) {
            Some(v) => {
                if !dictionary_exists {
                    return Err(ConfigError::DictionaryNotFound);
                }
                v
            },
            None => copy_bytes(&c0.dictionary_full_path),
        };
        let key = Self::key_port_bytes();
        let port = match text_step(candidates, key.as_slice(), bytes_eq(&c0.port, &default.port)) {
            Some(v) => {
                if setting_in_range(&v, -0x8000_0000, 0x7fff_ffff, 0, 65535).is_none() {
                    return Err(ConfigError::IllegalPortNumber);
                }
                v
            },
            None => copy_bytes(&c0.port),
        };
        let key = Self::key_max_connections_bytes();
        let max_connections = match int_step(candidates, key.as_slice(), c0.max_connections == DEFAULT_MAX_CONNECTIONS,
            -0x8000_0000, 0x7fff_ffff, 1, 1024, ConfigError::IllegalMaxConnectionRange) {
            Ok(Some(x)) => x as i32,
            Ok(None) => c0.max_connections,
            Err(e) => {
                return Err(e);
            },
        };
        let key = Self::key_listen_address_bytes();
        let listen_address = match text_step(candidates, key.as_slice(), bytes_eq(&c0.listen_address, &default.listen_address)) {
            Some(v) => {
                if !listen_address_is_ip {
                    return Err(ConfigError::IllegalListenAddress);
                }
                v
            },
            None => copy_bytes(&c0.listen_address),
        };
        let key = Self::key_hostname_bytes();
        let hostname = match text_step(candidates, key.as_slice(), bytes_eq(&c0.hostname_and_ip_address_for_protocol_3, &default.hostname_and_ip_address_for_protocol_3)) {
            Some(v) => {
                if !printable_ascii(&v) {
                    return Err(ConfigError::IllegalHostnameIp);
                }
                v
            },
            None => copy_bytes(&c0.hostname_and_ip_address_for_protocol_3),
        };
        let key = Self::key_google_timeout_bytes();
        let google_timeout_milliseconds = match int_step(candidates, key.as_slice(),
            c0.google_timeout_milliseconds == DEFAULT_GOOGLE_TIMEOUT_MILLISECONDS,
            0, 0xffff_ffff_ffff_ffff, 0, 300000, ConfigError::IllegalTimeoutMilliseconds) {
            Ok(Some(x)) => x as u64,
            Ok(None) => c0.google_timeout_milliseconds,
            Err(e) => {
                return Err(e);
            },
        };
        let key = Self::key_google_cache_filename_bytes();
        let google_cache_full_path = match text_step(candidates, key.as_slice(), bytes_eq(&c0.google_cache_full_path, &default.google_cache_full_path)) {
            Some(v) => v,
            None => copy_bytes(&c0.google_cache_full_path),
        };
        Ok((dictionary_full_path, port, max_connections, listen_address, hostname, google_timeout_milliseconds,
            google_cache_full_path))
    }

    /// The settings from `google-cache-entries` on of `c0` as the config file, `candidates`,
    /// changes them, or the first of them that is refused.
    #[verifier::rlimit(50)]
    fn validated_rest(c0: &Config, candidates: &FxBytesMap)
        -> (r: Result<(usize, u64, usize, u32, GoogleTiming, bool, bool, bool, bool, bool), ConfigError>)
        ensures
            match r {
                Ok(t) => rest_error(*c0, fx_bytes_map_contents(*candidates)) is None
                    && t.0 as int == int_setting_value(fx_bytes_map_contents(*candidates), key_google_cache_entries(),
                        c0.google_cache_entries == DEFAULT_GOOGLE_CACHE_ENTRIES, 0, usize::MAX as int, c0.google_cache_entries as int)
                    && t.1 as int == int_setting_value(fx_bytes_map_contents(*candidates), key_google_cache_expire(),
                        c0.google_cache_expire_seconds == DEFAULT_GOOGLE_CACHE_EXPIRE_SECONDS, 0, u64_max(),
                        c0.google_cache_expire_seconds as int)
                    && t.2 as int == int_setting_value(fx_bytes_map_contents(*candidates), key_google_max_candidates(),
                        c0.google_max_candidates_length == DEFAULT_GOOGLE_MAX_CANDIDATES_LENGTH, 0, u64_max(),
                        c0.google_max_candidates_length as int)
                    && t.3 as int == int_setting_value(fx_bytes_map_contents(*candidates), key_max_server_completions(),
                        c0.max_server_completions == DEFAULT_MAX_SERVER_COMPLETIONS, i32_min(), i32_max(),
                        c0.max_server_completions as int)
                    && t.4 == file_timing(*c0, fx_bytes_map_contents(*candidates))
                    && t.5 == switch_setting_value(fx_bytes_map_contents(*candidates), key_google_use_http(), c0.is_http_enabled)
                    && t.6 == switch_setting_value(fx_bytes_map_contents(*candidates), key_google_suggest(), c0.is_google_suggest_enabled)
                    && t.7 == switch_setting_value(fx_bytes_map_contents(*candidates), key_google_insert_hiragana(),
                        c0.google_insert_hiragana_only_candidate)
                    && t.8 == switch_setting_value(fx_bytes_map_contents(*candidates), key_google_insert_katakana(),
                        c0.google_insert_katakana_only_candidate)
                    && t.9 == switch_setting_value(fx_bytes_map_contents(*candidates), key_google_insert_hankaku(),
                        c0.google_insert_hankaku_katakana_only_candidate),
                Err(e) => rest_error(*c0, fx_bytes_map_contents(*candidates)) == Some(e),
            },
    {
        let key = Self::key_google_cache_entries_bytes();
        let google_cache_entries = match int_step(candidates, key.as_slice(), c0.google_cache_entries == DEFAULT_GOOGLE_CACHE_ENTRIES,
            0, usize::MAX as i128, 1, 1048576, ConfigError::IllegalCacheEntries) {
            Ok(Some(x)) => x as usize,
            Ok(None) => c0.google_cache_entries,
            Err(e) => {
                return Err(e);
            },
        };
        let key = Self::key_google_cache_expire_bytes();
        let google_cache_expire_seconds = match int_step(candidates, key.as_slice(),
            c0.google_cache_expire_seconds == DEFAULT_GOOGLE_CACHE_EXPIRE_SECONDS,
            0, 0xffff_ffff_ffff_ffff, 1, 3153600000, ConfigError::IllegalExpireSeconds) {
            Ok(Some(x)) => x as u64,
            Ok(None) => c0.google_cache_expire_seconds,
            Err(e) => {
                return Err(e);
            },
        };
        let key = Self::key_google_max_candidates_bytes();
        let google_max_candidates_length = match int_step(candidates, key.as_slice(),
            c0.google_max_candidates_length == DEFAULT_GOOGLE_MAX_CANDIDATES_LENGTH,
            0, 0xffff_ffff_ffff_ffff, 1, 1024, ConfigError::IllegalCandidatesLength) {
            Ok(Some(x)) => x as usize,
            Ok(None) => c0.google_max_candidates_length,
            Err(e) => {
                return Err(e);
            },
        };
        let key = Self::key_max_server_completions_bytes();
        let max_server_completions = match int_step(candidates, key.as_slice(),
            c0.max_server_completions == DEFAULT_MAX_SERVER_COMPLETIONS,
            -0x8000_0000, 0x7fff_ffff, 1, 65536, ConfigError::IllegalMaxServerCompletions) {
            Ok(Some(x)) => x as u32,
            Ok(None) => c0.max_server_completions,
            Err(e) => {
                return Err(e);
            },
        };
        let key = Self::key_google_japanese_input_bytes();
        let google_timing = match text_step(candidates, key.as_slice(), c0.google_timing == GoogleTiming::NotFound) {
            Some(v) => timing_of(&v),
            None => c0.google_timing,
        };
        let key = Self::key_google_use_http_bytes();
        let is_http_enabled = match switch_step(candidates, key.as_slice(), c0.is_http_enabled, google_timing) {
            Ok(b) => b,
            Err(e) => {
                return Err(e);
            },
        };
        let key = Self::key_google_suggest_bytes();
        let is_google_suggest_enabled = match switch_step(candidates, key.as_slice(), c0.is_google_suggest_enabled, google_timing) {
            Ok(b) => b,
            Err(e) => {
                return Err(e);
            },
        };
        let key = Self::key_google_insert_hiragana_bytes();
        let hiragana = match switch_step(candidates, key.as_slice(), c0.google_insert_hiragana_only_candidate, google_timing) {
            Ok(b) => b,
            Err(e) => {
                return Err(e);
            },
        };
        let key = Self::key_google_insert_katakana_bytes();
        let katakana = match switch_step(candidates, key.as_slice(), c0.google_insert_katakana_only_candidate, google_timing) {
            Ok(b) => b,
            Err(e) => {
                return Err(e);
            },
        };
        let key = Self::key_google_insert_hankaku_bytes();
        let hankaku = match switch_step(candidates, key.as_slice(), c0.google_insert_hankaku_katakana_only_candidate, google_timing) {
            Ok(b) => b,
            Err(e) => {
                return Err(e);
            },
        };
        Ok((google_cache_entries, google_cache_expire_seconds, google_max_candidates_length, max_server_completions,
            google_timing, is_http_enabled, is_google_suggest_enabled, hiragana, katakana, hankaku))
    }

    /// Takes the settings of the config file, `candidates`, into `n` in order, as
    /// `validate_and_set_config` does, up to the first one refused (see `refused_stage` and
    /// `config_before_stage`).
    fn apply_until_refused(n: &mut Config, candidates: &FxBytesMap, dictionary_exists: bool, listen_address_is_ip: bool)
        ensures
            config_before_stage(*old(n), fx_bytes_map_contents(*candidates),
                refused_stage(*old(n), fx_bytes_map_contents(*candidates), dictionary_exists, listen_address_is_ip), *final(n)),
    {
        if !Self::apply_head_until_refused(n, candidates, dictionary_exists, listen_address_is_ip) {
            Self::apply_rest_until_refused(n, candidates);
        }
    }

    /// The first six stages of `apply_until_refused`; whether one of them is refused.
    #[verifier::spinoff_prover]
    #[verifier::rlimit(100)]
    fn apply_head_until_refused(n: &mut Config, candidates: &FxBytesMap, dictionary_exists: bool, listen_address_is_ip: bool) -> (refused: bool)
        ensures
            refused == (head_refused_stage(*old(n), fx_bytes_map_contents(*candidates), dictionary_exists, listen_address_is_ip) < 6),
            head_before_stage(*old(n), fx_bytes_map_contents(*candidates),
                head_refused_stage(*old(n), fx_bytes_map_contents(*candidates), dictionary_exists, listen_address_is_ip), *final(n)),
            rest_before_stage(*old(n), fx_bytes_map_contents(*candidates), 0, *final(n)),
            final(n).config_full_path@ == old(n).config_full_path@,
            final(n).is_google_cache_enabled == old(n).is_google_cache_enabled,
            final(n).is_midashi_utf8 == old(n).is_midashi_utf8,
            final(n).encoding == old(n).encoding,
            final(n).is_no_daemonize == old(n).is_no_daemonize,
            final(n).is_verbose == old(n).is_verbose,
    {
        let default = Config::new();
        let key = Self::key_dictionary_bytes();
        match text_step(candidates, key.as_slice(), n.dictionary_full_path.len() == 0) {
            Some(v) => {
                if !dictionary_exists {
                    return true;
                }
                n.dictionary_full_path = v;
            },
            None => {},
        }
        let key = Self::key_port_bytes();
        match text_step(candidates, key.as_slice(), bytes_eq(&n.port, &default.port)) {
            Some(v) => {
                if setting_in_range(&v, -0x8000_0000, 0x7fff_ffff, 0, 65535).is_none() {
                    return true;
                }
                n.port = v;
            },
            None => {},
        }
        let key = Self::key_max_connections_bytes();
        match int_step(candidates, key.as_slice(), n.max_connections == DEFAULT_MAX_CONNECTIONS,
            -0x8000_0000, 0x7fff_ffff, 1, 1024, ConfigError::IllegalMaxConnectionRange) {
            Ok(Some(x)) => n.max_connections = x as i32,
            Ok(None) => {},
            Err(_) => return true,
        }
        let key = Self::key_listen_address_bytes();
        match text_step(candidates, key.as_slice(), bytes_eq(&n.listen_address, &default.listen_address)) {
            Some(v) => {
                if !listen_address_is_ip {
                    return true;
                }
                n.listen_address = v;
            },
            None => {},
        }
        let key = Self::key_hostname_bytes();
        match text_step(candidates, key.as_slice(), bytes_eq(&n.hostname_and_ip_address_for_protocol_3, &default.hostname_and_ip_address_for_protocol_3)) {
            Some(v) => {
                if !printable_ascii(&v) {
                    return true;
                }
                n.hostname_and_ip_address_for_protocol_3 = v;
            },
            None => {},
        }
        let key = Self::key_google_timeout_bytes();
        match int_step(candidates, key.as_slice(), n.google_timeout_milliseconds == DEFAULT_GOOGLE_TIMEOUT_MILLISECONDS,
            0, 0xffff_ffff_ffff_ffff, 0, 300000, ConfigError::IllegalTimeoutMilliseconds) {
            Ok(Some(x)) => n.google_timeout_milliseconds = x as u64,
            Ok(None) => {},
            Err(_) => return true,
        }
        let key = Self::key_google_cache_filename_bytes();
        match text_step(candidates, key.as_slice(), bytes_eq(&n.google_cache_full_path, &default.google_cache_full_path)) {
            Some(v) => n.google_cache_full_path = v,
            None => {},
        }
        false
    }

    /// The stages from `google-cache-entries` on of `apply_until_refused`.
    fn apply_rest_until_refused(n: &mut Config, candidates: &FxBytesMap)
        ensures
            rest_before_stage(*old(n), fx_bytes_map_contents(*candidates), rest_refused_stage(*old(n), fx_bytes_map_contents(*candidates)), *final(n)),
            final(n).dictionary_full_path@ == old(n).dictionary_full_path@,
            final(n).port@ == old(n).port@,
            final(n).max_connections == old(n).max_connections,
            final(n).listen_address@ == old(n).listen_address@,
            final(n).hostname_and_ip_address_for_protocol_3@ == old(n).hostname_and_ip_address_for_protocol_3@,
            final(n).google_timeout_milliseconds == old(n).google_timeout_milliseconds,
            final(n).google_cache_full_path@ == old(n).google_cache_full_path@,
            final(n).config_full_path@ == old(n).config_full_path@,
            final(n).is_google_cache_enabled == old(n).is_google_cache_enabled,
            final(n).is_midashi_utf8 == old(n).is_midashi_utf8,
            final(n).encoding == old(n).encoding,
            final(n).is_no_daemonize == old(n).is_no_daemonize,
            final(n).is_verbose == old(n).is_verbose,
    {
        if !Self::apply_ints_until_refused(n, candidates) {
            Self::apply_switches_until_refused(n, candidates);
        }
    }

    /// Stages 7 to 11 of `apply_until_refused`; whether one of them is refused.
    #[verifier::spinoff_prover]
    #[verifier::rlimit(100)]
    fn apply_ints_until_refused(n: &mut Config, candidates: &FxBytesMap) -> (refused: bool)
        ensures
            refused == (int_refused_stage(*old(n), fx_bytes_map_contents(*candidates)) < 12),
            int_before_stage(*old(n), fx_bytes_map_contents(*candidates), int_refused_stage(*old(n), fx_bytes_map_contents(*candidates)), *final(n)),
            switch_before_stage(*old(n), fx_bytes_map_contents(*candidates), 0, *final(n)),
            final(n).dictionary_full_path@ == old(n).dictionary_full_path@,
            final(n).port@ == old(n).port@,
            final(n).max_connections == old(n).max_connections,
            final(n).listen_address@ == old(n).listen_address@,
            final(n).hostname_and_ip_address_for_protocol_3@ == old(n).hostname_and_ip_address_for_protocol_3@,
            final(n).google_timeout_milliseconds == old(n).google_timeout_milliseconds,
            final(n).google_cache_full_path@ == old(n).google_cache_full_path@,
            final(n).config_full_path@ == old(n).config_full_path@,
            final(n).is_google_cache_enabled == old(n).is_google_cache_enabled,
            final(n).is_midashi_utf8 == old(n).is_midashi_utf8,
            final(n).encoding == old(n).encoding,
            final(n).is_no_daemonize == old(n).is_no_daemonize,
            final(n).is_verbose == old(n).is_verbose,
    {
        let key = Self::key_google_cache_entries_bytes();
        match int_step(candidates, key.as_slice(), n.google_cache_entries == DEFAULT_GOOGLE_CACHE_ENTRIES,
            0, usize::MAX as i128, 1, 1048576, ConfigError::IllegalCacheEntries) {
            Ok(Some(x)) => n.google_cache_entries = x as usize,
            Ok(None) => {},
            Err(_) => return true,
        }
        let key = Self::key_google_cache_expire_bytes();
        match int_step(candidates, key.as_slice(), n.google_cache_expire_seconds == DEFAULT_GOOGLE_CACHE_EXPIRE_SECONDS,
            0, 0xffff_ffff_ffff_ffff, 1, 3153600000, ConfigError::IllegalExpireSeconds) {
            Ok(Some(x)) => n.google_cache_expire_seconds = x as u64,
            Ok(None) => {},
            Err(_) => return true,
        }
        let key = Self::key_google_max_candidates_bytes();
        match int_step(candidates, key.as_slice(), n.google_max_candidates_length == DEFAULT_GOOGLE_MAX_CANDIDATES_LENGTH,
            0, 0xffff_ffff_ffff_ffff, 1, 1024, ConfigError::IllegalCandidatesLength) {
            Ok(Some(x)) => n.google_max_candidates_length = x as usize,
            Ok(None) => {},
            Err(_) => return true,
        }
        let key = Self::key_max_server_completions_bytes();
        match int_step(candidates, key.as_slice(), n.max_server_completions == DEFAULT_MAX_SERVER_COMPLETIONS,
            -0x8000_0000, 0x7fff_ffff, 1, 65536, ConfigError::IllegalMaxServerCompletions) {
            Ok(Some(x)) => n.max_server_completions = x as u32,
            Ok(None) => {},
            Err(_) => return true,
        }
        let key = Self::key_google_japanese_input_bytes();
        match text_step(candidates, key.as_slice(), n.google_timing == GoogleTiming::NotFound) {
            Some(v) => n.google_timing = timing_of(&v),
            None => {},
        }
        false
    }

    /// Stages 12 to 16 of `apply_until_refused`, the timing being the one `n` holds.
    #[verifier::spinoff_prover]
    #[verifier::rlimit(60)]
    fn apply_switches_until_refused(n: &mut Config, candidates: &FxBytesMap)
        ensures
            switch_before_stage(*old(n), fx_bytes_map_contents(*candidates),
                switch_refused_stage(*old(n), fx_bytes_map_contents(*candidates), old(n).google_timing), *final(n)),
            int_before_stage(*old(n), fx_bytes_map_contents(*candidates), 0, *final(n)),
            final(n).dictionary_full_path@ == old(n).dictionary_full_path@,
            final(n).port@ == old(n).port@,
            final(n).max_connections == old(n).max_connections,
            final(n).listen_address@ == old(n).listen_address@,
            final(n).hostname_and_ip_address_for_protocol_3@ == old(n).hostname_and_ip_address_for_protocol_3@,
            final(n).google_timeout_milliseconds == old(n).google_timeout_milliseconds,
            final(n).google_cache_full_path@ == old(n).google_cache_full_path@,
            final(n).config_full_path@ == old(n).config_full_path@,
            final(n).is_google_cache_enabled == old(n).is_google_cache_enabled,
            final(n).is_midashi_utf8 == old(n).is_midashi_utf8,
            final(n).encoding == old(n).encoding,
            final(n).is_no_daemonize == old(n).is_no_daemonize,
            final(n).is_verbose == old(n).is_verbose,
    {
        let key = Self::key_google_use_http_bytes();
        match switch_step(candidates, key.as_slice(), n.is_http_enabled, n.google_timing) {
            Ok(b) => n.is_http_enabled = b,
            Err(_) => return,
        }
        let key = Self::key_google_suggest_bytes();
        match switch_step(candidates, key.as_slice(), n.is_google_suggest_enabled, n.google_timing) {
            Ok(b) => n.is_google_suggest_enabled = b,
            Err(_) => return,
        }
        let key = Self::key_google_insert_hiragana_bytes();
        match switch_step(candidates, key.as_slice(), n.google_insert_hiragana_only_candidate, n.google_timing) {
            Ok(b) => n.google_insert_hiragana_only_candidate = b,
            Err(_) => return,
        }
        let key = Self::key_google_insert_katakana_bytes();
        match switch_step(candidates, key.as_slice(), n.google_insert_katakana_only_candidate, n.google_timing) {
            Ok(b) => n.google_insert_katakana_only_candidate = b,
            Err(_) => return,
        }
        let key = Self::key_google_insert_hankaku_bytes();
        match switch_step(candidates, key.as_slice(), n.google_insert_hankaku_katakana_only_candidate, n.google_timing) {
            Ok(b) => n.google_insert_hankaku_katakana_only_candidate = b,
            Err(_) => return,
        }
    }

    /// The settings `c0` as the settings of the config file, `candidates`, change them, or the
    /// first setting that is refused.
    fn validated(c0: &Config, candidates: &FxBytesMap, dictionary_exists: bool, listen_address_is_ip: bool) -> (r: Result<Config, ConfigError>)
        ensures
            match r {
                Ok(n) => config_file_error(*c0, fx_bytes_map_contents(*candidates), dictionary_exists, listen_address_is_ip) is None
                    && config_after_file(*c0, fx_bytes_map_contents(*candidates), n),
                Err(e) => config_file_error(*c0, fx_bytes_map_contents(*candidates), dictionary_exists, listen_address_is_ip) == Some(e),
            },
    {
        reveal(config_file_error);
        reveal(config_after_file);
        let (dictionary_full_path, port, max_connections, listen_address, hostname, google_timeout_milliseconds,
            google_cache_full_path) = match Self::validated_head(c0, candidates, dictionary_exists, listen_address_is_ip) {
            Ok(h) => h,
            Err(e) => {
                return Err(e);
            },
        };
        let (google_cache_entries, google_cache_expire_seconds, google_max_candidates_length, max_server_completions,
            google_timing, is_http_enabled, is_google_suggest_enabled, hiragana, katakana, hankaku) =
            match Self::validated_rest(c0, candidates) {
            Ok(t) => t,
            Err(e) => {
                return Err(e);
            },
        };
        Ok(Config {
            port,
            max_connections,
            listen_address,
            hostname_and_ip_address_for_protocol_3: hostname,
            dictionary_full_path,
            config_full_path: copy_bytes(&c0.config_full_path),
            google_timeout_milliseconds,
            google_timing,
            google_cache_full_path,
            google_cache_entries,
            google_cache_expire_seconds,
            google_max_candidates_length,
            max_server_completions,
            google_insert_hiragana_only_candidate: hiragana,
            google_insert_katakana_only_candidate: katakana,
            google_insert_hankaku_katakana_only_candidate: hankaku,
            is_http_enabled,
            is_google_cache_enabled: c0.is_google_cache_enabled,
            is_google_suggest_enabled,
            is_midashi_utf8: c0.is_midashi_utf8,
            encoding: c0.encoding,
            is_no_daemonize: c0.is_no_daemonize,
            is_verbose: c0.is_verbose,
        })
    }

    /// Sets the settings that the config file holds, `candidates` (see `read_settings`), each
    /// where the current setting still has its default, and checks each value it takes. The
    /// first value refused is the error; the settings taken before it stay set, as
    /// `config_before_stage` says. `dictionary_exists` tells whether the file that
    /// `dictionary` names exists, `listen_address_is_ip` whether `listen-address` reads as an
    /// IP address.
    pub fn validate_and_set_config(
        &mut self,
        candidates: &FxBytesMap,
        dictionary_exists: bool,
        listen_address_is_ip: bool,
    ) -> (r: Result<(), ConfigError>)
        ensures
            match r {
                Ok(()) => config_file_error(old(self).config, fx_bytes_map_contents(*candidates), dictionary_exists,
                    listen_address_is_ip) is None
                    && config_after_file(old(self).config, fx_bytes_map_contents(*candidates), final(self).config),
                Err(e) => config_file_error(old(self).config, fx_bytes_map_contents(*candidates), dictionary_exists,
                    listen_address_is_ip) == Some(e)
                    && config_before_stage(old(self).config, fx_bytes_map_contents(*candidates),
                        refused_stage(old(self).config, fx_bytes_map_contents(*candidates), dictionary_exists,
                            listen_address_is_ip), final(self).config),
            },
    {
        match Self::validated(&self.config, candidates, dictionary_exists, listen_address_is_ip) {
            Ok(c) => {
                self.config = c;
                Ok(())
            },
            Err(e) => {
                Self::apply_until_refused(&mut self.config, candidates, dictionary_exists, listen_address_is_ip);
                Err(e)
            },
        }
    }
}
/// Two settings that hold the same values meet the same refusal of a config file, and
/// become the same settings by it.
pub proof fn lemma_file_views(a: Config, b: Config, m: Map<Seq<u8>, Seq<u8>>, d: bool, l: bool, n: Config)
    requires
        a.view_eq(b),
    ensures
        config_file_error(a, m, d, l) == config_file_error(b, m, d, l),
        config_after_file(a, m, n) == config_after_file(b, m, n),
{
    lemma_error_views(a, b, m, d, l);
    lemma_after_views(a, b, m, n);
}

#[verifier::spinoff_prover]
#[verifier::rlimit(30)]
proof fn lemma_error_views(a: Config, b: Config, m: Map<Seq<u8>, Seq<u8>>, d: bool, l: bool)
    requires
        a.view_eq(b),
    ensures
        config_file_error(a, m, d, l) == config_file_error(b, m, d, l),
{
    reveal(config_file_error);
    assert(head_error(a, m, d, l) == head_error(b, m, d, l));
    assert(file_timing(a, m) == file_timing(b, m));
    assert(rest_error(a, m) == rest_error(b, m));
}

#[verifier::spinoff_prover]
#[verifier::rlimit(30)]
proof fn lemma_after_views(a: Config, b: Config, m: Map<Seq<u8>, Seq<u8>>, n: Config)
    requires
        a.view_eq(b),
    ensures
        config_after_file(a, m, n) == config_after_file(b, m, n),
{
    reveal(config_after_file);
    assert(head_after_file(a, m, n) == head_after_file(b, m, n));
    assert(file_timing(a, m) == file_timing(b, m));
    assert(rest_after_file(a, m, n) == rest_after_file(b, m, n));
}


/// A config file that sets nothing refuses nothing and changes no setting.
pub proof fn lemma_empty_config_file(c: Config, d: bool, l: bool, n: Config)
    ensures
        config_file_error(c, Map::empty(), d, l) is None,
        config_after_file(c, Map::empty(), n) <==> n.view_eq(c),
{
    reveal(config_file_error);
    reveal(config_after_file);
}
} // verus!
