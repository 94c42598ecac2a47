use yaskkserv2::dictionary::{Dictionary, DictionaryBlockInformation};
use yaskkserv2::error::SkkError;
use yaskkserv2::dictionary_creator::DictionaryCreator;
use yaskkserv2::encoding::Encoding;
use yaskkserv2::encoding_simple::{EncodingTable, Euc};
use yaskkserv2::jisyo_reader::{JisyoReader, SkipReason};
use yaskkserv2::make_dictionary::{run_yaskkserv2_make_dictionary, MakeDictionaryJob};

const TABLE_TEXT: &str = "## a small EUC-JIS-2004 table\n\
0xA1BC\tU+30FC\t# KATAKANA-HIRAGANA PROLONGED SOUND MARK\n\
0xA4A2\tU+3042\t# HIRAGANA LETTER A\n\
0xA4A4\tU+3044\t# HIRAGANA LETTER I\n\
0xA4A6\tU+3046\t# HIRAGANA LETTER U\n\
0xA4A8\tU+3048\t# HIRAGANA LETTER E\n\
0xA4AA\tU+304A\t# HIRAGANA LETTER O\n\
0xA4AB\tU+304B\t# HIRAGANA LETTER KA\n\
0xA4AD\tU+304D\t# HIRAGANA LETTER KI\n\
0xA4AF\tU+304F\t# HIRAGANA LETTER KU\n\
0xA4B3\tU+3053\t# HIRAGANA LETTER KO\n\
0xA4B5\tU+3055\t# HIRAGANA LETTER SA\n\
0xA4B7\tU+3057\t# HIRAGANA LETTER SI\n\
0xA4BF\tU+305F\t# HIRAGANA LETTER TA\n\
0xA4CB\tU+306B\t# HIRAGANA LETTER NI\n\
0xA4DB\tU+307B\t# HIRAGANA LETTER HO\n\
0xA4F3\tU+3093\t# HIRAGANA LETTER N\n\
0xA4F7\tU+304B+309A\t# [2000]\n\
0xA5A2\tU+30A2\t# KATAKANA LETTER A\n\
0xA5A4\tU+30A4\t# KATAKANA LETTER I\n\
0xA5F3\tU+30F3\t# KATAKANA LETTER N\n\
0xB0A1\tU+4E9C\t# <cjk>\n\
0xB0A2\tU+5516\t# <cjk>\n\
0xB0A6\tU+611B\t# <cjk>\n\
0xB5A4\tU+6C17\t# <cjk>\n\
0xB4B6\tU+611F\t# <cjk>\n\
0xBBFA\tU+5B57\t# <cjk>\n\
0xC6FC\tU+65E5\t# <cjk>\n\
0xCBDC\tU+672C\t# <cjk>\n\
0xA4B8\tU+3058\t# HIRAGANA LETTER ZI\n\
0xB0A5\tU+54C0\t# <cjk>\n\
0xB3DD\tU+639B\t# <cjk>\n\
0xB4B4\tU+5E79\t# <cjk>\n\
0xB4C1\tU+6F22\t# <cjk>\n\
0xBBF6\tU+4E8B\t# <cjk>\n\
0xBDF1\tU+66F8\t# <cjk>\n\
0xC6F3\tU+4E8C\t# <cjk>\n\
0xCCDA\tU+6728\t# <cjk>\n\
0xCDF5\tU+85CD\t# <cjk>\n\
0x8FA1A1\tU+20089\t# <cjk> [2000]\n";

fn encoding_table() -> Vec<u8> {
    EncodingTable::create_table(TABLE_TEXT.as_bytes()).unwrap()
}

fn table() -> EncodingTable {
    EncodingTable::setup(&encoding_table()).unwrap()
}

fn create_dictionary(jisyos: &[Vec<u8>], encoding: Encoding) -> Vec<u8> {
    let job = MakeDictionaryJob::Dictionary { jisyos: jisyos.to_vec() };
    run_yaskkserv2_make_dictionary(&job, encoding, &encoding_table()).unwrap()
}

fn create_jisyo(dictionary: &[u8], encoding: Encoding) -> Vec<u8> {
    let job = MakeDictionaryJob::Jisyo { dictionary: dictionary.to_vec() };
    run_yaskkserv2_make_dictionary(&job, encoding, &encoding_table()).unwrap()
}

fn sha1sum(dictionary: &[u8]) -> Vec<u8> {
    dictionary[44..64].to_vec()
}

fn euc(s: &str) -> Vec<u8> {
    Euc::encode(s.as_bytes(), &table()).unwrap()
}

/// The entries of a jisyo as `midashi candidates` lines, read without converting them.
fn read_jisyo_entries_no_encoding_conversion(jisyo: &[u8]) -> Vec<Vec<u8>> {
    let map = JisyoReader::get_merged_jisyo_entries_map_core(&vec![jisyo.to_vec()], None, &table()).unwrap();
    let mut result = Vec::new();
    for (k, v) in &map.entries {
        let mut line = k.clone();
        line.push(b' ');
        line.extend_from_slice(v);
        result.push(line);
    }
    result
}

/// A small EUC jisyo in the layout of SKK-JISYO.L: comments, okuri-ari entries in reverse
/// order, okuri-nasi entries in order.
fn skk_jisyo_l() -> Vec<u8> {
    let mut v = Vec::new();
    v.extend_from_slice(b";; -*- mode: fundamental; coding: euc-jp -*-\n");
    v.extend_from_slice(b";; okuri-ari entries.\n");
    v.extend_from_slice(&euc("かk /書/掛;annotation/\n"));
    v.extend_from_slice(&euc("あいs /愛/\n"));
    v.extend_from_slice(b";; okuri-nasi entries.\n");
    v.extend_from_slice(&euc("ー /ー/\n"));
    v.extend_from_slice(&euc("あ /亜/唖/阿/\n"));
    v.extend_from_slice(&euc("あい /愛/藍/哀/\n"));
    v.extend_from_slice(&euc("かんじ /漢字/感じ/幹事/\n"));
    v.extend_from_slice(&euc("にほん /日本/二本/\n"));
    v.extend_from_slice(&euc("き /気/木/\n"));
    v.extend_from_slice(b"abc /ABC/abc/\n");
    v.extend_from_slice(b"skk /SKK/\n");
    for i in 0..300 {
        v.extend_from_slice(&euc(&format!("かんじ{:04} /漢字{}/感じ{}/日本/\n", i, i, i)));
    }
    v
}

/// The entries of `skk_jisyo_l` as lines, without their line ends.
fn skk_jisyo_l_entries() -> Vec<Vec<u8>> {
    read_jisyo_entries_no_encoding_conversion(&skk_jisyo_l())
}

/// A pseudo-random sequence (xorshift), so that the tests repeat.
struct Random(u64);

impl Random {
    fn next(&mut self, n: u64) -> u64 {
        self.0 ^= self.0 << 13;
        self.0 ^= self.0 >> 7;
        self.0 ^= self.0 << 17;
        self.0 % n
    }
}

#[derive(Default)]
struct Jisyo {
    test_jisyo: Vec<u8>,
    compare_euc_jisyo_hash: Option<Vec<u8>>,
    compare_utf8_jisyo_hash: Option<Vec<u8>>,
}

impl Jisyo {
    fn compare_and_get_hash(jisyo: &[u8], jisyo_hash: &Option<Vec<u8>>) -> Vec<u8> {
        let hash = jisyo.to_vec();
        if let Some(h) = jisyo_hash {
            assert_eq!(&hash, h);
        }
        hash
    }

    fn compare_and_create_dictionary(dictionary_from_test_jisyo: &[u8], compare_jisyo: &[u8], encoding: Encoding) {
        let dictionary_from_compare_jisyo = create_dictionary(&[compare_jisyo.to_vec()], encoding);
        assert_eq!(sha1sum(dictionary_from_test_jisyo), sha1sum(&dictionary_from_compare_jisyo));
    }

    /// jisyo -> dictionary -> jisyo (EUC and UTF-8) -> dictionary, whose digest must be the
    /// first dictionary's; the jisyo files made must be the same on every call.
    fn convert_and_verify(&mut self, dictionary_from_test_jisyo_encoding: Encoding) {
        let dictionary = create_dictionary(&[self.test_jisyo.clone()], dictionary_from_test_jisyo_encoding);
        let compare_euc_jisyo = create_jisyo(&dictionary, Encoding::Euc);
        let compare_utf8_jisyo = create_jisyo(&dictionary, Encoding::Utf8);
        self.compare_euc_jisyo_hash = Some(Self::compare_and_get_hash(&compare_euc_jisyo, &self.compare_euc_jisyo_hash));
        self.compare_utf8_jisyo_hash = Some(Self::compare_and_get_hash(&compare_utf8_jisyo, &self.compare_utf8_jisyo_hash));
        Self::compare_and_create_dictionary(&dictionary, &compare_euc_jisyo, dictionary_from_test_jisyo_encoding);
        Self::compare_and_create_dictionary(&dictionary, &compare_utf8_jisyo, dictionary_from_test_jisyo_encoding);
    }

    fn run_jisyo_lf_crlf_cr(&mut self) {
        let lf_crlf_cr_table = vec![("lf", "\n"), ("crlf", "\r\n"), ("cr", "\r")];
        for lf_crlf_cr in lf_crlf_cr_table {
            let jisyo_entries = skk_jisyo_l_entries();
            self.test_jisyo.clear();
            for entry in &jisyo_entries {
                self.test_jisyo.extend_from_slice(entry);
                self.test_jisyo.extend_from_slice(lf_crlf_cr.1.as_bytes());
            }
            self.convert_and_verify(Encoding::Euc);
        }
    }

    fn run_jisyo_random_lf_crlf_cr(&mut self) {
        let mut rng = Random(0x2545_f491_4f6c_dd1d);
        for _ in 0..20 {
            let jisyo_entries = skk_jisyo_l_entries();
            self.test_jisyo.clear();
            for entry in &jisyo_entries {
                self.test_jisyo.extend_from_slice(entry);
                self.test_jisyo.extend_from_slice(match rng.next(3) {
                    0 => b"\n".as_slice(),
                    1 => b"\r\n".as_slice(),
                    _ => b"\r".as_slice(),
                });
            }
            self.convert_and_verify(Encoding::Euc);
        }
    }

    fn run_jisyo_dynamic_random_lf_crlf_cr(&mut self) {
        let mut rng = Random(0x9e37_79b9_7f4a_7c15);
        self.test_jisyo.clear();
        for _ in 0..200_000 {
            self.test_jisyo.extend_from_slice(b"a /a/");
            self.test_jisyo.extend_from_slice(match rng.next(3) {
                0 => b"\n".as_slice(),
                1 => b"\r\n".as_slice(),
                _ => b"\r".as_slice(),
            });
        }
        self.convert_and_verify(Encoding::Euc);
    }

    fn huge_jisyo(encoding: Encoding) -> Vec<u8> {
        let mut v = Vec::new();
        for i in 0..20_000 {
            let midashi = format!("{}{:05}", ["あ", "い", "う", "か", "き", "ん"][i % 6], i);
            let line = format!("{} /亜{}/阿;note {}/日本/\n", midashi, i, i % 7);
            match encoding {
                Encoding::Euc => v.extend_from_slice(&euc(&line)),
                Encoding::Utf8 => v.extend_from_slice(line.as_bytes()),
            }
        }
        v
    }

    fn run_jisyo_huge_dictionary(&mut self) {
        self.test_jisyo = Self::huge_jisyo(Encoding::Euc);
        self.convert_and_verify(Encoding::Euc);
        self.convert_and_verify(Encoding::Utf8);
        let mut utf8 = Jisyo::default();
        utf8.test_jisyo = Self::huge_jisyo(Encoding::Utf8);
        utf8.convert_and_verify(Encoding::Euc);
    }

    /// jisyo -> dictionary -> jisyo.euc and jisyo.utf8; jisyo.utf8 encoded to EUC must hold
    /// the entries of jisyo.euc.
    fn run_euc_utf8_test(dictionary_encoding: Encoding) {
        let dictionary = create_dictionary(&[skk_jisyo_l()], dictionary_encoding);
        let euc_jisyo = create_jisyo(&dictionary, Encoding::Euc);
        let utf8_jisyo = create_jisyo(&dictionary, Encoding::Utf8);
        let t = table();
        let mut euc_map: Vec<(Vec<u8>, Vec<u8>)> = read_jisyo_entries_no_encoding_conversion(&euc_jisyo)
            .iter()
            .map(|v| {
                let (midashi, candidates) = Dictionary::get_midashi_candidates(v).unwrap();
                (midashi.to_vec(), candidates.to_vec())
            })
            .collect();
        let mut utf8_to_euc_map: Vec<(Vec<u8>, Vec<u8>)> = read_jisyo_entries_no_encoding_conversion(&utf8_jisyo)
            .iter()
            .map(|v| {
                let (midashi, candidates) = Dictionary::get_midashi_candidates(v).unwrap();
                (Euc::encode(midashi, &t).unwrap(), Euc::encode(candidates, &t).unwrap())
            })
            .collect();
        euc_map.sort();
        utf8_to_euc_map.sort();
        assert!(euc_map == utf8_to_euc_map);
    }

    /// Reads the entries in a simpler way than `JisyoReader`: split at LF, comments and bad
    /// lines skipped.
    fn read_simple_jisyo_entries(jisyo: &[u8]) -> Vec<Vec<u8>> {
        let mut result = Vec::new();
        for line in jisyo.split(|v| *v == b'\n') {
            if line.is_empty() {
                continue;
            }
            assert!(!line.contains(&b'\r'), "UNSUPPORTED NEW LINE");
            if line[0] == b';' {
            } else if line[0] == b' ' || line[0] == b'\t' || line.len() < 5 || line[line.len() - 1] != b'/' {
            } else {
                result.push(line.to_vec());
            }
        }
        result
    }

    fn run_read_test(encoding: Encoding) {
        let jisyo = match encoding {
            Encoding::Euc => skk_jisyo_l(),
            Encoding::Utf8 => {
                let dictionary = create_dictionary(&[skk_jisyo_l()], Encoding::Utf8);
                create_jisyo(&dictionary, Encoding::Utf8)
            }
        };
        let jisyo_entries = read_jisyo_entries_no_encoding_conversion(&jisyo);
        let mut simple_jisyo_entries = Self::read_simple_jisyo_entries(&jisyo);
        simple_jisyo_entries.sort();
        assert!(jisyo_entries.len() > 300);
        assert!(simple_jisyo_entries.len() > 300);
        assert!(jisyo_entries == simple_jisyo_entries);
    }
}

#[test]
fn jisyo_lf_crlf_cr_test() {
    let mut jisyo = Jisyo::default();
    jisyo.run_jisyo_lf_crlf_cr();
}

#[test]
fn jisyo_random_lf_crlf_cr_test() {
    let mut jisyo = Jisyo::default();
    jisyo.run_jisyo_random_lf_crlf_cr();
}

#[test]
fn jisyo_dynamic_random_lf_crlf_cr_test() {
    let mut jisyo = Jisyo::default();
    jisyo.run_jisyo_dynamic_random_lf_crlf_cr();
}

#[test]
fn jisyo_huge_dictionary_test() {
    let mut jisyo = Jisyo::default();
    jisyo.run_jisyo_huge_dictionary();
}

#[test]
fn jisyo_euc_utf8_test() {
    Jisyo::run_euc_utf8_test(Encoding::Euc);
    Jisyo::run_euc_utf8_test(Encoding::Utf8);
}

#[test]
fn jisyo_read_test() {
    Jisyo::run_read_test(Encoding::Euc);
    Jisyo::run_read_test(Encoding::Utf8);
}

/// The okuri-ari and okuri-nasi sections of a jisyo made from a dictionary are the same in EUC
/// and in UTF-8 once encoded.
fn okuri_ari_nashi_compare(dictionary_encoding: Encoding, source: &[u8]) {
    let dictionary = create_dictionary(&[source.to_vec()], dictionary_encoding);
    let euc_jisyo = create_jisyo(&dictionary, Encoding::Euc);
    let utf8_jisyo = create_jisyo(&dictionary, Encoding::Utf8);
    let t = table();
    let euc_lines: Vec<Vec<u8>> = euc_jisyo.split(|v| *v == b'\n').skip(1).map(|v| v.to_vec()).collect();
    let utf8_lines: Vec<Vec<u8>> = utf8_jisyo.split(|v| *v == b'\n').skip(1).map(|v| Euc::encode(v, &t).unwrap()).collect();
    assert_eq!(euc_lines, utf8_lines);
}

#[test]
fn jisyo_euc_utf8_okuri_ari_nashi_test() {
    let euc_source = b"\xa4\xa2 /OkuriNashiA/\n\xa4\xa2s /OkuriAri\xa4\xa2s/\n";
    okuri_ari_nashi_compare(Encoding::Euc, euc_source);
    okuri_ari_nashi_compare(Encoding::Utf8, euc_source);
    let utf8_source = "あ /OkuriNashiA/\nあs /OkuriAriあs/\n".as_bytes();
    okuri_ari_nashi_compare(Encoding::Euc, utf8_source);
    okuri_ari_nashi_compare(Encoding::Utf8, utf8_source);
}

/// The jisyo of the dictionary maker's tests, in `encoding`.
fn yaskkserv2_jisyo(encoding: Encoding) -> Vec<u8> {
    match encoding {
        Encoding::Euc => Jisyo::huge_jisyo(Encoding::Euc),
        Encoding::Utf8 => Jisyo::huge_jisyo(Encoding::Utf8),
    }
}

fn benchmark_create_dictionary(jisyo_encoding: Encoding, output_encoding: Encoding) {
    let jisyo = yaskkserv2_jisyo(jisyo_encoding);
    let bench = std::time::Instant::now();
    let dictionary = create_dictionary(&[jisyo], output_encoding);
    println!("create dictionary  total  ms.={}", bench.elapsed().as_millis());
    assert_eq!(&dictionary[0..4], &[1, 0, 0, 0]);
    let encoding_number: u8 = if output_encoding == Encoding::Euc { 0 } else { 1 };
    assert_eq!(dictionary[40], encoding_number);
}

fn benchmark_create_jisyo(dictionary_encoding: Encoding, output_encoding: Encoding) {
    let dictionary = create_dictionary(&[yaskkserv2_jisyo(Encoding::Euc)], dictionary_encoding);
    let bench = std::time::Instant::now();
    let jisyo = create_jisyo(&dictionary, output_encoding);
    println!("create jisyo  total  ms.={}", bench.elapsed().as_millis());
    let entries = read_jisyo_entries_no_encoding_conversion(&jisyo);
    assert_eq!(entries.len(), 20_000);
}

#[test]
fn yaskkserv2_make_dictionary_benchmark_create_dictionary_euc_euc_test() {
    benchmark_create_dictionary(Encoding::Euc, Encoding::Euc);
}

#[test]
fn yaskkserv2_make_dictionary_benchmark_create_dictionary_euc_utf8_test() {
    benchmark_create_dictionary(Encoding::Euc, Encoding::Utf8);
}

#[test]
fn yaskkserv2_make_dictionary_benchmark_create_dictionary_utf8_euc_test() {
    benchmark_create_dictionary(Encoding::Utf8, Encoding::Euc);
}

#[test]
fn yaskkserv2_make_dictionary_benchmark_create_dictionary_utf8_utf8_test() {
    benchmark_create_dictionary(Encoding::Utf8, Encoding::Utf8);
}

#[test]
fn yaskkserv2_make_dictionary_benchmark_create_jisyo_euc_euc_test() {
    benchmark_create_jisyo(Encoding::Euc, Encoding::Euc);
}

#[test]
fn yaskkserv2_make_dictionary_benchmark_create_jisyo_euc_utf8_test() {
    benchmark_create_jisyo(Encoding::Euc, Encoding::Utf8);
}

#[test]
fn yaskkserv2_make_dictionary_benchmark_create_jisyo_utf8_euc_test() {
    benchmark_create_jisyo(Encoding::Utf8, Encoding::Euc);
}

#[test]
fn yaskkserv2_make_dictionary_benchmark_create_jisyo_utf8_utf8_test() {
    benchmark_create_jisyo(Encoding::Utf8, Encoding::Utf8);
}

use std::collections::BTreeMap;
use yaskkserv2::candidates::Candidates;
use yaskkserv2::config::{Config, GoogleTiming};
use yaskkserv2::dictionary_reader::DictionaryReader;
use yaskkserv2::server::{ClientRequest, Server};

/// The non-okuri-ari midashi of the EUC jisyo by first character, quoted, sorted and joined
/// with `/` (decoded to UTF-8 for a UTF-8 dictionary).
fn get_top_character_map(jisyo: &[u8], encoding: Encoding) -> BTreeMap<[u8; 4], Vec<u8>> {
    let t = table();
    let mut tmp: BTreeMap<[u8; 4], Vec<Vec<u8>>> = BTreeMap::new();
    for entry in read_jisyo_entries_no_encoding_conversion(jisyo) {
        let space = entry.iter().position(|v| *v == b' ').unwrap();
        let midashi = &entry[..space];
        if !DictionaryReader::is_okuri_ari(midashi) {
            let key = Dictionary::get_dictionary_midashi_key(&entry).unwrap();
            tmp.entry(key).or_insert_with(Vec::new).push(midashi.to_vec());
        }
    }
    let mut result = BTreeMap::new();
    for (key, mut value) in tmp {
        value.sort();
        let quoted: Vec<Vec<u8>> = value.iter().map(|v| Candidates::quote_and_add_prefix(v, None)).collect();
        let joined = quoted.join(&b'/');
        let concat = if encoding == Encoding::Euc { joined } else { Euc::decode(&joined, &t).unwrap() };
        result.insert(key, concat);
    }
    result
}

fn test_abbrev(encoding: Encoding) {
    let jisyo = Jisyo::huge_jisyo(Encoding::Euc);
    let dictionary = create_dictionary(&[jisyo.clone()], encoding);
    let (on_memory, t) = Dictionary::setup(&dictionary).unwrap();
    let mut config = Config::new();
    config.encoding = encoding;
    config.max_server_completions = 64 * 1024;
    let server = Server { config, pkg_version: b"0.1.0".to_vec() };
    for (key, concat) in get_top_character_map(&jisyo, encoding) {
        let mut send_data = vec![b'4'];
        match key[0] {
            0xa1..=0xfe | 0x8e => send_data.extend_from_slice(&key[..2]),
            0x00..=0x7f => send_data.push(key[0]),
            0x8f => send_data.extend_from_slice(&key[..3]),
            _ => panic!("illegal dictionary_midashi_key"),
        }
        send_data.push(b' ');
        let answer = match server.handle_client(&send_data, &t) {
            ClientRequest::Abbrev(buffer) => {
                let result = DictionaryReader::read_abbrev(&on_memory, &dictionary, &buffer,
                    server.config.max_server_completions as usize, &t);
                Server::abbrev_answer(&result, &buffer)
            }
            _ => panic!("not an abbrev request"),
        };
        let size = answer.len();
        let trimmed = Candidates::trim_one_slash(&answer[1..size - 1]);
        assert!(&concat[..] == trimmed, "compare error");
    }
    assert!(matches!(server.handle_client(b"0", &t), ClientRequest::Exit));
}

#[test]
fn yaskkserv2_abbrev_euc_test() {
    test_abbrev(Encoding::Euc);
}

#[test]
fn yaskkserv2_abbrev_utf8_test() {
    test_abbrev(Encoding::Utf8);
}

#[test]
fn yaskkserv2_read_candidates_after_create_test() {
    let dictionary = create_dictionary(&[skk_jisyo_l()], Encoding::Euc);
    let (on_memory, _t) = Dictionary::setup(&dictionary).unwrap();
    let mut request = vec![b'1'];
    request.extend_from_slice(&euc("かんじ"));
    request.push(b' ');
    let result = DictionaryReader::read_candidates(&on_memory, &dictionary, &request, vec![b'1']).unwrap();
    let mut expected = b"1/".to_vec();
    expected.extend_from_slice(&euc("漢字/感じ/幹事/"));
    assert_eq!(result, expected);
    let answer = Server::candidates_answer(&Ok(result), &request);
    assert_eq!(answer.last(), Some(&b'\n'));
    let mut missing = vec![b'1'];
    missing.extend_from_slice(&euc("ない"));
    missing.push(b' ');
    let result = DictionaryReader::read_candidates(&on_memory, &dictionary, &missing, vec![b'1']).unwrap();
    assert_eq!(result, b"1".to_vec());
    let answer = Server::candidates_answer(&Ok(result), &missing);
    let mut expected_answer = missing.clone();
    expected_answer[0] = b'4';
    expected_answer.push(b'\n');
    assert_eq!(answer, expected_answer);
}

/// A small deterministic generator of pseudo-random numbers (xorshift).
struct Rng(u64);

impl Rng {
    fn next(&mut self) -> u64 {
        let mut x = self.0;
        x ^= x << 13;
        x ^= x >> 7;
        x ^= x << 17;
        self.0 = x;
        x
    }

    /// A number in `low..high`.
    fn gen_range(&mut self, low: u64, high: u64) -> u64 {
        low + self.next() % (high - low)
    }

    /// 1 to `length` random digits.
    fn ascii_vec(&mut self, length: usize) -> Vec<u8> {
        let rand_length = self.gen_range(1, length as u64 + 1);
        (0..rand_length).map(|_| self.gen_range(u64::from(b'0'), u64::from(b'9') + 1) as u8).collect()
    }
}

#[test]
fn encoding_simple_test() {
    let table = table();
    let empty_u8_vec: Vec<u8> = vec![];
    assert_eq!(Euc::encode(b"", &table).unwrap(), empty_u8_vec);
    assert_eq!(Euc::decode(b"", &table).unwrap(), empty_u8_vec);
    assert_eq!(Euc::encode(b"a", &table).unwrap(), b"a");
    assert_eq!(Euc::decode(b"a", &table).unwrap(), b"a");
    assert_eq!(Euc::encode(b"ab", &table).unwrap(), b"ab");
    assert_eq!(Euc::decode(b"ab", &table).unwrap(), b"ab");
    assert_eq!(Euc::decode(&[0x8f, 0xfe], &table).unwrap(), b"&#x8ffe");
    let mut rng = Rng(0x1234_5678_9abc_def1);
    let mut random_bytes = Vec::new();
    for _ in 0..20000 {
        random_bytes.push(rng.gen_range(0, 0x100) as u8);
        if random_bytes.len() % 97 == 0 {
            let _droppable = Euc::encode(&random_bytes, &table).unwrap();
            let _droppable = Euc::decode(&random_bytes, &table).unwrap();
        }
    }
    let _droppable = Euc::encode(&random_bytes, &table).unwrap();
    let _droppable = Euc::decode(&random_bytes, &table).unwrap();
}

fn pack_euc(bytes: &[u8]) -> Vec<u8> {
    match bytes[0] {
        0xa1..=0xfe | 0x8e => bytes[..2].to_vec(),
        0x00..=0x7f => vec![bytes[0]],
        0x8f => bytes[..3].to_vec(),
        _ => panic!("unknown euc 0x{:02x}", bytes[0]),
    }
}

fn pack_utf8(bytes: &[u8]) -> Vec<u8> {
    match bytes[0] {
        0xe0..=0xef => bytes[..3].to_vec(),
        0x00..=0x7f => vec![bytes[0]],
        0xc2..=0xdf => bytes[..2].to_vec(),
        0xf0..=0xf7 => bytes[..4].to_vec(),
        _ => panic!("unknown utf8 0x{:02x}", bytes[0]),
    }
}

/// Every character of the table text converts both ways.
#[test]
fn encoding_all_test() {
    let text = TABLE_TEXT.as_bytes().to_vec();
    let table = EncodingTable::setup(&EncodingTable::create_table(&text).unwrap()).unwrap();
    let re_line = regex::Regex::new(r"^(0x[^\s]+)\s+([^\s]+)\s+#").unwrap();
    let re_euc_ignore = regex::Regex::new(r"^0x[89][0-9A-F]").unwrap();
    for line in String::from_utf8_lossy(&text).lines() {
        if let Some(m) = re_line.captures(line) {
            let base_euc = &m[1];
            if re_euc_ignore.is_match(base_euc) {
                continue;
            }
            let base_unicode = &m[2];
            let euc_3 = EncodingTable::convert_euc_code_to_euc_3_bytes(base_euc.as_bytes()).unwrap();
            let mut is_combine = false;
            let utf8_8 = EncodingTable::convert_unicode_code_to_utf8_8_bytes(base_unicode.as_bytes(), &mut is_combine).unwrap();
            let mut packed_utf8 = pack_utf8(&utf8_8);
            if is_combine {
                packed_utf8.extend_from_slice(&pack_utf8(&utf8_8[4..]));
            }
            let packed_euc = pack_euc(&euc_3);
            assert_eq!(Euc::decode(&packed_euc, &table).unwrap(), packed_utf8);
            assert_eq!(Euc::encode(&packed_utf8, &table).unwrap(), packed_euc);
        }
    }
}

#[test]
fn yaskkserv2_dictionary_reader_get_block_informations_loop_start_index_test() {
    const TEST_LOOP: usize = 3000;
    const BINARY_SEARCH_THRESHOLD: usize = 30;
    let mut rng = Rng(0x0bad_cafe_dead_beef);
    for _ in 0..TEST_LOOP {
        let search_rand_length = rng.gen_range(1, 100 + 1);
        let search_midashis: Vec<Vec<u8>> = (0..search_rand_length).map(|_| rng.ascii_vec(10)).collect();
        let mut midashis: Vec<Vec<u8>> = (0..rng.gen_range(1, 100 + 1)).map(|_| rng.ascii_vec(10)).collect();
        midashis.sort();
        midashis.reverse();
        let infos: Vec<DictionaryBlockInformation> = midashis
            .iter()
            .map(|v| DictionaryBlockInformation { midashi: v.to_vec(), offset: 0, length: 0 })
            .collect();
        for midashi in &search_midashis {
            let loop_start_index = DictionaryReader::get_block_informations_loop_start_index(midashi, &infos);
            let mut debug_counter = 0;
            for info in &infos[loop_start_index..] {
                if info.midashi[..] <= midashi[..] {
                    break;
                }
                debug_counter += 1;
            }
            if infos.len() < BINARY_SEARCH_THRESHOLD {
                assert!(debug_counter <= BINARY_SEARCH_THRESHOLD / 2);
            } else {
                assert!(debug_counter <= 2);
            }
        }
    }
}

#[test]
fn yaskkserv2_dictionary_creator_get_dictionary_block_informations_test() {
    const LOOP: usize = 2;
    const ENTRIES: usize = 4 * 1024;
    let mut rng = Rng(0x5eed_5eed_5eed_5eed);
    for _ in 0..LOOP {
        const MIDASHI_LENGTH: usize = 32;
        const CANDIDATES_LENGTH: usize = 1024;
        let mut line = vec![b'\n'];
        for _ in 0..ENTRIES {
            line.extend_from_slice(&rng.ascii_vec(MIDASHI_LENGTH));
            line.push(b' ');
            line.extend_from_slice(&rng.ascii_vec(CANDIDATES_LENGTH));
            line.push(b'\n');
        }
        let blocks_len = 0;
        let mut aligned_block = Vec::new();
        let dictionary_block_informations =
            DictionaryCreator::get_dictionary_block_informations(&line, blocks_len, &mut aligned_block).unwrap();
        println!("dictionary_block_informations.len()={}", dictionary_block_informations.len());
    }
}

#[test]
fn encoding_table_create_src_table_test() {
    let text = "# comment\n0xA4F7\tU+304B+309A\t# [2004]\n0xB0A1\tU+4E9C\t# <cjk>\nno fields\n";
    let expected = "// header\n\
0x01,0x00,0x00,0x00,    // version\n\
0x20,0x00,0x00,0x00,    // header_length\n\
0x01,0x00,0x00,0x00,    // euc_utf8_combine_length\n\
0x01,0x00,0x00,0x00,    // euc_utf8_length\n\
0x00,0x00,0x00,0x00,    // reserved\n\
0x00,0x00,0x00,0x00,    // reserved\n\
0x00,0x00,0x00,0x00,    // reserved\n\
0x00,0x00,0x00,0x00,    // reserved\n\
// euc_utf8_combine\n// euc 3 bytes, utf8 4 bytes, utf8 4 bytes\n\
0xa4,0xf7,0x00,0xe3,0x81,0x8b,0x00,0xe3,0x82,0x9a,0x00,\n\
// euc_utf8\n// euc 3 bytes, utf8 4 bytes\n\
0xb0,0xa1,0x00,0xe4,0xba,0x9c,0x00,\n";
    let src = EncodingTable::create_src_table(text.as_bytes()).unwrap();
    assert_eq!(String::from_utf8(src).unwrap(), expected);
}

#[test]
fn encoding_table_create_src_table_matches_binary_test() {
    let binary = EncodingTable::create_table(TABLE_TEXT.as_bytes()).unwrap();
    let src = String::from_utf8(EncodingTable::create_src_table(TABLE_TEXT.as_bytes()).unwrap()).unwrap();
    let mut bytes: Vec<u8> = Vec::new();
    for line in src.lines().filter(|l| l.starts_with("0x")) {
        for field in line.split(',') {
            if let Some(hex) = field.trim().strip_prefix("0x") {
                bytes.push(u8::from_str_radix(hex, 16).unwrap());
            }
        }
    }
    assert_eq!(bytes, binary);
}

#[test]
fn encoding_table_create_src_table_error_test() {
    assert!(EncodingTable::create_src_table(b"0xA4\tU+12\t# short code point\n").is_err());
}

#[test]
fn jisyo_from_cache_test() {
    let cache_entries = vec![
        ("かんじ".as_bytes().to_vec(), vec![b"1600000000".to_vec(), "漢字".as_bytes().to_vec(), "感じ".as_bytes().to_vec()]),
        ("abc".as_bytes().to_vec(), vec![b"1600000000".to_vec(), b"ABC".to_vec()]),
        ("empty".as_bytes().to_vec(), vec![b"1600000000".to_vec()]),
    ];
    let job = MakeDictionaryJob::JisyoFromCache { cache_entries: cache_entries.clone() };
    let utf8 = run_yaskkserv2_make_dictionary(&job, Encoding::Utf8, &encoding_table()).unwrap();
    let expected = ";; -*- mode: fundamental; coding: utf-8 -*-\n\
;; yaskkserv2 dictionary\n\
;; okuri-ari entries.\n\
;; okuri-nasi entries.\n\
abc /ABC/\n\
empty /\n\
かんじ /漢字/感じ/\n";
    assert_eq!(String::from_utf8(utf8).unwrap(), expected);
    let euc_jisyo = run_yaskkserv2_make_dictionary(&job, Encoding::Euc, &encoding_table()).unwrap();
    let mut expected_euc = b";; -*- mode: fundamental; coding: euc-jis-2004 -*-\n;; yaskkserv2 dictionary\n;; okuri-ari entries.\n;; okuri-nasi entries.\nabc /ABC/\nempty /\n".to_vec();
    expected_euc.extend_from_slice("かんじ".as_bytes());
    expected_euc.extend_from_slice(b" ");
    expected_euc.extend_from_slice(&euc("/漢字/感じ"));
    expected_euc.extend_from_slice(b"/\n");
    assert_eq!(euc_jisyo, expected_euc);
}

#[test]
fn unit_candidates_entry_lines_test() {
    let unit = b"\nab /AB/\nabc /ABC/x/\nb /B/\n";
    assert_eq!(DictionaryReader::unit_candidates(unit, b"ab"), Ok(Some(&b"AB/"[..])));
    assert_eq!(DictionaryReader::unit_candidates(unit, b"abc"), Ok(Some(&b"ABC/x/"[..])));
    assert_eq!(DictionaryReader::unit_candidates(unit, b"b"), Ok(Some(&b"B/"[..])));
    assert_eq!(DictionaryReader::unit_candidates(unit, b"a"), Ok(None));
    assert_eq!(DictionaryReader::unit_candidates(b"\nab /AB/", b"ab"), Err(SkkError::BrokenDictionary));
}

#[test]
fn setup_after_create_test() {
    let dictionary = create_dictionary(&[skk_jisyo_l()], Encoding::Euc);
    let (on_memory, _t) = Dictionary::setup(&dictionary).unwrap();
    assert_eq!(on_memory.dictionary_fixed_header.encoding_table_offset, 256);
    assert_eq!(on_memory.dictionary_fixed_header.encoding_table_length as usize, encoding_table().len());
    assert_eq!(&dictionary[256..256 + encoding_table().len()], &encoding_table()[..]);
    let mut broken = dictionary.clone();
    let last = broken.len() - 1;
    broken[last] ^= 0xff;
    assert!(Dictionary::setup(&broken).is_err());
}

#[test]
fn jisyo_after_create_test() {
    let mut jisyo: Vec<u8> = Vec::new();
    jisyo.extend_from_slice(b";; okuri-ari entries.\n");
    jisyo.extend_from_slice(&euc("あいk"));
    jisyo.extend_from_slice(b" /");
    jisyo.extend_from_slice(&euc("愛"));
    jisyo.extend_from_slice(b"/\n;; okuri-nasi entries.\n");
    jisyo.extend_from_slice(&euc("あい"));
    jisyo.extend_from_slice(b" /");
    jisyo.extend_from_slice(&euc("愛"));
    jisyo.extend_from_slice(b"/");
    jisyo.extend_from_slice(&euc("哀"));
    jisyo.extend_from_slice(b"/\nabc /ABC/\n");
    let dictionary = create_dictionary(&[jisyo], Encoding::Euc);
    let created = create_jisyo(&dictionary, Encoding::Euc);
    let mut expected: Vec<u8> = Vec::new();
    expected.extend_from_slice(b";; -*- mode: fundamental; coding: euc-jis-2004 -*-\n;; yaskkserv2 dictionary\n;; okuri-ari entries.\n");
    expected.extend_from_slice(&euc("あいk"));
    expected.extend_from_slice(b" /");
    expected.extend_from_slice(&euc("愛"));
    expected.extend_from_slice(b"/\n;; okuri-nasi entries.\nabc /ABC/\n");
    expected.extend_from_slice(&euc("あい"));
    expected.extend_from_slice(b" /");
    expected.extend_from_slice(&euc("愛"));
    expected.extend_from_slice(b"/");
    expected.extend_from_slice(&euc("哀"));
    expected.extend_from_slice(b"/\n");
    assert_eq!(created, expected);
}

#[test]
fn server_protocol_3_reply_test() {
    let t = table();
    let server = Server { config: Config::new(), pkg_version: b"0.1.0".to_vec() };
    match server.handle_client(b"3", &t) {
        ClientRequest::Send(v) => assert_eq!(v, b"localhost:127.0.0.1: ".to_vec()),
        _ => panic!("not a send"),
    }
    let mut config = Config::new();
    config.hostname_and_ip_address_for_protocol_3 = b"host:10.0.0.1:10.0.0.2:".to_vec();
    let server = Server { config, pkg_version: b"0.1.0".to_vec() };
    match server.handle_client(b"3", &t) {
        ClientRequest::Send(v) => assert_eq!(v, b"host:10.0.0.1:10.0.0.2: ".to_vec()),
        _ => panic!("not a send"),
    }
    match server.handle_client(b"2", &t) {
        ClientRequest::Send(v) => assert_eq!(v, b"0.1.0 ".to_vec()),
        _ => panic!("not a send"),
    }
}

#[test]
fn add_candidates_keeps_leading_one_test() {
    let mut result = b"1/a/b/".to_vec();
    DictionaryReader::add_candidates(&mut result, b"/b/c/");
    assert_eq!(result[0], b'1');
    assert_eq!(result, b"1/a/b/c/".to_vec());
    let mut result = b"1".to_vec();
    DictionaryReader::add_candidates(&mut result, b"x/");
    assert_eq!(result, b"1/x/".to_vec());
}

#[test]
fn encode_unconvertible_sharing_index_test() {
    let text = "0xB8EC\tU+8A9E\t# <cjk>\n";
    let t = EncodingTable::setup(&EncodingTable::create_table(text.as_bytes()).unwrap()).unwrap();
    assert_eq!(Euc::encode("語".as_bytes(), &t).unwrap(), vec![0xb8, 0xec]);
    assert_eq!(Euc::encode(b"\xee\x90\x97", &t).unwrap(), b"&#xee9097".to_vec());
}

#[test]
fn abbrev_completions_in_next_unit_test() {
    let mut jisyo: Vec<u8> = b";; okuri-nasi entries.\n".to_vec();
    for i in 0..31 {
        jisyo.extend_from_slice(format!("b{:04} /{}/\n", i, "x".repeat(55)).as_bytes());
    }
    jisyo.extend_from_slice(format!("bab /{}/\n", "y".repeat(2000)).as_bytes());
    jisyo.extend_from_slice(b"bac /z/\n");
    let dictionary = create_dictionary(&[jisyo], Encoding::Euc);
    let (on_memory, t) = Dictionary::setup(&dictionary).unwrap();
    let answer = DictionaryReader::read_abbrev(&on_memory, &dictionary, b"4ba ", 100, &t).unwrap();
    assert_eq!(answer, b"1/bab/bac/".to_vec());
    let answer = DictionaryReader::read_abbrev(&on_memory, &dictionary, b"4b002 ", 100, &t).unwrap();
    assert_eq!(answer, b"1/b0020/b0021/b0022/b0023/b0024/b0025/b0026/b0027/b0028/b0029/".to_vec());
}

#[test]
fn skipped_lines_test() {
    let lf = b";; comment\n\nabc /x/\n a /b/\nab\nabcd /e/\n".to_vec();
    let expected = vec![(2, SkipReason::EmptyLine), (4, SkipReason::BeginSpace), (5, SkipReason::LineTooShort)];
    assert_eq!(JisyoReader::skipped_lines(&lf).unwrap(), expected);
    let crlf = b";; comment\r\n\r\nabc /x/\r\n a /b/\r\nab\r\nabcd /e/\r\n".to_vec();
    assert_eq!(JisyoReader::skipped_lines(&crlf).unwrap(), expected);
}

#[test]
fn jisyo_line_ends_test() {
    let lf = b";; okuri-nasi entries.\nabc /x/\nabd /y/z/\nxyz /w/\n".to_vec();
    let mixed = b";; okuri-nasi entries.\r\nabc /x/\rabd /y/z/\r\nxyz /w/\r".to_vec();
    let t = table();
    let a = JisyoReader::get_merged_jisyo_entries_map_core(&vec![lf], None, &t).unwrap();
    let b = JisyoReader::get_merged_jisyo_entries_map_core(&vec![mixed], None, &t).unwrap();
    assert_eq!(a.entries, b.entries);
    assert_eq!(a.entries.len(), 3);
}

/// Looks a midashi that the dictionary lacks up, Google Japanese Input (and, where enabled,
/// Google Suggest) answering with the given candidates, and checks the answer's form.
fn test_dictionary_notfound_google_found(is_google_suggest_enabled: bool) {
    fn is_consecutive_slashes(buffer: &[u8]) -> bool {
        buffer.windows(2).any(|w| w == b"//")
    }
    let mut jisyo = b";; okuri-nasi entries.\n".to_vec();
    jisyo.extend_from_slice(&euc("あい"));
    jisyo.extend_from_slice(b" /");
    jisyo.extend_from_slice(&euc("愛"));
    jisyo.extend_from_slice(b"/\n");
    let dictionary = create_dictionary(&[jisyo], Encoding::Utf8);
    let (on_memory, t) = Dictionary::setup(&dictionary).unwrap();
    let mut request = vec![b'1'];
    request.extend_from_slice(&euc("かき"));
    request.push(b' ');
    let mut result = DictionaryReader::read_candidates(&on_memory, &dictionary, &request, vec![b'1']).unwrap();
    assert_eq!(result, b"1".to_vec());
    assert!(DictionaryReader::should_read_google_after(GoogleTiming::NotFound, &result));
    let japanese_input = Ok(vec!["柿".as_bytes().to_vec(), "夏季".as_bytes().to_vec()]);
    let suggest = Ok(vec!["夏季".as_bytes().to_vec(), "下記".as_bytes().to_vec()]);
    let taken = DictionaryReader::read_google_candidates(&mut result, Vec::new(), is_google_suggest_enabled,
        japanese_input, suggest, false, &t).unwrap();
    assert_eq!(taken.len(), if is_google_suggest_enabled { 3 } else { 2 });
    let buffer = Server::candidates_answer(&Ok(result), &request);
    const MIMINUM_RESULT: &[u8] = b"1/c/\n";
    assert!(buffer.len() >= MIMINUM_RESULT.len());
    assert!(!is_consecutive_slashes(&buffer));
    assert_eq!(buffer[0], b'1');
    assert_eq!(buffer[1], b'/');
    assert_eq!(buffer[buffer.len() - 2], b'/');
    assert_eq!(buffer[buffer.len() - 1], b'\n');
}

#[test]
fn yaskkserv2_dictionary_notfound_google_found_test() {
    test_dictionary_notfound_google_found(false);
}

#[test]
fn yaskkserv2_dictionary_notfound_google_found_enable_google_suggest_test() {
    test_dictionary_notfound_google_found(true);
}
