use yaskkserv2::config::GoogleTiming;
use yaskkserv2::dictionary_reader::DictionaryReader;
use yaskkserv2::encoding_simple::EncodingTable;
use yaskkserv2::error::SkkError;
use yaskkserv2::google::{GoogleJson, JsonSegment};
use yaskkserv2::request::Request;

fn segment(head: &str, members: &[&str]) -> JsonSegment {
    JsonSegment {
        is_array: true,
        len: 2,
        head: Some(head.as_bytes().to_vec()),
        members: members.iter().map(|m| Some(m.as_bytes().to_vec())).collect(),
    }
}

fn strings(v: &[Vec<u8>]) -> Vec<String> {
    v.iter().map(|x| String::from_utf8(x.clone()).unwrap()).collect()
}

#[test]
fn google_japanese_input_two_segments_test() {
    let json = GoogleJson { is_array: true, segments: vec![segment("きょう", &["今日", "京"]), segment("は", &["は", "葉"])] };
    let r = Request::get_google_japanese_input_result(&json, 10, false, false, false);
    assert_eq!(strings(&r), vec!["今日葉", "京葉"]);
    let r = Request::get_google_japanese_input_result(&json, 10, true, false, false);
    assert_eq!(strings(&r), vec!["今日は", "今日葉", "京は", "京葉"]);
    let r = Request::get_google_japanese_input_result(&json, 1, true, false, false);
    assert_eq!(strings(&r), vec!["今日は"]);
}

#[test]
fn google_japanese_input_okurigana_tail_test() {
    let json = GoogleJson { is_array: true, segments: vec![segment("か", &["書", "描"]), segment("k", &["k"])] };
    let r = Request::get_google_japanese_input_result(&json, 10, false, false, false);
    assert_eq!(strings(&r), vec!["書", "描"]);
}

#[test]
fn google_japanese_input_one_segment_test() {
    let json = GoogleJson { is_array: true, segments: vec![segment("きょう", &["今日", "きょう", "キョウ"])] };
    let r = Request::get_google_japanese_input_result(&json, 10, false, true, false);
    assert_eq!(strings(&r), vec!["今日", "キョウ"]);
    let r = Request::get_google_japanese_input_result(&json, 10, false, false, false);
    assert_eq!(strings(&r), vec!["今日"]);
}

#[test]
fn google_japanese_input_text_test() {
    let text = r#"[["きょう",["今日","京"]],["は",["は","葉"]]]"#;
    let r = Request::request_google_japanese_input(text.as_bytes(), 10, true, false, false).unwrap();
    assert_eq!(strings(&r), vec!["今日は", "今日葉", "京は", "京葉"]);
    assert_eq!(Request::request_google_japanese_input(b"[", 10, true, true, true), Err(SkkError::Json));
    assert_eq!(Request::request_google_japanese_input(br#"{"a":1}"#, 10, true, true, true), Err(SkkError::Request));
    assert_eq!(Request::request_google_japanese_input(br#"[["a"]]"#, 10, true, true, true), Err(SkkError::Request));
    let only_hiragana = r#"[["は",["は"]],["は",["は"]]]"#;
    assert_eq!(Request::request_google_japanese_input(only_hiragana.as_bytes(), 10, false, false, false), Err(SkkError::Request));
}

#[test]
fn google_suggest_test() {
    let text = r#"<?xml version="1.0"?><toplevel><CompleteSuggestion><suggestion data="今日 天気"/></CompleteSuggestion><CompleteSuggestion><suggestion data="京都"/></CompleteSuggestion></toplevel>"#;
    let r = Request::request_google_suggest(text.as_bytes()).unwrap();
    assert_eq!(strings(&r), vec!["今日", "京都"]);
    let ideographic_space = "<suggestion data=\"東京\u{3000}タワー\"/>";
    assert_eq!(strings(&Request::request_google_suggest(ideographic_space.as_bytes()).unwrap()), vec!["東京"]);
    assert_eq!(Request::request_google_suggest(b"<toplevel></toplevel>"), Err(SkkError::Request));
}

#[test]
fn google_url_test() {
    let url = Request::google_japanese_input_url(false, "きょう".as_bytes());
    assert_eq!(
        String::from_utf8(url).unwrap(),
        "https://www.google.com/transliterate?langpair=ja-Hira|ja&text=%E3%81%8D%E3%82%87%E3%81%86"
    );
    let url = Request::google_suggest_url(true, b"a b*-._~");
    assert_eq!(
        String::from_utf8(url).unwrap(),
        "http://www.google.com/complete/search?hl=ja&output=toolbar&q=a+b*-._%7E"
    );
}

fn utf8_table() -> EncodingTable {
    let text = "0xA4A2\tU+3042\t# HIRAGANA LETTER A\n0xB0A1\tU+4E9C\t# <cjk>\n";
    EncodingTable::setup(&EncodingTable::create_table(text.as_bytes()).unwrap()).unwrap()
}

#[test]
fn google_merge_test() {
    let table = utf8_table();
    let google = vec![b"c".to_vec(), b"a".to_vec()];
    let r = DictionaryReader::merge_google_candidates(b"1/a/b/", &google, false, &table);
    assert_eq!(r, b"1/a/b/c/".to_vec());
    let r = DictionaryReader::merge_google_candidates(b"1", &google, false, &table);
    assert_eq!(r, b"1/c/a/".to_vec());
    let r = DictionaryReader::merge_google_candidates(b"1", &vec!["亜".as_bytes().to_vec()], true, &table);
    assert_eq!(r, vec![b'1', b'/', 0xb0, 0xa1, b'/']);
    let r = DictionaryReader::merge_google_candidates(b"1", &vec![b"a/b".to_vec()], false, &table);
    assert_eq!(r, br#"1/a(concat "\057")b/"#.to_vec());
}

#[test]
fn google_read_candidates_test() {
    let table = utf8_table();
    let mut result = b"1".to_vec();
    let r = DictionaryReader::read_google_candidates(&mut result, vec![b"x".to_vec()], false, Err(SkkError::Request), Err(SkkError::Request), false, &table);
    assert_eq!(r, Ok(vec![b"x".to_vec()]));
    assert_eq!(result, b"1/x/".to_vec());
    let mut result = b"1".to_vec();
    let r = DictionaryReader::read_google_candidates(
        &mut result,
        Vec::new(),
        true,
        Ok(vec![b"p".to_vec(), b"q".to_vec()]),
        Ok(vec![b"q".to_vec(), b"r".to_vec()]),
        false,
        &table,
    );
    assert_eq!(r, Ok(vec![b"p".to_vec(), b"q".to_vec(), b"r".to_vec()]));
    assert_eq!(result, b"1/p/q/r/".to_vec());
    let mut result = b"1/a/".to_vec();
    let r = DictionaryReader::read_google_candidates(&mut result, Vec::new(), false, Err(SkkError::Json), Ok(vec![b"q".to_vec()]), false, &table);
    assert_eq!(r, Err(SkkError::Json));
    assert_eq!(result, b"1/a/".to_vec());
    let r = DictionaryReader::read_google_candidates(&mut result, Vec::new(), true, Err(SkkError::Json), Err(SkkError::Request), false, &table);
    assert_eq!(r, Err(SkkError::Request));
}

#[test]
fn google_timing_test() {
    assert!(DictionaryReader::should_read_google_after(GoogleTiming::Last, b"1/a/"));
    assert!(DictionaryReader::should_read_google_after(GoogleTiming::NotFound, b"1"));
    assert!(!DictionaryReader::should_read_google_after(GoogleTiming::NotFound, b"1/a/"));
    assert!(!DictionaryReader::should_read_google_after(GoogleTiming::First, b"1"));
    assert!(!DictionaryReader::should_read_google_after(GoogleTiming::Disable, b"1"));
}

#[test]
fn should_read_google_before_test() {
    assert!(DictionaryReader::should_read_google_before(GoogleTiming::First, b"1abc "));
    assert!(!DictionaryReader::should_read_google_before(GoogleTiming::Last, b"1abc "));
    assert!(!DictionaryReader::should_read_google_before(GoogleTiming::First, b"1 "));
    assert!(!DictionaryReader::should_read_google_before(GoogleTiming::First, b"1\x8f "));
}
