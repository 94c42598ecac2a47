use std::convert::TryInto;
use yaskkserv2::request::Request;

fn letter(s: &str) -> [u8; 3] {
    s.as_bytes().try_into().unwrap()
}

#[test]
fn is_utf8_hiragana_test() {
    assert!(Request::is_utf8_hiragana(letter("ぁ")));
    assert!(Request::is_utf8_hiragana(letter("ん")));
    assert!(Request::is_utf8_hiragana(letter("゛")));
    assert!(Request::is_utf8_hiragana(letter("ゞ")));
    assert!(!Request::is_utf8_hiragana(letter("ァ")));
    assert!(!Request::is_utf8_hiragana(letter("ヶ")));
    assert!(!Request::is_utf8_hiragana(letter("・")));
    assert!(!Request::is_utf8_hiragana(letter("ヾ")));
}

#[test]
fn is_utf8_katakana_test() {
    assert!(Request::is_utf8_katakana(letter("ァ")));
    assert!(Request::is_utf8_katakana(letter("ヶ")));
    assert!(Request::is_utf8_katakana(letter("・")));
    assert!(Request::is_utf8_katakana(letter("ヾ")));
    assert!(!Request::is_utf8_katakana(letter("ぁ")));
    assert!(!Request::is_utf8_katakana(letter("ん")));
    assert!(!Request::is_utf8_katakana(letter("゛")));
    assert!(!Request::is_utf8_katakana(letter("ゞ")));
}

#[test]
fn is_utf8_hankaku_katakana_test() {
    assert!(Request::is_utf8_hankaku_katakana(letter("｡")));
    assert!(Request::is_utf8_hankaku_katakana(letter("､")));
    assert!(Request::is_utf8_hankaku_katakana(letter("ﾟ")));
    assert!(!Request::is_utf8_hankaku_katakana(letter("ヾ")));
    assert!(!Request::is_utf8_hankaku_katakana(letter("ぁ")));
    assert!(!Request::is_utf8_hankaku_katakana(letter("ん")));
    assert!(!Request::is_utf8_hankaku_katakana(letter("゛")));
    assert!(!Request::is_utf8_hankaku_katakana(letter("ゞ")));
}

#[test]
fn is_utf8_hiragana_only_test() {
    assert!(Request::is_utf8_hiragana_only("あ".as_bytes()));
    assert!(Request::is_utf8_hiragana_only("あん".as_bytes()));
    assert!(!Request::is_utf8_hiragana_only("あア".as_bytes()));
    assert!(!Request::is_utf8_hiragana_only("あｱ".as_bytes()));
    assert!(!Request::is_utf8_hiragana_only("あa".as_bytes()));
    assert!(!Request::is_utf8_hiragana_only("ア".as_bytes()));
    assert!(!Request::is_utf8_hiragana_only("ｱ".as_bytes()));
    assert!(!Request::is_utf8_hiragana_only("a".as_bytes()));
}

#[test]
fn is_utf8_katakana_only_test() {
    assert!(Request::is_utf8_katakana_only("ア".as_bytes()));
    assert!(Request::is_utf8_katakana_only("アン".as_bytes()));
    assert!(!Request::is_utf8_katakana_only("あア".as_bytes()));
    assert!(!Request::is_utf8_katakana_only("あｱ".as_bytes()));
    assert!(!Request::is_utf8_katakana_only("あa".as_bytes()));
    assert!(!Request::is_utf8_katakana_only("あ".as_bytes()));
    assert!(!Request::is_utf8_katakana_only("ｱ".as_bytes()));
    assert!(!Request::is_utf8_katakana_only("a".as_bytes()));
}

#[test]
fn is_utf8_hankaku_katakana_only_test() {
    assert!(Request::is_utf8_hankaku_katakana_only("｡｡｡".as_bytes()));
    assert!(Request::is_utf8_hankaku_katakana_only("ﾝﾝﾝ".as_bytes()));
    assert!(Request::is_utf8_hankaku_katakana_only("ｱ".as_bytes()));
    assert!(!Request::is_utf8_hankaku_katakana_only("ア".as_bytes()));
    assert!(!Request::is_utf8_hankaku_katakana_only("アン".as_bytes()));
    assert!(!Request::is_utf8_hankaku_katakana_only("あア".as_bytes()));
    assert!(!Request::is_utf8_hankaku_katakana_only("あｱ".as_bytes()));
    assert!(!Request::is_utf8_hankaku_katakana_only("あa".as_bytes()));
    assert!(!Request::is_utf8_hankaku_katakana_only("あ".as_bytes()));
    assert!(!Request::is_utf8_hankaku_katakana_only("a".as_bytes()));
}
