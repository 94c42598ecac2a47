//! Candidates from the Google Japanese Input and Google Suggest services: which of them are
//! kept, and how the answers are read.
use vstd::prelude::*;

verus! {

/// Namespace for the handling of the services' answers.
pub struct Request;

/// A UTF-8 hiragana (U+3041..U+3093, U+309B..U+309E).
pub open spec fn spec_is_hiragana(l: Seq<u8>) -> bool {
    l[0] == 0xe3 && ((l[1] == 0x81 && 0x81 <= l[2] <= 0xbf)
        || (l[1] == 0x82 && ((0x80 <= l[2] <= 0x93) || (0x9b <= l[2] <= 0x9e))))
}

/// A UTF-8 katakana (U+30A1..U+30F6, U+30FB..U+30FE).
pub open spec fn spec_is_katakana(l: Seq<u8>) -> bool {
    l[0] == 0xe3 && ((l[1] == 0x82 && 0xa1 <= l[2] <= 0xbf)
        || (l[1] == 0x83 && ((0x80 <= l[2] <= 0xb6) || (0xbb <= l[2] <= 0xbe))))
}

/// A UTF-8 half-width katakana (U+FF61..U+FF9F).
pub open spec fn spec_is_hankaku_katakana(l: Seq<u8>) -> bool {
    l[0] == 0xef && ((l[1] == 0xbd && 0xa1 <= l[2] <= 0xbf) || (l[1] == 0xbe && 0x80 <= l[2] <= 0x9f))
}

/// Which letter class a predicate of `kind` tests: 0 hiragana, 1 katakana, 2 hankaku katakana.
pub open spec fn spec_is_kind(kind: u8, l: Seq<u8>) -> bool {
    if kind == 0 { spec_is_hiragana(l) } else if kind == 1 { spec_is_katakana(l) } else { spec_is_hankaku_katakana(l) }
}

/// A non-empty sequence of 3-byte letters of class `kind` and nothing else.
pub open spec fn spec_is_only(kind: u8, c: Seq<u8>) -> bool {
    &&& c.len() % 3 == 0
    &&& c.len() >= 3
    &&& forall|k: int| 0 <= k < c.len() / 3 ==> #[trigger] spec_is_kind(kind, c.subrange(3 * k, 3 * k + 3))
}

/// Whether the last byte of a midashi tail is not a lower-case ASCII letter.
pub open spec fn spec_should_add_tail(tail: Seq<u8>) -> bool {
    tail.len() >= 1 && (tail.last() < 0x61 || tail.last() > 0x7a)
}

/// A composed candidate is kept unless one of its parts is made only of a letter class whose
/// insertion is off.
pub open spec fn spec_should_add(parts: Seq<Seq<u8>>, hiragana: bool, katakana: bool, hankaku: bool) -> bool {
    forall|k: int| 0 <= k < parts.len() ==> {
        &&& (hiragana || !spec_is_only(0, #[trigger] parts[k]))
        &&& (katakana || !spec_is_only(1, parts[k]))
        &&& (hankaku || !spec_is_only(2, parts[k]))
    }
}

impl Request {
    /// Whether `letter` is a UTF-8 hiragana.
    pub fn is_utf8_hiragana(letter: [u8; 3]) -> (r: bool)
        ensures
            r == spec_is_hiragana(letter@),
    {
        if letter[0] != 0xe3 {
            return false;
        }
        if letter[1] == 0x81 {
            return letter[2] >= 0x81 && letter[2] <= 0xbf;
        }
        if letter[1] == 0x82 {
            if letter[2] >= 0x9b && letter[2] <= 0x9e {
                return true;
            }
            if letter[2] < 0x80 || letter[2] > 0x93 {
                return false;
            }
            true
        } else {
            false
        }
    }

    /// Whether `letter` is a UTF-8 katakana.
    pub fn is_utf8_katakana(letter: [u8; 3]) -> (r: bool)
        ensures
            r == spec_is_katakana(letter@),
    {
        if letter[0] != 0xe3 {
            return false;
        }
        if letter[1] == 0x82 {
            return letter[2] >= 0xa1 && letter[2] <= 0xbf;
        }
        if letter[1] == 0x83 {
            if letter[2] >= 0xbb && letter[2] <= 0xbe {
                return true;
            }
            if letter[2] < 0x80 || letter[2] > 0xb6 {
                return false;
            }
            true
        } else {
            false
        }
    }

    /// Whether `letter` is a UTF-8 half-width katakana.
    pub fn is_utf8_hankaku_katakana(letter: [u8; 3]) -> (r: bool)
        ensures
            r == spec_is_hankaku_katakana(letter@),
    {
        if letter[0] != 0xef {
            return false;
        }
        if letter[1] == 0xbd {
            return letter[2] >= 0xa1 && letter[2] <= 0xbf;
        }
        if letter[1] == 0xbe {
            if letter[2] < 0x80 || letter[2] > 0x9f {
                return false;
            }
            true
        } else {
            false
        }
    }

    fn is_kind(kind: u8, letter: [u8; 3]) -> (r: bool)
        ensures
            r == spec_is_kind(kind, letter@),
    {
        if kind == 0 {
            Self::is_utf8_hiragana(letter)
        } else if kind == 1 {
            Self::is_utf8_katakana(letter)
        } else {
            Self::is_utf8_hankaku_katakana(letter)
        }
    }

    fn is_only(kind: u8, candidate: &[u8]) -> (r: bool)
        ensures
            r == spec_is_only(kind, candidate@),
    {
        let length = candidate.len();
        if length % 3 != 0 || length < 3 {
            return false;
        }
        let mut i: usize = 0;
        while i < length
            invariant
                length == candidate@.len(),
                length % 3 == 0,
                i % 3 == 0,
                0 <= i <= length,
                forall|k: int| 0 <= k < i / 3 ==> #[trigger] spec_is_kind(kind, candidate@.subrange(3 * k, 3 * k + 3)),
            decreases length - i,
        {
            let letter: [u8; 3] = [candidate[i], candidate[i + 1], candidate[i + 2]];
            assert(letter@ =~= candidate@.subrange(3 * (i / 3) as int, 3 * (i / 3) + 3));
            if !Self::is_kind(kind, letter) {
                return false;
            }
            i += 3;
        }
        true
    }

    /// Whether `candidate` is made only of UTF-8 hiragana (and is not empty).
    pub fn is_utf8_hiragana_only(candidate: &[u8]) -> (r: bool)
        ensures
            r == spec_is_only(0, candidate@),
    {
        Self::is_only(0, candidate)
    }

    /// Whether `candidate` is made only of UTF-8 katakana (and is not empty).
    pub fn is_utf8_katakana_only(candidate: &[u8]) -> (r: bool)
        ensures
            r == spec_is_only(1, candidate@),
    {
        Self::is_only(1, candidate)
    }

    /// Whether `candidate` is made only of UTF-8 half-width katakana (and is not empty).
    pub fn is_utf8_hankaku_katakana_only(candidate: &[u8]) -> (r: bool)
        ensures
            r == spec_is_only(2, candidate@),
    {
        Self::is_only(2, candidate)
    }

    /// Whether the candidate for the last segment is appended: only where the midashi tail
    /// does not end in a lower-case ASCII letter (an okurigana consonant).
    pub fn should_add_tail_candidates(midashi_tail: &[u8]) -> (r: bool)
        ensures
            r == spec_should_add_tail(midashi_tail@),
    {
        let length = midashi_tail.len();
        if length < 1 {
            return false;
        }
        let tail_ascii = midashi_tail[length - 1];
        tail_ascii < 0x61 || tail_ascii > 0x7a
    }

    /// Whether a candidate composed of `candidates` is kept: see `spec_should_add`.
    pub fn should_add(
        candidates: &Vec<Vec<u8>>,
        is_insert_hiragana_only_candidate: bool,
        is_insert_katakana_only_candidate: bool,
        is_insert_hankaku_katakana_only_candidate: bool,
    ) -> (r: bool)
        ensures
            r == spec_should_add(crate::bytes::vv(candidates@), is_insert_hiragana_only_candidate,
                is_insert_katakana_only_candidate, is_insert_hankaku_katakana_only_candidate),
    {
        let ghost parts = crate::bytes::vv(candidates@);
        let mut i: usize = 0;
        while i < candidates.len()
            invariant
                parts == crate::bytes::vv(candidates@),
                0 <= i <= candidates.len(),
                forall|k: int| 0 <= k < i ==> {
                    &&& (is_insert_hiragana_only_candidate || !spec_is_only(0, #[trigger] parts[k]))
                    &&& (is_insert_katakana_only_candidate || !spec_is_only(1, parts[k]))
                    &&& (is_insert_hankaku_katakana_only_candidate || !spec_is_only(2, parts[k]))
                },
            decreases candidates.len() - i,
        {
            let candidate = candidates[i].as_slice();
            assert(candidate@ == parts[i as int]);
            if !is_insert_hiragana_only_candidate && Self::is_utf8_hiragana_only(candidate) {
                return false;
            }
            if !is_insert_katakana_only_candidate && Self::is_utf8_katakana_only(candidate) {
                return false;
            }
            if !is_insert_hankaku_katakana_only_candidate && Self::is_utf8_hankaku_katakana_only(candidate) {
                return false;
            }
            i += 1;
        }
        true
    }
}

} // verus!
