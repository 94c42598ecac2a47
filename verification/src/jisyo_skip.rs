//! Which lines of a jisyo are skipped, by line number, for the warnings about them.
use vstd::prelude::*;
use crate::encoding::EncodingOptions;
use crate::error::SkkError;
use crate::jisyo_reader::{
    jisyo_lines_from, lemma_line_end_bounds, lemma_lines_step, spec_detect_jisyo_encoding, spec_skip_reason, JisyoReader,
    SkipReason, CR, LF,
};

verus! {

/// What a line numbered `n` adds to the skipped lines: its number and why it is skipped, where
/// it is skipped and not a comment; nothing otherwise.
pub open spec fn skip_entry(line: Seq<u8>, n: int) -> Seq<(int, SkipReason)> {
    match spec_skip_reason(line) {
        Some(SkipReason::Comment) => Seq::empty(),
        Some(reason) => seq![(n, reason)],
        None => Seq::empty(),
    }
}

/// The lines among `lines` that are skipped with a warning (every skipped line but a comment),
/// each with its line number, counted from 1, and why it is skipped.
pub open spec fn skipped_of(lines: Seq<Seq<u8>>) -> Seq<(int, SkipReason)>
    decreases lines.len(),
{
    if lines.len() == 0 {
        Seq::empty()
    } else {
        skipped_of(lines.drop_last()) + skip_entry(lines.last(), lines.len() as int)
    }
}

/// Skipped lines with their numbers as integers.
pub open spec fn skipped_view(v: Seq<(usize, SkipReason)>) -> Seq<(int, SkipReason)> {
    v.map_values(|x: (usize, SkipReason)| (x.0 as int, x.1))
}

impl JisyoReader {
    /// The lines of a jisyo that are skipped with a warning, each with its line number (counted
    /// from 1, comment lines included) and why it is skipped: see `skipped_of`, over the lines
    /// after the byte order mark where there is one. Fails as the encoding guess does.
    pub fn skipped_lines(content: &[u8]) -> (r: Result<Vec<(usize, SkipReason)>, SkkError>)
        ensures
            match spec_detect_jisyo_encoding(content@) {
                Err(e) => r == Err::<Vec<(usize, SkipReason)>, SkkError>(e),
                Ok((_, o)) => r matches Ok(v) && skipped_view(v@)
                    == skipped_of(jisyo_lines_from(content@, if o == EncodingOptions::Bom { 3int } else { 0int }, false)),
            },
    {
        let (_jisyo_encoding, jisyo_encoding_options) = match Self::detect_jisyo_encoding(content) {
            Ok(x) => x,
            Err(e) => return Err(e),
        };
        let mut pos: usize = if jisyo_encoding_options == EncodingOptions::Bom { 3 } else { 0 };
        let ghost start = pos as int;
        let mut is_last_cr = false;
        let ghost mut done: Seq<Seq<u8>> = Seq::empty();
        let mut result: Vec<(usize, SkipReason)> = Vec::new();
        let mut line_number: usize = 0;
        assert(jisyo_lines_from(content@, start, false) == done + jisyo_lines_from(content@, pos as int, is_last_cr)) by {
            assert(done + jisyo_lines_from(content@, pos as int, is_last_cr) =~= jisyo_lines_from(content@, pos as int, is_last_cr));
        }
        assert(skipped_view(result@) =~= skipped_of(done));
        while pos < content.len()
            invariant
                jisyo_lines_from(content@, start, false) == done + jisyo_lines_from(content@, pos as int, is_last_cr),
                line_number == done.len(),
                line_number <= pos,
                skipped_view(result@) == skipped_of(done),
            decreases content.len() - pos,
        {
            proof { lemma_line_end_bounds(content@, pos as int); }
            let end = match Self::find_cr_or_lf(content, pos) {
                Some(e) => e + 1,
                None => content.len(),
            };
            if is_last_cr && content[pos] == LF && end - pos == 1 {
                proof { lemma_lines_step(content@, pos as int, is_last_cr, end as int); }
                pos = end;
                continue;
            }
            let chomped_line = &content[pos..end - 1];
            let ghost line = chomped_line@;
            let ghost rest = jisyo_lines_from(content@, end as int, content@[end - 1] == CR);
            proof {
                lemma_lines_step(content@, pos as int, is_last_cr, end as int);
            }
            is_last_cr = content[end - 1] == CR;
            line_number = line_number + 1;
            let ghost before = result@;
            match Self::is_skip(chomped_line) {
                Some(SkipReason::Comment) => {},
                Some(reason) => {
                    result.push((line_number, reason));
                },
                None => {},
            }
            proof {
                let d2 = done.push(line);
                assert(d2.drop_last() =~= done);
                assert(d2.last() == line);
                assert(skipped_view(result@) =~= skipped_view(before) + skip_entry(line, d2.len() as int));
                assert(done + (seq![line] + rest) =~= d2 + rest);
                done = d2;
            }
            pos = end;
        }
        proof {
            assert(jisyo_lines_from(content@, pos as int, is_last_cr) =~= Seq::<Seq<u8>>::empty()) by {
                reveal(jisyo_lines_from);
            }
            assert(done + Seq::<Seq<u8>>::empty() =~= done);
        }
        Ok(result)
    }
}

} // verus!
