//! How the line ends of a jisyo (LF, CRLF or CR, mixed as they come) leave its lines alone.
use vstd::prelude::*;
use crate::encoding::{Encoding, EncodingOptions};
use crate::encoding_simple::EncodingTable;
use crate::error::SkkError;
use crate::jisyo_reader::{
    entries_after_jisyo, is_cr_or_lf, jisyo_lines_from, lemma_lines_step, line_end_from, spec_detect_jisyo_encoding, CR,
    LF,
};

verus! {

/// Whether `t` ends a line: an LF, a CRLF or a CR.
pub open spec fn is_line_end(t: Seq<u8>) -> bool {
    t == seq![LF] || t == seq![CR, LF] || t == seq![CR]
}

/// Whether the lines are not empty and hold no CR and no LF.
pub open spec fn plain_lines(ls: Seq<Seq<u8>>) -> bool {
    forall|i: int| 0 <= i < ls.len() ==> (#[trigger] ls[i]).len() >= 1
        && forall|k: int| 0 <= k < ls[i].len() ==> !is_cr_or_lf(ls[i][k])
}

/// The lines `ls`, each followed by its line end `ts[i]`.
pub open spec fn terminated(ls: Seq<Seq<u8>>, ts: Seq<Seq<u8>>) -> Seq<u8>
    decreases ls.len(),
{
    if ls.len() == 0 || ts.len() == 0 {
        Seq::empty()
    } else {
        ls[0] + ts[0] + terminated(ls.skip(1), ts.skip(1))
    }
}

/// The first line end from `pos` is the first CR or LF.
proof fn lemma_line_end_at(c: Seq<u8>, pos: int, e: int)
    requires
        0 <= pos <= e < c.len(),
        is_cr_or_lf(c[e]),
        forall|k: int| pos <= k < e ==> !is_cr_or_lf(c[k]),
    ensures
        line_end_from(c, pos) == Some(e),
    decreases e - pos,
{
    if pos < e {
        lemma_line_end_at(c, pos + 1, e);
    }
}

/// Reading the lines of a content whose rest from `pos` is plain lines, each with a line end,
/// gives those lines, whatever the line ends are.
proof fn lemma_lines_of_terminated(c: Seq<u8>, pos: int, last_cr: bool, ls: Seq<Seq<u8>>, ts: Seq<Seq<u8>>)
    requires
        0 <= pos <= c.len(),
        c.subrange(pos, c.len() as int) == terminated(ls, ts),
        ls.len() == ts.len(),
        plain_lines(ls),
        forall|i: int| 0 <= i < ts.len() ==> is_line_end(#[trigger] ts[i]),
    ensures
        jisyo_lines_from(c, pos, last_cr) == ls,
    decreases ls.len(),
{
    if ls.len() == 0 {
        assert(c.subrange(pos, c.len() as int).len() == 0);
        assert(pos == c.len());
        lemma_lines_step_empty(c, pos, last_cr);
        assert(ls =~= Seq::<Seq<u8>>::empty());
    } else {
        let l = ls[0];
        let t = ts[0];
        let rest = terminated(ls.skip(1), ts.skip(1));
        assert(l.len() >= 1);
        assert(is_line_end(t));
        let s = c.subrange(pos, c.len() as int);
        assert(s == l + t + rest);
        let e = pos + l.len();
        assert forall|k: int| pos <= k < e implies !is_cr_or_lf(c[k]) by {
            assert(c[k] == s[k - pos]);
            assert(s[k - pos] == l[k - pos]);
        }
        assert(c[e] == s[l.len() as int]);
        assert(s[l.len() as int] == t[0]);
        lemma_line_end_at(c, pos, e);
        let end = e + 1;
        lemma_lines_step(c, pos, last_cr, end);
        assert(c[pos] == s[0]);
        assert(s[0] == l[0]);
        assert(c.subrange(pos, end - 1) =~= l) by {
            assert forall|k: int| 0 <= k < l.len() implies c.subrange(pos, end - 1)[k] == l[k] by {
                assert(c[pos + k] == s[k]);
            }
        }
        assert(ls.skip(1).len() == ts.skip(1).len());
        assert(plain_lines(ls.skip(1))) by {
            assert forall|i: int| 0 <= i < ls.skip(1).len() implies (#[trigger] ls.skip(1)[i]).len() >= 1
                && forall|k: int| 0 <= k < ls.skip(1)[i].len() ==> !is_cr_or_lf(ls.skip(1)[i][k]) by {
                assert(ls.skip(1)[i] == ls[i + 1]);
            }
        }
        assert forall|i: int| 0 <= i < ts.skip(1).len() implies is_line_end(#[trigger] ts.skip(1)[i]) by {
            assert(ts.skip(1)[i] == ts[i + 1]);
        }
        if t == seq![CR, LF] {
            assert(c[end - 1] == CR);
            assert(c[end] == s[l.len() as int + 1]);
            assert(c[end] == LF);
            lemma_line_end_at(c, end, end);
            lemma_lines_step(c, end, true, end + 1);
            assert(c.subrange(end + 1, c.len() as int) =~= rest) by {
                assert forall|k: int| 0 <= k < rest.len() implies c.subrange(end + 1, c.len() as int)[k] == rest[k] by {
                    assert(c[end + 1 + k] == s[l.len() as int + 2 + k]);
                }
            }
            lemma_lines_of_terminated(c, end + 1, true, ls.skip(1), ts.skip(1));
        } else {
            assert(c.subrange(end, c.len() as int) =~= rest) by {
                assert forall|k: int| 0 <= k < rest.len() implies c.subrange(end, c.len() as int)[k] == rest[k] by {
                    assert(c[end + k] == s[l.len() as int + 1 + k]);
                }
            }
            lemma_lines_of_terminated(c, end, c[end - 1] == CR, ls.skip(1), ts.skip(1));
        }
        assert(seq![l] + ls.skip(1) =~= ls);
    }
}

/// There are no lines past the end.
proof fn lemma_lines_step_empty(c: Seq<u8>, pos: int, last_cr: bool)
    requires
        pos == c.len(),
    ensures
        jisyo_lines_from(c, pos, last_cr) == Seq::<Seq<u8>>::empty(),
{
    reveal(jisyo_lines_from);
}

/// Plain lines read back as themselves whatever line ends follow them (LF, CRLF or CR, mixed as
/// they come); so two jisyos made of the same plain lines give the same entries wherever their
/// encoding is guessed alike and neither starts with a byte order mark.
pub proof fn lemma_line_ends(
    t: EncodingTable,
    m: Map<Seq<u8>, Seq<u8>>,
    ls: Seq<Seq<u8>>,
    ts1: Seq<Seq<u8>>,
    ts2: Seq<Seq<u8>>,
    o: Option<Encoding>,
)
    requires
        plain_lines(ls),
        ts1.len() == ls.len(),
        ts2.len() == ls.len(),
        forall|i: int| 0 <= i < ts1.len() ==> is_line_end(#[trigger] ts1[i]),
        forall|i: int| 0 <= i < ts2.len() ==> is_line_end(#[trigger] ts2[i]),
    ensures
        jisyo_lines_from(terminated(ls, ts1), 0, false) == ls,
        jisyo_lines_from(terminated(ls, ts2), 0, false) == ls,
        spec_detect_jisyo_encoding(terminated(ls, ts1)) == spec_detect_jisyo_encoding(terminated(ls, ts2))
            && !(spec_detect_jisyo_encoding(terminated(ls, ts1)) matches Ok((_, EncodingOptions::Bom)))
            ==> entries_after_jisyo(t, m, terminated(ls, ts1), o) == entries_after_jisyo(t, m, terminated(ls, ts2), o),
{
    let c1 = terminated(ls, ts1);
    let c2 = terminated(ls, ts2);
    assert(c1.subrange(0, c1.len() as int) =~= c1);
    assert(c2.subrange(0, c2.len() as int) =~= c2);
    lemma_lines_of_terminated(c1, 0, false, ls, ts1);
    lemma_lines_of_terminated(c2, 0, false, ls, ts2);
    reveal(entries_after_jisyo);
}

} // verus!
