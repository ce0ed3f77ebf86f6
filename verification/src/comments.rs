//! Extraction of `# ` comments from the raw source.
use vstd::prelude::*;

use crate::text::{chars_of, lines, slice_of, split_lines, string_of, trim, trim_bounds};

verus! {

/// Index of the first structural `#` of line `l` at or after `i`: outside
/// double quotes (where `\` escapes the next character), preceded by a space,
/// a tab or the line start, and followed by a space, a tab or the line end.
pub open spec fn comment_scan(l: Seq<char>, i: int, in_dq: bool, escape_next: bool) -> Option<int>
    decreases l.len() - i,
{
    if i < 0 || i >= l.len() {
        None
    } else {
        let c = l[i];
        if escape_next {
            comment_scan(l, i + 1, in_dq, false)
        } else if c == '\\' && in_dq {
            comment_scan(l, i + 1, in_dq, true)
        } else if c == '"' {
            comment_scan(l, i + 1, !in_dq, false)
        } else if c == '#' && !in_dq && (i == 0 || l[i - 1] == ' ' || l[i - 1] == '\t') && (i + 1
            >= l.len() || l[i + 1] == ' ' || l[i + 1] == '\t') {
            Some(i)
        } else {
            comment_scan(l, i + 1, in_dq, false)
        }
    }
}

/// The text of the comment of line `l`, if it has one: what follows the
/// structural `#`, trimmed.
pub open spec fn line_comment(l: Seq<char>) -> Option<Seq<char>> {
    match comment_scan(l, 0, false, false) {
        Some(j) => Some(trim(l.skip(j + 1))),
        None => None,
    }
}

/// The comments of the lines `ls[i..]`, each with its 1-based line number.
pub open spec fn comments_from(ls: Seq<Seq<char>>, i: int) -> Seq<(nat, Seq<char>)>
    decreases ls.len() - i,
{
    if i < 0 || i >= ls.len() {
        Seq::empty()
    } else {
        match line_comment(ls[i]) {
            Some(t) => seq![((i + 1) as nat, t)] + comments_from(ls, i + 1),
            None => comments_from(ls, i + 1),
        }
    }
}

/// The comments of `input`, in order, each with its 1-based line number.
pub open spec fn comments_spec(input: Seq<char>) -> Seq<(nat, Seq<char>)> {
    comments_from(lines(input), 0)
}

/// Finds the structural `#` of a line.
fn find_comment(l: &Vec<char>) -> (r: Option<usize>)
    ensures
        match r {
            Some(j) => comment_scan(l@, 0, false, false) == Some(j as int) && j < l@.len(),
            None => comment_scan(l@, 0, false, false) is None,
        },
{
    let n = l.len();
    let mut in_dq = false;
    let mut escape_next = false;
    let mut i: usize = 0;
    while i < n
        invariant
            n == l@.len(),
            i <= n,
            comment_scan(l@, 0, false, false) == comment_scan(l@, i as int, in_dq, escape_next),
        decreases n - i,
    {
        let c = l[i];
        if escape_next {
            escape_next = false;
        } else if c == '\\' && in_dq {
            escape_next = true;
        } else if c == '"' {
            in_dq = !in_dq;
        } else if c == '#' && !in_dq {
            let preceded_by_ws = i == 0 || l[i - 1] == ' ' || l[i - 1] == '\t';
            let followed_by_ws_or_eol = i + 1 >= n || l[i + 1] == ' ' || l[i + 1] == '\t';
            if preceded_by_ws && followed_by_ws_or_eol {
                return Some(i);
            }
        }
        i += 1;
    }
    None
}

/// Scans the raw SYON source and collects `(1-based line, comment text)`
/// pairs.  A `#` is structural only when preceded by whitespace (or at
/// column 0) and followed by a space or end-of-line, outside double quotes.
pub fn extract_comments(input: &str) -> (r: Vec<(usize, String)>)
    ensures
        r@.len() == comments_spec(input@).len(),
        forall|k: int|
            0 <= k < r@.len() ==> (#[trigger] r@[k]).0 == comments_spec(input@)[k].0 && r@[k].1@
                == comments_spec(input@)[k].1,
{
    let chars = chars_of(input);
    let ls = split_lines(&chars);
    let mut out: Vec<(usize, String)> = Vec::new();
    let ghost lsv = lines(input@);
    let mut i: usize = 0;
    while i < ls.len()
        invariant
            i <= ls@.len(),
            ls@.len() == lsv.len(),
            lsv == lines(input@),
            forall|k: int| 0 <= k < ls@.len() ==> #[trigger] ls@[k]@ == lsv[k],
            comments_spec(input@) == {
                let got = out@.map_values(|p: (usize, String)| (p.0 as nat, p.1@));
                got + comments_from(lsv, i as int)
            },
        decreases ls@.len() - i,
    {
        let ghost before = out@;
        let line = &ls[i];
        assert(line@ == lsv[i as int]);
        match find_comment(line) {
            Some(j) => {
                assert(j < line.len());
                let rest = slice_of(line, j + 1, line.len());
                let (lo, hi) = trim_bounds(&rest);
                let text = string_of(&rest, lo, hi);
                proof {
                    assert(rest@ =~= line@.skip(j + 1));
                }
                out.push((i + 1, text));
                proof {
                    let f = |p: (usize, String)| (p.0 as nat, p.1@);
                    assert(out@.map_values(f) =~= before.map_values(f).push(((i + 1) as nat, text@)));
                    assert(comments_from(lsv, i as int) == seq![((i + 1) as nat, text@)]
                        + comments_from(lsv, i + 1));
                    assert(before.map_values(f) + comments_from(lsv, i as int) =~= out@.map_values(
                        f,
                    ) + comments_from(lsv, i + 1));
                }
            },
            None => {},
        }
        i += 1;
    }
    proof {
        let f = |p: (usize, String)| (p.0 as nat, p.1@);
        assert(comments_from(lsv, i as int) =~= Seq::<(nat, Seq<char>)>::empty());
        assert(comments_spec(input@) =~= out@.map_values(f));
        assert forall|k: int| 0 <= k < out@.len() implies (#[trigger] out@[k]).0
            == comments_spec(input@)[k].0 && out@[k].1@ == comments_spec(input@)[k].1 by {
            assert(out@.map_values(f)[k] == f(out@[k]));
        }
    }
    out
}

} // verus!
