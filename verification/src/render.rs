//! Error reports that show the offending source line with a caret under the column.
use vstd::prelude::*;
use vstd::string::*;
use crate::span::Span;
use crate::lexer::{line_col, lemma_line_col_bound, pos_at, span_at};
use crate::text::{push_char, push_str, push_decimal, push_repeat, decimal};

verus! {

/// Index of the first `'\n'` at or after `i`, or the length of `cs`.
pub open spec fn first_newline(cs: Seq<char>, i: int) -> int
    decreases cs.len() - i,
{
    if i < 0 || i >= cs.len() {
        cs.len() as int
    } else if cs[i] == '\n' {
        i
    } else {
        first_newline(cs, i + 1)
    }
}

pub proof fn lemma_first_newline(cs: Seq<char>, i: int)
    requires
        0 <= i <= cs.len(),
    ensures
        i <= first_newline(cs, i) <= cs.len(),
        first_newline(cs, i) < cs.len() ==> cs[first_newline(cs, i)] == '\n',
        forall|j: int| i <= j < first_newline(cs, i) ==> cs[j] != '\n',
    decreases cs.len() - i,
{
    if i < cs.len() && cs[i] != '\n' {
        lemma_first_newline(cs, i + 1);
    }
}

/// A line without the `'\r'` of a `"\r\n"` line ending.
pub open spec fn strip_cr(l: Seq<char>) -> Seq<char> {
    if l.len() > 0 && l.last() == '\r' {
        l.drop_last()
    } else {
        l
    }
}

/// The lines of `cs` from index `i` on, as `str::lines` yields them: split at
/// `'\n'`, a `'\r'` before the `'\n'` removed, no empty line after a final `'\n'`.
pub open spec fn lines_from(cs: Seq<char>, i: int) -> Seq<Seq<char>>
    decreases cs.len() - i,
{
    if i < 0 || i >= cs.len() {
        seq![]
    } else {
        let k = first_newline(cs, i);
        proof {
            lemma_first_newline(cs, i);
        }
        if k < cs.len() {
            seq![strip_cr(cs.subrange(i, k))] + lines_from(cs, k + 1)
        } else {
            seq![cs.subrange(i, cs.len() as int)]
        }
    }
}

/// The lines of a text.
pub open spec fn source_lines(cs: Seq<char>) -> Seq<Seq<char>> {
    lines_from(cs, 0)
}

/// The report for `msg` at `span` in the text `cs`: `"<msg> at <line>:<col>"`,
/// followed, when the text has that line, by the line itself and a caret
/// under the column.
pub open spec fn rendered(cs: Seq<char>, span: Span, msg: Seq<char>) -> Seq<char> {
    let lines = source_lines(cs);
    let line_idx: int = if span.start.line >= 1 { span.start.line - 1 } else { 0 };
    let pad: nat = if span.start.col >= 1 { (span.start.col - 1) as nat } else { 0 };
    let head = msg + " at "@ + decimal(span.start.line as nat) + ":"@ + decimal(span.start.col as nat);
    if line_idx >= lines.len() {
        head
    } else {
        head + "\n"@ + lines[line_idx] + "\n"@ + Seq::new(pad, |_i: int| ' ') + "^"@
    }
}

proof fn lemma_line_col_in_line(cs: Seq<char>, s: int, i: int)
    requires
        0 <= s <= i <= cs.len(),
        line_col(cs, s).1 == 1,
        forall|j: int| s <= j < i ==> cs[j] != '\n',
    ensures
        line_col(cs, i) == (line_col(cs, s).0, (i - s + 1) as nat),
    decreases i - s,
{
    if i > s {
        lemma_line_col_in_line(cs, s, i - 1);
    }
}

proof fn lemma_lines_from_positions(cs: Seq<char>, s: int, i: int)
    requires
        0 <= s <= i < cs.len(),
        line_col(cs, s).1 == 1,
        cs[i] != '\n',
        !(cs[i] == '\r' && i + 1 < cs.len() && cs[i + 1] == '\n'),
    ensures
        0 <= line_col(cs, i).0 - line_col(cs, s).0 < lines_from(cs, s).len(),
        1 <= line_col(cs, i).1 <= lines_from(cs, s)[line_col(cs, i).0 - line_col(cs, s).0].len(),
        lines_from(cs, s)[line_col(cs, i).0 - line_col(cs, s).0][line_col(cs, i).1 - 1] == cs[i],
    decreases cs.len() - s,
{
    lemma_first_newline(cs, s);
    let k = first_newline(cs, s);
    if i < k {
        lemma_line_col_in_line(cs, s, i);
        if k < cs.len() {
            let raw = cs.subrange(s, k);
            assert(lines_from(cs, s) == seq![strip_cr(raw)] + lines_from(cs, k + 1));
            assert(lines_from(cs, s)[0] == strip_cr(raw));
            if raw.len() > 0 && raw.last() == '\r' {
                assert(i != k - 1);
            }
        } else {
            assert(lines_from(cs, s) == seq![cs.subrange(s, cs.len() as int)]);
        }
    } else {
        assert(i != k);
        lemma_line_col_in_line(cs, s, k);
        assert(line_col(cs, k + 1) == (line_col(cs, s).0 + 1, 1nat));
        lemma_lines_from_positions(cs, k + 1, i);
        let line = strip_cr(cs.subrange(s, k));
        assert(lines_from(cs, s) == seq![line] + lines_from(cs, k + 1));
        let m = line_col(cs, i).0 - line_col(cs, s).0;
        assert(lines_from(cs, s)[m] == lines_from(cs, k + 1)[m - 1]);
    }
}

/// The lines follow the lexer's line and column numbering: every character
/// stands in the line that `source_lines` lists under its line number (counted
/// from 1, empty lines included), at its column. Only the `'\n'` line breaks
/// and a `'\r'` just before one are not part of any line.
pub proof fn law_lines_follow_positions(cs: Seq<char>, i: int)
    requires
        0 <= i < cs.len(),
        cs[i] != '\n',
        !(cs[i] == '\r' && i + 1 < cs.len() && cs[i + 1] == '\n'),
    ensures
        1 <= line_col(cs, i).0 <= source_lines(cs).len(),
        1 <= line_col(cs, i).1 <= source_lines(cs)[line_col(cs, i).0 - 1].len(),
        source_lines(cs)[line_col(cs, i).0 - 1][line_col(cs, i).1 - 1] == cs[i],
{
    lemma_line_col_bound(cs, i);
    lemma_lines_from_positions(cs, 0, i);
}

/// The report for an error at the character with index `i`, at the span the
/// lexer gives that character, shows the line that holds the character, with
/// the caret right under it.
pub proof fn law_report_points_at_character(cs: Seq<char>, i: int, msg: Seq<char>)
    requires
        0 <= i < cs.len() < usize::MAX,
        cs[i] != '\n',
        !(cs[i] == '\r' && i + 1 < cs.len() && cs[i + 1] == '\n'),
    ensures
        ({
            let (l, c) = line_col(cs, i);
            let line = source_lines(cs)[l - 1];
            &&& rendered(cs, span_at(cs, i, i + 1), msg) == msg + " at "@ + decimal(l) + ":"@ + decimal(c) + "\n"@
                + line + "\n"@ + Seq::new((c - 1) as nat, |_j: int| ' ') + "^"@
            &&& line[c - 1] == cs[i]
        }),
{
    lemma_line_col_bound(cs, i);
    law_lines_follow_positions(cs, i);
    let p = pos_at(cs, i);
    assert(p.line as nat == line_col(cs, i).0);
    assert(p.col as nat == line_col(cs, i).1);
}

/// The number of `'\n'` in `cs` from index `i` on.
pub open spec fn newlines_from(cs: Seq<char>, i: int) -> nat
    decreases cs.len() - i,
{
    if i < 0 || i >= cs.len() {
        0
    } else {
        (if cs[i] == '\n' { 1nat } else { 0nat }) + newlines_from(cs, i + 1)
    }
}

proof fn lemma_newlines_skip(cs: Seq<char>, j: int, k: int)
    requires
        0 <= j <= k <= cs.len(),
        forall|m: int| j <= m < k ==> cs[m] != '\n',
    ensures
        newlines_from(cs, j) == newlines_from(cs, k),
    decreases k - j,
{
    if j < k {
        lemma_newlines_skip(cs, j + 1, k);
    }
}

proof fn lemma_line_count_from(cs: Seq<char>, s: int)
    requires
        0 <= s <= cs.len(),
    ensures
        lines_from(cs, s).len() == newlines_from(cs, s)
            + (if s < cs.len() && cs.last() != '\n' { 1nat } else { 0nat }),
    decreases cs.len() - s,
{
    if s < cs.len() {
        lemma_first_newline(cs, s);
        let k = first_newline(cs, s);
        lemma_newlines_skip(cs, s, k);
        if k < cs.len() {
            lemma_line_count_from(cs, k + 1);
            assert(lines_from(cs, s) == seq![strip_cr(cs.subrange(s, k))] + lines_from(cs, k + 1));
        } else {
            assert(cs[cs.len() - 1] != '\n');
        }
    }
}

/// A text has one line per `'\n'` it contains, and one more when it does
/// not end with a `'\n'` (and is not empty); empty lines count like any other.
pub proof fn law_line_count(cs: Seq<char>)
    ensures
        source_lines(cs).len() == newlines_from(cs, 0)
            + (if cs.len() > 0 && cs.last() != '\n' { 1nat } else { 0nat }),
{
    lemma_line_count_from(cs, 0);
}

/// Formats `message` at `span`, showing the source line with a caret pointing at the column.
pub fn render_error_with_source(src: &str, span: Span, message: &str) -> (r: String)
    ensures
        r@ == rendered(src@, span, message@),
{
    // the characters of the source
    let n = src.unicode_len();
    let mut cs: Vec<char> = Vec::new();
    for i in 0..n
        invariant
            n == src@.len(),
            cs@ == src@.take(i as int),
    {
        cs.push(src.get_char(i));
        assert(cs@ =~= src@.take(i + 1));
    }
    assert(cs@ =~= src@);
    let ghost t = cs@;
    let line_idx = span.start.line.saturating_sub(1);
    // find where line number `line_idx` (counted from 0) starts
    let mut start: usize = 0;
    let mut k: usize = 0;
    let ghost mut skipped: Seq<Seq<char>> = seq![];
    while k < line_idx && start < n
        invariant
            t == cs@,
            n == t.len(),
            start <= n,
            skipped.len() == k,
            k <= line_idx,
            source_lines(t) == skipped + lines_from(t, start as int),
        decreases n - start,
    {
        let ghost s0 = start as int;
        let mut p = start;
        while p < n && cs[p] != '\n'
            invariant
                t == cs@,
                n == t.len(),
                s0 <= p <= n,
                first_newline(t, p as int) == first_newline(t, s0),
            decreases n - p,
        {
            p += 1;
        }
        proof {
            lemma_first_newline(t, s0);
            let line = if p < n { strip_cr(t.subrange(s0, p as int)) } else { t.subrange(s0, n as int) };
            assert(lines_from(t, s0) == seq![line] + lines_from(t, if p < n { p + 1 } else { n as int }));
            assert(skipped + lines_from(t, s0) =~= skipped.push(line) + lines_from(t, if p < n { p + 1 } else { n as int }));
            skipped = skipped.push(line);
        }
        start = if p < n { p + 1 } else { n };
        k += 1;
    }
    let mut out = String::new();
    push_str(&mut out, message);
    push_str(&mut out, " at ");
    push_decimal(&mut out, span.start.line);
    push_str(&mut out, ":");
    push_decimal(&mut out, span.start.col);
    if k < line_idx || start >= n {
        proof {
            assert(lines_from(t, start as int) =~= Seq::<Seq<char>>::empty());
            assert(source_lines(t).len() == k);
            assert(out@ =~= rendered(src@, span, message@));
        }
        return out;
    }
    // the line itself, without its line ending
    let mut p = start;
    while p < n && cs[p] != '\n'
        invariant
            t == cs@,
            n == t.len(),
            start <= p <= n,
            first_newline(t, p as int) == first_newline(t, start as int),
        decreases n - p,
    {
        p += 1;
    }
    let mut end = p;
    if p < n && end > start && cs[end - 1] == '\r' {
        end = end - 1;
    }
    push_str(&mut out, "\n");
    let ghost before_line = out@;
    let mut q = start;
    while q < end
        invariant
            t == cs@,
            start <= q <= end <= n,
            n == t.len(),
            out@ == before_line + t.subrange(start as int, q as int),
        decreases end - q,
    {
        push_char(&mut out, cs[q]);
        q += 1;
        assert(out@ =~= before_line + t.subrange(start as int, q as int));
    }
    push_str(&mut out, "\n");
    push_repeat(&mut out, ' ', span.start.col.saturating_sub(1));
    push_str(&mut out, "^");
    proof {
        lemma_first_newline(t, start as int);
        let line = if p < n { strip_cr(t.subrange(start as int, p as int)) } else { t.subrange(start as int, n as int) };
        assert(source_lines(t)[k as int] == line);
        assert(t.subrange(start as int, end as int) =~= line);
        assert(out@ =~= rendered(src@, span, message@));
    }
    out
}

} // verus!
