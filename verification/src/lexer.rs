//! The lexer: source text to tokens, with line/column/byte positions.
use vstd::prelude::*;
use vstd::utf8::*;
use vstd::string::*;
use crate::span::{Pos, Span};
use crate::text::{white_space, is_digit, is_ident_start, is_ident_continue, is_whitespace, push_char, push_str, exec_is_digit, is_identifier_start, is_identifier_continue};
use crate::token::{TokenKind, SpecTokenKind, Token, SpecToken, LexError, SpecLexError, tokens_view};

verus! {

// ------------------------------------------------------------------
// Positions
// ------------------------------------------------------------------

/// Number of bytes in the UTF-8 encoding of `c`.
pub open spec fn utf8_width(c: char) -> nat {
    if (c as u32) < 0x80 {
        1
    } else if (c as u32) < 0x800 {
        2
    } else if (c as u32) < 0x10000 {
        3
    } else {
        4
    }
}

/// Number of bytes in the UTF-8 encoding of `cs`.
pub open spec fn utf8_len(cs: Seq<char>) -> nat
    decreases cs.len(),
{
    if cs.len() == 0 {
        0
    } else {
        utf8_width(cs[0]) + utf8_len(cs.drop_first())
    }
}

pub proof fn lemma_utf8_len_append(a: Seq<char>, b: Seq<char>)
    ensures
        utf8_len(a + b) == utf8_len(a) + utf8_len(b),
    decreases a.len(),
{
    if a.len() > 0 {
        assert((a + b).drop_first() =~= a.drop_first() + b);
        lemma_utf8_len_append(a.drop_first(), b);
    } else {
        assert(a + b =~= b);
    }
}

pub proof fn lemma_utf8_len_encode(cs: Seq<char>)
    ensures
        utf8_len(cs) == encode_utf8(cs).len(),
    decreases cs.len(),
{
    if cs.len() > 0 {
        lemma_utf8_len_encode(cs.drop_first());
        lemma_encode_scalar_len(cs[0]);
    }
}

pub proof fn lemma_encode_scalar_len(c: char)
    ensures
        encode_scalar(c as u32).len() == utf8_width(c),
{
}

pub proof fn lemma_utf8_len_single(c: char)
    ensures
        utf8_len(seq![c]) == utf8_width(c),
{
    assert(seq![c].drop_first() =~= Seq::<char>::empty());
    assert(utf8_len(Seq::<char>::empty()) == 0);
}

/// Line and column (both counted from 1) of the character at index `i`.
pub open spec fn line_col(cs: Seq<char>, i: int) -> (nat, nat)
    decreases i,
{
    if i <= 0 {
        (1, 1)
    } else {
        let (l, c) = line_col(cs, i - 1);
        if cs[i - 1] == '\n' {
            (l + 1, 1)
        } else {
            (l, c + 1)
        }
    }
}

pub proof fn lemma_line_col_bound(cs: Seq<char>, i: int)
    requires
        0 <= i,
    ensures
        1 <= line_col(cs, i).0 <= i + 1,
        1 <= line_col(cs, i).1 <= i + 1,
    decreases i,
{
    if i > 0 {
        lemma_line_col_bound(cs, i - 1);
    }
}

/// The position of the character at index `i` of `cs`.
pub open spec fn pos_at(cs: Seq<char>, i: int) -> Pos {
    Pos {
        offset: utf8_len(cs.take(i)) as usize,
        line: line_col(cs, i).0 as usize,
        col: line_col(cs, i).1 as usize,
    }
}

/// The span from character index `a` to character index `b`.
pub open spec fn span_at(cs: Seq<char>, a: int, b: int) -> Span {
    Span { start: pos_at(cs, a), end: pos_at(cs, b) }
}

// ------------------------------------------------------------------
// Whitespace and comments
// ------------------------------------------------------------------

/// The index just past the first newline at or after `i`, or the end of `cs`.
pub open spec fn line_comment_end(cs: Seq<char>, i: int) -> int
    decreases cs.len() - i,
{
    if i >= cs.len() {
        cs.len() as int
    } else if cs[i] == '\n' {
        i + 1
    } else {
        line_comment_end(cs, i + 1)
    }
}

/// The index just past the first `*/` at or after `i`, if there is one.
pub open spec fn block_comment_end(cs: Seq<char>, i: int) -> Option<int>
    decreases cs.len() - i,
{
    if i >= cs.len() {
        None
    } else if i + 1 < cs.len() && cs[i] == '*' && cs[i + 1] == '/' {
        Some(i + 2)
    } else {
        block_comment_end(cs, i + 1)
    }
}

pub proof fn lemma_line_comment_end(cs: Seq<char>, i: int)
    requires
        0 <= i <= cs.len(),
    ensures
        i <= line_comment_end(cs, i) <= cs.len(),
        i < cs.len() ==> i < line_comment_end(cs, i),
    decreases cs.len() - i,
{
    if i < cs.len() && cs[i] != '\n' {
        lemma_line_comment_end(cs, i + 1);
    }
}

pub proof fn lemma_block_comment_end(cs: Seq<char>, i: int)
    requires
        0 <= i,
    ensures
        block_comment_end(cs, i) matches Some(k) ==> i + 2 <= k <= cs.len(),
    decreases cs.len() - i,
{
    if i < cs.len() && !(i + 1 < cs.len() && cs[i] == '*' && cs[i + 1] == '/') {
        lemma_block_comment_end(cs, i + 1);
    }
}

/// The index of the first character at or after `i` that is neither whitespace
/// nor part of a `//` line comment or a `/* */` block comment. An unterminated
/// block comment runs to the end of the text.
pub open spec fn skip_trivia(cs: Seq<char>, i: int) -> int
    decreases cs.len() - i,
{
    if i < 0 || i >= cs.len() {
        i
    } else if white_space(cs[i]) {
        skip_trivia(cs, i + 1)
    } else if i + 1 < cs.len() && cs[i] == '/' && cs[i + 1] == '/' {
        proof {
            lemma_line_comment_end(cs, i);
        }
        skip_trivia(cs, line_comment_end(cs, i))
    } else if i + 1 < cs.len() && cs[i] == '/' && cs[i + 1] == '*' {
        proof {
            lemma_block_comment_end(cs, i + 2);
        }
        match block_comment_end(cs, i + 2) {
            Some(k) => skip_trivia(cs, k),
            None => cs.len() as int,
        }
    } else {
        i
    }
}

pub proof fn lemma_skip_trivia(cs: Seq<char>, i: int)
    requires
        0 <= i <= cs.len(),
    ensures
        i <= skip_trivia(cs, i) <= cs.len(),
        skip_trivia(cs, skip_trivia(cs, i)) == skip_trivia(cs, i),
    decreases cs.len() - i,
{
    if i < cs.len() {
        if white_space(cs[i]) {
            lemma_skip_trivia(cs, i + 1);
        } else if i + 1 < cs.len() && cs[i] == '/' && cs[i + 1] == '/' {
            lemma_line_comment_end(cs, i);
            lemma_skip_trivia(cs, line_comment_end(cs, i));
        } else if i + 1 < cs.len() && cs[i] == '/' && cs[i + 1] == '*' {
            lemma_block_comment_end(cs, i + 2);
            if let Some(k) = block_comment_end(cs, i + 2) {
                lemma_skip_trivia(cs, k);
            }
        }
    }
}

// ------------------------------------------------------------------
// Tokens
// ------------------------------------------------------------------

/// The kind of a token written as the single character `c`, if it is one.
pub open spec fn single_char_kind(c: char) -> Option<SpecTokenKind> {
    if c == '+' {
        Some(SpecTokenKind::Plus)
    } else if c == '-' {
        Some(SpecTokenKind::Minus)
    } else if c == '*' {
        Some(SpecTokenKind::Star)
    } else if c == '/' {
        Some(SpecTokenKind::Slash)
    } else if c == '%' {
        Some(SpecTokenKind::Percent)
    } else if c == '^' {
        Some(SpecTokenKind::Caret)
    } else if c == '(' {
        Some(SpecTokenKind::LParen)
    } else if c == ')' {
        Some(SpecTokenKind::RParen)
    } else if c == '{' {
        Some(SpecTokenKind::LBrace)
    } else if c == '}' {
        Some(SpecTokenKind::RBrace)
    } else if c == ',' {
        Some(SpecTokenKind::Comma)
    } else if c == ';' {
        Some(SpecTokenKind::Semicolon)
    } else if c == '=' {
        Some(SpecTokenKind::Assign)
    } else {
        None
    }
}

/// End of a number literal scanned from `i`: digits, and at most one `.` in total.
pub open spec fn number_end(cs: Seq<char>, i: int, seen_dot: bool) -> int
    decreases cs.len() - i,
{
    if i < 0 || i >= cs.len() {
        i
    } else if is_digit(cs[i]) {
        number_end(cs, i + 1, seen_dot)
    } else if cs[i] == '.' && !seen_dot {
        number_end(cs, i + 1, true)
    } else {
        i
    }
}

/// End of the run of identifier characters that starts at `i`.
pub open spec fn ident_end(cs: Seq<char>, i: int) -> int
    decreases cs.len() - i,
{
    if i < 0 || i >= cs.len() {
        i
    } else if is_ident_continue(cs[i]) {
        ident_end(cs, i + 1)
    } else {
        i
    }
}

pub proof fn lemma_number_end(cs: Seq<char>, i: int, seen_dot: bool)
    requires
        0 <= i <= cs.len(),
    ensures
        i <= number_end(cs, i, seen_dot) <= cs.len(),
    decreases cs.len() - i,
{
    if i < cs.len() {
        if is_digit(cs[i]) {
            lemma_number_end(cs, i + 1, seen_dot);
        } else if cs[i] == '.' && !seen_dot {
            lemma_number_end(cs, i + 1, true);
        }
    }
}

pub proof fn lemma_ident_end(cs: Seq<char>, i: int)
    requires
        0 <= i <= cs.len(),
    ensures
        i <= ident_end(cs, i) <= cs.len(),
    decreases cs.len() - i,
{
    if i < cs.len() && is_ident_continue(cs[i]) {
        lemma_ident_end(cs, i + 1);
    }
}

/// Whether a number literal starts at index `i`: a digit, or a `.` followed by a digit.
pub open spec fn starts_number(cs: Seq<char>, i: int) -> bool {
    is_digit(cs[i]) || (cs[i] == '.' && i + 1 < cs.len() && is_digit(cs[i + 1]))
}

/// The token that starts at index `i` (a character that is not trivia) and the
/// index where it ends; `None` when no token starts with that character.
pub open spec fn scan_token(cs: Seq<char>, i: int) -> Option<(SpecTokenKind, int)> {
    match single_char_kind(cs[i]) {
        Some(k) => Some((k, i + 1)),
        None => if starts_number(cs, i) {
            let e = number_end(cs, i, false);
            Some((SpecTokenKind::Number(cs.subrange(i, e)), e))
        } else if is_ident_start(cs[i]) {
            let e = ident_end(cs, i);
            let text = cs.subrange(i, e);
            if text =~= seq!['l', 'e', 't'] {
                Some((SpecTokenKind::Let, e))
            } else {
                Some((SpecTokenKind::Identifier(text), e))
            }
        } else {
            None
        },
    }
}

pub proof fn lemma_scan_token(cs: Seq<char>, i: int)
    requires
        0 <= i < cs.len(),
    ensures
        scan_token(cs, i) matches Some((_, e)) ==> i < e <= cs.len(),
{
    if single_char_kind(cs[i]) is None {
        if starts_number(cs, i) {
            if is_digit(cs[i]) {
                lemma_number_end(cs, i + 1, false);
            } else {
                lemma_number_end(cs, i + 1, true);
            }
        } else if is_ident_start(cs[i]) {
            lemma_ident_end(cs, i + 1);
        }
    }
}

/// The message for a character that starts no token.
pub open spec fn unexpected_char_msg(c: char) -> Seq<char> {
    "unexpected character '"@.push(c) + "'"@
}

/// Lexing `cs` from index `i`: the tokens up to and including the final `Eof`
/// (whose span is empty and sits at the end of the text), or the error for the
/// first character that starts no token.
pub open spec fn lex_from(cs: Seq<char>, i: int) -> Result<Seq<SpecToken>, SpecLexError>
    decreases cs.len() - i,
{
    if i < 0 || i > cs.len() {
        Ok(seq![SpecToken { kind: SpecTokenKind::Eof, span: span_at(cs, cs.len() as int, cs.len() as int) }])
    } else {
        let j = skip_trivia(cs, i);
        if j >= cs.len() {
            Ok(seq![SpecToken { kind: SpecTokenKind::Eof, span: span_at(cs, cs.len() as int, cs.len() as int) }])
        } else {
            proof {
                lemma_skip_trivia(cs, i);
                lemma_scan_token(cs, j);
            }
            match scan_token(cs, j) {
                None => Err(SpecLexError { span: span_at(cs, j, j + 1), msg: unexpected_char_msg(cs[j]) }),
                Some((k, e)) => match lex_from(cs, e) {
                    Ok(rest) => Ok(seq![SpecToken { kind: k, span: span_at(cs, j, e) }] + rest),
                    Err(err) => Err(err),
                },
            }
        }
    }
}

/// Where lexing from `i` leaves the lexer: the end of the text after success, or
/// the offending character after an error.
pub open spec fn lex_stop(cs: Seq<char>, i: int) -> int
    decreases cs.len() - i,
{
    if i < 0 || i > cs.len() {
        cs.len() as int
    } else {
        let j = skip_trivia(cs, i);
        if j >= cs.len() {
            cs.len() as int
        } else {
            proof {
                lemma_skip_trivia(cs, i);
                lemma_scan_token(cs, j);
            }
            match scan_token(cs, j) {
                None => j,
                Some((_, e)) => lex_stop(cs, e),
            }
        }
    }
}

/// The model of a lexing result.
pub open spec fn lex_result_view(r: Result<Vec<Token>, LexError>) -> Result<Seq<SpecToken>, SpecLexError> {
    match r {
        Ok(ts) => Ok(tokens_view(ts@)),
        Err(e) => Err(e@),
    }
}

/// `pre` followed by the tokens of `r`, or the error of `r`.
pub open spec fn prepend_tokens(pre: Seq<SpecToken>, r: Result<Seq<SpecToken>, SpecLexError>) -> Result<Seq<SpecToken>, SpecLexError> {
    match r {
        Ok(rest) => Ok(pre + rest),
        Err(e) => Err(e),
    }
}

// ------------------------------------------------------------------
// The lexer
// ------------------------------------------------------------------

/// Produces tokens from source text character by character, tracking line and column.
pub struct Lexer<'a> {
    src: &'a str,
    chars: Vec<char>,
    idx: usize,
    byte_offsets: Vec<usize>,
}

impl<'a> Lexer<'a> {
    /// The characters of the source.
    pub closed spec fn text(&self) -> Seq<char> {
        self.chars@
    }

    /// The index of the next character to read.
    pub closed spec fn pos(&self) -> int {
        self.idx as int
    }

    /// The source the lexer was made from.
    pub closed spec fn source(&self) -> &'a str {
        self.src
    }

    /// The characters are those of the source, with their byte offsets, and
    /// the position is within them.
    #[verifier::type_invariant]
    pub closed spec fn wf(&self) -> bool {
        &&& self.chars@ == self.src@
        &&& self.chars.len() < usize::MAX
        &&& self.idx <= self.chars.len()
        &&& self.byte_offsets.len() == self.chars.len() + 1
        &&& forall|i: int|
            0 <= i <= self.chars.len() ==> #[trigger] self.byte_offsets@[i] == utf8_len(
                self.chars@.take(i),
            )
    }

    pub fn new(src: &'a str) -> (l: Self)
        requires
            src@.len() < usize::MAX,
        ensures
            l.text() == src@,
            l.pos() == 0,
            l.source() == src,
    {
        let n = src.unicode_len();
        let byte_len = src.as_bytes().len();
        assert(src.spec_bytes().len() == byte_len);
        let mut chars: Vec<char> = Vec::new();
        let mut byte_offsets: Vec<usize> = Vec::new();
        let mut off: usize = 0;
        proof {
            lemma_utf8_len_encode(src@);
        }
        for i in 0..n
            invariant
                n == src@.len(),
                chars@ == src@.take(i as int),
                byte_offsets.len() == i,
                off == utf8_len(src@.take(i as int)),
                src.spec_bytes().len() == utf8_len(src@),
                src.spec_bytes().len() <= usize::MAX,
                forall|k: int| 0 <= k < i ==> #[trigger] byte_offsets@[k] == utf8_len(src@.take(k)),
        {
            let c = src.get_char(i);
            chars.push(c);
            byte_offsets.push(off);
            let w: usize = if (c as u32) < 0x80 {
                1
            } else if (c as u32) < 0x800 {
                2
            } else if (c as u32) < 0x10000 {
                3
            } else {
                4
            };
            proof {
                assert(src@.take(i + 1) =~= src@.take(i as int) + seq![c]);
                lemma_utf8_len_append(src@.take(i as int), seq![c]);
                assert(src@ =~= src@.take(i + 1) + src@.skip(i + 1));
                lemma_utf8_len_append(src@.take(i + 1), src@.skip(i + 1));
                lemma_utf8_len_single(c);
            }
            off = off + w;
        }
        byte_offsets.push(byte_len);
        proof {
            assert(src@.take(n as int) =~= src@);
            assert forall|k: int| 0 <= k <= chars.len() implies #[trigger] byte_offsets@[k] == utf8_len(
                chars@.take(k),
            ) by {
                assert(chars@.take(k) =~= src@.take(k));
            }
        }
        Lexer { src, chars, idx: 0, byte_offsets }
    }

    fn is_at_end(&self) -> (r: bool)
        requires
            self.wf(),
        ensures
            r == (self.idx >= self.chars.len()),
    {
        self.idx >= self.chars.len()
    }

    fn current_char(&self) -> (r: Option<char>)
        requires
            self.wf(),
        ensures
            r == if self.idx < self.chars.len() {
                Some(self.chars@[self.idx as int])
            } else {
                None::<char>
            },
    {
        if self.idx < self.chars.len() {
            Some(self.chars[self.idx])
        } else {
            None
        }
    }

    fn peek_char(&self) -> (r: Option<char>)
        requires
            self.wf(),
        ensures
            r == if self.idx + 1 < self.chars.len() {
                Some(self.chars@[self.idx + 1])
            } else {
                None::<char>
            },
    {
        if self.idx + 1 < self.chars.len() {
            Some(self.chars[self.idx + 1])
        } else {
            None
        }
    }

    /// Consumes the current character, if any, and returns it.
    fn bump(&mut self) -> (r: Option<char>)
        requires
            old(self).wf(),
        ensures
            final(self).wf(),
            final(self).chars == old(self).chars,
            final(self).src == old(self).src,
            final(self).byte_offsets == old(self).byte_offsets,
            r == if old(self).idx < old(self).chars.len() {
                Some(old(self).chars@[old(self).idx as int])
            } else {
                None::<char>
            },
            final(self).idx == if old(self).idx < old(self).chars.len() {
                old(self).idx + 1
            } else {
                old(self).idx as int
            },
    {
        let ch = self.current_char();
        if ch.is_some() {
            self.idx += 1;
        }
        ch
    }

    fn make_pos(&self, char_index: usize) -> (p: Pos)
        requires
            self.wf(),
            char_index <= self.chars.len(),
        ensures
            p == pos_at(self.chars@, char_index as int),
    {
        let mut line: usize = 1;
        let mut col: usize = 1;
        for i in 0..char_index
            invariant
                self.wf(),
                char_index <= self.chars.len(),
                (line as nat, col as nat) == line_col(self.chars@, i as int),
        {
            proof {
                lemma_line_col_bound(self.chars@, i as int);
            }
            if self.chars[i] == '\n' {
                line += 1;
                col = 1;
            } else {
                col += 1;
            }
        }
        let offset = self.byte_offsets[char_index];
        Pos::new(offset, line, col)
    }

    fn make_span_from_char_indices(&self, start: usize, end: usize) -> (s: Span)
        requires
            self.wf(),
            start <= self.chars.len(),
            end <= self.chars.len(),
        ensures
            s == span_at(self.chars@, start as int, end as int),
    {
        let s = self.make_pos(start);
        let e = self.make_pos(end);
        Span::new(s, e)
    }

    /// The characters from index `a` to index `b`, as a string.
    fn text_between(&self, a: usize, b: usize) -> (s: String)
        requires
            self.wf(),
            a <= b <= self.chars.len(),
        ensures
            s@ == self.chars@.subrange(a as int, b as int),
    {
        let mut s = String::new();
        let mut k = a;
        while k < b
            invariant
                self.wf(),
                a <= k <= b <= self.chars.len(),
                s@ == self.chars@.subrange(a as int, k as int),
            decreases b - k,
        {
            push_char(&mut s, self.chars[k]);
            k = k + 1;
            assert(s@ =~= self.chars@.subrange(a as int, k as int));
        }
        s
    }

    fn skip_whitespace_and_comments(&mut self)
        requires
            old(self).wf(),
        ensures
            final(self).wf(),
            final(self).chars == old(self).chars,
            final(self).src == old(self).src,
            final(self).byte_offsets == old(self).byte_offsets,
            final(self).idx == skip_trivia(old(self).chars@, old(self).idx as int),
    {
        let ghost cs = self.chars@;
        let ghost target = skip_trivia(cs, self.idx as int);
        let n = self.chars.len();
        loop
            invariant
                self.wf(),
                self.chars == old(self).chars,
                self.src == old(self).src,
                self.byte_offsets == old(self).byte_offsets,
                cs == self.chars@,
                n == cs.len(),
                skip_trivia(cs, self.idx as int) == target,
            ensures
                self.wf(),
                self.chars == old(self).chars,
                self.src == old(self).src,
                self.byte_offsets == old(self).byte_offsets,
                self.idx == target,
            decreases n - self.idx,
        {
            let ghost iter_start = self.idx;
            // whitespace
            while self.current_char().is_some() && is_whitespace(self.chars[self.idx])
                invariant
                    iter_start <= self.idx,
                    self.wf(),
                    self.chars == old(self).chars,
                    self.src == old(self).src,
                    self.byte_offsets == old(self).byte_offsets,
                    cs == self.chars@,
                    n == cs.len(),
                    skip_trivia(cs, self.idx as int) == target,
                decreases n - self.idx,
            {
                self.bump();
            }
            let i = self.idx;
            if self.current_char() == Some('/') && self.peek_char() == Some('/') {
                // a line comment runs up to and including the next newline
                proof {
                    lemma_line_comment_end(cs, i as int);
                }
                let ghost stop = line_comment_end(cs, i as int);
                let mut done = false;
                while !done && self.idx < n
                    invariant
                        self.wf(),
                        self.chars == old(self).chars,
                        self.src == old(self).src,
                        self.byte_offsets == old(self).byte_offsets,
                        cs == self.chars@,
                        n == cs.len(),
                        i <= self.idx,
                        iter_start <= i,
                        i + 1 < n,
                        i < stop,
                        done ==> self.idx == stop,
                        !done ==> line_comment_end(cs, self.idx as int) == stop,
                    decreases n - self.idx,
                {
                    if self.bump() == Some('\n') {
                        done = true;
                    }
                }
                continue;
            } else if self.current_char() == Some('/') && self.peek_char() == Some('*') {
                // a block comment runs up to and including the next `*/`
                self.bump();
                self.bump();
                let ghost stop = block_comment_end(cs, i + 2);
                proof {
                    lemma_block_comment_end(cs, i + 2);
                }
                let mut closed = false;
                while !closed && self.idx < n
                    invariant
                        self.wf(),
                        self.chars == old(self).chars,
                        self.src == old(self).src,
                        self.byte_offsets == old(self).byte_offsets,
                        cs == self.chars@,
                        n == cs.len(),
                        i + 2 <= self.idx,
                        iter_start <= i,
                        closed ==> stop == Some(self.idx as int),
                        !closed ==> block_comment_end(cs, self.idx as int) == stop,
                    decreases n - self.idx,
                {
                    if self.current_char() == Some('*') && self.peek_char() == Some('/') {
                        self.bump();
                        self.bump();
                        closed = true;
                    } else {
                        self.bump();
                    }
                }
                if !closed {
                    break;
                }
                continue;
            }
            break;
        }
    }

    /// Turns the rest of the source into tokens, ending with `Eof`.
    pub fn tokenize(&mut self) -> (r: Result<Vec<Token>, LexError>)
        ensures
            final(self).text() == old(self).text(),
            final(self).source() == old(self).source(),
            final(self).pos() == lex_stop(old(self).text(), old(self).pos()),
            lex_result_view(r) == lex_from(old(self).text(), old(self).pos()),
    {
        proof {
            use_type_invariant(&*self);
        }
        let ghost cs = self.chars@;
        let ghost start = self.idx as int;
        let n = self.chars.len();
        let mut toks: Vec<Token> = Vec::new();
        while !self.is_at_end()
            invariant
                self.wf(),
                self.chars == old(self).chars,
                self.src == old(self).src,
                self.byte_offsets == old(self).byte_offsets,
                cs == self.chars@,
                n == cs.len(),
                start == old(self).idx,
                lex_from(cs, start) == prepend_tokens(tokens_view(toks@), lex_from(cs, self.idx as int)),
                lex_stop(cs, start) == lex_stop(cs, self.idx as int),
            ensures
                self.wf(),
                self.chars == old(self).chars,
                self.src == old(self).src,
                self.byte_offsets == old(self).byte_offsets,
                self.idx == n,
                lex_from(cs, start) == prepend_tokens(tokens_view(toks@), lex_from(cs, self.idx as int)),
                lex_stop(cs, start) == lex_stop(cs, self.idx as int),
            decreases n - self.idx,
        {
            let ghost before = self.idx as int;
            self.skip_whitespace_and_comments();
            proof {
                lemma_skip_trivia(cs, before);
            }
            if self.is_at_end() {
                break;
            }
            let start_idx = self.idx;
            let ch = self.chars[start_idx];
            proof {
                lemma_scan_token(cs, start_idx as int);
            }
            let kind = if let Some(k) = single_char_token(ch) {
                self.bump();
                k
            } else if exec_is_digit(ch) || (ch == '.' && match self.peek_char() {
                Some(p) => exec_is_digit(p),
                None => false,
            }) {
                // number literal: digits with at most one dot
                let mut seen_dot = false;
                proof {
                    assert(number_end(cs, start_idx as int, false) == number_end(cs, self.idx as int, seen_dot));
                }
                while self.idx < n && (exec_is_digit(self.chars[self.idx]) || (self.chars[self.idx] == '.' && !seen_dot))
                    invariant
                        self.wf(),
                        self.chars == old(self).chars,
                        self.src == old(self).src,
                        self.byte_offsets == old(self).byte_offsets,
                        cs == self.chars@,
                        n == cs.len(),
                        start_idx <= self.idx <= n,
                        number_end(cs, start_idx as int, false) == number_end(cs, self.idx as int, seen_dot),
                    decreases n - self.idx,
                {
                    if self.chars[self.idx] == '.' {
                        seen_dot = true;
                    }
                    self.bump();
                }
                TokenKind::Number(self.text_between(start_idx, self.idx))
            } else if is_identifier_start(ch) {
                // identifier or keyword
                while self.idx < n && is_identifier_continue(self.chars[self.idx])
                    invariant
                        self.wf(),
                        self.chars == old(self).chars,
                        self.src == old(self).src,
                        self.byte_offsets == old(self).byte_offsets,
                        cs == self.chars@,
                        n == cs.len(),
                        start_idx <= self.idx <= n,
                        ident_end(cs, start_idx as int) == ident_end(cs, self.idx as int),
                    decreases n - self.idx,
                {
                    self.bump();
                }
                let end = self.idx;
                if end - start_idx == 3 && self.chars[start_idx] == 'l' && self.chars[start_idx + 1] == 'e'
                    && self.chars[start_idx + 2] == 't' {
                    assert(cs.subrange(start_idx as int, end as int) =~= seq!['l', 'e', 't']);
                    TokenKind::Let
                } else {
                    let text = self.text_between(start_idx, end);
                    TokenKind::Identifier(text)
                }
            } else {
                let span = self.make_span_from_char_indices(start_idx, start_idx + 1);
                let mut msg = String::new();
                push_str(&mut msg, "unexpected character '");
                push_char(&mut msg, ch);
                push_str(&mut msg, "'");
                let e = LexError { span, msg };
                proof {
                    assert(Seq::<char>::empty() + "unexpected character '"@ =~= "unexpected character '"@);
                    assert(scan_token(cs, start_idx as int) is None);
                    assert(lex_from(cs, before) == Err::<Seq<SpecToken>, SpecLexError>(e@));
                    assert(lex_stop(cs, before) == start_idx);
                }
                return Err(e);
            };
            let span = self.make_span_from_char_indices(start_idx, self.idx);
            let tok = Token::simple(kind, span);
            let ghost old_toks = toks@;
            toks.push(tok);
            proof {
                assert(tokens_view(toks@) =~= tokens_view(old_toks) + seq![tok@]);
                assert(scan_token(cs, start_idx as int) == Some((tok.kind@, self.idx as int)));
                let rest = lex_from(cs, self.idx as int);
                assert(lex_from(cs, start_idx as int) == prepend_tokens(seq![tok@], rest));
                match rest {
                    Ok(r) => {
                        assert(tokens_view(old_toks) + (seq![tok@] + r) =~= tokens_view(toks@) + r);
                    },
                    Err(_) => {},
                }
            }
        }
        let eof_pos = self.make_pos(n);
        let eof_span = Span::new(eof_pos, eof_pos);
        let ghost old_toks = toks@;
        toks.push(Token::simple(TokenKind::Eof, eof_span));
        proof {
            assert(tokens_view(toks@) =~= tokens_view(old_toks) + seq![
                SpecToken { kind: SpecTokenKind::Eof, span: span_at(cs, n as int, n as int) },
            ]);
        }
        Ok(toks)
    }
}

/// The token kind for a single-character token, if `c` is one.
fn single_char_token(c: char) -> (r: Option<TokenKind>)
    ensures
        match r {
            Some(k) => single_char_kind(c) == Some(k@),
            None => single_char_kind(c) is None,
        },
{
    if c == '+' {
        Some(TokenKind::Plus)
    } else if c == '-' {
        Some(TokenKind::Minus)
    } else if c == '*' {
        Some(TokenKind::Star)
    } else if c == '/' {
        Some(TokenKind::Slash)
    } else if c == '%' {
        Some(TokenKind::Percent)
    } else if c == '^' {
        Some(TokenKind::Caret)
    } else if c == '(' {
        Some(TokenKind::LParen)
    } else if c == ')' {
        Some(TokenKind::RParen)
    } else if c == '{' {
        Some(TokenKind::LBrace)
    } else if c == '}' {
        Some(TokenKind::RBrace)
    } else if c == ',' {
        Some(TokenKind::Comma)
    } else if c == ';' {
        Some(TokenKind::Semicolon)
    } else if c == '=' {
        Some(TokenKind::Assign)
    } else {
        None
    }
}

// ------------------------------------------------------------------
// Laws
// ------------------------------------------------------------------

/// Whether `c` is an ASCII letter of either case, an ASCII digit or `_`.
pub open spec fn ascii_word_char(c: char) -> bool {
    ('a' <= c && c <= 'z') || ('A' <= c && c <= 'Z') || ('0' <= c && c <= '9') || c == '_'
}

proof fn lemma_ident_run(cs: Seq<char>, j: int, e: int)
    requires
        0 <= j <= e <= cs.len(),
        forall|k: int| j <= k < e ==> ascii_word_char(#[trigger] cs[k]),
        e == cs.len() || !ascii_word_char(cs[e]),
    ensures
        ident_end(cs, j) == e,
    decreases e - j,
{
    if j < e {
        assert(ascii_word_char(cs[j]));
        lemma_ident_run(cs, j + 1, e);
    }
}

/// A token that starts with an ASCII letter of either case or `_` is a name:
/// it runs over all the ASCII letters, digits and `_` that follow, and it is
/// the keyword `let` when it spells `let`, an identifier with that text otherwise.
pub proof fn law_names(cs: Seq<char>, i: int, e: int)
    requires
        0 <= i < e <= cs.len(),
        ('a' <= cs[i] && cs[i] <= 'z') || ('A' <= cs[i] && cs[i] <= 'Z') || cs[i] == '_',
        forall|k: int| i <= k < e ==> ascii_word_char(#[trigger] cs[k]),
        e == cs.len() || !ascii_word_char(cs[e]),
    ensures
        scan_token(cs, i) == Some((
            if cs.subrange(i, e) == seq!['l', 'e', 't'] {
                SpecTokenKind::Let
            } else {
                SpecTokenKind::Identifier(cs.subrange(i, e))
            },
            e,
        )),
{
    lemma_ident_run(cs, i, e);
    assert(single_char_kind(cs[i]) is None);
    assert(!starts_number(cs, i));
    if cs.subrange(i, e) =~= seq!['l', 'e', 't'] {
    } else {
        assert(!(cs.subrange(i, e) =~= seq!['l', 'e', 't']));
    }
}

/// No token starts with a character that is none of these: an ASCII letter,
/// digit or `_`, one of `+ - * / % ^ ( ) { } , ; =`, or a `.` followed by a digit.
pub proof fn law_no_token_start(cs: Seq<char>, i: int)
    requires
        0 <= i < cs.len(),
        !ascii_word_char(cs[i]),
        !seq!['+', '-', '*', '/', '%', '^', '(', ')', '{', '}', ',', ';', '='].contains(cs[i]),
        !(cs[i] == '.' && i + 1 < cs.len() && '0' <= cs[i + 1] && cs[i + 1] <= '9'),
    ensures
        scan_token(cs, i) is None,
{
    let ops = seq!['+', '-', '*', '/', '%', '^', '(', ')', '{', '}', ',', ';', '='];
    assert(ops[0] == '+' && ops[1] == '-' && ops[2] == '*' && ops[3] == '/' && ops[4] == '%');
    assert(ops[5] == '^' && ops[6] == '(' && ops[7] == ')' && ops[8] == '{' && ops[9] == '}');
    assert(ops[10] == ',' && ops[11] == ';' && ops[12] == '=');
}

/// Whitespace and comments before the next token do not change what is lexed:
/// lexing from `i` is lexing from the first character after them.
pub proof fn law_lex_skips_trivia(cs: Seq<char>, i: int)
    requires
        0 <= i <= cs.len(),
    ensures
        lex_from(cs, i) == lex_from(cs, skip_trivia(cs, i)),
        lex_stop(cs, i) == lex_stop(cs, skip_trivia(cs, i)),
{
    lemma_skip_trivia(cs, i);
}

/// A successful lexing ends with exactly one `Eof`, the last token, whose
/// span is empty and sits at the end of the text; the lexer then stands at the end.
pub proof fn law_lex_ends_with_eof(cs: Seq<char>, i: int)
    requires
        0 <= i <= cs.len(),
    ensures
        lex_from(cs, i) matches Ok(ts) ==> {
            &&& ts.len() > 0
            &&& ts.last().kind is Eof
            &&& ts.last().span == span_at(cs, cs.len() as int, cs.len() as int)
            &&& forall|j: int| 0 <= j < ts.len() - 1 ==> !(#[trigger] ts[j].kind is Eof)
            &&& lex_stop(cs, i) == cs.len()
        },
    decreases cs.len() - i,
{
    lemma_skip_trivia(cs, i);
    let j = skip_trivia(cs, i);
    if j < cs.len() {
        lemma_scan_token(cs, j);
        if let Some((k, e)) = scan_token(cs, j) {
            law_lex_ends_with_eof(cs, e);
            if let Ok(rest) = lex_from(cs, e) {
                let t = SpecToken { kind: k, span: span_at(cs, j, e) };
                let ts = seq![t] + rest;
                assert(!(k is Eof));
                assert(ts.last() == rest.last());
                assert forall|m: int| 0 <= m < ts.len() - 1 implies !(#[trigger] ts[m].kind is Eof) by {
                    if m > 0 {
                        assert(ts[m] == rest[m - 1]);
                    }
                }
            }
        }
    }
}

/// The byte offset of a position never decreases as the character index grows.
pub proof fn law_offsets_monotone(cs: Seq<char>, a: int, b: int)
    requires
        0 <= a <= b <= cs.len(),
    ensures
        utf8_len(cs.take(a)) <= utf8_len(cs.take(b)),
        utf8_len(cs.take(b)) <= utf8_len(cs),
{
    assert(cs.take(b) =~= cs.take(a) + cs.subrange(a, b));
    lemma_utf8_len_append(cs.take(a), cs.subrange(a, b));
    assert(cs =~= cs.take(b) + cs.skip(b));
    lemma_utf8_len_append(cs.take(b), cs.skip(b));
}

/// Tokens come in source order (for a text whose UTF-8 length fits in `usize`): each token's span starts no later than it
/// ends, and ends no later than the next token starts.
pub proof fn law_lex_spans_ordered(cs: Seq<char>, i: int)
    requires
        0 <= i <= cs.len(),
        utf8_len(cs) <= usize::MAX,
    ensures
        lex_from(cs, i) matches Ok(ts) ==> {
            &&& forall|j: int| 0 <= j < ts.len() ==> utf8_len(cs.take(i)) <= (#[trigger] ts[j]).span.start.offset
                <= ts[j].span.end.offset
            &&& forall|j: int| 0 <= j < ts.len() - 1 ==> (#[trigger] ts[j]).span.end.offset <= ts[j + 1].span.start.offset
        },
    decreases cs.len() - i,
{
    lemma_skip_trivia(cs, i);
    let j = skip_trivia(cs, i);
    law_offsets_monotone(cs, i, cs.len() as int);
    assert(cs.take(cs.len() as int) =~= cs);
    if j < cs.len() {
        lemma_scan_token(cs, j);
        if let Some((k, e)) = scan_token(cs, j) {
            law_lex_spans_ordered(cs, e);
            law_offsets_monotone(cs, i, j);
            law_offsets_monotone(cs, j, e);
            law_offsets_monotone(cs, e, cs.len() as int);
            if let Ok(rest) = lex_from(cs, e) {
                let t = SpecToken { kind: k, span: span_at(cs, j, e) };
                let ts = seq![t] + rest;
                assert forall|m: int| 0 <= m < ts.len() implies utf8_len(cs.take(i)) <= (#[trigger] ts[m]).span.start.offset
                    <= ts[m].span.end.offset by {
                    if m > 0 {
                        assert(ts[m] == rest[m - 1]);
                    }
                }
                assert forall|m: int| 0 <= m < ts.len() - 1 implies (#[trigger] ts[m]).span.end.offset <= ts[m + 1].span.start.offset by {
                    if m > 0 {
                        assert(ts[m] == rest[m - 1]);
                        assert(ts[m + 1] == rest[m]);
                    } else {
                        assert(ts[1] == rest[0]);
                    }
                }
            }
        }
    } else {
        law_offsets_monotone(cs, i, cs.len() as int);
    }
}

} // verus!
