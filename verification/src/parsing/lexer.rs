//! The lexer: text to a sequence of typed tokens that tile the input.
//!
//! A [`Token`] spans a range of byte offsets in the UTF-8 encoding of the
//! text. The parser works on [`Lexeme`]s, the same tokens with their spans
//! counted in characters.

use crate::text::{
    byte_len, byte_offset, char_offsets, is_numeric_char, lemma_byte_offset_grows,
};
use vstd::prelude::*;

verus! {

/// The kinds of token.
#[derive(Debug, Clone, Copy, PartialEq, Eq, Structural)]
pub enum TokenType {
    /// `*`
    Asterisk,
    /// `=`
    EqualsSign,
    /// `-`
    Hyphen,
    /// `\n`, or `\r` immediately followed by `\n`
    LineBreak,
    /// `|`
    Bar,
    /// `]`
    RBracket,
    /// `[`
    LBracket,
    /// `:`
    Colon,
    /// `#` immediately followed by `+`
    HashPlus,
    /// A maximal run of characters that start no other token
    Text,
    /// A numeric character immediately followed by `.`
    NumberPeriod,
    /// ` `
    Space,
    /// `\t`
    Tab,
    /// `"`
    DoubleQuote,
    /// End of input; never handed out in a token sequence
    EOF,
}

/// A token: its kind and the half-open range of byte offsets that it
/// spans in the UTF-8 encoding of the source text.
#[derive(Debug, Clone, Copy)]
pub struct Token {
    pub tok_type: TokenType,
    pub lexeme_start: usize,
    pub lexeme_end: usize,
}

/// A token with its span counted in characters: the half-open range of
/// character positions that it spans in the source text.
#[derive(Debug, Clone, Copy)]
pub struct Lexeme {
    pub tok_type: TokenType,
    pub lexeme_start: usize,
    pub lexeme_end: usize,
}

/// The character at position `i`, if there is one.
pub open spec fn char_at(s: Seq<char>, i: int) -> Option<char> {
    if 0 <= i < s.len() {
        Some(s[i])
    } else {
        None
    }
}

/// The kind and width of the token other than text that begins at
/// position `i`, if one begins there.
pub open spec fn control_token(s: Seq<char>, i: int) -> Option<(TokenType, int)> {
    match char_at(s, i) {
        None => None,
        Some(c) => if c == '*' {
            Some((TokenType::Asterisk, 1))
        } else if c == '=' {
            Some((TokenType::EqualsSign, 1))
        } else if c == '-' {
            Some((TokenType::Hyphen, 1))
        } else if c == '\n' {
            Some((TokenType::LineBreak, 1))
        } else if c == '\r' && char_at(s, i + 1) == Some('\n') {
            Some((TokenType::LineBreak, 2))
        } else if c == '|' {
            Some((TokenType::Bar, 1))
        } else if c == ' ' {
            Some((TokenType::Space, 1))
        } else if c == '\t' {
            Some((TokenType::Tab, 1))
        } else if c == '[' {
            Some((TokenType::LBracket, 1))
        } else if c == ']' {
            Some((TokenType::RBracket, 1))
        } else if c == ':' {
            Some((TokenType::Colon, 1))
        } else if c == '"' {
            Some((TokenType::DoubleQuote, 1))
        } else if c == '#' && char_at(s, i + 1) == Some('+') {
            Some((TokenType::HashPlus, 2))
        } else if is_numeric_char(c) && char_at(s, i + 1) == Some('.') {
            Some((TokenType::NumberPeriod, 2))
        } else {
            None
        },
    }
}

/// Where the text run that begins at `i` ends: the first position after
/// `i` at which the input ends or another kind of token begins.
pub open spec fn text_run_end(s: Seq<char>, i: int) -> int
    decreases s.len() - i,
{
    if i + 1 >= s.len() {
        s.len() as int
    } else if control_token(s, i + 1) is Some {
        i + 1
    } else {
        text_run_end(s, i + 1)
    }
}

/// The kind of the token that begins at position `i`, and where it ends.
pub open spec fn token_at(s: Seq<char>, i: int) -> (TokenType, int) {
    if i >= s.len() {
        (TokenType::EOF, s.len() as int)
    } else {
        match control_token(s, i) {
            Some((kind, width)) => (kind, i + width),
            None => (TokenType::Text, text_run_end(s, i)),
        }
    }
}

/// The tokens of `s` from position `i` to the end of the input.
pub open spec fn lex_from(s: Seq<char>, i: int) -> Seq<Lexeme>
    decreases s.len() - i,
{
    let (kind, end) = token_at(s, i);
    if 0 <= i < end <= s.len() {
        seq![Lexeme { tok_type: kind, lexeme_start: i as usize, lexeme_end: end as usize }]
            + lex_from(s, end)
    } else {
        Seq::empty()
    }
}

/// The tokens of a whole text.
pub open spec fn lex(s: Seq<char>) -> Seq<Lexeme> {
    lex_from(s, 0)
}

/// A text run ends after its first character and within the input, and no
/// other kind of token begins strictly inside it.
pub proof fn lemma_text_run_end(s: Seq<char>, i: int)
    requires
        0 <= i < s.len(),
    ensures
        i < text_run_end(s, i) <= s.len(),
        forall|j: int| i < j < text_run_end(s, i) ==> control_token(s, j) is None,
        text_run_end(s, i) < s.len() ==> control_token(s, text_run_end(s, i)) is Some,
    decreases s.len() - i,
{
    if i + 1 >= s.len() {
    } else if control_token(s, i + 1) is Some {
    } else {
        lemma_text_run_end(s, i + 1);
    }
}

/// Every token is non-empty and ends within the input.
pub proof fn lemma_token_at_bounds(s: Seq<char>, i: int)
    requires
        0 <= i < s.len(),
    ensures
        i < token_at(s, i).1 <= s.len(),
        token_at(s, i).0 != TokenType::EOF,
{
    lemma_text_run_end(s, i);
}

/// `ts` tiles the positions from `from` to `to`: it begins at `from`, each
/// token begins where the one before it ends, and the last ends at `to`.
pub open spec fn tiles(ts: Seq<Lexeme>, from: int, to: int) -> bool {
    &&& from <= to
    &&& ts.len() == 0 <==> from == to
    &&& ts.len() > 0 ==> ts[0].lexeme_start == from && ts[ts.len() - 1].lexeme_end == to
    &&& forall|k: int| 0 <= k < ts.len() ==> (#[trigger] ts[k]).lexeme_start < ts[k].lexeme_end
    &&& forall|j: int, k: int|
        0 <= j < ts.len() && k == j + 1 && k < ts.len() ==> (#[trigger] ts[j]).lexeme_end == (
        #[trigger] ts[k]).lexeme_start
}

/// The token sequence covers the input from `i` on without gap or
/// overlap, holds no end-of-input token, and each token is the one that
/// [`token_at`] finds at its start.
pub proof fn lemma_lex_from(s: Seq<char>, i: int)
    requires
        0 <= i <= s.len() <= usize::MAX,
    ensures
        tiles(lex_from(s, i), i, s.len() as int),
        forall|k: int|
            0 <= k < lex_from(s, i).len() ==> {
                let t = #[trigger] lex_from(s, i)[k];
                &&& i <= t.lexeme_start < s.len()
                &&& token_at(s, t.lexeme_start as int) == (t.tok_type, t.lexeme_end as int)
                &&& t.tok_type != TokenType::EOF
            },
        lex_from(s, i).len() <= s.len() - i,
    decreases s.len() - i,
{
    if i < s.len() {
        lemma_token_at_bounds(s, i);
        let (kind, end) = token_at(s, i);
        lemma_lex_from(s, end);
        let head = Lexeme { tok_type: kind, lexeme_start: i as usize, lexeme_end: end as usize };
        let rest = lex_from(s, end);
        let all = lex_from(s, i);
        assert(all == seq![head] + rest);
        assert(all[0] == head);
        assert forall|k: int| 0 < k < all.len() implies all[k] == rest[k - 1] by {}
        assert forall|j: int, k: int|
            0 <= j < all.len() && k == j + 1 && k < all.len() implies (#[trigger] all[j]).lexeme_end
            == (#[trigger] all[k]).lexeme_start by {
            assert(all[k] == rest[k - 1]);
            if j > 0 {
                assert(all[j] == rest[j - 1]);
            }
        }
    }
}

/// The token of a lexeme: the same kind, with the span in byte offsets.
pub open spec fn token_of(s: Seq<char>, lexeme: Lexeme) -> Token {
    Token {
        tok_type: lexeme.tok_type,
        lexeme_start: byte_offset(s, lexeme.lexeme_start as int) as usize,
        lexeme_end: byte_offset(s, lexeme.lexeme_end as int) as usize,
    }
}

/// The tokens of a sequence of lexemes.
pub open spec fn tokens_of(s: Seq<char>, lexemes: Seq<Lexeme>) -> Seq<Token> {
    Seq::new(lexemes.len(), |k: int| token_of(s, lexemes[k]))
}

/// The tokens of a whole text, with their spans in byte offsets.
pub open spec fn lex_tokens(s: Seq<char>) -> Seq<Token> {
    tokens_of(s, lex(s))
}

/// `ts` tiles the byte offsets from `from` to `to`: it begins at `from`,
/// each token is non-empty and begins where the one before it ends, and
/// the last ends at `to`.
pub open spec fn tiles_bytes(ts: Seq<Token>, from: int, to: int) -> bool {
    &&& from <= to
    &&& ts.len() == 0 <==> from == to
    &&& ts.len() > 0 ==> ts[0].lexeme_start == from && ts[ts.len() - 1].lexeme_end == to
    &&& forall|k: int| 0 <= k < ts.len() ==> (#[trigger] ts[k]).lexeme_start < ts[k].lexeme_end
    &&& forall|j: int, k: int|
        0 <= j < ts.len() && k == j + 1 && k < ts.len() ==> (#[trigger] ts[j]).lexeme_end == (
        #[trigger] ts[k]).lexeme_start
}

/// The tokens of lexemes that tile the character positions from `from` to
/// the end of the text tile the byte offsets from that of `from` to the
/// length of the text in bytes.
pub proof fn lemma_tokens_tile_bytes(s: Seq<char>, lexemes: Seq<Lexeme>, from: int)
    requires
        0 <= from <= s.len(),
        byte_len(s) <= usize::MAX,
        tiles(lexemes, from, s.len() as int),
    ensures
        tiles_bytes(tokens_of(s, lexemes), byte_offset(s, from), byte_len(s)),
{
    let ts = tokens_of(s, lexemes);
    let n = s.len() as int;
    lemma_byte_offset_grows(s, from, n);
    lemma_lexemes_within(lexemes, from, n, lexemes.len() as int);
    assert forall|k: int| 0 <= k < ts.len() implies (#[trigger] ts[k]).lexeme_start
        < ts[k].lexeme_end && ts[k].lexeme_start == byte_offset(
        s,
        lexemes[k].lexeme_start as int,
    ) && ts[k].lexeme_end == byte_offset(s, lexemes[k].lexeme_end as int) by {
        let l = lexemes[k];
        assert(l.lexeme_start < l.lexeme_end);
        lemma_byte_offset_grows(s, l.lexeme_start as int, l.lexeme_end as int);
        lemma_byte_offset_grows(s, l.lexeme_end as int, n);
        lemma_byte_offset_grows(s, 0, l.lexeme_start as int);
    }
    assert forall|j: int, k: int|
        0 <= j < ts.len() && k == j + 1 && k < ts.len() implies (#[trigger] ts[j]).lexeme_end == (
    #[trigger] ts[k]).lexeme_start by {
        assert(lexemes[j].lexeme_end == lexemes[k].lexeme_start);
    }
    if ts.len() == 0 {
        assert(from == n);
    } else {
        assert(lexemes[0].lexeme_start == from);
        assert(lexemes[lexemes.len() - 1].lexeme_end == n);
        lemma_byte_offset_grows(s, from, from + 1);
    }
}

/// Lexemes that tile a range lie within it.
pub proof fn lemma_lexemes_within(lexemes: Seq<Lexeme>, from: int, to: int, n: int)
    requires
        tiles(lexemes, from, to),
        0 <= n <= lexemes.len(),
    ensures
        forall|k: int|
            0 <= k < n ==> from <= (#[trigger] lexemes[k]).lexeme_start && lexemes[k].lexeme_end
                <= to,
    decreases lexemes.len(),
{
    lemma_lexeme_starts(lexemes, from, to, lexemes.len() as int);
    lemma_lexeme_ends(lexemes, from, to, 0);
}

proof fn lemma_lexeme_starts(lexemes: Seq<Lexeme>, from: int, to: int, n: int)
    requires
        tiles(lexemes, from, to),
        0 <= n <= lexemes.len(),
    ensures
        forall|k: int| 0 <= k < n ==> from <= (#[trigger] lexemes[k]).lexeme_start,
    decreases n,
{
    if n > 1 {
        lemma_lexeme_starts(lexemes, from, to, n - 1);
        assert(lexemes[n - 2].lexeme_end == lexemes[n - 1].lexeme_start);
        assert(lexemes[n - 2].lexeme_start < lexemes[n - 2].lexeme_end);
    }
}

proof fn lemma_lexeme_ends(lexemes: Seq<Lexeme>, from: int, to: int, n: int)
    requires
        tiles(lexemes, from, to),
        0 <= n <= lexemes.len(),
    ensures
        forall|k: int| n <= k < lexemes.len() ==> (#[trigger] lexemes[k]).lexeme_end <= to,
    decreases lexemes.len() - n,
{
    if n < lexemes.len() - 1 {
        lemma_lexeme_ends(lexemes, from, to, n + 1);
        assert(lexemes[n].lexeme_end == lexemes[n + 1].lexeme_start);
        assert(lexemes[n + 1].lexeme_start < lexemes[n + 1].lexeme_end);
    }
}

/// A cursor over the characters of a document.
pub struct Tokenizer {
    chars: Vec<char>,
    num_chars: usize,
    char_index: usize,
    offsets: Vec<usize>,
}

impl Tokenizer {
    #[verifier::type_invariant]
    spec fn well_formed(self) -> bool {
        &&& self.num_chars == self.chars@.len()
        &&& self.char_index <= self.num_chars
        &&& self.offsets@.len() == self.num_chars + 1
        &&& forall|i: int|
            0 <= i <= self.num_chars ==> self.offsets@[i] == byte_offset(self.chars@, i)
    }

    /// The characters of the document.
    pub closed spec fn chars(self) -> Seq<char> {
        self.chars@
    }

    /// The position from which the next token will be read.
    pub closed spec fn position(self) -> int {
        self.char_index as int
    }

    /// A tokenizer at the beginning of `document`.
    pub fn new(document: &str) -> (t: Tokenizer)
        ensures
            t.chars() == document@,
            t.position() == 0,
    {
        let (chars, offsets): (Vec<char>, Vec<usize>) = char_offsets(document);
        let num_chars: usize = chars.len();
        Tokenizer { chars, num_chars, char_index: 0, offsets }
    }

    fn peek_next_char(&self, index: usize) -> (c: Option<char>)
        ensures
            c == char_at(self.chars(), index as int),
    {
        proof {
            use_type_invariant(self);
        }
        if index >= self.num_chars {
            None
        } else {
            Some(self.chars[index])
        }
    }

    /// The kind and width of the token other than text that begins at
    /// `index`, if one begins there.
    fn peek_control_token(&self, index: usize) -> (r: Option<(TokenType, usize)>)
        ensures
            match r {
                Some((kind, width)) => control_token(self.chars(), index as int) == Some(
                    (kind, width as int),
                ) && index + width <= self.chars().len(),
                None => control_token(self.chars(), index as int) is None,
            },
    {
        proof {
            use_type_invariant(self);
        }
        let c = match self.peek_next_char(index) {
            None => {
                return None;
            },
            Some(c) => c,
        };
        let next = if index + 1 < self.num_chars {
            Some(self.chars[index + 1])
        } else {
            None
        };
        assert(next == char_at(self.chars(), index + 1));
        if c == '*' {
            Some((TokenType::Asterisk, 1))
        } else if c == '=' {
            Some((TokenType::EqualsSign, 1))
        } else if c == '-' {
            Some((TokenType::Hyphen, 1))
        } else if c == '\n' {
            Some((TokenType::LineBreak, 1))
        } else if c == '\r' && next == Some('\n') {
            Some((TokenType::LineBreak, 2))
        } else if c == '|' {
            Some((TokenType::Bar, 1))
        } else if c == ' ' {
            Some((TokenType::Space, 1))
        } else if c == '\t' {
            Some((TokenType::Tab, 1))
        } else if c == '[' {
            Some((TokenType::LBracket, 1))
        } else if c == ']' {
            Some((TokenType::RBracket, 1))
        } else if c == ':' {
            Some((TokenType::Colon, 1))
        } else if c == '"' {
            Some((TokenType::DoubleQuote, 1))
        } else if c == '#' && next == Some('+') {
            Some((TokenType::HashPlus, 2))
        } else if c.is_numeric() && next == Some('.') {
            Some((TokenType::NumberPeriod, 2))
        } else {
            None
        }
    }

    /// The kind of the token that begins at `index`, and where it ends.
    fn peek_next_token(&self, index: usize) -> (r: (TokenType, usize))
        ensures
            (r.0, r.1 as int) == token_at(self.chars(), index as int),
    {
        proof {
            use_type_invariant(self);
        }
        if index >= self.num_chars {
            return (TokenType::EOF, self.num_chars);
        }
        match self.peek_control_token(index) {
            Some((kind, width)) => (kind, index + width),
            None => {
                let mut end: usize = index + 1;
                while end < self.num_chars && self.peek_control_token(end).is_none()
                    invariant
                        index < end <= self.num_chars == self.chars().len(),
                        text_run_end(self.chars(), end - 1) == text_run_end(
                            self.chars(),
                            index as int,
                        ),
                    decreases self.num_chars - end,
                {
                    end = end + 1;
                }
                (TokenType::Text, end)
            },
        }
    }

    /// Reads the rest of the document as lexemes, with spans counted in
    /// characters, and leaves the cursor at the end of the input.
    pub fn get_lexemes(&mut self) -> (tokens: Vec<Lexeme>)
        ensures
            tokens@ == lex_from(old(self).chars(), old(self).position()),
            tiles(tokens@, old(self).position(), old(self).chars().len() as int),
            forall|k: int|
                0 <= k < tokens@.len() ==> token_at(
                    old(self).chars(),
                    (#[trigger] tokens@[k]).lexeme_start as int,
                ) == (tokens@[k].tok_type, tokens@[k].lexeme_end as int),
            final(self).chars() == old(self).chars(),
            final(self).position() == old(self).chars().len(),
    {
        proof {
            use_type_invariant(&*self);
            assert(self.chars.len() == self.chars@.len());
            lemma_lex_from(self.chars@, self.char_index as int);
        }
        let mut tokens: Vec<Lexeme> = Vec::new();
        loop
            invariant
                self.chars() == old(self).chars(),
                self.num_chars == self.chars@.len(),
                self.offsets@.len() == self.num_chars + 1,
                forall|i: int|
                    0 <= i <= self.num_chars ==> self.offsets@[i] == byte_offset(self.chars@, i),
                old(self).position() <= self.position() <= self.chars().len(),
                tokens@ + lex_from(self.chars(), self.position()) == lex_from(
                    old(self).chars(),
                    old(self).position(),
                ),
            ensures
                tokens@ == lex_from(old(self).chars(), old(self).position()),
                self.chars() == old(self).chars(),
                self.position() == self.chars().len(),
            decreases self.chars().len() - self.position(),
        {
            let (tok_type, index): (TokenType, usize) = self.peek_next_token(self.char_index);
            let token = Lexeme { tok_type, lexeme_start: self.char_index, lexeme_end: index };
            proof {
                if self.char_index < self.num_chars {
                    lemma_token_at_bounds(self.chars@, self.char_index as int);
                    assert(tokens@.push(token) + lex_from(self.chars@, index as int) =~= tokens@
                        + lex_from(self.chars@, self.char_index as int));
                } else {
                    assert(lex_from(self.chars@, self.char_index as int) =~= Seq::empty());
                    assert(tokens@ + Seq::<Lexeme>::empty() =~= tokens@);
                }
            }
            self.char_index = index;
            match token.tok_type {
                TokenType::EOF => {
                    break ;
                },
                _ => tokens.push(token),
            }
        }
        tokens
    }

    /// Reads the rest of the document as tokens, with spans in byte
    /// offsets, and leaves the cursor at the end of the input.
    pub fn get_tokens(&mut self) -> (tokens: Vec<Token>)
        ensures
            tokens@ == tokens_of(
                old(self).chars(),
                lex_from(old(self).chars(), old(self).position()),
            ),
            byte_len(old(self).chars()) <= usize::MAX,
            tiles_bytes(
                tokens@,
                byte_offset(old(self).chars(), old(self).position()),
                byte_len(old(self).chars()),
            ),
            forall|k: int| 0 <= k < tokens@.len() ==> (#[trigger] tokens@[k]).tok_type != TokenType::EOF,
            final(self).chars() == old(self).chars(),
            final(self).position() == old(self).chars().len(),
    {
        proof {
            use_type_invariant(&*self);
        }
        let ghost start = self.char_index as int;
        let lexemes = self.get_lexemes();
        proof {
            use_type_invariant(&*self);
            assert(self.offsets@[self.num_chars as int] == byte_len(self.chars@));
            lemma_lexemes_within(lexemes@, start, self.num_chars as int, lexemes@.len() as int);
            lemma_tokens_tile_bytes(self.chars@, lexemes@, start);
        }
        let n: usize = lexemes.len();
        let mut tokens: Vec<Token> = Vec::new();
        let mut k: usize = 0;
        while k < n
            invariant
                n == lexemes@.len(),
                k <= n,
                self.num_chars == self.chars@.len(),
                self.offsets@.len() == self.num_chars + 1,
                forall|i: int|
                    0 <= i <= self.num_chars ==> self.offsets@[i] == byte_offset(self.chars@, i),
                forall|j: int|
                    0 <= j < n ==> (#[trigger] lexemes@[j]).lexeme_start <= lexemes@[j].lexeme_end
                        <= self.num_chars,
                tokens@ == tokens_of(self.chars@, lexemes@.take(k as int)),
            decreases n - k,
        {
            let lexeme = lexemes[k];
            assert(lexeme.lexeme_start <= lexeme.lexeme_end <= self.num_chars);
            let token = Token {
                tok_type: lexeme.tok_type,
                lexeme_start: self.offsets[lexeme.lexeme_start],
                lexeme_end: self.offsets[lexeme.lexeme_end],
            };
            proof {
                assert(token == token_of(self.chars@, lexeme));
                assert(tokens@.push(token) =~= tokens_of(self.chars@, lexemes@.take(k + 1)));
            }
            tokens.push(token);
            k = k + 1;
        }
        proof {
            assert(lexemes@.take(n as int) =~= lexemes@);
        }
        tokens
    }
}

} // verus!
