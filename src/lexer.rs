use vstd::prelude::*;

verus! {

/// The kinds of token the scanner produces. Literal tokens carry their text
/// in `Token::lexeme`.
#[derive(Debug, Clone, Copy, PartialEq, Eq, Structural)]
pub enum TokenKind {
    // Single character tokens
    LPar,
    Rpar,
    LBrace,
    RBrace,
    Comma,
    Dot,
    Semicolon,
    Minus,
    Plus,
    Star,
    Slash,
    // One or two character tokens
    Bang,
    NotBang,
    Equal,
    IsEqual,
    Greater,
    GreaterEqual,
    Less,
    LessEqual,
    // Literals
    Ident,
    String,
    Number,
    // Keywords
    And,
    Class,
    Else,
    False,
    For,
    Fun,
    If,
    Nil,
    Or,
    Print,
    Return,
    Super,
    This,
    True,
    Var,
    While,
    // Sentinels
    Error,
    Eof,
}

/// A scanned token: its kind, its text (the diagnostic for an error token)
/// and the line the scanner had reached when the token ended.
#[derive(Debug, PartialEq)]
pub struct Token {
    pub kind: TokenKind,
    pub lexeme: String,
    pub line: u64,
}

/// What `char::is_alphabetic` answers for a character.
pub uninterp spec fn alphabetic(c: char) -> bool;

/// What `char::is_alphanumeric` answers for a character.
pub uninterp spec fn alphanumeric(c: char) -> bool;

/// Relies on `char::is_alphabetic` (Unicode Alphabetic property; among
/// ASCII characters exactly the letters have it).
#[verifier::external_body]
fn char_is_alphabetic(c: char) -> (r: bool)
    ensures
        r == alphabetic(c),
        c <= '\x7f' ==> r == (('a' <= c && c <= 'z') || ('A' <= c && c <= 'Z')),
{
    c.is_alphabetic()
}

/// Relies on `char::is_alphanumeric` (Unicode Alphabetic or Numeric
/// property; among ASCII characters exactly the letters and digits).
#[verifier::external_body]
fn char_is_alphanumeric(c: char) -> (r: bool)
    ensures
        r == alphanumeric(c),
        c <= '\x7f' ==> r == (('a' <= c && c <= 'z') || ('A' <= c && c <= 'Z') || ('0' <= c
            && c <= '9')),
{
    c.is_alphanumeric()
}

/// Relies on `str::chars`, collected into a `Vec`: the characters of the
/// string in order (a `Vec` never holds more than `isize::MAX` bytes).
#[verifier::external_body]
fn chars_of(s: &str) -> (r: Vec<char>)
    ensures
        r@ == s@,
        r@.len() <= isize::MAX,
{
    s.chars().collect()
}

/// Relies on `String::push`: appends one character.
#[verifier::external_body]
fn push_char(s: &mut String, c: char)
    ensures
        final(s)@ == old(s)@.push(c),
{
    s.push(c)
}

/// A character that starts a word: among ASCII characters exactly the
/// letters; beyond ASCII, what `char::is_alphabetic` answers.
pub open spec fn is_letter(c: char) -> bool {
    if c <= '\x7f' {
        ('a' <= c && c <= 'z') || ('A' <= c && c <= 'Z')
    } else {
        alphabetic(c)
    }
}

/// A character that continues a word: among ASCII characters exactly the
/// letters and digits; beyond ASCII, what `char::is_alphanumeric` answers.
pub open spec fn is_word_char(c: char) -> bool {
    if c <= '\x7f' {
        ('a' <= c && c <= 'z') || ('A' <= c && c <= 'Z') || ('0' <= c && c <= '9')
    } else {
        alphanumeric(c)
    }
}

pub open spec fn is_digit(c: char) -> bool {
    '0' <= c && c <= '9'
}

pub open spec fn is_blank(c: char) -> bool {
    c == ' ' || c == '\r' || c == '\t' || c == '\n'
}

/// Number of newline characters among the first `hi` characters of `s`.
pub open spec fn newlines(s: Seq<char>, hi: int) -> nat
    decreases hi,
{
    if hi <= 0 || hi > s.len() {
        0
    } else {
        newlines(s, hi - 1) + if s[hi - 1] == '\n' {
            1nat
        } else {
            0nat
        }
    }
}

/// Where the blanks and `//` comments that start at `i` end. `in_comment`
/// says that `i` lies inside a comment.
pub open spec fn trivia_end(s: Seq<char>, i: int, in_comment: bool) -> int
    decreases s.len() - i, if in_comment {
        1int
    } else {
        0int
    },
{
    if i < 0 || i >= s.len() {
        i
    } else if in_comment {
        if s[i] == '\n' {
            trivia_end(s, i, false)
        } else {
            trivia_end(s, i + 1, true)
        }
    } else if is_blank(s[i]) {
        trivia_end(s, i + 1, false)
    } else if s[i] == '/' && i + 1 < s.len() && s[i + 1] == '/' {
        trivia_end(s, i + 2, true)
    } else {
        i
    }
}

/// End of the run of decimal digits that starts at `i`.
pub open spec fn digits_end(s: Seq<char>, i: int) -> int
    decreases s.len() - i,
{
    if 0 <= i < s.len() && is_digit(s[i]) {
        digits_end(s, i + 1)
    } else {
        i
    }
}

/// End of the number literal that starts with a digit at `i`: digits, then
/// optionally a dot followed by at least one digit.
pub open spec fn number_end(s: Seq<char>, i: int) -> int {
    let e = digits_end(s, i);
    if e + 1 < s.len() && s[e] == '.' && is_digit(s[e + 1]) {
        digits_end(s, e + 1)
    } else {
        e
    }
}

/// End of the run of alphanumeric characters that starts at `i`.
pub open spec fn word_end(s: Seq<char>, i: int) -> int
    decreases s.len() - i,
{
    if 0 <= i < s.len() && is_word_char(s[i]) {
        word_end(s, i + 1)
    } else {
        i
    }
}

/// Position of the first `"` at or after `i`, or the end of `s`.
pub open spec fn quote_at_or_after(s: Seq<char>, i: int) -> int
    decreases s.len() - i,
{
    if 0 <= i < s.len() && s[i] != '"' {
        quote_at_or_after(s, i + 1)
    } else {
        i
    }
}

/// The keyword a word spells, or `Ident`.
pub open spec fn keyword_of(w: Seq<char>) -> TokenKind {
    if w == seq!['a', 'n', 'd'] {
        TokenKind::And
    } else if w == seq!['c', 'l', 'a', 's', 's'] {
        TokenKind::Class
    } else if w == seq!['e', 'l', 's', 'e'] {
        TokenKind::Else
    } else if w == seq!['f', 'a', 'l', 's', 'e'] {
        TokenKind::False
    } else if w == seq!['f', 'o', 'r'] {
        TokenKind::For
    } else if w == seq!['f', 'u', 'n'] {
        TokenKind::Fun
    } else if w == seq!['i', 'f'] {
        TokenKind::If
    } else if w == seq!['n', 'i', 'l'] {
        TokenKind::Nil
    } else if w == seq!['o', 'r'] {
        TokenKind::Or
    } else if w == seq!['p', 'r', 'i', 'n', 't'] {
        TokenKind::Print
    } else if w == seq!['r', 'e', 't', 'u', 'r', 'n'] {
        TokenKind::Return
    } else if w == seq!['s', 'u', 'p', 'e', 'r'] {
        TokenKind::Super
    } else if w == seq!['t', 'h', 'i', 's'] {
        TokenKind::This
    } else if w == seq!['t', 'r', 'u', 'e'] {
        TokenKind::True
    } else if w == seq!['v', 'a', 'r'] {
        TokenKind::Var
    } else if w == seq!['w', 'h', 'i', 'l', 'e'] {
        TokenKind::While
    } else {
        TokenKind::Ident
    }
}

/// The kind of a token that consists of the single character `c`, if any.
pub open spec fn single_char_kind(c: char) -> Option<TokenKind> {
    if c == '(' {
        Some(TokenKind::LPar)
    } else if c == ')' {
        Some(TokenKind::Rpar)
    } else if c == '{' {
        Some(TokenKind::LBrace)
    } else if c == '}' {
        Some(TokenKind::RBrace)
    } else if c == ';' {
        Some(TokenKind::Semicolon)
    } else if c == ',' {
        Some(TokenKind::Comma)
    } else if c == '.' {
        Some(TokenKind::Dot)
    } else if c == '-' {
        Some(TokenKind::Minus)
    } else if c == '+' {
        Some(TokenKind::Plus)
    } else if c == '/' {
        Some(TokenKind::Slash)
    } else if c == '*' {
        Some(TokenKind::Star)
    } else {
        None
    }
}

/// For `!`, `=`, `>` and `<`: the kinds without and with a following `=`.
pub open spec fn operator_kinds(c: char) -> Option<(TokenKind, TokenKind)> {
    if c == '!' {
        Some((TokenKind::Bang, TokenKind::NotBang))
    } else if c == '=' {
        Some((TokenKind::Equal, TokenKind::IsEqual))
    } else if c == '>' {
        Some((TokenKind::Greater, TokenKind::GreaterEqual))
    } else if c == '<' {
        Some((TokenKind::Less, TokenKind::LessEqual))
    } else {
        None
    }
}

/// The token that starts at `i` (no blanks or comments there): its kind
/// and where it ends.
pub open spec fn token_at(s: Seq<char>, i: int) -> (TokenKind, int) {
    if i >= s.len() {
        (TokenKind::Eof, i)
    } else if is_digit(s[i]) {
        (TokenKind::Number, number_end(s, i))
    } else if is_letter(s[i]) {
        let e = word_end(s, i + 1);
        (keyword_of(s.subrange(i, e)), e)
    } else if single_char_kind(s[i]) is Some {
        (single_char_kind(s[i])->0, i + 1)
    } else if operator_kinds(s[i]) is Some {
        let (short, long) = operator_kinds(s[i])->0;
        if i + 1 < s.len() && s[i + 1] == '=' {
            (long, i + 2)
        } else {
            (short, i + 1)
        }
    } else if s[i] == '"' {
        let q = quote_at_or_after(s, i + 1);
        if q >= s.len() {
            (TokenKind::Error, q)
        } else {
            (TokenKind::String, q + 1)
        }
    } else {
        (TokenKind::Error, i + 1)
    }
}

/// The text of the token of kind `k` that spans `start..end` of `s`.
pub open spec fn lexeme_of(s: Seq<char>, start: int, end: int, k: TokenKind) -> Seq<char> {
    if k == TokenKind::Eof {
        "\0"@
    } else if k == TokenKind::Error {
        if s[start] == '"' {
            "unterminated string"@
        } else {
            "Unexpected character "@.push(s[start])
        }
    } else {
        s.subrange(start, end)
    }
}

/// What the parser reads of a token: its kind, and for a number its text.
pub open spec fn view_of(t: Token) -> (TokenKind, Seq<char>) {
    (t.kind, if t.kind == TokenKind::Number {
        t.lexeme@
    } else {
        Seq::empty()
    })
}

/// The tokens of `s` from position `i` on, without error tokens and
/// without the final `Eof`, each as `view_of` sees it.
pub open spec fn tokens_from(s: Seq<char>, i: int) -> Seq<(TokenKind, Seq<char>)>
    decreases s.len() - i,
    via tokens_from_decreases
{
    if 0 <= i <= s.len() {
        let st = trivia_end(s, i, false);
        let (k, e) = token_at(s, st);
        if k == TokenKind::Eof {
            Seq::empty()
        } else if k == TokenKind::Error {
            tokens_from(s, e)
        } else {
            seq![
                (k, if k == TokenKind::Number {
                    s.subrange(st, e)
                } else {
                    Seq::empty()
                }),
            ] + tokens_from(s, e)
        }
    } else {
        Seq::empty()
    }
}

#[via_fn]
proof fn tokens_from_decreases(s: Seq<char>, i: int) {
    if 0 <= i <= s.len() {
        lemma_trivia_end_bounds(s, i, false);
        lemma_token_progress(s, trivia_end(s, i, false));
    }
}

/// No error token occurs among the tokens of `s` from position `i` on.
pub open spec fn error_free(s: Seq<char>, i: int) -> bool
    decreases s.len() - i,
    via error_free_decreases
{
    if 0 <= i <= s.len() {
        let st = trivia_end(s, i, false);
        let (k, e) = token_at(s, st);
        if k == TokenKind::Eof {
            true
        } else if k == TokenKind::Error {
            false
        } else {
            error_free(s, e)
        }
    } else {
        true
    }
}

#[via_fn]
proof fn error_free_decreases(s: Seq<char>, i: int) {
    if 0 <= i <= s.len() {
        lemma_trivia_end_bounds(s, i, false);
        lemma_token_progress(s, trivia_end(s, i, false));
    }
}

/// The tokens of a whole source text.
pub open spec fn tokens_of(s: Seq<char>) -> Seq<(TokenKind, Seq<char>)> {
    tokens_from(s, 0)
}

/// A single-pass scanner over a source text.
pub struct Lexer {
    start: usize,
    current: usize,
    line: u64,
    src: Vec<char>,
}

impl Lexer {
    /// The source text.
    pub closed spec fn source(&self) -> Seq<char> {
        self.src@
    }

    /// How far the scanner has read.
    pub closed spec fn position(&self) -> int {
        self.current as int
    }

    /// How many characters are left to read.
    pub closed spec fn remaining(&self) -> nat {
        (self.src@.len() - self.current) as nat
    }

    pub closed spec fn wf(&self) -> bool {
        &&& self.start <= self.current <= self.src.len()
        &&& self.src.len() <= isize::MAX
        &&& self.line == 1 + newlines(self.src@, self.current as int)
    }

    pub fn new(src: &str) -> (r: Lexer)
        ensures
            r.wf(),
            r.source() == src@,
            r.position() == 0,
    {
        Lexer { src: chars_of(src), current: 0, start: 0, line: 1 }
    }

    fn char_at(&self, idx: usize) -> (r: Option<char>)
        ensures
            r == (if idx < self.src@.len() {
                Some(self.src@[idx as int])
            } else {
                None::<char>
            }),
    {
        if idx < self.src.len() {
            Some(self.src[idx])
        } else {
            None
        }
    }

    /// Consumes the character under the cursor, keeping the line count.
    fn next_char(&mut self) -> (r: Option<char>)
        requires
            old(self).wf(),
        ensures
            final(self).wf(),
            final(self).src == old(self).src,
            final(self).start == old(self).start,
            old(self).current < old(self).src.len() ==> final(self).current == old(self).current
                + 1 && r == Some(old(self).src@[old(self).current as int]),
            old(self).current >= old(self).src.len() ==> final(self).current == old(self).current
                && r is None,
    {
        if self.current < self.src.len() {
            let c = self.src[self.current];
            proof {
                lemma_newlines_bound(self.src@, self.current as int);
            }
            if c == '\n' {
                self.line = self.line + 1;
            }
            self.current = self.current + 1;
            Some(c)
        } else {
            None
        }
    }

    fn peek(&self) -> (r: Option<char>)
        ensures
            r == (if self.current < self.src@.len() {
                Some(self.src@[self.current as int])
            } else {
                None::<char>
            }),
    {
        self.char_at(self.current)
    }

    fn peek_is_digit(&self) -> (r: bool)
        ensures
            r == (self.current < self.src@.len() && is_digit(self.src@[self.current as int])),
    {
        match self.peek() {
            Some(c) => '0' <= c && c <= '9',
            None => false,
        }
    }

    fn peek_is_alphanumeric(&self) -> (r: bool)
        ensures
            r == (self.current < self.src@.len() && is_word_char(self.src@[self.current as int])),
    {
        match self.peek() {
            Some(c) => char_is_alphanumeric(c),
            None => false,
        }
    }

    fn peek_matches_next(&self, expected: char) -> (r: bool)
        ensures
            r == (self.current < self.src@.len() && self.src@[self.current as int] == expected),
    {
        match self.peek() {
            Some(c) => c == expected,
            None => false,
        }
    }

    /// The character after the one under the cursor.
    fn peek_second(&self) -> (r: Option<char>)
        requires
            self.wf(),
        ensures
            r == (if self.current + 1 < self.src@.len() {
                Some(self.src@[self.current + 1])
            } else {
                None::<char>
            }),
    {
        self.char_at(self.current + 1)
    }

    fn is_at_end(&self) -> (r: bool)
        ensures
            r == (self.current >= self.src@.len()),
    {
        self.current >= self.src.len()
    }
}

impl Lexer {
    /// Skips blanks and `//` comments; a newline counts a line.
    fn skip_whitespace(&mut self)
        requires
            old(self).wf(),
        ensures
            final(self).wf(),
            final(self).src == old(self).src,
            final(self).start == old(self).start,
            final(self).current == trivia_end(old(self).src@, old(self).current as int, false),
    {
        let ghost s = self.src@;
        let ghost target = trivia_end(s, self.current as int, false);
        loop
            invariant
                self.wf(),
                self.src@ == s,
                self.src == old(self).src,
                self.start == old(self).start,
                trivia_end(s, self.current as int, false) == target,
            ensures
                self.current == target,
            decreases self.src.len() - self.current,
        {
            match self.peek() {
                Some(' ') | Some('\r') | Some('\t') | Some('\n') => {
                    self.next_char();
                },
                Some('/') => {
                    if self.peek_second() == Some('/') {
                        let ghost before = self.current;
                        self.next_char();
                        self.next_char();
                        while !self.peek_matches_next('\n') && !self.is_at_end()
                            invariant
                                self.wf(),
                                self.src@ == s,
                                self.src == old(self).src,
                                self.start == old(self).start,
                                trivia_end(s, self.current as int, true) == target,
                                self.current > before,
                            decreases self.src.len() - self.current,
                        {
                            self.next_char();
                        }
                    } else {
                        break ;
                    }
                },
                _ => break ,
            }
        }
    }

    /// A token of the given kind whose text is the scanned span.
    fn make_token(&self, kind: TokenKind) -> (tok: Token)
        requires
            self.wf(),
        ensures
            tok.kind == kind,
            tok.lexeme@ == self.src@.subrange(self.start as int, self.current as int),
            tok.line == self.line,
    {
        let mut lexeme = String::new();
        let mut i: usize = self.start;
        while i < self.current
            invariant
                self.start <= i <= self.current <= self.src.len(),
                lexeme@ == self.src@.subrange(self.start as int, i as int),
            decreases self.current - i,
        {
            push_char(&mut lexeme, self.src[i]);
            i = i + 1;
            proof {
                assert(lexeme@ =~= self.src@.subrange(self.start as int, i as int));
            }
        }
        Token { kind, lexeme, line: self.line }
    }

    fn error_token(&self, msg: String) -> (tok: Token)
        ensures
            tok.kind == TokenKind::Error,
            tok.lexeme == msg,
            tok.line == self.line,
    {
        Token { kind: TokenKind::Error, lexeme: msg, line: self.line }
    }

    fn make_eof(&self) -> (tok: Token)
        ensures
            tok.kind == TokenKind::Eof,
            tok.lexeme@ == "\0"@,
            tok.line == self.line,
    {
        Token { kind: TokenKind::Eof, lexeme: "\0".to_owned(), line: self.line }
    }

    /// Scans the rest of a number literal whose first digit was consumed.
    fn number(&mut self) -> (tok: Token)
        requires
            old(self).wf(),
            old(self).current == old(self).start + 1,
            is_digit(old(self).src@[old(self).start as int]),
        ensures
            final(self).wf(),
            final(self).src == old(self).src,
            final(self).start == old(self).start,
            final(self).current == number_end(old(self).src@, old(self).start as int),
            tok.kind == TokenKind::Number,
            tok.lexeme@ == final(self).src@.subrange(final(self).start as int, final(self).current as int),
            tok.line == final(self).line,
    {
        let ghost s = self.src@;
        let ghost st = self.start as int;
        while self.peek_is_digit()
            invariant
                self.wf(),
                self.src@ == s,
                self.src == old(self).src,
                self.start == old(self).start,
                digits_end(s, self.current as int) == digits_end(s, st),
            decreases self.src.len() - self.current,
        {
            self.next_char();
        }
        let second = self.peek_second();
        if self.peek_matches_next('.') && second.is_some() && '0' <= second.unwrap() && second.unwrap() <= '9' {
            self.next_char();
            let ghost fraction = digits_end(s, self.current as int);
            while self.peek_is_digit()
                invariant
                    self.wf(),
                    self.src@ == s,
                    self.src == old(self).src,
                    self.start == old(self).start,
                    digits_end(s, self.current as int) == fraction,
                decreases self.src.len() - self.current,
            {
                self.next_char();
            }
        }
        self.make_token(TokenKind::Number)
    }

    /// Scans the rest of a string literal whose opening quote was consumed.
    fn string(&mut self) -> (tok: Token)
        requires
            old(self).wf(),
            old(self).current == old(self).start + 1,
        ensures
            final(self).wf(),
            final(self).src == old(self).src,
            final(self).start == old(self).start,
            ({
                let q = quote_at_or_after(old(self).src@, old(self).current as int);
                if q >= old(self).src@.len() {
                    &&& final(self).current == q
                    &&& tok.kind == TokenKind::Error
                    &&& tok.lexeme@ == "unterminated string"@
                } else {
                    &&& final(self).current == q + 1
                    &&& tok.kind == TokenKind::String
                    &&& tok.lexeme@ == old(self).src@.subrange(old(self).start as int, q + 1)
                }
            }),
            tok.line == final(self).line,
    {
        let ghost s = self.src@;
        let ghost q = quote_at_or_after(s, self.current as int);
        while !self.peek_matches_next('"') && !self.is_at_end()
            invariant
                self.wf(),
                self.src@ == s,
                self.src == old(self).src,
                self.start == old(self).start,
                quote_at_or_after(s, self.current as int) == q,
            decreases self.src.len() - self.current,
        {
            self.next_char();
        }
        if self.is_at_end() {
            return self.error_token("unterminated string".to_owned());
        }
        self.next_char();
        self.make_token(TokenKind::String)
    }

    /// Scans the rest of a word whose first letter was consumed.
    fn identifier(&mut self) -> (tok: Token)
        requires
            old(self).wf(),
            old(self).current == old(self).start + 1,
        ensures
            final(self).wf(),
            final(self).src == old(self).src,
            final(self).start == old(self).start,
            final(self).current == word_end(old(self).src@, old(self).current as int),
            tok.kind == keyword_of(
                final(self).src@.subrange(final(self).start as int, final(self).current as int),
            ),
            tok.lexeme@ == final(self).src@.subrange(final(self).start as int, final(self).current as int),
            tok.line == final(self).line,
    {
        let ghost s = self.src@;
        let ghost e = word_end(s, self.current as int);
        while self.peek_is_alphanumeric()
            invariant
                self.wf(),
                self.src@ == s,
                self.src == old(self).src,
                self.start == old(self).start,
                word_end(s, self.current as int) == e,
            decreases self.src.len() - self.current,
        {
            self.next_char();
        }
        let kind = keyword_kind(&self.src, self.start, self.current);
        self.make_token(kind)
    }

    /// A one- or two-character operator: `first` when a `=` follows.
    fn token_matches(&mut self, first: TokenKind, second: TokenKind) -> (tok: Token)
        requires
            old(self).wf(),
        ensures
            final(self).wf(),
            final(self).src == old(self).src,
            final(self).start == old(self).start,
            ({
                let s = old(self).src@;
                let i = old(self).current as int;
                if i < s.len() && s[i] == '=' {
                    final(self).current == i + 1 && tok.kind == first
                } else {
                    final(self).current == i && tok.kind == second
                }
            }),
            tok.lexeme@ == final(self).src@.subrange(final(self).start as int, final(self).current as int),
            tok.line == final(self).line,
    {
        if self.peek_matches_next('=') {
            self.next_char();
            return self.make_token(first);
        }
        self.make_token(second)
    }

    /// Scans the next token, skipping blanks and comments before it. At the
    /// end of the source every call yields `Eof`.
    pub fn next_token(&mut self) -> (tok: Token)
        requires
            old(self).wf(),
        ensures
            final(self).wf(),
            final(self).source() == old(self).source(),
            final(self).remaining() <= old(self).remaining(),
            tok.kind != TokenKind::Eof ==> final(self).remaining() < old(self).remaining(),
            ({
                let s = old(self).source();
                let st = trivia_end(s, old(self).position(), false);
                let (k, e) = token_at(s, st);
                &&& tok.kind == k
                &&& final(self).position() == e
                &&& tok.lexeme@ == lexeme_of(s, st, e, k)
                &&& tok.line == 1 + newlines(s, e)
            }),
            tokens_from(old(self).source(), old(self).position()) == if tok.kind == TokenKind::Eof {
                Seq::empty()
            } else if tok.kind == TokenKind::Error {
                tokens_from(old(self).source(), final(self).position())
            } else {
                seq![view_of(tok)] + tokens_from(old(self).source(), final(self).position())
            },
            tok.kind == TokenKind::Eof ==> tokens_from(old(self).source(), final(self).position())
                == Seq::<(TokenKind, Seq<char>)>::empty(),
            tok.kind == TokenKind::Eof ==> error_free(old(self).source(), final(self).position()),
            error_free(old(self).source(), old(self).position()) == if tok.kind == TokenKind::Eof {
                true
            } else if tok.kind == TokenKind::Error {
                false
            } else {
                error_free(old(self).source(), final(self).position())
            },
    {
        proof {
            lemma_trivia_end_bounds(self.src@, self.current as int, false);
            lemma_token_progress(self.src@, trivia_end(self.src@, self.current as int, false));
        }
        self.skip_whitespace();
        self.start = self.current;
        let c = self.next_char();
        match c {
            Some(c) => {
                if '0' <= c && c <= '9' {
                    self.number()
                } else if char_is_alphabetic(c) {
                    self.identifier()
                } else if c == '(' {
                    self.make_token(TokenKind::LPar)
                } else if c == ')' {
                    self.make_token(TokenKind::Rpar)
                } else if c == '{' {
                    self.make_token(TokenKind::LBrace)
                } else if c == '}' {
                    self.make_token(TokenKind::RBrace)
                } else if c == ';' {
                    self.make_token(TokenKind::Semicolon)
                } else if c == ',' {
                    self.make_token(TokenKind::Comma)
                } else if c == '.' {
                    self.make_token(TokenKind::Dot)
                } else if c == '-' {
                    self.make_token(TokenKind::Minus)
                } else if c == '+' {
                    self.make_token(TokenKind::Plus)
                } else if c == '/' {
                    self.make_token(TokenKind::Slash)
                } else if c == '*' {
                    self.make_token(TokenKind::Star)
                } else if c == '!' {
                    self.token_matches(TokenKind::NotBang, TokenKind::Bang)
                } else if c == '=' {
                    self.token_matches(TokenKind::IsEqual, TokenKind::Equal)
                } else if c == '>' {
                    self.token_matches(TokenKind::GreaterEqual, TokenKind::Greater)
                } else if c == '<' {
                    self.token_matches(TokenKind::LessEqual, TokenKind::Less)
                } else if c == '"' {
                    self.string()
                } else {
                    let mut msg = "Unexpected character ".to_owned();
                    push_char(&mut msg, c);
                    self.error_token(msg)
                }
            },
            None => self.make_eof(),
        }
    }
}

/// Whether `src[lo..hi]` spells `word`.
fn spells(src: &Vec<char>, lo: usize, hi: usize, word: &Vec<char>) -> (r: bool)
    requires
        lo <= hi <= src@.len(),
    ensures
        r == (src@.subrange(lo as int, hi as int) == word@),
{
    if hi - lo != word.len() {
        return false;
    }
    let mut k: usize = 0;
    while k < word.len()
        invariant
            lo <= hi <= src@.len(),
            hi - lo == word@.len(),
            k <= word@.len(),
            forall|j: int| 0 <= j < k ==> src@[lo + j] == word@[j],
        decreases word.len() - k,
    {
        if src[lo + k] != word[k] {
            assert(src@.subrange(lo as int, hi as int)[k as int] != word@[k as int]);
            return false;
        }
        k = k + 1;
    }
    assert(src@.subrange(lo as int, hi as int) =~= word@);
    true
}

/// The keyword that `src[lo..hi]` spells, or `Ident`.
fn keyword_kind(src: &Vec<char>, lo: usize, hi: usize) -> (k: TokenKind)
    requires
        lo <= hi <= src@.len(),
    ensures
        k == keyword_of(src@.subrange(lo as int, hi as int)),
{
    let word: Vec<char> = vec!['a', 'n', 'd'];
    assert(word@ == seq!['a', 'n', 'd']);
    if spells(src, lo, hi, &word) {
        return TokenKind::And;
    }
    let word: Vec<char> = vec!['c', 'l', 'a', 's', 's'];
    assert(word@ == seq!['c', 'l', 'a', 's', 's']);
    if spells(src, lo, hi, &word) {
        return TokenKind::Class;
    }
    let word: Vec<char> = vec!['e', 'l', 's', 'e'];
    assert(word@ == seq!['e', 'l', 's', 'e']);
    if spells(src, lo, hi, &word) {
        return TokenKind::Else;
    }
    let word: Vec<char> = vec!['f', 'a', 'l', 's', 'e'];
    assert(word@ == seq!['f', 'a', 'l', 's', 'e']);
    if spells(src, lo, hi, &word) {
        return TokenKind::False;
    }
    let word: Vec<char> = vec!['f', 'o', 'r'];
    assert(word@ == seq!['f', 'o', 'r']);
    if spells(src, lo, hi, &word) {
        return TokenKind::For;
    }
    let word: Vec<char> = vec!['f', 'u', 'n'];
    assert(word@ == seq!['f', 'u', 'n']);
    if spells(src, lo, hi, &word) {
        return TokenKind::Fun;
    }
    let word: Vec<char> = vec!['i', 'f'];
    assert(word@ == seq!['i', 'f']);
    if spells(src, lo, hi, &word) {
        return TokenKind::If;
    }
    let word: Vec<char> = vec!['n', 'i', 'l'];
    assert(word@ == seq!['n', 'i', 'l']);
    if spells(src, lo, hi, &word) {
        return TokenKind::Nil;
    }
    let word: Vec<char> = vec!['o', 'r'];
    assert(word@ == seq!['o', 'r']);
    if spells(src, lo, hi, &word) {
        return TokenKind::Or;
    }
    let word: Vec<char> = vec!['p', 'r', 'i', 'n', 't'];
    assert(word@ == seq!['p', 'r', 'i', 'n', 't']);
    if spells(src, lo, hi, &word) {
        return TokenKind::Print;
    }
    let word: Vec<char> = vec!['r', 'e', 't', 'u', 'r', 'n'];
    assert(word@ == seq!['r', 'e', 't', 'u', 'r', 'n']);
    if spells(src, lo, hi, &word) {
        return TokenKind::Return;
    }
    let word: Vec<char> = vec!['s', 'u', 'p', 'e', 'r'];
    assert(word@ == seq!['s', 'u', 'p', 'e', 'r']);
    if spells(src, lo, hi, &word) {
        return TokenKind::Super;
    }
    let word: Vec<char> = vec!['t', 'h', 'i', 's'];
    assert(word@ == seq!['t', 'h', 'i', 's']);
    if spells(src, lo, hi, &word) {
        return TokenKind::This;
    }
    let word: Vec<char> = vec!['t', 'r', 'u', 'e'];
    assert(word@ == seq!['t', 'r', 'u', 'e']);
    if spells(src, lo, hi, &word) {
        return TokenKind::True;
    }
    let word: Vec<char> = vec!['v', 'a', 'r'];
    assert(word@ == seq!['v', 'a', 'r']);
    if spells(src, lo, hi, &word) {
        return TokenKind::Var;
    }
    let word: Vec<char> = vec!['w', 'h', 'i', 'l', 'e'];
    assert(word@ == seq!['w', 'h', 'i', 'l', 'e']);
    if spells(src, lo, hi, &word) {
        return TokenKind::While;
    }
    TokenKind::Ident
}

pub proof fn lemma_trivia_end_bounds(s: Seq<char>, i: int, in_comment: bool)
    requires
        0 <= i <= s.len(),
    ensures
        i <= trivia_end(s, i, in_comment) <= s.len(),
    decreases s.len() - i, if in_comment {
        1int
    } else {
        0int
    },
{
    if i < s.len() {
        if in_comment {
            if s[i] == '\n' {
                lemma_trivia_end_bounds(s, i, false);
            } else {
                lemma_trivia_end_bounds(s, i + 1, true);
            }
        } else if is_blank(s[i]) {
            lemma_trivia_end_bounds(s, i + 1, false);
        } else if s[i] == '/' && i + 1 < s.len() && s[i + 1] == '/' {
            lemma_trivia_end_bounds(s, i + 2, true);
        }
    }
}

pub proof fn lemma_digits_end_bounds(s: Seq<char>, i: int)
    requires
        0 <= i <= s.len(),
    ensures
        i <= digits_end(s, i) <= s.len(),
    decreases s.len() - i,
{
    if i < s.len() && is_digit(s[i]) {
        lemma_digits_end_bounds(s, i + 1);
    }
}

pub proof fn lemma_word_end_bounds(s: Seq<char>, i: int)
    requires
        0 <= i <= s.len(),
    ensures
        i <= word_end(s, i) <= s.len(),
    decreases s.len() - i,
{
    if i < s.len() && is_word_char(s[i]) {
        lemma_word_end_bounds(s, i + 1);
    }
}

pub proof fn lemma_quote_bounds(s: Seq<char>, i: int)
    requires
        0 <= i <= s.len(),
    ensures
        i <= quote_at_or_after(s, i) <= s.len(),
    decreases s.len() - i,
{
    if i < s.len() && s[i] != '"' {
        lemma_quote_bounds(s, i + 1);
    }
}

/// Every token but `Eof` consumes at least one character, and `Eof` comes
/// exactly at the end of the source.
pub proof fn lemma_token_progress(s: Seq<char>, st: int)
    requires
        0 <= st <= s.len(),
    ensures
        st <= token_at(s, st).1 <= s.len(),
        (token_at(s, st).0 == TokenKind::Eof) == (st == s.len()),
        token_at(s, st).0 != TokenKind::Eof ==> token_at(s, st).1 > st,
{
    if st < s.len() {
        lemma_digits_end_bounds(s, st);
        if digits_end(s, st) + 1 < s.len() {
            lemma_digits_end_bounds(s, digits_end(s, st) + 1);
        }
        lemma_word_end_bounds(s, st + 1);
        lemma_quote_bounds(s, st + 1);
        if is_digit(s[st]) {
            assert(digits_end(s, st) == digits_end(s, st + 1));
            lemma_digits_end_bounds(s, st + 1);
        }
    }
}

pub open spec fn all_digits(t: Seq<char>) -> bool {
    t.len() > 0 && forall|j: int| 0 <= j < t.len() ==> is_digit(#[trigger] t[j])
}

/// The number grammar: digits, optionally a dot and more digits.
pub open spec fn is_number_literal(s: Seq<char>) -> bool {
    all_digits(s) || exists|k: int|
        0 < k < s.len() && all_digits(#[trigger] s.subrange(0, k)) && s[k] == '.' && all_digits(
            s.subrange(k + 1, s.len() as int),
        )
}

proof fn lemma_digits_run(s: Seq<char>, i: int, k: int)
    requires
        0 <= i <= k <= s.len(),
        forall|j: int| i <= j < k ==> is_digit(#[trigger] s[j]),
        k == s.len() || !is_digit(s[k]),
    ensures
        digits_end(s, i) == k,
    decreases k - i,
{
    if i < k {
        lemma_digits_run(s, i + 1, k);
    }
}

/// A text in the number grammar scans as one `Number` token whose text is
/// the whole input, and the next token is `Eof`.
pub proof fn lemma_number_round_trip(s: Seq<char>)
    requires
        is_number_literal(s),
    ensures
        trivia_end(s, 0, false) == 0,
        token_at(s, 0) == (TokenKind::Number, s.len() as int),
        lexeme_of(s, 0, s.len() as int, TokenKind::Number) == s,
        trivia_end(s, s.len() as int, false) == s.len(),
        token_at(s, s.len() as int).0 == TokenKind::Eof,
        tokens_of(s) == seq![(TokenKind::Number, s)],
{
    if all_digits(s) {
        lemma_digits_run(s, 0, s.len() as int);
    } else {
        let k = choose|k: int|
            0 < k < s.len() && all_digits(#[trigger] s.subrange(0, k)) && s[k] == '.'
                && all_digits(s.subrange(k + 1, s.len() as int));
        assert forall|j: int| 0 <= j < k implies is_digit(#[trigger] s[j]) by {
            assert(s.subrange(0, k)[j] == s[j]);
        }
        lemma_digits_run(s, 0, k);
        assert forall|j: int| k + 1 <= j < s.len() implies is_digit(#[trigger] s[j]) by {
            assert(s.subrange(k + 1, s.len() as int)[j - k - 1] == s[j]);
        }
        assert(is_digit(s.subrange(k + 1, s.len() as int)[0]));
        lemma_digits_run(s, k + 1, s.len() as int);
    }
    assert(s.subrange(0, s.len() as int) =~= s);
    assert(tokens_from(s, s.len() as int) =~= Seq::<(TokenKind, Seq<char>)>::empty());
    assert(tokens_of(s) =~= seq![(TokenKind::Number, s)]);
}

/// There are never more newlines than characters.
pub proof fn lemma_newlines_bound(s: Seq<char>, hi: int)
    requires
        0 <= hi <= s.len(),
    ensures
        newlines(s, hi) <= hi,
    decreases hi,
{
    if hi > 0 {
        lemma_newlines_bound(s, hi - 1);
    }
}

} // verus!
