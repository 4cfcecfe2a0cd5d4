use vstd::prelude::*;
use vstd::string::*;

use crate::text::owned;

verus! {

/// A position in descriptor text
#[derive(Debug, Clone, Copy, PartialEq, Eq, Structural)]
pub struct TextPos {
    /// The line, counted from 1
    pub line: usize,
    /// The column, counted from 1
    pub column: usize,
}

/// A lexical unit of descriptor text
#[derive(Debug, Clone, PartialEq, Eq)]
pub enum Token {
    /// A bare word
    Ident(String),
    /// A quoted string literal, without its quotes
    Str(String),
    /// A variable reference `$name`, without the dollar sign
    Variable(String),
    /// `;`
    Semicolon,
    /// `:`
    Colon,
    /// `,`
    Comma,
    /// `|`
    Pipe,
    /// `@`
    At,
    /// `!`
    Bang,
    /// `{`
    CurlyOpen,
    /// `}`
    CurlyClose,
    /// `(`
    ParenOpen,
    /// `)`
    ParenClose,
    /// `[`
    SquareOpen,
    /// `]`
    SquareClose,
    /// `<`
    AngleOpen,
    /// `>`
    AngleClose,
}

impl Token {
    /// An identical copy of the token
    pub fn duplicate(&self) -> (r: Token)
        ensures
            r == *self,
    {
        match self {
            Token::Ident(s) => Token::Ident(s.clone()),
            Token::Str(s) => Token::Str(s.clone()),
            Token::Variable(s) => Token::Variable(s.clone()),
            Token::Semicolon => Token::Semicolon,
            Token::Colon => Token::Colon,
            Token::Comma => Token::Comma,
            Token::Pipe => Token::Pipe,
            Token::At => Token::At,
            Token::Bang => Token::Bang,
            Token::CurlyOpen => Token::CurlyOpen,
            Token::CurlyClose => Token::CurlyClose,
            Token::ParenOpen => Token::ParenOpen,
            Token::ParenClose => Token::ParenClose,
            Token::SquareOpen => Token::SquareOpen,
            Token::SquareClose => Token::SquareClose,
            Token::AngleOpen => Token::AngleOpen,
            Token::AngleClose => Token::AngleClose,
        }
    }
}

/// The mathematical form of a token
pub ghost enum TokenModel {
    Ident(Seq<char>),
    Str(Seq<char>),
    Variable(Seq<char>),
    Punct(char),
}

/// The mathematical form of a token: words by their text, punctuation by its character
pub open spec fn token_model(t: Token) -> TokenModel {
    match t {
        Token::Ident(s) => TokenModel::Ident(s@),
        Token::Str(s) => TokenModel::Str(s@),
        Token::Variable(s) => TokenModel::Variable(s@),
        Token::Semicolon => TokenModel::Punct(';'),
        Token::Colon => TokenModel::Punct(':'),
        Token::Comma => TokenModel::Punct(','),
        Token::Pipe => TokenModel::Punct('|'),
        Token::At => TokenModel::Punct('@'),
        Token::Bang => TokenModel::Punct('!'),
        Token::CurlyOpen => TokenModel::Punct('{'),
        Token::CurlyClose => TokenModel::Punct('}'),
        Token::ParenOpen => TokenModel::Punct('('),
        Token::ParenClose => TokenModel::Punct(')'),
        Token::SquareOpen => TokenModel::Punct('['),
        Token::SquareClose => TokenModel::Punct(']'),
        Token::AngleOpen => TokenModel::Punct('<'),
        Token::AngleClose => TokenModel::Punct('>'),
    }
}

/// Whether a character stands for a token by itself
pub open spec fn is_punct(c: char) -> bool {
    c == ';' || c == ':' || c == ',' || c == '|' || c == '@' || c == '!' || c == '{' || c == '}'
        || c == '(' || c == ')' || c == '[' || c == ']' || c == '<' || c == '>'
}

/// Whether a character can be part of a word
pub open spec fn is_ident_char(c: char) -> bool {
    ('a' <= c && c <= 'z') || ('A' <= c && c <= 'Z') || ('0' <= c && c <= '9') || c == '_' || c
        == '-' || c == '.'
}

/// Whether a character is white space between tokens
pub open spec fn is_space(c: char) -> bool {
    c == ' ' || c == '\t' || c == '\n' || c == '\r'
}

/// The end of the word that starts at `i`: the first position from `i` on that holds no word
/// character
pub open spec fn word_end(s: Seq<char>, i: int) -> int
    decreases s.len() - i,
{
    if i < 0 || i >= s.len() || !is_ident_char(s[i]) {
        i
    } else {
        word_end(s, i + 1)
    }
}

/// The first position from `i` on that holds the character `c`, or the length
pub open spec fn find_char(s: Seq<char>, i: int, c: char) -> int
    decreases s.len() - i,
{
    if i < 0 || i >= s.len() || s[i] == c {
        i
    } else {
        find_char(s, i + 1, c)
    }
}

/// What can go wrong while reading descriptor text
#[derive(Debug, Clone, Copy, PartialEq, Eq, Structural)]
pub enum LexErrorKind {
    /// A string literal without its closing quote
    UnterminatedString,
    /// A dollar sign without a variable name after it
    EmptyVariable,
    /// A character that starts no token
    UnexpectedChar,
}

/// An error while reading descriptor text, with where it happened
#[derive(Debug, Clone, Copy, PartialEq, Eq, Structural)]
pub struct LexError {
    /// What went wrong
    pub kind: LexErrorKind,
    /// Where it went wrong
    pub pos: TextPos,
}

/// The tokens of the text from position `i` on, each with the position where it starts, or
/// the error and where it happens
pub open spec fn lex_from(s: Seq<char>, i: int) -> Result<Seq<(TokenModel, int)>, (LexErrorKind, int)>
    decreases s.len() - i,
{
    if i < 0 || i >= s.len() {
        Ok(Seq::empty())
    } else {
        let c = s[i];
        if is_space(c) {
            lex_from(s, i + 1)
        } else if c == '#' {
            let j = find_char(s, i + 1, '\n');
            if i < j <= s.len() {
                lex_from(s, j)
            } else {
                Ok(Seq::empty())
            }
        } else if is_punct(c) {
            prepend((TokenModel::Punct(c), i), lex_from(s, i + 1))
        } else if c == '"' {
            let j = find_char(s, i + 1, '"');
            if j <= i || j >= s.len() {
                Err((LexErrorKind::UnterminatedString, i))
            } else {
                prepend((TokenModel::Str(s.subrange(i + 1, j)), i), lex_from(s, j + 1))
            }
        } else if c == '$' {
            let j = word_end(s, i + 1);
            if j <= i + 1 || j > s.len() {
                Err((LexErrorKind::EmptyVariable, i))
            } else {
                prepend((TokenModel::Variable(s.subrange(i + 1, j)), i), lex_from(s, j))
            }
        } else if is_ident_char(c) {
            let j = word_end(s, i);
            if j <= i || j > s.len() {
                Ok(Seq::empty())
            } else {
                prepend((TokenModel::Ident(s.subrange(i, j)), i), lex_from(s, j))
            }
        } else {
            Err((LexErrorKind::UnexpectedChar, i))
        }
    }
}

/// A token put before the rest of a result
pub open spec fn prepend(
    t: (TokenModel, int),
    rest: Result<Seq<(TokenModel, int)>, (LexErrorKind, int)>,
) -> Result<Seq<(TokenModel, int)>, (LexErrorKind, int)> {
    match rest {
        Ok(ts) => Ok(seq![t] + ts),
        Err(e) => Err(e),
    }
}

/// Tokens put before the rest of a result
pub open spec fn prepend_all(
    ts: Seq<(TokenModel, int)>,
    rest: Result<Seq<(TokenModel, int)>, (LexErrorKind, int)>,
) -> Result<Seq<(TokenModel, int)>, (LexErrorKind, int)> {
    match rest {
        Ok(r) => Ok(ts + r),
        Err(e) => Err(e),
    }
}

/// The line of position `i`, counted from 1
pub open spec fn line_at(s: Seq<char>, i: int) -> int
    decreases i,
{
    if i <= 0 {
        1
    } else if s[i - 1] == '\n' {
        line_at(s, i - 1) + 1
    } else {
        line_at(s, i - 1)
    }
}

/// The column of position `i`, counted from 1
pub open spec fn column_at(s: Seq<char>, i: int) -> int
    decreases i,
{
    if i <= 0 {
        1
    } else if s[i - 1] == '\n' {
        1
    } else {
        column_at(s, i - 1) + 1
    }
}

/// Whether a position names line and column of an offset
pub open spec fn pos_is(s: Seq<char>, i: int, pos: TextPos) -> bool {
    pos.line == line_at(s, i) && pos.column == column_at(s, i)
}

proof fn lemma_pos_bounds(s: Seq<char>, i: int)
    requires
        0 <= i,
    ensures
        1 <= line_at(s, i) <= i + 1,
        1 <= column_at(s, i) <= i + 1,
    decreases i,
{
    if i > 0 {
        lemma_pos_bounds(s, i - 1);
    }
}

/// Moves a position forward over the characters from `i` to `j`
fn advance_pos(text: &str, i: usize, j: usize, pos: TextPos) -> (r: TextPos)
    requires
        i <= j <= text@.len(),
        text@.len() < usize::MAX,
        pos_is(text@, i as int, pos),
    ensures
        pos_is(text@, j as int, r),
{
    let mut k = i;
    let mut p = pos;
    while k < j
        invariant
            i <= k <= j <= text@.len(),
            text@.len() < usize::MAX,
            pos_is(text@, k as int, p),
        decreases j - k,
    {
        proof {
            lemma_pos_bounds(text@, k as int + 1);
        }
        if text.get_char(k) == '\n' {
            p = TextPos { line: p.line + 1, column: 1 };
        } else {
            p = TextPos { line: p.line, column: p.column + 1 };
        }
        k = k + 1;
    }
    p
}

/// Finds the end of the word that starts at `i`
fn scan_word(text: &str, i: usize) -> (r: usize)
    requires
        i <= text@.len(),
    ensures
        r == word_end(text@, i as int),
        i <= r <= text@.len(),
        i < text@.len() && is_ident_char(text@[i as int]) ==> r > i,
{
    let n = text.unicode_len();
    let mut j = i;
    while j < n && is_word_char(text.get_char(j))
        invariant
            n == text@.len(),
            i <= j <= n,
            word_end(text@, i as int) == word_end(text@, j as int),
        decreases n - j,
    {
        j = j + 1;
    }
    j
}

/// Finds the first position from `i` on that holds `c`
fn scan_to(text: &str, i: usize, c: char) -> (r: usize)
    requires
        i <= text@.len(),
    ensures
        r == find_char(text@, i as int, c),
        i <= r <= text@.len(),
{
    let n = text.unicode_len();
    let mut j = i;
    while j < n && text.get_char(j) != c
        invariant
            n == text@.len(),
            i <= j <= n,
            find_char(text@, i as int, c) == find_char(text@, j as int, c),
        decreases n - j,
    {
        j = j + 1;
    }
    j
}

/// Checks whether a character can be part of a word
pub fn is_word_char(c: char) -> (r: bool)
    ensures
        r == is_ident_char(c),
{
    ('a' <= c && c <= 'z') || ('A' <= c && c <= 'Z') || ('0' <= c && c <= '9') || c == '_' || c
        == '-' || c == '.'
}

/// The token that a punctuation character stands for
fn punct_token(c: char) -> (r: Option<Token>)
    ensures
        r is Some <==> is_punct(c),
        r matches Some(t) ==> token_model(t) == TokenModel::Punct(c),
{
    if c == ';' {
        Some(Token::Semicolon)
    } else if c == ':' {
        Some(Token::Colon)
    } else if c == ',' {
        Some(Token::Comma)
    } else if c == '|' {
        Some(Token::Pipe)
    } else if c == '@' {
        Some(Token::At)
    } else if c == '!' {
        Some(Token::Bang)
    } else if c == '{' {
        Some(Token::CurlyOpen)
    } else if c == '}' {
        Some(Token::CurlyClose)
    } else if c == '(' {
        Some(Token::ParenOpen)
    } else if c == ')' {
        Some(Token::ParenClose)
    } else if c == '[' {
        Some(Token::SquareOpen)
    } else if c == ']' {
        Some(Token::SquareClose)
    } else if c == '<' {
        Some(Token::AngleOpen)
    } else if c == '>' {
        Some(Token::AngleClose)
    } else {
        None
    }
}

/// Whether a list of tokens with positions is what the text gives from position 0 on
pub open spec fn lexes_to(s: Seq<char>, toks: Seq<(Token, TextPos)>, m: Seq<(TokenModel, int)>) -> bool {
    &&& m.len() == toks.len()
    &&& forall|k: int|
        0 <= k < toks.len() ==> token_model((#[trigger] toks[k]).0) == m[k].0 && pos_is(
            s,
            m[k].1,
            toks[k].1,
        )
}

/// Reads descriptor text into tokens with their positions. White space and `#` comments
/// separate tokens.
pub fn lex(text: &str) -> (r: Result<Vec<(Token, TextPos)>, LexError>)
    requires
        text@.len() < usize::MAX,
    ensures
        match r {
            Ok(toks) => toks@.len() <= text@.len() && (lex_from(text@, 0) matches Ok(m) && lexes_to(
                text@,
                toks@,
                m,
            )),
            Err(e) => lex_from(text@, 0) matches Err((kind, off)) && e.kind == kind && pos_is(
                text@,
                off,
                e.pos,
            ),
        },
{
    let ghost s = text@;
    let n = text.unicode_len();
    let mut out: Vec<(Token, TextPos)> = Vec::new();
    let ghost mut m: Seq<(TokenModel, int)> = Seq::empty();
    let mut i: usize = 0;
    let mut pos = TextPos { line: 1, column: 1 };
    while i < n
        invariant
            n == s.len(),
            s == text@,
            n < usize::MAX,
            i <= n,
            pos_is(s, i as int, pos),
            out@.len() <= i,
            lexes_to(s, out@, m),
            lex_from(s, 0) == prepend_all(m, lex_from(s, i as int)),
        decreases n - i,
    {
        let c = text.get_char(i);
        let ghost before = out@;
        if c == ' ' || c == '\t' || c == '\n' || c == '\r' {
            let next = advance_pos(text, i, i + 1, pos);
            i = i + 1;
            pos = next;
        } else if c == '#' {
            let j = scan_to(text, i + 1, '\n');
            let next = advance_pos(text, i, j, pos);
            i = j;
            pos = next;
        } else if let Some(t) = punct_token(c) {
            out.push((t, pos));
            proof {
                let item = (TokenModel::Punct(c), i as int);
                assert(m.push(item) + lex_from(s, i + 1)->Ok_0 =~= m + (seq![item]
                    + lex_from(s, i + 1)->Ok_0));
                m = m.push(item);
            }
            let next = advance_pos(text, i, i + 1, pos);
            i = i + 1;
            pos = next;
        } else if c == '"' {
            let j = scan_to(text, i + 1, '"');
            if j >= n {
                return Err(LexError { kind: LexErrorKind::UnterminatedString, pos });
            }
            let content = owned(text.substring_char(i + 1, j));
            out.push((Token::Str(content), pos));
            proof {
                let item = (TokenModel::Str(s.subrange(i + 1, j as int)), i as int);
                assert(m.push(item) + lex_from(s, j + 1)->Ok_0 =~= m + (seq![item]
                    + lex_from(s, j + 1)->Ok_0));
                m = m.push(item);
            }
            let next = advance_pos(text, i, j + 1, pos);
            i = j + 1;
            pos = next;
        } else if c == '$' {
            let j = scan_word(text, i + 1);
            if j <= i + 1 {
                return Err(LexError { kind: LexErrorKind::EmptyVariable, pos });
            }
            let name = owned(text.substring_char(i + 1, j));
            out.push((Token::Variable(name), pos));
            proof {
                let item = (TokenModel::Variable(s.subrange(i + 1, j as int)), i as int);
                assert(m.push(item) + lex_from(s, j as int)->Ok_0 =~= m + (seq![item]
                    + lex_from(s, j as int)->Ok_0));
                m = m.push(item);
            }
            let next = advance_pos(text, i, j, pos);
            i = j;
            pos = next;
        } else if is_word_char(c) {
            let j = scan_word(text, i);
            let word = owned(text.substring_char(i, j));
            out.push((Token::Ident(word), pos));
            proof {
                let item = (TokenModel::Ident(s.subrange(i as int, j as int)), i as int);
                assert(m.push(item) + lex_from(s, j as int)->Ok_0 =~= m + (seq![item]
                    + lex_from(s, j as int)->Ok_0));
                m = m.push(item);
            }
            let next = advance_pos(text, i, j, pos);
            i = j;
            pos = next;
        } else {
            return Err(LexError { kind: LexErrorKind::UnexpectedChar, pos });
        }
    }
    proof {
        assert(m + Seq::<(TokenModel, int)>::empty() =~= m);
    }
    Ok(out)
}

} // verus!
