use vstd::prelude::*;
use vstd::string::StringSliceAdditionalSpecFns;

use crate::error::Error;
use crate::text::{
    chars_of, is_alnum_ascii, is_alnum_char, is_alpha_ascii, is_alpha_char, is_ascii_whitespace_char,
    is_digit_ascii, is_digit_char, is_whitespace_ascii, is_upper_char, string_from_chars, upper, upper_char, upper_equals,
};

verus! {

broadcast use vstd::string::group_string_axioms;

/// The kinds of tokens of the query language.
#[derive(Debug, Clone, Copy, PartialEq, Eq, Structural)]
pub enum TokenType {
    // End of file
    Eof,
    // Identifiers and literals
    Identifier,
    Number,
    String,
    // Statements
    Insert,
    Select,
    Delete,
    // Keywords
    Into,
    From,
    Where,
    On,
    Limit,
    OrderBy,
    True,
    False,
    // Joins
    Join,
    InnerJoin,
    LeftOuterJoin,
    RightOuterJoin,
    FullOuterJoin,
    CrossJoin,
    // Delimiters
    LParen,
    RParen,
    Comma,
    Dot,
    // Single-char operators
    Star,
    Plus,
    Minus,
    Slash,
    Less,
    Greater,
    // Multi-char operators
    Equal,  // ==
    NotEqual,  // !=
    LessEqual,  // <=
    GreaterEqual,  // >=
    And,  // &&
    Or,  // ||
}

/// A single token with its type, lexeme, and source location (0-based).
#[derive(Debug, Clone)]
pub struct Token {
    pub tag: TokenType,
    pub lexeme: String,
    pub row: usize,
    pub column: usize,
}

/// The mathematical content of a token.
pub ghost struct TokenV {
    pub tag: TokenType,
    pub lexeme: Seq<char>,
    pub row: int,
    pub column: int,
}

impl View for Token {
    type V = TokenV;

    open spec fn view(&self) -> TokenV {
        TokenV { tag: self.tag, lexeme: self.lexeme@, row: self.row as int, column: self.column as int }
    }
}

pub open spec fn token_views(ts: Seq<Token>) -> Seq<TokenV> {
    ts.map_values(|t: Token| t@)
}

pub open spec fn mk_token(tag: TokenType, lexeme: Seq<char>, row: int, column: int) -> TokenV {
    TokenV { tag, lexeme, row, column }
}

/// The operator made of `c` followed by `next`, if any.
pub open spec fn multi_char_tag(c: char, next: Option<char>) -> Option<TokenType> {
    match next {
        Some(n) => if c == '=' && n == '=' {
            Some(TokenType::Equal)
        } else if c == '!' && n == '=' {
            Some(TokenType::NotEqual)
        } else if c == '<' && n == '=' {
            Some(TokenType::LessEqual)
        } else if c == '>' && n == '=' {
            Some(TokenType::GreaterEqual)
        } else if c == '&' && n == '&' {
            Some(TokenType::And)
        } else if c == '|' && n == '|' {
            Some(TokenType::Or)
        } else {
            None
        },
        None => None,
    }
}

/// The token that the single character `c` forms, if any.
pub open spec fn single_char_tag(c: char) -> Option<TokenType> {
    if c == '(' {
        Some(TokenType::LParen)
    } else if c == ')' {
        Some(TokenType::RParen)
    } else if c == ',' {
        Some(TokenType::Comma)
    } else if c == '.' {
        Some(TokenType::Dot)
    } else if c == '*' {
        Some(TokenType::Star)
    } else if c == '+' {
        Some(TokenType::Plus)
    } else if c == '-' {
        Some(TokenType::Minus)
    } else if c == '/' {
        Some(TokenType::Slash)
    } else if c == '<' {
        Some(TokenType::Less)
    } else if c == '>' {
        Some(TokenType::Greater)
    } else {
        None
    }
}

/// The tag of a word: a keyword (compared without regard to ASCII case) or an identifier.
pub open spec fn keyword_tag(w: Seq<char>) -> TokenType {
    let u = upper(w);
    if u == seq!['I', 'N', 'S', 'E', 'R', 'T'] {
        TokenType::Insert
    } else if u == seq!['S', 'E', 'L', 'E', 'C', 'T'] {
        TokenType::Select
    } else if u == seq!['D', 'E', 'L', 'E', 'T', 'E'] {
        TokenType::Delete
    } else if u == seq!['I', 'N', 'T', 'O'] {
        TokenType::Into
    } else if u == seq!['F', 'R', 'O', 'M'] {
        TokenType::From
    } else if u == seq!['W', 'H', 'E', 'R', 'E'] {
        TokenType::Where
    } else if u == seq!['O', 'N'] {
        TokenType::On
    } else if u == seq!['L', 'I', 'M', 'I', 'T'] {
        TokenType::Limit
    } else if u == seq!['T', 'R', 'U', 'E'] {
        TokenType::True
    } else if u == seq!['F', 'A', 'L', 'S', 'E'] {
        TokenType::False
    } else if u == seq!['J', 'O', 'I', 'N'] {
        TokenType::Join
    } else {
        TokenType::Identifier
    }
}

pub open spec fn char_at(s: Seq<char>, i: int) -> Option<char> {
    if 0 <= i < s.len() {
        Some(s[i])
    } else {
        None
    }
}

pub open spec fn ident_start(c: char) -> bool {
    is_alpha_char(c) || c == '_'
}

pub open spec fn ident_continue(c: char) -> bool {
    is_alnum_char(c) || c == '_'
}

/// End of a line comment that starts at `k`: the next line feed, or the end of input.
pub open spec fn comment_end(s: Seq<char>, k: int) -> int
    decreases s.len() - k,
{
    if k < 0 || k >= s.len() || s[k] == '\n' {
        k
    } else {
        comment_end(s, k + 1)
    }
}

/// End of the digits (with at most one '.', never one followed by another '.')
/// of a number whose remaining characters start at `k`.
pub open spec fn number_end(s: Seq<char>, k: int, has_dot: bool) -> int
    decreases s.len() - k,
{
    if k < 0 || k >= s.len() {
        k
    } else if is_digit_char(s[k]) {
        number_end(s, k + 1, has_dot)
    } else if s[k] == '.' && !has_dot && char_at(s, k + 1) != Some('.') {
        number_end(s, k + 1, true)
    } else {
        k
    }
}

/// First position at or after `k` that holds a quote or a line feed, or the end of input.
pub open spec fn string_end(s: Seq<char>, k: int) -> int
    decreases s.len() - k,
{
    if k < 0 || k >= s.len() || s[k] == '"' || s[k] == '\n' {
        k
    } else {
        string_end(s, k + 1)
    }
}

/// End of the identifier characters starting at `k`.
pub open spec fn ident_end(s: Seq<char>, k: int) -> int
    decreases s.len() - k,
{
    if k < 0 || k >= s.len() || !ident_continue(s[k]) {
        k
    } else {
        ident_end(s, k + 1)
    }
}

pub proof fn lemma_comment_end(s: Seq<char>, k: int)
    requires
        0 <= k <= s.len(),
    ensures
        k <= comment_end(s, k) <= s.len(),
        forall|j: int| k <= j < comment_end(s, k) ==> s[j] != '\n',
    decreases s.len() - k,
{
    if k < s.len() && s[k] != '\n' {
        lemma_comment_end(s, k + 1);
    }
}

pub proof fn lemma_number_end(s: Seq<char>, k: int, has_dot: bool)
    requires
        0 <= k <= s.len(),
    ensures
        k <= number_end(s, k, has_dot) <= s.len(),
        forall|j: int| k <= j < number_end(s, k, has_dot) ==> s[j] != '\n',
    decreases s.len() - k,
{
    if k < s.len() {
        if is_digit_char(s[k]) {
            lemma_number_end(s, k + 1, has_dot);
        } else if s[k] == '.' && !has_dot && char_at(s, k + 1) != Some('.') {
            lemma_number_end(s, k + 1, true);
        }
    }
}

pub proof fn lemma_string_end(s: Seq<char>, k: int)
    requires
        0 <= k <= s.len(),
    ensures
        k <= string_end(s, k) <= s.len(),
        string_end(s, k) < s.len() ==> (s[string_end(s, k)] == '"' || s[string_end(s, k)]
            == '\n'),
        forall|j: int| k <= j < string_end(s, k) ==> s[j] != '\n' && s[j] != '"',
    decreases s.len() - k,
{
    if k < s.len() && s[k] != '"' && s[k] != '\n' {
        lemma_string_end(s, k + 1);
    }
}

pub proof fn lemma_ident_end(s: Seq<char>, k: int)
    requires
        0 <= k <= s.len(),
    ensures
        k <= ident_end(s, k) <= s.len(),
        forall|j: int| k <= j < ident_end(s, k) ==> ident_continue(s[j]),
    decreases s.len() - k,
{
    if k < s.len() && ident_continue(s[k]) {
        lemma_ident_end(s, k + 1);
    }
}

pub open spec fn prepend(p: Seq<TokenV>, r: Result<Seq<TokenV>, Error>) -> Result<
    Seq<TokenV>,
    Error,
> {
    match r {
        Ok(ts) => Ok(p + ts),
        Err(e) => Err(e),
    }
}

/// The tokens of `s` from position `i` on, when the lexer stands at (`row`, `col`).
pub open spec fn scan(s: Seq<char>, i: int, row: int, col: int) -> Result<Seq<TokenV>, Error>
    decreases s.len() - i,
{
    if i < 0 || i >= s.len() {
        Ok(seq![mk_token(TokenType::Eof, seq![], row, col)])
    } else {
        let c = s[i];
        if is_ascii_whitespace_char(c) {
            if c == '\n' {
                scan(s, i + 1, row + 1, 0)
            } else {
                scan(s, i + 1, row, col + 1)
            }
        } else if c == '#' {
            let j = comment_end(s, i);
            proof {
                lemma_comment_end(s, i + 1);
            }
            scan(s, j, row, col + (j - i))
        } else if multi_char_tag(c, char_at(s, i + 1)) is Some {
            prepend(
                seq![
                    mk_token(
                        multi_char_tag(c, char_at(s, i + 1))->0,
                        s.subrange(i, i + 2),
                        row,
                        col,
                    ),
                ],
                scan(s, i + 2, row, col + 2),
            )
        } else if single_char_tag(c) is Some {
            prepend(
                seq![mk_token(single_char_tag(c)->0, seq![c], row, col)],
                scan(s, i + 1, row, col + 1),
            )
        } else if is_digit_char(c) {
            let j = number_end(s, i + 1, false);
            proof {
                lemma_number_end(s, i + 1, false);
            }
            prepend(
                seq![mk_token(TokenType::Number, s.subrange(i, j), row, col)],
                scan(s, j, row, col + (j - i)),
            )
        } else if c == '"' {
            let k = string_end(s, i + 1);
            proof {
                lemma_string_end(s, i + 1);
            }
            if k < s.len() && s[k] == '"' {
                prepend(
                    seq![mk_token(TokenType::String, s.subrange(i + 1, k), row, col)],
                    scan(s, k + 1, row, col + (k + 1 - i)),
                )
            } else {
                Err(
                    Error::UnterminatedString {
                        row: (row + 1) as usize,
                        col: (col + (k - i) + 1) as usize,
                    },
                )
            }
        } else if ident_start(c) {
            let j = ident_end(s, i + 1);
            proof {
                lemma_ident_end(s, i + 1);
            }
            prepend(
                seq![mk_token(keyword_tag(s.subrange(i, j)), s.subrange(i, j), row, col)],
                scan(s, j, row, col + (j - i)),
            )
        } else {
            Err(Error::InvalidCharacter { ch: c, row: (row + 1) as usize, col: (col + 1) as usize })
        }
    }
}


pub open spec fn is_word(ts: Seq<TokenV>, k: int, w: Seq<char>) -> bool {
    0 <= k < ts.len() && ts[k].tag == TokenType::Identifier && upper(ts[k].lexeme) == w
}

pub open spec fn is_join(ts: Seq<TokenV>, k: int) -> bool {
    0 <= k < ts.len() && ts[k].tag == TokenType::Join
}

pub open spec fn word_order() -> Seq<char> {
    seq!['O', 'R', 'D', 'E', 'R']
}

pub open spec fn word_by() -> Seq<char> {
    seq!['B', 'Y']
}

pub open spec fn word_inner() -> Seq<char> {
    seq!['I', 'N', 'N', 'E', 'R']
}

pub open spec fn word_cross() -> Seq<char> {
    seq!['C', 'R', 'O', 'S', 'S']
}

pub open spec fn word_left() -> Seq<char> {
    seq!['L', 'E', 'F', 'T']
}

pub open spec fn word_right() -> Seq<char> {
    seq!['R', 'I', 'G', 'H', 'T']
}

pub open spec fn word_full() -> Seq<char> {
    seq!['F', 'U', 'L', 'L']
}

pub open spec fn word_outer() -> Seq<char> {
    seq!['O', 'U', 'T', 'E', 'R']
}

/// An outer join keyword (`LEFT`, `RIGHT` or `FULL`), optionally followed by `OUTER`,
/// then `JOIN`: the number of tokens it spans.
pub open spec fn outer_join_len(ts: Seq<TokenV>, k: int, w: Seq<char>) -> int {
    if is_word(ts, k, w) && is_word(ts, k + 1, word_outer()) && is_join(ts, k + 2) {
        3
    } else if is_word(ts, k, w) && is_join(ts, k + 1) {
        2
    } else {
        0
    }
}

/// The keyword of several words that starts at token `k`, with the number of words.
pub open spec fn compound_keyword(ts: Seq<TokenV>, k: int) -> Option<(TokenType, int)> {
    if is_word(ts, k, word_order()) && is_word(ts, k + 1, word_by()) {
        Some((TokenType::OrderBy, 2))
    } else if is_word(ts, k, word_inner()) && is_join(ts, k + 1) {
        Some((TokenType::InnerJoin, 2))
    } else if is_word(ts, k, word_cross()) && is_join(ts, k + 1) {
        Some((TokenType::CrossJoin, 2))
    } else if outer_join_len(ts, k, word_left()) > 0 {
        Some((TokenType::LeftOuterJoin, outer_join_len(ts, k, word_left())))
    } else if outer_join_len(ts, k, word_right()) > 0 {
        Some((TokenType::RightOuterJoin, outer_join_len(ts, k, word_right())))
    } else if outer_join_len(ts, k, word_full()) > 0 {
        Some((TokenType::FullOuterJoin, outer_join_len(ts, k, word_full())))
    } else {
        None
    }
}

/// The words of tokens `k .. k + n`, one after the other.
pub open spec fn joined_lexeme(ts: Seq<TokenV>, k: int, n: int) -> Seq<char>
    decreases n,
{
    if n <= 1 {
        ts[k].lexeme
    } else {
        ts[k].lexeme + joined_lexeme(ts, k + 1, n - 1)
    }
}

/// Tokens `k ..` with every keyword of several words made into one token.
pub open spec fn combine_from(ts: Seq<TokenV>, k: int) -> Seq<TokenV>
    decreases ts.len() - k,
{
    if k < 0 || k >= ts.len() {
        seq![]
    } else {
        match compound_keyword(ts, k) {
            Some((tag, n)) => if n >= 1 {
                seq![mk_token(tag, joined_lexeme(ts, k, n), ts[k].row, ts[k].column)]
                    + combine_from(ts, k + n)
            } else {
                seq![]
            },
            None => seq![ts[k]] + combine_from(ts, k + 1),
        }
    }
}

/// What lexing `s` gives: the tokens of `s`, ending with `Eof`, with every
/// keyword of several words made into one token; or the first error.
pub open spec fn lex_spec(s: Seq<char>) -> Result<Seq<TokenV>, Error> {
    match scan(s, 0, 0, 0) {
        Ok(ts) => Ok(combine_from(ts, 0)),
        Err(e) => Err(e),
    }
}



// ---------------------------------------------------------------------------
// What the tokens keep of the input.

/// `s` from position `i` on without the whitespace outside string literals and
/// without the comments (from `#` to the end of the line).
pub open spec fn stripped(s: Seq<char>, i: int) -> Seq<char>
    decreases s.len() - i,
{
    if i < 0 || i >= s.len() {
        seq![]
    } else if is_ascii_whitespace_char(s[i]) {
        stripped(s, i + 1)
    } else if s[i] == '#' {
        let j = comment_end(s, i);
        proof {
            lemma_comment_end(s, i + 1);
        }
        stripped(s, j)
    } else if s[i] == '"' {
        let k = string_end(s, i + 1);
        proof {
            lemma_string_end(s, i + 1);
        }
        if k < s.len() && s[k] == '"' {
            s.subrange(i, k + 1) + stripped(s, k + 1)
        } else {
            s.subrange(i, s.len() as int)
        }
    } else {
        seq![s[i]] + stripped(s, i + 1)
    }
}

/// The input text a token stands for: its lexeme, a string's within its quotes.
pub open spec fn token_source(t: TokenV) -> Seq<char> {
    if t.tag == TokenType::String {
        seq!['"'] + t.lexeme + seq!['"']
    } else {
        t.lexeme
    }
}

/// The texts of the tokens `ts`, one after the other.
pub open spec fn sources(ts: Seq<TokenV>) -> Seq<char>
    decreases ts.len(),
{
    if ts.len() == 0 {
        seq![]
    } else {
        token_source(ts[0]) + sources(ts.drop_first())
    }
}

proof fn lemma_sources_prepend(t: TokenV, rest: Seq<TokenV>)
    ensures
        sources(seq![t] + rest) == token_source(t) + sources(rest),
{
    assert((seq![t] + rest).drop_first() =~= rest);
}

/// A character that is no whitespace, no comment start and no quote is kept as it is.
pub open spec fn plain_char(c: char) -> bool {
    !is_ascii_whitespace_char(c) && c != '#' && c != '"'
}

proof fn lemma_plain_run(s: Seq<char>, i: int, j: int)
    requires
        0 <= i <= j <= s.len(),
        forall|m: int| i <= m < j ==> plain_char(#[trigger] s[m]),
    ensures
        stripped(s, i) == s.subrange(i, j) + stripped(s, j),
    decreases j - i,
{
    if i < j {
        lemma_plain_run(s, i + 1, j);
        assert(plain_char(s[i]));
        assert(s.subrange(i, j) =~= seq![s[i]] + s.subrange(i + 1, j));
    } else {
        assert(s.subrange(i, j) =~= Seq::<char>::empty());
    }
}

proof fn lemma_number_chars(s: Seq<char>, k: int, has_dot: bool)
    requires
        0 <= k <= s.len(),
    ensures
        forall|m: int| k <= m < number_end(s, k, has_dot) ==> is_digit_char(#[trigger] s[m]) || s[m] == '.',
    decreases s.len() - k,
{
    if k < s.len() {
        if is_digit_char(s[k]) {
            lemma_number_chars(s, k + 1, has_dot);
        } else if s[k] == '.' && !has_dot && char_at(s, k + 1) != Some('.') {
            lemma_number_chars(s, k + 1, true);
        }
    }
}

/// The texts of the tokens that `scan` gives from `i` on are the input from `i`
/// on without whitespace outside strings and without comments.
proof fn lemma_scan_sources(s: Seq<char>, i: int, row: int, col: int)
    requires
        0 <= i <= s.len(),
    ensures
        scan(s, i, row, col) matches Ok(ts) ==> sources(ts) == stripped(s, i),
    decreases s.len() - i,
{
    if i < s.len() {
        let c = s[i];
        if is_ascii_whitespace_char(c) {
            if c == '\n' {
                lemma_scan_sources(s, i + 1, row + 1, 0);
            } else {
                lemma_scan_sources(s, i + 1, row, col + 1);
            }
        } else if c == '#' {
            lemma_comment_end(s, i + 1);
            let j = comment_end(s, i);
            lemma_scan_sources(s, j, row, col + (j - i));
        } else if multi_char_tag(c, char_at(s, i + 1)) is Some {
            let t = mk_token(multi_char_tag(c, char_at(s, i + 1))->0, s.subrange(i, i + 2), row, col);
            lemma_scan_sources(s, i + 2, row, col + 2);
            lemma_plain_run(s, i, i + 2);
            if scan(s, i + 2, row, col + 2) is Ok {
                lemma_sources_prepend(t, scan(s, i + 2, row, col + 2)->Ok_0);
            }
        } else if single_char_tag(c) is Some {
            let t = mk_token(single_char_tag(c)->0, seq![c], row, col);
            lemma_scan_sources(s, i + 1, row, col + 1);
            if scan(s, i + 1, row, col + 1) is Ok {
                lemma_sources_prepend(t, scan(s, i + 1, row, col + 1)->Ok_0);
            }
        } else if is_digit_char(c) {
            let j = number_end(s, i + 1, false);
            lemma_number_end(s, i + 1, false);
            lemma_number_chars(s, i + 1, false);
            lemma_plain_run(s, i, j);
            let t = mk_token(TokenType::Number, s.subrange(i, j), row, col);
            lemma_scan_sources(s, j, row, col + (j - i));
            if scan(s, j, row, col + (j - i)) is Ok {
                lemma_sources_prepend(t, scan(s, j, row, col + (j - i))->Ok_0);
            }
        } else if c == '"' {
            let k = string_end(s, i + 1);
            lemma_string_end(s, i + 1);
            if k < s.len() && s[k] == '"' {
                let t = mk_token(TokenType::String, s.subrange(i + 1, k), row, col);
                lemma_scan_sources(s, k + 1, row, col + (k + 1 - i));
                assert(token_source(t) =~= s.subrange(i, k + 1));
                if scan(s, k + 1, row, col + (k + 1 - i)) is Ok {
                    lemma_sources_prepend(t, scan(s, k + 1, row, col + (k + 1 - i))->Ok_0);
                }
            }
        } else if ident_start(c) {
            let j = ident_end(s, i + 1);
            lemma_ident_end(s, i + 1);
            lemma_plain_run(s, i, j);
            let t = mk_token(keyword_tag(s.subrange(i, j)), s.subrange(i, j), row, col);
            lemma_scan_sources(s, j, row, col + (j - i));
            if scan(s, j, row, col + (j - i)) is Ok {
                lemma_sources_prepend(t, scan(s, j, row, col + (j - i))->Ok_0);
            }
        }
    } else {
        let t = mk_token(TokenType::Eof, seq![], row, col);
        lemma_sources_prepend(t, seq![]);
        assert(seq![t] + Seq::<TokenV>::empty() =~= seq![t]);
    }
}

/// How many words the keyword of several words at token `k` spans; 0 where none starts.
pub open spec fn compound_len(ts: Seq<TokenV>, k: int) -> int {
    match compound_keyword(ts, k) {
        Some((_, n)) => n,
        None => 0,
    }
}

/// The kind of the keyword of several words at token `k`; `Eof` where none starts.
pub open spec fn compound_tag(ts: Seq<TokenV>, k: int) -> TokenType {
    match compound_keyword(ts, k) {
        Some((t, _)) => t,
        None => TokenType::Eof,
    }
}

/// The words a keyword of several words is made of are no string literals.
proof fn lemma_compound_words(ts: Seq<TokenV>, k: int)
    requires
        compound_keyword(ts, k) is Some,
    ensures
        compound_len(ts, k) == 2 || compound_len(ts, k) == 3,
        k + compound_len(ts, k) <= ts.len(),
        forall|m: int| k <= m < k + compound_len(ts, k) ==> #[trigger] ts[m].tag != TokenType::String,
{
}

proof fn lemma_joined_sources(ts: Seq<TokenV>, k: int, n: int)
    requires
        1 <= n,
        0 <= k,
        k + n <= ts.len(),
        forall|m: int| k <= m < k + n ==> #[trigger] ts[m].tag != TokenType::String,
    ensures
        joined_lexeme(ts, k, n) + sources(ts.skip(k + n)) == sources(ts.skip(k)),
    decreases n,
{
    assert(ts.skip(k).drop_first() =~= ts.skip(k + 1));
    assert(ts.skip(k)[0] == ts[k]);
    if n > 1 {
        lemma_joined_sources(ts, k + 1, n - 1);
    }
}

proof fn lemma_combine_sources(ts: Seq<TokenV>, k: int)
    requires
        0 <= k <= ts.len(),
    ensures
        sources(combine_from(ts, k)) == sources(ts.skip(k)),
    decreases ts.len() - k,
{
    if k >= ts.len() {
        assert(ts.skip(k) =~= Seq::<TokenV>::empty());
    } else {
        match compound_keyword(ts, k) {
            Some((tag, n)) => {
                lemma_compound_words(ts, k);
                lemma_combine_sources(ts, k + n);
                lemma_joined_sources(ts, k, n);
                let t = mk_token(tag, joined_lexeme(ts, k, n), ts[k].row, ts[k].column);
                lemma_sources_prepend(t, combine_from(ts, k + n));
            },
            None => {
                lemma_combine_sources(ts, k + 1);
                lemma_sources_prepend(ts[k], combine_from(ts, k + 1));
                assert(ts.skip(k).drop_first() =~= ts.skip(k + 1));
            },
        }
    }
}

/// Lexing loses nothing of the input but whitespace outside string literals and
/// comments: the texts of the tokens (a string's within its quotes), one after
/// the other, are the input with those left out.
pub proof fn lemma_lex_keeps_text(s: Seq<char>)
    ensures
        lex_spec(s) matches Ok(ts) ==> sources(ts) == stripped(s, 0),
{
    lemma_scan_sources(s, 0, 0, 0);
    if scan(s, 0, 0, 0) is Ok {
        let ts = scan(s, 0, 0, 0)->Ok_0;
        lemma_combine_sources(ts, 0);
        assert(ts.skip(0) =~= ts);
    }
}


/// The row of position `o` of `s`: the line feeds before it.
pub open spec fn row_of(s: Seq<char>, o: int) -> int
    decreases o,
{
    if o <= 0 || o > s.len() {
        0
    } else if s[o - 1] == '\n' {
        row_of(s, o - 1) + 1
    } else {
        row_of(s, o - 1)
    }
}

/// The column of position `o` of `s`: the characters since the last line feed before it.
pub open spec fn col_of(s: Seq<char>, o: int) -> int
    decreases o,
{
    if o <= 0 || o > s.len() {
        0
    } else if s[o - 1] == '\n' {
        0
    } else {
        col_of(s, o - 1) + 1
    }
}

proof fn lemma_same_line(s: Seq<char>, i: int, j: int)
    requires
        0 <= i <= j <= s.len(),
        forall|m: int| i <= m < j ==> #[trigger] s[m] != '\n',
    ensures
        row_of(s, j) == row_of(s, i),
        col_of(s, j) == col_of(s, i) + (j - i),
    decreases j - i,
{
    if i < j {
        lemma_same_line(s, i, j - 1);
        assert(s[j - 1] != '\n');
    }
}

/// Token `k` of `ts` stands at position `o` of `s`: at its row and column, and
/// from there on `s`, without whitespace outside strings and without comments,
/// reads as the texts of token `k` and those after it.
pub open spec fn stands_at(s: Seq<char>, ts: Seq<TokenV>, k: int, o: int) -> bool {
    &&& 0 <= o <= s.len()
    &&& row_of(s, o) == ts[k].row
    &&& col_of(s, o) == ts[k].column
    &&& stripped(s, o) == sources(ts.skip(k))
}

/// Token `k` of `ts` stands somewhere in `s` at or after `lo`.
pub open spec fn stands(s: Seq<char>, ts: Seq<TokenV>, k: int, lo: int) -> bool {
    exists|o: int| lo <= o && #[trigger] stands_at(s, ts, k, o)
}

/// Every token of `ts` stands somewhere in `s` at or after `lo`.
pub open spec fn all_stand(s: Seq<char>, ts: Seq<TokenV>, lo: int) -> bool {
    forall|k: int| 0 <= k < ts.len() ==> #[trigger] stands(s, ts, k, lo)
}

proof fn lemma_stand_prepend(s: Seq<char>, t: TokenV, rest: Seq<TokenV>, i: int, j: int)
    requires
        0 <= i <= j <= s.len(),
        all_stand(s, rest, j),
        row_of(s, i) == t.row,
        col_of(s, i) == t.column,
        stripped(s, i) == sources(seq![t] + rest),
    ensures
        all_stand(s, seq![t] + rest, i),
{
    let ts = seq![t] + rest;
    assert forall|k: int| 0 <= k < ts.len() implies #[trigger] stands(s, ts, k, i) by {
        if k == 0 {
            assert(ts.skip(0) =~= ts);
            assert(stands_at(s, ts, 0, i));
        } else {
            assert(stands(s, rest, k - 1, j));
            let o = choose|o: int| j <= o && #[trigger] stands_at(s, rest, k - 1, o);
            assert(ts.skip(k) =~= rest.skip(k - 1));
            assert(ts[k] == rest[k - 1]);
            assert(stands_at(s, ts, k, o));
        }
    }
}

proof fn lemma_stand_lower(s: Seq<char>, ts: Seq<TokenV>, lo: int, lo2: int)
    requires
        lo2 <= lo,
        all_stand(s, ts, lo),
    ensures
        all_stand(s, ts, lo2),
{
    assert forall|k: int| 0 <= k < ts.len() implies #[trigger] stands(s, ts, k, lo2) by {
        assert(stands(s, ts, k, lo));
        let o = choose|o: int| lo <= o && #[trigger] stands_at(s, ts, k, o);
        assert(lo2 <= o && stands_at(s, ts, k, o));
    }
}

proof fn lemma_scan_stands(s: Seq<char>, i: int, row: int, col: int)
    requires
        0 <= i <= s.len(),
        row == row_of(s, i),
        col == col_of(s, i),
    ensures
        scan(s, i, row, col) matches Ok(ts) ==> all_stand(s, ts, i),
    decreases s.len() - i,
{
    lemma_scan_sources(s, i, row, col);
    if i < s.len() {
        let c = s[i];
        if is_ascii_whitespace_char(c) {
            if c == '\n' {
                lemma_scan_stands(s, i + 1, row + 1, 0);
            } else {
                lemma_scan_stands(s, i + 1, row, col + 1);
            }
            if scan(s, i, row, col) is Ok {
                lemma_stand_lower(s, scan(s, i, row, col)->Ok_0, i + 1, i);
            }
        } else if c == '#' {
            lemma_comment_end(s, i + 1);
            let j = comment_end(s, i);
            lemma_same_line(s, i, j);
            lemma_scan_stands(s, j, row, col + (j - i));
            if scan(s, i, row, col) is Ok {
                lemma_stand_lower(s, scan(s, i, row, col)->Ok_0, j, i);
            }
        } else if multi_char_tag(c, char_at(s, i + 1)) is Some {
            let t = mk_token(multi_char_tag(c, char_at(s, i + 1))->0, s.subrange(i, i + 2), row, col);
            lemma_same_line(s, i, i + 2);
            lemma_scan_stands(s, i + 2, row, col + 2);
            if scan(s, i + 2, row, col + 2) is Ok {
                lemma_stand_prepend(s, t, scan(s, i + 2, row, col + 2)->Ok_0, i, i + 2);
            }
        } else if single_char_tag(c) is Some {
            let t = mk_token(single_char_tag(c)->0, seq![c], row, col);
            lemma_same_line(s, i, i + 1);
            lemma_scan_stands(s, i + 1, row, col + 1);
            if scan(s, i + 1, row, col + 1) is Ok {
                lemma_stand_prepend(s, t, scan(s, i + 1, row, col + 1)->Ok_0, i, i + 1);
            }
        } else if is_digit_char(c) {
            let j = number_end(s, i + 1, false);
            lemma_number_end(s, i + 1, false);
            lemma_same_line(s, i, j);
            let t = mk_token(TokenType::Number, s.subrange(i, j), row, col);
            lemma_scan_stands(s, j, row, col + (j - i));
            if scan(s, j, row, col + (j - i)) is Ok {
                lemma_stand_prepend(s, t, scan(s, j, row, col + (j - i))->Ok_0, i, j);
            }
        } else if c == '"' {
            let k = string_end(s, i + 1);
            lemma_string_end(s, i + 1);
            if k < s.len() && s[k] == '"' {
                lemma_same_line(s, i, k + 1);
                let t = mk_token(TokenType::String, s.subrange(i + 1, k), row, col);
                lemma_scan_stands(s, k + 1, row, col + (k + 1 - i));
                if scan(s, k + 1, row, col + (k + 1 - i)) is Ok {
                    lemma_stand_prepend(s, t, scan(s, k + 1, row, col + (k + 1 - i))->Ok_0, i, k + 1);
                }
            }
        } else if ident_start(c) {
            let j = ident_end(s, i + 1);
            lemma_ident_end(s, i + 1);
            lemma_same_line(s, i, j);
            let t = mk_token(keyword_tag(s.subrange(i, j)), s.subrange(i, j), row, col);
            lemma_scan_stands(s, j, row, col + (j - i));
            if scan(s, j, row, col + (j - i)) is Ok {
                lemma_stand_prepend(s, t, scan(s, j, row, col + (j - i))->Ok_0, i, j);
            }
        }
    } else {
        let t = mk_token(TokenType::Eof, seq![], row, col);
        let ts = seq![t];
        assert(ts.skip(0) =~= ts);
        lemma_sources_prepend(t, seq![]);
        assert(seq![t] + Seq::<TokenV>::empty() =~= ts);
        assert(stands_at(s, ts, 0, i));
        assert(stands(s, ts, 0, i));
    }
}

/// Each token of the combined tokens from `k0` on is a token of `ts` from `k0`
/// on, or a keyword of several words that starts with one, at its row and
/// column, with the same texts from there on.
proof fn lemma_combine_stands(s: Seq<char>, ts: Seq<TokenV>, k0: int, lo: int)
    requires
        0 <= k0 <= ts.len(),
        forall|k: int| k0 <= k < ts.len() ==> #[trigger] stands(s, ts, k, lo),
    ensures
        all_stand(s, combine_from(ts, k0), lo),
    decreases ts.len() - k0,
{
    let cs = combine_from(ts, k0);
    if k0 < ts.len() {
        let n = match compound_keyword(ts, k0) {
            Some((_, n)) => n,
            None => 1,
        };
        if compound_keyword(ts, k0) is Some {
            lemma_compound_words(ts, k0);
        }
        lemma_combine_stands(s, ts, k0 + n, lo);
        lemma_combine_sources(ts, k0);
        let rest = combine_from(ts, k0 + n);
        assert(cs == seq![cs[0]] + rest);
        assert(cs[0].row == ts[k0].row && cs[0].column == ts[k0].column);
        assert forall|k: int| 0 <= k < cs.len() implies #[trigger] stands(s, cs, k, lo) by {
            if k == 0 {
                assert(stands(s, ts, k0, lo));
                let o = choose|o: int| lo <= o && #[trigger] stands_at(s, ts, k0, o);
                assert(cs.skip(0) =~= cs);
                assert(stands_at(s, cs, 0, o));
            } else {
                assert(stands(s, rest, k - 1, lo));
                let o = choose|o: int| lo <= o && #[trigger] stands_at(s, rest, k - 1, o);
                assert(cs.skip(k) =~= rest.skip(k - 1));
                assert(cs[k] == rest[k - 1]);
                assert(stands_at(s, cs, k, o));
            }
        }
    }
}

/// Every token that lexing gives stands at its row and column: from there on
/// the input, without whitespace outside strings and without comments, reads
/// as the texts of that token and of those after it.
pub proof fn lemma_lex_positions(s: Seq<char>)
    ensures
        lex_spec(s) matches Ok(ts) ==> all_stand(s, ts, 0),
{
    lemma_scan_stands(s, 0, 0, 0);
    if scan(s, 0, 0, 0) is Ok {
        lemma_combine_stands(s, scan(s, 0, 0, 0)->Ok_0, 0, 0);
    }
}


// ---------------------------------------------------------------------------
// The operators: a token's kind and its text go together.

/// A token is of kind `tag` exactly when it is no string literal and its text is `l`.
pub open spec fn written_as(t: TokenV, l: Seq<char>, tag: TokenType) -> bool {
    (t.tag == tag) <==> (t.tag != TokenType::String && t.lexeme == l)
}

/// Each operator token is written as its operator: `==` is `Equal`, `!=` is
/// `NotEqual`, `<=` is `LessEqual`, `>=` is `GreaterEqual`, `&&` is `And`,
/// `||` is `Or`, `<` is `Less`, `>` is `Greater`, `+`, `-`, `*`, `/` are
/// `Plus`, `Minus`, `Star`, `Slash`, and `(`, `)`, `,`, `.` are `LParen`,
/// `RParen`, `Comma`, `Dot`.
pub open spec fn operator_written(t: TokenV) -> bool {
    &&& written_as(t, seq!['=', '='], TokenType::Equal)
    &&& written_as(t, seq!['!', '='], TokenType::NotEqual)
    &&& written_as(t, seq!['<', '='], TokenType::LessEqual)
    &&& written_as(t, seq!['>', '='], TokenType::GreaterEqual)
    &&& written_as(t, seq!['&', '&'], TokenType::And)
    &&& written_as(t, seq!['|', '|'], TokenType::Or)
    &&& written_as(t, seq!['<'], TokenType::Less)
    &&& written_as(t, seq!['>'], TokenType::Greater)
    &&& written_as(t, seq!['+'], TokenType::Plus)
    &&& written_as(t, seq!['-'], TokenType::Minus)
    &&& written_as(t, seq!['*'], TokenType::Star)
    &&& written_as(t, seq!['/'], TokenType::Slash)
    &&& written_as(t, seq!['('], TokenType::LParen)
    &&& written_as(t, seq![')'], TokenType::RParen)
    &&& written_as(t, seq![','], TokenType::Comma)
    &&& written_as(t, seq!['.'], TokenType::Dot)
}

/// A token whose text starts with a character that starts no operator is no operator.
proof fn lemma_plain_start_written(t: TokenV)
    requires
        t.lexeme.len() > 0,
        is_alnum_char(t.lexeme[0]) || t.lexeme[0] == '_',
        t.tag != TokenType::Equal && t.tag != TokenType::NotEqual && t.tag != TokenType::LessEqual
            && t.tag != TokenType::GreaterEqual && t.tag != TokenType::And && t.tag != TokenType::Or
            && t.tag != TokenType::Less && t.tag != TokenType::Greater && t.tag != TokenType::Plus
            && t.tag != TokenType::Minus && t.tag != TokenType::Star && t.tag != TokenType::Slash
            && t.tag != TokenType::LParen && t.tag != TokenType::RParen && t.tag != TokenType::Comma
            && t.tag != TokenType::Dot,
    ensures
        operator_written(t),
{
    let c = t.lexeme[0];
    assert(seq!['=', '='][0] == '=');
    assert(seq!['!', '='][0] == '!');
    assert(seq!['<', '='][0] == '<');
    assert(seq!['>', '='][0] == '>');
    assert(seq!['&', '&'][0] == '&');
    assert(seq!['|', '|'][0] == '|');
    assert(seq!['<'][0] == '<');
    assert(seq!['>'][0] == '>');
    assert(seq!['+'][0] == '+');
    assert(seq!['-'][0] == '-');
    assert(seq!['*'][0] == '*');
    assert(seq!['/'][0] == '/');
    assert(seq!['('][0] == '(');
    assert(seq![')'][0] == ')');
    assert(seq![','][0] == ',');
    assert(seq!['.'][0] == '.');
}

proof fn lemma_written_prepend(t: TokenV, rest: Seq<TokenV>)
    requires
        operator_written(t),
        forall|k: int| 0 <= k < rest.len() ==> #[trigger] operator_written(rest[k]),
    ensures
        forall|k: int| 0 <= k < (seq![t] + rest).len() ==> #[trigger] operator_written((seq![t] + rest)[k]),
{
    assert forall|k: int| 0 <= k < (seq![t] + rest).len() implies #[trigger] operator_written((seq![t] + rest)[k]) by {
        if k > 0 {
            assert((seq![t] + rest)[k] == rest[k - 1]);
        }
    }
}

proof fn lemma_pair_eq(c: char, n: char, a: char, b: char)
    ensures
        (seq![c, n] == seq![a, b]) <==> (c == a && n == b),
        seq![c, n] != seq![a],
{
    if c == a && n == b {
        assert(seq![c, n] =~= seq![a, b]);
    }
    if seq![c, n] == seq![a, b] {
        assert(seq![c, n][0] == seq![a, b][0]);
        assert(seq![c, n][1] == seq![a, b][1]);
    }
    assert(seq![c, n].len() != seq![a].len());
}

proof fn lemma_one_eq(c: char, a: char, b: char)
    ensures
        (seq![c] == seq![a]) <==> (c == a),
        seq![c] != seq![a, b],
{
    if seq![c] == seq![a] {
        assert(seq![c][0] == seq![a][0]);
    }
    assert(seq![c].len() != seq![a, b].len());
}

proof fn lemma_multi_written(c: char, n: char, row: int, col: int)
    requires
        multi_char_tag(c, Some(n)) is Some,
    ensures
        operator_written(mk_token(multi_char_tag(c, Some(n))->0, seq![c, n], row, col)),
{
    lemma_pair_eq(c, n, '=', '=');
    lemma_pair_eq(c, n, '!', '=');
    lemma_pair_eq(c, n, '<', '=');
    lemma_pair_eq(c, n, '>', '=');
    lemma_pair_eq(c, n, '&', '&');
    lemma_pair_eq(c, n, '|', '|');
    lemma_pair_eq(c, n, '<', '<');
    lemma_pair_eq(c, n, '>', '>');
    lemma_pair_eq(c, n, '+', '+');
    lemma_pair_eq(c, n, '-', '-');
    lemma_pair_eq(c, n, '*', '*');
    lemma_pair_eq(c, n, '/', '/');
    lemma_pair_eq(c, n, '(', '(');
    lemma_pair_eq(c, n, ')', ')');
    lemma_pair_eq(c, n, ',', ',');
    lemma_pair_eq(c, n, '.', '.');
}

proof fn lemma_single_written(c: char, row: int, col: int)
    requires
        single_char_tag(c) is Some,
    ensures
        operator_written(mk_token(single_char_tag(c)->0, seq![c], row, col)),
{
    lemma_one_eq(c, '=', '=');
    lemma_one_eq(c, '!', '=');
    lemma_one_eq(c, '<', '=');
    lemma_one_eq(c, '>', '=');
    lemma_one_eq(c, '&', '&');
    lemma_one_eq(c, '|', '|');
    lemma_one_eq(c, '<', '<');
    lemma_one_eq(c, '>', '>');
    lemma_one_eq(c, '+', '+');
    lemma_one_eq(c, '-', '-');
    lemma_one_eq(c, '*', '*');
    lemma_one_eq(c, '/', '/');
    lemma_one_eq(c, '(', '(');
    lemma_one_eq(c, ')', ')');
    lemma_one_eq(c, ',', ',');
    lemma_one_eq(c, '.', '.');
}

proof fn lemma_string_written(l: Seq<char>, row: int, col: int)
    ensures
        operator_written(mk_token(TokenType::String, l, row, col)),
{
}

proof fn lemma_eof_written(row: int, col: int)
    ensures
        operator_written(mk_token(TokenType::Eof, seq![], row, col)),
{
    let e: Seq<char> = seq![];
    assert(e.len() == 0);
    assert(seq!['=', '='].len() == 2);
    assert(seq!['<'].len() == 1);
    assert(seq!['('].len() == 1);
}

proof fn lemma_scan_written(s: Seq<char>, i: int, row: int, col: int)
    requires
        0 <= i <= s.len(),
    ensures
        scan(s, i, row, col) matches Ok(ts) ==> forall|k: int| 0 <= k < ts.len() ==> #[trigger] operator_written(ts[k]),
    decreases s.len() - i,
{
    if i < s.len() {
        let c = s[i];
        if is_ascii_whitespace_char(c) {
            if c == '\n' {
                lemma_scan_written(s, i + 1, row + 1, 0);
            } else {
                lemma_scan_written(s, i + 1, row, col + 1);
            }
        } else if c == '#' {
            lemma_comment_end(s, i + 1);
            let j = comment_end(s, i);
            lemma_scan_written(s, j, row, col + (j - i));
        } else if multi_char_tag(c, char_at(s, i + 1)) is Some {
            let l = s.subrange(i, i + 2);
            let t = mk_token(multi_char_tag(c, char_at(s, i + 1))->0, l, row, col);
            assert(char_at(s, i + 1) == Some(s[i + 1]));
            assert(l =~= seq![c, s[i + 1]]);
            lemma_multi_written(c, s[i + 1], row, col);
            lemma_scan_written(s, i + 2, row, col + 2);
            if scan(s, i + 2, row, col + 2) is Ok {
                lemma_written_prepend(t, scan(s, i + 2, row, col + 2)->Ok_0);
            }
        } else if single_char_tag(c) is Some {
            let t = mk_token(single_char_tag(c)->0, seq![c], row, col);
            lemma_single_written(c, row, col);
            lemma_scan_written(s, i + 1, row, col + 1);
            if scan(s, i + 1, row, col + 1) is Ok {
                lemma_written_prepend(t, scan(s, i + 1, row, col + 1)->Ok_0);
            }
        } else if is_digit_char(c) {
            let j = number_end(s, i + 1, false);
            lemma_number_end(s, i + 1, false);
            let t = mk_token(TokenType::Number, s.subrange(i, j), row, col);
            assert(t.lexeme[0] == c);
            lemma_plain_start_written(t);
            lemma_scan_written(s, j, row, col + (j - i));
            if scan(s, j, row, col + (j - i)) is Ok {
                lemma_written_prepend(t, scan(s, j, row, col + (j - i))->Ok_0);
            }
        } else if c == '"' {
            let k = string_end(s, i + 1);
            lemma_string_end(s, i + 1);
            if k < s.len() && s[k] == '"' {
                let t = mk_token(TokenType::String, s.subrange(i + 1, k), row, col);
                lemma_string_written(s.subrange(i + 1, k), row, col);
                lemma_scan_written(s, k + 1, row, col + (k + 1 - i));
                if scan(s, k + 1, row, col + (k + 1 - i)) is Ok {
                    lemma_written_prepend(t, scan(s, k + 1, row, col + (k + 1 - i))->Ok_0);
                }
            }
        } else if ident_start(c) {
            let j = ident_end(s, i + 1);
            lemma_ident_end(s, i + 1);
            let t = mk_token(keyword_tag(s.subrange(i, j)), s.subrange(i, j), row, col);
            assert(t.lexeme[0] == c);
            lemma_plain_start_written(t);
            lemma_scan_written(s, j, row, col + (j - i));
            if scan(s, j, row, col + (j - i)) is Ok {
                lemma_written_prepend(t, scan(s, j, row, col + (j - i))->Ok_0);
            }
        }
    } else {
        let t = mk_token(TokenType::Eof, seq![], row, col);
        lemma_eof_written(row, col);
        lemma_written_prepend(t, seq![]);
        assert(seq![t] + Seq::<TokenV>::empty() =~= seq![t]);
    }
}

proof fn lemma_joined_len(ts: Seq<TokenV>, k: int, n: int)
    requires
        n >= 1,
    ensures
        joined_lexeme(ts, k, n).len() >= ts[k].lexeme.len(),
    decreases n,
{
    if n > 1 {
        lemma_joined_len(ts, k + 1, n - 1);
    }
}

proof fn lemma_combine_written(ts: Seq<TokenV>, k0: int)
    requires
        0 <= k0 <= ts.len(),
        forall|k: int| 0 <= k < ts.len() ==> #[trigger] operator_written(ts[k]),
    ensures
        forall|k: int| 0 <= k < combine_from(ts, k0).len() ==> #[trigger] operator_written(combine_from(ts, k0)[k]),
    decreases ts.len() - k0,
{
    if k0 < ts.len() {
        match compound_keyword(ts, k0) {
            Some((tag, n)) => {
                lemma_compound_words(ts, k0);
                lemma_combine_written(ts, k0 + n);
                lemma_joined_len(ts, k0, n);
                assert(upper(ts[k0].lexeme).len() == ts[k0].lexeme.len());
                assert(ts[k0].lexeme.len() >= 4);
                let t = mk_token(tag, joined_lexeme(ts, k0, n), ts[k0].row, ts[k0].column);
                assert(operator_written(t));
                lemma_written_prepend(t, combine_from(ts, k0 + n));
            },
            None => {
                lemma_combine_written(ts, k0 + 1);
                lemma_written_prepend(ts[k0], combine_from(ts, k0 + 1));
            },
        }
    }
}

/// Every token that lexing gives is of an operator's kind exactly when it is
/// written as that operator: `!=` is `NotEqual` and nothing else is, `>=` is
/// `GreaterEqual` and nothing else is, and so on for every operator.
pub proof fn lemma_lex_operators(s: Seq<char>)
    ensures
        lex_spec(s) matches Ok(ts) ==> forall|k: int| 0 <= k < ts.len() ==> #[trigger] operator_written(ts[k]),
{
    lemma_scan_written(s, 0, 0, 0);
    if scan(s, 0, 0, 0) is Ok {
        lemma_combine_written(scan(s, 0, 0, 0)->Ok_0, 0);
    }
}


// ---------------------------------------------------------------------------
// The keywords: a token is a keyword exactly when its word is that keyword.

/// A token is of kind `tag` exactly when it is no string literal and its
/// text, upper-cased, is the word `w`.
pub open spec fn named_as(t: TokenV, w: Seq<char>, tag: TokenType) -> bool {
    (t.tag == tag) <==> (t.tag != TokenType::String && upper(t.lexeme) == w)
}

/// Each keyword token is its word, in any case: `INSERT`, `SELECT`, `DELETE`,
/// `INTO`, `FROM`, `WHERE`, `ON`, `LIMIT`, `TRUE`, `FALSE` and `JOIN`.
pub open spec fn keyword_written(t: TokenV) -> bool {
    &&& named_as(t, seq!['I', 'N', 'S', 'E', 'R', 'T'], TokenType::Insert)
    &&& named_as(t, seq!['S', 'E', 'L', 'E', 'C', 'T'], TokenType::Select)
    &&& named_as(t, seq!['D', 'E', 'L', 'E', 'T', 'E'], TokenType::Delete)
    &&& named_as(t, seq!['I', 'N', 'T', 'O'], TokenType::Into)
    &&& named_as(t, seq!['F', 'R', 'O', 'M'], TokenType::From)
    &&& named_as(t, seq!['W', 'H', 'E', 'R', 'E'], TokenType::Where)
    &&& named_as(t, seq!['O', 'N'], TokenType::On)
    &&& named_as(t, seq!['L', 'I', 'M', 'I', 'T'], TokenType::Limit)
    &&& named_as(t, seq!['T', 'R', 'U', 'E'], TokenType::True)
    &&& named_as(t, seq!['F', 'A', 'L', 'S', 'E'], TokenType::False)
    &&& named_as(t, seq!['J', 'O', 'I', 'N'], TokenType::Join)
}

/// The first character and the length of each keyword.
proof fn lemma_keyword_shapes()
    ensures
        seq!['I', 'N', 'S', 'E', 'R', 'T'][0] == 'I' && seq!['I', 'N', 'S', 'E', 'R', 'T'].len() == 6,
        seq!['S', 'E', 'L', 'E', 'C', 'T'][0] == 'S' && seq!['S', 'E', 'L', 'E', 'C', 'T'].len() == 6,
        seq!['D', 'E', 'L', 'E', 'T', 'E'][0] == 'D' && seq!['D', 'E', 'L', 'E', 'T', 'E'].len() == 6,
        seq!['I', 'N', 'T', 'O'][0] == 'I' && seq!['I', 'N', 'T', 'O'].len() == 4,
        seq!['F', 'R', 'O', 'M'][0] == 'F' && seq!['F', 'R', 'O', 'M'].len() == 4,
        seq!['W', 'H', 'E', 'R', 'E'][0] == 'W' && seq!['W', 'H', 'E', 'R', 'E'].len() == 5,
        seq!['O', 'N'][0] == 'O' && seq!['O', 'N'].len() == 2,
        seq!['L', 'I', 'M', 'I', 'T'][0] == 'L' && seq!['L', 'I', 'M', 'I', 'T'].len() == 5,
        seq!['T', 'R', 'U', 'E'][0] == 'T' && seq!['T', 'R', 'U', 'E'].len() == 4,
        seq!['F', 'A', 'L', 'S', 'E'][0] == 'F' && seq!['F', 'A', 'L', 'S', 'E'].len() == 5,
        seq!['J', 'O', 'I', 'N'][0] == 'J' && seq!['J', 'O', 'I', 'N'].len() == 4,
{
}

/// A token whose text starts with no letter is no keyword.
proof fn lemma_no_letter_start(t: TokenV)
    requires
        t.lexeme.len() == 0 || !is_alpha_char(t.lexeme[0]),
        t.tag != TokenType::Insert && t.tag != TokenType::Select && t.tag != TokenType::Delete && t.tag
            != TokenType::Into && t.tag != TokenType::From && t.tag != TokenType::Where && t.tag
            != TokenType::On && t.tag != TokenType::Limit && t.tag != TokenType::True && t.tag
            != TokenType::False && t.tag != TokenType::Join,
    ensures
        keyword_written(t),
{
    lemma_keyword_shapes();
    let u = upper(t.lexeme);
    assert(u.len() == t.lexeme.len());
    if t.lexeme.len() > 0 {
        assert(u[0] == upper_char(t.lexeme[0]));
        assert(!is_upper_char(u[0]));
    }
}

/// The kind of a word is the keyword its upper-cased text is, if any.
proof fn lemma_word_written(l: Seq<char>, row: int, col: int)
    ensures
        keyword_written(mk_token(keyword_tag(l), l, row, col)),
{
    lemma_keyword_shapes();
}

/// A token that is longer than every keyword is no keyword.
proof fn lemma_long_written(t: TokenV)
    requires
        t.lexeme.len() > 6,
        t.tag != TokenType::Insert && t.tag != TokenType::Select && t.tag != TokenType::Delete && t.tag
            != TokenType::Into && t.tag != TokenType::From && t.tag != TokenType::Where && t.tag
            != TokenType::On && t.tag != TokenType::Limit && t.tag != TokenType::True && t.tag
            != TokenType::False && t.tag != TokenType::Join,
    ensures
        keyword_written(t),
{
    lemma_keyword_shapes();
    assert(upper(t.lexeme).len() == t.lexeme.len());
}

proof fn lemma_kw_prepend(t: TokenV, rest: Seq<TokenV>)
    requires
        keyword_written(t),
        forall|k: int| 0 <= k < rest.len() ==> #[trigger] keyword_written(rest[k]),
    ensures
        forall|k: int| 0 <= k < (seq![t] + rest).len() ==> #[trigger] keyword_written((seq![t] + rest)[k]),
{
    assert forall|k: int| 0 <= k < (seq![t] + rest).len() implies #[trigger] keyword_written((seq![t] + rest)[k]) by {
        if k > 0 {
            assert((seq![t] + rest)[k] == rest[k - 1]);
        }
    }
}

proof fn lemma_scan_keywords(s: Seq<char>, i: int, row: int, col: int)
    requires
        0 <= i <= s.len(),
    ensures
        scan(s, i, row, col) matches Ok(ts) ==> forall|k: int| 0 <= k < ts.len() ==> #[trigger] keyword_written(ts[k]),
    decreases s.len() - i,
{
    if i < s.len() {
        let c = s[i];
        if is_ascii_whitespace_char(c) {
            if c == '\n' {
                lemma_scan_keywords(s, i + 1, row + 1, 0);
            } else {
                lemma_scan_keywords(s, i + 1, row, col + 1);
            }
        } else if c == '#' {
            lemma_comment_end(s, i + 1);
            let j = comment_end(s, i);
            lemma_scan_keywords(s, j, row, col + (j - i));
        } else if multi_char_tag(c, char_at(s, i + 1)) is Some {
            let t = mk_token(multi_char_tag(c, char_at(s, i + 1))->0, s.subrange(i, i + 2), row, col);
            assert(t.lexeme[0] == c);
            lemma_no_letter_start(t);
            lemma_scan_keywords(s, i + 2, row, col + 2);
            if scan(s, i + 2, row, col + 2) is Ok {
                lemma_kw_prepend(t, scan(s, i + 2, row, col + 2)->Ok_0);
            }
        } else if single_char_tag(c) is Some {
            let t = mk_token(single_char_tag(c)->0, seq![c], row, col);
            assert(t.lexeme[0] == c);
            lemma_no_letter_start(t);
            lemma_scan_keywords(s, i + 1, row, col + 1);
            if scan(s, i + 1, row, col + 1) is Ok {
                lemma_kw_prepend(t, scan(s, i + 1, row, col + 1)->Ok_0);
            }
        } else if is_digit_char(c) {
            let j = number_end(s, i + 1, false);
            lemma_number_end(s, i + 1, false);
            let t = mk_token(TokenType::Number, s.subrange(i, j), row, col);
            assert(t.lexeme[0] == c);
            lemma_no_letter_start(t);
            lemma_scan_keywords(s, j, row, col + (j - i));
            if scan(s, j, row, col + (j - i)) is Ok {
                lemma_kw_prepend(t, scan(s, j, row, col + (j - i))->Ok_0);
            }
        } else if c == '"' {
            let k = string_end(s, i + 1);
            lemma_string_end(s, i + 1);
            if k < s.len() && s[k] == '"' {
                let t = mk_token(TokenType::String, s.subrange(i + 1, k), row, col);
                assert(keyword_written(t));
                lemma_scan_keywords(s, k + 1, row, col + (k + 1 - i));
                if scan(s, k + 1, row, col + (k + 1 - i)) is Ok {
                    lemma_kw_prepend(t, scan(s, k + 1, row, col + (k + 1 - i))->Ok_0);
                }
            }
        } else if ident_start(c) {
            let j = ident_end(s, i + 1);
            lemma_ident_end(s, i + 1);
            let t = mk_token(keyword_tag(s.subrange(i, j)), s.subrange(i, j), row, col);
            lemma_word_written(s.subrange(i, j), row, col);
            lemma_scan_keywords(s, j, row, col + (j - i));
            if scan(s, j, row, col + (j - i)) is Ok {
                lemma_kw_prepend(t, scan(s, j, row, col + (j - i))->Ok_0);
            }
        }
    } else {
        let t = mk_token(TokenType::Eof, seq![], row, col);
        lemma_no_letter_start(t);
        lemma_kw_prepend(t, seq![]);
        assert(seq![t] + Seq::<TokenV>::empty() =~= seq![t]);
    }
}

proof fn lemma_joined_len2(ts: Seq<TokenV>, k: int, n: int)
    requires
        n >= 2,
    ensures
        joined_lexeme(ts, k, n).len() >= ts[k].lexeme.len() + ts[k + 1].lexeme.len(),
{
    lemma_joined_len(ts, k + 1, n - 1);
}

proof fn lemma_combine_keywords(ts: Seq<TokenV>, k0: int)
    requires
        0 <= k0 <= ts.len(),
        forall|k: int| 0 <= k < ts.len() ==> #[trigger] keyword_written(ts[k]),
    ensures
        forall|k: int| 0 <= k < combine_from(ts, k0).len() ==> #[trigger] keyword_written(combine_from(ts, k0)[k]),
    decreases ts.len() - k0,
{
    if k0 < ts.len() {
        match compound_keyword(ts, k0) {
            Some((tag, n)) => {
                lemma_compound_words(ts, k0);
                lemma_combine_keywords(ts, k0 + n);
                lemma_joined_len2(ts, k0, n);
                lemma_keyword_shapes();
                assert(keyword_written(ts[k0 + 1]));
                assert(upper(ts[k0].lexeme).len() == ts[k0].lexeme.len());
                assert(upper(ts[k0 + 1].lexeme).len() == ts[k0 + 1].lexeme.len());
                let t = mk_token(tag, joined_lexeme(ts, k0, n), ts[k0].row, ts[k0].column);
                lemma_long_written(t);
                lemma_kw_prepend(t, combine_from(ts, k0 + n));
            },
            None => {
                lemma_combine_keywords(ts, k0 + 1);
                lemma_kw_prepend(ts[k0], combine_from(ts, k0 + 1));
            },
        }
    }
}

/// Every token that lexing gives is a keyword exactly when its text is that
/// keyword in any case: a token is `FROM` exactly when it reads "from" in
/// some case and is no string literal, and so on for every keyword.
pub proof fn lemma_lex_keywords(s: Seq<char>)
    ensures
        lex_spec(s) matches Ok(ts) ==> forall|k: int| 0 <= k < ts.len() ==> #[trigger] keyword_written(ts[k]),
{
    lemma_scan_keywords(s, 0, 0, 0);
    if scan(s, 0, 0, 0) is Ok {
        lemma_combine_keywords(scan(s, 0, 0, 0)->Ok_0, 0);
    }
}


// ---------------------------------------------------------------------------
// The keywords of several words: each is made of its words.

/// A keyword of several words is written as its words: `ORDER BY`,
/// `INNER JOIN`, `CROSS JOIN`, `LEFT [OUTER] JOIN`, `RIGHT [OUTER] JOIN` and
/// `FULL [OUTER] JOIN`, in any case (its text is the words one after the other).
pub open spec fn compound_written(t: TokenV) -> bool {
    let u = upper(t.lexeme);
    &&& t.tag == TokenType::OrderBy ==> u == seq!['O', 'R', 'D', 'E', 'R', 'B', 'Y']
    &&& t.tag == TokenType::InnerJoin ==> u == seq!['I', 'N', 'N', 'E', 'R', 'J', 'O', 'I', 'N']
    &&& t.tag == TokenType::CrossJoin ==> u == seq!['C', 'R', 'O', 'S', 'S', 'J', 'O', 'I', 'N']
    &&& t.tag == TokenType::LeftOuterJoin ==> (u == seq!['L', 'E', 'F', 'T', 'J', 'O', 'I', 'N'] || u == seq![
        'L', 'E', 'F', 'T', 'O', 'U', 'T', 'E', 'R', 'J', 'O', 'I', 'N',
    ])
    &&& t.tag == TokenType::RightOuterJoin ==> (u == seq!['R', 'I', 'G', 'H', 'T', 'J', 'O', 'I', 'N'] || u == seq![
        'R', 'I', 'G', 'H', 'T', 'O', 'U', 'T', 'E', 'R', 'J', 'O', 'I', 'N',
    ])
    &&& t.tag == TokenType::FullOuterJoin ==> (u == seq!['F', 'U', 'L', 'L', 'J', 'O', 'I', 'N'] || u == seq![
        'F', 'U', 'L', 'L', 'O', 'U', 'T', 'E', 'R', 'J', 'O', 'I', 'N',
    ])
}

proof fn lemma_upper_concat(a: Seq<char>, b: Seq<char>)
    ensures
        upper(a + b) == upper(a) + upper(b),
{
    assert(upper(a + b) =~= upper(a) + upper(b));
}

proof fn lemma_compound_text(ts: Seq<TokenV>, k: int)
    requires
        0 <= k < ts.len(),
        compound_keyword(ts, k) is Some,
        forall|m: int| 0 <= m < ts.len() ==> #[trigger] keyword_written(ts[m]),
    ensures
        compound_written(
            mk_token(compound_tag(ts, k), joined_lexeme(ts, k, compound_len(ts, k)), 0, 0),
        ),
{
    lemma_compound_words(ts, k);
    let n = compound_len(ts, k);
    let l0 = ts[k].lexeme;
    let l1 = ts[k + 1].lexeme;
    assert(keyword_written(ts[k + 1]));
    assert(joined_lexeme(ts, k + 1, 1) == l1);
    if n == 3 {
        let l2 = ts[k + 2].lexeme;
        assert(keyword_written(ts[k + 2]));
        assert(joined_lexeme(ts, k + 2, 1) == l2);
        assert(joined_lexeme(ts, k + 1, 2) == l1 + joined_lexeme(ts, k + 2, 1));
        assert(joined_lexeme(ts, k, 3) == l0 + joined_lexeme(ts, k + 1, 2));
        assert(joined_lexeme(ts, k, 3) == l0 + (l1 + l2));
        lemma_upper_concat(l1, l2);
        lemma_upper_concat(l0, l1 + l2);
    } else {
        assert(joined_lexeme(ts, k, 2) == l0 + l1);
        lemma_upper_concat(l0, l1);
    }
    assert(seq!['O', 'R', 'D', 'E', 'R'] + seq!['B', 'Y'] =~= seq!['O', 'R', 'D', 'E', 'R', 'B', 'Y']);
    assert(seq!['I', 'N', 'N', 'E', 'R'] + seq!['J', 'O', 'I', 'N'] =~= seq![
        'I', 'N', 'N', 'E', 'R', 'J', 'O', 'I', 'N',
    ]);
    assert(seq!['C', 'R', 'O', 'S', 'S'] + seq!['J', 'O', 'I', 'N'] =~= seq![
        'C', 'R', 'O', 'S', 'S', 'J', 'O', 'I', 'N',
    ]);
    assert(seq!['L', 'E', 'F', 'T'] + seq!['J', 'O', 'I', 'N'] =~= seq!['L', 'E', 'F', 'T', 'J', 'O', 'I', 'N']);
    assert(seq!['L', 'E', 'F', 'T'] + (seq!['O', 'U', 'T', 'E', 'R'] + seq!['J', 'O', 'I', 'N']) =~= seq![
        'L', 'E', 'F', 'T', 'O', 'U', 'T', 'E', 'R', 'J', 'O', 'I', 'N',
    ]);
    assert(seq!['R', 'I', 'G', 'H', 'T'] + seq!['J', 'O', 'I', 'N'] =~= seq![
        'R', 'I', 'G', 'H', 'T', 'J', 'O', 'I', 'N',
    ]);
    assert(seq!['R', 'I', 'G', 'H', 'T'] + (seq!['O', 'U', 'T', 'E', 'R'] + seq!['J', 'O', 'I', 'N']) =~= seq![
        'R', 'I', 'G', 'H', 'T', 'O', 'U', 'T', 'E', 'R', 'J', 'O', 'I', 'N',
    ]);
    assert(seq!['F', 'U', 'L', 'L'] + seq!['J', 'O', 'I', 'N'] =~= seq!['F', 'U', 'L', 'L', 'J', 'O', 'I', 'N']);
    assert(seq!['F', 'U', 'L', 'L'] + (seq!['O', 'U', 'T', 'E', 'R'] + seq!['J', 'O', 'I', 'N']) =~= seq![
        'F', 'U', 'L', 'L', 'O', 'U', 'T', 'E', 'R', 'J', 'O', 'I', 'N',
    ]);
}

proof fn lemma_compound_prepend(t: TokenV, rest: Seq<TokenV>)
    requires
        compound_written(t),
        forall|k: int| 0 <= k < rest.len() ==> #[trigger] compound_written(rest[k]),
    ensures
        forall|k: int| 0 <= k < (seq![t] + rest).len() ==> #[trigger] compound_written((seq![t] + rest)[k]),
{
    assert forall|k: int| 0 <= k < (seq![t] + rest).len() implies #[trigger] compound_written((seq![t] + rest)[k]) by {
        if k > 0 {
            assert((seq![t] + rest)[k] == rest[k - 1]);
        }
    }
}

proof fn lemma_combine_compound(ts: Seq<TokenV>, k0: int)
    requires
        0 <= k0 <= ts.len(),
        forall|k: int| 0 <= k < ts.len() ==> #[trigger] keyword_written(ts[k]),
        forall|k: int| 0 <= k < ts.len() ==> #[trigger] compound_written(ts[k]),
    ensures
        forall|k: int| 0 <= k < combine_from(ts, k0).len() ==> #[trigger] compound_written(combine_from(ts, k0)[k]),
    decreases ts.len() - k0,
{
    if k0 < ts.len() {
        match compound_keyword(ts, k0) {
            Some((tag, n)) => {
                lemma_compound_words(ts, k0);
                lemma_combine_compound(ts, k0 + n);
                lemma_compound_text(ts, k0);
                let t = mk_token(tag, joined_lexeme(ts, k0, n), ts[k0].row, ts[k0].column);
                assert(compound_written(t));
                lemma_compound_prepend(t, combine_from(ts, k0 + n));
            },
            None => {
                lemma_combine_compound(ts, k0 + 1);
                lemma_compound_prepend(ts[k0], combine_from(ts, k0 + 1));
            },
        }
    }
}

proof fn lemma_scan_compound(s: Seq<char>, i: int, row: int, col: int)
    requires
        0 <= i <= s.len(),
    ensures
        scan(s, i, row, col) matches Ok(ts) ==> forall|k: int| 0 <= k < ts.len() ==> #[trigger] compound_written(ts[k]),
    decreases s.len() - i,
{
    if i < s.len() {
        let c = s[i];
        if is_ascii_whitespace_char(c) {
            if c == '\n' {
                lemma_scan_compound(s, i + 1, row + 1, 0);
            } else {
                lemma_scan_compound(s, i + 1, row, col + 1);
            }
        } else if c == '#' {
            lemma_comment_end(s, i + 1);
            let j = comment_end(s, i);
            lemma_scan_compound(s, j, row, col + (j - i));
        } else if multi_char_tag(c, char_at(s, i + 1)) is Some {
            let t = mk_token(multi_char_tag(c, char_at(s, i + 1))->0, s.subrange(i, i + 2), row, col);
            lemma_scan_compound(s, i + 2, row, col + 2);
            if scan(s, i + 2, row, col + 2) is Ok {
                lemma_compound_prepend(t, scan(s, i + 2, row, col + 2)->Ok_0);
            }
        } else if single_char_tag(c) is Some {
            let t = mk_token(single_char_tag(c)->0, seq![c], row, col);
            lemma_scan_compound(s, i + 1, row, col + 1);
            if scan(s, i + 1, row, col + 1) is Ok {
                lemma_compound_prepend(t, scan(s, i + 1, row, col + 1)->Ok_0);
            }
        } else if is_digit_char(c) {
            let j = number_end(s, i + 1, false);
            lemma_number_end(s, i + 1, false);
            let t = mk_token(TokenType::Number, s.subrange(i, j), row, col);
            lemma_scan_compound(s, j, row, col + (j - i));
            if scan(s, j, row, col + (j - i)) is Ok {
                lemma_compound_prepend(t, scan(s, j, row, col + (j - i))->Ok_0);
            }
        } else if c == '"' {
            let k = string_end(s, i + 1);
            lemma_string_end(s, i + 1);
            if k < s.len() && s[k] == '"' {
                let t = mk_token(TokenType::String, s.subrange(i + 1, k), row, col);
                lemma_scan_compound(s, k + 1, row, col + (k + 1 - i));
                if scan(s, k + 1, row, col + (k + 1 - i)) is Ok {
                    lemma_compound_prepend(t, scan(s, k + 1, row, col + (k + 1 - i))->Ok_0);
                }
            }
        } else if ident_start(c) {
            let j = ident_end(s, i + 1);
            lemma_ident_end(s, i + 1);
            let t = mk_token(keyword_tag(s.subrange(i, j)), s.subrange(i, j), row, col);
            lemma_scan_compound(s, j, row, col + (j - i));
            if scan(s, j, row, col + (j - i)) is Ok {
                lemma_compound_prepend(t, scan(s, j, row, col + (j - i))->Ok_0);
            }
        }
    } else {
        let t = mk_token(TokenType::Eof, seq![], row, col);
        lemma_compound_prepend(t, seq![]);
        assert(seq![t] + Seq::<TokenV>::empty() =~= seq![t]);
    }
}

/// Every keyword of several words that lexing gives is made of its words:
/// an `ORDER BY` token reads "ORDER" then "BY", a `LeftOuterJoin` token reads
/// "LEFT", maybe "OUTER", then "JOIN", and so on, in any case.
pub proof fn lemma_lex_compounds(s: Seq<char>)
    ensures
        lex_spec(s) matches Ok(ts) ==> forall|k: int| 0 <= k < ts.len() ==> #[trigger] compound_written(ts[k]),
{
    lemma_scan_keywords(s, 0, 0, 0);
    lemma_scan_written(s, 0, 0, 0);
    if scan(s, 0, 0, 0) is Ok {
        let ts = scan(s, 0, 0, 0)->Ok_0;
        lemma_scan_compound(s, 0, 0, 0);
        lemma_combine_compound(ts, 0);
    }
}


// ---------------------------------------------------------------------------
// What the words, numbers and strings that lexing gives are made of.

/// A token is made as its kind says: a number is digits with at most one
/// `.`, starting with a digit; a name or keyword is ASCII letters, digits and
/// `_`, starting with a letter or `_`; a string literal holds no quote and
/// no line feed.
pub open spec fn token_shaped(t: TokenV) -> bool {
    let l = t.lexeme;
    &&& t.tag == TokenType::Number ==> {
        &&& l.len() > 0
        &&& '0' <= l[0] <= '9'
        &&& forall|i: int| 0 <= i < l.len() ==> ('0' <= #[trigger] l[i] <= '9' || l[i] == '.')
        &&& forall|i: int, j: int| 0 <= i < j < l.len() && #[trigger] l[i] == '.' ==> #[trigger] l[j] != '.'
    }
    &&& (t.tag == TokenType::Identifier || t.tag == TokenType::Select || t.tag == TokenType::From || t.tag
        == TokenType::Where || t.tag == TokenType::Insert || t.tag == TokenType::Into || t.tag
        == TokenType::Delete || t.tag == TokenType::On || t.tag == TokenType::Limit || t.tag == TokenType::True
        || t.tag == TokenType::False || t.tag == TokenType::Join) ==> {
        &&& l.len() > 0
        &&& ('a' <= l[0] <= 'z' || 'A' <= l[0] <= 'Z' || l[0] == '_')
        &&& forall|i: int|
            0 <= i < l.len() ==> ('a' <= #[trigger] l[i] <= 'z' || 'A' <= l[i] <= 'Z' || '0' <= l[i] <= '9'
                || l[i] == '_')
    }
    &&& t.tag == TokenType::String ==> forall|i: int| 0 <= i < l.len() ==> #[trigger] l[i] != '"' && l[i] != '\n'
}

proof fn lemma_number_dots(s: Seq<char>, k: int, has_dot: bool)
    requires
        0 <= k <= s.len(),
    ensures
        has_dot ==> forall|m: int| k <= m < number_end(s, k, has_dot) ==> #[trigger] s[m] != '.',
        forall|a: int, b: int|
            k <= a < b < number_end(s, k, has_dot) && #[trigger] s[a] == '.' ==> #[trigger] s[b] != '.',
    decreases s.len() - k,
{
    if k < s.len() {
        if is_digit_char(s[k]) {
            lemma_number_dots(s, k + 1, has_dot);
        } else if s[k] == '.' && !has_dot && char_at(s, k + 1) != Some('.') {
            lemma_number_dots(s, k + 1, true);
        }
    }
}

proof fn lemma_shaped_prepend(t: TokenV, rest: Seq<TokenV>)
    requires
        token_shaped(t),
        forall|k: int| 0 <= k < rest.len() ==> #[trigger] token_shaped(rest[k]),
    ensures
        forall|k: int| 0 <= k < (seq![t] + rest).len() ==> #[trigger] token_shaped((seq![t] + rest)[k]),
{
    assert forall|k: int| 0 <= k < (seq![t] + rest).len() implies #[trigger] token_shaped((seq![t] + rest)[k]) by {
        if k > 0 {
            assert((seq![t] + rest)[k] == rest[k - 1]);
        }
    }
}

proof fn lemma_scan_shaped(s: Seq<char>, i: int, row: int, col: int)
    requires
        0 <= i <= s.len(),
    ensures
        scan(s, i, row, col) matches Ok(ts) ==> forall|k: int| 0 <= k < ts.len() ==> #[trigger] token_shaped(ts[k]),
    decreases s.len() - i,
{
    if i < s.len() {
        let c = s[i];
        if is_ascii_whitespace_char(c) {
            if c == '\n' {
                lemma_scan_shaped(s, i + 1, row + 1, 0);
            } else {
                lemma_scan_shaped(s, i + 1, row, col + 1);
            }
        } else if c == '#' {
            lemma_comment_end(s, i + 1);
            let j = comment_end(s, i);
            lemma_scan_shaped(s, j, row, col + (j - i));
        } else if multi_char_tag(c, char_at(s, i + 1)) is Some {
            let t = mk_token(multi_char_tag(c, char_at(s, i + 1))->0, s.subrange(i, i + 2), row, col);
            assert(token_shaped(t));
            lemma_scan_shaped(s, i + 2, row, col + 2);
            if scan(s, i + 2, row, col + 2) is Ok {
                lemma_shaped_prepend(t, scan(s, i + 2, row, col + 2)->Ok_0);
            }
        } else if single_char_tag(c) is Some {
            let t = mk_token(single_char_tag(c)->0, seq![c], row, col);
            assert(token_shaped(t));
            lemma_scan_shaped(s, i + 1, row, col + 1);
            if scan(s, i + 1, row, col + 1) is Ok {
                lemma_shaped_prepend(t, scan(s, i + 1, row, col + 1)->Ok_0);
            }
        } else if is_digit_char(c) {
            let j = number_end(s, i + 1, false);
            lemma_number_end(s, i + 1, false);
            lemma_number_chars(s, i + 1, false);
            lemma_number_dots(s, i + 1, false);
            let l = s.subrange(i, j);
            let t = mk_token(TokenType::Number, l, row, col);
            assert forall|a: int| 0 <= a < l.len() implies ('0' <= #[trigger] l[a] <= '9' || l[a] == '.') by {
                assert(l[a] == s[i + a]);
            }
            assert forall|a: int, b: int| 0 <= a < b < l.len() && #[trigger] l[a] == '.' implies #[trigger] l[b]
                != '.' by {
                assert(l[a] == s[i + a]);
                assert(l[b] == s[i + b]);
                assert(a > 0);
            }
            assert(token_shaped(t));
            lemma_scan_shaped(s, j, row, col + (j - i));
            if scan(s, j, row, col + (j - i)) is Ok {
                lemma_shaped_prepend(t, scan(s, j, row, col + (j - i))->Ok_0);
            }
        } else if c == '"' {
            let k = string_end(s, i + 1);
            lemma_string_end(s, i + 1);
            if k < s.len() && s[k] == '"' {
                let l = s.subrange(i + 1, k);
                let t = mk_token(TokenType::String, l, row, col);
                assert forall|a: int| 0 <= a < l.len() implies #[trigger] l[a] != '"' && l[a] != '\n' by {
                    assert(l[a] == s[i + 1 + a]);
                }
                assert(token_shaped(t));
                lemma_scan_shaped(s, k + 1, row, col + (k + 1 - i));
                if scan(s, k + 1, row, col + (k + 1 - i)) is Ok {
                    lemma_shaped_prepend(t, scan(s, k + 1, row, col + (k + 1 - i))->Ok_0);
                }
            }
        } else if ident_start(c) {
            let j = ident_end(s, i + 1);
            lemma_ident_end(s, i + 1);
            let l = s.subrange(i, j);
            let t = mk_token(keyword_tag(l), l, row, col);
            assert forall|a: int| 0 <= a < l.len() implies ('a' <= #[trigger] l[a] <= 'z' || 'A' <= l[a] <= 'Z'
                || '0' <= l[a] <= '9' || l[a] == '_') by {
                assert(l[a] == s[i + a]);
                if a > 0 {
                    assert(ident_continue(s[i + a]));
                }
            }
            assert(token_shaped(t));
            lemma_scan_shaped(s, j, row, col + (j - i));
            if scan(s, j, row, col + (j - i)) is Ok {
                lemma_shaped_prepend(t, scan(s, j, row, col + (j - i))->Ok_0);
            }
        }
    } else {
        let t = mk_token(TokenType::Eof, seq![], row, col);
        assert(token_shaped(t));
        lemma_shaped_prepend(t, seq![]);
        assert(seq![t] + Seq::<TokenV>::empty() =~= seq![t]);
    }
}

proof fn lemma_combine_shaped(ts: Seq<TokenV>, k0: int)
    requires
        0 <= k0 <= ts.len(),
        forall|k: int| 0 <= k < ts.len() ==> #[trigger] token_shaped(ts[k]),
    ensures
        forall|k: int| 0 <= k < combine_from(ts, k0).len() ==> #[trigger] token_shaped(combine_from(ts, k0)[k]),
    decreases ts.len() - k0,
{
    if k0 < ts.len() {
        match compound_keyword(ts, k0) {
            Some((tag, n)) => {
                lemma_compound_words(ts, k0);
                lemma_combine_shaped(ts, k0 + n);
                let t = mk_token(tag, joined_lexeme(ts, k0, n), ts[k0].row, ts[k0].column);
                assert(token_shaped(t));
                lemma_shaped_prepend(t, combine_from(ts, k0 + n));
            },
            None => {
                lemma_combine_shaped(ts, k0 + 1);
                lemma_shaped_prepend(ts[k0], combine_from(ts, k0 + 1));
            },
        }
    }
}

/// Every token that lexing gives is made as its kind says (see `token_shaped`).
pub proof fn lemma_lex_shapes(s: Seq<char>)
    ensures
        lex_spec(s) matches Ok(ts) ==> forall|k: int| 0 <= k < ts.len() ==> #[trigger] token_shaped(ts[k]),
{
    lemma_scan_shaped(s, 0, 0, 0);
    if scan(s, 0, 0, 0) is Ok {
        lemma_combine_shaped(scan(s, 0, 0, 0)->Ok_0, 0);
    }
}

/// The lexer context that maintains state during lexical analysis.
pub struct LexerContext {
    tokens: Vec<Token>,
    row: usize,
    column: usize,
    cursor: usize,
    input: Vec<char>,
}

pub fn copy_token(t: &Token) -> (r: Token)
    ensures
        r@ == t@,
{
    Token { tag: t.tag, lexeme: t.lexeme.clone(), row: t.row, column: t.column }
}

impl LexerContext {
    pub closed spec fn wf(&self) -> bool {
        &&& self.cursor <= self.input@.len()
        &&& self.row <= self.cursor
        &&& self.column <= self.cursor
    }

    /// Peeks at a character at the given lookahead offset from the cursor;
    /// `None` past the end of the input.
    fn peek(&self, lookahead: usize) -> (r: Option<char>)
        requires
            self.wf(),
        ensures
            r == char_at(self.input@, self.cursor + lookahead),
    {
        if lookahead < self.input.len() - self.cursor {
            Some(self.input[self.cursor + lookahead])
        } else {
            None
        }
    }

    /// Advances the cursor by one character; a line feed starts a new row.
    /// Does nothing at the end of input.
    fn advance(&mut self)
        requires
            old(self).wf(),
        ensures
            final(self).wf(),
            final(self).input == old(self).input,
            final(self).tokens == old(self).tokens,
            old(self).cursor < old(self).input@.len() ==> {
                &&& final(self).cursor == old(self).cursor + 1
                &&& if old(self).input@[old(self).cursor as int] == '\n' {
                    final(self).row == old(self).row + 1 && final(self).column == 0
                } else {
                    final(self).row == old(self).row && final(self).column == old(self).column + 1
                }
            },
            old(self).cursor >= old(self).input@.len() ==> *final(self) == *old(self),
    {
        let len = self.input.len();
        if let Some(c) = self.peek(0) {
            assert(self.cursor < len);
            if c == '\n' {
                self.column = 0;
                self.row = self.row + 1;
            } else {
                self.column = self.column + 1;
            }
            self.cursor = self.cursor + 1;
        }
    }

    /// Advances the cursor by `n` characters, none of which is a line feed.
    fn advance_by(&mut self, n: usize)
        requires
            old(self).wf(),
            old(self).cursor + n <= old(self).input@.len(),
            forall|j: int|
                old(self).cursor <= j < old(self).cursor + n ==> old(self).input@[j] != '\n',
        ensures
            final(self).wf(),
            final(self).input == old(self).input,
            final(self).tokens == old(self).tokens,
            final(self).cursor == old(self).cursor + n,
            final(self).row == old(self).row,
            final(self).column == old(self).column + n,
    {
        let mut k: usize = 0;
        while k < n
            invariant
                0 <= k <= n,
                self.wf(),
                self.input == old(self).input,
                self.tokens == old(self).tokens,
                old(self).cursor + n <= old(self).input@.len(),
                forall|j: int|
                    old(self).cursor <= j < old(self).cursor + n ==> old(self).input@[j] != '\n',
                self.cursor == old(self).cursor + k,
                self.row == old(self).row,
                self.column == old(self).column + k,
            decreases n - k,
        {
            self.advance();
            k = k + 1;
        }
    }

    /// Adds a token at the given position.
    fn add_token(&mut self, tag: TokenType, lexeme: String, row: usize, column: usize)
        ensures
            final(self).tokens@ == old(self).tokens@.push(
                Token { tag, lexeme, row, column },
            ),
            final(self).input == old(self).input,
            final(self).cursor == old(self).cursor,
            final(self).row == old(self).row,
            final(self).column == old(self).column,
    {
        let token = Token { tag, lexeme, row, column };
        self.tokens.push(token);
    }

    /// Adds a token at the current position and advances over its lexeme,
    /// which is the ASCII text at the cursor.
    fn push_token(&mut self, tag: TokenType, lexeme: String)
        requires
            old(self).wf(),
            old(self).cursor + lexeme@.len() <= old(self).input@.len(),
            lexeme@ == old(self).input@.subrange(
                old(self).cursor as int,
                old(self).cursor + lexeme@.len(),
            ),
            vstd::utf8::is_ascii_chars(lexeme@),
            forall|j: int| 0 <= j < lexeme@.len() ==> lexeme@[j] != '\n',
        ensures
            final(self).wf(),
            final(self).input == old(self).input,
            token_views(final(self).tokens@) == token_views(old(self).tokens@).push(
                mk_token(tag, lexeme@, old(self).row as int, old(self).column as int),
            ),
            final(self).cursor == old(self).cursor + lexeme@.len(),
            final(self).row == old(self).row,
            final(self).column == old(self).column + lexeme@.len(),
    {
        let ghost lex = lexeme@;
        let input_len = self.input.len();
        let text: &str = lexeme.as_str();
        proof {
            vstd::utf8::is_ascii_chars_encode_utf8(lex);
            assert(text@ == lex);
            assert(text.spec_bytes() == vstd::utf8::encode_utf8(lex));
        }
        assert(text.spec_bytes().len() <= input_len);
        let n = text.len();
        assert(n == lex.len());
        self.add_token(tag, lexeme, self.row, self.column);
        proof {
            assert(token_views(self.tokens@) =~= token_views(old(self).tokens@).push(
                mk_token(tag, lex, old(self).row as int, old(self).column as int),
            ));
        }
        assert forall|j: int| self.cursor <= j < self.cursor + n implies self.input@[j] != '\n' by {
            assert(self.input@[j] == lex[j - self.cursor]);
        }
        self.advance_by(n);
    }

    /// The tokens so far followed by those that lexing from the current position gives.
    pub closed spec fn outcome(&self) -> Result<Seq<TokenV>, Error> {
        prepend(
            token_views(self.tokens@),
            scan(self.input@, self.cursor as int, self.row as int, self.column as int),
        )
    }

    /// Skips a line comment that starts at the cursor.
    fn skip_comment(&mut self)
        requires
            old(self).wf(),
            old(self).cursor < old(self).input@.len(),
            old(self).input@[old(self).cursor as int] == '#',
        ensures
            final(self).wf(),
            final(self).input == old(self).input,
            final(self).cursor > old(self).cursor,
            final(self).outcome() == old(self).outcome(),
    {
        let ghost s = self.input@;
        let ghost i = self.cursor as int;
        let ghost row0 = self.row as int;
        let ghost col0 = self.column as int;
        proof {
            lemma_comment_end(s, i + 1);
        }
        loop
            invariant
                self.wf(),
                self.input == old(self).input,
                self.input@ == s,
                self.tokens == old(self).tokens,
                i <= self.cursor <= comment_end(s, i),
                comment_end(s, i) == comment_end(s, self.cursor as int),
                self.row == row0,
                self.column == col0 + (self.cursor - i),
            ensures
                self.wf(),
                self.input == old(self).input,
                self.tokens == old(self).tokens,
                self.cursor == comment_end(s, i),
                self.row == row0,
                self.column == col0 + (self.cursor - i),
            decreases s.len() - self.cursor,
        {
            proof {
                lemma_comment_end(s, self.cursor as int);
                if self.cursor < s.len() {
                    lemma_comment_end(s, self.cursor + 1);
                }
            }
            match self.peek(0) {
                Some(c) => {
                    if c == '\n' {
                        break;
                    }
                    self.advance();
                },
                None => break,
            }
        }
    }

    /// Lexes the number that starts at the cursor.
    fn lex_number(&mut self)
        requires
            old(self).wf(),
            old(self).cursor < old(self).input@.len(),
            is_digit_char(old(self).input@[old(self).cursor as int]),
            multi_char_tag(
                old(self).input@[old(self).cursor as int],
                char_at(old(self).input@, old(self).cursor + 1),
            ) is None,
        ensures
            final(self).wf(),
            final(self).input == old(self).input,
            final(self).cursor > old(self).cursor,
            final(self).outcome() == old(self).outcome(),
    {
        let ghost s = self.input@;
        let ghost i = self.cursor as int;
        let ghost row0 = self.row as int;
        let ghost col0 = self.column as int;
        let ghost toks0 = token_views(self.tokens@);
        let start = self.cursor;
        let start_row = self.row;
        let start_column = self.column;
        self.advance();
        let mut has_dot = false;
        proof {
            lemma_number_end(s, i + 1, false);
        }
        loop
            invariant
                self.wf(),
                self.input == old(self).input,
                self.input@ == s,
                self.tokens == old(self).tokens,
                i < self.cursor <= number_end(s, i + 1, false),
                number_end(s, i + 1, false) == number_end(s, self.cursor as int, has_dot),
                self.row == row0,
                self.column == col0 + (self.cursor - i),
            ensures
                self.wf(),
                self.input == old(self).input,
                self.tokens == old(self).tokens,
                self.cursor == number_end(s, i + 1, false),
                self.row == row0,
                self.column == col0 + (self.cursor - i),
            decreases s.len() - self.cursor,
        {
            proof {
                lemma_number_end(s, self.cursor as int, has_dot);
                if self.cursor < s.len() {
                    lemma_number_end(s, self.cursor + 1, has_dot);
                    lemma_number_end(s, self.cursor + 1, true);
                }
            }
            match self.peek(0) {
                Some(next_c) => {
                    if is_digit_ascii(next_c) {
                        self.advance();
                    } else if next_c == '.' && !has_dot && match self.peek(1) {
                        Some(d) => d != '.',
                        None => true,
                    } {
                        has_dot = true;
                        self.advance();
                    } else {
                        break;
                    }
                },
                None => break,
            }
        }
        let lexeme = string_from_chars(&self.input.as_slice()[start..self.cursor]);
        self.add_token(TokenType::Number, lexeme, start_row, start_column);
        proof {
            let j = number_end(s, i + 1, false);
            let tok = mk_token(TokenType::Number, s.subrange(i, j), row0, col0);
            assert(token_views(self.tokens@) =~= toks0 + seq![tok]);
            assert(scan(s, i, row0, col0) == prepend(seq![tok], scan(s, j, row0, col0 + (j - i))));
            lemma_prepend_assoc(
                toks0,
                seq![mk_token(TokenType::Number, s.subrange(i, j), row0, col0)],
                scan(s, j, row0, col0 + (j - i)),
            );
        }
    }

    /// Lexes the string literal whose opening quote is at the cursor.
    fn lex_string(&mut self) -> (r: Result<(), Error>)
        requires
            old(self).wf(),
            old(self).cursor < old(self).input@.len(),
            old(self).input@[old(self).cursor as int] == '"',
            old(self).input@.len() < usize::MAX,
        ensures
            final(self).wf(),
            final(self).input == old(self).input,
            match r {
                Ok(()) => final(self).cursor > old(self).cursor && final(self).outcome()
                    == old(self).outcome(),
                Err(e) => old(self).outcome() == Err::<Seq<TokenV>, Error>(e),
            },
    {
        let ghost s = self.input@;
        let ghost i = self.cursor as int;
        let ghost row0 = self.row as int;
        let ghost col0 = self.column as int;
        let ghost toks0 = token_views(self.tokens@);
        let start_row = self.row;
        let start_column = self.column;
        self.advance();  // opening quote
        let content_start = self.cursor;
        proof {
            lemma_string_end(s, i + 1);
        }
        loop
            invariant
                self.wf(),
                self.input == old(self).input,
                self.input@ == s,
                self.tokens == old(self).tokens,
                i < self.cursor <= string_end(s, i + 1),
                string_end(s, i + 1) == string_end(s, self.cursor as int),
                self.row == row0,
                self.column == col0 + (self.cursor - i),
            ensures
                self.wf(),
                self.input == old(self).input,
                self.tokens == old(self).tokens,
                self.cursor == string_end(s, i + 1),
                self.row == row0,
                self.column == col0 + (self.cursor - i),
            decreases s.len() - self.cursor,
        {
            proof {
                lemma_string_end(s, self.cursor as int);
                if self.cursor < s.len() {
                    lemma_string_end(s, self.cursor + 1);
                }
            }
            match self.peek(0) {
                Some(next_c) => {
                    if next_c == '"' || next_c == '\n' {
                        break;
                    }
                    self.advance();
                },
                None => break,
            }
        }
        let closing = match self.peek(0) {
            Some(q) => q == '"',
            None => false,
        };
        if !closing {
            return Err(Error::UnterminatedString { row: self.row + 1, col: self.column + 1 });
        }
        let lexeme = string_from_chars(&self.input.as_slice()[content_start..self.cursor]);
        self.advance();  // closing quote
        self.add_token(TokenType::String, lexeme, start_row, start_column);
        proof {
            let k = string_end(s, i + 1);
            let tok = mk_token(TokenType::String, s.subrange(i + 1, k), row0, col0);
            assert(token_views(self.tokens@) =~= toks0 + seq![tok]);
            assert(scan(s, i, row0, col0) == prepend(
                seq![tok],
                scan(s, k + 1, row0, col0 + (k + 1 - i)),
            ));
            lemma_prepend_assoc(
                toks0,
                seq![mk_token(TokenType::String, s.subrange(i + 1, k), row0, col0)],
                scan(s, k + 1, row0, col0 + (k + 1 - i)),
            );
        }
        Ok(())
    }

    /// Lexes the identifier or keyword that starts at the cursor.
    fn lex_word(&mut self)
        requires
            old(self).wf(),
            old(self).cursor < old(self).input@.len(),
            ident_start(old(self).input@[old(self).cursor as int]),
        ensures
            final(self).wf(),
            final(self).input == old(self).input,
            final(self).cursor > old(self).cursor,
            final(self).outcome() == old(self).outcome(),
    {
        let ghost s = self.input@;
        let ghost i = self.cursor as int;
        let ghost row0 = self.row as int;
        let ghost col0 = self.column as int;
        let ghost toks0 = token_views(self.tokens@);
        let start = self.cursor;
        let start_row = self.row;
        let start_column = self.column;
        self.advance();
        proof {
            lemma_ident_end(s, i + 1);
        }
        loop
            invariant
                self.wf(),
                self.input == old(self).input,
                self.input@ == s,
                self.tokens == old(self).tokens,
                i < self.cursor <= ident_end(s, i + 1),
                ident_end(s, i + 1) == ident_end(s, self.cursor as int),
                self.row == row0,
                self.column == col0 + (self.cursor - i),
            ensures
                self.wf(),
                self.input == old(self).input,
                self.tokens == old(self).tokens,
                self.cursor == ident_end(s, i + 1),
                self.row == row0,
                self.column == col0 + (self.cursor - i),
            decreases s.len() - self.cursor,
        {
            proof {
                lemma_ident_end(s, self.cursor as int);
                if self.cursor < s.len() {
                    lemma_ident_end(s, self.cursor + 1);
                }
            }
            match self.peek(0) {
                Some(next_c) => {
                    if is_alnum_ascii(next_c) || next_c == '_' {
                        self.advance();
                    } else {
                        break;
                    }
                },
                None => break,
            }
        }
        let word = &self.input.as_slice()[start..self.cursor];
        let token_type = word_tag(word);
        let lexeme = string_from_chars(word);
        self.add_token(token_type, lexeme, start_row, start_column);
        proof {
            let j = ident_end(s, i + 1);
            let tok = mk_token(keyword_tag(s.subrange(i, j)), s.subrange(i, j), row0, col0);
            assert(token_views(self.tokens@) =~= toks0 + seq![tok]);
            assert(scan(s, i, row0, col0) == prepend(seq![tok], scan(s, j, row0, col0 + (j - i))));
            lemma_prepend_assoc(
                toks0,
                seq![mk_token(keyword_tag(s.subrange(i, j)), s.subrange(i, j), row0, col0)],
                scan(s, j, row0, col0 + (j - i)),
            );
        }
    }

    /// Lexes `input` up to the end, without joining keywords of several words:
    /// the tokens of `scan`, or its error.
    fn scan_all(input: &str) -> (r: Result<Vec<Token>, Error>)
        requires
            input@.len() < usize::MAX,
        ensures
            match r {
                Ok(ts) => scan(input@, 0, 0, 0) == Ok::<Seq<TokenV>, Error>(token_views(ts@)),
                Err(e) => scan(input@, 0, 0, 0) == Err::<Seq<TokenV>, Error>(e),
            },
    {
        let mut lexer = LexerContext {
            tokens: Vec::new(),
            row: 0,
            column: 0,
            cursor: 0,
            input: chars_of(input),
        };
        let ghost s = input@;
        proof {
            assert(token_views(lexer.tokens@) =~= Seq::<TokenV>::empty());
            match scan(s, 0, 0, 0) {
                Ok(ts) => {
                    assert(Seq::<TokenV>::empty() + ts =~= ts);
                },
                Err(e) => {},
            }
        }
        loop
            invariant
                lexer.wf(),
                lexer.input@ == s,
                s == input@,
                s.len() < usize::MAX,
                scan(s, 0, 0, 0) == lexer.outcome(),
            ensures
                lexer.wf(),
                lexer.input@ == s,
                lexer.cursor == s.len(),
                scan(s, 0, 0, 0) == lexer.outcome(),
            decreases s.len() - lexer.cursor,
        {
            let c = match lexer.peek(0) {
                Some(c) => c,
                None => break,
            };
            let ghost i = lexer.cursor as int;
            let ghost row0 = lexer.row as int;
            let ghost col0 = lexer.column as int;
            let ghost toks0 = token_views(lexer.tokens@);
            if is_whitespace_ascii(c) {
                lexer.advance();
                continue;
            }
            if c == '#' {
                lexer.skip_comment();
                continue;
            }
            if lexer.try_push_multi_char_token(c) {
                continue;
            }
            if lexer.try_push_single_char_token(c) {
                continue;
            }
            if is_digit_ascii(c) {
                lexer.lex_number();
                continue;
            }
            if c == '"' {
                match lexer.lex_string() {
                    Ok(()) => {},
                    Err(e) => {
                        return Err(e);
                    },
                }
                continue;
            }
            if is_alpha_ascii(c) || c == '_' {
                lexer.lex_word();
                continue;
            }
            let err = Error::InvalidCharacter { ch: c, row: lexer.row + 1, col: lexer.column + 1 };
            proof {
                assert(scan(s, i, row0, col0) == Err::<Seq<TokenV>, Error>(err));
            }
            return Err(err);
        }
        let ghost toks0 = token_views(lexer.tokens@);
        lexer.add_token(TokenType::Eof, String::new(), lexer.row, lexer.column);
        proof {
            assert(token_views(lexer.tokens@) =~= toks0 + seq![
                mk_token(TokenType::Eof, seq![], lexer.row as int, lexer.column as int),
            ]);
        }
        Ok(lexer.tokens)
    }

    /// Tries to match and consume a two-character operator starting with `c`,
    /// the character at the cursor; `true` if one was added.
    fn try_push_multi_char_token(&mut self, c: char) -> (r: bool)
        requires
            old(self).wf(),
            old(self).cursor < old(self).input@.len(),
            c == old(self).input@[old(self).cursor as int],
        ensures
            final(self).wf(),
            final(self).input == old(self).input,
            r == (multi_char_tag(c, char_at(old(self).input@, old(self).cursor + 1)) is Some),
            r ==> {
                &&& token_views(final(self).tokens@) == token_views(old(self).tokens@).push(
                    mk_token(
                        multi_char_tag(c, char_at(old(self).input@, old(self).cursor + 1))->0,
                        old(self).input@.subrange(
                            old(self).cursor as int,
                            old(self).cursor + 2,
                        ),
                        old(self).row as int,
                        old(self).column as int,
                    ),
                )
                &&& final(self).cursor == old(self).cursor + 2
                &&& final(self).row == old(self).row
                &&& final(self).column == old(self).column + 2
                &&& final(self).outcome() == old(self).outcome()
            },
            !r ==> *final(self) == *old(self),
    {
        let next = self.peek(1);
        let tag: Option<TokenType> = match (c, next) {
            ('=', Some('=')) => Some(TokenType::Equal),
            ('!', Some('=')) => Some(TokenType::NotEqual),
            ('<', Some('=')) => Some(TokenType::LessEqual),
            ('>', Some('=')) => Some(TokenType::GreaterEqual),
            ('&', Some('&')) => Some(TokenType::And),
            ('|', Some('|')) => Some(TokenType::Or),
            _ => None,
        };
        match tag {
            Some(t) => {
                let n = next.unwrap();
                let pair = [c, n];
                let lexeme = string_from_chars(&pair);
                proof {
                    assert(lexeme@ =~= self.input@.subrange(
                        self.cursor as int,
                        self.cursor + 2,
                    ));
                }
                let ghost toks0 = token_views(self.tokens@);
                let ghost tok = mk_token(
                    t,
                    self.input@.subrange(self.cursor as int, self.cursor + 2),
                    self.row as int,
                    self.column as int,
                );
                let ghost s = self.input@;
                let ghost i = self.cursor as int;
                let ghost row0 = self.row as int;
                let ghost col0 = self.column as int;
                self.push_token(t, lexeme);
                proof {
                    assert(token_views(self.tokens@) =~= toks0 + seq![tok]);
                    assert(scan(s, i, row0, col0) == prepend(seq![tok], scan(s, i + 2, row0, col0 + 2)));
                    lemma_prepend_assoc(toks0, seq![tok], scan(s, i + 2, row0, col0 + 2));
                }
                true
            },
            None => false,
        }
    }

    /// Tries to match and consume a single-character token `c`, the character
    /// at the cursor; `true` if it was one.
    fn try_push_single_char_token(&mut self, c: char) -> (r: bool)
        requires
            old(self).wf(),
            old(self).cursor < old(self).input@.len(),
            c == old(self).input@[old(self).cursor as int],
            multi_char_tag(c, char_at(old(self).input@, old(self).cursor + 1)) is None,
        ensures
            final(self).wf(),
            final(self).input == old(self).input,
            r == (single_char_tag(c) is Some),
            r ==> {
                &&& token_views(final(self).tokens@) == token_views(old(self).tokens@).push(
                    mk_token(
                        single_char_tag(c)->0,
                        seq![c],
                        old(self).row as int,
                        old(self).column as int,
                    ),
                )
                &&& final(self).cursor == old(self).cursor + 1
                &&& final(self).row == old(self).row
                &&& final(self).column == old(self).column + 1
                &&& final(self).outcome() == old(self).outcome()
            },
            !r ==> *final(self) == *old(self),
    {
        let token_type = match c {
            '(' => TokenType::LParen,
            ')' => TokenType::RParen,
            ',' => TokenType::Comma,
            '.' => TokenType::Dot,
            '*' => TokenType::Star,
            '+' => TokenType::Plus,
            '-' => TokenType::Minus,
            '/' => TokenType::Slash,
            '<' => TokenType::Less,
            '>' => TokenType::Greater,
            _ => return false,
        };
        let one = [c];
        let lexeme = string_from_chars(&one);
        proof {
            assert(lexeme@ =~= self.input@.subrange(self.cursor as int, self.cursor + 1));
            assert(lexeme@ =~= seq![c]);
        }
        let ghost toks0 = token_views(self.tokens@);
        let ghost tok = mk_token(token_type, seq![c], self.row as int, self.column as int);
        let ghost s = self.input@;
        let ghost i = self.cursor as int;
        let ghost row0 = self.row as int;
        let ghost col0 = self.column as int;
        self.push_token(token_type, lexeme);
        proof {
            assert(token_views(self.tokens@) =~= toks0 + seq![tok]);
            assert(scan(s, i, row0, col0) == prepend(seq![tok], scan(s, i + 1, row0, col0 + 1)));
            lemma_prepend_assoc(toks0, seq![tok], scan(s, i + 1, row0, col0 + 1));
        }
        true
    }
}


/// The tag of the word `w` (see `keyword_tag`).
fn word_tag(w: &[char]) -> (t: TokenType)
    ensures
        t == keyword_tag(w@),
{
    let k_insert = ['I', 'N', 'S', 'E', 'R', 'T'];
    let k_select = ['S', 'E', 'L', 'E', 'C', 'T'];
    let k_delete = ['D', 'E', 'L', 'E', 'T', 'E'];
    let k_into = ['I', 'N', 'T', 'O'];
    let k_from = ['F', 'R', 'O', 'M'];
    let k_where = ['W', 'H', 'E', 'R', 'E'];
    let k_on = ['O', 'N'];
    let k_limit = ['L', 'I', 'M', 'I', 'T'];
    let k_true = ['T', 'R', 'U', 'E'];
    let k_false = ['F', 'A', 'L', 'S', 'E'];
    let k_join = ['J', 'O', 'I', 'N'];
    proof {
        assert(k_insert@ =~= seq!['I', 'N', 'S', 'E', 'R', 'T']);
        assert(k_select@ =~= seq!['S', 'E', 'L', 'E', 'C', 'T']);
        assert(k_delete@ =~= seq!['D', 'E', 'L', 'E', 'T', 'E']);
        assert(k_into@ =~= seq!['I', 'N', 'T', 'O']);
        assert(k_from@ =~= seq!['F', 'R', 'O', 'M']);
        assert(k_where@ =~= seq!['W', 'H', 'E', 'R', 'E']);
        assert(k_on@ =~= seq!['O', 'N']);
        assert(k_limit@ =~= seq!['L', 'I', 'M', 'I', 'T']);
        assert(k_true@ =~= seq!['T', 'R', 'U', 'E']);
        assert(k_false@ =~= seq!['F', 'A', 'L', 'S', 'E']);
        assert(k_join@ =~= seq!['J', 'O', 'I', 'N']);
    }
    if upper_equals(w, &k_insert) {
        TokenType::Insert
    } else if upper_equals(w, &k_select) {
        TokenType::Select
    } else if upper_equals(w, &k_delete) {
        TokenType::Delete
    } else if upper_equals(w, &k_into) {
        TokenType::Into
    } else if upper_equals(w, &k_from) {
        TokenType::From
    } else if upper_equals(w, &k_where) {
        TokenType::Where
    } else if upper_equals(w, &k_on) {
        TokenType::On
    } else if upper_equals(w, &k_limit) {
        TokenType::Limit
    } else if upper_equals(w, &k_true) {
        TokenType::True
    } else if upper_equals(w, &k_false) {
        TokenType::False
    } else if upper_equals(w, &k_join) {
        TokenType::Join
    } else {
        TokenType::Identifier
    }
}

pub proof fn lemma_prepend_assoc(p: Seq<TokenV>, q: Seq<TokenV>, r: Result<Seq<TokenV>, Error>)
    ensures
        prepend(p, prepend(q, r)) == prepend(p + q, r),
{
    match r {
        Ok(ts) => {
            assert(p + (q + ts) =~= (p + q) + ts);
        },
        Err(e) => {},
    }
}


/// Whether token `k` is an identifier that spells `w` (ignoring ASCII case).
fn word_at(ts: &Vec<Token>, k: usize, w: &[char]) -> (r: bool)
    ensures
        r == is_word(token_views(ts@), k as int, w@),
{
    if k >= ts.len() {
        return false;
    }
    if ts[k].tag != TokenType::Identifier {
        return false;
    }
    let chars = chars_of(ts[k].lexeme.as_str());
    upper_equals(chars.as_slice(), w)
}

fn join_at(ts: &Vec<Token>, k: usize) -> (r: bool)
    ensures
        r == is_join(token_views(ts@), k as int),
{
    k < ts.len() && ts[k].tag == TokenType::Join
}

/// `LEFT`, `RIGHT` or `FULL` (spelled by `w`), optionally `OUTER`, then `JOIN`.
fn outer_join_at(ts: &Vec<Token>, k: usize, w: &[char]) -> (r: usize)
    requires
        k < ts@.len(),
    ensures
        r == outer_join_len(token_views(ts@), k as int, w@),
{
    let outer = ['O', 'U', 'T', 'E', 'R'];
    proof {
        assert(outer@ =~= word_outer());
    }
    let rest = ts.len() - k;
    if rest >= 3 && word_at(ts, k, w) && word_at(ts, k + 1, &outer) && join_at(ts, k + 2) {
        3
    } else if rest >= 2 && word_at(ts, k, w) && join_at(ts, k + 1) {
        2
    } else {
        0
    }
}

/// The keyword of several words that starts at token `k`, with the number of words.
fn compound_at(ts: &Vec<Token>, k: usize) -> (r: Option<(TokenType, usize)>)
    requires
        k < ts@.len(),
    ensures
        match r {
            Some((t, n)) => compound_keyword(token_views(ts@), k as int) == Some((t, n as int)),
            None => compound_keyword(token_views(ts@), k as int) is None,
        },
{
    let order = ['O', 'R', 'D', 'E', 'R'];
    let by = ['B', 'Y'];
    let inner = ['I', 'N', 'N', 'E', 'R'];
    let cross = ['C', 'R', 'O', 'S', 'S'];
    let left = ['L', 'E', 'F', 'T'];
    let right = ['R', 'I', 'G', 'H', 'T'];
    let full = ['F', 'U', 'L', 'L'];
    proof {
        assert(order@ =~= word_order());
        assert(by@ =~= word_by());
        assert(inner@ =~= word_inner());
        assert(cross@ =~= word_cross());
        assert(left@ =~= word_left());
        assert(right@ =~= word_right());
        assert(full@ =~= word_full());
    }
    let rest = ts.len() - k;
    if rest >= 2 && word_at(ts, k, &order) && word_at(ts, k + 1, &by) {
        return Some((TokenType::OrderBy, 2));
    }
    if rest >= 2 && word_at(ts, k, &inner) && join_at(ts, k + 1) {
        return Some((TokenType::InnerJoin, 2));
    }
    if rest >= 2 && word_at(ts, k, &cross) && join_at(ts, k + 1) {
        return Some((TokenType::CrossJoin, 2));
    }
    let n = outer_join_at(ts, k, &left);
    if n > 0 {
        return Some((TokenType::LeftOuterJoin, n));
    }
    let n = outer_join_at(ts, k, &right);
    if n > 0 {
        return Some((TokenType::RightOuterJoin, n));
    }
    let n = outer_join_at(ts, k, &full);
    if n > 0 {
        return Some((TokenType::FullOuterJoin, n));
    }
    None
}

/// Makes every keyword of several words (`ORDER BY`, `INNER JOIN`, `LEFT [OUTER] JOIN`, ...)
/// into one token whose lexeme is its words one after the other.
fn combine_keywords(tokens: &Vec<Token>) -> (r: Vec<Token>)
    ensures
        token_views(r@) == combine_from(token_views(tokens@), 0),
{
    let ghost v = token_views(tokens@);
    let mut out: Vec<Token> = Vec::new();
    let mut k: usize = 0;
    proof {
        assert(token_views(out@) + combine_from(v, 0) =~= combine_from(v, 0));
    }
    while k < tokens.len()
        invariant
            0 <= k <= tokens@.len(),
            v == token_views(tokens@),
            combine_from(v, 0) == token_views(out@) + combine_from(v, k as int),
        decreases tokens@.len() - k,
    {
        let ghost out0 = token_views(out@);
        match compound_at(tokens, k) {
            Some((tag, n)) => {
                let mut text = chars_of(tokens[k].lexeme.as_str());
                let mut second = chars_of(tokens[k + 1].lexeme.as_str());
                text.append(&mut second);
                if n == 3 {
                    let mut third = chars_of(tokens[k + 2].lexeme.as_str());
                    text.append(&mut third);
                }
                proof {
                    assert(v[k as int].lexeme == tokens@[k as int].lexeme@);
                    assert(v[k + 1].lexeme == tokens@[k + 1].lexeme@);
                    assert(joined_lexeme(v, k + 1, 1) == v[k + 1].lexeme);
                    if n == 3 {
                        assert(v[k + 2].lexeme == tokens@[k + 2].lexeme@);
                        assert(joined_lexeme(v, k + 2, 1) == v[k + 2].lexeme);
                        assert(joined_lexeme(v, k + 1, 2) == v[k + 1].lexeme + joined_lexeme(
                            v,
                            k + 2,
                            1,
                        ));
                        assert(text@ =~= joined_lexeme(v, k as int, 3));
                    } else {
                        assert(text@ =~= joined_lexeme(v, k as int, 2));
                    }
                }
                let lexeme = string_from_chars(text.as_slice());
                out.push(Token { tag, lexeme, row: tokens[k].row, column: tokens[k].column });
                proof {
                    let tok = mk_token(tag, joined_lexeme(v, k as int, n as int), v[k as int].row, v[k as int].column);
                    assert(token_views(out@) =~= out0 + seq![tok]);
                    assert(combine_from(v, k as int) == seq![tok] + combine_from(v, k + n));
                    assert(out0 + (seq![tok] + combine_from(v, k + n)) =~= (out0 + seq![tok])
                        + combine_from(v, k + n));
                }
                k = k + n;
            },
            None => {
                out.push(copy_token(&tokens[k]));
                proof {
                    assert(token_views(out@) =~= out0 + seq![v[k as int]]);
                    assert(combine_from(v, k as int) == seq![v[k as int]] + combine_from(v, k + 1));
                    assert(out0 + (seq![v[k as int]] + combine_from(v, k + 1)) =~= (out0
                        + seq![v[k as int]]) + combine_from(v, k + 1));
                }
                k = k + 1;
            },
        }
    }
    proof {
        assert(combine_from(v, k as int) =~= Seq::<TokenV>::empty());
        assert(token_views(out@) + Seq::<TokenV>::empty() =~= token_views(out@));
    }
    out
}

impl LexerContext {
    /// Lexes `input` into its tokens, the last one `Eof`; or reports the first
    /// unterminated string or unexpected character (1-based row and column).
    pub fn lex(input: &str) -> (r: Result<Vec<Token>, Error>)
        requires
            input@.len() < usize::MAX,
        ensures
            match r {
                Ok(ts) => lex_spec(input@) == Ok::<Seq<TokenV>, Error>(token_views(ts@)),
                Err(e) => lex_spec(input@) == Err::<Seq<TokenV>, Error>(e),
            },
    {
        match Self::scan_all(input) {
            Ok(tokens) => Ok(combine_keywords(&tokens)),
            Err(e) => Err(e),
        }
    }
}

} // verus!
