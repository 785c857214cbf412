//! The scanner: it reads the source one character at a time and makes tokens.
//!
//! The source ends at a `'\0'` character; reading past the last character of
//! a source without one is out of bounds, so the operations below ask for
//! the stretch that they read to stop inside the source.
use vstd::prelude::*;
use std::rc::Rc;

use crate::clox::token::{Token, TokenType};
use crate::text::{chars_of, string_from_chars};

verus! {

/// The first position at or after `i` that holds `'\n'` or `'\0'`.
pub open spec fn comment_stop(s: Seq<char>, i: int) -> Option<int>
    decreases s.len() - i,
{
    if i < 0 || i >= s.len() {
        None
    } else if s[i] == '\n' || s[i] == '\0' {
        Some(i)
    } else {
        comment_stop(s, i + 1)
    }
}

pub proof fn lemma_comment_stop(s: Seq<char>, i: int)
    ensures
        comment_stop(s, i) matches Some(j) ==> i <= j < s.len() && (s[j] == '\n' || s[j] == '\0'),
        comment_stop(s, i) matches Some(j) ==> forall|k: int|
            i <= k < j ==> s[k] != '\n' && s[k] != '\0',
    decreases s.len() - i,
{
    if 0 <= i < s.len() && !(s[i] == '\n' || s[i] == '\0') {
        lemma_comment_stop(s, i + 1);
    }
}

/// Where skipping whitespace from position `i` stops: spaces, tabs, carriage
/// returns, newlines and `//` comments (up to their newline or the end of
/// the source) are skipped, and any other character stops the skipping.
pub open spec fn skip_to(s: Seq<char>, i: int) -> int
    decreases s.len() - i,
{
    if i < 0 || i >= s.len() {
        i
    } else if s[i] == ' ' || s[i] == '\r' || s[i] == '\t' || s[i] == '\n' {
        skip_to(s, i + 1)
    } else if s[i] == '/' && i + 1 < s.len() && s[i + 1] == '/' {
        match comment_stop(s, i) {
            Some(j) => if i < j < s.len() {
                skip_to(s, j)
            } else {
                i
            },
            None => i,
        }
    } else {
        i
    }
}

/// The number of `'\n'` characters in `s[a..b]`.
pub open spec fn newlines(s: Seq<char>, a: int, b: int) -> int
    decreases b - a,
{
    if b <= a {
        0
    } else {
        newlines(s, a, b - 1) + if s[b - 1] == '\n' {
            1int
        } else {
            0int
        }
    }
}

proof fn lemma_newlines_split(s: Seq<char>, a: int, m: int, b: int)
    requires
        a <= m <= b,
    ensures
        newlines(s, a, b) == newlines(s, a, m) + newlines(s, m, b),
    decreases b - m,
{
    if b > m {
        lemma_newlines_split(s, a, m, b - 1);
    }
}

proof fn lemma_newlines_le(s: Seq<char>, a: int, b: int)
    requires
        a <= b,
    ensures
        0 <= newlines(s, a, b) <= b - a,
    decreases b - a,
{
    if b > a {
        lemma_newlines_le(s, a, b - 1);
    }
}

proof fn lemma_newlines_nonneg(s: Seq<char>, a: int, b: int)
    ensures
        newlines(s, a, b) >= 0,
    decreases b - a,
{
    if b > a {
        lemma_newlines_nonneg(s, a, b - 1);
    }
}

/// In a source that ends with `'\0'`, skipping stops inside the source, at
/// a character that is neither whitespace nor the start of a comment.
pub proof fn lemma_skip_to(s: Seq<char>, i: int)
    requires
        0 <= i < s.len(),
        s.last() == '\0',
    ensures
        i <= skip_to(s, i) < s.len(),
        !(s[skip_to(s, i)] == ' ' || s[skip_to(s, i)] == '\r' || s[skip_to(s, i)] == '\t' || s[
            skip_to(s, i)
        ] == '\n'),
        s[skip_to(s, i)] == '/' ==> skip_to(s, i) + 1 < s.len() && s[skip_to(s, i) + 1] != '/',
    decreases s.len() - i,
{
    if s[i] == ' ' || s[i] == '\r' || s[i] == '\t' || s[i] == '\n' {
        lemma_skip_to(s, i + 1);
    } else if s[i] == '/' && i + 1 < s.len() && s[i + 1] == '/' {
        lemma_comment_stop(s, i);
        lemma_first_stop_end(s, i, |c: char| c == '\n' || c == '\0');
        lemma_comment_is_stop(s, i);
        let j = comment_stop(s, i)->0;
        lemma_skip_to(s, j);
    } else if s[i] == '/' {
        assert(i + 1 < s.len());
    }
}

proof fn lemma_comment_is_stop(s: Seq<char>, i: int)
    ensures
        comment_stop(s, i) == first_stop(s, i, |c: char| c == '\n' || c == '\0'),
    decreases s.len() - i,
{
    if 0 <= i < s.len() && !(s[i] == '\n' || s[i] == '\0') {
        lemma_comment_is_stop(s, i + 1);
    }
}

/// Where the last character of `s` is one that `stop` accepts, a search from
/// any position of `s` finds one.
pub proof fn lemma_first_stop_end(s: Seq<char>, i: int, stop: spec_fn(char) -> bool)
    requires
        0 <= i < s.len(),
        stop(s.last()),
    ensures
        first_stop(s, i, stop) is Some,
    decreases s.len() - i,
{
    if !stop(s[i]) {
        lemma_first_stop_end(s, i + 1, stop);
    }
}

proof fn lemma_newlines_mono(s: Seq<char>, a: int, b: int, c: int)
    requires
        a <= b <= c,
    ensures
        newlines(s, a, b) <= newlines(s, a, c),
{
    lemma_newlines_split(s, a, b, c);
    lemma_newlines_nonneg(s, b, c);
}

/// `c` is a decimal digit.
pub open spec fn digit(c: char) -> bool {
    '0' <= c <= '9'
}

/// `c` is an ASCII letter or `_`.
pub open spec fn alpha(c: char) -> bool {
    ('a' <= c <= 'z') || ('A' <= c <= 'Z') || c == '_'
}

/// The first position at or after `i` whose character `stop` accepts.
pub open spec fn first_stop(s: Seq<char>, i: int, stop: spec_fn(char) -> bool) -> Option<int>
    decreases s.len() - i,
{
    if i < 0 || i >= s.len() {
        None
    } else if stop(s[i]) {
        Some(i)
    } else {
        first_stop(s, i + 1, stop)
    }
}

pub proof fn lemma_first_stop(s: Seq<char>, i: int, stop: spec_fn(char) -> bool)
    ensures
        first_stop(s, i, stop) matches Some(j) ==> i <= j < s.len() && stop(s[j]) && forall|k: int|
            i <= k < j ==> !stop(#[trigger] s[k]),
    decreases s.len() - i,
{
    if 0 <= i < s.len() && !stop(s[i]) {
        lemma_first_stop(s, i + 1, stop);
    }
}

/// A `"` or the `'\0'` that ends the source.
pub open spec fn quote_or_end(c: char) -> bool {
    c == '"' || c == '\0'
}

/// Not a decimal digit.
pub open spec fn non_digit(c: char) -> bool {
    !digit(c)
}

/// Neither a letter, `_` nor a decimal digit.
pub open spec fn non_word(c: char) -> bool {
    !(alpha(c) || digit(c))
}

/// Where a number whose digits start at `i` ends: after its digits, and
/// after a fraction where a `.` and a digit follow them. `None` where the
/// reading goes out of bounds.
pub open spec fn number_end(s: Seq<char>, i: int) -> Option<int> {
    match first_stop(s, i, |c: char| non_digit(c)) {
        Some(q) => if s[q] == '.' {
            if q + 1 >= s.len() {
                None
            } else if digit(s[q + 1]) {
                first_stop(s, q + 1, |c: char| non_digit(c))
            } else {
                Some(q)
            }
        } else {
            Some(q)
        },
        None => None,
    }
}

/// The kind of the word `s`: a keyword, or else an identifier.
pub open spec fn keyword_of(s: Seq<char>) -> TokenType {
    if s == "and"@ {
        TokenType::And
    } else if s == "class"@ {
        TokenType::Class
    } else if s == "else"@ {
        TokenType::Else
    } else if s == "false"@ {
        TokenType::False
    } else if s == "for"@ {
        TokenType::For
    } else if s == "fn"@ {
        TokenType::Fn
    } else if s == "if"@ {
        TokenType::If
    } else if s == "nil"@ {
        TokenType::Nil
    } else if s == "or"@ {
        TokenType::Or
    } else if s == "print"@ {
        TokenType::Print
    } else if s == "return"@ {
        TokenType::Return
    } else if s == "super"@ {
        TokenType::Super
    } else if s == "this"@ {
        TokenType::This
    } else if s == "true"@ {
        TokenType::Ture
    } else if s == "var"@ {
        TokenType::Var
    } else if s == "while"@ {
        TokenType::While
    } else if s == "break"@ {
        TokenType::Break
    } else {
        TokenType::Identifier
    }
}

/// The reserved words of Lox.
pub open spec fn reserved_words() -> Seq<Seq<char>> {
    seq![
        "and"@,
        "class"@,
        "else"@,
        "false"@,
        "for"@,
        "fn"@,
        "if"@,
        "nil"@,
        "or"@,
        "print"@,
        "return"@,
        "super"@,
        "this"@,
        "true"@,
        "var"@,
        "while"@,
        "break"@,
    ]
}

/// The token kinds of the reserved words, in the same order.
pub open spec fn reserved_kinds() -> Seq<TokenType> {
    seq![
        TokenType::And,
        TokenType::Class,
        TokenType::Else,
        TokenType::False,
        TokenType::For,
        TokenType::Fn,
        TokenType::If,
        TokenType::Nil,
        TokenType::Or,
        TokenType::Print,
        TokenType::Return,
        TokenType::Super,
        TokenType::This,
        TokenType::Ture,
        TokenType::Var,
        TokenType::While,
        TokenType::Break,
    ]
}

/// Every reserved word is read as its own keyword, and every other word as
/// an identifier.
pub proof fn law_keywords(w: Seq<char>)
    ensures
        forall|k: int|
            0 <= k < reserved_words().len() ==> keyword_of(#[trigger] reserved_words()[k])
                == reserved_kinds()[k],
        !reserved_words().contains(w) ==> keyword_of(w) == TokenType::Identifier,
        reserved_words().contains(w) ==> keyword_of(w) != TokenType::Identifier,
{
    reveal_strlit("and");
    reveal_strlit("class");
    reveal_strlit("else");
    reveal_strlit("false");
    reveal_strlit("for");
    reveal_strlit("fn");
    reveal_strlit("if");
    reveal_strlit("nil");
    reveal_strlit("or");
    reveal_strlit("print");
    reveal_strlit("return");
    reveal_strlit("super");
    reveal_strlit("this");
    reveal_strlit("true");
    reveal_strlit("var");
    reveal_strlit("while");
    reveal_strlit("break");
    assert("and"@.len() == 3 && "and"@[0] == 'a' && "and"@[1] == 'n');
    assert("class"@.len() == 5 && "class"@[0] == 'c' && "class"@[1] == 'l');
    assert("else"@.len() == 4 && "else"@[0] == 'e' && "else"@[1] == 'l');
    assert("false"@.len() == 5 && "false"@[0] == 'f' && "false"@[1] == 'a');
    assert("for"@.len() == 3 && "for"@[0] == 'f' && "for"@[1] == 'o');
    assert("fn"@.len() == 2 && "fn"@[0] == 'f' && "fn"@[1] == 'n');
    assert("if"@.len() == 2 && "if"@[0] == 'i' && "if"@[1] == 'f');
    assert("nil"@.len() == 3 && "nil"@[0] == 'n' && "nil"@[1] == 'i');
    assert("or"@.len() == 2 && "or"@[0] == 'o' && "or"@[1] == 'r');
    assert("print"@.len() == 5 && "print"@[0] == 'p' && "print"@[1] == 'r');
    assert("return"@.len() == 6 && "return"@[0] == 'r' && "return"@[1] == 'e');
    assert("super"@.len() == 5 && "super"@[0] == 's' && "super"@[1] == 'u');
    assert("this"@.len() == 4 && "this"@[0] == 't' && "this"@[1] == 'h');
    assert("true"@.len() == 4 && "true"@[0] == 't' && "true"@[1] == 'r');
    assert("var"@.len() == 3 && "var"@[0] == 'v' && "var"@[1] == 'a');
    assert("while"@.len() == 5 && "while"@[0] == 'w' && "while"@[1] == 'h');
    assert("break"@.len() == 5 && "break"@[0] == 'b' && "break"@[1] == 'r');
    let r = reserved_words();
    assert(reserved_kinds().len() == 17);
    assert forall|k: int| 0 <= k < r.len() implies keyword_of(#[trigger] r[k])
        == reserved_kinds()[k] by {}
    if !r.contains(w) {
        assert forall|k: int| 0 <= k < r.len() implies #[trigger] r[k] != w by {}
        assert(w != r[0] && w != r[1] && w != r[2] && w != r[3] && w != r[4] && w != r[5]);
        assert(w != r[6] && w != r[7] && w != r[8] && w != r[9] && w != r[10] && w != r[11]);
        assert(w != r[12] && w != r[13] && w != r[14] && w != r[15] && w != r[16]);
    } else {
        let k = choose|k: int| 0 <= k < r.len() && r[k] == w;
        assert(keyword_of(r[k]) == reserved_kinds()[k]);
    }
}

/// Whether the characters of `v` are those of `lit`.
fn same_text(v: &Vec<char>, lit: &str) -> (res: bool)
    ensures
        res == (v@ == lit@),
{
    let l = chars_of(lit);
    if v.len() != l.len() {
        return false;
    }
    let mut i: usize = 0;
    while i < v.len()
        invariant
            i <= v@.len(),
            v@.len() == l@.len(),
            l@ == lit@,
            forall|k: int| 0 <= k < i ==> v@[k] == l@[k],
        decreases v@.len() - i,
    {
        if v[i] != l[i] {
            return false;
        }
        i += 1;
    }
    assert(v@ =~= l@);
    true
}

/// The kind of the word `str`: a keyword, or else an identifier.
pub fn to_keyword(str: &str) -> (ty: TokenType)
    ensures
        ty == keyword_of(str@),
{
    let w = chars_of(str);
    if same_text(&w, "and") {
        TokenType::And
    } else if same_text(&w, "class") {
        TokenType::Class
    } else if same_text(&w, "else") {
        TokenType::Else
    } else if same_text(&w, "false") {
        TokenType::False
    } else if same_text(&w, "for") {
        TokenType::For
    } else if same_text(&w, "fn") {
        TokenType::Fn
    } else if same_text(&w, "if") {
        TokenType::If
    } else if same_text(&w, "nil") {
        TokenType::Nil
    } else if same_text(&w, "or") {
        TokenType::Or
    } else if same_text(&w, "print") {
        TokenType::Print
    } else if same_text(&w, "return") {
        TokenType::Return
    } else if same_text(&w, "super") {
        TokenType::Super
    } else if same_text(&w, "this") {
        TokenType::This
    } else if same_text(&w, "true") {
        TokenType::Ture
    } else if same_text(&w, "var") {
        TokenType::Var
    } else if same_text(&w, "while") {
        TokenType::While
    } else if same_text(&w, "break") {
        TokenType::Break
    } else {
        TokenType::Identifier
    }
}

/// The kind of a token of the single character `c`, if it makes one.
pub open spec fn single_kind(c: char) -> Option<TokenType> {
    if c == '(' {
        Some(TokenType::LeftParen)
    } else if c == ')' {
        Some(TokenType::RightParen)
    } else if c == '{' {
        Some(TokenType::LeftBrace)
    } else if c == '}' {
        Some(TokenType::RightBrace)
    } else if c == ',' {
        Some(TokenType::Comma)
    } else if c == '.' {
        Some(TokenType::Dot)
    } else if c == '-' {
        Some(TokenType::Minus)
    } else if c == '+' {
        Some(TokenType::Plus)
    } else if c == ';' {
        Some(TokenType::Semicolon)
    } else if c == '*' {
        Some(TokenType::Star)
    } else if c == '/' {
        Some(TokenType::Slash)
    } else {
        None
    }
}

/// The kinds of the tokens that `c` makes alone and followed by `=`, if it
/// is one of `!`, `=`, `<`, `>`.
pub open spec fn pair_kind(c: char) -> Option<(TokenType, TokenType)> {
    if c == '!' {
        Some((TokenType::Bang, TokenType::BangEqual))
    } else if c == '=' {
        Some((TokenType::Equal, TokenType::EqualEqual))
    } else if c == '<' {
        Some((TokenType::Less, TokenType::LessEqual))
    } else if c == '>' {
        Some((TokenType::Greater, TokenType::GreaterEqual))
    } else {
        None
    }
}

/// The next token of `s` from position `i`, as (kind, text, start, end):
/// whitespace and comments are skipped, and the token starts where the
/// skipping stops.
pub open spec fn scan_result(s: Seq<char>, i: int) -> (TokenType, Seq<char>, int, int) {
    token_at(s, skip_to(s, i))
}

/// The token of `s` that starts at position `p`, as (kind, text, start, end):
/// the `'\0'` that ends the source is `Eof`; then single-character tokens,
/// one- or two-character operators, string literals (an error where the
/// source ends first), numbers, keywords and identifiers, and an error for
/// any other character.
pub open spec fn token_at(s: Seq<char>, p: int) -> (TokenType, Seq<char>, int, int) {
    let c = s[p];
    if c == '\0' {
        (TokenType::Eof, Seq::empty(), p, p)
    } else if single_kind(c) is Some {
        (single_kind(c)->0, s.subrange(p, p + 1), p, p + 1)
    } else if pair_kind(c) is Some {
        let (one, two) = pair_kind(c)->0;
        if s[p + 1] == '=' {
            (two, s.subrange(p, p + 2), p, p + 2)
        } else {
            (one, s.subrange(p, p + 1), p, p + 1)
        }
    } else if c == '"' {
        let q = first_stop(s, p + 1, |c: char| quote_or_end(c))->0;
        if s[q] == '\0' {
            (TokenType::Error, "Unterminated string."@, p, q)
        } else {
            (TokenType::String, s.subrange(p, q + 1), p, q + 1)
        }
    } else if digit(c) {
        let e = number_end(s, p + 1)->0;
        (TokenType::Number, s.subrange(p, e), p, e)
    } else if alpha(c) {
        let e = first_stop(s, p + 1, |c: char| non_word(c))->0;
        (keyword_of(s.subrange(p, e)), s.subrange(p, e), p, e)
    } else {
        (TokenType::Error, "Unexpected character."@, p, p + 1)
    }
}

/// Once the scanner stands on the `'\0'` that ends the source, the next
/// token is `Eof` and it stays where it is, so every later token is `Eof`
/// too.
pub proof fn law_eof_repeats(s: Seq<char>, i: int)
    requires
        0 <= i < s.len(),
        s[i] == '\0',
    ensures
        scan_result(s, i) == (TokenType::Eof, Seq::<char>::empty(), i, i),
{
}

/// Where the source ends with `'\0'`, the token at `p` is `Eof` and stays at
/// the `'\0'`, or is another token that ends after `p` and inside the
/// source.
proof fn lemma_token_range(s: Seq<char>, p: int)
    requires
        0 <= p < s.len(),
        s.last() == '\0',
    ensures
        token_at(s, p).0 == TokenType::Eof ==> token_at(s, p).3 == p && s[p] == '\0',
        token_at(s, p).0 != TokenType::Eof ==> p < token_at(s, p).3 < s.len(),
{
    let c = s[p];
    if c != '\0' {
        assert(p + 1 < s.len());
        if single_kind(c) is None && pair_kind(c) is None {
            if c == '"' {
                lemma_first_stop_end(s, p + 1, |c: char| quote_or_end(c));
                lemma_first_stop(s, p + 1, |c: char| quote_or_end(c));
            } else if digit(c) {
                lemma_first_stop_end(s, p + 1, |c: char| non_digit(c));
                lemma_first_stop(s, p + 1, |c: char| non_digit(c));
                let q = first_stop(s, p + 1, |c: char| non_digit(c))->0;
                if s[q] == '.' {
                    assert(q + 1 < s.len());
                    if digit(s[q + 1]) {
                        lemma_first_stop_end(s, q + 1, |c: char| non_digit(c));
                        lemma_first_stop(s, q + 1, |c: char| non_digit(c));
                    }
                }
            } else if alpha(c) {
                lemma_first_stop_end(s, p + 1, |c: char| non_word(c));
                lemma_first_stop(s, p + 1, |c: char| non_word(c));
            }
        }
    }
}

/// Scanning from position `i` meets `Eof` within `n` tokens.
pub open spec fn eof_within(s: Seq<char>, i: int, n: nat) -> bool
    decreases n,
{
    n > 0 && (scan_result(s, i).0 == TokenType::Eof || eof_within(
        s,
        scan_result(s, i).3,
        (n - 1) as nat,
    ))
}

proof fn lemma_eof_within_more(s: Seq<char>, i: int, n: nat, m: nat)
    requires
        n <= m,
        eof_within(s, i, n),
    ensures
        eof_within(s, i, m),
    decreases n,
{
    if scan_result(s, i).0 != TokenType::Eof {
        lemma_eof_within_more(s, scan_result(s, i).3, (n - 1) as nat, (m - 1) as nat);
    }
}

/// Scanning a source that ends with `'\0'`, from any position, gives `Eof`
/// within as many tokens as characters are left: every other token moves
/// the scanner on and stays inside the source.
pub proof fn law_scan_reaches_eof(s: Seq<char>, i: int)
    requires
        0 <= i < s.len(),
        s.last() == '\0',
    ensures
        eof_within(s, i, (s.len() - i) as nat),
    decreases s.len() - i,
{
    lemma_skip_to(s, i);
    let p = skip_to(s, i);
    lemma_token_range(s, p);
    if scan_result(s, i).0 != TokenType::Eof {
        let e = scan_result(s, i).3;
        law_scan_reaches_eof(s, e);
        lemma_eof_within_more(s, e, (s.len() - e) as nat, (s.len() - i - 1) as nat);
    }
}

/// The characters that are tokens by themselves.
pub open spec fn single_chars() -> Seq<char> {
    seq!['(', ')', '{', '}', ',', '.', '-', '+', ';', '*', '/']
}

/// The kinds of the tokens of `single_chars`, in the same order.
pub open spec fn single_kinds() -> Seq<TokenType> {
    seq![
        TokenType::LeftParen,
        TokenType::RightParen,
        TokenType::LeftBrace,
        TokenType::RightBrace,
        TokenType::Comma,
        TokenType::Dot,
        TokenType::Minus,
        TokenType::Plus,
        TokenType::Semicolon,
        TokenType::Star,
        TokenType::Slash,
    ]
}

/// A character of `single_chars` at `p` is a token of its kind, one
/// character long.
pub proof fn law_single_char_tokens(s: Seq<char>, p: int, k: int)
    requires
        0 <= p < s.len(),
        0 <= k < single_chars().len(),
        s[p] == single_chars()[k],
    ensures
        token_at(s, p) == (single_kinds()[k], s.subrange(p, p + 1), p, p + 1),
{
}

/// The operators that may be followed by `=`: `!`, `=`, `<`, `>`.
pub open spec fn operator_chars() -> Seq<char> {
    seq!['!', '=', '<', '>']
}

/// The kinds of the operators alone and followed by `=`, in the order of
/// `operator_chars`.
pub open spec fn operator_kinds() -> Seq<(TokenType, TokenType)> {
    seq![
        (TokenType::Bang, TokenType::BangEqual),
        (TokenType::Equal, TokenType::EqualEqual),
        (TokenType::Less, TokenType::LessEqual),
        (TokenType::Greater, TokenType::GreaterEqual),
    ]
}

/// An operator of `operator_chars` at `p` is a two-character token where
/// `=` follows it, and a one-character token otherwise.
pub proof fn law_operator_tokens(s: Seq<char>, p: int, k: int)
    requires
        0 <= p,
        p + 1 < s.len(),
        0 <= k < operator_chars().len(),
        s[p] == operator_chars()[k],
    ensures
        s[p + 1] == '=' ==> token_at(s, p) == (operator_kinds()[k].1, s.subrange(p, p + 2), p, p + 2),
        s[p + 1] != '=' ==> token_at(s, p) == (operator_kinds()[k].0, s.subrange(p, p + 1), p, p + 1),
{
}

proof fn lemma_first_stop_is(s: Seq<char>, i: int, q: int, stop: spec_fn(char) -> bool)
    requires
        0 <= i <= q < s.len(),
        stop(s[q]),
        forall|k: int| i <= k < q ==> !stop(#[trigger] s[k]),
    ensures
        first_stop(s, i, stop) == Some(q),
    decreases q - i,
{
    if i < q {
        lemma_first_stop_is(s, i + 1, q, stop);
    }
}

/// A string literal runs from its `"` to the next `"`, both included; where
/// the source ends first, it is an error that stops at the end.
pub proof fn law_string_tokens(s: Seq<char>, p: int, q: int)
    requires
        0 <= p < q < s.len(),
        s[p] == '"',
        s[q] == '"' || s[q] == '\0',
        forall|k: int| p < k < q ==> s[k] != '"' && s[k] != '\0',
    ensures
        s[q] == '"' ==> token_at(s, p) == (TokenType::String, s.subrange(p, q + 1), p, q + 1),
        s[q] == '\0' ==> token_at(s, p) == (TokenType::Error, "Unterminated string."@, p, q),
{
    lemma_first_stop_is(s, p + 1, q, |c: char| quote_or_end(c));
}

/// A word starts with a letter or `_` and goes on over letters, `_` and
/// digits; it is the keyword that it spells, or an identifier.
pub proof fn law_word_tokens(s: Seq<char>, p: int, q: int)
    requires
        0 <= p < q < s.len(),
        ('a' <= s[p] <= 'z') || ('A' <= s[p] <= 'Z') || s[p] == '_',
        forall|k: int|
            p < k < q ==> ('a' <= #[trigger] s[k] <= 'z') || ('A' <= s[k] <= 'Z') || s[k] == '_' || (
            '0' <= s[k] <= '9'),
        !(('a' <= s[q] <= 'z') || ('A' <= s[q] <= 'Z') || s[q] == '_' || ('0' <= s[q] <= '9')),
    ensures
        token_at(s, p) == (keyword_of(s.subrange(p, q)), s.subrange(p, q), p, q),
{
    lemma_first_stop_is(s, p + 1, q, |c: char| non_word(c));
}

/// A number is a run of digits, with a fraction where a `.` and a digit
/// follow them: it ends after the fraction's digits, or else after its
/// first digits.
pub proof fn law_number_tokens(s: Seq<char>, p: int, q: int, e: int)
    requires
        0 <= p < q < s.len(),
        forall|k: int| p <= k < q ==> '0' <= #[trigger] s[k] <= '9',
        !('0' <= s[q] <= '9'),
        q + 1 < s.len(),
        s[q] == '.' && '0' <= s[q + 1] <= '9' ==> q + 1 < e < s.len() && !('0' <= s[e] <= '9')
            && forall|k: int| q < k < e ==> '0' <= #[trigger] s[k] <= '9',
    ensures
        s[q] == '.' && '0' <= s[q + 1] <= '9' ==> token_at(s, p) == (
            TokenType::Number,
            s.subrange(p, e),
            p,
            e,
        ),
        !(s[q] == '.' && '0' <= s[q + 1] <= '9') ==> token_at(s, p) == (
            TokenType::Number,
            s.subrange(p, q),
            p,
            q,
        ),
{
    lemma_first_stop_is(s, p + 1, q, |c: char| non_digit(c));
    if s[q] == '.' && '0' <= s[q + 1] <= '9' {
        lemma_first_stop_is(s, q + 1, e, |c: char| non_digit(c));
    }
}

/// Spaces, tabs, carriage returns and newlines before a token are passed
/// over.
pub proof fn law_whitespace_skipped(s: Seq<char>, i: int)
    requires
        0 <= i < s.len(),
        s[i] == ' ' || s[i] == '\t' || s[i] == '\r' || s[i] == '\n',
    ensures
        scan_result(s, i) == scan_result(s, i + 1),
{
}

/// A `//` comment before a token is passed over up to the newline or the
/// `'\0'` that ends it.
pub proof fn law_comment_skipped(s: Seq<char>, i: int, j: int)
    requires
        0 <= i,
        i + 1 < j < s.len(),
        s[i] == '/',
        s[i + 1] == '/',
        s[j] == '\n' || s[j] == '\0',
        forall|k: int| i <= k < j ==> #[trigger] s[k] != '\n' && s[k] != '\0',
    ensures
        scan_result(s, i) == scan_result(s, j),
{
    lemma_first_stop_is(s, i, j, |c: char| c == '\n' || c == '\0');
    lemma_comment_is_stop(s, i);
}

/// A token starts at any character that is neither whitespace nor the start
/// of a `//` comment.
pub proof fn law_token_starts_here(s: Seq<char>, i: int)
    requires
        0 <= i < s.len(),
        !(s[i] == ' ' || s[i] == '\t' || s[i] == '\r' || s[i] == '\n'),
        !(s[i] == '/' && i + 1 < s.len() && s[i + 1] == '/'),
    ensures
        scan_result(s, i) == token_at(s, i),
{
}

/// The scanner's state: the source, where the token being made starts, the
/// next character to read, and the line.
pub struct Scanner {
    source: Vec<char>,
    start: usize,
    current: usize,
    line: u32,
}

impl Scanner {
    /// The source.
    pub closed spec fn text(&self) -> Seq<char> {
        self.source@
    }

    /// Where the token being made starts.
    pub closed spec fn start_pos(&self) -> int {
        self.start as int
    }

    /// The position of the next character to read.
    pub closed spec fn pos(&self) -> int {
        self.current as int
    }

    /// The current line.
    pub closed spec fn line_no(&self) -> int {
        self.line as int
    }

    /// The source ends with its `'\0'`, which reading never passes; the line
    /// is one more than the newlines read, and the count of all newlines fits
    /// the line number.
    pub closed spec fn wf(&self) -> bool {
        &&& self.source@.len() > 0
        &&& self.source@.last() == '\0'
        &&& self.start <= self.current < self.source@.len()
        &&& self.line == 1 + newlines(self.source@, 0, self.current as int)
        &&& 1 + newlines(self.source@, 0, self.source@.len() as int) <= u32::MAX
    }

    /// A scanner at the start of `source`, on line 1.
    pub fn new(source: &str) -> (s: Self)
        ensures
            s.text() == source@,
            s.start_pos() == 0,
            s.pos() == 0,
            s.line_no() == 1,
            source@.len() > 0 && source@.last() == '\0' && 1 + newlines(
                source@,
                0,
                source@.len() as int,
            ) <= u32::MAX ==> s.wf(),
    {
        Self { source: chars_of(source), start: 0, current: 0, line: 1 }
    }

    /// Skips whitespace and comments, then makes the next token: its kind, its
    /// text (the message of an error token) and its line.
    pub fn scan_token(&mut self) -> (tok: Token)
        requires
            old(self).wf(),
        ensures
            final(self).wf(),
            final(self).text() == old(self).text(),
            ({
                let r = scan_result(old(self).text(), old(self).pos());
                &&& tok.ty == r.0
                &&& (*tok.str)@ == r.1
                &&& final(self).start_pos() == r.2
                &&& final(self).pos() == r.3
                &&& tok.line == final(self).line_no()
                &&& final(self).line_no() == 1 + newlines(old(self).text(), 0, r.3)
            }),
            tok.ty != TokenType::Eof ==> final(self).pos() > old(self).pos(),
            tok.ty == TokenType::Eof ==> final(self).text()[final(self).pos()] == '\0',
            old(self).pos() <= final(self).pos() < final(self).text().len(),
    {
        let ghost s = self.source@;
        proof {
            lemma_skip_to(s, self.current as int);
        }
        self.skip_whitespace();
        self.start = self.current;
        self.token_here()
    }

    /// Makes the token that starts at the next character, where skipping
    /// whitespace and comments has stopped.
    fn token_here(&mut self) -> (tok: Token)
        requires
            old(self).wf(),
            old(self).start == old(self).current,
            old(self).source@[old(self).current as int] != '\n',
        ensures
            ({
                let s = old(self).source@;
                let p = old(self).current as int;
                let r = token_at(s, p);
                &&& final(self).wf()
                &&& final(self).source == old(self).source
                &&& tok.ty == r.0
                &&& (*tok.str)@ == r.1
                &&& final(self).start == r.2
                &&& final(self).current == r.3
                &&& tok.line == final(self).line
                &&& tok.ty == TokenType::Eof ==> s[p] == '\0' && final(self).current == p
                &&& tok.ty != TokenType::Eof ==> final(self).current > p
            }),
    {
        let ghost s = self.source@;
        let ghost p = self.current as int;
        if self.is_at_end() {
            return Token::new(TokenType::Eof, Rc::new(String::new()), self.line);
        }
        assert(p + 1 < s.len());
        let c = self.advance();
        assert(newlines(s, 0, p + 1) == newlines(s, 0, p));
        if let Some(ty) = Scanner::single_kind_of(c) {
            return self.make_token(ty);
        }
        if let Some((one, two)) = Scanner::pair_kind_of(c) {
            let matched = self.advance_if_match('=');
            proof {
                if matched {
                    assert(p + 2 < s.len());
                    assert(newlines(s, 0, p + 2) == newlines(s, 0, p + 1));
                }
            }
            let ty = if matched {
                two
            } else {
                one
            };
            return self.make_token(ty);
        }
        assert(single_kind(s[p]) is None && pair_kind(s[p]) is None);
        if c == '"' {
            proof {
                lemma_first_stop_end(s, p + 1, |c: char| quote_or_end(c));
                lemma_first_stop(s, p + 1, |c: char| quote_or_end(c));
            }
            self.string()
        } else if Scanner::is_digit(c) {
            proof {
                lemma_first_stop_end(s, p + 1, |c: char| non_digit(c));
                lemma_first_stop(s, p + 1, |c: char| non_digit(c));
                let q = first_stop(s, p + 1, |c: char| non_digit(c))->0;
                if s[q] == '.' {
                    assert(q + 1 < s.len());
                    if digit(s[q + 1]) {
                        lemma_first_stop_end(s, q + 1, |c: char| non_digit(c));
                        lemma_first_stop(s, q + 1, |c: char| non_digit(c));
                    }
                }
            }
            let tok = self.number();
            proof {
                lemma_newlines_split(s, 0, p + 1, self.current as int);
            }
            tok
        } else if Scanner::is_alpha(c) {
            proof {
                lemma_first_stop_end(s, p + 1, |c: char| non_word(c));
                lemma_first_stop(s, p + 1, |c: char| non_word(c));
            }
            let tok = self.identifier();
            proof {
                lemma_newlines_split(s, 0, p + 1, self.current as int);
            }
            tok
        } else {
            self.error_token("Unexpected character.")
        }
    }

    /// Skips spaces, tabs, carriage returns, newlines (counting lines) and
    /// `//` comments, up to any other character.
    fn skip_whitespace(&mut self)
        requires
            old(self).wf(),
        ensures
            final(self).wf(),
            final(self).source == old(self).source,
            final(self).start == old(self).start,
            final(self).current == skip_to(old(self).source@, old(self).current as int),
    {
        let ghost s = self.source@;
        proof {
            lemma_skip_to(s, self.current as int);
        }
        let ghost p = skip_to(s, self.current as int);
        loop
            invariant
                self.wf(),
                self.source == old(self).source,
                self.source@ == s,
                self.start == old(self).start,
                self.current <= p,
                skip_to(s, self.current as int) == p,
                p == skip_to(old(self).source@, old(self).current as int),
            decreases p - self.current,
        {
            proof {
                lemma_skip_to(s, self.current as int);
                lemma_newlines_mono(s, 0, self.current + 1, s.len() as int);
            }
            let c = self.peek();
            if c == ' ' || c == '\r' || c == '\t' || c == '\n' {
                proof {
                    assert(skip_to(s, self.current as int) == skip_to(s, self.current + 1));
                    lemma_skip_to(s, self.current + 1);
                }
            }
            if c == ' ' || c == '\r' || c == '\t' {
                self.advance();
            } else if c == '\n' {
                self.line += 1;
                self.advance();
            } else if c == '/' {
                if self.peek_next() == '/' {
                    let ghost from = self.current as int;
                    proof {
                        lemma_comment_stop(s, from);
                        lemma_comment_is_stop(s, from);
                        lemma_first_stop_end(s, from, |c: char| c == '\n' || c == '\0');
                    }
                    let ghost j = comment_stop(s, from)->0;
                    while self.peek() != '\n' && !self.is_at_end()
                        invariant
                            self.source == old(self).source,
                            self.source@ == s,
                            self.start == old(self).start,
                            self.start <= from,
                            s.len() > 0,
                            s.last() == '\0',
                            1 + newlines(s, 0, s.len() as int) <= u32::MAX,
                            self.line == 1 + newlines(s, 0, from),
                            from <= self.current <= j,
                            comment_stop(s, from) == Some(j),
                            forall|k: int| from <= k < j ==> s[k] != '\n' && s[k] != '\0',
                            j < s.len(),
                            s[j] == '\n' || s[j] == '\0',
                            newlines(s, from, self.current as int) == 0,
                        decreases j - self.current,
                    {
                        self.advance();
                    }
                    proof {
                        lemma_newlines_split(s, 0, from, self.current as int);
                        assert(from < j);
                        assert(skip_to(s, from) == skip_to(s, j));
                        lemma_skip_to(s, j);
                    }
                } else {
                    assert(skip_to(s, self.current as int) == self.current);
                    return;
                }
            } else {
                assert(skip_to(s, self.current as int) == self.current);
                return;
            }
        }
    }

    /// Reads a string literal after its opening `"`, up to its closing `"`:
    /// a `String` token of the text with both quotes, or an error token where
    /// the source ends first.
    fn string(&mut self) -> (tok: Token)
        requires
            old(self).wf(),
            first_stop(old(self).source@, old(self).current as int, |c: char| quote_or_end(c)) is Some,
        ensures
            ({
                let s = old(self).source@;
                let q = first_stop(s, old(self).current as int, |c: char| quote_or_end(c))->0;
                &&& final(self).wf()
                &&& final(self).source == old(self).source
                &&& final(self).start == old(self).start
                &&& s[q] == '\0' ==> tok.ty == TokenType::Error && (*tok.str)@
                    == "Unterminated string."@ && final(self).current == q
                &&& s[q] == '"' ==> tok.ty == TokenType::String && final(self).current == q + 1
                    && (*tok.str)@ == s.subrange(old(self).start as int, q + 1)
                &&& tok.line == final(self).line
            }),
    {
        let ghost s = self.source@;
        let ghost i0 = self.current as int;
        proof {
            lemma_first_stop(s, i0, |c: char| quote_or_end(c));
        }
        let ghost q = first_stop(s, i0, |c: char| quote_or_end(c))->0;
        while self.peek() != '"' && !self.is_at_end()
            invariant
                self.wf(),
                self.source@ == s,
                self.source == old(self).source,
                self.start == old(self).start,
                i0 <= self.current <= q,
                q < s.len(),
                s[q] == '"' || s[q] == '\0',
                forall|k: int| i0 <= k < q ==> !quote_or_end(#[trigger] s[k]),
            decreases q - self.current,
        {
            proof {
                assert(self.current != q);
                lemma_newlines_mono(s, 0, self.current + 1, s.len() as int);
            }
            if self.peek() == '\n' {
                self.line += 1;
            }
            self.advance();
        }
        if self.is_at_end() {
            return self.error_token("Unterminated string.");
        }
        self.advance();
        self.make_token(TokenType::String)
    }

    /// Reads a number after its first digit: more digits, then a fraction
    /// where a `.` and a digit follow.
    fn number(&mut self) -> (tok: Token)
        requires
            old(self).start <= old(self).current < old(self).source@.len(),
            number_end(old(self).source@, old(self).current as int) is Some,
        ensures
            final(self).source == old(self).source,
            final(self).start == old(self).start,
            final(self).line == old(self).line,
            final(self).current == number_end(old(self).source@, old(self).current as int)->0,
            newlines(old(self).source@, old(self).current as int, final(self).current as int) == 0,
            tok.ty == TokenType::Number,
            (*tok.str)@ == old(self).source@.subrange(old(self).start as int, final(self).current as int),
            tok.line == old(self).line,
    {
        let ghost s = self.source@;
        let ghost i0 = self.current as int;
        proof {
            lemma_first_stop(s, i0, |c: char| non_digit(c));
        }
        let ghost q = first_stop(s, i0, |c: char| non_digit(c))->0;
        while Scanner::is_digit(self.peek())
            invariant
                self.source@ == s,
                self.source == old(self).source,
                self.start == old(self).start,
                self.line == old(self).line,
                i0 <= self.current <= q,
                q < s.len(),
                non_digit(s[q]),
                forall|k: int| i0 <= k < q ==> !non_digit(#[trigger] s[k]),
                newlines(s, i0, self.current as int) == 0,
            decreases q - self.current,
        {
            self.advance();
        }
        if self.peek() == '.' && Scanner::is_digit(self.peek_next()) {
            self.advance();
            proof {
                lemma_first_stop(s, q + 1, |c: char| non_digit(c));
            }
            let ghost q2 = first_stop(s, q + 1, |c: char| non_digit(c))->0;
            while Scanner::is_digit(self.peek())
                invariant
                    self.source@ == s,
                    self.source == old(self).source,
                    self.start == old(self).start,
                    self.line == old(self).line,
                    q + 1 <= self.current <= q2,
                    q2 < s.len(),
                    non_digit(s[q2]),
                    forall|k: int| q + 1 <= k < q2 ==> !non_digit(#[trigger] s[k]),
                    newlines(s, i0, self.current as int) == 0,
                decreases q2 - self.current,
            {
                self.advance();
            }
        }
        self.make_token(TokenType::Number)
    }

    /// Reads an identifier after its first letter: a keyword's token, or an
    /// `Identifier` token.
    fn identifier(&mut self) -> (tok: Token)
        requires
            old(self).start <= old(self).current < old(self).source@.len(),
            first_stop(old(self).source@, old(self).current as int, |c: char| non_word(c)) is Some,
        ensures
            final(self).source == old(self).source,
            final(self).start == old(self).start,
            final(self).line == old(self).line,
            final(self).current == first_stop(
                old(self).source@,
                old(self).current as int,
                |c: char| non_word(c),
            )->0,
            newlines(old(self).source@, old(self).current as int, final(self).current as int) == 0,
            tok.ty == keyword_of(
                old(self).source@.subrange(old(self).start as int, final(self).current as int),
            ),
            (*tok.str)@ == old(self).source@.subrange(
                old(self).start as int,
                final(self).current as int,
            ),
            tok.line == old(self).line,
    {
        let ghost s = self.source@;
        let ghost i0 = self.current as int;
        proof {
            lemma_first_stop(s, i0, |c: char| non_word(c));
        }
        let ghost q = first_stop(s, i0, |c: char| non_word(c))->0;
        while Scanner::is_alhpha_numberic(self.peek())
            invariant
                self.source@ == s,
                self.source == old(self).source,
                self.start == old(self).start,
                self.line == old(self).line,
                i0 <= self.current <= q,
                q < s.len(),
                non_word(s[q]),
                forall|k: int| i0 <= k < q ==> !non_word(#[trigger] s[k]),
                newlines(s, i0, self.current as int) == 0,
            decreases q - self.current,
        {
            self.advance();
        }
        let text = self.lexeme();
        let ty = to_keyword(text.as_str());
        self.make_token(ty)
    }

    /// The kind of a token of the single character `c`, if it makes one.
    fn single_kind_of(c: char) -> (res: Option<TokenType>)
        ensures
            res == single_kind(c),
    {
        match c {
            '(' => Some(TokenType::LeftParen),
            ')' => Some(TokenType::RightParen),
            '{' => Some(TokenType::LeftBrace),
            '}' => Some(TokenType::RightBrace),
            ',' => Some(TokenType::Comma),
            '.' => Some(TokenType::Dot),
            '-' => Some(TokenType::Minus),
            '+' => Some(TokenType::Plus),
            ';' => Some(TokenType::Semicolon),
            '*' => Some(TokenType::Star),
            '/' => Some(TokenType::Slash),
            _ => None,
        }
    }

    /// The kinds of the tokens that `c` makes alone and followed by `=`, if
    /// it is one of `!`, `=`, `<`, `>`.
    fn pair_kind_of(c: char) -> (res: Option<(TokenType, TokenType)>)
        ensures
            res == pair_kind(c),
    {
        match c {
            '!' => Some((TokenType::Bang, TokenType::BangEqual)),
            '=' => Some((TokenType::Equal, TokenType::EqualEqual)),
            '<' => Some((TokenType::Less, TokenType::LessEqual)),
            '>' => Some((TokenType::Greater, TokenType::GreaterEqual)),
            _ => None,
        }
    }

    fn is_digit(c: char) -> (res: bool)
        ensures
            res == digit(c),
    {
        '0' <= c && c <= '9'
    }

    /// Whether `c` is an ASCII letter or `_`.
    fn is_alpha(c: char) -> (res: bool)
        ensures
            res == alpha(c),
    {
        ('a' <= c && c <= 'z') || ('A' <= c && c <= 'Z') || c == '_'
    }

    /// Whether `c` is an ASCII letter, `_` or a decimal digit.
    fn is_alhpha_numberic(c: char) -> (res: bool)
        ensures
            res == (alpha(c) || digit(c)),
    {
        Scanner::is_alpha(c) || Scanner::is_digit(c)
    }

    /// Whether the next character is the `'\0'` that ends the source.
    fn is_at_end(&self) -> (res: bool)
        ensures
            res == (self.current < self.source@.len() && self.source@[self.current as int] == '\0'),
    {
        self.current < self.source.len() && self.source[self.current] == '\0'
    }

    /// The next character.
    fn peek(&self) -> (c: char)
        requires
            self.current < self.source@.len(),
        ensures
            c == self.source@[self.current as int],
    {
        if self.is_at_end() {
            '\0'
        } else {
            self.source[self.current]
        }
    }

    /// The character after the next one, or `'\0'` at the end.
    fn peek_next(&self) -> (c: char)
        requires
            self.current < self.source@.len(),
            self.source@[self.current as int] != '\0' ==> self.current + 1 < self.source@.len(),
        ensures
            c == if self.source@[self.current as int] == '\0' {
                '\0'
            } else {
                self.source@[self.current + 1]
            },
    {
        proof {
            assert(self.source.len() == self.source@.len());
        }
        if self.is_at_end() {
            return '\0';
        }
        self.source[self.current + 1]
    }

    /// Reads the next character.
    fn advance(&mut self) -> (c: char)
        requires
            old(self).current < old(self).source@.len(),
        ensures
            c == old(self).source@[old(self).current as int],
            final(self).current == old(self).current + 1,
            final(self).source == old(self).source,
            final(self).start == old(self).start,
            final(self).line == old(self).line,
    {
        proof {
            assert(self.source.len() == self.source@.len());
        }
        let idx = self.current;
        self.current += 1;
        self.source[idx]
    }

    /// Reads the next character where it is `expected`; whether it did.
    fn advance_if_match(&mut self, expected: char) -> (res: bool)
        requires
            old(self).current < old(self).source@.len(),
        ensures
            res == (old(self).source@[old(self).current as int] != '\0'
                && old(self).source@[old(self).current as int] == expected),
            final(self).current == old(self).current + if res {
                1int
            } else {
                0int
            },
            final(self).source == old(self).source,
            final(self).start == old(self).start,
            final(self).line == old(self).line,
    {
        if self.is_at_end() {
            return false;
        }
        if self.source[self.current] != expected {
            return false;
        }
        proof {
            assert(self.source.len() == self.source@.len());
        }
        self.current += 1;
        true
    }

    /// The text of the token being made.
    fn lexeme(&self) -> (text: String)
        requires
            self.start <= self.current <= self.source@.len(),
        ensures
            text@ == self.source@.subrange(self.start as int, self.current as int),
    {
        let mut v: Vec<char> = Vec::new();
        let mut i: usize = self.start;
        while i < self.current
            invariant
                self.start <= i <= self.current <= self.source@.len(),
                v@ == self.source@.subrange(self.start as int, i as int),
            decreases self.current - i,
        {
            v.push(self.source[i]);
            i += 1;
            assert(v@ =~= self.source@.subrange(self.start as int, i as int));
        }
        string_from_chars(v.as_slice())
    }

    /// A token of kind `ty` whose text is what was read since the start.
    fn make_token(&mut self, ty: TokenType) -> (tok: Token)
        requires
            old(self).start <= old(self).current <= old(self).source@.len(),
        ensures
            *final(self) == *old(self),
            tok.ty == ty,
            (*tok.str)@ == old(self).source@.subrange(old(self).start as int, old(self).current as int),
            tok.line == old(self).line,
    {
        let text = self.lexeme();
        Token::new(ty, Rc::new(text), self.line)
    }

    /// An error token whose text is `message`.
    fn error_token(&self, message: &str) -> (tok: Token)
        ensures
            tok.ty == TokenType::Error,
            (*tok.str)@ == message@,
            tok.line == self.line,
    {
        Token { ty: TokenType::Error, str: Rc::new(message.to_owned()), line: self.line }
    }
}

} // verus!
