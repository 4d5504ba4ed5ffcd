//! The tokens of the SQL dialect and the lexer that reads them.

use vstd::prelude::*;
use vstd::string::StringExecFns;
use crate::keys::str_eq;
use crate::decimal::{all_digits, digits_value};
use crate::decimal::{char_to_digit, is_digit};
use crate::text::{string_of, to_chars};

verus! {

/// One token. A floating-point literal is held as it was written.
#[derive(Debug, Clone, PartialEq, Eq)]
pub enum Token {
    Create,
    Table,
    Primary,
    Key,
    Insert,
    Into,
    Values,
    Select,
    From,
    Where,
    Delete,
    Ident(String),
    Int(i64),
    Float(String),
    String(String),
    LParen,
    RParen,
    Comma,
    Semicolon,
    Star,
    Eq,
    EOF,
}

/// A token with its strings as sequences of characters.
pub ghost enum TokenView {
    Create,
    Table,
    Primary,
    Key,
    Insert,
    Into,
    Values,
    Select,
    From,
    Where,
    Delete,
    Ident(Seq<char>),
    Int(i64),
    Float(Seq<char>),
    String(Seq<char>),
    LParen,
    RParen,
    Comma,
    Semicolon,
    Star,
    Eq,
    EOF,
}

impl View for Token {
    type V = TokenView;

    open spec fn view(&self) -> TokenView {
        match *self {
            Token::Create => TokenView::Create,
            Token::Table => TokenView::Table,
            Token::Primary => TokenView::Primary,
            Token::Key => TokenView::Key,
            Token::Insert => TokenView::Insert,
            Token::Into => TokenView::Into,
            Token::Values => TokenView::Values,
            Token::Select => TokenView::Select,
            Token::From => TokenView::From,
            Token::Where => TokenView::Where,
            Token::Delete => TokenView::Delete,
            Token::Ident(s) => TokenView::Ident(s@),
            Token::Int(v) => TokenView::Int(v),
            Token::Float(s) => TokenView::Float(s@),
            Token::String(s) => TokenView::String(s@),
            Token::LParen => TokenView::LParen,
            Token::RParen => TokenView::RParen,
            Token::Comma => TokenView::Comma,
            Token::Semicolon => TokenView::Semicolon,
            Token::Star => TokenView::Star,
            Token::Eq => TokenView::Eq,
            Token::EOF => TokenView::EOF,
        }
    }
}

/// What `char::is_whitespace` says of `c`.
pub uninterp spec fn whitespace(c: char) -> bool;

/// What `char::is_alphabetic` says of `c`.
pub uninterp spec fn alphabetic(c: char) -> bool;

/// What `char::is_alphanumeric` says of `c`.
pub uninterp spec fn alphanumeric(c: char) -> bool;

/// What `str::to_uppercase` makes of `s`.
pub uninterp spec fn uppercase(s: Seq<char>) -> Seq<char>;

/// `char::is_whitespace`.
#[verifier::external_body]
pub(crate) fn is_whitespace(c: char) -> (res: bool)
    ensures
        res == whitespace(c),
{
    c.is_whitespace()
}

/// `char::is_alphabetic`.
#[verifier::external_body]
pub(crate) fn is_alphabetic(c: char) -> (res: bool)
    ensures
        res == alphabetic(c),
{
    c.is_alphabetic()
}

/// `char::is_alphanumeric`, which holds of every character of which
/// `char::is_alphabetic` holds.
#[verifier::external_body]
pub(crate) fn is_alphanumeric(c: char) -> (res: bool)
    ensures
        res == alphanumeric(c),
        alphabetic(c) ==> res,
{
    c.is_alphanumeric()
}

/// `str::to_uppercase`.
#[verifier::external_body]
pub(crate) fn to_uppercase(s: &str) -> (res: String)
    ensures
        res@ == uppercase(s@),
{
    s.to_uppercase()
}

/// A character of an identifier after its first.
pub open spec fn ident_char(c: char) -> bool {
    alphanumeric(c) || c == '_'
}

/// A character of a number.
pub open spec fn number_char(c: char) -> bool {
    is_digit(c) || c == '.'
}

/// A character inside a string literal.
pub open spec fn inside_string(c: char) -> bool {
    c != '"'
}

/// The first position at or after `pos` whose character does not meet
/// `pred`, or the end of `input`.
pub open spec fn run_end(input: Seq<char>, pos: int, pred: spec_fn(char) -> bool) -> int
    decreases input.len() - pos,
{
    if 0 <= pos < input.len() && pred(input[pos]) {
        run_end(input, pos + 1, pred)
    } else {
        pos
    }
}

/// A run ends where every character before meets the predicate and the
/// character there does not.
pub proof fn lemma_run_end(input: Seq<char>, from: int, to: int, pred: spec_fn(char) -> bool)
    requires
        0 <= from <= to <= input.len(),
        forall|i: int| from <= i < to ==> pred(input[i]),
        to == input.len() || !pred(input[to]),
    ensures
        run_end(input, from, pred) == to,
    decreases to - from,
{
    if from < to {
        lemma_run_end(input, from + 1, to, pred);
    }
}

/// A run ends at or after its beginning and within the input.
pub proof fn lemma_run_bounds(input: Seq<char>, pos: int, pred: spec_fn(char) -> bool)
    requires
        0 <= pos <= input.len(),
    ensures
        pos <= run_end(input, pos, pred) <= input.len(),
    decreases input.len() - pos,
{
    if pos < input.len() && pred(input[pos]) {
        lemma_run_bounds(input, pos + 1, pred);
    }
}

/// The token that an identifier stands for: a keyword where its upper-case
/// form `upper` is one, else the identifier itself.
pub open spec fn keyword_view(upper: Seq<char>, ident: Seq<char>) -> TokenView {
    if upper == "CREATE"@ {
        TokenView::Create
    } else if upper == "TABLE"@ {
        TokenView::Table
    } else if upper == "PRIMARY"@ {
        TokenView::Primary
    } else if upper == "KEY"@ {
        TokenView::Key
    } else if upper == "INSERT"@ {
        TokenView::Insert
    } else if upper == "INTO"@ {
        TokenView::Into
    } else if upper == "VALUES"@ {
        TokenView::Values
    } else if upper == "SELECT"@ {
        TokenView::Select
    } else if upper == "FROM"@ {
        TokenView::From
    } else if upper == "WHERE"@ {
        TokenView::Where
    } else if upper == "DELETE"@ {
        TokenView::Delete
    } else {
        TokenView::Ident(ident)
    }
}

/// Whether the lexeme of a number has a dot.
pub open spec fn has_dot(lexeme: Seq<char>) -> bool {
    exists|i: int| 0 <= i < lexeme.len() && lexeme[i] == '.'
}

/// The token that the lexeme of a number stands for: a floating-point
/// literal where it has a dot; else the whole number, or an error where
/// that has no room in 64 bits.
pub open spec fn number_view(lexeme: Seq<char>) -> Result<TokenView, Seq<char>> {
    if has_dot(lexeme) {
        Ok(TokenView::Float(lexeme))
    } else if digits_value(lexeme) <= i64::MAX {
        Ok(TokenView::Int(digits_value(lexeme) as i64))
    } else {
        Err("Number out of range"@)
    }
}

/// The token that begins at the first character after `pos` that is no
/// white space, and the position after it.
pub open spec fn token_at(input: Seq<char>, pos: int) -> (Result<TokenView, Seq<char>>, int) {
    let start = run_end(input, pos, |c: char| whitespace(c));
    if start >= input.len() || start < 0 {
        (Ok(TokenView::EOF), start)
    } else {
        let c = input[start];
        if c == '(' {
            (Ok(TokenView::LParen), start + 1)
        } else if c == ')' {
            (Ok(TokenView::RParen), start + 1)
        } else if c == ',' {
            (Ok(TokenView::Comma), start + 1)
        } else if c == ';' {
            (Ok(TokenView::Semicolon), start + 1)
        } else if c == '*' {
            (Ok(TokenView::Star), start + 1)
        } else if c == '=' {
            (Ok(TokenView::Eq), start + 1)
        } else if c == '"' {
            let end = run_end(input, start + 1, |c: char| inside_string(c));
            if end < input.len() {
                (Ok(TokenView::String(input.subrange(start + 1, end))), end + 1)
            } else {
                (Err("Undetermined string literal"@), end)
            }
        } else if is_digit(c) {
            let end = run_end(input, start, |c: char| number_char(c));
            (number_view(input.subrange(start, end)), end)
        } else if alphabetic(c) || c == '_' {
            let end = run_end(input, start, |c: char| ident_char(c));
            let ident = input.subrange(start, end);
            (Ok(keyword_view(uppercase(ident), ident)), end)
        } else {
            (Err("Unexpected character: "@.push(c)), start)
        }
    }
}

/// The lexer: the characters to read and the position of the next one.
#[derive(Debug, Clone, PartialEq, Eq)]
pub struct Lexer {
    pub input: Vec<char>,
    pub pos: usize,
}

impl Lexer {
    /// The position lies within the input or at its end.
    pub open spec fn wf(&self) -> bool {
        self.pos <= self.input@.len()
    }

    /// A lexer at the first character of `input`.
    pub fn new(input: &str) -> (res: Self)
        ensures
            res.wf(),
            res.input@ == input@,
            res.pos == 0,
    {
        Self { input: to_chars(input), pos: 0 }
    }

    /// The next character, if there is one.
    pub fn peek(&self) -> (res: Option<char>)
        ensures
            res == if self.pos < self.input@.len() {
                Some(self.input@[self.pos as int])
            } else {
                None::<char>
            },
    {
        if self.pos < self.input.len() {
            Some(self.input[self.pos])
        } else {
            None
        }
    }

    /// Moves past the next character, if there is one.
    pub fn advance(&mut self)
        ensures
            final(self).input == old(self).input,
            final(self).pos == if old(self).pos < old(self).input@.len() {
                old(self).pos + 1
            } else {
                old(self).pos as int
            },
    {
        if self.pos < self.input.len() {
            self.pos += 1;
        }
    }

    /// Moves past white space.
    pub fn skip_whitespace(&mut self)
        requires
            old(self).wf(),
        ensures
            final(self).wf(),
            final(self).input == old(self).input,
            final(self).pos == run_end(
                old(self).input@,
                old(self).pos as int,
                |c: char| whitespace(c),
            ),
    {
        let ghost from = self.pos as int;
        loop
            invariant
                self.wf(),
                self.input == old(self).input,
                from <= self.pos,
                from == old(self).pos,
                forall|i: int| from <= i < self.pos ==> whitespace(self.input@[i]),
            decreases self.input@.len() - self.pos,
        {
            match self.peek() {
                Some(c) => {
                    if !is_whitespace(c) {
                        proof {
                            lemma_run_end(
                                self.input@,
                                from,
                                self.pos as int,
                                |c: char| whitespace(c),
                            );
                        }
                        return ;
                    }
                },
                None => {
                    proof {
                        lemma_run_end(self.input@, from, self.pos as int, |c: char| whitespace(c));
                    }
                    return ;
                },
            }
            self.advance();
        }
    }

    /// Reads an identifier: the letters, digits and underscores from the
    /// position on.
    pub fn read_ident(&mut self) -> (res: String)
        requires
            old(self).wf(),
        ensures
            final(self).wf(),
            final(self).input == old(self).input,
            final(self).pos == run_end(
                old(self).input@,
                old(self).pos as int,
                |c: char| ident_char(c),
            ),
            res@ == old(self).input@.subrange(old(self).pos as int, final(self).pos as int),
            old(self).pos < old(self).input@.len() && (alphabetic(
                old(self).input@[old(self).pos as int],
            ) || old(self).input@[old(self).pos as int] == '_') ==> final(self).pos > old(
                self,
            ).pos,
    {
        let start = self.pos;
        loop
            invariant
                self.wf(),
                self.input == old(self).input,
                start == old(self).pos,
                start <= self.pos,
                forall|i: int| start <= i < self.pos ==> ident_char(self.input@[i]),
            decreases self.input@.len() - self.pos,
        {
            match self.peek() {
                Some(c) => {
                    if !(is_alphanumeric(c) || c == '_') {
                        proof {
                            lemma_run_end(
                                self.input@,
                                start as int,
                                self.pos as int,
                                |c: char| ident_char(c),
                            );
                        }
                        return string_of(&self.input, start, self.pos);
                    }
                },
                None => {
                    proof {
                        lemma_run_end(
                            self.input@,
                            start as int,
                            self.pos as int,
                            |c: char| ident_char(c),
                        );
                    }
                    return string_of(&self.input, start, self.pos);
                },
            }
            self.advance();
        }
    }

    /// The keyword that `ident` is, whatever its case, or `ident` as an
    /// identifier.
    pub fn keyword_or_ident(ident: String) -> (res: Token)
        ensures
            res@ == keyword_view(uppercase(ident@), ident@),
    {
        let upper = to_uppercase(ident.as_str());
        Self::keyword_of(upper.as_str(), ident)
    }

    /// The keyword that `upper` spells, or `ident` as an identifier.
    pub fn keyword_of(upper: &str, ident: String) -> (res: Token)
        ensures
            res@ == keyword_view(upper@, ident@),
    {
        if str_eq(upper, "CREATE") {
            Token::Create
        } else if str_eq(upper, "TABLE") {
            Token::Table
        } else if str_eq(upper, "PRIMARY") {
            Token::Primary
        } else if str_eq(upper, "KEY") {
            Token::Key
        } else if str_eq(upper, "INSERT") {
            Token::Insert
        } else if str_eq(upper, "INTO") {
            Token::Into
        } else if str_eq(upper, "VALUES") {
            Token::Values
        } else if str_eq(upper, "SELECT") {
            Token::Select
        } else if str_eq(upper, "FROM") {
            Token::From
        } else if str_eq(upper, "WHERE") {
            Token::Where
        } else if str_eq(upper, "DELETE") {
            Token::Delete
        } else {
            Token::Ident(ident)
        }
    }

    /// Reads a number: the digits and dots from the position on. Fails
    /// where the number has no dot and no room in 64 bits.
    pub fn read_number(&mut self) -> (res: Result<Token, String>)
        requires
            old(self).wf(),
        ensures
            final(self).wf(),
            final(self).input == old(self).input,
            final(self).pos == run_end(
                old(self).input@,
                old(self).pos as int,
                |c: char| number_char(c),
            ),
            match res {
                Ok(token) => number_view(
                    old(self).input@.subrange(old(self).pos as int, final(self).pos as int),
                ) == Ok::<TokenView, Seq<char>>(token@),
                Err(message) => number_view(
                    old(self).input@.subrange(old(self).pos as int, final(self).pos as int),
                ) == Err::<TokenView, Seq<char>>(message@),
            },
    {
        let start = self.pos;
        let mut dotted = false;
        let mut value: u64 = 0;
        let mut too_large = false;
        loop
            invariant
                self.wf(),
                self.input == old(self).input,
                start == old(self).pos,
                start <= self.pos,
                forall|i: int| start <= i < self.pos ==> number_char(self.input@[i]),
                dotted == has_dot(self.input@.subrange(start as int, self.pos as int)),
                !dotted ==> all_digits(self.input@.subrange(start as int, self.pos as int)),
                !dotted && !too_large ==> value == digits_value(
                    self.input@.subrange(start as int, self.pos as int),
                ) && value <= i64::MAX,
                !dotted && too_large ==> digits_value(
                    self.input@.subrange(start as int, self.pos as int),
                ) > i64::MAX,
            decreases self.input@.len() - self.pos,
        {
            let ghost lexeme = self.input@.subrange(start as int, self.pos as int);
            let c = match self.peek() {
                Some(c) => c,
                None => {
                    proof {
                        lemma_run_end(
                            self.input@,
                            start as int,
                            self.pos as int,
                            |c: char| number_char(c),
                        );
                    }
                    return Self::number_token(&self.input, start, self.pos, dotted, value, too_large);
                },
            };
            let ghost longer = self.input@.subrange(start as int, self.pos + 1);
            proof {
                assert(longer.drop_last() =~= lexeme);
                assert(longer.last() == c);
            }
            if c == '.' {
                proof {
                    assert(longer[longer.len() - 1] == '.');
                }
                dotted = true;
            } else {
                match char_to_digit(c) {
                    None => {
                        proof {
                            lemma_run_end(
                                self.input@,
                                start as int,
                                self.pos as int,
                                |c: char| number_char(c),
                            );
                        }
                        return Self::number_token(
                            &self.input,
                            start,
                            self.pos,
                            dotted,
                            value,
                            too_large,
                        );
                    },
                    Some(d) => {
                        proof {
                            if dotted {
                                let i = choose|i: int| 0 <= i < lexeme.len() && lexeme[i] == '.';
                                assert(longer[i] == '.');
                            } else {
                                assert forall|i: int| 0 <= i < longer.len() implies is_digit(
                                    #[trigger] longer[i],
                                ) by {
                                    if i < lexeme.len() {
                                        assert(longer[i] == lexeme[i]);
                                    }
                                }
                                if has_dot(longer) {
                                    let i = choose|i: int|
                                        0 <= i < longer.len() && longer[i] == '.';
                                    assert(is_digit(longer[i]));
                                }
                            }
                        }
                        if !dotted && !too_large {
                            let next: u128 = value as u128 * 10 + d as u128;
                            if next > i64::MAX as u128 {
                                too_large = true;
                            } else {
                                value = next as u64;
                            }
                        }
                    },
                }
            }
            self.advance();
        }
    }

    /// The token of a number read from `start` up to `end`.
    fn number_token(
        input: &Vec<char>,
        start: usize,
        end: usize,
        dotted: bool,
        value: u64,
        too_large: bool,
    ) -> (res: Result<Token, String>)
        requires
            start <= end <= input@.len(),
            dotted == has_dot(input@.subrange(start as int, end as int)),
            !dotted && !too_large ==> value == digits_value(
                input@.subrange(start as int, end as int),
            ) && value <= i64::MAX,
            !dotted && too_large ==> digits_value(input@.subrange(start as int, end as int))
                > i64::MAX,
        ensures
            match res {
                Ok(token) => number_view(input@.subrange(start as int, end as int)) == Ok::<
                    TokenView,
                    Seq<char>,
                >(token@),
                Err(message) => number_view(input@.subrange(start as int, end as int)) == Err::<
                    TokenView,
                    Seq<char>,
                >(message@),
            },
    {
        if dotted {
            Ok(Token::Float(string_of(input, start, end)))
        } else if too_large {
            Err(String::from_str("Number out of range"))
        } else {
            Ok(Token::Int(value as i64))
        }
    }

    /// Reads a string literal from its opening quote on. Fails where no
    /// closing quote follows.
    pub fn read_string(&mut self) -> (res: Result<Token, String>)
        requires
            old(self).wf(),
            old(self).pos < old(self).input@.len(),
        ensures
            final(self).wf(),
            final(self).input == old(self).input,
            ({
                let end = run_end(
                    old(self).input@,
                    old(self).pos + 1,
                    |c: char| inside_string(c),
                );
                if end < old(self).input@.len() {
                    &&& final(self).pos == end + 1
                    &&& res matches Ok(token) && token@ == TokenView::String(
                        old(self).input@.subrange(old(self).pos + 1, end),
                    )
                } else {
                    final(self).pos == end && res is Err && res->Err_0@
                        == "Undetermined string literal"@
                }
            }),
    {
        self.advance();
        let start = self.pos;
        loop
            invariant
                self.wf(),
                self.input == old(self).input,
                start == old(self).pos + 1,
                start <= self.pos,
                forall|i: int| start <= i < self.pos ==> inside_string(self.input@[i]),
            decreases self.input@.len() - self.pos,
        {
            match self.peek() {
                Some(c) => {
                    if c == '"' {
                        proof {
                            lemma_run_end(
                                self.input@,
                                start as int,
                                self.pos as int,
                                |c: char| inside_string(c),
                            );
                        }
                        let s = string_of(&self.input, start, self.pos);
                        self.advance();
                        return Ok(Token::String(s));
                    }
                },
                None => {
                    proof {
                        lemma_run_end(
                            self.input@,
                            start as int,
                            self.pos as int,
                            |c: char| inside_string(c),
                        );
                    }
                    return Err(String::from_str("Undetermined string literal"));
                },
            }
            self.advance();
        }
    }

    /// Reads the next token. Fails on an unfinished string literal, on a
    /// whole number with no room in 64 bits, and on a character that begins
    /// no token.
    pub fn next_token(&mut self) -> (res: Result<Token, String>)
        requires
            old(self).wf(),
        ensures
            final(self).wf(),
            final(self).input == old(self).input,
            final(self).pos == token_at(old(self).input@, old(self).pos as int).1,
            old(self).pos <= final(self).pos,
            match res {
                Ok(token) => token_at(old(self).input@, old(self).pos as int).0 == Ok::<
                    TokenView,
                    Seq<char>,
                >(token@) && (token is EOF || old(self).pos < final(self).pos),
                Err(message) => token_at(old(self).input@, old(self).pos as int).0 == Err::<
                    TokenView,
                    Seq<char>,
                >(message@),
            },
    {
        proof {
            lemma_run_bounds(old(self).input@, old(self).pos as int, |c: char| whitespace(c));
        }
        self.skip_whitespace();
        proof {
            let start = self.pos as int;
            if start < self.input@.len() {
                lemma_run_bounds(self.input@, start + 1, |c: char| inside_string(c));
                lemma_run_bounds(self.input@, start + 1, |c: char| number_char(c));
                lemma_run_bounds(self.input@, start, |c: char| ident_char(c));
            }
        }
        let ch = match self.peek() {
            Some(c) => c,
            None => {
                return Ok(Token::EOF);
            },
        };
        if ch == '(' {
            self.advance();
            Ok(Token::LParen)
        } else if ch == ')' {
            self.advance();
            Ok(Token::RParen)
        } else if ch == ',' {
            self.advance();
            Ok(Token::Comma)
        } else if ch == ';' {
            self.advance();
            Ok(Token::Semicolon)
        } else if ch == '*' {
            self.advance();
            Ok(Token::Star)
        } else if ch == '=' {
            self.advance();
            Ok(Token::Eq)
        } else if ch == '"' {
            self.read_string()
        } else if char_to_digit(ch).is_some() {
            self.read_number()
        } else if is_alphabetic(ch) || ch == '_' {
            let ident = self.read_ident();
            Ok(Self::keyword_or_ident(ident))
        } else {
            let mut message = String::from_str("Unexpected character: ");
            crate::text::string_push(&mut message, ch);
            Err(message)
        }
    }
}

} // verus!
