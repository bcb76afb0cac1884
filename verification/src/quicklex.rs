//! The lexer: tokens, and the state machine that tells them apart one
//! character at a time.

use crate::lexer_helpers::{
    consume, consume_n, emit_after_one, reconsume, LexerAccumulate, LexerAction, LexerNext,
    LexerToken, ParseError,
};
use crate::program::{ModuleTable, StringId};
use unicode_xid::UnicodeXID;
use vstd::prelude::*;
use vstd::string::StringExecFns;

verus! {

/// A token. White space, identifiers, sigils, comments and strings carry
/// the number of their text.
#[derive(Copy, Clone, Debug, PartialEq, Eq, Structural)]
pub enum Token {
    Whitespace(StringId),
    Identifier(StringId),
    Sigil(StringId),
    Comment(StringId),
    String(StringId),
    OpenCurly,
    CloseCurly,
    OpenParen,
    CloseParen,
    Newline,
}

/// The kinds of token that carry their text.
#[derive(Copy, Clone, Debug, PartialEq, Eq, Structural)]
pub enum TokenKind {
    Whitespace,
    Identifier,
    Sigil,
    Comment,
    String,
}

impl TokenKind {
    pub open spec fn spec_with_text(self, text: StringId) -> Token {
        match self {
            TokenKind::Whitespace => Token::Whitespace(text),
            TokenKind::Identifier => Token::Identifier(text),
            TokenKind::Sigil => Token::Sigil(text),
            TokenKind::Comment => Token::Comment(text),
            TokenKind::String => Token::String(text),
        }
    }

    /// The token of this kind with the text `text`.
    #[verifier::when_used_as_spec(spec_with_text)]
    pub fn with_text(self, text: StringId) -> (r: Token)
        ensures
            r == self.spec_with_text(text),
    {
        match self {
            TokenKind::Whitespace => Token::Whitespace(text),
            TokenKind::Identifier => Token::Identifier(text),
            TokenKind::Sigil => Token::Sigil(text),
            TokenKind::Comment => Token::Comment(text),
            TokenKind::String => Token::String(text),
        }
    }
}

impl Token {
    /// The text that the token carries, if it carries one.
    pub open spec fn text(self) -> Option<StringId> {
        match self {
            Token::Whitespace(s) | Token::Identifier(s) | Token::Sigil(s) | Token::Comment(s)
            | Token::String(s) => Some(s),
            _ => None,
        }
    }

    /// How the token reads in a listing, given the strings of `table`.
    pub open spec fn debug_spec(self, table: Seq<Seq<char>>) -> Seq<char> {
        match self {
            Token::Whitespace(_) => "<whitespace>"@,
            Token::Identifier(s) => table[s.index as int],
            Token::Sigil(s) => "#"@ + table[s.index as int] + "#"@,
            Token::Comment(_) => "/* ... */"@,
            Token::String(s) => "\""@ + table[s.index as int] + "\""@,
            Token::OpenCurly => "#{#"@,
            Token::CloseCurly => "#}#"@,
            Token::OpenParen => "#(#"@,
            Token::CloseParen => "#)#"@,
            Token::Newline => "<newline>"@,
        }
    }

    /// The token as it reads in a listing.
    pub fn debug(&self, table: &ModuleTable) -> (r: String)
        requires
            self.text() matches Some(s) ==> s.index < table@.len(),
        ensures
            r@ == self.debug_spec(table@),
    {
        match self {
            Token::Whitespace(_) => String::from_str("<whitespace>"),
            Token::Identifier(s) => String::from_str(table.lookup(*s)),
            Token::Sigil(s) => {
                let mut out = String::from_str("#");
                out.append(table.lookup(*s));
                out.append("#");
                out
            },
            Token::Comment(_) => String::from_str("/* ... */"),
            Token::String(s) => {
                let mut out = String::from_str("\"");
                out.append(table.lookup(*s));
                out.append("\"");
                out
            },
            Token::OpenCurly => String::from_str("#{#"),
            Token::CloseCurly => String::from_str("#}#"),
            Token::OpenParen => String::from_str("#(#"),
            Token::CloseParen => String::from_str("#)#"),
            Token::Newline => String::from_str("<newline>"),
        }
    }
}

/// Whether `c` may start an identifier.
pub uninterp spec fn xid_start(c: char) -> bool;

/// Whether `c` may continue an identifier.
pub uninterp spec fn xid_continue(c: char) -> bool;

/// Whether `c` is white space.
pub uninterp spec fn white_space(c: char) -> bool;

/// Whether `c` is a letter of ASCII.
pub open spec fn ascii_letter(c: char) -> bool {
    ('a' <= c && c <= 'z') || ('A' <= c && c <= 'Z')
}

/// Whether `c` is a digit of ASCII.
pub open spec fn ascii_digit(c: char) -> bool {
    '0' <= c && c <= '9'
}

/// `UnicodeXID::is_xid_start` of unicode-xid: whether `c` has the Unicode
/// property XID_Start. The result is named, not computed here. Of the ASCII
/// characters the letters have the property and no others.
#[verifier::external_body]
fn is_xid_start(c: char) -> (r: bool)
    ensures
        r == xid_start(c),
        c <= '\x7f' ==> r == ascii_letter(c),
{
    UnicodeXID::is_xid_start(c)
}

/// `UnicodeXID::is_xid_continue` of unicode-xid: whether `c` has the Unicode
/// property XID_Continue. The result is named, not computed here. Of the
/// ASCII characters the letters, the digits and the underscore have the
/// property and no others.
#[verifier::external_body]
fn is_xid_continue(c: char) -> (r: bool)
    ensures
        r == xid_continue(c),
        c <= '\x7f' ==> r == (ascii_letter(c) || ascii_digit(c) || c == '_'),
{
    UnicodeXID::is_xid_continue(c)
}

/// `char::is_whitespace` of std: whether `c` has the Unicode property
/// White_Space. The result is named, not computed here.
#[verifier::external_body]
fn is_whitespace(c: char) -> (r: bool)
    ensures
        r == white_space(c),
{
    c.is_whitespace()
}

/// Whether `rest` starts with the two characters `a` and `b`.
pub open spec fn starts_with_pair(rest: Seq<char>, a: char, b: char) -> bool {
    rest.len() >= 2 && rest[0] == a && rest[1] == b
}

fn starts_with(rest: &[char], a: char, b: char) -> (r: bool)
    ensures
        r == starts_with_pair(rest@, a, b),
{
    rest.len() >= 2 && rest[0] == a && rest[1] == b
}

/// Whether `c` is one of the characters that are a token by themselves and
/// carry their text.
pub open spec fn operator_char(c: char) -> bool {
    c == '+' || c == '-' || c == '*' || c == '/' || c == ':' || c == ',' || c == '>' || c == '<'
        || c == '='
}

/// The states of the lexer.
#[derive(Copy, Clone, Debug, PartialEq, Eq, Structural)]
pub enum LexerState {
    Top,
    Whitespace,
    StartIdent,
    ContinueIdent,
    StringLiteral,
    /// Inside a comment, at this depth of nesting.
    Comment(u32),
}

/// An answer of the lexer.
pub type Next = LexerNext<LexerState, Token, TokenKind>;

/// The text gathered so far is a token of kind `kind`, the character in
/// front stays where it is, and the machine goes back to the top.
pub open spec fn finish(kind: TokenKind) -> Next {
    LexerNext::Transition(
        LexerAccumulate::Emit {
            before: Some(LexerAction::Reconsume),
            after: None,
            token: LexerToken::Dynamic(kind),
        },
        LexerState::Top,
    )
}

/// The text gathered so far is a token of kind `kind`, at the end of the
/// input.
pub open spec fn finish_at_end(kind: TokenKind) -> Next {
    LexerNext::Transition(
        LexerAccumulate::Emit { before: None, after: None, token: LexerToken::Dynamic(kind) },
        LexerState::Top,
    )
}

/// The next `n` characters belong to the current token.
pub open spec fn take(n: u32) -> LexerAccumulate<Token, TokenKind> {
    LexerAccumulate::Continue(LexerAction::Consume(n))
}

impl LexerState {
    pub open spec fn spec_top() -> LexerState {
        LexerState::Top
    }

    /// The state in which lexing starts.
    #[verifier::when_used_as_spec(spec_top)]
    pub fn top() -> (r: LexerState)
        ensures
            r == LexerState::Top,
    {
        LexerState::Top
    }

    /// What the machine does at the top, in front of the character `c`
    /// with `rest` still to read.
    pub open spec fn next_at_top(c: char, rest: Seq<char>) -> Next {
        if xid_start(c) {
            LexerNext::Transition(LexerAccumulate::Begin, LexerState::StartIdent)
        } else if c == '{' {
            LexerNext::Remain(emit_after_one(LexerToken::Fixed(Token::OpenCurly)))
        } else if c == '}' {
            LexerNext::Remain(emit_after_one(LexerToken::Fixed(Token::CloseCurly)))
        } else if c == '(' {
            LexerNext::Remain(emit_after_one(LexerToken::Fixed(Token::OpenParen)))
        } else if c == ')' {
            LexerNext::Remain(emit_after_one(LexerToken::Fixed(Token::CloseParen)))
        } else if operator_char(c) {
            LexerNext::Remain(emit_after_one(LexerToken::Dynamic(TokenKind::Sigil)))
        } else if c == '"' {
            LexerNext::Transition(take(1), LexerState::StringLiteral)
        } else if c == '\n' {
            LexerNext::Remain(emit_after_one(LexerToken::Fixed(Token::Newline)))
        } else if white_space(c) {
            LexerNext::Transition(LexerAccumulate::Begin, LexerState::Whitespace)
        } else if starts_with_pair(rest, '/', '*') {
            LexerNext::PushState(take(2), LexerState::Comment(1))
        } else {
            LexerNext::Error(Some(c))
        }
    }

    /// What the machine does inside a comment at depth `depth`.
    pub open spec fn next_in_comment(depth: u32, rest: Seq<char>) -> Next {
        if starts_with_pair(rest, '/', '*') {
            LexerNext::Transition(take(2), LexerState::Comment((depth + 1) as u32))
        } else if starts_with_pair(rest, '*', '/') {
            if depth == 1 {
                LexerNext::Transition(
                    LexerAccumulate::Emit {
                        before: Some(LexerAction::Consume(2)),
                        after: None,
                        token: LexerToken::Dynamic(TokenKind::Comment),
                    },
                    LexerState::Top,
                )
            } else {
                LexerNext::Transition(take(2), LexerState::Comment((depth - 1) as u32))
            }
        } else {
            LexerNext::Remain(take(1))
        }
    }

    /// The machine's answer in state `self`, in front of `c` (`None` at the
    /// end of the input) with `rest` still to read.
    pub open spec fn next_spec(self, c: Option<char>, rest: Seq<char>) -> Next {
        match self {
            LexerState::Top => match c {
                None => LexerNext::EOF,
                Some(c) => Self::next_at_top(c, rest),
            },
            LexerState::StringLiteral => match c {
                None => LexerNext::Error(None),
                Some(c) => if c == '"' {
                    LexerNext::Transition(
                        emit_after_one(LexerToken::Dynamic(TokenKind::String)),
                        LexerState::Top,
                    )
                } else {
                    LexerNext::Remain(take(1))
                },
            },
            LexerState::StartIdent => match c {
                None => finish_at_end(TokenKind::Identifier),
                Some(c) => if xid_continue(c) {
                    LexerNext::Transition(take(1), LexerState::ContinueIdent)
                } else {
                    finish(TokenKind::Identifier)
                },
            },
            LexerState::ContinueIdent => match c {
                None => finish_at_end(TokenKind::Identifier),
                Some(c) => if xid_continue(c) {
                    LexerNext::Remain(take(1))
                } else {
                    finish(TokenKind::Identifier)
                },
            },
            LexerState::Whitespace => match c {
                None => LexerNext::EOF,
                Some(c) => if c == '\n' {
                    LexerNext::Transition(
                        LexerAccumulate::Skip(LexerAction::Reconsume),
                        LexerState::Top,
                    )
                } else if white_space(c) {
                    LexerNext::Remain(take(1))
                } else {
                    finish(TokenKind::Whitespace)
                },
            },
            LexerState::Comment(depth) => Self::next_in_comment(depth, rest),
        }
    }

    /// Whether the machine can answer in state `self` with `rest` still to
    /// read: the depth of nesting of a comment neither leaves the range of
    /// its type nor falls below the comment itself.
    pub open spec fn can_step(self, rest: Seq<char>) -> bool {
        match self {
            LexerState::Comment(depth) => if starts_with_pair(rest, '/', '*') {
                depth < u32::MAX
            } else if starts_with_pair(rest, '*', '/') {
                depth >= 1
            } else {
                true
            },
            _ => true,
        }
    }

    /// One step of the machine.
    pub fn next(&self, c: Option<char>, rest: &[char]) -> (r: Result<Next, ParseError>)
        requires
            self.can_step(rest@),
        ensures
            r matches Ok(next) && next == self.next_spec(c, rest@),
    {
        let out: Next = match self {
            LexerState::Top => match c {
                None => LexerNext::EOF,
                Some(c) => {
                    if is_xid_start(c) {
                        LexerNext::begin(LexerState::StartIdent)
                    } else if c == '{' {
                        LexerNext::sigil(Token::OpenCurly)
                    } else if c == '}' {
                        LexerNext::sigil(Token::CloseCurly)
                    } else if c == '(' {
                        LexerNext::sigil(Token::OpenParen)
                    } else if c == ')' {
                        LexerNext::sigil(Token::CloseParen)
                    } else if c == '+' || c == '-' || c == '*' || c == '/' || c == ':' || c == ','
                        || c == '>' || c == '<' || c == '=' {
                        LexerNext::dynamic_sigil(TokenKind::Sigil)
                    } else if c == '"' {
                        consume().and_transition(LexerState::StringLiteral)
                    } else if c == '\n' {
                        LexerNext::sigil(Token::Newline)
                    } else if is_whitespace(c) {
                        LexerNext::begin(LexerState::Whitespace)
                    } else if starts_with(rest, '/', '*') {
                        consume_n(2).and_push(LexerState::Comment(1))
                    } else {
                        LexerNext::Error(Some(c))
                    }
                },
            },
            LexerState::StringLiteral => match c {
                None => LexerNext::Error(c),
                Some(c) => {
                    if c == '"' {
                        consume().and_emit_dynamic(TokenKind::String).and_transition(
                            LexerState::Top,
                        )
                    } else {
                        consume().and_remain()
                    }
                },
            },
            LexerState::StartIdent => match c {
                None => LexerNext::emit_dynamic(TokenKind::Identifier, LexerState::Top),
                Some(c) => {
                    if is_xid_continue(c) {
                        consume().and_transition(LexerState::ContinueIdent)
                    } else {
                        reconsume().and_emit_dynamic(TokenKind::Identifier).and_transition(
                            LexerState::Top,
                        )
                    }
                },
            },
            LexerState::ContinueIdent => match c {
                None => LexerNext::emit_dynamic(TokenKind::Identifier, LexerState::Top),
                Some(c) => {
                    if is_xid_continue(c) {
                        consume().and_remain()
                    } else {
                        reconsume().and_emit_dynamic(TokenKind::Identifier).and_transition(
                            LexerState::Top,
                        )
                    }
                },
            },
            LexerState::Whitespace => match c {
                None => LexerNext::EOF,
                Some(c) => {
                    if c == '\n' {
                        reconsume().and_discard().and_transition(LexerState::Top)
                    } else if is_whitespace(c) {
                        consume().and_remain()
                    } else {
                        reconsume().and_emit_dynamic(TokenKind::Whitespace).and_transition(
                            LexerState::Top,
                        )
                    }
                },
            },
            LexerState::Comment(depth) => {
                let depth: u32 = *depth;
                if starts_with(rest, '/', '*') {
                    consume_n(2).and_continue().and_transition(LexerState::Comment(depth + 1))
                } else if starts_with(rest, '*', '/') {
                    if depth == 1 {
                        consume_n(2).and_emit_dynamic(TokenKind::Comment).and_transition(
                            LexerState::Top,
                        )
                    } else {
                        consume_n(2).and_continue().and_transition(LexerState::Comment(depth - 1))
                    }
                } else {
                    consume().and_remain()
                }
            },
        };
        Ok(out)
    }
}

} // verus!
