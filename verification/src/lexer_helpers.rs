//! The vocabulary in which a lexer state machine answers: what to do with
//! the character in front of it, what to emit, and where to go next.

use crate::pos::Span;
use vstd::prelude::*;
use vstd::string::StringExecFns;

verus! {

/// Why a text could not be read.
#[derive(Debug)]
pub struct ParseError {
    pub description: String,
    pub span: Span,
}

impl ParseError {
    /// The error that says `description` of the stretch from `left` to
    /// `right`.
    pub fn from(description: String, left: u32, right: u32) -> (r: ParseError)
        ensures
            r.description == description,
            r.span == (Span::Real { start: left, end: right }),
    {
        ParseError { description, span: Span::Real { start: left, end: right } }
    }

    /// The error that says `description` of the position `pos`.
    pub fn from_pos(description: &str, pos: u32) -> (r: ParseError)
        ensures
            r.description@ == description@,
            r.span == Span::spec_from_pos(pos),
    {
        ParseError { description: String::from_str(description), span: Span::from_pos(pos) }
    }

    /// The error that says `description` of the end of the input.
    pub fn from_eof(description: String) -> (r: ParseError)
        ensures
            r.description == description,
            r.span == Span::EOF,
    {
        ParseError { description, span: Span::EOF }
    }
}

/// What to do with the input in front of the lexer.
#[derive(Copy, Clone, Debug, PartialEq, Eq, Structural)]
pub enum LexerAction {
    /// Take this many characters into the current token.
    Consume(u32),
    /// Leave the character where it is, to be looked at again.
    Reconsume,
}

/// A token to emit: one that is complete as it stands, or a kind of token
/// that carries the text gathered so far.
#[derive(Copy, Clone, Debug, PartialEq, Eq, Structural)]
pub enum LexerToken<Token, Kind> {
    Fixed(Token),
    Dynamic(Kind),
}

/// What becomes of the text gathered so far.
#[derive(Copy, Clone, Debug, PartialEq, Eq, Structural)]
pub enum LexerAccumulate<Token, Kind> {
    /// A token starts here.
    Begin,
    /// The action extends the current token.
    Continue(LexerAction),
    /// The action is carried out and the text gathered is dropped.
    Skip(LexerAction),
    /// A token is emitted, after the first action and before the second.
    Emit { before: Option<LexerAction>, after: Option<LexerAction>, token: LexerToken<Token, Kind> },
    Nothing,
}

/// One answer of a lexer state machine.
#[derive(Copy, Clone, Debug, PartialEq, Eq, Structural)]
pub enum LexerNext<State, Token, Kind> {
    EOF,
    Remain(LexerAccumulate<Token, Kind>),
    Transition(LexerAccumulate<Token, Kind>, State),
    PushState(LexerAccumulate<Token, Kind>, State),
    PopState(LexerAccumulate<Token, Kind>),
    Error(Option<char>),
}

pub open spec fn spec_consume() -> LexerAction {
    LexerAction::Consume(1)
}

/// Take one character.
#[verifier::when_used_as_spec(spec_consume)]
pub fn consume() -> (r: LexerAction)
    ensures
        r == LexerAction::Consume(1),
{
    LexerAction::Consume(1)
}

/// Take `n` characters.
pub fn consume_n(n: u32) -> (r: LexerAction)
    ensures
        r == LexerAction::Consume(n),
{
    LexerAction::Consume(n)
}

/// Leave the character to be looked at again.
pub fn reconsume() -> (r: LexerAction)
    ensures
        r == LexerAction::Reconsume,
{
    LexerAction::Reconsume
}

/// A token that is emitted once one character was consumed.
pub open spec fn emit_after_one<Token, Kind>(token: LexerToken<Token, Kind>) -> LexerAccumulate<
    Token,
    Kind,
> {
    LexerAccumulate::Emit { before: Some(LexerAction::Consume(1)), after: None, token }
}

impl LexerAction {
    /// Do this, and stay in the state.
    pub fn and_remain<State, Token, Kind>(self) -> (r: LexerNext<State, Token, Kind>)
        ensures
            r == LexerNext::<State, Token, Kind>::Remain(LexerAccumulate::Continue(self)),
    {
        LexerNext::Remain(LexerAccumulate::Continue(self))
    }

    /// Do this, and go on in `state`.
    pub fn and_transition<State, Token, Kind>(self, state: State) -> (r: LexerNext<
        State,
        Token,
        Kind,
    >)
        ensures
            r == LexerNext::<State, Token, Kind>::Transition(
                LexerAccumulate::Continue(self),
                state,
            ),
    {
        LexerNext::Transition(LexerAccumulate::Continue(self), state)
    }

    /// Do this, and go on in `state`, to come back later.
    pub fn and_push<State, Token, Kind>(self, state: State) -> (r: LexerNext<State, Token, Kind>)
        ensures
            r == LexerNext::<State, Token, Kind>::PushState(
                LexerAccumulate::Continue(self),
                state,
            ),
    {
        LexerNext::PushState(LexerAccumulate::Continue(self), state)
    }

    /// Do this as part of the current token.
    pub fn and_continue<Token, Kind>(self) -> (r: LexerAccumulate<Token, Kind>)
        ensures
            r == LexerAccumulate::<Token, Kind>::Continue(self),
    {
        LexerAccumulate::Continue(self)
    }

    /// Do this, and drop the text gathered.
    pub fn and_discard<Token, Kind>(self) -> (r: LexerAccumulate<Token, Kind>)
        ensures
            r == LexerAccumulate::<Token, Kind>::Skip(self),
    {
        LexerAccumulate::Skip(self)
    }

    /// Do this, then emit `token`.
    pub fn and_emit<Token, Kind>(self, token: Token) -> (r: LexerAccumulate<Token, Kind>)
        ensures
            r == (LexerAccumulate::<Token, Kind>::Emit {
                before: Some(self),
                after: None,
                token: LexerToken::Fixed(token),
            }),
    {
        LexerAccumulate::Emit { before: Some(self), after: None, token: LexerToken::Fixed(token) }
    }

    /// Do this, then emit a token of kind `kind` with the text gathered.
    pub fn and_emit_dynamic<Token, Kind>(self, kind: Kind) -> (r: LexerAccumulate<Token, Kind>)
        ensures
            r == (LexerAccumulate::<Token, Kind>::Emit {
                before: Some(self),
                after: None,
                token: LexerToken::Dynamic(kind),
            }),
    {
        LexerAccumulate::Emit { before: Some(self), after: None, token: LexerToken::Dynamic(kind) }
    }
}

impl<Token, Kind> LexerAccumulate<Token, Kind> {
    /// Stay in the state.
    pub fn and_remain<State>(self) -> (r: LexerNext<State, Token, Kind>)
        ensures
            r == LexerNext::<State, Token, Kind>::Remain(self),
    {
        LexerNext::Remain(self)
    }

    /// Go on in `state`.
    pub fn and_transition<State>(self, state: State) -> (r: LexerNext<State, Token, Kind>)
        ensures
            r == LexerNext::<State, Token, Kind>::Transition(self, state),
    {
        LexerNext::Transition(self, state)
    }

    /// Go on in `state`, to come back later.
    pub fn and_push<State>(self, state: State) -> (r: LexerNext<State, Token, Kind>)
        ensures
            r == LexerNext::<State, Token, Kind>::PushState(self, state),
    {
        LexerNext::PushState(self, state)
    }

    /// Go back to the state that was left last.
    pub fn and_pop<State>(self) -> (r: LexerNext<State, Token, Kind>)
        ensures
            r == LexerNext::<State, Token, Kind>::PopState(self),
    {
        LexerNext::PopState(self)
    }
}

impl<State, Token, Kind> LexerNext<State, Token, Kind> {
    /// A token starts at this character, which `state` looks at again.
    pub fn begin(state: State) -> (r: Self)
        ensures
            r == LexerNext::<State, Token, Kind>::Transition(LexerAccumulate::Begin, state),
    {
        LexerNext::Transition(LexerAccumulate::Begin, state)
    }

    /// This one character is the whole token `token`.
    pub fn sigil(token: Token) -> (r: Self)
        ensures
            r == LexerNext::<State, Token, Kind>::Remain(
                emit_after_one(LexerToken::Fixed(token)),
            ),
    {
        LexerNext::Remain(
            LexerAccumulate::Emit {
                before: Some(LexerAction::Consume(1)),
                after: None,
                token: LexerToken::Fixed(token),
            },
        )
    }

    /// This one character is a whole token of kind `kind`.
    pub fn dynamic_sigil(kind: Kind) -> (r: Self)
        ensures
            r == LexerNext::<State, Token, Kind>::Remain(
                emit_after_one(LexerToken::Dynamic(kind)),
            ),
    {
        LexerNext::Remain(
            LexerAccumulate::Emit {
                before: Some(LexerAction::Consume(1)),
                after: None,
                token: LexerToken::Dynamic(kind),
            },
        )
    }

    /// The text gathered so far is a token of kind `kind`; go on in
    /// `state`.
    pub fn emit_dynamic(kind: Kind, state: State) -> (r: Self)
        ensures
            r == LexerNext::<State, Token, Kind>::Transition(
                LexerAccumulate::Emit { before: None, after: None, token: LexerToken::Dynamic(kind) },
                state,
            ),
    {
        LexerNext::Transition(
            LexerAccumulate::Emit { before: None, after: None, token: LexerToken::Dynamic(kind) },
            state,
        )
    }
}

} // verus!
