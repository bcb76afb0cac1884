//! Runs the lexer's state machine over a text and hands out its tokens one
//! by one, each with the stretch of bytes it was read from.

use crate::lexer_helpers::{LexerAccumulate, LexerAction, LexerNext, LexerToken, ParseError};
use crate::pos::Span;
use crate::intern::interned;
use crate::program::{ModuleTable, StringId};
use crate::quicklex::{
    operator_char, white_space, xid_continue, xid_start, LexerState, Token, TokenKind,
};
use vstd::prelude::*;
use vstd::slice::slice_subrange;

verus! {

/// The number of bytes that `c` takes in UTF-8.
pub uninterp spec fn utf8_width(c: char) -> nat;

/// `char::len_utf8` of std: the number of bytes that `c` takes in UTF-8,
/// which is between 1 and 4. The result is named, not computed here.
#[verifier::external_body]
fn len_utf8(c: char) -> (r: usize)
    ensures
        r == utf8_width(c),
        1 <= r <= 4,
{
    c.len_utf8()
}

/// `String::push` of std: appends `c` to `s`.
#[verifier::external_body]
fn push_char(s: &mut String, c: char)
    ensures
        final(s)@ == old(s)@.push(c),
{
    s.push(c)
}

/// The number of bytes that the first `i` characters of `chars` take.
pub open spec fn byte_offset(chars: Seq<char>, i: int) -> nat
    decreases i,
{
    if i <= 0 {
        0
    } else {
        byte_offset(chars, i - 1) + utf8_width(chars[i - 1])
    }
}

/// Sets of characters that a token runs through.
pub enum CharClass {
    /// Characters that continue an identifier.
    XidContinue,
    /// White space other than the line feed.
    InlineSpace,
    /// Anything but the double quote.
    NotQuote,
}

/// Whether `c` belongs to `class`.
pub open spec fn in_class(class: CharClass, c: char) -> bool {
    match class {
        CharClass::XidContinue => xid_continue(c),
        CharClass::InlineSpace => c != '\n' && white_space(c),
        CharClass::NotQuote => c != '"',
    }
}

/// The first position at or after `from` whose character is not in
/// `class`; the length of `chars` if there is none.
pub open spec fn run_end(chars: Seq<char>, from: int, class: CharClass) -> int
    decreases chars.len() - from,
{
    if 0 <= from < chars.len() && in_class(class, chars[from]) {
        run_end(chars, from + 1, class)
    } else {
        from
    }
}

/// What the lexer finds at a position: the end of the input, a character
/// that starts no token, or a token with the characters it spans.
pub enum Lexeme {
    End,
    Bad { at: int, found: Option<char> },
    Tok { token: LexerToken<Token, TokenKind>, from: int, to: int },
}

/// The string literal that opens at `from`, given the first position `close`
/// after the opening quote that holds a double quote.
pub open spec fn string_lexeme(chars: Seq<char>, from: int, close: int) -> Lexeme {
    if close >= chars.len() {
        Lexeme::Bad { at: close, found: None }
    } else {
        Lexeme::Tok { token: LexerToken::Dynamic(TokenKind::String), from, to: close + 1 }
    }
}

/// What the lexer finds at position `p` of `chars`. White space is a token
/// of its own, except where the input ends or a line ends after it: there
/// it is dropped.
pub open spec fn first_token(chars: Seq<char>, p: int) -> Lexeme
    decreases chars.len() - p,
{
    if p < 0 || p >= chars.len() {
        Lexeme::End
    } else {
        let c = chars[p];
        if xid_start(c) {
            Lexeme::Tok {
                token: LexerToken::Dynamic(TokenKind::Identifier),
                from: p,
                to: run_end(chars, p, CharClass::XidContinue),
            }
        } else if c == '{' {
            Lexeme::Tok { token: LexerToken::Fixed(Token::OpenCurly), from: p, to: p + 1 }
        } else if c == '}' {
            Lexeme::Tok { token: LexerToken::Fixed(Token::CloseCurly), from: p, to: p + 1 }
        } else if c == '(' {
            Lexeme::Tok { token: LexerToken::Fixed(Token::OpenParen), from: p, to: p + 1 }
        } else if c == ')' {
            Lexeme::Tok { token: LexerToken::Fixed(Token::CloseParen), from: p, to: p + 1 }
        } else if operator_char(c) {
            Lexeme::Tok { token: LexerToken::Dynamic(TokenKind::Sigil), from: p, to: p + 1 }
        } else if c == '"' {
            string_lexeme(chars, p, run_end(chars, p + 1, CharClass::NotQuote))
        } else if c == '\n' {
            Lexeme::Tok { token: LexerToken::Fixed(Token::Newline), from: p, to: p + 1 }
        } else if white_space(c) {
            after_space(chars, p, run_end(chars, p + 1, CharClass::InlineSpace))
        } else {
            Lexeme::Bad { at: p, found: Some(c) }
        }
    }
}

/// What the lexer finds once white space ran from `from` up to `end`.
pub open spec fn after_space(chars: Seq<char>, from: int, end: int) -> Lexeme
    decreases chars.len() - from, 0int,
    when from < end
{
    if end >= chars.len() {
        Lexeme::End
    } else if chars[end] == '\n' {
        first_token(chars, end)
    } else {
        Lexeme::Tok { token: LexerToken::Dynamic(TokenKind::Whitespace), from, to: end }
    }
}


proof fn lemma_run_end_bounds(chars: Seq<char>, from: int, class: CharClass)
    requires
        0 <= from <= chars.len(),
    ensures
        from <= run_end(chars, from, class) <= chars.len(),
    decreases chars.len() - from,
{
    if from < chars.len() && in_class(class, chars[from]) {
        lemma_run_end_bounds(chars, from + 1, class);
    }
}

proof fn lemma_byte_offset_step(chars: Seq<char>, i: int)
    requires
        0 <= i < chars.len(),
    ensures
        byte_offset(chars, i + 1) == byte_offset(chars, i) + utf8_width(chars[i]),
{
}

/// Where an action leaves the position `pos` in a text of `len`
/// characters.
pub open spec fn act_pos(action: LexerAction, pos: int, len: int) -> int {
    match action {
        LexerAction::Consume(n) => if pos + n <= len {
            pos + n
        } else {
            len
        },
        LexerAction::Reconsume => pos,
    }
}

/// Where an action, if there is one, leaves the position `pos`.
pub open spec fn act_opt_pos(action: Option<LexerAction>, pos: int, len: int) -> int {
    match action {
        Some(a) => act_pos(a, pos, len),
        None => pos,
    }
}

/// The position after `acc` was carried out at `pos`.
pub open spec fn acc_pos(acc: LexerAccumulate<Token, TokenKind>, pos: int, len: int) -> int {
    match acc {
        LexerAccumulate::Begin => pos,
        LexerAccumulate::Nothing => pos,
        LexerAccumulate::Continue(a) => act_pos(a, pos, len),
        LexerAccumulate::Skip(a) => act_pos(a, pos, len),
        LexerAccumulate::Emit { before, after, token } => act_opt_pos(
            after,
            act_opt_pos(before, pos, len),
            len,
        ),
    }
}

/// Where the current token starts after `acc` was carried out at `pos`,
/// if it started at `from` before.
pub open spec fn acc_from(
    acc: LexerAccumulate<Token, TokenKind>,
    from: int,
    pos: int,
    len: int,
) -> int {
    match acc {
        LexerAccumulate::Nothing => from,
        LexerAccumulate::Continue(a) => from,
        _ => acc_pos(acc, pos, len),
    }
}

/// Whether `token` is what `lexed` stands for once the text `text` was
/// interned in `table`.
pub open spec fn token_reads(
    token: Token,
    lexed: LexerToken<Token, TokenKind>,
    text: Seq<char>,
    table: Seq<Seq<char>>,
) -> bool {
    match lexed {
        LexerToken::Fixed(t) => token == t,
        LexerToken::Dynamic(kind) => exists|id: StringId|
            id.index < table.len() && table[id.index as int] == text && token == kind.with_text(
                id,
            ),
    }
}

/// The strings of `table` once a token `lexed` with the text `text` was
/// emitted.
pub open spec fn table_with(
    table: Seq<Seq<char>>,
    lexed: LexerToken<Token, TokenKind>,
    text: Seq<char>,
) -> Seq<Seq<char>> {
    match lexed {
        LexerToken::Fixed(_) => table,
        LexerToken::Dynamic(_) => interned(table, text),
    }
}

/// In how many steps at most a state is left without a character being
/// taken.
pub open spec fn rank(state: LexerState, chars: Seq<char>, pos: int) -> nat {
    match state {
        LexerState::Top => if pos < chars.len() && chars[pos] == '\n' {
            1
        } else {
            3
        },
        LexerState::Whitespace => 2,
        _ => 0,
    }
}

/// What the lexer finds when it goes on in `state` at `pos`, with the
/// current token started at `from`.
pub open spec fn resume(chars: Seq<char>, state: LexerState, from: int, pos: int) -> Lexeme {
    match state {
        LexerState::Top => first_token(chars, pos),
        LexerState::StartIdent | LexerState::ContinueIdent => Lexeme::Tok {
            token: LexerToken::Dynamic(TokenKind::Identifier),
            from,
            to: run_end(chars, pos, CharClass::XidContinue),
        },
        LexerState::StringLiteral => string_lexeme(
            chars,
            from,
            run_end(chars, pos, CharClass::NotQuote),
        ),
        LexerState::Whitespace => after_space(
            chars,
            from,
            run_end(chars, pos, CharClass::InlineSpace),
        ),
        LexerState::Comment(_) => Lexeme::End,
    }
}

/// The characters of `source`, in order.
pub fn decode(source: &str) -> (r: Vec<char>)
    ensures
        r@ == source@,
{
    let mut out: Vec<char> = Vec::new();
    for c in it: source.chars()
        invariant
            out@ == it.seq().take(it.index() as int),
    {
        out.push(c);
    }
    out
}

/// A text being read, and the place up to which it was read.
pub struct Tokenizer {
    chars: Vec<char>,
    start: u32,
    state: LexerState,
    stack: Vec<LexerState>,
    pos: usize,
    token_start: usize,
    byte_pos: u32,
    token_byte_start: u32,
}

impl Tokenizer {
    /// The characters of the text.
    pub closed spec fn chars(&self) -> Seq<char> {
        self.chars@
    }

    /// The number of characters read so far.
    pub closed spec fn pos(&self) -> int {
        self.pos as int
    }

    /// The byte position that the text starts at.
    pub closed spec fn start(&self) -> u32 {
        self.start
    }

    /// The byte position of the character at index `i`.
    pub open spec fn byte_index(&self, i: int) -> int {
        self.start() + byte_offset(self.chars(), i)
    }

    closed spec fn inv(&self) -> bool {
        &&& self.token_start <= self.pos <= self.chars@.len()
        &&& self.start + 4 * self.chars@.len() <= u32::MAX
        &&& self.byte_pos == self.start + byte_offset(self.chars@, self.pos as int)
        &&& self.token_byte_start == self.start + byte_offset(self.chars@, self.token_start as int)
        &&& byte_offset(self.chars@, self.pos as int) <= 4 * self.pos
        &&& !(self.state is Comment)
        &&& self.stack@.len() == 0
    }

    /// The tokenizer stands between two tokens.
    pub closed spec fn wf(&self) -> bool {
        &&& self.inv()
        &&& self.state is Top
        &&& self.token_start == self.pos
    }

    /// A tokenizer at the start of `source`, whose first byte has the
    /// position `start`.
    pub fn new(source: &str, start: u32) -> (r: Tokenizer)
        requires
            start + 4 * source@.len() <= u32::MAX,
        ensures
            r.wf(),
            r.chars() == source@,
            r.pos() == 0,
            r.start() == start,
    {
        Tokenizer {
            chars: decode(source),
            start,
            state: LexerState::top(),
            stack: Vec::new(),
            pos: 0,
            token_start: 0,
            byte_pos: start,
            token_byte_start: start,
        }
    }

    fn act(&mut self, action: LexerAction)
        requires
            old(self).inv(),
        ensures
            final(self).inv(),
            final(self).chars == old(self).chars,
            final(self).start == old(self).start,
            final(self).state == old(self).state,
            final(self).stack == old(self).stack,
            final(self).token_start == old(self).token_start,
            final(self).token_byte_start == old(self).token_byte_start,
            final(self).pos == act_pos(action, old(self).pos as int, old(self).chars@.len() as int),
    {
        match action {
            LexerAction::Reconsume => {},
            LexerAction::Consume(n) => {
                let mut k: u32 = 0;
                while k < n && self.pos < self.chars.len()
                    invariant
                        self.inv(),
                        self.chars == old(self).chars,
                        self.start == old(self).start,
                        self.state == old(self).state,
                        self.stack == old(self).stack,
                        self.token_start == old(self).token_start,
                        self.token_byte_start == old(self).token_byte_start,
                        k <= n,
                        self.pos == old(self).pos + k,
                    decreases n - k,
                {
                    let width = len_utf8(self.chars[self.pos]);
                    proof {
                        lemma_byte_offset_step(self.chars@, self.pos as int);
                    }
                    self.byte_pos = self.byte_pos + width as u32;
                    self.pos = self.pos + 1;
                    k = k + 1;
                }
            },
        }
    }

    fn act_opt(&mut self, action: Option<LexerAction>)
        requires
            old(self).inv(),
        ensures
            final(self).inv(),
            final(self).chars == old(self).chars,
            final(self).start == old(self).start,
            final(self).state == old(self).state,
            final(self).stack == old(self).stack,
            final(self).token_start == old(self).token_start,
            final(self).token_byte_start == old(self).token_byte_start,
            final(self).pos == act_opt_pos(
                action,
                old(self).pos as int,
                old(self).chars@.len() as int,
            ),
    {
        match action {
            Some(a) => self.act(a),
            None => {},
        }
    }

    /// The text of the current token.
    fn text(&self) -> (r: String)
        requires
            self.inv(),
        ensures
            r@ == self.chars@.subrange(self.token_start as int, self.pos as int),
    {
        let mut out = String::new();
        let mut i: usize = self.token_start;
        while i < self.pos
            invariant
                self.token_start <= i <= self.pos <= self.chars@.len(),
                out@ == self.chars@.subrange(self.token_start as int, i as int),
            decreases self.pos - i,
        {
            push_char(&mut out, self.chars[i]);
            assert(self.chars@.subrange(self.token_start as int, i as int).push(
                self.chars@[i as int],
            ) =~= self.chars@.subrange(self.token_start as int, i + 1));
            i = i + 1;
        }
        out
    }

    fn begin_token(&mut self)
        requires
            old(self).inv(),
        ensures
            final(self).inv(),
            final(self).chars == old(self).chars,
            final(self).start == old(self).start,
            final(self).state == old(self).state,
            final(self).stack == old(self).stack,
            final(self).pos == old(self).pos,
            final(self).token_start == old(self).pos,
    {
        self.token_start = self.pos;
        self.token_byte_start = self.byte_pos;
    }

    fn accumulate(&mut self, acc: LexerAccumulate<Token, TokenKind>, table: &mut ModuleTable) -> (r:
        Option<(u32, Token, u32)>)
        requires
            old(self).inv(),
            old(table).wf(),
        ensures
            final(self).inv(),
            final(table).wf(),
            final(self).chars == old(self).chars,
            final(self).start == old(self).start,
            final(self).state == old(self).state,
            final(self).pos == acc_pos(acc, old(self).pos as int, old(self).chars@.len() as int),
            final(self).token_start == acc_from(
                acc,
                old(self).token_start as int,
                old(self).pos as int,
                old(self).chars@.len() as int,
            ),
            match acc {
                LexerAccumulate::Emit { before, after, token } => {
                    let mid = act_opt_pos(
                        before,
                        old(self).pos as int,
                        old(self).chars@.len() as int,
                    );
                    let text = old(self).chars@.subrange(old(self).token_start as int, mid);
                    &&& r matches Some(t)
                    &&& t.0 == old(self).byte_index(old(self).token_start as int)
                    &&& t.2 == old(self).byte_index(mid)
                    &&& token_reads(t.1, token, text, final(table)@)
                    &&& final(table)@ == table_with(old(table)@, token, text)
                },
                _ => r is None && final(table)@ == old(table)@,
            },
    {
        match acc {
            LexerAccumulate::Begin => {
                self.begin_token();
                None
            },
            LexerAccumulate::Nothing => None,
            LexerAccumulate::Continue(a) => {
                self.act(a);
                None
            },
            LexerAccumulate::Skip(a) => {
                self.act(a);
                self.begin_token();
                None
            },
            LexerAccumulate::Emit { before, after, token } => {
                self.act_opt(before);
                let from: u32 = self.token_byte_start;
                let to: u32 = self.byte_pos;
                let tok = match token {
                    LexerToken::Fixed(t) => t,
                    LexerToken::Dynamic(kind) => {
                        let text = self.text();
                        let id = table.intern(text.as_str());
                        kind.with_text(id)
                    },
                };
                self.act_opt(after);
                self.begin_token();
                Some((from, tok, to))
            },
        }
    }

    /// What a call of [`Tokenizer::next_token`] gives at this place: `r` is
    /// what it returns, `before` and `after` are the strings of the table
    /// before and after the call, and `pos_after` is the number of
    /// characters read after it.
    pub open spec fn yields(
        &self,
        r: Option<Result<(u32, Token, u32), ParseError>>,
        before: Seq<Seq<char>>,
        after: Seq<Seq<char>>,
        pos_after: int,
    ) -> bool {
        match first_token(self.chars(), self.pos()) {
            Lexeme::End => r is None && after == before,
            Lexeme::Bad { at, found } => {
                &&& r matches Some(Err(e))
                &&& e.span == Span::spec_from_pos(self.byte_index(at) as u32)
                &&& e.description@ == unexpected(found)
                &&& after == before
            },
            Lexeme::Tok { token, from, to } => {
                &&& r matches Some(Ok(t))
                &&& t.0 == self.byte_index(from)
                &&& t.2 == self.byte_index(to)
                &&& token_reads(t.1, token, self.chars().subrange(from, to), after)
                &&& after == table_with(before, token, self.chars().subrange(from, to))
                &&& pos_after == to
            },
        }
    }

    /// The next token with the byte positions of its first character and
    /// of the character after its last one, `None` at the end of the text,
    /// an error where no token starts. A token that carries its text has
    /// that text interned in `table`. After `None` or an error the
    /// tokenizer is spent.
    pub fn next_token(&mut self, table: &mut ModuleTable) -> (r: Option<
        Result<(u32, Token, u32), ParseError>,
    >)
        requires
            old(self).wf(),
            old(table).wf(),
        ensures
            final(table).wf(),
            final(self).chars() == old(self).chars(),
            final(self).start() == old(self).start(),
            old(self).yields(r, old(table)@, final(table)@, final(self).pos()),
            r matches Some(Ok(_)) ==> final(self).wf(),
    {
        let ghost target = first_token(self.chars@, self.pos as int);
        loop
            invariant
                self.inv(),
                table.wf(),
                table@ == old(table)@,
                self.chars == old(self).chars,
                self.start == old(self).start,
                self.state is Top ==> self.token_start == self.pos,
                self.state is Whitespace ==> self.token_start < self.pos || (self.pos
                    < self.chars@.len() && in_class(
                    CharClass::InlineSpace,
                    self.chars@[self.pos as int],
                )),
                resume(self.chars@, self.state, self.token_start as int, self.pos as int)
                    == target,
                target == first_token(old(self).chars(), old(self).pos()),
            decreases self.chars@.len() - self.pos, rank(self.state, self.chars@, self.pos as int),
        {
            let c = if self.pos < self.chars.len() {
                Some(self.chars[self.pos])
            } else {
                None
            };
            let rest = slice_subrange(self.chars.as_slice(), self.pos, self.chars.len());
            let answer = self.state.next(c, rest);
            proof {
                lemma_run_end_bounds(self.chars@, self.pos as int, CharClass::XidContinue);
                lemma_run_end_bounds(self.chars@, self.pos as int, CharClass::NotQuote);
                lemma_run_end_bounds(self.chars@, self.pos as int, CharClass::InlineSpace);
                if self.pos < self.chars@.len() {
                    lemma_run_end_bounds(self.chars@, self.pos + 1, CharClass::NotQuote);
                    lemma_run_end_bounds(self.chars@, self.pos + 1, CharClass::InlineSpace);
                    assert(rest@.len() > 0 && rest@[0] == self.chars@[self.pos as int]);
                }
            }
            match answer {
                Err(e) => {
                    return Some(Err(e));
                },
                Ok(next) => match next {
                    LexerNext::EOF => {
                        return None;
                    },
                    LexerNext::Error(found) => {
                        let e = match found {
                            Some(_) => ParseError::from_pos("Unexpected character", self.byte_pos),
                            None => ParseError::from_pos("Unexpected end of input", self.byte_pos),
                        };
                        return Some(Err(e));
                    },
                    LexerNext::Remain(acc) => {
                        let out = self.accumulate(acc, table);
                        if let Some(t) = out {
                            return Some(Ok(t));
                        }
                    },
                    LexerNext::Transition(acc, state) => {
                        let out = self.accumulate(acc, table);
                        self.state = state;
                        if let Some(t) = out {
                            return Some(Ok(t));
                        }
                    },
                    LexerNext::PushState(acc, state) => {
                        let out = self.accumulate(acc, table);
                        self.stack.push(self.state);
                        self.state = state;
                        if let Some(t) = out {
                            return Some(Ok(t));
                        }
                    },
                    LexerNext::PopState(acc) => {
                        let out = self.accumulate(acc, table);
                        self.state = match self.stack.pop() {
                            Some(state) => state,
                            None => LexerState::top(),
                        };
                        if let Some(t) = out {
                            return Some(Ok(t));
                        }
                    },
                },
            }
        }
    }
}

/// What the error says that a character which starts no token gives rise
/// to, or the end of the text inside a token.
pub open spec fn unexpected(found: Option<char>) -> Seq<char> {
    match found {
        Some(_) => "Unexpected character"@,
        None => "Unexpected end of input"@,
    }
}

proof fn lemma_first_token_bounds(chars: Seq<char>, p: int)
    requires
        0 <= p <= chars.len(),
    ensures
        match first_token(chars, p) {
            Lexeme::End => true,
            Lexeme::Bad { at, found } => p <= at <= chars.len(),
            Lexeme::Tok { token, from, to } => p <= from <= to <= chars.len(),
        },
    decreases chars.len() - p,
{
    if p < chars.len() {
        lemma_run_end_bounds(chars, p, CharClass::XidContinue);
        lemma_run_end_bounds(chars, p + 1, CharClass::NotQuote);
        lemma_run_end_bounds(chars, p + 1, CharClass::InlineSpace);
        let end = run_end(chars, p + 1, CharClass::InlineSpace);
        if end < chars.len() {
            lemma_first_token_bounds(chars, end);
        }
    }
}

/// What the lexer finds in `chars` from position `p` on, in order. A
/// character that starts no token ends the list, and so does a token that
/// takes no character: after it stands the character it stopped at.
pub open spec fn lexemes(chars: Seq<char>, p: int) -> Seq<Lexeme>
    decreases chars.len() - p,
{
    match first_token(chars, p) {
        Lexeme::End => Seq::empty(),
        Lexeme::Bad { at, found } => seq![Lexeme::Bad { at, found }],
        Lexeme::Tok { token, from, to } => if p < to <= chars.len() {
            seq![Lexeme::Tok { token, from, to }] + lexemes(chars, to)
        } else {
            seq![Lexeme::Tok { token, from, to }, Lexeme::Bad { at: p, found: Some(chars[p]) }]
        },
    }
}

/// The tokens of a text stand in the order of the text and do not
/// overlap: each lies inside the text, none starts before the one before
/// it ends, and only the last entry can be something else than a token.
pub proof fn lemma_lexemes_in_order(chars: Seq<char>, p: int)
    requires
        0 <= p <= chars.len(),
    ensures
        forall|i: int|
            0 <= i < lexemes(chars, p).len() ==> match #[trigger] lexemes(chars, p)[i] {
                Lexeme::Tok { token, from, to } => p <= from <= to <= chars.len(),
                Lexeme::Bad { at, found } => p <= at <= chars.len() && i == lexemes(chars, p).len()
                    - 1,
                Lexeme::End => false,
            },
        forall|i: int, j: int|
            0 <= i < j < lexemes(chars, p).len() ==> (#[trigger] lexemes(chars, p)[i] matches Lexeme::Tok {
                to,
                ..
            } && match #[trigger] lexemes(chars, p)[j] {
                Lexeme::Tok { from, .. } => to <= from,
                Lexeme::Bad { at, .. } => to <= at,
                Lexeme::End => false,
            }),
    decreases chars.len() - p,
{
    lemma_first_token_bounds(chars, p);
    let found = lexemes(chars, p);
    match first_token(chars, p) {
        Lexeme::Tok { token, from, to } => {
            if p < to <= chars.len() {
                lemma_lexemes_in_order(chars, to);
                let rest = lexemes(chars, to);
                assert forall|i: int| 0 <= i < found.len() implies match #[trigger] found[i] {
                    Lexeme::Tok { token, from, to } => p <= from <= to <= chars.len(),
                    Lexeme::Bad { at, found: c } => p <= at <= chars.len() && i == found.len() - 1,
                    Lexeme::End => false,
                } by {
                    if i > 0 {
                        assert(found[i] == rest[i - 1]);
                    }
                }
                assert forall|i: int, j: int| 0 <= i < j < found.len() implies (
                #[trigger] found[i] matches Lexeme::Tok { to, .. } && match #[trigger] found[j] {
                    Lexeme::Tok { from, .. } => to <= from,
                    Lexeme::Bad { at, .. } => to <= at,
                    Lexeme::End => false,
                }) by {
                    assert(found[j] == rest[j - 1]);
                    if i > 0 {
                        assert(found[i] == rest[i - 1]);
                    }
                }
            }
        },
        _ => {},
    }
}

/// The strings of `table` once the texts of the tokens among `found` were
/// interned, first to last.
pub open spec fn table_after(table: Seq<Seq<char>>, chars: Seq<char>, found: Seq<Lexeme>) -> Seq<
    Seq<char>,
>
    decreases found.len(),
{
    if found.len() == 0 {
        table
    } else {
        let earlier = table_after(table, chars, found.drop_last());
        match found.last() {
            Lexeme::Tok { token, from, to } => table_with(earlier, token, chars.subrange(from, to)),
            _ => earlier,
        }
    }
}

/// Whether `read` is the token that `found` stands for, with its byte
/// positions, in a text whose first byte has the position `start` and given
/// the strings of `table`.
pub open spec fn reads_as(
    read: (u32, Token, u32),
    found: Lexeme,
    chars: Seq<char>,
    start: u32,
    table: Seq<Seq<char>>,
) -> bool {
    match found {
        Lexeme::Tok { token, from, to } => {
            &&& read.0 == start + byte_offset(chars, from)
            &&& read.2 == start + byte_offset(chars, to)
            &&& token_reads(read.1, token, chars.subrange(from, to), table)
        },
        _ => false,
    }
}

proof fn lemma_reads_as_grows(
    read: (u32, Token, u32),
    found: Lexeme,
    chars: Seq<char>,
    start: u32,
    table: Seq<Seq<char>>,
    lexed: LexerToken<Token, TokenKind>,
    text: Seq<char>,
)
    requires
        reads_as(read, found, chars, start, table),
    ensures
        reads_as(read, found, chars, start, table_with(table, lexed, text)),
{
    match found {
        Lexeme::Tok { token: LexerToken::Dynamic(kind), from, to } => {
            let id = choose|id: StringId|
                id.index < table.len() && table[id.index as int] == chars.subrange(from, to)
                    && read.1 == kind.with_text(id);
            let grown = table_with(table, lexed, text);
            assert(id.index < grown.len() && grown[id.index as int] == chars.subrange(from, to));
        },
        _ => {},
    }
}

/// All tokens of `source`, each with the byte positions of its first
/// character and of the character after its last one, where the first byte
/// of `source` has the position `start`. The texts of the tokens are
/// interned in `table`. The first character that starts no token is an
/// error, and so is the end of the text inside a string literal.
pub fn tokenize(source: &str, table: &mut ModuleTable, start: u32) -> (r: Result<
    Vec<(u32, Token, u32)>,
    ParseError,
>)
    requires
        old(table).wf(),
        start + 4 * source@.len() <= u32::MAX,
    ensures
        final(table).wf(),
        ({
            let found = lexemes(source@, 0);
            &&& final(table)@ == table_after(old(table)@, source@, found)
            &&& match r {
                Ok(tokens) => {
                    &&& tokens@.len() == found.len()
                    &&& forall|i: int|
                        0 <= i < found.len() ==> reads_as(
                            #[trigger] tokens@[i],
                            found[i],
                            source@,
                            start,
                            final(table)@,
                        )
                },
                Err(e) => {
                    &&& found.len() > 0
                    &&& found.last() matches Lexeme::Bad { at, found: c }
                    &&& e.span == Span::spec_from_pos((start + byte_offset(source@, at)) as u32)
                    &&& e.description@ == unexpected(c)
                },
            }
        }),
{
    let mut tokenizer = Tokenizer::new(source, start);
    let mut tokens: Vec<(u32, Token, u32)> = Vec::new();
    let ghost mut done: Seq<Lexeme> = Seq::empty();
    loop
        invariant
            tokenizer.wf(),
            table.wf(),
            tokenizer.chars() == source@,
            tokenizer.start() == start,
            0 <= tokenizer.pos() <= source@.len(),
            lexemes(source@, 0) == done + lexemes(source@, tokenizer.pos()),
            table@ == table_after(old(table)@, source@, done),
            tokens@.len() == done.len(),
            forall|i: int|
                0 <= i < done.len() ==> reads_as(
                    #[trigger] tokens@[i],
                    done[i],
                    source@,
                    start,
                    table@,
                ),
        decreases source@.len() - tokenizer.pos(),
    {
        let ghost before = table@;
        let ghost at = tokenizer.pos();
        let ghost rest = lexemes(source@, at);
        let ghost lexeme = first_token(source@, at);
        let pos_before: usize = tokenizer.pos;
        let byte_before: u32 = tokenizer.byte_pos;
        proof {
            lemma_first_token_bounds(source@, at);
        }
        let next = tokenizer.next_token(table);
        match next {
            None => {
                assert(done + rest =~= done);
                return Ok(tokens);
            },
            Some(Err(e)) => {
                proof {
                    assert((done + rest).last() == rest[0]);
                    assert((done + rest).drop_last() =~= done);
                }
                return Err(e);
            },
            Some(Ok(token)) => {
                assert(lexeme is Tok);
                let ghost lexed = lexeme->token;
                let ghost to = lexeme->to;
                let ghost text = source@.subrange(lexeme->from, to);
                proof {
                    assert forall|i: int| 0 <= i < done.len() implies reads_as(
                        #[trigger] tokens@[i],
                        done[i],
                        source@,
                        start,
                        table@,
                    ) by {
                        lemma_reads_as_grows(tokens@[i], done[i], source@, start, before, lexed, text);
                    }
                    assert(done.push(lexeme).drop_last() =~= done);
                }
                if tokenizer.pos == pos_before {
                    proof {
                        let bad = Lexeme::Bad { at, found: Some(source@[at]) };
                        assert(rest =~= seq![lexeme, bad]);
                        assert((done + rest).last() == bad);
                        assert((done + rest).drop_last() =~= done.push(lexeme));
                        assert(table_after(old(table)@, source@, done.push(lexeme)) == table@);
                        assert(table_after(old(table)@, source@, done + rest) == table@);
                    }
                    return Err(ParseError::from_pos("Unexpected character", byte_before));
                }
                tokens.push(token);
                proof {
                    assert(done + rest =~= done.push(lexeme) + lexemes(source@, to));
                    done = done.push(lexeme);
                }
            },
        }
    }
}

} // verus!
