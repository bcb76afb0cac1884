use lark::lexer_helpers::{
    consume, consume_n, reconsume, LexerAccumulate, LexerAction, LexerNext, LexerToken, ParseError,
};
use lark::pos::{Span, Spanned};
use lark::program::{ModuleTable, StringId};
use lark::quicklex::{LexerState, Token, TokenKind};
use lark::tokenizer::{decode, tokenize, Tokenizer};

type Next = LexerNext<LexerState, Token, TokenKind>;

fn step(state: LexerState, rest: &str) -> Next {
    let chars: Vec<char> = rest.chars().collect();
    state.next(chars.first().copied(), &chars).unwrap()
}

fn emit_after_one(token: LexerToken<Token, TokenKind>) -> LexerAccumulate<Token, TokenKind> {
    LexerAccumulate::Emit { before: Some(LexerAction::Consume(1)), after: None, token }
}

fn finish(kind: TokenKind) -> Next {
    LexerNext::Transition(
        LexerAccumulate::Emit {
            before: Some(LexerAction::Reconsume),
            after: None,
            token: LexerToken::Dynamic(kind),
        },
        LexerState::Top,
    )
}

fn lex(source: &str, start: u32) -> (Vec<(u32, String, u32)>, ModuleTable) {
    let mut table = ModuleTable::new();
    let tokens = tokenize(source, &mut table, start).unwrap();
    let listed = tokens.iter().map(|(l, t, r)| (*l, t.debug(&table), *r)).collect();
    (listed, table)
}

#[test]
fn test_quicklex() {
    let source = "struct Diagnostic {\n  msg: own String,\n  level: String,\n}\n";
    let mut table = ModuleTable::new();
    let start = 1;
    let tokens = tokenize(source, &mut table, start).unwrap();
    let spanned: Vec<Spanned<Token>> =
        tokens.iter().map(|(start, tok, end)| Spanned::from(*tok, *start, *end)).collect();
    let listed: Vec<(String, u32, u32)> = spanned
        .iter()
        .map(|s| match s.span {
            Span::Real { start, end } => (s.node.debug(&table), start, end),
            Span::EOF => panic!("a token at the end of the input"),
        })
        .collect();
    let expected: Vec<(&str, u32, u32)> = vec![
        ("struct", 1, 7),
        ("<whitespace>", 7, 8),
        ("Diagnostic", 8, 18),
        ("<whitespace>", 18, 19),
        ("#{#", 19, 20),
        ("<newline>", 20, 21),
        ("<whitespace>", 21, 23),
        ("msg", 23, 26),
        ("#:#", 26, 27),
        ("<whitespace>", 27, 28),
        ("own", 28, 31),
        ("<whitespace>", 31, 32),
        ("String", 32, 38),
        ("#,#", 38, 39),
        ("<newline>", 39, 40),
        ("<whitespace>", 40, 42),
        ("level", 42, 47),
        ("#:#", 47, 48),
        ("<whitespace>", 48, 49),
        ("String", 49, 55),
        ("#,#", 55, 56),
        ("<newline>", 56, 57),
        ("#}#", 57, 58),
        ("<newline>", 58, 59),
    ];
    assert_eq!(listed.len(), expected.len());
    for (found, wanted) in listed.iter().zip(expected.iter()) {
        assert_eq!((found.0.as_str(), found.1, found.2), *wanted);
    }
}

#[test]
fn the_machine_starts_at_the_top() {
    assert_eq!(LexerState::top(), LexerState::Top);
}

#[test]
fn the_top_state_tells_tokens_apart() {
    assert_eq!(step(LexerState::Top, ""), LexerNext::EOF);
    assert_eq!(
        step(LexerState::Top, "abc"),
        LexerNext::Transition(LexerAccumulate::Begin, LexerState::StartIdent)
    );
    assert_eq!(
        step(LexerState::Top, "\u{e9}t\u{e9}"),
        LexerNext::Transition(LexerAccumulate::Begin, LexerState::StartIdent)
    );
    assert_eq!(
        step(LexerState::Top, "{"),
        LexerNext::Remain(emit_after_one(LexerToken::Fixed(Token::OpenCurly)))
    );
    assert_eq!(
        step(LexerState::Top, "}"),
        LexerNext::Remain(emit_after_one(LexerToken::Fixed(Token::CloseCurly)))
    );
    assert_eq!(
        step(LexerState::Top, "("),
        LexerNext::Remain(emit_after_one(LexerToken::Fixed(Token::OpenParen)))
    );
    assert_eq!(
        step(LexerState::Top, ")"),
        LexerNext::Remain(emit_after_one(LexerToken::Fixed(Token::CloseParen)))
    );
    for sigil in ["+", "-", "*", "/", ":", ",", ">", "<", "="] {
        assert_eq!(
            step(LexerState::Top, sigil),
            LexerNext::Remain(emit_after_one(LexerToken::Dynamic(TokenKind::Sigil)))
        );
    }
    assert_eq!(
        step(LexerState::Top, "\"a\""),
        LexerNext::Transition(
            LexerAccumulate::Continue(LexerAction::Consume(1)),
            LexerState::StringLiteral
        )
    );
    assert_eq!(
        step(LexerState::Top, "\n"),
        LexerNext::Remain(emit_after_one(LexerToken::Fixed(Token::Newline)))
    );
    assert_eq!(
        step(LexerState::Top, " x"),
        LexerNext::Transition(LexerAccumulate::Begin, LexerState::Whitespace)
    );
    assert_eq!(
        step(LexerState::Top, "\u{a0}x"),
        LexerNext::Transition(LexerAccumulate::Begin, LexerState::Whitespace)
    );
    assert_eq!(step(LexerState::Top, "1"), LexerNext::Error(Some('1')));
    assert_eq!(step(LexerState::Top, "_a"), LexerNext::Error(Some('_')));
    assert_eq!(step(LexerState::Top, "#"), LexerNext::Error(Some('#')));
}

#[test]
fn a_slash_is_a_sigil_even_where_a_comment_opens() {
    assert_eq!(
        step(LexerState::Top, "/* c */"),
        LexerNext::Remain(emit_after_one(LexerToken::Dynamic(TokenKind::Sigil)))
    );
    let rest: Vec<char> = "/* c */".chars().collect();
    assert_eq!(
        LexerState::Top.next(Some('#'), &rest).unwrap(),
        LexerNext::PushState(
            LexerAccumulate::Continue(LexerAction::Consume(2)),
            LexerState::Comment(1)
        )
    );
}

#[test]
fn identifiers_run_through_their_characters() {
    let take = LexerAccumulate::Continue(LexerAction::Consume(1));
    assert_eq!(
        step(LexerState::StartIdent, "ab"),
        LexerNext::Transition(take, LexerState::ContinueIdent)
    );
    assert_eq!(step(LexerState::StartIdent, " "), finish(TokenKind::Identifier));
    assert_eq!(step(LexerState::ContinueIdent, "b1"), LexerNext::Remain(take));
    assert_eq!(step(LexerState::ContinueIdent, "_"), LexerNext::Remain(take));
    assert_eq!(step(LexerState::ContinueIdent, "9"), LexerNext::Remain(take));
    assert_eq!(step(LexerState::ContinueIdent, "\u{e9}"), LexerNext::Remain(take));
    assert_eq!(step(LexerState::ContinueIdent, "+"), finish(TokenKind::Identifier));
    let at_end = LexerNext::Transition(
        LexerAccumulate::Emit {
            before: None,
            after: None,
            token: LexerToken::Dynamic(TokenKind::Identifier),
        },
        LexerState::Top,
    );
    assert_eq!(step(LexerState::StartIdent, ""), at_end);
    assert_eq!(step(LexerState::ContinueIdent, ""), at_end);
}

#[test]
fn strings_run_to_the_closing_quote() {
    assert_eq!(
        step(LexerState::StringLiteral, "a\""),
        LexerNext::Remain(LexerAccumulate::Continue(LexerAction::Consume(1)))
    );
    assert_eq!(
        step(LexerState::StringLiteral, "\n"),
        LexerNext::Remain(LexerAccumulate::Continue(LexerAction::Consume(1)))
    );
    assert_eq!(
        step(LexerState::StringLiteral, "\" "),
        LexerNext::Transition(
            emit_after_one(LexerToken::Dynamic(TokenKind::String)),
            LexerState::Top
        )
    );
    assert_eq!(step(LexerState::StringLiteral, ""), LexerNext::Error(None));
}

#[test]
fn white_space_stops_at_the_end_of_the_line() {
    assert_eq!(
        step(LexerState::Whitespace, "  x"),
        LexerNext::Remain(LexerAccumulate::Continue(LexerAction::Consume(1)))
    );
    assert_eq!(
        step(LexerState::Whitespace, "\t"),
        LexerNext::Remain(LexerAccumulate::Continue(LexerAction::Consume(1)))
    );
    assert_eq!(
        step(LexerState::Whitespace, "\n"),
        LexerNext::Transition(LexerAccumulate::Skip(LexerAction::Reconsume), LexerState::Top)
    );
    assert_eq!(step(LexerState::Whitespace, "x"), finish(TokenKind::Whitespace));
    assert_eq!(step(LexerState::Whitespace, ""), LexerNext::EOF);
}

#[test]
fn comments_nest() {
    let take_two = LexerAccumulate::Continue(LexerAction::Consume(2));
    assert_eq!(
        step(LexerState::Comment(1), "/* x"),
        LexerNext::Transition(take_two, LexerState::Comment(2))
    );
    assert_eq!(
        step(LexerState::Comment(1), "*/ x"),
        LexerNext::Transition(
            LexerAccumulate::Emit {
                before: Some(LexerAction::Consume(2)),
                after: None,
                token: LexerToken::Dynamic(TokenKind::Comment),
            },
            LexerState::Top
        )
    );
    assert_eq!(
        step(LexerState::Comment(1), "x"),
        LexerNext::Remain(LexerAccumulate::Continue(LexerAction::Consume(1)))
    );
    assert_eq!(
        step(LexerState::Comment(3), "/*"),
        LexerNext::Transition(take_two, LexerState::Comment(4))
    );
    assert_eq!(
        step(LexerState::Comment(3), "*/"),
        LexerNext::Transition(take_two, LexerState::Comment(2))
    );
    assert_eq!(
        step(LexerState::Comment(3), "*"),
        LexerNext::Remain(LexerAccumulate::Continue(LexerAction::Consume(1)))
    );
    assert_eq!(
        step(LexerState::Comment(0), "x"),
        LexerNext::Remain(LexerAccumulate::Continue(LexerAction::Consume(1)))
    );
}

#[test]
fn the_builders_say_what_they_build() {
    assert_eq!(consume(), LexerAction::Consume(1));
    assert_eq!(consume_n(2), LexerAction::Consume(2));
    assert_eq!(reconsume(), LexerAction::Reconsume);
    let next: Next = consume().and_remain();
    assert_eq!(next, LexerNext::Remain(LexerAccumulate::Continue(LexerAction::Consume(1))));
    let next: Next = consume_n(2).and_push(LexerState::Comment(1));
    assert_eq!(
        next,
        LexerNext::PushState(
            LexerAccumulate::Continue(LexerAction::Consume(2)),
            LexerState::Comment(1)
        )
    );
    let next: Next = reconsume().and_discard().and_transition(LexerState::Top);
    assert_eq!(
        next,
        LexerNext::Transition(LexerAccumulate::Skip(LexerAction::Reconsume), LexerState::Top)
    );
    let next: Next = consume().and_emit(Token::Newline).and_remain();
    assert_eq!(next, LexerNext::Remain(emit_after_one(LexerToken::Fixed(Token::Newline))));
    let next: Next = consume().and_emit_dynamic(TokenKind::String).and_pop();
    assert_eq!(next, LexerNext::PopState(emit_after_one(LexerToken::Dynamic(TokenKind::String))));
    let next: Next = consume().and_continue().and_push(LexerState::Top);
    assert_eq!(
        next,
        LexerNext::PushState(LexerAccumulate::Continue(LexerAction::Consume(1)), LexerState::Top)
    );
    assert_eq!(Next::begin(LexerState::Whitespace), step(LexerState::Top, " "));
    assert_eq!(Next::sigil(Token::OpenCurly), step(LexerState::Top, "{"));
    assert_eq!(Next::dynamic_sigil(TokenKind::Sigil), step(LexerState::Top, "+"));
    assert_eq!(
        Next::emit_dynamic(TokenKind::Identifier, LexerState::Top),
        step(LexerState::StartIdent, "")
    );
    assert_eq!(TokenKind::Sigil.with_text(StringId { index: 3 }), Token::Sigil(StringId { index: 3 }));
    assert_eq!(
        TokenKind::Whitespace.with_text(StringId { index: 0 }),
        Token::Whitespace(StringId { index: 0 })
    );
    assert_eq!(TokenKind::Comment.with_text(StringId { index: 1 }), Token::Comment(StringId { index: 1 }));
}

#[test]
fn tokens_read_in_a_listing() {
    let mut table = ModuleTable::new();
    let id = table.intern("x");
    assert_eq!(Token::Whitespace(id).debug(&table), "<whitespace>");
    assert_eq!(Token::Identifier(id).debug(&table), "x");
    assert_eq!(Token::Sigil(id).debug(&table), "#x#");
    assert_eq!(Token::Comment(id).debug(&table), "/* ... */");
    assert_eq!(Token::String(id).debug(&table), "\"x\"");
    assert_eq!(Token::OpenCurly.debug(&table), "#{#");
    assert_eq!(Token::CloseCurly.debug(&table), "#}#");
    assert_eq!(Token::OpenParen.debug(&table), "#(#");
    assert_eq!(Token::CloseParen.debug(&table), "#)#");
    assert_eq!(Token::Newline.debug(&table), "<newline>");
}

#[test]
fn decode_gives_the_characters() {
    assert_eq!(decode(""), vec![]);
    assert_eq!(decode("a\u{e9}\n"), vec!['a', '\u{e9}', '\n']);
}

#[test]
fn tokens_carry_their_text_and_their_bytes() {
    let (listed, table) = lex("a+\"b c\"", 10);
    assert_eq!(
        listed,
        vec![
            (10, "a".to_string(), 11),
            (11, "#+#".to_string(), 12),
            (12, "\"\"b c\"\"".to_string(), 17),
        ]
    );
    assert_eq!(table.values(), vec!["a".to_string(), "+".to_string(), "\"b c\"".to_string()]);
}

#[test]
fn positions_count_bytes_not_characters() {
    let (listed, _) = lex("\u{e9}t\u{e9} \u{4e2d}", 0);
    assert_eq!(
        listed,
        vec![
            (0, "\u{e9}t\u{e9}".to_string(), 5),
            (5, "<whitespace>".to_string(), 6),
            (6, "\u{4e2d}".to_string(), 9),
        ]
    );
}

#[test]
fn white_space_before_a_line_end_or_the_end_is_dropped() {
    let (listed, table) = lex("a  \n b   ", 0);
    assert_eq!(
        listed,
        vec![
            (0, "a".to_string(), 1),
            (3, "<newline>".to_string(), 4),
            (4, "<whitespace>".to_string(), 5),
            (5, "b".to_string(), 6),
        ]
    );
    assert_eq!(table.get("  "), None);
    assert_eq!(table.get(" "), Some(StringId { index: 1 }));
}

#[test]
fn the_same_text_is_interned_once() {
    let mut table = ModuleTable::new();
    let tokens = tokenize("x x y", &mut table, 0).unwrap();
    assert_eq!(tokens.len(), 5);
    assert_eq!(tokens[0].1, Token::Identifier(StringId { index: 0 }));
    assert_eq!(tokens[1].1, Token::Whitespace(StringId { index: 1 }));
    assert_eq!(tokens[2].1, Token::Identifier(StringId { index: 0 }));
    assert_eq!(tokens[3].1, Token::Whitespace(StringId { index: 1 }));
    assert_eq!(tokens[4].1, Token::Identifier(StringId { index: 2 }));
    assert_eq!(table.len(), 3);
}

#[test]
fn an_empty_text_has_no_token() {
    let mut table = ModuleTable::new();
    assert_eq!(tokenize("", &mut table, 5).unwrap(), vec![]);
    assert_eq!(table.len(), 0);
    let mut tokenizer = Tokenizer::new("", 5);
    assert!(tokenizer.next_token(&mut table).is_none());
}

#[test]
fn a_character_that_starts_no_token_is_an_error() {
    let mut table = ModuleTable::new();
    let error: ParseError = tokenize("ab #", &mut table, 100).unwrap_err();
    assert_eq!(error.description, "Unexpected character");
    assert_eq!(error.span, Span::Real { start: 103, end: 104 });
    assert_eq!(table.values(), vec!["ab".to_string(), " ".to_string()]);
}

#[test]
fn a_string_that_does_not_end_is_an_error() {
    let mut table = ModuleTable::new();
    let error = tokenize("x \"abc", &mut table, 0).unwrap_err();
    assert_eq!(error.description, "Unexpected end of input");
    assert_eq!(error.span, Span::Real { start: 6, end: 7 });
}

#[test]
fn the_tokenizer_hands_out_one_token_at_a_time() {
    let mut table = ModuleTable::new();
    let mut tokenizer = Tokenizer::new("f(x)", 0);
    let mut seen = vec![];
    while let Some(next) = tokenizer.next_token(&mut table) {
        let (left, token, right) = next.unwrap();
        seen.push((left, token.debug(&table), right));
    }
    assert_eq!(
        seen,
        vec![
            (0, "f".to_string(), 1),
            (1, "#(#".to_string(), 2),
            (2, "x".to_string(), 3),
            (3, "#)#".to_string(), 4),
        ]
    );
}

#[test]
fn spans_join_and_wrap() {
    assert_eq!(Span::from(1, 5), Span::Real { start: 1, end: 5 });
    assert_eq!(Span::from_pos(7), Span::Real { start: 7, end: 8 });
    assert_eq!(Span::from_pos(u32::MAX), Span::Real { start: u32::MAX, end: u32::MAX });
    assert_eq!(Span::from(1, 5).to(Span::from(7, 9)), Span::from(1, 9));
    assert_eq!(Span::from(1, 5).to(Span::EOF), Span::EOF);
    assert_eq!(Span::EOF.to(Span::from(1, 5)), Span::EOF);
    let wrapped = Spanned::wrap_span('a', Span::from(2, 3));
    assert_eq!(wrapped, Spanned::from('a', 2, 3));
    assert_eq!(wrapped.node, 'a');
    let error = ParseError::from("x".to_string(), 1, 2);
    assert_eq!(error.span, Span::from(1, 2));
    assert_eq!(ParseError::from_pos("y", 4).span, Span::from(4, 5));
    assert_eq!(ParseError::from_eof("z".to_string()).span, Span::EOF);
    assert_eq!(ParseError::from_eof("z".to_string()).description, "z");
}
