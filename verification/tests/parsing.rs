use lark::ast::{
    Block, BlockItem, ConstructField, ConstructStruct, Def, Expression, Field, Item, Literal, Mode,
    Module, Op, Pattern, Struct, Type,
};
use lark::grammar::{Expected, Failure};
use lark::lexer_helpers::ParseError;
use lark::parser::{keep_significant, lalrpop_err, parse, GrammarError, Words};
use lark::pos::{Span, Spanned};
use lark::program::{ModuleTable, StringId};
use lark::quicklex::Token;
use lark::tokenizer::tokenize;

const PROGRAM: [&str; 12] = [
    "struct Diagnostic {",
    "  msg: own String,",
    "  level: String,",
    "}",
    "def new(msg: own String, level: String) -> Diagnostic {",
    "  Diagnostic { msg, level }",
    "}",
    "def main() {",
    "    let var_name = \"variable\"",
    "    let s = \"variable is unused \" + var_name",
    "    new(s, \"warning\")",
    "}",
];

struct Annotations {
    source: String,
    starts: Vec<u32>,
    table: ModuleTable,
}

impl Annotations {
    fn new(lines: &[&str], start: u32) -> Annotations {
        let mut source = String::new();
        let mut starts = vec![];
        let mut at = start;
        for line in lines {
            starts.push(at);
            source.push_str(line);
            source.push('\n');
            at += line.len() as u32 + 1;
        }
        Annotations { source, starts, table: ModuleTable::new() }
    }

    fn span(&self, line: usize, from: u32, to: u32) -> Span {
        Span::from(self.starts[line] + from, self.starts[line] + to)
    }

    fn src(&self, line: usize, from: u32, to: u32) -> &str {
        let base = self.starts[0];
        let left = (self.starts[line] + from - base) as usize;
        let right = (self.starts[line] + to - base) as usize;
        &self.source[left..right]
    }

    fn ident(&self, line: usize, from: u32, to: u32) -> Spanned<StringId> {
        let src = self.src(line, from, to);
        let id = self.table.get(src).unwrap_or_else(|| panic!("Missing intern for {:?}", src));
        Spanned::wrap_span(id, self.span(line, from, to))
    }

    fn mode(&self, line: usize, from: u32, to: u32) -> Spanned<Mode> {
        let mode = match self.src(line, from, to) {
            "own" => Mode::Owned,
            "share" => Mode::Shared,
            "borrow" => Mode::Borrowed,
            other => panic!("Unexpected mode {:?}", other),
        };
        Spanned::wrap_span(mode, self.span(line, from, to))
    }

    fn op(&self, line: usize, from: u32, to: u32) -> Spanned<Op> {
        match self.src(line, from, to) {
            "+" => Spanned::wrap_span(Op::Add, self.span(line, from, to)),
            other => panic!("Unexpected operator {:?}", other),
        }
    }

    fn pat_ident(&self, line: usize, from: u32, to: u32) -> Spanned<Pattern> {
        let id = self.ident(line, from, to);
        Spanned::wrap_span(Pattern::Identifier(id, None), self.span(line, from, to))
    }

    fn ty(&self, line: usize, name: (u32, u32)) -> Spanned<Type> {
        Spanned::wrap_span(
            Type::new(None, self.ident(line, name.0, name.1)),
            self.span(line, name.0, name.1),
        )
    }

    fn ty_mode(&self, line: usize, mode: (u32, u32), name: (u32, u32)) -> Spanned<Type> {
        Spanned::wrap_span(
            Type::new(Some(self.mode(line, mode.0, mode.1)), self.ident(line, name.0, name.1)),
            self.span(line, mode.0, name.1),
        )
    }

    fn field(&self, line: usize, name: (u32, u32), ty: (u32, u32)) -> Field {
        Field::new(self.ident(line, name.0, name.1), self.ty(line, ty), self.span(line, name.0, ty.1))
    }

    fn field_mode(&self, line: usize, name: (u32, u32), mode: (u32, u32), ty: (u32, u32)) -> Field {
        Field::new(
            self.ident(line, name.0, name.1),
            self.ty_mode(line, mode, ty),
            self.span(line, name.0, ty.1),
        )
    }

    fn shorthand(&self, line: usize, from: u32, to: u32) -> ConstructField {
        ConstructField::Shorthand(self.ident(line, from, to))
    }

    fn string(&self, line: usize, from: u32, to: u32) -> Expression {
        let string = self.src(line, from, to);
        let id = self
            .table
            .get(string)
            .unwrap_or_else(|| panic!("Missing expected string {:?}, had {:?}", string, self.table.values()));
        Expression::Literal(Literal::String(Spanned::wrap_span(id, self.span(line, from, to))))
    }

    fn refers(&self, line: usize, from: u32, to: u32) -> Expression {
        Expression::Ref(self.ident(line, from, to))
    }

    fn between(&self, from: (usize, u32), to: (usize, u32)) -> Span {
        Span::from(self.starts[from.0] + from.1, self.starts[to.0] + to.1)
    }
}

fn parse_string(ann: &mut Annotations, start: u32) -> Module {
    let source = ann.source.clone();
    match parse(&source, &mut ann.table, start) {
        Ok(module) => module,
        Err(e) => panic!("Parse Error: {} at {:?}", e.description, e.span),
    }
}

fn parse_error(source: &str) -> (String, Span) {
    let mut table = ModuleTable::new();
    let error: ParseError = parse(source, &mut table, 0).unwrap_err();
    (error.description, error.span)
}

#[test]
fn test_struct() {
    let mut ann = Annotations::new(&PROGRAM, 1);
    let actual = parse_string(&mut ann, 1);

    let s = Struct::new(
        ann.ident(0, 7, 17),
        vec![ann.field_mode(1, (2, 5), (7, 10), (11, 17)), ann.field(2, (2, 7), (9, 15))],
        ann.between((0, 0), (3, 1)),
    );

    let def = Def::new(
        ann.ident(4, 4, 7),
        vec![ann.field_mode(4, (8, 11), (13, 16), (17, 23)), ann.field(4, (25, 30), (32, 38))],
        Some(ann.ty(4, (43, 53))),
        Block::spanned(
            vec![BlockItem::Expr(Expression::ConstructStruct(ConstructStruct::new(
                ann.ident(5, 2, 12),
                vec![ann.shorthand(5, 15, 18), ann.shorthand(5, 20, 25)],
                ann.span(5, 2, 27),
            )))],
            ann.between((4, 54), (6, 1)),
        ),
        ann.between((4, 0), (6, 1)),
    );

    let main = Def::new(
        ann.ident(7, 4, 8),
        vec![],
        None,
        Block::spanned(
            vec![
                BlockItem::let_decl(ann.pat_ident(8, 8, 16), None, Some(ann.string(8, 19, 29))),
                BlockItem::let_decl(
                    ann.pat_ident(9, 8, 9),
                    None,
                    Some(Expression::binary(
                        ann.op(9, 34, 35),
                        ann.string(9, 12, 33),
                        ann.refers(9, 36, 44),
                    )),
                ),
                BlockItem::Expr(Expression::call(
                    ann.ident(10, 4, 7),
                    vec![ann.refers(10, 8, 9), ann.string(10, 11, 20)],
                    ann.span(10, 4, 21),
                )),
            ],
            ann.between((7, 11), (11, 1)),
        ),
        ann.between((7, 0), (11, 1)),
    );

    let expected = Module::new(vec![Item::Struct(s), Item::Def(def), Item::Def(main)]);
    assert!(actual == expected, "actual != expected\nactual: {:#?}\nexpected: {:#?}", actual, expected);
}

#[test]
fn an_empty_text_is_an_empty_module() {
    let mut table = ModuleTable::new();
    assert_eq!(parse("", &mut table, 0).unwrap(), Module::new(vec![]));
    assert_eq!(parse(" \n\n  ", &mut table, 0).unwrap(), Module::new(vec![]));
}

#[test]
fn a_struct_may_have_no_field_and_no_trailing_comma() {
    let mut ann = Annotations::new(&["struct A {}", "struct B { x: share T }"], 0);
    let actual = parse_string(&mut ann, 0);
    let a = Struct::new(ann.ident(0, 7, 8), vec![], ann.span(0, 0, 11));
    let b = Struct::new(
        ann.ident(1, 7, 8),
        vec![ann.field_mode(1, (11, 12), (14, 19), (20, 21))],
        ann.span(1, 0, 23),
    );
    assert_eq!(actual, Module::new(vec![Item::Struct(a), Item::Struct(b)]));
}

#[test]
fn a_mode_word_alone_is_a_type_name() {
    let mut ann = Annotations::new(&["struct A { x: own, y: borrow T }"], 0);
    let actual = parse_string(&mut ann, 0);
    let a = Struct::new(
        ann.ident(0, 7, 8),
        vec![
            ann.field(0, (11, 12), (14, 17)),
            ann.field_mode(0, (19, 20), (22, 28), (29, 30)),
        ],
        ann.span(0, 0, 32),
    );
    assert_eq!(actual, Module::new(vec![Item::Struct(a)]));
}

#[test]
fn sums_are_taken_from_the_left() {
    let mut ann = Annotations::new(&["def f() { a + b + c }"], 0);
    let actual = parse_string(&mut ann, 0);
    let sum = Expression::binary(
        ann.op(0, 16, 17),
        Expression::binary(ann.op(0, 12, 13), ann.refers(0, 10, 11), ann.refers(0, 14, 15)),
        ann.refers(0, 18, 19),
    );
    let f = Def::new(
        ann.ident(0, 4, 5),
        vec![],
        None,
        Block::spanned(vec![BlockItem::Expr(sum)], ann.span(0, 8, 21)),
        ann.span(0, 0, 21),
    );
    assert_eq!(actual, Module::new(vec![Item::Def(f)]));
}

#[test]
fn a_declaration_may_have_a_type_and_no_value() {
    let mut ann = Annotations::new(&["def f() { let x: own T let y let z: T = g() }"], 0);
    let actual = parse_string(&mut ann, 0);
    let f = Def::new(
        ann.ident(0, 4, 5),
        vec![],
        None,
        Block::spanned(
            vec![
                BlockItem::let_decl(
                    ann.pat_ident(0, 14, 15),
                    Some(ann.ty_mode(0, (17, 20), (21, 22))),
                    None,
                ),
                BlockItem::let_decl(ann.pat_ident(0, 27, 28), None, None),
                BlockItem::let_decl(
                    ann.pat_ident(0, 33, 34),
                    Some(ann.ty(0, (36, 37))),
                    Some(Expression::call(ann.ident(0, 40, 41), vec![], ann.span(0, 40, 43))),
                ),
            ],
            ann.span(0, 8, 45),
        ),
        ann.span(0, 0, 45),
    );
    assert_eq!(actual, Module::new(vec![Item::Def(f)]));
}

#[test]
fn calls_nest_and_take_a_trailing_comma() {
    let mut ann = Annotations::new(&["def f() { g(h(x,), \"s\" + y) }"], 0);
    let actual = parse_string(&mut ann, 0);
    let inner = Expression::call(ann.ident(0, 12, 13), vec![ann.refers(0, 14, 15)], ann.span(0, 12, 17));
    let sum = Expression::binary(ann.op(0, 23, 24), ann.string(0, 19, 22), ann.refers(0, 25, 26));
    let call = Expression::call(ann.ident(0, 10, 11), vec![inner, sum], ann.span(0, 10, 27));
    let f = Def::new(
        ann.ident(0, 4, 5),
        vec![],
        None,
        Block::spanned(vec![BlockItem::Expr(call)], ann.span(0, 8, 29)),
        ann.span(0, 0, 29),
    );
    assert_eq!(actual, Module::new(vec![Item::Def(f)]));
}

#[test]
fn what_is_no_item_is_reported_with_what_was_expected() {
    assert_eq!(
        parse_error("let x"),
        ("Unexpected token let, expected: \"struct\", \"def\"".to_string(), Span::from(0, 3))
    );
    assert_eq!(
        parse_error("struct A {} }"),
        ("Unexpected token }, expected: \"struct\", \"def\"".to_string(), Span::from(12, 13))
    );
}

#[test]
fn the_end_of_the_text_is_reported_as_such() {
    assert_eq!(
        parse_error("struct"),
        ("Unrecognized EOF, expected: Identifier".to_string(), Span::EOF)
    );
    assert_eq!(
        parse_error("struct A { x: T"),
        ("Unrecognized EOF, expected: \",\", \"}\"".to_string(), Span::EOF)
    );
    assert_eq!(
        parse_error("def f() { g(x"),
        ("Unrecognized EOF, expected: \",\", \")\"".to_string(), Span::EOF)
    );
    assert_eq!(
        parse_error("def f() { x +"),
        ("Unrecognized EOF, expected: Identifier, String".to_string(), Span::EOF)
    );
}

#[test]
fn every_place_of_the_grammar_says_what_it_looks_for() {
    assert_eq!(
        parse_error("struct {"),
        ("Unexpected token {, expected: Identifier".to_string(), Span::from(7, 8))
    );
    assert_eq!(
        parse_error("struct A ("),
        ("Unexpected token (, expected: \"{\"".to_string(), Span::from(9, 10))
    );
    assert_eq!(
        parse_error("struct A { x T }"),
        ("Unexpected token T, expected: \":\"".to_string(), Span::from(13, 14))
    );
    assert_eq!(
        parse_error("struct A { x: , }"),
        ("Unexpected token ,, expected: Identifier".to_string(), Span::from(14, 15))
    );
    assert_eq!(
        parse_error("struct A { x: T y: T }"),
        ("Unexpected token y, expected: \",\", \"}\"".to_string(), Span::from(16, 17))
    );
    assert_eq!(
        parse_error("def f {"),
        ("Unexpected token {, expected: \"(\"".to_string(), Span::from(6, 7))
    );
    assert_eq!(
        parse_error("def f(x: T y: T) {}"),
        ("Unexpected token y, expected: \",\", \")\"".to_string(), Span::from(11, 12))
    );
    assert_eq!(
        parse_error("def f() -> { }"),
        ("Unexpected token {, expected: Identifier".to_string(), Span::from(11, 12))
    );
    assert_eq!(
        parse_error("def f() x"),
        ("Unexpected token x, expected: \"{\"".to_string(), Span::from(8, 9))
    );
    assert_eq!(
        parse_error("def f() { ) }"),
        ("Unexpected token ), expected: Identifier, String".to_string(), Span::from(10, 11))
    );
    assert_eq!(
        parse_error("def f() { A { x y } }"),
        ("Unexpected token y, expected: \",\", \"}\"".to_string(), Span::from(16, 17))
    );
    assert_eq!(
        parse_error("def f() { let = x }"),
        ("Unexpected token =, expected: Identifier".to_string(), Span::from(14, 15))
    );
}

#[test]
fn an_error_of_the_lexer_comes_through_as_it_is() {
    assert_eq!(parse_error("struct A { # }"), ("Unexpected character".to_string(), Span::from(11, 12)));
    assert_eq!(
        parse_error("def f() { \"abc }"),
        ("Unexpected end of input".to_string(), Span::from(16, 17))
    );
}

#[test]
fn errors_of_a_generated_parser_are_put_in_words() {
    let mut table = ModuleTable::new();
    let name = table.intern("foo");
    let token = Token::Identifier(name);

    let invalid = lalrpop_err(GrammarError::InvalidToken { location: 9 }, &table);
    assert_eq!(invalid.description, "Invalid Token");
    assert_eq!(invalid.span, Span::from(9, 10));

    let unexpected = lalrpop_err(
        GrammarError::UnrecognizedToken {
            token: Some((3, token, 6)),
            expected: vec!["\"a\"".to_string(), "\"b\"".to_string(), "C".to_string()],
        },
        &table,
    );
    assert_eq!(unexpected.description, "Unexpected token foo, expected: \"a\", \"b\", C");
    assert_eq!(unexpected.span, Span::from(3, 6));

    let one = lalrpop_err(
        GrammarError::UnrecognizedToken { token: Some((0, Token::OpenCurly, 1)), expected: vec!["X".to_string()] },
        &table,
    );
    assert_eq!(one.description, "Unexpected token {, expected: X");

    let eof = lalrpop_err(
        GrammarError::UnrecognizedToken { token: None, expected: vec!["\"}\"".to_string()] },
        &table,
    );
    assert_eq!(eof.description, "Unrecognized EOF, expected: \"}\"");
    assert_eq!(eof.span, Span::EOF);

    let none = lalrpop_err(GrammarError::UnrecognizedToken { token: None, expected: vec![] }, &table);
    assert_eq!(none.description, "Unrecognized EOF, expected: ");

    let extra = lalrpop_err(GrammarError::ExtraToken { token: (7, Token::CloseParen, 8) }, &table);
    assert_eq!(extra.description, "Extra Token )");
    assert_eq!(extra.span, Span::from(7, 8));

    let user = lalrpop_err(
        GrammarError::User { error: ParseError::from("mine".to_string(), 1, 2) },
        &table,
    );
    assert_eq!(user.description, "mine");
    assert_eq!(user.span, Span::from(1, 2));
}

#[test]
fn a_token_knows_its_source() {
    let mut table = ModuleTable::new();
    let id = table.intern("abc");
    assert_eq!(Token::Identifier(id).source(&table), "abc");
    assert_eq!(Token::String(id).source(&table), "abc");
    assert_eq!(Token::Sigil(id).source(&table), "abc");
    assert_eq!(Token::Whitespace(id).source(&table), "abc");
    assert_eq!(Token::Comment(id).source(&table), "abc");
    assert_eq!(Token::Identifier(StringId { index: 5 }).source(&table), "");
    assert_eq!(Token::OpenCurly.source(&table), "{");
    assert_eq!(Token::CloseCurly.source(&table), "}");
    assert_eq!(Token::OpenParen.source(&table), "(");
    assert_eq!(Token::CloseParen.source(&table), ")");
    assert_eq!(Token::Newline.source(&table), "\n");
}

#[test]
fn the_parser_passes_over_white_space_and_line_ends() {
    let mut table = ModuleTable::new();
    let tokens = tokenize("a \n b", &mut table, 0).unwrap();
    assert_eq!(tokens.len(), 4);
    let kept = keep_significant(&tokens);
    assert_eq!(kept, vec![tokens[0], tokens[3]]);
    assert_eq!(keep_significant(&vec![]), vec![]);
}

#[test]
fn the_words_of_the_grammar_are_looked_up_in_the_table() {
    let mut table = ModuleTable::new();
    let words = Words::new(&table);
    assert_eq!(words.word_struct, None);
    assert_eq!(words.plus, None);
    let def = table.intern("def");
    let colon = table.intern(":");
    let words = Words::new(&table);
    assert_eq!(words.word_def, Some(def));
    assert_eq!(words.colon, Some(colon));
    assert_eq!(words.word_let, None);
}

#[test]
fn a_failure_names_a_place_and_what_was_expected() {
    let failure = Failure { at: 3, expected: Expected::Colon };
    assert_eq!(failure, Failure { at: 3, expected: Expected::Colon });
    assert_ne!(failure, Failure { at: 3, expected: Expected::Name });
}
