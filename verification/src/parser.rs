//! The parser: from source text to a syntax tree, or to the place where
//! the text stops being a module.

use crate::ast::{
    Block, BlockItem, BlockItemTerm, ConstructField, ConstructStruct, Def, Expression,
    ExpressionTerm, Field, Item, ItemTerm, Literal, Mode, Module, Op, Pattern, Struct, Type,
};
use crate::grammar::{
    arguments_from, block_item_at, block_items_from, comma_or, construct_fields_from, covers,
    def_at, expression_at, failure, field_at, fields_from, items_from, lemma_items_cover,
    mode_at, module_of, name_at, primary_at, sigil_at, span_at, span_over, starts_from,
    struct_at, sum_from, token_at, type_at, word_at, Expected, Failure, Tok,
};
use crate::intern::{distinct, lemma_position, position};
use crate::lexer_helpers::{LexerToken, ParseError};
use crate::pos::{Span, Spanned};
use crate::program::{ModuleTable, StringId};
use crate::quicklex::Token;
use crate::tokenizer::{
    byte_offset, lexemes, reads_as, table_after, tokenize, unexpected, Lexeme,
};
use vstd::prelude::*;
use vstd::string::StringExecFns;

verus! {

/// Whether `id` is the number of `word` in `table`, or `None` where
/// `table` does not hold `word`.
pub open spec fn names(id: Option<StringId>, table: Seq<Seq<char>>, word: Seq<char>) -> bool {
    match id {
        Some(id) => id.index < table.len() && table[id.index as int] == word,
        None => !table.contains(word),
    }
}

/// The numbers of the words and sigils that the grammar knows.
pub struct Words {
    pub word_struct: Option<StringId>,
    pub word_def: Option<StringId>,
    pub word_let: Option<StringId>,
    pub word_own: Option<StringId>,
    pub word_share: Option<StringId>,
    pub word_borrow: Option<StringId>,
    pub colon: Option<StringId>,
    pub comma: Option<StringId>,
    pub equals: Option<StringId>,
    pub plus: Option<StringId>,
    pub minus: Option<StringId>,
    pub greater: Option<StringId>,
}

impl Words {
    /// Every number is the number of its word in `table`, which holds no
    /// string twice.
    pub open spec fn of(&self, table: Seq<Seq<char>>) -> bool {
        &&& distinct(table)
        &&& names(self.word_struct, table, "struct"@)
        &&& names(self.word_def, table, "def"@)
        &&& names(self.word_let, table, "let"@)
        &&& names(self.word_own, table, "own"@)
        &&& names(self.word_share, table, "share"@)
        &&& names(self.word_borrow, table, "borrow"@)
        &&& names(self.colon, table, ":"@)
        &&& names(self.comma, table, ","@)
        &&& names(self.equals, table, "="@)
        &&& names(self.plus, table, "+"@)
        &&& names(self.minus, table, "-"@)
        &&& names(self.greater, table, ">"@)
    }

    /// The numbers that the words of the grammar have in `table`.
    pub fn new(table: &ModuleTable) -> (r: Words)
        requires
            table.wf(),
        ensures
            r.of(table@),
    {
        Words {
            word_struct: table.get("struct"),
            word_def: table.get("def"),
            word_let: table.get("let"),
            word_own: table.get("own"),
            word_share: table.get("share"),
            word_borrow: table.get("borrow"),
            colon: table.get(":"),
            comma: table.get(","),
            equals: table.get("="),
            plus: table.get("+"),
            minus: table.get("-"),
            greater: table.get(">"),
        }
    }
}

fn is_word(
    toks: &Vec<Tok>,
    p: usize,
    id: Option<StringId>,
    Ghost(table): Ghost<Seq<Seq<char>>>,
    Ghost(word): Ghost<Seq<char>>,
) -> (r: bool)
    requires
        distinct(table),
        names(id, table, word),
    ensures
        r == word_at(toks@, table, p as int, word),
{
    if p < toks.len() {
        match (toks[p].1, id) {
            (Token::Identifier(found), Some(id)) => found.index == id.index,
            _ => false,
        }
    } else {
        false
    }
}

fn is_sigil(
    toks: &Vec<Tok>,
    p: usize,
    id: Option<StringId>,
    Ghost(table): Ghost<Seq<Seq<char>>>,
    Ghost(sigil): Ghost<Seq<char>>,
) -> (r: bool)
    requires
        distinct(table),
        names(id, table, sigil),
    ensures
        r == sigil_at(toks@, table, p as int, sigil),
{
    if p < toks.len() {
        match (toks[p].1, id) {
            (Token::Sigil(found), Some(id)) => found.index == id.index,
            _ => false,
        }
    } else {
        false
    }
}

fn is_token(toks: &Vec<Tok>, p: usize, token: Token) -> (r: bool)
    ensures
        r == token_at(toks@, p as int, token),
{
    p < toks.len() && toks[p].1 == token
}

fn span_of(toks: &Vec<Tok>, p: usize) -> (r: Span)
    requires
        p < toks@.len(),
    ensures
        r == span_at(toks@, p as int),
{
    Span::Real { start: toks[p].0, end: toks[p].2 }
}

fn span_between(toks: &Vec<Tok>, p: usize, q: usize) -> (r: Span)
    requires
        p < toks@.len(),
        q < toks@.len(),
    ensures
        r == span_over(toks@, p as int, q as int),
{
    Span::Real { start: toks[p].0, end: toks[q].2 }
}

/// Whether `r` is `want`, the position taken as a number.
pub open spec fn same<T>(r: Result<(T, usize), Failure>, want: Result<(T, int), Failure>) -> bool {
    match (r, want) {
        (Ok((x, p)), Ok((y, q))) => x == y && p == q,
        (Err(f), Err(g)) => f == g,
        _ => false,
    }
}

/// Whether `r` is `want`, the expression written out.
pub open spec fn same_expression(
    r: Result<(Expression, usize), Failure>,
    want: Result<(ExpressionTerm, int), Failure>,
) -> bool {
    match (r, want) {
        (Ok((x, p)), Ok((y, q))) => x.term() == y && p == q,
        (Err(f), Err(g)) => f == g,
        _ => false,
    }
}

/// The expressions of `list`, written out.
pub open spec fn terms(list: Seq<Expression>) -> Seq<ExpressionTerm> {
    Seq::new(list.len(), |i: int| list[i].term())
}

/// The items of `list`, written out.
pub open spec fn block_terms(list: Seq<BlockItem>) -> Seq<BlockItemTerm> {
    Seq::new(list.len(), |i: int| list[i].term())
}

/// The items of `list`, written out.
pub open spec fn item_terms(list: Seq<Item>) -> Seq<ItemTerm> {
    Seq::new(list.len(), |i: int| list[i].term())
}

fn parse_name(toks: &Vec<Tok>, p: usize) -> (r: Result<(Spanned<StringId>, usize), Failure>)
    requires
        p <= toks@.len(),
    ensures
        same(r, name_at(toks@, p as int)),
        r matches Ok((_, after)) ==> after == p + 1 && after <= toks@.len(),
{
    if p < toks.len() {
        match toks[p].1 {
            Token::Identifier(id) => Ok((Spanned { node: id, span: span_of(toks, p) }, p + 1)),
            _ => Err(Failure { at: p, expected: Expected::Name }),
        }
    } else {
        Err(Failure { at: p, expected: Expected::Name })
    }
}

fn parse_mode(toks: &Vec<Tok>, words: &Words, p: usize, Ghost(table): Ghost<Seq<Seq<char>>>) -> (r:
    Option<Mode>)
    requires
        words.of(table),
    ensures
        r == mode_at(toks@, table, p as int),
{
    if is_word(toks, p, words.word_own, Ghost(table), Ghost("own"@)) {
        Some(Mode::Owned)
    } else if is_word(toks, p, words.word_share, Ghost(table), Ghost("share"@)) {
        Some(Mode::Shared)
    } else if is_word(toks, p, words.word_borrow, Ghost(table), Ghost("borrow"@)) {
        Some(Mode::Borrowed)
    } else {
        None
    }
}

fn parse_type(toks: &Vec<Tok>, words: &Words, p: usize, Ghost(table): Ghost<Seq<Seq<char>>>) -> (r:
    Result<(Spanned<Type>, usize), Failure>)
    requires
        words.of(table),
        p <= toks@.len(),
    ensures
        same(r, type_at(toks@, table, p as int)),
        r matches Ok((_, after)) ==> p < after <= toks@.len(),
{
    let mode = parse_mode(toks, words, p, Ghost(table));
    if p < toks.len() {
        if let Some(mode) = mode {
            if let Ok((name, after)) = parse_name(toks, p + 1) {
                return Ok(
                    (
                        Spanned {
                            node: Type {
                                mode: Some(Spanned { node: mode, span: span_of(toks, p) }),
                                name,
                            },
                            span: span_between(toks, p, p + 1),
                        },
                        after,
                    ),
                );
            }
        }
    }
    match parse_name(toks, p) {
        Ok((name, after)) => Ok(
            (Spanned { node: Type { mode: None, name }, span: span_of(toks, p) }, after),
        ),
        Err(_) => Err(Failure { at: p, expected: Expected::Type }),
    }
}

fn parse_field(toks: &Vec<Tok>, words: &Words, p: usize, Ghost(table): Ghost<Seq<Seq<char>>>) -> (r:
    Result<(Field, usize), Failure>)
    requires
        words.of(table),
        p <= toks@.len(),
    ensures
        same(r, field_at(toks@, table, p as int)),
        r matches Ok((_, after)) ==> p < after <= toks@.len(),
{
    let n: usize = toks.len();
    match parse_name(toks, p) {
        Err(f) => Err(f),
        Ok((name, colon)) => {
            if !is_sigil(toks, colon, words.colon, Ghost(table), Ghost(":"@)) {
                Err(Failure { at: colon, expected: Expected::Colon })
            } else {
                match parse_type(toks, words, colon + 1, Ghost(table)) {
                    Err(f) => Err(f),
                    Ok((ty, after)) => Ok((Field { name, ty, span: name.span.to(ty.span) }, after)),
                }
            }
        },
    }
}

fn comma_or_close(close: Token) -> (r: Expected)
    ensures
        r == comma_or(close),
{
    if close == Token::CloseParen {
        Expected::CommaOrCloseParen
    } else {
        Expected::CommaOrCloseCurly
    }
}

fn parse_fields(
    toks: &Vec<Tok>,
    words: &Words,
    start: usize,
    close: Token,
    Ghost(table): Ghost<Seq<Seq<char>>>,
) -> (r: Result<(Vec<Field>, usize), Failure>)
    requires
        words.of(table),
        start <= toks@.len(),
    ensures
        match (r, fields_from(toks@, table, start as int, close, Seq::empty())) {
            (Ok((x, p)), Ok((y, q))) => x@ == y && p == q && p < toks@.len() && start <= p,
            (Err(f), Err(g)) => f == g,
            _ => false,
        },
{
    let n: usize = toks.len();
    let mut fields: Vec<Field> = Vec::new();
    let mut p: usize = start;
    let ghost want = fields_from(toks@, table, start as int, close, Seq::empty());
    loop
        invariant
            words.of(table),
            start <= p <= toks@.len() <= usize::MAX,
            want == fields_from(toks@, table, start as int, close, Seq::empty()),
            want == fields_from(toks@, table, p as int, close, fields@),
        decreases toks@.len() - p,
    {
        if is_token(toks, p, close) {
            return Ok((fields, p));
        }
        match parse_field(toks, words, p, Ghost(table)) {
            Err(f) => {
                return Err(f);
            },
            Ok((field, after)) => {
                fields.push(field);
                if is_sigil(toks, after, words.comma, Ghost(table), Ghost(","@)) {
                    p = after + 1;
                } else if is_token(toks, after, close) {
                    return Ok((fields, after));
                } else {
                    return Err(Failure { at: after, expected: comma_or_close(close) });
                }
            },
        }
    }
}

fn parse_struct(toks: &Vec<Tok>, words: &Words, p: usize, Ghost(table): Ghost<Seq<Seq<char>>>) -> (r:
    Result<(Item, usize), Failure>)
    requires
        words.of(table),
        p < toks@.len(),
    ensures
        match (r, struct_at(toks@, table, p as int)) {
            (Ok((x, after)), Ok((y, q))) => x.term() == y && after == q && p < after
                <= toks@.len(),
            (Err(f), Err(g)) => f == g,
            _ => false,
        },
{
    let n: usize = toks.len();
    match parse_name(toks, p + 1) {
        Err(f) => Err(f),
        Ok((name, open)) => {
            if !is_token(toks, open, Token::OpenCurly) {
                Err(Failure { at: open, expected: Expected::OpenCurly })
            } else {
                match parse_fields(toks, words, open + 1, Token::CloseCurly, Ghost(table)) {
                    Err(f) => Err(f),
                    Ok((fields, close)) => Ok(
                        (
                            Item::Struct(Struct { name, fields, span: span_between(toks, p, close) }),
                            close + 1,
                        ),
                    ),
                }
            }
        },
    }
}

fn parse_construct_fields(
    toks: &Vec<Tok>,
    words: &Words,
    start: usize,
    Ghost(table): Ghost<Seq<Seq<char>>>,
) -> (r: Result<(Vec<ConstructField>, usize), Failure>)
    requires
        words.of(table),
        start <= toks@.len(),
    ensures
        match (r, construct_fields_from(toks@, table, start as int, Seq::empty())) {
            (Ok((x, p)), Ok((y, q))) => x@ == y && p == q && p < toks@.len() && start <= p,
            (Err(f), Err(g)) => f == g,
            _ => false,
        },
{
    let n: usize = toks.len();
    let mut fields: Vec<ConstructField> = Vec::new();
    let mut p: usize = start;
    let ghost want = construct_fields_from(toks@, table, start as int, Seq::empty());
    loop
        invariant
            words.of(table),
            start <= p <= toks@.len() <= usize::MAX,
            want == construct_fields_from(toks@, table, start as int, Seq::empty()),
            want == construct_fields_from(toks@, table, p as int, fields@),
        decreases toks@.len() - p,
    {
        if is_token(toks, p, Token::CloseCurly) {
            return Ok((fields, p));
        }
        match parse_name(toks, p) {
            Err(f) => {
                return Err(f);
            },
            Ok((name, after)) => {
                fields.push(ConstructField::Shorthand(name));
                if is_sigil(toks, after, words.comma, Ghost(table), Ghost(","@)) {
                    p = after + 1;
                } else if is_token(toks, after, Token::CloseCurly) {
                    return Ok((fields, after));
                } else {
                    return Err(Failure { at: after, expected: Expected::CommaOrCloseCurly });
                }
            },
        }
    }
}

fn parse_primary(toks: &Vec<Tok>, words: &Words, p: usize, Ghost(table): Ghost<Seq<Seq<char>>>) -> (r:
    Result<(Expression, usize), Failure>)
    requires
        words.of(table),
        p <= toks@.len(),
    ensures
        same_expression(r, primary_at(toks@, table, p as int)),
        r matches Ok((_, after)) ==> p < after <= toks@.len(),
    decreases toks@.len() - p, 0int,
{
    if p < toks.len() {
        match toks[p].1 {
            Token::String(id) => Ok(
                (
                    Expression::Literal(
                        Literal::String(Spanned { node: id, span: span_of(toks, p) }),
                    ),
                    p + 1,
                ),
            ),
            Token::Identifier(id) => {
                let name = Spanned { node: id, span: span_of(toks, p) };
                if is_token(toks, p + 1, Token::OpenParen) {
                    match parse_arguments(toks, words, p + 2, Ghost(table)) {
                        Err(f) => Err(f),
                        Ok((arguments, close)) => {
                            let ghost listed = terms(arguments@);
                            let call = Expression::call(
                                name,
                                arguments,
                                span_between(toks, p, close),
                            );
                            proof {
                                assert(call.term()->Call_arguments =~= listed);
                            }
                            Ok((call, close + 1))
                        },
                    }
                } else if is_token(toks, p + 1, Token::OpenCurly) {
                    match parse_construct_fields(toks, words, p + 2, Ghost(table)) {
                        Err(f) => Err(f),
                        Ok((fields, close)) => Ok(
                            (
                                Expression::ConstructStruct(
                                    ConstructStruct {
                                        name,
                                        fields,
                                        span: span_between(toks, p, close),
                                    },
                                ),
                                close + 1,
                            ),
                        ),
                    }
                } else {
                    Ok((Expression::Ref(name), p + 1))
                }
            },
            _ => Err(Failure { at: p, expected: Expected::Expression }),
        }
    } else {
        Err(Failure { at: p, expected: Expected::Expression })
    }
}

fn parse_expression(
    toks: &Vec<Tok>,
    words: &Words,
    start: usize,
    Ghost(table): Ghost<Seq<Seq<char>>>,
) -> (r: Result<(Expression, usize), Failure>)
    requires
        words.of(table),
        start <= toks@.len(),
    ensures
        same_expression(r, expression_at(toks@, table, start as int)),
        r matches Ok((_, after)) ==> start < after <= toks@.len(),
    decreases toks@.len() - start, 2int,
{
    let n: usize = toks.len();
    let ghost want = expression_at(toks@, table, start as int);
    match parse_primary(toks, words, start, Ghost(table)) {
        Err(f) => Err(f),
        Ok((first, after)) => {
            let mut left = first;
            let mut p: usize = after;
            loop
                invariant
                    words.of(table),
                    start < p <= toks@.len() <= usize::MAX,
                    want == expression_at(toks@, table, start as int),
                    want == sum_from(toks@, table, p as int, left.term()),
                decreases toks@.len() - p,
            {
                if !is_sigil(toks, p, words.plus, Ghost(table), Ghost("+"@)) {
                    return Ok((left, p));
                }
                let op = Spanned { node: Op::Add, span: span_of(toks, p) };
                match parse_primary(toks, words, p + 1, Ghost(table)) {
                    Err(f) => {
                        return Err(f);
                    },
                    Ok((right, after)) => {
                        left = Expression::binary(op, left, right);
                        p = after;
                    },
                }
            }
        },
    }
}

fn parse_arguments(
    toks: &Vec<Tok>,
    words: &Words,
    start: usize,
    Ghost(table): Ghost<Seq<Seq<char>>>,
) -> (r: Result<(Vec<Expression>, usize), Failure>)
    requires
        words.of(table),
        start <= toks@.len(),
    ensures
        match (r, arguments_from(toks@, table, start as int, Seq::empty())) {
            (Ok((x, p)), Ok((y, q))) => terms(x@) == y && p == q && p < toks@.len() && start <= p,
            (Err(f), Err(g)) => f == g,
            _ => false,
        },
    decreases toks@.len() - start, 3int,
{
    let n: usize = toks.len();
    let mut arguments: Vec<Expression> = Vec::new();
    let mut p: usize = start;
    let ghost want = arguments_from(toks@, table, start as int, Seq::empty());
    proof {
        assert(terms(arguments@) =~= Seq::empty());
    }
    loop
        invariant
            words.of(table),
            start <= p <= toks@.len() <= usize::MAX,
            want == arguments_from(toks@, table, start as int, Seq::empty()),
            want == arguments_from(toks@, table, p as int, terms(arguments@)),
        decreases toks@.len() - p,
    {
        if is_token(toks, p, Token::CloseParen) {
            return Ok((arguments, p));
        }
        match parse_expression(toks, words, p, Ghost(table)) {
            Err(f) => {
                return Err(f);
            },
            Ok((argument, after)) => {
                let ghost earlier = terms(arguments@);
                let ghost term = argument.term();
                arguments.push(argument);
                proof {
                    assert(terms(arguments@) =~= earlier.push(term));
                }
                if is_sigil(toks, after, words.comma, Ghost(table), Ghost(","@)) {
                    p = after + 1;
                } else if is_token(toks, after, Token::CloseParen) {
                    return Ok((arguments, after));
                } else {
                    return Err(Failure { at: after, expected: Expected::CommaOrCloseParen });
                }
            },
        }
    }
}

fn parse_block_item(
    toks: &Vec<Tok>,
    words: &Words,
    p: usize,
    Ghost(table): Ghost<Seq<Seq<char>>>,
) -> (r: Result<(BlockItem, usize), Failure>)
    requires
        words.of(table),
        p <= toks@.len(),
    ensures
        match (r, block_item_at(toks@, table, p as int)) {
            (Ok((x, after)), Ok((y, q))) => x.term() == y && after == q && p < after
                <= toks@.len(),
            (Err(f), Err(g)) => f == g,
            _ => false,
        },
{
    let n: usize = toks.len();
    if is_word(toks, p, words.word_let, Ghost(table), Ghost("let"@)) {
        match parse_name(toks, p + 1) {
            Err(f) => Err(f),
            Ok((name, after)) => {
                let pattern = Spanned { node: Pattern::Identifier(name, None), span: name.span };
                let mut ty: Option<Spanned<Type>> = None;
                let mut q: usize = after;
                if is_sigil(toks, after, words.colon, Ghost(table), Ghost(":"@)) {
                    match parse_type(toks, words, after + 1, Ghost(table)) {
                        Err(f) => {
                            return Err(f);
                        },
                        Ok((found, end)) => {
                            ty = Some(found);
                            q = end;
                        },
                    }
                }
                if is_sigil(toks, q, words.equals, Ghost(table), Ghost("="@)) {
                    match parse_expression(toks, words, q + 1, Ghost(table)) {
                        Err(f) => Err(f),
                        Ok((init, end)) => Ok((BlockItem::let_decl(pattern, ty, Some(init)), end)),
                    }
                } else {
                    Ok((BlockItem::let_decl(pattern, ty, None), q))
                }
            },
        }
    } else {
        match parse_expression(toks, words, p, Ghost(table)) {
            Err(f) => Err(f),
            Ok((e, after)) => Ok((BlockItem::Expr(e), after)),
        }
    }
}

fn parse_block_items(
    toks: &Vec<Tok>,
    words: &Words,
    start: usize,
    Ghost(table): Ghost<Seq<Seq<char>>>,
) -> (r: Result<(Vec<BlockItem>, usize), Failure>)
    requires
        words.of(table),
        start <= toks@.len(),
    ensures
        match (r, block_items_from(toks@, table, start as int, Seq::empty())) {
            (Ok((x, p)), Ok((y, q))) => block_terms(x@) == y && p == q && p < toks@.len()
                && start <= p,
            (Err(f), Err(g)) => f == g,
            _ => false,
        },
{
    let n: usize = toks.len();
    let mut items: Vec<BlockItem> = Vec::new();
    let mut p: usize = start;
    let ghost want = block_items_from(toks@, table, start as int, Seq::empty());
    proof {
        assert(block_terms(items@) =~= Seq::empty());
    }
    loop
        invariant
            words.of(table),
            start <= p <= toks@.len() <= usize::MAX,
            want == block_items_from(toks@, table, start as int, Seq::empty()),
            want == block_items_from(toks@, table, p as int, block_terms(items@)),
        decreases toks@.len() - p,
    {
        if is_token(toks, p, Token::CloseCurly) {
            return Ok((items, p));
        }
        match parse_block_item(toks, words, p, Ghost(table)) {
            Err(f) => {
                return Err(f);
            },
            Ok((item, after)) => {
                let ghost earlier = block_terms(items@);
                let ghost term = item.term();
                items.push(item);
                proof {
                    assert(block_terms(items@) =~= earlier.push(term));
                }
                p = after;
            },
        }
    }
}

fn parse_def(toks: &Vec<Tok>, words: &Words, p: usize, Ghost(table): Ghost<Seq<Seq<char>>>) -> (r:
    Result<(Item, usize), Failure>)
    requires
        words.of(table),
        p < toks@.len(),
    ensures
        match (r, def_at(toks@, table, p as int)) {
            (Ok((x, after)), Ok((y, q))) => x.term() == y && after == q && p < after
                <= toks@.len(),
            (Err(f), Err(g)) => f == g,
            _ => false,
        },
{
    let n: usize = toks.len();
    match parse_name(toks, p + 1) {
        Err(f) => Err(f),
        Ok((name, open)) => {
            if !is_token(toks, open, Token::OpenParen) {
                return Err(Failure { at: open, expected: Expected::OpenParen });
            }
            match parse_fields(toks, words, open + 1, Token::CloseParen, Ghost(table)) {
                Err(f) => Err(f),
                Ok((parameters, close)) => {
                    let mut ret: Option<Spanned<Type>> = None;
                    let mut q: usize = close + 1;
                    if is_sigil(toks, close + 1, words.minus, Ghost(table), Ghost("-"@))
                        && is_sigil(toks, close + 2, words.greater, Ghost(table), Ghost(">"@)) {
                        match parse_type(toks, words, close + 3, Ghost(table)) {
                            Err(f) => {
                                return Err(f);
                            },
                            Ok((found, end)) => {
                                ret = Some(found);
                                q = end;
                            },
                        }
                    }
                    if !is_token(toks, q, Token::OpenCurly) {
                        return Err(Failure { at: q, expected: Expected::OpenCurly });
                    }
                    match parse_block_items(toks, words, q + 1, Ghost(table)) {
                        Err(f) => Err(f),
                        Ok((body, end)) => {
                            let ghost listed = block_terms(body@);
                            let def = Def {
                                name,
                                parameters,
                                ret,
                                body: Block::spanned(body, span_between(toks, q, end)),
                                span: span_between(toks, p, end),
                            };
                            let item = Item::Def(def);
                            proof {
                                assert(item.term()->Def_body =~= listed);
                            }
                            Ok((item, end + 1))
                        },
                    }
                },
            }
        },
    }
}

fn parse_items(toks: &Vec<Tok>, words: &Words, Ghost(table): Ghost<Seq<Seq<char>>>) -> (r: Result<
    Vec<Item>,
    Failure,
>)
    requires
        words.of(table),
    ensures
        match (r, module_of(toks@, table)) {
            (Ok(x), Ok(y)) => item_terms(x@) == y,
            (Err(f), Err(g)) => f == g,
            _ => false,
        },
{
    let n: usize = toks.len();
    let mut items: Vec<Item> = Vec::new();
    let mut p: usize = 0;
    let ghost want = module_of(toks@, table);
    proof {
        assert(item_terms(items@) =~= Seq::empty());
    }
    loop
        invariant
            words.of(table),
            n == toks@.len(),
            p <= n,
            want == module_of(toks@, table),
            want == items_from(toks@, table, p as int, item_terms(items@)),
        decreases n - p,
    {
        if p >= n {
            return Ok(items);
        }
        let found = if is_word(toks, p, words.word_struct, Ghost(table), Ghost("struct"@)) {
            parse_struct(toks, words, p, Ghost(table))
        } else if is_word(toks, p, words.word_def, Ghost(table), Ghost("def"@)) {
            parse_def(toks, words, p, Ghost(table))
        } else {
            Err(Failure { at: p, expected: Expected::Item })
        };
        match found {
            Err(f) => {
                return Err(f);
            },
            Ok((item, after)) => {
                let ghost earlier = item_terms(items@);
                let ghost term = item.term();
                items.push(item);
                proof {
                    assert(item_terms(items@) =~= earlier.push(term));
                }
                p = after;
            },
        }
    }
}

/// Whether the parser looks at a token: white space, comments and line
/// ends are passed over.
pub open spec fn counts(token: Token) -> bool {
    !(token is Whitespace || token is Comment || token is Newline)
}

/// The tokens of `toks` that the parser looks at, in order.
pub open spec fn significant(toks: Seq<Tok>) -> Seq<Tok>
    decreases toks.len(),
{
    if toks.len() == 0 {
        Seq::empty()
    } else {
        let earlier = significant(toks.drop_last());
        if counts(toks.last().1) {
            earlier.push(toks.last())
        } else {
            earlier
        }
    }
}

/// The tokens that the parser looks at.
pub fn keep_significant(toks: &Vec<Tok>) -> (r: Vec<Tok>)
    ensures
        r@ == significant(toks@),
{
    let mut out: Vec<Tok> = Vec::new();
    let n: usize = toks.len();
    let mut i: usize = 0;
    while i < n
        invariant
            n == toks@.len(),
            i <= n,
            out@ == significant(toks@.take(i as int)),
        decreases n - i,
    {
        let tok = toks[i];
        proof {
            assert(toks@.take(i + 1).drop_last() =~= toks@.take(i as int));
        }
        match tok.1 {
            Token::Whitespace(_) | Token::Comment(_) | Token::Newline => {},
            _ => {
                out.push(tok);
            },
        }
        i = i + 1;
    }
    assert(toks@.take(n as int) =~= toks@);
    out
}

/// An error of the parser, in the form in which a generated parser
/// reports it.
#[derive(Debug)]
#[allow(inconsistent_fields)]
pub enum GrammarError {
    /// No token starts at `location`.
    InvalidToken { location: u32 },
    /// A token, or the end of the input where `token` is `None`, stands
    /// where one of `expected` was looked for.
    UnrecognizedToken { token: Option<Tok>, expected: Vec<String> },
    /// A token follows what was complete without it.
    ExtraToken { token: Tok },
    /// An error of the lexer.
    User { error: ParseError },
}

/// The names of what `expected` stands for.
pub open spec fn expected_names(expected: Expected) -> Seq<Seq<char>> {
    match expected {
        Expected::Item => seq!["\"struct\""@, "\"def\""@],
        Expected::Name => seq!["Identifier"@],
        Expected::Type => seq!["Identifier"@],
        Expected::Colon => seq!["\":\""@],
        Expected::OpenCurly => seq!["\"{\""@],
        Expected::OpenParen => seq!["\"(\""@],
        Expected::CommaOrCloseCurly => seq!["\",\""@, "\"}\""@],
        Expected::CommaOrCloseParen => seq!["\",\""@, "\")\""@],
        Expected::Expression => seq!["Identifier"@, "String"@],
    }
}

fn names_of(expected: Expected) -> (r: Vec<String>)
    ensures
        r@.len() == expected_names(expected).len(),
        forall|i: int| 0 <= i < r@.len() ==> (#[trigger] r@[i])@ == expected_names(expected)[i],
{
    let mut out: Vec<String> = Vec::new();
    match expected {
        Expected::Item => {
            out.push(String::from_str("\"struct\""));
            out.push(String::from_str("\"def\""));
        },
        Expected::Name => {
            out.push(String::from_str("Identifier"));
        },
        Expected::Type => {
            out.push(String::from_str("Identifier"));
        },
        Expected::Colon => {
            out.push(String::from_str("\":\""));
        },
        Expected::OpenCurly => {
            out.push(String::from_str("\"{\""));
        },
        Expected::OpenParen => {
            out.push(String::from_str("\"(\""));
        },
        Expected::CommaOrCloseCurly => {
            out.push(String::from_str("\",\""));
            out.push(String::from_str("\"}\""));
        },
        Expected::CommaOrCloseParen => {
            out.push(String::from_str("\",\""));
            out.push(String::from_str("\")\""));
        },
        Expected::Expression => {
            out.push(String::from_str("Identifier"));
            out.push(String::from_str("String"));
        },
    }
    out
}

/// The first `n` of `names`, separated by commas.
pub open spec fn keyword_list(names: Seq<Seq<char>>, n: int) -> Seq<char>
    decreases n,
{
    if n <= 0 {
        Seq::empty()
    } else if n == 1 {
        names[0]
    } else {
        keyword_list(names, n - 1) + ", "@ + names[n - 1]
    }
}

/// The text of `token` as it stands in the source.
pub open spec fn source_of(token: Token, table: Seq<Seq<char>>) -> Seq<char> {
    match token {
        Token::Whitespace(id) | Token::Identifier(id) | Token::Sigil(id) | Token::Comment(id)
        | Token::String(id) => if id.index < table.len() {
            table[id.index as int]
        } else {
            Seq::empty()
        },
        Token::OpenCurly => "{"@,
        Token::CloseCurly => "}"@,
        Token::OpenParen => "("@,
        Token::CloseParen => ")"@,
        Token::Newline => "\n"@,
    }
}

impl Token {
    /// The text of the token as it stands in the source: for a token that
    /// carries its text, the string of `table` that it names, and nothing
    /// where it names none.
    pub fn source(&self, table: &ModuleTable) -> (r: String)
        ensures
            r@ == source_of(*self, table@),
    {
        match self {
            Token::Whitespace(id) | Token::Identifier(id) | Token::Sigil(id) | Token::Comment(id)
            | Token::String(id) => if id.index < table.len() {
                String::from_str(table.lookup(*id))
            } else {
                String::new()
            },
            Token::OpenCurly => String::from_str("{"),
            Token::CloseCurly => String::from_str("}"),
            Token::OpenParen => String::from_str("("),
            Token::CloseParen => String::from_str(")"),
            Token::Newline => String::from_str("\n"),
        }
    }
}

fn join(names: &Vec<String>) -> (r: String)
    ensures
        r@ == keyword_list(Seq::new(names@.len(), |i: int| names@[i]@), names@.len() as int),
{
    let ghost list = Seq::new(names@.len(), |i: int| names@[i]@);
    let mut out = String::new();
    let n: usize = names.len();
    let mut i: usize = 0;
    while i < n
        invariant
            n == names@.len(),
            i <= n,
            list == Seq::new(names@.len(), |i: int| names@[i]@),
            out@ == keyword_list(list, i as int),
        decreases n - i,
    {
        if i > 0 {
            out.append(", ");
        }
        out.append(names[i].as_str());
        proof {
            assert(list[i as int] == names@[i as int]@);
            if i == 0 {
                assert(Seq::<char>::empty() + list[0] =~= list[0]);
            }
        }
        i = i + 1;
    }
    out
}

/// What the error says and where it points, for an error of the parser.
pub open spec fn error_of(err: GrammarError, table: Seq<Seq<char>>) -> (Seq<char>, Span) {
    match err {
        GrammarError::InvalidToken { location } => (
            "Invalid Token"@,
            Span::spec_from_pos(location),
        ),
        GrammarError::UnrecognizedToken { token: Some((left, token, right)), expected } => (
            "Unexpected token "@ + source_of(token, table) + ", expected: "@ + keyword_list(
                Seq::new(expected@.len(), |i: int| expected@[i]@),
                expected@.len() as int,
            ),
            Span::Real { start: left, end: right },
        ),
        GrammarError::UnrecognizedToken { token: None, expected } => (
            "Unrecognized EOF, expected: "@ + keyword_list(
                Seq::new(expected@.len(), |i: int| expected@[i]@),
                expected@.len() as int,
            ),
            Span::EOF,
        ),
        GrammarError::ExtraToken { token: (left, token, right) } => (
            "Extra Token "@ + source_of(token, table),
            Span::Real { start: left, end: right },
        ),
        GrammarError::User { error } => (error.description@, error.span),
    }
}

/// The error that is reported for an error of the parser: what it says,
/// with the text of the token in question taken from `table`, and where it
/// points.
pub fn lalrpop_err(err: GrammarError, table: &ModuleTable) -> (r: ParseError)
    ensures
        (r.description@, r.span) == error_of(err, table@),
{
    match err {
        GrammarError::InvalidToken { location } => ParseError::from_pos("Invalid Token", location),
        GrammarError::UnrecognizedToken { token: Some((left, token, right)), expected } => {
            let mut description = String::from_str("Unexpected token ");
            description.append(token.source(table).as_str());
            description.append(", expected: ");
            description.append(join(&expected).as_str());
            ParseError::from(description, left, right)
        },
        GrammarError::UnrecognizedToken { token: None, expected } => {
            let mut description = String::from_str("Unrecognized EOF, expected: ");
            description.append(join(&expected).as_str());
            ParseError::from_eof(description)
        },
        GrammarError::ExtraToken { token: (left, token, right) } => {
            let mut description = String::from_str("Extra Token ");
            description.append(token.source(table).as_str());
            ParseError::from(description, left, right)
        },
        GrammarError::User { error } => error,
    }
}

/// The token that `found` is, with its byte positions, in a text whose
/// first byte has the position `start`. A token that carries its text
/// names the place of that text in `table`.
pub open spec fn token_for(found: Lexeme, chars: Seq<char>, start: u32, table: Seq<Seq<char>>)
    -> Tok {
    match found {
        Lexeme::Tok { token, from, to } => (
            (start + byte_offset(chars, from)) as u32,
            match token {
                LexerToken::Fixed(t) => t,
                LexerToken::Dynamic(kind) => kind.with_text(
                    StringId { index: position(table, chars.subrange(from, to)) as usize },
                ),
            },
            (start + byte_offset(chars, to)) as u32,
        ),
        _ => (0, Token::Newline, 0),
    }
}

/// The tokens that `found` are.
pub open spec fn tokens_for(
    found: Seq<Lexeme>,
    chars: Seq<char>,
    start: u32,
    table: Seq<Seq<char>>,
) -> Seq<Tok> {
    Seq::new(found.len(), |i: int| token_for(found[i], chars, start, table))
}

proof fn lemma_token_for(
    read: Tok,
    found: Lexeme,
    chars: Seq<char>,
    start: u32,
    table: Seq<Seq<char>>,
)
    requires
        distinct(table),
        reads_as(read, found, chars, start, table),
    ensures
        read == token_for(found, chars, start, table),
{
    match found {
        Lexeme::Tok { token: LexerToken::Dynamic(kind), from, to } => {
            let text = chars.subrange(from, to);
            let id = choose|id: StringId|
                id.index < table.len() && table[id.index as int] == text && read.1
                    == kind.with_text(id);
            lemma_position(table, text, id.index as int);
        },
        _ => {},
    }
}

/// What the error says and where it points when the tokens `toks` stop
/// being a module at `failure`.
pub open spec fn failure_error(toks: Seq<Tok>, failure: Failure, table: Seq<Seq<char>>) -> (
    Seq<char>,
    Span,
) {
    let names = expected_names(failure.expected);
    if failure.at < toks.len() {
        let (left, token, right) = toks[failure.at as int];
        (
            "Unexpected token "@ + source_of(token, table) + ", expected: "@ + keyword_list(
                names,
                names.len() as int,
            ),
            Span::Real { start: left, end: right },
        )
    } else {
        ("Unrecognized EOF, expected: "@ + keyword_list(names, names.len() as int), Span::EOF)
    }
}

/// The tokens of `source` that the parser looks at.
pub open spec fn read_tokens(source: Seq<char>, start: u32, table: Seq<Seq<char>>) -> Seq<Tok> {
    significant(tokens_for(lexemes(source, 0), source, start, table))
}

/// What parsing `source` gives, where the first byte of `source` has the
/// position `start` and `table` holds the strings after the parse: the
/// items of the module, or what the error says and where it points. The
/// first character that starts no token is the error, if there is one;
/// else the first token that does not fit the grammar.
pub open spec fn parsed(source: Seq<char>, start: u32, table: Seq<Seq<char>>) -> Result<
    Seq<ItemTerm>,
    (Seq<char>, Span),
> {
    let found = lexemes(source, 0);
    if found.len() > 0 && found.last() is Bad {
        Err(
            (
                unexpected(found.last()->found),
                Span::spec_from_pos((start + byte_offset(source, found.last()->at)) as u32),
            ),
        )
    } else {
        let toks = read_tokens(source, start, table);
        match module_of(toks, table) {
            Ok(items) => Ok(items),
            Err(failure) => Err(failure_error(toks, failure, table)),
        }
    }
}

/// Parses `source`, whose first byte has the position `start`, into a
/// module. The texts of the tokens are interned in `table`.
pub fn parse(source: &str, table: &mut ModuleTable, start: u32) -> (r: Result<Module, ParseError>)
    requires
        old(table).wf(),
        start + 4 * source@.len() <= u32::MAX,
    ensures
        final(table).wf(),
        final(table)@ == table_after(old(table)@, source@, lexemes(source@, 0)),
        match (r, parsed(source@, start, final(table)@)) {
            (Ok(module), Ok(items)) => module@ == items,
            (Err(e), Err(d)) => (e.description@, e.span) == d,
            _ => false,
        },
        r matches Ok(module) ==> covers(
            read_tokens(source@, start, final(table)@),
            module@,
            starts_from(read_tokens(source@, start, final(table)@), final(table)@, 0),
        ),
{
    let ghost found = lexemes(source@, 0);
    match tokenize(source, table, start) {
        Err(e) => Err(lalrpop_err(GrammarError::User { error: e }, table)),
        Ok(tokens) => {
            proof {
                assert forall|i: int| 0 <= i < found.len() implies tokens@[i] == token_for(
                    found[i],
                    source@,
                    start,
                    table@,
                ) by {
                    lemma_token_for(tokens@[i], found[i], source@, start, table@);
                }
                assert(tokens@ =~= tokens_for(found, source@, start, table@));
                if found.len() > 0 {
                    assert(reads_as(
                        tokens@[found.len() - 1],
                        found[found.len() - 1],
                        source@,
                        start,
                        table@,
                    ));
                }
            }
            let toks = keep_significant(&tokens);
            let words = Words::new(table);
            match parse_items(&toks, &words, Ghost(table@)) {
                Ok(items) => {
                    let ghost listed = item_terms(items@);
                    let module = Module::new(items);
                    proof {
                        assert(module@ =~= listed);
                        lemma_items_cover(toks@, table@);
                    }
                    Ok(module)
                },
                Err(failure) => {
                    let token = if failure.at < toks.len() {
                        Some(toks[failure.at])
                    } else {
                        None
                    };
                    let expected = names_of(failure.expected);
                    proof {
                        assert(Seq::new(expected@.len(), |i: int| expected@[i]@)
                            =~= expected_names(failure.expected));
                    }
                    Err(lalrpop_err(GrammarError::UnrecognizedToken { token, expected }, table))
                },
            }
        },
    }
}

} // verus!
