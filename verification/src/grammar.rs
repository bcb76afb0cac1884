//! The grammar: what a list of tokens is read as. A module is a list of
//! structs and functions; a function body is a block of declarations and
//! expressions.

use crate::ast::{
    BlockItemTerm, ConstructField, ExpressionTerm, Field, ItemTerm, Literal, Mode, Op, Pattern,
    Type,
};
use crate::pos::{Span, Spanned};
use crate::program::StringId;
use crate::quicklex::Token;
use vstd::prelude::*;

verus! {

/// A token with the byte positions of its first character and of the
/// character after its last one.
pub type Tok = (u32, Token, u32);

/// What the parser was looking for where it stopped.
#[derive(Copy, Clone, Debug, PartialEq, Eq, Structural)]
pub enum Expected {
    Item,
    Name,
    Type,
    Colon,
    OpenCurly,
    OpenParen,
    CommaOrCloseCurly,
    CommaOrCloseParen,
    Expression,
}

/// The place at which the tokens stop being a module: the number of the
/// token that does not fit, which is the number of tokens where they end
/// too early.
#[derive(Copy, Clone, Debug, PartialEq, Eq, Structural)]
pub struct Failure {
    pub at: usize,
    pub expected: Expected,
}

/// The failure at the token with the number `at`.
pub open spec fn failure(at: int, expected: Expected) -> Failure {
    Failure { at: at as usize, expected }
}

/// Whether the token at `p` is the identifier `word`.
pub open spec fn word_at(toks: Seq<Tok>, table: Seq<Seq<char>>, p: int, word: Seq<char>) -> bool {
    0 <= p < toks.len() && (toks[p].1 matches Token::Identifier(id) && id.index < table.len()
        && table[id.index as int] == word)
}

/// Whether the token at `p` is the sigil `sigil`.
pub open spec fn sigil_at(toks: Seq<Tok>, table: Seq<Seq<char>>, p: int, sigil: Seq<char>) -> bool {
    0 <= p < toks.len() && (toks[p].1 matches Token::Sigil(id) && id.index < table.len()
        && table[id.index as int] == sigil)
}

/// Whether the token at `p` is `token`.
pub open spec fn token_at(toks: Seq<Tok>, p: int, token: Token) -> bool {
    0 <= p < toks.len() && toks[p].1 == token
}

/// The stretch of source that the token at `p` was read from.
pub open spec fn span_at(toks: Seq<Tok>, p: int) -> Span {
    Span::Real { start: toks[p].0, end: toks[p].2 }
}

/// The stretch of source from the token at `p` to the token at `q`.
pub open spec fn span_over(toks: Seq<Tok>, p: int, q: int) -> Span {
    Span::Real { start: toks[p].0, end: toks[q].2 }
}

/// The name at `p`.
pub open spec fn name_at(toks: Seq<Tok>, p: int) -> Result<(Spanned<StringId>, int), Failure> {
    if 0 <= p < toks.len() {
        match toks[p].1 {
            Token::Identifier(id) => Ok((Spanned { node: id, span: span_at(toks, p) }, p + 1)),
            _ => Err(failure(p, Expected::Name)),
        }
    } else {
        Err(failure(p, Expected::Name))
    }
}

/// The mode that the token at `p` names, if it names one.
pub open spec fn mode_at(toks: Seq<Tok>, table: Seq<Seq<char>>, p: int) -> Option<Mode> {
    if word_at(toks, table, p, "own"@) {
        Some(Mode::Owned)
    } else if word_at(toks, table, p, "share"@) {
        Some(Mode::Shared)
    } else if word_at(toks, table, p, "borrow"@) {
        Some(Mode::Borrowed)
    } else {
        None
    }
}

/// The type at `p`: a name, or a mode and a name.
pub open spec fn type_at(toks: Seq<Tok>, table: Seq<Seq<char>>, p: int) -> Result<
    (Spanned<Type>, int),
    Failure,
> {
    match (mode_at(toks, table, p), name_at(toks, p + 1)) {
        (Some(mode), Ok((name, after))) => Ok(
            (
                Spanned {
                    node: Type {
                        mode: Some(Spanned { node: mode, span: span_at(toks, p) }),
                        name,
                    },
                    span: span_over(toks, p, p + 1),
                },
                after,
            ),
        ),
        _ => match name_at(toks, p) {
            Ok((name, after)) => Ok(
                (Spanned { node: Type { mode: None, name }, span: span_at(toks, p) }, after),
            ),
            Err(_) => Err(failure(p, Expected::Type)),
        },
    }
}

/// The field at `p`: a name, a colon and a type.
pub open spec fn field_at(toks: Seq<Tok>, table: Seq<Seq<char>>, p: int) -> Result<
    (Field, int),
    Failure,
> {
    match name_at(toks, p) {
        Err(f) => Err(f),
        Ok((name, _)) => if !sigil_at(toks, table, p + 1, ":"@) {
            Err(failure(p + 1, Expected::Colon))
        } else {
            match type_at(toks, table, p + 2) {
                Err(f) => Err(f),
                Ok((ty, after)) => Ok((Field { name, ty, span: name.span.to(ty.span) }, after)),
            }
        },
    }
}

/// What is looked for after an element of a list that `close` ends.
pub open spec fn comma_or(close: Token) -> Expected {
    if close == Token::CloseParen {
        Expected::CommaOrCloseParen
    } else {
        Expected::CommaOrCloseCurly
    }
}

/// The fields from `p` up to the token `close`, which is found at the
/// position returned, added to `earlier`. The fields are separated by
/// commas, and a comma may follow the last one.
pub open spec fn fields_from(
    toks: Seq<Tok>,
    table: Seq<Seq<char>>,
    p: int,
    close: Token,
    earlier: Seq<Field>,
) -> Result<(Seq<Field>, int), Failure>
    decreases toks.len() - p,
{
    if token_at(toks, p, close) {
        Ok((earlier, p))
    } else {
        match field_at(toks, table, p) {
            Err(f) => Err(f),
            Ok((field, after)) => if sigil_at(toks, table, after, ","@) && after >= p {
                fields_from(toks, table, after + 1, close, earlier.push(field))
            } else if token_at(toks, after, close) {
                Ok((earlier.push(field), after))
            } else {
                Err(failure(after, comma_or(close)))
            },
        }
    }
}

/// The struct whose keyword is at `p`.
pub open spec fn struct_at(toks: Seq<Tok>, table: Seq<Seq<char>>, p: int) -> Result<
    (ItemTerm, int),
    Failure,
> {
    match name_at(toks, p + 1) {
        Err(f) => Err(f),
        Ok((name, _)) => if !token_at(toks, p + 2, Token::OpenCurly) {
            Err(failure(p + 2, Expected::OpenCurly))
        } else {
            match fields_from(toks, table, p + 3, Token::CloseCurly, Seq::empty()) {
                Err(f) => Err(f),
                Ok((fields, close)) => Ok(
                    (
                        ItemTerm::Struct { name, fields, span: span_over(toks, p, close) },
                        close + 1,
                    ),
                ),
            }
        },
    }
}

/// The expression at `p` that is not a sum: a string, a name, a call or
/// the construction of a struct.
pub open spec fn primary_at(toks: Seq<Tok>, table: Seq<Seq<char>>, p: int) -> Result<
    (ExpressionTerm, int),
    Failure,
>
    decreases toks.len() - p, 0int,
{
    if 0 <= p < toks.len() {
        match toks[p].1 {
            Token::String(id) => Ok(
                (
                    ExpressionTerm::Literal(
                        Literal::String(Spanned { node: id, span: span_at(toks, p) }),
                    ),
                    p + 1,
                ),
            ),
            Token::Identifier(id) => {
                let name = Spanned { node: id, span: span_at(toks, p) };
                if token_at(toks, p + 1, Token::OpenParen) {
                    match arguments_from(toks, table, p + 2, Seq::empty()) {
                        Err(f) => Err(f),
                        Ok((arguments, close)) => Ok(
                            (
                                ExpressionTerm::Call {
                                    callee: name,
                                    arguments,
                                    span: span_over(toks, p, close),
                                },
                                close + 1,
                            ),
                        ),
                    }
                } else if token_at(toks, p + 1, Token::OpenCurly) {
                    match construct_fields_from(toks, table, p + 2, Seq::empty()) {
                        Err(f) => Err(f),
                        Ok((fields, close)) => Ok(
                            (
                                ExpressionTerm::ConstructStruct {
                                    name,
                                    fields,
                                    span: span_over(toks, p, close),
                                },
                                close + 1,
                            ),
                        ),
                    }
                } else {
                    Ok((ExpressionTerm::Ref(name), p + 1))
                }
            },
            _ => Err(failure(p, Expected::Expression)),
        }
    } else {
        Err(failure(p, Expected::Expression))
    }
}

/// The sum that starts with `left` and goes on at `p`.
pub open spec fn sum_from(toks: Seq<Tok>, table: Seq<Seq<char>>, p: int, left: ExpressionTerm)
    -> Result<(ExpressionTerm, int), Failure>
    decreases toks.len() - p, 1int,
{
    if sigil_at(toks, table, p, "+"@) {
        match primary_at(toks, table, p + 1) {
            Err(f) => Err(f),
            Ok((right, after)) => if p < after <= toks.len() {
                sum_from(
                    toks,
                    table,
                    after,
                    ExpressionTerm::Binary(
                        Spanned { node: Op::Add, span: span_at(toks, p) },
                        Box::new(left),
                        Box::new(right),
                    ),
                )
            } else {
                Err(failure(after, Expected::Expression))
            },
        }
    } else {
        Ok((left, p))
    }
}

/// The expression at `p`: a sum of one or more terms, taken from the
/// left.
pub open spec fn expression_at(toks: Seq<Tok>, table: Seq<Seq<char>>, p: int) -> Result<
    (ExpressionTerm, int),
    Failure,
>
    decreases toks.len() - p, 2int,
{
    match primary_at(toks, table, p) {
        Err(f) => Err(f),
        Ok((left, after)) => if p < after <= toks.len() {
            sum_from(toks, table, after, left)
        } else {
            Err(failure(after, Expected::Expression))
        },
    }
}

/// The arguments of a call from `p` up to the closing parenthesis, which
/// is found at the position returned, added to `earlier`.
pub open spec fn arguments_from(
    toks: Seq<Tok>,
    table: Seq<Seq<char>>,
    p: int,
    earlier: Seq<ExpressionTerm>,
) -> Result<(Seq<ExpressionTerm>, int), Failure>
    decreases toks.len() - p, 3int,
{
    if token_at(toks, p, Token::CloseParen) {
        Ok((earlier, p))
    } else {
        match expression_at(toks, table, p) {
            Err(f) => Err(f),
            Ok((argument, after)) => if sigil_at(toks, table, after, ","@) && after >= p {
                arguments_from(toks, table, after + 1, earlier.push(argument))
            } else if token_at(toks, after, Token::CloseParen) {
                Ok((earlier.push(argument), after))
            } else {
                Err(failure(after, Expected::CommaOrCloseParen))
            },
        }
    }
}

/// The fields of a struct that is built, from `p` up to the closing
/// brace, which is found at the position returned, added to `earlier`.
pub open spec fn construct_fields_from(
    toks: Seq<Tok>,
    table: Seq<Seq<char>>,
    p: int,
    earlier: Seq<ConstructField>,
) -> Result<(Seq<ConstructField>, int), Failure>
    decreases toks.len() - p,
{
    if token_at(toks, p, Token::CloseCurly) {
        Ok((earlier, p))
    } else {
        match name_at(toks, p) {
            Err(f) => Err(f),
            Ok((name, after)) => if sigil_at(toks, table, after, ","@) {
                construct_fields_from(
                    toks,
                    table,
                    after + 1,
                    earlier.push(ConstructField::Shorthand(name)),
                )
            } else if token_at(toks, after, Token::CloseCurly) {
                Ok((earlier.push(ConstructField::Shorthand(name)), after))
            } else {
                Err(failure(after, Expected::CommaOrCloseCurly))
            },
        }
    }
}

/// The declaration or expression at `p`.
pub open spec fn block_item_at(toks: Seq<Tok>, table: Seq<Seq<char>>, p: int) -> Result<
    (BlockItemTerm, int),
    Failure,
> {
    if word_at(toks, table, p, "let"@) {
        match name_at(toks, p + 1) {
            Err(f) => Err(f),
            Ok((name, _)) => {
                let pattern = Spanned { node: Pattern::Identifier(name, None), span: name.span };
                let typed = if sigil_at(toks, table, p + 2, ":"@) {
                    match type_at(toks, table, p + 3) {
                        Err(f) => Err(f),
                        Ok((ty, after)) => Ok((Some(ty), after)),
                    }
                } else {
                    Ok((None, p + 2))
                };
                match typed {
                    Err(f) => Err(f),
                    Ok((ty, after)) => if sigil_at(toks, table, after, "="@) {
                        match expression_at(toks, table, after + 1) {
                            Err(f) => Err(f),
                            Ok((init, end)) => Ok(
                                (BlockItemTerm::Decl { pattern, ty, init: Some(init) }, end),
                            ),
                        }
                    } else {
                        Ok((BlockItemTerm::Decl { pattern, ty, init: None }, after))
                    },
                }
            },
        }
    } else {
        match expression_at(toks, table, p) {
            Err(f) => Err(f),
            Ok((e, after)) => Ok((BlockItemTerm::Expr(e), after)),
        }
    }
}

/// The items of a block from `p` up to the closing brace, which is found
/// at the position returned, added to `earlier`.
pub open spec fn block_items_from(
    toks: Seq<Tok>,
    table: Seq<Seq<char>>,
    p: int,
    earlier: Seq<BlockItemTerm>,
) -> Result<(Seq<BlockItemTerm>, int), Failure>
    decreases toks.len() - p,
{
    if token_at(toks, p, Token::CloseCurly) {
        Ok((earlier, p))
    } else {
        match block_item_at(toks, table, p) {
            Err(f) => Err(f),
            Ok((item, after)) => if p < after <= toks.len() {
                block_items_from(toks, table, after, earlier.push(item))
            } else {
                Err(failure(after, Expected::Expression))
            },
        }
    }
}

/// The function whose keyword is at `p`.
pub open spec fn def_at(toks: Seq<Tok>, table: Seq<Seq<char>>, p: int) -> Result<
    (ItemTerm, int),
    Failure,
> {
    match name_at(toks, p + 1) {
        Err(f) => Err(f),
        Ok((name, _)) => if !token_at(toks, p + 2, Token::OpenParen) {
            Err(failure(p + 2, Expected::OpenParen))
        } else {
            match fields_from(toks, table, p + 3, Token::CloseParen, Seq::empty()) {
                Err(f) => Err(f),
                Ok((parameters, close)) => {
                    let result = if sigil_at(toks, table, close + 1, "-"@) && sigil_at(
                        toks,
                        table,
                        close + 2,
                        ">"@,
                    ) {
                        match type_at(toks, table, close + 3) {
                            Err(f) => Err(f),
                            Ok((ty, after)) => Ok((Some(ty), after)),
                        }
                    } else {
                        Ok((None, close + 1))
                    };
                    match result {
                        Err(f) => Err(f),
                        Ok((ret, open)) => if !token_at(toks, open, Token::OpenCurly) {
                            Err(failure(open, Expected::OpenCurly))
                        } else {
                            match block_items_from(toks, table, open + 1, Seq::empty()) {
                                Err(f) => Err(f),
                                Ok((body, end)) => Ok(
                                    (
                                        ItemTerm::Def {
                                            name,
                                            parameters,
                                            ret,
                                            body,
                                            body_span: span_over(toks, open, end),
                                            span: span_over(toks, p, end),
                                        },
                                        end + 1,
                                    ),
                                ),
                            }
                        },
                    }
                },
            }
        },
    }
}

/// The items of a module from `p` to the end of the tokens, added to
/// `earlier`.
pub open spec fn items_from(
    toks: Seq<Tok>,
    table: Seq<Seq<char>>,
    p: int,
    earlier: Seq<ItemTerm>,
) -> Result<Seq<ItemTerm>, Failure>
    decreases toks.len() - p,
{
    if p >= toks.len() {
        Ok(earlier)
    } else {
        match item_at(toks, table, p) {
            Err(f) => Err(f),
            Ok((item, after)) => if p < after <= toks.len() {
                items_from(toks, table, after, earlier.push(item))
            } else {
                Err(failure(after, Expected::Item))
            },
        }
    }
}

/// The module that `toks` are, given the strings of `table`.
pub open spec fn module_of(toks: Seq<Tok>, table: Seq<Seq<char>>) -> Result<Seq<ItemTerm>, Failure> {
    items_from(toks, table, 0, Seq::empty())
}

impl ItemTerm {
    /// The stretch of source that the item was read from.
    pub open spec fn span(self) -> Span {
        match self {
            ItemTerm::Struct { span, .. } => span,
            ItemTerm::Def { span, .. } => span,
        }
    }
}

/// The item whose keyword is at `p`.
pub open spec fn item_at(toks: Seq<Tok>, table: Seq<Seq<char>>, p: int) -> Result<
    (ItemTerm, int),
    Failure,
> {
    if word_at(toks, table, p, "struct"@) {
        struct_at(toks, table, p)
    } else if word_at(toks, table, p, "def"@) {
        def_at(toks, table, p)
    } else {
        Err(failure(p, Expected::Item))
    }
}

/// The positions at which the items of a module start, from the item at
/// `p` on, followed by the number of tokens.
pub open spec fn starts_from(toks: Seq<Tok>, table: Seq<Seq<char>>, p: int) -> Seq<int>
    decreases toks.len() - p,
{
    if p >= toks.len() {
        seq![p]
    } else {
        match item_at(toks, table, p) {
            Ok((_, after)) if p < after <= toks.len() => seq![p] + starts_from(toks, table, after),
            _ => seq![p],
        }
    }
}

/// Whether the items `items` cover the tokens `toks` one after the other,
/// the `k`-th item from the token at `starts[k]` up to the token before
/// `starts[k + 1]`: the first item starts with the first token, and the
/// last one ends with the last token.
pub open spec fn covers(toks: Seq<Tok>, items: Seq<ItemTerm>, starts: Seq<int>) -> bool {
    &&& starts.len() == items.len() + 1
    &&& starts[0] == 0
    &&& starts[items.len() as int] == toks.len()
    &&& forall|k: int|
        0 <= k < items.len() ==> starts[k] < starts[k + 1] && (#[trigger] items[k]).span()
            == span_over(toks, starts[k], starts[k + 1] - 1)
}

proof fn lemma_fields_close(
    toks: Seq<Tok>,
    table: Seq<Seq<char>>,
    p: int,
    close: Token,
    earlier: Seq<Field>,
)
    requires
        fields_from(toks, table, p, close, earlier) is Ok,
    ensures
        p <= fields_from(toks, table, p, close, earlier)->Ok_0.1 < toks.len(),
    decreases toks.len() - p,
{
    if !token_at(toks, p, close) {
        let (field, after) = field_at(toks, table, p)->Ok_0;
        if sigil_at(toks, table, after, ","@) && after >= p {
            lemma_fields_close(toks, table, after + 1, close, earlier.push(field));
        } else {
            assert(name_at(toks, p) is Ok);
            assert(type_at(toks, table, p + 2) is Ok);
        }
    }
}

proof fn lemma_block_close(
    toks: Seq<Tok>,
    table: Seq<Seq<char>>,
    p: int,
    earlier: Seq<BlockItemTerm>,
)
    requires
        block_items_from(toks, table, p, earlier) is Ok,
    ensures
        p <= block_items_from(toks, table, p, earlier)->Ok_0.1 < toks.len(),
    decreases toks.len() - p,
{
    if !token_at(toks, p, Token::CloseCurly) {
        let (item, after) = block_item_at(toks, table, p)->Ok_0;
        lemma_block_close(toks, table, after, earlier.push(item));
    }
}

/// The items of a module cover its tokens: every token that the parser
/// looks at belongs to exactly one item, and the items stand in the order
/// of their tokens.
pub proof fn lemma_items_cover(toks: Seq<Tok>, table: Seq<Seq<char>>)
    requires
        module_of(toks, table) is Ok,
    ensures
        covers(toks, module_of(toks, table)->Ok_0, starts_from(toks, table, 0)),
{
    lemma_items_cover_from(toks, table, 0, Seq::empty());
    let items = module_of(toks, table)->Ok_0;
    let starts = starts_from(toks, table, 0);
    assert forall|k: int| 0 <= k < items.len() implies starts[k] < starts[k + 1] && (
    #[trigger] items[k]).span() == span_over(toks, starts[k], starts[k + 1] - 1) by {
        assert(items[Seq::<ItemTerm>::empty().len() + k] == items[k]);
    }
}

proof fn lemma_items_cover_from(
    toks: Seq<Tok>,
    table: Seq<Seq<char>>,
    p: int,
    earlier: Seq<ItemTerm>,
)
    requires
        0 <= p <= toks.len(),
        items_from(toks, table, p, earlier) is Ok,
    ensures
        ({
            let items = items_from(toks, table, p, earlier)->Ok_0;
            let starts = starts_from(toks, table, p);
            &&& items.len() + 1 == earlier.len() + starts.len()
            &&& forall|i: int| 0 <= i < earlier.len() ==> items[i] == earlier[i]
            &&& starts[0] == p
            &&& starts[starts.len() - 1] == toks.len()
            &&& forall|j: int|
                0 <= j < starts.len() - 1 ==> starts[j] < starts[j + 1] && (
                #[trigger] items[earlier.len() + j]).span() == span_over(
                    toks,
                    starts[j],
                    starts[j + 1] - 1,
                )
        }),
    decreases toks.len() - p,
{
    let items = items_from(toks, table, p, earlier)->Ok_0;
    let starts = starts_from(toks, table, p);
    if p < toks.len() {
        let (item, after) = item_at(toks, table, p)->Ok_0;
        lemma_items_cover_from(toks, table, after, earlier.push(item));
        let rest = starts_from(toks, table, after);
        assert(starts =~= seq![p] + rest);
        assert forall|i: int| 0 <= i < earlier.len() implies items[i] == earlier[i] by {
            assert(earlier.push(item)[i] == earlier[i]);
        }
        if word_at(toks, table, p, "struct"@) {
            lemma_fields_close(toks, table, p + 3, Token::CloseCurly, Seq::empty());
        } else {
            lemma_fields_close(toks, table, p + 3, Token::CloseParen, Seq::empty());
            let close = fields_from(toks, table, p + 3, Token::CloseParen, Seq::empty())->Ok_0.1;
            let open = after_arrow(toks, table, close);
            lemma_block_close(toks, table, open + 1, Seq::empty());
        }
        assert(item.span() == span_over(toks, p, after - 1));
        assert(items[earlier.len() as int] == earlier.push(item)[earlier.len() as int]);
        assert forall|j: int| 0 <= j < starts.len() - 1 implies starts[j] < starts[j + 1] && (
        #[trigger] items[earlier.len() + j]).span() == span_over(
            toks,
            starts[j],
            starts[j + 1] - 1,
        ) by {
            if j > 0 {
                assert(starts[j] == rest[j - 1]);
                assert(starts[j + 1] == rest[j]);
                assert(items[earlier.push(item).len() + (j - 1)] == items[earlier.len() + j]);
            } else {
                assert(starts[1] == rest[0]);
            }
        }
    }
}

/// The position of the opening brace of a function whose parameters end
/// at `close`, where the tokens are a function.
pub open spec fn after_arrow(toks: Seq<Tok>, table: Seq<Seq<char>>, close: int) -> int {
    if sigil_at(toks, table, close + 1, "-"@) && sigil_at(toks, table, close + 2, ">"@) {
        type_at(toks, table, close + 3)->Ok_0.1
    } else {
        close + 1
    }
}

} // verus!
