//! The syntax tree that the parser builds.

use crate::pos::{Span, Spanned};
use crate::program::StringId;
use vstd::prelude::*;

verus! {

/// How a value is held or passed.
#[derive(Copy, Clone, Debug, PartialEq, Eq, Structural)]
pub enum Mode {
    Owned,
    Shared,
    Borrowed,
}

/// An operator between two expressions.
#[derive(Copy, Clone, Debug, PartialEq, Eq, Structural)]
pub enum Op {
    Add,
}

/// A type as written: a name, with a mode in front of it or without.
#[derive(Copy, Clone, Debug, PartialEq, Eq, Structural)]
pub struct Type {
    pub mode: Option<Spanned<Mode>>,
    pub name: Spanned<StringId>,
}

impl Type {
    pub fn new(mode: Option<Spanned<Mode>>, name: Spanned<StringId>) -> (r: Type)
        ensures
            r == (Type { mode, name }),
    {
        Type { mode, name }
    }
}

/// A name with its type: a field of a struct, or a parameter.
#[derive(Copy, Clone, Debug, PartialEq, Eq, Structural)]
pub struct Field {
    pub name: Spanned<StringId>,
    pub ty: Spanned<Type>,
    pub span: Span,
}

impl Field {
    pub fn new(name: Spanned<StringId>, ty: Spanned<Type>, span: Span) -> (r: Field)
        ensures
            r == (Field { name, ty, span }),
    {
        Field { name, ty, span }
    }
}

/// What a declaration binds.
#[derive(Copy, Clone, Debug, PartialEq, Eq, Structural)]
pub enum Pattern {
    Underscore,
    Identifier(Spanned<StringId>, Option<Spanned<Mode>>),
}

/// A value written out in the source.
#[derive(Copy, Clone, Debug, PartialEq, Eq, Structural)]
pub enum Literal {
    String(Spanned<StringId>),
}

/// A field of a struct that is being built.
#[derive(Copy, Clone, Debug, PartialEq, Eq, Structural)]
pub enum ConstructField {
    /// The field gets the value of the variable of the same name.
    Shorthand(Spanned<StringId>),
}

/// The construction of a struct: its name and its fields.
#[derive(Clone, Debug, PartialEq, Eq)]
pub struct ConstructStruct {
    pub name: Spanned<StringId>,
    pub fields: Vec<ConstructField>,
    pub span: Span,
}

impl ConstructStruct {
    pub fn new(name: Spanned<StringId>, fields: Vec<ConstructField>, span: Span) -> (r:
        ConstructStruct)
        ensures
            r.name == name,
            r.fields == fields,
            r.span == span,
    {
        ConstructStruct { name, fields, span }
    }
}

/// A call: the function called and its arguments.
#[derive(Debug, PartialEq, Eq)]
pub struct Call {
    pub callee: Spanned<StringId>,
    pub arguments: Vec<Expression>,
    pub span: Span,
}

/// An expression.
#[derive(Debug, PartialEq, Eq)]
pub enum Expression {
    ConstructStruct(ConstructStruct),
    Call(Call),
    Ref(Spanned<StringId>),
    Binary(Spanned<Op>, Box<Expression>, Box<Expression>),
    Literal(Literal),
}

impl Expression {
    /// The sum of `left` and `right`.
    pub fn binary(op: Spanned<Op>, left: Expression, right: Expression) -> (r: Expression)
        ensures
            r == Expression::Binary(op, Box::new(left), Box::new(right)),
    {
        Expression::Binary(op, Box::new(left), Box::new(right))
    }

    /// The call of `callee` with `arguments`.
    pub fn call(callee: Spanned<StringId>, arguments: Vec<Expression>, span: Span) -> (r:
        Expression)
        ensures
            r == Expression::Call(Call { callee, arguments, span }),
    {
        Expression::Call(Call { callee, arguments, span })
    }
}

/// `let pattern: ty = init`, where the type and the value may be left
/// out.
#[derive(Debug, PartialEq, Eq)]
pub struct Declaration {
    pub pattern: Spanned<Pattern>,
    pub ty: Option<Spanned<Type>>,
    pub init: Option<Expression>,
}

/// What a block is made of: declarations and expressions.
#[derive(Debug, PartialEq, Eq)]
pub enum BlockItem {
    Decl(Declaration),
    Expr(Expression),
}

impl BlockItem {
    /// The declaration `let pattern: ty = init`.
    pub fn let_decl(
        pattern: Spanned<Pattern>,
        ty: Option<Spanned<Type>>,
        init: Option<Expression>,
    ) -> (r: BlockItem)
        ensures
            r == BlockItem::Decl(Declaration { pattern, ty, init }),
    {
        BlockItem::Decl(Declaration { pattern, ty, init })
    }
}

/// A block: its items in order.
#[derive(Debug, PartialEq, Eq)]
pub struct Block {
    pub expressions: Vec<BlockItem>,
}

impl Block {
    /// The block of `expressions`, read from `span`.
    pub fn spanned(expressions: Vec<BlockItem>, span: Span) -> (r: Spanned<Block>)
        ensures
            r.node.expressions == expressions,
            r.span == span,
    {
        Spanned { node: Block { expressions }, span }
    }
}

/// The definition of a struct.
#[derive(Clone, Debug, PartialEq, Eq)]
pub struct Struct {
    pub name: Spanned<StringId>,
    pub fields: Vec<Field>,
    pub span: Span,
}

impl Struct {
    pub fn new(name: Spanned<StringId>, fields: Vec<Field>, span: Span) -> (r: Struct)
        ensures
            r.name == name,
            r.fields == fields,
            r.span == span,
    {
        Struct { name, fields, span }
    }
}

/// The definition of a function.
#[derive(Debug, PartialEq, Eq)]
pub struct Def {
    pub name: Spanned<StringId>,
    pub parameters: Vec<Field>,
    pub ret: Option<Spanned<Type>>,
    pub body: Spanned<Block>,
    pub span: Span,
}

impl Def {
    pub fn new(
        name: Spanned<StringId>,
        parameters: Vec<Field>,
        ret: Option<Spanned<Type>>,
        body: Spanned<Block>,
        span: Span,
    ) -> (r: Def)
        ensures
            r.name == name,
            r.parameters == parameters,
            r.ret == ret,
            r.body == body,
            r.span == span,
    {
        Def { name, parameters, ret, body, span }
    }
}

/// What a module is made of: structs and functions.
#[derive(Debug, PartialEq, Eq)]
pub enum Item {
    Struct(Struct),
    Def(Def),
}

/// A module: its items in order.
#[derive(Debug, PartialEq, Eq)]
pub struct Module {
    pub items: Vec<Item>,
}

impl Module {
    pub fn new(items: Vec<Item>) -> (r: Module)
        ensures
            r.items == items,
    {
        Module { items }
    }
}

/// An expression written out: the value that a syntax tree stands for.
pub enum ExpressionTerm {
    ConstructStruct { name: Spanned<StringId>, fields: Seq<ConstructField>, span: Span },
    Call { callee: Spanned<StringId>, arguments: Seq<ExpressionTerm>, span: Span },
    Ref(Spanned<StringId>),
    Binary(Spanned<Op>, Box<ExpressionTerm>, Box<ExpressionTerm>),
    Literal(Literal),
}

/// An item of a block, its expressions written out.
pub enum BlockItemTerm {
    Decl { pattern: Spanned<Pattern>, ty: Option<Spanned<Type>>, init: Option<ExpressionTerm> },
    Expr(ExpressionTerm),
}

/// An item of a module, its lists and expressions written out.
pub enum ItemTerm {
    Struct { name: Spanned<StringId>, fields: Seq<Field>, span: Span },
    Def {
        name: Spanned<StringId>,
        parameters: Seq<Field>,
        ret: Option<Spanned<Type>>,
        body: Seq<BlockItemTerm>,
        body_span: Span,
        span: Span,
    },
}

impl Expression {
    /// The expression written out.
    pub open spec fn term(self) -> ExpressionTerm
        decreases self,
    {
        match self {
            Expression::ConstructStruct(c) => ExpressionTerm::ConstructStruct {
                name: c.name,
                fields: c.fields@,
                span: c.span,
            },
            Expression::Call(c) => ExpressionTerm::Call {
                callee: c.callee,
                arguments: Seq::new(
                    c.arguments@.len(),
                    |i: int|
                        if 0 <= i < c.arguments@.len() {
                            c.arguments@[i].term()
                        } else {
                            ExpressionTerm::Ref(c.callee)
                        },
                ),
                span: c.span,
            },
            Expression::Ref(name) => ExpressionTerm::Ref(name),
            Expression::Binary(op, left, right) => ExpressionTerm::Binary(
                op,
                Box::new(left.term()),
                Box::new(right.term()),
            ),
            Expression::Literal(literal) => ExpressionTerm::Literal(literal),
        }
    }
}

impl BlockItem {
    pub open spec fn term(self) -> BlockItemTerm {
        match self {
            BlockItem::Decl(d) => BlockItemTerm::Decl {
                pattern: d.pattern,
                ty: d.ty,
                init: match d.init {
                    Some(e) => Some(e.term()),
                    None => None,
                },
            },
            BlockItem::Expr(e) => BlockItemTerm::Expr(e.term()),
        }
    }
}

impl Item {
    pub open spec fn term(self) -> ItemTerm {
        match self {
            Item::Struct(s) => ItemTerm::Struct { name: s.name, fields: s.fields@, span: s.span },
            Item::Def(d) => ItemTerm::Def {
                name: d.name,
                parameters: d.parameters@,
                ret: d.ret,
                body: Seq::new(
                    d.body.node.expressions@.len(),
                    |i: int| d.body.node.expressions@[i].term(),
                ),
                body_span: d.body.span,
                span: d.span,
            },
        }
    }
}

impl View for Module {
    type V = Seq<ItemTerm>;

    open spec fn view(&self) -> Seq<ItemTerm> {
        Seq::new(self.items@.len(), |i: int| self.items@[i].term())
    }
}

} // verus!
