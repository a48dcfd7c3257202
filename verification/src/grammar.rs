//! The abstract syntax tree of a program, and the mathematical view of each
//! node that the contracts of the crate speak of.
//!
//! Every node that carries text borrows it from the source it was read from,
//! so a literal keeps the exact characters that the programmer wrote. The view
//! of a node replaces each borrowed string by its sequence of characters and
//! the linked statement list by a plain sequence.

use vstd::prelude::*;

verus! {

/// A whole program: the body of its `main` function.
#[derive(Debug, PartialEq)]
pub struct Program<'a>(pub Statements<'a>);

/// The statements of a body, in source order, as a singly linked list.
#[derive(Debug, PartialEq)]
pub enum Statements<'a> {
    /// The end of the list.
    Empty,
    Statement { current: Statement<'a>, next: Box<Statements<'a>> },
}

#[derive(Debug, PartialEq)]
pub enum Statement<'a> {
    Decl(Declaration<'a>),
    Simp(SimpleInstruction<'a>),
    Return(Expression<'a>),
}

/// `int x` or `int x = e`.
#[derive(Debug, PartialEq)]
pub enum Declaration<'a> {
    Ident(Identifier<'a>),
    IdentExp { ident: Identifier<'a>, exp: Expression<'a> },
}

/// An assignment `lvalue asnop exp`.
#[derive(Debug, PartialEq)]
pub struct SimpleInstruction<'a> {
    pub lvalue: LValue<'a>,
    pub asnop: AsNop,
    pub exp: Expression<'a>,
}

/// An assignable place: an identifier inside any number of parentheses.
#[derive(Debug, PartialEq)]
pub enum LValue<'a> {
    Ident(Identifier<'a>),
    LValue(Box<LValue<'a>>),
}

#[derive(Debug, PartialEq)]
pub enum Expression<'a> {
    /// An expression in parentheses.
    NestedExp(Box<Expression<'a>>),
    Intconst(Intconst<'a>),
    Ident(Identifier<'a>),
    Binop { left: Box<Expression<'a>>, op: BinOperation, right: Box<Expression<'a>> },
    Unop { op: UnOperation, right: Box<Expression<'a>> },
}

#[derive(Debug, Clone, Copy, PartialEq)]
pub enum Intconst<'a> {
    Decnum(Decnum<'a>),
    Hexnum(Hexnum<'a>),
}

#[derive(Debug, Clone, Copy, PartialEq, Eq)]
pub enum UnOperation {
    Minus,
}

#[derive(Debug, Clone, Copy, PartialEq, Eq)]
pub enum AsNop {
    Equal,
    PlusEqual,
    MinusEqual,
    MultEqual,
    DivEqual,
    ModEqual,
}

#[derive(Debug, Clone, Copy, PartialEq, Eq)]
pub enum BinOperation {
    Plus,
    Minus,
    Multiplication,
    Division,
    Mod,
}

/// A name, as written.
#[derive(Debug, Clone, Copy, PartialEq)]
pub struct Identifier<'a>(pub &'a str);

/// A decimal literal, as written.
#[derive(Debug, Clone, Copy, PartialEq)]
pub struct Decnum<'a>(pub &'a str);

/// A hexadecimal literal, as written.
#[derive(Debug, Clone, Copy, PartialEq)]
pub struct Hexnum<'a>(pub &'a str);

/// The view of an [`Intconst`]: the characters of the literal.
pub enum IntconstView {
    Decnum(Seq<char>),
    Hexnum(Seq<char>),
}

/// The view of an [`Expression`].
pub enum ExpressionView {
    NestedExp(Box<ExpressionView>),
    Intconst(IntconstView),
    Ident(Seq<char>),
    Binop { left: Box<ExpressionView>, op: BinOperation, right: Box<ExpressionView> },
    Unop { op: UnOperation, right: Box<ExpressionView> },
}

/// The view of an [`LValue`].
pub enum LValueView {
    Ident(Seq<char>),
    LValue(Box<LValueView>),
}

/// The view of a [`Declaration`].
pub enum DeclarationView {
    Ident(Seq<char>),
    IdentExp { ident: Seq<char>, exp: ExpressionView },
}

/// The view of a [`SimpleInstruction`].
pub struct SimpleInstructionView {
    pub lvalue: LValueView,
    pub asnop: AsNop,
    pub exp: ExpressionView,
}

/// The view of a [`Statement`].
pub enum StatementView {
    Decl(DeclarationView),
    Simp(SimpleInstructionView),
    Return(ExpressionView),
}

impl View for UnOperation {
    type V = UnOperation;

    open spec fn view(&self) -> UnOperation {
        *self
    }
}

impl View for AsNop {
    type V = AsNop;

    open spec fn view(&self) -> AsNop {
        *self
    }
}

impl View for BinOperation {
    type V = BinOperation;

    open spec fn view(&self) -> BinOperation {
        *self
    }
}

impl<'a> View for Identifier<'a> {
    type V = Seq<char>;

    open spec fn view(&self) -> Seq<char> {
        self.0@
    }
}

impl<'a> View for Decnum<'a> {
    type V = Seq<char>;

    open spec fn view(&self) -> Seq<char> {
        self.0@
    }
}

impl<'a> View for Hexnum<'a> {
    type V = Seq<char>;

    open spec fn view(&self) -> Seq<char> {
        self.0@
    }
}

impl<'a> View for Intconst<'a> {
    type V = IntconstView;

    open spec fn view(&self) -> IntconstView {
        match *self {
            Intconst::Decnum(d) => IntconstView::Decnum(d@),
            Intconst::Hexnum(h) => IntconstView::Hexnum(h@),
        }
    }
}

impl<'a> View for Expression<'a> {
    type V = ExpressionView;

    open spec fn view(&self) -> ExpressionView
        decreases *self,
    {
        match *self {
            Expression::NestedExp(e) => ExpressionView::NestedExp(Box::new((*e).view())),
            Expression::Intconst(i) => ExpressionView::Intconst(i@),
            Expression::Ident(i) => ExpressionView::Ident(i@),
            Expression::Binop { left, op, right } => ExpressionView::Binop {
                left: Box::new((*left).view()),
                op,
                right: Box::new((*right).view()),
            },
            Expression::Unop { op, right } => ExpressionView::Unop {
                op,
                right: Box::new((*right).view()),
            },
        }
    }
}

impl<'a> View for LValue<'a> {
    type V = LValueView;

    open spec fn view(&self) -> LValueView
        decreases *self,
    {
        match *self {
            LValue::Ident(i) => LValueView::Ident(i@),
            LValue::LValue(l) => LValueView::LValue(Box::new((*l).view())),
        }
    }
}

impl<'a> View for Declaration<'a> {
    type V = DeclarationView;

    open spec fn view(&self) -> DeclarationView {
        match *self {
            Declaration::Ident(i) => DeclarationView::Ident(i@),
            Declaration::IdentExp { ident, exp } => DeclarationView::IdentExp {
                ident: ident@,
                exp: exp@,
            },
        }
    }
}

impl<'a> View for SimpleInstruction<'a> {
    type V = SimpleInstructionView;

    open spec fn view(&self) -> SimpleInstructionView {
        SimpleInstructionView { lvalue: self.lvalue@, asnop: self.asnop, exp: self.exp@ }
    }
}

impl<'a> View for Statement<'a> {
    type V = StatementView;

    open spec fn view(&self) -> StatementView {
        match *self {
            Statement::Decl(d) => StatementView::Decl(d@),
            Statement::Simp(s) => StatementView::Simp(s@),
            Statement::Return(e) => StatementView::Return(e@),
        }
    }
}

impl<'a> View for Statements<'a> {
    type V = Seq<StatementView>;

    /// The statements from first to last.
    open spec fn view(&self) -> Seq<StatementView>
        decreases *self,
    {
        match *self {
            Statements::Empty => Seq::empty(),
            Statements::Statement { current, next } => seq![current@] + (*next).view(),
        }
    }
}

/// The view of a list, one step unfolded.
pub proof fn lemma_statements_view(list: Statements)
    ensures
        list@ == (match list {
            Statements::Empty => Seq::empty(),
            Statements::Statement { current, next } => seq![current@] + next@,
        }),
        list is Empty <==> list@.len() == 0,
{
    if let Statements::Statement { current, next } = list {
        assert((seq![current@] + next@).len() == 1 + next@.len());
    }
}

impl<'a> View for Program<'a> {
    type V = Seq<StatementView>;

    /// The statements of the body of `main`, from first to last.
    open spec fn view(&self) -> Seq<StatementView> {
        self.0@
    }
}

impl<'a> Clone for Expression<'a> {
    fn clone(&self) -> (res: Self)
        ensures
            res == *self,
        decreases *self,
    {
        match self {
            Expression::NestedExp(e) => Expression::NestedExp(Box::new((&**e).clone())),
            Expression::Intconst(i) => Expression::Intconst(*i),
            Expression::Ident(i) => Expression::Ident(*i),
            Expression::Binop { left, op, right } => Expression::Binop {
                left: Box::new((&**left).clone()),
                op: *op,
                right: Box::new((&**right).clone()),
            },
            Expression::Unop { op, right } => Expression::Unop {
                op: *op,
                right: Box::new((&**right).clone()),
            },
        }
    }
}

impl<'a> Clone for LValue<'a> {
    fn clone(&self) -> (res: Self)
        ensures
            res == *self,
        decreases *self,
    {
        match self {
            LValue::Ident(i) => LValue::Ident(*i),
            LValue::LValue(l) => LValue::LValue(Box::new((&**l).clone())),
        }
    }
}

impl<'a> Clone for Declaration<'a> {
    fn clone(&self) -> (res: Self)
        ensures
            res == *self,
    {
        match self {
            Declaration::Ident(i) => Declaration::Ident(*i),
            Declaration::IdentExp { ident, exp } => Declaration::IdentExp {
                ident: *ident,
                exp: exp.clone(),
            },
        }
    }
}

impl<'a> Clone for SimpleInstruction<'a> {
    fn clone(&self) -> (res: Self)
        ensures
            res == *self,
    {
        SimpleInstruction { lvalue: self.lvalue.clone(), asnop: self.asnop, exp: self.exp.clone() }
    }
}

impl<'a> Clone for Statement<'a> {
    fn clone(&self) -> (res: Self)
        ensures
            res == *self,
    {
        match self {
            Statement::Decl(d) => Statement::Decl(d.clone()),
            Statement::Simp(s) => Statement::Simp(s.clone()),
            Statement::Return(e) => Statement::Return(e.clone()),
        }
    }
}

impl<'a> Clone for Statements<'a> {
    fn clone(&self) -> (res: Self)
        ensures
            res == *self,
        decreases *self,
    {
        match self {
            Statements::Empty => Statements::Empty,
            Statements::Statement { current, next } => Statements::Statement {
                current: current.clone(),
                next: Box::new((&**next).clone()),
            },
        }
    }
}

impl<'a> Clone for Program<'a> {
    fn clone(&self) -> (res: Self)
        ensures
            res == *self,
    {
        Program(self.0.clone())
    }
}

} // verus!
