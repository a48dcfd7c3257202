//! Declaration, initialisation and use of variables.
//!
//! The body of `main` is one flat scope. Going through its statements in
//! order, a name has to be declared before it is assigned to and given a
//! value before it is read; no name is declared twice. A violation ends the
//! pass at once.

use vstd::prelude::*;
use vstd::string::StringExecFns;
use crate::grammar::{
    lemma_statements_view,
    Declaration,
    DeclarationView,
    Expression,
    ExpressionView,
    LValue,
    LValueView,
    Program,
    SimpleInstruction,
    SimpleInstructionView,
    Statement,
    StatementView,
    Statements,
};
use crate::source::same_text;

verus! {

/// The names that are declared and the names that have a value, at one
/// point of the body.
pub struct Scope {
    pub declared: Set<Seq<char>>,
    pub initialised: Set<Seq<char>>,
}

impl Scope {
    /// The scope in front of the first statement.
    pub open spec fn empty() -> Scope {
        Scope { declared: Set::empty(), initialised: Set::empty() }
    }
}

/// Whether every name that `e` reads is in `initialised`.
pub open spec fn reads_only(e: ExpressionView, initialised: Set<Seq<char>>) -> bool
    decreases e,
{
    match e {
        ExpressionView::NestedExp(inner) => reads_only(*inner, initialised),
        ExpressionView::Intconst(_) => true,
        ExpressionView::Ident(name) => initialised.contains(name),
        ExpressionView::Binop { left, op, right } => reads_only(*left, initialised) && reads_only(
            *right,
            initialised,
        ),
        ExpressionView::Unop { op, right } => reads_only(*right, initialised),
    }
}

/// The name that `l` assigns to: the identifier inside its parentheses.
pub open spec fn target(l: LValueView) -> Seq<char>
    decreases l,
{
    match l {
        LValueView::Ident(name) => name,
        LValueView::LValue(inner) => target(*inner),
    }
}

/// The scope behind the declaration `d`, or `None` where `d` breaks a rule:
/// the name is declared already, or the initialising expression reads a name
/// without a value (the declared name itself has none yet).
pub open spec fn after_declaration(d: DeclarationView, scope: Scope) -> Option<Scope> {
    match d {
        DeclarationView::Ident(name) => if scope.declared.contains(name) {
            None
        } else {
            Some(Scope { declared: scope.declared.insert(name), initialised: scope.initialised })
        },
        DeclarationView::IdentExp { ident, exp } => if scope.declared.contains(ident)
            || !reads_only(exp, scope.initialised) {
            None
        } else {
            Some(
                Scope {
                    declared: scope.declared.insert(ident),
                    initialised: scope.initialised.insert(ident),
                },
            )
        },
    }
}

/// The scope behind the assignment `simp`, or `None` where it breaks a
/// rule: its target is not declared, or its right-hand side reads a name
/// without a value. Behind it the target has a value.
pub open spec fn after_assignment(simp: SimpleInstructionView, scope: Scope) -> Option<Scope> {
    if scope.declared.contains(target(simp.lvalue)) && reads_only(simp.exp, scope.initialised) {
        Some(
            Scope {
                declared: scope.declared,
                initialised: scope.initialised.insert(target(simp.lvalue)),
            },
        )
    } else {
        None
    }
}

/// The scope behind the statement `st`, or `None` where `st` breaks a rule.
pub open spec fn after_statement(st: StatementView, scope: Scope) -> Option<Scope> {
    match st {
        StatementView::Decl(d) => after_declaration(d, scope),
        StatementView::Simp(simp) => after_assignment(simp, scope),
        StatementView::Return(exp) => if reads_only(exp, scope.initialised) {
            Some(scope)
        } else {
            None
        },
    }
}

/// The scope behind the statements `sts`, taken in order, or `None` where
/// one of them breaks a rule.
pub open spec fn after_statements(sts: Seq<StatementView>, scope: Scope) -> Option<Scope>
    decreases sts.len(),
{
    if sts.len() == 0 {
        Some(scope)
    } else {
        match after_statement(sts[0], scope) {
            Some(next) => after_statements(sts.drop_first(), next),
            None => None,
        }
    }
}

/// Whether the body `p` keeps the rules from its first statement to its
/// last.
pub open spec fn accepts(p: Seq<StatementView>) -> bool {
    after_statements(p, Scope::empty()) is Some
}

/// How a statement breaks the rules of this pass, with the name that it
/// is about.
#[derive(Debug, Clone, Copy, PartialEq, Eq)]
pub enum ScopeError<'src> {
    /// The name is declared a second time.
    Redeclaration(&'src str),
    /// The name is read or assigned to, and no declaration stands in front.
    UseBeforeDeclare(&'src str),
    /// The name is read, and is declared but has no value yet.
    UseBeforeInitialize(&'src str),
}

/// The view of a [`ScopeError`].
pub enum ScopeErrorView {
    Redeclaration(Seq<char>),
    UseBeforeDeclare(Seq<char>),
    UseBeforeInitialize(Seq<char>),
}

impl<'src> View for ScopeError<'src> {
    type V = ScopeErrorView;

    open spec fn view(&self) -> ScopeErrorView {
        match *self {
            ScopeError::Redeclaration(name) => ScopeErrorView::Redeclaration(name@),
            ScopeError::UseBeforeDeclare(name) => ScopeErrorView::UseBeforeDeclare(name@),
            ScopeError::UseBeforeInitialize(name) => ScopeErrorView::UseBeforeInitialize(name@),
        }
    }
}

impl ScopeErrorView {
    /// The error in words.
    pub open spec fn describe(self) -> Seq<char> {
        match self {
            ScopeErrorView::Redeclaration(name) => "`"@ + name + "` is declared twice"@,
            ScopeErrorView::UseBeforeDeclare(name) => "`"@ + name
                + "` is used before it is declared"@,
            ScopeErrorView::UseBeforeInitialize(name) => "`"@ + name
                + "` is read before it has a value"@,
        }
    }
}

impl<'src> ScopeError<'src> {
    /// The error in words.
    pub fn message(&self) -> (r: String)
        ensures
            r@ == self@.describe(),
    {
        match self {
            ScopeError::Redeclaration(name) => String::from_str("`").concat(name).concat(
                "` is declared twice",
            ),
            ScopeError::UseBeforeDeclare(name) => String::from_str("`").concat(name).concat(
                "` is used before it is declared",
            ),
            ScopeError::UseBeforeInitialize(name) => String::from_str("`").concat(name).concat(
                "` is read before it has a value",
            ),
        }
    }
}

/// What is wrong with the first name, from left to right, that `e` reads
/// and that has no value in `scope`; `None` where every name has one.
pub open spec fn bad_read(e: ExpressionView, scope: Scope) -> Option<ScopeErrorView>
    decreases e,
{
    match e {
        ExpressionView::NestedExp(inner) => bad_read(*inner, scope),
        ExpressionView::Intconst(_) => None,
        ExpressionView::Ident(name) => if scope.initialised.contains(name) {
            None
        } else if scope.declared.contains(name) {
            Some(ScopeErrorView::UseBeforeInitialize(name))
        } else {
            Some(ScopeErrorView::UseBeforeDeclare(name))
        },
        ExpressionView::Binop { left, op, right } => match bad_read(*left, scope) {
            Some(error) => Some(error),
            None => bad_read(*right, scope),
        },
        ExpressionView::Unop { op, right } => bad_read(*right, scope),
    }
}

/// How the statement `st` breaks a rule in `scope`; `None` where it breaks
/// none. An initialiser is looked at before the name that it gives a value
/// to, the target of an assignment before its right-hand side.
pub open spec fn violation(st: StatementView, scope: Scope) -> Option<ScopeErrorView> {
    match st {
        StatementView::Decl(DeclarationView::Ident(name)) => if scope.declared.contains(name) {
            Some(ScopeErrorView::Redeclaration(name))
        } else {
            None
        },
        StatementView::Decl(DeclarationView::IdentExp { ident, exp }) => match bad_read(
            exp,
            scope,
        ) {
            Some(error) => Some(error),
            None => if scope.declared.contains(ident) {
                Some(ScopeErrorView::Redeclaration(ident))
            } else {
                None
            },
        },
        StatementView::Simp(simp) => if !scope.declared.contains(target(simp.lvalue)) {
            Some(ScopeErrorView::UseBeforeDeclare(target(simp.lvalue)))
        } else {
            bad_read(simp.exp, scope)
        },
        StatementView::Return(exp) => bad_read(exp, scope),
    }
}

/// How the first statement of `sts` that breaks a rule breaks it, the
/// statements taken in order from `scope` on; `None` where none does.
pub open spec fn first_violation(sts: Seq<StatementView>, scope: Scope) -> Option<ScopeErrorView>
    decreases sts.len(),
{
    if sts.len() == 0 {
        None
    } else {
        match after_statement(sts[0], scope) {
            Some(next) => first_violation(sts.drop_first(), next),
            None => violation(sts[0], scope),
        }
    }
}

/// An expression has a bad read exactly if it reads a name without a value.
pub proof fn lemma_bad_read(e: ExpressionView, scope: Scope)
    ensures
        bad_read(e, scope) is None <==> reads_only(e, scope.initialised),
    decreases e,
{
    match e {
        ExpressionView::NestedExp(inner) => lemma_bad_read(*inner, scope),
        ExpressionView::Binop { left, op, right } => {
            lemma_bad_read(*left, scope);
            lemma_bad_read(*right, scope);
        },
        ExpressionView::Unop { op, right } => lemma_bad_read(*right, scope),
        _ => {},
    }
}

/// A statement is refused exactly if there is a way in which it breaks a
/// rule, and a body is refused exactly if one of its statements is.
pub proof fn lemma_violation(sts: Seq<StatementView>, scope: Scope)
    ensures
        forall|st: StatementView|
            #[trigger] violation(st, scope) is None <==> after_statement(st, scope) is Some,
        first_violation(sts, scope) is None <==> after_statements(sts, scope) is Some,
    decreases sts.len(),
{
    assert forall|st: StatementView|
        #[trigger] violation(st, scope) is None <==> after_statement(st, scope) is Some by {
        match st {
            StatementView::Decl(DeclarationView::IdentExp { ident, exp }) => {
                lemma_bad_read(exp, scope);
            },
            StatementView::Simp(simp) => {
                lemma_bad_read(simp.exp, scope);
            },
            StatementView::Return(exp) => {
                lemma_bad_read(exp, scope);
            },
            _ => {},
        }
    }
    if sts.len() > 0 {
        if let Some(next) = after_statement(sts[0], scope) {
            lemma_violation(sts.drop_first(), next);
        }
    }
}

/// The set of the names in `v`.
pub open spec fn names(v: Seq<&str>) -> Set<Seq<char>> {
    Set::new(|name: Seq<char>| exists|i: int| 0 <= i < v.len() && (#[trigger] v[i])@ == name)
}

/// No name stands twice in `v`.
pub open spec fn distinct(v: Seq<&str>) -> bool {
    forall|i: int, j: int| 0 <= i < j < v.len() ==> (#[trigger] v[i])@ != (#[trigger] v[j])@
}

proof fn lemma_names_push(v: Seq<&str>, name: &str)
    ensures
        names(v.push(name)) == names(v).insert(name@),
        names(Seq::<&str>::empty()) == Set::<Seq<char>>::empty(),
{
    let w = v.push(name);
    assert forall|n: Seq<char>| names(w).contains(n) <==> names(v).insert(name@).contains(n) by {
        if names(w).contains(n) {
            let i = choose|i: int| 0 <= i < w.len() && (#[trigger] w[i])@ == n;
            if i < v.len() {
                assert(v[i]@ == n);
            }
        }
        if names(v).contains(n) {
            let i = choose|i: int| 0 <= i < v.len() && (#[trigger] v[i])@ == n;
            assert(w[i]@ == n);
        }
        if n == name@ {
            assert(w[v.len() as int]@ == n);
        }
    }
    assert(names(w) =~= names(v).insert(name@));
    assert(names(Seq::<&str>::empty()) =~= Set::<Seq<char>>::empty());
}

/// Whether `name` stands in `v`.
fn holds(v: &Vec<&str>, name: &str) -> (r: bool)
    ensures
        r == names(v@).contains(name@),
{
    let mut k: usize = 0;
    while k < v.len()
        invariant
            k <= v.len(),
            forall|i: int| 0 <= i < k ==> (#[trigger] v@[i])@ != name@,
        decreases v.len() - k,
    {
        if same_text(v[k], name) {
            return true;
        }
        k = k + 1;
    }
    false
}

/// The state of the pass: the names declared and the names with a value so
/// far, each held once.
#[derive(Debug)]
pub struct Analyzer<'src> {
    declared: Vec<&'src str>,
    initialised: Vec<&'src str>,
}

impl<'src> View for Analyzer<'src> {
    type V = Scope;

    closed spec fn view(&self) -> Scope {
        Scope { declared: names(self.declared@), initialised: names(self.initialised@) }
    }
}

impl<'src> Default for Analyzer<'src> {
    fn default() -> (r: Self)
        ensures
            r@ == Scope::empty(),
    {
        Analyzer::new()
    }
}

impl<'src> Analyzer<'src> {
    /// No name is held twice.
    #[verifier::type_invariant]
    closed spec fn wf(&self) -> bool {
        distinct(self.declared@) && distinct(self.initialised@)
    }

    /// Takes `name` among the declared names.
    fn declare(&mut self, name: &'src str)
        requires
            !old(self)@.declared.contains(name@),
        ensures
            final(self)@.declared == old(self)@.declared.insert(name@),
            final(self)@.initialised == old(self)@.initialised,
    {
        proof {
            use_type_invariant(&*self);
            lemma_names_push(self.declared@, name);
        }
        let mut held: Vec<&'src str> = Vec::new();
        core::mem::swap(&mut held, &mut self.declared);
        held.push(name);
        core::mem::swap(&mut held, &mut self.declared);
    }

    /// Takes `name` among the names with a value, if it is not among them.
    fn initialise(&mut self, name: &'src str)
        ensures
            final(self)@.initialised == old(self)@.initialised.insert(name@),
            final(self)@.declared == old(self)@.declared,
    {
        proof {
            use_type_invariant(&*self);
            lemma_names_push(self.initialised@, name);
        }
        if holds(&self.initialised, name) {
            assert(names(self.initialised@).insert(name@) =~= names(self.initialised@));
        } else {
            let mut held: Vec<&'src str> = Vec::new();
            core::mem::swap(&mut held, &mut self.initialised);
            held.push(name);
            core::mem::swap(&mut held, &mut self.initialised);
        }
    }

    /// The state in front of the first statement: nothing declared.
    pub fn new() -> (r: Self)
        ensures
            r@ == Scope::empty(),
    {
        proof {
            lemma_names_push(Seq::empty(), "");
        }
        Analyzer { declared: Vec::new(), initialised: Vec::new() }
    }

    /// Runs the pass over the program `p`, from the state that `self` is
    /// in.
    pub fn analyze(&mut self, p: &Program<'src>) -> (r: Result<(), ()>)
        ensures
            r is Ok <==> after_statements(p@, old(self)@) is Some,
            r is Ok ==> after_statements(p@, old(self)@) == Some(final(self)@),
            r is Err ==> stopped(p@, old(self)@, final(self)@),
    {
        self.analyze_statements(&p.0)
    }

    /// Takes the statements in order, up to the first that breaks a rule.
    pub fn analyze_statements(&mut self, statements: &Statements<'src>) -> (r: Result<(), ()>)
        ensures
            r is Ok <==> after_statements(statements@, old(self)@) is Some,
            r is Ok ==> after_statements(statements@, old(self)@) == Some(final(self)@),
            r is Err ==> stopped(statements@, old(self)@, final(self)@),
    {
        let mut rest = statements;
        let ghost mut seen: int = 0;
        let ghost start = self@;
        loop
            invariant
                0 <= seen <= statements@.len(),
                rest@ == statements@.skip(seen),
                after_statements(statements@.take(seen), start) == Some(self@),
                start == old(self)@,
            decreases statements@.len() - seen,
        {
            proof {
                lemma_statements_view(*rest);
                lemma_after_statements_split(statements@, seen, start);
            }
            match rest {
                Statements::Empty => {
                    assert(statements@.take(seen) =~= statements@);
                    return Ok(());
                },
                Statements::Statement { current, next } => {
                    assert(rest@[0] == current@);
                    assert(statements@[seen] == current@);
                    if self.analyze_statement(current).is_err() {
                        return Err(());
                    }
                    proof {
                        assert(rest@.skip(1) =~= next@);
                        assert(statements@.skip(seen).skip(1) =~= statements@.skip(seen + 1));
                        lemma_after_statements_step(statements@, seen, start);
                        seen = seen + 1;
                    }
                    rest = next;
                },
            }
        }
    }

    /// Takes one statement.
    pub fn analyze_statement(&mut self, statement: &Statement<'src>) -> (r: Result<(), ()>)
        ensures
            r is Ok <==> after_statement(statement@, old(self)@) is Some,
            r is Ok ==> after_statement(statement@, old(self)@) == Some(final(self)@),
            r is Err ==> final(self)@ == old(self)@,
    {
        match statement {
            Statement::Decl(decl) => self.analyze_decl(decl),
            Statement::Simp(simp) => self.analyze_simp(simp),
            Statement::Return(exp) => self.analyze_exp(exp),
        }
    }

    /// Takes a declaration: the name must be new; an initialising
    /// expression is checked before the name gets its value.
    pub fn analyze_decl(&mut self, decl: &Declaration<'src>) -> (r: Result<(), ()>)
        ensures
            r is Ok <==> after_declaration(decl@, old(self)@) is Some,
            r is Ok ==> after_declaration(decl@, old(self)@) == Some(final(self)@),
            r is Err ==> final(self)@ == old(self)@,
    {
        match decl {
            Declaration::Ident(ident) => {
                if holds(&self.declared, ident.0) {
                    return Err(());
                }
                self.declare(ident.0);
                Ok(())
            },
            Declaration::IdentExp { ident, exp } => {
                if holds(&self.declared, ident.0) {
                    return Err(());
                }
                if self.analyze_exp(exp).is_err() {
                    return Err(());
                }
                self.declare(ident.0);
                self.initialise(ident.0);
                Ok(())
            },
        }
    }

    /// Takes an assignment: the target must be declared and the right-hand
    /// side may read only names with a value; then the target has one.
    pub fn analyze_simp(&mut self, simp: &SimpleInstruction<'src>) -> (r: Result<(), ()>)
        ensures
            r is Ok <==> after_assignment(simp@, old(self)@) is Some,
            r is Ok ==> after_assignment(simp@, old(self)@) == Some(final(self)@),
            r is Err ==> final(self)@ == old(self)@,
    {
        if self.analyze_lvalue(&simp.lvalue).is_err() {
            return Err(());
        }
        if self.analyze_exp(&simp.exp).is_err() {
            return Err(());
        }
        self.initialise(target_of(&simp.lvalue));
        Ok(())
    }

    /// Accepts an expression that reads only names with a value.
    pub fn analyze_exp(&mut self, exp: &Expression<'src>) -> (r: Result<(), ()>)
        ensures
            r is Ok <==> reads_only(exp@, old(self)@.initialised),
            final(self)@ == old(self)@,
        decreases *exp,
    {
        match exp {
            Expression::NestedExp(nested_exp) => self.analyze_exp(nested_exp),
            Expression::Ident(ident) => {
                if !holds(&self.initialised, ident.0) {
                    return Err(());
                }
                Ok(())
            },
            Expression::Binop { left, right, .. } => {
                if self.analyze_exp(left).is_err() {
                    return Err(());
                }
                self.analyze_exp(right)
            },
            Expression::Unop { right, .. } => self.analyze_exp(right),
            _ => Ok(()),
        }
    }

    /// What is wrong with the first name that `exp` reads and that has no
    /// value.
    pub fn bad_read(&self, exp: &Expression<'src>) -> (r: Option<ScopeError<'src>>)
        ensures
            match r {
                Some(error) => bad_read(exp@, self@) == Some(error@),
                None => bad_read(exp@, self@) is None,
            },
        decreases *exp,
    {
        match exp {
            Expression::NestedExp(nested_exp) => self.bad_read(nested_exp),
            Expression::Ident(ident) => {
                if holds(&self.initialised, ident.0) {
                    None
                } else if holds(&self.declared, ident.0) {
                    Some(ScopeError::UseBeforeInitialize(ident.0))
                } else {
                    Some(ScopeError::UseBeforeDeclare(ident.0))
                }
            },
            Expression::Binop { left, right, .. } => {
                match self.bad_read(left) {
                    Some(error) => Some(error),
                    None => self.bad_read(right),
                }
            },
            Expression::Unop { right, .. } => self.bad_read(right),
            _ => None,
        }
    }

    /// How `statement` breaks a rule in the state that `self` is in.
    pub fn violation(&self, statement: &Statement<'src>) -> (r: Option<ScopeError<'src>>)
        ensures
            match r {
                Some(error) => violation(statement@, self@) == Some(error@),
                None => violation(statement@, self@) is None,
            },
    {
        match statement {
            Statement::Decl(Declaration::Ident(ident)) => {
                if holds(&self.declared, ident.0) {
                    Some(ScopeError::Redeclaration(ident.0))
                } else {
                    None
                }
            },
            Statement::Decl(Declaration::IdentExp { ident, exp }) => {
                match self.bad_read(exp) {
                    Some(error) => Some(error),
                    None => {
                        if holds(&self.declared, ident.0) {
                            Some(ScopeError::Redeclaration(ident.0))
                        } else {
                            None
                        }
                    },
                }
            },
            Statement::Simp(simp) => {
                let name = target_of(&simp.lvalue);
                if !holds(&self.declared, name) {
                    Some(ScopeError::UseBeforeDeclare(name))
                } else {
                    self.bad_read(&simp.exp)
                }
            },
            Statement::Return(exp) => self.bad_read(exp),
        }
    }

    /// Accepts an lvalue whose target is declared.
    pub fn analyze_lvalue(&mut self, lvalue: &LValue<'src>) -> (r: Result<(), ()>)
        ensures
            r is Ok <==> old(self)@.declared.contains(target(lvalue@)),
            final(self)@ == old(self)@,
        decreases *lvalue,
    {
        match lvalue {
            LValue::Ident(ident) => {
                if !holds(&self.declared, ident.0) {
                    return Err(());
                }
                Ok(())
            },
            LValue::LValue(lvalue) => self.analyze_lvalue(lvalue),
        }
    }
}

/// Whether a pass over `sts` that began in scope `start` stopped in scope
/// `end`: some statement breaks a rule in `end`, and `end` is the scope
/// behind the statements in front of it.
pub open spec fn stopped(sts: Seq<StatementView>, start: Scope, end: Scope) -> bool {
    exists|n: int|
        0 <= n < sts.len() && #[trigger] after_statements(sts.take(n), start) == Some(end)
            && after_statement(sts[n], end) is None
}

/// The scope behind statements is the scope behind the last of them, taken
/// in the scope behind those in front of it.
pub proof fn lemma_after_statements_step(sts: Seq<StatementView>, n: int, start: Scope)
    requires
        0 <= n < sts.len(),
    ensures
        after_statements(sts.take(n + 1), start) == (match after_statements(sts.take(n), start) {
            Some(scope) => after_statement(sts[n], scope),
            None => None,
        }),
    decreases n,
{
    if n == 0 {
        assert(sts.take(1).drop_first() =~= Seq::<StatementView>::empty());
        assert(sts.take(0) =~= Seq::<StatementView>::empty());
        assert(sts.take(1)[0] == sts[0]);
        match after_statement(sts[0], start) {
            Some(next) => {
                assert(after_statements(Seq::<StatementView>::empty(), next) == Some(next));
            },
            None => {},
        }
    } else {
        assert(sts.take(n + 1).drop_first() =~= sts.drop_first().take(n));
        assert(sts.take(n).drop_first() =~= sts.drop_first().take(n - 1));
        assert(sts.take(n + 1)[0] == sts[0]);
        assert(sts.take(n)[0] == sts[0]);
        match after_statement(sts[0], start) {
            Some(next) => {
                lemma_after_statements_step(sts.drop_first(), n - 1, next);
            },
            None => {},
        }
    }
}

/// Once a statement breaks a rule, the statements as a whole do.
pub proof fn lemma_after_statements_split(sts: Seq<StatementView>, n: int, start: Scope)
    requires
        0 <= n <= sts.len(),
    ensures
        after_statements(sts.take(n), start) is None ==> after_statements(sts, start) is None,
        n < sts.len() && (after_statements(sts.take(n), start) matches Some(scope)
            && after_statement(sts[n], scope) is None) ==> after_statements(sts, start) is None,
    decreases sts.len() - n,
{
    if n == sts.len() {
        assert(sts.take(n) =~= sts);
    } else {
        lemma_after_statements_step(sts, n, start);
        lemma_after_statements_split(sts, n + 1, start);
    }
}

/// Whether `e` reads the name `name`.
pub open spec fn occurs(e: ExpressionView, name: Seq<char>) -> bool
    decreases e,
{
    match e {
        ExpressionView::NestedExp(inner) => occurs(*inner, name),
        ExpressionView::Intconst(_) => false,
        ExpressionView::Ident(n) => n == name,
        ExpressionView::Binop { left, op, right } => occurs(*left, name) || occurs(*right, name),
        ExpressionView::Unop { op, right } => occurs(*right, name),
    }
}

/// Whether the statement `st` reads the name `name`: in the initialiser of
/// a declaration, on the right of an assignment, or in a `return`.
pub open spec fn reads(st: StatementView, name: Seq<char>) -> bool {
    match st {
        StatementView::Decl(DeclarationView::Ident(_)) => false,
        StatementView::Decl(DeclarationView::IdentExp { ident, exp }) => occurs(exp, name),
        StatementView::Simp(simp) => occurs(simp.exp, name),
        StatementView::Return(exp) => occurs(exp, name),
    }
}

/// Whether the statement `st` declares the name `name`, with or without a
/// value.
pub open spec fn declares(st: StatementView, name: Seq<char>) -> bool {
    match st {
        StatementView::Decl(DeclarationView::Ident(n)) => n == name,
        StatementView::Decl(DeclarationView::IdentExp { ident, exp }) => ident == name,
        _ => false,
    }
}

/// An expression that reads a name without a value is refused.
pub proof fn lemma_read_needs_value(e: ExpressionView, name: Seq<char>, initialised: Set<Seq<char>>)
    requires
        occurs(e, name),
        !initialised.contains(name),
    ensures
        !reads_only(e, initialised),
    decreases e,
{
    match e {
        ExpressionView::NestedExp(inner) => lemma_read_needs_value(*inner, name, initialised),
        ExpressionView::Binop { left, op, right } => {
            if occurs(*left, name) {
                lemma_read_needs_value(*left, name, initialised);
            } else {
                lemma_read_needs_value(*right, name, initialised);
            }
        },
        ExpressionView::Unop { op, right } => lemma_read_needs_value(*right, name, initialised),
        _ => {},
    }
}

/// In the scope behind the first `n` statements of a body, the declared
/// names are those that one of these statements declares, and every name
/// with a value is declared.
pub proof fn lemma_scope_history(sts: Seq<StatementView>, n: int)
    requires
        0 <= n <= sts.len(),
    ensures
        after_statements(sts.take(n), Scope::empty()) matches Some(scope) ==> {
            &&& scope.initialised.subset_of(scope.declared)
            &&& forall|name: Seq<char>|
                scope.declared.contains(name) <==> exists|k: int|
                    0 <= k < n && declares(#[trigger] sts[k], name)
        },
    decreases n,
{
    if n == 0 {
        assert(sts.take(0) =~= Seq::<StatementView>::empty());
    } else {
        lemma_scope_history(sts, n - 1);
        lemma_after_statements_step(sts, n - 1, Scope::empty());
        if let Some(scope) = after_statements(sts.take(n), Scope::empty()) {
            let before = after_statements(sts.take(n - 1), Scope::empty())->0;
            assert forall|name: Seq<char>|
                scope.declared.contains(name) <==> exists|k: int|
                    0 <= k < n && declares(#[trigger] sts[k], name) by {
                if scope.declared.contains(name) {
                    if before.declared.contains(name) {
                        let k = choose|k: int| 0 <= k < n - 1 && declares(#[trigger] sts[k], name);
                        assert(0 <= k < n && declares(sts[k], name));
                    } else {
                        assert(declares(sts[n - 1], name));
                    }
                }
                if exists|k: int| 0 <= k < n && declares(#[trigger] sts[k], name) {
                    let k = choose|k: int| 0 <= k < n && declares(#[trigger] sts[k], name);
                    if k < n - 1 {
                        assert(before.declared.contains(name));
                    }
                }
            }
        }
    }
}

/// A body in which a statement reads a name that no statement in front of
/// it declares is refused.
pub proof fn lemma_read_before_declaration_is_refused(
    p: Seq<StatementView>,
    n: int,
    name: Seq<char>,
)
    requires
        0 <= n < p.len(),
        reads(p[n], name),
        forall|k: int| 0 <= k < n ==> !declares(#[trigger] p[k], name),
    ensures
        !accepts(p),
{
    lemma_scope_history(p, n);
    lemma_after_statements_split(p, n, Scope::empty());
    if let Some(scope) = after_statements(p.take(n), Scope::empty()) {
        assert(!scope.declared.contains(name));
        assert(!scope.initialised.contains(name));
        match p[n] {
            StatementView::Decl(DeclarationView::IdentExp { ident, exp }) => {
                lemma_read_needs_value(exp, name, scope.initialised);
            },
            StatementView::Simp(simp) => {
                lemma_read_needs_value(simp.exp, name, scope.initialised);
            },
            StatementView::Return(exp) => {
                lemma_read_needs_value(exp, name, scope.initialised);
            },
            _ => {},
        }
    }
}

/// A body in which two statements declare the same name is refused,
/// whether or not either of them gives the name a value.
pub proof fn lemma_second_declaration_is_refused(
    p: Seq<StatementView>,
    i: int,
    j: int,
    name: Seq<char>,
)
    requires
        0 <= i < j < p.len(),
        declares(p[i], name),
        declares(p[j], name),
    ensures
        !accepts(p),
{
    lemma_scope_history(p, j);
    lemma_after_statements_split(p, j, Scope::empty());
    if let Some(scope) = after_statements(p.take(j), Scope::empty()) {
        assert(scope.declared.contains(name));
    }
}

/// The name that `lvalue` assigns to.
pub fn target_of<'src>(lvalue: &LValue<'src>) -> (r: &'src str)
    ensures
        r@ == target(lvalue@),
    decreases *lvalue,
{
    match lvalue {
        LValue::Ident(ident) => ident.0,
        LValue::LValue(inner) => target_of(inner),
    }
}

/// How the first statement of `p` that breaks a rule breaks it; `None`
/// where `p` keeps the rules.
pub fn find_violation<'src>(p: &Program<'src>) -> (r: Option<ScopeError<'src>>)
    ensures
        match r {
            Some(error) => first_violation(p@, Scope::empty()) == Some(error@),
            None => first_violation(p@, Scope::empty()) is None,
        },
        r is None <==> accepts(p@),
{
    let mut ana = Analyzer::new();
    let mut rest = &p.0;
    proof {
        lemma_violation(p@, Scope::empty());
    }
    loop
        invariant
            first_violation(p@, Scope::empty()) == first_violation(rest@, ana@),
            first_violation(p@, Scope::empty()) is None <==> accepts(p@),
        decreases rest@.len(),
    {
        proof {
            lemma_statements_view(*rest);
            lemma_violation(rest@, ana@);
        }
        match rest {
            Statements::Empty => {
                return None;
            },
            Statements::Statement { current, next } => {
                assert(rest@[0] == current@);
                assert(rest@.drop_first() =~= next@);
                if ana.analyze_statement(current).is_err() {
                    return ana.violation(current);
                }
                rest = next;
            },
        }
    }
}

/// Accepts a program in which every name is declared once, before it is
/// assigned to, and has a value before it is read.
pub fn analyze<'src>(p: &Program<'src>) -> (r: Result<(), ()>)
    ensures
        r is Ok <==> accepts(p@),
{
    let mut ana = Analyzer::new();
    ana.analyze(p)
}

} // verus!
