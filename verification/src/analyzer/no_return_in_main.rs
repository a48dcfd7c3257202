//! The presence of a `return`: the body of `main` has to hold one, wherever
//! it stands.

use vstd::prelude::*;
use crate::grammar::{lemma_statements_view, Program, Statement, StatementView, Statements};

verus! {

/// Whether one of the statements `sts` is a `return`.
pub open spec fn has_return(sts: Seq<StatementView>) -> bool {
    exists|k: int| 0 <= k < sts.len() && #[trigger] sts[k] is Return
}

/// Tells whether `statement` is a `return`. Never fails.
pub fn analyze_statement<'src>(statement: &Statement<'src>) -> (r: Result<bool, ()>)
    ensures
        r == Ok::<bool, ()>(statement@ is Return),
{
    match statement {
        Statement::Return(_) => Ok(true),
        _ => Ok(false),
    }
}

/// Accepts statements of which one is a `return`.
pub fn analyze_statements<'src>(statements: &Statements<'src>) -> (r: Result<(), ()>)
    ensures
        r is Ok <==> has_return(statements@),
{
    let mut rest = statements;
    let ghost mut seen: int = 0;
    loop
        invariant
            0 <= seen <= statements@.len(),
            rest@ == statements@.skip(seen),
            forall|k: int| 0 <= k < seen ==> !(#[trigger] statements@[k] is Return),
        decreases statements@.len() - seen,
    {
        proof {
            lemma_statements_view(*rest);
        }
        match rest {
            Statements::Empty => {
                return Err(());
            },
            Statements::Statement { current, next } => {
                assert(rest@[0] == current@);
                assert(statements@[seen] == current@);
                match analyze_statement(current) {
                    Ok(true) => {
                        return Ok(());
                    },
                    _ => {},
                }
                proof {
                    assert(rest@.skip(1) =~= next@);
                    assert(statements@.skip(seen).skip(1) =~= statements@.skip(seen + 1));
                    seen = seen + 1;
                }
                rest = next;
            },
        }
    }
}

/// Accepts a program whose body holds a `return`.
pub fn analyze<'src>(p: &Program<'src>) -> (r: Result<(), ()>)
    ensures
        r is Ok <==> has_return(p@),
{
    analyze_statements(&p.0)
}

} // verus!
