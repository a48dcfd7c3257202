use l1_frontend::analyzer::failing_pass;
use l1_frontend::comment_remover::remove_comments;
use l1_frontend::grammar::{
    AsNop, BinOperation, Declaration, Expression, LValue, Program, SimpleInstruction, Statement,
    Statements,
};
use l1_frontend::parser::{exp_parser, parse, statement_parser};

/// A small generator of numbers that gives the same on every run.
struct Numbers(u64);

impl Numbers {
    fn next(&mut self, below: u64) -> u64 {
        self.0 = self.0.wrapping_mul(6364136223846793005).wrapping_add(1442695040888963407);
        (self.0 >> 33) % below
    }
}

const NAMES: [&str; 8] = ["a", "b1", "_x", "integer", "returned", "Int", "main", "x_y_z"];
const LITERALS: [&str; 8] = ["0", "7", "42", "2147483648", "0x0", "0XfF", "0xCAFEBABE", "900"];
const PADS: [&str; 6] = ["", " ", "  ", "\n", "\t", " \r\n "];

fn operator(op: &BinOperation) -> &'static str {
    match op {
        BinOperation::Plus => "+",
        BinOperation::Minus => "-",
        BinOperation::Multiplication => "*",
        BinOperation::Division => "/",
        BinOperation::Mod => "%",
    }
}

fn assignment(op: &AsNop) -> &'static str {
    match op {
        AsNop::Equal => "=",
        AsNop::PlusEqual => "+=",
        AsNop::MinusEqual => "-=",
        AsNop::MultEqual => "*=",
        AsNop::DivEqual => "/=",
        AsNop::ModEqual => "%=",
    }
}

/// How strongly the top of an expression binds.
fn level(e: &Expression) -> u8 {
    match e {
        Expression::Binop { op: BinOperation::Plus | BinOperation::Minus, .. } => 0,
        Expression::Binop { .. } => 1,
        Expression::Unop { .. } => 2,
        _ => 3,
    }
}

/// An expression that binds at least as strongly as `least`.
fn expression(numbers: &mut Numbers, depth: u32, least: u8) -> Expression<'static> {
    let kind = if depth == 0 { 4 + numbers.next(2) } else { numbers.next(6) };
    let made = match kind {
        0 if least == 0 => Expression::Binop {
            left: Box::new(expression(numbers, depth - 1, 0)),
            op: if numbers.next(2) == 0 { BinOperation::Plus } else { BinOperation::Minus },
            right: Box::new(expression(numbers, depth - 1, 1)),
        },
        0 | 1 if least <= 1 => Expression::Binop {
            left: Box::new(expression(numbers, depth - 1, 1)),
            op: match numbers.next(3) {
                0 => BinOperation::Multiplication,
                1 => BinOperation::Division,
                _ => BinOperation::Mod,
            },
            right: Box::new(expression(numbers, depth - 1, 2)),
        },
        0 | 1 | 2 if least <= 2 => Expression::Unop {
            op: l1_frontend::grammar::UnOperation::Minus,
            right: Box::new(expression(numbers, depth - 1, 2)),
        },
        0 | 1 | 2 | 3 => Expression::NestedExp(Box::new(expression(numbers, depth - 1, 0))),
        4 => Expression::Ident(l1_frontend::grammar::Identifier(
            NAMES[numbers.next(NAMES.len() as u64) as usize],
        )),
        _ => {
            let text = LITERALS[numbers.next(LITERALS.len() as u64) as usize];
            if text.len() > 1 && text.as_bytes()[1].eq_ignore_ascii_case(&b'x') {
                Expression::Intconst(l1_frontend::grammar::Intconst::Hexnum(
                    l1_frontend::grammar::Hexnum(text),
                ))
            } else {
                Expression::Intconst(l1_frontend::grammar::Intconst::Decnum(
                    l1_frontend::grammar::Decnum(text),
                ))
            }
        }
    };
    assert!(level(&made) >= least);
    made
}

/// The expression as text, with white space of any kind between its tokens.
fn write(e: &Expression, numbers: &mut Numbers, out: &mut String) {
    out.push_str(PADS[numbers.next(PADS.len() as u64) as usize]);
    match e {
        Expression::NestedExp(inner) => {
            out.push('(');
            write(inner, numbers, out);
            out.push_str(PADS[numbers.next(PADS.len() as u64) as usize]);
            out.push(')');
        }
        Expression::Intconst(l1_frontend::grammar::Intconst::Decnum(d)) => out.push_str(d.0),
        Expression::Intconst(l1_frontend::grammar::Intconst::Hexnum(h)) => out.push_str(h.0),
        Expression::Ident(name) => out.push_str(name.0),
        Expression::Binop { left, op, right } => {
            write(left, numbers, out);
            out.push_str(PADS[numbers.next(PADS.len() as u64) as usize]);
            out.push_str(operator(op));
            write(right, numbers, out);
        }
        Expression::Unop { right, .. } => {
            out.push('-');
            write(right, numbers, out);
        }
    }
}

fn write_lvalue(l: &LValue, out: &mut String) {
    match l {
        LValue::Ident(name) => out.push_str(name.0),
        LValue::LValue(inner) => {
            out.push_str("( ");
            write_lvalue(inner, out);
            out.push(')');
        }
    }
}

fn statement(numbers: &mut Numbers) -> Statement<'static> {
    let name = l1_frontend::grammar::Identifier(NAMES[numbers.next(NAMES.len() as u64) as usize]);
    match numbers.next(4) {
        0 => Statement::Decl(Declaration::Ident(name)),
        1 => Statement::Decl(Declaration::IdentExp { ident: name, exp: expression(numbers, 3, 0) }),
        2 => {
            let mut lvalue = LValue::Ident(name);
            for _ in 0..numbers.next(3) {
                lvalue = LValue::LValue(Box::new(lvalue));
            }
            let asnop = match numbers.next(6) {
                0 => AsNop::Equal,
                1 => AsNop::PlusEqual,
                2 => AsNop::MinusEqual,
                3 => AsNop::MultEqual,
                4 => AsNop::DivEqual,
                _ => AsNop::ModEqual,
            };
            Statement::Simp(SimpleInstruction { lvalue, asnop, exp: expression(numbers, 3, 0) })
        }
        _ => Statement::Return(expression(numbers, 3, 0)),
    }
}

fn write_statement(st: &Statement, numbers: &mut Numbers, out: &mut String) {
    match st {
        Statement::Decl(Declaration::Ident(name)) => {
            out.push_str("int ");
            out.push_str(name.0);
        }
        Statement::Decl(Declaration::IdentExp { ident, exp }) => {
            out.push_str("int\t");
            out.push_str(ident.0);
            out.push('=');
            write(exp, numbers, out);
        }
        Statement::Simp(simp) => {
            write_lvalue(&simp.lvalue, out);
            out.push_str(assignment(&simp.asnop));
            write(&simp.exp, numbers, out);
        }
        Statement::Return(exp) => {
            out.push_str("return ");
            write(exp, numbers, out);
        }
    }
    out.push_str(PADS[numbers.next(PADS.len() as u64) as usize]);
    out.push(';');
}

#[test]
fn written_expressions_are_read_back() {
    let mut numbers = Numbers(1);
    for _ in 0..2000 {
        let depth = numbers.next(6) as u32;
        let tree = expression(&mut numbers, depth, 0);
        let mut text = String::new();
        write(&tree, &mut numbers, &mut text);
        text.push_str(PADS[numbers.next(PADS.len() as u64) as usize]);
        assert_eq!(exp_parser(&text), Ok(tree), "{:?}", text);
    }
}

#[test]
fn written_programs_are_read_back() {
    let mut numbers = Numbers(2);
    for _ in 0..500 {
        let mut statements = Vec::new();
        let mut text = String::from("int main ( ) {");
        for _ in 0..numbers.next(6) {
            let st = statement(&mut numbers);
            text.push_str(PADS[numbers.next(PADS.len() as u64) as usize]);
            let mut written = String::new();
            write_statement(&st, &mut numbers, &mut written);
            assert_eq!(statement_parser(&written), Ok(st.clone()), "{:?}", written);
            text.push_str(&written);
            statements.push(st);
        }
        text.push_str(" }\n");
        let mut body = Statements::Empty;
        for st in statements.into_iter().rev() {
            body = Statements::Statement { current: st, next: Box::new(body) };
        }
        let program = Program(body);
        assert_eq!(parse(&text), Ok(program.clone()), "{:?}", text);
        assert_eq!(failing_pass(&program), failing_pass(&parse(&text).unwrap()));
    }
}

#[test]
fn comments_between_tokens_do_not_change_the_tree() {
    let plain = "int main() {\n    int a = 1;\n    a += 2 * (a - 0x10);\n    return a;\n}\n";
    let commented = "// a program\nint main() { /* body /* nested */ */\n    int a = 1; // one\n    a += 2 * /* two */ (a - 0x10);\n    // three\n    return a;\n}\n";
    let stripped = remove_comments(commented).unwrap();
    assert_eq!(parse(&stripped), parse(plain));
    assert!(parse(plain).is_ok());
    assert!(parse(commented).is_err());
}
