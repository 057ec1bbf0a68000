//! Every statement is preceded by a line that shows it.

use crate::text::{decimal, decimal_text};
use crate::typed_absy::{
    clone_kinds, clone_parameters, lemma_typed_view, lemma_typed_view_push, typed_view, Expression,
    Identifier, Operator, SpecFunction, SpecTypedProgram, SpecTypedStatement, TypedFunction,
    TypedProgram, TypedStatement,
};
use vstd::prelude::*;
use vstd::string::StringExecFns;

verus! {

/// The notation of an operator.
pub open spec fn operator_text(op: Operator) -> Seq<char> {
    match op {
        Operator::Add => " + "@,
        Operator::Sub => " - "@,
        Operator::Mult => " * "@,
        Operator::Div => " / "@,
        Operator::Eq => " == "@,
        Operator::Lt => " < "@,
        Operator::And => " && "@,
        Operator::Or => " || "@,
    }
}

/// The notation of a variable: an underscore and its number.
pub open spec fn identifier_text(id: Identifier) -> Seq<char> {
    "_"@ + decimal(id.id as nat)
}

/// The notation of an expression.
pub open spec fn expression_text(e: Expression) -> Seq<char>
    decreases e,
{
    match e {
        Expression::Number(c) => decimal(c as nat),
        Expression::Boolean(b) => if b {
            "true"@
        } else {
            "false"@
        },
        Expression::Variable(id) => identifier_text(id),
        Expression::Flag(id) => identifier_text(id),
        Expression::Binary(op, a, b) => "("@ + expression_text(*a) + operator_text(op)
            + expression_text(*b) + ")"@,
        Expression::Not(a) => "!"@ + expression_text(*a),
        Expression::IfElse(c, a, b) => "if "@ + expression_text(*c) + " then "@ + expression_text(
            *a,
        ) + " else "@ + expression_text(*b) + " fi"@,
    }
}

/// The notations of the expressions from the `k`-th on, separated by
/// commas.
pub open spec fn expressions_text(es: Seq<Expression>, k: int) -> Seq<char>
    decreases es.len() - k,
{
    if k < 0 || k >= es.len() {
        Seq::<char>::empty()
    } else if k == es.len() - 1 {
        expression_text(es[k])
    } else {
        expression_text(es[k]) + ", "@ + expressions_text(es, k + 1)
    }
}

/// The notations of the variables from the `k`-th on, separated by
/// commas.
pub open spec fn identifiers_text(ids: Seq<Identifier>, k: int) -> Seq<char>
    decreases ids.len() - k,
{
    if k < 0 || k >= ids.len() {
        Seq::<char>::empty()
    } else if k == ids.len() - 1 {
        identifier_text(ids[k])
    } else {
        identifier_text(ids[k]) + ", "@ + identifiers_text(ids, k + 1)
    }
}

/// The notation of a statement. Of a loop the head is shown, with the
/// number of statements in its body.
pub open spec fn statement_text(s: SpecTypedStatement) -> Seq<char> {
    match s {
        SpecTypedStatement::Definition(id, e) => identifier_text(id) + " = "@ + expression_text(e),
        SpecTypedStatement::Condition(a, b) => expression_text(a) + " == "@ + expression_text(b),
        SpecTypedStatement::For(id, from, to, body) => "for "@ + identifier_text(id) + " in "@
            + expression_text(from) + ".."@ + expression_text(to) + " do "@ + decimal(body.len())
            + " statements endfor"@,
        SpecTypedStatement::MultipleDefinition(ids, callee, args) => identifiers_text(ids, 0)
            + " = f"@ + decimal(callee as nat) + "("@ + expressions_text(args, 0) + ")"@,
        SpecTypedStatement::Return(es) => "return "@ + expressions_text(es, 0),
        SpecTypedStatement::Log(text) => "log "@ + text,
    }
}

/// The statements, each preceded by the line that shows it.
pub open spec fn log_statements(s: Seq<SpecTypedStatement>) -> Seq<SpecTypedStatement>
    decreases s.len(),
{
    if s.len() == 0 {
        Seq::<SpecTypedStatement>::empty()
    } else {
        log_statements(s.drop_last()).push(SpecTypedStatement::Log(statement_text(s.last()))).push(
            s.last(),
        )
    }
}

/// The function with its statements logged.
pub open spec fn log_function(f: SpecFunction) -> SpecFunction {
    SpecFunction { statements: log_statements(f.statements), ..f }
}

/// The program with the statements of every function logged.
pub open spec fn logged(program: SpecTypedProgram) -> SpecTypedProgram {
    SpecTypedProgram {
        functions: Seq::new(program.functions.len(), |k: int| log_function(program.functions[k])),
        ..program
    }
}

fn operator_notation(op: Operator) -> (r: &'static str)
    ensures
        r@ == operator_text(op),
{
    match op {
        Operator::Add => " + ",
        Operator::Sub => " - ",
        Operator::Mult => " * ",
        Operator::Div => " / ",
        Operator::Eq => " == ",
        Operator::Lt => " < ",
        Operator::And => " && ",
        Operator::Or => " || ",
    }
}

fn write_identifier(out: &mut String, id: Identifier)
    ensures
        final(out)@ == old(out)@ + identifier_text(id),
{
    out.append("_");
    let digits = decimal_text(id.id as u64);
    out.append(digits.as_str());
    assert(out@ =~= old(out)@ + identifier_text(id));
}

fn write_expression(out: &mut String, e: &Expression)
    ensures
        final(out)@ == old(out)@ + expression_text(*e),
    decreases *e,
{
    match e {
        Expression::Number(c) => {
            let digits = decimal_text(*c);
            out.append(digits.as_str());
        },
        Expression::Boolean(b) => {
            if *b {
                out.append("true");
            } else {
                out.append("false");
            }
        },
        Expression::Variable(id) => {
            write_identifier(out, *id);
        },
        Expression::Flag(id) => {
            write_identifier(out, *id);
        },
        Expression::Binary(op, a, b) => {
            out.append("(");
            write_expression(out, a);
            out.append(operator_notation(*op));
            write_expression(out, b);
            out.append(")");
            assert(out@ =~= old(out)@ + expression_text(*e));
        },
        Expression::Not(a) => {
            out.append("!");
            write_expression(out, a);
            assert(out@ =~= old(out)@ + expression_text(*e));
        },
        Expression::IfElse(c, a, b) => {
            out.append("if ");
            write_expression(out, c);
            out.append(" then ");
            write_expression(out, a);
            out.append(" else ");
            write_expression(out, b);
            out.append(" fi");
            assert(out@ =~= old(out)@ + expression_text(*e));
        },
    }
}

fn write_expressions(out: &mut String, es: &Vec<Expression>)
    ensures
        final(out)@ == old(out)@ + expressions_text(es@, 0),
{
    let ghost all = expressions_text(es@, 0);
    let mut k: usize = 0;
    while k < es.len()
        invariant
            k <= es.len(),
            out@ + expressions_text(es@, k as int) == old(out)@ + expressions_text(es@, 0),
        decreases es.len() - k,
    {
        let ghost before = out@;
        let ghost rest = expressions_text(es@, k + 1);
        write_expression(out, &es[k]);
        if k + 1 < es.len() {
            out.append(", ");
            assert(out@ + rest =~= before + (expression_text(es@[k as int]) + ", "@ + rest));
        } else {
            assert(rest =~= Seq::<char>::empty());
            assert(out@ + rest =~= before + expression_text(es@[k as int]));
        }
        k += 1;
    }
    assert(out@ + Seq::<char>::empty() =~= out@);
}

fn write_identifiers(out: &mut String, ids: &Vec<Identifier>)
    ensures
        final(out)@ == old(out)@ + identifiers_text(ids@, 0),
{
    let mut k: usize = 0;
    while k < ids.len()
        invariant
            k <= ids.len(),
            out@ + identifiers_text(ids@, k as int) == old(out)@ + identifiers_text(ids@, 0),
        decreases ids.len() - k,
    {
        let ghost before = out@;
        let ghost rest = identifiers_text(ids@, k + 1);
        write_identifier(out, ids[k]);
        if k + 1 < ids.len() {
            out.append(", ");
            assert(out@ + rest =~= before + (identifier_text(ids@[k as int]) + ", "@ + rest));
        } else {
            assert(rest =~= Seq::<char>::empty());
            assert(out@ + rest =~= before + identifier_text(ids@[k as int]));
        }
        k += 1;
    }
    assert(out@ + Seq::<char>::empty() =~= out@);
}

/// The notation of a statement; see [`statement_text`].
pub fn statement_notation(s: &TypedStatement) -> (r: String)
    ensures
        r@ == statement_text(s@),
{
    let mut out = String::new();
    match s {
        TypedStatement::Definition(id, e) => {
            write_identifier(&mut out, *id);
            out.append(" = ");
            write_expression(&mut out, e);
            assert(out@ =~= statement_text(s@));
        },
        TypedStatement::Condition(a, b) => {
            write_expression(&mut out, a);
            out.append(" == ");
            write_expression(&mut out, b);
            assert(out@ =~= statement_text(s@));
        },
        TypedStatement::For(id, from, to, body) => {
            proof {
                lemma_typed_view(body@);
            }
            out.append("for ");
            write_identifier(&mut out, *id);
            out.append(" in ");
            write_expression(&mut out, from);
            out.append("..");
            write_expression(&mut out, to);
            out.append(" do ");
            let digits = decimal_text(body.len() as u64);
            out.append(digits.as_str());
            out.append(" statements endfor");
            assert(out@ =~= statement_text(s@));
        },
        TypedStatement::MultipleDefinition(ids, callee, args) => {
            write_identifiers(&mut out, ids);
            out.append(" = f");
            let digits = decimal_text(*callee as u64);
            out.append(digits.as_str());
            out.append("(");
            write_expressions(&mut out, args);
            out.append(")");
            assert(out@ =~= statement_text(s@));
        },
        TypedStatement::Return(es) => {
            out.append("return ");
            write_expressions(&mut out, es);
            assert(out@ =~= statement_text(s@));
        },
        TypedStatement::Log(text) => {
            out.append("log ");
            out.append(text.as_str());
            assert(out@ =~= statement_text(s@));
        },
    }
    out
}

/// Puts a line of log before every statement.
#[derive(Clone, Copy, Debug)]
pub struct StatementLogger {}

impl StatementLogger {
    /// The logger. It holds nothing: the lines depend on the
    /// statements alone.
    pub fn new() -> (r: StatementLogger)
        ensures
            r == (StatementLogger {  }),
    {
        StatementLogger {  }
    }

    /// The statement and, before it, the line that shows it.
    pub fn fold_statement(&self, s: TypedStatement) -> (r: Vec<TypedStatement>)
        ensures
            typed_view(r@) == seq![SpecTypedStatement::Log(statement_text(s@)), s@],
    {
        let mut out: Vec<TypedStatement> = Vec::new();
        let line = TypedStatement::Log(statement_notation(&s));
        proof {
            lemma_typed_view_push(out@, line);
            lemma_typed_view_push(out@.push(line), s);
            assert(typed_view(out@) =~= Seq::<SpecTypedStatement>::empty());
        }
        out.push(line);
        out.push(s);
        assert(typed_view(out@) =~= seq![SpecTypedStatement::Log(statement_text(s@)), s@]);
        out
    }

    /// Puts before every statement of every function the line that
    /// shows it. The statements inside a loop get none.
    pub fn create_logs(program: TypedProgram) -> (r: TypedProgram)
        ensures
            r@ == logged(program@),
    {
        let mut functions: Vec<TypedFunction> = Vec::new();
        let mut k: usize = 0;
        while k < program.functions.len()
            invariant
                k <= program.functions.len(),
                functions.len() == k,
                forall|j: int|
                    0 <= j < k ==> (#[trigger] functions@[j])@ == log_function(program@.functions[j]),
            decreases program.functions.len() - k,
        {
            let f = &program.functions[k];
            assert(program@.functions[k as int] == f@);
            let ghost s = f@.statements;
            let mut out: Vec<TypedStatement> = Vec::new();
            let mut j: usize = 0;
            proof {
                lemma_typed_view(f.statements@);
                assert(s.take(0) == Seq::<SpecTypedStatement>::empty());
                assert(typed_view(out@) =~= Seq::<SpecTypedStatement>::empty());
            }
            while j < f.statements.len()
                invariant
                    j <= f.statements.len(),
                    s == typed_view(f.statements@),
                    s.len() == f.statements.len(),
                    forall|i: int| 0 <= i < s.len() ==> s[i] == (#[trigger] f.statements@[i])@,
                    typed_view(out@) == log_statements(s.take(j as int)),
                decreases f.statements.len() - j,
            {
                let statement = &f.statements[j];
                let line = TypedStatement::Log(statement_notation(statement));
                let copy = statement.clone();
                proof {
                    lemma_typed_view_push(out@, line);
                    lemma_typed_view_push(out@.push(line), copy);
                    assert(s.take(j + 1).drop_last() == s.take(j as int));
                    assert(s.take(j + 1).last() == statement@);
                }
                out.push(line);
                out.push(copy);
                j += 1;
            }
            assert(s.take(j as int) == s);
            functions.push(
                TypedFunction {
                    parameters: clone_parameters(&f.parameters),
                    statements: out,
                    outputs: clone_kinds(&f.outputs),
                    variable_count: f.variable_count,
                },
            );
            k += 1;
        }
        let q = TypedProgram { field: program.field, functions, main: program.main };
        assert(q@.functions =~= logged(program@).functions);
        q
    }
}

} // verus!
