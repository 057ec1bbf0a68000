//! Typed expressions and their meaning.
//!
//! An expression has a field element or a boolean for its value. Its
//! variables are named by index; an environment gives each a value.

use crate::field::{inverse_of, invertible, Field};
use vstd::arithmetic::div_mod::lemma_mod_bound;
use vstd::prelude::*;

verus! {

/// A variable of a typed program, named by its index.
#[derive(Clone, Copy, Debug, PartialEq, Eq, Structural)]
pub struct Identifier {
    pub id: usize,
}

/// The value of an expression.
#[derive(Clone, Copy, Debug, PartialEq, Eq, Structural)]
pub enum Value {
    Field(u64),
    Boolean(bool),
}

/// The field element that stands for a value in a circuit: the element
/// itself, and 0 or 1 for a boolean.
pub open spec fn encode(v: Value) -> u64 {
    match v {
        Value::Field(x) => x,
        Value::Boolean(b) => if b {
            1
        } else {
            0
        },
    }
}

/// An operator on two operands.
#[derive(Clone, Copy, Debug, PartialEq, Eq, Structural)]
pub enum Operator {
    Add,
    Sub,
    Mult,
    Div,
    /// Whether two field elements are equal.
    Eq,
    /// Whether the first field element is below the second. Both have
    /// to fit the bits that the field leaves for comparisons.
    Lt,
    And,
    Or,
}

/// A typed expression.
#[derive(Debug)]
pub enum Expression {
    /// A field constant.
    Number(u64),
    /// A boolean constant.
    Boolean(bool),
    /// A variable that holds a field element.
    Variable(Identifier),
    /// A variable that holds a boolean.
    Flag(Identifier),
    Binary(Operator, Box<Expression>, Box<Expression>),
    Not(Box<Expression>),
    /// The second expression where the first holds, the third elsewhere.
    /// Both are evaluated.
    IfElse(Box<Expression>, Box<Expression>, Box<Expression>),
}

/// The value that the environment gives a variable.
pub open spec fn lookup(env: Seq<Option<Value>>, id: Identifier) -> Option<Value> {
    if id.id < env.len() {
        env[id.id as int]
    } else {
        None
    }
}

/// Two to the power of `n`.
pub open spec fn two_to(n: int) -> int
    decreases n,
{
    if n <= 0 {
        1
    } else {
        2 * two_to(n - 1)
    }
}

/// How many bits a field element may take to be compared: the largest
/// number of bits such that the difference of two such elements, moved
/// up by one more bit, still is below the modulus.
pub open spec fn width(p: int) -> int
    decreases p,
{
    if p < 4 {
        0
    } else {
        1 + width(p / 2)
    }
}

/// Two to the power of one more than the width is at most the modulus.
pub proof fn lemma_width(p: int)
    requires
        2 <= p,
    ensures
        0 <= width(p),
        two_to(width(p) + 1) <= p,
        two_to(width(p)) >= 1,
    decreases p,
{
    if p >= 4 {
        lemma_width(p / 2);
        assert(width(p) == 1 + width(p / 2));
        assert(two_to(width(p) + 1) == 2 * two_to(width(p / 2) + 1));
        assert(two_to(width(p)) == 2 * two_to(width(p / 2)));
    } else {
        assert(width(p) == 0);
        assert(two_to(1) == 2 * two_to(0));
        assert(two_to(0) == 1);
    }
}

/// Powers of two grow.
pub proof fn lemma_two_to_grows(i: int, j: int)
    requires
        0 <= i <= j,
    ensures
        1 <= two_to(i) <= two_to(j),
    decreases j,
{
    if i < j {
        lemma_two_to_grows(i, j - 1);
    } else if i > 0 {
        lemma_two_to_grows(i - 1, i - 1);
    }
}

/// The value of an operator on two values, over the integers modulo `p`.
/// There is none for operands of the wrong kind, for a divisor without
/// inverse, and for a comparison of elements that take too many bits.
pub open spec fn operate(op: Operator, x: Value, y: Value, p: int) -> Option<Value> {
    match (op, x, y) {
        (Operator::Add, Value::Field(a), Value::Field(b)) => Some(Value::Field(((a + b) % p) as u64)),
        (Operator::Sub, Value::Field(a), Value::Field(b)) => Some(Value::Field(((a - b) % p) as u64)),
        (Operator::Mult, Value::Field(a), Value::Field(b)) => Some(
            Value::Field(((a * b) % p) as u64),
        ),
        (Operator::Div, Value::Field(a), Value::Field(b)) => if invertible(b as int, p) {
            Some(Value::Field(((a * inverse_of(b as int, p)) % p) as u64))
        } else {
            None
        },
        (Operator::Eq, Value::Field(a), Value::Field(b)) => Some(Value::Boolean(a == b)),
        (Operator::Lt, Value::Field(a), Value::Field(b)) => if a < two_to(width(p)) && b < two_to(
            width(p),
        ) {
            Some(Value::Boolean(a < b))
        } else {
            None
        },
        (Operator::And, Value::Boolean(a), Value::Boolean(b)) => Some(Value::Boolean(a && b)),
        (Operator::Or, Value::Boolean(a), Value::Boolean(b)) => Some(Value::Boolean(a || b)),
        _ => None,
    }
}

/// The value chosen by a condition. Both branches are of one kind.
pub open spec fn choose_branch(c: Value, x: Value, y: Value) -> Option<Value> {
    match (c, x, y) {
        (Value::Boolean(t), Value::Field(a), Value::Field(b)) => Some(
            if t {
                x
            } else {
                y
            },
        ),
        (Value::Boolean(t), Value::Boolean(a), Value::Boolean(b)) => Some(
            if t {
                x
            } else {
                y
            },
        ),
        _ => None,
    }
}

/// The negation of a boolean.
pub open spec fn negate(x: Value) -> Option<Value> {
    match x {
        Value::Boolean(b) => Some(Value::Boolean(!b)),
        _ => None,
    }
}

/// The value of `e` under `env`, over the integers modulo `p`. There is
/// none where a variable has no value or a value of the wrong kind, where
/// an operand is of the wrong kind, or where a divisor has no inverse.
pub open spec fn evaluate(e: Expression, env: Seq<Option<Value>>, p: int) -> Option<Value>
    decreases e,
{
    match e {
        Expression::Number(c) => Some(Value::Field((c as int % p) as u64)),
        Expression::Boolean(b) => Some(Value::Boolean(b)),
        Expression::Variable(id) => match lookup(env, id) {
            Some(Value::Field(x)) => Some(Value::Field(x)),
            _ => None,
        },
        Expression::Flag(id) => match lookup(env, id) {
            Some(Value::Boolean(b)) => Some(Value::Boolean(b)),
            _ => None,
        },
        Expression::Binary(op, a, b) => match (evaluate(*a, env, p), evaluate(*b, env, p)) {
            (Some(x), Some(y)) => operate(op, x, y, p),
            _ => None,
        },
        Expression::Not(a) => match evaluate(*a, env, p) {
            Some(x) => negate(x),
            None => None,
        },
        Expression::IfElse(c, a, b) => match (
            evaluate(*c, env, p),
            evaluate(*a, env, p),
            evaluate(*b, env, p),
        ) {
            (Some(t), Some(x), Some(y)) => choose_branch(t, x, y),
            _ => None,
        },
    }
}

/// Every field element of the environment is reduced.
pub open spec fn env_within(env: Seq<Option<Value>>, p: int) -> bool {
    forall|i: int|
        0 <= i < env.len() && (#[trigger] env[i]) is Some && env[i].unwrap() is Field
            ==> env[i].unwrap()->Field_0 < p
}

/// The value of an expression is a reduced field element or a boolean.
pub proof fn lemma_evaluate_within(e: Expression, env: Seq<Option<Value>>, p: int)
    requires
        2 <= p <= u64::MAX,
        env_within(env, p),
        evaluate(e, env, p) is Some,
    ensures
        encode(evaluate(e, env, p).unwrap()) < p,
    decreases e,
{
    match e {
        Expression::Number(c) => {
            lemma_mod_bound(c as int, p);
        },
        Expression::Binary(op, a, b) => {
            let x = evaluate(*a, env, p).unwrap();
            let y = evaluate(*b, env, p).unwrap();
            match (op, x, y) {
                (Operator::Add, Value::Field(a), Value::Field(b)) => {
                    lemma_mod_bound(a + b, p);
                },
                (Operator::Sub, Value::Field(a), Value::Field(b)) => {
                    lemma_mod_bound(a - b, p);
                },
                (Operator::Mult, Value::Field(a), Value::Field(b)) => {
                    lemma_mod_bound(a * b, p);
                },
                (Operator::Div, Value::Field(a), Value::Field(b)) => {
                    lemma_mod_bound(a * inverse_of(b as int, p), p);
                },
                _ => {},
            }
        },
        Expression::IfElse(c, a, b) => {
            lemma_evaluate_within(*a, env, p);
            lemma_evaluate_within(*b, env, p);
        },
        _ => {},
    }
}

impl Clone for Expression {
    fn clone(&self) -> (r: Self)
        ensures
            r == *self,
        decreases *self,
    {
        match self {
            Expression::Number(c) => Expression::Number(*c),
            Expression::Boolean(b) => Expression::Boolean(*b),
            Expression::Variable(id) => Expression::Variable(*id),
            Expression::Flag(id) => Expression::Flag(*id),
            Expression::Binary(op, a, b) => Expression::Binary(
                *op,
                Box::new((**a).clone()),
                Box::new((**b).clone()),
            ),
            Expression::Not(a) => Expression::Not(Box::new((**a).clone())),
            Expression::IfElse(c, a, b) => Expression::IfElse(
                Box::new((**c).clone()),
                Box::new((**a).clone()),
                Box::new((**b).clone()),
            ),
        }
    }
}

/// The value of an operator on two values; see [`operate`].
pub fn apply_operator(op: Operator, x: Value, y: Value, field: &Field) -> (r: Option<Value>)
    requires
        field.wf(),
        encode(x) < field.modulus,
        encode(y) < field.modulus,
    ensures
        r == operate(op, x, y, field.modulus as int),
{
    match (op, x, y) {
        (Operator::Add, Value::Field(a), Value::Field(b)) => Some(Value::Field(field.add(a, b))),
        (Operator::Sub, Value::Field(a), Value::Field(b)) => Some(Value::Field(field.sub(a, b))),
        (Operator::Mult, Value::Field(a), Value::Field(b)) => Some(Value::Field(field.mul(a, b))),
        (Operator::Div, Value::Field(a), Value::Field(b)) => match field.div(a, b) {
            Some(q) => Some(Value::Field(q)),
            None => None,
        },
        (Operator::Eq, Value::Field(a), Value::Field(b)) => Some(Value::Boolean(a == b)),
        (Operator::Lt, Value::Field(a), Value::Field(b)) => {
            let bound = comparison_bound(field);
            if a < bound && b < bound {
                Some(Value::Boolean(a < b))
            } else {
                None
            }
        },
        (Operator::And, Value::Boolean(a), Value::Boolean(b)) => Some(Value::Boolean(a && b)),
        (Operator::Or, Value::Boolean(a), Value::Boolean(b)) => Some(Value::Boolean(a || b)),
        _ => None,
    }
}

/// How many bits a field element may take to be compared; see [`width`].
pub fn comparison_width(field: &Field) -> (r: usize)
    requires
        field.wf(),
    ensures
        r == width(field.modulus as int),
        r <= 62,
{
    let mut n: usize = 0;
    let mut q: u64 = field.modulus;
    let ghost p = field.modulus as int;
    while q >= 4
        invariant
            n <= 62,
            q >= 2 || n == 0,
            n + width(q as int) == width(p),
            q as int * two_to(n as int) <= p,
            p <= u64::MAX,
        decreases q,
    {
        proof {
            lemma_two_to_grows(0, n as int);
            assert(two_to(n + 1) == 2 * two_to(n as int));
            assert((q / 2) as int * (2 * two_to(n as int)) <= q as int * two_to(n as int))
                by (nonlinear_arith)
                requires
                    q >= 0,
                    two_to(n as int) >= 0,
                    (q / 2) * 2 <= q,
            ;
            if n >= 62 {
                lemma_two_to_grows(62, n as int);
                lemma_two_to_62();
                assert(q as int * two_to(n as int) >= 4 * two_to(62)) by (nonlinear_arith)
                    requires
                        q >= 4,
                        two_to(n as int) >= two_to(62),
                        two_to(62) >= 0,
                ;
            }
            lemma_two_to_grows(0, n as int);
        }
        q = q / 2;
        n += 1;
    }
    n
}

proof fn lemma_two_to_62()
    ensures
        two_to(62) == 0x4000_0000_0000_0000,
{
    reveal_with_fuel(two_to, 64);
}

/// The bound below which field elements may be compared: two to the
/// power of the width.
pub fn comparison_bound(field: &Field) -> (r: u64)
    requires
        field.wf(),
    ensures
        r == two_to(width(field.modulus as int)),
{
    let n = comparison_width(field);
    power_of_two(n)
}

/// Two to the power of `n`.
pub fn power_of_two(n: usize) -> (r: u64)
    requires
        n <= 62,
    ensures
        r == two_to(n as int),
        r <= 0x4000_0000_0000_0000,
{
    let mut r: u64 = 1;
    let mut i: usize = 0;
    proof {
        lemma_two_to_62();
    }
    while i < n
        invariant
            i <= n,
            n <= 62,
            r == two_to(i as int),
            two_to(62) == 0x4000_0000_0000_0000,
        decreases n - i,
    {
        proof {
            lemma_two_to_grows(i + 1, 62);
        }
        r = r * 2;
        i += 1;
    }
    proof {
        lemma_two_to_grows(n as int, 62);
    }
    r
}

impl Expression {
    /// Evaluates the expression under `env`; see [`evaluate`].
    pub fn evaluate(&self, env: &Vec<Option<Value>>, field: &Field) -> (r: Option<Value>)
        requires
            field.wf(),
            env_within(env@, field.modulus as int),
        ensures
            r == evaluate(*self, env@, field.modulus as int),
            r is Some ==> encode(r.unwrap()) < field.modulus,
        decreases *self,
    {
        proof {
            if evaluate(*self, env@, field.modulus as int) is Some {
                lemma_evaluate_within(*self, env@, field.modulus as int);
            }
        }
        match self {
            Expression::Number(c) => Some(Value::Field(field.reduce(*c))),
            Expression::Boolean(b) => Some(Value::Boolean(*b)),
            Expression::Variable(id) => {
                if id.id < env.len() {
                    match env[id.id] {
                        Some(Value::Field(x)) => Some(Value::Field(x)),
                        _ => None,
                    }
                } else {
                    None
                }
            },
            Expression::Flag(id) => {
                if id.id < env.len() {
                    match env[id.id] {
                        Some(Value::Boolean(b)) => Some(Value::Boolean(b)),
                        _ => None,
                    }
                } else {
                    None
                }
            },
            Expression::Binary(op, a, b) => {
                let x = a.evaluate(env, field);
                let y = b.evaluate(env, field);
                match (x, y) {
                    (Some(x), Some(y)) => apply_operator(*op, x, y, field),
                    _ => None,
                }
            },
            Expression::Not(a) => match a.evaluate(env, field) {
                Some(Value::Boolean(x)) => Some(Value::Boolean(!x)),
                _ => None,
            },
            Expression::IfElse(c, a, b) => {
                let t = c.evaluate(env, field);
                let x = a.evaluate(env, field);
                let y = b.evaluate(env, field);
                match (t, x, y) {
                    (Some(Value::Boolean(t)), Some(Value::Field(x)), Some(Value::Field(y))) => Some(
                        Value::Field(
                            if t {
                                x
                            } else {
                                y
                            },
                        ),
                    ),
                    (
                        Some(Value::Boolean(t)),
                        Some(Value::Boolean(x)),
                        Some(Value::Boolean(y)),
                    ) => Some(
                        Value::Boolean(
                            if t {
                                x
                            } else {
                                y
                            },
                        ),
                    ),
                    _ => None,
                }
            },
        }
    }
}

} // verus!

verus! {

/// A statement of a typed program.
#[derive(Debug)]
pub enum TypedStatement {
    /// Gives the variable the value of the expression.
    Definition(Identifier, Expression),
    /// Asserts that the two expressions have the same value.
    Condition(Expression, Expression),
    /// Runs the statements once for each value from the first bound up
    /// to, and without, the second, with the variable holding that value.
    For(Identifier, Expression, Expression, Vec<TypedStatement>),
    /// Gives the variables the values that the function with the given
    /// index returns on the arguments.
    MultipleDefinition(Vec<Identifier>, usize, Vec<Expression>),
    /// Ends the function with the values of the expressions.
    Return(Vec<Expression>),
    /// A line of text for the log of an execution.
    Log(String),
}

/// The mathematical content of a [`TypedStatement`].
pub enum SpecTypedStatement {
    Definition(Identifier, Expression),
    Condition(Expression, Expression),
    For(Identifier, Expression, Expression, Seq<SpecTypedStatement>),
    MultipleDefinition(Seq<Identifier>, usize, Seq<Expression>),
    Return(Seq<Expression>),
    Log(Seq<char>),
}

/// The mathematical content of a statement.
pub open spec fn statement_view(s: TypedStatement) -> SpecTypedStatement
    decreases s,
{
    match s {
        TypedStatement::Definition(id, e) => SpecTypedStatement::Definition(id, e),
        TypedStatement::Condition(a, b) => SpecTypedStatement::Condition(a, b),
        TypedStatement::For(id, from, to, body) => SpecTypedStatement::For(
            id,
            from,
            to,
            typed_view(body@),
        ),
        TypedStatement::MultipleDefinition(ids, callee, args) => SpecTypedStatement::MultipleDefinition(
            ids@,
            callee,
            args@,
        ),
        TypedStatement::Return(es) => SpecTypedStatement::Return(es@),
        TypedStatement::Log(text) => SpecTypedStatement::Log(text@),
    }
}

/// The statements of a sequence, each by its view.
pub open spec fn typed_view(v: Seq<TypedStatement>) -> Seq<SpecTypedStatement>
    decreases v,
{
    if v.len() == 0 {
        Seq::<SpecTypedStatement>::empty()
    } else {
        typed_view(v.drop_last()).push(statement_view(v.last()))
    }
}

impl View for TypedStatement {
    type V = SpecTypedStatement;

    open spec fn view(&self) -> SpecTypedStatement {
        statement_view(*self)
    }
}

/// The view of a sequence of statements holds the view of each.
pub broadcast proof fn lemma_typed_view(v: Seq<TypedStatement>)
    ensures
        #![trigger typed_view(v)]
        typed_view(v).len() == v.len(),
        forall|k: int| 0 <= k < v.len() ==> #[trigger] typed_view(v)[k] == v[k]@,
    decreases v.len(),
{
    if v.len() > 0 {
        lemma_typed_view(v.drop_last());
        assert forall|k: int| 0 <= k < v.len() implies #[trigger] typed_view(v)[k] == v[k]@ by {
            if k < v.len() - 1 {
                assert(v.drop_last()[k] == v[k]);
            }
        }
    }
}

/// The view of a sequence with one more statement.
pub proof fn lemma_typed_view_push(v: Seq<TypedStatement>, s: TypedStatement)
    ensures
        typed_view(v.push(s)) == typed_view(v).push(s@),
{
    assert(v.push(s).drop_last() == v);
}

/// A copy of the expressions.
pub fn clone_expressions(v: &Vec<Expression>) -> (r: Vec<Expression>)
    ensures
        r@ == v@,
{
    let mut out: Vec<Expression> = Vec::new();
    let mut k: usize = 0;
    while k < v.len()
        invariant
            k <= v.len(),
            out@ == v@.take(k as int),
        decreases v.len() - k,
    {
        out.push(v[k].clone());
        assert(v@.take(k + 1) == v@.take(k as int).push(v@[k as int]));
        k += 1;
    }
    assert(v@.take(k as int) == v@);
    out
}

/// A copy of the identifiers.
pub fn clone_identifiers(v: &Vec<Identifier>) -> (r: Vec<Identifier>)
    ensures
        r@ == v@,
{
    let mut out: Vec<Identifier> = Vec::new();
    let mut k: usize = 0;
    while k < v.len()
        invariant
            k <= v.len(),
            out@ == v@.take(k as int),
        decreases v.len() - k,
    {
        out.push(v[k]);
        assert(v@.take(k + 1) == v@.take(k as int).push(v@[k as int]));
        k += 1;
    }
    assert(v@.take(k as int) == v@);
    out
}

impl Clone for TypedStatement {
    fn clone(&self) -> (r: Self)
        ensures
            r@ == self@,
        decreases *self,
    {
        match self {
            TypedStatement::Definition(id, e) => TypedStatement::Definition(*id, e.clone()),
            TypedStatement::Condition(a, b) => TypedStatement::Condition(a.clone(), b.clone()),
            TypedStatement::For(id, from, to, body) => {
                let mut out: Vec<TypedStatement> = Vec::new();
                let mut k: usize = 0;
                while k < body.len()
                    invariant
                        k <= body.len(),
                        out.len() == k,
                        self is For,
                        self->For_3 == body,
                        forall|j: int| 0 <= j < k ==> out@[j]@ == body@[j]@,
                    decreases body.len() - k,
                {
                    out.push(body[k].clone());
                    k += 1;
                }
                proof {
                    lemma_typed_view(out@);
                    lemma_typed_view(body@);
                    assert(typed_view(out@) =~= typed_view(body@));
                }
                TypedStatement::For(*id, from.clone(), to.clone(), out)
            },
            TypedStatement::MultipleDefinition(ids, callee, args) => TypedStatement::MultipleDefinition(
                clone_identifiers(ids),
                *callee,
                clone_expressions(args),
            ),
            TypedStatement::Return(es) => TypedStatement::Return(clone_expressions(es)),
            TypedStatement::Log(text) => TypedStatement::Log(text.clone()),
        }
    }
}

/// What a parameter holds.
#[derive(Clone, Copy, Debug, PartialEq, Eq, Structural)]
pub enum Kind {
    Field,
    Boolean,
}

/// A formal input of a function.
#[derive(Clone, Copy, Debug, PartialEq, Eq, Structural)]
pub struct Parameter {
    pub id: Identifier,
    pub kind: Kind,
    pub private: bool,
}

/// A function of a typed program. Its variables are numbered below
/// `variable_count`.
#[derive(Debug)]
pub struct TypedFunction {
    pub parameters: Vec<Parameter>,
    pub statements: Vec<TypedStatement>,
    /// The kinds of the values that the function returns.
    pub outputs: Vec<Kind>,
    pub variable_count: usize,
}

/// The mathematical content of a [`TypedFunction`].
pub struct SpecFunction {
    pub parameters: Seq<Parameter>,
    pub statements: Seq<SpecTypedStatement>,
    pub outputs: Seq<Kind>,
    pub variable_count: usize,
}

impl View for TypedFunction {
    type V = SpecFunction;

    open spec fn view(&self) -> SpecFunction {
        SpecFunction {
            parameters: self.parameters@,
            statements: typed_view(self.statements@),
            outputs: self.outputs@,
            variable_count: self.variable_count,
        }
    }
}

/// A typed program: its functions, and the index of the one that is run.
#[derive(Debug)]
pub struct TypedProgram {
    pub field: Field,
    pub functions: Vec<TypedFunction>,
    pub main: usize,
}

/// The mathematical content of a [`TypedProgram`].
pub struct SpecTypedProgram {
    pub field: Field,
    pub functions: Seq<SpecFunction>,
    pub main: usize,
}

/// The functions of a vector, each by its view.
pub open spec fn functions_view(v: Seq<TypedFunction>) -> Seq<SpecFunction> {
    Seq::new(v.len(), |k: int| v[k]@)
}

impl View for TypedProgram {
    type V = SpecTypedProgram;

    open spec fn view(&self) -> SpecTypedProgram {
        SpecTypedProgram {
            field: self.field,
            functions: functions_view(self.functions@),
            main: self.main,
        }
    }
}

impl SpecTypedProgram {
    /// The program has a usable field and a function to run.
    pub open spec fn wf(self) -> bool {
        self.field.wf() && self.main < self.functions.len()
    }
}

impl TypedProgram {
    /// Whether the program has a usable field and a function to run.
    pub fn is_well_formed(&self) -> (r: bool)
        ensures
            r == self@.wf(),
    {
        self.field.modulus >= 2 && self.main < self.functions.len()
    }
}

} // verus!

verus! {

/// Neither a loop nor a call.
pub open spec fn straight(s: SpecTypedStatement) -> bool {
    !(s is For) && !(s is MultipleDefinition)
}

/// The position of the first loop or call among the statements, if any.
pub open spec fn first_unexpected(s: Seq<SpecTypedStatement>) -> Option<usize>
    decreases s.len(),
{
    if s.len() == 0 {
        None
    } else {
        match first_unexpected(s.drop_last()) {
            Some(k) => Some(k),
            None => if straight(s.last()) {
                None
            } else {
                Some((s.len() - 1) as usize)
            },
        }
    }
}

/// Where no loop or call is found, every statement is neither.
pub proof fn lemma_all_straight(s: Seq<SpecTypedStatement>)
    requires
        first_unexpected(s) is None,
    ensures
        forall|k: int| 0 <= k < s.len() ==> straight(#[trigger] s[k]),
    decreases s.len(),
{
    if s.len() > 0 {
        lemma_all_straight(s.drop_last());
        assert forall|k: int| 0 <= k < s.len() implies straight(#[trigger] s[k]) by {
            if k < s.len() - 1 {
                assert(s.drop_last()[k] == s[k]);
            }
        }
    }
}

/// Statements that are neither loop nor call hold no first one.
pub proof fn lemma_none_unexpected(s: Seq<SpecTypedStatement>)
    requires
        forall|k: int| 0 <= k < s.len() ==> straight(#[trigger] s[k]),
    ensures
        first_unexpected(s) is None,
    decreases s.len(),
{
    if s.len() > 0 {
        assert forall|k: int| 0 <= k < s.len() - 1 implies straight(#[trigger] s.drop_last()[k]) by {
            assert(s.drop_last()[k] == s[k]);
        }
        lemma_none_unexpected(s.drop_last());
    }
}

/// What is found in a prefix is found in the whole.
pub proof fn lemma_first_unexpected_prefix(s: Seq<SpecTypedStatement>, k: int)
    requires
        0 <= k <= s.len(),
        first_unexpected(s.take(k)) is Some,
    ensures
        first_unexpected(s) == first_unexpected(s.take(k)),
    decreases s.len(),
{
    if k == s.len() {
        assert(s.take(k) == s);
    } else {
        assert(s.drop_last().take(k) == s.take(k));
        lemma_first_unexpected_prefix(s.drop_last(), k);
    }
}

/// Finds the first loop or call among the statements.
pub fn find_unexpected(statements: &Vec<TypedStatement>) -> (r: Option<usize>)
    ensures
        r == first_unexpected(typed_view(statements@)),
{
    let ghost s = typed_view(statements@);
    proof {
        lemma_typed_view(statements@);
    }
    let mut k: usize = 0;
    assert(s.take(0) == Seq::<SpecTypedStatement>::empty());
    while k < statements.len()
        invariant
            k <= statements.len(),
            s == typed_view(statements@),
            s.len() == statements.len(),
            forall|j: int| 0 <= j < s.len() ==> s[j] == (#[trigger] statements@[j])@,
            first_unexpected(s.take(k as int)) is None,
        decreases statements.len() - k,
    {
        assert(s.take(k + 1).drop_last() == s.take(k as int));
        assert(s.take(k + 1).last() == statements@[k as int]@);
        match &statements[k] {
            TypedStatement::For(_, _, _, _) => {
                proof {
                    lemma_first_unexpected_prefix(s, k + 1);
                }
                return Some(k);
            },
            TypedStatement::MultipleDefinition(_, _, _) => {
                proof {
                    lemma_first_unexpected_prefix(s, k + 1);
                }
                return Some(k);
            },
            _ => {},
        }
        k += 1;
    }
    assert(s.take(k as int) == s);
    None
}

/// A copy of the parameters.
pub fn clone_parameters(v: &Vec<Parameter>) -> (r: Vec<Parameter>)
    ensures
        r@ == v@,
{
    let mut out: Vec<Parameter> = Vec::new();
    let mut k: usize = 0;
    while k < v.len()
        invariant
            k <= v.len(),
            out@ == v@.take(k as int),
        decreases v.len() - k,
    {
        out.push(v[k]);
        assert(v@.take(k + 1) == v@.take(k as int).push(v@[k as int]));
        k += 1;
    }
    assert(v@.take(k as int) == v@);
    out
}

/// A copy of the kinds.
pub fn clone_kinds(v: &Vec<Kind>) -> (r: Vec<Kind>)
    ensures
        r@ == v@,
{
    let mut out: Vec<Kind> = Vec::new();
    let mut k: usize = 0;
    while k < v.len()
        invariant
            k <= v.len(),
            out@ == v@.take(k as int),
        decreases v.len() - k,
    {
        out.push(v[k]);
        assert(v@.take(k + 1) == v@.take(k as int).push(v@[k as int]));
        k += 1;
    }
    assert(v@.take(k as int) == v@);
    out
}

impl TypedProgram {
    /// Puts `statements` in the place of the statements of the main
    /// function. Everything else stays.
    pub fn with_main_statements(self, statements: Vec<TypedStatement>) -> (r: TypedProgram)
        requires
            self@.wf(),
        ensures
            r@ == self@.with_main_statements(typed_view(statements@)),
            r@.wf(),
    {
        let mut program = self;
        let main = program.main;
        let old_main = &program.functions[main];
        let replaced = TypedFunction {
            parameters: clone_parameters(&old_main.parameters),
            statements,
            outputs: clone_kinds(&old_main.outputs),
            variable_count: old_main.variable_count,
        };
        program.functions.set(main, replaced);
        assert(program@.functions =~= self@.with_main_statements(
            typed_view(statements@),
        ).functions);
        program
    }

    /// The function that is run.
    pub fn main_function(&self) -> (r: &TypedFunction)
        requires
            self@.wf(),
        ensures
            r@ == self@.main_function(),
    {
        &self.functions[self.main]
    }
}

impl SpecTypedProgram {
    /// The function that is run.
    pub open spec fn main_function(self) -> SpecFunction {
        self.functions[self.main as int]
    }

    /// The program with other statements in its main function.
    pub open spec fn with_main_statements(self, statements: Seq<SpecTypedStatement>) -> SpecTypedProgram {
        SpecTypedProgram {
            functions: self.functions.update(
                self.main as int,
                SpecFunction { statements, ..self.main_function() },
            ),
            ..self
        }
    }
}

} // verus!

verus! {

/// The environment after a statement of a straight-line function in
/// single-assignment form. A definition gives a variable that has no
/// value the value of its expression; a condition asks that its two
/// sides have the same value; a line for the log does nothing. There is
/// none where the statement fails, and none for a loop, a call or a
/// return.
pub open spec fn perform(s: SpecTypedStatement, env: Seq<Option<Value>>, p: int) -> Option<
    Seq<Option<Value>>,
> {
    match s {
        SpecTypedStatement::Definition(id, e) => match evaluate(e, env, p) {
            Some(v) => if id.id < env.len() && env[id.id as int] is None {
                Some(env.update(id.id as int, Some(v)))
            } else {
                None
            },
            None => None,
        },
        SpecTypedStatement::Condition(a, b) => match (evaluate(a, env, p), evaluate(b, env, p)) {
            (Some(x), Some(y)) => if x == y {
                Some(env)
            } else {
                None
            },
            _ => None,
        },
        SpecTypedStatement::Log(_) => Some(env),
        _ => None,
    }
}

/// The values of the expressions, where every one has a value.
pub open spec fn evaluate_each(es: Seq<Expression>, env: Seq<Option<Value>>, p: int) -> Option<
    Seq<Value>,
> {
    if forall|k: int| 0 <= k < es.len() ==> evaluate(#[trigger] es[k], env, p) is Some {
        Some(Seq::new(es.len(), |k: int| evaluate(es[k], env, p).unwrap()))
    } else {
        None
    }
}

/// What the statements return from `env`: the values of their first
/// return, where every statement before it succeeds.
pub open spec fn outputs_of(s: Seq<SpecTypedStatement>, env: Seq<Option<Value>>, p: int) -> Option<
    Seq<Value>,
>
    decreases s.len(),
{
    if s.len() == 0 {
        None
    } else {
        match s[0] {
            SpecTypedStatement::Return(es) => evaluate_each(es, env, p),
            other => match perform(other, env, p) {
                Some(next) => outputs_of(s.drop_first(), next, p),
                None => None,
            },
        }
    }
}

/// The value is of the kind.
pub open spec fn of_kind(v: Value, kind: Kind) -> bool {
    match kind {
        Kind::Field => v is Field,
        Kind::Boolean => v is Boolean,
    }
}

/// The environment in which the parameters from the `k`-th on hold the
/// arguments. There is none where an argument is of the wrong kind or a
/// parameter cannot take a value.
pub open spec fn bind_arguments(
    parameters: Seq<Parameter>,
    k: int,
    arguments: Seq<Value>,
    env: Seq<Option<Value>>,
) -> Option<Seq<Option<Value>>>
    decreases parameters.len() - k,
{
    if k < 0 || k >= parameters.len() {
        Some(env)
    } else if k >= arguments.len() || !of_kind(arguments[k], parameters[k].kind)
        || parameters[k].id.id >= env.len() || env[parameters[k].id.id as int] is Some {
        None
    } else {
        bind_arguments(
            parameters,
            k + 1,
            arguments,
            env.update(parameters[k].id.id as int, Some(arguments[k])),
        )
    }
}

/// The environment in which no variable has a value.
pub open spec fn empty_env(n: int) -> Seq<Option<Value>> {
    Seq::new(n as nat, |i: int| None::<Value>)
}

/// What a straight-line function in single-assignment form returns on
/// the arguments.
pub open spec fn meaning(f: SpecFunction, arguments: Seq<Value>, p: int) -> Option<Seq<Value>> {
    if arguments.len() != f.parameters.len() {
        None
    } else {
        match bind_arguments(f.parameters, 0, arguments, empty_env(f.variable_count as int)) {
            Some(env) => outputs_of(f.statements, env, p),
            None => None,
        }
    }
}

/// A value is a reduced field element or a boolean.
pub open spec fn value_within(v: Value, p: int) -> bool {
    v is Field ==> v->Field_0 < p
}

/// The values of the expressions; see [`evaluate_each`].
pub(crate) fn evaluate_all(es: &Vec<Expression>, env: &Vec<Option<Value>>, field: &Field) -> (r: Option<
    Vec<Value>,
>)
    requires
        field.wf(),
        env_within(env@, field.modulus as int),
    ensures
        match r {
            Some(values) => evaluate_each(es@, env@, field.modulus as int) == Some(values@),
            None => evaluate_each(es@, env@, field.modulus as int) is None,
        },
{
    let ghost p = field.modulus as int;
    let mut values: Vec<Value> = Vec::new();
    let mut k: usize = 0;
    while k < es.len()
        invariant
            k <= es.len(),
            field.wf(),
            p == field.modulus as int,
            env_within(env@, p),
            values.len() == k,
            forall|j: int| 0 <= j < k ==> evaluate(#[trigger] es@[j], env@, p) == Some(values@[j]),
        decreases es.len() - k,
    {
        match es[k].evaluate(env, field) {
            Some(v) => {
                values.push(v);
            },
            None => {
                assert(evaluate(es@[k as int], env@, p) is None);
                return None;
            },
        }
        k += 1;
    }
    assert(values@ =~= Seq::new(es@.len(), |j: int| evaluate(es@[j], env@, p).unwrap()));
    Some(values)
}

impl TypedFunction {
    /// Runs a straight-line function in single-assignment form on the
    /// arguments; see [`meaning`].
    pub fn execute(&self, arguments: &Vec<Value>, field: &Field) -> (r: Option<Vec<Value>>)
        requires
            field.wf(),
            forall|k: int|
                0 <= k < arguments@.len() ==> value_within(
                    #[trigger] arguments@[k],
                    field.modulus as int,
                ),
        ensures
            match r {
                Some(values) => meaning(self@, arguments@, field.modulus as int) == Some(values@),
                None => meaning(self@, arguments@, field.modulus as int) is None,
            },
    {
        let ghost p = field.modulus as int;
        let ghost s = self@.statements;
        if arguments.len() != self.parameters.len() {
            return None;
        }
        let mut env: Vec<Option<Value>> = Vec::new();
        while env.len() < self.variable_count
            invariant
                env.len() <= self.variable_count,
                forall|i: int| 0 <= i < env.len() ==> (#[trigger] env@[i]) is None,
            decreases self.variable_count - env.len(),
        {
            env.push(None);
        }
        assert(env@ =~= empty_env(self.variable_count as int));
        let mut k: usize = 0;
        while k < self.parameters.len()
            invariant
                k <= self.parameters.len(),
                arguments.len() == self.parameters.len(),
                env_within(env@, p),
                forall|j: int|
                    0 <= j < arguments@.len() ==> value_within(#[trigger] arguments@[j], p),
                bind_arguments(self.parameters@, k as int, arguments@, env@) == bind_arguments(
                    self.parameters@,
                    0,
                    arguments@,
                    empty_env(self.variable_count as int),
                ),
            decreases self.parameters.len() - k,
        {
            let parameter = self.parameters[k];
            let argument = arguments[k];
            let fits = match (parameter.kind, argument) {
                (Kind::Field, Value::Field(_)) => true,
                (Kind::Boolean, Value::Boolean(_)) => true,
                _ => false,
            };
            if !fits || parameter.id.id >= env.len() || env[parameter.id.id].is_some() {
                return None;
            }
            assert(value_within(arguments@[k as int], p));
            env.set(parameter.id.id, Some(argument));
            k += 1;
        }
        let mut j: usize = 0;
        proof {
            lemma_typed_view(self.statements@);
            assert(s.skip(0) == s);
        }
        while j < self.statements.len()
            invariant
                j <= self.statements.len(),
                field.wf(),
                p == field.modulus as int,
                s == typed_view(self.statements@),
                s == self@.statements,
                s.len() == self.statements.len(),
                forall|i: int| 0 <= i < s.len() ==> s[i] == (#[trigger] self.statements@[i])@,
                arguments@.len() == self@.parameters.len(),
                env_within(env@, p),
                outputs_of(s.skip(j as int), env@, p) == meaning(self@, arguments@, p),
            decreases self.statements.len() - j,
        {
            let ghost rest = s.skip(j as int);
            proof {
                assert(rest[0] == s[j as int]);
                assert(rest.drop_first() == s.skip(j + 1));
                assert(s[j as int] == self.statements@[j as int]@);
            }
            match &self.statements[j] {
                TypedStatement::Return(es) => {
                    return evaluate_all(es, &env, field);
                },
                TypedStatement::Definition(id, e) => {
                    match e.evaluate(&env, field) {
                        Some(v) => {
                            if id.id < env.len() && env[id.id].is_none() {
                                env.set(id.id, Some(v));
                            } else {
                                return None;
                            }
                        },
                        None => {
                            return None;
                        },
                    }
                },
                TypedStatement::Condition(a, b) => {
                    let x = a.evaluate(&env, field);
                    let y = b.evaluate(&env, field);
                    match (x, y) {
                        (Some(x), Some(y)) => {
                            let same = match (x, y) {
                                (Value::Field(u), Value::Field(v)) => u == v,
                                (Value::Boolean(u), Value::Boolean(v)) => u == v,
                                _ => false,
                            };
                            if !same {
                                return None;
                            }
                        },
                        _ => {
                            return None;
                        },
                    }
                },
                TypedStatement::Log(_) => {},
                _ => {
                    return None;
                },
            }
            j += 1;
        }
        assert(s.skip(j as int) == Seq::<SpecTypedStatement>::empty());
        None
    }
}

} // verus!

verus! {

/// What has a value from what is known has it in every environment
/// that holds what is known.
pub proof fn lemma_known(e: Expression, known: Seq<Option<Value>>, ssa: Seq<Option<Value>>, p: int)
    requires
        known.len() <= ssa.len(),
        forall|id: int| 0 <= id < known.len() && (#[trigger] known[id]) is Some ==> ssa[id] == known[id],
        evaluate(e, known, p) is Some,
    ensures
        evaluate(e, ssa, p) == evaluate(e, known, p),
    decreases e,
{
    match e {
        Expression::Variable(id) => {
            assert(known[id.id as int] is Some);
        },
        Expression::Flag(id) => {
            assert(known[id.id as int] is Some);
        },
        Expression::Binary(_, a, b) => {
            lemma_known(*a, known, ssa, p);
            lemma_known(*b, known, ssa, p);
        },
        Expression::Not(a) => {
            lemma_known(*a, known, ssa, p);
        },
        Expression::IfElse(c, a, b) => {
            lemma_known(*c, known, ssa, p);
            lemma_known(*a, known, ssa, p);
            lemma_known(*b, known, ssa, p);
        },
        _ => {},
    }
}

} // verus!
