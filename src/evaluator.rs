//! Evaluation of expression trees against a context of variables and
//! functions, with a trace of the arithmetic performed.

use vstd::prelude::*;
use crate::rational::{
    difference, fits, lemma_view_injective, negation, product, quotient, rational_text, sum,
    Rational,
};
use crate::syntax::{ASTNode, Expr};
use crate::text::push_char;

verus! {

/// The model of an [`EvaluationError`].
pub enum Failure {
    DivisionByZero,
    UndefinedVariable(Seq<char>),
    UndefinedFunction(Seq<char>),
    SyntaxError(Seq<char>),
    Overflow,
}

/// Why an evaluation failed.
#[derive(Clone, Debug, PartialEq)]
pub enum EvaluationError {
    DivisionByZero,
    UndefinedVariable(String),
    UndefinedFunction(String),
    SyntaxError(String),
    /// A result whose numerator or denominator does not fit in 64 bits.
    Overflow,
}

impl View for EvaluationError {
    type V = Failure;

    open spec fn view(&self) -> Failure {
        match self {
            EvaluationError::DivisionByZero => Failure::DivisionByZero,
            EvaluationError::UndefinedVariable(s) => Failure::UndefinedVariable(s@),
            EvaluationError::UndefinedFunction(s) => Failure::UndefinedFunction(s@),
            EvaluationError::SyntaxError(s) => Failure::SyntaxError(s@),
            EvaluationError::Overflow => Failure::Overflow,
        }
    }
}

/// The value bound to `name` by the first entry that has it.
pub open spec fn find<V>(entries: Seq<(Seq<char>, V)>, name: Seq<char>) -> Option<V>
    decreases entries.len(),
{
    if entries.len() == 0 {
        None
    } else if entries[0].0 == name {
        Some(entries[0].1)
    } else {
        find(entries.drop_first(), name)
    }
}

proof fn lemma_find_first<V>(s: Seq<(Seq<char>, V)>, k: Seq<char>, i: int)
    requires
        0 <= i < s.len(),
        s[i].0 == k,
        forall|j: int| 0 <= j < i ==> s[j].0 != k,
    ensures
        find(s, k) == Some(s[i].1),
    decreases s.len(),
{
    if i > 0 {
        assert(s[0].0 != k);
        lemma_find_first(s.drop_first(), k, i - 1);
    }
}

proof fn lemma_find_absent<V>(s: Seq<(Seq<char>, V)>, k: Seq<char>)
    requires
        forall|j: int| 0 <= j < s.len() ==> s[j].0 != k,
    ensures
        find(s, k) is None,
    decreases s.len(),
{
    if s.len() > 0 {
        assert(s[0].0 != k);
        lemma_find_absent(s.drop_first(), k);
    }
}

proof fn lemma_find_update<V>(s: Seq<(Seq<char>, V)>, i: int, v: V, q: Seq<char>)
    requires
        0 <= i < s.len(),
        forall|j: int| 0 <= j < i ==> s[j].0 != s[i].0,
    ensures
        find(s.update(i, (s[i].0, v)), q) == if q == s[i].0 {
            Some(v)
        } else {
            find(s, q)
        },
    decreases s.len(),
{
    let k = s[i].0;
    let u = s.update(i, (k, v));
    if q == k {
        lemma_find_first(u, k, i);
    } else if i == 0 {
        assert(u.drop_first() =~= s.drop_first());
    } else if s[0].0 != q {
        assert(u.drop_first() =~= s.drop_first().update(i - 1, (k, v)));
        lemma_find_update(s.drop_first(), i - 1, v, q);
    }
}

proof fn lemma_find_push<V>(s: Seq<(Seq<char>, V)>, k: Seq<char>, v: V, q: Seq<char>)
    requires
        forall|j: int| 0 <= j < s.len() ==> s[j].0 != k,
    ensures
        find(s.push((k, v)), q) == if q == k {
            Some(v)
        } else {
            find(s, q)
        },
    decreases s.len(),
{
    let u = s.push((k, v));
    if s.len() == 0 {
        assert(u.drop_first() =~= Seq::<(Seq<char>, V)>::empty());
        assert(find(u.drop_first(), q) is None);
        assert(find(s, q) is None);
    } else if s[0].0 == q {
        assert(u[0] == s[0]);
    } else {
        assert(u.drop_first() =~= s.drop_first().push((k, v)));
        lemma_find_push(s.drop_first(), k, v, q);
    }
}

/// The position of the first entry named `name`.
fn index_of<V>(entries: &Vec<(String, V)>, name: &String) -> (r: Option<usize>)
    ensures
        match r {
            Some(i) => i < entries@.len() && entries@[i as int].0@ == name@ && forall|j: int|
                0 <= j < i ==> entries@[j].0@ != name@,
            None => forall|j: int| 0 <= j < entries@.len() ==> entries@[j].0@ != name@,
        },
{
    let mut i: usize = 0;
    while i < entries.len()
        invariant
            i <= entries@.len(),
            forall|j: int| 0 <= j < i ==> entries@[j].0@ != name@,
        decreases entries@.len() - i,
    {
        if entries[i].0 == *name {
            return Some(i);
        }
        i = i + 1;
    }
    None
}

/// `f` can be called on every number and gives one result for each.
pub open spec fn is_total_function<F: Fn(Rational) -> Rational>(f: F) -> bool {
    &&& forall|x: Rational| #[trigger] f.requires((x,))
    &&& forall|x: Rational, a: Rational, b: Rational|
        #[trigger] f.ensures((x,), a) && #[trigger] f.ensures((x,), b) ==> a == b
}

/// `f` may give `r` for the number `a`.
pub open spec fn yields<F: Fn(Rational) -> Rational>(f: F, a: (int, int), r: Rational) -> bool {
    exists|x: Rational| #[trigger] f.ensures((x,), r) && x@ == a
}

/// What `f` gives for the number `a`.
pub open spec fn apply<F: Fn(Rational) -> Rational>(f: F, a: (int, int)) -> (int, int) {
    (choose|r: Rational| yields(f, a, r))@
}

/// Named variables and unary functions that an evaluation reads.
pub struct EvaluationContext<F> {
    variables: Vec<(String, Rational)>,
    functions: Vec<(String, F)>,
}

impl<F> EvaluationContext<F> {
    /// No name is set twice.
    pub closed spec fn names_unique(&self) -> bool {
        &&& forall|i: int, j: int|
            0 <= i < j < self.variables@.len() ==> #[trigger] self.variables@[i].0@
                != #[trigger] self.variables@[j].0@
        &&& forall|i: int, j: int|
            0 <= i < j < self.functions@.len() ==> #[trigger] self.functions@[i].0@
                != #[trigger] self.functions@[j].0@
    }
}

impl<F: Fn(Rational) -> Rational> EvaluationContext<F> {
    pub closed spec fn variable_entries(&self) -> Seq<(Seq<char>, (int, int))> {
        self.variables@.map_values(|e: (String, Rational)| (e.0@, e.1@))
    }

    pub closed spec fn function_entries(&self) -> Seq<(Seq<char>, F)> {
        self.functions@.map_values(|e: (String, F)| (e.0@, e.1))
    }

    /// The value of the variable `name`, if it is set.
    pub open spec fn variable(&self, name: Seq<char>) -> Option<(int, int)> {
        find(self.variable_entries(), name)
    }

    /// The function `name`, if it is set.
    pub open spec fn function(&self, name: Seq<char>) -> Option<F> {
        find(self.function_entries(), name)
    }

    /// Every function that is set is total and gives one result for each
    /// argument.
    pub open spec fn functions_are_total(&self) -> bool {
        forall|k: Seq<char>| #[trigger]
            self.function(k) is Some ==> is_total_function(self.function(k)->Some_0)
    }

    /// A context with no variables and no functions.
    pub fn new() -> (r: Self)
        ensures
            forall|k: Seq<char>| #[trigger] r.variable(k) is None,
            forall|k: Seq<char>| #[trigger] r.function(k) is None,
            r.functions_are_total(),
            r.names_unique(),
    {
        let r = EvaluationContext { variables: Vec::new(), functions: Vec::new() };
        assert(r.variable_entries() =~= Seq::empty());
        assert(r.function_entries() =~= Seq::empty());
        r
    }

    /// Sets the variable `variable` to `value`, replacing any earlier value.
    pub fn set_variable(&mut self, variable: String, value: Rational)
        requires
            old(self).names_unique(),
        ensures
            final(self).names_unique(),
            forall|k: Seq<char>| #[trigger]
                final(self).variable(k) == if k == variable@ {
                    Some(value@)
                } else {
                    old(self).variable(k)
                },
            forall|k: Seq<char>| #[trigger] final(self).function(k) == old(self).function(k),
            final(self).functions_are_total() == old(self).functions_are_total(),
    {
        let ghost name = variable@;
        let ghost before = self.variable_entries();
        match index_of(&self.variables, &variable) {
            Some(i) => {
                self.variables.set(i, (variable, value));
                proof {
                    assert(self.variable_entries() =~= before.update(i as int, (name, value@)));
                    assert forall|k: Seq<char>| #[trigger]
                        self.variable(k) == if k == name {
                            Some(value@)
                        } else {
                            old(self).variable(k)
                        } by {
                        lemma_find_update(before, i as int, value@, k);
                    }
                }
            },
            None => {
                self.variables.push((variable, value));
                proof {
                    assert(self.variable_entries() =~= before.push((name, value@)));
                    assert forall|k: Seq<char>| #[trigger]
                        self.variable(k) == if k == name {
                            Some(value@)
                        } else {
                            old(self).variable(k)
                        } by {
                        lemma_find_push(before, name, value@, k);
                    }
                }
            },
        }
        assert(self.function_entries() =~= old(self).function_entries());
        assert(self.functions_are_total() == old(self).functions_are_total()) by {
            if old(self).functions_are_total() {
                assert forall|k: Seq<char>| #[trigger] self.function(k) is Some implies is_total_function(
                    self.function(k)->Some_0,
                ) by {
                    assert(old(self).function(k) is Some);
                }
            }
            if self.functions_are_total() {
                assert forall|k: Seq<char>| #[trigger] old(self).function(k) is Some implies is_total_function(
                    old(self).function(k)->Some_0,
                ) by {
                    assert(self.function(k) is Some);
                }
            }
        }
    }

    /// Sets the function `function` to `value`, replacing any earlier one.
    pub fn set_function(&mut self, function: String, value: F)
        requires
            old(self).names_unique(),
            is_total_function(value),
        ensures
            final(self).names_unique(),
            forall|k: Seq<char>| #[trigger]
                final(self).function(k) == if k == function@ {
                    Some(value)
                } else {
                    old(self).function(k)
                },
            forall|k: Seq<char>| #[trigger] final(self).variable(k) == old(self).variable(k),
            old(self).functions_are_total() ==> final(self).functions_are_total(),
    {
        let ghost name = function@;
        let ghost before = self.function_entries();
        match index_of(&self.functions, &function) {
            Some(i) => {
                self.functions.set(i, (function, value));
                proof {
                    assert(self.function_entries() =~= before.update(i as int, (name, value)));
                    assert forall|k: Seq<char>| #[trigger]
                        self.function(k) == if k == name {
                            Some(value)
                        } else {
                            old(self).function(k)
                        } by {
                        lemma_find_update(before, i as int, value, k);
                    }
                }
            },
            None => {
                self.functions.push((function, value));
                proof {
                    assert(self.function_entries() =~= before.push((name, value)));
                    assert forall|k: Seq<char>| #[trigger]
                        self.function(k) == if k == name {
                            Some(value)
                        } else {
                            old(self).function(k)
                        } by {
                        lemma_find_push(before, name, value, k);
                    }
                }
            },
        }
        assert(self.variable_entries() =~= old(self).variable_entries());
    }

    /// The value of the variable `variable`, if it is set.
    pub fn get_variable(&self, variable: &String) -> (r: Option<Rational>)
        ensures
            match r {
                Some(v) => self.variable(variable@) == Some(v@),
                None => self.variable(variable@) is None,
            },
    {
        let ghost entries = self.variable_entries();
        match index_of(&self.variables, variable) {
            Some(i) => {
                proof {
                    lemma_find_first(entries, variable@, i as int);
                }
                Some(self.variables[i].1)
            },
            None => {
                proof {
                    lemma_find_absent(entries, variable@);
                }
                None
            },
        }
    }

    /// The function `function`, if it is set.
    pub fn get_function(&self, function: &String) -> (r: Option<&F>)
        ensures
            match r {
                Some(f) => self.function(function@) == Some(*f),
                None => self.function(function@) is None,
            },
    {
        let ghost entries = self.function_entries();
        match index_of(&self.functions, function) {
            Some(i) => {
                proof {
                    lemma_find_first(entries, function@, i as int);
                }
                Some(&self.functions[i].1)
            },
            None => {
                proof {
                    lemma_find_absent(entries, function@);
                }
                None
            },
        }
    }
}

/// `a op b = c`, as a step of a trace.
pub open spec fn step_line(a: (int, int), op: char, b: (int, int), c: (int, int)) -> Seq<char> {
    rational_text(a) + seq![' ', op, ' '] + rational_text(b) + seq![' ', '=', ' '] + rational_text(
        c,
    )
}

/// `name(a) = c`, as a step of a trace.
pub open spec fn call_line(name: Seq<char>, a: (int, int), c: (int, int)) -> Seq<char> {
    name + seq!['('] + rational_text(a) + seq![')', ' ', '=', ' '] + rational_text(c)
}

/// `-a = c`, as a step of a trace.
pub open spec fn negation_line(a: (int, int), c: (int, int)) -> Seq<char> {
    seq!['-'] + rational_text(a) + seq![' ', '=', ' '] + rational_text(c)
}

pub open spec fn unknown_operator() -> Seq<char> {
    "Unknown operator"@
}

/// `p`, where it can be held by a [`Rational`].
pub open spec fn checked(p: (int, int)) -> Result<(int, int), Failure> {
    if fits(p) {
        Ok(p)
    } else {
        Err(Failure::Overflow)
    }
}

/// The binary operator `op` applied to `a` and `b`.
pub open spec fn combine(op: char, a: (int, int), b: (int, int)) -> Result<(int, int), Failure> {
    if op == '+' {
        checked(sum(a, b))
    } else if op == '-' {
        checked(difference(a, b))
    } else if op == '*' {
        checked(product(a, b))
    } else if op == '/' {
        if b.0 == 0 {
            Err(Failure::DivisionByZero)
        } else {
            checked(quotient(a, b))
        }
    } else {
        Err(Failure::SyntaxError(unknown_operator()))
    }
}

/// The value of `e` in `ctx`, or the first failure, with the steps that
/// succeeded, operands before the operator that combines them.
pub open spec fn eval<F: Fn(Rational) -> Rational>(e: Expr, ctx: EvaluationContext<F>) -> (
    Result<(int, int), Failure>,
    Seq<Seq<char>>,
)
    decreases e,
{
    match e {
        Expr::Number(n) => (Ok(n), seq![]),
        Expr::Variable(name) => match ctx.variable(name) {
            Some(v) => (Ok(v), seq![]),
            None => (Err(Failure::UndefinedVariable(name)), seq![]),
        },
        Expr::Operator(op, l, r) => {
            let (lv, ls) = eval(*l, ctx);
            match lv {
                Err(f) => (Err(f), ls),
                Ok(a) => {
                    let (rv, rs) = eval(*r, ctx);
                    match rv {
                        Err(f) => (Err(f), ls + rs),
                        Ok(b) => match combine(op, a, b) {
                            Ok(c) => (Ok(c), (ls + rs).push(step_line(a, op, b, c))),
                            Err(f) => (Err(f), ls + rs),
                        },
                    }
                },
            }
        },
        Expr::UnaryOperator(op, x) => {
            let (xv, xs) = eval(*x, ctx);
            match xv {
                Err(f) => (Err(f), xs),
                Ok(a) => if op == '-' {
                    (Ok(negation(a)), xs.push(negation_line(a, negation(a))))
                } else if op == '+' {
                    (Ok(a), xs)
                } else {
                    (Err(Failure::SyntaxError(unknown_operator())), xs)
                },
            }
        },
        Expr::Function(name, x) => {
            let (xv, xs) = eval(*x, ctx);
            match xv {
                Err(f) => (Err(f), xs),
                Ok(a) => match ctx.function(name) {
                    Some(f) => (Ok(apply(f, a)), xs.push(call_line(name, a, apply(f, a)))),
                    None => (Err(Failure::UndefinedFunction(name)), xs),
                },
            }
        },
    }
}

/// The models of a result.
pub open spec fn outcome(r: Result<Rational, EvaluationError>) -> Result<(int, int), Failure> {
    match r {
        Ok(v) => Ok(v@),
        Err(e) => Err(e@),
    }
}

/// The characters of each line.
pub open spec fn lines(v: Seq<String>) -> Seq<Seq<char>> {
    v.map_values(|s: String| s@)
}

/// A value or an error, with the steps that led to it.
pub struct DetailedEvaluationResult {
    pub value: Result<Rational, EvaluationError>,
    pub steps: Vec<String>,
}

impl View for DetailedEvaluationResult {
    type V = (Result<(int, int), Failure>, Seq<Seq<char>>);

    open spec fn view(&self) -> (Result<(int, int), Failure>, Seq<Seq<char>>) {
        (outcome(self.value), lines(self.steps@))
    }
}

impl DetailedEvaluationResult {
    pub fn ok(value: Rational) -> (r: Self)
        ensures
            r@ == (Ok::<_, Failure>(value@), Seq::<Seq<char>>::empty()),
    {
        let r = DetailedEvaluationResult { value: Ok(value), steps: Vec::new() };
        assert(lines(r.steps@) =~= Seq::<Seq<char>>::empty());
        r
    }

    pub fn err(error: EvaluationError) -> (r: Self)
        ensures
            r@ == (Err::<(int, int), _>(error@), Seq::<Seq<char>>::empty()),
    {
        let r = DetailedEvaluationResult { value: Err(error), steps: Vec::new() };
        assert(lines(r.steps@) =~= Seq::<Seq<char>>::empty());
        r
    }

    /// The same result with `step` added at the end of its steps.
    pub fn with_step(self, step: String) -> (r: Self)
        ensures
            r@ == (self@.0, self@.1.push(step@)),
    {
        let mut r = self;
        let ghost before = r.steps@;
        r.steps.push(step);
        assert(lines(r.steps@) =~= lines(before).push(step@));
        r
    }

    /// The same result with `steps` added at the end of its steps.
    pub fn with_steps(self, steps: Vec<String>) -> (r: Self)
        ensures
            r@ == (self@.0, self@.1 + lines(steps@)),
    {
        let mut r = self;
        let mut more = steps;
        let ghost before = r.steps@;
        let ghost added = more@;
        r.steps.append(&mut more);
        assert(lines(r.steps@) =~= lines(before) + lines(added));
        r
    }
}

impl DetailedEvaluationResult {
    /// The same result with `earlier` put before its steps.
    pub fn preceded_by(self, earlier: Vec<String>) -> (r: Self)
        ensures
            r@ == (self@.0, lines(earlier@) + self@.1),
    {
        let DetailedEvaluationResult { value, steps: later } = self;
        let mut steps = earlier;
        let mut later = later;
        let ghost first = steps@;
        let ghost second = later@;
        steps.append(&mut later);
        assert(lines(steps@) =~= lines(first) + lines(second));
        DetailedEvaluationResult { value, steps }
    }
}

fn step_text(a: Rational, op: char, b: Rational, c: Rational) -> (s: String)
    ensures
        s@ == step_line(a@, op, b@, c@),
{
    let mut s = String::new();
    a.push_text(&mut s);
    push_char(&mut s, ' ');
    push_char(&mut s, op);
    push_char(&mut s, ' ');
    b.push_text(&mut s);
    push_char(&mut s, ' ');
    push_char(&mut s, '=');
    push_char(&mut s, ' ');
    c.push_text(&mut s);
    assert(s@ =~= step_line(a@, op, b@, c@));
    s
}

fn call_text(name: &String, a: Rational, c: Rational) -> (s: String)
    ensures
        s@ == call_line(name@, a@, c@),
{
    let mut s = name.clone();
    push_char(&mut s, '(');
    a.push_text(&mut s);
    push_char(&mut s, ')');
    push_char(&mut s, ' ');
    push_char(&mut s, '=');
    push_char(&mut s, ' ');
    c.push_text(&mut s);
    assert(s@ =~= call_line(name@, a@, c@));
    s
}

fn negation_text(a: Rational, c: Rational) -> (s: String)
    ensures
        s@ == negation_line(a@, c@),
{
    let mut s = String::new();
    push_char(&mut s, '-');
    a.push_text(&mut s);
    push_char(&mut s, ' ');
    push_char(&mut s, '=');
    push_char(&mut s, ' ');
    c.push_text(&mut s);
    assert(s@ =~= negation_line(a@, c@));
    s
}

fn unknown_operator_error() -> (e: EvaluationError)
    ensures
        e@ == Failure::SyntaxError(unknown_operator()),
{
    EvaluationError::SyntaxError(String::from_str("Unknown operator"))
}

fn checked_value(r: Option<Rational>, p: Ghost<(int, int)>) -> (v: Result<Rational, EvaluationError>)
    requires
        r is Some <==> fits(p@),
        r matches Some(x) ==> x@ == p@,
    ensures
        outcome(v) == checked(p@),
{
    match r {
        Some(x) => Ok(x),
        None => Err(EvaluationError::Overflow),
    }
}

/// The binary operator `op` applied to `a` and `b`.
fn combine_values(op: char, a: Rational, b: Rational) -> (r: Result<Rational, EvaluationError>)
    ensures
        outcome(r) == combine(op, a@, b@),
{
    if op == '+' {
        checked_value(a.add(b), Ghost(sum(a@, b@)))
    } else if op == '-' {
        checked_value(a.sub(b), Ghost(difference(a@, b@)))
    } else if op == '*' {
        checked_value(a.mul(b), Ghost(product(a@, b@)))
    } else if op == '/' {
        if b.is_zero() {
            Err(EvaluationError::DivisionByZero)
        } else {
            checked_value(a.div(b), Ghost(quotient(a@, b@)))
        }
    } else {
        Err(unknown_operator_error())
    }
}

/// Evaluates `node` against `context`, which it only reads.
///
/// Operands are evaluated left to right and the first failure ends the
/// evaluation; the steps gathered before it are kept.
pub fn evaluate<F: Fn(Rational) -> Rational>(node: &ASTNode, context: &EvaluationContext<F>) -> (r:
    DetailedEvaluationResult)
    requires
        context.functions_are_total(),
    ensures
        r@ == eval(node.expr(), *context),
    decreases node,
{
    match node {
        ASTNode::Number(n) => DetailedEvaluationResult::ok(*n),
        ASTNode::Variable(name) => match context.get_variable(name) {
            Some(v) => DetailedEvaluationResult::ok(v),
            None => DetailedEvaluationResult::err(EvaluationError::UndefinedVariable(name.clone())),
        },
        ASTNode::Operator { operator, left, right } => {
            let left_result = evaluate(left, context);
            let a = match &left_result.value {
                Ok(a) => *a,
                Err(_) => {
                    return left_result;
                },
            };
            let right_result = evaluate(right, context);
            let b = match &right_result.value {
                Ok(b) => *b,
                Err(_) => {
                    return right_result.preceded_by(left_result.steps);
                },
            };
            match combine_values(*operator, a, b) {
                Ok(c) => {
                    let line = step_text(a, *operator, b, c);
                    DetailedEvaluationResult::ok(c).with_steps(left_result.steps).with_steps(
                        right_result.steps,
                    ).with_step(line)
                },
                Err(e) => DetailedEvaluationResult::err(e).with_steps(left_result.steps).with_steps(
                    right_result.steps,
                ),
            }
        },
        ASTNode::UnaryOperator { operator, operand } => {
            let inner = evaluate(operand, context);
            let a = match &inner.value {
                Ok(a) => *a,
                Err(_) => {
                    return inner;
                },
            };
            if *operator == '-' {
                let c = a.neg();
                let line = negation_text(a, c);
                DetailedEvaluationResult::ok(c).with_steps(inner.steps).with_step(line)
            } else if *operator == '+' {
                inner
            } else {
                DetailedEvaluationResult::err(unknown_operator_error()).with_steps(inner.steps)
            }
        },
        ASTNode::Function { name, argument } => {
            let inner = evaluate(argument, context);
            let a = match &inner.value {
                Ok(a) => *a,
                Err(_) => {
                    return inner;
                },
            };
            match context.get_function(name) {
                Some(f) => {
                    let c = f(a);
                    proof {
                        let g = *f;
                        assert(yields(g, a@, c));
                        let chosen = choose|r: Rational| yields(g, a@, r);
                        let x = choose|x: Rational| #[trigger] g.ensures((x,), chosen) && x@ == a@;
                        lemma_view_injective(x, a);
                        assert(chosen == c);
                    }
                    let line = call_text(name, a, c);
                    DetailedEvaluationResult::ok(c).with_steps(inner.steps).with_step(line)
                },
                None => DetailedEvaluationResult::err(
                    EvaluationError::UndefinedFunction(name.clone()),
                ).with_steps(inner.steps),
            }
        },
    }
}

/// Evaluation only reads its context: two evaluations of one tree against
/// one context give the same value and the same steps.
pub proof fn lemma_evaluation_repeatable<F: Fn(Rational) -> Rational>(
    node: ASTNode,
    context: EvaluationContext<F>,
    first: DetailedEvaluationResult,
    second: DetailedEvaluationResult,
)
    requires
        first@ == eval(node.expr(), context),
        second@ == eval(node.expr(), context),
    ensures
        first@ == second@,
        first.value matches Ok(a) ==> second.value matches Ok(b) && a == b,
{
    if let Ok(a) = first.value {
        if let Ok(b) = second.value {
            lemma_view_injective(a, b);
        }
    }
}

} // verus!
