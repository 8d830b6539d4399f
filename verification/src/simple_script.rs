//! The evaluator: it walks a syntax tree and keeps the variables' values.
use vstd::prelude::*;
use vstd::string::*;
use crate::ASTNodeType;
use crate::simple_lexer::digit;
use crate::simple_parser::{leaf, well_formed, Ast, SimpleASTNode};
use crate::simple_printer::is_expression;

verus! {

/// Why a tree has no value.
#[derive(Debug, Clone, Copy, PartialEq, Eq, Structural)]
pub enum EvalError {
    /// A name is read that no declaration has bound.
    UndeclaredVariable,
    /// A name is assigned to that no declaration has bound.
    AssignmentToUndeclared,
    /// The right operand of `/` is zero.
    DivisionByZero,
    /// The text of a literal is no decimal number of 32 bits.
    NotAnInteger,
    /// The result of an operator does not fit in 32 bits.
    Overflow,
}

/// The variables: each declared name with its value.
pub type Bindings = Map<Seq<char>, i32>;

/// The number fits in 32 bits with a sign.
pub open spec fn fits(v: int) -> bool {
    i32::MIN <= v <= i32::MAX
}

/// The number that a decimal digit denotes.
pub open spec fn digit_value(c: char) -> int {
    c as int - '0' as int
}

/// The number that a sequence of decimal digits denotes.
pub open spec fn digits_value(s: Seq<char>) -> int
    decreases s.len(),
{
    if s.len() == 0 {
        0
    } else {
        digits_value(s.drop_last()) * 10 + digit_value(s.last())
    }
}

/// Every character is a decimal digit.
pub open spec fn all_digits(s: Seq<char>) -> bool {
    forall|i: int| 0 <= i < s.len() ==> digit(#[trigger] s[i])
}

/// The value of a literal's text: an optional sign and then at least one
/// decimal digit, where the number fits in 32 bits.
pub open spec fn literal_value(s: Seq<char>) -> Option<i32> {
    let signed = s.len() > 0 && (s[0] == '-' || s[0] == '+');
    let body = if signed {
        s.subrange(1, s.len() as int)
    } else {
        s
    };
    let magnitude = digits_value(body);
    let v = if signed && s[0] == '-' {
        -magnitude
    } else {
        magnitude
    };
    if body.len() > 0 && all_digits(body) && fits(v) {
        Some(v as i32)
    } else {
        None
    }
}

/// The number without its sign.
pub open spec fn magnitude(x: int) -> int {
    if x < 0 {
        -x
    } else {
        x
    }
}

/// The quotient rounded toward zero.
pub open spec fn truncated_quotient(x: int, y: int) -> int
    recommends
        y != 0,
{
    let q = magnitude(x) / magnitude(y);
    if (x < 0) != (y < 0) {
        -q
    } else {
        q
    }
}

/// The number as a value of 32 bits, or the error where it does not fit.
pub open spec fn checked(v: int) -> Result<i32, EvalError> {
    if fits(v) {
        Ok(v as i32)
    } else {
        Err(EvalError::Overflow)
    }
}

/// What an operator node makes of its operands' values: under an additive
/// node the text `+` adds and any other subtracts; under a multiplicative
/// node the text `*` multiplies and any other divides.
pub open spec fn apply(kind: ASTNodeType, text: Seq<char>, x: i32, y: i32) -> Result<
    i32,
    EvalError,
> {
    if kind == ASTNodeType::Additive {
        if text == seq!['+'] {
            checked(x + y)
        } else {
            checked(x - y)
        }
    } else if text == seq!['*'] {
        checked(x * y)
    } else if y == 0 {
        Err(EvalError::DivisionByZero)
    } else {
        checked(truncated_quotient(x as int, y as int))
    }
}

/// The value of a tree under the bindings `env`, and the bindings after it.
pub open spec fn eval(a: Ast, env: Bindings) -> (Result<i32, EvalError>, Bindings)
    recommends
        well_formed(a),
    decreases a, 0nat,
{
    match a.kind {
        ASTNodeType::Programm => eval_list(a.children, a.children.len(), env),
        ASTNodeType::Additive | ASTNodeType::Multiplicative => if a.children.len() == 2 {
            let left = eval(a.children[0], env);
            match left.0 {
                Err(_) => left,
                Ok(x) => {
                    let right = eval(a.children[1], left.1);
                    match right.0 {
                        Err(_) => right,
                        Ok(y) => (apply(a.kind, a.text, x, y), right.1),
                    }
                },
            }
        } else {
            (Ok(0), env)
        },
        ASTNodeType::IntLiteral => match literal_value(a.text) {
            Some(v) => (Ok(v), env),
            None => (Err(EvalError::NotAnInteger), env),
        },
        ASTNodeType::Identifier => if env.contains_key(a.text) {
            (Ok(env[a.text]), env)
        } else {
            (Err(EvalError::UndeclaredVariable), env)
        },
        ASTNodeType::AssignmentStmt => if !env.contains_key(a.text) {
            (Err(EvalError::AssignmentToUndeclared), env)
        } else if a.children.len() == 1 {
            bind(a.text, eval(a.children[0], env))
        } else {
            (Ok(0), env)
        },
        ASTNodeType::IntDeclaration => if a.children.len() == 1 {
            bind(a.text, eval(a.children[0], env))
        } else {
            (Ok(0), env.insert(a.text, 0))
        },
        _ => (Ok(0), env),
    }
}

/// Binds `name` to the value that was computed, where there is one.
pub open spec fn bind(name: Seq<char>, r: (Result<i32, EvalError>, Bindings)) -> (
    Result<i32, EvalError>,
    Bindings,
) {
    match r.0 {
        Ok(v) => (Ok(v), r.1.insert(name, v)),
        Err(_) => r,
    }
}

/// The value of the last of the first `n` statements, each evaluated under
/// the bindings that the one before left; the first error ends it.
pub open spec fn eval_list(children: Seq<Ast>, n: nat, env: Bindings) -> (
    Result<i32, EvalError>,
    Bindings,
)
    decreases children, n,
{
    if n == 0 || n > children.len() {
        (Ok(0), env)
    } else {
        let before = eval_list(children, (n - 1) as nat, env);
        match before.0 {
            Err(_) => before,
            Ok(_) => eval(children[n - 1], before.1),
        }
    }
}

/// The results of the first `n` statements, each evaluated under the
/// bindings that the one before left, up to and with the first error.
pub open spec fn eval_each(children: Seq<Ast>, n: nat, env: Bindings) -> (
    Seq<Result<i32, EvalError>>,
    Bindings,
)
    decreases n,
{
    if n == 0 || n > children.len() {
        (Seq::empty(), env)
    } else {
        let before = eval_each(children, (n - 1) as nat, env);
        if before.0.len() > 0 && before.0.last().is_err() {
            before
        } else {
            let r = eval(children[n - 1], before.1);
            (before.0.push(r.0), r.1)
        }
    }
}

proof fn lemma_each_ends(children: Seq<Ast>, n: nat, m: nat, env: Bindings)
    requires
        n <= m <= children.len(),
        eval_each(children, n, env).0.len() > 0,
        eval_each(children, n, env).0.last().is_err(),
    ensures
        eval_each(children, m, env) == eval_each(children, n, env),
    decreases m,
{
    if n < m {
        lemma_each_ends(children, n, (m - 1) as nat, env);
    }
}

proof fn lemma_error_ends(children: Seq<Ast>, n: nat, m: nat, env: Bindings)
    requires
        n <= m <= children.len(),
        eval_list(children, n, env).0.is_err(),
    ensures
        eval_list(children, m, env) == eval_list(children, n, env),
    decreases m,
{
    if n < m {
        lemma_error_ends(children, n, (m - 1) as nat, env);
    }
}

proof fn lemma_prefix_value(s: Seq<char>, j: int)
    requires
        all_digits(s),
        0 <= j <= s.len(),
    ensures
        0 <= digits_value(s.take(j)) <= digits_value(s),
    decreases s.len() - j,
{
    lemma_digits_nonnegative(s.take(j));
    if j < s.len() {
        lemma_prefix_value(s, j + 1);
        assert(s.take(j + 1).drop_last() =~= s.take(j));
    } else {
        assert(s.take(j) =~= s);
    }
}

proof fn lemma_digits_nonnegative(s: Seq<char>)
    requires
        all_digits(s),
    ensures
        0 <= digits_value(s),
    decreases s.len(),
{
    if s.len() > 0 {
        lemma_digits_nonnegative(s.drop_last());
    }
}

/// The decimal digits of `n`, the most significant first.
pub open spec fn decimal_text(n: nat) -> Seq<char>
    decreases n,
{
    if n < 10 {
        seq![('0' as int + n) as char]
    } else {
        decimal_text(n / 10).push(('0' as int + n % 10) as char)
    }
}

proof fn lemma_decimal_text(n: nat)
    ensures
        decimal_text(n).len() > 0,
        all_digits(decimal_text(n)),
        digits_value(decimal_text(n)) == n,
    decreases n,
{
    let s = decimal_text(n);
    if n < 10 {
        assert(s.drop_last() =~= Seq::<char>::empty());
        assert(digits_value(s.drop_last()) == 0);
    } else {
        lemma_decimal_text(n / 10);
        assert(s.drop_last() =~= decimal_text(n / 10));
    }
}

/// A literal node whose text is the decimal form of a number that fits in
/// 32 bits evaluates to that number, and leaves the bindings as they were.
pub proof fn lemma_literal_evaluates_to_itself(n: nat, env: Bindings)
    requires
        n <= i32::MAX,
    ensures
        eval(leaf(ASTNodeType::IntLiteral, decimal_text(n)), env) == (Ok::<i32, EvalError>(n as i32), env),
{
    lemma_decimal_text(n);
}

/// Evaluating an expression binds nothing: the bindings after it are the
/// bindings before it, whether it has a value or not.
pub proof fn lemma_expression_keeps_bindings(a: Ast, env: Bindings)
    requires
        is_expression(a),
    ensures
        eval(a, env).1 == env,
    decreases a,
{
    if a.kind == ASTNodeType::Additive || a.kind == ASTNodeType::Multiplicative {
        lemma_expression_keeps_bindings(a.children[0], env);
        lemma_expression_keeps_bindings(a.children[1], env);
    }
}

/// An assignment to a declared name whose expression has a value binds the
/// name to that value, and has that value itself.
pub proof fn lemma_assignment_overwrites(a: Ast, env: Bindings)
    requires
        a.kind == ASTNodeType::AssignmentStmt,
        a.children.len() == 1,
        is_expression(a.children[0]),
        env.contains_key(a.text),
        eval(a.children[0], env).0.is_ok(),
    ensures
        eval(a, env).0 == eval(a.children[0], env).0,
        eval(a, env).1 == env.insert(a.text, eval(a.children[0], env).0.unwrap()),
{
    lemma_expression_keeps_bindings(a.children[0], env);
}

/// A declaration or an assignment whose expression has no value fails with
/// the expression's error and leaves the bindings as they were: the name
/// is not bound by it.
pub proof fn lemma_failed_initializer_binds_nothing(a: Ast, env: Bindings)
    requires
        a.kind == ASTNodeType::IntDeclaration || (a.kind == ASTNodeType::AssignmentStmt
            && env.contains_key(a.text)),
        a.children.len() == 1,
        is_expression(a.children[0]),
        eval(a.children[0], env).0.is_err(),
    ensures
        eval(a, env).0 == eval(a.children[0], env).0,
        eval(a, env).1 == env,
{
    lemma_expression_keeps_bindings(a.children[0], env);
}

/// Whether `text` is the single character `c`.
fn is_symbol(text: &String, c: char) -> (r: bool)
    ensures
        r == (text@ == seq![c]),
{
    let s = text.as_str();
    if s.unicode_len() == 1 {
        let first = s.get_char(0);
        proof {
            if first == c {
                assert(text@ =~= seq![c]);
            }
        }
        first == c
    } else {
        false
    }
}

/// The value of `x` without its sign.
fn magnitude_of(x: i32) -> (r: u64)
    ensures
        r == magnitude(x as int),
{
    if x < 0 {
        (-(x as i64)) as u64
    } else {
        x as u64
    }
}

/// The number as a value of 32 bits, or the error where it does not fit.
fn narrow(v: i64) -> (r: Result<i32, EvalError>)
    ensures
        r == checked(v as int),
{
    if v < -2147483648 || v > 2147483647 {
        Err(EvalError::Overflow)
    } else {
        Ok(v as i32)
    }
}

/// The evaluator. It holds the variables that the statements evaluated so
/// far have declared.
pub struct SimpleScript {
    names: Vec<String>,
    values: Vec<i32>,
}

impl View for SimpleScript {
    type V = Bindings;

    closed spec fn view(&self) -> Bindings {
        Map::new(
            |k: Seq<char>| exists|i: int| self.holds(i, k),
            |k: Seq<char>| self.values@[choose|i: int| self.holds(i, k)],
        )
    }
}

impl SimpleScript {
    /// The name `k` stands at index `i`.
    pub closed spec fn holds(&self, i: int, k: Seq<char>) -> bool {
        0 <= i < self.names@.len() && self.names@[i]@ == k
    }

    /// Every name is held once, beside its value.
    pub closed spec fn wf(&self) -> bool {
        &&& self.names@.len() == self.values@.len()
        &&& forall|i: int, j: int, k: Seq<char>|
            #![trigger self.holds(i, k), self.holds(j, k)]
            self.holds(i, k) && self.holds(j, k) ==> i == j
    }

    /// An evaluator without variables.
    pub fn new() -> (r: Self)
        ensures
            r.wf(),
            r@ == Map::<Seq<char>, i32>::empty(),
    {
        let r = SimpleScript { names: Vec::new(), values: Vec::new() };
        assert(r@ =~= Map::<Seq<char>, i32>::empty());
        r
    }

    /// The index at which `name` is held, where it is held.
    fn find(&self, name: &String) -> (r: Option<usize>)
        requires
            self.wf(),
        ensures
            match r {
                Some(i) => self.holds(i as int, name@) && self@.contains_key(name@) && self@[name@]
                    == self.values@[i as int],
                None => !self@.contains_key(name@),
            },
    {
        let mut i: usize = 0;
        while i < self.names.len()
            invariant
                self.wf(),
                i <= self.names@.len(),
                forall|j: int| 0 <= j < i ==> !self.holds(j, name@),
            decreases self.names@.len() - i,
        {
            if self.names[i] == *name {
                assert(self.holds(i as int, name@));
                return Some(i);
            }
            assert(!self.holds(i as int, name@));
            i = i + 1;
        }
        None
    }

    /// The value that `name` is bound to.
    pub fn get(&self, name: &str) -> (r: Option<i32>)
        requires
            self.wf(),
        ensures
            r == (if self@.contains_key(name@) {
                Some(self@[name@])
            } else {
                None
            }),
    {
        let key = name.to_owned();
        match self.find(&key) {
            Some(i) => Some(self.values[i]),
            None => None,
        }
    }

    /// Binds `name` to `value`, in place of the value it had, if any.
    fn set(&mut self, name: String, value: i32)
        requires
            old(self).wf(),
        ensures
            final(self).wf(),
            final(self)@ == old(self)@.insert(name@, value),
    {
        let ghost before = *self;
        let found = self.find(&name);
        match found {
            Some(i) => {
                self.values.set(i, value);
            },
            None => {
                self.names.push(name);
                self.values.push(value);
            },
        }
        proof {
            let n = before.names@.len() as int;
            let at = match found {
                Some(i) => i as int,
                None => n,
            };
            assert forall|j: int, k: Seq<char>| self.holds(j, k) == (before.holds(j, k) || (j == at
                && k == name@)) by {}
            assert(self.holds(at, name@));
            assert forall|i: int, j: int, k: Seq<char>|
                self.holds(i, k) && self.holds(j, k) implies i == j by {
                assert(before.wf());
                assert(self.holds(i, k) == (before.holds(i, k) || (i == at && k == name@)));
                assert(self.holds(j, k) == (before.holds(j, k) || (j == at && k == name@)));
                if found.is_some() {
                    assert(before.holds(at, name@));
                } else if k == name@ {
                    if before.holds(i, k) || before.holds(j, k) {
                        assert(before@.contains_key(k));
                    }
                }
                if before.holds(i, k) && before.holds(j, k) {
                    assert(i == j);
                }
            }
            assert forall|k: Seq<char>| #[trigger]
                self@.contains_key(k) == before@.insert(name@, value).contains_key(k) by {
                if before@.contains_key(k) {
                    let j = choose|j: int| before.holds(j, k);
                    assert(self.holds(j, k));
                }
                if self@.contains_key(k) {
                    let j = choose|j: int| self.holds(j, k);
                    assert(before.holds(j, k) || k == name@);
                }
            }
            assert forall|k: Seq<char>| self@.contains_key(k) implies #[trigger] self@[k]
                == before@.insert(name@, value)[k] by {
                let j = choose|j: int| self.holds(j, k);
                assert(self.holds(j, k));
                if k == name@ {
                    assert(j == at);
                } else {
                    let j0 = choose|j: int| before.holds(j, k);
                    assert(before.holds(j, k));
                    assert(before.holds(j0, k));
                    assert(j == j0);
                    assert(j != at);
                }
            }
            assert(self@ =~= before@.insert(name@, value));
        }
    }

    /// The number that `text` denotes, where it is a decimal literal.
    pub fn parse_literal(text: &String) -> (r: Option<i32>)
        ensures
            r == literal_value(text@),
    {
        let s = text.as_str();
        let n = s.unicode_len();
        if n == 0 {
            return None;
        }
        let first = s.get_char(0);
        let negative = first == '-';
        let start: usize = if first == '-' || first == '+' {
            1
        } else {
            0
        };
        if start == n {
            return None;
        }
        let ghost body = text@.subrange(start as int, n as int);
        proof {
            if start == 0 {
                assert(body =~= text@);
            }
        }
        let mut acc: i64 = 0;
        let mut i: usize = start;
        while i < n
            invariant
                s@ == text@,
                n == text@.len(),
                start <= i <= n,
                start < n,
                negative == (text@[0] == '-'),
                start == (if text@[0] == '-' || text@[0] == '+' {
                    1usize
                } else {
                    0usize
                }),
                body == text@.subrange(start as int, n as int),
                start == 0 ==> body == text@,
                all_digits(body.take(i - start)),
                acc == digits_value(body.take(i - start)),
                0 <= acc <= 2147483648,
            decreases n - i,
        {
            let c = s.get_char(i);
            if !(c >= '0' && c <= '9') {
                assert(!digit(body[i - start]));
                return None;
            }
            let d = (c as u32 - '0' as u32) as i64;
            proof {
                assert(body.take(i - start + 1).drop_last() =~= body.take(i - start));
                assert(body.take(i - start + 1).last() == c);
                assert forall|j: int| 0 <= j < i - start + 1 implies digit(
                    #[trigger] body.take(i - start + 1)[j],
                ) by {
                    if j < i - start {
                        assert(digit(body.take(i - start)[j]));
                    }
                }
            }
            acc = acc * 10 + d;
            if acc > 2147483648 {
                proof {
                    if all_digits(body) {
                        lemma_prefix_value(body, i - start + 1);
                    }
                }
                return None;
            }
            i = i + 1;
        }
        proof {
            assert(body.take(n - start) =~= body);
        }
        if negative {
            Some((-acc) as i32)
        } else if acc <= 2147483647 {
            Some(acc as i32)
        } else {
            None
        }
    }

    /// Applies the operator of a node of kind `kind` with text `text`.
    pub fn apply_operator(kind: ASTNodeType, text: &String, x: i32, y: i32) -> (r: Result<
        i32,
        EvalError,
    >)
        ensures
            r == apply(kind, text@, x, y),
    {
        if kind == ASTNodeType::Additive {
            if is_symbol(text, '+') {
                narrow(x as i64 + y as i64)
            } else {
                narrow(x as i64 - y as i64)
            }
        } else if is_symbol(text, '*') {
            assert(-4611686018427387904 <= (x as int) * (y as int) <= 4611686018427387904)
                by (nonlinear_arith)
                requires
                    -2147483648 <= x <= 2147483647,
                    -2147483648 <= y <= 2147483647,
            ;
            narrow((x as i64) * (y as i64))
        } else if y == 0 {
            Err(EvalError::DivisionByZero)
        } else {
            let q = magnitude_of(x) / magnitude_of(y);
            assert(q <= 2147483648) by (nonlinear_arith)
                requires
                    q == magnitude(x as int) / magnitude(y as int),
                    0 <= magnitude(x as int) <= 2147483648,
                    1 <= magnitude(y as int),
            ;
            if (x < 0) != (y < 0) {
                narrow(-(q as i64))
            } else {
                narrow(q as i64)
            }
        }
    }

    /// Evaluates the statements under `root` in order, under the variables
    /// held, and hands back the result of each, up to and with the first
    /// error. What the statements before an error bound stays bound.
    pub fn run(&mut self, root: &SimpleASTNode) -> (r: Vec<Result<i32, EvalError>>)
        requires
            old(self).wf(),
            root@.kind == ASTNodeType::Programm,
            well_formed(root@),
        ensures
            final(self).wf(),
            r@ == eval_each(root@.children, root@.children.len(), old(self)@).0,
            final(self)@ == eval_each(root@.children, root@.children.len(), old(self)@).1,
    {
        let ghost env = self@;
        let mut results: Vec<Result<i32, EvalError>> = Vec::new();
        let mut i: usize = 0;
        while i < root.children.len()
            invariant
                self.wf(),
                env == old(self)@,
                root@.kind == ASTNodeType::Programm,
                well_formed(root@),
                i <= root.children@.len(),
                results@ == eval_each(root@.children, i as nat, env).0,
                self@ == eval_each(root@.children, i as nat, env).1,
                results@.len() > 0 ==> results@.last().is_ok(),
            decreases root.children@.len() - i,
        {
            assert(root@.children[i as int] == root.children@[i as int]@);
            let value = self.calc(&root.children[i]);
            let failed = value.is_err();
            results.push(value);
            i = i + 1;
            if failed {
                proof {
                    lemma_each_ends(root@.children, i as nat, root@.children.len(), env);
                }
                return results;
            }
        }
        results
    }

    /// Evaluates `node` under the variables held, and keeps the variables as
    /// the evaluation leaves them. An error ends the evaluation there: what
    /// the statements before it bound stays bound.
    pub fn calc(&mut self, node: &SimpleASTNode) -> (r: Result<i32, EvalError>)
        requires
            old(self).wf(),
            well_formed(node@),
        ensures
            final(self).wf(),
            r == eval(node@, old(self)@).0,
            final(self)@ == eval(node@, old(self)@).1,
        decreases node,
    {
        let ghost env = self@;
        match node.node_type {
            ASTNodeType::Programm => {
                let mut result: i32 = 0;
                let mut i: usize = 0;
                while i < node.children.len()
                    invariant
                        self.wf(),
                        env == old(self)@,
                        well_formed(node@),
                        node.node_type == ASTNodeType::Programm,
                        i <= node.children@.len(),
                        eval_list(node@.children, i as nat, env).0.is_ok(),
                        eval_list(node@.children, i as nat, env).1 == self@,
                        i > 0 ==> eval_list(node@.children, i as nat, env).0 == Ok::<i32, EvalError>(result),
                        i == 0 ==> result == 0,
                    decreases node.children@.len() - i,
                {
                    assert(node@.children[i as int] == node.children@[i as int]@);
                    match self.calc(&node.children[i]) {
                        Ok(v) => {
                            result = v;
                        },
                        Err(e) => {
                            proof {
                                lemma_error_ends(
                                    node@.children,
                                    (i + 1) as nat,
                                    node@.children.len(),
                                    env,
                                );
                            }
                            return Err(e);
                        },
                    }
                    i = i + 1;
                }
                Ok(result)
            },
            ASTNodeType::Additive | ASTNodeType::Multiplicative => {
                assert(node@.children[0] == node.children@[0]@);
                assert(node@.children[1] == node.children@[1]@);
                let x = match self.calc(&node.children[0]) {
                    Ok(v) => v,
                    Err(e) => {
                        return Err(e);
                    },
                };
                let y = match self.calc(&node.children[1]) {
                    Ok(v) => v,
                    Err(e) => {
                        return Err(e);
                    },
                };
                Self::apply_operator(node.node_type, &node.node_text, x, y)
            },
            ASTNodeType::IntLiteral => match Self::parse_literal(&node.node_text) {
                Some(v) => Ok(v),
                None => Err(EvalError::NotAnInteger),
            },
            ASTNodeType::Identifier => match self.find(&node.node_text) {
                Some(i) => Ok(self.values[i]),
                None => Err(EvalError::UndeclaredVariable),
            },
            ASTNodeType::AssignmentStmt => {
                if self.find(&node.node_text).is_none() {
                    return Err(EvalError::AssignmentToUndeclared);
                }
                assert(node@.children[0] == node.children@[0]@);
                let v = match self.calc(&node.children[0]) {
                    Ok(v) => v,
                    Err(e) => {
                        return Err(e);
                    },
                };
                self.set(node.node_text.clone(), v);
                Ok(v)
            },
            ASTNodeType::IntDeclaration => {
                let mut v: i32 = 0;
                if node.children.len() > 0 {
                    assert(node@.children[0] == node.children@[0]@);
                    v = match self.calc(&node.children[0]) {
                        Ok(v) => v,
                        Err(e) => {
                            return Err(e);
                        },
                    };
                }
                self.set(node.node_text.clone(), v);
                Ok(v)
            },
            _ => Ok(0),
        }
    }
}

} // verus!
