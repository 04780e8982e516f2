//! The named term representation: variables keep their source name beside
//! the de Bruijn index that scope resolution assigns. The combinator
//! translator works on these terms, since its output names the free
//! combinator variables.

use crate::ast::scope_lookup;
use crate::cst::VariableExpression;
use vstd::prelude::*;

verus! {

/// A named variable: its source name, and the index scope resolution gave
/// it (`None` until resolution, or for a free variable).
#[derive(Debug, PartialEq)]
pub struct Variable {
    pub name: String,
    pub index: Option<usize>,
}

/// A named single-parameter binder.
#[derive(Debug, PartialEq)]
pub struct Abstraction {
    pub name: String,
    pub expression: Box<Expression>,
}

/// An application of a callee to an argument.
#[derive(Debug, PartialEq)]
pub struct Application {
    pub callee: Box<Expression>,
    pub argument: Box<Expression>,
}

/// A named lambda term.
#[derive(Debug, PartialEq)]
pub enum Expression {
    Variable(Variable),
    Abstraction(Abstraction),
    Application(Application),
}

impl Variable {
    pub fn new(index: Option<usize>, name: &str) -> (res: Variable)
        ensures
            res.index == index,
            res.name@ == name@,
    {
        Variable { name: name.to_owned(), index }
    }

    /// The variable `value` names, resolved against the scope stack:
    /// its index is the distance to the innermost binding of its name.
    pub fn from_cst(value: &VariableExpression, scopes: &Vec<String>) -> (res: Variable)
        ensures
            res.name@ == value.identifier.0@,
            res.index == (match scope_lookup(scopes.deep_view(), value.identifier.0@) {
                Some(k) => Some(k as usize),
                None => None::<usize>,
            }),
    {
        let index = crate::ast::resolve_name(scopes, &value.identifier.0);
        Variable { name: value.identifier.0.clone(), index }
    }
}

impl Abstraction {
    pub fn new(name: &str, expression: Expression) -> (res: Abstraction)
        ensures
            res.name@ == name@,
            *res.expression == expression,
    {
        Abstraction { name: name.to_owned(), expression: Box::new(expression) }
    }

    /// Whether the bound variable occurs free in the body: whether any
    /// variable of the body refers to this binder.
    pub fn is_name_occurs_free(&self) -> (res: bool)
        requires
            named_nest(*self.expression) <= usize::MAX,
        ensures
            res == named_occurs(*self.expression, 0),
    {
        occurs_check(&self.expression, 0)
    }
}

impl Application {
    pub fn new(callee: Expression, argument: Expression) -> (res: Application)
        ensures
            *res.callee == callee,
            *res.argument == argument,
    {
        Application { callee: Box::new(callee), argument: Box::new(argument) }
    }
}

/// A named variable term.
pub fn new_variable(name: &str) -> (res: Expression)
    ensures
        res matches Expression::Variable(v) && v.name@ == name@ && v.index is None,
{
    Expression::Variable(Variable::new(None, name))
}

/// A named abstraction term.
pub fn new_abstraction(parameter: &str, expression: Expression) -> (res: Expression)
    ensures
        res matches Expression::Abstraction(a) && a.name@ == parameter@ && *a.expression
            == expression,
{
    Expression::Abstraction(Abstraction::new(parameter, expression))
}

/// A named application term.
pub fn new_application(callee: Expression, argument: Expression) -> (res: Expression)
    ensures
        res matches Expression::Application(a) && *a.callee == callee && *a.argument == argument,
{
    Expression::Application(Application::new(callee, argument))
}

/// The shift on named terms: names are untouched, indices move exactly as
/// on nameless terms.
pub open spec fn named_shift(t: Expression, d: int, c: nat) -> Expression
    decreases t,
{
    match t {
        Expression::Variable(v) => match v.index {
            Some(i) => if i >= c {
                Expression::Variable(Variable { name: v.name, index: Some(((i + d) as usize)) })
            } else {
                t
            },
            None => t,
        },
        Expression::Abstraction(a) => Expression::Abstraction(
            Abstraction {
                name: a.name,
                expression: Box::new(named_shift(*a.expression, d, (c + 1) as nat)),
            },
        ),
        Expression::Application(a) => Expression::Application(
            Application {
                callee: Box::new(named_shift(*a.callee, d, c)),
                argument: Box::new(named_shift(*a.argument, d, c)),
            },
        ),
    }
}

/// Every index of `t` at or above the cutoff `c`, once moved by `d`, stays
/// in `[0, usize::MAX]`.
pub open spec fn named_shift_in_range(t: Expression, d: int, c: nat) -> bool
    decreases t,
{
    match t {
        Expression::Variable(v) => match v.index {
            Some(i) => i >= c ==> 0 <= i + d <= usize::MAX,
            None => true,
        },
        Expression::Abstraction(a) => named_shift_in_range(*a.expression, d, (c + 1) as nat),
        Expression::Application(a) => named_shift_in_range(*a.callee, d, c)
            && named_shift_in_range(*a.argument, d, c),
    }
}

/// The deepest nesting of abstractions in `t`.
pub open spec fn named_nest(t: Expression) -> nat
    decreases t,
{
    match t {
        Expression::Variable(v) => 0,
        Expression::Abstraction(a) => named_nest(*a.expression) + 1,
        Expression::Application(a) => vstd::math::max(
            named_nest(*a.callee) as int,
            named_nest(*a.argument) as int,
        ) as nat,
    }
}

/// Substitution on named terms: every variable with index exactly `j`
/// becomes `r`, with `r` shifted up by one per binder it is carried under.
pub open spec fn named_substitute(t: Expression, j: nat, r: Expression) -> Expression
    decreases t,
{
    match t {
        Expression::Variable(v) => match v.index {
            Some(i) => if i == j {
                r
            } else {
                t
            },
            None => t,
        },
        Expression::Abstraction(a) => Expression::Abstraction(
            Abstraction {
                name: a.name,
                expression: Box::new(
                    named_substitute(*a.expression, (j + 1) as nat, named_shift(r, 1, 0)),
                ),
            },
        ),
        Expression::Application(a) => Expression::Application(
            Application {
                callee: Box::new(named_substitute(*a.callee, j, r)),
                argument: Box::new(named_substitute(*a.argument, j, r)),
            },
        ),
    }
}

/// The machine bounds `substituted` relies on, level by level.
pub open spec fn named_substitute_in_range(t: Expression, j: nat, r: Expression) -> bool
    decreases t,
{
    match t {
        Expression::Variable(v) => true,
        Expression::Abstraction(a) => j + 1 <= usize::MAX && named_shift_in_range(r, 1, 0)
            && named_nest(r) <= usize::MAX && named_substitute_in_range(
            *a.expression,
            (j + 1) as nat,
            named_shift(r, 1, 0),
        ),
        Expression::Application(a) => named_substitute_in_range(*a.callee, j, r)
            && named_substitute_in_range(*a.argument, j, r),
    }
}

/// Whether some variable of `t` refers `j` binders past the root of `t`.
pub open spec fn named_occurs(t: Expression, j: nat) -> bool
    decreases t,
{
    match t {
        Expression::Variable(v) => v.index == Some(j as usize) && j <= usize::MAX,
        Expression::Abstraction(a) => named_occurs(*a.expression, (j + 1) as nat),
        Expression::Application(a) => named_occurs(*a.callee, j) || named_occurs(*a.argument, j),
    }
}

/// Whether some variable of `t` refers `j` binders out, per `named_occurs`.
pub(crate) fn occurs_check(t: &Expression, j: usize) -> (res: bool)
    requires
        j + named_nest(*t) <= usize::MAX,
    ensures
        res == named_occurs(*t, j as nat),
    decreases t,
{
    match t {
        Expression::Variable(v) => match v.index {
            Some(i) => i == j,
            None => false,
        },
        Expression::Abstraction(a) => occurs_check(&a.expression, j + 1),
        Expression::Application(a) => occurs_check(&a.callee, j) || occurs_check(
            &a.argument,
            j,
        ),
    }
}

impl Clone for Expression {
    /// A clone is the same term with the same names, node for node: only
    /// the name strings are re-allocated.
    fn clone(&self) -> (res: Self)
        ensures
            named_equal(res, *self),
        decreases self,
    {
        match self {
            Expression::Variable(v) => Expression::Variable(
                Variable { name: v.name.clone(), index: v.index },
            ),
            Expression::Abstraction(a) => Expression::Abstraction(
                Abstraction {
                    name: a.name.clone(),
                    expression: Box::new((*a.expression).clone()),
                },
            ),
            Expression::Application(a) => Expression::Application(
                Application {
                    callee: Box::new((*a.callee).clone()),
                    argument: Box::new((*a.argument).clone()),
                },
            ),
        }
    }
}

/// Structural equality up to the identity of name strings: same shapes,
/// same indices, same name texts.
pub open spec fn named_equal(a: Expression, b: Expression) -> bool
    decreases a,
{
    match (a, b) {
        (Expression::Variable(x), Expression::Variable(y)) => x.name@ == y.name@ && x.index
            == y.index,
        (Expression::Abstraction(x), Expression::Abstraction(y)) => x.name@ == y.name@
            && named_equal(*x.expression, *y.expression),
        (Expression::Application(x), Expression::Application(y)) => named_equal(
            *x.callee,
            *y.callee,
        ) && named_equal(*x.argument, *y.argument),
        _ => false,
    }
}

impl Expression {
    /// Adds `d` to the index of every variable free relative to the cutoff
    /// `c`, per `named_shift`; names are untouched.
    pub fn shifted(self, d: isize, c: usize) -> (res: Expression)
        requires
            named_shift_in_range(self, d as int, c as nat),
            c + named_nest(self) <= usize::MAX,
        ensures
            res == named_shift(self, d as int, c as nat),
        decreases self,
    {
        match self {
            Expression::Variable(Variable { name, index: Some(index) }) => {
                if index >= c {
                    let moved: usize = if d >= 0 {
                        index + (d as usize)
                    } else {
                        // -(d + 1) is in range even when d is isize::MIN
                        index - (((-(d + 1)) as usize) + 1)
                    };
                    Expression::Variable(Variable { name, index: Some(moved) })
                } else {
                    Expression::Variable(Variable { name, index: Some(index) })
                }
            },
            Expression::Variable(Variable { name, index: None }) => Expression::Variable(
                Variable { name, index: None },
            ),
            Expression::Abstraction(a) => Expression::Abstraction(
                Abstraction {
                    name: a.name,
                    expression: Box::new((*a.expression).shifted(d, c + 1)),
                },
            ),
            Expression::Application(a) => Expression::Application(
                Application {
                    callee: Box::new((*a.callee).shifted(d, c)),
                    argument: Box::new((*a.argument).shifted(d, c)),
                },
            ),
        }
    }

    /// Replaces every variable with index exactly `j` by `term`, per
    /// `named_substitute`.
    pub fn substituted(self, j: usize, term: Expression) -> (res: Expression)
        requires
            named_substitute_in_range(self, j as nat, term),
        ensures
            named_equal(res, named_substitute(self, j as nat, term)),
        decreases self,
    {
        let ghost original = self;
        match self {
            Expression::Variable(Variable { name, index: Some(index) }) => {
                proof {
                    lemma_named_equal_reflexive(term);
                    lemma_named_equal_reflexive(original);
                    assert(original == Expression::Variable(Variable { name, index: Some(index) }));
                    assert(named_equal(term, term));
                    assert(index == j ==> named_substitute(original, j as nat, term) == term);
                    assert(index != j ==> named_substitute(original, j as nat, term) == original);
                }
                if index == j {
                    term
                } else {
                    Expression::Variable(Variable { name, index: Some(index) })
                }
            },
            Expression::Variable(Variable { name, index: None }) => {
                proof {
                    lemma_named_equal_reflexive(original);
                }
                Expression::Variable(Variable { name, index: None })
            },
            Expression::Abstraction(a) => Expression::Abstraction(
                Abstraction {
                    name: a.name,
                    expression: Box::new(
                        (*a.expression).substituted(j + 1, term.shifted(1, 0)),
                    ),
                },
            ),
            Expression::Application(a) => {
                let ghost spec_argument = *a.argument;
                let cloned_term = term.clone();
                proof {
                    lemma_named_equal_symmetric(cloned_term, term);
                    lemma_named_equal_in_range(*a.argument, j as nat, term, cloned_term);
                }
                let callee = (*a.callee).substituted(j, term);
                let argument = (*a.argument).substituted(j, cloned_term);
                proof {
                    lemma_named_equal_substitute(spec_argument, j as nat, cloned_term, term);
                    lemma_named_equal_transitive(
                        argument,
                        named_substitute(spec_argument, j as nat, cloned_term),
                        named_substitute(spec_argument, j as nat, term),
                    );
                }
                Expression::Application(
                    Application { callee: Box::new(callee), argument: Box::new(argument) },
                )
            },
        }
    }

    /// Assigns an index to every variable: the distance to the innermost
    /// enclosing binder of its name, or `None` when no binder matches.
    /// `scopes` is the stack of binder names outside this term, outermost
    /// first; it is used and restored.
    pub fn assign_indices(&mut self, scopes: &mut Vec<String>)
        ensures
            *final(self) == spec_assign(*old(self), old(scopes).deep_view()),
            final(scopes)@ == old(scopes)@,
    {
        let mut taken = Expression::Variable(Variable { name: String::new(), index: None });
        core::mem::swap(self, &mut taken);
        let mut assigned = taken.with_indices(scopes);
        core::mem::swap(self, &mut assigned);
    }

    /// The term with every variable's index assigned, per `spec_assign`.
    fn with_indices(self, scopes: &mut Vec<String>) -> (res: Expression)
        ensures
            res == spec_assign(self, old(scopes).deep_view()),
            final(scopes)@ == old(scopes)@,
        decreases self,
    {
        match self {
            Expression::Variable(v) => {
                let index = crate::ast::resolve_name(scopes, &v.name);
                Expression::Variable(Variable { name: v.name, index })
            },
            Expression::Abstraction(a) => {
                let ghost outer = scopes.deep_view();
                let name = a.name;
                scopes.push(name.clone());
                proof {
                    assert(scopes.deep_view() =~= outer.push(name@));
                }
                let body = (*a.expression).with_indices(scopes);
                scopes.pop();
                proof {
                    assert(scopes.deep_view() =~= outer);
                }
                Expression::Abstraction(Abstraction { name, expression: Box::new(body) })
            },
            Expression::Application(a) => {
                let callee = (*a.callee).with_indices(scopes);
                let argument = (*a.argument).with_indices(scopes);
                Expression::Application(
                    Application { callee: Box::new(callee), argument: Box::new(argument) },
                )
            },
        }
    }
}

/// What `assign_indices` produces: every variable's index is its scope
/// distance under the stack of enclosing binder names, innermost last.
pub open spec fn spec_assign(t: Expression, scopes: Seq<Seq<char>>) -> Expression
    decreases t,
{
    match t {
        Expression::Variable(v) => Expression::Variable(
            Variable {
                name: v.name,
                index: match scope_lookup(scopes, v.name@) {
                    Some(k) => Some(k as usize),
                    None => None,
                },
            },
        ),
        Expression::Abstraction(a) => Expression::Abstraction(
            Abstraction {
                name: a.name,
                expression: Box::new(spec_assign(*a.expression, scopes.push(a.name@))),
            },
        ),
        Expression::Application(a) => Expression::Application(
            Application {
                callee: Box::new(spec_assign(*a.callee, scopes)),
                argument: Box::new(spec_assign(*a.argument, scopes)),
            },
        ),
    }
}

/// `named_equal` is reflexive.
pub proof fn lemma_named_equal_reflexive(t: Expression)
    ensures
        named_equal(t, t),
    decreases t,
{
    match t {
        Expression::Variable(v) => {},
        Expression::Abstraction(a) => {
            lemma_named_equal_reflexive(*a.expression);
        },
        Expression::Application(a) => {
            lemma_named_equal_reflexive(*a.callee);
            lemma_named_equal_reflexive(*a.argument);
        },
    }
}

/// `named_equal` is symmetric.
proof fn lemma_named_equal_symmetric(a: Expression, b: Expression)
    requires
        named_equal(a, b),
    ensures
        named_equal(b, a),
    decreases a,
{
    match (a, b) {
        (Expression::Abstraction(x), Expression::Abstraction(y)) => {
            lemma_named_equal_symmetric(*x.expression, *y.expression);
        },
        (Expression::Application(x), Expression::Application(y)) => {
            lemma_named_equal_symmetric(*x.callee, *y.callee);
            lemma_named_equal_symmetric(*x.argument, *y.argument);
        },
        _ => {},
    }
}

/// `named_equal` is transitive.
pub proof fn lemma_named_equal_transitive(a: Expression, b: Expression, c: Expression)
    requires
        named_equal(a, b),
        named_equal(b, c),
    ensures
        named_equal(a, c),
    decreases a,
{
    match (a, b, c) {
        (Expression::Abstraction(x), Expression::Abstraction(y), Expression::Abstraction(z)) => {
            lemma_named_equal_transitive(*x.expression, *y.expression, *z.expression);
        },
        (Expression::Application(x), Expression::Application(y), Expression::Application(z)) => {
            lemma_named_equal_transitive(*x.callee, *y.callee, *z.callee);
            lemma_named_equal_transitive(*x.argument, *y.argument, *z.argument);
        },
        _ => {},
    }
}

/// Substituting equal replacements into the same term gives equal results.
proof fn lemma_named_equal_substitute(t: Expression, j: nat, r1: Expression, r2: Expression)
    requires
        named_equal(r1, r2),
    ensures
        named_equal(named_substitute(t, j, r1), named_substitute(t, j, r2)),
    decreases t,
{
    match t {
        Expression::Variable(v) => {
            lemma_named_equal_reflexive(t);
        },
        Expression::Abstraction(a) => {
            lemma_named_equal_shift(r1, r2, 1, 0);
            lemma_named_equal_substitute(*a.expression, (j + 1) as nat, named_shift(r1, 1, 0),
                named_shift(r2, 1, 0));
        },
        Expression::Application(a) => {
            lemma_named_equal_substitute(*a.callee, j, r1, r2);
            lemma_named_equal_substitute(*a.argument, j, r1, r2);
        },
    }
}

/// Shifting equal terms gives equal results.
pub proof fn lemma_named_equal_shift(a: Expression, b: Expression, d: int, c: nat)
    requires
        named_equal(a, b),
    ensures
        named_equal(named_shift(a, d, c), named_shift(b, d, c)),
    decreases a,
{
    match (a, b) {
        (Expression::Variable(x), Expression::Variable(y)) => {},
        (Expression::Abstraction(x), Expression::Abstraction(y)) => {
            lemma_named_equal_shift(*x.expression, *y.expression, d, (c + 1) as nat);
        },
        (Expression::Application(x), Expression::Application(y)) => {
            lemma_named_equal_shift(*x.callee, *y.callee, d, c);
            lemma_named_equal_shift(*x.argument, *y.argument, d, c);
        },
        _ => {},
    }
}

/// Equal terms nest equally deep.
proof fn lemma_named_equal_nest(a: Expression, b: Expression)
    requires
        named_equal(a, b),
    ensures
        named_nest(a) == named_nest(b),
    decreases a,
{
    match (a, b) {
        (Expression::Abstraction(x), Expression::Abstraction(y)) => {
            lemma_named_equal_nest(*x.expression, *y.expression);
        },
        (Expression::Application(x), Expression::Application(y)) => {
            lemma_named_equal_nest(*x.callee, *y.callee);
            lemma_named_equal_nest(*x.argument, *y.argument);
        },
        _ => {},
    }
}

/// Equal terms are shiftable under the same conditions.
proof fn lemma_named_equal_shift_in_range(a: Expression, b: Expression, d: int, c: nat)
    requires
        named_equal(a, b),
        named_shift_in_range(a, d, c),
    ensures
        named_shift_in_range(b, d, c),
    decreases a,
{
    match (a, b) {
        (Expression::Abstraction(x), Expression::Abstraction(y)) => {
            lemma_named_equal_shift_in_range(*x.expression, *y.expression, d, (c + 1) as nat);
        },
        (Expression::Application(x), Expression::Application(y)) => {
            lemma_named_equal_shift_in_range(*x.callee, *y.callee, d, c);
            lemma_named_equal_shift_in_range(*x.argument, *y.argument, d, c);
        },
        _ => {},
    }
}

/// Equal replacements are substitutable under the same conditions.
proof fn lemma_named_equal_in_range(t: Expression, j: nat, r1: Expression, r2: Expression)
    requires
        named_equal(r1, r2),
        named_substitute_in_range(t, j, r1),
    ensures
        named_substitute_in_range(t, j, r2),
    decreases t,
{
    match t {
        Expression::Variable(v) => {},
        Expression::Abstraction(a) => {
            lemma_named_equal_shift_in_range(r1, r2, 1, 0);
            lemma_named_equal_nest(r1, r2);
            lemma_named_equal_shift(r1, r2, 1, 0);
            lemma_named_equal_in_range(
                *a.expression,
                (j + 1) as nat,
                named_shift(r1, 1, 0),
                named_shift(r2, 1, 0),
            );
        },
        Expression::Application(a) => {
            lemma_named_equal_in_range(*a.callee, j, r1, r2);
            lemma_named_equal_in_range(*a.argument, j, r1, r2);
        },
    }
}

} // verus!
