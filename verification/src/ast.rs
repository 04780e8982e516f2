//! The nameless term representation and its algebra: de Bruijn indexed
//! terms, the shift/substitute operations that underlie capture-avoiding
//! beta-reduction, and the normal-order evaluator.

use crate::cst;
use vstd::prelude::*;
use vstd::string::StrSliceExecFns;
use vstd::string::StringExecFns;

verus! {

/// The scope position, counted from the innermost entry, of the most recent
/// binding of `name`; `None` when no entry matches, so the variable is free.
pub open spec fn scope_lookup(scopes: Seq<Seq<char>>, name: Seq<char>) -> Option<nat>
    decreases scopes.len(),
{
    if scopes.len() == 0 {
        None
    } else if scopes.last() == name {
        Some(0nat)
    } else {
        match scope_lookup(scopes.drop_last(), name) {
            Some(k) => Some((k + 1) as nat),
            None => None,
        }
    }
}

/// Whether every character of `s` is a decimal digit.
pub open spec fn all_digits(s: Seq<char>) -> bool {
    forall|i: int| 0 <= i < s.len() ==> '0' <= #[trigger] s[i] <= '9'
}

/// The non-negative integer the digit string `s` denotes.
pub open spec fn digits_value(s: Seq<char>) -> nat
    decreases s.len(),
{
    if s.len() == 0 {
        0
    } else {
        (digits_value(s.drop_last()) * 10 + (s.last() as int - 48)) as nat
    }
}

/// The body of the Church numeral for `n`: `f` (index 1) applied `n` times
/// to `x` (index 0).
pub open spec fn spec_church_body(n: nat) -> Expression
    decreases n,
{
    if n == 0 {
        Expression::Variable { index: Some(0usize) }
    } else {
        Expression::Application {
            applicand: Box::new(Expression::Variable { index: Some(1usize) }),
            argument: Box::new(spec_church_body((n - 1) as nat)),
        }
    }
}

/// The Church numeral for `n`: `\f. \x. f (f (... (f x)))` with `f` applied
/// `n` times.
pub open spec fn spec_church(n: nat) -> Expression {
    Expression::Abstraction {
        expression: Box::new(Expression::Abstraction {
            expression: Box::new(spec_church_body(n)),
        }),
    }
}

/// `t` wrapped in `n` abstractions.
pub open spec fn wrap_abstractions(n: nat, t: Expression) -> Expression
    decreases n,
{
    if n == 0 {
        t
    } else {
        Expression::Abstraction { expression: Box::new(wrap_abstractions((n - 1) as nat, t)) }
    }
}

/// The syntax trees the resolver accepts: application lists are never
/// empty, and numeric literals denote values that fit in `usize`.
pub open spec fn cst_wf(e: cst::Expression) -> bool
    decreases e,
{
    match e {
        cst::Expression::Variable(v) => true,
        cst::Expression::Abstraction(a) => cst_wf(*a.expression),
        cst::Expression::Application(a) => a.expressions.len() >= 1 && (forall|i: int|
            0 <= i < a.expressions.len() ==> cst_wf(#[trigger] a.expressions[i])),
        cst::Expression::Number(n) => all_digits(n.0@) && digits_value(n.0@) <= usize::MAX,
        cst::Expression::Character(c) => true,
    }
}

/// Indices and abstraction nesting are kept below this bound while the
/// evaluator runs, so that every index adjustment a reduction step makes
/// stays inside `usize`.
pub const TERM_LIMIT: usize = usize::MAX / 4;

/// A lambda term in de Bruijn form. `Variable { index: Some(i) }` refers to
/// the binder `i` abstractions out, counting the innermost as 0;
/// `Variable { index: None }` is a free variable, a valid terminal value.
#[derive(Debug, PartialEq)]
pub enum Expression {
    Variable { index: Option<usize> },
    Abstraction { expression: Box<Expression> },
    Application { applicand: Box<Expression>, argument: Box<Expression> },
}

impl Clone for Expression {
    /// A clone is the same term, node for node.
    fn clone(&self) -> (res: Self)
        ensures
            res == *self,
        decreases self,
    {
        match self {
            Expression::Variable { index } => Expression::Variable { index: *index },
            Expression::Abstraction { expression } => Expression::Abstraction {
                expression: Box::new((**expression).clone()),
            },
            Expression::Application { applicand, argument } => Expression::Application {
                applicand: Box::new((**applicand).clone()),
                argument: Box::new((**argument).clone()),
            },
        }
    }
}

/// The mathematical shift on de Bruijn terms: each index at or above the
/// cutoff `c` is moved by `d`; entering an abstraction raises the cutoff by
/// one, so indices bound inside the term are left alone.
pub open spec fn spec_shift(t: Expression, d: int, c: nat) -> Expression
    decreases t,
{
    match t {
        Expression::Variable { index } => match index {
            Some(i) => if i >= c {
                Expression::Variable { index: Some(((i + d) as usize)) }
            } else {
                t
            },
            None => t,
        },
        Expression::Abstraction { expression } => Expression::Abstraction {
            expression: Box::new(spec_shift(*expression, d, (c + 1) as nat)),
        },
        Expression::Application { applicand, argument } => Expression::Application {
            applicand: Box::new(spec_shift(*applicand, d, c)),
            argument: Box::new(spec_shift(*argument, d, c)),
        },
    }
}

/// Every index of `t` at or above the cutoff `c`, once moved by `d`, still
/// lies in `[0, usize::MAX]`: the machine representation forces this.
pub open spec fn shift_in_range(t: Expression, d: int, c: nat) -> bool
    decreases t,
{
    match t {
        Expression::Variable { index } => match index {
            Some(i) => i >= c ==> 0 <= i + d <= usize::MAX,
            None => true,
        },
        Expression::Abstraction { expression } => shift_in_range(*expression, d, (c + 1) as nat),
        Expression::Application { applicand, argument } => shift_in_range(*applicand, d, c)
            && shift_in_range(*argument, d, c),
    }
}

/// The mathematical substitution: every variable with index exactly `j`
/// (measured through binders: the target index grows by one per abstraction)
/// becomes `r`, with `r` shifted up by one for each binder it is carried
/// under, so its free variables are not captured.
pub open spec fn spec_substitute(t: Expression, j: nat, r: Expression) -> Expression
    decreases t,
{
    match t {
        Expression::Variable { index } => match index {
            Some(i) => if i == j {
                r
            } else {
                t
            },
            None => t,
        },
        Expression::Abstraction { expression } => Expression::Abstraction {
            expression: Box::new(spec_substitute(*expression, (j + 1) as nat, spec_shift(r, 1, 0))),
        },
        Expression::Application { applicand, argument } => Expression::Application {
            applicand: Box::new(spec_substitute(*applicand, j, r)),
            argument: Box::new(spec_substitute(*argument, j, r)),
        },
    }
}

/// The deepest nesting of abstractions in `t`.
pub open spec fn nest_depth(t: Expression) -> nat
    decreases t,
{
    match t {
        Expression::Variable { index } => 0,
        Expression::Abstraction { expression } => nest_depth(*expression) + 1,
        Expression::Application { applicand, argument } => vstd::math::max(
            nest_depth(*applicand) as int,
            nest_depth(*argument) as int,
        ) as nat,
    }
}

/// The largest index that occurs in `t` (0 when no index occurs).
pub open spec fn max_index(t: Expression) -> nat
    decreases t,
{
    match t {
        Expression::Variable { index } => match index {
            Some(i) => i as nat,
            None => 0,
        },
        Expression::Abstraction { expression } => max_index(*expression),
        Expression::Application { applicand, argument } => vstd::math::max(
            max_index(*applicand) as int,
            max_index(*argument) as int,
        ) as nat,
    }
}

/// No variable of `t` refers `j` binders past the root of `t`: substituting
/// at `j` then finds nothing, and shifting down past `j` strands no index.
pub open spec fn index_absent(t: Expression, j: nat) -> bool
    decreases t,
{
    match t {
        Expression::Variable { index } => match index {
            Some(i) => i != j,
            None => true,
        },
        Expression::Abstraction { expression } => index_absent(*expression, (j + 1) as nat),
        Expression::Application { applicand, argument } => index_absent(*applicand, j)
            && index_absent(*argument, j),
    }
}

/// Indices and abstraction nesting small enough that one reduction step can
/// never push an index computation outside `usize`.
pub open spec fn modest(t: Expression) -> bool {
    max_index(t) <= TERM_LIMIT && nest_depth(t) <= TERM_LIMIT
}

impl Expression {
    /// Adds `d` to the index of every variable of `self` that is free
    /// relative to the cutoff `c`, per `spec_shift`.
    pub fn shifted(self, d: isize, c: usize) -> (res: Expression)
        requires
            shift_in_range(self, d as int, c as nat),
            c + nest_depth(self) <= usize::MAX,
        ensures
            res == spec_shift(self, d as int, c as nat),
        decreases self,
    {
        match self {
            Expression::Variable { index: Some(index) } => {
                if index >= c {
                    let moved: usize = if d >= 0 {
                        index + (d as usize)
                    } else {
                        // -(d + 1) is in range even when d is isize::MIN
                        index - (((-(d + 1)) as usize) + 1)
                    };
                    Expression::Variable { index: Some(moved) }
                } else {
                    Expression::Variable { index: Some(index) }
                }
            }
            Expression::Variable { index: None } => self,
            Expression::Abstraction { expression } => Expression::Abstraction {
                expression: Box::new((*expression).shifted(d, c + 1)),
            },
            Expression::Application { applicand, argument } => Expression::Application {
                applicand: Box::new((*applicand).shifted(d, c)),
                argument: Box::new((*argument).shifted(d, c)),
            },
        }
    }

    /// Replaces every variable of `self` with index exactly `j` by `term`,
    /// per `spec_substitute`.
    pub fn substituted(self, j: usize, term: Expression) -> (res: Expression)
        requires
            substitute_in_range(self, j as nat, term),
        ensures
            res == spec_substitute(self, j as nat, term),
        decreases self,
    {
        match self {
            Expression::Variable { index: Some(index) } => {
                if index == j {
                    term
                } else {
                    Expression::Variable { index: Some(index) }
                }
            }
            Expression::Variable { index: None } => self,
            Expression::Abstraction { expression } => Expression::Abstraction {
                expression: Box::new((*expression).substituted(j + 1, term.shifted(1, 0))),
            },
            Expression::Application { applicand, argument } => {
                let cloned_term = term.clone();
                Expression::Application {
                    applicand: Box::new((*applicand).substituted(j, term)),
                    argument: Box::new((*argument).substituted(j, cloned_term)),
                }
            }
        }
    }
}

/// The nameless term a well-formed syntax tree denotes under a scope stack
/// (outermost binder first): a variable takes the position of the most
/// recent binding of its name, counted from the innermost entry, or stays
/// free; an abstraction pushes its parameters and wraps its body in one
/// binder per parameter (at least one); an application list folds to the
/// left; a literal becomes its Church numeral.
pub open spec fn spec_resolve(e: cst::Expression, scopes: Seq<Seq<char>>) -> Expression
    decreases e, 0int,
{
    match e {
        cst::Expression::Variable(v) => Expression::Variable {
            index: match scope_lookup(scopes, v.identifier.0@) {
                Some(k) => Some(k as usize),
                None => None,
            },
        },
        cst::Expression::Abstraction(a) => {
            let inner_scopes = scopes + a.parameters.deep_view();
            let wraps: nat = if a.parameters.len() == 0 {
                1
            } else {
                a.parameters.len() as nat
            };
            wrap_abstractions(wraps, spec_resolve(*a.expression, inner_scopes))
        },
        cst::Expression::Application(a) => spec_resolve_application(
            a,
            a.expressions.len() as nat,
            scopes,
        ),
        cst::Expression::Number(n) => spec_church(digits_value(n.0@)),
        cst::Expression::Character(c) => spec_church(c.0 as nat),
    }
}

/// The left-associative fold of the first `k` expressions of the
/// application list `a`, each resolved under `scopes`.
pub open spec fn spec_resolve_application(
    a: cst::ApplicationExpression,
    k: nat,
    scopes: Seq<Seq<char>>,
) -> Expression
    decreases a, k,
{
    if k == 0 || k > a.expressions.len() {
        Expression::Variable { index: None }
    } else if k == 1 {
        spec_resolve(a.expressions[0], scopes)
    } else {
        Expression::Application {
            applicand: Box::new(spec_resolve_application(a, (k - 1) as nat, scopes)),
            argument: Box::new(spec_resolve(a.expressions[k - 1], scopes)),
        }
    }
}

/// The statements the resolver accepts: at least one, every statement but
/// the last a well-formed `let`, and the last a well-formed expression.
pub open spec fn statements_wf(stmts: Seq<cst::Statement>) -> bool {
    &&& stmts.len() >= 1
    &&& forall|i: int|
        0 <= i < stmts.len() - 1 ==> ((#[trigger] stmts[i]) matches cst::Statement::Let(l)
            && cst_wf(*l.expression))
    &&& stmts.last() matches cst::Statement::Expression(es) && cst_wf(es.expression)
}

/// A whole program the resolver accepts.
pub open spec fn program_wf(p: cst::Program) -> bool {
    statements_wf(p.0@)
}

/// The term a program denotes: each `let x = E;` wraps what follows it in
/// `(\x. rest) E`, with `x` in scope for the rest and not for `E`; the
/// final expression is resolved under all the `let` names.
pub open spec fn spec_resolve_statements(
    stmts: Seq<cst::Statement>,
    scopes: Seq<Seq<char>>,
) -> Expression
    decreases stmts.len(),
{
    if stmts.len() == 0 {
        Expression::Variable { index: None }
    } else if stmts.len() == 1 {
        match stmts[0] {
            cst::Statement::Expression(es) => spec_resolve(es.expression, scopes),
            cst::Statement::Let(l) => Expression::Variable { index: None },
        }
    } else {
        match stmts[0] {
            cst::Statement::Let(l) => Expression::Application {
                applicand: Box::new(Expression::Abstraction {
                    expression: Box::new(spec_resolve_statements(
                        stmts.drop_first(),
                        scopes.push(l.variable.0@),
                    )),
                }),
                argument: Box::new(spec_resolve(*l.expression, scopes)),
            },
            cst::Statement::Expression(es) => Expression::Variable { index: None },
        }
    }
}

/// A scan that finds `name` highest at position `i` resolves to the
/// distance from the top of the scope stack.
proof fn lemma_scope_lookup_found(scopes: Seq<Seq<char>>, name: Seq<char>, i: int)
    requires
        0 <= i < scopes.len(),
        scopes[i] == name,
        forall|j: int| i < j < scopes.len() ==> scopes[j] != name,
    ensures
        scope_lookup(scopes, name) == Some((scopes.len() - 1 - i) as nat),
    decreases scopes.len(),
{
    if i == scopes.len() - 1 {
    } else {
        assert(scopes.drop_last()[i] == scopes[i]);
        lemma_scope_lookup_found(scopes.drop_last(), name, i);
    }
}

/// A scan that finds `name` nowhere resolves to nothing: the variable is
/// free.
proof fn lemma_scope_lookup_none(scopes: Seq<Seq<char>>, name: Seq<char>)
    requires
        forall|j: int| 0 <= j < scopes.len() ==> scopes[j] != name,
    ensures
        scope_lookup(scopes, name) is None,
    decreases scopes.len(),
{
    if scopes.len() > 0 {
        lemma_scope_lookup_none(scopes.drop_last(), name);
    }
}

/// A term is reducible when it is an application whose left spine of nested
/// `function` positions bottoms out at an abstraction; a stuck application
/// (spine head a free or bound variable) is terminal.
pub open spec fn spec_reducible(t: Expression) -> bool
    decreases t,
{
    match t {
        Expression::Application { applicand, argument } => match *applicand {
            Expression::Abstraction { .. } => true,
            Expression::Variable { .. } => false,
            Expression::Application { .. } => spec_reducible(*applicand),
        },
        _ => false,
    }
}

/// One normal-order reduction step: beta-reduce the redex at the bottom of
/// the left application spine, rebuilding the spine above it; a terminal
/// term is returned unchanged.
pub open spec fn spec_step(t: Expression) -> Expression
    decreases t,
{
    match t {
        Expression::Application { applicand, argument } => match *applicand {
            Expression::Abstraction { expression } => spec_shift(
                spec_substitute(*expression, 0, spec_shift(*argument, 1, 0)),
                -1,
                0,
            ),
            _ => Expression::Application {
                applicand: Box::new(spec_step(*applicand)),
                argument,
            },
        },
        _ => t,
    }
}

/// Reduction for at most `fuel` steps: the term reached, and the number of
/// steps taken. Reduction stops early at a terminal term, or if a further
/// step could move an index outside the range `modest` guards.
pub open spec fn spec_evaluate(t: Expression, fuel: nat) -> (Expression, nat)
    decreases fuel,
{
    if fuel > 0 && spec_reducible(t) && modest(t) {
        let inner = spec_evaluate(spec_step(t), (fuel - 1) as nat);
        (inner.0, inner.1 + 1)
    } else {
        (t, 0)
    }
}

/// What `evaluate` reached: the final term, how many reduction steps were
/// taken, and whether the term is terminal (no redex on its spine).
#[derive(Debug, PartialEq)]
pub struct Evaluation {
    pub result: Expression,
    pub steps: usize,
    pub normal_form: bool,
}

/// All the machine bounds that `substituted` relies on, level by level: the
/// target index must stay a `usize` and the replacement must remain
/// shiftable each time it is carried under a binder.
pub open spec fn substitute_in_range(t: Expression, j: nat, r: Expression) -> bool
    decreases t,
{
    match t {
        Expression::Variable { index } => true,
        Expression::Abstraction { expression } => j + 1 <= usize::MAX && shift_in_range(r, 1, 0)
            && nest_depth(r) <= usize::MAX && substitute_in_range(
            *expression,
            (j + 1) as nat,
            spec_shift(r, 1, 0),
        ),
        Expression::Application { applicand, argument } => substitute_in_range(*applicand, j, r)
            && substitute_in_range(*argument, j, r),
    }
}

/// Each element of the deep view of a vector of names is that name's text.
proof fn lemma_scopes_view(v: Vec<String>)
    ensures
        v.deep_view().len() == v@.len(),
        forall|i: int| 0 <= i < v@.len() ==> v.deep_view()[i] == v@[i]@,
{
}

/// A prefix of a digit string denotes at most what the whole denotes.
proof fn lemma_digits_prefix_le(s: Seq<char>, k: int)
    requires
        all_digits(s),
        0 <= k <= s.len(),
    ensures
        digits_value(s.take(k)) <= digits_value(s),
    decreases s.len() - k,
{
    if k == s.len() {
        assert(s.take(k) =~= s);
    } else {
        lemma_digits_prefix_le(s, k + 1);
        assert(s.take(k + 1).drop_last() =~= s.take(k));
        assert(s.take(k + 1).last() == s[k]);
    }
}

/// The value of the digit text `s`, when it fits in `usize`.
fn parse_digits(s: &str) -> (res: Option<usize>)
    requires
        all_digits(s@),
    ensures
        match res {
            Some(v) => v == digits_value(s@) && digits_value(s@) <= usize::MAX,
            None => digits_value(s@) > usize::MAX,
        },
{
    let length = s.unicode_len();
    let mut acc: usize = 0;
    let mut i: usize = 0;
    while i < length
        invariant
            i <= length,
            length == s@.len(),
            all_digits(s@),
            acc == digits_value(s@.take(i as int)),
        decreases length - i,
    {
        let c = s.get_char(i);
        proof {
            assert(s@.take(i + 1).drop_last() =~= s@.take(i as int));
            assert(s@.take(i + 1).last() == s@[i as int]);
        }
        let d: usize = ((c as u32) as usize) - 48;
        let next = match acc.checked_mul(10) {
            Some(m) => m.checked_add(d),
            None => None,
        };
        match next {
            Some(v) => {
                acc = v;
            },
            None => {
                proof {
                    lemma_digits_prefix_le(s@, i + 1);
                }
                return None;
            },
        }
        i = i + 1;
    }
    proof {
        assert(s@.take(length as int) =~= s@);
    }
    Some(acc)
}

impl Expression {
    /// The Church numeral for `n`.
    fn church(n: usize) -> (res: Expression)
        ensures
            res == spec_church(n as nat),
    {
        let mut body = Expression::Variable { index: Some(0) };
        let mut k: usize = 0;
        while k < n
            invariant
                k <= n,
                body == spec_church_body(k as nat),
            decreases n - k,
        {
            body = Expression::Application {
                applicand: Box::new(Expression::Variable { index: Some(1) }),
                argument: Box::new(body),
            };
            k = k + 1;
        }
        Expression::Abstraction {
            expression: Box::new(Expression::Abstraction { expression: Box::new(body) }),
        }
    }

    /// The Church numeral a decimal literal denotes.
    pub fn from_number(value: &cst::Number) -> (res: Expression)
        requires
            cst_wf(cst::Expression::Number(*value)),
        ensures
            res == spec_resolve(cst::Expression::Number(*value), Seq::empty()),
    {
        let n = match parse_digits(value.0.as_str()) {
            Some(n) => n,
            None => 0,  // ruled out by well-formedness
        };
        Expression::church(n)
    }

    /// The Church numeral of a character's code point.
    pub fn from_character(value: &cst::Character) -> (res: Expression)
        ensures
            res == spec_resolve(cst::Expression::Character(*value), Seq::empty()),
    {
        Expression::church((value.0 as u32) as usize)
    }

}

/// The index of `name` in the scope stack, counted from the innermost
/// entry, or `None` for a free variable.
pub(crate) fn resolve_name(scopes: &Vec<String>, name: &String) -> (res: Option<usize>)
        ensures
            res == match scope_lookup(scopes.deep_view(), name@) {
                Some(k) => Some(k as usize),
                None => None::<usize>,
            },
    {
        proof {
            lemma_scopes_view(*scopes);
        }
        let length = scopes.len();
        let mut i: usize = length;
        while i > 0
            invariant
                i <= length,
                length == scopes@.len(),
                forall|j: int| i <= j < length ==> scopes@[j]@ != name@,
            decreases i,
    {
            i = i - 1;
            if scopes[i].eq(name) {
                proof {
                    lemma_scope_lookup_found(scopes.deep_view(), name@, i as int);
                }
                return Some(length - 1 - i);
            }
        }
        proof {
            lemma_scope_lookup_none(scopes.deep_view(), name@);
        }
        None
    }

impl Expression {
    /// The nameless term the syntax tree `value` denotes under the scope
    /// stack `scopes` (outermost binder first), per `spec_resolve`. The
    /// stack is used and restored.
    pub fn from_cst_expression(value: &cst::Expression, scopes: &mut Vec<String>) -> (res:
        Expression)
        requires
            cst_wf(*value),
        ensures
            res == spec_resolve(*value, old(scopes).deep_view()),
            final(scopes)@ == old(scopes)@,
        decreases value, 1int,
    {
        match value {
            cst::Expression::Variable(v) => Expression::Variable {
                index: resolve_name(scopes, &v.identifier.0),
            },
            cst::Expression::Abstraction(a) => Expression::abstraction_from_cst(a, scopes),
            cst::Expression::Application(a) => Expression::application_from_cst(a, scopes),
            cst::Expression::Number(n) => Expression::from_number(n),
            cst::Expression::Character(c) => Expression::from_character(c),
        }
    }

    /// Resolves a multi-parameter abstraction: the parameters enter the
    /// scope innermost-last, the body is resolved one binder per parameter
    /// deep, and the scope is restored.
    fn abstraction_from_cst(value: &cst::AbstractionExpression, scopes: &mut Vec<String>) -> (res:
        Expression)
        requires
            cst_wf(cst::Expression::Abstraction(*value)),
        ensures
            res == spec_resolve(cst::Expression::Abstraction(*value), old(scopes).deep_view()),
            final(scopes)@ == old(scopes)@,
        decreases value, 0int,
    {
        let ghost original_scopes = *scopes;
        let count = value.parameters.len();
        let mut i: usize = 0;
        while i < count
            invariant
                i <= count,
                count == value.parameters@.len(),
                scopes@ =~= original_scopes@ + value.parameters@.subrange(0, i as int).map_values(
                    |p: cst::Identifier| p.0,
                ),
            decreases count - i,
        {
            scopes.push(value.parameters[i].0.clone());
            proof {
                assert(value.parameters@.subrange(0, i + 1).drop_last() =~= value.parameters@
                    .subrange(0, i as int));
            }
            i = i + 1;
        }
        proof {
            assert(value.parameters@.subrange(0, count as int) =~= value.parameters@);
            assert(scopes.deep_view() =~= original_scopes.deep_view()
                + value.parameters.deep_view());
        }
        let body = Expression::from_cst_expression(&value.expression, scopes);
        proof {
            assert(wrap_abstractions(0, body) == body);
        }
        let mut result = Expression::Abstraction { expression: Box::new(body) };
        let mut wraps: usize = 1;
        while wraps < count
            invariant
                1 <= wraps <= vstd::math::max(count as int, 1),
                result == wrap_abstractions(wraps as nat, body),
            decreases count - wraps,
        {
            result = Expression::Abstraction { expression: Box::new(result) };
            wraps = wraps + 1;
        }
        let mut j: usize = 0;
        while j < count
            invariant
                j <= count,
                count == value.parameters@.len(),
                scopes@ =~= original_scopes@ + value.parameters@.subrange(
                    0,
                    (count - j) as int,
                ).map_values(|p: cst::Identifier| p.0),
            decreases count - j,
        {
            scopes.pop();
            j = j + 1;
        }
        proof {
            assert(scopes@ =~= original_scopes@);
        }
        result
    }

    /// Resolves an application list by folding it to the left.
    fn application_from_cst(value: &cst::ApplicationExpression, scopes: &mut Vec<String>) -> (res:
        Expression)
        requires
            cst_wf(cst::Expression::Application(*value)),
        ensures
            res == spec_resolve(cst::Expression::Application(*value), old(scopes).deep_view()),
            final(scopes)@ == old(scopes)@,
        decreases value, 0int,
    {
        let count = value.expressions.len();
        let mut result = Expression::from_cst_expression(&value.expressions[0], scopes);
        let mut k: usize = 1;
        while k < count
            invariant
                1 <= k <= count,
                count == value.expressions@.len(),
                cst_wf(cst::Expression::Application(*value)),
                result == spec_resolve_application(*value, k as nat, scopes.deep_view()),
                scopes@ == old(scopes)@,
            decreases count - k,
        {
            let argument = Expression::from_cst_expression(&value.expressions[k], scopes);
            result = Expression::Application {
                applicand: Box::new(result),
                argument: Box::new(argument),
            };
            k = k + 1;
        }
        result
    }
}

impl Expression {
    /// Resolves the statement suffix that starts at `i`, per
    /// `spec_resolve_statements`: `let` statements become applications of
    /// abstractions over what follows them.
    fn resolve_statements(stmts: &Vec<cst::Statement>, i: usize, scopes: &mut Vec<String>) -> (res:
        Expression)
        requires
            i < stmts.len(),
            statements_wf(stmts@.skip(i as int)),
        ensures
            res == spec_resolve_statements(stmts@.skip(i as int), old(scopes).deep_view()),
            final(scopes)@ == old(scopes)@,
        decreases stmts@.len() - i,
    {
        let ghost suffix = stmts@.skip(i as int);
        let length = stmts.len();
        if i == length - 1 {
            proof {
                assert(suffix.len() == 1);
                assert(suffix.last() == stmts@[i as int]);
                assert(suffix[0] == stmts@[i as int]);
            }
            match &stmts[i] {
                cst::Statement::Expression(es) => Expression::from_cst_expression(
                    &es.expression,
                    scopes,
                ),
                cst::Statement::Let(l) => {
                    proof {
                        assert(false);
                    }
                    Expression::Variable { index: None }
                },
            }
        } else {
            proof {
                assert(suffix[0] == stmts@[i as int]);
                assert(suffix.len() >= 2);
            }
            match &stmts[i] {
                cst::Statement::Let(l) => {
                    proof {
                        assert(cst_wf(*l.expression));
                    }
                    let argument = Expression::from_cst_expression(&l.expression, scopes);
                    let ghost outer_view = scopes.deep_view();
                    scopes.push(l.variable.0.clone());
                    proof {
                        assert(scopes.deep_view() =~= outer_view.push(l.variable.0@));
                        assert(stmts@.skip(i + 1) =~= suffix.drop_first());
                        assert(statements_wf(suffix.drop_first())) by {
                            assert forall|k: int|
                                0 <= k < suffix.drop_first().len() - 1 implies ((
                            #[trigger] suffix.drop_first()[k]) matches cst::Statement::Let(l2)
                                && cst_wf(*l2.expression)) by {
                                assert(suffix.drop_first()[k] == stmts@[i + 1 + k]);
                            }
                            assert(suffix.drop_first().last() == suffix.last());
                        }
                    }
                    let inner = Expression::resolve_statements(stmts, i + 1, scopes);
                    scopes.pop();
                    proof {
                        assert(scopes.deep_view() =~= outer_view);
                    }
                    Expression::Application {
                        applicand: Box::new(Expression::Abstraction {
                            expression: Box::new(inner),
                        }),
                        argument: Box::new(argument),
                    }
                },
                cst::Statement::Expression(es) => {
                    proof {
                        assert(false);
                    }
                    Expression::Variable { index: None }
                },
            }
        }
    }

    /// The nameless term a whole program denotes, per
    /// `spec_resolve_statements` with an empty scope.
    pub fn from_cst_program(value: &cst::Program) -> (res: Expression)
        requires
            program_wf(*value),
        ensures
            res == spec_resolve_statements(value.0@, Seq::empty()),
    {
        let mut scopes: Vec<String> = Vec::new();
        proof {
            assert(value.0@.skip(0) =~= value.0@);
            assert(scopes.deep_view() =~= Seq::<Seq<char>>::empty());
        }
        Expression::resolve_statements(&value.0, 0, &mut scopes)
    }
}

/// Whether every element of the application list from position `from` on
/// is a syntax tree the resolver accepts.
fn check_expressions(a: &cst::ApplicationExpression, from: usize) -> (res: bool)
    requires
        from <= a.expressions.len(),
    ensures
        res == (forall|j: int|
            from <= j < a.expressions@.len() ==> cst_wf(#[trigger] a.expressions@[j])),
    decreases a, a.expressions@.len() - from,
{
    if from == a.expressions.len() {
        true
    } else {
        check_expression(&a.expressions[from]) && check_expressions(a, from + 1)
    }
}

/// Whether `e` is a syntax tree the resolver accepts, per `cst_wf`.
pub fn check_expression(e: &cst::Expression) -> (res: bool)
    ensures
        res == cst_wf(*e),
    decreases e, 0int,
{
    match e {
        cst::Expression::Variable(v) => true,
        cst::Expression::Abstraction(a) => check_expression(&a.expression),
        cst::Expression::Application(a) => {
            if a.expressions.len() == 0 {
                return false;
            }
            check_expressions(a, 0)
        },
        cst::Expression::Number(n) => {
            let text = n.0.as_str();
            let length = text.unicode_len();
            let mut i: usize = 0;
            while i < length
                invariant
                    i <= length,
                    length == text@.len(),
                    text@ == n.0@,
                    *e == cst::Expression::Number(*n),
                    forall|j: int| 0 <= j < i ==> '0' <= #[trigger] text@[j] <= '9',
                decreases length - i,
            {
                let c = text.get_char(i);
                if c < '0' || c > '9' {
                    return false;
                }
                i = i + 1;
            }
            parse_digits(text).is_some()
        },
        cst::Expression::Character(c) => true,
    }
}

/// Whether `p` is a program the resolver accepts, per `program_wf`.
pub fn check_program(p: &cst::Program) -> (res: bool)
    ensures
        res == program_wf(*p),
{
    let length = p.0.len();
    if length == 0 {
        return false;
    }
    let mut i: usize = 0;
    while i < length - 1
        invariant
            length == p.0@.len(),
            1 <= length,
            i <= length - 1,
            forall|j: int|
                0 <= j < i ==> ((#[trigger] p.0@[j]) matches cst::Statement::Let(l)
                    && cst_wf(*l.expression)),
        decreases length - i,
    {
        match &p.0[i] {
            cst::Statement::Let(l) => {
                if !check_expression(&l.expression) {
                    return false;
                }
            },
            cst::Statement::Expression(..) => {
                return false;
            },
        }
        i = i + 1;
    }
    match &p.0[length - 1] {
        cst::Statement::Expression(es) => check_expression(&es.expression),
        cst::Statement::Let(..) => false,
    }
}

/// Shifting never changes where abstractions nest, and shifting up by `d`
/// raises no index by more than `d`.
pub proof fn lemma_shift_metrics(t: Expression, d: int, c: nat)
    requires
        d >= 0,
    ensures
        nest_depth(spec_shift(t, d, c)) == nest_depth(t),
        max_index(t) + d <= usize::MAX ==> max_index(spec_shift(t, d, c)) <= max_index(t) + d,
    decreases t,
{
    match t {
        Expression::Variable { index } => {}
        Expression::Abstraction { expression } => {
            lemma_shift_metrics(*expression, d, (c + 1) as nat);
        }
        Expression::Application { applicand, argument } => {
            lemma_shift_metrics(*applicand, d, c);
            lemma_shift_metrics(*argument, d, c);
        }
    }
}

/// An upward shift stays in range as soon as the largest index leaves room
/// for it.
pub proof fn lemma_shift_in_range_up(t: Expression, d: int, c: nat)
    requires
        d >= 0,
        max_index(t) + d <= usize::MAX,
    ensures
        shift_in_range(t, d, c),
    decreases t,
{
    match t {
        Expression::Variable { index } => {}
        Expression::Abstraction { expression } => {
            lemma_shift_in_range_up(*expression, d, (c + 1) as nat);
        }
        Expression::Application { applicand, argument } => {
            lemma_shift_in_range_up(*applicand, d, c);
            lemma_shift_in_range_up(*argument, d, c);
        }
    }
}

/// The bounds `substituted` needs all follow from headroom on the target
/// index, on the replacement's largest index, and on its nesting.
pub proof fn lemma_substitute_in_range(t: Expression, j: nat, r: Expression)
    requires
        j + nest_depth(t) <= usize::MAX,
        max_index(r) + nest_depth(t) <= usize::MAX,
        nest_depth(r) <= usize::MAX,
    ensures
        substitute_in_range(t, j, r),
    decreases t,
{
    match t {
        Expression::Variable { index } => {}
        Expression::Abstraction { expression } => {
            lemma_shift_in_range_up(r, 1, 0);
            lemma_shift_metrics(r, 1, 0);
            lemma_substitute_in_range(*expression, (j + 1) as nat, spec_shift(r, 1, 0));
        }
        Expression::Application { applicand, argument } => {
            lemma_substitute_in_range(*applicand, j, r);
            lemma_substitute_in_range(*argument, j, r);
        }
    }
}

/// After a term is shifted up by one at cutoff `c`, no variable of it refers
/// exactly `c` binders out: the shift moved every such index past `c`.
pub proof fn lemma_shift_up_absent(t: Expression, c: nat)
    requires
        max_index(t) < usize::MAX,
    ensures
        index_absent(spec_shift(t, 1, c), c),
    decreases t,
{
    match t {
        Expression::Variable { index } => {}
        Expression::Abstraction { expression } => {
            lemma_shift_up_absent(*expression, (c + 1) as nat);
        }
        Expression::Application { applicand, argument } => {
            lemma_shift_up_absent(*applicand, c);
            lemma_shift_up_absent(*argument, c);
        }
    }
}

/// Shifting up by one keeps an absent index absent, one binder further out.
pub proof fn lemma_shift_keeps_absent(t: Expression, j: nat, c: nat)
    requires
        index_absent(t, j),
        c <= j + 1,
        max_index(t) < usize::MAX,
    ensures
        index_absent(spec_shift(t, 1, c), (j + 1) as nat),
    decreases t,
{
    match t {
        Expression::Variable { index } => {}
        Expression::Abstraction { expression } => {
            lemma_shift_keeps_absent(*expression, (j + 1) as nat, (c + 1) as nat);
        }
        Expression::Application { applicand, argument } => {
            lemma_shift_keeps_absent(*applicand, j, c);
            lemma_shift_keeps_absent(*argument, j, c);
        }
    }
}

/// Substituting at `j` with a replacement that itself lacks index `j` leaves
/// a term with no variable at index `j`: each occurrence was replaced.
pub proof fn lemma_substitute_clears_index(t: Expression, j: nat, r: Expression)
    requires
        index_absent(r, j),
        max_index(r) + nest_depth(t) <= usize::MAX,
    ensures
        index_absent(spec_substitute(t, j, r), j),
    decreases t,
{
    match t {
        Expression::Variable { index } => {}
        Expression::Abstraction { expression } => {
            lemma_shift_keeps_absent(r, j, 0);
            lemma_shift_metrics(r, 1, 0);
            lemma_substitute_clears_index(*expression, (j + 1) as nat, spec_shift(r, 1, 0));
        }
        Expression::Application { applicand, argument } => {
            lemma_substitute_clears_index(*applicand, j, r);
            lemma_substitute_clears_index(*argument, j, r);
        }
    }
}

/// A term with no variable at index `c` can be shifted down by one at
/// cutoff `c` without any index leaving `[0, usize::MAX]`.
pub proof fn lemma_absent_shift_down(t: Expression, c: nat)
    requires
        index_absent(t, c),
    ensures
        shift_in_range(t, -1, c),
    decreases t,
{
    match t {
        Expression::Variable { index } => {}
        Expression::Abstraction { expression } => {
            lemma_absent_shift_down(*expression, (c + 1) as nat);
        }
        Expression::Application { applicand, argument } => {
            lemma_absent_shift_down(*applicand, c);
            lemma_absent_shift_down(*argument, c);
        }
    }
}

/// Substitution nests no deeper than the term and the replacement together,
/// and raises no index above the larger of the term's own indices and the
/// replacement's indices plus the nesting it was carried under.
pub proof fn lemma_substitute_metrics(t: Expression, j: nat, r: Expression)
    requires
        max_index(r) + nest_depth(t) <= usize::MAX,
    ensures
        nest_depth(spec_substitute(t, j, r)) <= nest_depth(t) + nest_depth(r),
        max_index(spec_substitute(t, j, r)) <= vstd::math::max(
            max_index(t) as int,
            max_index(r) + nest_depth(t) as int,
        ),
    decreases t,
{
    match t {
        Expression::Variable { index } => {}
        Expression::Abstraction { expression } => {
            lemma_shift_metrics(r, 1, 0);
            lemma_substitute_metrics(*expression, (j + 1) as nat, spec_shift(r, 1, 0));
        }
        Expression::Application { applicand, argument } => {
            lemma_substitute_metrics(*applicand, j, r);
            lemma_substitute_metrics(*argument, j, r);
        }
    }
}

impl Expression {
    /// Whether a normal-order reduction step applies to this term.
    pub fn is_reducible(&self) -> (res: bool)
        ensures
            res == spec_reducible(*self),
        decreases self,
    {
        match self {
            Expression::Variable { .. } => false,
            Expression::Abstraction { .. } => false,
            Expression::Application { applicand, .. } => match &**applicand {
                Expression::Variable { .. } => false,
                Expression::Abstraction { .. } => true,
                Expression::Application { .. } => applicand.is_reducible(),
            },
        }
    }

    /// Whether every index stays at or below `TERM_LIMIT` and abstractions
    /// nest at most `budget` deep.
    fn within_limits(&self, budget: usize) -> (res: bool)
        ensures
            res == (max_index(*self) <= TERM_LIMIT && nest_depth(*self) <= budget),
        decreases self,
    {
        match self {
            Expression::Variable { index: Some(i) } => *i <= TERM_LIMIT,
            Expression::Variable { index: None } => true,
            Expression::Abstraction { expression } => budget > 0 && expression.within_limits(
                budget - 1,
            ),
            Expression::Application { applicand, argument } => applicand.within_limits(budget)
                && argument.within_limits(budget),
        }
    }

    /// Whether the term is small enough, in indices and nesting, that a
    /// reduction step cannot push any index computation outside `usize`.
    pub fn is_modest(&self) -> (res: bool)
        ensures
            res == modest(*self),
    {
        self.within_limits(TERM_LIMIT)
    }

    /// One normal-order reduction step, per `spec_step`: the redex at the
    /// bottom of the left spine is beta-reduced as
    /// `shift(substitute(body, 0, shift(argument, 1, 0)), -1, 0)`.
    pub fn evaluate1(self) -> (res: Expression)
        requires
            modest(self),
        ensures
            res == spec_step(self),
        decreases self,
    {
        match self {
            Expression::Application { applicand, argument } => match *applicand {
                Expression::Abstraction { expression } => {
                    proof {
                        assert(nest_depth(self) >= nest_depth(Expression::Abstraction { expression })
                            == nest_depth(*expression) + 1);
                        assert(max_index(self) >= max_index(Expression::Abstraction { expression })
                            == max_index(*expression));
                        assert(nest_depth(self) >= nest_depth(*argument));
                        assert(max_index(self) >= max_index(*argument));
                        lemma_shift_in_range_up(*argument, 1, 0);
                        lemma_shift_metrics(*argument, 1, 0);
                        let shifted_argument = spec_shift(*argument, 1, 0);
                        lemma_substitute_in_range(*expression, 0, shifted_argument);
                        lemma_shift_up_absent(*argument, 0);
                        lemma_substitute_clears_index(*expression, 0, shifted_argument);
                        lemma_absent_shift_down(
                            spec_substitute(*expression, 0, shifted_argument),
                            0,
                        );
                        lemma_substitute_metrics(*expression, 0, shifted_argument);
                    }
                    expression.substituted(0, argument.shifted(1, 0)).shifted(-1, 0)
                }
                other => {
                    let stepped = other.evaluate1();
                    Expression::Application {
                        applicand: Box::new(stepped),
                        argument,
                    }
                }
            },
            _ => self,
        }
    }

    /// Repeats the one-step reduction while the term has a redex on its
    /// spine, for at most `fuel` steps, stopping early if a step could move
    /// an index outside the range `modest` guards; per `spec_evaluate`.
    pub fn evaluate(self, fuel: usize) -> (ev: Evaluation)
        ensures
            ev.result == spec_evaluate(self, fuel as nat).0,
            ev.steps == spec_evaluate(self, fuel as nat).1,
            ev.normal_form == !spec_reducible(ev.result),
    {
        let ghost start = self;
        let mut current = self;
        let mut steps: usize = 0;
        while steps < fuel && current.is_reducible() && current.is_modest()
            invariant
                steps <= fuel,
                spec_evaluate(start, fuel as nat).0 == spec_evaluate(
                    current,
                    (fuel - steps) as nat,
                ).0,
                spec_evaluate(start, fuel as nat).1 == steps + spec_evaluate(
                    current,
                    (fuel - steps) as nat,
                ).1,
            decreases fuel - steps,
        {
            current = current.evaluate1();
            steps = steps + 1;
        }
        let normal_form = !current.is_reducible();
        Evaluation { result: current, steps, normal_form }
    }
}

/// The canonical text of a term: a bound variable is its index, a free
/// variable is `None`, an abstraction is `\ ` then its body, and an
/// application shows its function (parenthesized when an abstraction) and
/// its argument (parenthesized unless a variable), space-separated:
/// application binds tighter than abstraction and associates left.
pub open spec fn spec_render(t: Expression) -> Seq<char>
    decreases t,
{
    match t {
        Expression::Variable { index } => match index {
            Some(i) => crate::render::decimal(i as nat),
            None => "None"@,
        },
        Expression::Abstraction { expression } => "\\ "@ + spec_render(*expression),
        Expression::Application { applicand, argument } => (match *applicand {
            Expression::Abstraction { .. } => "("@ + spec_render(*applicand) + ")"@,
            _ => spec_render(*applicand),
        }) + " "@ + (match *argument {
            Expression::Variable { .. } => spec_render(*argument),
            _ => "("@ + spec_render(*argument) + ")"@,
        }),
    }
}

impl Expression {
    /// The canonical text of this term, per `spec_render`.
    pub fn render(&self) -> (res: String)
        ensures
            res@ == spec_render(*self),
        decreases self,
    {
        match self {
            Expression::Variable { index: Some(i) } => crate::render::render_usize(*i),
            Expression::Variable { index: None } => "None".to_owned(),
            Expression::Abstraction { expression } => {
                let mut out = "\\ ".to_owned();
                let body = expression.render();
                out.append(body.as_str());
                out
            },
            Expression::Application { applicand, argument } => {
                let mut out = String::new();
                let function_text = applicand.render();
                match &**applicand {
                    Expression::Abstraction { .. } => {
                        out.append("(");
                        out.append(function_text.as_str());
                        out.append(")");
                    },
                    _ => {
                        out.append(function_text.as_str());
                    },
                }
                out.append(" ");
                let argument_text = argument.render();
                match &**argument {
                    Expression::Variable { .. } => {
                        out.append(argument_text.as_str());
                    },
                    _ => {
                        out.append("(");
                        out.append(argument_text.as_str());
                        out.append(")");
                    },
                }
                out
            },
        }
    }
}

/// Every bound variable of `t` points at an enclosing binder: an index
/// seen under `depth` binders stays below `depth`. Free variables carry no
/// index at all.
pub open spec fn well_scoped(t: Expression, depth: nat) -> bool
    decreases t,
{
    match t {
        Expression::Variable { index } => match index {
            Some(i) => i < depth,
            None => true,
        },
        Expression::Abstraction { expression } => well_scoped(*expression, depth + 1),
        Expression::Application { applicand, argument } => well_scoped(*applicand, depth)
            && well_scoped(*argument, depth),
    }
}

/// A name found in the scope stack lies within it.
proof fn lemma_scope_lookup_bound(scopes: Seq<Seq<char>>, name: Seq<char>)
    ensures
        scope_lookup(scopes, name) matches Some(k) ==> k < scopes.len(),
    decreases scopes.len(),
{
    if scopes.len() > 0 && scopes.last() != name {
        lemma_scope_lookup_bound(scopes.drop_last(), name);
    }
}

/// A term well-scoped under few binders is well-scoped under more.
proof fn lemma_well_scoped_weaken(t: Expression, shallow: nat, deep: nat)
    requires
        well_scoped(t, shallow),
        shallow <= deep,
    ensures
        well_scoped(t, deep),
    decreases t,
{
    match t {
        Expression::Variable { index } => {},
        Expression::Abstraction { expression } => {
            lemma_well_scoped_weaken(*expression, (shallow + 1) as nat, (deep + 1) as nat);
        },
        Expression::Application { applicand, argument } => {
            lemma_well_scoped_weaken(*applicand, shallow, deep);
            lemma_well_scoped_weaken(*argument, shallow, deep);
        },
    }
}

/// The body of a Church numeral uses only the two surrounding binders.
proof fn lemma_church_body_well_scoped(n: nat)
    ensures
        well_scoped(spec_church_body(n), 2),
    decreases n,
{
    reveal_with_fuel(well_scoped, 3);
    if n > 0 {
        lemma_church_body_well_scoped((n - 1) as nat);
    }
}

/// Wrapping in binders discharges that many levels of scope depth.
proof fn lemma_wrap_well_scoped(n: nat, t: Expression, depth: nat)
    requires
        well_scoped(t, depth + n),
    ensures
        well_scoped(wrap_abstractions(n, t), depth),
    decreases n,
{
    if n > 0 {
        lemma_wrap_well_scoped((n - 1) as nat, t, (depth + 1) as nat);
    }
}

/// Resolution assigns every bound occurrence a correct index: the term a
/// well-formed syntax tree resolves to is well-scoped at the depth of the
/// scope stack it was resolved under, so no index dangles.
pub proof fn lemma_resolve_well_scoped(e: cst::Expression, scopes: Seq<Seq<char>>)
    requires
        cst_wf(e),
    ensures
        well_scoped(spec_resolve(e, scopes), scopes.len()),
    decreases e, 1int,
{
    reveal_with_fuel(well_scoped, 3);
    match e {
        cst::Expression::Variable(v) => {
            lemma_scope_lookup_bound(scopes, v.identifier.0@);
        },
        cst::Expression::Abstraction(a) => {
            let inner_scopes = scopes + a.parameters.deep_view();
            let count = a.parameters.len() as nat;
            let wraps: nat = if count == 0 {
                1
            } else {
                count
            };
            lemma_resolve_well_scoped(*a.expression, inner_scopes);
            let body = spec_resolve(*a.expression, inner_scopes);
            assert(spec_resolve(e, scopes) == wrap_abstractions(wraps, body));
            assert(inner_scopes.len() == scopes.len() + a.parameters.deep_view().len());
            lemma_well_scoped_weaken(body, inner_scopes.len(), (scopes.len() + wraps) as nat);
            lemma_wrap_well_scoped(wraps, body, scopes.len());
        },
        cst::Expression::Application(a) => {
            lemma_resolve_application_well_scoped(a, a.expressions.len() as nat, scopes);
        },
        cst::Expression::Number(n) => {
            lemma_church_body_well_scoped(digits_value(n.0@));
            lemma_well_scoped_weaken(
                spec_church_body(digits_value(n.0@)),
                2,
                (scopes.len() + 2) as nat,
            );
        },
        cst::Expression::Character(c) => {
            lemma_church_body_well_scoped(c.0 as nat);
            lemma_well_scoped_weaken(spec_church_body(c.0 as nat), 2, (scopes.len() + 2) as nat);
        },
    }
}

/// The fold of a well-formed application list is well-scoped.
proof fn lemma_resolve_application_well_scoped(
    a: cst::ApplicationExpression,
    k: nat,
    scopes: Seq<Seq<char>>,
)
    requires
        cst_wf(cst::Expression::Application(a)),
        k <= a.expressions.len(),
    ensures
        well_scoped(spec_resolve_application(a, k, scopes), scopes.len()),
    decreases a, k,
{
    reveal_with_fuel(well_scoped, 3);
    if k == 1 {
        lemma_resolve_well_scoped(a.expressions[0], scopes);
    } else if 1 < k <= a.expressions.len() {
        lemma_resolve_application_well_scoped(a, (k - 1) as nat, scopes);
        lemma_resolve_well_scoped(a.expressions[k - 1], scopes);
    }
}

/// Resolution of a whole program assigns every bound occurrence a correct
/// index: `let`-bound names resolve within the binders the sugar creates.
pub proof fn lemma_resolve_statements_well_scoped(stmts: Seq<cst::Statement>, scopes: Seq<Seq<char>>)
    requires
        statements_wf(stmts),
    ensures
        well_scoped(spec_resolve_statements(stmts, scopes), scopes.len()),
    decreases stmts.len(),
{
    reveal_with_fuel(well_scoped, 3);
    if stmts.len() == 1 {
        match stmts[0] {
            cst::Statement::Expression(es) => {
                lemma_resolve_well_scoped(es.expression, scopes);
            },
            cst::Statement::Let(l) => {},
        }
    } else if stmts.len() > 1 {
        match stmts[0] {
            cst::Statement::Let(l) => {
                assert(statements_wf(stmts.drop_first())) by {
                    assert forall|j: int|
                        0 <= j < stmts.drop_first().len() - 1 implies ((
                    #[trigger] stmts.drop_first()[j]) matches cst::Statement::Let(l2) && cst_wf(
                        *l2.expression,
                    )) by {
                        assert(stmts.drop_first()[j] == stmts[j + 1]);
                    }
                    assert(stmts.drop_first().last() == stmts.last());
                }
                lemma_resolve_statements_well_scoped(
                    stmts.drop_first(),
                    scopes.push(l.variable.0@),
                );
                lemma_resolve_well_scoped(*l.expression, scopes);
            },
            cst::Statement::Expression(es) => {},
        }
    }
}

/// Shifting up by one under `depth` binders leaves a term well-scoped one
/// binder deeper.
proof fn lemma_shift_up_well_scoped(t: Expression, c: nat, depth: nat)
    requires
        well_scoped(t, depth),
        c <= depth,
        depth + nest_depth(t) <= usize::MAX,
    ensures
        well_scoped(spec_shift(t, 1, c), depth + 1),
    decreases t,
{
    match t {
        Expression::Variable { index } => {},
        Expression::Abstraction { expression } => {
            lemma_shift_up_well_scoped(*expression, (c + 1) as nat, (depth + 1) as nat);
        },
        Expression::Application { applicand, argument } => {
            lemma_shift_up_well_scoped(*applicand, c, depth);
            lemma_shift_up_well_scoped(*argument, c, depth);
        },
    }
}

/// Substituting a well-scoped replacement into a well-scoped term keeps
/// the term well-scoped at the same depth.
proof fn lemma_substitute_well_scoped(t: Expression, j: nat, r: Expression, depth: nat)
    requires
        well_scoped(t, depth),
        well_scoped(r, depth),
        depth + nest_depth(t) + nest_depth(r) <= usize::MAX,
    ensures
        well_scoped(spec_substitute(t, j, r), depth),
    decreases t,
{
    match t {
        Expression::Variable { index } => {},
        Expression::Abstraction { expression } => {
            lemma_shift_up_well_scoped(r, 0, depth);
            lemma_shift_metrics(r, 1, 0);
            lemma_substitute_well_scoped(
                *expression,
                (j + 1) as nat,
                spec_shift(r, 1, 0),
                (depth + 1) as nat,
            );
        },
        Expression::Application { applicand, argument } => {
            lemma_substitute_well_scoped(*applicand, j, r, depth);
            lemma_substitute_well_scoped(*argument, j, r, depth);
        },
    }
}

/// Shifting down past a binder that no variable refers to leaves a term
/// well-scoped one binder shallower.
proof fn lemma_shift_down_well_scoped(t: Expression, c: nat, depth: nat)
    requires
        well_scoped(t, depth + 1),
        index_absent(t, c),
        c <= depth,
    ensures
        well_scoped(spec_shift(t, -1, c), depth),
    decreases t,
{
    match t {
        Expression::Variable { index } => {},
        Expression::Abstraction { expression } => {
            lemma_shift_down_well_scoped(*expression, (c + 1) as nat, (depth + 1) as nat);
        },
        Expression::Application { applicand, argument } => {
            lemma_shift_down_well_scoped(*applicand, c, depth);
            lemma_shift_down_well_scoped(*argument, c, depth);
        },
    }
}

/// One reduction step preserves well-scopedness: beta-reduction rebinds or
/// renumbers every index correctly, so no reduction manufactures a
/// dangling index or strands a bound variable.
pub proof fn lemma_step_well_scoped(t: Expression, depth: nat)
    requires
        well_scoped(t, depth),
        modest(t),
        depth <= TERM_LIMIT,
    ensures
        well_scoped(spec_step(t), depth),
    decreases t,
{
    match t {
        Expression::Application { applicand, argument } => {
            match *applicand {
                Expression::Abstraction { expression } => {
                    assert(nest_depth(t) >= nest_depth(Expression::Abstraction { expression })
                        == nest_depth(*expression) + 1);
                    assert(max_index(t) >= max_index(Expression::Abstraction { expression })
                        == max_index(*expression));
                    assert(nest_depth(t) >= nest_depth(*argument));
                    assert(max_index(t) >= max_index(*argument));
                    assert(well_scoped(Expression::Abstraction { expression }, depth));
                    assert(well_scoped(*expression, (depth + 1) as nat));
                    assert(well_scoped(*argument, depth));
                    let shifted_argument = spec_shift(*argument, 1, 0);
                    lemma_shift_up_well_scoped(*argument, 0, depth);
                    lemma_shift_metrics(*argument, 1, 0);
                    lemma_substitute_well_scoped(
                        *expression,
                        0,
                        shifted_argument,
                        (depth + 1) as nat,
                    );
                    lemma_shift_up_absent(*argument, 0);
                    lemma_substitute_clears_index(*expression, 0, shifted_argument);
                    lemma_shift_down_well_scoped(
                        spec_substitute(*expression, 0, shifted_argument),
                        0,
                        depth,
                    );
                },
                other => {
                    assert(max_index(t) >= max_index(*applicand));
                    assert(nest_depth(t) >= nest_depth(*applicand));
                    if spec_reducible(*applicand) || *applicand is Variable || *applicand
                        is Application {
                        lemma_step_well_scoped(*applicand, depth);
                    }
                },
            }
        },
        _ => {},
    }
}

/// Reduction preserves well-scopedness for as long as it runs: every
/// intermediate and the final term of an evaluation stay correctly
/// indexed.
pub proof fn lemma_evaluate_well_scoped(t: Expression, fuel: nat, depth: nat)
    requires
        well_scoped(t, depth),
        depth <= TERM_LIMIT,
    ensures
        well_scoped(spec_evaluate(t, fuel).0, depth),
    decreases fuel,
{
    if fuel > 0 && spec_reducible(t) && modest(t) {
        lemma_step_well_scoped(t, depth);
        lemma_evaluate_well_scoped(spec_step(t), (fuel - 1) as nat, depth);
    }
}

/// Shift identity: moving indices by zero changes nothing, at any cutoff.
pub proof fn lemma_shift_zero(t: Expression, c: nat)
    ensures
        spec_shift(t, 0, c) == t,
    decreases t,
{
    match t {
        Expression::Variable { index } => {}
        Expression::Abstraction { expression } => {
            lemma_shift_zero(*expression, (c + 1) as nat);
        }
        Expression::Application { applicand, argument } => {
            lemma_shift_zero(*applicand, c);
            lemma_shift_zero(*argument, c);
        }
    }
}

/// Each index of `t` at or above the cutoff `c` stays at or above it after
/// moving by `d`; with `c == 0` this says the shift keeps indices
/// non-negative.
pub open spec fn shift_keeps_cutoff(t: Expression, d: int, c: nat) -> bool
    decreases t,
{
    match t {
        Expression::Variable { index } => match index {
            Some(i) => i >= c ==> i + d >= c,
            None => true,
        },
        Expression::Abstraction { expression } => shift_keeps_cutoff(
            *expression,
            d,
            (c + 1) as nat,
        ),
        Expression::Application { applicand, argument } => shift_keeps_cutoff(*applicand, d, c)
            && shift_keeps_cutoff(*argument, d, c),
    }
}

/// Shift composition: shifting by `d1` and then by `d2` at the same cutoff
/// is one shift by `d1 + d2`, provided the first shift leaves every moved
/// index at or above the cutoff and both stay inside `usize`.
pub proof fn lemma_shift_composition(t: Expression, d1: int, d2: int, c: nat)
    requires
        shift_keeps_cutoff(t, d1, c),
        shift_in_range(t, d1, c),
        shift_in_range(t, d1 + d2, c),
    ensures
        spec_shift(spec_shift(t, d1, c), d2, c) == spec_shift(t, d1 + d2, c),
    decreases t,
{
    match t {
        Expression::Variable { index } => {}
        Expression::Abstraction { expression } => {
            lemma_shift_composition(*expression, d1, d2, (c + 1) as nat);
        }
        Expression::Application { applicand, argument } => {
            lemma_shift_composition(*applicand, d1, d2, c);
            lemma_shift_composition(*argument, d1, d2, c);
        }
    }
}

/// Substitution at an index that occurs nowhere in the term is the
/// identity: no variable matches, and the untouched variables keep their
/// raw index numbers.
pub proof fn lemma_substitute_absent(t: Expression, j: nat, r: Expression)
    requires
        index_absent(t, j),
    ensures
        spec_substitute(t, j, r) == t,
    decreases t,
{
    match t {
        Expression::Variable { index } => {}
        Expression::Abstraction { expression } => {
            lemma_substitute_absent(*expression, (j + 1) as nat, spec_shift(r, 1, 0));
        }
        Expression::Application { applicand, argument } => {
            lemma_substitute_absent(*applicand, j, r);
            lemma_substitute_absent(*argument, j, r);
        }
    }
}

/// Evaluation is a function of the input term and the fuel alone: equal
/// terms reduce to the same result in the same number of steps, on every
/// run.
pub proof fn lemma_evaluate_deterministic(t1: Expression, t2: Expression, fuel: nat)
    requires
        t1 == t2,
    ensures
        spec_evaluate(t1, fuel) == spec_evaluate(t2, fuel),
{
}

} // verus!
