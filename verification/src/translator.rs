//! Bracket abstraction: translates a resolved named term into an
//! equivalent term built only from applications, free variables, and the
//! combinators `s` and `k` (free variables by those names), removing every
//! abstraction. The result renders in backtick-prefixed binary application
//! notation.

use crate::expression::{
    named_equal, named_nest, named_occurs, named_shift, named_shift_in_range,
    lemma_named_equal_reflexive, lemma_named_equal_shift, Abstraction, Application, Expression,
    Variable,
};
use crate::render::push_char;
use vstd::prelude::*;
use vstd::string::StringExecFns;

verus! {

/// Whether `t` holds no abstraction node.
pub open spec fn lambda_free(t: Expression) -> bool
    decreases t,
{
    match t {
        Expression::Variable(v) => true,
        Expression::Abstraction(a) => false,
        Expression::Application(a) => lambda_free(*a.callee) && lambda_free(*a.argument),
    }
}

/// Whether `t` is a free variable named `name`: the shape of the emitted
/// `s` and `k` combinators.
pub open spec fn combinator_var(t: Expression, name: Seq<char>) -> bool {
    t matches Expression::Variable(v) && v.name@ == name && v.index is None
}

/// Eliminates the binder over a lambda-free `body` (indices measured from
/// that binder, so the bound variable is index 0), with `sv` and `kv` the
/// combinator variables to splice in:
/// an application of something to the bound variable, where the callee
/// does not use it, eta-reduces to the shifted callee; a body that does
/// not use the bound variable becomes `k body`, shifted past the removed
/// binder; the bound variable itself becomes `s k k`; an application
/// whose sides use the bound variable distributes through `s`.
pub open spec fn spec_eliminate(body: Expression, sv: Expression, kv: Expression) -> Expression
    decreases body,
{
    match body {
        Expression::Application(a) => {
            if (*a.argument matches Expression::Variable(v) && v.index == Some(0usize))
                && !named_occurs(*a.callee, 0) {
                named_shift(*a.callee, -1, 0)
            } else if !named_occurs(body, 0) {
                Expression::Application(
                    Application {
                        callee: Box::new(kv),
                        argument: Box::new(named_shift(body, -1, 0)),
                    },
                )
            } else {
                Expression::Application(
                    Application {
                        callee: Box::new(
                            Expression::Application(
                                Application {
                                    callee: Box::new(sv),
                                    argument: Box::new(spec_eliminate(*a.callee, sv, kv)),
                                },
                            ),
                        ),
                        argument: Box::new(spec_eliminate(*a.argument, sv, kv)),
                    },
                )
            }
        },
        Expression::Variable(v) => {
            if !named_occurs(body, 0) {
                Expression::Application(
                    Application {
                        callee: Box::new(kv),
                        argument: Box::new(named_shift(body, -1, 0)),
                    },
                )
            } else {
                Expression::Application(
                    Application {
                        callee: Box::new(
                            Expression::Application(
                                Application { callee: Box::new(sv), argument: Box::new(kv) },
                            ),
                        ),
                        argument: Box::new(kv),
                    },
                )
            }
        },
        Expression::Abstraction(a) => body,
    }
}

/// The combinator translation: variables stay, applications translate both
/// sides, and each abstraction is removed by translating its body first
/// and then eliminating the binder.
pub open spec fn spec_encode(t: Expression, sv: Expression, kv: Expression) -> Expression
    decreases t,
{
    match t {
        Expression::Variable(v) => t,
        Expression::Application(a) => Expression::Application(
            Application {
                callee: Box::new(spec_encode(*a.callee, sv, kv)),
                argument: Box::new(spec_encode(*a.argument, sv, kv)),
            },
        ),
        Expression::Abstraction(a) => spec_eliminate(spec_encode(*a.expression, sv, kv), sv, kv),
    }
}

/// The backtick notation of a lambda-free term: a variable is its name,
/// and an application is a backtick followed by both sides.
pub open spec fn spec_unlambda(t: Expression) -> Seq<char>
    decreases t,
{
    match t {
        Expression::Variable(v) => v.name@,
        Expression::Application(a) => seq!['`'] + spec_unlambda(*a.callee) + spec_unlambda(
            *a.argument,
        ),
        Expression::Abstraction(a) => Seq::empty(),
    }
}

/// A lambda-free term has no abstraction to nest.
proof fn lemma_lambda_free_nest(t: Expression)
    requires
        lambda_free(t),
    ensures
        named_nest(t) == 0,
    decreases t,
{
    match t {
        Expression::Variable(v) => {},
        Expression::Abstraction(a) => {},
        Expression::Application(a) => {
            lemma_lambda_free_nest(*a.callee);
            lemma_lambda_free_nest(*a.argument);
        },
    }
}

/// A lambda-free term in which index 0 does not occur can be shifted down
/// by one: every index is at least 1 or belongs to a free variable.
proof fn lemma_lambda_free_shift_down(t: Expression)
    requires
        lambda_free(t),
        !named_occurs(t, 0),
    ensures
        named_shift_in_range(t, -1, 0),
    decreases t,
{
    match t {
        Expression::Variable(v) => {},
        Expression::Abstraction(a) => {},
        Expression::Application(a) => {
            lemma_lambda_free_shift_down(*a.callee);
            lemma_lambda_free_shift_down(*a.argument);
        },
    }
}

/// Shifting keeps a term lambda-free.
proof fn lemma_shift_lambda_free(t: Expression, d: int, c: nat)
    requires
        lambda_free(t),
    ensures
        lambda_free(named_shift(t, d, c)),
    decreases t,
{
    match t {
        Expression::Variable(v) => {},
        Expression::Abstraction(a) => {},
        Expression::Application(a) => {
            lemma_shift_lambda_free(*a.callee, d, c);
            lemma_shift_lambda_free(*a.argument, d, c);
        },
    }
}

/// Equal terms agree on which indices occur.
proof fn lemma_named_equal_occurs(a: Expression, b: Expression, j: nat)
    requires
        named_equal(a, b),
    ensures
        named_occurs(a, j) == named_occurs(b, j),
    decreases a,
{
    match (a, b) {
        (Expression::Abstraction(x), Expression::Abstraction(y)) => {
            lemma_named_equal_occurs(*x.expression, *y.expression, (j + 1) as nat);
        },
        (Expression::Application(x), Expression::Application(y)) => {
            lemma_named_equal_occurs(*x.callee, *y.callee, j);
            lemma_named_equal_occurs(*x.argument, *y.argument, j);
        },
        _ => {},
    }
}

/// Applications of pairwise-equal parts are equal.
proof fn lemma_named_equal_app(c1: Expression, a1: Expression, c2: Expression, a2: Expression)
    requires
        named_equal(c1, c2),
        named_equal(a1, a2),
    ensures
        named_equal(
            Expression::Application(Application { callee: Box::new(c1), argument: Box::new(a1) }),
            Expression::Application(Application { callee: Box::new(c2), argument: Box::new(a2) }),
        ),
{
}

/// Equal terms agree on being a variable, on its index, and on its name.
proof fn lemma_named_equal_var_shape(a: Expression, b: Expression)
    requires
        named_equal(a, b),
    ensures
        a is Variable <==> b is Variable,
        (a is Variable && b is Variable) ==> a->Variable_0.index == b->Variable_0.index
            && a->Variable_0.name@ == b->Variable_0.name@,
{
    match (a, b) {
        (Expression::Variable(x), Expression::Variable(y)) => {},
        (Expression::Abstraction(x), Expression::Abstraction(y)) => {},
        (Expression::Application(x), Expression::Application(y)) => {},
        _ => {},
    }
}

/// Eliminating the binder over equal bodies gives equal results.
proof fn lemma_eliminate_congruence(b1: Expression, b2: Expression, sv: Expression, kv: Expression)
    requires
        named_equal(b1, b2),
    ensures
        named_equal(spec_eliminate(b1, sv, kv), spec_eliminate(b2, sv, kv)),
    decreases b1,
{
    reveal_with_fuel(named_equal, 4);
    lemma_named_equal_reflexive(sv);
    lemma_named_equal_reflexive(kv);
    lemma_named_equal_occurs(b1, b2, 0);
    match (b1, b2) {
        (Expression::Application(x), Expression::Application(y)) => {
            lemma_named_equal_occurs(*x.callee, *y.callee, 0);
            lemma_named_equal_occurs(*x.argument, *y.argument, 0);
            let eta1 = (*x.argument matches Expression::Variable(v) && v.index == Some(0usize))
                && !named_occurs(*x.callee, 0);
            let eta2 = (*y.argument matches Expression::Variable(v) && v.index == Some(0usize))
                && !named_occurs(*y.callee, 0);
            lemma_named_equal_var_shape(*x.argument, *y.argument);
            assert(eta1 == eta2);
            if eta1 {
                lemma_named_equal_shift(*x.callee, *y.callee, -1, 0);
            } else if !named_occurs(b1, 0) {
                lemma_named_equal_shift(b1, b2, -1, 0);
            } else {
                lemma_eliminate_congruence(*x.callee, *y.callee, sv, kv);
                lemma_eliminate_congruence(*x.argument, *y.argument, sv, kv);
            }
        },
        (Expression::Variable(x), Expression::Variable(y)) => {
            if !named_occurs(b1, 0) {
                lemma_named_equal_shift(b1, b2, -1, 0);
            }
        },
        _ => {},
    }
}

/// Eliminates the binder over the lambda-free translated `body`, per
/// `spec_eliminate`, with freshly built `s` and `k` variables.
fn eliminate(body: Expression) -> (res: Expression)
    requires
        lambda_free(body),
    ensures
        lambda_free(res),
        forall|sv: Expression, kv: Expression|
            combinator_var(sv, "s"@) && combinator_var(kv, "k"@) ==> named_equal(
                res,
                spec_eliminate(body, sv, kv),
            ),
    decreases body,
{
    let ghost original = body;
    match body {
        Expression::Application(a) => {
            proof {
                lemma_lambda_free_nest(*a.callee);
                lemma_lambda_free_nest(*a.argument);
            }
            let argument_is_bound = match &*a.argument {
                Expression::Variable(v) => match v.index {
                    Some(i) => i == 0,
                    None => false,
                },
                _ => false,
            };
            let callee_uses_bound = crate::expression::occurs_check(&a.callee, 0);
            if argument_is_bound && !callee_uses_bound {
                proof {
                    lemma_lambda_free_shift_down(*a.callee);
                    lemma_shift_lambda_free(*a.callee, -1, 0);
                }
                let res = (*a.callee).shifted(-1, 0);
                proof {
                    reveal_with_fuel(lambda_free, 4);
                    lemma_named_equal_reflexive(res);
                    assert forall|sv: Expression, kv: Expression|
                        combinator_var(sv, "s"@) && combinator_var(kv, "k"@) implies named_equal(
                        res,
                        spec_eliminate(original, sv, kv),
                    ) by {
                        assert(spec_eliminate(original, sv, kv) == named_shift(*a.callee, -1, 0));
                    }
                }
                res
            } else {
                let argument_uses_bound = crate::expression::occurs_check(&a.argument, 0);
                if !callee_uses_bound && !argument_uses_bound {
                    let whole = Expression::Application(
                        Application { callee: a.callee, argument: a.argument },
                    );
                    proof {
                        assert(whole == original);
                        lemma_lambda_free_shift_down(whole);
                        lemma_shift_lambda_free(whole, -1, 0);
                        lemma_lambda_free_nest(whole);
                    }
                    let shifted_whole = whole.shifted(-1, 0);
                    proof {
                        lemma_named_equal_reflexive(shifted_whole);
                    }
                    let k_var = Variable::new(None, "k");
                    let ghost k_name = k_var.name;
                    let res = Expression::Application(
                        Application {
                            callee: Box::new(Expression::Variable(k_var)),
                            argument: Box::new(shifted_whole),
                        },
                    );
                    proof {
                        reveal_with_fuel(lambda_free, 4);
                        assert forall|sv: Expression, kv: Expression|
                            combinator_var(sv, "s"@) && combinator_var(kv, "k"@)
                            implies named_equal(res, spec_eliminate(original, sv, kv)) by {
                            reveal_with_fuel(named_equal, 4);
                            assert(!named_occurs(original, 0));
                            assert(spec_eliminate(original, sv, kv) == Expression::Application(
                                Application {
                                    callee: Box::new(kv),
                                    argument: Box::new(named_shift(original, -1, 0)),
                                },
                            ));
                            lemma_named_equal_reflexive(shifted_whole);
                            assert(named_equal(Expression::Variable(Variable { name: k_name, index: None }), kv));
                            lemma_named_equal_app(
                                Expression::Variable(Variable { name: k_name, index: None }),
                                shifted_whole,
                                kv,
                                named_shift(original, -1, 0),
                            );
                        }
                    }
                    res
                } else {
                    let callee = eliminate(*a.callee);
                    let argument = eliminate(*a.argument);
                    let res = Expression::Application(
                        Application {
                            callee: Box::new(
                                Expression::Application(
                                    Application {
                                        callee: Box::new(
                                            Expression::Variable(Variable::new(None, "s")),
                                        ),
                                        argument: Box::new(callee),
                                    },
                                ),
                            ),
                            argument: Box::new(argument),
                        },
                    );
                    proof {
                        reveal_with_fuel(lambda_free, 4);
                        assert forall|sv: Expression, kv: Expression|
                            combinator_var(sv, "s"@) && combinator_var(kv, "k"@)
                            implies named_equal(res, spec_eliminate(original, sv, kv)) by {
                            reveal_with_fuel(named_equal, 4);
                            assert(named_equal(callee, spec_eliminate(*a.callee, sv, kv)));
                            assert(named_equal(argument, spec_eliminate(*a.argument, sv, kv)));
                        }
                    }
                    res
                }
            }
        },
        Expression::Variable(v) => {
            let is_bound = match v.index {
                Some(i) => i == 0,
                None => false,
            };
            if is_bound {
                let res = Expression::Application(
                    Application {
                        callee: Box::new(
                            Expression::Application(
                                Application {
                                    callee: Box::new(
                                        Expression::Variable(Variable::new(None, "s")),
                                    ),
                                    argument: Box::new(
                                        Expression::Variable(Variable::new(None, "k")),
                                    ),
                                },
                            ),
                        ),
                        argument: Box::new(Expression::Variable(Variable::new(None, "k"))),
                    },
                );
                proof {
                    reveal_with_fuel(lambda_free, 4);
                    assert forall|sv: Expression, kv: Expression|
                        combinator_var(sv, "s"@) && combinator_var(kv, "k"@) implies named_equal(
                        res,
                        spec_eliminate(original, sv, kv),
                    ) by {
                        reveal_with_fuel(named_equal, 4);
                        assert(named_occurs(original, 0));
                    }
                }
                res
            } else {
                let var = Expression::Variable(v);
                proof {
                    assert(var == original);
                    assert(!named_occurs(var, 0));
                    lemma_lambda_free_shift_down(var);
                    lemma_shift_lambda_free(var, -1, 0);
                    lemma_lambda_free_nest(var);
                }
                let shifted_var = var.shifted(-1, 0);
                proof {
                    lemma_named_equal_reflexive(shifted_var);
                }
                let res = Expression::Application(
                    Application {
                        callee: Box::new(Expression::Variable(Variable::new(None, "k"))),
                        argument: Box::new(shifted_var),
                    },
                );
                proof {
                    reveal_with_fuel(lambda_free, 4);
                    assert forall|sv: Expression, kv: Expression|
                        combinator_var(sv, "s"@) && combinator_var(kv, "k"@) implies named_equal(
                        res,
                        spec_eliminate(original, sv, kv),
                    ) by {
                        reveal_with_fuel(named_equal, 4);
                        assert(spec_eliminate(original, sv, kv) == Expression::Application(
                            Application {
                                callee: Box::new(kv),
                                argument: Box::new(named_shift(original, -1, 0)),
                            },
                        ));
                    }
                }
                res
            }
        },
        Expression::Abstraction(a) => {
            proof {
                assert(false);
            }
            Expression::Abstraction(a)
        },
    }
}

/// Translates a resolved term to combinators, per `spec_encode`: the
/// result is free of abstractions, built from the original free variables
/// and the combinator variables `s` and `k`.
pub fn encode(value: Expression) -> (res: Expression)
    ensures
        lambda_free(res),
        forall|sv: Expression, kv: Expression|
            combinator_var(sv, "s"@) && combinator_var(kv, "k"@) ==> named_equal(
                res,
                spec_encode(value, sv, kv),
            ),
    decreases value,
{
    let ghost original = value;
    match value {
        Expression::Variable(v) => {
            let res = Expression::Variable(v);
            proof {
                lemma_named_equal_reflexive(res);
                assert forall|sv: Expression, kv: Expression|
                    combinator_var(sv, "s"@) && combinator_var(kv, "k"@) implies named_equal(
                    res,
                    spec_encode(original, sv, kv),
                ) by {
                    assert(spec_encode(original, sv, kv) == original);
                }
            }
            res
        },
        Expression::Application(a) => {
            let callee = encode(*a.callee);
            let argument = encode(*a.argument);
            let res = Expression::Application(
                Application { callee: Box::new(callee), argument: Box::new(argument) },
            );
            proof {
                assert forall|sv: Expression, kv: Expression|
                    combinator_var(sv, "s"@) && combinator_var(kv, "k"@) implies named_equal(
                    res,
                    spec_encode(original, sv, kv),
                ) by {
                    reveal_with_fuel(named_equal, 4);
                    assert(named_equal(callee, spec_encode(*a.callee, sv, kv)));
                    assert(named_equal(argument, spec_encode(*a.argument, sv, kv)));
                }
            }
            res
        },
        Expression::Abstraction(a) => {
            let translated_body = encode(*a.expression);
            let res = eliminate(translated_body);
            proof {
                assert forall|sv: Expression, kv: Expression|
                    combinator_var(sv, "s"@) && combinator_var(kv, "k"@) implies named_equal(
                    res,
                    spec_encode(original, sv, kv),
                ) by {
                    lemma_eliminate_congruence(
                        translated_body,
                        spec_encode(*a.expression, sv, kv),
                        sv,
                        kv,
                    );
                    crate::expression::lemma_named_equal_transitive(
                        res,
                        spec_eliminate(translated_body, sv, kv),
                        spec_eliminate(spec_encode(*a.expression, sv, kv), sv, kv),
                    );
                }
            }
            res
        },
    }
}

/// The backtick notation of a lambda-free term, per `spec_unlambda`.
pub fn unlambda(value: &Expression) -> (res: String)
    requires
        lambda_free(*value),
    ensures
        res@ == spec_unlambda(*value),
    decreases value,
{
    match value {
        Expression::Variable(v) => v.name.clone(),
        Expression::Application(a) => {
            let mut out = String::new();
            push_char(&mut out, '`');
            let callee = unlambda(&a.callee);
            out.append(callee.as_str());
            let argument = unlambda(&a.argument);
            out.append(argument.as_str());
            proof {
                assert(Seq::<char>::empty().push('`') =~= seq!['`']);
            }
            out
        },
        Expression::Abstraction(a) => {
            proof {
                assert(false);
            }
            String::new()
        },
    }
}

} // verus!
