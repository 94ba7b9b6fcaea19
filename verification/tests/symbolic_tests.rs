use std::collections::HashMap;

use symbolic::{BigExpression, Expression, Term, INFINITY};

fn env(pairs: &[(char, usize)]) -> HashMap<char, usize> {
    pairs.iter().copied().collect()
}

#[test]
fn test_expressions() {
    let n = Expression::from_char('x')
        .add(Expression::from_term(Term::Num(255)))
        .div(Expression::from_term(Term::Num(256)))
        .mul(Expression::from_term(Term::Num(256)));
    assert_eq!(n.exec(&env(&[('x', 767)])).unwrap(), 768);

    let n = Expression::from_char('x')
        .add(Expression::from_term(Term::Num(255)))
        .div(Expression::from_term(Term::Num(256)))
        .mul(Expression::from_term(Term::Num(256)));
    assert_eq!(n.exec(&env(&[('x', 767)])).unwrap(), 768);
}

#[test]
fn symbolic_test_expressions() {
    let n = Expression::from_char('x')
        .add(Expression::from_term(Term::Num(255)))
        .div(Expression::from_term(Term::Num(256)))
        .mul(Expression::from_term(Term::Num(256)));
    assert_eq!(n.exec(&env(&[('x', 767)])).unwrap(), 768);

    let n = Expression::from_char('x')
        .add(Expression::from_term(Term::Num(255)))
        .div(Expression::from_term(Term::Num(256)))
        .mul(Expression::from_term(Term::Num(256)));
    assert_eq!(n.exec(&env(&[('x', 767)])).unwrap(), 768);
}

#[test]
fn test_minimizations() {
    let expr = BigExpression::from_char('a')
        .mul(BigExpression::from_i32(1))
        .add(BigExpression::from_i32(0))
        .div(BigExpression::from_i32(1))
        .add(BigExpression::from_i32(1).sub(BigExpression::from_i32(1)));
    let reduced_expr = expr.simplify();
    assert_eq!(reduced_expr, BigExpression::from_char('a'));
}

#[test]
fn test_substitution() {
    let main = Expression::from_char('x').sub(Expression::from_i32(255));
    let sub = Expression::from_char('x').div(Expression::from_i32(2));
    let new = main.substitute('x', sub);
    let expected = Expression::from_char('x')
        .div(Expression::from_i32(2))
        .sub(Expression::from_i32(255));
    assert_eq!(new, expected);
}

#[test]
fn min_with_infinity_simplifies_to_the_other_operand() {
    let e = Expression::from_term(Term::Num(INFINITY)).min(Expression::from_char('y'));
    assert_eq!(e, Expression::from_char('y'));
}

#[test]
fn max_with_zero_simplifies_to_the_other_operand() {
    let e = Expression::from_i32(0).max(Expression::from_char('y'));
    assert_eq!(e, Expression::from_char('y'));
}

#[test]
fn doubling_becomes_multiplication_by_two() {
    let e = Expression::from_char('a').add(Expression::from_char('a'));
    let expected = Expression::from_char('a').mul(Expression::from_i32(2));
    assert_eq!(e, expected);
}

#[test]
fn squaring_evaluates_at_seven() {
    let a = Expression::from_char('a');
    let squared = a.duplicate().mul(a);
    assert_eq!(squared.exec_single_var(7), 49);
}

#[test]
fn identities_collapse_to_operands() {
    let e = Expression::from_char('e');
    assert_eq!(e.duplicate().add(Expression::from_i32(0)), e);
    assert_eq!(e.duplicate().mul(Expression::from_i32(1)), e);
    assert_eq!(
        e.duplicate().mul(Expression::from_i32(0)),
        Expression::from_i32(0)
    );
    assert_eq!(e.duplicate().div(Expression::from_i32(1)), e);
    assert_eq!(e.duplicate().sub(e.duplicate()), Expression::from_i32(0));
    assert_eq!(e.duplicate().div(e.duplicate()), Expression::from_i32(1));
    assert_eq!(e.duplicate().rem(Expression::from_i32(1)), Expression::from_i32(0));
    assert_eq!(e.duplicate().rem(e.duplicate()), Expression::from_i32(0));
    assert_eq!(e.duplicate().min(e.duplicate()), e);
    assert_eq!(e.duplicate().max(e.duplicate()), e);
    assert_eq!(e.duplicate().max(Expression::from_i32(0)), e);
    assert_eq!(e.duplicate().gte(e.duplicate()), Expression::from_i32(1));
    assert_eq!(e.duplicate().lt(e.duplicate()), Expression::from_i32(0));
}

#[test]
fn modulus_is_less_than_its_literal() {
    let e = Expression::from_char('x').rem(Expression::from_i32(8));
    let guarded = e.lt(Expression::from_i32(8));
    assert_eq!(guarded, Expression::from_i32(1));
}

#[test]
fn simplification_is_idempotent() {
    let e = BigExpression::from_char('x')
        .add(BigExpression::from_i32(3))
        .mul(BigExpression::from_char('y'));
    let once = e.simplify();
    let twice = once.duplicate().simplify();
    assert_eq!(once, twice);
}

#[test]
fn inline_and_heap_round_trip_keeps_the_terms() {
    let e = Expression::from_char('x')
        .add(Expression::from_i32(255))
        .div(Expression::from_i32(4));
    let back = e.big().small();
    assert_eq!(e, back);
}

#[test]
fn evaluation_agrees_with_the_opcode_semantics() {
    let e = Expression::from_char('x')
        .add(Expression::from_i32(10))
        .mul(Expression::from_char('y'));
    // (x + 10) * y at x = 5, y = 3
    assert_eq!(e.exec(&env(&[('x', 5), ('y', 3)])).unwrap(), 45);

    let m = Expression::from_char('x').rem(Expression::from_i32(7));
    assert_eq!(m.exec(&env(&[('x', 23)])).unwrap(), 2);

    let mn = Expression::from_char('x').min(Expression::from_char('y'));
    assert_eq!(mn.exec(&env(&[('x', 12), ('y', 4)])).unwrap(), 4);

    let ge = Expression::from_char('x').gte(Expression::from_i32(9));
    assert_eq!(ge.exec(&env(&[('x', 9)])).unwrap(), 1);

    let lt = Expression::from_char('x').lt(Expression::from_i32(9));
    assert_eq!(lt.exec(&env(&[('x', 9)])).unwrap(), 0);

    let bools = Expression::from_char('x')
        .gte(Expression::from_i32(1))
        .and(Expression::from_char('y').lt(Expression::from_i32(2)));
    assert_eq!(bools.exec(&env(&[('x', 1), ('y', 1)])).unwrap(), 1);

    let either = Expression::from_char('x')
        .gte(Expression::from_i32(5))
        .or(Expression::from_char('y').lt(Expression::from_i32(2)));
    assert_eq!(either.exec(&env(&[('x', 1), ('y', 1)])).unwrap(), 1);
}

#[test]
fn unbound_variable_yields_no_value() {
    let e = Expression::from_char('x').add(Expression::from_i32(1));
    assert_eq!(e.exec(&env(&[('y', 4)])), None);
    assert_eq!(e.to_usize(), None);
}

#[test]
fn constant_expression_evaluates_without_variables() {
    let e = Expression::from_i32(6).mul(Expression::from_i32(7));
    assert_eq!(e.to_usize(), Some(42));
}

#[test]
fn caller_provided_stacks_are_reused() {
    let mut scratch: Vec<i64> = Vec::new();
    let e = Expression::from_char('x').add(Expression::from_i32(2));
    assert_eq!(e.exec_stack(&env(&[('x', 1)]), &mut scratch), Some(3));
    let f = Expression::from_char('x').mul(Expression::from_char('x'));
    assert_eq!(f.exec_single_var_stack(6, &mut scratch), 36);
}

#[test]
fn symbols_come_back_in_stream_order_with_duplicates() {
    let e = Expression::from_char('a')
        .add(Expression::from_char('b'))
        .mul(Expression::from_char('a'));
    assert_eq!(e.to_symbols(), vec!['a', 'b', 'a']);
}

#[test]
fn the_reserved_dash_variable_marks_an_unknown() {
    let known = Expression::from_char('a').add(Expression::from_i32(1));
    assert!(!known.is_unknown());
    let unknown = Expression::from_char('-').add(Expression::from_i32(1));
    assert!(unknown.is_unknown());
}

#[test]
fn minimize_folds_and_applies_identities() {
    let raw = BigExpression {
        terms: vec![Term::Num(3), Term::Num(4), Term::Add],
    };
    assert_eq!(raw.minimize(), BigExpression::from_i32(7));

    let raw = BigExpression {
        terms: vec![Term::Num(0), Term::Var('a'), Term::Add],
    };
    assert_eq!(raw.minimize(), BigExpression::from_char('a'));

    let raw = BigExpression {
        terms: vec![Term::Num(INFINITY), Term::Var('a'), Term::Min],
    };
    assert_eq!(raw.minimize(), BigExpression::from_char('a'));
}

#[test]
fn reduce_triples_reaches_a_fixed_point() {
    let raw = BigExpression {
        terms: vec![Term::Num(1), Term::Num(2), Term::Add, Term::Num(3), Term::Add],
    };
    let reduced = symbolic::simplify::reduce_triples(raw);
    assert_eq!(reduced, BigExpression::from_i32(6));
}

#[test]
fn product_folds_left_and_empty_is_zero() {
    let items: Vec<BigExpression> = vec![
        BigExpression::from_i32(2),
        BigExpression::from_i32(3),
        BigExpression::from_i32(4),
    ];
    let p = BigExpression::product(&items);
    assert_eq!(p.to_usize(), Some(24));

    let nothing: Vec<BigExpression> = Vec::new();
    assert_eq!(BigExpression::product(&nothing), BigExpression::from_i32(0));
}

#[test]
fn compound_assignment_rebuilds_in_place() {
    let mut e = Expression::from_char('x');
    e.add_assign(Expression::from_i32(5));
    e.mul_assign(Expression::from_i32(2));
    assert_eq!(e.exec(&env(&[('x', 10)])).unwrap(), 30);
    let mut z = Expression::from_char('x');
    z.sub_assign(Expression::from_char('x'));
    assert_eq!(z, Expression::from_i32(0));
}

#[test]
fn rendering_is_deterministic_and_readable() {
    let n = Expression::from_char('x')
        .add(Expression::from_i32(255))
        .div(Expression::from_i32(256))
        .mul(Expression::from_i32(256));
    assert_eq!(n.render(), "(((x+255)/256)*256)");
    assert_eq!(n.render(), "(((x+255)/256)*256)");

    let m = Expression::from_char('a').min(Expression::from_i32(4));
    assert_eq!(m.render(), "min(a, 4)");

    let neg = Expression::from_term(Term::Num(-17));
    assert_eq!(neg.render(), "-17");
}

#[test]
fn inline_storage_carries_the_terms_through_tinyvec() {
    // builds the expression in the stack-inlined flavor and reads it back
    // out through the heap flavor: the buffer wrappers must hand the terms
    // through unchanged and in order
    let e = Expression::from_char('q')
        .add(Expression::from_i32(1))
        .mul(Expression::from_i32(3));
    let heap: BigExpression = e.big();
    assert_eq!(heap.terms, vec![Term::Num(3), Term::Num(1), Term::Var('q'), Term::Add, Term::Mul]);
    assert_eq!(e.len(), 5);
    assert!(!e.is_empty());
}

#[test]
fn substitution_commutes_with_evaluation() {
    // e[x := v] evaluated equals e evaluated with x bound to v's value
    let e = Expression::from_char('x')
        .mul(Expression::from_i32(3))
        .add(Expression::from_char('y'));
    let v = Expression::from_char('y').add(Expression::from_i32(2));
    let substituted = e.duplicate().substitute('x', v.duplicate());
    let left = substituted.exec(&env(&[('y', 5)])).unwrap();
    let bound = v.exec(&env(&[('y', 5)])).unwrap();
    let right = e.exec(&env(&[('x', bound), ('y', 5)])).unwrap();
    assert_eq!(left, right);
    assert_eq!(left, 26);
}

#[test]
fn rendering_covers_every_glyph() {
    let x = || Expression::from_char('x');
    let y = || Expression::from_char('y');
    assert_eq!(x().sub(y()).render(), "(x-y)");
    assert_eq!(x().rem(y()).render(), "(x%y)");
    assert_eq!(x().and(y()).render(), "(x&&y)");
    assert_eq!(x().or(y()).render(), "(x||y)");
    assert_eq!(x().gte(y()).render(), "(x>=y)");
    assert_eq!(x().lt(y()).render(), "(x<y)");
    assert_eq!(x().max(y()).render(), "max(x, y)");
}

#[test]
fn minimize_collapses_equal_variable_windows() {
    let raw = BigExpression {
        terms: vec![Term::Var('a'), Term::Var('a'), Term::Sub],
    };
    assert_eq!(raw.minimize(), BigExpression::from_i32(0));

    let raw = BigExpression {
        terms: vec![Term::Var('a'), Term::Var('a'), Term::Gte],
    };
    assert_eq!(raw.minimize(), BigExpression::from_i32(1));

    let raw = BigExpression {
        terms: vec![Term::Var('a'), Term::Var('a'), Term::Min],
    };
    assert_eq!(raw.minimize(), BigExpression::from_char('a'));
}

#[test]
fn expressions_grow_to_the_inline_capacity() {
    // 'a' + 'b' + ... builds two terms per step; stay within the
    // twenty-term inline buffer and check the count and the evaluation
    let mut e = Expression::from_char('a');
    for c in ['b', 'c', 'd', 'e', 'f', 'g', 'h', 'i'] {
        e = e.add(Expression::from_char(c));
    }
    assert_eq!(e.len(), 17);
    assert_eq!(e.exec_single_var(3), 27);
    let back = e.big().small();
    assert_eq!(e, back);
}
