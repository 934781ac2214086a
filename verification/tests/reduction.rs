use lamb::debruijn::DBTerm;
use lamb::evaluate::Strategy;

fn v(k: u32) -> DBTerm {
    DBTerm::Var(k)
}

fn lam(b: DBTerm) -> DBTerm {
    DBTerm::Abs(0, Box::new(b))
}

fn lam_named(h: u32, b: DBTerm) -> DBTerm {
    DBTerm::Abs(h, Box::new(b))
}

fn ap(f: DBTerm, a: DBTerm) -> DBTerm {
    DBTerm::App(Box::new(f), Box::new(a))
}

fn omega() -> DBTerm {
    let half = lam(ap(v(0), v(0)));
    ap(half.clone(), half)
}

const ALL: [Strategy; 4] = [
    Strategy::NormalOrder,
    Strategy::ApplicativeOrder,
    Strategy::CallByName,
    Strategy::CallByValue,
];

#[test]
fn shift_adds_to_free_indices_only() {
    let t = lam(ap(v(0), ap(v(1), v(4))));
    assert_eq!(t.shift(2), lam(ap(v(0), ap(v(3), v(6)))));
}

#[test]
fn shift_raises_cutoff_under_each_binder() {
    let t = lam(lam(ap(v(1), v(2))));
    assert_eq!(t.shift(5), lam(lam(ap(v(1), v(7)))));
}

#[test]
fn shift_down_lowers_free_indices() {
    let t = ap(v(3), lam(v(2)));
    assert_eq!(t.shift(-1), ap(v(2), lam(v(1))));
}

#[test]
fn shift_by_zero_is_identity() {
    let t = ap(v(3), lam(ap(v(0), v(2))));
    assert_eq!(t.clone().shift(0), t);
}

#[test]
fn two_raising_shifts_add_up() {
    let t = ap(v(0), lam(ap(v(0), v(1))));
    assert_eq!(t.clone().shift(2).shift(3), t.shift(5));
}

#[test]
fn two_lowering_shifts_add_up_where_nothing_is_captured() {
    let t = lam(ap(v(0), v(4)));
    assert_eq!(t.clone().shift(-1).shift(-1), t.shift(-2));
}

#[test]
fn two_lowering_shifts_differ_where_an_index_is_captured() {
    let t = lam(lam(v(2)));
    assert_eq!(t.clone().shift(-1).shift(-1), lam(lam(v(1))));
    assert_eq!(t.shift(-2), lam(lam(v(0))));
}

#[test]
fn sub_replaces_the_index_at_every_depth() {
    let t = ap(v(0), lam(ap(v(0), v(1))));
    let s = v(7);
    assert_eq!(t.sub(0, &s), ap(v(7), lam(ap(v(0), v(8)))));
}

#[test]
fn sub_shifts_the_substitute_under_binders() {
    let t = lam(lam(v(3)));
    let s = ap(v(0), lam(v(0)));
    assert_eq!(t.sub(1, &s), lam(lam(ap(v(2), lam(v(0))))));
}

#[test]
fn sub_for_an_absent_index_is_identity() {
    let t = ap(v(1), lam(ap(v(0), v(2))));
    assert_eq!(t.clone().sub(0, &v(9)), t);
    assert_eq!(t.clone().sub(5, &lam(v(0))), t);
}

#[test]
fn beta_leaves_a_non_redex_alone() {
    let t = ap(v(0), lam(v(0)));
    assert_eq!(t.clone().beta(), t);
    assert_eq!(v(3).beta(), v(3));
    assert_eq!(lam(ap(lam(v(0)), v(1))).beta(), lam(ap(lam(v(0)), v(1))));
}

#[test]
fn beta_contracts_the_root_redex() {
    assert_eq!(ap(lam(v(0)), v(26)).beta(), v(26));
    assert_eq!(ap(lam(v(3)), v(26)).beta(), v(2));
    assert_eq!(ap(lam(lam(ap(v(1), v(0)))), v(5)).beta(), lam(ap(v(6), v(0))));
}

#[test]
fn beta_is_the_three_pass_formula() {
    let body = lam(ap(v(1), ap(v(0), v(3))));
    let arg = ap(v(2), lam(v(1)));
    let by_formula = body.clone().sub(0, &arg.clone().shift(1)).shift(-1);
    assert_eq!(ap(lam(body), arg).beta(), by_formula);
}

#[test]
fn beta_contracts_only_the_root() {
    let inner = ap(lam(v(0)), v(9));
    let t = ap(lam(v(0)), inner.clone());
    assert_eq!(t.beta(), inner);
}

#[test]
fn one_step_reports_no_redex() {
    for s in ALL {
        assert_eq!(v(4).one_step(s), (v(4), false));
        assert_eq!(ap(v(4), v(5)).one_step(s), (ap(v(4), v(5)), false));
        assert_eq!(lam(v(0)).one_step(s), (lam(v(0)), false));
    }
}

#[test]
fn normal_order_contracts_the_outer_redex_first() {
    let arg = ap(lam(v(0)), v(7));
    let t = ap(lam(ap(v(0), v(0))), arg.clone());
    assert_eq!(t.one_step(Strategy::NormalOrder), (ap(arg.clone(), arg), true));
}

#[test]
fn call_by_name_contracts_the_outer_redex_first() {
    let arg = ap(lam(v(0)), v(7));
    let t = ap(lam(ap(v(0), v(0))), arg.clone());
    assert_eq!(t.one_step(Strategy::CallByName), (ap(arg.clone(), arg), true));
}

#[test]
fn applicative_order_reduces_the_argument_first() {
    let arg = ap(lam(v(0)), v(7));
    let f = lam(ap(v(0), v(0)));
    let t = ap(f.clone(), arg);
    assert_eq!(t.one_step(Strategy::ApplicativeOrder), (ap(f, v(7)), true));
}

#[test]
fn call_by_value_reduces_the_argument_first() {
    let arg = ap(lam(v(0)), v(7));
    let f = lam(ap(v(0), v(0)));
    let t = ap(f.clone(), arg);
    assert_eq!(t.one_step(Strategy::CallByValue), (ap(f, v(7)), true));
}

#[test]
fn applicative_order_reduces_the_function_before_the_argument() {
    let f = ap(lam(v(0)), v(3));
    let a = ap(lam(v(0)), v(4));
    let t = ap(f, a.clone());
    assert_eq!(t.one_step(Strategy::ApplicativeOrder), (ap(v(3), a), true));
}

#[test]
fn call_by_value_reduces_the_argument_before_the_function() {
    let f = ap(lam(v(0)), v(3));
    let a = ap(lam(v(0)), v(4));
    let t = ap(f.clone(), a);
    assert_eq!(t.one_step(Strategy::CallByValue), (ap(f, v(4)), true));
}

#[test]
fn applicative_order_reduces_under_the_function_binder() {
    let f = lam(ap(lam(v(0)), v(0)));
    let t = ap(f, v(5));
    assert_eq!(t.one_step(Strategy::ApplicativeOrder), (ap(lam(v(0)), v(5)), true));
}

#[test]
fn full_strategies_reduce_under_a_binder() {
    let t = lam(ap(lam(v(0)), v(0)));
    assert_eq!(t.clone().one_step(Strategy::NormalOrder), (lam(v(0)), true));
    assert_eq!(t.one_step(Strategy::ApplicativeOrder), (lam(v(0)), true));
}

#[test]
fn weak_strategies_stop_at_a_binder() {
    let t = lam_named(23, ap(lam_named(24, v(0)), v(0)));
    for s in [Strategy::CallByName, Strategy::CallByValue] {
        assert_eq!(t.clone().one_step(s), (t.clone(), false));
        assert_eq!(t.clone().reduce(s), t);
        assert_eq!(t.clone().many_steps(s), t);
    }
}

#[test]
fn call_by_name_never_reduces_an_argument() {
    let redex = ap(lam(v(0)), v(9));
    let t = ap(v(3), redex);
    assert_eq!(t.clone().one_step(Strategy::CallByName), (t.clone(), false));
    assert_eq!(t.clone().reduce(Strategy::CallByName), t);
}

#[test]
fn call_by_value_reduces_the_argument_of_a_stuck_head() {
    let redex = ap(lam(v(0)), v(9));
    let t = ap(v(3), redex);
    assert_eq!(t.reduce(Strategy::CallByValue), ap(v(3), v(9)));
}

#[test]
fn normal_order_reduces_the_argument_of_a_stuck_head() {
    let redex = ap(lam(v(0)), v(9));
    let t = ap(v(3), redex);
    assert_eq!(t.reduce(Strategy::NormalOrder), ap(v(3), v(9)));
}

#[test]
fn full_strategies_agree_on_identity_applied_twice() {
    let t = ap(lam(v(0)), ap(lam(v(0)), v(26)));
    assert_eq!(t.clone().reduce(Strategy::NormalOrder), v(26));
    assert_eq!(t.reduce(Strategy::ApplicativeOrder), v(26));
}

#[test]
fn full_strategies_agree_on_a_nested_term() {
    let k = lam(lam(v(1)));
    let t = ap(ap(k, ap(lam(v(0)), v(4))), ap(lam(ap(v(0), v(0))), v(6)));
    let n = t.clone().reduce(Strategy::NormalOrder);
    let a = t.reduce(Strategy::ApplicativeOrder);
    assert_eq!(n, v(4));
    assert_eq!(a, v(4));
}

#[test]
fn normal_order_discards_a_diverging_argument() {
    let t = ap(lam(v(5)), omega());
    assert_eq!(t.clone().reduce(Strategy::NormalOrder), v(4));
    assert_eq!(t.reduce(Strategy::CallByName), v(4));
}

#[test]
fn normal_order_does_not_touch_the_argument_once_the_function_is_an_abstraction() {
    let f = ap(lam(lam(v(7))), v(1));
    let t = ap(f, omega());
    assert_eq!(t.many_steps(Strategy::NormalOrder), v(5));
}

#[test]
fn reduce_does_not_touch_the_argument_once_the_function_is_an_abstraction() {
    let f = ap(lam(lam(v(7))), v(1));
    let t = ap(f, omega());
    assert_eq!(t.reduce(Strategy::NormalOrder), v(5));
}

#[test]
fn reduce_stops_the_function_at_an_abstraction_whose_body_diverges() {
    let f = ap(lam(lam(ap(v(0), omega()))), v(3));
    let second = lam_named(1, lam_named(2, v(0)));
    let t = ap(f, second);
    assert_eq!(t.clone().reduce(Strategy::NormalOrder), lam_named(2, v(0)));
    assert_eq!(t.clone().many_steps(Strategy::NormalOrder), lam_named(2, v(0)));
    assert_eq!(t.clone().reduce(Strategy::CallByName), lam_named(2, v(0)));
    assert_eq!(t.many_steps(Strategy::CallByName), lam_named(2, v(0)));
}

#[test]
fn reduce_and_many_steps_agree_on_a_stuck_application() {
    let redex = ap(lam(v(0)), v(9));
    let t = ap(ap(v(3), redex.clone()), lam(redex));
    for s in ALL {
        assert_eq!(t.clone().reduce(s), t.clone().many_steps(s));
    }
    assert_eq!(t.clone().reduce(Strategy::NormalOrder), ap(ap(v(3), v(9)), lam(v(9))));
    assert_eq!(
        t.clone().reduce(Strategy::CallByValue),
        ap(ap(v(3), v(9)), lam(ap(lam(v(0)), v(9))))
    );
    assert_eq!(t.clone().reduce(Strategy::CallByName), t);
}

#[test]
fn reduce_and_many_steps_agree() {
    let two = lam(lam(ap(v(1), ap(v(1), v(0)))));
    let t = ap(ap(two.clone(), two), v(30));
    for s in ALL {
        assert_eq!(t.clone().reduce(s), t.clone().many_steps(s));
    }
}

#[test]
fn omega_steps_to_itself() {
    for s in ALL {
        assert_eq!(omega().one_step(s), (omega(), true));
    }
}

#[test]
fn omega_outlasts_every_bound() {
    for s in [Strategy::NormalOrder, Strategy::ApplicativeOrder] {
        for limit in [1u64, 10, 1000] {
            let (t, more) = omega().steps(s, limit);
            assert!(more);
            assert_eq!(t, omega());
        }
    }
}

#[test]
fn a_growing_term_outlasts_every_bound() {
    let half = lam(ap(ap(v(0), v(0)), v(0)));
    let t = ap(half.clone(), half);
    let (_, more) = t.steps(Strategy::NormalOrder, 12);
    assert!(more);
}

#[test]
fn steps_stop_at_the_normal_form() {
    let t = ap(lam(v(0)), ap(lam(v(0)), v(26)));
    assert_eq!(t.clone().steps(Strategy::NormalOrder, 0), (t.clone(), false));
    let (one, more) = t.clone().steps(Strategy::NormalOrder, 1);
    assert_eq!(one, ap(lam(v(0)), v(26)));
    assert!(more);
    assert_eq!(t.clone().steps(Strategy::NormalOrder, 2), (v(26), true));
    assert_eq!(t.clone().steps(Strategy::NormalOrder, 3), (v(26), false));
    assert_eq!(t.steps(Strategy::NormalOrder, 50), (v(26), false));
}

#[test]
fn hints_travel_with_their_binders() {
    let t = ap(lam_named(5, lam_named(6, v(1))), lam_named(7, v(0)));
    assert_eq!(t.reduce(Strategy::NormalOrder), lam_named(6, lam_named(7, v(0))));
}

#[test]
fn is_abs_tells_abstractions_apart() {
    assert!(lam(v(0)).is_abs());
    assert!(!v(0).is_abs());
    assert!(!ap(lam(v(0)), v(0)).is_abs());
}

#[test]
fn index_terms_are_written_with_indices() {
    let t = ap(lam_named(3, ap(v(0), v(120))), v(7));
    assert_eq!(t.to_string(), "((\u{3bb} (0 120)) 7)");
    assert_eq!(v(0).to_string(), "0");
    assert_eq!(v(4294967295).to_string(), "4294967295");
}

#[test]
fn clone_copies_the_term() {
    let t = ap(lam_named(3, ap(v(0), v(120))), v(7));
    assert_eq!(t.clone(), t);
}
