use lamb::debruijn::DBTerm;
use lamb::evaluate::Strategy;
use lamb::term::{is_name_char, Term, ALPHABET};

fn var(c: char) -> Term {
    Term::Var(c)
}

fn abs(c: char, b: Term) -> Term {
    Term::Abs(c, Box::new(b))
}

fn app(f: Term, a: Term) -> Term {
    Term::App(Box::new(f), Box::new(a))
}

fn dv(k: u32) -> DBTerm {
    DBTerm::Var(k)
}

fn dabs(h: u32, b: DBTerm) -> DBTerm {
    DBTerm::Abs(h, Box::new(b))
}

fn dapp(f: DBTerm, a: DBTerm) -> DBTerm {
    DBTerm::App(Box::new(f), Box::new(a))
}

#[test]
fn bound_variables_become_distances() {
    let t = abs('x', abs('y', app(var('x'), var('y'))));
    assert_eq!(t.to_de_bruijn(), dabs(23, dabs(24, dapp(dv(1), dv(0)))));
}

#[test]
fn free_variables_become_offsets_above_the_depth() {
    assert_eq!(var('a').to_de_bruijn(), dv(1));
    assert_eq!(var('z').to_de_bruijn(), dv(26));
    assert_eq!(abs('x', var('a')).to_de_bruijn(), dabs(23, dv(2)));
    assert_eq!(abs('x', abs('y', var('c'))).to_de_bruijn(), dabs(23, dabs(24, dv(5))));
}

#[test]
fn a_free_name_has_one_identity_at_every_depth() {
    let t = app(var('q'), abs('x', var('q')));
    assert_eq!(t.to_de_bruijn(), dapp(dv(17), dabs(23, dv(18))));
}

#[test]
fn the_innermost_binder_of_a_name_wins() {
    let t = abs('x', abs('x', var('x')));
    assert_eq!(t.to_de_bruijn(), dabs(23, dabs(23, dv(0))));
}

#[test]
fn a_shadowed_binder_is_visible_again_after_the_inner_scope() {
    let t = abs('x', app(abs('x', var('x')), var('x')));
    assert_eq!(t.to_de_bruijn(), dabs(23, dapp(dabs(23, dv(0)), dv(0))));
}

#[test]
fn a_name_is_free_again_after_its_scope() {
    let t = app(abs('x', var('x')), var('x'));
    assert_eq!(t.to_de_bruijn(), dapp(dabs(23, dv(0)), dv(24)));
}

#[test]
fn index_terms_get_their_names_back() {
    let t = dabs(23, dabs(24, dapp(dv(1), dapp(dv(0), dv(3)))));
    assert_eq!(t.to_term(), abs('x', abs('y', app(var('x'), app(var('y'), var('a'))))));
}

#[test]
fn round_trip_gives_the_term_back() {
    let terms = vec![
        var('a'),
        var('z'),
        abs('x', var('x')),
        abs('x', abs('y', app(var('x'), app(var('y'), var('w'))))),
        abs('x', abs('x', app(var('x'), var('b')))),
        app(abs('x', app(abs('x', var('x')), var('x'))), var('x')),
        Term::from_nr(3),
        abs('\u{df}', app(var('\u{df}'), var('\u{ff}'))),
    ];
    for t in terms {
        assert!(t.is_well_formed());
        assert_eq!(t.clone().to_de_bruijn().to_term(), t);
    }
}

#[test]
fn alphabet_runs_from_a_to_u00ff() {
    assert_eq!(ALPHABET, 159);
    assert!(is_name_char('a'));
    assert!(is_name_char('z'));
    assert!(is_name_char('\u{ff}'));
    assert!(!is_name_char('`'));
    assert!(!is_name_char('A'));
    assert!(!is_name_char('0'));
    assert!(!is_name_char('\u{100}'));
    assert!(!is_name_char('\u{3bb}'));
}

#[test]
fn well_formed_terms_hold_names_of_the_alphabet_only() {
    assert!(abs('x', app(var('x'), var('y'))).is_well_formed());
    assert!(!var('A').is_well_formed());
    assert!(!abs('X', var('x')).is_well_formed());
    assert!(!app(var('x'), abs('y', var('\u{3bb}'))).is_well_formed());
}

#[test]
fn nameable_terms_have_free_indices_that_stand_for_names() {
    assert!(dv(1).is_nameable());
    assert!(dv(159).is_nameable());
    assert!(!dv(0).is_nameable());
    assert!(!dv(160).is_nameable());
    assert!(dabs(0, dv(0)).is_nameable());
    assert!(!dabs(0, dv(1)).is_nameable());
    assert!(dabs(158, dv(2)).is_nameable());
    assert!(!dabs(159, dv(0)).is_nameable());
    assert!(!dapp(dv(1), dabs(0, dv(161))).is_nameable());
}

#[test]
fn numerals_apply_f_so_many_times() {
    assert_eq!(Term::from_nr(0), abs('f', abs('x', var('x'))));
    assert_eq!(Term::from_nr(1), abs('f', abs('x', app(var('f'), var('x')))));
    assert_eq!(
        Term::from_nr(3),
        abs('f', abs('x', app(var('f'), app(var('f'), app(var('f'), var('x'))))))
    );
}

#[test]
fn identity_applied_to_a_free_variable() {
    let t = app(abs('x', var('x')), var('z'));
    assert_eq!(t.reduce(Strategy::NormalOrder), var('z'));
}

#[test]
fn full_strategies_agree_on_named_terms() {
    let t = app(abs('x', var('x')), app(abs('y', var('y')), var('z')));
    assert_eq!(t.clone().reduce(Strategy::NormalOrder), var('z'));
    assert_eq!(t.reduce(Strategy::ApplicativeOrder), var('z'));
}

#[test]
fn weak_strategies_leave_an_abstraction_alone() {
    let t = abs('x', app(abs('y', var('y')), var('x')));
    assert_eq!(t.clone().reduce(Strategy::CallByName), t);
    assert_eq!(t.clone().reduce(Strategy::CallByValue), t);
    assert_eq!(t.reduce(Strategy::NormalOrder), abs('x', var('x')));
}

#[test]
fn numeral_two_applies_the_successor_twice() {
    let t = app(app(Term::from_nr(2), var('s')), var('z'));
    assert_eq!(t.reduce(Strategy::NormalOrder), app(var('s'), app(var('s'), var('z'))));
}

#[test]
fn successor_of_one_is_two() {
    let succ = abs(
        'n',
        abs('f', abs('x', app(var('f'), app(app(var('n'), var('f')), var('x'))))),
    );
    let t = app(succ, Term::from_nr(1));
    assert_eq!(t.clone().reduce(Strategy::NormalOrder), Term::from_nr(2));
    assert_eq!(t.reduce(Strategy::ApplicativeOrder), Term::from_nr(2));
}

#[test]
fn two_times_two_is_four() {
    let mult = abs('m', abs('n', abs('f', app(var('m'), app(var('n'), var('f'))))));
    let t = app(app(mult, Term::from_nr(2)), Term::from_nr(2));
    let four = abs(
        'f',
        abs('x', app(var('f'), app(var('f'), app(var('f'), app(var('f'), var('x')))))),
    );
    assert_eq!(t.reduce(Strategy::NormalOrder), four);
}

#[test]
fn terms_are_written_with_lambda_and_parentheses() {
    assert_eq!(var('x').to_string(), "x");
    assert_eq!(abs('x', var('x')).to_string(), "(\u{3bb}x. x)");
    assert_eq!(app(var('f'), var('x')).to_string(), "(f x)");
    assert_eq!(
        abs('x', app(var('x'), abs('y', var('z')))).to_string(),
        "(\u{3bb}x. (x (\u{3bb}y. z)))"
    );
}

#[test]
fn writing_and_reading_gives_an_unambiguous_index_term_back() {
    let terms = vec![
        dv(3),
        dabs(23, dv(0)),
        dabs(23, dabs(24, dapp(dv(1), dapp(dv(0), dv(3))))),
        dabs(23, dapp(dabs(23, dv(0)), dv(0))),
        dapp(dabs(0, dv(0)), dv(1)),
    ];
    for d in terms {
        assert!(d.is_nameable());
        assert_eq!(d.clone().to_term().to_de_bruijn(), d);
    }
}

#[test]
fn a_binder_that_takes_the_name_of_an_outer_one_hides_it() {
    let d = dabs(23, dabs(23, dv(1)));
    assert_eq!(d.clone().to_term(), abs('x', abs('x', var('x'))));
    assert_eq!(d.to_term().to_de_bruijn(), dabs(23, dabs(23, dv(0))));
}

#[test]
fn a_binder_that_takes_the_name_of_a_free_variable_captures_it() {
    let d = dabs(23, dv(25));
    assert_eq!(d.clone().to_term(), abs('x', var('x')));
    assert_eq!(d.to_term().to_de_bruijn(), dabs(23, dv(0)));
}

#[test]
fn renamed_binders_give_the_same_indices() {
    let s = abs('x', abs('y', app(var('x'), app(var('y'), var('q')))));
    let t = abs('u', abs('v', app(var('u'), app(var('v'), var('q')))));
    assert_eq!(
        s.to_de_bruijn(),
        dabs(23, dabs(24, dapp(dv(1), dapp(dv(0), dv(19)))))
    );
    assert_eq!(
        t.to_de_bruijn(),
        dabs(20, dabs(21, dapp(dv(1), dapp(dv(0), dv(19)))))
    );
}

#[test]
fn conversion_is_refused_for_names_outside_the_alphabet() {
    assert_eq!(var('A').try_to_de_bruijn(), None);
    assert_eq!(abs('x', var('\u{3bb}')).try_to_de_bruijn(), None);
    assert_eq!(abs('\u{100}', var('x')).try_to_de_bruijn(), None);
    assert_eq!(app(var('x'), var('`')).try_to_de_bruijn(), None);
    assert!(!var('A').is_convertible());
    assert!(!app(abs('x', var('x')), var('Z')).is_convertible());
}

#[test]
fn conversion_is_granted_for_names_of_the_alphabet() {
    let t = abs('x', app(var('x'), var('\u{ff}')));
    assert!(t.is_convertible());
    assert_eq!(t.try_to_de_bruijn(), Some(dabs(23, dapp(dv(0), dv(160)))));
}
