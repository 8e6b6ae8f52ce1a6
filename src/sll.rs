use vstd::prelude::*;

use crate::term::Term;

verus! {

pub open spec fn var(k: u32) -> Term {
    Term::Var(k)
}

pub open spec fn lam(b: Term) -> Term {
    Term::Lam(Box::new(b))
}

pub open spec fn app(f: Term, x: Term) -> Term {
    Term::App(Box::new((f, x)))
}

/// `f (f (... x))` with `n` applications of `f`, where `f` is the variable
/// `1` and `x` the variable `0`.
pub open spec fn iterate(n: nat) -> Term
    decreases n,
{
    if n == 0 {
        var(0)
    } else {
        app(var(1), iterate((n - 1) as nat))
    }
}

/// The Church numeral `n`: `λ f. λ x. f (f (... x))`.
pub open spec fn church(n: nat) -> Term {
    lam(lam(iterate(n)))
}

/// The successor of Church numerals: `λ n. λ f. λ x. f (n f x)`.
pub open spec fn inc_term() -> Term {
    lam(lam(lam(app(var(1), app(app(var(2), var(1)), var(0))))))
}

/// The identity, `λ x. x`.
pub fn id() -> (r: Term)
    ensures
        r == lam(var(0)),
{
    Term::Lam(Box::new(Term::Var(0)))
}

/// The Church numeral zero, `λ f. λ x. x`.
pub fn zero() -> (r: Term)
    ensures
        r == church(0),
{
    Term::Lam(Box::new(id()))
}

/// The Church numeral `n`.
pub fn num(n: u8) -> (r: Term)
    ensures
        r == church(n as nat),
{
    let mut acc = Term::Var(0);
    let mut i: u8 = 0;
    while i < n
        invariant
            i <= n,
            acc == iterate(i as nat),
        decreases n - i,
    {
        acc = Term::App(Box::new((Term::Var(1), acc)));
        i = i + 1;
    }
    Term::Lam(Box::new(Term::Lam(Box::new(acc))))
}

/// The successor of Church numerals.
pub fn inc() -> (r: Term)
    ensures
        r == inc_term(),
{
    Term::Lam(
        Box::new(
            Term::Lam(
                Box::new(
                    Term::Lam(
                        Box::new(
                            Term::App(
                                Box::new(
                                    (
                                        Term::Var(1),
                                        Term::App(
                                            Box::new(
                                                (
                                                    Term::App(
                                                        Box::new((Term::Var(2), Term::Var(1))),
                                                    ),
                                                    Term::Var(0),
                                                ),
                                            ),
                                        ),
                                    ),
                                ),
                            ),
                        ),
                    ),
                ),
            ),
        ),
    )
}

/// Addition of Church numerals: `λ x. λ y. x inc y`.
pub fn plus() -> (r: Term)
    ensures
        r == lam(lam(app(app(var(1), inc_term()), var(0)))),
{
    let body = Term::App(Box::new((Term::App(Box::new((Term::Var(1), inc()))), Term::Var(0))));
    Term::Lam(Box::new(Term::Lam(Box::new(body))))
}

/// `λ y. λ x. x y`.
pub fn flip() -> (r: Term)
    ensures
        r == lam(lam(app(var(0), var(1)))),
{
    Term::Lam(Box::new(Term::Lam(Box::new(Term::App(Box::new((Term::Var(0), Term::Var(1))))))))
}

/// The true term, `λ x. λ y. x`.
pub fn church_true() -> (r: Term)
    ensures
        r == lam(lam(var(1))),
{
    Term::Lam(Box::new(Term::Lam(Box::new(Term::Var(1)))))
}

/// The false term, `λ x. λ y. y`.
pub fn church_false() -> (r: Term)
    ensures
        r == lam(lam(var(0))),
{
    Term::Lam(Box::new(Term::Lam(Box::new(Term::Var(0)))))
}

/// The pair constructor, `λ x. λ y. λ f. f x y`.
pub fn pair() -> (r: Term)
    ensures
        r == lam(lam(lam(app(app(var(0), var(2)), var(1))))),
{
    let body = Term::App(Box::new((Term::App(Box::new((Term::Var(0), Term::Var(2)))), Term::Var(1))));
    Term::Lam(Box::new(Term::Lam(Box::new(Term::Lam(Box::new(body))))))
}

/// The first projection, `λ p. p true`.
pub fn fst() -> (r: Term)
    ensures
        r == lam(app(var(0), lam(lam(var(1))))),
{
    Term::Lam(Box::new(Term::App(Box::new((Term::Var(0), church_true())))))
}

/// The second projection, `λ p. p false`.
pub fn snd() -> (r: Term)
    ensures
        r == lam(app(var(0), lam(lam(var(0))))),
{
    Term::Lam(Box::new(Term::App(Box::new((Term::Var(0), church_false())))))
}

/// Composition, `λ f. λ g. λ x. f (g x)`.
pub fn compose() -> (r: Term)
    ensures
        r == lam(lam(lam(app(var(2), app(var(1), var(0)))))),
{
    let body = Term::App(Box::new((Term::Var(2), Term::App(Box::new((Term::Var(1), Term::Var(0)))))));
    Term::Lam(Box::new(Term::Lam(Box::new(Term::Lam(Box::new(body))))))
}

} // verus!
