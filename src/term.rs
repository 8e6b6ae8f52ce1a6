use vstd::prelude::*;

verus! {

/// A lambda term in de Bruijn notation: `Var(k)` refers to the binder
/// `k` levels out from the variable.
#[derive(Debug, PartialEq, Eq)]
pub enum Term {
    Var(u32),
    Lam(Box<Term>),
    App(Box<(Term, Term)>),
}

/// The name the evaluator's callers know the term type by.
pub type Expr = Term;

/// Every variable of `t` refers to one of its own binders or to one of `d` enclosing ones.
pub open spec fn closed_at(t: Term, d: nat) -> bool
    decreases t,
{
    match t {
        Term::Var(k) => (k as nat) < d,
        Term::Lam(b) => closed_at(*b, d + 1),
        Term::App(p) => closed_at(p.0, d) && closed_at(p.1, d),
    }
}

/// A closed term: no variable escapes the term's own binders.
pub open spec fn closed(t: Term) -> bool {
    closed_at(t, 0)
}

/// The variables of `t` that are free below `c` binders can be raised by `d`
/// without leaving the range of `u32`.
pub open spec fn shift_fits(t: Term, d: nat, c: nat) -> bool
    decreases t,
{
    match t {
        Term::Var(k) => (k as nat) < c || k + d <= u32::MAX,
        Term::Lam(b) => shift_fits(*b, d, c + 1),
        Term::App(p) => shift_fits(p.0, d, c) && shift_fits(p.1, d, c),
    }
}

/// Raises by `d` every variable of `t` that, under `c` binders, is free.
pub open spec fn shift(t: Term, d: nat, c: nat) -> Term
    decreases t,
{
    match t {
        Term::Var(k) => if (k as nat) < c {
            Term::Var(k)
        } else {
            Term::Var((k + d) as u32)
        },
        Term::Lam(b) => Term::Lam(Box::new(shift(*b, d, c + 1))),
        Term::App(p) => Term::App(Box::new((shift(p.0, d, c), shift(p.1, d, c)))),
    }
}

/// The substitution of `subst` stays within the range of `u32`.
pub open spec fn subst_fits(t: Term, k: nat, arg: Term) -> bool
    decreases t,
{
    match t {
        Term::Var(x) => x == k ==> shift_fits(arg, k, 0),
        Term::Lam(b) => subst_fits(*b, k + 1, arg),
        Term::App(p) => subst_fits(p.0, k, arg) && subst_fits(p.1, k, arg),
    }
}

/// `t[k <- arg]`: under `k` binders, the variable `k` is replaced by `arg`
/// (its free variables raised by `k`), and the variables above `k` move
/// down by one, since the binder of `k` is gone.
pub open spec fn subst(t: Term, k: nat, arg: Term) -> Term
    decreases t,
{
    match t {
        Term::Var(x) => if x == k {
            shift(arg, k, 0)
        } else if x > k {
            Term::Var((x - 1) as u32)
        } else {
            Term::Var(x)
        },
        Term::Lam(b) => Term::Lam(Box::new(subst(*b, k + 1, arg))),
        Term::App(p) => Term::App(Box::new((subst(p.0, k, arg), subst(p.1, k, arg)))),
    }
}

/// One step of weak-head reduction: the leftmost redex on the spine of `t`
/// is contracted. `None` when the head of the spine is a variable or an
/// abstraction (or when the contraction would not fit in `u32` indices).
pub open spec fn whnf_step(t: Term) -> Option<Term>
    decreases t,
{
    match t {
        Term::App(p) => match p.0 {
            Term::Lam(b) => if subst_fits(*b, 0, p.1) {
                Some(subst(*b, 0, p.1))
            } else {
                None
            },
            _ => match whnf_step(p.0) {
                Some(f) => Some(Term::App(Box::new((f, p.1)))),
                None => None,
            },
        },
        _ => None,
    }
}

/// Weak-head reduction of `t`, with at most `fuel` steps.
pub open spec fn whnf(t: Term, fuel: nat) -> Term
    decreases fuel,
{
    if fuel == 0 {
        t
    } else {
        match whnf_step(t) {
            Some(u) => whnf(u, (fuel - 1) as nat),
            None => t,
        }
    }
}

/// Full normalisation: weak-head reduction, then normalisation of the parts
/// (the body of an abstraction, both sides of an application), `fuel`
/// bounding both the steps of each weak-head reduction and the depth.
pub open spec fn nf(t: Term, fuel: nat) -> Term
    decreases fuel,
{
    if fuel == 0 {
        t
    } else {
        match whnf(t, fuel) {
            Term::Var(k) => Term::Var(k),
            Term::Lam(b) => Term::Lam(Box::new(nf(*b, (fuel - 1) as nat))),
            Term::App(p) => Term::App(
                Box::new((nf(p.0, (fuel - 1) as nat), nf(p.1, (fuel - 1) as nat))),
            ),
        }
    }
}

/// No redex anywhere in `t`.
pub open spec fn is_normal(t: Term) -> bool
    decreases t,
{
    match t {
        Term::Var(_) => true,
        Term::Lam(b) => is_normal(*b),
        Term::App(p) => !(p.0 is Lam) && is_normal(p.0) && is_normal(p.1),
    }
}

/// The number of reduction steps the evaluator allows itself.
pub const FUEL: u64 = 0xffff_ffff_ffff_ffff;

/// Below more than `u32::MAX` binders no variable is free: shifting changes nothing.
proof fn lemma_shift_high(t: Term, d: nat, c: nat)
    requires
        c > u32::MAX,
    ensures
        shift(t, d, c) == t,
        shift_fits(t, d, c),
    decreases t,
{
    match t {
        Term::Var(k) => {},
        Term::Lam(b) => lemma_shift_high(*b, d, c + 1),
        Term::App(p) => {
            lemma_shift_high(p.0, d, c);
            lemma_shift_high(p.1, d, c);
        },
    }
}

/// Below more than `u32::MAX` binders no variable is the substituted one.
proof fn lemma_subst_high(t: Term, k: nat, arg: Term)
    requires
        k > u32::MAX,
    ensures
        subst(t, k, arg) == t,
        subst_fits(t, k, arg),
    decreases t,
{
    match t {
        Term::Var(x) => {},
        Term::Lam(b) => lemma_subst_high(*b, k + 1, arg),
        Term::App(p) => {
            lemma_subst_high(p.0, k, arg);
            lemma_subst_high(p.1, k, arg);
        },
    }
}

/// Shifting by `s` the variables free below `c` binders moves a term
/// closed under `d` binders to one closed under `d + s`.
proof fn lemma_shift_closed(t: Term, s: nat, c: nat, d: nat)
    requires
        closed_at(t, d),
        shift_fits(t, s, c),
        c <= d,
    ensures
        closed_at(shift(t, s, c), d + s),
    decreases t,
{
    match t {
        Term::Var(k) => {},
        Term::Lam(b) => lemma_shift_closed(*b, s, c + 1, d + 1),
        Term::App(p) => {
            lemma_shift_closed(p.0, s, c, d);
            lemma_shift_closed(p.1, s, c, d);
        },
    }
}

/// Substituting a term closed under `d` binders for the variable `k` of a
/// term closed under `k + d + 1` binders leaves a term closed under `k + d`.
proof fn lemma_subst_closed(t: Term, k: nat, arg: Term, d: nat)
    requires
        closed_at(t, k + d + 1),
        closed_at(arg, d),
        subst_fits(t, k, arg),
    ensures
        closed_at(subst(t, k, arg), k + d),
    decreases t,
{
    match t {
        Term::Var(x) => {
            if x == k {
                lemma_shift_closed(arg, k, 0, d);
            }
        },
        Term::Lam(b) => lemma_subst_closed(*b, k + 1, arg, d),
        Term::App(p) => {
            lemma_subst_closed(p.0, k, arg, d);
            lemma_subst_closed(p.1, k, arg, d);
        },
    }
}

proof fn lemma_whnf_step_closed(t: Term, d: nat)
    requires
        closed_at(t, d),
    ensures
        whnf_step(t) matches Some(u) ==> closed_at(u, d),
    decreases t,
{
    match t {
        Term::App(p) => match p.0 {
            Term::Lam(b) => {
                if subst_fits(*b, 0, p.1) {
                    assert(closed_at(p.0, d));
                    assert(closed_at(*b, 0 + d + 1));
                    lemma_subst_closed(*b, 0, p.1, d);
                }
            },
            _ => lemma_whnf_step_closed(p.0, d),
        },
        _ => {},
    }
}

/// Weak-head reduction keeps a term closed under `d` binders closed under them.
pub proof fn lemma_whnf_closed(t: Term, fuel: nat, d: nat)
    requires
        closed_at(t, d),
    ensures
        closed_at(whnf(t, fuel), d),
    decreases fuel,
{
    if fuel > 0 {
        lemma_whnf_step_closed(t, d);
        if let Some(u) = whnf_step(t) {
            lemma_whnf_closed(u, (fuel - 1) as nat, d);
        }
    }
}

/// Full normalisation keeps a term closed under `d` binders closed under them.
pub proof fn lemma_nf_closed(t: Term, fuel: nat, d: nat)
    requires
        closed_at(t, d),
    ensures
        closed_at(nf(t, fuel), d),
    decreases fuel,
{
    if fuel > 0 {
        lemma_whnf_closed(t, fuel, d);
        match whnf(t, fuel) {
            Term::Var(k) => {},
            Term::Lam(b) => lemma_nf_closed(*b, (fuel - 1) as nat, d + 1),
            Term::App(p) => {
                lemma_nf_closed(p.0, (fuel - 1) as nat, d);
                lemma_nf_closed(p.1, (fuel - 1) as nat, d);
            },
        }
    }
}

/// Reducing a closed term, lazily or fully, gives a closed term.
pub proof fn lemma_eval_keeps_closed(t: Term, fuel: nat)
    requires
        closed(t),
    ensures
        closed(whnf(t, fuel)),
        closed(nf(t, fuel)),
{
    lemma_whnf_closed(t, fuel, 0);
    lemma_nf_closed(t, fuel, 0);
}

proof fn lemma_normal_no_step(t: Term)
    requires
        is_normal(t),
    ensures
        whnf_step(t) is None,
    decreases t,
{
    if let Term::App(p) = t {
        lemma_normal_no_step(p.0);
    }
}

/// A term in normal form is its own weak-head reduct.
pub proof fn lemma_whnf_normal(t: Term, fuel: nat)
    requires
        is_normal(t),
    ensures
        whnf(t, fuel) == t,
{
    lemma_normal_no_step(t);
}

/// Normalising a term that is already in normal form gives the term back.
pub proof fn lemma_nf_normal(t: Term, fuel: nat)
    requires
        is_normal(t),
    ensures
        nf(t, fuel) == t,
    decreases fuel,
{
    if fuel > 0 {
        lemma_whnf_normal(t, fuel);
        match t {
            Term::Var(k) => {},
            Term::Lam(b) => lemma_nf_normal(*b, (fuel - 1) as nat),
            Term::App(p) => {
                lemma_nf_normal(p.0, (fuel - 1) as nat);
                lemma_nf_normal(p.1, (fuel - 1) as nat);
            },
        }
    }
}

/// No redex on the spine of `t`: its head is a variable or an abstraction
/// that is not applied.
pub open spec fn head_normal(t: Term) -> bool
    decreases t,
{
    match t {
        Term::App(p) => !(p.0 is Lam) && head_normal(p.0),
        _ => true,
    }
}

/// Full normalisation of `t` with `fuel` stops before the fuel runs out:
/// every weak-head reduction it makes ends at a head normal form.
pub open spec fn nf_stops(t: Term, fuel: nat) -> bool
    decreases fuel,
{
    if fuel == 0 {
        false
    } else {
        let u = whnf(t, fuel);
        head_normal(u) && match u {
            Term::Var(_) => true,
            Term::Lam(b) => nf_stops(*b, (fuel - 1) as nat),
            Term::App(p) => nf_stops(p.0, (fuel - 1) as nat) && nf_stops(p.1, (fuel - 1) as nat),
        }
    }
}

proof fn lemma_head_normal_no_step(t: Term)
    requires
        head_normal(t),
    ensures
        whnf_step(t) is None,
    decreases t,
{
    if let Term::App(p) = t {
        lemma_head_normal_no_step(p.0);
    }
}

/// Where full normalisation stops before its fuel runs out, its result is
/// in normal form.
pub proof fn lemma_nf_is_normal(t: Term, fuel: nat)
    requires
        nf_stops(t, fuel),
    ensures
        is_normal(nf(t, fuel)),
    decreases fuel,
{
    let u = whnf(t, fuel);
    match u {
        Term::Var(_) => {},
        Term::Lam(b) => lemma_nf_is_normal(*b, (fuel - 1) as nat),
        Term::App(p) => {
            let f = (fuel - 1) as nat;
            lemma_nf_is_normal(p.0, f);
            lemma_nf_is_normal(p.1, f);
            lemma_head_normal_no_step(p.0);
            assert(whnf(p.0, f) == p.0);
            assert(!(nf(p.0, f) is Lam));
        },
    }
}

proof fn lemma_closed_shift_fits(t: Term, d: nat, c: nat)
    requires
        closed_at(t, c),
    ensures
        shift_fits(t, d, c),
    decreases t,
{
    match t {
        Term::Var(_) => {},
        Term::Lam(b) => lemma_closed_shift_fits(*b, d, c + 1),
        Term::App(p) => {
            lemma_closed_shift_fits(p.0, d, c);
            lemma_closed_shift_fits(p.1, d, c);
        },
    }
}

proof fn lemma_closed_subst_fits(t: Term, k: nat, arg: Term)
    requires
        closed(arg),
    ensures
        subst_fits(t, k, arg),
    decreases t,
{
    match t {
        Term::Var(_) => lemma_closed_shift_fits(arg, k, 0),
        Term::Lam(b) => lemma_closed_subst_fits(*b, k + 1, arg),
        Term::App(p) => {
            lemma_closed_subst_fits(p.0, k, arg);
            lemma_closed_subst_fits(p.1, k, arg);
        },
    }
}

/// A closed term that is not an abstraction has a redex on its spine.
proof fn lemma_closed_steps(t: Term)
    requires
        closed(t),
        !(t is Lam),
    ensures
        whnf_step(t) is Some,
    decreases t,
{
    if let Term::App(p) = t {
        if let Term::Lam(b) = p.0 {
            lemma_closed_subst_fits(*b, 0, p.1);
        } else {
            lemma_closed_steps(p.0);
        }
    }
}

/// Where weak-head reduction of a closed term stops before its fuel runs
/// out, its result is an abstraction.
pub proof fn lemma_whnf_closed_is_lam(t: Term, fuel: nat)
    requires
        closed(t),
        whnf_step(whnf(t, fuel)) is None,
    ensures
        whnf(t, fuel) is Lam,
{
    lemma_whnf_closed(t, fuel, 0);
    if !(whnf(t, fuel) is Lam) {
        lemma_closed_steps(whnf(t, fuel));
    }
}

impl Term {
    /// A copy of the term, node for node.
    pub fn copy(&self) -> (r: Term)
        ensures
            r == *self,
        decreases self,
    {
        match self {
            Term::Var(k) => Term::Var(*k),
            Term::Lam(b) => Term::Lam(Box::new((**b).copy())),
            Term::App(p) => Term::App(Box::new((p.0.copy(), p.1.copy()))),
        }
    }

    /// `shift(self, d, c)`, or `None` where an index would leave `u32`.
    fn shifted(&self, d: u32, c: u32) -> (r: Option<Term>)
        ensures
            r is Some <==> shift_fits(*self, d as nat, c as nat),
            r is Some ==> r->0 == shift(*self, d as nat, c as nat),
        decreases self,
    {
        match self {
            Term::Var(k) => {
                if *k < c {
                    Some(Term::Var(*k))
                } else if (*k as u64) + (d as u64) <= u32::MAX as u64 {
                    Some(Term::Var(*k + d))
                } else {
                    None
                }
            },
            Term::Lam(b) => {
                if c == u32::MAX {
                    proof {
                        lemma_shift_high(**b, d as nat, (c + 1) as nat);
                    }
                    Some(Term::Lam(Box::new((**b).copy())))
                } else {
                    match (**b).shifted(d, c + 1) {
                        Some(nb) => Some(Term::Lam(Box::new(nb))),
                        None => None,
                    }
                }
            },
            Term::App(p) => {
                match p.0.shifted(d, c) {
                    Some(f) => match p.1.shifted(d, c) {
                        Some(x) => Some(Term::App(Box::new((f, x)))),
                        None => None,
                    },
                    None => None,
                }
            },
        }
    }

    /// `subst(self, k, arg)`, or `None` where an index would leave `u32`.
    fn substituted(&self, k: u32, arg: &Term) -> (r: Option<Term>)
        ensures
            r is Some <==> subst_fits(*self, k as nat, *arg),
            r is Some ==> r->0 == subst(*self, k as nat, *arg),
        decreases self,
    {
        match self {
            Term::Var(x) => {
                if *x == k {
                    arg.shifted(k, 0)
                } else if *x > k {
                    Some(Term::Var(*x - 1))
                } else {
                    Some(Term::Var(*x))
                }
            },
            Term::Lam(b) => {
                if k == u32::MAX {
                    proof {
                        lemma_subst_high(**b, (k + 1) as nat, *arg);
                    }
                    Some(Term::Lam(Box::new((**b).copy())))
                } else {
                    match (**b).substituted(k + 1, arg) {
                        Some(nb) => Some(Term::Lam(Box::new(nb))),
                        None => None,
                    }
                }
            },
            Term::App(p) => {
                match p.0.substituted(k, arg) {
                    Some(f) => match p.1.substituted(k, arg) {
                        Some(x) => Some(Term::App(Box::new((f, x)))),
                        None => None,
                    },
                    None => None,
                }
            },
        }
    }

    /// One step of weak-head reduction; the flag tells whether a redex was
    /// contracted.
    fn eval_one(self) -> (r: (Term, bool))
        ensures
            match whnf_step(self) {
                Some(u) => r == (u, true),
                None => r == (self, false),
            },
        decreases self,
    {
        match self {
            Term::App(app) => {
                let (f, x) = *app;
                match f {
                    Term::Lam(body) => {
                        match (*body).substituted(0, &x) {
                            Some(u) => (u, true),
                            None => (Term::App(Box::new((Term::Lam(body), x))), false),
                        }
                    },
                    f => {
                        let (g, changed) = f.eval_one();
                        (Term::App(Box::new((g, x))), changed)
                    },
                }
            },
            t => (t, false),
        }
    }

    /// Weak-head reduction with at most `fuel` steps.
    fn whnf_bounded(self, fuel: u64) -> (r: Term)
        ensures
            r == whnf(self, fuel as nat),
    {
        let mut t = self;
        let mut left: u64 = fuel;
        let mut changed = true;
        while changed && left > 0
            invariant
                changed ==> whnf(self, fuel as nat) == whnf(t, left as nat),
                !changed ==> whnf(self, fuel as nat) == t,
            decreases left,
        {
            let (u, c) = t.eval_one();
            proof {
                if !c {
                    assert(whnf(t, left as nat) == t);
                }
            }
            t = u;
            changed = c;
            left = left - 1;
        }
        t
    }

    /// Weak-head reduction: the term with an abstraction or a variable at
    /// the head of its spine.
    pub fn eval(self) -> (r: Term)
        ensures
            r == whnf(self, FUEL as nat),
    {
        self.whnf_bounded(FUEL)
    }

    /// Weak-head reduction, as `eval`.
    pub fn eval_lazy(self) -> (r: Term)
        ensures
            r == whnf(self, FUEL as nat),
    {
        self.whnf_bounded(FUEL)
    }

    fn nf_bounded(self, fuel: u64) -> (r: Term)
        ensures
            r == nf(self, fuel as nat),
        decreases fuel,
    {
        if fuel == 0 {
            return self;
        }
        match self.whnf_bounded(fuel) {
            Term::Var(k) => Term::Var(k),
            Term::Lam(b) => Term::Lam(Box::new((*b).nf_bounded(fuel - 1))),
            Term::App(p) => {
                let (f, x) = *p;
                Term::App(Box::new((f.nf_bounded(fuel - 1), x.nf_bounded(fuel - 1))))
            },
        }
    }

    /// Full normalisation: reduces under abstractions and on both sides of
    /// applications.
    pub fn eval_full(self) -> (r: Term)
        ensures
            r == nf(self, FUEL as nat),
    {
        self.nf_bounded(FUEL)
    }
}

impl Clone for Term {
    fn clone(&self) -> (r: Term)
        ensures
            r == *self,
    {
        self.copy()
    }
}

} // verus!
