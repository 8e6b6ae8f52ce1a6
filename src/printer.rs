use vstd::prelude::*;
use vstd::string::*;

use crate::term::Term;

verus! {

/// `n` ones.
pub open spec fn ones(n: nat) -> Seq<char>
    decreases n,
{
    if n == 0 {
        seq![]
    } else {
        seq!['1'] + ones((n - 1) as nat)
    }
}

/// The binary lambda calculus text of `t`: `00` before an abstraction's
/// body, `01` before the two sides of an application, and `k + 1` ones
/// then a zero for the variable `k`.
pub open spec fn blc_text(t: Term) -> Seq<char>
    decreases t,
{
    match t {
        Term::Var(k) => ones((k + 1) as nat).push('0'),
        Term::Lam(b) => seq!['0', '0'] + blc_text(*b),
        Term::App(p) => seq!['0', '1'] + blc_text(p.0) + blc_text(p.1),
    }
}

/// The decimal digit `d`.
pub open spec fn digit(d: nat) -> char {
    seq!['0', '1', '2', '3', '4', '5', '6', '7', '8', '9'][d as int]
}

/// `n` in decimal, without leading zeros.
pub open spec fn decimal(n: nat) -> Seq<char>
    decreases n,
{
    if n < 10 {
        seq![digit(n)]
    } else {
        decimal(n / 10).push(digit(n % 10))
    }
}

/// The de Bruijn text of `t`: variables as their index plus one, `λ ` before
/// an abstraction's body, and an application as its two sides separated by
/// a space, each in parentheses unless it is a variable (or, on the left,
/// an application).
pub open spec fn bruijn_text(t: Term) -> Seq<char>
    decreases t,
{
    match t {
        Term::Var(k) => decimal((k + 1) as nat),
        Term::Lam(b) => seq!['λ', ' '] + bruijn_text(*b),
        Term::App(p) => {
            let left = if p.0 is Var || p.0 is App {
                bruijn_text(p.0) + seq![' ']
            } else {
                seq!['('] + bruijn_text(p.0) + seq![')', ' ']
            };
            let right = if p.1 is Var {
                bruijn_text(p.1)
            } else {
                seq!['('] + bruijn_text(p.1) + seq![')']
            };
            left + right
        },
    }
}

fn digit_str(d: u64) -> (r: &'static str)
    requires
        d < 10,
    ensures
        r@ == seq![digit(d as nat)],
{
    proof {
        reveal_strlit("0");
        reveal_strlit("1");
        reveal_strlit("2");
        reveal_strlit("3");
        reveal_strlit("4");
        reveal_strlit("5");
        reveal_strlit("6");
        reveal_strlit("7");
        reveal_strlit("8");
        reveal_strlit("9");
    }
    if d == 0 {
        "0"
    } else if d == 1 {
        "1"
    } else if d == 2 {
        "2"
    } else if d == 3 {
        "3"
    } else if d == 4 {
        "4"
    } else if d == 5 {
        "5"
    } else if d == 6 {
        "6"
    } else if d == 7 {
        "7"
    } else if d == 8 {
        "8"
    } else {
        "9"
    }
}

fn write_decimal(n: u64, out: &mut String)
    ensures
        final(out)@ == old(out)@ + decimal(n as nat),
    decreases n,
{
    if n >= 10 {
        write_decimal(n / 10, out);
    }
    out.append(digit_str(n % 10));
    assert(final(out)@ =~= old(out)@ + decimal(n as nat));
}

fn write_blc(t: &Term, out: &mut String)
    ensures
        final(out)@ == old(out)@ + blc_text(*t),
    decreases t,
{
    proof {
        reveal_strlit("0");
        reveal_strlit("1");
        reveal_strlit("00");
        reveal_strlit("01");
    }
    match t {
        Term::Var(k) => {
            let n: u64 = *k as u64 + 1;
            let mut i: u64 = 0;
            while i < n
                invariant
                    i <= n,
                    n == *k as u64 + 1,
                    out@ == old(out)@ + ones(i as nat),
                decreases n - i,
            {
                out.append("1");
                proof {
                    reveal_strlit("1");
                    assert(ones((i + 1) as nat) =~= ones(i as nat) + seq!['1']) by {
                        lemma_ones_push(i as nat);
                    }
                }
                i = i + 1;
            }
            out.append("0");
            assert(out@ =~= old(out)@ + blc_text(*t));
        },
        Term::Lam(b) => {
            out.append("00");
            write_blc(b, out);
            assert(out@ =~= old(out)@ + blc_text(*t));
        },
        Term::App(p) => {
            out.append("01");
            write_blc(&p.0, out);
            write_blc(&p.1, out);
            assert(out@ =~= old(out)@ + blc_text(*t));
        },
    }
}

proof fn lemma_ones_push(n: nat)
    ensures
        ones(n + 1) =~= ones(n) + seq!['1'],
    decreases n,
{
    if n > 0 {
        lemma_ones_push((n - 1) as nat);
        assert(ones(n + 1) =~= seq!['1'] + ones(n));
    }
}

fn write_bruijn(t: &Term, out: &mut String)
    ensures
        final(out)@ == old(out)@ + bruijn_text(*t),
    decreases t,
{
    proof {
        reveal_strlit("λ ");
        reveal_strlit(" ");
        reveal_strlit("(");
        reveal_strlit(")");
        reveal_strlit(") ");
    }
    match t {
        Term::Var(k) => {
            write_decimal(*k as u64 + 1, out);
        },
        Term::Lam(b) => {
            out.append("λ ");
            write_bruijn(b, out);
            assert(out@ =~= old(out)@ + bruijn_text(*t));
        },
        Term::App(p) => {
            match &p.0 {
                Term::Lam(_) => {
                    out.append("(");
                    write_bruijn(&p.0, out);
                    out.append(") ");
                },
                _ => {
                    write_bruijn(&p.0, out);
                    out.append(" ");
                },
            }
            match &p.1 {
                Term::Var(_) => {
                    write_bruijn(&p.1, out);
                },
                _ => {
                    out.append("(");
                    write_bruijn(&p.1, out);
                    out.append(")");
                },
            }
            assert(out@ =~= old(out)@ + bruijn_text(*t));
        },
    }
}

impl Term {
    /// The binary lambda calculus text of the term.
    pub fn fmt_blc(&self) -> (r: String)
        ensures
            r@ == blc_text(*self),
    {
        let mut out = String::new();
        write_blc(self, &mut out);
        assert(out@ =~= blc_text(*self));
        out
    }

    /// The de Bruijn text of the term, variables counted from one.
    pub fn fmt_bruijin(&self) -> (r: String)
        ensures
            r@ == bruijn_text(*self),
    {
        let mut out = String::new();
        write_bruijn(self, &mut out);
        assert(out@ =~= bruijn_text(*self));
        out
    }
}

} // verus!
