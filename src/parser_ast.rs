use vstd::prelude::*;

use crate::term::{whnf, Term, FUEL};

verus! {

/// Why a reduced term does not read as the list, bit or byte expected of it.
#[derive(Debug, Clone, Copy, PartialEq, Eq, Structural)]
pub enum ParseError {
    /// A term that is neither the true nor the false term.
    NonBooleanValue,
    /// Eight bits not followed by the empty list.
    UndelimitedList,
    /// A list that is not an abstraction.
    ExpectedLamForPair,
    /// A list cell whose body is not an application to a head and a tail.
    ExpectedAppTail,
    /// A list whose body is neither a cell nor a second abstraction.
    ExpectedAppOrNil,
    /// An empty list whose inner body is not a variable.
    ExpectedVar,
    /// An empty list whose inner body is another variable than the inner one.
    BadVar,
    /// A byte of fewer than eight bits.
    ListTerminatedTooEarly,
    /// A list cell whose selector is not the cell's own variable.
    NotReducedToList,
}

/// Reads a list: `λ 1 head tail` gives the head and the tail, `λ λ 1` gives
/// nothing; the body is brought to weak head normal form first.
pub open spec fn uncons_spec(t: Term) -> Result<Option<(Term, Term)>, ParseError> {
    match t {
        Term::Lam(body) => match whnf(*body, FUEL as nat) {
            Term::App(p) => match p.0 {
                Term::App(q) => match q.0 {
                    Term::Var(v) => if v == 0 {
                        Ok(Some((q.1, p.1)))
                    } else {
                        Err(ParseError::NotReducedToList)
                    },
                    _ => Err(ParseError::NotReducedToList),
                },
                _ => Err(ParseError::ExpectedAppTail),
            },
            Term::Lam(inner) => match whnf(*inner, FUEL as nat) {
                Term::Var(y) => if y == 0 {
                    Ok(None)
                } else {
                    Err(ParseError::BadVar)
                },
                _ => Err(ParseError::ExpectedVar),
            },
            Term::Var(_) => Err(ParseError::ExpectedAppOrNil),
        },
        _ => Err(ParseError::ExpectedLamForPair),
    }
}

/// Reads a boolean: `λ λ 2` is true and `λ λ 1` false, each body brought to
/// weak head normal form first.
pub open spec fn bool_spec(t: Term) -> Result<bool, ParseError> {
    match t {
        Term::Lam(b) => match whnf(*b, FUEL as nat) {
            Term::Lam(b2) => match whnf(*b2, FUEL as nat) {
                Term::Var(x) => if x == 1 {
                    Ok(true)
                } else if x == 0 {
                    Ok(false)
                } else {
                    Err(ParseError::NonBooleanValue)
                },
                _ => Err(ParseError::NonBooleanValue),
            },
            _ => Err(ParseError::NonBooleanValue),
        },
        _ => Err(ParseError::NonBooleanValue),
    }
}

/// Reads bits `i` to `7` of a byte from the list `t`, `acc` holding the bits
/// read so far; after the eighth bit the rest of the list must read as the
/// empty list, and anything else is `UndelimitedList`.
pub open spec fn byte_spec(t: Term, i: nat, acc: u8) -> Result<u8, ParseError>
    decreases 8 - i,
{
    if i >= 8 {
        match uncons_spec(t) {
            Ok(None) => Ok(acc),
            _ => Err(ParseError::UndelimitedList),
        }
    } else {
        match uncons_spec(t) {
            Err(e) => Err(e),
            Ok(None) => Err(ParseError::ListTerminatedTooEarly),
            Ok(Some((h, tl))) => match bool_spec(whnf(h, FUEL as nat)) {
                Err(e) => Err(e),
                Ok(b) => byte_spec(
                    whnf(tl, FUEL as nat),
                    i + 1,
                    if b {
                        (acc << 1u8) | 1u8
                    } else {
                        acc << 1u8
                    },
                ),
            },
        }
    }
}

/// Splits a list into its head and tail, or finds it empty.
pub fn uncons(term: Term) -> (r: Result<Option<(Term, Term)>, ParseError>)
    ensures
        r == uncons_spec(term),
{
    match term {
        Term::Lam(body) => match (*body).eval() {
            Term::App(p) => {
                let (m, tail) = *p;
                match m {
                    Term::App(q) => {
                        let (f, head) = *q;
                        match f {
                            Term::Var(v) => {
                                if v == 0 {
                                    Ok(Some((head, tail)))
                                } else {
                                    Err(ParseError::NotReducedToList)
                                }
                            },
                            _ => Err(ParseError::NotReducedToList),
                        }
                    },
                    _ => Err(ParseError::ExpectedAppTail),
                }
            },
            Term::Lam(inner) => match (*inner).eval() {
                Term::Var(y) => {
                    if y == 0 {
                        Ok(None)
                    } else {
                        Err(ParseError::BadVar)
                    }
                },
                _ => Err(ParseError::ExpectedVar),
            },
            Term::Var(_) => Err(ParseError::ExpectedAppOrNil),
        },
        _ => Err(ParseError::ExpectedLamForPair),
    }
}

/// Reads a boolean term.
pub fn ast_to_bool(term: Term) -> (r: Result<bool, ParseError>)
    ensures
        r == bool_spec(term),
{
    match term {
        Term::Lam(b) => match (*b).eval() {
            Term::Lam(b2) => match (*b2).eval() {
                Term::Var(x) => {
                    if x == 1 {
                        Ok(true)
                    } else if x == 0 {
                        Ok(false)
                    } else {
                        Err(ParseError::NonBooleanValue)
                    }
                },
                _ => Err(ParseError::NonBooleanValue),
            },
            _ => Err(ParseError::NonBooleanValue),
        },
        _ => Err(ParseError::NonBooleanValue),
    }
}

/// Reads a byte: a list of eight booleans, most significant bit first.
pub fn ast_to_byte(term: Term) -> (r: Result<u8, ParseError>)
    ensures
        r == byte_spec(term, 0, 0),
{
    let mut t = term;
    let mut x: u8 = 0;
    let mut i: u8 = 0;
    while i < 8
        invariant
            i <= 8,
            byte_spec(term, 0, 0) == byte_spec(t, i as nat, x),
        decreases 8 - i,
    {
        match uncons(t) {
            Err(e) => {
                return Err(e);
            },
            Ok(None) => {
                return Err(ParseError::ListTerminatedTooEarly);
            },
            Ok(Some((head, tail))) => {
                match ast_to_bool(head.eval()) {
                    Err(e) => {
                        return Err(e);
                    },
                    Ok(b) => {
                        x = if b {
                            (x << 1u8) | 1u8
                        } else {
                            x << 1u8
                        };
                        t = tail.eval();
                    },
                }
            },
        }
        i = i + 1;
    }
    match uncons(t) {
        Ok(None) => Ok(x),
        _ => Err(ParseError::UndelimitedList),
    }
}

} // verus!
