use vstd::prelude::*;
use vstd::string::*;
use vstd::utf8::*;

use crate::printer::{blc_text, ones};
use crate::term::{closed, closed_at, Term};

verus! {

/// The byte of the character `0`.
pub const BIT_0: u8 = 0x30;

/// The byte of the character `1`.
pub const BIT_1: u8 = 0x31;

/// Why a text is not a binary lambda calculus term.
#[derive(Debug, Clone, Copy, PartialEq, Eq, Structural)]
pub enum ParseError {
    /// A variable written as a lone zero, with no ones before it.
    ZeroBruijnIndex,
    /// A variable that refers past the enclosing abstractions.
    BruijnIndexOutOfBounds,
    /// The text ends in the middle of a term.
    IncompleteStatement,
}

/// The number of `1` bytes at the start of `s`.
pub open spec fn leading_ones(s: Seq<u8>) -> nat
    decreases s.len(),
{
    if s.len() > 0 && s[0] == BIT_1 {
        1 + leading_ones(s.drop_first())
    } else {
        0
    }
}

/// Reads one term from the start of `s`, under `depth` abstractions; gives
/// the term and the bytes after it.
pub open spec fn parse_term(s: Seq<u8>, depth: nat) -> Result<(Term, Seq<u8>), ParseError>
    decreases s.len(),
{
    if s.len() >= 2 && s[0] == BIT_0 && s[1] == BIT_0 {
        match parse_term(s.skip(2), depth + 1) {
            Ok((b, rest)) => Ok((Term::Lam(Box::new(b)), rest)),
            Err(e) => Err(e),
        }
    } else if s.len() >= 2 && s[0] == BIT_0 && s[1] == BIT_1 {
        match parse_term(s.skip(2), depth) {
            Ok((f, rest)) => if rest.len() < s.len() {
                match parse_term(rest, depth) {
                    Ok((x, rest2)) => Ok((Term::App(Box::new((f, x))), rest2)),
                    Err(e) => Err(e),
                }
            } else {
                Err(ParseError::IncompleteStatement)
            },
            Err(e) => Err(e),
        }
    } else {
        let n = leading_ones(s);
        if n < s.len() && s[n as int] == BIT_0 {
            if n == 0 {
                Err(ParseError::ZeroBruijnIndex)
            } else if n > depth || n > u32::MAX + 1 {
                Err(ParseError::BruijnIndexOutOfBounds)
            } else {
                Ok((Term::Var((n - 1) as u32), s.skip((n + 1) as int)))
            }
        } else {
            Err(ParseError::IncompleteStatement)
        }
    }
}

/// The term at the start of `s`, bytes after it being ignored.
pub open spec fn parse_blc(s: Seq<u8>) -> Result<Term, ParseError> {
    match parse_term(s, 0) {
        Ok((t, _)) => Ok(t),
        Err(e) => Err(e),
    }
}

/// The bytes of a text of ASCII characters.
pub open spec fn ascii(s: Seq<char>) -> Seq<u8> {
    s.map_values(|c: char| c as u8)
}

pub(crate) proof fn lemma_skip_step(s: Seq<u8>, j: int)
    requires
        0 <= j < s.len(),
    ensures
        s.skip(j).drop_first() =~= s.skip(j + 1),
{
}

fn parse_impl(s: &[u8], pos: usize, depth: usize) -> (r: Result<(Term, usize), ParseError>)
    requires
        pos <= s@.len(),
        depth <= pos,
    ensures
        match r {
            Ok((t, p)) => pos < p <= s@.len() && parse_term(s@.skip(pos as int), depth as nat)
                == Ok::<(Term, Seq<u8>), ParseError>((t, s@.skip(p as int))),
            Err(e) => parse_term(s@.skip(pos as int), depth as nat) == Err::<
                (Term, Seq<u8>),
                ParseError,
            >(e),
        },
    decreases s@.len() - pos,
{
    let ghost cur = s@.skip(pos as int);
    let len = s.len();
    if len - pos >= 2 && s[pos] == BIT_0 && s[pos + 1] == BIT_0 {
        assert(cur.skip(2) =~= s@.skip(pos + 2));
        match parse_impl(s, pos + 2, depth + 1) {
            Ok((b, p)) => Ok((Term::Lam(Box::new(b)), p)),
            Err(e) => Err(e),
        }
    } else if len - pos >= 2 && s[pos] == BIT_0 && s[pos + 1] == BIT_1 {
        assert(cur.skip(2) =~= s@.skip(pos + 2));
        match parse_impl(s, pos + 2, depth) {
            Ok((f, p)) => {
                match parse_impl(s, p, depth) {
                    Ok((x, p2)) => Ok((Term::App(Box::new((f, x))), p2)),
                    Err(e) => Err(e),
                }
            },
            Err(e) => Err(e),
        }
    } else {
        let mut j: usize = pos;
        while j < len && s[j] == BIT_1
            invariant
                pos <= j <= len,
                len == s@.len(),
                cur == s@.skip(pos as int),
                leading_ones(cur) == (j - pos) + leading_ones(s@.skip(j as int)),
                forall|i: int| pos <= i < j ==> s@[i] == BIT_1,
            decreases len - j,
        {
            proof {
                lemma_skip_step(s@, j as int);
            }
            j = j + 1;
        }
        let n: usize = j - pos;
        if j < len && s[j] == BIT_0 {
            assert(cur[n as int] == s@[j as int]);
            if n == 0 {
                Err(ParseError::ZeroBruijnIndex)
            } else if n > depth || (n - 1) as u64 > u32::MAX as u64 {
                Err(ParseError::BruijnIndexOutOfBounds)
            } else {
                assert(cur.skip((n + 1) as int) =~= s@.skip(j + 1));
                Ok((Term::Var((n - 1) as u32), j + 1))
            }
        } else {
            Err(ParseError::IncompleteStatement)
        }
    }
}

/// Reads the term that a binary lambda calculus text starts with; what
/// follows it is ignored.
pub fn parse(prog: &str) -> (r: Result<Term, ParseError>)
    ensures
        r == parse_blc(prog.spec_bytes()),
{
    let bytes = prog.as_bytes();
    assert(bytes@.skip(0) =~= bytes@);
    match parse_impl(bytes, 0, 0) {
        Ok((t, _)) => Ok(t),
        Err(e) => Err(e),
    }
}

proof fn lemma_leading_ones(n: nat, rest: Seq<u8>)
    ensures
        leading_ones(ascii(ones(n)) + seq![BIT_0] + rest) == n,
        (ascii(ones(n)) + seq![BIT_0] + rest).len() == n + 1 + rest.len(),
        (ascii(ones(n)) + seq![BIT_0] + rest)[n as int] == BIT_0,
        (ascii(ones(n)) + seq![BIT_0] + rest).skip((n + 1) as int) =~= rest,
    decreases n,
{
    let s = ascii(ones(n)) + seq![BIT_0] + rest;
    if n > 0 {
        lemma_leading_ones((n - 1) as nat, rest);
        let s1 = ascii(ones((n - 1) as nat)) + seq![BIT_0] + rest;
        assert(s.drop_first() =~= s1);
        assert(s[0] == BIT_1);
    } else {
        assert(ascii(ones(n)) =~= Seq::<u8>::empty());
        assert(s[0] == BIT_0);
    }
}

/// Under `depth` abstractions, the binary text of a term closed under them
/// reads back as the term, whatever follows it.
pub proof fn lemma_parse_term_blc(t: Term, depth: nat, rest: Seq<u8>)
    requires
        closed_at(t, depth),
    ensures
        parse_term(ascii(blc_text(t)) + rest, depth) == Ok::<(Term, Seq<u8>), ParseError>(
            (t, rest),
        ),
    decreases t,
{
    let s = ascii(blc_text(t)) + rest;
    match t {
        Term::Var(k) => {
            let n = (k + 1) as nat;
            assert(ascii(blc_text(t)) =~= ascii(ones(n)) + seq![BIT_0]);
            lemma_leading_ones(n, rest);
            assert(s =~= ascii(ones(n)) + seq![BIT_0] + rest);
            assert(s[0] == BIT_1);
        },
        Term::Lam(b) => {
            lemma_parse_term_blc(*b, depth + 1, rest);
            assert(s.skip(2) =~= ascii(blc_text(*b)) + rest);
        },
        Term::App(p) => {
            let rest1 = ascii(blc_text(p.1)) + rest;
            lemma_parse_term_blc(p.0, depth, rest1);
            lemma_parse_term_blc(p.1, depth, rest);
            assert(s.skip(2) =~= ascii(blc_text(p.0)) + rest1);
        },
    }
}

proof fn lemma_blc_text_binary(t: Term)
    ensures
        forall|i: int|
            0 <= i < blc_text(t).len() ==> #[trigger] blc_text(t)[i] == '0' || blc_text(t)[i]
                == '1',
    decreases t,
{
    match t {
        Term::Var(k) => {
            let n = (k + 1) as nat;
            lemma_ones_binary(n);
            assert(blc_text(t) == ones(n).push('0'));
            assert forall|i: int| 0 <= i < blc_text(t).len() implies #[trigger] blc_text(t)[i] == '0'
                || blc_text(t)[i] == '1' by {
                if i < n {
                    assert(blc_text(t)[i] == ones(n)[i]);
                }
            }
        },
        Term::Lam(b) => {
            lemma_blc_text_binary(*b);
            assert forall|i: int| 0 <= i < blc_text(t).len() implies #[trigger] blc_text(t)[i] == '0'
                || blc_text(t)[i] == '1' by {
                if i >= 2 {
                    assert(blc_text(t)[i] == blc_text(*b)[i - 2]);
                }
            }
        },
        Term::App(p) => {
            lemma_blc_text_binary(p.0);
            lemma_blc_text_binary(p.1);
            let a = blc_text(p.0);
            let c = blc_text(p.1);
            assert forall|i: int| 0 <= i < blc_text(t).len() implies #[trigger] blc_text(t)[i] == '0'
                || blc_text(t)[i] == '1' by {
                if i >= 2 && i < 2 + a.len() {
                    assert(blc_text(t)[i] == a[i - 2]);
                } else if i >= 2 + a.len() {
                    assert(blc_text(t)[i] == c[i - 2 - a.len()]);
                }
            }
        },
    }
}

proof fn lemma_ones_binary(n: nat)
    ensures
        ones(n).len() == n,
        forall|i: int| 0 <= i < ones(n).len() ==> #[trigger] ones(n)[i] == '1',
    decreases n,
{
    if n > 0 {
        lemma_ones_binary((n - 1) as nat);
        assert forall|i: int| 0 <= i < ones(n).len() implies #[trigger] ones(n)[i] == '1' by {
            if i > 0 {
                assert(ones(n)[i] == ones((n - 1) as nat)[i - 1]);
            }
        }
    }
}

/// The bytes of the binary text of a term are its characters, one byte each.
pub proof fn lemma_blc_bytes(t: Term)
    ensures
        encode_utf8(blc_text(t)) == ascii(blc_text(t)),
{
    lemma_blc_text_binary(t);
    let s = blc_text(t);
    assert(is_ascii_chars(s));
    is_ascii_chars_encode_utf8(s);
    assert(encode_utf8(s) =~= ascii(s));
}

/// Reading back the binary text of a closed term gives the term.
pub proof fn lemma_blc_round_trip(t: Term)
    requires
        closed(t),
    ensures
        parse_blc(encode_utf8(blc_text(t))) == Ok::<Term, ParseError>(t),
{
    lemma_blc_bytes(t);
    lemma_parse_term_blc(t, 0, Seq::empty());
    assert(ascii(blc_text(t)) + Seq::<u8>::empty() =~= ascii(blc_text(t)));
}

/// What follows the binary text of a closed term does not change what
/// `parse` reads.
pub proof fn lemma_parse_ignores_tail(t: Term, rest: Seq<u8>)
    requires
        closed(t),
    ensures
        parse_blc(encode_utf8(blc_text(t)) + rest) == Ok::<Term, ParseError>(t),
{
    lemma_blc_bytes(t);
    lemma_parse_term_blc(t, 0, rest);
}

} // verus!
