use vstd::prelude::*;
use vstd::string::*;

use crate::parser_arg::{starts_at, starts_with};
use crate::parser_blc::lemma_skip_step;
use crate::term::Term;

verus! {

/// Why a text is not a program of the textual syntax.
#[derive(Debug, Clone, Copy, PartialEq, Eq, Structural)]
pub enum ParseError {
    /// The macro definitions, or the `;` after the final expression, are malformed.
    Preprocess,
    /// The expression, with its macros substituted, is malformed or has an unbound name.
    Final,
}

/// The byte of `\`, which opens an abstraction.
pub const BACKSLASH: u8 = 0x5c;

/// The byte of `.`, between a binder and its body.
pub const DOT: u8 = 0x2e;

/// The byte of `(`.
pub const LPAREN: u8 = 0x28;

/// The byte of `)`.
pub const RPAREN: u8 = 0x29;

/// The byte of `=`, between a macro name and its body.
pub const EQUALS: u8 = 0x3d;

/// The byte of `;`, which ends a definition and the program.
pub const SEMICOLON: u8 = 0x3b;

/// Space, tab, line feed or carriage return.
pub open spec fn is_ws(b: u8) -> bool {
    b == 0x20 || b == 0x09 || b == 0x0a || b == 0x0d
}

/// An ASCII letter or `_`.
pub open spec fn is_ident_start(b: u8) -> bool {
    (0x41 <= b <= 0x5a) || (0x61 <= b <= 0x7a) || b == 0x5f
}

/// An ASCII letter, digit or `_`.
pub open spec fn is_ident_char(b: u8) -> bool {
    is_ident_start(b) || (0x30 <= b <= 0x39)
}

/// The number of whitespace bytes at the start of `s`.
pub open spec fn ws_len(s: Seq<u8>) -> nat
    decreases s.len(),
{
    if s.len() > 0 && is_ws(s[0]) {
        1 + ws_len(s.drop_first())
    } else {
        0
    }
}

/// The number of identifier characters at the start of `s`.
pub open spec fn word_len(s: Seq<u8>) -> nat
    decreases s.len(),
{
    if s.len() > 0 && is_ident_char(s[0]) {
        1 + word_len(s.drop_first())
    } else {
        0
    }
}

/// The length of the identifier at the start of `s`, zero if there is none.
pub open spec fn ident_len(s: Seq<u8>) -> nat {
    if s.len() > 0 && is_ident_start(s[0]) {
        1 + word_len(s.drop_first())
    } else {
        0
    }
}

/// The number of bytes before the first `;` of `s` (all of `s` if it has none).
pub open spec fn body_len(s: Seq<u8>) -> nat
    decreases s.len(),
{
    if s.len() > 0 && s[0] != SEMICOLON {
        1 + body_len(s.drop_first())
    } else {
        0
    }
}

/// `s` without its leading whitespace.
pub open spec fn skip_ws(s: Seq<u8>) -> Seq<u8> {
    s.skip(ws_len(s) as int)
}

/// The de Bruijn index of `name` among the binder names `env`, innermost last.
pub open spec fn lookup(env: Seq<Seq<u8>>, name: Seq<u8>) -> Option<nat>
    decreases env.len(),
{
    if env.len() == 0 {
        None
    } else if env.last() == name {
        Some(0)
    } else {
        match lookup(env.drop_last(), name) {
            Some(k) => Some(k + 1),
            None => None,
        }
    }
}

/// Reads one term (an abstraction, a name, or an expression in parentheses)
/// at the start of `s`, and the whitespace after it: `Ok(None)` where no
/// term begins, `Err` where one begins and is malformed.
pub open spec fn term_spec(s: Seq<u8>, env: Seq<Seq<u8>>) -> Result<Option<(Term, Seq<u8>)>, ()>
    decreases s.len(), 0nat,
{
    if s.len() == 0 {
        Ok(None)
    } else if s[0] == BACKSLASH {
        let s1 = skip_ws(s.skip(1));
        let n = ident_len(s1);
        if n == 0 {
            Err(())
        } else {
            let s3 = skip_ws(s1.skip(n as int));
            if s3.len() > 0 && s3[0] == DOT {
                let s4 = skip_ws(s3.skip(1));
                if s4.len() < s.len() {
                    match expr_spec(s4, env.push(s1.take(n as int))) {
                        Ok((b, rest)) => Ok(Some((Term::Lam(Box::new(b)), rest))),
                        Err(_) => Err(()),
                    }
                } else {
                    Err(())
                }
            } else {
                Err(())
            }
        }
    } else if is_ident_start(s[0]) {
        let n = ident_len(s);
        match lookup(env, s.take(n as int)) {
            Some(k) => if k <= u32::MAX {
                Ok(Some((Term::Var(k as u32), skip_ws(s.skip(n as int)))))
            } else {
                Err(())
            },
            None => Err(()),
        }
    } else if s[0] == LPAREN {
        let s1 = skip_ws(s.skip(1));
        if s1.len() < s.len() {
            match expr_spec(s1, env) {
                Ok((t, rest)) => if rest.len() > 0 && rest[0] == RPAREN {
                    Ok(Some((t, skip_ws(rest.skip(1)))))
                } else {
                    Err(())
                },
                Err(_) => Err(()),
            }
        } else {
            Err(())
        }
    } else {
        Ok(None)
    }
}

/// Reads one or more terms at the start of `s`, applied left to right.
pub open spec fn expr_spec(s: Seq<u8>, env: Seq<Seq<u8>>) -> Result<(Term, Seq<u8>), ()>
    decreases s.len(), 2nat,
{
    match term_spec(s, env) {
        Ok(Some((t, rest))) => if rest.len() < s.len() {
            more_spec(t, rest, env)
        } else {
            Err(())
        },
        _ => Err(()),
    }
}

/// Applies `acc` to the terms at the start of `s`, left to right.
pub open spec fn more_spec(acc: Term, s: Seq<u8>, env: Seq<Seq<u8>>) -> Result<(Term, Seq<u8>), ()>
    decreases s.len(), 1nat,
{
    match term_spec(s, env) {
        Ok(Some((t, rest))) => if rest.len() < s.len() {
            more_spec(Term::App(Box::new((acc, t))), rest, env)
        } else {
            Err(())
        },
        Ok(None) => Ok((acc, s)),
        Err(_) => Err(()),
    }
}

/// The binder names of `env`.
pub open spec fn names(env: Seq<Vec<u8>>) -> Seq<Seq<u8>> {
    env.map_values(|v: Vec<u8>| v@)
}

fn ws_end(s: &[u8], pos: usize) -> (r: usize)
    requires
        pos <= s@.len(),
    ensures
        pos <= r <= s@.len(),
        r == pos + ws_len(s@.skip(pos as int)),
        s@.skip(pos as int).skip(ws_len(s@.skip(pos as int)) as int) == s@.skip(r as int),
{
    let n = s.len();
    let mut j = pos;
    while j < n && (s[j] == 0x20 || s[j] == 0x09 || s[j] == 0x0a || s[j] == 0x0d)
        invariant
            pos <= j <= n,
            n == s@.len(),
            ws_len(s@.skip(pos as int)) == (j - pos) + ws_len(s@.skip(j as int)),
        decreases n - j,
    {
        proof {
            lemma_skip_step(s@, j as int);
        }
        j = j + 1;
    }
    assert(s@.skip(pos as int).skip(j - pos) =~= s@.skip(j as int));
    j
}

fn word_end(s: &[u8], pos: usize) -> (r: usize)
    requires
        pos <= s@.len(),
    ensures
        pos <= r <= s@.len(),
        r == pos + word_len(s@.skip(pos as int)),
{
    let n = s.len();
    let mut j = pos;
    while j < n && ((0x41 <= s[j] && s[j] <= 0x5a) || (0x61 <= s[j] && s[j] <= 0x7a) || s[j]
        == 0x5f || (0x30 <= s[j] && s[j] <= 0x39))
        invariant
            pos <= j <= n,
            n == s@.len(),
            word_len(s@.skip(pos as int)) == (j - pos) + word_len(s@.skip(j as int)),
        decreases n - j,
    {
        proof {
            lemma_skip_step(s@, j as int);
        }
        j = j + 1;
    }
    j
}

/// The end of the identifier at `pos`, `pos` itself where none begins.
fn ident_end(s: &[u8], pos: usize) -> (r: usize)
    requires
        pos <= s@.len(),
    ensures
        pos <= r <= s@.len(),
        r == pos + ident_len(s@.skip(pos as int)),
{
    if pos < s.len() && ((0x41 <= s[pos] && s[pos] <= 0x5a) || (0x61 <= s[pos] && s[pos] <= 0x7a)
        || s[pos] == 0x5f) {
        proof {
            lemma_skip_step(s@, pos as int);
        }
        word_end(s, pos + 1)
    } else {
        pos
    }
}

fn copy_range(s: &[u8], from: usize, to: usize) -> (r: Vec<u8>)
    requires
        from <= to <= s@.len(),
    ensures
        r@ == s@.subrange(from as int, to as int),
{
    let mut out: Vec<u8> = Vec::new();
    let mut i = from;
    while i < to
        invariant
            from <= i <= to,
            to <= s@.len(),
            out@ == s@.subrange(from as int, i as int),
        decreases to - i,
    {
        out.push(s[i]);
        assert(out@ =~= s@.subrange(from as int, i + 1));
        i = i + 1;
    }
    out
}

fn same_name(name: &Vec<u8>, s: &[u8], from: usize, to: usize) -> (r: bool)
    requires
        from <= to <= s@.len(),
    ensures
        r == (name@ == s@.subrange(from as int, to as int)),
{
    if name.len() != to - from {
        return false;
    }
    let mut i: usize = 0;
    while i < name.len()
        invariant
            i <= name@.len(),
            name@.len() == to - from,
            from <= to <= s@.len(),
            forall|j: int| 0 <= j < i ==> name@[j] == s@[from + j],
        decreases name@.len() - i,
    {
        if name[i] != s[from + i] {
            assert(s@.subrange(from as int, to as int)[i as int] != name@[i as int]);
            return false;
        }
        i = i + 1;
    }
    assert(name@ =~= s@.subrange(from as int, to as int));
    true
}

fn lookup_exec(env: &Vec<Vec<u8>>, s: &[u8], from: usize, to: usize) -> (r: Option<usize>)
    requires
        from <= to <= s@.len(),
    ensures
        match r {
            Some(k) => lookup(names(env@), s@.subrange(from as int, to as int)) == Some(k as nat),
            None => lookup(names(env@), s@.subrange(from as int, to as int)) is None,
        },
{
    let ghost name = s@.subrange(from as int, to as int);
    let ghost all = names(env@);
    let len = env.len();
    let mut i = len;
    assert(all.take(len as int) =~= all);
    while i > 0
        invariant
            i <= len,
            len == env@.len(),
            all == names(env@),
            name == s@.subrange(from as int, to as int),
            from <= to <= s@.len(),
            lookup(all, name) == match lookup(all.take(i as int), name) {
                Some(k) => Some((k + (len - i)) as nat),
                None => None::<nat>,
            },
        decreases i,
    {
        let ghost pre = all.take(i as int);
        assert(pre.drop_last() =~= all.take(i - 1));
        assert(pre.last() == env@[i - 1]@);
        if same_name(&env[i - 1], s, from, to) {
            return Some(len - i);
        }
        i = i - 1;
    }
    assert(all.take(0) =~= Seq::<Seq<u8>>::empty());
    None
}

fn term_at(s: &[u8], pos: usize, env: &mut Vec<Vec<u8>>) -> (r: Result<Option<(Term, usize)>, ()>)
    requires
        pos <= s@.len(),
    ensures
        final(env)@ == old(env)@,
        match r {
            Ok(Some((t, p))) => pos < p <= s@.len() && term_spec(
                s@.skip(pos as int),
                names(old(env)@),
            ) == Ok::<Option<(Term, Seq<u8>)>, ()>(Some((t, s@.skip(p as int)))),
            Ok(None) => term_spec(s@.skip(pos as int), names(old(env)@)) == Ok::<
                Option<(Term, Seq<u8>)>,
                (),
            >(None),
            Err(_) => term_spec(s@.skip(pos as int), names(old(env)@)) is Err,
        },
    decreases s@.len() - pos, 0nat,
{
    let ghost cur = s@.skip(pos as int);
    let ghost nm = names(env@);
    let n = s.len();
    if pos == n {
        return Ok(None);
    }
    let c = s[pos];
    assert(cur[0] == c);
    if c == BACKSLASH {
        assert(cur.skip(1) =~= s@.skip(pos + 1));
        let p1 = ws_end(s, pos + 1);
        let p2 = ident_end(s, p1);
        if p2 == p1 {
            return Err(());
        }
        assert(s@.skip(p1 as int).skip(p2 - p1) =~= s@.skip(p2 as int));
        let p3 = ws_end(s, p2);
        if p3 < n && s[p3] == DOT {
            assert(s@.skip(p3 as int)[0] == s@[p3 as int]);
            assert(s@.skip(p3 as int).skip(1) =~= s@.skip(p3 + 1));
            let p4 = ws_end(s, p3 + 1);
            let name = copy_range(s, p1, p2);
            assert(s@.skip(p1 as int).take(p2 - p1) =~= s@.subrange(p1 as int, p2 as int));
            env.push(name);
            assert(names(env@) =~= nm.push(name@));
            let r = expr_at(s, p4, env);
            let _ = env.pop();
            assert(env@ =~= old(env)@);
            match r {
                Ok((b, p)) => Ok(Some((Term::Lam(Box::new(b)), p))),
                Err(_) => Err(()),
            }
        } else {
            assert(p3 < n ==> s@.skip(p3 as int)[0] == s@[p3 as int]);
            Err(())
        }
    } else if (0x41 <= c && c <= 0x5a) || (0x61 <= c && c <= 0x7a) || c == 0x5f {
        let p2 = ident_end(s, pos);
        assert(cur.take(p2 - pos) =~= s@.subrange(pos as int, p2 as int));
        match lookup_exec(env, s, pos, p2) {
            Some(k) => {
                if k as u64 <= u32::MAX as u64 {
                    assert(cur.skip(p2 - pos) =~= s@.skip(p2 as int));
                    let p3 = ws_end(s, p2);
                    Ok(Some((Term::Var(k as u32), p3)))
                } else {
                    Err(())
                }
            },
            None => Err(()),
        }
    } else if c == LPAREN {
        assert(cur.skip(1) =~= s@.skip(pos + 1));
        let p1 = ws_end(s, pos + 1);
        match expr_at(s, p1, env) {
            Ok((t, p)) => {
                if p < n && s[p] == RPAREN {
                    assert(s@.skip(p as int)[0] == s@[p as int]);
                    assert(s@.skip(p as int).skip(1) =~= s@.skip(p + 1));
                    let p2 = ws_end(s, p + 1);
                    Ok(Some((t, p2)))
                } else {
                    assert(p < n ==> s@.skip(p as int)[0] == s@[p as int]);
                    Err(())
                }
            },
            Err(_) => Err(()),
        }
    } else {
        Ok(None)
    }
}

fn expr_at(s: &[u8], pos: usize, env: &mut Vec<Vec<u8>>) -> (r: Result<(Term, usize), ()>)
    requires
        pos <= s@.len(),
    ensures
        final(env)@ == old(env)@,
        match r {
            Ok((t, p)) => pos < p <= s@.len() && expr_spec(s@.skip(pos as int), names(old(env)@))
                == Ok::<(Term, Seq<u8>), ()>((t, s@.skip(p as int))),
            Err(_) => expr_spec(s@.skip(pos as int), names(old(env)@)) is Err,
        },
    decreases s@.len() - pos, 2nat,
{
    match term_at(s, pos, env) {
        Ok(Some((t, p))) => {
            match more_at(t, s, p, env) {
                Ok((u, q)) => Ok((u, q)),
                Err(_) => Err(()),
            }
        },
        _ => Err(()),
    }
}

fn more_at(acc: Term, s: &[u8], pos: usize, env: &mut Vec<Vec<u8>>) -> (r: Result<(Term, usize), ()>)
    requires
        pos <= s@.len(),
    ensures
        final(env)@ == old(env)@,
        match r {
            Ok((t, p)) => pos <= p <= s@.len() && more_spec(
                acc,
                s@.skip(pos as int),
                names(old(env)@),
            ) == Ok::<(Term, Seq<u8>), ()>((t, s@.skip(p as int))),
            Err(_) => more_spec(acc, s@.skip(pos as int), names(old(env)@)) is Err,
        },
    decreases s@.len() - pos, 1nat,
{
    match term_at(s, pos, env) {
        Ok(Some((t, p))) => more_at(Term::App(Box::new((acc, t))), s, p, env),
        Ok(None) => Ok((acc, pos)),
        Err(_) => Err(()),
    }
}

/// A macro definition at the start of `s`: `name = body;` and the
/// whitespace after it; gives the name, the body and what follows.
pub open spec fn def_spec(s: Seq<u8>) -> Option<(Seq<u8>, Seq<u8>, Seq<u8>)> {
    let n = ident_len(s);
    if n == 0 {
        None
    } else {
        let s2 = skip_ws(s.skip(n as int));
        if s2.len() > 0 && s2[0] == EQUALS {
            let s3 = skip_ws(s2.skip(1));
            let m = body_len(s3);
            if m > 0 && m < s3.len() {
                Some((s.take(n as int), s3.take(m as int), skip_ws(s3.skip((m + 1) as int))))
            } else {
                None
            }
        } else {
            None
        }
    }
}

/// `v` in parentheses.
pub open spec fn paren(v: Seq<u8>) -> Seq<u8> {
    seq![LPAREN] + v + seq![RPAREN]
}

/// `s` with each occurrence of `pat`, left to right and not overlapping,
/// replaced by `rep`.
pub open spec fn replace_all(s: Seq<u8>, pat: Seq<u8>, rep: Seq<u8>) -> Seq<u8>
    decreases s.len(),
{
    if pat.len() == 0 || s.len() < pat.len() {
        s
    } else if starts_with(s, pat) {
        rep + replace_all(s.skip(pat.len() as int), pat, rep)
    } else {
        seq![s[0]] + replace_all(s.skip(1), pat, rep)
    }
}

/// `body` with the macros of `ms` substituted in turn, each in parentheses.
pub open spec fn apply_spec(ms: Seq<(Seq<u8>, Seq<u8>)>, body: Seq<u8>) -> Seq<u8>
    decreases ms.len(),
{
    if ms.len() == 0 {
        body
    } else {
        apply_spec(ms.drop_first(), replace_all(body, ms[0].0, paren(ms[0].1)))
    }
}

/// `ms` with the macro `key` defined as `val`: in its place if it was
/// defined before, at the end otherwise.
pub open spec fn insert_spec(ms: Seq<(Seq<u8>, Seq<u8>)>, key: Seq<u8>, val: Seq<u8>) -> Seq<
    (Seq<u8>, Seq<u8>),
>
    decreases ms.len(),
{
    if ms.len() == 0 {
        seq![(key, val)]
    } else if ms[0].0 == key {
        seq![(key, val)] + ms.drop_first()
    } else {
        seq![ms[0]] + insert_spec(ms.drop_first(), key, val)
    }
}

/// Reads the macro definitions at the start of `s`, each body with the
/// earlier macros substituted; gives what follows and the macros.
pub open spec fn defs_spec(s: Seq<u8>, ms: Seq<(Seq<u8>, Seq<u8>)>) -> (
    Seq<u8>,
    Seq<(Seq<u8>, Seq<u8>)>,
)
    decreases s.len(),
{
    match def_spec(s) {
        Some((key, body, rest)) => if rest.len() < s.len() {
            defs_spec(rest, insert_spec(ms, key, apply_spec(ms, body)))
        } else {
            (s, ms)
        },
        None => (s, ms),
    }
}

/// The expression text of a program: its final expression, up to the `;`,
/// with the macros substituted, in parentheses. Whitespace may precede the
/// first definition.
pub open spec fn preprocess_spec(s: Seq<u8>) -> Option<Seq<u8>> {
    let (rest, ms) = defs_spec(skip_ws(s), seq![]);
    let m = body_len(rest);
    if m > 0 && m < rest.len() {
        Some(paren(apply_spec(ms, rest.take(m as int))))
    } else {
        None
    }
}

/// The term of a program of the textual syntax.
pub open spec fn parse_lc_spec(s: Seq<u8>) -> Result<Term, ParseError> {
    match preprocess_spec(s) {
        None => Err(ParseError::Preprocess),
        Some(text) => match expr_spec(text, seq![]) {
            Ok((t, rest)) => if rest.len() == 0 {
                Ok(t)
            } else {
                Err(ParseError::Final)
            },
            Err(_) => Err(ParseError::Final),
        },
    }
}

/// The macros of `ms`, as names and bodies.
pub open spec fn macros(ms: Seq<(Vec<u8>, Vec<u8>)>) -> Seq<(Seq<u8>, Seq<u8>)> {
    ms.map_values(|m: (Vec<u8>, Vec<u8>)| (m.0@, m.1@))
}

fn body_end(s: &[u8], pos: usize) -> (r: usize)
    requires
        pos <= s@.len(),
    ensures
        pos <= r <= s@.len(),
        r == pos + body_len(s@.skip(pos as int)),
        r < s@.len() ==> s@[r as int] == SEMICOLON,
{
    let n = s.len();
    let mut j = pos;
    while j < n && s[j] != SEMICOLON
        invariant
            pos <= j <= n,
            n == s@.len(),
            body_len(s@.skip(pos as int)) == (j - pos) + body_len(s@.skip(j as int)),
        decreases n - j,
    {
        proof {
            lemma_skip_step(s@, j as int);
        }
        j = j + 1;
    }
    j
}

/// The macro definition at `pos`: where the name and the body begin and
/// end, and where what follows begins.
fn def_at(s: &[u8], pos: usize) -> (r: Option<(usize, usize, usize, usize, usize)>)
    requires
        pos <= s@.len(),
    ensures
        match r {
            Some((k0, k1, b0, b1, next)) => k0 <= k1 <= s@.len() && b0 <= b1 <= s@.len() && pos
                < next <= s@.len() && def_spec(s@.skip(pos as int)) == Some(
                (
                    s@.subrange(k0 as int, k1 as int),
                    s@.subrange(b0 as int, b1 as int),
                    s@.skip(next as int),
                ),
            ),
            None => def_spec(s@.skip(pos as int)) is None,
        },
{
    let ghost cur = s@.skip(pos as int);
    let n = s.len();
    let p1 = ident_end(s, pos);
    if p1 == pos {
        return None;
    }
    assert(cur.skip(p1 - pos) =~= s@.skip(p1 as int));
    assert(cur.take(p1 - pos) =~= s@.subrange(pos as int, p1 as int));
    let p2 = ws_end(s, p1);
    if p2 < n && s[p2] == EQUALS {
        assert(s@.skip(p2 as int)[0] == s@[p2 as int]);
        assert(s@.skip(p2 as int).skip(1) =~= s@.skip(p2 + 1));
        let p3 = ws_end(s, p2 + 1);
        let p4 = body_end(s, p3);
        if p4 > p3 && p4 < n {
            assert(s@.skip(p3 as int).take(p4 - p3) =~= s@.subrange(p3 as int, p4 as int));
            assert(s@.skip(p3 as int).skip(p4 - p3 + 1) =~= s@.skip(p4 + 1));
            let p5 = ws_end(s, p4 + 1);
            Some((pos, p1, p3, p4, p5))
        } else {
            None
        }
    } else {
        assert(p2 < n ==> s@.skip(p2 as int)[0] == s@[p2 as int]);
        None
    }
}

fn append_all(out: &mut Vec<u8>, v: &Vec<u8>)
    ensures
        final(out)@ == old(out)@ + v@,
{
    let mut i: usize = 0;
    while i < v.len()
        invariant
            i <= v@.len(),
            out@ == old(out)@ + v@.take(i as int),
        decreases v@.len() - i,
    {
        out.push(v[i]);
        assert(out@ =~= old(out)@ + v@.take(i + 1));
        i = i + 1;
    }
    assert(v@.take(v@.len() as int) =~= v@);
}

fn paren_exec(v: &Vec<u8>) -> (r: Vec<u8>)
    ensures
        r@ == paren(v@),
{
    let mut out: Vec<u8> = Vec::new();
    out.push(LPAREN);
    append_all(&mut out, v);
    out.push(RPAREN);
    assert(out@ =~= paren(v@));
    out
}

fn replace_exec(s: &Vec<u8>, pat: &Vec<u8>, rep: &Vec<u8>) -> (r: Vec<u8>)
    ensures
        r@ == replace_all(s@, pat@, rep@),
{
    let mut out: Vec<u8> = Vec::new();
    let n = s.len();
    let mut pos: usize = 0;
    assert(s@.skip(0) =~= s@);
    while pos < n
        invariant
            pos <= n,
            n == s@.len(),
            replace_all(s@, pat@, rep@) == out@ + replace_all(s@.skip(pos as int), pat@, rep@),
        decreases n - pos,
    {
        let ghost cur = s@.skip(pos as int);
        if pat.len() > 0 && pat.len() <= n - pos && starts_at(s.as_slice(), pos, pat) {
            assert(cur.skip(pat@.len() as int) =~= s@.skip(pos + pat@.len()));
            append_all(&mut out, rep);
            assert(replace_all(s@, pat@, rep@) =~= out@ + replace_all(
                s@.skip(pos + pat@.len()),
                pat@,
                rep@,
            ));
            pos = pos + pat.len();
        } else {
            assert(cur.skip(1) =~= s@.skip(pos + 1));
            proof {
                if pat@.len() == 0 || cur.len() < pat@.len() {
                    assert(cur =~= seq![cur[0]] + cur.skip(1));
                    if pat@.len() != 0 {
                        assert(replace_all(cur.skip(1), pat@, rep@) == cur.skip(1));
                    }
                }
            }
            out.push(s[pos]);
            assert(replace_all(s@, pat@, rep@) =~= out@ + replace_all(
                s@.skip(pos + 1),
                pat@,
                rep@,
            ));
            pos = pos + 1;
        }
    }
    assert(out@ + replace_all(s@.skip(n as int), pat@, rep@) =~= out@);
    out
}

fn apply_exec(ms: &Vec<(Vec<u8>, Vec<u8>)>, body: Vec<u8>) -> (r: Vec<u8>)
    ensures
        r@ == apply_spec(macros(ms@), body@),
{
    let ghost all = macros(ms@);
    let mut cur = body;
    let mut i: usize = 0;
    assert(all.skip(0) =~= all);
    while i < ms.len()
        invariant
            i <= ms@.len(),
            all == macros(ms@),
            apply_spec(all, body@) == apply_spec(all.skip(i as int), cur@),
        decreases ms@.len() - i,
    {
        assert(all.skip(i as int).drop_first() =~= all.skip(i + 1));
        let rep = paren_exec(&ms[i].1);
        cur = replace_exec(&cur, &ms[i].0, &rep);
        i = i + 1;
    }
    cur
}

proof fn lemma_insert_at(ms: Seq<(Seq<u8>, Seq<u8>)>, key: Seq<u8>, val: Seq<u8>, i: int)
    requires
        0 <= i <= ms.len(),
        forall|j: int| 0 <= j < i ==> ms[j].0 != key,
    ensures
        i < ms.len() && ms[i].0 == key ==> insert_spec(ms, key, val) == ms.update(i, (key, val)),
        i == ms.len() ==> insert_spec(ms, key, val) == ms.push((key, val)),
    decreases i,
{
    if i > 0 {
        lemma_insert_at(ms.drop_first(), key, val, i - 1);
        if i < ms.len() && ms[i].0 == key {
            assert(insert_spec(ms, key, val) =~= ms.update(i, (key, val)));
        }
        if i == ms.len() {
            assert(insert_spec(ms, key, val) =~= ms.push((key, val)));
        }
    } else {
        if i < ms.len() && ms[i].0 == key {
            assert(insert_spec(ms, key, val) =~= ms.update(i, (key, val)));
        }
        if i == ms.len() {
            assert(insert_spec(ms, key, val) =~= ms.push((key, val)));
        }
    }
}

fn insert_exec(ms: &mut Vec<(Vec<u8>, Vec<u8>)>, key: Vec<u8>, val: Vec<u8>)
    ensures
        macros(final(ms)@) == insert_spec(macros(old(ms)@), key@, val@),
{
    let ghost all = macros(ms@);
    let n = ms.len();
    let mut i: usize = 0;
    while i < n
        invariant
            i <= n,
            n == ms@.len(),
            all == macros(ms@),
            all == macros(old(ms)@),
            forall|j: int| 0 <= j < i ==> all[j].0 != key@,
        decreases n - i,
    {
        if same_name(&ms[i].0, key.as_slice(), 0, key.len()) {
            assert(key@.subrange(0, key@.len() as int) =~= key@);
            proof {
                lemma_insert_at(all, key@, val@, i as int);
            }
            ms[i] = (key, val);
            assert(macros(ms@) =~= all.update(i as int, (key@, val@)));
            return;
        }
        assert(key@.subrange(0, key@.len() as int) =~= key@);
        i = i + 1;
    }
    proof {
        lemma_insert_at(all, key@, val@, n as int);
    }
    let ghost k = key@;
    let ghost v = val@;
    ms.push((key, val));
    assert(macros(ms@) =~= all.push((k, v)));
}

fn preprocess(s: &[u8]) -> (r: Option<Vec<u8>>)
    ensures
        match r {
            Some(v) => preprocess_spec(s@) == Some(v@),
            None => preprocess_spec(s@) is None,
        },
{
    let mut ms: Vec<(Vec<u8>, Vec<u8>)> = Vec::new();
    let n = s.len();
    assert(s@.skip(0) =~= s@);
    let mut pos: usize = ws_end(s, 0);
    assert(macros(ms@) =~= Seq::<(Seq<u8>, Seq<u8>)>::empty());
    loop
        invariant
            pos <= n,
            n == s@.len(),
            defs_spec(skip_ws(s@), seq![]) == defs_spec(s@.skip(pos as int), macros(ms@)),
        ensures
            pos <= n,
            defs_spec(skip_ws(s@), seq![]) == defs_spec(s@.skip(pos as int), macros(ms@)),
            def_spec(s@.skip(pos as int)) is None,
        decreases n - pos,
    {
        match def_at(s, pos) {
            Some((k0, k1, b0, b1, next)) => {
                let key = copy_range(s, k0, k1);
                let body = copy_range(s, b0, b1);
                let val = apply_exec(&ms, body);
                insert_exec(&mut ms, key, val);
                pos = next;
            },
            None => {
                break ;
            },
        }
    }
    let ghost rest = s@.skip(pos as int);
    let e = body_end(s, pos);
    if e > pos && e < n {
        assert(rest.take(e - pos) =~= s@.subrange(pos as int, e as int));
        let body = copy_range(s, pos, e);
        let text = apply_exec(&ms, body);
        Some(paren_exec(&text))
    } else {
        None
    }
}

/// Reads a program of the textual syntax: macro definitions `name = body;`,
/// then an expression and `;`. What follows the `;` is ignored.
pub fn parse(s: &str) -> (r: Result<Term, ParseError>)
    ensures
        r == parse_lc_spec(s.spec_bytes()),
{
    match preprocess(s.as_bytes()) {
        None => Err(ParseError::Preprocess),
        Some(text) => {
            let mut env: Vec<Vec<u8>> = Vec::new();
            assert(text@.skip(0) =~= text@);
            assert(names(env@) =~= Seq::<Seq<u8>>::empty());
            match expr_at(text.as_slice(), 0, &mut env) {
                Ok((t, p)) => {
                    if p == text.len() {
                        assert(text@.skip(p as int).len() == 0);
                        Ok(t)
                    } else {
                        Err(ParseError::Final)
                    }
                },
                Err(_) => Err(ParseError::Final),
            }
        },
    }
}

/// The errors of `parse_lc`.
pub type ParseLCError = ParseError;

/// Reads a program of the textual syntax, as `parse`.
pub fn parse_lc(s: &str) -> (r: Result<Term, ParseLCError>)
    ensures
        r == parse_lc_spec(s.spec_bytes()),
{
    parse(s)
}

} // verus!
