use vstd::prelude::*;
use vstd::string::*;

use crate::parser_arg::{bytes_term, bytes_to_blc, lemma_bytes_term};
use crate::parser_ast::{self, ast_to_bool, ast_to_byte, bool_spec, byte_spec, uncons, uncons_spec};
use crate::parser_blc::{self, lemma_blc_round_trip, parse_blc};
use crate::parser_lc::{self, parse_lc_spec};
use crate::term::{whnf, Term, FUEL};

verus! {

/// The syntax a program is written in.
#[derive(Debug, Clone, Copy, PartialEq, Eq, Structural)]
pub enum InputFmt {
    /// Binary lambda calculus.
    Binary,
    /// The textual syntax, with macros.
    Standard,
}

/// How the elements of the output list become bytes.
#[derive(Debug, Clone, Copy, PartialEq, Eq, Structural)]
pub enum OutputFmt {
    /// Each element is a list of eight booleans, one byte.
    Bytes,
    /// Each element is a boolean, written as the character `1` or `0`.
    Bits,
}

/// Why a program could not be loaded or its output read.
#[derive(Debug, Clone, Copy, PartialEq, Eq, Structural)]
pub enum RunError {
    /// The binary program is malformed.
    Binary(parser_blc::ParseError),
    /// The textual program is malformed.
    Standard(parser_lc::ParseError),
    /// The reduced program does not read as the list of its output.
    RuntimeError(parser_ast::ParseError),
}

/// The program term: the program read in its syntax, applied to the
/// argument where there is one, as the list of its byte lists.
pub open spec fn load_spec(prog: Seq<u8>, arg: Option<Seq<u8>>, input_fmt: InputFmt) -> Result<
    Term,
    RunError,
> {
    let parsed = match input_fmt {
        InputFmt::Binary => match parse_blc(prog) {
            Ok(t) => Ok(t),
            Err(e) => Err(RunError::Binary(e)),
        },
        InputFmt::Standard => match parse_lc_spec(prog) {
            Ok(t) => Ok(t),
            Err(e) => Err(RunError::Standard(e)),
        },
    };
    match parsed {
        Err(e) => Err(e),
        Ok(t) => match arg {
            None => Ok(t),
            Some(a) => Ok(Term::App(Box::new((t, bytes_term(a))))),
        },
    }
}

/// One round of output: the list `t` is reduced to weak head normal form;
/// a cell gives the byte of its head and its tail, the empty list nothing.
pub open spec fn step_spec(t: Term, output_fmt: OutputFmt) -> Result<Option<(u8, Term)>, RunError> {
    match uncons_spec(whnf(t, FUEL as nat)) {
        Err(e) => Err(RunError::RuntimeError(e)),
        Ok(None) => Ok(None),
        Ok(Some((h, tl))) => {
            let head = whnf(h, FUEL as nat);
            match output_fmt {
                OutputFmt::Bytes => match byte_spec(head, 0, 0) {
                    Ok(c) => Ok(Some((c, tl))),
                    Err(e) => Err(RunError::RuntimeError(e)),
                },
                OutputFmt::Bits => match bool_spec(head) {
                    Ok(b) => Ok(Some((
                        if b {
                            0x31u8
                        } else {
                            0x30u8
                        },
                        tl,
                    ))),
                    Err(e) => Err(RunError::RuntimeError(e)),
                },
            }
        },
    }
}

/// The bytes that the first `n` rounds of output give from the list `t`.
pub open spec fn emitted(t: Term, output_fmt: OutputFmt, n: nat) -> Seq<u8>
    decreases n,
{
    if n == 0 {
        seq![]
    } else {
        match step_spec(t, output_fmt) {
            Ok(Some((c, tl))) => seq![c] + emitted(tl, output_fmt, (n - 1) as nat),
            _ => seq![],
        }
    }
}

/// The bytes of an optional argument.
pub open spec fn arg_bytes(arg: Option<&str>) -> Option<Seq<u8>> {
    match arg {
        Some(a) => Some(a.spec_bytes()),
        None => None,
    }
}

/// Reads the program in its syntax and applies it to the encoded argument,
/// where there is one.
pub fn load(prog_raw: &str, args_raw: Option<&str>, input_fmt: InputFmt) -> (r: Result<
    Term,
    RunError,
>)
    ensures
        r == load_spec(prog_raw.spec_bytes(), arg_bytes(args_raw), input_fmt),
{
    let prog = match input_fmt {
        InputFmt::Binary => match parser_blc::parse(prog_raw) {
            Ok(t) => t,
            Err(e) => {
                return Err(RunError::Binary(e));
            },
        },
        InputFmt::Standard => match parser_lc::parse(prog_raw) {
            Ok(t) => t,
            Err(e) => {
                return Err(RunError::Standard(e));
            },
        },
    };
    match args_raw {
        None => Ok(prog),
        Some(arg) => {
            let text = bytes_to_blc(arg.as_bytes());
            proof {
                lemma_bytes_term(arg.spec_bytes());
                lemma_blc_round_trip(bytes_term(arg.spec_bytes()));
            }
            match parser_blc::parse(text.as_str()) {
                Ok(x) => Ok(Term::App(Box::new((prog, x)))),
                Err(e) => Err(RunError::Binary(e)),
            }
        },
    }
}

/// One round of output from the list `prog`: the next byte and the rest of
/// the list, or nothing at the end of the list.
pub fn step(prog: Term, output_fmt: OutputFmt) -> (r: Result<Option<(u8, Term)>, RunError>)
    ensures
        r == step_spec(prog, output_fmt),
{
    match uncons(prog.eval()) {
        Err(e) => Err(RunError::RuntimeError(e)),
        Ok(None) => Ok(None),
        Ok(Some((h, tl))) => {
            let head = h.eval();
            match output_fmt {
                OutputFmt::Bytes => match ast_to_byte(head) {
                    Ok(c) => Ok(Some((c, tl))),
                    Err(e) => Err(RunError::RuntimeError(e)),
                },
                OutputFmt::Bits => match ast_to_bool(head) {
                    Ok(b) => Ok(Some((
                        if b {
                            0x31u8
                        } else {
                            0x30u8
                        },
                        tl,
                    ))),
                    Err(e) => Err(RunError::RuntimeError(e)),
                },
            }
        },
    }
}

/// The output of a program is a function of the program text, the argument
/// and the two formats: equal inputs give byte for byte the same stream.
pub proof fn lemma_output_deterministic(
    prog1: Seq<u8>,
    prog2: Seq<u8>,
    arg1: Option<Seq<u8>>,
    arg2: Option<Seq<u8>>,
    input_fmt: InputFmt,
    output_fmt: OutputFmt,
    n: nat,
)
    requires
        prog1 == prog2,
        arg1 == arg2,
    ensures
        match (load_spec(prog1, arg1, input_fmt), load_spec(prog2, arg2, input_fmt)) {
            (Ok(t1), Ok(t2)) => emitted(t1, output_fmt, n) == emitted(t2, output_fmt, n),
            (Err(e1), Err(e2)) => e1 == e2,
            _ => false,
        },
{
}

} // verus!
