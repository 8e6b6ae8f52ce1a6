use vstd::prelude::*;
use vstd::string::*;

use crate::parser_arg::{self, blc_to_bytes, bytes_term, bytes_to_blc, decode_list, lemma_bytes_term};
use crate::parser_blc::{self, lemma_blc_round_trip, parse_blc};
use crate::printer::{blc_text, bruijn_text};
use crate::term::{nf, whnf, Term, FUEL};

verus! {

/// How the normal form of a program is written out.
#[derive(Debug, Clone, Copy, PartialEq, Eq, Structural)]
pub enum OutputFmt {
    /// Its binary lambda calculus text.
    AsciiBinary,
    /// Its de Bruijn text.
    HumanReadable,
    /// The bytes that it encodes as a list of byte lists, one character each.
    Parsed,
}

/// Why a program could not be read, or its normal form not decoded.
#[derive(Debug, Clone, Copy, PartialEq, Eq, Structural)]
pub enum ParseError {
    /// As `parser_blc::ParseError::ZeroBruijnIndex`.
    ZeroBruijnIndex,
    /// As `parser_blc::ParseError::BruijnIndexOutOfBounds`.
    BruijnIndexOutOfBounds,
    /// As `parser_blc::ParseError::IncompleteStatement`.
    IncompleteStatement,
    /// As `parser_arg::ParseError::NonBooleanValue`.
    NonBooleanValue,
    /// As `parser_arg::ParseError::UndelimitedList`.
    UndelimitedList,
    /// As `parser_arg::ParseError::BadListFormat`.
    BadListFormat,
}

/// The error of `run` for an error of the binary parser.
pub open spec fn from_blc_error(e: parser_blc::ParseError) -> ParseError {
    match e {
        parser_blc::ParseError::ZeroBruijnIndex => ParseError::ZeroBruijnIndex,
        parser_blc::ParseError::BruijnIndexOutOfBounds => ParseError::BruijnIndexOutOfBounds,
        parser_blc::ParseError::IncompleteStatement => ParseError::IncompleteStatement,
    }
}

/// The error of `run` for an error of the byte list decoder.
pub open spec fn from_codec_error(e: parser_arg::ParseError) -> ParseError {
    match e {
        parser_arg::ParseError::NonBooleanValue => ParseError::NonBooleanValue,
        parser_arg::ParseError::UndelimitedList => ParseError::UndelimitedList,
        parser_arg::ParseError::BadListFormat => ParseError::BadListFormat,
    }
}

fn blc_error(e: parser_blc::ParseError) -> (r: ParseError)
    ensures
        r == from_blc_error(e),
{
    match e {
        parser_blc::ParseError::ZeroBruijnIndex => ParseError::ZeroBruijnIndex,
        parser_blc::ParseError::BruijnIndexOutOfBounds => ParseError::BruijnIndexOutOfBounds,
        parser_blc::ParseError::IncompleteStatement => ParseError::IncompleteStatement,
    }
}

fn codec_error(e: parser_arg::ParseError) -> (r: ParseError)
    ensures
        r == from_codec_error(e),
{
    match e {
        parser_arg::ParseError::NonBooleanValue => ParseError::NonBooleanValue,
        parser_arg::ParseError::UndelimitedList => ParseError::UndelimitedList,
        parser_arg::ParseError::BadListFormat => ParseError::BadListFormat,
    }
}

/// The characters whose code points are the bytes of `b`.
pub open spec fn latin1(b: Seq<u8>) -> Seq<char> {
    b.map_values(|x: u8| x as char)
}

/// The binary program `prog`, applied to the argument where there is one
/// (as the list of its byte lists), reduced to normal form.
pub open spec fn program_spec(prog: Seq<u8>, arg: Option<Seq<u8>>) -> Result<Term, ParseError> {
    match parse_blc(prog) {
        Err(e) => Err(from_blc_error(e)),
        Ok(t) => {
            let applied = match arg {
                None => t,
                Some(a) => Term::App(Box::new((t, bytes_term(a)))),
            };
            Ok(nf(whnf(applied, FUEL as nat), FUEL as nat))
        },
    }
}

/// What `run` writes for the program and argument.
pub open spec fn run_spec(prog: Seq<u8>, arg: Option<Seq<u8>>, output_fmt: OutputFmt) -> Result<
    Seq<char>,
    ParseError,
> {
    match program_spec(prog, arg) {
        Err(e) => Err(e),
        Ok(t) => match output_fmt {
            OutputFmt::AsciiBinary => Ok(blc_text(t)),
            OutputFmt::HumanReadable => Ok(bruijn_text(t)),
            OutputFmt::Parsed => match decode_list(vstd::utf8::encode_utf8(blc_text(t))) {
                Ok(b) => Ok(latin1(b)),
                Err(e) => Err(from_codec_error(e)),
            },
        },
    }
}

/// Relies on `String::push`: the character is added at the end.
#[verifier::external_body]
fn push_char(s: &mut String, c: char)
    ensures
        final(s)@ == old(s)@.push(c),
{
    s.push(c)
}

/// Reads a binary program, applies it to the encoded argument where there is
/// one, reduces it to normal form and writes the result out.
pub fn run(prog: &str, args: Option<&str>, output_fmt: OutputFmt) -> (r: Result<String, ParseError>)
    ensures
        match r {
            Ok(s) => run_spec(
                prog.spec_bytes(),
                crate::driver::arg_bytes(args),
                output_fmt,
            ) == Ok::<Seq<char>, ParseError>(s@),
            Err(e) => run_spec(prog.spec_bytes(), crate::driver::arg_bytes(args), output_fmt)
                == Err::<Seq<char>, ParseError>(e),
        },
{
    let parsed = match parser_blc::parse(prog) {
        Ok(t) => t,
        Err(e) => {
            return Err(blc_error(e));
        },
    };
    let applied = match args {
        None => parsed,
        Some(a) => {
            let text = bytes_to_blc(a.as_bytes());
            proof {
                lemma_bytes_term(a.spec_bytes());
                lemma_blc_round_trip(bytes_term(a.spec_bytes()));
            }
            match parser_blc::parse(text.as_str()) {
                Ok(x) => Term::App(Box::new((parsed, x))),
                Err(e) => {
                    return Err(blc_error(e));
                },
            }
        },
    };
    let expr = applied.eval_lazy().eval_full();
    match output_fmt {
        OutputFmt::AsciiBinary => Ok(expr.fmt_blc()),
        OutputFmt::HumanReadable => Ok(expr.fmt_bruijin()),
        OutputFmt::Parsed => {
            let text = expr.fmt_blc();
            match blc_to_bytes(text.as_str()) {
                Ok(bytes) => {
                    let mut out = String::new();
                    let mut i: usize = 0;
                    while i < bytes.len()
                        invariant
                            i <= bytes@.len(),
                            out@ == latin1(bytes@.take(i as int)),
                        decreases bytes@.len() - i,
                    {
                        push_char(&mut out, bytes[i] as char);
                        assert(out@ =~= latin1(bytes@.take(i + 1)));
                        i = i + 1;
                    }
                    assert(bytes@.take(bytes@.len() as int) =~= bytes@);
                    Ok(out)
                },
                Err(e) => Err(codec_error(e)),
            }
        },
    }
}

} // verus!
