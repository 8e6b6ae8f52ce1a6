use lambda::driver::{self, load, step, InputFmt, RunError};
use lambda::parser_arg::{self, blc_to_bytes, bytes_to_blc};
use lambda::parser_ast::{self, ast_to_bool, ast_to_byte, uncons, ParseError as E};
use lambda::parser_blc::{self, parse};
use lambda::parser_lc::{self, parse_lc};
use lambda::render::{self, run, OutputFmt};
use lambda::sll::{
    church_false, church_true, compose, flip, fst, id, inc, num, pair, plus, snd, zero,
};
use lambda::term::Term;

const PAIR: &str = "0000000101101110110";
const Y: &str = "000100011100110100001110011010";
const ZERO: &str = "000010";

fn var(k: u32) -> Term {
    Term::Var(k)
}

fn lam(b: Term) -> Term {
    Term::Lam(Box::new(b))
}

fn app(f: Term, x: Term) -> Term {
    Term::App(Box::new((f, x)))
}

fn collect(prog: Term, fmt: driver::OutputFmt) -> Result<Vec<u8>, RunError> {
    let mut out = Vec::new();
    let mut t = prog;
    while let Some((c, tail)) = step(t, fmt)? {
        out.push(c);
        t = tail;
    }
    Ok(out)
}

#[test]
fn blc_text_reads_back_as_the_same_term() {
    let terms = vec![
        id(),
        zero(),
        num(5),
        inc(),
        plus(),
        flip(),
        pair(),
        fst(),
        snd(),
        compose(),
        lam(lam(lam(lam(lam(lam(lam(lam(lam(lam(lam(var(10)))))))))))),
    ];
    for t in terms {
        let text = t.fmt_blc();
        assert_eq!(parse(&text).unwrap(), t);
    }
}

#[test]
fn blc_printing_is_exact() {
    assert_eq!(id().fmt_blc(), "0010");
    assert_eq!(app(id(), id()).fmt_blc(), "0100100010");
    assert_eq!(church_true().fmt_blc(), "0000110");
    assert_eq!(church_false().fmt_blc(), "000010");
}

#[test]
fn bruijn_printing_counts_from_one_and_parenthesises() {
    let deep = lam(lam(lam(lam(lam(lam(lam(lam(lam(lam(lam(var(10))))))))))));
    assert_eq!(deep.fmt_bruijin(), "λ λ λ λ λ λ λ λ λ λ λ 11");
    let t = lam(app(app(var(0), lam(var(0))), app(var(0), var(0))));
    assert_eq!(t.fmt_bruijin(), "λ 1 (λ 1) (1 1)");
}

#[test]
fn blc_parse_errors() {
    assert_eq!(parse("0"), Err(parser_blc::ParseError::ZeroBruijnIndex));
    assert_eq!(parse("0001"), Err(parser_blc::ParseError::IncompleteStatement));
    assert_eq!(parse("10"), Err(parser_blc::ParseError::BruijnIndexOutOfBounds));
    assert_eq!(parse("00110"), Err(parser_blc::ParseError::BruijnIndexOutOfBounds));
    assert_eq!(parse(""), Err(parser_blc::ParseError::IncompleteStatement));
    assert_eq!(parse("00"), Err(parser_blc::ParseError::IncompleteStatement));
    assert_eq!(parse("01001"), Err(parser_blc::ParseError::IncompleteStatement));
    assert_eq!(parse("0x"), Err(parser_blc::ParseError::ZeroBruijnIndex));
}

#[test]
fn blc_parse_ignores_what_follows_the_term() {
    assert_eq!(parse("0010 and more").unwrap(), id());
}

#[test]
fn byte_codec_round_trips() {
    let all: Vec<u8> = (0..=255u8).collect();
    let cases: Vec<Vec<u8>> = vec![vec![], vec![0], vec![255], b"Hello World!".to_vec(), all];
    for b in cases {
        let text = bytes_to_blc(&b);
        assert_eq!(blc_to_bytes(&text).unwrap(), b);
    }
}

#[test]
fn byte_codec_text_is_exact() {
    assert_eq!(bytes_to_blc(&[]), "000010");
    let one = format!(
        "00010110{}{}000010000010",
        "00010110000010".repeat(7),
        "000101100000110"
    );
    assert_eq!(bytes_to_blc(&[1]), one);
}

#[test]
fn byte_codec_errors() {
    assert_eq!(blc_to_bytes(""), Err(parser_arg::ParseError::BadListFormat));
    assert_eq!(blc_to_bytes("0000100"), Err(parser_arg::ParseError::BadListFormat));
    assert_eq!(blc_to_bytes("0001011011"), Err(parser_arg::ParseError::NonBooleanValue));
    let nine_bits = format!("00010110{}", "00010110000010".repeat(9));
    assert_eq!(blc_to_bytes(&nine_bits), Err(parser_arg::ParseError::UndelimitedList));
}

#[test]
fn normal_forms_stay_as_they_are() {
    let terms = vec![id(), num(3), pair(), compose(), lam(app(var(0), lam(var(1))))];
    for t in terms {
        assert_eq!(t.clone().eval_full(), t);
        assert_eq!(t.clone().eval(), t);
    }
}

#[test]
fn reduction_of_closed_terms_gives_closed_terms() {
    let t = app(app(plus(), num(2)), num(3));
    let lazy = t.clone().eval_lazy();
    let full = t.eval_full();
    assert!(parse(&lazy.fmt_blc()).is_ok());
    assert!(parse(&full.fmt_blc()).is_ok());
    assert_eq!(full, num(5));
}

#[test]
fn substitution_shifts_free_variables_under_binders() {
    let t = lam(app(lam(lam(var(1))), var(0)));
    assert_eq!(t.eval_full(), lam(lam(var(1))));
}

#[test]
fn weak_head_reduction_stops_at_an_abstraction() {
    let t = app(id(), lam(app(id(), var(0))));
    assert_eq!(t.eval(), lam(app(id(), var(0))));
}

#[test]
fn church_constructors() {
    assert_eq!(num(3).fmt_bruijin(), "λ λ 2 (2 (2 1))");
    assert_eq!(app(inc(), zero()).eval_full(), num(1));
    assert_eq!(app(app(pair(), zero()), num(1)).eval_full().fmt_bruijin(), "λ 1 (λ λ 1) (λ λ 2 1)");
    let p = app(app(pair(), zero()), num(1));
    assert_eq!(app(fst(), p.clone()).eval_full(), zero());
    assert_eq!(app(snd(), p).eval_full(), num(1));
    assert_eq!(app(app(flip(), num(2)), num(2)).eval_full(), num(4));
    assert_eq!(app(app(app(compose(), inc()), inc()), zero()).eval_full(), num(2));
    assert_eq!(app(app(church_true(), var(0)), var(1)).eval(), var(0));
    assert_eq!(app(app(church_false(), var(0)), var(1)).eval(), var(1));
}

#[test]
fn identity_applied_to_identity() {
    let t = parse("0100100010").unwrap();
    assert_eq!(t.eval_lazy().eval_full().fmt_bruijin(), "λ 1");
}

#[test]
fn reverse_program_reverses_its_argument() {
    let reverse = format!("000000000101110111100101{PAIR}111010");
    let prog = format!("0001011001{Y}{reverse}{ZERO}");
    let t = load(&prog, Some("Hello World!"), InputFmt::Binary).unwrap();
    assert_eq!(collect(t, driver::OutputFmt::Bytes).unwrap(), b"!dlroW olleH".to_vec());
}

#[test]
fn output_is_the_same_on_every_run() {
    let reverse = format!("000000000101110111100101{PAIR}111010");
    let prog = format!("0001011001{Y}{reverse}{ZERO}");
    let a = collect(load(&prog, Some("abc"), InputFmt::Binary).unwrap(), driver::OutputFmt::Bytes);
    let b = collect(load(&prog, Some("abc"), InputFmt::Binary).unwrap(), driver::OutputFmt::Bytes);
    assert_eq!(a, b);
    assert_eq!(a.unwrap(), b"cba".to_vec());
}

#[test]
fn bits_output_writes_ones_and_zeros() {
    let list = "00010110000011000010110000010000010";
    let t = load(list, None, InputFmt::Binary).unwrap();
    assert_eq!(collect(t, driver::OutputFmt::Bits).unwrap(), b"10".to_vec());
}

#[test]
fn identity_program_echoes_its_argument() {
    let t = load("0010", Some("hi"), InputFmt::Binary).unwrap();
    assert_eq!(collect(t, driver::OutputFmt::Bytes).unwrap(), b"hi".to_vec());
    let t = load("\\x. x;", Some(""), InputFmt::Standard).unwrap();
    assert_eq!(collect(t, driver::OutputFmt::Bytes).unwrap(), Vec::<u8>::new());
}

#[test]
fn load_errors() {
    assert_eq!(
        load("10", None, InputFmt::Binary).unwrap_err(),
        RunError::Binary(parser_blc::ParseError::BruijnIndexOutOfBounds)
    );
    assert_eq!(
        load("\\x. y;", None, InputFmt::Standard).unwrap_err(),
        RunError::Standard(parser_lc::ParseError::Final)
    );
    assert_eq!(
        step(id(), driver::OutputFmt::Bytes).unwrap_err(),
        RunError::RuntimeError(parser_ast::ParseError::ExpectedAppOrNil)
    );
}

#[test]
fn list_reading_errors() {
    assert_eq!(uncons(var(0)).unwrap_err(), E::ExpectedLamForPair);
    assert_eq!(uncons(id()).unwrap_err(), E::ExpectedAppOrNil);
    assert_eq!(uncons(lam(app(var(0), id()))).unwrap_err(), E::ExpectedAppTail);
    assert_eq!(uncons(lam(lam(app(var(0), var(0))))).unwrap_err(), E::ExpectedVar);
    assert_eq!(uncons(lam(lam(var(1)))).unwrap_err(), E::BadVar);
    assert_eq!(uncons(lam(app(app(var(1), id()), id()))).unwrap_err(), E::NotReducedToList);
    assert_eq!(uncons(lam(lam(var(0)))).unwrap(), None);
    assert_eq!(uncons(lam(app(app(var(0), zero()), id()))).unwrap(), Some((zero(), id())));
    assert_eq!(ast_to_bool(var(0)).unwrap_err(), E::NonBooleanValue);
    assert_eq!(ast_to_bool(lam(lam(var(1)))).unwrap(), true);
    assert_eq!(ast_to_bool(lam(lam(var(0)))).unwrap(), false);
    assert_eq!(ast_to_byte(lam(lam(var(0)))).unwrap_err(), E::ListTerminatedTooEarly);
    let f = "00010110000010".repeat(8);
    let undelimited = parse(&format!("{f}0000110")).unwrap();
    assert_eq!(ast_to_byte(undelimited).unwrap_err(), E::UndelimitedList);
    let nine = parse(&format!("{}000010", "00010110000010".repeat(9))).unwrap();
    assert_eq!(ast_to_byte(nine).unwrap_err(), E::UndelimitedList);
    let byte = parse(&bytes_to_blc(&[0x41])[8..]).unwrap();
    assert_eq!(ast_to_byte(byte).unwrap(), 0x41);
}

#[test]
fn textual_syntax() {
    assert_eq!(parse_lc("\\x. x;").unwrap(), id());
    assert_eq!(
        parse_lc("\\x. \\y. \\z. x y z;").unwrap().fmt_bruijin(),
        "λ λ λ 3 2 1"
    );
    assert_eq!(
        parse_lc("\\x.\\y. x (\\z. z y);").unwrap().fmt_bruijin(),
        "λ λ 2 (λ 1 2)"
    );
    assert_eq!(parse_lc("\\x. \\x. x;").unwrap(), lam(lam(var(0))));
    let prog = "I = \\v. v;\nK = \\a. \\b. a;\nK I;\n";
    let t = parser_lc::parse(prog).unwrap();
    assert_eq!(t.fmt_bruijin(), "(λ λ 2) (λ 1)");
    assert_eq!(t.eval_full().fmt_bruijin(), "λ λ 1");
}

#[test]
fn textual_syntax_errors() {
    assert_eq!(parse_lc("\\x. x"), Err(parser_lc::ParseError::Preprocess));
    assert_eq!(parse_lc(";"), Err(parser_lc::ParseError::Preprocess));
    assert_eq!(parse_lc("\\x. y;"), Err(parser_lc::ParseError::Final));
    assert_eq!(parse_lc("\\x. (x;"), Err(parser_lc::ParseError::Final));
    assert_eq!(parse_lc("\\. x;"), Err(parser_lc::ParseError::Final));
}

#[test]
fn render_formats() {
    assert_eq!(run("0100100010", None, OutputFmt::AsciiBinary).unwrap(), "0010");
    assert_eq!(run("0100100010", None, OutputFmt::HumanReadable).unwrap(), "λ 1");
    assert_eq!(run("0010", Some("ok"), OutputFmt::Parsed).unwrap(), "ok");
    assert_eq!(run("0010", None, OutputFmt::Parsed), Err(render::ParseError::BadListFormat));
    assert_eq!(run("10", None, OutputFmt::Parsed), Err(render::ParseError::BruijnIndexOutOfBounds));
}

#[test]
fn textual_syntax_allows_leading_whitespace() {
    let prog = "\n  I = \\v. v;\n  I;";
    assert_eq!(parse_lc(prog).unwrap(), id());
}

#[test]
fn later_macro_definitions_replace_earlier_ones() {
    let prog = "A = \\x. x; A = \\x. \\y. x; A;";
    assert_eq!(parse_lc(prog).unwrap(), lam(lam(var(1))));
}
