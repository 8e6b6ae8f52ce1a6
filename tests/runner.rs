use lambda::parser_blc::parse;
use lambda::term::Expr;

const ID: &str = "0010";
const ZERO: &str = "000010";
const ONE: &str = "00000111010";
const TWO: &str = "0000011100111010";
const THREE: &str = "000001110011100111010";
const INC: &str = "000000011100101111011010";
const TRUE: &str = "0000110";
const FALSE: &str = ZERO;
const PAIR: &str = "0000000101101110110";
const FST: &str = "0001100000110";
const SND: &str = "000110000010";
const Y: &str = "000100011100110100001110011010";

fn reduce(prog: &str, expected_prog: &str, expected: &str) {
    let prog_ast = parse(prog).unwrap();
    assert_eq!(prog_ast.fmt_bruijin(), expected_prog);
    assert_eq!(prog_ast.eval_lazy().eval_full().fmt_bruijin(), expected);
}

#[test]
fn runner_test_id() {
    let prog = format!("01{ID}{ID}");
    reduce(&prog, "(λ 1) (λ 1)", "λ 1")
}

#[test]
fn runner_test_inc() {
    let prog = format!("01{INC}01{INC}{ZERO}");
    reduce(
        &prog,
        "(λ λ λ 2 (3 2 1)) ((λ λ λ 2 (3 2 1)) (λ λ 1))",
        "λ λ 2 (2 1)",
    )
}

#[test]
fn runner_test_plus() {
    let plus = format!("00000101110{INC}10");
    let prog = format!("0101{plus}{THREE}{TWO}");
    reduce(
        &prog,
        "(λ λ 2 (λ λ λ 2 (3 2 1)) 1) (λ λ 2 (2 (2 1))) (λ λ 2 (2 1))",
        "λ λ 2 (2 (2 (2 (2 1))))",
    )
}

#[test]
fn runner_test_pow() {
    let prog = format!("01{TWO}{TWO}");
    reduce(&prog, "(λ λ 2 (2 1)) (λ λ 2 (2 1))", "λ λ 2 (2 (2 (2 1)))");

    let prog = format!("01{THREE}{TWO}");
    reduce(
        &prog,
        "(λ λ 2 (2 (2 1))) (λ λ 2 (2 1))",
        "λ λ 2 (2 (2 (2 (2 (2 (2 (2 1)))))))",
    )
}

#[test]
fn runner_test_even() {
    let not = format!("00010110{FALSE}{TRUE}");
    let even = format!("00010110{not}{TRUE}");
    let inc_ast = parse(INC).unwrap();
    let even_ast = parse(&even).unwrap();
    let expected = ["λ λ 2", "λ λ 1"];

    let mut x = parse(ZERO).unwrap();
    for i in 0..=100 {
        let query = Expr::App(Box::new((even_ast.clone(), x.clone())));
        assert_eq!(query.eval_full().fmt_bruijin(), expected[i % 2]);
        x = Expr::App(Box::new((inc_ast.clone(), x)));
    }
}

#[test]
fn runner_test_pair() {
    let zero_and_one = format!("0101{PAIR}{ZERO}01{INC}{ZERO}");

    let prog = format!("01{SND}{zero_and_one}");
    reduce(
        &prog,
        "(λ 1 (λ λ 1)) ((λ λ λ 1 3 2) (λ λ 1) ((λ λ λ 2 (3 2 1)) (λ λ 1)))",
        "λ λ 2 1",
    );

    let prog = format!("01{FST}{zero_and_one}");
    reduce(
        &prog,
        "(λ 1 (λ λ 2)) ((λ λ λ 1 3 2) (λ λ 1) ((λ λ λ 2 (3 2 1)) (λ λ 1)))",
        "λ λ 1",
    )
}

#[test]
fn runner_test_y() {
    let nums = format!("0101{PAIR}{ONE}0101{PAIR}{TWO}0101{PAIR}{THREE}{ZERO}");
    let rev = format!("000000000101110111100101{PAIR}111010");

    let prog = format!("0101{nums}01{Y}{rev}{ZERO}");
    reduce(
        &prog,
        "(λ λ λ 1 3 2) (λ λ 2 1) ((λ λ λ 1 3 2) (λ λ 2 (2 1)) ((λ λ λ 1 3 2) (λ λ 2 (2 (2 1))) (λ λ 1))) ((λ (λ 2 (1 1)) (λ 2 (1 1))) (λ λ λ λ 2 4 ((λ λ λ 1 3 2) 3 1))) (λ λ 1)",
        "λ 1 (λ λ 2 (2 (2 1))) (λ 1 (λ λ 2 (2 1)) (λ 1 (λ λ 2 1) (λ λ 1)))",
    )
}

#[test]
fn runner_test_sum() {
    let nums = format!("0101{PAIR}{ONE}0101{PAIR}{TWO}0101{PAIR}{THREE}{ZERO}");
    let plus = format!("00000101110{INC}10");
    let sum = format!("000000000101110111100101{plus}101110");

    let prog = format!("0101{nums}01{Y}{sum}{ZERO}");
    reduce(
        &prog,
        "(λ λ λ 1 3 2) (λ λ 2 1) ((λ λ λ 1 3 2) (λ λ 2 (2 1)) ((λ λ λ 1 3 2) (λ λ 2 (2 (2 1))) (λ λ 1))) ((λ (λ 2 (1 1)) (λ 2 (1 1))) (λ λ λ λ 2 4 ((λ λ 2 (λ λ λ 2 (3 2 1)) 1) 1 3))) (λ λ 1)",
        "λ λ 2 (2 (2 (2 (2 (2 1)))))",
    )
}
