use bf_interpreter::optimizer::BfCodeOptimizer;

#[test]
fn clear_not_command() {
    let code = BfCodeOptimizer::optimize("the quick brown fox jumps over the lazy dog-[],.<+>");
    assert_eq!(code, "-[],.<+>");
}

#[test]
fn unnecessary_relative_operate() {
    let code = BfCodeOptimizer::optimize(">><<+");
    assert_eq!(code, "+".to_string());
    let code = BfCodeOptimizer::optimize(">><<><<>>><<><<>>");
    assert_eq!(code, ">".to_string());
    let code = BfCodeOptimizer::optimize(">>+<<+><+<>+>><+<>+<<+>>");
    assert_eq!(code, ">>+<<+++>++<<+>>".to_string());
    let code = BfCodeOptimizer::optimize(">>++--<<");
    assert_eq!(code, "".to_string());
    let code = BfCodeOptimizer::optimize(">>+++--<<");
    assert_eq!(code, ">>+<<".to_string());
}

#[test]
fn optimize_is_idempotent_on_samples() {
    let samples = [
        "the quick brown fox jumps over the lazy dog-[],.<+>",
        ">>+<<+><+<>+>><+<>+<<+>>",
        "+-+",
        ">>++--<<",
        "",
        "[[]]",
    ];
    for s in samples {
        let once = BfCodeOptimizer::optimize(s);
        let twice = BfCodeOptimizer::optimize(&once);
        assert_eq!(once, twice);
    }
}

#[test]
fn cancellation_is_local() {
    // Cancellation looks only one character back, so "+-+" keeps one plus.
    assert_eq!(BfCodeOptimizer::optimize("+-+"), "+");
    // After a removal the scan re-evaluates against what is left.
    assert_eq!(BfCodeOptimizer::optimize("+><-"), "");
}

#[test]
fn optimize_empty_and_comment_only() {
    assert_eq!(BfCodeOptimizer::optimize(""), "");
    assert_eq!(BfCodeOptimizer::optimize("no commands here"), "");
}
