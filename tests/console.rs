use episode_renamer::{plan_choice, startup_choice, trim_line, PlanChoice, StartupChoice};

#[test]
fn startup_answers() {
    assert_eq!(startup_choice("yes\n"), StartupChoice::Proceed);
    assert_eq!(startup_choice("  YeS \r\n"), StartupChoice::Proceed);
    assert_eq!(startup_choice("quit\n"), StartupChoice::Quit);
    assert_eq!(startup_choice("QUIT"), StartupChoice::Quit);
    assert_eq!(startup_choice("y\n"), StartupChoice::AskAgain);
    assert_eq!(startup_choice("yes please\n"), StartupChoice::AskAgain);
    assert_eq!(startup_choice(""), StartupChoice::AskAgain);
}

#[test]
fn trimming_matches_std() {
    let lines = ["  yes \n", "\u{a0}quit\u{3000}", "", " \t\n", "a b", "x\u{2003}"];
    for l in lines {
        assert_eq!(trim_line(l), l.trim(), "{:?}", l);
    }
}

#[test]
fn plan_answers() {
    assert_eq!(plan_choice("y\n"), PlanChoice::Apply);
    assert_eq!(plan_choice("Yes\n"), PlanChoice::Apply);
    assert_eq!(plan_choice("n\n"), PlanChoice::Skip);
    assert_eq!(plan_choice("N"), PlanChoice::Skip);
    assert_eq!(plan_choice("q\n"), PlanChoice::Quit);
    assert_eq!(plan_choice("Q"), PlanChoice::Quit);
    assert_eq!(plan_choice(""), PlanChoice::AskAgain);
    assert_eq!(plan_choice("\n"), PlanChoice::AskAgain);
    assert_eq!(plan_choice(" y"), PlanChoice::AskAgain);
}
