use novel_tools::translator::line_text;
use novel_tools::translator::{line_action, translated_text, CliArgs, LineAction, SkipPattern, TranslateError};

fn args(resume: bool, append: bool, overwrite: bool) -> CliArgs {
    CliArgs {
        skip_lines: 3,
        pattern_skip: "^<.*>$".to_string(),
        append,
        overwrite,
        resume,
        input_file: "in.txt".to_string(),
        output_file: "out.txt".to_string(),
    }
}

#[test]
fn invalid_pattern_is_refused() {
    assert!(matches!(SkipPattern::new("("), Err(TranslateError::InvalidRegex(_))));
    assert!(SkipPattern::new("^<.*>$").is_ok());
}

#[test]
fn lines_are_blank_copied_or_translated() {
    let p = SkipPattern::new("^<.*>$").unwrap();
    assert!(p.is_match("<img>"));
    assert!(!p.is_match("本文"));
    assert_eq!(line_action("  ", &p), LineAction::Blank);
    assert_eq!(line_action("<img src=\"a\">", &p), LineAction::Copy);
    assert_eq!(line_action("本文", &p), LineAction::Translate);
}

#[test]
fn translations_join_sentences_with_spaces() {
    let outputs = vec![vec!["Hello.".to_string(), "World.".to_string()]];
    assert_eq!(translated_text(&outputs), "Hello. World.");
    assert_eq!(translated_text(&vec![]), "");
}

#[test]
fn output_plans() {
    let p = args(false, false, false).output_plan(10);
    assert!(p.create_new && p.truncate && !p.append);
    assert_eq!(p.skip_lines, 3);
    let p = args(true, false, false).output_plan(10);
    assert!(!p.create_new && !p.truncate && p.append);
    assert_eq!(p.skip_lines, 10);
    let p = args(false, true, false).output_plan(10);
    assert!(p.append && !p.truncate && !p.create_new);
    let p = args(false, false, true).output_plan(10);
    assert!(!p.append && p.truncate && !p.create_new);
}

#[test]
fn text_written_for_each_kind_of_line() {
    let t = vec![vec!["Hi.".to_string(), "Bye.".to_string()]];
    assert_eq!(line_text("  ", LineAction::Blank, &t), "");
    assert_eq!(line_text("<img>", LineAction::Copy, &t), "<img>");
    assert_eq!(line_text("本文", LineAction::Translate, &t), "Hi. Bye.");
}

#[test]
fn resuming_completes_an_interrupted_run() {
    let p = SkipPattern::new("^<.*>$").unwrap();
    let input = ["<h1>", "", "本文", "<img>"];
    let fake = |l: &str| vec![vec![format!("[{}]", l)]];
    let run = |skip: usize| {
        let mut out = String::new();
        for l in input.iter().skip(skip) {
            out.push_str(&line_text(l, line_action(l, &p), &fake(l)));
            out.push('\n');
        }
        out
    };
    let whole = run(0);
    for j in 0..=input.len() {
        let cut: String = whole.split_inclusive('\n').take(j).collect();
        let existing = cut.lines().count();
        assert_eq!(existing, j);
        let plan = args(true, false, false).output_plan(existing);
        assert_eq!(format!("{}{}", cut, run(plan.skip_lines)), whole);
    }
}
