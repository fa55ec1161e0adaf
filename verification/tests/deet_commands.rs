use cs110l::command::{interpret_line, DebuggerCommand, LineOutcome};
use cs110l::text::{split_whitespace, trim};

#[test]
fn blank_lines_are_skipped() {
    assert!(matches!(interpret_line(""), LineOutcome::Blank));
    assert!(matches!(interpret_line("   \t "), LineOutcome::Blank));
}

#[test]
fn commands_by_name_and_abbreviation() {
    assert!(matches!(interpret_line("q"), LineOutcome::Command(DebuggerCommand::Quit)));
    assert!(matches!(interpret_line("  quit  "), LineOutcome::Command(DebuggerCommand::Quit)));
    assert!(matches!(interpret_line("c"), LineOutcome::Command(DebuggerCommand::Continue)));
    assert!(matches!(interpret_line("continue"), LineOutcome::Command(DebuggerCommand::Continue)));
    assert!(matches!(interpret_line("bt"), LineOutcome::Command(DebuggerCommand::Backtrace)));
    assert!(matches!(interpret_line("back"), LineOutcome::Command(DebuggerCommand::Backtrace)));
    match interpret_line("r  hello   world") {
        LineOutcome::Command(DebuggerCommand::Run(args)) => {
            assert_eq!(args, vec!["hello".to_string(), "world".to_string()])
        }
        other => panic!("unexpected {:?}", other),
    }
    match interpret_line("run") {
        LineOutcome::Command(DebuggerCommand::Run(args)) => assert!(args.is_empty()),
        other => panic!("unexpected {:?}", other),
    }
    match interpret_line("b *0x401126") {
        LineOutcome::Command(DebuggerCommand::Breakpoint(loc)) => assert_eq!(loc, "*0x401126"),
        other => panic!("unexpected {:?}", other),
    }
}

#[test]
fn unknown_words_are_unrecognized() {
    assert!(matches!(interpret_line("frobnicate"), LineOutcome::Unrecognized));
    assert!(matches!(interpret_line("break"), LineOutcome::Unrecognized));
    assert!(matches!(interpret_line("Quit"), LineOutcome::Unrecognized));
}

#[test]
fn from_tokens_on_words() {
    assert!(DebuggerCommand::from_tokens(&vec![]).is_none());
    assert!(matches!(DebuggerCommand::from_tokens(&vec!["cont"]), Some(DebuggerCommand::Continue)));
    assert!(matches!(
        DebuggerCommand::from_tokens(&vec!["break", "main", "extra"]),
        Some(DebuggerCommand::Breakpoint(ref s)) if s == "main"
    ));
}

#[test]
fn text_helpers_match_std() {
    for s in ["", "  a b  ", "\u{3000}x\u{85}", "one\ttwo\nthree", "   ", "x"] {
        assert_eq!(trim(s), s.trim());
        assert_eq!(split_whitespace(s), s.split_whitespace().collect::<Vec<_>>());
    }
}
