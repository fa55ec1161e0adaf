use cs110l::command::DebuggerCommand;
use cs110l::session::{Action, Event, Message, Session, Status, SIGTRAP};

fn cmd(s: &mut Session, c: DebuggerCommand) -> Action {
    s.step(Event::Command(c))
}

fn expect_print(a: Action) -> Message {
    match a {
        Action::Print(m) => m,
        other => panic!("expected a message, got {:?}", other),
    }
}

/// A session with a breakpoint at 0x401126 recorded before any run, and an
/// inferior started and armed (the trap replaced 0x55).
fn started() -> Session {
    let (mut s, first) = Session::new();
    assert!(matches!(first, Action::ReadCommand));
    let m = expect_print(cmd(&mut s, DebuggerCommand::Breakpoint("*0x401126".to_string())));
    assert_eq!(m, Message::BreakpointSet { number: 0, addr: 0x401126 });
    assert!(matches!(s.step(Event::Done), Action::ReadCommand));
    match cmd(&mut s, DebuggerCommand::Run(vec!["arg".to_string()])) {
        Action::Spawn(args) => assert_eq!(args, vec!["arg".to_string()]),
        other => panic!("unexpected {:?}", other),
    }
    assert!(matches!(s.step(Event::Done), Action::WriteByte { addr: 0x401126, val: 0xcc }));
    assert!(matches!(s.step(Event::Byte(0x55)), Action::GetRegisters));
    s
}

#[test]
fn breakpoint_before_run_is_recorded_with_placeholder_byte() {
    let (mut s, _) = Session::new();
    let m = expect_print(cmd(&mut s, DebuggerCommand::Breakpoint("*401000".to_string())));
    assert_eq!(m, Message::BreakpointSet { number: 0, addr: 0x401000 });
    assert_eq!(s.breakpoint_at(0x401000), Some(0));
    assert_eq!(s.breakpoint_count(), 1);
    assert!(!s.is_alive());
}

#[test]
fn breakpoints_are_numbered_in_order() {
    let (mut s, _) = Session::new();
    let m0 = expect_print(cmd(&mut s, DebuggerCommand::Breakpoint("*10".to_string())));
    s.step(Event::Done);
    let m1 = expect_print(cmd(&mut s, DebuggerCommand::Breakpoint("*20".to_string())));
    s.step(Event::Done);
    let m2 = expect_print(cmd(&mut s, DebuggerCommand::Breakpoint("*10".to_string())));
    assert_eq!(m0, Message::BreakpointSet { number: 0, addr: 0x10 });
    assert_eq!(m1, Message::BreakpointSet { number: 1, addr: 0x20 });
    assert_eq!(m2, Message::BreakpointSet { number: 1, addr: 0x10 });
}

#[test]
fn run_arms_breakpoints_and_steps_over_them() {
    let mut s = started();
    assert!(s.is_alive());
    assert_eq!(s.breakpoint_at(0x401126), Some(0x55));
    // Stopped just past the trap: put the original byte back, rewind, step.
    assert!(matches!(
        s.step(Event::Registers { rip: 0x401127, rbp: 0 }),
        Action::WriteByte { addr: 0x401126, val: 0x55 }
    ));
    assert!(matches!(s.step(Event::Byte(0xcc)), Action::SetRip(0x401126)));
    assert!(matches!(s.step(Event::Done), Action::Step));
    assert!(matches!(s.step(Event::Done), Action::Wait));
    let m = expect_print(s.step(Event::Waited(Status::Stopped(SIGTRAP, 0x401127))));
    assert_eq!(m, Message::StoppedAtBreakpoint);
    // The trap goes back before the inferior runs on.
    assert!(matches!(s.step(Event::Done), Action::WriteByte { addr: 0x401126, val: 0xcc }));
    assert!(matches!(s.step(Event::Byte(0x55)), Action::Cont));
    assert!(matches!(s.step(Event::Done), Action::Wait));
    let m = expect_print(s.step(Event::Waited(Status::Exited(3))));
    assert_eq!(m, Message::ChildExited(3));
    assert!(!s.is_alive());
    assert_eq!(s.breakpoint_count(), 1);
    assert_eq!(s.breakpoint_at(0x401126), Some(0x55));
    assert!(matches!(s.step(Event::Done), Action::ReadCommand));
}

#[test]
fn resume_away_from_breakpoint_continues_directly() {
    let mut s = started();
    assert!(matches!(s.step(Event::Registers { rip: 0x400000, rbp: 0 }), Action::Cont));
    assert!(matches!(s.step(Event::Done), Action::Wait));
    match s.step(Event::Waited(Status::Stopped(2, 0x400100))) {
        Action::ReportStop { signal, rip } => {
            assert_eq!(signal, 2);
            assert_eq!(rip, 0x400100);
        }
        other => panic!("unexpected {:?}", other),
    }
    assert!(s.is_alive());
    assert!(matches!(s.step(Event::Done), Action::ReadCommand));
    // Continue from the stop.
    assert!(matches!(cmd(&mut s, DebuggerCommand::Continue), Action::GetRegisters));
    assert!(matches!(s.step(Event::Registers { rip: 0x400100, rbp: 0 }), Action::Cont));
    assert!(matches!(s.step(Event::Done), Action::Wait));
    let m = expect_print(s.step(Event::Waited(Status::Signaled(9))));
    assert_eq!(m, Message::ChildSignaled(9));
    assert!(!s.is_alive());
}

#[test]
fn step_stopped_by_other_signal_reports_current_rip() {
    let mut s = started();
    s.step(Event::Registers { rip: 0x401127, rbp: 0 });
    s.step(Event::Byte(0xcc));
    s.step(Event::Done);
    s.step(Event::Done);
    match s.step(Event::Waited(Status::Stopped(11, 0x401130))) {
        Action::ReportStop { signal, rip } => {
            assert_eq!(signal, 11);
            assert_eq!(rip, 0x401130);
        }
        other => panic!("unexpected {:?}", other),
    }
    assert!(s.is_alive());
}

#[test]
fn failed_arming_is_reported_and_run_goes_on() {
    let (mut s, _) = Session::new();
    cmd(&mut s, DebuggerCommand::Breakpoint("*0x10".to_string()));
    s.step(Event::Done);
    cmd(&mut s, DebuggerCommand::Run(vec![]));
    assert!(matches!(s.step(Event::Done), Action::WriteByte { addr: 0x10, val: 0xcc }));
    let m = expect_print(s.step(Event::Failed));
    assert_eq!(m, Message::InstallFailed(0x10));
    assert!(matches!(s.step(Event::Done), Action::GetRegisters));
}

#[test]
fn spawn_failure_is_reported() {
    let (mut s, _) = Session::new();
    cmd(&mut s, DebuggerCommand::Run(vec![]));
    let m = expect_print(s.step(Event::Failed));
    assert_eq!(m, Message::SpawnFailed);
    assert!(!s.is_alive());
    assert!(matches!(s.step(Event::Done), Action::ReadCommand));
}

#[test]
fn continue_without_inferior() {
    let (mut s, _) = Session::new();
    let m = expect_print(cmd(&mut s, DebuggerCommand::Continue));
    assert_eq!(m, Message::NoInferior);
    assert!(matches!(s.step(Event::Done), Action::ReadCommand));
}

#[test]
fn invalid_breakpoint_address_leaves_the_loop() {
    let (mut s, _) = Session::new();
    let m = expect_print(cmd(&mut s, DebuggerCommand::Breakpoint("*bogus".to_string())));
    assert_eq!(m, Message::InvalidAddress);
    assert!(matches!(s.step(Event::Done), Action::Exit));
    assert!(s.is_finished());
}

#[test]
fn line_and_function_breakpoints_use_lookups() {
    let (mut s, _) = Session::new();
    assert!(matches!(cmd(&mut s, DebuggerCommand::Breakpoint("15".to_string())), Action::LookupLine(15)));
    let m = expect_print(s.step(Event::Address(Some(0x401200))));
    assert_eq!(m, Message::BreakpointSet { number: 0, addr: 0x401200 });
    s.step(Event::Done);
    match cmd(&mut s, DebuggerCommand::Breakpoint("func".to_string())) {
        Action::LookupFunction(name) => assert_eq!(name, "func"),
        other => panic!("unexpected {:?}", other),
    }
    let m = expect_print(s.step(Event::Address(Some(0x401300))));
    assert_eq!(m, Message::BreakpointSet { number: 1, addr: 0x401300 });
}

#[test]
fn unknown_line_or_function_leaves_the_loop() {
    let (mut s, _) = Session::new();
    cmd(&mut s, DebuggerCommand::Breakpoint("99".to_string()));
    let m = expect_print(s.step(Event::Address(None)));
    assert_eq!(m, Message::InvalidLine);
    assert!(matches!(s.step(Event::Done), Action::Exit));
    let (mut t, _) = Session::new();
    cmd(&mut t, DebuggerCommand::Breakpoint("nosuch".to_string()));
    assert!(matches!(t.step(Event::Address(None)), Action::Exit));
    assert!(t.is_finished());
}

#[test]
fn breakpoint_in_live_inferior_is_written() {
    let mut s = started();
    s.step(Event::Registers { rip: 0x400000, rbp: 0 });
    s.step(Event::Done);
    s.step(Event::Waited(Status::Stopped(2, 0x400000)));
    s.step(Event::Done);
    assert!(matches!(
        cmd(&mut s, DebuggerCommand::Breakpoint("*0x402000".to_string())),
        Action::WriteByte { addr: 0x402000, val: 0xcc }
    ));
    let m = expect_print(s.step(Event::Byte(0x90)));
    assert_eq!(m, Message::BreakpointSet { number: 1, addr: 0x402000 });
    assert_eq!(s.breakpoint_at(0x402000), Some(0x90));
    s.step(Event::Done);
    cmd(&mut s, DebuggerCommand::Breakpoint("*0x403000".to_string()));
    let m = expect_print(s.step(Event::Failed));
    assert_eq!(m, Message::WriteFailed);
    assert!(matches!(s.step(Event::Done), Action::Exit));
}

#[test]
fn backtrace_walks_frames_until_main() {
    let mut s = started();
    s.step(Event::Registers { rip: 0x400000, rbp: 0 });
    s.step(Event::Done);
    s.step(Event::Waited(Status::Stopped(2, 0x400000)));
    s.step(Event::Done);
    assert!(matches!(cmd(&mut s, DebuggerCommand::Backtrace), Action::GetRegisters));
    assert!(matches!(s.step(Event::Registers { rip: 0x10, rbp: 0x1000 }), Action::DescribeFrame(0x10)));
    assert!(matches!(s.step(Event::Frame { is_main: false }), Action::ReadWord(0x1008)));
    assert!(matches!(s.step(Event::Word(0x20)), Action::ReadWord(0x1000)));
    assert!(matches!(s.step(Event::Word(0x2000)), Action::DescribeFrame(0x20)));
    assert!(matches!(s.step(Event::Frame { is_main: true }), Action::ReadCommand));
}

#[test]
fn quit_kills_a_live_inferior() {
    let mut s = started();
    s.step(Event::Registers { rip: 0x400000, rbp: 0 });
    s.step(Event::Done);
    s.step(Event::Waited(Status::Stopped(2, 0x400000)));
    s.step(Event::Done);
    assert!(matches!(cmd(&mut s, DebuggerCommand::Quit), Action::Kill));
    assert!(matches!(s.step(Event::Done), Action::Exit));
    assert!(!s.is_alive());
    let (mut t, _) = Session::new();
    assert!(matches!(cmd(&mut t, DebuggerCommand::Quit), Action::Exit));
}

#[test]
fn run_again_kills_the_old_inferior_first() {
    let mut s = started();
    s.step(Event::Registers { rip: 0x400000, rbp: 0 });
    s.step(Event::Done);
    s.step(Event::Waited(Status::Stopped(2, 0x400000)));
    s.step(Event::Done);
    assert!(matches!(cmd(&mut s, DebuggerCommand::Run(vec![])), Action::Kill));
    assert!(matches!(s.step(Event::Done), Action::Spawn(_)));
    assert!(!s.is_alive());
    assert!(matches!(s.step(Event::Done), Action::WriteByte { addr: 0x401126, val: 0xcc }));
    assert!(s.is_alive());
}
