//! The debugger's command loop as a state machine.
//!
//! The loop alternates decisions with work on the traced process (spawning,
//! reading and writing its memory and registers, stepping, waiting) and on
//! the terminal.  `Session::step` takes the outcome of the last piece of
//! outside work and returns the next one to perform; the driver performs
//! each `Action` and reports its outcome as an `Event`.

use vstd::prelude::*;
use crate::address::{breakpoint_target_spec, parse_breakpoint_target, BreakpointTarget};
use crate::breakpoints::{BreakpointTable, TRAP_BYTE};
use crate::command::DebuggerCommand;

verus! {

/// Signal number of `SIGTRAP`, which a breakpoint or a single step raises.
pub const SIGTRAP: i32 = 5;

/// State of the inferior after a wait.
#[derive(Debug, Clone, Copy, PartialEq, Eq, Structural)]
pub enum Status {
    /// Stopped by the signal, with the instruction pointer at the given address.
    Stopped(i32, usize),
    /// Exited normally with this exit code.
    Exited(i32),
    /// Killed by this signal.
    Signaled(i32),
}

/// What the debugger tells the user.
#[derive(Debug, Clone, Copy, PartialEq, Eq, Structural)]
pub enum Message {
    /// The target could not be started.
    SpawnFailed,
    /// A breakpoint could not be written into a fresh inferior.
    InstallFailed(usize),
    /// The inferior exited with this code.
    ChildExited(i32),
    /// The inferior was killed by this signal.
    ChildSignaled(i32),
    /// Single-stepping over a breakpoint finished with a trap.
    StoppedAtBreakpoint,
    /// `continue` was asked with no inferior.
    NoInferior,
    /// `break *X` where `X` is no address.
    InvalidAddress,
    /// `break N` where no code belongs to line `N`.
    InvalidLine,
    /// The trap could not be written into the running inferior.
    WriteFailed,
    /// A breakpoint was recorded under this number at this address.
    BreakpointSet { number: usize, addr: usize },
}

/// The next piece of outside work.
#[derive(Debug)]
pub enum Action {
    /// Prompt for and read the next command.
    ReadCommand,
    /// Kill the inferior and reap it.
    Kill,
    /// Start the target under tracing with these arguments.
    Spawn(Vec<String>),
    /// Write `val` at `addr` in the inferior; answer with the byte it replaced.
    WriteByte { addr: usize, val: u8 },
    /// Read the inferior's instruction and frame pointers.
    GetRegisters,
    /// Set the inferior's instruction pointer.
    SetRip(usize),
    /// Execute one instruction of the inferior.
    Step,
    /// Let the inferior run.
    Cont,
    /// Wait for the inferior to change state.
    Wait,
    /// Find the code address of a source line.
    LookupLine(usize),
    /// Find the code address of a function.
    LookupFunction(String),
    /// Print the function and line of a code address; answer whether the function is `main`.
    DescribeFrame(usize),
    /// Read the word at an address of the inferior.
    ReadWord(usize),
    /// Tell the user something.
    Print(Message),
    /// Tell the user that the inferior stopped, with the signal and the source line at `rip`.
    ReportStop { signal: i32, rip: usize },
    /// Leave the debugger.
    Exit,
}

/// The outcome of the last action.
#[derive(Debug)]
pub enum Event {
    /// A command was read.
    Command(DebuggerCommand),
    /// The action completed and has nothing to report.
    Done,
    /// The action failed.
    Failed,
    /// A write completed; this byte was there before.
    Byte(u8),
    /// The registers were read.
    Registers { rip: usize, rbp: usize },
    /// A wait completed with this status.
    Waited(Status),
    /// A lookup completed.
    Address(Option<usize>),
    /// A frame was described; whether its function is `main`.
    Frame { is_main: bool },
    /// A word was read.
    Word(usize),
}

/// Which action the session waits on.
#[derive(Debug)]
pub enum Phase {
    /// Reading the next command.
    Idle,
    /// Killing the old inferior before starting a new one with these arguments.
    KillThenRun(Vec<String>),
    /// Killing the inferior before leaving.
    KillThenQuit,
    /// Starting the target.
    Spawning,
    /// Writing the trap at the `i`-th pending breakpoint of a fresh inferior.
    Installing(usize),
    /// Telling the user that arming a breakpoint failed.
    InstallFailed,
    /// Reading the registers at the start of a resume.
    Resuming,
    /// Putting the original byte back at the breakpoint `bp`, just behind the
    /// instruction pointer.
    Restoring { bp: usize },
    /// Moving the instruction pointer back onto `bp`.
    Rewinding { bp: usize },
    /// Executing the original instruction at `bp`.
    Stepping { bp: usize },
    /// Waiting for that single step to end.
    StepWaiting { bp: usize },
    /// Telling the user that the step ended with a trap.
    AtBreakpoint { bp: usize },
    /// Writing the trap back at `bp`.
    Rearming { bp: usize },
    /// Letting the inferior run.
    Continuing,
    /// Waiting for the inferior to stop or end.
    Waiting,
    /// Telling the user something, then reading the next command.
    Reporting,
    /// Reading the registers for a backtrace.
    Tracing,
    /// Describing a frame whose frame pointer is `rbp`.
    Describing { rbp: usize },
    /// Reading the return address of the frame at `rbp`.
    ReadingReturn { rbp: usize },
    /// Reading the caller's frame pointer; `rip` is the caller's code address.
    ReadingFrame { rip: usize },
    /// Finding the address of a source line.
    LookingUpLine,
    /// Finding the address of a function.
    LookingUpFunction,
    /// Writing the trap at a new breakpoint in the live inferior.
    Placing(usize),
    /// Telling the user something, then leaving.
    Leaving,
    /// The command loop is over.
    Finished,
}

/// The abstract state of a session.
pub struct SessionView {
    /// The breakpoint table.
    pub bps: Map<usize, u8>,
    /// Whether an inferior is running under the debugger.
    pub alive: bool,
    /// The action the session waits on.
    pub phase: Phase,
    /// Addresses still to be armed in a fresh inferior, in the order they are armed.
    pub pending: Seq<usize>,
    /// For each address that the debugger wrote in the current inferior, the last byte written.
    pub patched: Map<usize, u8>,
    /// Breakpoints left holding their original byte because a step over them
    /// stopped on a signal other than `SIGTRAP`.
    pub disarmed: Set<usize>,
}

/// The debugger's state, apart from the inferior process and the terminal.
pub struct Session {
    table: BreakpointTable,
    alive: bool,
    phase: Phase,
    pending: Vec<usize>,
    patched: Ghost<Map<usize, u8>>,
    disarmed: Ghost<Set<usize>>,
}

impl View for Session {
    type V = SessionView;

    closed spec fn view(&self) -> SessionView {
        SessionView {
            bps: self.table@,
            alive: self.alive,
            phase: self.phase,
            pending: self.pending@,
            patched: self.patched@,
            disarmed: self.disarmed@,
        }
    }
}

/// `s` waiting on `phase`.
pub open spec fn with_phase(s: SessionView, phase: Phase) -> SessionView {
    SessionView {
        bps: s.bps,
        alive: s.alive,
        phase,
        pending: s.pending,
        patched: s.patched,
        disarmed: s.disarmed,
    }
}

/// `s` with no inferior, waiting on `phase`.
pub open spec fn without_inferior(s: SessionView, phase: Phase) -> SessionView {
    SessionView {
        bps: s.bps,
        alive: false,
        phase,
        pending: s.pending,
        patched: Map::empty(),
        disarmed: Set::empty(),
    }
}

/// `s` after the byte `val` was written at `addr`.
pub open spec fn wrote(s: SessionView, addr: usize, val: u8, phase: Phase) -> SessionView {
    SessionView {
        bps: s.bps,
        alive: s.alive,
        phase,
        pending: s.pending,
        patched: s.patched.insert(addr, val),
        disarmed: s.disarmed,
    }
}

/// `s` after the trap was written at `addr`, replacing the byte `orig`,
/// which the table now records for `addr`.
pub open spec fn armed(s: SessionView, addr: usize, orig: u8, phase: Phase) -> SessionView {
    SessionView {
        bps: s.bps.insert(addr, orig),
        alive: s.alive,
        phase,
        pending: s.pending,
        patched: s.patched.insert(addr, TRAP_BYTE),
        disarmed: s.disarmed.remove(addr),
    }
}

/// `s` noting that the breakpoint at `bp` keeps its original byte.
pub open spec fn disarm(s: SessionView, bp: usize) -> SessionView {
    SessionView {
        bps: s.bps,
        alive: s.alive,
        phase: s.phase,
        pending: s.pending,
        patched: s.patched,
        disarmed: s.disarmed.insert(bp),
    }
}

/// Start of a resume: read the registers to see whether the inferior sits
/// just past a breakpoint.
pub open spec fn resume_spec(s: SessionView) -> (SessionView, Action) {
    (with_phase(s, Phase::Resuming), Action::GetRegisters)
}

/// Arm the pending breakpoints from position `i` on, then resume.
pub open spec fn install_spec(s: SessionView, i: nat) -> (SessionView, Action) {
    if i < s.pending.len() {
        (
            with_phase(s, Phase::Installing(i as usize)),
            Action::WriteByte { addr: s.pending[i as int], val: TRAP_BYTE },
        )
    } else {
        resume_spec(s)
    }
}

/// Put a breakpoint at `addr`: arm it in the inferior if there is one,
/// else just record it.
pub open spec fn place_spec(s: SessionView, addr: usize) -> (SessionView, Action) {
    if s.alive {
        (with_phase(s, Phase::Placing(addr)), Action::WriteByte { addr, val: TRAP_BYTE })
    } else {
        let bps = s.bps.insert(addr, 0);
        (
            SessionView {
                bps,
                alive: s.alive,
                phase: Phase::Reporting,
                pending: s.pending,
                patched: s.patched,
                disarmed: s.disarmed,
            },
            Action::Print(Message::BreakpointSet { number: (bps.len() - 1) as usize, addr }),
        )
    }
}

/// Report the status with which a resume ended.
pub open spec fn report_spec(s: SessionView, st: Status) -> (SessionView, Action) {
    match st {
        Status::Exited(code) => (
            without_inferior(s, Phase::Reporting),
            Action::Print(Message::ChildExited(code)),
        ),
        Status::Signaled(sig) => (
            without_inferior(s, Phase::Reporting),
            Action::Print(Message::ChildSignaled(sig)),
        ),
        Status::Stopped(sig, rip) => (
            with_phase(s, Phase::Reporting),
            Action::ReportStop { signal: sig, rip },
        ),
    }
}

/// Carry out a command.
pub open spec fn command_spec(s: SessionView, cmd: DebuggerCommand) -> (SessionView, Action) {
    match cmd {
        DebuggerCommand::Run(args) => if s.alive {
            (with_phase(s, Phase::KillThenRun(args)), Action::Kill)
        } else {
            (with_phase(s, Phase::Spawning), Action::Spawn(args))
        },
        DebuggerCommand::Quit => if s.alive {
            (with_phase(s, Phase::KillThenQuit), Action::Kill)
        } else {
            (with_phase(s, Phase::Finished), Action::Exit)
        },
        DebuggerCommand::Continue => if s.alive {
            resume_spec(s)
        } else {
            (with_phase(s, Phase::Reporting), Action::Print(Message::NoInferior))
        },
        DebuggerCommand::Backtrace => (with_phase(s, Phase::Tracing), Action::GetRegisters),
        DebuggerCommand::Breakpoint(loc) => match breakpoint_target_spec(loc@) {
            BreakpointTarget::Address(a) => place_spec(s, a),
            BreakpointTarget::InvalidAddress => (
                with_phase(s, Phase::Leaving),
                Action::Print(Message::InvalidAddress),
            ),
            BreakpointTarget::Line(line) => (
                with_phase(s, Phase::LookingUpLine),
                Action::LookupLine(line),
            ),
            BreakpointTarget::Function => (
                with_phase(s, Phase::LookingUpFunction),
                Action::LookupFunction(loc),
            ),
        },
    }
}

/// Whether `order` lists every breakpoint address of `bps` exactly once.
pub open spec fn is_key_order(order: Seq<usize>, bps: Map<usize, u8>) -> bool {
    order.no_duplicates() && order.to_set() == bps.dom()
}

/// Whether `e` is an outcome of the action that `s` waits on, and one on
/// which the debugger carries on rather than aborting.
pub open spec fn expects(s: SessionView, e: Event) -> bool {
    match s.phase {
        Phase::Idle => match e {
            Event::Command(cmd) => !(cmd is Backtrace && !s.alive),
            _ => false,
        },
        Phase::Spawning => e is Done || e is Failed,
        Phase::Installing(_) => e is Byte || e is Failed,
        Phase::Placing(_) => e is Byte || e is Failed,
        Phase::Resuming => match e {
            Event::Registers { rip, rbp } => rip >= 1,
            _ => false,
        },
        Phase::Tracing => e is Registers,
        Phase::Restoring { .. } => e is Byte,
        Phase::Rearming { .. } => e is Byte,
        Phase::StepWaiting { .. } => e is Waited,
        Phase::Waiting => e is Waited,
        Phase::LookingUpLine => e is Address,
        Phase::LookingUpFunction => e is Address,
        Phase::Describing { rbp } => match e {
            Event::Frame { is_main } => is_main || rbp <= usize::MAX - 8,
            _ => false,
        },
        Phase::ReadingReturn { .. } => e is Word,
        Phase::ReadingFrame { .. } => e is Word,
        Phase::Finished => false,
        _ => e is Done,
    }
}

/// The next state and action after event `e` in state `s`; `order` is the
/// order in which the breakpoint table hands out its addresses when a
/// fresh inferior is armed.
pub open spec fn step_spec(s: SessionView, e: Event, order: Seq<usize>) -> (SessionView, Action) {
    match (s.phase, e) {
        (Phase::Idle, Event::Command(cmd)) => command_spec(s, cmd),
        (Phase::KillThenRun(args), _) => (
            without_inferior(s, Phase::Spawning),
            Action::Spawn(args),
        ),
        (Phase::KillThenQuit, _) => (without_inferior(s, Phase::Finished), Action::Exit),
        (Phase::Spawning, Event::Done) => install_spec(
            SessionView {
                bps: s.bps,
                alive: true,
                phase: s.phase,
                pending: order,
                patched: Map::empty(),
                disarmed: Set::empty(),
            },
            0,
        ),
        (Phase::Spawning, _) => (with_phase(s, Phase::Reporting), Action::Print(Message::SpawnFailed)),
        (Phase::Installing(i), Event::Byte(orig)) => install_spec(
            armed(s, s.pending[i as int], orig, s.phase),
            (i + 1) as nat,
        ),
        (Phase::Installing(i), _) => (
            with_phase(s, Phase::InstallFailed),
            Action::Print(Message::InstallFailed(s.pending[i as int])),
        ),
        (Phase::InstallFailed, _) => resume_spec(s),
        (Phase::Resuming, Event::Registers { rip, rbp }) => if s.bps.contains_key(
            (rip - 1) as usize,
        ) {
            let bp = (rip - 1) as usize;
            (
                with_phase(s, Phase::Restoring { bp }),
                Action::WriteByte { addr: bp, val: s.bps[bp] },
            )
        } else {
            (with_phase(s, Phase::Continuing), Action::Cont)
        },
        (Phase::Restoring { bp }, _) => (
            wrote(s, bp, s.bps[bp], Phase::Rewinding { bp }),
            Action::SetRip(bp),
        ),
        (Phase::Rewinding { bp }, _) => (
            with_phase(s, Phase::Stepping { bp }),
            Action::Step,
        ),
        (Phase::Stepping { bp }, _) => (
            with_phase(s, Phase::StepWaiting { bp }),
            Action::Wait,
        ),
        (Phase::StepWaiting { bp }, Event::Waited(st)) => match st {
            Status::Stopped(sig, rip) => if sig == SIGTRAP {
                (
                    with_phase(s, Phase::AtBreakpoint { bp }),
                    Action::Print(Message::StoppedAtBreakpoint),
                )
            } else {
                report_spec(disarm(s, bp), Status::Stopped(sig, rip))
            },
            _ => report_spec(s, st),
        },
        (Phase::AtBreakpoint { bp }, _) => (
            with_phase(s, Phase::Rearming { bp }),
            Action::WriteByte { addr: bp, val: TRAP_BYTE },
        ),
        (Phase::Rearming { bp }, _) => (
            armed(s, bp, s.bps[bp], Phase::Continuing),
            Action::Cont,
        ),
        (Phase::Continuing, _) => (with_phase(s, Phase::Waiting), Action::Wait),
        (Phase::Waiting, Event::Waited(st)) => report_spec(s, st),
        (Phase::Reporting, _) => (with_phase(s, Phase::Idle), Action::ReadCommand),
        (Phase::Tracing, Event::Registers { rip, rbp }) => (
            with_phase(s, Phase::Describing { rbp }),
            Action::DescribeFrame(rip),
        ),
        (Phase::Describing { rbp }, Event::Frame { is_main }) => if is_main {
            (with_phase(s, Phase::Idle), Action::ReadCommand)
        } else {
            (
                with_phase(s, Phase::ReadingReturn { rbp }),
                Action::ReadWord((rbp + 8) as usize),
            )
        },
        (Phase::ReadingReturn { rbp }, Event::Word(w)) => (
            with_phase(s, Phase::ReadingFrame { rip: w }),
            Action::ReadWord(rbp),
        ),
        (Phase::ReadingFrame { rip }, Event::Word(w)) => (
            with_phase(s, Phase::Describing { rbp: w }),
            Action::DescribeFrame(rip),
        ),
        (Phase::LookingUpLine, Event::Address(found)) => match found {
            Some(a) => place_spec(s, a),
            None => (with_phase(s, Phase::Leaving), Action::Print(Message::InvalidLine)),
        },
        (Phase::LookingUpFunction, Event::Address(found)) => match found {
            Some(a) => place_spec(s, a),
            None => (with_phase(s, Phase::Finished), Action::Exit),
        },
        (Phase::Placing(addr), Event::Byte(orig)) => {
            let bps = s.bps.insert(addr, orig);
            (
                armed(s, addr, orig, Phase::Reporting),
                Action::Print(Message::BreakpointSet { number: (bps.len() - 1) as usize, addr }),
            )
        },
        (Phase::Placing(_), _) => (with_phase(s, Phase::Leaving), Action::Print(Message::WriteFailed)),
        (Phase::Leaving, _) => (with_phase(s, Phase::Finished), Action::Exit),
        _ => (s, Action::Exit),
    }
}

/// The breakpoint whose original byte is put back while the inferior steps over it.
pub open spec fn stepping_over(phase: Phase) -> Option<usize> {
    match phase {
        Phase::Rewinding { bp, .. } => Some(bp),
        Phase::Stepping { bp, .. } => Some(bp),
        Phase::StepWaiting { bp, .. } => Some(bp),
        Phase::AtBreakpoint { bp } => Some(bp),
        Phase::Rearming { bp } => Some(bp),
        _ => None,
    }
}

/// The session's invariant.
pub open spec fn session_inv(s: SessionView) -> bool {
    &&& s.bps.dom().finite()
    &&& s.patched.dom().subset_of(s.bps.dom())
    &&& !s.alive ==> s.patched =~= Map::<usize, u8>::empty()
    &&& forall|a: usize| #[trigger]
        s.patched.contains_key(a) ==> s.patched[a] == TRAP_BYTE || (s.patched[a] == s.bps[a] && (
        s.disarmed.contains(a) || stepping_over(s.phase) == Some(a)))
    &&& stepping_over(s.phase) matches Some(bp) ==> s.patched[bp] == s.bps[bp]
    &&& stepping_over(s.phase) matches Some(bp) ==> s.bps.contains_key(bp)
        && s.patched.contains_key(bp)
    &&& match s.phase {
        Phase::Installing(i) => i < s.pending.len() && s.alive && forall|j: int|
            0 <= j < s.pending.len() ==> s.bps.contains_key(#[trigger] s.pending[j]),
        Phase::Restoring { bp, .. } => s.bps.contains_key(bp) && s.alive,
        Phase::Resuming | Phase::Continuing | Phase::Waiting | Phase::Tracing
        | Phase::Describing { .. } | Phase::ReadingReturn { .. } | Phase::ReadingFrame {
            ..
        } | Phase::Placing(_) | Phase::InstallFailed | Phase::KillThenRun(_)
        | Phase::KillThenQuit => s.alive,
        Phase::Rewinding { .. } | Phase::Stepping { .. } | Phase::StepWaiting { .. }
        | Phase::AtBreakpoint { .. } | Phase::Rearming { .. } => s.alive,
        _ => true,
    }
}


impl Session {
    /// A session with no breakpoint and no inferior, about to read its first command.
    pub fn new() -> (res: (Session, Action))
        ensures
            res.0@ == (SessionView {
                bps: Map::empty(),
                alive: false,
                phase: Phase::Idle,
                pending: Seq::empty(),
                patched: Map::empty(),
                disarmed: Set::empty(),
            }),
            res.1 == Action::ReadCommand,
            session_inv(res.0@),
    {
        let s = Session {
            table: BreakpointTable::new(),
            alive: false,
            phase: Phase::Idle,
            pending: Vec::new(),
            patched: Ghost(Map::empty()),
            disarmed: Ghost(Set::empty()),
        };
        assert(s.pending@ =~= Seq::<usize>::empty());
        (s, Action::ReadCommand)
    }

    /// Whether an inferior is running under the debugger.
    pub fn is_alive(&self) -> (b: bool)
        ensures
            b == self@.alive,
    {
        self.alive
    }

    /// Number of breakpoints recorded.
    pub fn breakpoint_count(&self) -> (n: usize)
        ensures
            n == self@.bps.len(),
    {
        self.table.len()
    }

    /// The byte recorded for the breakpoint at `addr`, if there is one.
    pub fn breakpoint_at(&self, addr: usize) -> (res: Option<u8>)
        ensures
            res == (if self@.bps.contains_key(addr) {
                Some(self@.bps[addr])
            } else {
                None
            }),
    {
        self.table.get(addr)
    }

    /// Whether the session has left the command loop.
    pub fn is_finished(&self) -> (b: bool)
        ensures
            b == self@.phase is Finished,
    {
        match self.phase {
            Phase::Finished => true,
            _ => false,
        }
    }

    /// Whether `event` is one on which the session carries on (see `expects`);
    /// on any other outcome of its action the debugger aborts.
    pub fn accepts(&self, event: &Event) -> (b: bool)
        ensures
            b == expects(self@, *event),
    {
        match self.phase {
            Phase::Idle => match event {
                Event::Command(cmd) => match cmd {
                    DebuggerCommand::Backtrace => self.alive,
                    _ => true,
                },
                _ => false,
            },
            Phase::Spawning => matches!(event, Event::Done) || matches!(event, Event::Failed),
            Phase::Installing(_) => matches!(event, Event::Byte(_)) || matches!(event, Event::Failed),
            Phase::Placing(_) => matches!(event, Event::Byte(_)) || matches!(event, Event::Failed),
            Phase::Resuming => match event {
                Event::Registers { rip, rbp: _ } => *rip >= 1,
                _ => false,
            },
            Phase::Tracing => matches!(event, Event::Registers { .. }),
            Phase::Restoring { .. } => matches!(event, Event::Byte(_)),
            Phase::Rearming { .. } => matches!(event, Event::Byte(_)),
            Phase::StepWaiting { .. } => matches!(event, Event::Waited(_)),
            Phase::Waiting => matches!(event, Event::Waited(_)),
            Phase::LookingUpLine => matches!(event, Event::Address(_)),
            Phase::LookingUpFunction => matches!(event, Event::Address(_)),
            Phase::Describing { rbp } => match event {
                Event::Frame { is_main } => *is_main || rbp <= usize::MAX - 8,
                _ => false,
            },
            Phase::ReadingReturn { .. } => matches!(event, Event::Word(_)),
            Phase::ReadingFrame { .. } => matches!(event, Event::Word(_)),
            Phase::Finished => false,
            _ => matches!(event, Event::Done),
        }
    }

    fn resume(&mut self) -> (action: Action)
        ensures
            (final(self)@, action) == resume_spec(old(self)@),
    {
        self.phase = Phase::Resuming;
        Action::GetRegisters
    }

    fn install_from(&mut self, i: usize) -> (action: Action)
        ensures
            (final(self)@, action) == install_spec(old(self)@, i as nat),
    {
        if i < self.pending.len() {
            let addr = self.pending[i];
            self.phase = Phase::Installing(i);
            Action::WriteByte { addr, val: TRAP_BYTE }
        } else {
            self.resume()
        }
    }

    fn place(&mut self, addr: usize) -> (action: Action)
        requires
            old(self)@.bps.dom().finite(),
        ensures
            (final(self)@, action) == place_spec(old(self)@, addr),
    {
        if self.alive {
            self.phase = Phase::Placing(addr);
            Action::WriteByte { addr, val: TRAP_BYTE }
        } else {
            self.table.insert(addr, 0);
            self.phase = Phase::Reporting;
            let n = self.table.len();
            assert(self.table@.dom().contains(addr));
            assert(n >= 1);
            Action::Print(Message::BreakpointSet { number: n - 1, addr })
        }
    }

    fn report(&mut self, st: Status) -> (action: Action)
        ensures
            (final(self)@, action) == report_spec(old(self)@, st),
    {
        match st {
            Status::Exited(code) => {
                self.alive = false;
                self.patched = Ghost(Map::empty());
                self.disarmed = Ghost(Set::empty());
                self.phase = Phase::Reporting;
                Action::Print(Message::ChildExited(code))
            },
            Status::Signaled(sig) => {
                self.alive = false;
                self.patched = Ghost(Map::empty());
                self.disarmed = Ghost(Set::empty());
                self.phase = Phase::Reporting;
                Action::Print(Message::ChildSignaled(sig))
            },
            Status::Stopped(sig, rip) => {
                self.phase = Phase::Reporting;
                Action::ReportStop { signal: sig, rip }
            },
        }
    }

    fn on_command(&mut self, cmd: DebuggerCommand) -> (action: Action)
        requires
            old(self)@.bps.dom().finite(),
        ensures
            (final(self)@, action) == command_spec(old(self)@, cmd),
    {
        match cmd {
            DebuggerCommand::Run(args) => {
                if self.alive {
                    self.phase = Phase::KillThenRun(args);
                    Action::Kill
                } else {
                    self.phase = Phase::Spawning;
                    Action::Spawn(args)
                }
            },
            DebuggerCommand::Quit => {
                if self.alive {
                    self.phase = Phase::KillThenQuit;
                    Action::Kill
                } else {
                    self.phase = Phase::Finished;
                    Action::Exit
                }
            },
            DebuggerCommand::Continue => {
                if self.alive {
                    self.resume()
                } else {
                    self.phase = Phase::Reporting;
                    Action::Print(Message::NoInferior)
                }
            },
            DebuggerCommand::Backtrace => {
                self.phase = Phase::Tracing;
                Action::GetRegisters
            },
            DebuggerCommand::Breakpoint(loc) => {
                match parse_breakpoint_target(loc.as_str()) {
                    BreakpointTarget::Address(a) => self.place(a),
                    BreakpointTarget::InvalidAddress => {
                        self.phase = Phase::Leaving;
                        Action::Print(Message::InvalidAddress)
                    },
                    BreakpointTarget::Line(line) => {
                        self.phase = Phase::LookingUpLine;
                        Action::LookupLine(line)
                    },
                    BreakpointTarget::Function => {
                        self.phase = Phase::LookingUpFunction;
                        Action::LookupFunction(loc)
                    },
                }
            },
        }
    }

    /// Takes the outcome of the last action and returns the next action.
    pub fn step(&mut self, event: Event) -> (action: Action)
        requires
            session_inv(old(self)@),
            expects(old(self)@, event),
        ensures
            session_inv(final(self)@),
            old(self)@.phase is Spawning && event is Done ==> is_key_order(
                final(self)@.pending,
                old(self)@.bps,
            ),
            (final(self)@, action) == step_spec(old(self)@, event, final(self)@.pending),
    {
        let ghost s0 = self@;
        let mut phase = Phase::Finished;
        std::mem::swap(&mut phase, &mut self.phase);
        let action = match phase {
            Phase::Idle => match event {
                Event::Command(cmd) => self.on_command(cmd),
                _ => Action::Exit,
            },
            Phase::KillThenRun(args) => {
                self.alive = false;
                self.patched = Ghost(Map::empty());
                self.disarmed = Ghost(Set::empty());
                self.phase = Phase::Spawning;
                Action::Spawn(args)
            },
            Phase::KillThenQuit => {
                self.alive = false;
                self.patched = Ghost(Map::empty());
                self.disarmed = Ghost(Set::empty());
                self.phase = Phase::Finished;
                Action::Exit
            },
            Phase::Spawning => match event {
                Event::Done => {
                    self.alive = true;
                    self.patched = Ghost(Map::empty());
                    self.disarmed = Ghost(Set::empty());
                    self.pending = self.table.addresses();
                    self.install_from(0)
                },
                _ => {
                    self.phase = Phase::Reporting;
                    Action::Print(Message::SpawnFailed)
                },
            },
            Phase::Installing(i) => match event {
                Event::Byte(orig) => {
                    let len = self.pending.len();
                    assert(i < len);
                    let addr = self.pending[i];
                    self.table.insert(addr, orig);
                    self.patched = Ghost(self.patched@.insert(addr, TRAP_BYTE));
                    self.disarmed = Ghost(self.disarmed@.remove(addr));
                    self.install_from(i + 1)
                },
                _ => {
                    let addr = self.pending[i];
                    self.phase = Phase::InstallFailed;
                    Action::Print(Message::InstallFailed(addr))
                },
            },
            Phase::InstallFailed => self.resume(),
            Phase::Resuming => match event {
                Event::Registers { rip, rbp } => {
                    let bp = rip - 1;
                    match self.table.get(bp) {
                        Some(orig) => {
                            self.phase = Phase::Restoring { bp };
                            Action::WriteByte { addr: bp, val: orig }
                        },
                        None => {
                            self.phase = Phase::Continuing;
                            Action::Cont
                        },
                    }
                },
                _ => Action::Exit,
            },
            Phase::Restoring { bp } => {
                self.patched = Ghost(self.patched@.insert(bp, self.table@[bp]));
                self.phase = Phase::Rewinding { bp };
                Action::SetRip(bp)
            },
            Phase::Rewinding { bp } => {
                self.phase = Phase::Stepping { bp };
                Action::Step
            },
            Phase::Stepping { bp } => {
                self.phase = Phase::StepWaiting { bp };
                Action::Wait
            },
            Phase::StepWaiting { bp } => match event {
                Event::Waited(st) => match st {
                    Status::Stopped(sig, rip) => {
                        if sig == SIGTRAP {
                            self.phase = Phase::AtBreakpoint { bp };
                            Action::Print(Message::StoppedAtBreakpoint)
                        } else {
                            self.disarmed = Ghost(self.disarmed@.insert(bp));
                            self.report(Status::Stopped(sig, rip))
                        }
                    },
                    _ => self.report(st),
                },
                _ => Action::Exit,
            },
            Phase::AtBreakpoint { bp } => {
                self.phase = Phase::Rearming { bp };
                Action::WriteByte { addr: bp, val: TRAP_BYTE }
            },
            Phase::Rearming { bp } => {
                assert(self.table@.insert(bp, self.table@[bp]) =~= self.table@);
                self.patched = Ghost(self.patched@.insert(bp, TRAP_BYTE));
                self.disarmed = Ghost(self.disarmed@.remove(bp));
                self.phase = Phase::Continuing;
                Action::Cont
            },
            Phase::Continuing => {
                self.phase = Phase::Waiting;
                Action::Wait
            },
            Phase::Waiting => match event {
                Event::Waited(st) => self.report(st),
                _ => Action::Exit,
            },
            Phase::Reporting => {
                self.phase = Phase::Idle;
                Action::ReadCommand
            },
            Phase::Tracing => match event {
                Event::Registers { rip, rbp } => {
                    self.phase = Phase::Describing { rbp };
                    Action::DescribeFrame(rip)
                },
                _ => Action::Exit,
            },
            Phase::Describing { rbp } => match event {
                Event::Frame { is_main } => {
                    if is_main {
                        self.phase = Phase::Idle;
                        Action::ReadCommand
                    } else {
                        self.phase = Phase::ReadingReturn { rbp };
                        Action::ReadWord(rbp + 8)
                    }
                },
                _ => Action::Exit,
            },
            Phase::ReadingReturn { rbp } => match event {
                Event::Word(w) => {
                    self.phase = Phase::ReadingFrame { rip: w };
                    Action::ReadWord(rbp)
                },
                _ => Action::Exit,
            },
            Phase::ReadingFrame { rip } => match event {
                Event::Word(w) => {
                    self.phase = Phase::Describing { rbp: w };
                    Action::DescribeFrame(rip)
                },
                _ => Action::Exit,
            },
            Phase::LookingUpLine => match event {
                Event::Address(found) => match found {
                    Some(a) => self.place(a),
                    None => {
                        self.phase = Phase::Leaving;
                        Action::Print(Message::InvalidLine)
                    },
                },
                _ => Action::Exit,
            },
            Phase::LookingUpFunction => match event {
                Event::Address(found) => match found {
                    Some(a) => self.place(a),
                    None => {
                        self.phase = Phase::Finished;
                        Action::Exit
                    },
                },
                _ => Action::Exit,
            },
            Phase::Placing(addr) => match event {
                Event::Byte(orig) => {
                    self.table.insert(addr, orig);
                    self.patched = Ghost(self.patched@.insert(addr, TRAP_BYTE));
                    self.disarmed = Ghost(self.disarmed@.remove(addr));
                    self.phase = Phase::Reporting;
                    let n = self.table.len();
                    assert(self.table@.dom().contains(addr));
                    Action::Print(Message::BreakpointSet { number: n - 1, addr })
                },
                _ => {
                    self.phase = Phase::Leaving;
                    Action::Print(Message::WriteFailed)
                },
            },
            Phase::Leaving => {
                self.phase = Phase::Finished;
                Action::Exit
            },
            Phase::Finished => Action::Exit,
        };
        proof {
            lemma_step_keeps_invariant(s0, event, self@.pending);
        }
        action
    }
}

/// The session's invariant holds in every state that the command loop
/// reaches: every step from a state where it holds, on an expected event,
/// leads to a state where it holds.
pub proof fn lemma_step_keeps_invariant(s: SessionView, e: Event, order: Seq<usize>)
    requires
        session_inv(s),
        expects(s, e),
        s.phase is Spawning && e is Done ==> is_key_order(order, s.bps),
    ensures
        session_inv(step_spec(s, e, order).0),
{
}


/// Breakpoints are never forgotten: every step keeps every recorded address.
pub proof fn lemma_breakpoints_persist(s: SessionView, e: Event, order: Seq<usize>)
    requires
        session_inv(s),
        expects(s, e),
    ensures
        s.bps.dom().subset_of(step_spec(s, e, order).0.bps.dom()),
{
}

/// Breakpoints are numbered from 0 in the order in which new addresses are
/// added: the number announced is the table size less one, and the
/// announced address is in the table.
pub proof fn lemma_breakpoint_number(s: SessionView, e: Event, order: Seq<usize>)
    requires
        session_inv(s),
        expects(s, e),
        step_spec(s, e, order).0.bps.len() <= usize::MAX,
    ensures
        step_spec(s, e, order).1 matches Action::Print(Message::BreakpointSet { number, addr })
            ==> {
            let t = step_spec(s, e, order).0;
            &&& t.bps.contains_key(addr)
            &&& number + 1 == t.bps.len()
        },
{
    let t = step_spec(s, e, order).0;
    match step_spec(s, e, order).1 {
        Action::Print(Message::BreakpointSet { number, addr }) => {
            assert(t.bps.contains_key(addr));
            assert(t.bps.len() >= 1) by {
                vstd::set_lib::lemma_set_empty_equivalency_len(t.bps.dom());
            }
        },
        _ => {},
    }
}

/// When the inferior single-steps over a breakpoint, the original byte is
/// back at the breakpoint's address.
pub proof fn lemma_step_runs_original_byte(s: SessionView, e: Event, order: Seq<usize>)
    requires
        session_inv(s),
        expects(s, e),
        step_spec(s, e, order).1 is Step,
    ensures
        ({
            let t = step_spec(s, e, order).0;
            &&& t.phase matches Phase::Stepping { bp, .. }
            &&& t.patched.contains_key(bp)
            &&& t.patched[bp] == t.bps[bp]
        }),
{
    lemma_step_keeps_invariant(s, e, order);
}

/// Whenever the debugger lets the inferior run, every address it wrote holds
/// the trap again, except the breakpoints left disarmed by a step over them
/// that stopped on another signal.
pub proof fn lemma_runs_with_traps_armed(s: SessionView, e: Event, order: Seq<usize>)
    requires
        session_inv(s),
        expects(s, e),
        s.phase is Spawning && e is Done ==> is_key_order(order, s.bps),
        step_spec(s, e, order).1 is Cont,
    ensures
        ({
            let t = step_spec(s, e, order).0;
            forall|a: usize|
                #[trigger] t.patched.contains_key(a) && !t.disarmed.contains(a) ==> t.patched[a]
                    == TRAP_BYTE
        }),
{
    lemma_step_keeps_invariant(s, e, order);
}

/// A breakpoint is left disarmed only when a step over it stops on a signal
/// other than `SIGTRAP`; a fresh inferior has none disarmed, and writing the
/// trap again at an address arms it.
pub proof fn lemma_disarmed_only_by_interrupted_step(s: SessionView, e: Event, order: Seq<usize>)
    requires
        session_inv(s),
        expects(s, e),
    ensures
        ({
            let t = step_spec(s, e, order).0;
            match (s.phase, e) {
                (Phase::StepWaiting { bp, .. }, Event::Waited(Status::Stopped(sig, _))) => if sig
                    != SIGTRAP {
                    t.disarmed == s.disarmed.insert(bp)
                } else {
                    t.disarmed == s.disarmed
                },
                _ => t.disarmed.subset_of(s.disarmed),
            }
        }),
{
}

/// After a step over a breakpoint ends with a trap, the trap byte is written
/// back at the breakpoint before the inferior runs on.
pub proof fn lemma_rearm_before_continue(s: SessionView, e: Event, order: Seq<usize>)
    requires
        session_inv(s),
        expects(s, e),
        s.phase is Rearming,
    ensures
        step_spec(s, e, order).1 is Cont,
        step_spec(s, e, order).0.patched[s.phase->Rearming_bp] == TRAP_BYTE,
        step_spec(s, e, order).0.phase is Continuing,
{
}

/// A resume that finds the inferior just past a breakpoint first puts the
/// original byte back; one that does not lets the inferior run at once.
pub proof fn lemma_resume_checks_breakpoint(s: SessionView, rip: usize, rbp: usize, order: Seq<usize>)
    requires
        session_inv(s),
        s.phase is Resuming,
        rip >= 1,
    ensures
        ({
            let (t, a) = step_spec(s, Event::Registers { rip, rbp }, order);
            if s.bps.contains_key((rip - 1) as usize) {
                a == Action::WriteByte { addr: (rip - 1) as usize, val: s.bps[(rip - 1) as usize] }
            } else {
                a == Action::Cont
            }
        }),
{
}

/// Arming a fresh inferior records, for each address, the byte that the
/// trap replaced, and marks the address as holding the trap.
pub proof fn lemma_install_records_original(s: SessionView, orig: u8, order: Seq<usize>)
    requires
        session_inv(s),
        s.phase is Installing,
    ensures
        ({
            let t = step_spec(s, Event::Byte(orig), order).0;
            let addr = s.pending[s.phase->Installing_0 as int];
            &&& t.bps[addr] == orig
            &&& t.patched[addr] == TRAP_BYTE
        }),
{
    match s.phase {
        Phase::Installing(i) => {
            assert(i < s.pending.len());
        },
        _ => {},
    }
}

/// A run starts a fresh inferior in which nothing has been written yet, and
/// arms the breakpoints in the table's order, all of them once each.
pub proof fn lemma_run_arms_every_breakpoint(s: SessionView, order: Seq<usize>)
    requires
        session_inv(s),
        s.phase is Spawning,
        is_key_order(order, s.bps),
    ensures
        ({
            let (t, a) = step_spec(s, Event::Done, order);
            &&& t.alive
            &&& t.pending == order
            &&& t.patched.dom().subset_of(Set::empty())
            &&& if order.len() > 0 {
                a == Action::WriteByte { addr: order[0], val: TRAP_BYTE }
            } else {
                a == Action::GetRegisters
            }
        }),
{
}

/// At the prompt the debugger carries on after every command except a
/// backtrace with no inferior: in particular `continue` with no inferior is
/// answered with a message and the next prompt, and every command with a
/// live inferior is carried out.
pub proof fn lemma_prompt_accepts_commands(s: SessionView, cmd: DebuggerCommand, order: Seq<usize>)
    requires
        s.phase is Idle,
    ensures
        !(cmd is Backtrace) ==> expects(s, Event::Command(cmd)),
        s.alive ==> expects(s, Event::Command(cmd)),
        cmd is Continue && !s.alive ==> step_spec(s, Event::Command(cmd), order).1
            == Action::Print(Message::NoInferior) && step_spec(
            step_spec(s, Event::Command(cmd), order).0,
            Event::Done,
            order,
        ).1 is ReadCommand,
{
}

/// Arming goes through the whole table: once the trap is written at one
/// pending address, the next action writes it at the next pending address,
/// and the resume starts only after the last one.
pub proof fn lemma_install_arms_next(s: SessionView, orig: u8, order: Seq<usize>)
    requires
        session_inv(s),
        s.phase is Installing,
    ensures
        ({
            let i = s.phase->Installing_0 as int;
            let a = step_spec(s, Event::Byte(orig), order).1;
            if i + 1 < s.pending.len() {
                a == Action::WriteByte { addr: s.pending[i + 1], val: TRAP_BYTE }
            } else {
                a == Action::GetRegisters
            }
        }),
{
}

/// The events of a run whose spawn succeeds and whose trap writes all
/// succeed, replacing the bytes `origs` in turn.
pub open spec fn install_events(origs: Seq<u8>) -> Seq<Event> {
    seq![Event::Done] + origs.map_values(|b: u8| Event::Byte(b))
}

/// The same order of addresses for each of `n` steps.
pub open spec fn repeat_order(order: Seq<usize>, n: nat) -> Seq<Seq<usize>> {
    Seq::new(n, |k: int| order)
}

proof fn lemma_install_prefix(s: SessionView, order: Seq<usize>, origs: Seq<u8>, i: nat)
    requires
        s.phase is Spawning,
        is_key_order(order, s.bps),
        origs.len() == order.len(),
        order.len() <= usize::MAX,
        i <= order.len(),
    ensures
        ({
            let t = trace(s, install_events(origs.take(i as int)), repeat_order(order, i + 1));
            &&& t.pending == order
            &&& t.alive
            &&& t.bps.dom() == s.bps.dom()
            &&& i < order.len() ==> t.phase == Phase::Installing(i as usize)
            &&& i == order.len() ==> t.phase is Resuming
            &&& forall|j: int|
                0 <= j < i ==> t.patched.contains_key(#[trigger] order[j]) && t.patched[order[j]]
                    == TRAP_BYTE && t.bps[order[j]] == origs[j]
        }),
    decreases i,
{
    let es = install_events(origs.take(i as int));
    let os = repeat_order(order, i + 1);
    if i == 0 {
        assert(es.drop_last() =~= Seq::<Event>::empty());
        assert(es.last() == Event::Done);
        assert(os.drop_last() =~= Seq::<Seq<usize>>::empty());
        assert(os.last() == order);
        assert(trace(s, es.drop_last(), os.drop_last()) == s);
        assert(trace(s, es, os) == step_spec(s, Event::Done, order).0);
    } else {
        let k = (i - 1) as nat;
        lemma_install_prefix(s, order, origs, k);
        assert(es.drop_last() =~= install_events(origs.take(k as int)));
        assert(es.last() == Event::Byte(origs[k as int]));
        assert(os.drop_last() =~= repeat_order(order, k + 1));
        assert(os.last() == order);
        let p = trace(s, install_events(origs.take(k as int)), repeat_order(order, k + 1));
        assert(order.to_set().contains(order[k as int]));
        let t = trace(s, es, os);
        assert(t == step_spec(p, Event::Byte(origs[k as int]), order).0);
        assert(p.phase == Phase::Installing(k as usize));
        assert(p.pending[k as int] == order[k as int]);
        let w = armed(p, order[k as int], origs[k as int], p.phase);
        assert(step_spec(p, Event::Byte(origs[k as int]), order) == install_spec(w, (k + 1) as nat));
        assert(install_spec(w, (k + 1) as nat).0.bps == w.bps);
        assert(t.bps == p.bps.insert(order[k as int], origs[k as int]));
        assert(t.patched == p.patched.insert(order[k as int], TRAP_BYTE));
        assert(t.bps.dom() =~= s.bps.dom());
        assert forall|j: int| 0 <= j < i implies t.patched.contains_key(#[trigger] order[j])
            && t.patched[order[j]] == TRAP_BYTE && t.bps[order[j]] == origs[j] by {
            if j < k {
                assert(order[j] != order[k as int]);
            }
        }
    }
}

/// A run arms every breakpoint of the table in the new inferior before it
/// resumes: when all trap writes succeed, the resume starts with the trap
/// written at every recorded address, and the table records for each address
/// the byte that its trap replaced.
pub proof fn lemma_run_arms_whole_table(s: SessionView, order: Seq<usize>, origs: Seq<u8>)
    requires
        s.phase is Spawning,
        is_key_order(order, s.bps),
        origs.len() == order.len(),
        order.len() <= usize::MAX,
    ensures
        ({
            let t = trace(s, install_events(origs), repeat_order(order, origs.len() + 1));
            &&& t.phase is Resuming
            &&& t.alive
            &&& t.bps.dom() == s.bps.dom()
            &&& forall|a: usize|
                #[trigger] s.bps.contains_key(a) ==> t.patched.contains_key(a) && t.patched[a]
                    == TRAP_BYTE
            &&& forall|j: int| 0 <= j < order.len() ==> t.bps[#[trigger] order[j]] == origs[j]
        }),
{
    lemma_install_prefix(s, order, origs, order.len());
    assert(origs.take(order.len() as int) =~= origs);
    let t = trace(s, install_events(origs), repeat_order(order, origs.len() + 1));
    assert forall|a: usize| #[trigger] s.bps.contains_key(a) implies t.patched.contains_key(a)
        && t.patched[a] == TRAP_BYTE by {
        assert(order.to_set().contains(a));
        let j = choose|j: int| 0 <= j < order.len() && order[j] == a;
        assert(order[j] == a);
    }
}

/// When the inferior exits or is killed by a signal, the debugger forgets it.
pub proof fn lemma_exit_ends_inferior(s: SessionView, st: Status, order: Seq<usize>)
    requires
        session_inv(s),
        s.phase is Waiting || s.phase is StepWaiting,
        st is Exited || st is Signaled,
    ensures
        !step_spec(s, Event::Waited(st), order).0.alive,
        step_spec(s, Event::Waited(st), order).0.patched =~= Map::<usize, u8>::empty(),
{
}

/// A backtrace follows the chain of frame pointers: from a frame whose
/// function is not `main`, it reads the return address at `rbp + 8` and the
/// caller's frame pointer at `rbp`, then describes the return address.
pub proof fn lemma_backtrace_walks_frames(
    s: SessionView,
    rbp: usize,
    ret: usize,
    caller_rbp: usize,
    order: Seq<usize>,
)
    requires
        session_inv(s),
        s.phase == (Phase::Describing { rbp }),
        rbp <= usize::MAX - 8,
    ensures
        ({
            let (t1, a1) = step_spec(s, Event::Frame { is_main: false }, order);
            let (t2, a2) = step_spec(t1, Event::Word(ret), order);
            let (t3, a3) = step_spec(t2, Event::Word(caller_rbp), order);
            &&& a1 == Action::ReadWord((rbp + 8) as usize)
            &&& a2 == Action::ReadWord(rbp)
            &&& a3 == Action::DescribeFrame(ret)
            &&& t3.phase == (Phase::Describing { rbp: caller_rbp })
            &&& t3.bps == s.bps
            &&& t3.patched == s.patched
        }),
        step_spec(s, Event::Frame { is_main: true }, order).1 is ReadCommand,
{
}

/// Running again kills the inferior that is still alive before starting the new one.
pub proof fn lemma_run_kills_old_inferior(s: SessionView, args: Vec<String>, order: Seq<usize>)
    requires
        session_inv(s),
        s.phase is Idle,
        s.alive,
    ensures
        ({
            let (t1, a1) = step_spec(s, Event::Command(DebuggerCommand::Run(args)), order);
            let (t2, a2) = step_spec(t1, Event::Done, order);
            &&& a1 is Kill
            &&& a2 == Action::Spawn(args)
            &&& !t2.alive
            &&& t2.patched == Map::<usize, u8>::empty()
        }),
{
}

/// A stop that ends a resume is reported with the signal and the
/// instruction pointer that the wait returned, and keeps the inferior; this
/// holds also when the stop ends the single step over a breakpoint.
pub proof fn lemma_stop_reports_current_rip(
    s: SessionView,
    sig: i32,
    rip: usize,
    order: Seq<usize>,
)
    requires
        session_inv(s),
        s.phase is Waiting || (s.phase is StepWaiting && sig != SIGTRAP),
    ensures
        ({
            let (t, a) = step_spec(s, Event::Waited(Status::Stopped(sig, rip)), order);
            &&& a == Action::ReportStop { signal: sig, rip }
            &&& t.alive
            &&& t.phase is Reporting
        }),
{
}

/// Whether event `e` in state `s` starts an inferior (`Some(true)`), ends
/// one (`Some(false)`: a kill, an exit or a death by signal), or neither.
pub open spec fn lifecycle(s: SessionView, e: Event) -> Option<bool> {
    match (s.phase, e) {
        (Phase::Spawning, Event::Done) => Some(true),
        (Phase::KillThenRun(_), _) => Some(false),
        (Phase::KillThenQuit, _) => Some(false),
        (Phase::Waiting, Event::Waited(st)) => if st is Stopped {
            None
        } else {
            Some(false)
        },
        (Phase::StepWaiting { .. }, Event::Waited(st)) => if st is Stopped {
            None
        } else {
            Some(false)
        },
        _ => None,
    }
}

/// The state after the events `es`, the `i`-th step using `orders[i]` as
/// the table's order of addresses.
pub open spec fn trace(s: SessionView, es: Seq<Event>, orders: Seq<Seq<usize>>) -> SessionView
    decreases es.len(),
{
    if es.len() == 0 {
        s
    } else {
        step_spec(
            trace(s, es.drop_last(), orders.drop_last()),
            es.last(),
            orders.last(),
        ).0
    }
}

/// The last start or end of an inferior along the events `es`, if any.
pub open spec fn last_lifecycle(s: SessionView, es: Seq<Event>, orders: Seq<Seq<usize>>) -> Option<
    bool,
>
    decreases es.len(),
{
    if es.len() == 0 {
        None
    } else {
        match lifecycle(trace(s, es.drop_last(), orders.drop_last()), es.last()) {
            Some(b) => Some(b),
            None => last_lifecycle(s, es.drop_last(), orders.drop_last()),
        }
    }
}

/// One step changes whether the debugger holds an inferior exactly as
/// `lifecycle` says.
pub proof fn lemma_alive_step(s: SessionView, e: Event, order: Seq<usize>)
    ensures
        step_spec(s, e, order).0.alive == match lifecycle(s, e) {
            Some(b) => b,
            None => s.alive,
        },
{
}

/// Over any sequence of events, the debugger holds an inferior exactly when
/// the last lifecycle event was a start: a run that spawned a child, not
/// followed by a kill, an exit or a death by signal.  A resume that ends in
/// a stop keeps the inferior.
pub proof fn lemma_alive_follows_last_start(
    s: SessionView,
    es: Seq<Event>,
    orders: Seq<Seq<usize>>,
)
    requires
        orders.len() == es.len(),
    ensures
        trace(s, es, orders).alive == match last_lifecycle(s, es, orders) {
            Some(b) => b,
            None => s.alive,
        },
    decreases es.len(),
{
    if es.len() > 0 {
        lemma_alive_follows_last_start(s, es.drop_last(), orders.drop_last());
        lemma_alive_step(
            trace(s, es.drop_last(), orders.drop_last()),
            es.last(),
            orders.last(),
        );
    }
}

/// Quitting kills a live inferior before leaving; with none, it leaves at once.
pub proof fn lemma_quit_kills(s: SessionView, order: Seq<usize>)
    requires
        session_inv(s),
        s.phase is Idle,
    ensures
        ({
            let (t, a) = step_spec(s, Event::Command(DebuggerCommand::Quit), order);
            if s.alive {
                a is Kill && step_spec(t, Event::Done, order).1 is Exit && !step_spec(
                    t,
                    Event::Done,
                    order,
                ).0.alive
            } else {
                a is Exit && t.phase is Finished
            }
        }),
{
}

} // verus!
