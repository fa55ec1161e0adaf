//! Debugger commands and how a line typed at the prompt becomes one.

use vstd::prelude::*;
use crate::text::{chars_of, split_whitespace, split_whitespace_spec, trim, trim_spec, views};

verus! {

/// A command of the debugger.
#[derive(Debug)]
pub enum DebuggerCommand {
    /// Leave the debugger.
    Quit,
    /// Start the target with these arguments.
    Run(Vec<String>),
    /// Resume the stopped inferior.
    Continue,
    /// Print the call stack of the stopped inferior.
    Backtrace,
    /// Set a breakpoint at `*address`, a line number or a function name.
    Breakpoint(String),
}

/// A command, with its strings taken as character sequences.
pub enum CommandView {
    Quit,
    Run(Seq<Seq<char>>),
    Continue,
    Backtrace,
    Breakpoint(Seq<char>),
}

impl View for DebuggerCommand {
    type V = CommandView;

    open spec fn view(&self) -> CommandView {
        match self {
            DebuggerCommand::Quit => CommandView::Quit,
            DebuggerCommand::Run(args) => CommandView::Run(args@.map_values(|a: String| a@)),
            DebuggerCommand::Continue => CommandView::Continue,
            DebuggerCommand::Backtrace => CommandView::Backtrace,
            DebuggerCommand::Breakpoint(loc) => CommandView::Breakpoint(loc@),
        }
    }
}

/// The command that the words `tokens` name: the first word selects the
/// command (by full name or abbreviation), the rest are its arguments.
pub open spec fn command_spec(tokens: Seq<Seq<char>>) -> Option<CommandView> {
    if tokens.len() == 0 {
        None
    } else {
        let name = tokens[0];
        if name == "q"@ || name == "quit"@ {
            Some(CommandView::Quit)
        } else if name == "r"@ || name == "run"@ {
            Some(CommandView::Run(tokens.skip(1)))
        } else if name == "c"@ || name == "cont"@ || name == "continue"@ {
            Some(CommandView::Continue)
        } else if name == "bt"@ || name == "back"@ || name == "backtrace"@ {
            Some(CommandView::Backtrace)
        } else if (name == "b"@ || name == "break"@) && tokens.len() >= 2 {
            Some(CommandView::Breakpoint(tokens[1]))
        } else {
            None
        }
    }
}

/// Every command is recognised by its full name as well as by each of its
/// abbreviations: `q`/`quit`, `r`/`run` (the other words are the program's
/// arguments), `c`/`cont`/`continue`, `bt`/`back`/`backtrace`, and
/// `b`/`break` followed by a location.
pub proof fn lemma_command_names(tokens: Seq<Seq<char>>)
    requires
        tokens.len() > 0,
    ensures
        tokens[0] == "q"@ || tokens[0] == "quit"@ ==> command_spec(tokens) == Some(
            CommandView::Quit,
        ),
        tokens[0] == "r"@ || tokens[0] == "run"@ ==> command_spec(tokens) == Some(
            CommandView::Run(tokens.skip(1)),
        ),
        tokens[0] == "c"@ || tokens[0] == "cont"@ || tokens[0] == "continue"@ ==> command_spec(
            tokens,
        ) == Some(CommandView::Continue),
        tokens[0] == "bt"@ || tokens[0] == "back"@ || tokens[0] == "backtrace"@ ==> command_spec(
            tokens,
        ) == Some(CommandView::Backtrace),
        (tokens[0] == "b"@ || tokens[0] == "break"@) && tokens.len() >= 2 ==> command_spec(tokens)
            == Some(CommandView::Breakpoint(tokens[1])),
{
    reveal_strlit("q");
    reveal_strlit("quit");
    reveal_strlit("r");
    reveal_strlit("run");
    reveal_strlit("c");
    reveal_strlit("cont");
    reveal_strlit("continue");
    reveal_strlit("bt");
    reveal_strlit("back");
    reveal_strlit("backtrace");
    reveal_strlit("b");
    reveal_strlit("break");
    let n = tokens[0];
    if n == "quit"@ || n == "run"@ || n == "cont"@ || n == "continue"@ || n == "back"@ || n
        == "backtrace"@ || n == "bt"@ || n == "break"@ {
        assert(n != "q"@ && n != "r"@ && n != "c"@ && n != "b"@) by {
            assert(n.len() >= 2);
        }
    }
    if n == "continue"@ || n == "cont"@ {
        assert(n != "quit"@ && n != "run"@) by {
            assert(n[1] == 'o');
        }
    }
    if n == "back"@ || n == "backtrace"@ || n == "bt"@ {
        assert(n != "quit"@ && n != "run"@ && n != "cont"@ && n != "continue"@) by {
            assert(n[0] == 'b');
        }
    }
    if n == "break"@ {
        assert(n != "quit"@ && n != "run"@ && n != "cont"@ && n != "continue"@ && n != "bt"@
            && n != "back"@ && n != "backtrace"@) by {
            assert(n[0] == 'b' && n[1] == 'r');
        }
    }
    if n == "b"@ {
        assert(n != "q"@ && n != "r"@ && n != "c"@ && n != "quit"@ && n != "run"@ && n
            != "cont"@ && n != "continue"@ && n != "bt"@ && n != "back"@ && n != "backtrace"@) by {
            assert(n.len() == 1 && n[0] == 'b');
        }
    }
    if n == "c"@ {
        assert(n != "q"@ && n != "r"@ && n != "quit"@ && n != "run"@) by {
            assert(n.len() == 1 && n[0] == 'c');
        }
    }
    if n == "r"@ {
        assert(n != "q"@ && n != "quit"@) by {
            assert(n.len() == 1 && n[0] == 'r');
        }
    }
}

/// Whether two strings hold the same characters.
pub fn same_text(a: &str, b: &str) -> (eq: bool)
    ensures
        eq == (a@ == b@),
{
    let x = chars_of(a);
    let y = chars_of(b);
    if x.len() != y.len() {
        return false;
    }
    let mut i: usize = 0;
    while i < x.len()
        invariant
            x@ == a@,
            y@ == b@,
            x@.len() == y@.len(),
            i <= x@.len(),
            forall|j: int| 0 <= j < i ==> x@[j] == y@[j],
        decreases x@.len() - i,
    {
        if x[i] != y[i] {
            return false;
        }
        i = i + 1;
    }
    assert(a@ =~= b@);
    true
}

impl DebuggerCommand {
    /// Reads a command from the words of a line.
    pub fn from_tokens(tokens: &Vec<&str>) -> (cmd: Option<DebuggerCommand>)
        ensures
            match cmd {
                Some(c) => command_spec(views(tokens@)) == Some(c@),
                None => command_spec(views(tokens@)) is None,
            },
    {
        if tokens.len() == 0 {
            return None;
        }
        let name = tokens[0];
        assert(views(tokens@)[0] == name@);
        if same_text(name, "q") || same_text(name, "quit") {
            Some(DebuggerCommand::Quit)
        } else if same_text(name, "r") || same_text(name, "run") {
            let mut args: Vec<String> = Vec::new();
            let mut i: usize = 1;
            while i < tokens.len()
                invariant
                    1 <= i <= tokens@.len(),
                    args@.len() == i - 1,
                    args@.map_values(|a: String| a@) == views(tokens@).subrange(1, i as int),
                decreases tokens@.len() - i,
            {
                let a = String::from_str(tokens[i]);
                assert(views(tokens@)[i as int] == tokens@[i as int]@);
                let ghost before = args@;
                args.push(a);
                assert(args@.map_values(|a: String| a@)[i - 1] == a@);
                assert(args@.map_values(|a: String| a@).drop_last() =~= before.map_values(
                    |a: String| a@,
                ));
                assert(args@.map_values(|a: String| a@) =~= views(tokens@).subrange(
                    1,
                    i + 1,
                ));
                i = i + 1;
            }
            assert(views(tokens@).subrange(1, tokens@.len() as int) =~= views(tokens@).skip(1));
            Some(DebuggerCommand::Run(args))
        } else if same_text(name, "c") || same_text(name, "cont") || same_text(name, "continue") {
            Some(DebuggerCommand::Continue)
        } else if same_text(name, "bt") || same_text(name, "back") || same_text(name, "backtrace") {
            Some(DebuggerCommand::Backtrace)
        } else if (same_text(name, "b") || same_text(name, "break")) && tokens.len() >= 2 {
            assert(views(tokens@)[1] == tokens@[1]@);
            Some(DebuggerCommand::Breakpoint(String::from_str(tokens[1])))
        } else {
            None
        }
    }
}

/// What a line read at the prompt amounts to.
#[derive(Debug)]
pub enum LineOutcome {
    /// Nothing but whitespace: prompt again.
    Blank,
    /// A command to carry out.
    Command(DebuggerCommand),
    /// Words that name no command: report it and prompt again.
    Unrecognized,
}

/// Interprets a line typed at the prompt.
pub fn interpret_line(line: &str) -> (res: LineOutcome)
    ensures
        trim_spec(line@).len() == 0 <==> res is Blank,
        trim_spec(line@).len() > 0 ==> match res {
            LineOutcome::Command(c) => command_spec(split_whitespace_spec(line@)) == Some(c@),
            LineOutcome::Unrecognized => command_spec(split_whitespace_spec(line@)) is None,
            LineOutcome::Blank => false,
        },
{
    let t = trim(line);
    if t.unicode_len() == 0 {
        return LineOutcome::Blank;
    }
    let tokens = split_whitespace(line);
    match DebuggerCommand::from_tokens(&tokens) {
        Some(cmd) => LineOutcome::Command(cmd),
        None => LineOutcome::Unrecognized,
    }
}

} // verus!
