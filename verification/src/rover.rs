//! The checks and toolchains of the course's submission tool, by name, and
//! the shell lines that run them.

use vstd::prelude::*;
use crate::text::{str_eq, string_push};

verus! {

#[derive(Clone, Copy, Debug, PartialEq, Eq, Structural)]
pub enum Command {
    ForbidUnsafe,
    CargoFmt,
    CargoClippy,
    CargoTest,
    CargoCompileTestMiniFrunk,
    CargoCompileTestOrm,
    PythonTest,
    ForbidCollections,
}

#[derive(Clone, Copy, Debug, PartialEq, Eq, Structural)]
pub enum Toolchain {
    Empty,
    Stable,
    Nightly,
}

/// Why a name or a shell line could not be given.
#[derive(Debug, PartialEq, Eq)]
pub enum RoverError {
    /// No command has this name.
    CommandNotSupported(String),
    /// No toolchain has this name.
    ToolchainNotSupported(String),
    /// The command is run without a shell line.
    NoShellLine(Command),
    /// A source file does not start with the line that forbids unsafe code.
    MissingForbidUnsafe,
    /// A source file is empty.
    EmptyFile,
}

/// The first line every source file of a solution must have.
pub open spec fn forbid_unsafe_line() -> Seq<char> {
    "#![forbid(unsafe_code)]"@
}

/// The pieces of `s` between its spaces, empty ones included.
pub open spec fn split_spaces(s: Seq<char>) -> Seq<Seq<char>>
    decreases s.len(),
{
    if s.len() == 0 {
        seq![Seq::<char>::empty()]
    } else {
        let init = split_spaces(s.drop_last());
        let c = s.last();
        if c == ' ' {
            init.push(Seq::<char>::empty())
        } else {
            init.update(init.len() - 1, init.last().push(c))
        }
    }
}

proof fn lemma_split_spaces_len(s: Seq<char>)
    ensures
        split_spaces(s).len() >= 1,
    decreases s.len(),
{
    if s.len() > 0 {
        lemma_split_spaces_len(s.drop_last());
    }
}

/// The characters of each string.
pub open spec fn string_views(v: Seq<String>) -> Seq<Seq<char>> {
    v.map_values(|x: String| x@)
}

/// The pieces of `s` between its spaces, appended to `out`.
fn push_pieces(s: &str, out: &mut Vec<String>)
    ensures
        string_views(final(out)@) == string_views(old(out)@) + split_spaces(s@),
{
    let n = s.unicode_len();
    let mut cur = String::new();
    let ghost base = string_views(out@);
    let mut i: usize = 0;
    proof {
        assert(s@.take(0) =~= Seq::<char>::empty());
        assert(string_views(out@) + seq![cur@] =~= base + split_spaces(s@.take(0)));
    }
    while i < n
        invariant
            n == s@.len(),
            i <= n,
            string_views(out@) + seq![cur@] == base + split_spaces(s@.take(i as int)),
            string_views(out@).len() >= base.len(),
        decreases n - i,
    {
        let c = s.get_char(i);
        let ghost before = string_views(out@);
        let ghost cur0 = cur@;
        proof {
            assert(s@.take(i + 1).drop_last() =~= s@.take(i as int));
            assert(s@.take(i + 1).last() == c);
            lemma_split_spaces_len(s@.take(i as int));
        }
        if c == ' ' {
            let done = cur;
            out.push(done);
            cur = String::new();
            proof {
                assert(string_views(out@) =~= before.push(cur0));
                assert(string_views(out@) + seq![cur@] =~= (before + seq![cur0]).push(Seq::<char>::empty()));
                assert((base + split_spaces(s@.take(i as int))).push(Seq::<char>::empty()) =~= base + split_spaces(
                    s@.take(i as int),
                ).push(Seq::<char>::empty()));
            }
        } else {
            string_push(&mut cur, c);
            proof {
                let t = before + seq![cur0];
                assert(string_views(out@) + seq![cur@] =~= t.update(t.len() - 1, t.last().push(c)));
                let sp = split_spaces(s@.take(i as int));
                assert(t.last() == sp.last());
                assert((base + sp).update((base + sp).len() - 1, sp.last().push(c)) =~= base + sp.update(
                    sp.len() - 1,
                    sp.last().push(c),
                ));
            }
        }
        i += 1;
    }
    let ghost before = string_views(out@);
    let ghost cur0 = cur@;
    out.push(cur);
    proof {
        assert(s@.take(n as int) =~= s@);
        assert(string_views(out@) =~= before + seq![cur0]);
    }
}

/// Whether a source file whose first line is `first_line` (`None` for an
/// empty file) may be submitted.
pub fn check_forbid_unsafe(first_line: Option<&str>) -> (r: Result<(), RoverError>)
    ensures
        first_line is None ==> r == Err::<(), RoverError>(RoverError::EmptyFile),
        first_line matches Some(l) && l@ == forbid_unsafe_line() ==> r is Ok,
        first_line matches Some(l) && l@ != forbid_unsafe_line() ==> r == Err::<(), RoverError>(
            RoverError::MissingForbidUnsafe,
        ),
{
    match first_line {
        None => Err(RoverError::EmptyFile),
        Some(l) => {
            if str_eq(l, "#![forbid(unsafe_code)]") {
                Ok(())
            } else {
                Err(RoverError::MissingForbidUnsafe)
            }
        },
    }
}

/// The command with the given name, if any.
pub open spec fn command_named(name: Seq<char>) -> Option<Command> {
    if name == "forbid-unsafe"@ {
        Some(Command::ForbidUnsafe)
    } else if name == "cargo-fmt"@ {
        Some(Command::CargoFmt)
    } else if name == "cargo-clippy"@ {
        Some(Command::CargoClippy)
    } else if name == "cargo-test"@ {
        Some(Command::CargoTest)
    } else if name == "python-test"@ {
        Some(Command::PythonTest)
    } else if name == "forbid-collections"@ {
        Some(Command::ForbidCollections)
    } else if name == "cargo-compile-test-mini-frunk"@ {
        Some(Command::CargoCompileTestMiniFrunk)
    } else if name == "cargo-compile-test-orm"@ {
        Some(Command::CargoCompileTestOrm)
    } else {
        None
    }
}

/// The name of each command on the command line.
pub open spec fn command_name(c: Command) -> Seq<char> {
    match c {
        Command::ForbidUnsafe => "forbid-unsafe"@,
        Command::CargoFmt => "cargo-fmt"@,
        Command::CargoClippy => "cargo-clippy"@,
        Command::CargoTest => "cargo-test"@,
        Command::CargoCompileTestMiniFrunk => "cargo-compile-test-mini-frunk"@,
        Command::CargoCompileTestOrm => "cargo-compile-test-orm"@,
        Command::PythonTest => "python-test"@,
        Command::ForbidCollections => "forbid-collections"@,
    }
}

/// The name of each toolchain on the command line.
pub open spec fn toolchain_name(t: Toolchain) -> Seq<char> {
    match t {
        Toolchain::Empty => "empty"@,
        Toolchain::Stable => "stable"@,
        Toolchain::Nightly => "nightly"@,
    }
}

/// Looking a command up by its name gives that command, so distinct commands
/// have distinct names; a name that is no command's name gives none.
pub proof fn law_command_names()
    ensures
        forall|c: Command| #[trigger] command_named(command_name(c)) == Some(c),
        forall|s: Seq<char>|
            (forall|c: Command| s != #[trigger] command_name(c)) ==> #[trigger] command_named(s) is None,
{
    reveal_strlit("forbid-unsafe");
    reveal_strlit("cargo-fmt");
    reveal_strlit("cargo-clippy");
    reveal_strlit("cargo-test");
    reveal_strlit("python-test");
    reveal_strlit("forbid-collections");
    reveal_strlit("cargo-compile-test-mini-frunk");
    reveal_strlit("cargo-compile-test-orm");
    assert forall|c: Command| #[trigger] command_named(command_name(c)) == Some(c) by {
        match c {
            Command::ForbidUnsafe => {},
            Command::CargoFmt => {
                assert(command_name(c).len() != "forbid-unsafe"@.len());
            },
            Command::CargoClippy => {
                assert(command_name(c).len() != "forbid-unsafe"@.len());
                assert(command_name(c).len() != "cargo-fmt"@.len());
            },
            Command::CargoTest => {
                assert(command_name(c).len() != "forbid-unsafe"@.len());
                assert(command_name(c).len() != "cargo-fmt"@.len());
                assert(command_name(c).len() != "cargo-clippy"@.len());
            },
            Command::PythonTest => {
                assert(command_name(c).len() != "forbid-unsafe"@.len());
                assert(command_name(c).len() != "cargo-fmt"@.len());
                assert(command_name(c).len() != "cargo-clippy"@.len());
                assert(command_name(c).len() != "cargo-test"@.len());
            },
            Command::ForbidCollections => {
                assert(command_name(c).len() != "forbid-unsafe"@.len());
                assert(command_name(c).len() != "cargo-fmt"@.len());
                assert(command_name(c).len() != "cargo-clippy"@.len());
                assert(command_name(c).len() != "cargo-test"@.len());
                assert(command_name(c).len() != "python-test"@.len());
            },
            Command::CargoCompileTestMiniFrunk => {
                assert(command_name(c).len() != "forbid-unsafe"@.len());
                assert(command_name(c).len() != "cargo-fmt"@.len());
                assert(command_name(c).len() != "cargo-clippy"@.len());
                assert(command_name(c).len() != "cargo-test"@.len());
                assert(command_name(c).len() != "python-test"@.len());
                assert(command_name(c).len() != "forbid-collections"@.len());
            },
            Command::CargoCompileTestOrm => {
                assert(command_name(c).len() != "forbid-unsafe"@.len());
                assert(command_name(c).len() != "cargo-fmt"@.len());
                assert(command_name(c).len() != "cargo-clippy"@.len());
                assert(command_name(c).len() != "cargo-test"@.len());
                assert(command_name(c).len() != "python-test"@.len());
                assert(command_name(c).len() != "forbid-collections"@.len());
                assert(command_name(c).len() != "cargo-compile-test-mini-frunk"@.len());
            },
        }
    }
    assert forall|s: Seq<char>|
        (forall|c: Command| s != #[trigger] command_name(c)) implies #[trigger] command_named(s) is None by {
        assert(s != command_name(Command::ForbidUnsafe));
        assert(s != command_name(Command::CargoFmt));
        assert(s != command_name(Command::CargoClippy));
        assert(s != command_name(Command::CargoTest));
        assert(s != command_name(Command::PythonTest));
        assert(s != command_name(Command::ForbidCollections));
        assert(s != command_name(Command::CargoCompileTestMiniFrunk));
        assert(s != command_name(Command::CargoCompileTestOrm));
    }
}

/// Looking a toolchain up by its name gives that toolchain; a name that is
/// no toolchain's name gives none.
pub proof fn law_toolchain_names()
    ensures
        forall|t: Toolchain| #[trigger] toolchain_named(toolchain_name(t)) == Some(t),
        forall|s: Seq<char>|
            (forall|t: Toolchain| s != #[trigger] toolchain_name(t)) ==> #[trigger] toolchain_named(s) is None,
{
    reveal_strlit("empty");
    reveal_strlit("stable");
    reveal_strlit("nightly");
    assert forall|t: Toolchain| #[trigger] toolchain_named(toolchain_name(t)) == Some(t) by {
        match t {
            Toolchain::Empty => {},
            Toolchain::Stable => {
                assert(toolchain_name(t).len() != "empty"@.len());
            },
            Toolchain::Nightly => {
                assert(toolchain_name(t).len() != "empty"@.len());
                assert(toolchain_name(t).len() != "stable"@.len());
            },
        }
    }
    assert forall|s: Seq<char>|
        (forall|t: Toolchain| s != #[trigger] toolchain_name(t)) implies #[trigger] toolchain_named(s) is None by {
        assert(s != toolchain_name(Toolchain::Empty));
        assert(s != toolchain_name(Toolchain::Stable));
        assert(s != toolchain_name(Toolchain::Nightly));
    }
}

/// The shell line of a command, if it has one.
pub open spec fn command_line(c: Command) -> Option<Seq<char>> {
    match c {
        Command::CargoFmt => Some("cargo fmt --check"@),
        Command::CargoClippy => Some("cargo clippy --release -- -D warnings"@),
        Command::CargoTest => Some("cargo test --release"@),
        Command::PythonTest => Some("python3 test.py"@),
        _ => None,
    }
}

/// The toolchain with the given name, if any.
pub open spec fn toolchain_named(name: Seq<char>) -> Option<Toolchain> {
    if name == "empty"@ {
        Some(Toolchain::Empty)
    } else if name == "stable"@ {
        Some(Toolchain::Stable)
    } else if name == "nightly"@ {
        Some(Toolchain::Nightly)
    } else {
        None
    }
}

/// The shell line that runs a command with a toolchain.
pub open spec fn toolchain_line(t: Toolchain) -> Seq<char> {
    match t {
        Toolchain::Empty => ""@,
        Toolchain::Stable => "rustup run stable"@,
        Toolchain::Nightly => "rustup run nightly"@,
    }
}

impl Command {
    pub fn from_name(name: &str) -> (r: Result<Self, RoverError>)
        ensures
            command_named(name@) matches Some(c) ==> r == Ok::<Self, RoverError>(c),
            command_named(name@) is None ==> (r matches Err(RoverError::CommandNotSupported(s))
                && s@ == name@),
    {
        if str_eq(name, "forbid-unsafe") {
            Ok(Command::ForbidUnsafe)
        } else if str_eq(name, "cargo-fmt") {
            Ok(Command::CargoFmt)
        } else if str_eq(name, "cargo-clippy") {
            Ok(Command::CargoClippy)
        } else if str_eq(name, "cargo-test") {
            Ok(Command::CargoTest)
        } else if str_eq(name, "python-test") {
            Ok(Command::PythonTest)
        } else if str_eq(name, "forbid-collections") {
            Ok(Command::ForbidCollections)
        } else if str_eq(name, "cargo-compile-test-mini-frunk") {
            Ok(Command::CargoCompileTestMiniFrunk)
        } else if str_eq(name, "cargo-compile-test-orm") {
            Ok(Command::CargoCompileTestOrm)
        } else {
            Err(RoverError::CommandNotSupported(String::from_str(name)))
        }
    }

    pub fn get_shell_line(&self) -> (r: Result<String, RoverError>)
        ensures
            command_line(*self) matches Some(l) ==> (r matches Ok(s) && s@ == l),
            command_line(*self) is None ==> (r matches Err(RoverError::NoShellLine(c)) && c == *self),
    {
        match self {
            Command::ForbidUnsafe => Err(RoverError::NoShellLine(Command::ForbidUnsafe)),
            Command::ForbidCollections => Err(RoverError::NoShellLine(Command::ForbidCollections)),
            Command::CargoCompileTestMiniFrunk => Err(
                RoverError::NoShellLine(Command::CargoCompileTestMiniFrunk),
            ),
            Command::CargoCompileTestOrm => Err(RoverError::NoShellLine(Command::CargoCompileTestOrm)),
            Command::CargoFmt => Ok(String::from_str("cargo fmt --check")),
            Command::CargoClippy => Ok(String::from_str("cargo clippy --release -- -D warnings")),
            Command::CargoTest => Ok(String::from_str("cargo test --release")),
            Command::PythonTest => Ok(String::from_str("python3 test.py")),
        }
    }
}

impl Toolchain {
    pub fn from_name(name: &str) -> (r: Result<Self, RoverError>)
        ensures
            toolchain_named(name@) matches Some(t) ==> r == Ok::<Self, RoverError>(t),
            toolchain_named(name@) is None ==> (r matches Err(RoverError::ToolchainNotSupported(s))
                && s@ == name@),
    {
        if str_eq(name, "empty") {
            Ok(Toolchain::Empty)
        } else if str_eq(name, "stable") {
            Ok(Toolchain::Stable)
        } else if str_eq(name, "nightly") {
            Ok(Toolchain::Nightly)
        } else {
            Err(RoverError::ToolchainNotSupported(String::from_str(name)))
        }
    }

    /// The program and arguments that run `command` with this toolchain:
    /// the pieces between the spaces of the toolchain's shell line, then of
    /// the command's.
    pub fn launch_args(&self, command: &Command) -> (r: Result<Vec<String>, RoverError>)
        ensures
            command_line(*command) matches Some(l) ==> (r matches Ok(v) && string_views(v@)
                == split_spaces(toolchain_line(*self)) + split_spaces(l)),
            command_line(*command) is None ==> (r matches Err(RoverError::NoShellLine(c)) && c
                == *command),
    {
        let toolchain_line = match self.get_shell_line() {
            Ok(l) => l,
            Err(e) => {
                return Err(e);
            },
        };
        let command_line = match command.get_shell_line() {
            Ok(l) => l,
            Err(e) => {
                return Err(e);
            },
        };
        let mut args: Vec<String> = Vec::new();
        proof {
            assert(string_views(args@) =~= Seq::<Seq<char>>::empty());
        }
        push_pieces(toolchain_line.as_str(), &mut args);
        push_pieces(command_line.as_str(), &mut args);
        proof {
            assert(Seq::<Seq<char>>::empty() + split_spaces(toolchain_line@) =~= split_spaces(toolchain_line@));
        }
        Ok(args)
    }

    pub fn get_shell_line(&self) -> (r: Result<String, RoverError>)
        ensures
            r matches Ok(s) && s@ == toolchain_line(*self),
    {
        match self {
            Toolchain::Empty => Ok(String::from_str("")),
            Toolchain::Stable => Ok(String::from_str("rustup run stable")),
            Toolchain::Nightly => Ok(String::from_str("rustup run nightly")),
        }
    }
}

} // verus!
