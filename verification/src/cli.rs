//! The command line: `calmake [-v|--verbose] (init [NAME] | graph | build | compdb | clean [DIR])`.

use vstd::prelude::*;
use crate::text::{chars_eq, chars_of, concat3, push_string, string_of};

verus! {

/// What calmake was asked to do.
#[derive(Debug)]
pub enum Action {
    /// Create a sample project in the named directory.
    Init { project: String },
    /// Print the target graph.
    Graph,
    /// Build the project in the current directory.
    Build,
    /// Write the compilation database of the project in the current directory.
    Compdb,
    /// Remove the build outputs of the project in the named directory;
    /// `current_dir` says that it is the current directory.
    Clean { project: String, current_dir: bool },
}

pub enum ActionSpec {
    Init { project: Seq<char> },
    Graph,
    Build,
    Compdb,
    Clean { project: Seq<char>, current_dir: bool },
}

impl View for Action {
    type V = ActionSpec;

    open spec fn view(&self) -> ActionSpec {
        match self {
            Action::Init { project } => ActionSpec::Init { project: project@ },
            Action::Graph => ActionSpec::Graph,
            Action::Build => ActionSpec::Build,
            Action::Compdb => ActionSpec::Compdb,
            Action::Clean { project, current_dir } => ActionSpec::Clean {
                project: project@,
                current_dir: *current_dir,
            },
        }
    }
}

/// A command line that names no known command.
#[derive(Debug)]
pub enum CliError {
    UnknownCommand { command: String },
    NoCommand,
}

pub enum CliErrorSpec {
    UnknownCommand { command: Seq<char> },
    NoCommand,
}

/// The message that reports a command-line error.
pub open spec fn cli_error_text(e: CliErrorSpec) -> Seq<char> {
    match e {
        CliErrorSpec::UnknownCommand { command } => "unknown command `"@ + command
            + "` (use `calmake`, `calmake init`, or `calmake graph` or `calmake build`)"@,
        CliErrorSpec::NoCommand => "no command given (use `calmake`, `calmake init`, or `calmake graph` or `calmake build`)"@,
    }
}

impl CliError {
    /// The message that reports this error.
    pub fn message(&self) -> (r: String)
        ensures
            r@ == cli_error_text(self@),
    {
        match self {
            CliError::UnknownCommand { command } => concat3(
                "unknown command `",
                command.as_str(),
                "` (use `calmake`, `calmake init`, or `calmake graph` or `calmake build`)",
            ),
            CliError::NoCommand => string_of(
                "no command given (use `calmake`, `calmake init`, or `calmake graph` or `calmake build`)",
            ),
        }
    }
}

impl View for CliError {
    type V = CliErrorSpec;

    open spec fn view(&self) -> CliErrorSpec {
        match self {
            CliError::UnknownCommand { command } => CliErrorSpec::UnknownCommand { command: command@ },
            CliError::NoCommand => CliErrorSpec::NoCommand,
        }
    }
}

pub open spec fn is_verbose_flag(a: Seq<char>) -> bool {
    a == "-v"@ || a == "--verbose"@
}

/// The arguments without the verbosity flags.
pub open spec fn without_flags(args: Seq<Seq<char>>) -> Seq<Seq<char>>
    decreases args.len(),
{
    if args.len() == 0 {
        seq![]
    } else {
        without_flags(args.drop_last()) + if is_verbose_flag(args.last()) {
            seq![]
        } else {
            seq![args.last()]
        }
    }
}

/// The argument after the command, or a default.
pub open spec fn second_or(rest: Seq<Seq<char>>, default: Seq<char>) -> Seq<char> {
    if rest.len() >= 2 {
        rest[1]
    } else {
        default
    }
}

/// What a command line (without the program name) asks for, and whether
/// it asks for verbose output.
pub open spec fn spec_parse_args(args: Seq<Seq<char>>) -> Result<(bool, ActionSpec), CliErrorSpec> {
    let verbose = exists|i: int| 0 <= i < args.len() && is_verbose_flag(#[trigger] args[i]);
    let rest = without_flags(args);
    if rest.len() == 0 {
        Err(CliErrorSpec::NoCommand)
    } else if rest[0] == "init"@ {
        Ok((verbose, ActionSpec::Init { project: second_or(rest, "calmake-hello"@) }))
    } else if rest[0] == "graph"@ {
        Ok((verbose, ActionSpec::Graph))
    } else if rest[0] == "build"@ {
        Ok((verbose, ActionSpec::Build))
    } else if rest[0] == "compdb"@ {
        Ok((verbose, ActionSpec::Compdb))
    } else if rest[0] == "clean"@ {
        Ok(
            (
                verbose,
                ActionSpec::Clean {
                    project: second_or(rest, "./"@),
                    current_dir: second_or(rest, "./"@) == "./"@,
                },
            ),
        )
    } else {
        Err(CliErrorSpec::UnknownCommand { command: rest[0] })
    }
}

fn eq_lit(a: &String, lit: &str) -> (r: bool)
    ensures
        r == (a@ == lit@),
{
    let x = chars_of(a.as_str());
    let y = chars_of(lit);
    chars_eq(x.as_slice(), y.as_slice())
}

/// Reads the command line (without the program name).
pub fn parse_args(args: &Vec<String>) -> (r: Result<(bool, Action), CliError>)
    ensures
        match r {
            Ok((v, a)) => spec_parse_args(args.deep_view()) == Ok::<(bool, ActionSpec), CliErrorSpec>((v, a@)),
            Err(e) => spec_parse_args(args.deep_view()) == Err::<(bool, ActionSpec), CliErrorSpec>(e@),
        },
{
    let ghost av = args.deep_view();
    let mut verbose = false;
    let mut rest: Vec<String> = Vec::new();
    let mut i: usize = 0;
    assert(av.take(0) =~= seq![]);
    assert(rest.deep_view() =~= without_flags(av.take(0)));
    while i < args.len()
        invariant
            i <= args.len(),
            av == args.deep_view(),
            rest.deep_view() == without_flags(av.take(i as int)),
            verbose == exists|q: int| 0 <= q < i && is_verbose_flag(#[trigger] av[q]),
        decreases args.len() - i,
    {
        let a = &args[i];
        assert(av[i as int] == a@);
        assert(av.take(i + 1).drop_last() =~= av.take(i as int));
        assert(av.take(i + 1).last() == a@);
        let flag = eq_lit(a, "-v") || eq_lit(a, "--verbose");
        if flag {
            verbose = true;
        } else {
            push_string(&mut rest, a.clone());
        }
        assert(rest.deep_view() =~= without_flags(av.take(i + 1)));
        i = i + 1;
    }
    assert(av.take(i as int) =~= av);
    let ghost rv = rest.deep_view();
    if rest.len() == 0 {
        return Err(CliError::NoCommand);
    }
    assert(rv[0] == rest@[0]@);
    if rest.len() >= 2 {
        assert(rv[1] == rest@[1]@);
    }
    let cmd = &rest[0];
    if eq_lit(cmd, "init") {
        let project = if rest.len() >= 2 {
            rest[1].clone()
        } else {
            string_of("calmake-hello")
        };
        Ok((verbose, Action::Init { project }))
    } else if eq_lit(cmd, "graph") {
        Ok((verbose, Action::Graph))
    } else if eq_lit(cmd, "build") {
        Ok((verbose, Action::Build))
    } else if eq_lit(cmd, "compdb") {
        Ok((verbose, Action::Compdb))
    } else if eq_lit(cmd, "clean") {
        let project = if rest.len() >= 2 {
            rest[1].clone()
        } else {
            string_of("./")
        };
        let current_dir = eq_lit(&project, "./");
        Ok((verbose, Action::Clean { project, current_dir }))
    } else {
        Err(CliError::UnknownCommand { command: cmd.clone() })
    }
}

} // verus!
