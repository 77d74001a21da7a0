//! Exit codes and the typed error that carries one.

use vstd::prelude::*;

verus! {

/// Exit codes for rsconstruct, allowing CI scripts to distinguish error types.
#[derive(Debug, Clone, Copy, PartialEq, Eq, Structural)]
pub enum RsconstructExitCode {
    Success,
    BuildError,
    ConfigError,
    ToolError,
    GraphError,
    IoError,
    Interrupted,
}

/// The numeric process exit status of each code. These numbers are a public
/// contract: CI scripts branch on them.
pub open spec fn exit_status(c: RsconstructExitCode) -> u8 {
    match c {
        RsconstructExitCode::Success => 0,
        RsconstructExitCode::BuildError => 1,
        RsconstructExitCode::ConfigError => 2,
        RsconstructExitCode::ToolError => 3,
        RsconstructExitCode::GraphError => 4,
        RsconstructExitCode::IoError => 5,
        RsconstructExitCode::Interrupted => 130,
    }
}

/// The symbolic name printed next to each code.
pub open spec fn exit_name(c: RsconstructExitCode) -> Seq<char> {
    match c {
        RsconstructExitCode::Success => "EXIT_SUCCESS"@,
        RsconstructExitCode::BuildError => "EXIT_BUILD_ERROR"@,
        RsconstructExitCode::ConfigError => "EXIT_CONFIG_ERROR"@,
        RsconstructExitCode::ToolError => "EXIT_TOOL_ERROR"@,
        RsconstructExitCode::GraphError => "EXIT_GRAPH_ERROR"@,
        RsconstructExitCode::IoError => "EXIT_IO_ERROR"@,
        RsconstructExitCode::Interrupted => "EXIT_INTERRUPTED"@,
    }
}

/// The one-line description printed next to each code.
pub open spec fn exit_description(c: RsconstructExitCode) -> Seq<char> {
    match c {
        RsconstructExitCode::Success => "Build completed successfully"@,
        RsconstructExitCode::BuildError => "One or more processors failed"@,
        RsconstructExitCode::ConfigError => "Invalid or missing configuration"@,
        RsconstructExitCode::ToolError => "Required external tool missing or wrong version"@,
        RsconstructExitCode::GraphError => "Dependency cycle or output conflict in build graph"@,
        RsconstructExitCode::IoError => "File system or I/O operation failed"@,
        RsconstructExitCode::Interrupted => "Build interrupted by signal (Ctrl+C)"@,
    }
}

impl RsconstructExitCode {
    pub fn code(self) -> (r: u8)
        ensures
            r == exit_status(self),
    {
        match self {
            RsconstructExitCode::Success => 0,
            RsconstructExitCode::BuildError => 1,
            RsconstructExitCode::ConfigError => 2,
            RsconstructExitCode::ToolError => 3,
            RsconstructExitCode::GraphError => 4,
            RsconstructExitCode::IoError => 5,
            RsconstructExitCode::Interrupted => 130,
        }
    }

    pub fn name(self) -> (r: &'static str)
        ensures
            r@ == exit_name(self),
    {
        match self {
            RsconstructExitCode::Success => "EXIT_SUCCESS",
            RsconstructExitCode::BuildError => "EXIT_BUILD_ERROR",
            RsconstructExitCode::ConfigError => "EXIT_CONFIG_ERROR",
            RsconstructExitCode::ToolError => "EXIT_TOOL_ERROR",
            RsconstructExitCode::GraphError => "EXIT_GRAPH_ERROR",
            RsconstructExitCode::IoError => "EXIT_IO_ERROR",
            RsconstructExitCode::Interrupted => "EXIT_INTERRUPTED",
        }
    }

    pub fn description(self) -> (r: &'static str)
        ensures
            r@ == exit_description(self),
    {
        match self {
            RsconstructExitCode::Success => "Build completed successfully",
            RsconstructExitCode::BuildError => "One or more processors failed",
            RsconstructExitCode::ConfigError => "Invalid or missing configuration",
            RsconstructExitCode::ToolError => "Required external tool missing or wrong version",
            RsconstructExitCode::GraphError => "Dependency cycle or output conflict in build graph",
            RsconstructExitCode::IoError => "File system or I/O operation failed",
            RsconstructExitCode::Interrupted => "Build interrupted by signal (Ctrl+C)",
        }
    }

    /// Every exit code, in declaration order (what `exit-codes` lists).
    pub fn all() -> (r: Vec<RsconstructExitCode>)
        ensures
            r@ == seq![
                RsconstructExitCode::Success,
                RsconstructExitCode::BuildError,
                RsconstructExitCode::ConfigError,
                RsconstructExitCode::ToolError,
                RsconstructExitCode::GraphError,
                RsconstructExitCode::IoError,
                RsconstructExitCode::Interrupted,
            ],
    {
        vec![
            RsconstructExitCode::Success,
            RsconstructExitCode::BuildError,
            RsconstructExitCode::ConfigError,
            RsconstructExitCode::ToolError,
            RsconstructExitCode::GraphError,
            RsconstructExitCode::IoError,
            RsconstructExitCode::Interrupted,
        ]
    }
}

/// Distinct codes have distinct exit statuses, so a CI script can always
/// tell them apart.
pub proof fn exit_statuses_are_distinct(a: RsconstructExitCode, b: RsconstructExitCode)
    requires
        a != b,
    ensures
        exit_status(a) != exit_status(b),
{
}

/// A typed error that carries an exit code for classification.
#[derive(Debug)]
pub struct RsconstructError {
    pub exit_code: RsconstructExitCode,
    pub message: String,
}

impl RsconstructError {
    pub fn new(exit_code: RsconstructExitCode, message: &str) -> (r: RsconstructError)
        ensures
            r.exit_code == exit_code,
            r.message@ == message@,
    {
        RsconstructError { exit_code, message: String::from_str(message) }
    }

    /// The text the error displays as.
    pub fn to_string(&self) -> (r: String)
        ensures
            r@ == self.message@,
    {
        self.message.clone()
    }
}

/// Shorthand for a typed `ConfigError`.
pub fn config_error(message: &str) -> (r: RsconstructError)
    ensures
        r.exit_code == RsconstructExitCode::ConfigError,
        r.message@ == message@,
{
    RsconstructError::new(RsconstructExitCode::ConfigError, message)
}

/// Shorthand for a typed interrupt.
pub fn interrupted() -> (r: RsconstructError)
    ensures
        r.exit_code == RsconstructExitCode::Interrupted,
        r.message@ == "Interrupted"@,
{
    RsconstructError::new(RsconstructExitCode::Interrupted, "Interrupted")
}

/// One layer of an error chain, outermost first.
#[derive(Debug)]
pub enum ErrorLink {
    /// A typed error carrying its own exit code.
    Typed(RsconstructError),
    /// A raw operating-system I/O error.
    Io(String),
    /// Any other message (context lines, tool output, untyped errors).
    Message(String),
}

/// An error as a chain of layers, outermost (most recent context) first —
/// what classification reads of a propagated error.
#[derive(Debug)]
pub struct ErrorChain {
    pub links: Vec<ErrorLink>,
}

/// The exit code of the first typed layer in `links`, if any.
pub open spec fn first_typed(links: Seq<ErrorLink>) -> Option<RsconstructExitCode>
    decreases links.len(),
{
    if links.len() == 0 {
        None
    } else {
        match links[0] {
            ErrorLink::Typed(e) => Some(e.exit_code),
            _ => first_typed(links.drop_first()),
        }
    }
}

/// Whether some layer of `links` is a raw I/O error.
pub open spec fn has_io(links: Seq<ErrorLink>) -> bool {
    exists|i: int| 0 <= i < links.len() && links[i] is Io
}

/// The classification rule: a typed error anywhere wins, then a raw I/O
/// error means `IoError`, and everything else is a `BuildError`. Message
/// text is never consulted.
pub open spec fn classify_spec(links: Seq<ErrorLink>) -> RsconstructExitCode {
    match first_typed(links) {
        Some(c) => c,
        None => if has_io(links) {
            RsconstructExitCode::IoError
        } else {
            RsconstructExitCode::BuildError
        },
    }
}

impl ErrorChain {
    /// A chain holding one typed error.
    pub fn from_error(e: RsconstructError) -> (r: ErrorChain)
        ensures
            r.links@ == seq![ErrorLink::Typed(e)],
    {
        ErrorChain { links: vec![ErrorLink::Typed(e)] }
    }

    /// A chain holding one raw I/O error.
    pub fn io(message: &str) -> (r: ErrorChain)
        ensures
            r.links.len() == 1,
            r.links@[0] is Io,
            r.links@[0]->Io_0@ == message@,
    {
        ErrorChain { links: vec![ErrorLink::Io(String::from_str(message))] }
    }

    /// A chain holding one untyped message.
    pub fn message(message: &str) -> (r: ErrorChain)
        ensures
            r.links.len() == 1,
            r.links@[0] is Message,
            r.links@[0]->Message_0@ == message@,
    {
        ErrorChain { links: vec![ErrorLink::Message(String::from_str(message))] }
    }

    /// Wrap the chain in one more layer of context.
    pub fn context(self, message: &str) -> (r: ErrorChain)
        ensures
            r.links.len() == self.links.len() + 1,
            r.links@[0] is Message,
            r.links@[0]->Message_0@ == message@,
            r.links@.drop_first() == self.links@,
    {
        let mut links: Vec<ErrorLink> = Vec::new();
        links.push(ErrorLink::Message(String::from_str(message)));
        let mut rest = self.links;
        links.append(&mut rest);
        proof {
            assert(links@.drop_first() =~= self.links@);
        }
        ErrorChain { links }
    }
}

/// Classify an error chain into an exit code.
pub fn classify_error(err: &ErrorChain) -> (r: RsconstructExitCode)
    ensures
        r == classify_spec(err.links@),
{
    let n: usize = err.links.len();
    let mut i: usize = 0;
    let mut saw_io: bool = false;
    proof {
        assert(err.links@.skip(0) =~= err.links@);
    }
    while i < n
        invariant
            n == err.links.len(),
            0 <= i <= n,
            first_typed(err.links@) == first_typed(err.links@.skip(i as int)),
            saw_io == (exists|j: int| 0 <= j < i && err.links@[j] is Io),
        decreases n - i,
    {
        proof {
            assert(err.links@.skip(i as int).drop_first() =~= err.links@.skip(i + 1));
        }
        match &err.links[i] {
            ErrorLink::Typed(e) => {
                return e.exit_code;
            },
            ErrorLink::Io(_) => {
                saw_io = true;
            },
            ErrorLink::Message(_) => {},
        }
        i = i + 1;
    }
    proof {
        assert(err.links@.skip(n as int).len() == 0);
    }
    if saw_io {
        RsconstructExitCode::IoError
    } else {
        RsconstructExitCode::BuildError
    }
}

} // verus!
