//! The rule set that drives a run: path patterns paired with ordered
//! transformer chains.

use vstd::prelude::*;

use crate::errors::Error;

verus! {

/// A transformer that runs in-process, as a verified pure function.
#[derive(Clone, Copy, Debug, PartialEq, Eq, Structural)]
pub enum BuiltinTransformer {
    /// Strip trailing whitespace from every line.
    TrailingWhitespace,
}

/// A transformer that runs as an external process: bytes are written to its
/// standard input and read back from its standard output.
#[derive(Clone, Debug)]
pub enum ShellCommandTransformer {
    Rustfmt,
    ClangFormat,
    System { command: String, env: Vec<(String, String)>, args: Vec<String> },
}

impl ShellCommandTransformer {
    /// The program name this transformer invokes.
    pub open spec fn spec_command_str(self) -> Seq<char> {
        match self {
            ShellCommandTransformer::Rustfmt => "rustfmt"@,
            ShellCommandTransformer::ClangFormat => "clang-format"@,
            ShellCommandTransformer::System { command, .. } => command@,
        }
    }

    /// The fixed arguments the program is invoked with.
    pub open spec fn spec_command_args(self) -> Seq<Seq<char>> {
        match self {
            ShellCommandTransformer::Rustfmt => seq!["--emit"@, "stdout"@],
            ShellCommandTransformer::ClangFormat => Seq::empty(),
            ShellCommandTransformer::System { args, .. } => args.deep_view(),
        }
    }

    /// The environment overrides the program is invoked with.
    pub open spec fn spec_command_env(self) -> Seq<(Seq<char>, Seq<char>)> {
        match self {
            ShellCommandTransformer::System { env, .. } => Seq::new(
                env@.len(),
                |i: int| (env@[i].0@, env@[i].1@),
            ),
            _ => Seq::empty(),
        }
    }

    pub fn command_str(&self) -> (r: &str)
        ensures
            r@ == self.spec_command_str(),
    {
        match self {
            ShellCommandTransformer::Rustfmt => "rustfmt",
            ShellCommandTransformer::ClangFormat => "clang-format",
            ShellCommandTransformer::System { command, .. } => command.as_str(),
        }
    }

    /// The argument list to hand the spawned process.
    pub fn command_args(&self) -> (r: Vec<String>)
        ensures
            r.deep_view() == self.spec_command_args(),
    {
        match self {
            ShellCommandTransformer::Rustfmt => {
                let mut v: Vec<String> = Vec::new();
                v.push(String::from_str("--emit"));
                v.push(String::from_str("stdout"));
                proof {
                    assert(v.deep_view() =~= self.spec_command_args());
                }
                v
            },
            ShellCommandTransformer::ClangFormat => {
                let v: Vec<String> = Vec::new();
                proof {
                    assert(v.deep_view() =~= self.spec_command_args());
                }
                v
            },
            ShellCommandTransformer::System { args, .. } => {
                let mut v: Vec<String> = Vec::new();
                let mut i: usize = 0;
                while i < args.len()
                    invariant
                        i <= args.len(),
                        v@.len() == i,
                        forall|j: int| 0 <= j < i ==> #[trigger] v@[j]@ == args@[j]@,
                    decreases args.len() - i,
                {
                    v.push(args[i].clone());
                    i = i + 1;
                }
                proof {
                    assert(v.deep_view() =~= self.spec_command_args());
                }
                v
            },
        }
    }

    /// The environment overrides to hand the spawned process.
    pub fn command_env(&self) -> (r: Vec<(String, String)>)
        ensures
            r@.len() == self.spec_command_env().len(),
            forall|i: int|
                0 <= i < r@.len() ==> (#[trigger] r@[i].0@, r@[i].1@)
                    == self.spec_command_env()[i],
    {
        match self {
            ShellCommandTransformer::System { env, .. } => {
                let mut v: Vec<(String, String)> = Vec::new();
                let mut i: usize = 0;
                while i < env.len()
                    invariant
                        i <= env.len(),
                        v@.len() == i,
                        forall|j: int|
                            0 <= j < i ==> (#[trigger] v@[j].0@, v@[j].1@)
                                == (env@[j].0@, env@[j].1@),
                    decreases env.len() - i,
                {
                    let pair = (env[i].0.clone(), env[i].1.clone());
                    v.push(pair);
                    i = i + 1;
                }
                v
            },
            _ => Vec::new(),
        }
    }
}

/// A transformer specification: a closed tagged variant over the two kinds.
#[derive(Clone, Debug)]
pub enum TransformerOptions {
    Builtin(BuiltinTransformer),
    RawCommand(ShellCommandTransformer),
}

/// One rule: a glob-style path pattern and the ordered, non-empty chain of
/// transformers to run over every staged file the pattern matches.
#[derive(Debug)]
pub struct ConfigurationItem {
    pub pathspec: String,
    pub transformers: Vec<TransformerOptions>,
}

/// The ordered rule list of one run.  Rules are tried in declaration order
/// and the first matching rule wins.
#[derive(Debug)]
pub struct Configuration {
    items: Vec<ConfigurationItem>,
}

impl Configuration {
    /// The rules, in declaration order.
    pub closed spec fn view(&self) -> Seq<ConfigurationItem> {
        self.items@
    }

    pub fn new(items: Vec<ConfigurationItem>) -> (r: Configuration)
        ensures
            r@ == items@,
    {
        Configuration { items }
    }

    pub fn items(&self) -> (r: &Vec<ConfigurationItem>)
        ensures
            r@ == self@,
    {
        &self.items
    }

    /// A configuration is well formed when every rule carries at least one
    /// transformer: a matched rule with an empty chain is a configuration
    /// error, found before the run touches the repository.
    pub open spec fn spec_valid(self) -> bool {
        forall|i: int| 0 <= i < self@.len() ==> self@[i].transformers@.len() > 0
    }

    pub fn validate(&self) -> (r: Result<(), Error>)
        ensures
            r is Ok <==> self.spec_valid(),
            r is Err ==> r->Err_0 is ConfigurationParseError,
    {
        let mut i: usize = 0;
        while i < self.items.len()
            invariant
                i <= self.items@.len(),
                forall|j: int| 0 <= j < i ==> self.items@[j].transformers@.len() > 0,
            decreases self.items@.len() - i,
        {
            if self.items[i].transformers.len() == 0 {
                proof {
                    assert(self@[i as int].transformers@.len() == 0);
                }
                return Err(
                    Error::ConfigurationParseError(
                        String::from_str("a rule names no transformers"),
                    ),
                );
            }
            i = i + 1;
        }
        Ok(())
    }
}

} // verus!
