//! The resolved invocation: which operation to run, against which
//! working directory, with which store file.
//!
//! The surrounding command line layer hands in raw positional arguments
//! and, as plain values, whatever the environment supplies (the
//! configured store directory and the current working directory); the
//! defaulting and the argument grammar live here.

use vstd::prelude::*;
use vstd::string::StringExecFns;
use vstd::string::StrSliceExecFns;
use crate::strutil::str_eq;

verus! {

/// The raw inputs of one invocation, before defaulting: the positional
/// arguments and the optional overrides for the working directory and
/// the store file path.
pub struct Opts {
    pub args: Vec<String>,
    pub pwd: Option<String>,
    pub config: Option<String>,
}

/// The operation one invocation performs.
#[derive(Debug, PartialEq)]
pub enum Operation {
    /// Print every effective value (`None`) or one key's value (`Some`).
    Print(Option<String>),
    /// Set a key to a value in the working directory's scope.
    Add(String, String),
    /// Remove a key from the working directory's scope.
    Remove(String),
}

/// Why the positional arguments could not be understood; each variant
/// holds the argument count the message reports.
#[derive(Debug, PartialEq)]
pub enum OpError {
    /// `add` expects exactly a key and a value.
    AddArgs(usize),
    /// `rm` expects exactly a key.
    RemoveArgs(usize),
    /// A print takes at most one key.
    PrintArgs(usize),
}

/// The argument grammar: which operation (or which error) a list of
/// positional arguments denotes.
pub open spec fn op_matches(a: Seq<Seq<char>>, r: Result<Operation, OpError>) -> bool {
    &&& (a.len() == 0 ==> r == Ok::<Operation, OpError>(Operation::Print(None::<String>)))
    &&& (a.len() > 0 && a[0] == "add"@ ==> (if a.len() == 3 {
        r matches Ok(Operation::Add(k, v)) && k@ == a[1] && v@ == a[2]
    } else {
        r matches Err(OpError::AddArgs(n)) && n == a.len() - 1
    }))
    &&& (a.len() > 0 && a[0] != "add"@ && a[0] == "rm"@ ==> (if a.len() == 2 {
        r matches Ok(Operation::Remove(k)) && k@ == a[1]
    } else {
        r matches Err(OpError::RemoveArgs(n)) && n == a.len() - 1
    }))
    &&& (a.len() > 0 && a[0] != "add"@ && a[0] != "rm"@ ==> (if a.len() == 1 {
        r matches Ok(Operation::Print(Some(k))) && k@ == a[0]
    } else {
        r matches Err(OpError::PrintArgs(n)) && n == a.len()
    }))
}

impl Operation {
    /// Reads the positional arguments: none means print everything, a
    /// bare key means print that key, `add key value` sets, `rm key`
    /// removes; anything else is rejected with the count received.
    pub fn from_args(args: Vec<String>) -> (r: Result<Operation, OpError>)
        ensures
            op_matches(args.deep_view(), r),
    {
        let ghost a = args.deep_view();
        proof {
            assert(a.len() == args@.len());
            assert(forall|i: int| 0 <= i < args@.len() ==> a[i] == args@[i]@);
        }
        if args.len() == 0 {
            return Ok(Operation::Print(None));
        }
        if str_eq(args[0].as_str(), "add") {
            if args.len() != 3 {
                return Err(OpError::AddArgs(args.len() - 1));
            }
            return Ok(Operation::Add(args[1].clone(), args[2].clone()));
        }
        if str_eq(args[0].as_str(), "rm") {
            if args.len() != 2 {
                return Err(OpError::RemoveArgs(args.len() - 1));
            }
            return Ok(Operation::Remove(args[1].clone()));
        }
        if args.len() > 1 {
            return Err(OpError::PrintArgs(args.len()));
        }
        Ok(Operation::Print(Some(args[0].clone())))
    }
}

/// The store file path used when neither the command line nor the
/// environment names one: `projector/projector.json` under `base`.
pub open spec fn default_config_path(base: Seq<char>) -> Seq<char> {
    if base.len() == 0 {
        "projector/projector.json"@
    } else if base.last() == '/' {
        base + "projector/projector.json"@
    } else {
        base + "/projector/projector.json"@
    }
}

/// Appends `projector/projector.json` to `base`, inserting the
/// separator unless `base` already ends with one or is empty.
fn join_default_config(base: String) -> (r: String)
    ensures
        r@ == default_config_path(base@),
{
    let n = base.as_str().unicode_len();
    let mut out = base;
    if n == 0 {
        out.append("projector/projector.json");
        proof {
            assert(out@ =~= "projector/projector.json"@);
        }
    } else if out.as_str().get_char(n - 1) == '/' {
        out.append("projector/projector.json");
    } else {
        out.append("/projector/projector.json");
    }
    out
}

/// The resolved configuration of one invocation.
#[derive(Debug)]
pub struct Config {
    /// What to do.
    pub operation: Operation,
    /// The working directory to resolve against.
    pub pwd: String,
    /// The path of the persisted store file.
    pub config: String,
}

impl Config {
    /// Resolves the raw inputs: the arguments give the operation, the
    /// working directory falls back to `cwd`, and the store file falls
    /// back to `projector/projector.json` under the directory the
    /// environment configures (`env_config_dir`), or under `/` when the
    /// environment names none.
    pub fn from_opts(opts: Opts, env_config_dir: Option<String>, cwd: String) -> (r: Result<
        Config,
        OpError,
    >)
        ensures
            r matches Ok(c) ==> op_matches(opts.args.deep_view(), Ok(c.operation)),
            r matches Err(e) ==> op_matches(opts.args.deep_view(), Err(e)),
            r matches Ok(c) ==> c.pwd@ == (match opts.pwd {
                Some(p) => p@,
                None => cwd@,
            }),
            r matches Ok(c) ==> c.config@ == (match opts.config {
                Some(p) => p@,
                None => default_config_path(
                    match env_config_dir {
                        Some(e) => e@,
                        None => "/"@,
                    },
                ),
            }),
    {
        let operation = match Operation::from_args(opts.args) {
            Ok(op) => op,
            Err(e) => {
                return Err(e);
            },
        };
        let pwd = match opts.pwd {
            Some(p) => p,
            None => cwd,
        };
        let config = match opts.config {
            Some(c) => c,
            None => {
                let base = match env_config_dir {
                    Some(e) => e,
                    None => String::from_str("/"),
                };
                join_default_config(base)
            },
        };
        Ok(Config { operation, pwd, config })
    }
}

} // verus!
