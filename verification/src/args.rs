//! The command line: a lockfile and a file of rules.

use vstd::prelude::*;
use vstd::string::StringExecFns;
use crate::deps::texts_of;
use crate::model::Name;

verus! {

/// What the command line names.
#[derive(Debug, PartialEq)]
pub struct Args {
    /// Where the lockfile is.
    pub cargo_lock: String,
    /// Where the rules are.
    pub lints: String,
}

/// How many words stand before the two paths: the program's name, and the
/// word `deplint` where it follows, as it does when cargo starts the program
/// as a subcommand.
pub open spec fn leading_words(args: Seq<Name>) -> int {
    if args.len() >= 2 && args[1] == "deplint"@ {
        2
    } else {
        1
    }
}

/// Reads the command line: after the leading words, the path of the lockfile
/// and the path of the rules, and nothing else.
pub fn parse_args(args: Vec<String>) -> (r: Result<Args, &'static str>)
    ensures
        match r {
            Ok(parsed) => {
                let words = texts_of(args@);
                &&& words.len() == leading_words(words) + 2
                &&& parsed.cargo_lock@ == words[leading_words(words)]
                &&& parsed.lints@ == words[leading_words(words) + 1]
            },
            Err(e) => {
                let words = texts_of(args@);
                ||| words.len() < leading_words(words) + 2 && e@ == "not enough args"@
                ||| words.len() > leading_words(words) + 2 && e@ == "too many args"@
            },
        },
{
    let n = args.len();
    if n < 2 {
        return Err("not enough args");
    }
    let subcommand = String::from_str("deplint");
    let first: usize = if args[1] == subcommand {
        2
    } else {
        1
    };
    if n - first < 2 {
        return Err("not enough args");
    }
    if n - first > 2 {
        return Err("too many args");
    }
    Ok(Args { cargo_lock: args[first].clone(), lints: args[first + 1].clone() })
}

} // verus!
