//! The command line: which tables to check.

use crate::text::str_eq;
use vstd::prelude::*;
use vstd::string::StringExecFns;

verus! {

/// What to check.
pub enum Args {
    /// The table of single characters at this path.
    SingleOnly(String),
    /// The table of phrases at this path.
    PhraseOnly(String),
    /// Both tables.
    Both { phrase: String, single: String },
}

impl Args {
    /// Reads the arguments after the program name: `-s <path>` for the
    /// table of single characters alone, `-p <path>` for the table of
    /// phrases alone, `<singles> <phrases>` for both. Anything but two
    /// arguments is refused.
    pub fn parse(args: Vec<String>) -> (r: Result<Args, String>)
        ensures
            args@.len() != 2 ==> (r matches Err(m) && m@ == "参数无效。用法参见 README。"@),
            args@.len() == 2 && args@[0]@ == "-s"@ ==> (r matches Ok(Args::SingleOnly(p)) && p@ == args@[1]@),
            args@.len() == 2 && args@[0]@ == "-p"@ ==> (r matches Ok(Args::PhraseOnly(p)) && p@ == args@[1]@),
            args@.len() == 2 && args@[0]@ != "-s"@ && args@[0]@ != "-p"@ ==> (r matches Ok(
                Args::Both { phrase, single },
            ) && single@ == args@[0]@ && phrase@ == args@[1]@),
    {
        if args.len() != 2 {
            return Err("参数无效。用法参见 README。".to_owned());
        }
        let mut args = args;
        let ghost given = args@;
        let b = args.pop().unwrap();
        let a = args.pop().unwrap();
        assert(a == given[0] && b == given[1]);
        proof {
            reveal_strlit("-s");
            reveal_strlit("-p");
            assert("-s"@[1] != "-p"@[1]);
        }
        if str_eq(a.as_str(), "-s") {
            Ok(Args::SingleOnly(b))
        } else if str_eq(a.as_str(), "-p") {
            Ok(Args::PhraseOnly(b))
        } else {
            Ok(Args::Both { phrase: b, single: a })
        }
    }
}

} // verus!
