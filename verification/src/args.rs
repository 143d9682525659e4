//! What the command line asks for.
use crate::text::{opens, same, starts_with};
use vstd::prelude::*;

verus! {

/// What to do.
pub enum Command {
    /// Open the diary.
    Open,
    /// Run one turn of the oracle against a picture, and print the reply.
    OracleTest { png: String },
    /// Print the version.
    Version,
    /// Print how to use the program.
    Help,
    /// Complain about a flag that there is none of.
    Unknown { flag: String },
}

/// Is `c` what these arguments ask for? The first is the program's own name.
pub open spec fn asked(args: Seq<String>, page: Seq<char>, c: Command) -> bool {
    if args.len() < 2 {
        c is Open
    } else {
        let flag = args[1]@;
        if flag == "--oracle-test"@ {
            c matches Command::OracleTest { png } && png@ == if args.len() > 2 {
                args[2]@
            } else {
                page
            }
        } else if flag == "--version"@ || flag == "-V"@ {
            c is Version
        } else if flag == "--help"@ || flag == "-h"@ {
            c is Help
        } else if opens(flag, "-"@) {
            c matches Command::Unknown { flag: f } && f@ == flag
        } else {
            c is Open
        }
    }
}

/// Read the command line. `page` is the picture that the oracle is tried on where none is named.
pub fn command(args: &Vec<String>, page: &str) -> (c: Command)
    ensures
        asked(args@, page@, c),
{
    if args.len() < 2 {
        return Command::Open;
    }
    let flag = args[1].as_str();
    if same(flag, "--oracle-test") {
        let png = if args.len() > 2 {
            args[2].clone()
        } else {
            page.to_owned()
        };
        Command::OracleTest { png }
    } else if same(flag, "--version") || same(flag, "-V") {
        Command::Version
    } else if same(flag, "--help") || same(flag, "-h") {
        Command::Help
    } else if starts_with(flag, "-") {
        Command::Unknown { flag: flag.to_owned() }
    } else {
        Command::Open
    }
}

/// The diary opens where the first argument is no flag, or there is none; whatever starts with a
/// dash is taken for a flag.
pub proof fn no_flag_opens_the_diary(args: Vec<String>, page: &str, c: Command)
    requires
        call_ensures(command, (&args, page), c),
    ensures
        c is Open <==> args@.len() < 2 || args@[1]@.len() == 0 || args@[1]@[0] != '-',
{
    reveal_strlit("-");
    reveal_strlit("--oracle-test");
    reveal_strlit("--version");
    reveal_strlit("-V");
    reveal_strlit("--help");
    reveal_strlit("-h");
    if args@.len() >= 2 {
        let flag = args@[1]@;
        if flag.len() > 0 {
            assert(flag.take(1) =~= seq![flag[0]]);
            assert("-"@ =~= seq!['-']);
            assert(flag.take(1)[0] == flag[0]);
        }
    }
}

/// Flags are taken at their word: the trial run has the picture that is named behind it, or the
/// usual one; and a flag that there is none of is named in the complaint.
pub proof fn flags_are_taken_at_their_word(args: Vec<String>, page: &str, c: Command)
    requires
        call_ensures(command, (&args, page), c),
        args@.len() >= 2,
    ensures
        c is OracleTest <==> args@[1]@ == "--oracle-test"@,
        c matches Command::OracleTest { png } ==> {
            &&& args@.len() > 2 ==> png@ == args@[2]@
            &&& args@.len() == 2 ==> png@ == page@
        },
        c is Version <==> args@[1]@ == "--version"@ || args@[1]@ == "-V"@,
        c is Help <==> args@[1]@ == "--help"@ || args@[1]@ == "-h"@,
        c matches Command::Unknown { flag } ==> flag@ == args@[1]@,
{
    reveal_strlit("--oracle-test");
    reveal_strlit("--version");
    reveal_strlit("-V");
    reveal_strlit("--help");
    reveal_strlit("-h");
    assert("--oracle-test"@.len() == 13 && "--version"@.len() == 9 && "-V"@.len() == 2
        && "--help"@.len() == 6 && "-h"@.len() == 2);
    assert("-V"@[1] != "-h"@[1]);
}

} // verus!
