//! Command line arguments: `raptor [-c|--config <path>]`.

use crate::text;
use vstd::prelude::*;

verus! {

/// Whether an argument says that the path of the configuration follows.
pub open spec fn is_config_flag(arg: Seq<char>) -> bool {
    arg == "-c"@ || arg == "--config"@
}

/// The path of the configuration among arguments: what follows the first flag
/// for it, and `raptor.yaml` where there is no such argument.
pub open spec fn config_path(args: Seq<Seq<char>>) -> Seq<char>
    decreases args.len(),
{
    if args.len() == 0 {
        "raptor.yaml"@
    } else if is_config_flag(args[0]) {
        if args.len() > 1 {
            args[1]
        } else {
            "raptor.yaml"@
        }
    } else {
        config_path(args.drop_first())
    }
}

/// The path of the configuration among the arguments of the program, without
/// its name.
pub fn parse_config_path(args: &[String]) -> (path: String)
    ensures
        path@ == config_path(text::texts(args@)),
{
    let ghost all = text::texts(args@);
    let n: usize = args.len();
    let mut i: usize = 0;
    assert(all.skip(0) =~= all);
    while i < n
        invariant
            i <= n,
            n == args@.len(),
            all == text::texts(args@),
            config_path(all.skip(i as int)) == config_path(all),
        decreases n - i,
    {
        let ghost rest = all.skip(i as int);
        assert(rest[0] == args@[i as int]@);
        assert(rest.drop_first() =~= all.skip(i + 1));
        if text::same_text(args[i].as_str(), "-c") || text::same_text(
            args[i].as_str(),
            "--config",
        ) {
            if n - i > 1 {
                assert(rest[1] == args@[i + 1]@);
                return args[i + 1].clone();
            }
            return "raptor.yaml".to_string();
        }
        i = i + 1;
    }
    "raptor.yaml".to_string()
}

/// The path of the configuration is the argument behind the first `-c` or
/// `--config`; where there is neither, or nothing behind it, it is `raptor.yaml`.
pub proof fn the_path_follows_its_flag(args: Seq<Seq<char>>, i: int)
    requires
        0 <= i <= args.len(),
        forall|k: int| 0 <= k < i ==> (#[trigger] args[k]) != "-c"@ && args[k] != "--config"@,
        i < args.len() ==> args[i] == "-c"@ || args[i] == "--config"@,
    ensures
        config_path(args) == if i + 1 < args.len() {
            args[i + 1]
        } else {
            "raptor.yaml"@
        },
    decreases args.len(),
{
    if i > 0 {
        assert(args[0] != "-c"@ && args[0] != "--config"@);
        let rest = args.drop_first();
        assert forall|k: int| 0 <= k < i - 1 implies (#[trigger] rest[k]) != "-c"@ && rest[k]
            != "--config"@ by {
            assert(args[k + 1] != "-c"@);
        }
        the_path_follows_its_flag(rest, i - 1);
    }
}

} // verus!
