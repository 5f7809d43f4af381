//! Command-line arguments.
use vstd::prelude::*;
use crate::stats;
use crate::stats::{Filter, StatsFilter};
use crate::text;

verus! {

/// What the arguments of the statistics command ask for.
#[derive(Debug)]
pub enum StatsCommand {
    /// An explanation of the arguments.
    Help,
    /// The statistics.
    Run(StatsFilter),
}

/// What the arguments of the statistics command ask for, as a mathematical
/// value; `Unknown` where an argument is not known.
pub enum Asked {
    Help,
    Run(Filter),
    Unknown(Seq<char>),
}

/// What arguments ask for, with `f` asked for before them. They are read from
/// the first to the last; an argument that needs a value takes the next one, and
/// has none at the end.
pub open spec fn asked(args: Seq<Seq<char>>, f: Filter) -> Asked
    decreases args.len(),
{
    if args.len() == 0 {
        Asked::Run(f)
    } else {
        let a = args[0];
        let value = if args.len() > 1 {
            Some(args[1])
        } else {
            None
        };
        let behind = if args.len() > 1 {
            args.skip(2)
        } else {
            Seq::empty()
        };
        if a == "--blocked"@ {
            asked(args.skip(1), Filter { blocked: true, ..f })
        } else if a == "--allowed"@ {
            asked(args.skip(1), Filter { allowed: true, ..f })
        } else if a == "--forwarded"@ {
            asked(args.skip(1), Filter { forwarded: true, ..f })
        } else if a == "--summary"@ {
            asked(args.skip(1), Filter { summary: true, ..f })
        } else if a == "--domain"@ || a == "-d"@ {
            asked(behind, Filter { domain: value, ..f })
        } else if a == "--src"@ || a == "-s"@ {
            asked(behind, Filter { src: value, ..f })
        } else if a == "--since"@ {
            asked(behind, Filter { since: value, ..f })
        } else if a == "--help"@ || a == "-h"@ {
            Asked::Help
        } else {
            Asked::Unknown(a)
        }
    }
}

/// The value behind the argument at place `i`, where there is one.
fn value_at(args: &[String], i: usize) -> (r: Option<String>)
    requires
        i < args@.len(),
    ensures
        match r {
            Some(s) => i + 1 < args@.len() && s@ == args@[i + 1]@,
            None => i + 1 == args@.len(),
        },
{
    let n: usize = args.len();
    if i + 1 < n {
        Some(args[i + 1].clone())
    } else {
        None
    }
}

/// Reads the arguments of the statistics command. Gives the argument that is
/// not known, where there is one and no request for help stands before it.
pub fn parse_stats_args(args: &[String]) -> (r: Result<StatsCommand, String>)
    ensures
        match asked(text::texts(args@), stats::no_filter()) {
            Asked::Help => r matches Ok(StatsCommand::Help),
            Asked::Run(f) => r matches Ok(StatsCommand::Run(g)) && g@ == f,
            Asked::Unknown(a) => r matches Err(s) && s@ == "unknown stats flag: "@ + a,
        },
{
    let ghost all = text::texts(args@);
    let mut filter = StatsFilter::default();
    let mut i: usize = 0;
    assert(all.skip(0) =~= all);
    while i < args.len()
        invariant
            i <= args@.len(),
            all == text::texts(args@),
            asked(all, stats::no_filter()) == asked(all.skip(i as int), filter@),
        decreases args@.len() - i,
    {
        let a = args[i].as_str();
        let ghost rest = all.skip(i as int);
        proof {
            assert(rest[0] == a@);
            assert(rest.skip(1) =~= all.skip(i + 1));
            if i + 1 < args@.len() {
                assert(rest[1] == args@[i + 1]@);
                assert(rest.skip(2) =~= all.skip(i + 2));
            } else {
                assert(all.skip(i + 1) =~= Seq::empty());
            }
        }
        if text::same_text(a, "--blocked") {
            filter.blocked = true;
            i = i + 1;
        } else if text::same_text(a, "--allowed") {
            filter.allowed = true;
            i = i + 1;
        } else if text::same_text(a, "--forwarded") {
            filter.forwarded = true;
            i = i + 1;
        } else if text::same_text(a, "--summary") {
            filter.summary = true;
            i = i + 1;
        } else if text::same_text(a, "--domain") || text::same_text(a, "-d") {
            filter.domain = value_at(args, i);
            i = behind(args.len(), i);
        } else if text::same_text(a, "--src") || text::same_text(a, "-s") {
            filter.src = value_at(args, i);
            i = behind(args.len(), i);
        } else if text::same_text(a, "--since") {
            filter.since = value_at(args, i);
            i = behind(args.len(), i);
        } else if text::same_text(a, "--help") || text::same_text(a, "-h") {
            return Ok(StatsCommand::Help);
        } else {
            let mut m = "unknown stats flag: ".to_owned();
            m.append(a);
            return Err(m);
        }
    }
    assert(all.skip(i as int) =~= Seq::empty());
    Ok(StatsCommand::Run(filter))
}

/// The place behind an argument at place `i` and its value.
fn behind(len: usize, i: usize) -> (r: usize)
    requires
        i < len,
    ensures
        r == if i + 1 < len {
            i + 2
        } else {
            len as int
        },
{
    if i + 1 < len {
        i + 2
    } else {
        len
    }
}

/// The place of the first argument that is `wanted`, or the number of arguments
/// where none is.
pub open spec fn argument_place(args: Seq<Seq<char>>, wanted: Seq<char>) -> int
    decreases args.len(),
{
    if args.len() == 0 || args[0] == wanted {
        0
    } else {
        1 + argument_place(args.skip(1), wanted)
    }
}

/// The path of the configuration: the argument behind the first `--config`, else
/// what the environment says, else `config.toml`.
pub open spec fn chosen_config(args: Seq<Seq<char>>, env: Option<Seq<char>>) -> Seq<char> {
    let i = argument_place(args, "--config"@);
    if i + 1 < args.len() {
        args[i + 1]
    } else {
        match env {
            Some(path) => path,
            None => "config.toml"@,
        }
    }
}

/// The path of the configuration.
pub fn config_path(args: &[String], env: Option<String>) -> (r: String)
    ensures
        r@ == chosen_config(
            text::texts(args@),
            match env {
                Some(s) => Some(s@),
                None => None,
            },
        ),
{
    let ghost all = text::texts(args@);
    let mut i: usize = 0;
    assert(all.skip(0) =~= all);
    while i < args.len() && !text::same_text(args[i].as_str(), "--config")
        invariant
            i <= args@.len(),
            all == text::texts(args@),
            argument_place(all, "--config"@) == i + argument_place(all.skip(i as int), "--config"@),
        decreases args@.len() - i,
    {
        assert(all.skip(i as int)[0] == args@[i as int]@);
        assert(all.skip(i as int).skip(1) =~= all.skip(i + 1));
        i = i + 1;
    }
    proof {
        if i < args@.len() {
            assert(all.skip(i as int)[0] == args@[i as int]@);
        } else {
            assert(all.skip(i as int) =~= Seq::empty());
        }
    }
    if i < args.len() && i + 1 < args.len() {
        assert(all[i + 1] == args@[i + 1]@);
        return args[i + 1].clone();
    }
    match env {
        Some(path) => path,
        None => "config.toml".to_owned(),
    }
}

// ---------------------------------------------------------------------------
// What the arguments promise
// ---------------------------------------------------------------------------

/// Each flag asks for what it names, whatever stands behind it, and leaves the rest of
/// what is asked for as it is.
pub proof fn law_flags(rest: Seq<Seq<char>>, f: Filter)
    ensures
        asked(Seq::empty(), f) == Asked::Run(f),
        asked(seq!["--blocked"@] + rest, f) == asked(rest, Filter { blocked: true, ..f }),
        asked(seq!["--allowed"@] + rest, f) == asked(rest, Filter { allowed: true, ..f }),
        asked(seq!["--forwarded"@] + rest, f) == asked(rest, Filter { forwarded: true, ..f }),
        asked(seq!["--summary"@] + rest, f) == asked(rest, Filter { summary: true, ..f }),
        asked(seq!["--help"@] + rest, f) == Asked::Help,
        asked(seq!["-h"@] + rest, f) == Asked::Help,
{
    lemma_flag_names();
    assert((seq!["--blocked"@] + rest).skip(1) =~= rest);
    assert((seq!["--allowed"@] + rest).skip(1) =~= rest);
    assert((seq!["--forwarded"@] + rest).skip(1) =~= rest);
    assert((seq!["--summary"@] + rest).skip(1) =~= rest);
    assert((seq!["--help"@] + rest)[0] == "--help"@);
    assert((seq!["-h"@] + rest)[0] == "-h"@);
}

/// A flag that needs a value takes the argument behind it, whatever that is; at the end
/// it has none.
pub proof fn law_value_flags(value: Seq<char>, rest: Seq<Seq<char>>, f: Filter)
    ensures
        asked(seq!["--domain"@, value] + rest, f) == asked(rest, Filter { domain: Some(value), ..f }),
        asked(seq!["-d"@, value] + rest, f) == asked(rest, Filter { domain: Some(value), ..f }),
        asked(seq!["--src"@, value] + rest, f) == asked(rest, Filter { src: Some(value), ..f }),
        asked(seq!["-s"@, value] + rest, f) == asked(rest, Filter { src: Some(value), ..f }),
        asked(seq!["--since"@, value] + rest, f) == asked(rest, Filter { since: Some(value), ..f }),
        asked(seq!["--domain"@], f) == Asked::Run(Filter { domain: None, ..f }),
        asked(seq!["-d"@], f) == Asked::Run(Filter { domain: None, ..f }),
        asked(seq!["--src"@], f) == Asked::Run(Filter { src: None, ..f }),
        asked(seq!["-s"@], f) == Asked::Run(Filter { src: None, ..f }),
        asked(seq!["--since"@], f) == Asked::Run(Filter { since: None, ..f }),
{
    lemma_flag_names();
    lemma_value_flag("--domain"@, value, rest, f);
    lemma_value_flag("-d"@, value, rest, f);
    lemma_value_flag("--src"@, value, rest, f);
    lemma_value_flag("-s"@, value, rest, f);
    lemma_value_flag("--since"@, value, rest, f);
    assert forall|g: Filter| #[trigger] asked(Seq::empty(), g) == Asked::Run(g) by {}
}

proof fn lemma_value_flag(flag: Seq<char>, value: Seq<char>, rest: Seq<Seq<char>>, f: Filter)
    ensures
        (seq![flag, value] + rest)[0] == flag,
        (seq![flag, value] + rest)[1] == value,
        (seq![flag, value] + rest).skip(2) == rest,
        (seq![flag, value] + rest).len() > 1,
        asked(Seq::empty(), Filter { domain: None, ..f }) == Asked::Run(Filter { domain: None, ..f }),
        asked(Seq::empty(), Filter { src: None, ..f }) == Asked::Run(Filter { src: None, ..f }),
        asked(Seq::empty(), Filter { since: None, ..f }) == Asked::Run(Filter { since: None, ..f }),
{
    assert((seq![flag, value] + rest).skip(2) =~= rest);
}

/// The names of the flags differ.
proof fn lemma_flag_names()
    ensures
        "--allowed"@ != "--blocked"@,
        "--forwarded"@ != "--blocked"@ && "--forwarded"@ != "--allowed"@,
        "--summary"@ != "--blocked"@ && "--summary"@ != "--allowed"@ && "--summary"@
            != "--forwarded"@,
        forall|s: Seq<char>| #[trigger]
            short_or_value(s) ==> s != "--blocked"@ && s != "--allowed"@ && s != "--forwarded"@ && s
                != "--summary"@,
        short_or_value("--domain"@) && short_or_value("-d"@) && short_or_value("--src"@)
            && short_or_value("-s"@) && short_or_value("--since"@) && short_or_value("--help"@)
            && short_or_value("-h"@),
        "--src"@ != "--domain"@ && "--src"@ != "-d"@ && "-s"@ != "--domain"@ && "-s"@ != "-d"@,
        "--since"@ != "--domain"@ && "--since"@ != "-d"@ && "--since"@ != "--src"@ && "--since"@
            != "-s"@,
        "--help"@ != "--domain"@ && "--help"@ != "-d"@ && "--help"@ != "--src"@ && "--help"@
            != "-s"@ && "--help"@ != "--since"@,
        "-h"@ != "--domain"@ && "-h"@ != "-d"@ && "-h"@ != "--src"@ && "-h"@ != "-s"@ && "-h"@
            != "--since"@,
{
    reveal_strlit("--blocked");
    reveal_strlit("--allowed");
    reveal_strlit("--forwarded");
    reveal_strlit("--summary");
    reveal_strlit("--domain");
    reveal_strlit("-d");
    reveal_strlit("--src");
    reveal_strlit("-s");
    reveal_strlit("--since");
    reveal_strlit("--help");
    reveal_strlit("-h");
    assert("--allowed"@[2] == 'a' && "--blocked"@[2] == 'b' && "--forwarded"@[2] == 'f');
    assert("--summary"@[2] == 's' && "--summary"@[3] == 'u');
    assert("--domain"@[2] == 'd' && "--src"@[3] == 'r' && "--since"@[3] == 'i');
    assert("--help"@[2] == 'h' && "-h"@[1] == 'h' && "-d"@[1] == 'd' && "-s"@[1] == 's');
}

/// A flag that is not one of those that stand alone.
spec fn short_or_value(s: Seq<char>) -> bool {
    s.len() == 2 || s.len() == 5 || s.len() == 6 || s.len() == 8 || (s.len() == 7 && s[2] == 's'
        && s[3] == 'i')
}

/// Whether an argument is a flag.
pub open spec fn is_flag(a: Seq<char>) -> bool {
    ||| a == "--blocked"@ || a == "--allowed"@ || a == "--forwarded"@ || a == "--summary"@
    ||| a == "--domain"@ || a == "-d"@ || a == "--src"@ || a == "-s"@ || a == "--since"@
    ||| a == "--help"@ || a == "-h"@
}

/// An argument in the place of a flag that is none ends the reading and is told.
pub proof fn law_unknown_argument(a: Seq<char>, rest: Seq<Seq<char>>, f: Filter)
    requires
        !is_flag(a),
    ensures
        asked(seq![a] + rest, f) == Asked::Unknown(a),
{
    assert((seq![a] + rest)[0] == a);
}

/// The path of the configuration is the argument behind the first `--config`.
pub proof fn law_config_argument(
    before: Seq<Seq<char>>,
    path: Seq<char>,
    behind: Seq<Seq<char>>,
    env: Option<Seq<char>>,
)
    requires
        !before.contains("--config"@),
    ensures
        chosen_config(before + seq!["--config"@, path] + behind, env) == path,
{
    let args = before + seq!["--config"@, path] + behind;
    assert forall|j: int| 0 <= j < before.len() implies #[trigger] args[j] != "--config"@ by {
        assert(args[j] == before[j]);
        assert(before.contains(before[j]));
    }
    lemma_argument_place(args, "--config"@, before.len() as int);
}

/// Without an argument behind a `--config`, the path is what the environment says, else
/// `config.toml`.
pub proof fn law_config_default(before: Seq<Seq<char>>, path: Seq<char>)
    requires
        !before.contains("--config"@),
    ensures
        chosen_config(before, Some(path)) == path,
        chosen_config(before, None) == "config.toml"@,
        chosen_config(before.push("--config"@), Some(path)) == path,
        chosen_config(before.push("--config"@), None) == "config.toml"@,
{
    let args = before.push("--config"@);
    assert forall|j: int| 0 <= j < before.len() implies #[trigger] before[j] != "--config"@ by {
        assert(before.contains(before[j]));
    }
    assert forall|j: int| 0 <= j < before.len() implies #[trigger] args[j] != "--config"@ by {
        assert(args[j] == before[j]);
    }
    lemma_argument_place(before, "--config"@, before.len() as int);
    lemma_argument_place(args, "--config"@, before.len() as int);
}

proof fn lemma_argument_place(args: Seq<Seq<char>>, wanted: Seq<char>, n: int)
    requires
        0 <= n <= args.len(),
        forall|j: int| 0 <= j < n ==> #[trigger] args[j] != wanted,
        n == args.len() || args[n] == wanted,
    ensures
        argument_place(args, wanted) == n,
    decreases args.len(),
{
    if n > 0 {
        assert(args[0] != wanted);
        assert forall|j: int| 0 <= j < n - 1 implies #[trigger] args.skip(1)[j] != wanted by {
            assert(args.skip(1)[j] == args[j + 1]);
        }
        lemma_argument_place(args.skip(1), wanted, n - 1);
    }
}

/// Without arguments nothing is asked for.
pub proof fn law_no_arguments()
    ensures
        asked(Seq::empty(), stats::no_filter()) matches Asked::Run(f) && !f.blocked && !f.allowed
            && !f.forwarded && !f.summary && f.domain is None && f.src is None && f.since is None,
{
}

} // verus!
