//! The command line.

use vstd::prelude::*;
use vstd::string::*;

verus! {

/// The option that keeps the program away from the system's files.
pub const NO_FILESYSTEM_OPTION: &'static str = "--no-filesystem";

/// The option that keeps the ambient light from being simulated.
pub const NO_ALS_SPOOF_OPTION: &'static str = "--no-als-spoof";

/// What the command line asks for.
#[derive(Clone, Copy, Debug, PartialEq, Eq, Structural)]
pub struct Args {
    /// The system's files are neither read nor written.
    pub no_filesystem: bool,
    /// The ambient light is not simulated.
    pub no_als_spoof: bool,
}

/// Whether an option is one of the arguments.
pub open spec fn has_option(args: Seq<String>, option: Seq<char>) -> bool {
    exists|i: int| 0 <= i < args.len() && (#[trigger] args[i])@ == option
}

/// Whether an option is one of the arguments.
fn contains_option(args: &[String], option: &str) -> (r: bool)
    ensures
        r == has_option(args@, option@),
{
    let wanted: String = option.to_owned();
    for i in 0..args.len()
        invariant
            wanted@ == option@,
            forall|j: int| 0 <= j < i ==> (#[trigger] args@[j])@ != option@,
    {
        if args[i] == wanted {
            assert(args@[i as int]@ == option@);
            return true;
        }
    }
    false
}

/// Reads the options; every other argument is ignored.
pub fn parse_args(args: &[String]) -> (r: Args)
    ensures
        r.no_filesystem == has_option(args@, NO_FILESYSTEM_OPTION@),
        r.no_als_spoof == has_option(args@, NO_ALS_SPOOF_OPTION@),
        r.no_filesystem <==> exists|i: int|
            0 <= i < args@.len() && (#[trigger] args@[i])@ == "--no-filesystem"@,
        r.no_als_spoof <==> exists|i: int|
            0 <= i < args@.len() && (#[trigger] args@[i])@ == "--no-als-spoof"@,
{
    Args {
        no_filesystem: contains_option(args, NO_FILESYSTEM_OPTION),
        no_als_spoof: contains_option(args, NO_ALS_SPOOF_OPTION),
    }
}

impl Args {
    /// Whether the ambient light is to be simulated: without the system's
    /// files, unless that was asked not to be.
    pub fn spoofs_ambient_light(&self) -> (r: bool)
        ensures
            r == (self.no_filesystem && !self.no_als_spoof),
    {
        self.no_filesystem && !self.no_als_spoof
    }
}

/// An option is found wherever it stands among the arguments, and only where
/// one of them is it, letter for letter.
pub proof fn law_option_is_found_wherever_it_stands(args: Seq<String>, option: Seq<char>)
    ensures
        forall|k: int|
            0 <= k < args.len() && (#[trigger] args[k])@ == option ==> has_option(args, option),
        (forall|k: int| 0 <= k < args.len() ==> (#[trigger] args[k])@ != option) ==> !has_option(
            args,
            option,
        ),
{
}

/// The order of the arguments does not matter.
pub proof fn law_order_of_arguments_does_not_matter(
    args: Seq<String>,
    reordered: Seq<String>,
    option: Seq<char>,
)
    requires
        args.to_multiset() == reordered.to_multiset(),
    ensures
        has_option(args, option) == has_option(reordered, option),
{
    args.to_multiset_ensures();
    reordered.to_multiset_ensures();
    if has_option(args, option) {
        let i = choose|i: int| 0 <= i < args.len() && (#[trigger] args[i])@ == option;
        assert(args.contains(args[i]));
        assert(args.to_multiset().count(args[i]) > 0);
        assert(reordered.contains(args[i]));
        let j = choose|j: int| 0 <= j < reordered.len() && reordered[j] == args[i];
        assert(reordered[j]@ == option);
    }
    if has_option(reordered, option) {
        let i = choose|i: int| 0 <= i < reordered.len() && (#[trigger] reordered[i])@ == option;
        assert(reordered.contains(reordered[i]));
        assert(reordered.to_multiset().count(reordered[i]) > 0);
        assert(args.contains(reordered[i]));
        let j = choose|j: int| 0 <= j < args.len() && args[j] == reordered[i];
        assert(args[j]@ == option);
    }
}

/// An option is found in two lists of arguments together exactly where it is
/// found in one of them.
pub proof fn law_more_arguments_hide_no_option(
    args: Seq<String>,
    more: Seq<String>,
    option: Seq<char>,
)
    ensures
        has_option(args + more, option) == (has_option(args, option) || has_option(more, option)),
{
    let all = args + more;
    if has_option(args, option) {
        let i = choose|i: int| 0 <= i < args.len() && (#[trigger] args[i])@ == option;
        assert(all[i]@ == option);
    }
    if has_option(more, option) {
        let i = choose|i: int| 0 <= i < more.len() && (#[trigger] more[i])@ == option;
        assert(all[args.len() + i]@ == option);
    }
    if has_option(all, option) {
        let i = choose|i: int| 0 <= i < all.len() && (#[trigger] all[i])@ == option;
        if i < args.len() {
            assert(args[i]@ == option);
        } else {
            assert(more[i - args.len()]@ == option);
        }
    }
}

/// The two options are told apart, and are spelled with two dashes in front.
pub proof fn law_options_are_spelled_out()
    ensures
        NO_FILESYSTEM_OPTION@ == "--no-filesystem"@,
        NO_ALS_SPOOF_OPTION@ == "--no-als-spoof"@,
        NO_FILESYSTEM_OPTION@ != NO_ALS_SPOOF_OPTION@,
{
    reveal_strlit("--no-filesystem");
    reveal_strlit("--no-als-spoof");
    assert("--no-filesystem"@.len() != "--no-als-spoof"@.len());
}

}
