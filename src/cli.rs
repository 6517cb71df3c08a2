use vstd::prelude::*;
use crate::markers::{begins_with, starts_with};
use crate::text::views;

verus! {

/// The four paths a merge driver is called with, in the conventional order
/// base, local, remote, merged.
#[derive(Debug, Clone)]
pub struct CliArgs {
    pub base: String,
    pub local: String,
    pub remote: String,
    pub merged: String,
}

/// The arguments that are not flags (do not begin with `-`), in order.
pub open spec fn non_flags(args: Seq<Seq<char>>) -> Seq<Seq<char>>
    decreases args.len(),
{
    if args.len() == 0 {
        Seq::empty()
    } else {
        let rest = non_flags(args.drop_last());
        if begins_with(args.last(), "-"@) {
            rest
        } else {
            rest.push(args.last())
        }
    }
}

impl CliArgs {
    /// Reads the four paths from a command line whose first item is the
    /// program: the first four arguments that are not flags. `None` when
    /// there are fewer than four.
    pub fn from_args(args: &Vec<String>) -> (r: Option<CliArgs>)
        requires
            args@.len() >= 1,
        ensures
            ({
                let files = non_flags(views(args@).subrange(1, args@.len() as int));
                match r {
                    Some(c) => files.len() >= 4 && c.base@ == files[0] && c.local@ == files[1] && c.remote@
                        == files[2] && c.merged@ == files[3],
                    None => files.len() < 4,
                }
            }),
    {
        let ghost all = views(args@);
        let mut files: Vec<String> = Vec::new();
        let mut i: usize = 1;
        while i < args.len()
            invariant
                1 <= i <= args@.len(),
                all == views(args@),
                views(files@) == non_flags(all.subrange(1, i as int)),
            decreases args@.len() - i,
        {
            proof {
                assert(all.subrange(1, i + 1).drop_last() =~= all.subrange(1, i as int));
                assert(all.subrange(1, i + 1).last() == args@[i as int]@);
            }
            if !starts_with(args[i].as_str(), "-") {
                let a = args[i].clone();
                proof {
                    assert(views(files@.push(a)) =~= views(files@).push(a@));
                }
                files.push(a);
            }
            i += 1;
        }
        if files.len() >= 4 {
            Some(CliArgs {
                base: files[0].clone(),
                local: files[1].clone(),
                remote: files[2].clone(),
                merged: files[3].clone(),
            })
        } else {
            None
        }
    }
}

} // verus!
