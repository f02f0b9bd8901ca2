//! How the programs are started.

use vstd::prelude::*;

use crate::text::texts;

verus! {

/// How many files are counted at a time: as many as asked for, else one less
/// than the machine can run at a time, but at least one.
pub fn worker_count(procs: Option<usize>, available: Option<usize>) -> (n: usize)
    ensures
        n == match (procs, available) {
            (Some(p), _) => p as int,
            (None, Some(a)) => if a > 2 {
                a - 1
            } else {
                1
            },
            (None, None) => 1,
        },
        n == workers(procs, available),
{
    match procs {
        Some(p) => p,
        None => match available {
            Some(a) => if a > 2 {
                a - 1
            } else {
                1
            },
            None => 1,
        },
    }
}

/// The arguments with which the launcher of a subcommand starts the program.
pub fn launch_args(subcommand: &str, args: &Vec<String>) -> (all: Vec<String>)
    ensures
        texts(all@) == seq![subcommand@] + texts(args@),
        texts(all@) == launched(subcommand@, texts(args@)),
{
    let mut all: Vec<String> = Vec::new();
    all.push(subcommand.to_owned());
    let mut i: usize = 0;
    assert(texts(all@) =~= seq![subcommand@] + texts(args@).take(0));
    while i < args.len()
        invariant
            i <= args@.len(),
            texts(all@) == seq![subcommand@] + texts(args@).take(i as int),
        decreases args@.len() - i,
    {
        let ghost earlier = all@;
        all.push(args[i].clone());
        proof {
            assert(texts(all@) =~= texts(earlier).push(args@[i as int]@));
            assert(texts(args@).take(i + 1) =~= texts(args@).take(i as int).push(
                args@[i as int]@,
            ));
            assert(texts(all@) =~= seq![subcommand@] + texts(args@).take(i + 1));
        }
        i = i + 1;
    }
    assert(texts(args@).take(i as int) =~= texts(args@));
    all
}

/// How many files are counted at a time.
pub open spec fn workers(procs: Option<usize>, available: Option<usize>) -> int {
    match (procs, available) {
        (Some(p), _) => p as int,
        (None, Some(a)) => if a > 2 {
            a - 1
        } else {
            1
        },
        (None, None) => 1,
    }
}

/// What is asked for is done. Else there is at least one worker, and one less than
/// the machine can run at a time if it can run more than one.
pub proof fn lemma_workers(p: usize, available: Option<usize>)
    ensures
        workers(Some(p), available) == p,
        workers(None, available) >= 1,
        available matches Some(a) ==> a > 1 ==> workers(None, available) + 1 == a,
        available matches Some(a) ==> a <= 1 ==> workers(None, available) == 1,
        available is None ==> workers(None, available) == 1,
{
}

/// The arguments of a program that is started for a subcommand.
pub open spec fn launched(subcommand: Seq<char>, args: Seq<Seq<char>>) -> Seq<Seq<char>> {
    seq![subcommand] + args
}

/// The subcommand comes first, then the arguments as they are.
pub proof fn lemma_launched(subcommand: Seq<char>, args: Seq<Seq<char>>, i: int)
    ensures
        launched(subcommand, args).len() == args.len() + 1,
        launched(subcommand, args)[0] == subcommand,
        0 <= i < args.len() ==> launched(subcommand, args)[i + 1] == args[i],
{
}

} // verus!
