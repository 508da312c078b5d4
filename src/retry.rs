//! Generating and searching puzzles until one has enough assemblies.

use crate::jigsaw::{valid_picks, Jigsaw, JigsawView, Solutions};
use crate::pieces::PieceState;
use crate::search::{all_assemblies, all_extend, distinct_from};
use crate::settings::Settings;
use vstd::prelude::*;

verus! {

/// `s` lists, each once, exactly the assemblies of the puzzle `v`.
pub open spec fn lists_assemblies(v: JigsawView, s: Seq<Vec<Vec<Option<PieceState>>>>) -> bool {
    &&& all_assemblies(v, s, 0)
    &&& all_extend(v, s, 0)
    &&& distinct_from(s, 0)
    &&& v.assemblies().finite()
    &&& s.len() == v.assemblies().len()
}

/// The puzzle generated from `rights` and `bottoms` has fewer than `min`
/// assemblies.
pub open spec fn falls_short(n: nat, min: nat, rights: Seq<i8>, bottoms: Seq<i8>) -> bool {
    exists|v: JigsawView| #[trigger] v.is_fresh(n, rights, bottoms) && v.assemblies().len() < min
}

/// Searches a freshly generated puzzle `jigsaw` and keeps its assemblies
/// when there are at least `min` of them.
fn search_fresh(
    jigsaw: &mut Jigsaw,
    min: usize,
    Ghost(n): Ghost<nat>,
    Ghost(rights): Ghost<Seq<i8>>,
    Ghost(bottoms): Ghost<Seq<i8>>,
) -> (r: Option<Solutions>)
    requires
        old(jigsaw).wf(),
        old(jigsaw)@.is_fresh(n, rights, bottoms),
    ensures
        r matches Some(s) ==> s@.len() >= min && lists_assemblies(old(jigsaw)@, s@),
        r is None ==> falls_short(n, min as nat, rights, bottoms),
{
    let ghost fresh = jigsaw@;
    let mut solutions: Solutions = Vec::new();
    jigsaw.try_solve(&mut solutions);
    if solutions.len() < min {
        proof {
            assert(fresh.assemblies().len() < min);
        }
        None
    } else {
        Some(solutions)
    }
}

/// Generates one puzzle with fresh randomness and searches it; returns its
/// assemblies when there are at least `settings.min_solutions` of them, and
/// `None` when the attempt has to be discarded.
pub fn solve_attempt(settings: &Settings) -> (r: Option<Solutions>)
    requires
        settings.is_valid(),
    ensures
        r matches Some(s) ==> {
            &&& s@.len() >= settings.min_solutions
            &&& exists|rights: Seq<i8>, bottoms: Seq<i8>, v: JigsawView|
                valid_picks(settings.grid_size as nat, settings.side_types, rights, bottoms)
                    && #[trigger] v.is_fresh(settings.grid_size as nat, rights, bottoms)
                    && lists_assemblies(v, s@)
        },
        r is None ==> exists|rights: Seq<i8>, bottoms: Seq<i8>|
            valid_picks(settings.grid_size as nat, settings.side_types, rights, bottoms)
                && #[trigger] falls_short(
                settings.grid_size as nat,
                settings.min_solutions as nat,
                rights,
                bottoms,
            ),
{
    let mut jigsaw = Jigsaw::generate(settings.grid_size, settings);
    let ghost fresh = jigsaw@;
    let ghost (rights, bottoms) = choose|rights: Seq<i8>, bottoms: Seq<i8>|
        valid_picks(settings.grid_size as nat, settings.side_types, rights, bottoms)
            && fresh.is_fresh(settings.grid_size as nat, rights, bottoms);
    let r = search_fresh(
        &mut jigsaw,
        settings.min_solutions,
        Ghost(settings.grid_size as nat),
        Ghost(rights),
        Ghost(bottoms),
    );
    r
}

/// Generates and searches one puzzle per list of drawn values, in order,
/// discarding each attempt with fewer than `settings.min_solutions`
/// assemblies; returns the index of the first attempt with enough of them,
/// together with its assemblies, or `None` when every attempt fell short.
pub fn solve_attempts(settings: &Settings, attempts: &Vec<(Vec<i8>, Vec<i8>)>) -> (r: Option<
    (usize, Solutions),
>)
    requires
        settings.is_valid(),
        forall|i: int|
            0 <= i < attempts@.len() ==> valid_picks(
                settings.grid_size as nat,
                settings.side_types,
                (#[trigger] attempts@[i]).0@,
                attempts@[i].1@,
            ),
    ensures
        r matches Some((i, s)) ==> {
            &&& i < attempts@.len()
            &&& s@.len() >= settings.min_solutions
            &&& exists|v: JigsawView|
                #[trigger] v.is_fresh(
                    settings.grid_size as nat,
                    attempts@[i as int].0@,
                    attempts@[i as int].1@,
                ) && lists_assemblies(v, s@)
            &&& forall|j: int|
                0 <= j < i ==> falls_short(
                    settings.grid_size as nat,
                    settings.min_solutions as nat,
                    (#[trigger] attempts@[j]).0@,
                    attempts@[j].1@,
                )
        },
        r is None ==> forall|j: int|
            0 <= j < attempts@.len() ==> falls_short(
                settings.grid_size as nat,
                settings.min_solutions as nat,
                (#[trigger] attempts@[j]).0@,
                attempts@[j].1@,
            ),
{
    let mut i: usize = 0;
    while i < attempts.len()
        invariant
            settings.is_valid(),
            forall|i: int|
                0 <= i < attempts@.len() ==> valid_picks(
                    settings.grid_size as nat,
                    settings.side_types,
                    (#[trigger] attempts@[i]).0@,
                    attempts@[i].1@,
                ),
            forall|j: int|
                0 <= j < i ==> falls_short(
                    settings.grid_size as nat,
                    settings.min_solutions as nat,
                    (#[trigger] attempts@[j]).0@,
                    attempts@[j].1@,
                ),
        decreases attempts@.len() - i,
    {
        let attempt = &attempts[i];
        let mut jigsaw = Jigsaw::generate_with(settings.grid_size, settings, &attempt.0, &attempt.1);
        let ghost fresh = jigsaw@;
        let found = search_fresh(
            &mut jigsaw,
            settings.min_solutions,
            Ghost(settings.grid_size as nat),
            Ghost(attempt.0@),
            Ghost(attempt.1@),
        );
        if let Some(solutions) = found {
            return Some((i, solutions));
        }
        i = i + 1;
    }
    None
}

} // verus!
