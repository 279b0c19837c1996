//! What a pass over a directory does, and what holds of it.
//!
//! The library decides which removals to try; whether one goes well is up to
//! the file system. The model here says what the file system does: a removal
//! goes well where the entry is there, nothing keeps it from going (`stuck`
//! holds the paths that something does keep, a lock or a missing right), and,
//! for a directory, nothing is left inside it.

use crate::sync::order::{
    distinct_names, distinct_paths, inside_first, is_inside, law_listing_is_inside_first,
};
use crate::sync::plan::{count_removed, is_tried, plan_of};
use crate::sync::tree::{walk, Listed, Node};
use vstd::prelude::*;

verus! {

/// Whether the removal of `step` goes well while `present` is what is there.
pub open spec fn goes_well(
    step: Listed,
    stuck: Set<Seq<Seq<char>>>,
    present: Set<Seq<Seq<char>>>,
) -> bool {
    &&& present.contains(step.path)
    &&& !stuck.contains(step.path)
    &&& step.is_dir ==> forall|path: Seq<Seq<char>>|
        present.contains(path) ==> !is_inside(path, step.path)
}

/// What is there after the steps were tried in order on `present`.
pub open spec fn left_after(
    steps: Seq<Listed>,
    stuck: Set<Seq<Seq<char>>>,
    present: Set<Seq<Seq<char>>>,
) -> Set<Seq<Seq<char>>>
    decreases steps.len(),
{
    if steps.len() == 0 {
        present
    } else {
        let before = left_after(steps.drop_last(), stuck, present);
        if goes_well(steps.last(), stuck, before) {
            before.remove(steps.last().path)
        } else {
            before
        }
    }
}

/// How each of the steps went, tried in order on `present`.
pub open spec fn outcomes_of(
    steps: Seq<Listed>,
    stuck: Set<Seq<Seq<char>>>,
    present: Set<Seq<Seq<char>>>,
) -> Seq<bool> {
    Seq::new(
        steps.len(),
        |i: int| goes_well(steps[i], stuck, left_after(steps.subrange(0, i), stuck, present)),
    )
}

/// The entry is one of the listing, by its path and its kind.
pub open spec fn is_listed(listing: Seq<Listed>, entry: Listed) -> bool {
    exists|j: int|
        0 <= j < listing.len() && (#[trigger] listing[j]).path == entry.path && listing[j].is_dir
            == entry.is_dir
}

/// The steps of a plan are entries of the listing whose removal is tried;
/// every such entry is a step; and the plan keeps the order of the listing.
pub proof fn lemma_plan_of(manifest: Set<Seq<Seq<char>>>, listing: Seq<Listed>)
    ensures
        forall|i: int|
            0 <= i < plan_of(manifest, listing).len() ==> is_tried(
                manifest,
                #[trigger] plan_of(manifest, listing)[i],
            ) && listing.contains(plan_of(manifest, listing)[i]),
        forall|j: int|
            0 <= j < listing.len() && is_tried(manifest, #[trigger] listing[j]) ==> plan_of(
                manifest,
                listing,
            ).contains(listing[j]),
        distinct_paths(listing) ==> distinct_paths(plan_of(manifest, listing)),
        inside_first(listing) ==> inside_first(plan_of(manifest, listing)),
    decreases listing.len(),
{
    let steps = plan_of(manifest, listing);
    if listing.len() > 0 {
        let shorter = listing.drop_last();
        let before = plan_of(manifest, shorter);
        lemma_plan_of(manifest, shorter);
        assert forall|j: int|
            0 <= j < listing.len() && is_tried(manifest, #[trigger] listing[j]) implies steps.contains(
            listing[j],
        ) by {
            if j < shorter.len() {
                let i = choose|i: int| 0 <= i < before.len() && before[i] == shorter[j];
                assert(steps[i] == listing[j]);
            } else {
                assert(steps[steps.len() - 1] == listing[j]);
            }
        }
    }
}

/// What is there after the first `upto` of the steps.
pub open spec fn left_at(
    steps: Seq<Listed>,
    stuck: Set<Seq<Seq<char>>>,
    present: Set<Seq<Seq<char>>>,
    upto: int,
) -> Set<Seq<Seq<char>>> {
    left_after(steps.subrange(0, upto), stuck, present)
}

/// One more step removes its entry where it goes well, and nothing else.
pub proof fn lemma_left_at_next(
    steps: Seq<Listed>,
    stuck: Set<Seq<Seq<char>>>,
    present: Set<Seq<Seq<char>>>,
    at: int,
)
    requires
        0 <= at < steps.len(),
    ensures
        left_at(steps, stuck, present, at + 1) == if goes_well(
            steps[at],
            stuck,
            left_at(steps, stuck, present, at),
        ) {
            left_at(steps, stuck, present, at).remove(steps[at].path)
        } else {
            left_at(steps, stuck, present, at)
        },
        left_at(steps, stuck, present, 0) == present,
        left_at(steps, stuck, present, steps.len() as int) == left_after(steps, stuck, present),
{
    assert(steps.subrange(0, at + 1).drop_last() =~= steps.subrange(0, at));
    assert(steps.subrange(0, steps.len() as int) =~= steps);
}

/// Steps only remove: what is there later was there before, and what is
/// gone in between was the entry of a step in between that went well.
pub proof fn lemma_left_at_shrinks(
    steps: Seq<Listed>,
    stuck: Set<Seq<Seq<char>>>,
    present: Set<Seq<Seq<char>>>,
    from: int,
    upto: int,
)
    requires
        0 <= from <= upto <= steps.len(),
    ensures
        forall|path: Seq<Seq<char>>| #[trigger]
            left_at(steps, stuck, present, upto).contains(path) ==> left_at(
                steps,
                stuck,
                present,
                from,
            ).contains(path),
        forall|path: Seq<Seq<char>>|
            left_at(steps, stuck, present, from).contains(path) && !(#[trigger] left_at(
                steps,
                stuck,
                present,
                upto,
            ).contains(path)) ==> exists|j: int|
                from <= j < upto && (#[trigger] steps[j]).path == path,
    decreases upto - from,
{
    if from < upto {
        lemma_left_at_shrinks(steps, stuck, present, from, upto - 1);
        lemma_left_at_next(steps, stuck, present, upto - 1);
    }
}

/// After a pass, none of its steps would go well if it were tried again.
pub proof fn lemma_no_step_goes_again(
    steps: Seq<Listed>,
    stuck: Set<Seq<Seq<char>>>,
    present: Set<Seq<Seq<char>>>,
    at: int,
)
    requires
        inside_first(steps),
        0 <= at < steps.len(),
    ensures
        !goes_well(steps[at], stuck, left_after(steps, stuck, present)),
{
    let end = steps.len() as int;
    let left = left_after(steps, stuck, present);
    let then = left_at(steps, stuck, present, at);
    lemma_left_at_next(steps, stuck, present, at);
    lemma_left_at_shrinks(steps, stuck, present, at + 1, end);
    lemma_left_at_shrinks(steps, stuck, present, at, end);
    if goes_well(steps[at], stuck, left) {
        let inner = choose|inner: Seq<Seq<char>>|
            then.contains(inner) && is_inside(inner, steps[at].path);
        assert(left_at(steps, stuck, present, end).contains(inner));
    }
}

/// Steps of which none goes well change nothing and count nothing.
pub proof fn lemma_failed_steps(
    steps: Seq<Listed>,
    stuck: Set<Seq<Seq<char>>>,
    present: Set<Seq<Seq<char>>>,
)
    requires
        forall|i: int| 0 <= i < steps.len() ==> !goes_well(#[trigger] steps[i], stuck, present),
    ensures
        left_after(steps, stuck, present) == present,
        forall|i: int|
            0 <= i < steps.len() ==> !(#[trigger] outcomes_of(steps, stuck, present)[i]),
        count_removed(steps, outcomes_of(steps, stuck, present), false) == 0,
        count_removed(steps, outcomes_of(steps, stuck, present), true) == 0,
    decreases steps.len(),
{
    if steps.len() > 0 {
        let shorter = steps.drop_last();
        lemma_failed_steps(shorter, stuck, present);
        assert forall|i: int| 0 <= i < steps.len() implies left_after(
            #[trigger] steps.subrange(0, i),
            stuck,
            present,
        ) == present by {
            lemma_failed_steps(steps.subrange(0, i), stuck, present);
        }
        let outcomes = outcomes_of(steps, stuck, present);
        lemma_count_nothing(steps, outcomes, false);
        lemma_count_nothing(steps, outcomes, true);
    }
}

/// Where no step went well, nothing is counted.
pub proof fn lemma_count_nothing(steps: Seq<Listed>, outcomes: Seq<bool>, dirs: bool)
    requires
        forall|i: int| 0 <= i < outcomes.len() ==> !(#[trigger] outcomes[i]),
    ensures
        count_removed(steps, outcomes, dirs) == 0,
    decreases steps.len(),
{
    if steps.len() > 0 {
        lemma_count_nothing(steps.drop_last(), outcomes, dirs);
    }
}

/// A second pass removes nothing. Let a pass be made over a listing that
/// has what lies inside an entry before the entry, and let a second pass
/// be made over what the first one left, listed in any order. Where the same
/// entries are kept from going both times, every step of the second pass
/// fails: it leaves what was there and reports no file and no directory.
pub proof fn law_second_pass_removes_nothing(
    manifest: Set<Seq<Seq<char>>>,
    listing: Seq<Listed>,
    again: Seq<Listed>,
    stuck: Set<Seq<Seq<char>>>,
    present: Set<Seq<Seq<char>>>,
)
    requires
        inside_first(listing),
        forall|k: int| 0 <= k < again.len() ==> is_listed(listing, #[trigger] again[k]),
    ensures
        ({
            let left = left_after(plan_of(manifest, listing), stuck, present);
            let steps = plan_of(manifest, again);
            &&& left_after(steps, stuck, left) == left
            &&& count_removed(steps, outcomes_of(steps, stuck, left), false) == 0
            &&& count_removed(steps, outcomes_of(steps, stuck, left), true) == 0
        }),
{
    let first = plan_of(manifest, listing);
    let left = left_after(first, stuck, present);
    let steps = plan_of(manifest, again);
    lemma_plan_of(manifest, listing);
    lemma_plan_of(manifest, again);
    assert forall|i: int| 0 <= i < steps.len() implies !goes_well(
        #[trigger] steps[i],
        stuck,
        left,
    ) by {
        let step = steps[i];
        let j = choose|j: int|
            0 <= j < listing.len() && (#[trigger] listing[j]).path == step.path
                && listing[j].is_dir == step.is_dir;
        let at = choose|at: int| 0 <= at < first.len() && first[at] == listing[j];
        lemma_no_step_goes_again(first, stuck, present, at);
    }
    lemma_failed_steps(steps, stuck, left);
}

/// A pass removes nothing but entries of its listing: a path that is there
/// and that the listing does not hold is there afterwards.
pub proof fn law_unlisted_paths_stay(
    manifest: Set<Seq<Seq<char>>>,
    listing: Seq<Listed>,
    stuck: Set<Seq<Seq<char>>>,
    present: Set<Seq<Seq<char>>>,
    path: Seq<Seq<char>>,
)
    requires
        present.contains(path),
        forall|j: int| 0 <= j < listing.len() ==> (#[trigger] listing[j]).path != path,
    ensures
        left_after(plan_of(manifest, listing), stuck, present).contains(path),
{
    let steps = plan_of(manifest, listing);
    let end = steps.len() as int;
    lemma_plan_of(manifest, listing);
    lemma_left_at_shrinks(steps, stuck, present, 0, end);
    assert(steps.subrange(0, end) =~= steps);
    assert(left_at(steps, stuck, present, end).contains(path));
}

/// A pass does not remove the directory that was read: its path, which has
/// no name, is there afterwards if it was there before.
pub proof fn law_root_stays(
    manifest: Set<Seq<Seq<char>>>,
    nodes: Seq<Node>,
    stuck: Set<Seq<Seq<char>>>,
    present: Set<Seq<Seq<char>>>,
)
    requires
        distinct_names(nodes),
        present.contains(Seq::empty()),
    ensures
        left_after(plan_of(manifest, walk(nodes, Seq::empty())), stuck, present).contains(
            Seq::empty(),
        ),
{
    let listing = walk(nodes, Seq::empty());
    law_listing_is_inside_first(nodes);
    law_unlisted_paths_stay(manifest, listing, stuck, present, Seq::empty());
}

/// A pass does not remove a file that the file list names: no step of the
/// plan is such a file, and where no path is listed twice, the file is there
/// afterwards if it was there before.
pub proof fn law_named_files_stay(
    manifest: Set<Seq<Seq<char>>>,
    listing: Seq<Listed>,
    stuck: Set<Seq<Seq<char>>>,
    present: Set<Seq<Seq<char>>>,
    at: int,
)
    requires
        distinct_paths(listing),
        0 <= at < listing.len(),
        !listing[at].is_dir,
        manifest.contains(listing[at].path),
        present.contains(listing[at].path),
    ensures
        forall|i: int|
            0 <= i < plan_of(manifest, listing).len() ==> (#[trigger] plan_of(
                manifest,
                listing,
            )[i]).is_dir || !manifest.contains(plan_of(manifest, listing)[i].path),
        left_after(plan_of(manifest, listing), stuck, present).contains(listing[at].path),
{
    let steps = plan_of(manifest, listing);
    let end = steps.len() as int;
    let path = listing[at].path;
    lemma_plan_of(manifest, listing);
    lemma_left_at_shrinks(steps, stuck, present, 0, end);
    assert(steps.subrange(0, end) =~= steps);
    assert(left_at(steps, stuck, present, end).contains(path));
}

/// A directory goes last and empty. In the plan for a listing that has
/// what lies inside an entry before the entry, every step for something
/// inside a directory comes before the step for the directory. And where the
/// step for a directory goes well, nothing inside the directory was there
/// at that moment, and nothing inside it is there after the pass.
pub proof fn law_directory_goes_last_and_empty(
    manifest: Set<Seq<Seq<char>>>,
    listing: Seq<Listed>,
    stuck: Set<Seq<Seq<char>>>,
    present: Set<Seq<Seq<char>>>,
    at: int,
)
    requires
        inside_first(listing),
        0 <= at < plan_of(manifest, listing).len(),
        plan_of(manifest, listing)[at].is_dir,
    ensures
        ({
            let steps = plan_of(manifest, listing);
            &&& forall|j: int|
                0 <= j < steps.len() && is_inside((#[trigger] steps[j]).path, steps[at].path)
                    ==> j < at
            &&& outcomes_of(steps, stuck, present)[at] ==> {
                &&& forall|path: Seq<Seq<char>>|
                    is_inside(path, steps[at].path) ==> !(#[trigger] left_at(
                        steps,
                        stuck,
                        present,
                        at,
                    ).contains(path))
                &&& forall|path: Seq<Seq<char>>|
                    is_inside(path, steps[at].path) ==> !(#[trigger] left_after(
                        steps,
                        stuck,
                        present,
                    ).contains(path))
            }
        }),
{
    let steps = plan_of(manifest, listing);
    let end = steps.len() as int;
    lemma_plan_of(manifest, listing);
    lemma_left_at_shrinks(steps, stuck, present, at, end);
    assert(steps.subrange(0, end) =~= steps);
    if outcomes_of(steps, stuck, present)[at] {
        assert forall|path: Seq<Seq<char>>| is_inside(path, steps[at].path) implies !(
        #[trigger] left_after(steps, stuck, present).contains(path)) by {
            assert(!left_at(steps, stuck, present, end).contains(path));
        }
    }
}

} // verus!
