//! What holds of every classification: where recorded paths come from, how
//! deep the walk goes, where it stops, and what it passes upward.

use vstd::prelude::*;

use crate::config::Mode;
use crate::listing::{candidates, file_paths, lemma_candidates, CandidateView};
use crate::paths::{joined, PathView};
use crate::rules::Rules;
use crate::tree::{
    classify, descend, early_verdict, entries_of, listed_files, marker_found, DirTree, Outcome,
};

verus! {

/// The walk goes from the directory `dir` into its entry at position `i`:
/// `dir` can be read, the verdict on it needs a look below, and the entry is
/// an admitted directory.
pub open spec fn enters(dir: DirTree, path: PathView, depth: nat, rules: Rules, i: int) -> bool {
    &&& dir.listing is Some
    &&& 0 <= i < dir.listing->0@.len()
    &&& early_verdict(entries_of(dir.listing->0@), path, depth, rules) is None
    &&& rules.admits(dir.listing->0@[i].entry@.name)
    &&& dir.listing->0@[i].entry@.kind.leads_to_dir()
}

/// Where the walk arrives when, starting at `root`, it takes the entries at
/// the positions of `trail` one after the other: the directory and its path,
/// or `None` where the walk does not go that way.
pub open spec fn walk(root: DirTree, path: PathView, depth: nat, rules: Rules, trail: Seq<int>) -> Option<
    (DirTree, PathView),
>
    decreases trail.len(),
{
    if trail.len() == 0 {
        Some((root, path))
    } else if enters(root, path, depth, rules, trail[0]) {
        let sub = root.listing->0@[trail[0]];
        walk(sub, joined(path, sub.entry@.name), depth + 1, rules, trail.drop_first())
    } else {
        None
    }
}

/// In file mode, the directory `dir` records the file `p`: `p` is the path
/// of an admitted file among its entries, and the verdict on `dir` needs a
/// look at its entries.
pub open spec fn lists_file(dir: DirTree, path: PathView, depth: nat, rules: Rules, p: PathView) -> bool {
    &&& rules.mode == Mode::File
    &&& dir.listing is Some
    &&& early_verdict(entries_of(dir.listing->0@), path, depth, rules) is None
    &&& exists|i: int|
        0 <= i < dir.listing->0@.len() && rules.admits(
            (#[trigger] dir.listing->0@[i]).entry@.name,
        ) && dir.listing->0@[i].entry@.kind.leads_to_file() && p == joined(
            path,
            dir.listing->0@[i].entry@.name,
        )
}

proof fn lemma_file_paths(list: Seq<CandidateView>, p: PathView)
    requires
        file_paths(list).contains(p),
    ensures
        exists|k: int| 0 <= k < list.len() && (#[trigger] list[k]).kind.leads_to_file() && list[k].path == p,
    decreases list.len(),
{
    if list.len() > 0 {
        let front = file_paths(list.drop_last());
        let at = choose|j: int| 0 <= j < file_paths(list).len() && file_paths(list)[j] == p;
        if list.last().kind.leads_to_file() && at == front.len() {
            assert(list[list.len() - 1].path == p);
        } else {
            assert(front[at] == p);
            lemma_file_paths(list.drop_last(), p);
            let k = choose|k: int|
                0 <= k < list.drop_last().len() && (#[trigger] list.drop_last()[k]).kind.leads_to_file()
                    && list.drop_last()[k].path == p;
            assert(list[k] == list.drop_last()[k]);
        }
    }
}

/// A path recorded while descending stems from one of the candidates walked
/// into.
proof fn lemma_descend_source(
    subtrees: Seq<DirTree>,
    depth: nat,
    rules: Rules,
    list: Seq<CandidateView>,
    upto: nat,
    p: PathView,
) -> (k: int)
    requires
        descend(subtrees, depth, rules, list, upto) is Ok,
        descend(subtrees, depth, rules, list, upto)->Ok_0.records.contains(p),
    ensures
        0 <= k < upto <= list.len(),
        depth < rules.depth,
        list[k].kind.leads_to_dir(),
        0 <= list[k].index < subtrees.len(),
        classify(subtrees[list[k].index], list[k].path, depth + 1, rules) is Ok,
        classify(subtrees[list[k].index], list[k].path, depth + 1, rules)->Ok_0.records.contains(p),
    decreases upto,
{
    let all = descend(subtrees, depth, rules, list, upto)->Ok_0;
    if upto == 0 || upto > list.len() || depth >= rules.depth {
        assert(all.records.len() == 0);
        0
    } else {
        let front = descend(subtrees, depth, rules, list, (upto - 1) as nat)->Ok_0;
        let c = list[upto - 1];
        if front.records.contains(p) {
            lemma_descend_source(subtrees, depth, rules, list, (upto - 1) as nat, p)
        } else {
            let at = choose|j: int| 0 <= j < all.records.len() && all.records[j] == p;
            if c.kind.leads_to_dir() && 0 <= c.index < subtrees.len() {
                let o = classify(subtrees[c.index], c.path, depth + 1, rules)->Ok_0;
                if at < front.records.len() {
                    assert(front.records[at] == p);
                } else {
                    assert(o.records[at - front.records.len()] == p);
                }
            } else {
                assert(front.records[at] == p);
            }
            upto - 1
        }
    }
}

/// Every recorded path has an origin. Where classifying `root` records `p`,
/// the walk reaches some directory, along the returned trail, that is `p`
/// itself or that, in file mode, lists `p` as one of its files.
pub proof fn lemma_record_origin(root: DirTree, path: PathView, depth: nat, rules: Rules, p: PathView) -> (trail:
    Seq<int>)
    requires
        classify(root, path, depth, rules) is Ok,
        classify(root, path, depth, rules)->Ok_0.records.contains(p),
    ensures
        walk(root, path, depth, rules, trail) is Some,
        ({
            let (dir, at) = walk(root, path, depth, rules, trail)->Some_0;
            p == at || lists_file(dir, at, depth + trail.len(), rules, p)
        }),
    decreases rules.depth - depth,
{
    let o = classify(root, path, depth, rules)->Ok_0;
    let at = choose|j: int| 0 <= j < o.records.len() && o.records[j] == p;
    let subtrees = root.listing->0@;
    let listing = entries_of(subtrees);
    if root.listing is None {
        Seq::empty()
    } else if early_verdict(listing, path, depth, rules) is Some {
        Seq::empty()
    } else {
        let list = candidates(path, listing, rules);
        let files = listed_files(list, rules);
        let below = descend(subtrees, depth, rules, list, list.len())->Ok_0;
        lemma_candidates(path, listing, rules);
        if p == path {
            Seq::empty()
        } else if files.contains(p) {
            lemma_file_paths(list, p);
            let k = choose|k: int|
                0 <= k < list.len() && (#[trigger] list[k]).kind.leads_to_file() && list[k].path == p;
            let i = list[k].index;
            assert(subtrees[i].entry@ == listing[i]);
            Seq::empty()
        } else {
            assert(below.records.contains(p)) by {
                if at < files.len() {
                    assert(files[at] == p);
                } else if at < files.len() + below.records.len() {
                    assert(below.records[at - files.len()] == p);
                }
            }
            let k = lemma_descend_source(subtrees, depth, rules, list, list.len(), p);
            let c = list[k];
            assert(subtrees[c.index].entry@ == listing[c.index]);
            let rest = lemma_record_origin(subtrees[c.index], c.path, depth + 1, rules, p);
            let trail = seq![c.index] + rest;
            assert(trail.drop_first() =~= rest);
            assert(enters(root, path, depth, rules, c.index));
            trail
        }
    }
}

/// Depth bound. A directory that the walk reaches below the root lies at
/// most `rules.depth` levels below it.
pub proof fn lemma_depth_bound(root: DirTree, path: PathView, depth: nat, rules: Rules, trail: Seq<int>)
    requires
        walk(root, path, depth, rules, trail) is Some,
        trail.len() > 0,
    ensures
        depth + trail.len() <= rules.depth,
    decreases trail.len(),
{
    if trail.len() > 1 {
        let sub = root.listing->0@[trail[0]];
        lemma_depth_bound(sub, joined(path, sub.entry@.name), depth + 1, rules, trail.drop_first());
    }
}

/// Depth bound, for recorded paths. Where classifying a scan root records
/// `p`, then `p` is the path of a directory at most `rules.depth` levels
/// below the root, or of a file in a directory less than `rules.depth`
/// levels below it.
pub proof fn lemma_records_within_depth(root: DirTree, path: PathView, rules: Rules, p: PathView) -> (trail:
    Seq<int>)
    requires
        classify(root, path, 0, rules) is Ok,
        classify(root, path, 0, rules)->Ok_0.records.contains(p),
    ensures
        walk(root, path, 0, rules, trail) is Some,
        ({
            let (dir, at) = walk(root, path, 0, rules, trail)->Some_0;
            ||| p == at && trail.len() <= rules.depth
            ||| lists_file(dir, at, trail.len(), rules, p) && trail.len() < rules.depth
        }),
{
    let trail = lemma_record_origin(root, path, 0, rules, p);
    if trail.len() > 0 {
        lemma_depth_bound(root, path, 0, rules, trail);
    }
    trail
}

/// Walking a trail in two parts arrives where walking it whole does.
pub proof fn lemma_walk_split(
    root: DirTree,
    path: PathView,
    depth: nat,
    rules: Rules,
    trail: Seq<int>,
    cut: int,
)
    requires
        0 <= cut <= trail.len(),
        walk(root, path, depth, rules, trail) is Some,
    ensures
        walk(root, path, depth, rules, trail.take(cut)) is Some,
        ({
            let (dir, at) = walk(root, path, depth, rules, trail.take(cut))->Some_0;
            walk(dir, at, depth + cut as nat, rules, trail.skip(cut)) == walk(
                root,
                path,
                depth,
                rules,
                trail,
            )
        }),
    decreases cut,
{
    if cut == 0 {
        assert(trail.take(0) =~= Seq::<int>::empty());
        assert(trail.skip(0) =~= trail);
    } else {
        let sub = root.listing->0@[trail[0]];
        let rest = trail.drop_first();
        lemma_walk_split(sub, joined(path, sub.entry@.name), depth + 1, rules, rest, cut - 1);
        assert(trail.take(cut).drop_first() =~= rest.take(cut - 1));
        assert(trail.skip(cut) =~= rest.skip(cut - 1));
        assert(trail.take(cut)[0] == trail[0]);
    }
}

/// Marker short-circuit. A directory that holds a marker, where
/// `yield_on_marker` is set, records itself and nothing else.
pub proof fn lemma_marker_short_circuit(root: DirTree, path: PathView, depth: nat, rules: Rules)
    requires
        root.listing is Some,
        rules.yield_on_marker,
        marker_found(entries_of(root.listing->0@), rules),
    ensures
        classify(root, path, depth, rules) == Ok::<Outcome, Seq<char>>(
            Outcome { records: seq![path], yields: true },
        ),
{
}

/// Marker short-circuit, for what lies below. Where `yield_on_marker` is
/// set, the walk never goes beyond a directory that holds a marker: no
/// directory that it passes through on a trail holds one.
pub proof fn lemma_nothing_below_marker(
    root: DirTree,
    path: PathView,
    depth: nat,
    rules: Rules,
    trail: Seq<int>,
    cut: int,
)
    requires
        rules.yield_on_marker,
        0 <= cut < trail.len(),
        walk(root, path, depth, rules, trail) is Some,
    ensures
        walk(root, path, depth, rules, trail.take(cut)) is Some,
        ({
            let (dir, at) = walk(root, path, depth, rules, trail.take(cut))->Some_0;
            dir.listing is Some && !marker_found(entries_of(dir.listing->0@), rules)
        }),
{
    lemma_walk_split(root, path, depth, rules, trail, cut);
    let (dir, at) = walk(root, path, depth, rules, trail.take(cut))->Some_0;
    assert(trail.skip(cut).len() > 0);
    assert(enters(dir, at, depth + cut as nat, rules, trail.skip(cut)[0]));
}

/// Marker short-circuit, for recorded paths. Where `yield_on_marker` is
/// set, nothing is recorded from below a directory that holds a marker:
/// every recorded path stems from a directory reached through directories
/// that hold none.
pub proof fn lemma_records_stop_at_markers(root: DirTree, path: PathView, rules: Rules, p: PathView) -> (trail:
    Seq<int>)
    requires
        rules.yield_on_marker,
        classify(root, path, 0, rules) is Ok,
        classify(root, path, 0, rules)->Ok_0.records.contains(p),
    ensures
        walk(root, path, 0, rules, trail) is Some,
        ({
            let (dir, at) = walk(root, path, 0, rules, trail)->Some_0;
            p == at || lists_file(dir, at, trail.len(), rules, p)
        }),
        forall|cut: int|
            0 <= cut < trail.len() ==> {
                let above = #[trigger] walk(root, path, 0, rules, trail.take(cut));
                above is Some && above->Some_0.0.listing is Some && !marker_found(
                    entries_of(above->Some_0.0.listing->0@),
                    rules,
                )
            },
{
    let trail = lemma_record_origin(root, path, 0, rules, p);
    assert forall|cut: int| 0 <= cut < trail.len() implies {
        let above = #[trigger] walk(root, path, 0, rules, trail.take(cut));
        above is Some && above->Some_0.0.listing is Some && !marker_found(
            entries_of(above->Some_0.0.listing->0@),
            rules,
        )
    } by {
        lemma_nothing_below_marker(root, path, 0, rules, trail, cut);
    }
    trail
}

/// Ignore precedence, for recorded paths. Nothing is recorded from an
/// ignored directory or from below one, even where it holds markers: every
/// recorded path stems from a directory reached under names that are not
/// ignored.
pub proof fn lemma_records_avoid_ignored(root: DirTree, path: PathView, rules: Rules, p: PathView) -> (trail:
    Seq<int>)
    requires
        classify(root, path, 0, rules) is Ok,
        classify(root, path, 0, rules)->Ok_0.records.contains(p),
    ensures
        walk(root, path, 0, rules, trail) is Some,
        ({
            let (dir, at) = walk(root, path, 0, rules, trail)->Some_0;
            p == at || lists_file(dir, at, trail.len(), rules, p)
        }),
        forall|cut: int|
            0 <= cut < trail.len() ==> {
                let above = #[trigger] walk(root, path, 0, rules, trail.take(cut));
                &&& above is Some
                &&& above->Some_0.0.listing is Some
                &&& 0 <= trail[cut] < above->Some_0.0.listing->0@.len()
                &&& !rules.is_ignored(above->Some_0.0.listing->0@[trail[cut]].entry@.name)
            },
{
    let trail = lemma_record_origin(root, path, 0, rules, p);
    assert forall|cut: int| 0 <= cut < trail.len() implies {
        let above = #[trigger] walk(root, path, 0, rules, trail.take(cut));
        &&& above is Some
        &&& above->Some_0.0.listing is Some
        &&& 0 <= trail[cut] < above->Some_0.0.listing->0@.len()
        &&& !rules.is_ignored(above->Some_0.0.listing->0@[trail[cut]].entry@.name)
    } by {
        lemma_ignored_never_entered(root, path, 0, rules, trail, cut);
    }
    trail
}

/// Ignore precedence. The walk never goes into an entry whose name is
/// ignored: every directory on a trail that it takes was entered under a
/// name that the rules do not ignore, whatever the directory holds.
pub proof fn lemma_ignored_never_entered(
    root: DirTree,
    path: PathView,
    depth: nat,
    rules: Rules,
    trail: Seq<int>,
    cut: int,
)
    requires
        0 <= cut < trail.len(),
        walk(root, path, depth, rules, trail) is Some,
    ensures
        walk(root, path, depth, rules, trail.take(cut)) is Some,
        ({
            let (dir, at) = walk(root, path, depth, rules, trail.take(cut))->Some_0;
            &&& dir.listing is Some
            &&& 0 <= trail[cut] < dir.listing->0@.len()
            &&& !rules.is_ignored(dir.listing->0@[trail[cut]].entry@.name)
        }),
{
    lemma_walk_split(root, path, depth, rules, trail, cut);
    let (dir, at) = walk(root, path, depth, rules, trail.take(cut))->Some_0;
    assert(trail.skip(cut).len() > 0);
    assert(trail.skip(cut)[0] == trail[cut]);
    assert(enters(dir, at, depth + cut as nat, rules, trail.skip(cut)[0]));
}

/// An entry whose name is ignored is never gone into, even where it is a
/// directory that holds markers.
pub proof fn lemma_ignored_not_entered(dir: DirTree, path: PathView, depth: nat, rules: Rules, i: int)
    requires
        dir.listing is Some,
        0 <= i < dir.listing->0@.len(),
        rules.is_ignored(dir.listing->0@[i].entry@.name),
    ensures
        !enters(dir, path, depth, rules, i),
        forall|rest: Seq<int>| walk(dir, path, depth, rules, seq![i] + rest) is None,
{
    assert forall|rest: Seq<int>| walk(dir, path, depth, rules, seq![i] + rest) is None by {
        assert((seq![i] + rest)[0] == i);
    }
}

/// What the walk into the first `upto` candidates passes on from the
/// candidate at position `k`: its records, and that it qualifies.
proof fn lemma_descend_passes(
    subtrees: Seq<DirTree>,
    depth: nat,
    rules: Rules,
    list: Seq<CandidateView>,
    upto: nat,
    k: int,
)
    requires
        descend(subtrees, depth, rules, list, upto) is Ok,
        0 <= k < upto <= list.len(),
        depth < rules.depth,
        list[k].kind.leads_to_dir(),
        0 <= list[k].index < subtrees.len(),
    ensures
        classify(subtrees[list[k].index], list[k].path, depth + 1, rules) is Ok,
        ({
            let o = classify(subtrees[list[k].index], list[k].path, depth + 1, rules)->Ok_0;
            let all = descend(subtrees, depth, rules, list, upto)->Ok_0;
            &&& o.yields ==> all.yields
            &&& forall|p: PathView| o.records.contains(p) ==> all.records.contains(p)
        }),
    decreases upto,
{
    let all = descend(subtrees, depth, rules, list, upto)->Ok_0;
    let front = descend(subtrees, depth, rules, list, (upto - 1) as nat)->Ok_0;
    let c = list[upto - 1];
    if k < upto - 1 {
        lemma_descend_passes(subtrees, depth, rules, list, (upto - 1) as nat, k);
        let o = classify(subtrees[list[k].index], list[k].path, depth + 1, rules)->Ok_0;
        assert forall|p: PathView| o.records.contains(p) implies all.records.contains(p) by {
            let j = choose|j: int| 0 <= j < front.records.len() && front.records[j] == p;
            assert(all.records[j] == p);
        }
    } else {
        let o = classify(subtrees[c.index], c.path, depth + 1, rules)->Ok_0;
        assert forall|p: PathView| o.records.contains(p) implies all.records.contains(p) by {
            let j = choose|j: int| 0 <= j < o.records.len() && o.records[j] == p;
            assert(all.records[front.records.len() + j] == p);
        }
    }
}

/// What a directory passes on from a subdirectory that the walk goes into:
/// the subdirectory's records are among its own, and where the subdirectory
/// qualifies, so does it.
pub proof fn lemma_step_passes(root: DirTree, path: PathView, depth: nat, rules: Rules, i: int)
    requires
        classify(root, path, depth, rules) is Ok,
        enters(root, path, depth, rules, i),
    ensures
        ({
            let sub = root.listing->0@[i];
            let o = classify(sub, joined(path, sub.entry@.name), depth + 1, rules);
            let all = classify(root, path, depth, rules)->Ok_0;
            &&& o is Ok
            &&& o->Ok_0.yields ==> all.yields
            &&& forall|p: PathView| o->Ok_0.records.contains(p) ==> all.records.contains(p)
        }),
{
    let subtrees = root.listing->0@;
    let listing = entries_of(subtrees);
    let list = candidates(path, listing, rules);
    let files = listed_files(list, rules);
    lemma_candidates(path, listing, rules);
    assert(listing[i] == subtrees[i].entry@);
    let k = choose|k: int| 0 <= k < list.len() && list[k].index == i;
    lemma_descend_passes(subtrees, depth, rules, list, list.len(), k);
    let below = descend(subtrees, depth, rules, list, list.len())->Ok_0;
    let all = classify(root, path, depth, rules)->Ok_0;
    let o = classify(subtrees[i], joined(path, subtrees[i].entry@.name), depth + 1, rules)->Ok_0;
    assert forall|p: PathView| o.records.contains(p) implies all.records.contains(p) by {
        let j = choose|j: int| 0 <= j < below.records.len() && below.records[j] == p;
        assert((files + below.records)[files.len() + j] == p);
        assert(all.records[files.len() + j] == p);
    }
}

/// What the root takes over from a directory that the walk reaches: the
/// directory is classified without failure, its records are among the
/// root's, and where it qualifies, so does the root.
pub proof fn lemma_walk_passes(root: DirTree, path: PathView, depth: nat, rules: Rules, trail: Seq<int>)
    requires
        classify(root, path, depth, rules) is Ok,
        walk(root, path, depth, rules, trail) is Some,
    ensures
        ({
            let (dir, at) = walk(root, path, depth, rules, trail)->Some_0;
            let o = classify(dir, at, depth + trail.len(), rules);
            let all = classify(root, path, depth, rules)->Ok_0;
            &&& o is Ok
            &&& o->Ok_0.yields ==> all.yields
            &&& forall|p: PathView| o->Ok_0.records.contains(p) ==> all.records.contains(p)
        }),
    decreases trail.len(),
{
    if trail.len() > 0 {
        let sub = root.listing->0@[trail[0]];
        lemma_step_passes(root, path, depth, rules, trail[0]);
        lemma_walk_passes(sub, joined(path, sub.entry@.name), depth + 1, rules, trail.drop_first());
    }
}

/// A directory that qualifies is itself recorded where intermediate paths
/// are included.
pub proof fn lemma_qualifying_recorded(root: DirTree, path: PathView, depth: nat, rules: Rules)
    requires
        rules.include_intermediate_paths,
        classify(root, path, depth, rules) is Ok,
        classify(root, path, depth, rules)->Ok_0.yields,
    ensures
        classify(root, path, depth, rules)->Ok_0.records.contains(path),
{
    let o = classify(root, path, depth, rules)->Ok_0;
    let listing = entries_of(root.listing->0@);
    if early_verdict(listing, path, depth, rules) is Some {
        assert(o.records[0] == path);
    } else {
        assert(o.records[o.records.len() - 1] == path);
    }
}

/// Upward propagation. Where intermediate paths are included and a
/// directory that the walk reaches qualifies, every directory on the way
/// down to it, the scan root included, is recorded.
pub proof fn lemma_upward_propagation(
    root: DirTree,
    path: PathView,
    rules: Rules,
    trail: Seq<int>,
    cut: int,
)
    requires
        rules.include_intermediate_paths,
        classify(root, path, 0, rules) is Ok,
        walk(root, path, 0, rules, trail) is Some,
        ({
            let (dir, at) = walk(root, path, 0, rules, trail)->Some_0;
            classify(dir, at, trail.len(), rules) is Ok && classify(
                dir,
                at,
                trail.len(),
                rules,
            )->Ok_0.yields
        }),
        0 <= cut <= trail.len(),
    ensures
        walk(root, path, 0, rules, trail.take(cut)) is Some,
        classify(root, path, 0, rules)->Ok_0.records.contains(
            walk(root, path, 0, rules, trail.take(cut))->Some_0.1,
        ),
{
    lemma_walk_split(root, path, 0, rules, trail, cut);
    let (mid, at) = walk(root, path, 0, rules, trail.take(cut))->Some_0;
    lemma_walk_passes(root, path, 0, rules, trail.take(cut));
    lemma_walk_passes(mid, at, cut as nat, rules, trail.skip(cut));
    lemma_qualifying_recorded(mid, at, cut as nat, rules);
}

} // verus!
