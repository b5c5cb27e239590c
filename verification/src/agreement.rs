//! The machine and the recursive walk agree: a machine whose requests are
//! answered from a directory tree ends up recording what classifying that
//! tree records.

use vstd::prelude::*;

use crate::entry::EntryView;
use crate::listing::{candidates, dir_paths, lemma_candidates, CandidateView};
use crate::paths::{
    inserted, inserted_all, lemma_inserted_all, lemma_inserted_concat, lemma_inserted_push,
    PathView,
};
use crate::rules::Rules;
use crate::scan::{advance, fed, settle, started, FrameView, ScanView};
use crate::tree::{
    classify, descend, early_verdict, entries_of, finish, lemma_descend_failure, listed_files,
    marker_found, DirTree, Outcome,
};

verus! {

/// What reading `tree` as a directory hands to the machine.
pub open spec fn listing_of(tree: DirTree) -> Option<Seq<EntryView>> {
    match tree.listing {
        Some(subtrees) => Some(entries_of(subtrees@)),
        None => None,
    }
}

/// The state of a machine that wants the directory `tree`, at `depth`, once
/// it has been given the listing of `tree` and, for every subdirectory that
/// it then wants, has been served from that subdirectory in the same way.
pub open spec fn served(s: ScanView, tree: DirTree, depth: nat, rules: Rules) -> Result<
    ScanView,
    Seq<char>,
>
    decreases rules.depth - depth, 1nat, 0nat,
{
    if s.wanted is Some && s.wanted->Some_0.1 == depth {
        let path = s.wanted->Some_0.0;
        match fed(s, listing_of(tree), rules) {
            Err(name) => Err(name),
            Ok(next) => match tree.listing {
                None => Ok(next),
                Some(subtrees) => {
                    let entries = entries_of(subtrees@);
                    if early_verdict(entries, path, depth, rules) is Some {
                        Ok(next)
                    } else {
                        served_below(
                            next,
                            subtrees@,
                            candidates(path, entries, rules),
                            0,
                            depth,
                            rules,
                        )
                    }
                },
            },
        }
    } else {
        Ok(s)
    }
}

/// The state once the machine has been served from each directory among the
/// candidates at position `from` and after, in order.
pub open spec fn served_below(
    s: ScanView,
    subtrees: Seq<DirTree>,
    list: Seq<CandidateView>,
    from: nat,
    depth: nat,
    rules: Rules,
) -> Result<ScanView, Seq<char>>
    decreases rules.depth - depth, 0nat, list.len() - from,
{
    if from >= list.len() || depth >= rules.depth {
        Ok(s)
    } else {
        let c = list[from as int];
        if c.kind.leads_to_dir() && 0 <= c.index < subtrees.len() {
            match served(s, subtrees[c.index], depth + 1, rules) {
                Err(name) => Err(name),
                Ok(next) => served_below(next, subtrees, list, from + 1, depth, rules),
            }
        } else {
            served_below(s, subtrees, list, from + 1, depth, rules)
        }
    }
}

/// The machine's state while it walks the subdirectories of the directory
/// at `path`, after the first `k` candidates have been dealt with and before
/// it takes up the walk again.
spec fn midway(
    s: ScanView,
    subtrees: Seq<DirTree>,
    path: PathView,
    depth: nat,
    rules: Rules,
    k: nat,
) -> ScanView {
    let entries = entries_of(subtrees);
    let list = candidates(path, entries, rules);
    let files = listed_files(list, rules);
    let below = descend(subtrees, depth, rules, list, k)->Ok_0;
    ScanView {
        stack: s.stack.push(
            FrameView {
                path,
                depth,
                yields: marker_found(entries, rules) || files.len() > 0 || below.yields,
                pending: dir_paths(list),
                next: dir_paths(list.take(k as int)).len(),
            },
        ),
        wanted: None,
        verdict: s.verdict,
        output: inserted_all(s.output, files + below.records),
    }
}

proof fn lemma_dir_paths_prefix(list: Seq<CandidateView>, k: int)
    requires
        0 <= k <= list.len(),
    ensures
        dir_paths(list.take(k)).len() <= dir_paths(list).len(),
        forall|i: int|
            0 <= i < dir_paths(list.take(k)).len() ==> dir_paths(list.take(k))[i] == dir_paths(
                list,
            )[i],
    decreases list.len() - k,
{
    if k == list.len() {
        assert(list.take(k) =~= list);
    } else {
        lemma_dir_paths_prefix(list, k + 1);
        assert(list.take(k + 1).drop_last() =~= list.take(k));
    }
}

proof fn lemma_dir_paths_step(list: Seq<CandidateView>, k: int)
    requires
        0 <= k < list.len(),
    ensures
        list[k].kind.leads_to_dir() ==> dir_paths(list.take(k + 1)) == dir_paths(
            list.take(k),
        ).push(list[k].path) && dir_paths(list.take(k)).len() < dir_paths(list).len()
            && dir_paths(list)[dir_paths(list.take(k)).len() as int] == list[k].path,
        !list[k].kind.leads_to_dir() ==> dir_paths(list.take(k + 1)) == dir_paths(list.take(k)),
{
    assert(list.take(k + 1).drop_last() =~= list.take(k));
    lemma_dir_paths_prefix(list, k + 1);
}

/// The machine, served from a tree, ends in the state that the recursive
/// walk's outcome settles: the records of `classify` inserted in order, and
/// its verdict passed on. It fails exactly where `classify` fails, on the
/// same name.
pub proof fn lemma_served(s: ScanView, tree: DirTree, path: PathView, depth: nat, rules: Rules)
    requires
        s.wanted == Some((path, depth)),
    ensures
        served(s, tree, depth, rules) == (match classify(tree, path, depth, rules) {
            Ok(outcome) => Ok::<ScanView, Seq<char>>(
                settle(
                    ScanView {
                        wanted: None,
                        output: inserted_all(s.output, outcome.records),
                        ..s
                    },
                    outcome.yields,
                    rules,
                ),
            ),
            Err(name) => Err(name),
        }),
    decreases rules.depth - depth, 1nat, 0nat,
{
    match tree.listing {
        None => {},
        Some(boxed) => {
            let subtrees = boxed@;
            let entries = entries_of(subtrees);
            if early_verdict(entries, path, depth, rules) is None {
                let list = candidates(path, entries, rules);
                let files = listed_files(list, rules);
                let start = midway(s, subtrees, path, depth, rules, 0);
                assert(list.take(0) =~= Seq::<CandidateView>::empty());
                assert(files + Seq::<PathView>::empty() =~= files);
                assert(fed(s, listing_of(tree), rules) == Ok::<ScanView, Seq<char>>(
                    advance(start, rules),
                ));
                lemma_served_below(s, subtrees, path, depth, rules, 0);
                match descend(subtrees, depth, rules, list, list.len()) {
                    Err(_) => {},
                    Ok(below) => {
                        let end = midway(s, subtrees, path, depth, rules, list.len());
                        assert(list.take(list.len() as int) =~= list);
                        let yields = marker_found(entries, rules) || files.len() > 0
                            || below.yields;
                        let outcome = finish(path, rules, yields, files + below.records);
                        assert(end.stack.drop_last() =~= s.stack);
                        if yields && rules.include_intermediate_paths {
                            lemma_inserted_push(s.output, files + below.records, path);
                        }
                        assert(advance(end, rules) == settle(
                            ScanView {
                                wanted: None,
                                output: inserted_all(s.output, outcome.records),
                                ..s
                            },
                            yields,
                            rules,
                        ));
                    },
                }
            }
        },
    }
}

proof fn lemma_served_below(
    s: ScanView,
    subtrees: Seq<DirTree>,
    path: PathView,
    depth: nat,
    rules: Rules,
    k: nat,
)
    requires
        depth < rules.depth,
        k <= candidates(path, entries_of(subtrees), rules).len(),
        descend(subtrees, depth, rules, candidates(path, entries_of(subtrees), rules), k) is Ok,
    ensures
        ({
            let list = candidates(path, entries_of(subtrees), rules);
            served_below(
                advance(midway(s, subtrees, path, depth, rules, k), rules),
                subtrees,
                list,
                k,
                depth,
                rules,
            ) == (match descend(subtrees, depth, rules, list, list.len()) {
                Ok(_) => Ok::<ScanView, Seq<char>>(
                    advance(midway(s, subtrees, path, depth, rules, list.len()), rules),
                ),
                Err(name) => Err(name),
            })
        }),
    decreases rules.depth - depth, 0nat, candidates(path, entries_of(subtrees), rules).len() - k,
{
    let entries = entries_of(subtrees);
    let list = candidates(path, entries, rules);
    let files = listed_files(list, rules);
    let here = midway(s, subtrees, path, depth, rules, k);
    if k < list.len() {
        let c = list[k as int];
        let front = descend(subtrees, depth, rules, list, k)->Ok_0;
        lemma_dir_paths_step(list, k as int);
        lemma_candidates(path, entries, rules);
        if c.kind.leads_to_dir() && 0 <= c.index < subtrees.len() {
            let top = here.stack.last();
            let asking = advance(here, rules);
            assert(here.stack.drop_last() =~= s.stack);
            assert(asking.wanted == Some((c.path, depth + 1)));
            lemma_served(asking, subtrees[c.index], c.path, depth + 1, rules);
            match classify(subtrees[c.index], c.path, depth + 1, rules) {
                Err(name) => {
                    assert(descend(subtrees, depth, rules, list, k + 1) == Err::<
                        Outcome,
                        Seq<char>,
                    >(name));
                    lemma_descend_failure(subtrees, depth, rules, list, k + 1, list.len());
                },
                Ok(o) => {
                    let next = midway(s, subtrees, path, depth, rules, k + 1);
                    lemma_inserted_concat(s.output, files + front.records, o.records);
                    assert((files + front.records) + o.records =~= files + (front.records
                        + o.records));
                    let answered = ScanView {
                        wanted: None,
                        output: inserted_all(asking.output, o.records),
                        ..asking
                    };
                    assert(asking.stack.drop_last() =~= s.stack);
                    assert(answered.stack.drop_last().push(
                        FrameView {
                            yields: answered.stack.last().yields || o.yields,
                            ..answered.stack.last()
                        },
                    ) =~= next.stack);
                    assert(settle(answered, o.yields, rules) == advance(next, rules));
                    lemma_served_below(s, subtrees, path, depth, rules, k + 1);
                },
            }
        } else {
            assert(descend(subtrees, depth, rules, list, k + 1) == descend(
                subtrees,
                depth,
                rules,
                list,
                k,
            ));
            assert(midway(s, subtrees, path, depth, rules, k + 1) == here);
            lemma_served_below(s, subtrees, path, depth, rules, k + 1);
        }
    }
}

/// Agreement for a whole scan root. A machine started on `root` and served
/// from `tree` ends with no directory wanted, with the verdict of
/// `classify`, and with the root, where intermediate paths are included,
/// followed by the records of `classify` inserted in order.
pub proof fn lemma_scan_agrees(tree: DirTree, root: PathView, rules: Rules, output: Seq<PathView>)
    ensures
        served(started(root, rules, output), tree, 0, rules) == (match classify(
            tree,
            root,
            0,
            rules,
        ) {
            Ok(outcome) => Ok::<ScanView, Seq<char>>(
                ScanView {
                    stack: Seq::empty(),
                    wanted: None,
                    verdict: Some(outcome.yields),
                    output: inserted_all(started(root, rules, output).output, outcome.records),
                },
            ),
            Err(name) => Err(name),
        }),
{
    lemma_served(started(root, rules, output), tree, root, 0, rules);
}

/// Root inclusion. Where intermediate paths are included, a machine that
/// was started on `root` and served to the end holds `root` among its
/// records, whatever the tree holds; and it still holds, in their order, the
/// paths it was started with.
pub proof fn lemma_root_always_listed(
    tree: DirTree,
    root: PathView,
    rules: Rules,
    output: Seq<PathView>,
)
    requires
        served(started(root, rules, output), tree, 0, rules) is Ok,
    ensures
        ({
            let end = served(started(root, rules, output), tree, 0, rules)->Ok_0;
            &&& rules.include_intermediate_paths ==> end.output.contains(root)
            &&& output.len() <= end.output.len()
            &&& forall|i: int| 0 <= i < output.len() ==> end.output[i] == output[i]
            &&& output.no_duplicates() ==> end.output.no_duplicates()
        }),
{
    lemma_scan_agrees(tree, root, rules, output);
    let begun = started(root, rules, output).output;
    let records = classify(tree, root, 0, rules)->Ok_0.records;
    let end = served(started(root, rules, output), tree, 0, rules)->Ok_0;
    lemma_inserted_all(begun, records);
    assert(end.output == inserted_all(begun, records));
    if rules.include_intermediate_paths {
        lemma_inserted_push(output, Seq::empty(), root);
        lemma_inserted_all(output, seq![root]);
        assert(begun == inserted_all(output, seq![root]));
        if !output.contains(root) {
            assert(begun[begun.len() - 1] == root);
        }
        assert(begun.contains(root));
    }
    assert forall|i: int| 0 <= i < output.len() implies end.output[i] == output[i] by {
        assert(begun[i] == output[i]);
    }
}

} // verus!
