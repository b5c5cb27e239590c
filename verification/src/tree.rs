//! Classification of a directory tree held in memory: the recursive walk,
//! and the function that says what it records.

use vstd::prelude::*;

use crate::config::Mode;
use crate::entry::{entry_views, is_dir, is_file, DirEntry, EntryKind, EntryView};
use crate::error::{undecodable_text, PickerError};
use crate::listing::{
    candidate_views, candidates, file_paths, find_marker, first_undecodable,
    get_not_ignored_dir_entries, lemma_candidates, marker_scan, CandidateView,
};
use crate::paths::{
    inserted, inserted_all, lemma_inserted_all, lemma_inserted_concat, lemma_inserted_push,
    PathSet, PathView,
};
use crate::rules::{RuleSet, Rules};

verus! {

/// A directory entry together with what lies below it.
#[derive(Debug)]
pub struct DirTree {
    pub entry: DirEntry,
    /// What reading this entry as a directory returns, in the order read;
    /// `None` where it cannot be read.
    pub listing: Option<Vec<DirTree>>,
}

impl DirTree {
    /// A regular file.
    pub fn file(name: &str) -> (tree: DirTree)
        ensures
            tree.entry@ == (EntryView { name: name@, decodable: true, kind: EntryKind::File }),
            tree.listing is None,
    {
        DirTree { entry: DirEntry::new(name, EntryKind::File), listing: None }
    }

    /// A directory that holds `subtrees`, in that order.
    pub fn dir(name: &str, subtrees: Vec<DirTree>) -> (tree: DirTree)
        ensures
            tree.entry@ == (EntryView { name: name@, decodable: true, kind: EntryKind::Directory }),
            tree.listing == Some(subtrees),
    {
        DirTree { entry: DirEntry::new(name, EntryKind::Directory), listing: Some(subtrees) }
    }

    /// A directory that cannot be read.
    pub fn locked_dir(name: &str) -> (tree: DirTree)
        ensures
            tree.entry@ == (EntryView { name: name@, decodable: true, kind: EntryKind::Directory }),
            tree.listing is None,
    {
        DirTree { entry: DirEntry::new(name, EntryKind::Directory), listing: None }
    }
}

/// The entries at the top of each of `subtrees`.
pub open spec fn entries_of(subtrees: Seq<DirTree>) -> Seq<EntryView> {
    Seq::new(subtrees.len(), |i: int| subtrees[i].entry@)
}

/// What classifying one directory comes to: the paths it records, in the
/// order they are recorded, and whether the directory qualifies.
pub struct Outcome {
    pub records: Seq<PathView>,
    pub yields: bool,
}

/// Nothing recorded, and the directory does not qualify.
pub open spec fn nothing() -> Outcome {
    Outcome { records: Seq::empty(), yields: false }
}

/// Whether a marker scan of the listing counts: in directory mode, and a
/// marker is found.
pub open spec fn marker_found(listing: Seq<EntryView>, rules: Rules) -> bool {
    rules.mode == Mode::Dir && marker_scan(listing, rules) is Found
}

/// The verdict on a readable directory where it can be given without
/// looking below it: a name that cannot be decoded, a marker that ends the
/// branch, or the depth limit.
pub open spec fn early_verdict(
    listing: Seq<EntryView>,
    path: PathView,
    depth: nat,
    rules: Rules,
) -> Option<Result<Outcome, Seq<char>>> {
    let found = marker_found(listing, rules);
    if rules.mode == Mode::Dir && marker_scan(listing, rules) is Undecodable {
        Some(Err(listing[marker_scan(listing, rules)->Undecodable_0].name))
    } else if found && rules.yield_on_marker {
        Some(Ok(Outcome { records: seq![path], yields: true }))
    } else if depth >= rules.depth {
        Some(
            Ok(
                Outcome {
                    records: if found {
                        seq![path]
                    } else {
                        Seq::empty()
                    },
                    yields: found,
                },
            ),
        )
    } else if first_undecodable(listing) is Some {
        Some(Err(listing[first_undecodable(listing)->Some_0].name))
    } else {
        None
    }
}

/// The outcome of a directory once its files and subdirectories have been
/// dealt with: a qualifying directory is itself recorded, last, where
/// intermediate paths are included.
pub open spec fn finish(path: PathView, rules: Rules, yields: bool, records: Seq<PathView>) -> Outcome {
    Outcome {
        records: if yields && rules.include_intermediate_paths {
            records.push(path)
        } else {
            records
        },
        yields,
    }
}

/// The files that a directory records before it descends: in file mode the
/// candidates that are files, otherwise none.
pub open spec fn listed_files(list: Seq<CandidateView>, rules: Rules) -> Seq<PathView> {
    if rules.mode == Mode::File {
        file_paths(list)
    } else {
        Seq::empty()
    }
}

/// What classifying the directory `tree`, found at `path` and `depth` levels
/// below the scan root, comes to; `Err` holds the name that cannot be
/// decoded.
pub open spec fn classify(tree: DirTree, path: PathView, depth: nat, rules: Rules) -> Result<
    Outcome,
    Seq<char>,
>
    decreases rules.depth - depth, 1nat, 0nat,
{
    match tree.listing {
        None => Ok(nothing()),
        Some(subtrees) => {
            let listing = entries_of(subtrees@);
            match early_verdict(listing, path, depth, rules) {
                Some(verdict) => verdict,
                None => {
                    let list = candidates(path, listing, rules);
                    let files = listed_files(list, rules);
                    match descend(subtrees@, depth, rules, list, list.len()) {
                        Err(name) => Err(name),
                        Ok(below) => Ok(
                            finish(
                                path,
                                rules,
                                marker_found(listing, rules) || files.len() > 0 || below.yields,
                                files + below.records,
                            ),
                        ),
                    }
                },
            }
        },
    }
}

/// What walking into the directories among the first `upto` candidates comes
/// to, one after the other: their records in order, and whether any of them
/// qualifies. The first failure ends the walk.
pub open spec fn descend(
    subtrees: Seq<DirTree>,
    depth: nat,
    rules: Rules,
    list: Seq<CandidateView>,
    upto: nat,
) -> Result<Outcome, Seq<char>>
    decreases rules.depth - depth, 0nat, upto,
{
    if upto == 0 || upto > list.len() || depth >= rules.depth {
        Ok(nothing())
    } else {
        match descend(subtrees, depth, rules, list, (upto - 1) as nat) {
            Err(name) => Err(name),
            Ok(front) => {
                let c = list[upto - 1];
                if c.kind.leads_to_dir() && 0 <= c.index < subtrees.len() {
                    match classify(subtrees[c.index], c.path, depth + 1, rules) {
                        Err(name) => Err(name),
                        Ok(o) => Ok(
                            Outcome {
                                records: front.records + o.records,
                                yields: front.yields || o.yields,
                            },
                        ),
                    }
                } else {
                    Ok(front)
                }
            },
        }
    }
}

/// Once the walk into the candidates has failed, it stays failed however
/// many more candidates are taken in.
pub proof fn lemma_descend_failure(
    subtrees: Seq<DirTree>,
    depth: nat,
    rules: Rules,
    list: Seq<CandidateView>,
    failed: nat,
    upto: nat,
)
    requires
        failed <= upto <= list.len(),
        descend(subtrees, depth, rules, list, failed) is Err,
    ensures
        descend(subtrees, depth, rules, list, upto) == descend(subtrees, depth, rules, list, failed),
    decreases upto,
{
    if upto > failed {
        lemma_descend_failure(subtrees, depth, rules, list, failed, (upto - 1) as nat);
    }
}

/// Copies the entries at the top of each subtree.
fn entries(subtrees: &Vec<DirTree>) -> (listing: Vec<DirEntry>)
    ensures
        entry_views(listing@) == entries_of(subtrees@),
{
    let mut listing: Vec<DirEntry> = Vec::new();
    let mut i: usize = 0;
    while i < subtrees.len()
        invariant
            i <= subtrees@.len(),
            listing@.len() == i,
            forall|k: int| 0 <= k < i ==> listing@[k]@ == subtrees@[k].entry@,
        decreases subtrees@.len() - i,
    {
        let entry = &subtrees[i].entry;
        listing.push(
            DirEntry { name: entry.name.clone(), decodable: entry.decodable, kind: entry.kind },
        );
        i += 1;
    }
    assert(entry_views(listing@) =~= entries_of(subtrees@));
    listing
}

/// Walks the tree below `path` and records in `output` the paths that
/// qualify. Returns whether `path` qualifies, itself or through something
/// below it; fails where a name met on the way cannot be decoded.
pub fn get_included_paths_list(
    tree: &DirTree,
    path: &str,
    depth: u8,
    output: &mut PathSet,
    rules: &RuleSet,
) -> (r: Result<bool, PickerError>)
    ensures
        match classify(*tree, path@, depth as nat, rules@) {
            Ok(outcome) => r == Ok::<bool, PickerError>(outcome.yields) && final(output)@
                == inserted_all(old(output)@, outcome.records),
            Err(name) => r matches Err(PickerError::Descend(what)) && what@ == undecodable_text(
                name,
            ),
        },
    decreases rules@.depth - depth,
{
    let subtrees = match &tree.listing {
        None => {
            return Ok(false);
        },
        Some(subtrees) => subtrees,
    };
    let listing = entries(subtrees);
    let ghost views = entries_of(subtrees@);
    let mut path_yields = false;
    match rules.mode() {
        Mode::Dir => {
            path_yields = match find_marker(&listing, rules) {
                Ok(found) => found,
                Err(e) => {
                    return Err(e);
                },
            };
            if path_yields && rules.yield_on_marker() {
                output.insert(path);
                proof {
                    lemma_inserted_push(old(output)@, Seq::empty(), path@);
                }
                return Ok(true);
            }
        },
        Mode::File => {},
    }
    if depth >= rules.depth() {
        if path_yields {
            output.insert(path);
            proof {
                lemma_inserted_push(old(output)@, Seq::empty(), path@);
            }
        }
        return Ok(path_yields);
    }
    let list = match get_not_ignored_dir_entries(rules, path, &listing) {
        Ok(list) => list,
        Err(e) => {
            return Err(e);
        },
    };
    assert(early_verdict(views, path@, depth as nat, rules@) is None);
    let ghost cands = candidates(path@, views, rules@);
    proof {
        lemma_candidates(path@, views, rules@);
    }
    let ghost files = listed_files(cands, rules@);
    match rules.mode() {
        Mode::File => {
            let mut k: usize = 0;
            assert(cands.take(0) =~= Seq::<CandidateView>::empty());
            while k < list.len()
                invariant
                    k <= list@.len(),
                    candidate_views(list@) == cands,
                    output@ == inserted_all(old(output)@, file_paths(cands.take(k as int))),
                    path_yields == (file_paths(cands.take(k as int)).len() > 0),
                decreases list@.len() - k,
            {
                assert(cands[k as int] == list@[k as int]@);
                assert(cands.take(k + 1).drop_last() =~= cands.take(k as int));
                if is_file(list[k].kind) {
                    path_yields = true;
                    output.insert(list[k].path.as_str());
                    proof {
                        lemma_inserted_push(
                            old(output)@,
                            file_paths(cands.take(k as int)),
                            list@[k as int].path@,
                        );
                    }
                }
                k += 1;
            }
            assert(cands.take(k as int) =~= cands);
        },
        Mode::Dir => {
            assert(files =~= Seq::<PathView>::empty());
        },
    }
    let ghost after_files = output@;
    let mut below_yields = false;
    let mut k: usize = 0;
    while k < list.len()
        invariant
            k <= list@.len(),
            depth < rules@.depth,
            tree.listing == Some(*subtrees),
            early_verdict(entries_of(subtrees@), path@, depth as nat, rules@) is None,
            cands == candidates(path@, entries_of(subtrees@), rules@),
            candidate_views(list@) == cands,
            forall|j: int| 0 <= j < cands.len() ==> 0 <= (#[trigger] cands[j]).index < subtrees@.len(),
            descend(subtrees@, depth as nat, rules@, cands, k as nat) is Ok,
            below_yields == descend(subtrees@, depth as nat, rules@, cands, k as nat)->Ok_0.yields,
            output@ == inserted_all(
                after_files,
                descend(subtrees@, depth as nat, rules@, cands, k as nat)->Ok_0.records,
            ),
        decreases list@.len() - k,
    {
        let child = &list[k];
        assert(cands[k as int] == child@);
        let ghost front = descend(subtrees@, depth as nat, rules@, cands, k as nat)->Ok_0;
        if is_dir(child.kind) {
            let below = match get_included_paths_list(
                &subtrees[child.index],
                child.path.as_str(),
                depth + 1,
                output,
                rules,
            ) {
                Ok(below) => below,
                Err(e) => {
                    proof {
                        let failure = classify(
                            subtrees@[child.index as int],
                            child.path@,
                            (depth + 1) as nat,
                            rules@,
                        );
                        assert(failure is Err);
                        assert(descend(subtrees@, depth as nat, rules@, cands, (k + 1) as nat)
                            == Err::<Outcome, Seq<char>>(failure->Err_0));
                        lemma_descend_failure(
                            subtrees@,
                            depth as nat,
                            rules@,
                            cands,
                            (k + 1) as nat,
                            cands.len(),
                        );
                    }
                    return Err(e);
                },
            };
            proof {
                let o = classify(
                    subtrees@[child.index as int],
                    child.path@,
                    (depth + 1) as nat,
                    rules@,
                )->Ok_0;
                lemma_inserted_concat(after_files, front.records, o.records);
            }
            if below {
                below_yields = true;
            }
        }
        k += 1;
    }
    let ghost below = descend(subtrees@, depth as nat, rules@, cands, cands.len())->Ok_0;
    proof {
        lemma_inserted_concat(old(output)@, files, below.records);
    }
    let yields = path_yields || below_yields;
    if yields && rules.include_intermediate_paths() {
        output.insert(path);
        proof {
            lemma_inserted_push(old(output)@, files + below.records, path@);
        }
    }
    Ok(yields)
}

/// What is held before the walk of a scan root begins: the root itself is
/// put in where intermediate paths are included.
pub open spec fn seeded(items: Seq<PathView>, root: PathView, rules: Rules) -> Seq<PathView> {
    if rules.include_intermediate_paths {
        inserted(items, root)
    } else {
        items
    }
}

/// Scans one root: records the root itself where intermediate paths are
/// included, whatever the walk finds, and then everything below it that
/// qualifies. What `output` held before stays, in its order, and nothing is
/// ever held twice, also where roots overlap.
pub fn scan_tree(tree: &DirTree, root: &str, output: &mut PathSet, rules: &RuleSet) -> (r: Result<
    bool,
    PickerError,
>)
    ensures
        match classify(*tree, root@, 0, rules@) {
            Ok(outcome) => r == Ok::<bool, PickerError>(outcome.yields) && final(output)@
                == inserted_all(seeded(old(output)@, root@, rules@), outcome.records),
            Err(name) => r matches Err(PickerError::Descend(what)) && what@ == undecodable_text(
                name,
            ),
        },
        r is Ok && rules@.include_intermediate_paths ==> final(output)@.contains(root@),
        r is Ok ==> forall|p: PathView| old(output)@.contains(p) ==> final(output)@.contains(p),
        final(output)@.no_duplicates(),
{
    if rules.include_intermediate_paths() {
        output.insert(root);
    }
    let ghost start = output@;
    assert(start == seeded(old(output)@, root@, rules@));
    assert(forall|p: PathView| old(output)@.contains(p) ==> start.contains(p)) by {
        assert forall|p: PathView| old(output)@.contains(p) implies start.contains(p) by {
            let k = choose|k: int| 0 <= k < old(output)@.len() && old(output)@[k] == p;
            assert(start[k] == p);
        }
    }
    assert(rules@.include_intermediate_paths ==> start.contains(root@)) by {
        if rules@.include_intermediate_paths && !old(output)@.contains(root@) {
            assert(start[start.len() - 1] == root@);
        }
    }
    let r = get_included_paths_list(tree, root, 0, output, rules);
    proof {
        if r is Ok {
            lemma_inserted_all(start, classify(*tree, root@, 0, rules@)->Ok_0.records);
            assert forall|p: PathView| old(output)@.contains(p) implies output@.contains(p) by {
                assert(start.contains(p));
            }
        }
    }
    output.distinctness();
    r
}

} // verus!
