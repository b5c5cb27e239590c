//! What the rules make of a single directory listing: whether it holds a
//! marker, and which of its entries the walk may look at.

use vstd::prelude::*;

use crate::entry::{entry_views, DirEntry, EntryKind, EntryView};
use crate::error::{undecodable_text, PickerError};
use crate::paths::{join_path, joined, PathView};
use crate::rules::{RuleSet, Rules};

verus! {

/// How the search for a marker among the entries of a listing ends.
pub enum MarkerScan {
    /// No entry is a marker.
    Absent,
    /// The entry at this position is the first marker.
    Found(int),
    /// The entry at this position has a name that cannot be decoded, and no
    /// marker comes before it.
    Undecodable(int),
}

/// The search for a marker, taken up at position `from`: entries are looked
/// at in order, and the search ends at the first one that is a marker or
/// whose name cannot be decoded.
pub open spec fn marker_scan_from(listing: Seq<EntryView>, rules: Rules, from: int) -> MarkerScan
    decreases listing.len() - from,
{
    if from < 0 || from >= listing.len() {
        MarkerScan::Absent
    } else if !listing[from].decodable {
        MarkerScan::Undecodable(from)
    } else if rules.is_marker(listing[from].name) {
        MarkerScan::Found(from)
    } else {
        marker_scan_from(listing, rules, from + 1)
    }
}

/// The search for a marker over the whole listing.
pub open spec fn marker_scan(listing: Seq<EntryView>, rules: Rules) -> MarkerScan {
    marker_scan_from(listing, rules, 0)
}

/// The position of the first entry at or after `from` whose name cannot be
/// decoded.
pub open spec fn undecodable_from(listing: Seq<EntryView>, from: int) -> Option<int>
    decreases listing.len() - from,
{
    if from < 0 || from >= listing.len() {
        None
    } else if !listing[from].decodable {
        Some(from)
    } else {
        undecodable_from(listing, from + 1)
    }
}

/// The position of the first entry whose name cannot be decoded.
pub open spec fn first_undecodable(listing: Seq<EntryView>) -> Option<int> {
    undecodable_from(listing, 0)
}

/// An entry that the walk may look at.
#[derive(Debug)]
pub struct Candidate {
    /// The entry's position in the listing.
    pub index: usize,
    /// The entry's full path.
    pub path: String,
    pub kind: EntryKind,
}

/// A candidate as the contracts see it.
pub struct CandidateView {
    pub index: int,
    pub path: PathView,
    pub kind: EntryKind,
}

impl View for Candidate {
    type V = CandidateView;

    open spec fn view(&self) -> CandidateView {
        CandidateView { index: self.index as int, path: self.path@, kind: self.kind }
    }
}

/// The candidates of a list as the contracts see them.
pub open spec fn candidate_views(list: Seq<Candidate>) -> Seq<CandidateView> {
    Seq::new(list.len(), |i: int| list[i]@)
}

/// The entries of `listing` that the rules admit, in listing order, each
/// with its position and with its path inside the directory `dir`.
pub open spec fn candidates(dir: PathView, listing: Seq<EntryView>, rules: Rules) -> Seq<
    CandidateView,
>
    decreases listing.len(),
{
    if listing.len() == 0 {
        Seq::empty()
    } else {
        let front = candidates(dir, listing.drop_last(), rules);
        let entry = listing.last();
        if rules.admits(entry.name) {
            front.push(
                CandidateView {
                    index: listing.len() - 1,
                    path: joined(dir, entry.name),
                    kind: entry.kind,
                },
            )
        } else {
            front
        }
    }
}

/// The paths of the candidates that are files, in order.
pub open spec fn file_paths(list: Seq<CandidateView>) -> Seq<PathView>
    decreases list.len(),
{
    if list.len() == 0 {
        Seq::empty()
    } else if list.last().kind.leads_to_file() {
        file_paths(list.drop_last()).push(list.last().path)
    } else {
        file_paths(list.drop_last())
    }
}

/// The paths of the candidates that are directories, in order.
pub open spec fn dir_paths(list: Seq<CandidateView>) -> Seq<PathView>
    decreases list.len(),
{
    if list.len() == 0 {
        Seq::empty()
    } else if list.last().kind.leads_to_dir() {
        dir_paths(list.drop_last()).push(list.last().path)
    } else {
        dir_paths(list.drop_last())
    }
}

/// Every candidate stems from an admitted entry of the listing, candidates
/// come in listing order, and every admitted entry has its candidate.
pub proof fn lemma_candidates(dir: PathView, listing: Seq<EntryView>, rules: Rules)
    ensures
        candidates(dir, listing, rules).len() <= listing.len(),
        forall|k: int|
            0 <= k < candidates(dir, listing, rules).len() ==> {
                let c = #[trigger] candidates(dir, listing, rules)[k];
                &&& 0 <= c.index < listing.len()
                &&& rules.admits(listing[c.index].name)
                &&& c.path == joined(dir, listing[c.index].name)
                &&& c.kind == listing[c.index].kind
            },
        forall|j: int, k: int|
            0 <= j < k < candidates(dir, listing, rules).len() ==> candidates(
                dir,
                listing,
                rules,
            )[j].index < candidates(dir, listing, rules)[k].index,
        forall|i: int|
            0 <= i < listing.len() && rules.admits(#[trigger] listing[i].name) ==> exists|k: int|
                0 <= k < candidates(dir, listing, rules).len() && candidates(
                    dir,
                    listing,
                    rules,
                )[k].index == i,
    decreases listing.len(),
{
    if listing.len() > 0 {
        let shorter = listing.drop_last();
        let front = candidates(dir, shorter, rules);
        let all = candidates(dir, listing, rules);
        lemma_candidates(dir, shorter, rules);
        assert forall|k: int| 0 <= k < all.len() implies {
            let c = #[trigger] all[k];
            &&& 0 <= c.index < listing.len()
            &&& rules.admits(listing[c.index].name)
            &&& c.path == joined(dir, listing[c.index].name)
            &&& c.kind == listing[c.index].kind
        } by {
            if k < front.len() {
                let c = front[k];
                assert(all[k] == c);
                assert(shorter[c.index] == listing[c.index]);
            }
        }
        assert forall|j: int, k: int| 0 <= j < k < all.len() implies all[j].index
            < all[k].index by {
            assert(all[j] == front[j]);
            if k < front.len() {
                assert(all[k] == front[k]);
            }
        }
        assert forall|i: int|
            0 <= i < listing.len() && rules.admits(#[trigger] listing[i].name) implies exists|
            k: int,
        | 0 <= k < all.len() && all[k].index == i by {
            if i < shorter.len() {
                assert(shorter[i] == listing[i]);
                let k = choose|k: int| 0 <= k < front.len() && front[k].index == i;
                assert(all[k] == front[k]);
            } else {
                assert(all[all.len() - 1].index == i);
            }
        }
    }
}

/// Looks through the listing for the first marker.
pub fn find_marker(listing: &Vec<DirEntry>, rules: &RuleSet) -> (r: Result<bool, PickerError>)
    ensures
        match marker_scan(entry_views(listing@), rules@) {
            MarkerScan::Absent => r == Ok::<bool, PickerError>(false),
            MarkerScan::Found(_) => r == Ok::<bool, PickerError>(true),
            MarkerScan::Undecodable(i) => r matches Err(PickerError::Descend(what)) && what@
                == undecodable_text(entry_views(listing@)[i].name),
        },
{
    let mut i: usize = 0;
    while i < listing.len()
        invariant
            i <= listing@.len(),
            marker_scan(entry_views(listing@), rules@) == marker_scan_from(
                entry_views(listing@),
                rules@,
                i as int,
            ),
        decreases listing@.len() - i,
    {
        let entry = &listing[i];
        assert(entry_views(listing@)[i as int] == entry@);
        if !entry.decodable {
            return Err(PickerError::undecodable(entry.name.as_str()));
        }
        if rules.is_marker(entry.name.as_str()) {
            return Ok(true);
        }
        i += 1;
    }
    Ok(false)
}

/// Picks from a directory's listing the entries that the walk may look at:
/// those that are not ignored and, unless hidden names are traversed, not
/// hidden. Fails on the first entry whose name cannot be decoded.
pub fn get_not_ignored_dir_entries(rules: &RuleSet, dir: &str, listing: &Vec<DirEntry>) -> (r:
    Result<Vec<Candidate>, PickerError>)
    ensures
        match first_undecodable(entry_views(listing@)) {
            None => r is Ok && candidate_views(r->Ok_0@) == candidates(
                dir@,
                entry_views(listing@),
                rules@,
            ),
            Some(i) => r matches Err(PickerError::Descend(what)) && what@ == undecodable_text(
                entry_views(listing@)[i].name,
            ),
        },
{
    let mut result: Vec<Candidate> = Vec::new();
    let mut i: usize = 0;
    let ghost views = entry_views(listing@);
    assert(views.take(0) =~= Seq::<EntryView>::empty());
    while i < listing.len()
        invariant
            i <= listing@.len(),
            views == entry_views(listing@),
            first_undecodable(views) == undecodable_from(views, i as int),
            candidate_views(result@) == candidates(dir@, views.take(i as int), rules@),
        decreases listing@.len() - i,
    {
        let entry = &listing[i];
        assert(views[i as int] == entry@);
        if !entry.decodable {
            return Err(PickerError::undecodable(entry.name.as_str()));
        }
        let ghost before = candidate_views(result@);
        if rules.admits(entry.name.as_str()) {
            let path = join_path(dir, entry.name.as_str());
            result.push(Candidate { index: i, path, kind: entry.kind });
            assert(candidate_views(result@) =~= before.push(
                CandidateView { index: i as int, path: joined(dir@, entry.name@), kind: entry.kind },
            ));
        }
        assert(views.take(i + 1).drop_last() =~= views.take(i as int));
        i += 1;
    }
    assert(views.take(i as int) =~= views);
    Ok(result)
}

} // verus!
