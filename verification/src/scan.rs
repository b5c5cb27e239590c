//! The walk as a machine that is fed one directory listing at a time. It
//! names the directory it wants read next; whoever drives it reads that
//! directory and hands the listing over, until nothing more is wanted.

use vstd::prelude::*;

use crate::config::Mode;
use crate::entry::{entry_views, is_dir, is_file, DirEntry, EntryView};
use crate::error::{undecodable_text, PickerError};
use crate::listing::{
    candidate_views, candidates, dir_paths, file_paths, find_marker, get_not_ignored_dir_entries,
    CandidateView,
};
use crate::paths::{inserted, inserted_all, lemma_inserted_push, PathSet, PathView};
use crate::rules::{RuleSet, Rules};
use crate::tree::{early_verdict, listed_files, marker_found};

verus! {

/// A directory whose subdirectories are being walked.
struct Frame {
    path: String,
    depth: u8,
    yields: bool,
    pending: Vec<String>,
    next: usize,
}

/// A directory whose subdirectories are being walked, as the contracts see
/// it: where it is, whether it qualifies so far, the subdirectories to walk
/// and how many of them have been taken up.
pub struct FrameView {
    pub path: PathView,
    pub depth: nat,
    pub yields: bool,
    pub pending: Seq<PathView>,
    pub next: nat,
}

impl View for Frame {
    type V = FrameView;

    closed spec fn view(&self) -> FrameView {
        FrameView {
            path: self.path@,
            depth: self.depth as nat,
            yields: self.yields,
            pending: Seq::new(self.pending@.len(), |i: int| self.pending@[i]@),
            next: self.next as nat,
        }
    }
}

/// The state of a walk as the contracts see it.
pub struct ScanView {
    /// The directories being walked, the scan root first.
    pub stack: Seq<FrameView>,
    /// The directory whose listing is wanted next, with its depth.
    pub wanted: Option<(PathView, nat)>,
    /// Whether the scan root qualifies; known once the walk is over.
    pub verdict: Option<bool>,
    /// The paths recorded so far.
    pub output: Seq<PathView>,
}

/// A walk in progress.
pub struct Scan {
    stack: Vec<Frame>,
    wanted: Option<(String, u8)>,
    verdict: Option<bool>,
    output: PathSet,
}

spec fn frame_views(stack: Seq<Frame>) -> Seq<FrameView> {
    Seq::new(stack.len(), |i: int| stack[i]@)
}

spec fn wanted_view(wanted: Option<(String, u8)>) -> Option<(PathView, nat)> {
    match wanted {
        Some((path, depth)) => Some((path@, depth as nat)),
        None => None,
    }
}

spec fn frames_sound(stack: Seq<Frame>) -> bool {
    forall|i: int|
        0 <= i < stack.len() ==> (#[trigger] stack[i]).depth < u8::MAX && stack[i].next
            <= stack[i].pending@.len()
}

impl View for Scan {
    type V = ScanView;

    closed spec fn view(&self) -> ScanView {
        ScanView {
            stack: frame_views(self.stack@),
            wanted: wanted_view(self.wanted),
            verdict: self.verdict,
            output: self.output@,
        }
    }
}

/// The listing handed to the machine, as the contracts see it.
pub open spec fn listing_view(listing: Option<Vec<DirEntry>>) -> Option<Seq<EntryView>> {
    match listing {
        Some(entries) => Some(entry_views(entries@)),
        None => None,
    }
}

/// The state before the first listing: the root is wanted, and it is already
/// recorded where intermediate paths are included.
pub open spec fn started(root: PathView, rules: Rules, output: Seq<PathView>) -> ScanView {
    ScanView {
        stack: Seq::empty(),
        wanted: Some((root, 0nat)),
        verdict: None,
        output: if rules.include_intermediate_paths {
            inserted(output, root)
        } else {
            output
        },
    }
}

/// The state once the directory last read is known to qualify or not: the
/// verdict goes to the directory above it, whose walk is taken up again; at
/// the scan root it is the verdict of the walk.
pub open spec fn settle(s: ScanView, yields: bool, rules: Rules) -> ScanView
    decreases s.stack.len(), 1nat,
{
    if s.stack.len() == 0 {
        ScanView { wanted: None, verdict: Some(yields), ..s }
    } else {
        let top = s.stack.last();
        advance(
            ScanView {
                stack: s.stack.drop_last().push(FrameView { yields: top.yields || yields, ..top }),
                ..s
            },
            rules,
        )
    }
}

/// The state once the walk of the innermost directory is taken up again: its
/// next subdirectory is wanted, or, when none is left, the directory is
/// recorded if it qualifies and intermediate paths are included, and its
/// verdict is settled.
pub open spec fn advance(s: ScanView, rules: Rules) -> ScanView
    decreases s.stack.len(), 0nat,
{
    if s.stack.len() == 0 {
        s
    } else {
        let top = s.stack.last();
        if top.next < top.pending.len() {
            ScanView {
                stack: s.stack.drop_last().push(FrameView { next: top.next + 1, ..top }),
                wanted: Some((top.pending[top.next as int], top.depth + 1)),
                ..s
            }
        } else {
            settle(
                ScanView {
                    stack: s.stack.drop_last(),
                    wanted: None,
                    output: if top.yields && rules.include_intermediate_paths {
                        inserted(s.output, top.path)
                    } else {
                        s.output
                    },
                    ..s
                },
                top.yields,
                rules,
            )
        }
    }
}

/// The state after the wanted directory's listing has arrived (`None`: the
/// directory cannot be read), or the name that cannot be decoded. Where no
/// directory is wanted the state stays as it is.
pub open spec fn fed(s: ScanView, listing: Option<Seq<EntryView>>, rules: Rules) -> Result<
    ScanView,
    Seq<char>,
> {
    match s.wanted {
        None => Ok(s),
        Some((path, depth)) => match listing {
            None => Ok(settle(ScanView { wanted: None, ..s }, false, rules)),
            Some(entries) => match early_verdict(entries, path, depth, rules) {
                Some(Err(name)) => Err(name),
                Some(Ok(outcome)) => Ok(
                    settle(
                        ScanView {
                            wanted: None,
                            output: inserted_all(s.output, outcome.records),
                            ..s
                        },
                        outcome.yields,
                        rules,
                    ),
                ),
                None => {
                    let list = candidates(path, entries, rules);
                    let files = listed_files(list, rules);
                    let frame = FrameView {
                        path,
                        depth,
                        yields: marker_found(entries, rules) || files.len() > 0,
                        pending: dir_paths(list),
                        next: 0,
                    };
                    Ok(
                        advance(
                            ScanView {
                                stack: s.stack.push(frame),
                                wanted: None,
                                output: inserted_all(s.output, files),
                                ..s
                            },
                            rules,
                        ),
                    )
                },
            },
        },
    }
}

/// How the machine goes on from a state in which no directory is wanted:
/// with a verdict to settle, or by taking up the innermost directory.
spec fn resumed(s: ScanView, settled: Option<bool>, rules: Rules) -> ScanView {
    match settled {
        Some(yields) => settle(s, yields, rules),
        None => advance(s, rules),
    }
}

impl Scan {
    #[verifier::type_invariant]
    spec fn sound(&self) -> bool {
        frames_sound(self.stack@)
    }

    /// Begins the walk of one scan root. Where intermediate paths are
    /// included the root is recorded at once, whatever the walk finds.
    pub fn start(root: &str, rules: &RuleSet, output: PathSet) -> (scan: Scan)
        ensures
            scan@ == started(root@, rules@, output@),
    {
        let mut output = output;
        if rules.include_intermediate_paths() {
            output.insert(root);
        }
        let scan = Scan {
            stack: Vec::new(),
            wanted: Some((root.to_owned(), 0)),
            verdict: None,
            output,
        };
        assert(scan@.stack =~= Seq::<FrameView>::empty());
        scan
    }

    /// The directory whose listing the machine wants next; `None` once the
    /// walk is over.
    pub fn wanted(&self) -> (path: Option<&String>)
        ensures
            path is Some == self@.wanted is Some,
            path is Some ==> path->Some_0@ == self@.wanted->Some_0.0,
    {
        match &self.wanted {
            Some((path, _)) => Some(path),
            None => None,
        }
    }

    /// Whether the scan root qualifies; `None` while the walk is going on.
    pub fn verdict(&self) -> (verdict: Option<bool>)
        ensures
            verdict == self@.verdict,
    {
        self.verdict
    }

    /// Ends the walk and hands out the recorded paths.
    pub fn into_output(self) -> (output: PathSet)
        ensures
            output@ == self@.output,
            output@.no_duplicates(),
    {
        self.output.distinctness();
        self.output
    }

    /// Takes the listing of the wanted directory, `None` where it cannot be
    /// read, and moves on to the next state. Fails where a name cannot be
    /// decoded.
    pub fn feed(self, listing: Option<Vec<DirEntry>>, rules: &RuleSet) -> (r: Result<
        Scan,
        PickerError,
    >)
        ensures
            match fed(self@, listing_view(listing), rules@) {
                Ok(next) => r is Ok && r->Ok_0@ == next,
                Err(name) => r matches Err(PickerError::Descend(what)) && what@
                    == undecodable_text(name),
            },
    {
        proof {
            use_type_invariant(&self);
        }
        let ghost before = self@;
        let Scan { stack, wanted, verdict, output } = self;
        let mut stack = stack;
        let mut output = output;
        let (path, depth) = match wanted {
            None => {
                return Ok(Scan { stack, wanted: None, verdict, output });
            },
            Some(at) => at,
        };
        let mut settled: Option<bool> = None;
        match listing {
            None => {
                settled = Some(false);
            },
            Some(entries) => {
                let ghost views = entry_views(entries@);
                let found = match rules.mode() {
                    Mode::Dir => match find_marker(&entries, rules) {
                        Ok(found) => found,
                        Err(e) => {
                            return Err(e);
                        },
                    },
                    Mode::File => false,
                };
                if found && rules.yield_on_marker() {
                    output.insert(path.as_str());
                    proof {
                        lemma_inserted_push(before.output, Seq::empty(), path@);
                    }
                    settled = Some(true);
                } else if depth >= rules.depth() {
                    if found {
                        output.insert(path.as_str());
                        proof {
                            lemma_inserted_push(before.output, Seq::empty(), path@);
                        }
                    }
                    settled = Some(found);
                } else {
                    let list = match get_not_ignored_dir_entries(rules, path.as_str(), &entries) {
                        Ok(list) => list,
                        Err(e) => {
                            return Err(e);
                        },
                    };
                    let ghost cands = candidates(path@, views, rules@);
                    let mut pending: Vec<String> = Vec::new();
                    let mut any_file = false;
                    let mut k: usize = 0;
                    assert(cands.take(0) =~= Seq::<CandidateView>::empty());
                    while k < list.len()
                        invariant
                            k <= list@.len(),
                            candidate_views(list@) == cands,
                            output@ == inserted_all(
                                before.output,
                                listed_files(cands.take(k as int), rules@),
                            ),
                            any_file == (listed_files(cands.take(k as int), rules@).len() > 0),
                            Seq::new(pending@.len(), |i: int| pending@[i]@) == dir_paths(
                                cands.take(k as int),
                            ),
                        decreases list@.len() - k,
                    {
                        assert(cands[k as int] == list@[k as int]@);
                        assert(cands.take(k + 1).drop_last() =~= cands.take(k as int));
                        let ghost held = Seq::new(pending@.len(), |i: int| pending@[i]@);
                        if is_dir(list[k].kind) {
                            pending.push(list[k].path.clone());
                            assert(Seq::new(pending@.len(), |i: int| pending@[i]@) =~= held.push(
                                list@[k as int].path@,
                            ));
                        } else if is_file(list[k].kind) {
                            match rules.mode() {
                                Mode::File => {
                                    any_file = true;
                                    output.insert(list[k].path.as_str());
                                    proof {
                                        lemma_inserted_push(
                                            before.output,
                                            file_paths(cands.take(k as int)),
                                            list@[k as int].path@,
                                        );
                                    }
                                },
                                Mode::Dir => {},
                            }
                        }
                        k += 1;
                    }
                    assert(cands.take(k as int) =~= cands);
                    let ghost frames = frame_views(stack@);
                    let frame = Frame { path, depth, yields: found || any_file, pending, next: 0 };
                    stack.push(frame);
                    assert(frame_views(stack@) =~= frames.push(
                        FrameView {
                            path: path@,
                            depth: depth as nat,
                            yields: marker_found(views, rules@) || listed_files(cands, rules@).len()
                                > 0,
                            pending: dir_paths(cands),
                            next: 0,
                        },
                    ));
                }
            },
        }
        let ghost goal = fed(before, listing_view(listing), rules@);
        assert(goal == Ok::<ScanView, Seq<char>>(
            resumed(
                ScanView {
                    stack: frame_views(stack@),
                    wanted: None,
                    verdict,
                    output: output@,
                },
                settled,
                rules@,
            ),
        ));
        loop
            invariant
                frames_sound(stack@),
                goal == fed(self@, listing_view(listing), rules@),
                goal == Ok::<ScanView, Seq<char>>(
                    resumed(
                        ScanView {
                            stack: frame_views(stack@),
                            wanted: None,
                            verdict,
                            output: output@,
                        },
                        settled,
                        rules@,
                    ),
                ),
            decreases stack@.len(), (if settled is Some { 1nat } else { 0nat }),
        {
            let ghost frames = frame_views(stack@);
            match stack.pop() {
                None => {
                    assert(frames.len() == 0);
                    let verdict = match settled {
                        Some(yields) => Some(yields),
                        None => verdict,
                    };
                    let done = Scan { stack, wanted: None, verdict, output };
                    assert(done@.stack =~= frames);
                    return Ok(done);
                },
                Some(top) => {
                    assert(frames.last() == top@);
                    assert(frame_views(stack@) =~= frames.drop_last());
                    match settled {
                        Some(yields) => {
                            let raised = Frame { yields: top.yields || yields, ..top };
                            stack.push(raised);
                            assert(frame_views(stack@) =~= frames.drop_last().push(
                                FrameView { yields: top@.yields || yields, ..top@ },
                            ));
                            settled = None;
                        },
                        None => {
                            if top.next < top.pending.len() {
                                let child = top.pending[top.next].clone();
                                let depth = top.depth + 1;
                                let moved = Frame { next: top.next + 1, ..top };
                                stack.push(moved);
                                assert(frame_views(stack@) =~= frames.drop_last().push(
                                    FrameView { next: top@.next + 1, ..top@ },
                                ));
                                let next = Scan {
                                    stack,
                                    wanted: Some((child, depth)),
                                    verdict,
                                    output,
                                };
                                return Ok(next);
                            } else {
                                if top.yields && rules.include_intermediate_paths() {
                                    output.insert(top.path.as_str());
                                }
                                settled = Some(top.yields);
                            }
                        },
                    }
                },
            }
        }
    }
}

} // verus!
