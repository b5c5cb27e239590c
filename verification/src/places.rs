//! Places in a directory tree and their paths. In a tree whose names are
//! plain, as a file system's are, no two places share a path, and so what
//! the walk never reaches is never recorded.

use vstd::prelude::*;

use crate::laws::{
    lemma_depth_bound, lemma_ignored_never_entered, lemma_nothing_below_marker,
    lemma_record_origin, lists_file, walk,
};
use crate::paths::{joined, PathView};
use crate::rules::Rules;
use crate::tree::{classify, entries_of, marker_found, DirTree};

verus! {

/// The entry found from `root` by taking, one after the other, the entries
/// at the positions of `trail`; `None` where the trail leaves the tree.
pub open spec fn entry_at(root: DirTree, trail: Seq<int>) -> Option<DirTree>
    decreases trail.len(),
{
    if trail.len() == 0 {
        Some(root)
    } else if root.listing is Some && 0 <= trail[0] < root.listing->0@.len() {
        entry_at(root.listing->0@[trail[0]], trail.drop_first())
    } else {
        None
    }
}

/// The path of the entry found along `trail`, where `root` has the path
/// `path`.
pub open spec fn path_at(root: DirTree, path: PathView, trail: Seq<int>) -> PathView
    decreases trail.len(),
{
    if trail.len() > 0 && root.listing is Some && 0 <= trail[0] < root.listing->0@.len() {
        let sub = root.listing->0@[trail[0]];
        path_at(sub, joined(path, sub.entry@.name), trail.drop_first())
    } else {
        path
    }
}

/// A plain name: not empty, and without a separator.
pub open spec fn plain(name: Seq<char>) -> bool {
    name.len() > 0 && !name.contains('/')
}

/// The entries of `dir` have plain names, no two of them the same.
pub open spec fn names_plain(dir: DirTree) -> bool {
    dir.listing is Some ==> {
        &&& forall|i: int|
            0 <= i < dir.listing->0@.len() ==> plain((#[trigger] dir.listing->0@[i]).entry@.name)
        &&& forall|i: int, j: int|
            0 <= i < dir.listing->0@.len() && 0 <= j < dir.listing->0@.len() && i != j ==> (
            #[trigger] dir.listing->0@[i]).entry@.name != (#[trigger] dir.listing->0@[j]).entry@.name
    }
}

/// Every directory of the tree has entries with plain names, no two of them
/// the same, as the directories of a file system have.
pub open spec fn plainly_named(root: DirTree) -> bool {
    forall|trail: Seq<int>| (#[trigger] entry_at(root, trail)) is Some ==> names_plain(
        entry_at(root, trail)->Some_0,
    )
}

proof fn lemma_subtree_plainly_named(root: DirTree, i: int)
    requires
        plainly_named(root),
        root.listing is Some,
        0 <= i < root.listing->0@.len(),
    ensures
        plainly_named(root.listing->0@[i]),
        names_plain(root),
{
    let sub = root.listing->0@[i];
    assert forall|trail: Seq<int>| (#[trigger] entry_at(sub, trail)) is Some implies names_plain(
        entry_at(sub, trail)->Some_0,
    ) by {
        let longer = seq![i] + trail;
        assert(longer.drop_first() =~= trail);
        assert(entry_at(root, longer) == entry_at(sub, trail));
    }
    assert(entry_at(root, Seq::<int>::empty()) == Some(root));
}

/// Below a directory whose path does not end in a separator, the path of a
/// place is the directory's path followed by nothing or by a separator and
/// more.
proof fn lemma_path_shape(root: DirTree, path: PathView, trail: Seq<int>) -> (tail: Seq<char>)
    requires
        plainly_named(root),
        entry_at(root, trail) is Some,
        path.len() > 0,
        path.last() != '/',
    ensures
        path_at(root, path, trail) == path + tail,
        trail.len() == 0 ==> tail.len() == 0,
        trail.len() > 0 ==> tail.len() > 0 && tail[0] == '/',
    decreases trail.len(),
{
    if trail.len() == 0 {
        assert(path + Seq::<char>::empty() =~= path);
        Seq::empty()
    } else {
        let sub = root.listing->0@[trail[0]];
        let name = sub.entry@.name;
        lemma_subtree_plainly_named(root, trail[0]);
        let below = joined(path, name);
        assert(below =~= path + seq!['/'] + name);
        assert(name.contains(name.last()));
        let rest = lemma_path_shape(sub, below, trail.drop_first());
        let tail = seq!['/'] + name + rest;
        assert(below + rest =~= path + tail);
        tail
    }
}

/// The path of a place below `root` is longer than the path of `root`.
proof fn lemma_path_grows(root: DirTree, path: PathView, trail: Seq<int>)
    requires
        plainly_named(root),
        entry_at(root, trail) is Some,
        trail.len() > 0,
    ensures
        path_at(root, path, trail).len() > path.len(),
{
    let sub = root.listing->0@[trail[0]];
    let name = sub.entry@.name;
    lemma_subtree_plainly_named(root, trail[0]);
    let below = joined(path, name);
    assert(name.contains(name.last()));
    let rest = lemma_path_shape(sub, below, trail.drop_first());
}

/// Two texts that start with different plain names, each followed by
/// nothing or by a separator, differ.
proof fn lemma_names_tell_apart(a: Seq<char>, after_a: Seq<char>, b: Seq<char>, after_b: Seq<char>)
    requires
        plain(a),
        plain(b),
        a != b,
        after_a.len() == 0 || after_a[0] == '/',
        after_b.len() == 0 || after_b[0] == '/',
    ensures
        a + after_a != b + after_b,
{
    let left = a + after_a;
    let right = b + after_b;
    if left == right {
        if a.len() == b.len() {
            assert forall|i: int| 0 <= i < a.len() implies a[i] == b[i] by {
                assert(left[i] == right[i]);
            }
            assert(a =~= b);
        } else if a.len() < b.len() {
            assert(right[a.len() as int] == b[a.len() as int]);
            assert(b.contains(b[a.len() as int]));
            assert(left.len() > a.len());
            assert(left[a.len() as int] == after_a[0]);
        } else {
            assert(left[b.len() as int] == a[b.len() as int]);
            assert(a.contains(a[b.len() as int]));
            assert(right.len() > b.len());
            assert(right[b.len() as int] == after_b[0]);
        }
    }
}

/// In a plainly named tree no two places share a path.
pub proof fn lemma_paths_differ(root: DirTree, path: PathView, one: Seq<int>, other: Seq<int>)
    requires
        plainly_named(root),
        entry_at(root, one) is Some,
        entry_at(root, other) is Some,
        one != other,
    ensures
        path_at(root, path, one) != path_at(root, path, other),
    decreases one.len(),
{
    if one.len() == 0 {
        assert(other.len() > 0) by {
            if other.len() == 0 {
                assert(one =~= other);
            }
        }
        lemma_path_grows(root, path, other);
    } else if other.len() == 0 {
        lemma_path_grows(root, path, one);
    } else {
        let i = one[0];
        let j = other[0];
        let a = root.listing->0@[i].entry@.name;
        let b = root.listing->0@[j].entry@.name;
        lemma_subtree_plainly_named(root, i);
        lemma_subtree_plainly_named(root, j);
        if i == j {
            assert(one.drop_first() != other.drop_first()) by {
                if one.drop_first() == other.drop_first() {
                    assert(one =~= seq![i] + one.drop_first());
                    assert(other =~= seq![j] + other.drop_first());
                }
            }
            lemma_paths_differ(
                root.listing->0@[i],
                joined(path, a),
                one.drop_first(),
                other.drop_first(),
            );
        } else {
            assert(a.contains(a.last()));
            assert(b.contains(b.last()));
            let after_a = lemma_path_shape(root.listing->0@[i], joined(path, a), one.drop_first());
            let after_b = lemma_path_shape(
                root.listing->0@[j],
                joined(path, b),
                other.drop_first(),
            );
            let stem = if path.len() == 0 || path.last() == '/' {
                path
            } else {
                path + seq!['/']
            };
            assert(joined(path, a) =~= stem + a);
            assert(joined(path, b) =~= stem + b);
            lemma_names_tell_apart(a, after_a, b, after_b);
            let left = path_at(root, path, one);
            let right = path_at(root, path, other);
            assert(left =~= stem + (a + after_a));
            assert(right =~= stem + (b + after_b));
            if left == right {
                assert forall|k: int| 0 <= k < (a + after_a).len() implies (a + after_a)[k] == (b
                    + after_b)[k] by {
                    assert(left[stem.len() + k] == right[stem.len() + k]);
                }
                assert(a + after_a =~= b + after_b);
            }
        }
    }
}

/// Where the walk arrives along a trail is the place at the end of that
/// trail, under its path.
pub proof fn lemma_walk_is_place(root: DirTree, path: PathView, depth: nat, rules: Rules, trail: Seq<int>)
    requires
        walk(root, path, depth, rules, trail) is Some,
    ensures
        entry_at(root, trail) == Some(walk(root, path, depth, rules, trail)->Some_0.0),
        path_at(root, path, trail) == walk(root, path, depth, rules, trail)->Some_0.1,
    decreases trail.len(),
{
    if trail.len() > 0 {
        let sub = root.listing->0@[trail[0]];
        lemma_walk_is_place(sub, joined(path, sub.entry@.name), depth + 1, rules, trail.drop_first());
    }
}

/// The place one step beyond the end of a trail.
proof fn lemma_place_step(root: DirTree, path: PathView, trail: Seq<int>, i: int)
    requires
        entry_at(root, trail) is Some,
        entry_at(root, trail)->Some_0.listing is Some,
        0 <= i < entry_at(root, trail)->Some_0.listing->0@.len(),
    ensures
        entry_at(root, trail.push(i)) == Some(entry_at(root, trail)->Some_0.listing->0@[i]),
        path_at(root, path, trail.push(i)) == joined(
            path_at(root, path, trail),
            entry_at(root, trail)->Some_0.listing->0@[i].entry@.name,
        ),
    decreases trail.len(),
{
    let longer = trail.push(i);
    if trail.len() == 0 {
        let sub = root.listing->0@[i];
        assert(longer[0] == i);
        assert(longer.drop_first() =~= Seq::<int>::empty());
        assert(entry_at(sub, longer.drop_first()) == Some(sub));
        assert(path_at(sub, joined(path, sub.entry@.name), longer.drop_first()) == joined(
            path,
            sub.entry@.name,
        ));
    } else {
        let sub = root.listing->0@[trail[0]];
        assert(longer[0] == trail[0]);
        assert(longer.drop_first() =~= trail.drop_first().push(i));
        lemma_place_step(sub, joined(path, sub.entry@.name), trail.drop_first(), i);
    }
}

/// The place at the start of a trail's part exists where the place at its
/// end does.
proof fn lemma_place_prefix(root: DirTree, trail: Seq<int>, cut: int)
    requires
        0 <= cut <= trail.len(),
        entry_at(root, trail) is Some,
    ensures
        entry_at(root, trail.take(cut)) is Some,
        cut < trail.len() ==> entry_at(root, trail.take(cut))->Some_0.listing is Some && 0
            <= trail[cut] < entry_at(root, trail.take(cut))->Some_0.listing->0@.len() && entry_at(
            root,
            trail.take(cut + 1),
        ) == Some(entry_at(root, trail.take(cut))->Some_0.listing->0@[trail[cut]]),
    decreases cut,
{
    if cut == 0 {
        assert(trail.take(0) =~= Seq::<int>::empty());
        if trail.len() > 0 {
            let sub = root.listing->0@[trail[0]];
            assert(trail.take(1)[0] == trail[0]);
            assert(trail.take(1).drop_first() =~= Seq::<int>::empty());
            assert(entry_at(sub, trail.take(1).drop_first()) == Some(sub));
        }
    } else {
        let sub = root.listing->0@[trail[0]];
        lemma_place_prefix(sub, trail.drop_first(), cut - 1);
        assert(trail.take(cut)[0] == trail[0]);
        assert(trail.take(cut).drop_first() =~= trail.drop_first().take(cut - 1));
        if cut < trail.len() {
            assert(trail.take(cut + 1)[0] == trail[0]);
            assert(trail.take(cut + 1).drop_first() =~= trail.drop_first().take(cut));
            assert(trail.drop_first()[cut - 1] == trail[cut]);
        }
    }
}

/// The trail of the place whose path was recorded. In a plainly named tree
/// a recorded path belongs to one place only: a directory that the walk
/// reached, or, in file mode, a file listed by such a directory. The
/// returned number tells how many steps of `trail` the walk itself took.
proof fn lemma_recorded_place(root: DirTree, path: PathView, rules: Rules, trail: Seq<int>) -> (walked:
    int)
    requires
        plainly_named(root),
        classify(root, path, 0, rules) is Ok,
        entry_at(root, trail) is Some,
        classify(root, path, 0, rules)->Ok_0.records.contains(path_at(root, path, trail)),
    ensures
        walked == trail.len() || walked == trail.len() - 1,
        0 <= walked,
        walk(root, path, 0, rules, trail.take(walked)) is Some,
        walked < trail.len() ==> lists_file(
            walk(root, path, 0, rules, trail.take(walked))->Some_0.0,
            walk(root, path, 0, rules, trail.take(walked))->Some_0.1,
            walked as nat,
            rules,
            path_at(root, path, trail),
        ) && rules.admits(entry_at(root, trail)->Some_0.entry@.name),
{
    let p = path_at(root, path, trail);
    let w = lemma_record_origin(root, path, 0, rules, p);
    let (dir, at) = walk(root, path, 0, rules, w)->Some_0;
    lemma_walk_is_place(root, path, 0, rules, w);
    if p == at {
        if w != trail {
            lemma_paths_differ(root, path, w, trail);
        }
        assert(trail.take(trail.len() as int) =~= trail);
        trail.len() as int
    } else {
        let i = choose|i: int|
            0 <= i < dir.listing->0@.len() && rules.admits(
                (#[trigger] dir.listing->0@[i]).entry@.name,
            ) && dir.listing->0@[i].entry@.kind.leads_to_file() && p == joined(
                at,
                dir.listing->0@[i].entry@.name,
            );
        lemma_place_step(root, path, w, i);
        if w.push(i) != trail {
            lemma_paths_differ(root, path, w.push(i), trail);
        }
        assert(trail.take(trail.len() - 1) =~= w);
        trail.len() - 1
    }
}

/// Depth bound. In a plainly named tree, the path of a place more than
/// `rules.depth` levels below the scan root is not recorded.
pub proof fn lemma_nothing_recorded_too_deep(root: DirTree, path: PathView, rules: Rules, trail: Seq<int>)
    requires
        plainly_named(root),
        classify(root, path, 0, rules) is Ok,
        entry_at(root, trail) is Some,
        trail.len() > rules.depth,
    ensures
        !classify(root, path, 0, rules)->Ok_0.records.contains(path_at(root, path, trail)),
{
    if classify(root, path, 0, rules)->Ok_0.records.contains(path_at(root, path, trail)) {
        let walked = lemma_recorded_place(root, path, rules, trail);
        if walked > 0 {
            lemma_depth_bound(root, path, 0, rules, trail.take(walked));
        }
    }
}

/// Marker short-circuit. In a plainly named tree, where `yield_on_marker`
/// is set and a directory holds a marker, the path of no place below that
/// directory is recorded.
pub proof fn lemma_nothing_recorded_below_marker(
    root: DirTree,
    path: PathView,
    rules: Rules,
    trail: Seq<int>,
    cut: int,
)
    requires
        plainly_named(root),
        rules.yield_on_marker,
        classify(root, path, 0, rules) is Ok,
        entry_at(root, trail) is Some,
        0 <= cut < trail.len(),
        entry_at(root, trail.take(cut))->Some_0.listing is Some,
        marker_found(entries_of(entry_at(root, trail.take(cut))->Some_0.listing->0@), rules),
    ensures
        !classify(root, path, 0, rules)->Ok_0.records.contains(path_at(root, path, trail)),
{
    if classify(root, path, 0, rules)->Ok_0.records.contains(path_at(root, path, trail)) {
        let walked = lemma_recorded_place(root, path, rules, trail);
        let taken = trail.take(walked);
        if cut < walked {
            lemma_nothing_below_marker(root, path, 0, rules, taken, cut);
            assert(taken.take(cut) =~= trail.take(cut));
            lemma_walk_is_place(root, path, 0, rules, taken.take(cut));
        } else {
            lemma_walk_is_place(root, path, 0, rules, taken);
        }
    }
}

/// Ignore precedence. In a plainly named tree, the path of an entry whose
/// name is ignored is never recorded, nor is the path of any place below
/// it, whatever markers it holds.
pub proof fn lemma_ignored_never_recorded(
    root: DirTree,
    path: PathView,
    rules: Rules,
    trail: Seq<int>,
    cut: int,
)
    requires
        plainly_named(root),
        classify(root, path, 0, rules) is Ok,
        entry_at(root, trail) is Some,
        0 <= cut < trail.len(),
        rules.is_ignored(entry_at(root, trail.take(cut + 1))->Some_0.entry@.name),
    ensures
        !classify(root, path, 0, rules)->Ok_0.records.contains(path_at(root, path, trail)),
{
    if classify(root, path, 0, rules)->Ok_0.records.contains(path_at(root, path, trail)) {
        let walked = lemma_recorded_place(root, path, rules, trail);
        let taken = trail.take(walked);
        lemma_place_prefix(root, trail, cut);
        if cut < walked {
            lemma_ignored_never_entered(root, path, 0, rules, taken, cut);
            assert(taken.take(cut) =~= trail.take(cut));
            assert(taken[cut] == trail[cut]);
            lemma_walk_is_place(root, path, 0, rules, taken.take(cut));
        } else {
            assert(trail.take(cut + 1) =~= trail);
        }
    }
}

} // verus!
