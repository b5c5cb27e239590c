//! Path strings and the insertion-ordered set that collects them.

use vstd::prelude::*;
use vstd::string::*;

verus! {

/// A path as the contracts see it: the characters of the path string.
pub type PathView = Seq<char>;

/// What inserting `path` into an ordered set holding `items` leaves behind:
/// a path already present changes nothing, a new one goes to the end.
pub open spec fn inserted(items: Seq<PathView>, path: PathView) -> Seq<PathView> {
    if items.contains(path) {
        items
    } else {
        items.push(path)
    }
}

/// Inserting every path of `paths`, first to last.
pub open spec fn inserted_all(items: Seq<PathView>, paths: Seq<PathView>) -> Seq<PathView>
    decreases paths.len(),
{
    if paths.len() == 0 {
        items
    } else {
        inserted(inserted_all(items, paths.drop_last()), paths.last())
    }
}

/// An insertion-ordered set of path strings. Paths keep the order in which
/// they first arrived, and no path is held twice.
pub struct PathSet {
    items: Vec<String>,
}

impl View for PathSet {
    type V = Seq<PathView>;

    closed spec fn view(&self) -> Seq<PathView> {
        Seq::new(self.items@.len(), |i: int| self.items@[i]@)
    }
}

impl PathSet {
    /// No path occurs at two positions.
    #[verifier::type_invariant]
    pub closed spec fn distinct(&self) -> bool {
        self@.no_duplicates()
    }

    pub fn new() -> (set: PathSet)
        ensures
            set@ == Seq::<PathView>::empty(),
    {
        let set = PathSet { items: Vec::new() };
        assert(set@ =~= Seq::<PathView>::empty());
        set
    }

    /// Nothing is held twice. A call brings that fact to the caller's proof.
    pub fn distinctness(&self)
        ensures
            self@.no_duplicates(),
    {
        proof {
            use_type_invariant(self);
        }
    }

    pub fn len(&self) -> (n: usize)
        ensures
            n == self@.len(),
    {
        self.items.len()
    }

    pub fn contains(&self, path: &str) -> (found: bool)
        ensures
            found == self@.contains(path@),
    {
        let wanted = path.to_owned();
        let mut i: usize = 0;
        while i < self.items.len()
            invariant
                i <= self.items@.len(),
                wanted@ == path@,
                forall|j: int| 0 <= j < i ==> self@[j] != path@,
            decreases self.items@.len() - i,
        {
            if self.items[i] == wanted {
                assert(self@[i as int] == path@);
                return true;
            }
            i += 1;
        }
        false
    }

    /// Records `path` unless it is already held. Says whether it was new.
    pub fn insert(&mut self, path: &str) -> (added: bool)
        ensures
            final(self)@ == inserted(old(self)@, path@),
            added == !old(self)@.contains(path@),
    {
        proof {
            use_type_invariant(&*self);
        }
        if self.contains(path) {
            false
        } else {
            let ghost before = self@;
            let mut taken = PathSet::new();
            std::mem::swap(self, &mut taken);
            let mut items = taken.items;
            items.push(path.to_owned());
            proof {
                let after = Seq::new(items@.len(), |i: int| items@[i]@);
                assert(after =~= before.push(path@));
                assert forall|i: int, j: int|
                    0 <= i < after.len() && 0 <= j < after.len() && i != j implies after[i]
                    != after[j] by {
                    if i < before.len() && j < before.len() {
                        assert(before[i] != before[j]);
                    } else if i < before.len() {
                        assert(before.contains(before[i]));
                    } else {
                        assert(before.contains(before[j]));
                    }
                }
            }
            *self = PathSet { items };
            true
        }
    }

    /// The path at position `index`, counted in order of arrival.
    pub fn get(&self, index: usize) -> (path: &String)
        requires
            index < self@.len(),
        ensures
            path@ == self@[index as int],
    {
        &self.items[index]
    }

    /// The recorded paths in order of arrival.
    pub fn to_vec(&self) -> (paths: Vec<String>)
        ensures
            paths@.len() == self@.len(),
            forall|i: int| 0 <= i < paths@.len() ==> paths@[i]@ == self@[i],
    {
        let mut paths: Vec<String> = Vec::new();
        let mut i: usize = 0;
        while i < self.items.len()
            invariant
                i <= self.items@.len(),
                paths@.len() == i,
                forall|k: int| 0 <= k < i ==> paths@[k]@ == self@[k],
            decreases self.items@.len() - i,
        {
            paths.push(self.items[i].clone());
            i += 1;
        }
        paths
    }
}

/// The path of the entry `name` inside the directory `dir`: the two joined
/// by one separator, which is left out where `dir` is empty or already ends
/// in one.
pub open spec fn joined(dir: PathView, name: Seq<char>) -> PathView {
    if dir.len() == 0 || dir.last() == '/' {
        dir + name
    } else {
        dir + seq!['/'] + name
    }
}

/// Builds the path of the entry `name` inside the directory `dir`.
pub fn join_path(dir: &str, name: &str) -> (path: String)
    ensures
        path@ == joined(dir@, name@),
{
    let n = dir.unicode_len();
    let mut path = dir.to_owned();
    if n > 0 && dir.get_char(n - 1) != '/' {
        proof {
            reveal_strlit("/");
            assert("/"@ =~= seq!['/']);
        }
        path.append("/");
    }
    path.append(name);
    path
}

/// Inserting a run of paths that ends in `path` is inserting the run before
/// it and then `path`.
pub proof fn lemma_inserted_push(items: Seq<PathView>, paths: Seq<PathView>, path: PathView)
    ensures
        inserted_all(items, paths.push(path)) == inserted(inserted_all(items, paths), path),
        inserted_all(items, seq![path]) == inserted(items, path),
{
    assert(paths.push(path).drop_last() =~= paths);
    assert(seq![path].drop_last() =~= Seq::<PathView>::empty());
    assert(inserted_all(items, Seq::<PathView>::empty()) == items);
}

/// Inserting two runs of paths one after the other is inserting them as one
/// run.
pub proof fn lemma_inserted_concat(items: Seq<PathView>, first: Seq<PathView>, second: Seq<PathView>)
    ensures
        inserted_all(inserted_all(items, first), second) == inserted_all(items, first + second),
    decreases second.len(),
{
    if second.len() == 0 {
        assert(first + second =~= first);
    } else {
        lemma_inserted_concat(items, first, second.drop_last());
        assert((first + second).drop_last() =~= first + second.drop_last());
    }
}

/// Every path of `items` is still there after inserting `paths`, at the
/// position it had, and every inserted path is there too.
pub proof fn lemma_inserted_all(items: Seq<PathView>, paths: Seq<PathView>)
    ensures
        items.len() <= inserted_all(items, paths).len(),
        forall|i: int| 0 <= i < items.len() ==> inserted_all(items, paths)[i] == items[i],
        forall|p: PathView| items.contains(p) ==> inserted_all(items, paths).contains(p),
        forall|p: PathView| paths.contains(p) ==> inserted_all(items, paths).contains(p),
        forall|p: PathView|
            inserted_all(items, paths).contains(p) ==> items.contains(p) || paths.contains(p),
        items.no_duplicates() ==> inserted_all(items, paths).no_duplicates(),
    decreases paths.len(),
{
    if paths.len() == 0 {
    } else {
        let front = paths.drop_last();
        let mid = inserted_all(items, front);
        let all = inserted_all(items, paths);
        lemma_inserted_all(items, front);
        assert forall|p: PathView| items.contains(p) implies all.contains(p) by {
            let k = choose|k: int| 0 <= k < items.len() && items[k] == p;
            assert(all[k] == p);
        }
        assert forall|p: PathView| paths.contains(p) implies all.contains(p) by {
            let k = choose|k: int| 0 <= k < paths.len() && paths[k] == p;
            if k < front.len() {
                assert(front[k] == p);
                assert(front.contains(p));
                let m = choose|m: int| 0 <= m < mid.len() && mid[m] == p;
                assert(all[m] == p);
            } else {
                if mid.contains(p) {
                } else {
                    assert(all[mid.len() as int] == p);
                }
            }
        }
        assert forall|p: PathView| all.contains(p) implies items.contains(p) || paths.contains(
            p,
        ) by {
            let k = choose|k: int| 0 <= k < all.len() && all[k] == p;
            if k < mid.len() {
                assert(mid[k] == p);
                assert(mid.contains(p));
                if front.contains(p) {
                    let m = choose|m: int| 0 <= m < front.len() && front[m] == p;
                    assert(paths[m] == p);
                }
            } else {
                assert(paths[paths.len() - 1] == p);
            }
        }
        if items.no_duplicates() {
            assert forall|i: int, j: int|
                0 <= i < all.len() && 0 <= j < all.len() && i != j implies all[i] != all[j] by {
                if i < mid.len() && j < mid.len() {
                } else if i < mid.len() {
                    assert(mid.contains(mid[i]));
                } else {
                    assert(mid.contains(mid[j]));
                }
            }
        }
    }
}

} // verus!
