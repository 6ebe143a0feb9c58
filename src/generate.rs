//! One generation run: raw lines in, entries to create out, and the order
//! in which to remove what was created when the run fails.

use vstd::prelude::*;

use crate::line::{depth_of, is_skipped_line, kind_of, lemma_depth_unique, name_of, Blueprint, BlueprintType};
use crate::tree::{step_spec, texts, Entry, PathStack, TreeError};

verus! {

/// The paths of a sequence of entries.
pub open spec fn paths(v: Seq<Entry>) -> Seq<Seq<Seq<char>>> {
    v.map_values(|e: Entry| e.path())
}

/// A model of the filesystem under the destination's parent: the set of
/// paths that exist, the destination itself being the empty path.
pub open spec fn parent_closed(fs: Set<Seq<Seq<char>>>) -> bool {
    forall|p: Seq<Seq<char>>| #[trigger] fs.contains(p) && p.len() > 0 ==> fs.contains(p.drop_last())
}

/// `p` can be made: it does not exist and its parent does.
pub open spec fn can_create(fs: Set<Seq<Seq<char>>>, p: Seq<Seq<char>>) -> bool {
    &&& !fs.contains(p)
    &&& p.len() > 0 ==> fs.contains(p.drop_last())
}

/// `p` can be removed: it exists and nothing exists below it.
pub open spec fn can_remove(fs: Set<Seq<Seq<char>>>, p: Seq<Seq<char>>) -> bool {
    &&& fs.contains(p)
    &&& forall|q: Seq<Seq<char>>| #[trigger] fs.contains(q) && q.len() > p.len() ==> q.take(
        p.len() as int,
    ) != p
}

/// Making each of `ps` in order, or `None` where one cannot be made.
pub open spec fn create_all(fs: Set<Seq<Seq<char>>>, ps: Seq<Seq<Seq<char>>>) -> Option<
    Set<Seq<Seq<char>>>,
>
    decreases ps.len(),
{
    if ps.len() == 0 {
        Some(fs)
    } else {
        match create_all(fs, ps.drop_last()) {
            Some(f) => if can_create(f, ps.last()) {
                Some(f.insert(ps.last()))
            } else {
                None
            },
            None => None,
        }
    }
}

/// Removing each of `ps` in order, or `None` where one cannot be removed.
pub open spec fn remove_all(fs: Set<Seq<Seq<char>>>, ps: Seq<Seq<Seq<char>>>) -> Option<
    Set<Seq<Seq<char>>>,
>
    decreases ps.len(),
{
    if ps.len() == 0 {
        Some(fs)
    } else if can_remove(fs, ps[0]) {
        remove_all(fs.remove(ps[0]), ps.drop_first())
    } else {
        None
    }
}

proof fn lemma_prefix_closed(fs: Set<Seq<Seq<char>>>, q: Seq<Seq<char>>, k: int)
    requires
        parent_closed(fs),
        fs.contains(q),
        0 <= k <= q.len(),
    ensures
        fs.contains(q.take(k)),
    decreases q.len() - k,
{
    if k == q.len() {
        assert(q.take(k) =~= q);
    } else {
        lemma_prefix_closed(fs, q, k + 1);
        assert(q.take(k + 1).drop_last() =~= q.take(k));
    }
}

proof fn lemma_create_all_parent_closed(fs: Set<Seq<Seq<char>>>, ps: Seq<Seq<Seq<char>>>)
    requires
        parent_closed(fs),
        create_all(fs, ps) is Some,
    ensures
        parent_closed(create_all(fs, ps)->0),
    decreases ps.len(),
{
    if ps.len() > 0 {
        lemma_create_all_parent_closed(fs, ps.drop_last());
    }
}

/// Undoing a run: where a parent-closed tree `fs` became `fs2` by making
/// `ps` in order, removing `ps` last first succeeds at every step and leaves
/// exactly `fs`.
pub proof fn lemma_rollback_restores(
    fs: Set<Seq<Seq<char>>>,
    ps: Seq<Seq<Seq<char>>>,
    fs2: Set<Seq<Seq<char>>>,
)
    requires
        parent_closed(fs),
        create_all(fs, ps) == Some(fs2),
    ensures
        remove_all(fs2, ps.reverse()) == Some(fs),
    decreases ps.len(),
{
    if ps.len() > 0 {
        let qs = ps.drop_last();
        let p = ps.last();
        let f = create_all(fs, qs)->0;
        lemma_create_all_parent_closed(fs, qs);
        lemma_rollback_restores(fs, qs, f);
        assert forall|q: Seq<Seq<char>>| #[trigger] fs2.contains(q) && q.len() > p.len() implies q.take(
            p.len() as int,
        ) != p by {
            if q.take(p.len() as int) == p {
                lemma_prefix_closed(f, q, p.len() as int);
            }
        }
        assert(fs2.remove(p) =~= f);
        assert(ps.reverse()[0] == p);
        assert(ps.reverse().drop_first() =~= qs.reverse());
    }
}

/// Generation may write into a destination only when it is empty, or when a
/// fresh wrapper directory is made for it.
pub fn may_generate(has_wrapper: bool, destination_is_empty: bool) -> (r: bool)
    ensures
        r == (has_wrapper || destination_is_empty),
{
    has_wrapper || destination_is_empty
}

/// The state of one generation run.
#[derive(Debug)]
pub struct Generator {
    pub stack: PathStack,
    /// What this run created, in order; the destination itself first when
    /// the run made it.
    pub created: Vec<Entry>,
}

impl Generator {
    pub open spec fn wf(&self) -> bool {
        self.stack.wf()
    }

    /// A run into a destination; `root_is_new` when the run made the
    /// destination itself, which then goes too on rollback.
    pub fn new(root_is_new: bool) -> (r: Generator)
        ensures
            r.wf(),
            r.stack.names().len() == 0,
            r.stack.unit == 0,
            root_is_new ==> paths(r.created@) == seq![Seq::<Seq<char>>::empty()],
            !root_is_new ==> r.created@.len() == 0,
    {
        let mut created: Vec<Entry> = Vec::new();
        if root_is_new {
            let root = Entry { segments: Vec::new(), kind: BlueprintType::Dir };
            assert(root.path() =~= Seq::<Seq<char>>::empty());
            created.push(root);
            assert(paths(created@) =~= seq![Seq::<Seq<char>>::empty()]);
        }
        Generator { stack: PathStack::new(), created }
    }

    /// Takes one raw line: `Ok(None)` for a line that is skipped, else the
    /// entry that the line stands for. On error the run is left as it was.
    pub fn next_entry(&mut self, raw: &str) -> (r: Result<Option<Entry>, TreeError>)
        requires
            old(self).wf(),
        ensures
            final(self).wf(),
            final(self).created == old(self).created,
            is_skipped_line(raw@) ==> (r matches Ok(None) && *final(self) == *old(self)),
            !is_skipped_line(raw@) ==> match step_spec(
                old(self).stack.names(),
                old(self).stack.unit as nat,
                name_of(raw@, depth_of(raw@)),
                depth_of(raw@) as nat,
            ) {
                Ok((stack, unit)) => {
                    &&& r matches Ok(Some(e))
                    &&& e.path() == stack
                    &&& e.kind == kind_of(raw@)
                    &&& final(self).stack.names() == stack
                    &&& final(self).stack.unit == unit
                },
                Err(err) => {
                    &&& r matches Err(x)
                    &&& x == err
                    &&& *final(self) == *old(self)
                },
            },
    {
        match Blueprint::new(raw) {
            None => Ok(None),
            Some(b) => {
                proof {
                    lemma_depth_unique(raw@, b.depth_level as int);
                }
                match self.stack.step(&b) {
                    Ok(e) => Ok(Some(e)),
                    Err(x) => Err(x),
                }
            },
        }
    }

    /// Records that `e` now exists.
    pub fn mark_created(&mut self, e: Entry)
        ensures
            final(self).stack == old(self).stack,
            final(self).created@ == old(self).created@.push(e),
    {
        self.created.push(e);
    }

    /// What to remove to undo the run, in order: last created first.
    pub fn rollback(self) -> (r: Vec<Entry>)
        ensures
            paths(r@) == paths(self.created@).reverse(),
    {
        let mut created = self.created;
        let ghost orig = created@;
        let mut out: Vec<Entry> = Vec::new();
        while created.len() > 0
            invariant
                created@ + out@.reverse() == orig,
            decreases created.len(),
        {
            let e = created.pop().unwrap();
            out.push(e);
        }
        assert(out@.reverse() =~= orig);
        assert(paths(out@) =~= paths(orig).reverse());
        out
    }
}

} // verus!
