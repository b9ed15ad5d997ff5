//! Walks over the ancestors of a commit, breadth first. The caller reads the
//! commits from the repository and hands their parents in; the walk decides
//! which commit comes next and when it ends.

use crate::repo::{CommitHash, FileHash};
use crate::sorted_map::SortedMap;
use std::collections::VecDeque;
use vstd::prelude::*;

verus! {

/// The texts of a row of commits.
pub open spec fn commit_texts(commits: Seq<CommitHash>) -> Seq<Seq<char>> {
    Seq::new(commits.len(), |i: int| commits[i]@)
}

/// A walk over the ancestors of a commit as plain values: the commits that
/// were met so far, and those that are still to be handed out, in order.
pub struct AncestorWalkView {
    pub seen: Set<Seq<char>>,
    pub queue: Seq<Seq<char>>,
}

impl AncestorWalkView {
    /// What holds of every walk: what waits to be handed out was met, and
    /// nothing waits twice.
    pub open spec fn valid(self) -> bool {
        &&& forall|i: int| 0 <= i < self.queue.len() ==> self.seen.contains(#[trigger] self.queue[i])
        &&& self.queue.no_duplicates()
    }
}

/// The walk after the first `upto` of `parents` were met: each that was not
/// met before is marked and put at the end of the queue.
pub open spec fn enqueue_new(walk: AncestorWalkView, parents: Seq<Seq<char>>, upto: int) -> AncestorWalkView
    decreases upto,
{
    if upto <= 0 {
        walk
    } else {
        let before = enqueue_new(walk, parents, upto - 1);
        let parent = parents[upto - 1];
        if before.seen.contains(parent) {
            before
        } else {
            AncestorWalkView { seen: before.seen.insert(parent), queue: before.queue.push(parent) }
        }
    }
}

/// Meeting parents keeps a walk valid, forgets nothing that was met, keeps
/// what was waiting at the front of the queue, and lets only commits wait that
/// were not met before.
pub proof fn lemma_enqueue_new(walk: AncestorWalkView, parents: Seq<Seq<char>>, upto: int)
    requires
        walk.valid(),
        0 <= upto <= parents.len(),
    ensures
        enqueue_new(walk, parents, upto).valid(),
        walk.seen.subset_of(enqueue_new(walk, parents, upto).seen),
        walk.queue.is_prefix_of(enqueue_new(walk, parents, upto).queue),
        forall|i: int|
            walk.queue.len() <= i < enqueue_new(walk, parents, upto).queue.len()
                ==> !walk.seen.contains(#[trigger] enqueue_new(walk, parents, upto).queue[i]),
    decreases upto,
{
    if upto > 0 {
        lemma_enqueue_new(walk, parents, upto - 1);
        let before = enqueue_new(walk, parents, upto - 1);
        let parent = parents[upto - 1];
        if !before.seen.contains(parent) {
            let after = enqueue_new(walk, parents, upto);
            assert forall|i: int, j: int|
                0 <= i < after.queue.len() && 0 <= j < after.queue.len() && i != j implies after.queue[i]
                != after.queue[j] by {
                if i < before.queue.len() {
                    assert(before.seen.contains(before.queue[i]));
                }
                if j < before.queue.len() {
                    assert(before.seen.contains(before.queue[j]));
                }
            }
            assert forall|i: int| 0 <= i < after.queue.len() implies after.seen.contains(
                #[trigger] after.queue[i],
            ) by {
                if i < before.queue.len() {
                    assert(before.seen.contains(before.queue[i]));
                }
            }
        }
    }
}

/// A commit that was met and waits no longer is never put into the queue
/// again: each ancestor is handed out once, and the commit that the walk
/// started at is never handed out.
pub proof fn lemma_handed_out_once(
    walk: AncestorWalkView,
    parents: Seq<Seq<char>>,
    commit: Seq<char>,
)
    requires
        walk.valid(),
        walk.seen.contains(commit),
        !walk.queue.contains(commit),
    ensures
        !enqueue_new(walk, parents, parents.len() as int).queue.contains(commit),
        enqueue_new(walk, parents, parents.len() as int).seen.contains(commit),
{
    lemma_enqueue_new(walk, parents, parents.len() as int);
    let after = enqueue_new(walk, parents, parents.len() as int);
    if after.queue.contains(commit) {
        let i = after.queue.index_of(commit);
        if i < walk.queue.len() {
            assert(walk.queue[i] == after.queue[i]);
            assert(walk.queue.contains(commit));
        } else {
            assert(!walk.seen.contains(after.queue[i]));
        }
    }
}

/// The commits that were met, as a set. The values of the map carry nothing.
pub open spec fn met<V>(seen: Map<Seq<char>, V>) -> Set<Seq<char>> {
    seen.dom()
}

/// A breadth-first walk over the ancestors of a commit that hands out each
/// ancestor once.
#[derive(Debug)]
pub struct AncestorWalk {
    seen: SortedMap<bool>,
    queue: VecDeque<CommitHash>,
}

impl View for AncestorWalk {
    type V = AncestorWalkView;

    closed spec fn view(&self) -> AncestorWalkView {
        AncestorWalkView { seen: met(self.seen.as_map()), queue: commit_texts(self.queue@) }
    }
}

impl AncestorWalk {
    #[verifier::type_invariant]
    spec fn queue_is_met_once(&self) -> bool {
        self@.valid()
    }

    /// The walk over the ancestors of `commit`, whose parents are `parents`.
    /// The commit itself is never handed out.
    pub fn start(commit: &CommitHash, parents: &Vec<CommitHash>) -> (walk: Self)
        ensures
            walk@.valid(),
            walk@ == enqueue_new(
                AncestorWalkView { seen: set![commit@], queue: Seq::empty() },
                commit_texts(parents@),
                parents@.len() as int,
            ),
    {
        let mut seen: SortedMap<bool> = SortedMap::new();
        seen.insert(commit.clone().inner(), true);
        let queue: VecDeque<CommitHash> = VecDeque::new();
        assert(met(seen.as_map()) =~= set![commit@]);
        assert(commit_texts(queue@) =~= Seq::<Seq<char>>::empty());
        let mut walk = AncestorWalk { seen, queue };
        walk.expand(parents);
        walk
    }

    /// Makes known what holds of every walk.
    pub fn validity(&self)
        ensures
            self@.valid(),
    {
        proof {
            use_type_invariant(self);
        }
    }

    /// Whether no ancestor is left to hand out.
    pub fn is_done(&self) -> (done: bool)
        ensures
            done == (self@.queue.len() == 0),
    {
        self.queue.len() == 0
    }

    /// Hands out the next ancestor, or `None` where the walk is over.
    pub fn next(&mut self) -> (commit: Option<CommitHash>)
        ensures
            final(self)@.valid(),
            final(self)@.seen == old(self)@.seen,
            match commit {
                Some(c) => old(self)@.queue.len() > 0 && c@ == old(self)@.queue[0]
                    && final(self)@.queue == old(self)@.queue.drop_first(),
                None => old(self)@.queue.len() == 0 && final(self)@.queue == old(self)@.queue,
            },
    {
        proof {
            use_type_invariant(&*self);
        }
        let mut taken = AncestorWalk { seen: SortedMap::new(), queue: VecDeque::new() };
        std::mem::swap(self, &mut taken);
        let AncestorWalk { seen, queue } = taken;
        let mut queue = queue;
        let ghost before = commit_texts(queue@);
        let commit = queue.pop_front();
        proof {
            if commit.is_some() {
                assert(commit_texts(queue@) =~= before.drop_first());
                let after = commit_texts(queue@);
                assert forall|i: int, j: int|
                    0 <= i < after.len() && 0 <= j < after.len() && i != j implies after[i]
                    != after[j] by {
                    assert(after[i] == before[i + 1]);
                    assert(after[j] == before[j + 1]);
                }
                assert forall|i: int| 0 <= i < after.len() implies met(seen.as_map()).contains(
                    #[trigger] after[i],
                ) by {
                    assert(after[i] == before[i + 1]);
                }
            } else {
                assert(commit_texts(queue@) =~= before);
            }
        }
        *self = AncestorWalk { seen, queue };
        commit
    }

    /// Takes in the parents of the commit that was handed out last: each that
    /// was not met before is marked and will be handed out after all that
    /// wait already.
    pub fn expand(&mut self, parents: &Vec<CommitHash>)
        ensures
            final(self)@.valid(),
            final(self)@ == enqueue_new(
                old(self)@,
                commit_texts(parents@),
                parents@.len() as int,
            ),
    {
        proof {
            use_type_invariant(&*self);
        }
        let ghost start = self@;
        let mut taken = AncestorWalk { seen: SortedMap::new(), queue: VecDeque::new() };
        std::mem::swap(self, &mut taken);
        let AncestorWalk { seen, queue } = taken;
        let mut seen = seen;
        let mut queue = queue;
        let mut at: usize = 0;
        while at < parents.len()
            invariant
                at <= parents@.len(),
                start.valid(),
                (AncestorWalkView { seen: met(seen.as_map()), queue: commit_texts(queue@) })
                    == enqueue_new(start, commit_texts(parents@), at as int),
            decreases parents@.len() - at,
        {
            let parent = &parents[at];
            assert(commit_texts(parents@)[at as int] == parent@);
            if !seen.contains_key(parent.as_str()) {
                let ghost seen_before = met(seen.as_map());
                let ghost queue_before = commit_texts(queue@);
                seen.insert(parent.clone().inner(), true);
                queue.push_back(parent.clone());
                assert(met(seen.as_map()) =~= seen_before.insert(parent@));
                assert(commit_texts(queue@) =~= queue_before.push(parent@));
            }
            at += 1;
        }
        proof {
            lemma_enqueue_new(start, commit_texts(parents@), parents@.len() as int);
        }
        *self = AncestorWalk { seen, queue };
    }
}

/// A parent of a commit, with what the walk needs to know of it.
#[derive(Debug)]
pub struct ParentBlob {
    /// The parent.
    pub commit: CommitHash,
    /// The summary of the parent's message.
    pub summary: String,
    /// The hash of the file in the parent's tree, or `None` where the tree
    /// has no such file.
    pub blob: Option<FileHash>,
}

/// A [`ParentBlob`] as plain values.
pub struct ParentBlobView {
    pub commit: Seq<char>,
    pub summary: Seq<char>,
    pub blob: Option<Seq<char>>,
}

impl View for ParentBlob {
    type V = ParentBlobView;

    open spec fn view(&self) -> ParentBlobView {
        ParentBlobView {
            commit: self.commit@,
            summary: self.summary@,
            blob: crate::state::hash_view(self.blob),
        }
    }
}

/// The views of a row of parents.
pub open spec fn parent_views(parents: Seq<ParentBlob>) -> Seq<ParentBlobView> {
    Seq::new(parents.len(), |i: int| parents[i]@)
}

/// A search for the commit that last changed a file, as plain values: the
/// content that is looked for, the commits that were met, and the commits
/// whose parents are still to be looked at, each with its summary.
pub struct LastChangeView {
    pub target: Seq<char>,
    pub seen: Set<Seq<char>>,
    pub queue: Seq<(Seq<char>, Seq<char>)>,
}

/// The search after the first `upto` of `parents` were looked at, and whether
/// one of them holds the file with the content that is looked for. Each
/// parent that holds it and was not met before is marked and put at the end of
/// the queue.
pub open spec fn look_at_parents(search: LastChangeView, parents: Seq<ParentBlobView>, upto: int) -> (
    LastChangeView,
    bool,
)
    decreases upto,
{
    if upto <= 0 {
        (search, false)
    } else {
        let (before, go) = look_at_parents(search, parents, upto - 1);
        let parent = parents[upto - 1];
        if parent.blob == Some(search.target) {
            if before.seen.contains(parent.commit) {
                (before, true)
            } else {
                (
                    LastChangeView {
                        target: before.target,
                        seen: before.seen.insert(parent.commit),
                        queue: before.queue.push((parent.commit, parent.summary)),
                    },
                    true,
                )
            }
        } else {
            (before, go)
        }
    }
}

/// What one step of the search gives.
#[derive(Debug)]
pub enum WalkStep {
    /// The search goes on: the parents of its front commit are needed next.
    Continue(LastChangeWalk),
    /// The search is over: this commit is the earliest that was found to
    /// hold the file with its content, and this is its summary.
    Done { commit: CommitHash, summary: String },
}

/// What a step of `search` with the `parents` of its front commit gives: the
/// front commit where none of the parents holds the file with the content
/// looked for, or where nothing is left in the queue; else the search without
/// its front commit and with the parents that were newly met.
pub open spec fn step_gives(search: LastChangeView, parents: Seq<ParentBlobView>, step: WalkStep) -> bool {
    let front = search.queue[0];
    let popped = LastChangeView { queue: search.queue.drop_first(), ..search };
    let (after, go) = look_at_parents(popped, parents, parents.len() as int);
    if !go || after.queue.len() == 0 {
        step matches WalkStep::Done { commit, summary } && commit@ == front.0 && summary@
            == front.1
    } else {
        step matches WalkStep::Continue(next) && next@ == after
    }
}

/// The commits and summaries of a queue.
pub open spec fn queue_views(queue: Seq<(CommitHash, String)>) -> Seq<(Seq<char>, Seq<char>)> {
    Seq::new(queue.len(), |i: int| (queue[i].0@, queue[i].1@))
}

/// A breadth-first search, from a commit towards its ancestors, for the
/// earliest commit in which a file has the content it has in that commit.
#[derive(Debug)]
pub struct LastChangeWalk {
    target: FileHash,
    seen: SortedMap<bool>,
    queue: VecDeque<(CommitHash, String)>,
}

impl View for LastChangeWalk {
    type V = LastChangeView;

    closed spec fn view(&self) -> LastChangeView {
        LastChangeView {
            target: self.target@,
            seen: met(self.seen.as_map()),
            queue: queue_views(self.queue@),
        }
    }
}

impl LastChangeWalk {
    #[verifier::type_invariant]
    spec fn has_a_front(&self) -> bool {
        self.queue@.len() > 0
    }

    /// The search that starts at `commit`, in whose tree the file has the
    /// content `target`.
    pub fn start(commit: CommitHash, summary: String, target: FileHash) -> (walk: Self)
        ensures
            walk@ == (LastChangeView {
                target: target@,
                seen: set![commit@],
                queue: seq![(commit@, summary@)],
            }),
    {
        let mut seen: SortedMap<bool> = SortedMap::new();
        seen.insert(commit.clone().inner(), true);
        let mut queue: VecDeque<(CommitHash, String)> = VecDeque::new();
        queue.push_back((commit, summary));
        assert(met(seen.as_map()) =~= set![commit@]);
        assert(queue_views(queue@) =~= seq![(commit@, summary@)]);
        LastChangeWalk { target, seen, queue }
    }

    /// The commit whose parents the next step needs.
    pub fn current(&self) -> (commit: &CommitHash)
        ensures
            self@.queue.len() > 0,
            commit@ == self@.queue[0].0,
    {
        proof {
            use_type_invariant(self);
        }
        &self.queue[0].0
    }

    /// Looks at the parents of the front commit and says how the search goes
    /// on.
    pub fn step(self, parents: &Vec<ParentBlob>) -> (step: WalkStep)
        ensures
            self@.queue.len() > 0,
            step_gives(self@, parent_views(parents@), step),
    {
        proof {
            use_type_invariant(&self);
        }
        let ghost start = self@;
        let LastChangeWalk { target, seen, queue } = self;
        let mut seen = seen;
        let mut queue = queue;
        let ghost queue_before = queue_views(queue@);
        let front = queue.pop_front();
        assert(queue_views(queue@) =~= queue_before.drop_first());
        let ghost popped = LastChangeView { queue: start.queue.drop_first(), ..start };
        let mut go = false;
        let mut at: usize = 0;
        while at < parents.len()
            invariant
                at <= parents@.len(),
                popped.target == target@,
                ((LastChangeView {
                    target: target@,
                    seen: met(seen.as_map()),
                    queue: queue_views(queue@),
                }), go) == look_at_parents(popped, parent_views(parents@), at as int),
            decreases parents@.len() - at,
        {
            let parent = &parents[at];
            assert(parent_views(parents@)[at as int] == parent@);
            match &parent.blob {
                Some(blob) => {
                    if blob.same(&target) {
                        if !seen.contains_key(parent.commit.as_str()) {
                            let ghost seen_before = met(seen.as_map());
                            let ghost waiting = queue_views(queue@);
                            seen.insert(parent.commit.clone().inner(), true);
                            queue.push_back((parent.commit.clone(), parent.summary.clone()));
                            assert(met(seen.as_map()) =~= seen_before.insert(parent@.commit));
                            assert(queue_views(queue@) =~= waiting.push(
                                (parent@.commit, parent@.summary),
                            ));
                        }
                        go = true;
                    }
                },
                None => {},
            }
            at += 1;
        }
        match front {
            Some((commit, summary)) => {
                if !go || queue.len() == 0 {
                    WalkStep::Done { commit, summary }
                } else {
                    WalkStep::Continue(LastChangeWalk { target, seen, queue })
                }
            },
            None => {
                proof {
                    assert(false);
                }
                WalkStep::Continue(LastChangeWalk { target, seen, queue })
            },
        }
    }
}

} // verus!
