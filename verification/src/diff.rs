//! The difference between two deployment states, file by file.

use crate::sorted_map::{lemma_map_of_sorted, lemma_sorted_index_of};
use crate::state::{DeployState, DeployStateView, FileIdent, FileState, FileStateView};
use vstd::prelude::*;

verus! {

/// One changed file.
#[derive(Debug, PartialEq, Eq)]
pub struct FileDiff {
    /// Which file.
    pub ident: FileIdent,
    /// What is now recorded of it; `None` where the file is gone.
    pub current_state: Option<FileState>,
    /// Whether the file is new.
    pub added: bool,
}

/// A [`FileDiff`] as plain values.
pub struct FileDiffView {
    pub ident: Seq<char>,
    pub current_state: Option<FileStateView>,
    pub added: bool,
}

/// The view of a file state that may be missing.
pub open spec fn state_view(state: Option<FileState>) -> Option<FileStateView> {
    match state {
        Some(s) => Some(s@),
        None => None,
    }
}

impl View for FileDiff {
    type V = FileDiffView;

    open spec fn view(&self) -> FileDiffView {
        FileDiffView {
            ident: self.ident@,
            current_state: state_view(self.current_state),
            added: self.added,
        }
    }
}

/// A difference in words: the path of the file, and whether it was added,
/// changed or removed.
pub open spec fn change_text(diff: FileDiffView) -> Seq<char> {
    "File "@ + crate::state::ident_name(diff.ident) + if diff.added {
        " was added"@
    } else if diff.current_state.is_some() {
        " changed"@
    } else {
        " was removed"@
    }
}

impl FileDiff {
    /// The difference in words, for people.
    pub fn describe(&self) -> (text: String)
        ensures
            text@ == change_text(self@),
    {
        let name = self.ident.name();
        if self.added {
            crate::text::join3("File ", name.as_str(), " was added")
        } else if self.current_state.is_some() {
            crate::text::join3("File ", name.as_str(), " changed")
        } else {
            crate::text::join3("File ", name.as_str(), " was removed")
        }
    }
}

/// The views of a row of differences.
pub open spec fn diff_views(diffs: Seq<FileDiff>) -> Seq<FileDiffView> {
    Seq::new(diffs.len(), |i: int| diffs[i]@)
}

/// What is to be said of the file `ident`, recorded as `mine` in the newer
/// state and as `theirs` in the older one.
///
/// - Only in the newer state, with a hash: added.
/// - Only in the newer state, without a hash: nothing.
/// - In both, no hash on either side: nothing.
/// - In both, with different hashes or one side dirty: changed, with the
///   newer state.
/// - Only in the older state: removed.
pub open spec fn diff_of(
    ident: Seq<char>,
    mine: Option<FileStateView>,
    theirs: Option<FileStateView>,
) -> Option<FileDiffView> {
    match (mine, theirs) {
        (Some(m), None) => if m.file_hash.is_some() {
            Some(FileDiffView { ident, current_state: Some(m), added: true })
        } else {
            None
        },
        (Some(m), Some(t)) => if m.file_hash.is_none() && t.file_hash.is_none() {
            None
        } else if m.dirty || t.dirty || m.file_hash != t.file_hash {
            Some(FileDiffView { ident, current_state: Some(m), added: false })
        } else {
            None
        },
        (None, Some(t)) => Some(FileDiffView { ident, current_state: None, added: false }),
        (None, None) => None,
    }
}

/// The differences that the first `upto` files of `mine` make against
/// `theirs`, in the order of the files.
pub open spec fn own_diffs(mine: DeployStateView, theirs: DeployStateView, upto: int) -> Seq<
    FileDiffView,
>
    decreases upto,
{
    if upto <= 0 {
        Seq::empty()
    } else {
        let before = own_diffs(mine, theirs, upto - 1);
        let ident = mine.idents[upto - 1];
        match diff_of(ident, Some(mine.states[upto - 1]), theirs.file(ident)) {
            Some(diff) => before.push(diff),
            None => before,
        }
    }
}

/// The removals among the first `upto` files of `theirs`: those that `mine`
/// does not hold, in the order of the files.
pub open spec fn removed_diffs(mine: DeployStateView, theirs: DeployStateView, upto: int) -> Seq<
    FileDiffView,
>
    decreases upto,
{
    if upto <= 0 {
        Seq::empty()
    } else {
        let before = removed_diffs(mine, theirs, upto - 1);
        let ident = theirs.idents[upto - 1];
        if mine.file(ident).is_none() {
            before.push(FileDiffView { ident, current_state: None, added: false })
        } else {
            before
        }
    }
}

/// The difference of `mine` against `theirs`: first what the files of `mine`
/// make, then the files that only `theirs` holds.
pub open spec fn state_diff(mine: DeployStateView, theirs: DeployStateView) -> Seq<FileDiffView> {
    own_diffs(mine, theirs, mine.idents.len() as int) + removed_diffs(
        mine,
        theirs,
        theirs.idents.len() as int,
    )
}

/// Whether no file differs between `mine` and `theirs`.
pub open spec fn no_difference(mine: DeployStateView, theirs: DeployStateView) -> bool {
    forall|ident: Seq<char>| diff_of(ident, mine.file(ident), theirs.file(ident)).is_none()
}

/// `own_diffs` is empty exactly when none of the files it covers differs.
pub proof fn lemma_own_diffs_empty(mine: DeployStateView, theirs: DeployStateView, upto: int)
    requires
        0 <= upto <= mine.idents.len(),
        mine.valid(),
    ensures
        own_diffs(mine, theirs, upto).len() == 0 <==> forall|i: int|
            0 <= i < upto ==> diff_of(
                #[trigger] mine.idents[i],
                Some(mine.states[i]),
                theirs.file(mine.idents[i]),
            ).is_none(),
    decreases upto,
{
    if upto > 0 {
        lemma_own_diffs_empty(mine, theirs, upto - 1);
        let ident = mine.idents[upto - 1];
        if own_diffs(mine, theirs, upto).len() == 0 {
            assert(diff_of(ident, Some(mine.states[upto - 1]), theirs.file(ident)).is_none());
        }
    }
}

/// `removed_diffs` is empty exactly when `mine` holds each of the files that
/// it covers.
pub proof fn lemma_removed_diffs_empty(mine: DeployStateView, theirs: DeployStateView, upto: int)
    requires
        0 <= upto <= theirs.idents.len(),
    ensures
        removed_diffs(mine, theirs, upto).len() == 0 <==> forall|i: int|
            0 <= i < upto ==> mine.file(#[trigger] theirs.idents[i]).is_some(),
    decreases upto,
{
    if upto > 0 {
        lemma_removed_diffs_empty(mine, theirs, upto - 1);
    }
}

/// The difference of two states is empty exactly when no file differs.
pub proof fn lemma_state_diff_empty(mine: DeployStateView, theirs: DeployStateView)
    requires
        mine.valid(),
        theirs.valid(),
    ensures
        state_diff(mine, theirs).len() == 0 <==> no_difference(mine, theirs),
{
    lemma_own_diffs_empty(mine, theirs, mine.idents.len() as int);
    lemma_removed_diffs_empty(mine, theirs, theirs.idents.len() as int);
    lemma_map_of_sorted(mine.idents, mine.states);
    lemma_map_of_sorted(theirs.idents, theirs.states);
    if no_difference(mine, theirs) {
        assert forall|i: int| 0 <= i < mine.idents.len() implies diff_of(
            #[trigger] mine.idents[i],
            Some(mine.states[i]),
            theirs.file(mine.idents[i]),
        ).is_none() by {
            let ident = mine.idents[i];
            assert(diff_of(ident, mine.file(ident), theirs.file(ident)).is_none());
        }
        assert forall|i: int| 0 <= i < theirs.idents.len() implies mine.file(
            #[trigger] theirs.idents[i],
        ).is_some() by {
            let ident = theirs.idents[i];
            assert(diff_of(ident, mine.file(ident), theirs.file(ident)).is_none());
        }
    }
    if state_diff(mine, theirs).len() == 0 {
        assert forall|ident: Seq<char>| diff_of(
            ident,
            mine.file(ident),
            theirs.file(ident),
        ).is_none() by {
            if mine.files().contains_key(ident) {
                let i = mine.idents.index_of(ident);
                lemma_sorted_index_of(mine.idents, i);
                assert(diff_of(
                    mine.idents[i],
                    Some(mine.states[i]),
                    theirs.file(mine.idents[i]),
                ).is_none());
            } else if theirs.files().contains_key(ident) {
                let i = theirs.idents.index_of(ident);
                assert(mine.file(theirs.idents[i]).is_some());
            }
        }
    }
}

/// The difference of a state against another depends on its files alone: two
/// states with the same files in the same order give the same difference.
pub proof fn lemma_state_diff_depends_on_files(
    first: DeployStateView,
    second: DeployStateView,
    theirs: DeployStateView,
)
    requires
        first.idents == second.idents,
        first.states == second.states,
    ensures
        state_diff(first, theirs) == state_diff(second, theirs),
        no_difference(first, theirs) == no_difference(second, theirs),
{
    lemma_own_diffs_depend_on_files(first, second, theirs, first.idents.len() as int);
    lemma_removed_diffs_depend_on_files(first, second, theirs, theirs.idents.len() as int);
    assert forall|ident: Seq<char>| first.file(ident) == second.file(ident) by {}
    if no_difference(first, theirs) {
        assert forall|ident: Seq<char>|
            diff_of(ident, second.file(ident), theirs.file(ident)).is_none() by {
            assert(diff_of(ident, first.file(ident), theirs.file(ident)).is_none());
        }
    }
    if no_difference(second, theirs) {
        assert forall|ident: Seq<char>|
            diff_of(ident, first.file(ident), theirs.file(ident)).is_none() by {
            assert(diff_of(ident, second.file(ident), theirs.file(ident)).is_none());
        }
    }
}

/// `own_diffs` reads nothing of its first state but the files.
pub proof fn lemma_own_diffs_depend_on_files(
    first: DeployStateView,
    second: DeployStateView,
    theirs: DeployStateView,
    upto: int,
)
    requires
        first.idents == second.idents,
        first.states == second.states,
    ensures
        own_diffs(first, theirs, upto) == own_diffs(second, theirs, upto),
    decreases upto,
{
    if upto > 0 {
        lemma_own_diffs_depend_on_files(first, second, theirs, upto - 1);
    }
}

/// `removed_diffs` reads nothing of its first state but the files.
pub proof fn lemma_removed_diffs_depend_on_files(
    first: DeployStateView,
    second: DeployStateView,
    theirs: DeployStateView,
    upto: int,
)
    requires
        first.idents == second.idents,
        first.states == second.states,
    ensures
        removed_diffs(first, theirs, upto) == removed_diffs(second, theirs, upto),
    decreases upto,
{
    if upto > 0 {
        lemma_removed_diffs_depend_on_files(first, second, theirs, upto - 1);
    }
}

impl DeployState {
    /// What changed from `other`, the older state, to this one.
    pub fn diff(&self, other: &DeployState) -> (diffs: Vec<FileDiff>)
        ensures
            diff_views(diffs@) == state_diff(self@, other@),
            diffs@.len() == 0 <==> no_difference(self@, other@),
    {
        self.validity();
        other.validity();
        let mut diffs: Vec<FileDiff> = Vec::new();
        let count = self.len();
        let mut at: usize = 0;
        while at < count
            invariant
                at <= count,
                count == self@.idents.len(),
                self@.valid(),
                diff_views(diffs@) == own_diffs(self@, other@, at as int),
            decreases count - at,
        {
            let key = self.ident_at(at);
            let state = self.file_at(at);
            let ghost before = diff_views(diffs@);
            match other.get(key.as_str()) {
                Some(last_state) => {
                    let both_missing = state.file_hash.is_none() && last_state.file_hash.is_none();
                    if !both_missing && (state.dirty || last_state.dirty || !state.same_hash(
                        last_state,
                    )) {
                        diffs.push(
                            FileDiff {
                                ident: FileIdent::from_inner(key.clone()),
                                current_state: Some(state.clone()),
                                added: false,
                            },
                        );
                        assert(diff_views(diffs@) =~= before.push(diffs@[diffs@.len() - 1]@));
                    }
                },
                None => {
                    if state.file_hash.is_some() {
                        diffs.push(
                            FileDiff {
                                ident: FileIdent::from_inner(key.clone()),
                                current_state: Some(state.clone()),
                                added: true,
                            },
                        );
                        assert(diff_views(diffs@) =~= before.push(diffs@[diffs@.len() - 1]@));
                    }
                },
            }
            at += 1;
        }
        let ghost own = diff_views(diffs@);
        let other_count = other.len();
        let mut at: usize = 0;
        while at < other_count
            invariant
                at <= other_count,
                other_count == other@.idents.len(),
                diff_views(diffs@) == own + removed_diffs(self@, other@, at as int),
            decreases other_count - at,
        {
            let key = other.ident_at(at);
            let ghost before = diff_views(diffs@);
            if self.get(key.as_str()).is_none() {
                diffs.push(
                    FileDiff {
                        ident: FileIdent::from_inner(key.clone()),
                        current_state: None,
                        added: false,
                    },
                );
                assert(diff_views(diffs@) =~= before.push(diffs@[diffs@.len() - 1]@));
                assert(before.push(diffs@[diffs@.len() - 1]@) =~= own + removed_diffs(
                    self@,
                    other@,
                    at + 1,
                ));
            }
            at += 1;
        }
        proof {
            lemma_state_diff_empty(self@, other@);
        }
        diffs
    }
}

} // verus!
