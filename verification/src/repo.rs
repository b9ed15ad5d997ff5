//! Identifiers of commits and of file contents, and what is decided about a
//! working copy before it is touched: which files to bring in from the pinned
//! commit, which to clear away, and how a state commit is worded.

use crate::pattern::{any_matches, texts, PatternList};
use crate::text::join3;
use vstd::prelude::*;
use vstd::string::*;

verus! {

/// Number of characters of a commit hash that are shown to people.
pub const SHORT_REF_LEN: usize = 7;

/// Content hash of a file, as the repository's object hasher produced it.
/// Two equal hashes stand for the same bytes.
#[derive(Debug, PartialEq, Eq)]
pub struct FileHash {
    text: String,
}

impl View for FileHash {
    type V = Seq<char>;

    closed spec fn view(&self) -> Seq<char> {
        self.text@
    }
}

impl Clone for FileHash {
    fn clone(&self) -> (copy: Self)
        ensures
            copy@ == self@,
    {
        FileHash { text: self.text.clone() }
    }
}

impl FileHash {
    /// Wraps the hexadecimal text of a content hash.
    pub fn new(text: String) -> (hash: Self)
        ensures
            hash@ == text@,
    {
        FileHash { text }
    }

    /// The hexadecimal text.
    pub fn inner(self) -> (text: String)
        ensures
            text@ == self@,
    {
        self.text
    }

    /// Borrowed form of [`FileHash::inner`].
    pub fn as_str(&self) -> (text: &str)
        ensures
            text@ == self@,
    {
        self.text.as_str()
    }

    /// Whether both hashes stand for the same content.
    pub fn same(&self, other: &FileHash) -> (equal: bool)
        ensures
            equal == (self@ == other@),
    {
        self.text == other.text
    }
}

/// Identifier of a commit.
#[derive(Debug, PartialEq, Eq)]
pub struct CommitHash {
    text: String,
}

impl View for CommitHash {
    type V = Seq<char>;

    closed spec fn view(&self) -> Seq<char> {
        self.text@
    }
}

impl Clone for CommitHash {
    fn clone(&self) -> (copy: Self)
        ensures
            copy@ == self@,
    {
        CommitHash { text: self.text.clone() }
    }
}

/// The first [`SHORT_REF_LEN`] characters of `full`, or all of it when it is shorter.
pub open spec fn short_ref(full: Seq<char>) -> Seq<char> {
    if full.len() <= SHORT_REF_LEN {
        full
    } else {
        full.subrange(0, SHORT_REF_LEN as int)
    }
}

impl CommitHash {
    /// Wraps the hexadecimal text of a commit id.
    pub fn new(text: String) -> (hash: Self)
        ensures
            hash@ == text@,
    {
        CommitHash { text }
    }

    /// The full text, which is what equality goes by.
    pub fn inner(self) -> (text: String)
        ensures
            text@ == self@,
    {
        self.text
    }

    /// Borrowed form of [`CommitHash::inner`].
    pub fn as_str(&self) -> (text: &str)
        ensures
            text@ == self@,
    {
        self.text.as_str()
    }

    /// The short form for display.
    pub fn to_short_ref(&self) -> (short: String)
        ensures
            short@ == short_ref(self@),
    {
        let full = self.text.as_str();
        let len: usize = full.unicode_len();
        if len <= SHORT_REF_LEN {
            assert(full@.subrange(0, len as int) =~= full@);
            String::from_str(full)
        } else {
            String::from_str(full.substring_char(0, SHORT_REF_LEN))
        }
    }

    /// Whether both name the same commit.
    pub fn same(&self, other: &CommitHash) -> (equal: bool)
        ensures
            equal == (self@ == other@),
    {
        self.text == other.text
    }
}

/// Name under which state commits are made.
pub const COMMITTER_NAME: &'static str = "Cepler";

/// Mail address under which state commits are made.
pub const COMMITTER_EMAIL: &'static str = "bot@cepler.io";

/// Subject of the commit that stores the state file of the environment
/// `stem`.
pub open spec fn state_commit_subject(stem: Seq<char>) -> Seq<char> {
    "[cepler] Updated "@ + stem + " state"@
}

/// Subject of the commit that stores the state file of the environment
/// `stem`.
pub fn commit_message(stem: &str) -> (subject: String)
    ensures
        subject@ == state_commit_subject(stem@),
{
    join3("[cepler] Updated ", stem, " state")
}

/// The reference specification that pushes the branch `refname` to the branch
/// of the same name.
pub fn push_refspec(refname: &str) -> (refspec: String)
    ensures
        refspec@ == refname@ + ":"@ + refname@,
{
    join3(refname, ":", refname)
}

/// Whether the file at `path` is chosen: no pattern of `unwanted` or of
/// `also_unwanted` selects it, and `all` is set or a pattern of `wanted`
/// selects it.
pub open spec fn path_chosen(
    path: Seq<char>,
    wanted: Seq<Seq<char>>,
    all: bool,
    unwanted: Seq<Seq<char>>,
    also_unwanted: Seq<Seq<char>>,
) -> bool {
    chosen(
        any_matches(wanted, path),
        all,
        any_matches(unwanted, path),
        any_matches(also_unwanted, path),
    )
}

/// Those of the first `upto` of `paths` that are chosen, in their order.
pub open spec fn chosen_paths(
    paths: Seq<Seq<char>>,
    wanted: Seq<Seq<char>>,
    all: bool,
    unwanted: Seq<Seq<char>>,
    also_unwanted: Seq<Seq<char>>,
    upto: int,
) -> Seq<Seq<char>>
    decreases upto,
{
    if upto <= 0 {
        Seq::empty()
    } else {
        let before = chosen_paths(paths, wanted, all, unwanted, also_unwanted, upto - 1);
        if path_chosen(paths[upto - 1], wanted, all, unwanted, also_unwanted) {
            before.push(paths[upto - 1])
        } else {
            before
        }
    }
}

/// Every chosen path is one of the paths and is chosen, and every path that
/// is chosen is among the chosen paths.
pub proof fn lemma_chosen_paths(
    paths: Seq<Seq<char>>,
    wanted: Seq<Seq<char>>,
    all: bool,
    unwanted: Seq<Seq<char>>,
    also_unwanted: Seq<Seq<char>>,
    upto: int,
)
    requires
        0 <= upto <= paths.len(),
    ensures
        forall|path: Seq<char>|
            #![trigger chosen_paths(paths, wanted, all, unwanted, also_unwanted, upto).contains(path)]
            #![trigger paths.take(upto).contains(path)]
            chosen_paths(paths, wanted, all, unwanted, also_unwanted, upto).contains(path) <==> (
            paths.take(upto).contains(path) && path_chosen(
                path,
                wanted,
                all,
                unwanted,
                also_unwanted,
            )),
    decreases upto,
{
    if upto > 0 {
        lemma_chosen_paths(paths, wanted, all, unwanted, also_unwanted, upto - 1);
        let before = chosen_paths(paths, wanted, all, unwanted, also_unwanted, upto - 1);
        let now = chosen_paths(paths, wanted, all, unwanted, also_unwanted, upto);
        let last = paths[upto - 1];
        assert(paths.take(upto) =~= paths.take(upto - 1).push(last));
        assert forall|path: Seq<char>|
            #![trigger now.contains(path)]
            #![trigger paths.take(upto).contains(path)]
            now.contains(path) <==> (paths.take(upto).contains(path) && path_chosen(
                path,
                wanted,
                all,
                unwanted,
                also_unwanted,
            )) by {
            if now.contains(path) {
                let i = now.index_of(path);
                if i < before.len() {
                    assert(before[i] == path);
                    assert(before.contains(path));
                    assert(paths.take(upto - 1).contains(path));
                    let j = paths.take(upto - 1).index_of(path);
                    assert(paths.take(upto - 1)[j] == path);
                    assert(paths.take(upto)[j] == path);
                } else {
                    assert(path == last);
                    assert(paths.take(upto)[upto - 1] == path);
                }
            }
            if paths.take(upto).contains(path) && path_chosen(
                path,
                wanted,
                all,
                unwanted,
                also_unwanted,
            ) {
                let j = paths.take(upto).index_of(path);
                assert(paths.take(upto)[j] == path);
                if j < upto - 1 {
                    assert(paths.take(upto - 1)[j] == path);
                    assert(paths.take(upto - 1).contains(path));
                    assert(before.contains(path));
                    let i = before.index_of(path);
                    assert(before[i] == path);
                    assert(now[i] == path);
                } else {
                    assert(path == last);
                    assert(now[now.len() - 1] == path);
                }
            }
        }
    }
}

/// Whether a file is chosen, given what the patterns say of it: neither
/// list of unwanted files holds it, and `all` is set or it is wanted.
pub open spec fn chosen(wanted: bool, all: bool, unwanted: bool, also_unwanted: bool) -> bool {
    &&& !unwanted
    &&& !also_unwanted
    &&& (all || wanted)
}

/// Whether a file is chosen, given what the patterns say of it.
pub fn is_chosen(wanted: bool, all: bool, unwanted: bool, also_unwanted: bool) -> (choice: bool)
    ensures
        choice == chosen(wanted, all, unwanted, also_unwanted),
{
    !unwanted && !also_unwanted && (all || wanted)
}

/// Those of the first `upto` of `paths` whose answer is `true`, in their
/// order. A path without an answer is not kept.
pub open spec fn kept_paths(paths: Seq<Seq<char>>, answers: Seq<bool>, upto: int) -> Seq<Seq<char>>
    decreases upto,
{
    if upto <= 0 {
        Seq::empty()
    } else {
        let before = kept_paths(paths, answers, upto - 1);
        if upto - 1 < answers.len() && answers[upto - 1] {
            before.push(paths[upto - 1])
        } else {
            before
        }
    }
}

/// Those of `paths` whose answer is `true`, in their order.
pub fn keep_chosen(paths: &Vec<String>, answers: &Vec<bool>) -> (kept: Vec<String>)
    ensures
        texts(kept@) == kept_paths(texts(paths@), answers@, paths@.len() as int),
{
    let mut kept: Vec<String> = Vec::new();
    let mut at: usize = 0;
    while at < paths.len()
        invariant
            at <= paths@.len(),
            texts(kept@) == kept_paths(texts(paths@), answers@, at as int),
        decreases paths@.len() - at,
    {
        assert(texts(paths@)[at as int] == paths@[at as int]@);
        if at < answers.len() && answers[at] {
            let ghost before = texts(kept@);
            kept.push(paths[at].clone());
            assert(texts(kept@) =~= before.push(paths@[at as int]@));
        }
        at += 1;
    }
    kept
}

/// Choosing by patterns comes to the same as keeping by the answers of the
/// patterns.
pub proof fn lemma_chosen_paths_by_answers(
    paths: Seq<Seq<char>>,
    answers: Seq<bool>,
    wanted: Seq<Seq<char>>,
    all: bool,
    unwanted: Seq<Seq<char>>,
    also_unwanted: Seq<Seq<char>>,
    upto: int,
)
    requires
        0 <= upto <= paths.len(),
        answers.len() == paths.len(),
        forall|i: int|
            0 <= i < paths.len() ==> answers[i] == path_chosen(
                #[trigger] paths[i],
                wanted,
                all,
                unwanted,
                also_unwanted,
            ),
    ensures
        chosen_paths(paths, wanted, all, unwanted, also_unwanted, upto) == kept_paths(
            paths,
            answers,
            upto,
        ),
    decreases upto,
{
    if upto > 0 {
        lemma_chosen_paths_by_answers(
            paths,
            answers,
            wanted,
            all,
            unwanted,
            also_unwanted,
            upto - 1,
        );
        assert(answers[upto - 1] == path_chosen(
            paths[upto - 1],
            wanted,
            all,
            unwanted,
            also_unwanted,
        ));
    }
}

/// Those of `paths` that are chosen, in their order.
pub fn select_paths(
    paths: &Vec<String>,
    wanted: &PatternList,
    all: bool,
    unwanted: &PatternList,
    also_unwanted: &PatternList,
) -> (chosen: Vec<String>)
    ensures
        texts(chosen@) == chosen_paths(
            texts(paths@),
            wanted@,
            all,
            unwanted@,
            also_unwanted@,
            paths@.len() as int,
        ),
{
    let mut answers: Vec<bool> = Vec::new();
    let mut at: usize = 0;
    while at < paths.len()
        invariant
            at <= paths@.len(),
            answers@.len() == at,
            forall|i: int|
                0 <= i < at ==> answers@[i] == path_chosen(
                    #[trigger] texts(paths@)[i],
                    wanted@,
                    all,
                    unwanted@,
                    also_unwanted@,
                ),
        decreases paths@.len() - at,
    {
        let path = paths[at].as_str();
        assert(texts(paths@)[at as int] == path@);
        answers.push(
            is_chosen(
                wanted.matches(path),
                all,
                unwanted.matches(path),
                also_unwanted.matches(path),
            ),
        );
        at += 1;
    }
    proof {
        lemma_chosen_paths_by_answers(
            texts(paths@),
            answers@,
            wanted@,
            all,
            unwanted@,
            also_unwanted@,
            paths@.len() as int,
        );
    }
    keep_chosen(paths, &answers)
}

/// What a checkout of the pinned commit does to the working copy.
#[derive(Debug)]
pub struct GateCheckout {
    /// The files on disk to delete, before anything is brought in.
    pub remove: Vec<String>,
    /// The files of the pinned commit to bring into the working copy. Nothing
    /// is checked out where this is empty.
    pub materialize: Vec<String>,
}

/// The files of the pinned commit that `globs` select and `ignore_files` do
/// not.
pub fn gate_files_matching(
    globs: &PatternList,
    ignore_files: &PatternList,
    gate_files: &Vec<String>,
) -> (matching: Vec<String>)
    ensures
        texts(matching@) == chosen_paths(
            texts(gate_files@),
            globs@,
            false,
            ignore_files@,
            Seq::empty(),
            gate_files@.len() as int,
        ),
{
    let none = PatternList::empty();
    assert(none@ =~= Seq::<Seq<char>>::empty());
    select_paths(gate_files, globs, false, ignore_files, &none)
}

/// Sets the working copy to a partial view of the pinned commit.
///
/// `gate_files` are the paths of the files in the pinned commit, `on_disk`
/// those of the files in the working copy that the repository could track.
/// Of the pinned commit's files, those that `globs` select and `ignore_files` do not
/// are brought in. Of the files on disk, those that `ignore_files` do not
/// select are deleted: all of them where `clean` is set, else those that
/// `globs` select.
pub fn checkout_gate(
    globs: &PatternList,
    ignore_files: &PatternList,
    clean: bool,
    gate_files: &Vec<String>,
    on_disk: &Vec<String>,
) -> (plan: GateCheckout)
    ensures
        texts(plan.materialize@) == chosen_paths(
            texts(gate_files@),
            globs@,
            false,
            ignore_files@,
            Seq::empty(),
            gate_files@.len() as int,
        ),
        texts(plan.remove@) == chosen_paths(
            texts(on_disk@),
            globs@,
            clean,
            ignore_files@,
            Seq::empty(),
            on_disk@.len() as int,
        ),
{
    let none = PatternList::empty();
    assert(none@ =~= Seq::<Seq<char>>::empty());
    let materialize = gate_files_matching(globs, ignore_files, gate_files);
    let remove = select_paths(on_disk, globs, clean, ignore_files, &none);
    GateCheckout { remove, materialize }
}

} // verus!
