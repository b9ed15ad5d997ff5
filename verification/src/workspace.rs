//! The engine: puts the state of an environment together from its
//! configuration, the files of a commit and the recorded states, tells whether
//! there is something new to deploy, and says which files to check out.

use crate::config::{EnvironmentConfig, EnvironmentConfigView};
use crate::database::{
    names, next_version, path_parent, recorded, state_dir_text, state_file_text,
    target_state, Database, DatabaseView, EnvironmentState,
};
use crate::diff::{diff_views, no_difference, state_diff, FileDiff, FileDiffView};
use crate::error::Error;
use crate::pattern::{
    any_matches, first_invalid, lemma_first_invalid_concat, texts, PatternList,
};
use crate::repo::{CommitHash, FileHash};
use crate::state::{
    ident_name, ident_text, name_of, DeployState, DeployStateView, FileIdent, FileState,
    FileStateView,
};
use crate::text::{first_index_of, join2, lemma_first_index_unique, str_eq};
use vstd::prelude::*;
use vstd::string::*;

verus! {

/// Names a recorded state: the commit it was taken at, and how often the
/// environment was recorded up to it.
#[derive(Debug, PartialEq, Eq)]
pub struct StateId {
    pub head_commit: String,
    pub version: u32,
}

/// A [`StateId`] as plain values.
pub struct StateIdView {
    pub head_commit: Seq<char>,
    pub version: u32,
}

impl View for StateId {
    type V = StateIdView;

    open spec fn view(&self) -> StateIdView {
        StateIdView { head_commit: self.head_commit@, version: self.version }
    }
}

/// A file of a commit that is a candidate for an environment, with the
/// earliest commit in which it has the content it has there.
#[derive(Debug)]
pub struct HeadFile {
    /// Path of the file in the commit's tree.
    pub path: String,
    /// Hash of its content in the commit's tree.
    pub file_hash: FileHash,
    /// The earliest commit in which the file has this content.
    pub from_commit: CommitHash,
    /// The summary of that commit.
    pub message: String,
}

/// A [`HeadFile`] as plain values.
pub struct HeadFileView {
    pub path: Seq<char>,
    pub file_hash: Seq<char>,
    pub from_commit: Seq<char>,
    pub message: Seq<char>,
}

impl View for HeadFile {
    type V = HeadFileView;

    open spec fn view(&self) -> HeadFileView {
        HeadFileView {
            path: self.path@,
            file_hash: self.file_hash@,
            from_commit: self.from_commit@,
            message: self.message@,
        }
    }
}

/// The views of a row of head files.
pub open spec fn head_file_views(files: Seq<HeadFile>) -> Seq<HeadFileView> {
    Seq::new(files.len(), |i: int| files[i]@)
}

/// A regular file in the working copy, with the hash of its content.
#[derive(Debug)]
pub struct DiskFile {
    pub path: String,
    pub file_hash: FileHash,
}

/// A [`DiskFile`] as plain values.
pub struct DiskFileView {
    pub path: Seq<char>,
    pub file_hash: Seq<char>,
}

impl View for DiskFile {
    type V = DiskFileView;

    open spec fn view(&self) -> DiskFileView {
        DiskFileView { path: self.path@, file_hash: self.file_hash@ }
    }
}

/// The views of a row of files on disk.
pub open spec fn disk_views(files: Seq<DiskFile>) -> Seq<DiskFileView> {
    Seq::new(files.len(), |i: int| files[i]@)
}

/// The paths of a row of files on disk.
pub open spec fn disk_paths(disk: Seq<DiskFileView>) -> Seq<Seq<char>> {
    Seq::new(disk.len(), |i: int| disk[i].path)
}

/// The hash of the file at `path` on disk, or `None` where `disk` lists no
/// regular file at that path.
pub open spec fn disk_hash(disk: Seq<DiskFileView>, path: Seq<char>) -> Option<Seq<char>> {
    let at = first_index_of(disk_paths(disk), path);
    if at < disk.len() {
        Some(disk[at].file_hash)
    } else {
        None
    }
}

/// What is recorded of a file that is inherited from upstream, where it was
/// recorded as `prev`. While recording, the hash is the one found on disk,
/// none where the file is missing, and the file is dirty where that is not
/// what upstream recorded. Else the upstream's hash is taken over, be it
/// missing, and the file is not dirty.
pub open spec fn inherited_state(
    prev: FileStateView,
    recording: bool,
    on_disk: Option<Seq<char>>,
) -> FileStateView {
    if recording {
        FileStateView { file_hash: on_disk, dirty: on_disk != prev.file_hash, ..prev }
    } else {
        FileStateView { dirty: false, ..prev }
    }
}

/// What is recorded of a file that is taken from the commit itself. While
/// recording, the hash is the one found on disk, and the file is dirty where
/// that is not the committed one or the file is missing. Else the committed
/// hash is taken.
pub open spec fn head_state(file: HeadFileView, recording: bool, on_disk: Option<Seq<char>>) -> FileStateView {
    if recording {
        match on_disk {
            Some(found) => FileStateView {
                file_hash: Some(found),
                dirty: file.file_hash != found,
                from_commit: file.from_commit,
                message: file.message,
            },
            None => FileStateView {
                file_hash: None,
                dirty: true,
                from_commit: file.from_commit,
                message: file.message,
            },
        }
    } else {
        FileStateView {
            file_hash: Some(file.file_hash),
            dirty: false,
            from_commit: file.from_commit,
            message: file.message,
        }
    }
}

/// `files` after the first `upto` files of the upstream state `target` were
/// gone through in order: each whose path `patterns` select is put in under
/// its path and the name of `upstream`.
pub open spec fn inherit_files(
    files: Map<Seq<char>, FileStateView>,
    target: DeployStateView,
    upstream: Seq<char>,
    patterns: Seq<Seq<char>>,
    recording: bool,
    disk: Seq<DiskFileView>,
    upto: int,
) -> Map<Seq<char>, FileStateView>
    decreases upto,
{
    if upto <= 0 {
        files
    } else {
        let before = inherit_files(files, target, upstream, patterns, recording, disk, upto - 1);
        let name = ident_name(target.idents[upto - 1]);
        let prev = target.states[upto - 1];
        if any_matches(patterns, name) {
            before.insert(
                ident_text(name, Some(upstream)),
                inherited_state(prev, recording, disk_hash(disk, name)),
            )
        } else {
            before
        }
    }
}

/// `files` after the first `upto` files of `tree` were gone through in
/// order: each whose path `head_patterns` select and `ignored` do not is put
/// in under its path as a file of the commit itself.
pub open spec fn take_head_files(
    files: Map<Seq<char>, FileStateView>,
    tree: Seq<HeadFileView>,
    head_patterns: Seq<Seq<char>>,
    ignored: Seq<Seq<char>>,
    recording: bool,
    disk: Seq<DiskFileView>,
    upto: int,
) -> Map<Seq<char>, FileStateView>
    decreases upto,
{
    if upto <= 0 {
        files
    } else {
        let before = take_head_files(
            files,
            tree,
            head_patterns,
            ignored,
            recording,
            disk,
            upto - 1,
        );
        let file = tree[upto - 1];
        if any_matches(head_patterns, file.path) && !any_matches(ignored, file.path) {
            before.insert(
                ident_text(file.path, None),
                head_state(file, recording, disk_hash(disk, file.path)),
            )
        } else {
            before
        }
    }
}

/// The patterns that keep the engine's own files out of every state: the
/// configuration file and what lies in the directory of the state files.
pub open spec fn own_files(path_to_config: Seq<char>, state_dir: Seq<char>) -> Seq<Seq<char>> {
    seq![path_to_config, state_dir + "/*"@]
}

/// The patterns that are never touched in the working copy: the engine's own
/// files and those of Git.
pub open spec fn ignored_files(path_to_config: Seq<char>, state_dir: Seq<char>) -> Seq<Seq<char>> {
    seq![path_to_config, state_dir + "/*"@, ".git/*"@, ".gitignore"@]
}

/// The patterns that have to be valid globs for a state of `env` to be put
/// together, in the order in which they are tried.
pub open spec fn patterns_needed(
    env: EnvironmentConfigView,
    path_to_config: Seq<char>,
    state_dir: Seq<char>,
) -> Seq<Seq<char>> {
    (if env.propagated_from.is_some() {
        env.propagated_files
    } else {
        Seq::empty()
    }) + own_files(path_to_config, state_dir) + env.head_files
}

/// The upstream state that `env` inherits from, if it has an upstream and
/// that has a state for it.
pub open spec fn upstream_target(db: DatabaseView, env: EnvironmentConfigView) -> Option<
    DeployStateView,
> {
    match env.propagated_from {
        Some(upstream) => target_state(
            db,
            env.name,
            env.ignore_queue,
            upstream,
            env.propagated_files,
        ),
        None => None,
    }
}

/// The files of the state of `env`: first those inherited from the upstream
/// target, then those of the commit itself, a later file taking the place of
/// an earlier one with the same identifier.
pub open spec fn assembled_files(
    db: DatabaseView,
    env: EnvironmentConfigView,
    path_to_config: Seq<char>,
    recording: bool,
    tree: Seq<HeadFileView>,
    disk: Seq<DiskFileView>,
) -> Map<Seq<char>, FileStateView> {
    let inherited = match upstream_target(db, env) {
        Some(target) => inherit_files(
            Map::empty(),
            target,
            env.propagated_from.unwrap(),
            env.propagated_files,
            recording,
            disk,
            target.idents.len() as int,
        ),
        None => Map::empty(),
    };
    take_head_files(
        inherited,
        tree,
        env.head_files,
        own_files(path_to_config, db.state_dir),
        recording,
        disk,
        tree.len() as int,
    )
}

/// Whether `state` is the state of `env` at `commit`.
pub open spec fn is_assembled(
    state: DeployStateView,
    commit: Seq<char>,
    db: DatabaseView,
    env: EnvironmentConfigView,
    path_to_config: Seq<char>,
    recording: bool,
    tree: Seq<HeadFileView>,
    disk: Seq<DiskFileView>,
) -> bool {
    &&& state.valid()
    &&& state.head_commit == commit
    &&& state.propagated_head == match upstream_target(db, env) {
        Some(target) => Some(target.head_commit),
        None => None,
    }
    &&& state.files() == assembled_files(db, env, path_to_config, recording, tree, disk)
}

/// The difference of a state against nothing: every file is added.
pub open spec fn all_added(state: DeployStateView) -> Seq<FileDiffView> {
    Seq::new(
        state.idents.len(),
        |i: int|
            FileDiffView {
                ident: state.idents[i],
                current_state: Some(state.states[i]),
                added: true,
            },
    )
}

/// The upstream of `env` where it has one that was never recorded.
pub open spec fn upstream_missing(db: DatabaseView, env: EnvironmentConfigView) -> Option<
    Seq<char>,
> {
    match env.propagated_from {
        Some(upstream) => if db.environments.contains_key(upstream) {
            None
        } else {
            Some(upstream)
        },
        None => None,
    }
}

/// The difference of the new state `state` of the environment `name` against
/// what the database holds of it.
pub open spec fn difference_to_last(db: DatabaseView, name: Seq<char>, state: DeployStateView) -> Seq<
    FileDiffView,
> {
    if db.environments.contains_key(name) {
        state_diff(state, db.environments[name].current)
    } else {
        all_added(state)
    }
}

/// What a check of the new state `state` of `env` gives.
///
/// - The upstream was never recorded: that failure.
/// - `env` was recorded and nothing differs: `None`.
/// - Else the commit of the new state with the next version, and the
///   difference; a failure where the next version no longer fits.
pub open spec fn check_gives(
    db: DatabaseView,
    env: EnvironmentConfigView,
    state: DeployStateView,
    outcome: Result<Option<(StateId, Vec<FileDiff>)>, Error>,
) -> bool {
    match upstream_missing(db, env) {
        Some(upstream) => outcome matches Err(Error::PreviousNotDeployed { name }) && name@
            == upstream,
        None => if db.environments.contains_key(env.name) && no_difference(
            state,
            db.environments[env.name].current,
        ) {
            outcome matches Ok(None)
        } else if next_version(db.environments, env.name) > u32::MAX {
            outcome matches Err(Error::VersionOverflow)
        } else {
            outcome matches Ok(Some((id, diffs))) && id@.head_commit == state.head_commit
                && id@.version == next_version(db.environments, env.name) && diff_views(diffs@)
                == difference_to_last(db, env.name, state)
        },
    }
}

/// One file to restore from a commit.
#[derive(Debug)]
pub struct Checkout {
    /// Path of the file.
    pub path: String,
    /// The commit to take it from.
    pub commit: CommitHash,
}

/// The views of a row of checkouts: path and commit.
pub open spec fn checkout_views(checkouts: Seq<Checkout>) -> Seq<(Seq<char>, Seq<char>)> {
    Seq::new(checkouts.len(), |i: int| (checkouts[i].path@, checkouts[i].commit@))
}

/// Every file of `state`, to be restored from the commit it was recorded
/// with, in the order of the files.
pub open spec fn recorded_checkouts(state: DeployStateView) -> Seq<(Seq<char>, Seq<char>)> {
    Seq::new(
        state.idents.len(),
        |i: int| (ident_name(state.idents[i]), state.states[i].from_commit),
    )
}

/// Of the first `upto` files of the upstream state `target`, those whose
/// path `patterns` select and `head_patterns` do not, each to be restored
/// from the commit it was recorded with.
pub open spec fn propagated_checkouts(
    target: DeployStateView,
    patterns: Seq<Seq<char>>,
    head_patterns: Seq<Seq<char>>,
    upto: int,
) -> Seq<(Seq<char>, Seq<char>)>
    decreases upto,
{
    if upto <= 0 {
        Seq::empty()
    } else {
        let before = propagated_checkouts(target, patterns, head_patterns, upto - 1);
        let name = ident_name(target.idents[upto - 1]);
        if any_matches(patterns, name) && !any_matches(head_patterns, name) {
            before.push((name, target.states[upto - 1].from_commit))
        } else {
            before
        }
    }
}

/// What is left to do to prepare the working copy once the pinned commit has
/// been checked out.
#[derive(Debug)]
pub struct PreparePlan {
    /// The files on disk to delete.
    pub remove: Vec<String>,
    /// The files to restore afterwards, each from its commit.
    pub checkouts: Vec<Checkout>,
}

/// What a recording gives.
#[derive(Debug)]
pub struct Recording {
    /// The name of the recorded state.
    pub state_id: StateId,
    /// What changed against the state recorded before.
    pub diffs: Vec<FileDiff>,
    /// The path of the state file that is to be written and committed.
    pub state_file: String,
}

/// What is done with the repository after a recording.
#[derive(Debug, PartialEq, Eq, Clone, Copy)]
pub enum RecordStep {
    /// Commit the state file.
    CommitStateFile,
    /// Reset the working copy to the head.
    CheckoutHead,
    /// Push the head to the remote.
    Push,
}

/// The steps after a recording, in their order: commit, reset, push, each
/// where it is asked for.
pub open spec fn steps_after_recording(commit: bool, reset: bool, push: bool) -> Seq<RecordStep> {
    (if commit {
        seq![RecordStep::CommitStateFile]
    } else {
        Seq::empty()
    }) + (if reset {
        seq![RecordStep::CheckoutHead]
    } else {
        Seq::empty()
    }) + (if push {
        seq![RecordStep::Push]
    } else {
        Seq::empty()
    })
}

/// The steps after a recording, in their order.
pub fn record_steps(commit: bool, reset: bool, push: bool) -> (steps: Vec<RecordStep>)
    ensures
        steps@ == steps_after_recording(commit, reset, push),
{
    let mut steps: Vec<RecordStep> = Vec::new();
    if commit {
        steps.push(RecordStep::CommitStateFile);
    }
    if reset {
        steps.push(RecordStep::CheckoutHead);
    }
    if push {
        steps.push(RecordStep::Push);
    }
    assert(steps@ =~= steps_after_recording(commit, reset, push));
    steps
}

/// Whether the texts of `row` stand in order: none comes before one that
/// stands before it.
pub open spec fn in_order(row: Seq<Seq<char>>) -> bool {
    forall|i: int, j: int|
        0 <= i < j < row.len() ==> !crate::text::text_lt(#[trigger] row[j], #[trigger] row[i])
}

/// Puts `name` into the ordered `row`, behind the texts that do not come
/// after it.
fn insert_in_order(row: &mut Vec<String>, name: String)
    requires
        in_order(texts(old(row)@)),
    ensures
        in_order(texts(final(row)@)),
        texts(final(row)@).to_multiset() == texts(old(row)@).to_multiset().insert(name@),
{
    let ghost before = texts(row@);
    let mut at: usize = 0;
    while at < row.len() && !crate::text::str_lt(name.as_str(), row[at].as_str())
        invariant
            at <= row@.len(),
            before == texts(row@),
            forall|j: int| 0 <= j < at ==> !crate::text::text_lt(name@, #[trigger] before[j]),
        decreases row@.len() - at,
    {
        assert(before[at as int] == row@[at as int]@);
        at += 1;
    }
    assert(at < row@.len() ==> crate::text::text_lt(name@, before[at as int])) by {
        if at < row@.len() {
            assert(before[at as int] == row@[at as int]@);
        }
    }
    row.insert(at, name);
    proof {
        let after = texts(row@);
        assert(after =~= before.insert(at as int, name@));
        assert forall|i: int, j: int| 0 <= i < j < after.len() implies !crate::text::text_lt(
            #[trigger] after[j],
            #[trigger] after[i],
        ) by {
            if j == at {
                assert(after[i] == before[i]);
            } else if i == at {
                assert(after[j] == before[j - 1]);
                if crate::text::text_lt(before[j - 1], name@) {
                    crate::text::lemma_text_lt_transitive(
                        before[j - 1],
                        name@,
                        before[at as int],
                    );
                    if j - 1 == at {
                        crate::text::lemma_text_lt_irreflexive(before[at as int]);
                    }
                }
            } else {
                let pi = if i < at { i } else { i - 1 };
                let pj = if j < at { j } else { j - 1 };
                assert(after[i] == before[pi]);
                assert(after[j] == before[pj]);
            }
        }
        assert(after.remove(at as int) =~= before);
        vstd::seq_lib::to_multiset_remove(after, at as int);
        assert(after.contains(after[at as int]));
        after.to_multiset_ensures();
        assert(after.to_multiset() =~= before.to_multiset().insert(name@));
    }
}

/// The hash of the file at `path` on disk.
fn disk_lookup<'a>(disk: &'a Vec<DiskFile>, path: &str) -> (found: Option<&'a FileHash>)
    ensures
        match found {
            Some(hash) => disk_hash(disk_views(disk@), path@) == Some(hash@),
            None => disk_hash(disk_views(disk@), path@).is_none(),
        },
{
    let mut at: usize = 0;
    while at < disk.len()
        invariant
            at <= disk@.len(),
            forall|j: int| 0 <= j < at ==> disk_paths(disk_views(disk@))[j] != path@,
        decreases disk@.len() - at,
    {
        assert(disk_paths(disk_views(disk@))[at as int] == disk@[at as int].path@);
        if str_eq(disk[at].path.as_str(), path) {
            proof {
                lemma_first_index_unique(disk_paths(disk_views(disk@)), path@, at as int);
            }
            return Some(&disk[at].file_hash);
        }
        at += 1;
    }
    proof {
        lemma_first_index_unique(disk_paths(disk_views(disk@)), path@, at as int);
    }
    None
}

/// What is recorded of a file that is inherited from upstream, where it was
/// recorded as `prev` and `on_disk` is the hash found on disk.
pub fn inherit(prev: &FileState, recording: bool, on_disk: Option<&FileHash>) -> (state: FileState)
    ensures
        state@ == inherited_state(
            prev@,
            recording,
            match on_disk {
                Some(found) => Some(found@),
                None => None,
            },
        ),
{
    if recording {
        let dirty = match (on_disk, &prev.file_hash) {
            (Some(found), Some(last)) => !found.same(last),
            (None, None) => false,
            _ => true,
        };
        let file_hash = match on_disk {
            Some(found) => Some(found.clone()),
            None => None,
        };
        FileState {
            file_hash,
            dirty,
            from_commit: prev.from_commit.clone(),
            message: prev.message.clone(),
        }
    } else {
        let file_hash = match &prev.file_hash {
            Some(last) => Some(last.clone()),
            None => None,
        };
        FileState {
            file_hash,
            dirty: false,
            from_commit: prev.from_commit.clone(),
            message: prev.message.clone(),
        }
    }
}

/// What is recorded of a file that is taken from the commit itself, where
/// `on_disk` is the hash found on disk.
pub fn head_file_state(file: &HeadFile, recording: bool, on_disk: Option<&FileHash>) -> (state:
    FileState)
    ensures
        state@ == head_state(
            file@,
            recording,
            match on_disk {
                Some(found) => Some(found@),
                None => None,
            },
        ),
{
    if recording {
        match on_disk {
            Some(found) => FileState {
                dirty: !file.file_hash.same(found),
                file_hash: Some(found.clone()),
                from_commit: file.from_commit.clone(),
                message: file.message.clone(),
            },
            None => FileState {
                dirty: true,
                file_hash: None,
                from_commit: file.from_commit.clone(),
                message: file.message.clone(),
            },
        }
    } else {
        FileState {
            dirty: false,
            file_hash: Some(file.file_hash.clone()),
            from_commit: file.from_commit.clone(),
            message: file.message.clone(),
        }
    }
}

/// The engine of one pipeline.
#[derive(Debug)]
pub struct Workspace {
    path_to_config: String,
    scope: String,
    ignore_queue: bool,
    db: Database,
}

/// A [`Workspace`] as plain values.
pub struct WorkspaceView {
    pub path_to_config: Seq<char>,
    pub scope: Seq<char>,
    pub ignore_queue: bool,
    pub db: DatabaseView,
}

impl View for Workspace {
    type V = WorkspaceView;

    closed spec fn view(&self) -> WorkspaceView {
        WorkspaceView {
            path_to_config: self.path_to_config@,
            scope: self.scope@,
            ignore_queue: self.ignore_queue,
            db: self.db@,
        }
    }
}

impl Workspace {
    /// The engine for the configuration at `path_to_config`, with the states
    /// that were read from the state files of `scope`.
    pub fn new(
        scope: &str,
        path_to_config: String,
        ignore_queue: bool,
        environments: Vec<(String, EnvironmentState)>,
    ) -> (workspace: Self)
        ensures
            workspace@.scope == scope@,
            workspace@.path_to_config == path_to_config@,
            workspace@.ignore_queue == ignore_queue,
            workspace@.db.ignore_queue == ignore_queue,
            workspace@.db.state_dir == state_dir_text(path_parent(path_to_config@), scope@),
            workspace@.db.environments == crate::database::environment_state_views(
                crate::sorted_map::entries_map(environments@, environments@.len() as int),
            ),
    {
        Workspace {
            db: Database::open(scope, path_to_config.as_str(), ignore_queue, environments),
            scope: String::from_str(scope),
            path_to_config,
            ignore_queue,
        }
    }

    /// The database.
    pub fn database(&self) -> (db: &Database)
        ensures
            db@ == self@.db,
    {
        &self.db
    }

    /// The path of the configuration file.
    pub fn path_to_config(&self) -> (path: &String)
        ensures
            path@ == self@.path_to_config,
    {
        &self.path_to_config
    }

    /// The scope.
    pub fn scope(&self) -> (scope: &String)
        ensures
            scope@ == self@.scope,
    {
        &self.scope
    }

    /// Whether the queue is ignored for every environment.
    pub fn ignore_queue(&self) -> (ignore: bool)
        ensures
            ignore == self@.ignore_queue,
    {
        self.ignore_queue
    }

    /// The patterns of the files that are never touched in the working copy,
    /// or the first of them that is no valid glob.
    pub fn ignore_list(&self) -> (patterns: Result<PatternList, Error>)
        ensures
            match first_invalid(ignored_files(self@.path_to_config, self@.db.state_dir)) {
                None => (patterns matches Ok(list) && list@ == ignored_files(
                    self@.path_to_config,
                    self@.db.state_dir,
                )),
                Some(bad) => (patterns matches Err(Error::InvalidPattern { pattern }) && pattern@
                    == bad),
            },
    {
        let mut sources: Vec<String> = Vec::new();
        sources.push(self.path_to_config.clone());
        sources.push(join2(self.db.state_dir().as_str(), "/*"));
        sources.push(String::from_str(".git/*"));
        sources.push(String::from_str(".gitignore"));
        assert(texts(sources@) =~= ignored_files(self@.path_to_config, self@.db.state_dir));
        PatternList::compile(sources)
    }

    /// The paths of the files of `state`, sorted. A path stands as often as
    /// `state` holds a file with it.
    pub fn ls(&self, state: &DeployState) -> (paths: Vec<String>)
        ensures
            in_order(texts(paths@)),
            texts(paths@).to_multiset() == names(state@.idents).to_multiset(),
    {
        let count = state.len();
        let mut paths: Vec<String> = Vec::new();
        let mut at: usize = 0;
        assert(texts(paths@) =~= names(state@.idents).take(0));
        while at < count
            invariant
                at <= count,
                count == state@.idents.len(),
                in_order(texts(paths@)),
                texts(paths@).to_multiset() == names(state@.idents).take(at as int).to_multiset(),
            decreases count - at,
        {
            let name = name_of(state.ident_at(at).as_str());
            proof {
                let all = names(state@.idents);
                assert(all.take(at + 1) =~= all.take(at as int).push(name@));
                vstd::seq_lib::to_multiset_build(all.take(at as int), name@);
            }
            insert_in_order(&mut paths, name);
            at += 1;
        }
        assert(names(state@.idents).take(count as int) =~= names(state@.idents));
        paths
    }

    /// Fails where `env` has an upstream that was never recorded.
    pub fn ensure_upstream_deployed(&self, env: &EnvironmentConfig) -> (outcome: Result<(), Error>)
        ensures
            match upstream_missing(self@.db, env@) {
                Some(upstream) => (outcome matches Err(Error::PreviousNotDeployed { name })
                    && name@ == upstream),
                None => outcome is Ok,
            },
    {
        match env.propagated_from() {
            Some(previous_env) => {
                if self.db.get_current_state(previous_env.as_str()).is_none() {
                    return Err(Error::PreviousNotDeployed { name: previous_env.clone() });
                }
                Ok(())
            },
            None => Ok(()),
        }
    }

    /// The state of `env` at `commit`.
    ///
    /// `database` holds the recorded states as they are to be seen for this
    /// commit. `tree` lists the files of the commit, each with the earliest
    /// commit that holds it with this content. `disk` lists the regular files
    /// in the working copy with their hashes; it is read only while
    /// `recording`.
    ///
    /// Fails where one of the patterns involved is no valid glob.
    pub fn construct_state_for_commit(
        &self,
        commit: CommitHash,
        env: &EnvironmentConfig,
        database: &Database,
        recording: bool,
        tree: &Vec<HeadFile>,
        disk: &Vec<DiskFile>,
    ) -> (outcome: Result<DeployState, Error>)
        ensures
            match first_invalid(
                patterns_needed(env@, self@.path_to_config, database@.state_dir),
            ) {
                Some(bad) => (outcome matches Err(Error::InvalidPattern { pattern }) && pattern@
                    == bad),
                None => (outcome matches Ok(state) && is_assembled(
                    state@,
                    commit@,
                    database@,
                    env@,
                    self@.path_to_config,
                    recording,
                    head_file_views(tree@),
                    disk_views(disk@),
                )),
            },
    {
        let ghost wanted_upstream = if env@.propagated_from.is_some() {
            env@.propagated_files
        } else {
            Seq::<Seq<char>>::empty()
        };
        let ghost own = own_files(self@.path_to_config, database@.state_dir);
        proof {
            lemma_first_invalid_concat(wanted_upstream + own, env@.head_files);
            lemma_first_invalid_concat(wanted_upstream, own);
        }
        let mut state = DeployState::new(commit);
        assert(state@.files() =~= Map::<Seq<char>, FileStateView>::empty());
        match env.propagated_from() {
            Some(previous_env) => {
                let patterns = match env.propagated_file_patterns() {
                    Ok(patterns) => patterns,
                    Err(e) => {
                        return Err(e);
                    },
                };
                match database.get_target_propagated_state(
                    env.name().as_str(),
                    env.ignore_queue(),
                    previous_env.as_str(),
                    &patterns,
                ) {
                    Some(env_state) => {
                        state.set_propagated_head(Some(env_state.head_commit().clone()));
                        let count = env_state.len();
                        let mut at: usize = 0;
                        while at < count
                            invariant
                                at <= count,
                                count == env_state@.idents.len(),
                                state@.valid(),
                                state@.head_commit == commit@,
                                state@.propagated_head == Some(env_state@.head_commit),
                                state@.files() == inherit_files(
                                    Map::empty(),
                                    env_state@,
                                    previous_env@,
                                    patterns@,
                                    recording,
                                    disk_views(disk@),
                                    at as int,
                                ),
                            decreases count - at,
                        {
                            let name = name_of(env_state.ident_at(at).as_str());
                            let prev_state = env_state.file_at(at);
                            if patterns.matches(name.as_str()) {
                                let found = if recording {
                                    disk_lookup(disk, name.as_str())
                                } else {
                                    None
                                };
                                let file_state = inherit(prev_state, recording, found);
                                state.insert_file(
                                    FileIdent::new(name, Some(previous_env.as_str())),
                                    file_state,
                                );
                            }
                            at += 1;
                        }
                    },
                    None => {},
                }
            },
            None => {},
        }
        let ghost inherited = state@.files();
        let mut sources: Vec<String> = Vec::new();
        sources.push(self.path_to_config.clone());
        sources.push(join2(database.state_dir().as_str(), "/*"));
        assert(texts(sources@) =~= own);
        let ignore_list = match PatternList::compile(sources) {
            Ok(patterns) => patterns,
            Err(e) => {
                return Err(e);
            },
        };
        let head_patterns = match env.head_file_patterns() {
            Ok(patterns) => patterns,
            Err(e) => {
                return Err(e);
            },
        };
        let mut at: usize = 0;
        while at < tree.len()
            invariant
                at <= tree@.len(),
                state@.valid(),
                state@.head_commit == commit@,
                state@.propagated_head == match upstream_target(database@, env@) {
                    Some(target) => Some(target.head_commit),
                    None => None,
                },
                state@.files() == take_head_files(
                    inherited,
                    head_file_views(tree@),
                    head_patterns@,
                    ignore_list@,
                    recording,
                    disk_views(disk@),
                    at as int,
                ),
            decreases tree@.len() - at,
        {
            let file = &tree[at];
            assert(head_file_views(tree@)[at as int] == file@);
            let path = file.path.as_str();
            if head_patterns.matches(path) && !ignore_list.matches(path) {
                let found = if recording {
                    disk_lookup(disk, path)
                } else {
                    None
                };
                let file_state = head_file_state(file, recording, found);
                state.insert_file(FileIdent::new(file.path.clone(), None), file_state);
            }
            at += 1;
        }
        Ok(state)
    }

    /// Judges a candidate for an older commit that stands for the same
    /// deployment: `new_state`, the state of `env` as the older commit has it,
    /// is kept where it does not differ from `last_state`, the best state so
    /// far. It is not kept where the older commit gives `env` an upstream
    /// that this database has no state of.
    pub fn get_state_if_equivalent(
        &self,
        env: &EnvironmentConfig,
        last_state: &DeployState,
        new_state: DeployState,
    ) -> (kept: Option<DeployState>)
        ensures
            match kept {
                Some(state) => upstream_missing(self@.db, env@).is_none() && no_difference(
                    last_state@,
                    new_state@,
                ) && state@ == new_state@,
                None => upstream_missing(self@.db, env@).is_some() || !no_difference(
                    last_state@,
                    new_state@,
                ),
            },
    {
        if self.ensure_upstream_deployed(env).is_err() {
            return None;
        }
        if last_state.diff(&new_state).len() == 0 {
            Some(new_state)
        } else {
            None
        }
    }

    /// Tells whether `new_env_state`, the state of `env` as it was put
    /// together now, is something new to deploy.
    pub fn check(&self, env: &EnvironmentConfig, new_env_state: DeployState) -> (outcome: Result<
        Option<(StateId, Vec<FileDiff>)>,
        Error,
    >)
        ensures
            check_gives(self@.db, env@, new_env_state@, outcome),
    {
        match self.ensure_upstream_deployed(env) {
            Err(e) => {
                return Err(e);
            },
            Ok(_) => {},
        }
        let (version, diffs) = match self.db.get_current_state(env.name().as_str()) {
            Some((version, last)) => {
                let diffs = new_env_state.diff(last);
                if diffs.len() == 0 {
                    return Ok(None);
                }
                if version == u32::MAX {
                    return Err(Error::VersionOverflow);
                }
                (version + 1, diffs)
            },
            None => (1u32, added_files(&new_env_state)),
        };
        Ok(
            Some(
                (
                    StateId { version, head_commit: new_env_state.head_commit().clone().inner() },
                    diffs,
                ),
            ),
        )
    }

    /// The files to restore in order to have what `env` deployed last, with
    /// the name of that state. Fails where `env` was never recorded.
    pub fn reproduce(&self, env: &EnvironmentConfig) -> (outcome: Result<
        (StateId, Vec<Checkout>),
        Error,
    >)
        ensures
            match outcome {
                Ok((id, checkouts)) => {
                    &&& self@.db.environments.contains_key(env@.name)
                    &&& id@.version == self@.db.environments[env@.name].version
                    &&& id@.head_commit == self@.db.environments[env@.name].current.head_commit
                    &&& checkout_views(checkouts@) == recorded_checkouts(
                        self@.db.environments[env@.name].current,
                    )
                },
                Err(e) => {
                    &&& !self@.db.environments.contains_key(env@.name)
                    &&& e matches Error::NoStateRecorded { name }
                    &&& name@ == env@.name
                },
            },
    {
        match self.db.get_current_state(env.name().as_str()) {
            Some((version, last_state)) => {
                let count = last_state.len();
                let mut checkouts: Vec<Checkout> = Vec::new();
                let mut at: usize = 0;
                while at < count
                    invariant
                        at <= count,
                        count == last_state@.idents.len(),
                        checkout_views(checkouts@) == recorded_checkouts(last_state@).take(
                            at as int,
                        ),
                    decreases count - at,
                {
                    let ghost before = checkout_views(checkouts@);
                    let path = name_of(last_state.ident_at(at).as_str());
                    let commit = last_state.file_at(at).from_commit.clone();
                    checkouts.push(Checkout { path, commit });
                    assert(checkout_views(checkouts@) =~= before.push((path@, commit@)));
                    assert(before.push((path@, commit@)) =~= recorded_checkouts(
                        last_state@,
                    ).take(at + 1));
                    at += 1;
                }
                assert(recorded_checkouts(last_state@).take(count as int) =~= recorded_checkouts(
                    last_state@,
                ));
                Ok(
                    (
                        StateId {
                            version,
                            head_commit: last_state.head_commit().clone().inner(),
                        },
                        checkouts,
                    ),
                )
            },
            None => Err(Error::NoStateRecorded { name: env.name().clone() }),
        }
    }

    /// What is left to do to prepare the working copy for `env` once the
    /// pinned commit has been checked out.
    ///
    /// `on_disk` lists the regular files in the working copy. Of them, those
    /// that the patterns of the inherited files select are deleted, unless
    /// they are never touched or the patterns of the commit's own files select
    /// them too. Then every file of the upstream target that is inherited,
    /// and not shadowed by the commit's own files, is restored from its
    /// commit.
    ///
    /// Fails where one of the patterns involved is no valid glob.
    pub fn prepare(&self, env: &EnvironmentConfig, on_disk: &Vec<String>) -> (outcome: Result<
        PreparePlan,
        Error,
    >)
        ensures
            match first_invalid(
                ignored_files(self@.path_to_config, self@.db.state_dir) + env@.head_files
                    + env@.propagated_files,
            ) {
                Some(bad) => (outcome matches Err(Error::InvalidPattern { pattern }) && pattern@
                    == bad),
                None => (outcome matches Ok(plan) && texts(plan.remove@)
                    == crate::repo::chosen_paths(
                    texts(on_disk@),
                    env@.propagated_files,
                    false,
                    ignored_files(self@.path_to_config, self@.db.state_dir),
                    env@.head_files,
                    on_disk@.len() as int,
                ) && checkout_views(plan.checkouts@) == match upstream_target(self@.db, env@) {
                    Some(target) => propagated_checkouts(
                        target,
                        env@.propagated_files,
                        env@.head_files,
                        target.idents.len() as int,
                    ),
                    None => Seq::empty(),
                }),
            },
    {
        let ghost ignored = ignored_files(self@.path_to_config, self@.db.state_dir);
        proof {
            lemma_first_invalid_concat(ignored + env@.head_files, env@.propagated_files);
            lemma_first_invalid_concat(ignored, env@.head_files);
        }
        let ignore_list = match self.ignore_list() {
            Ok(patterns) => patterns,
            Err(e) => {
                return Err(e);
            },
        };
        let head_patterns = match env.head_file_patterns() {
            Ok(patterns) => patterns,
            Err(e) => {
                return Err(e);
            },
        };
        let patterns = match env.propagated_file_patterns() {
            Ok(patterns) => patterns,
            Err(e) => {
                return Err(e);
            },
        };
        let remove = crate::repo::select_paths(
            on_disk,
            &patterns,
            false,
            &ignore_list,
            &head_patterns,
        );
        let mut checkouts: Vec<Checkout> = Vec::new();
        assert(checkout_views(checkouts@) =~= Seq::<(Seq<char>, Seq<char>)>::empty());
        match env.propagated_from() {
            Some(previous_env) => {
                match self.db.get_target_propagated_state(
                    env.name().as_str(),
                    env.ignore_queue(),
                    previous_env.as_str(),
                    &patterns,
                ) {
                    Some(env_state) => {
                        let count = env_state.len();
                        let mut at: usize = 0;
                        while at < count
                            invariant
                                at <= count,
                                count == env_state@.idents.len(),
                                checkout_views(checkouts@) == propagated_checkouts(
                                    env_state@,
                                    patterns@,
                                    head_patterns@,
                                    at as int,
                                ),
                            decreases count - at,
                        {
                            let name = name_of(env_state.ident_at(at).as_str());
                            if patterns.matches(name.as_str()) && !head_patterns.matches(
                                name.as_str(),
                            ) {
                                let ghost before = checkout_views(checkouts@);
                                let commit = env_state.file_at(at).from_commit.clone();
                                checkouts.push(Checkout { path: name, commit });
                                assert(checkout_views(checkouts@) =~= before.push(
                                    (name@, commit@),
                                ));
                            }
                            at += 1;
                        }
                    },
                    None => {},
                }
            },
            None => {},
        }
        Ok(PreparePlan { remove, checkouts })
    }

    /// Records `new_env_state` as what `env` has deployed now, and says what
    /// changed against the state recorded before.
    ///
    /// Fails, and changes nothing, where the upstream of `env` was never
    /// recorded, or where the version would no longer fit.
    pub fn record_env(&mut self, env: &EnvironmentConfig, new_env_state: DeployState) -> (outcome:
        Result<Recording, Error>)
        ensures
            final(self)@.path_to_config == old(self)@.path_to_config,
            final(self)@.scope == old(self)@.scope,
            final(self)@.ignore_queue == old(self)@.ignore_queue,
            final(self)@.db.ignore_queue == old(self)@.db.ignore_queue,
            final(self)@.db.state_dir == old(self)@.db.state_dir,
            record_gives(old(self)@.db, final(self)@.db, env@, new_env_state@, outcome),
    {
        match self.ensure_upstream_deployed(env) {
            Err(e) => {
                return Err(e);
            },
            Ok(_) => {},
        }
        let head_commit = new_env_state.head_commit().clone().inner();
        let diffs = match self.db.get_current_state(env.name().as_str()) {
            Some((_, last_state)) => new_env_state.diff(last_state),
            None => added_files(&new_env_state),
        };
        let propagated_from = match env.propagated_from() {
            Some(upstream) => Some(upstream.clone()),
            None => None,
        };
        match self.db.set_current_environment_state(
            env.name().clone(),
            propagated_from,
            new_env_state,
        ) {
            Ok((version, state_file)) => Ok(
                Recording { state_id: StateId { head_commit, version }, diffs, state_file },
            ),
            Err(e) => Err(e),
        }
    }
}

/// What a recording of the new state `state` of `env` gives, and what it
/// makes of the database.
///
/// - The upstream was never recorded: that failure, and nothing changes.
/// - The next version no longer fits: that failure, and nothing changes.
/// - Else the commit of the new state with the next version, the difference
///   against the state recorded before, and the path of the state file; the
///   database holds the new state as described by [`recorded`].
pub open spec fn record_gives(
    before: DatabaseView,
    after: DatabaseView,
    env: EnvironmentConfigView,
    state: DeployStateView,
    outcome: Result<Recording, Error>,
) -> bool {
    match upstream_missing(before, env) {
        Some(upstream) => (outcome matches Err(Error::PreviousNotDeployed { name }) && name@
            == upstream) && after == before,
        None => if next_version(before.environments, env.name) > u32::MAX {
            outcome matches Err(Error::VersionOverflow) && after == before
        } else {
            outcome matches Ok(recording) && recording.state_id@.head_commit == state.head_commit
                && recording.state_id@.version == next_version(before.environments, env.name)
                && diff_views(recording.diffs@) == difference_to_last(before, env.name, state)
                && recording.state_file@ == state_file_text(before.state_dir, env.name)
                && recorded(
                before.environments,
                after.environments,
                env.name,
                env.propagated_from,
                state,
            )
        },
    }
}

/// The difference of a state against nothing: every file is added.
pub fn added_files(state: &DeployState) -> (diffs: Vec<FileDiff>)
    ensures
        diff_views(diffs@) == all_added(state@),
{
    let count = state.len();
    let mut diffs: Vec<FileDiff> = Vec::new();
    let mut at: usize = 0;
    while at < count
        invariant
            at <= count,
            count == state@.idents.len(),
            diff_views(diffs@) == all_added(state@).take(at as int),
        decreases count - at,
    {
        let ghost before = diff_views(diffs@);
        let diff = FileDiff {
            ident: FileIdent::from_inner(state.ident_at(at).clone()),
            current_state: Some(state.file_at(at).clone()),
            added: true,
        };
        diffs.push(diff);
        assert(diff_views(diffs@) =~= before.push(diff@));
        assert(before.push(diff@) =~= all_added(state@).take(at + 1));
        at += 1;
    }
    assert(all_added(state@).take(count as int) =~= all_added(state@));
    diffs
}

/// Whether none of `files` is dirty.
pub open spec fn all_clean(files: Map<Seq<char>, FileStateView>) -> bool {
    forall|ident: Seq<char>| #[trigger] files.contains_key(ident) ==> !files[ident].dirty
}

/// Inheriting files outside a recording adds no dirty file.
pub proof fn lemma_inherited_files_are_clean(
    files: Map<Seq<char>, FileStateView>,
    target: DeployStateView,
    upstream: Seq<char>,
    patterns: Seq<Seq<char>>,
    disk: Seq<DiskFileView>,
    upto: int,
)
    requires
        all_clean(files),
    ensures
        all_clean(inherit_files(files, target, upstream, patterns, false, disk, upto)),
    decreases upto,
{
    if upto > 0 {
        lemma_inherited_files_are_clean(files, target, upstream, patterns, disk, upto - 1);
    }
}

/// Taking files from the commit outside a recording adds no dirty file.
pub proof fn lemma_head_files_are_clean(
    files: Map<Seq<char>, FileStateView>,
    tree: Seq<HeadFileView>,
    head_patterns: Seq<Seq<char>>,
    ignored: Seq<Seq<char>>,
    disk: Seq<DiskFileView>,
    upto: int,
)
    requires
        all_clean(files),
    ensures
        all_clean(take_head_files(files, tree, head_patterns, ignored, false, disk, upto)),
    decreases upto,
{
    if upto > 0 {
        lemma_head_files_are_clean(files, tree, head_patterns, ignored, disk, upto - 1);
    }
}

/// A state that was put together outside a recording holds no dirty file.
pub proof fn lemma_checked_state_is_clean(
    state: DeployStateView,
    commit: Seq<char>,
    db: DatabaseView,
    env: EnvironmentConfigView,
    path_to_config: Seq<char>,
    tree: Seq<HeadFileView>,
    disk: Seq<DiskFileView>,
)
    requires
        is_assembled(state, commit, db, env, path_to_config, false, tree, disk),
    ensures
        all_clean(state.files()),
        !state.any_dirty,
{
    let inherited = match upstream_target(db, env) {
        Some(target) => inherit_files(
            Map::empty(),
            target,
            env.propagated_from.unwrap(),
            env.propagated_files,
            false,
            disk,
            target.idents.len() as int,
        ),
        None => Map::empty(),
    };
    if upstream_target(db, env).is_some() {
        let target = upstream_target(db, env).unwrap();
        lemma_inherited_files_are_clean(
            Map::empty(),
            target,
            env.propagated_from.unwrap(),
            env.propagated_files,
            disk,
            target.idents.len() as int,
        );
    }
    lemma_head_files_are_clean(
        inherited,
        tree,
        env.head_files,
        own_files(path_to_config, db.state_dir),
        disk,
        tree.len() as int,
    );
    crate::sorted_map::lemma_map_of_sorted(state.idents, state.states);
    assert forall|i: int| 0 <= i < state.states.len() implies !(#[trigger] state.states[i]).dirty by {
        assert(state.files().contains_key(state.idents[i]));
    }
}

/// Two states with the same clean files do not differ.
pub proof fn lemma_same_clean_files_do_not_differ(mine: DeployStateView, theirs: DeployStateView)
    requires
        mine.files() == theirs.files(),
        all_clean(mine.files()),
    ensures
        no_difference(mine, theirs),
{
    assert forall|ident: Seq<char>|
        crate::diff::diff_of(ident, mine.file(ident), theirs.file(ident)).is_none() by {
        if mine.files().contains_key(ident) {
            assert(!mine.files()[ident].dirty);
        }
    }
}

/// Checking is idempotent: where the recorded state of an environment holds
/// the files of the state that is put together for a check, the check finds
/// nothing to deploy.
pub proof fn lemma_check_is_idempotent(
    db: DatabaseView,
    env: EnvironmentConfigView,
    commit: Seq<char>,
    path_to_config: Seq<char>,
    tree: Seq<HeadFileView>,
    disk: Seq<DiskFileView>,
    state: DeployStateView,
    outcome: Result<Option<(StateId, Vec<FileDiff>)>, Error>,
)
    requires
        is_assembled(state, commit, db, env, path_to_config, false, tree, disk),
        db.environments.contains_key(env.name),
        db.environments[env.name].current.files() == state.files(),
        upstream_missing(db, env).is_none(),
        check_gives(db, env, state, outcome),
    ensures
        outcome matches Ok(None),
{
    lemma_checked_state_is_clean(state, commit, db, env, path_to_config, tree, disk);
    lemma_same_clean_files_do_not_differ(state, db.environments[env.name].current);
}

/// Of the first `upto` files of `tree`, those whose path `head_patterns`
/// select and `ignored` do not, in their order.
pub open spec fn selected_files(
    tree: Seq<HeadFileView>,
    head_patterns: Seq<Seq<char>>,
    ignored: Seq<Seq<char>>,
    upto: int,
) -> Seq<HeadFileView>
    decreases upto,
{
    if upto <= 0 {
        Seq::empty()
    } else {
        let before = selected_files(tree, head_patterns, ignored, upto - 1);
        let file = tree[upto - 1];
        if any_matches(head_patterns, file.path) && !any_matches(ignored, file.path) {
            before.push(file)
        } else {
            before
        }
    }
}

/// `files` after the first `upto` of `selected` were put in, in order, as
/// files of the commit itself.
pub open spec fn put_head_files(
    files: Map<Seq<char>, FileStateView>,
    selected: Seq<HeadFileView>,
    recording: bool,
    disk: Seq<DiskFileView>,
    upto: int,
) -> Map<Seq<char>, FileStateView>
    decreases upto,
{
    if upto <= 0 {
        files
    } else {
        put_head_files(files, selected, recording, disk, upto - 1).insert(
            ident_text(selected[upto - 1].path, None),
            head_state(selected[upto - 1], recording, disk_hash(disk, selected[upto - 1].path)),
        )
    }
}

/// Putting in the first files of a row does not look at the files behind
/// them.
pub proof fn lemma_put_head_files_prefix(
    files: Map<Seq<char>, FileStateView>,
    selected: Seq<HeadFileView>,
    longer: Seq<HeadFileView>,
    recording: bool,
    disk: Seq<DiskFileView>,
    upto: int,
)
    requires
        0 <= upto <= selected.len(),
        selected.is_prefix_of(longer),
    ensures
        put_head_files(files, selected, recording, disk, upto) == put_head_files(
            files,
            longer,
            recording,
            disk,
            upto,
        ),
    decreases upto,
{
    if upto > 0 {
        lemma_put_head_files_prefix(files, selected, longer, recording, disk, upto - 1);
        assert(selected[upto - 1] == longer[upto - 1]);
    }
}

/// Going through a tree comes to the same as putting in its selected files.
pub proof fn lemma_take_head_files_by_selection(
    files: Map<Seq<char>, FileStateView>,
    tree: Seq<HeadFileView>,
    head_patterns: Seq<Seq<char>>,
    ignored: Seq<Seq<char>>,
    recording: bool,
    disk: Seq<DiskFileView>,
    upto: int,
)
    ensures
        take_head_files(files, tree, head_patterns, ignored, recording, disk, upto)
            == put_head_files(
            files,
            selected_files(tree, head_patterns, ignored, upto),
            recording,
            disk,
            selected_files(tree, head_patterns, ignored, upto).len() as int,
        ),
    decreases upto,
{
    if upto > 0 {
        lemma_take_head_files_by_selection(
            files,
            tree,
            head_patterns,
            ignored,
            recording,
            disk,
            upto - 1,
        );
        let before = selected_files(tree, head_patterns, ignored, upto - 1);
        let now = selected_files(tree, head_patterns, ignored, upto);
        let file = tree[upto - 1];
        if any_matches(head_patterns, file.path) && !any_matches(ignored, file.path) {
            lemma_put_head_files_prefix(files, before, now, recording, disk, before.len() as int);
        }
    }
}

/// The files of a state do not depend on the files of the commit that the
/// environment's patterns do not select: two trees with the same selected
/// files give the same files.
pub proof fn lemma_unselected_files_do_not_matter(
    db: DatabaseView,
    env: EnvironmentConfigView,
    path_to_config: Seq<char>,
    recording: bool,
    tree1: Seq<HeadFileView>,
    tree2: Seq<HeadFileView>,
    disk: Seq<DiskFileView>,
)
    requires
        selected_files(
            tree1,
            env.head_files,
            own_files(path_to_config, db.state_dir),
            tree1.len() as int,
        ) == selected_files(
            tree2,
            env.head_files,
            own_files(path_to_config, db.state_dir),
            tree2.len() as int,
        ),
    ensures
        assembled_files(db, env, path_to_config, recording, tree1, disk) == assembled_files(
            db,
            env,
            path_to_config,
            recording,
            tree2,
            disk,
        ),
{
    let inherited = match upstream_target(db, env) {
        Some(target) => inherit_files(
            Map::empty(),
            target,
            env.propagated_from.unwrap(),
            env.propagated_files,
            recording,
            disk,
            target.idents.len() as int,
        ),
        None => Map::empty(),
    };
    let ignored = own_files(path_to_config, db.state_dir);
    lemma_take_head_files_by_selection(
        inherited,
        tree1,
        env.head_files,
        ignored,
        recording,
        disk,
        tree1.len() as int,
    );
    lemma_take_head_files_by_selection(
        inherited,
        tree2,
        env.head_files,
        ignored,
        recording,
        disk,
        tree2.len() as int,
    );
}

/// Whether two outcomes of a check say the same: both nothing, both the same
/// failure, or both the same version with the same difference.
pub open spec fn same_finding(
    first: Result<Option<(StateId, Vec<FileDiff>)>, Error>,
    second: Result<Option<(StateId, Vec<FileDiff>)>, Error>,
) -> bool {
    match (first, second) {
        (Ok(None), Ok(None)) => true,
        (Ok(Some((id1, diffs1))), Ok(Some((id2, diffs2)))) => id1@.version == id2@.version
            && diff_views(diffs1@) == diff_views(diffs2@),
        (Err(e1), Err(e2)) => crate::error::error_text(e1) == crate::error::error_text(e2),
        _ => false,
    }
}

/// History that touches no selected file changes nothing: the states of an
/// environment at two commits whose trees hold the same selected files are
/// checked with the same finding. Only the commit that is named may differ.
pub proof fn lemma_irrelevant_history(
    db: DatabaseView,
    env: EnvironmentConfigView,
    path_to_config: Seq<char>,
    commit1: Seq<char>,
    commit2: Seq<char>,
    tree1: Seq<HeadFileView>,
    tree2: Seq<HeadFileView>,
    disk: Seq<DiskFileView>,
    state1: DeployStateView,
    state2: DeployStateView,
    outcome1: Result<Option<(StateId, Vec<FileDiff>)>, Error>,
    outcome2: Result<Option<(StateId, Vec<FileDiff>)>, Error>,
)
    requires
        is_assembled(state1, commit1, db, env, path_to_config, false, tree1, disk),
        is_assembled(state2, commit2, db, env, path_to_config, false, tree2, disk),
        selected_files(
            tree1,
            env.head_files,
            own_files(path_to_config, db.state_dir),
            tree1.len() as int,
        ) == selected_files(
            tree2,
            env.head_files,
            own_files(path_to_config, db.state_dir),
            tree2.len() as int,
        ),
        check_gives(db, env, state1, outcome1),
        check_gives(db, env, state2, outcome2),
    ensures
        same_finding(outcome1, outcome2),
{
    lemma_unselected_files_do_not_matter(db, env, path_to_config, false, tree1, tree2, disk);
    crate::sorted_map::lemma_sorted_maps_agree(
        state1.idents,
        state1.states,
        state2.idents,
        state2.states,
    );
    assert(all_added(state1) =~= all_added(state2));
    if db.environments.contains_key(env.name) {
        crate::diff::lemma_state_diff_depends_on_files(
            state1,
            state2,
            db.environments[env.name].current,
        );
    }
}

/// A check gives one finding: whatever two checks of one state against one
/// database give says the same.
pub proof fn lemma_check_is_deterministic(
    db: DatabaseView,
    env: EnvironmentConfigView,
    state: DeployStateView,
    outcome1: Result<Option<(StateId, Vec<FileDiff>)>, Error>,
    outcome2: Result<Option<(StateId, Vec<FileDiff>)>, Error>,
)
    requires
        check_gives(db, env, state, outcome1),
        check_gives(db, env, state, outcome2),
    ensures
        same_finding(outcome1, outcome2),
        outcome1 matches Ok(Some((id1, _))) ==> outcome2 matches Ok(Some((id2, _))) && id1@
            == id2@,
{
}

/// A recording followed by a check finds nothing to deploy, where the
/// recorded state holds no dirty file and the checked state holds the same
/// files.
pub proof fn lemma_record_then_check(
    before: DatabaseView,
    after: DatabaseView,
    env: EnvironmentConfigView,
    recorded_state: DeployStateView,
    recording: Result<Recording, Error>,
    checked_state: DeployStateView,
    outcome: Result<Option<(StateId, Vec<FileDiff>)>, Error>,
)
    requires
        record_gives(before, after, env, recorded_state, recording),
        recording is Ok,
        recorded_state.valid(),
        !recorded_state.any_dirty,
        checked_state.files() == recorded_state.files(),
        check_gives(after, env, checked_state, outcome),
    ensures
        outcome matches Ok(None),
{
    crate::sorted_map::lemma_map_of_sorted(recorded_state.idents, recorded_state.states);
    assert(all_clean(recorded_state.files())) by {
        assert forall|ident: Seq<char>| #[trigger]
            recorded_state.files().contains_key(ident) implies !recorded_state.files()[ident].dirty by {
            let i = recorded_state.idents.index_of(ident);
            assert(recorded_state.files()[recorded_state.idents[i]] == recorded_state.states[i]);
        }
    }
    assert(after.environments.dom().contains(env.name));
    if env.propagated_from.is_some() {
        let upstream = env.propagated_from.unwrap();
        assert(before.environments.contains_key(upstream));
        assert(after.environments.dom().contains(upstream));
    }
    lemma_same_clean_files_do_not_differ(checked_state, after.environments[env.name].current);
}

/// A state names the head of an upstream state exactly when its environment
/// has an upstream, as long as that upstream was recorded.
pub proof fn lemma_propagated_head_iff_upstream(
    state: DeployStateView,
    commit: Seq<char>,
    db: DatabaseView,
    env: EnvironmentConfigView,
    path_to_config: Seq<char>,
    recording: bool,
    tree: Seq<HeadFileView>,
    disk: Seq<DiskFileView>,
)
    requires
        is_assembled(state, commit, db, env, path_to_config, recording, tree, disk),
        upstream_missing(db, env).is_none(),
    ensures
        state.propagated_head.is_some() <==> env.propagated_from.is_some(),
{
}

} // verus!
