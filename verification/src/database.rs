//! The record of what each environment has deployed, with the queue of past
//! states that downstream environments still have to catch up with.

use crate::config::{text_view, EnvironmentConfig};
use crate::error::Error;
use crate::pattern::{any_matches, PatternList};
use crate::repo::CommitHash;
use crate::sorted_map::{entries_map, lemma_map_of_sorted, SortedMap};
use crate::state::{ident_name, name_of, DeployState, DeployStateView, FileState, FileStateView};
use crate::text::{first_index_of, join3, lemma_first_index_of, lemma_first_index_unique, str_eq};
use std::collections::VecDeque;
use vstd::prelude::*;
use vstd::string::*;

verus! {

/// The views of a row of deployment states.
pub open spec fn deploy_views(states: Seq<DeployState>) -> Seq<DeployStateView> {
    Seq::new(states.len(), |i: int| states[i]@)
}

/// The head commits of a row of deployment states.
pub open spec fn heads(states: Seq<DeployStateView>) -> Seq<Seq<char>> {
    Seq::new(states.len(), |i: int| states[i].head_commit)
}

/// Position of the first state in `queue` that was taken at `head`, or the
/// length of `queue` where there is none.
pub open spec fn stop_index(queue: Seq<DeployStateView>, head: Seq<char>) -> int {
    first_index_of(heads(queue), head)
}

/// The paths of a row of file identifiers.
pub open spec fn names(idents: Seq<Seq<char>>) -> Seq<Seq<char>> {
    Seq::new(idents.len(), |i: int| ident_name(idents[i]))
}

/// What `state` records of the file at the path `name`: the state of the
/// first of its files, in the order of their identifiers, that has this path.
pub open spec fn state_by_name(state: DeployStateView, name: Seq<char>) -> Option<FileStateView> {
    let at = first_index_of(names(state.idents), name);
    if at < state.idents.len() {
        Some(state.states[at])
    } else {
        None
    }
}

/// Whether the file `ident`, recorded as `state` upstream, is one that
/// `patterns` select and that `own` does not hold with the same hash.
pub open spec fn file_brings_change(
    ident: Seq<char>,
    state: FileStateView,
    own: DeployStateView,
    patterns: Seq<Seq<char>>,
) -> bool {
    let name = ident_name(ident);
    brings(any_matches(patterns, name), state_by_name(own, name), state)
}

/// Whether the upstream state `queued` would change a file of `own` that
/// `patterns` select.
pub open spec fn state_brings_change(
    queued: DeployStateView,
    own: DeployStateView,
    patterns: Seq<Seq<char>>,
) -> bool {
    exists|i: int|
        0 <= i < queued.idents.len() && file_brings_change(
            #[trigger] queued.idents[i],
            queued.states[i],
            own,
            patterns,
        )
}

/// The oldest of the states `walked`, which stand newest first, that brings a
/// change to `own`; `fallback` where none does.
pub open spec fn queued_target(
    walked: Seq<DeployStateView>,
    own: DeployStateView,
    patterns: Seq<Seq<char>>,
    fallback: DeployStateView,
) -> DeployStateView
    decreases walked.len(),
{
    if walked.len() == 0 {
        fallback
    } else if state_brings_change(walked.last(), own, patterns) {
        walked.last()
    } else {
        queued_target(walked.drop_last(), own, patterns, fallback)
    }
}

/// The state of one environment: what it has deployed now, and the states it
/// had before, newest first, as far as downstream environments still need
/// them.
#[derive(Debug)]
pub struct EnvironmentState {
    version: u32,
    current: DeployState,
    propagated_from: Option<String>,
    propagation_queue: VecDeque<DeployState>,
}

/// An [`EnvironmentState`] as plain values.
pub struct EnvironmentStateView {
    pub version: u32,
    pub current: DeployStateView,
    pub propagated_from: Option<Seq<char>>,
    pub queue: Seq<DeployStateView>,
}

impl View for EnvironmentState {
    type V = EnvironmentStateView;

    closed spec fn view(&self) -> EnvironmentStateView {
        EnvironmentStateView {
            version: self.version,
            current: self.current@,
            propagated_from: text_view(self.propagated_from),
            queue: deploy_views(self.propagation_queue@),
        }
    }
}

impl Clone for EnvironmentState {
    fn clone(&self) -> (copy: Self)
        ensures
            copy@ == self@,
    {
        let mut queue: VecDeque<DeployState> = VecDeque::new();
        let mut at: usize = 0;
        while at < self.propagation_queue.len()
            invariant
                at <= self.propagation_queue@.len(),
                deploy_views(queue@) == deploy_views(self.propagation_queue@).take(at as int),
            decreases self.propagation_queue@.len() - at,
        {
            let ghost before = deploy_views(queue@);
            let state = self.propagation_queue[at].clone();
            queue.push_back(state);
            assert(deploy_views(queue@) =~= before.push(state@));
            assert(before.push(state@) =~= deploy_views(self.propagation_queue@).take(at + 1));
            at += 1;
        }
        assert(deploy_views(self.propagation_queue@).take(at as int) =~= deploy_views(
            self.propagation_queue@,
        ));
        let propagated_from = match &self.propagated_from {
            Some(name) => Some(name.clone()),
            None => None,
        };
        EnvironmentState {
            version: self.version,
            current: self.current.clone(),
            propagated_from,
            propagation_queue: queue,
        }
    }
}

impl EnvironmentState {
    /// The state of an environment that was recorded `version` times, with
    /// its past states in `queue`, newest first.
    pub fn new(
        version: u32,
        current: DeployState,
        propagated_from: Option<String>,
        queue: Vec<DeployState>,
    ) -> (state: Self)
        ensures
            state@ == (EnvironmentStateView {
                version,
                current: current@,
                propagated_from: text_view(propagated_from),
                queue: deploy_views(queue@),
            }),
    {
        let mut rest = queue;
        let ghost all = rest@;
        let mut propagation_queue: VecDeque<DeployState> = VecDeque::new();
        let ghost mut done: int = 0;
        while rest.len() > 0
            invariant
                0 <= done,
                done + rest@.len() == all.len(),
                rest@ == all.subrange(done, all.len() as int),
                deploy_views(propagation_queue@) == deploy_views(all).take(done),
            decreases rest@.len(),
        {
            let ghost before = deploy_views(propagation_queue@);
            let state = rest.remove(0);
            assert(all[done] == state);
            propagation_queue.push_back(state);
            assert(rest@ =~= all.subrange(done + 1, all.len() as int));
            assert(deploy_views(propagation_queue@) =~= before.push(state@));
            assert(before.push(state@) =~= deploy_views(all).take(done + 1));
            proof {
                done = done + 1;
            }
        }
        assert(deploy_views(all).take(done) =~= deploy_views(all));
        EnvironmentState { version, current, propagated_from, propagation_queue }
    }

    /// How often the environment was recorded.
    pub fn version(&self) -> (version: u32)
        ensures
            version == self@.version,
    {
        self.version
    }

    /// What the environment has deployed now.
    pub fn current(&self) -> (current: &DeployState)
        ensures
            current@ == self@.current,
    {
        &self.current
    }

    /// The upstream environment at the time of the last recording.
    pub fn propagated_from(&self) -> (upstream: Option<&String>)
        ensures
            match upstream {
                Some(u) => self@.propagated_from == Some(u@),
                None => self@.propagated_from.is_none(),
            },
    {
        self.propagated_from.as_ref()
    }

    /// Number of past states that are kept.
    pub fn queue_len(&self) -> (count: usize)
        ensures
            count == self@.queue.len(),
    {
        self.propagation_queue.len()
    }

    /// The past state at a position, the newest at 0.
    pub fn queued(&self, at: usize) -> (state: &DeployState)
        requires
            at < self@.queue.len(),
        ensures
            state@ == self@.queue[at as int],
    {
        &self.propagation_queue[at]
    }
}

/// The views of the environment states of a map.
pub open spec fn environment_state_views(environments: Map<Seq<char>, EnvironmentState>) -> Map<
    Seq<char>,
    EnvironmentStateView,
> {
    Map::new(
        |key: Seq<char>| environments.contains_key(key),
        |key: Seq<char>| environments[key]@,
    )
}

/// The state database: every environment's state by the environment's name.
#[derive(Debug)]
pub struct Database {
    state: SortedMap<EnvironmentState>,
    ignore_queue: bool,
    state_dir: String,
}

/// A [`Database`] as plain values.
pub struct DatabaseView {
    pub environments: Map<Seq<char>, EnvironmentStateView>,
    pub ignore_queue: bool,
    pub state_dir: Seq<char>,
}

impl View for Database {
    type V = DatabaseView;

    closed spec fn view(&self) -> DatabaseView {
        DatabaseView {
            environments: environment_state_views(self.state.as_map()),
            ignore_queue: self.ignore_queue,
            state_dir: self.state_dir@,
        }
    }
}

/// What `std::path::Path::parent` gives for the path `path`, as text. What
/// counts as a path separator is decided by the platform that the library is
/// built for.
pub uninterp spec fn path_parent(path: Seq<char>) -> Option<Seq<char>>;

/// Calls `std::path::Path::parent` on `path`: the path without its last
/// component, or `None` where it has none.
#[verifier::external_body]
fn parent_of(path: &str) -> (parent: Option<String>)
    ensures
        text_view(parent) == path_parent(path@),
{
    match std::path::Path::new(path).parent() {
        Some(parent) => Some(parent.to_string_lossy().into_owned()),
        None => None,
    }
}

/// The directory of the state files of `scope`, for a configuration file in
/// the directory `parent`: `.cepler/<scope>` below that directory.
pub open spec fn state_dir_text(parent: Option<Seq<char>>, scope: Seq<char>) -> Seq<char> {
    let base = match parent {
        Some(dir) => if dir.len() == 0 {
            ".cepler"@
        } else {
            dir + "/"@ + ".cepler"@
        },
        None => ".cepler"@,
    };
    base + "/"@ + scope
}

/// The path of the state file of the environment `name` in `state_dir`.
pub open spec fn state_file_text(state_dir: Seq<char>, name: Seq<char>) -> Seq<char> {
    state_dir + "/"@ + name + ".state"@
}

/// The directory of the state files of `scope`, for a configuration file in
/// the directory `parent`.
pub fn state_dir_in(parent: Option<&str>, scope: &str) -> (dir: String)
    ensures
        dir@ == state_dir_text(
            match parent {
                Some(p) => Some(p@),
                None => None,
            },
            scope@,
        ),
{
    let base = match parent {
        Some(dir) => {
            if dir.unicode_len() == 0 {
                String::from_str(".cepler")
            } else {
                join3(dir, "/", ".cepler")
            }
        },
        None => String::from_str(".cepler"),
    };
    join3(base.as_str(), "/", scope)
}

/// The path of the state file of the environment `name` in `state_dir`.
pub fn state_file_path(state_dir: &str, name: &str) -> (path: String)
    ensures
        path@ == state_file_text(state_dir@, name@),
{
    let mut path = join3(state_dir, "/", name);
    path.append(".state");
    path
}

/// A state file's content: the serialized state and a newline behind it.
pub fn state_file_bytes(serialized: Vec<u8>) -> (content: Vec<u8>)
    ensures
        content@ == serialized@.push(10u8),
{
    let mut content = serialized;
    content.push(10u8);
    content
}

/// The version that the next recording of `name` gets: one more than its
/// version, or 1 for an environment that was never recorded.
pub open spec fn next_version(environments: Map<Seq<char>, EnvironmentStateView>, name: Seq<char>) -> int {
    if environments.contains_key(name) {
        environments[name].version + 1
    } else {
        1
    }
}

/// The queue of `name` once its current state has moved to the front of it.
pub open spec fn pushed_queue(
    environments: Map<Seq<char>, EnvironmentStateView>,
    name: Seq<char>,
) -> Seq<DeployStateView> {
    if environments.contains_key(name) {
        seq![environments[name].current] + environments[name].queue
    } else {
        Seq::empty()
    }
}

/// How many entries of `queue`, the queue of the environment `name` whose
/// current state was taken at `current_head`, the environment `downstream`
/// needs: none unless `name` is its upstream and it has consumed an older state
/// than the current one; else all up to and including the state it has
/// consumed, or the whole queue where that state is not in it.
pub open spec fn needed_entries(
    queue: Seq<DeployStateView>,
    current_head: Seq<char>,
    name: Seq<char>,
    downstream: EnvironmentStateView,
) -> int {
    if downstream.propagated_from == Some(name) {
        match downstream.current.propagated_head {
            Some(head) => if head == current_head {
                0
            } else {
                let at = stop_index(queue, head);
                if at < queue.len() {
                    at + 1
                } else {
                    queue.len() as int
                }
            },
            None => 0,
        }
    } else {
        0
    }
}

/// Whether `keep` is the greatest number of entries of `queue` that one of
/// the environments other than `name` needs, or 0 where none needs any.
pub open spec fn is_keep_count(
    environments: Map<Seq<char>, EnvironmentStateView>,
    name: Seq<char>,
    queue: Seq<DeployStateView>,
    current_head: Seq<char>,
    keep: int,
) -> bool {
    &&& 0 <= keep <= queue.len()
    &&& forall|other: Seq<char>| #[trigger]
        environments.contains_key(other) && other != name ==> needed_entries(
            queue,
            current_head,
            name,
            environments[other],
        ) <= keep
    &&& (keep == 0 || exists|other: Seq<char>| #[trigger]
        environments.contains_key(other) && other != name && needed_entries(
            queue,
            current_head,
            name,
            environments[other],
        ) == keep)
}

/// What a recording of `current` for the environment `name` makes of the
/// environments `before`: `name` gets the new current state, the next
/// version and its old current state at the front of its queue, which is cut
/// down to what the other environments need; all others stay as they are.
pub open spec fn recorded(
    before: Map<Seq<char>, EnvironmentStateView>,
    after: Map<Seq<char>, EnvironmentStateView>,
    name: Seq<char>,
    propagated_from: Option<Seq<char>>,
    current: DeployStateView,
) -> bool {
    &&& after.dom() == before.dom().insert(name)
    &&& forall|other: Seq<char>| #[trigger]
        before.contains_key(other) && other != name ==> after[other] == before[other]
    &&& after[name].version == next_version(before, name)
    &&& after[name].current == current
    &&& after[name].propagated_from == propagated_from
    &&& exists|keep: int| #[trigger]
        is_keep_count(before, name, pushed_queue(before, name), current.head_commit, keep)
            && after[name].queue == pushed_queue(before, name).take(keep)
}

/// The state that `env` is to consume next from `upstream`.
///
/// - Nothing where `upstream` was never recorded.
/// - The upstream's current state where `env` was never recorded, where it
///   has consumed nothing from upstream yet, where the queue is ignored by
///   the database or by the environment, where it has consumed just the
///   upstream's current state, or where the upstream's queue is empty.
/// - Else, of the queued upstream states that are newer than the one `env`
///   has consumed, the oldest that changes a file which `patterns` select; the
///   upstream's current state where none of them does.
pub open spec fn target_state(
    db: DatabaseView,
    env: Seq<char>,
    env_ignore_queue: bool,
    upstream: Seq<char>,
    patterns: Seq<Seq<char>>,
) -> Option<DeployStateView> {
    if !db.environments.contains_key(upstream) {
        None
    } else {
        let from = db.environments[upstream];
        if !db.environments.contains_key(env) {
            Some(from.current)
        } else {
            let own = db.environments[env].current;
            match own.propagated_head {
                None => Some(from.current),
                Some(from_head) => if db.ignore_queue || env_ignore_queue || from_head
                    == from.current.head_commit || from.queue.len() == 0 {
                    Some(from.current)
                } else {
                    Some(
                        queued_target(
                            from.queue.take(stop_index(from.queue, from_head)),
                            own,
                            patterns,
                            from.current,
                        ),
                    )
                },
            }
        }
    }
}

/// The view of a deployment state that may be missing.
pub open spec fn deploy_view(state: Option<&DeployState>) -> Option<DeployStateView> {
    match state {
        Some(s) => Some(s@),
        None => None,
    }
}

/// The version and the view of a current state that may be missing.
pub open spec fn current_view(state: Option<(u32, &DeployState)>) -> Option<(u32, DeployStateView)> {
    match state {
        Some((version, s)) => Some((version, s@)),
        None => None,
    }
}

/// Whether a file brings a change: it is selected, and it is not held, or
/// held with another hash.
pub open spec fn brings(
    selected: bool,
    held: Option<FileStateView>,
    upstream: FileStateView,
) -> bool {
    selected && match held {
        Some(existing) => existing.file_hash != upstream.file_hash,
        None => true,
    }
}

/// Whether an upstream file, recorded as `upstream`, brings a change to an
/// environment that holds the file as `held`. `selected` says whether the
/// environment's patterns select the file.
pub fn file_changes(selected: bool, held: Option<&FileState>, upstream: &FileState) -> (changes:
    bool)
    ensures
        changes == brings(
            selected,
            match held {
                Some(existing) => Some(existing@),
                None => None,
            },
            upstream@,
        ),
{
    if !selected {
        return false;
    }
    match held {
        Some(existing) => !existing.same_hash(upstream),
        None => true,
    }
}

/// Position of the last `true` among `answers`, if there is one.
pub open spec fn last_true(answers: Seq<bool>) -> Option<int>
    decreases answers.len(),
{
    if answers.len() == 0 {
        None
    } else if answers.last() {
        Some(answers.len() - 1)
    } else {
        last_true(answers.drop_last())
    }
}

/// `last_true` finds a position that holds `true` and behind which all is
/// `false`; it finds none exactly where all is `false`.
pub proof fn lemma_last_true(answers: Seq<bool>)
    ensures
        match last_true(answers) {
            Some(at) => 0 <= at < answers.len() && answers[at] && forall|j: int|
                at < j < answers.len() ==> !answers[j],
            None => forall|j: int| 0 <= j < answers.len() ==> !answers[j],
        },
    decreases answers.len(),
{
    if answers.len() > 0 && !answers.last() {
        let rest = answers.drop_last();
        lemma_last_true(rest);
        match last_true(rest) {
            Some(at) => {
                assert(rest[at] == answers[at]);
                assert forall|j: int| at < j < answers.len() implies !answers[j] by {
                    if j < rest.len() {
                        assert(rest[j] == answers[j]);
                    }
                }
            },
            None => {
                assert forall|j: int| 0 <= j < answers.len() implies !answers[j] by {
                    if j < rest.len() {
                        assert(rest[j] == answers[j]);
                    }
                }
            },
        }
    }
}

/// Of a row of queued states, newest first, the position of the oldest that
/// brings a change, given for each whether it does; `None` where none does.
pub fn oldest_change(changes: &Vec<bool>) -> (found: Option<usize>)
    ensures
        match found {
            Some(at) => last_true(changes@) == Some(at as int),
            None => last_true(changes@).is_none(),
        },
        match found {
            Some(at) => at < changes@.len() && changes@[at as int] && forall|j: int|
                at < j < changes@.len() ==> !changes@[j],
            None => forall|j: int| 0 <= j < changes@.len() ==> !changes@[j],
        },
{
    let mut found: Option<usize> = None;
    let mut at: usize = 0;
    while at < changes.len()
        invariant
            at <= changes@.len(),
            match found {
                Some(i) => last_true(changes@.take(at as int)) == Some(i as int),
                None => last_true(changes@.take(at as int)).is_none(),
            },
        decreases changes@.len() - at,
    {
        assert(changes@.take(at + 1).last() == changes@[at as int]);
        assert(changes@.take(at + 1).drop_last() =~= changes@.take(at as int));
        if changes[at] {
            found = Some(at);
        }
        at += 1;
    }
    assert(changes@.take(at as int) =~= changes@);
    proof {
        lemma_last_true(changes@);
    }
    found
}

/// The oldest changing state of a row is the one at the position of the last
/// `true` among the answers to whether each state brings a change.
pub proof fn lemma_queued_target_by_answers(
    walked: Seq<DeployStateView>,
    answers: Seq<bool>,
    own: DeployStateView,
    patterns: Seq<Seq<char>>,
    fallback: DeployStateView,
)
    requires
        answers.len() == walked.len(),
        forall|i: int|
            0 <= i < walked.len() ==> answers[i] == state_brings_change(
                #[trigger] walked[i],
                own,
                patterns,
            ),
    ensures
        queued_target(walked, own, patterns, fallback) == match last_true(answers) {
            Some(at) => walked[at],
            None => fallback,
        },
    decreases walked.len(),
{
    if walked.len() > 0 {
        assert(answers.last() == state_brings_change(walked[walked.len() - 1], own, patterns));
        if !answers.last() {
            let rest = walked.drop_last();
            let rest_answers = answers.drop_last();
            assert forall|i: int| 0 <= i < rest.len() implies rest_answers[i]
                == state_brings_change(#[trigger] rest[i], own, patterns) by {
                assert(rest[i] == walked[i]);
            }
            lemma_queued_target_by_answers(rest, rest_answers, own, patterns, fallback);
            lemma_last_true(rest_answers);
        }
    }
}

/// What `state` records of the file at the path `name`.
fn state_named<'a>(state: &'a DeployState, name: &str) -> (found: Option<&'a FileState>)
    ensures
        match found {
            Some(s) => state_by_name(state@, name@) == Some(s@),
            None => state_by_name(state@, name@).is_none(),
        },
{
    let count = state.len();
    let mut at: usize = 0;
    while at < count
        invariant
            at <= count,
            count == state@.idents.len(),
            forall|j: int| 0 <= j < at ==> names(state@.idents)[j] != name@,
        decreases count - at,
    {
        let here = name_of(state.ident_at(at).as_str());
        assert(names(state@.idents)[at as int] == here@);
        if str_eq(here.as_str(), name) {
            proof {
                lemma_first_index_unique(names(state@.idents), name@, at as int);
            }
            return Some(state.file_at(at));
        }
        at += 1;
    }
    proof {
        lemma_first_index_unique(names(state@.idents), name@, at as int);
    }
    None
}

/// Whether the upstream state `queued` would change a file of `own` that
/// `patterns` select.
fn brings_change(queued: &DeployState, own: &DeployState, patterns: &PatternList) -> (changed: bool)
    ensures
        changed == state_brings_change(queued@, own@, patterns@),
{
    let count = queued.len();
    let mut at: usize = 0;
    while at < count
        invariant
            at <= count,
            count == queued@.idents.len(),
            forall|j: int|
                0 <= j < at ==> !file_brings_change(
                    #[trigger] queued@.idents[j],
                    queued@.states[j],
                    own@,
                    patterns@,
                ),
        decreases count - at,
    {
        let name = name_of(queued.ident_at(at).as_str());
        let file_state = queued.file_at(at);
        let selected = patterns.matches(name.as_str());
        let held = state_named(own, name.as_str());
        if file_changes(selected, held, file_state) {
            assert(file_brings_change(
                queued@.idents[at as int],
                queued@.states[at as int],
                own@,
                patterns@,
            ));
            return true;
        }
        at += 1;
    }
    false
}

/// Position of the first state in `queue` that was taken at `head`, or the
/// length of `queue`.
fn position_of_head(queue: &VecDeque<DeployState>, head: &CommitHash) -> (at: usize)
    ensures
        at == stop_index(deploy_views(queue@), head@),
        at <= queue@.len(),
{
    let mut at: usize = 0;
    while at < queue.len()
        invariant
            at <= queue@.len(),
            forall|j: int| 0 <= j < at ==> heads(deploy_views(queue@))[j] != head@,
        decreases queue@.len() - at,
    {
        assert(heads(deploy_views(queue@))[at as int] == queue@[at as int]@.head_commit);
        if queue[at].head_commit().same(head) {
            proof {
                lemma_first_index_unique(heads(deploy_views(queue@)), head@, at as int);
            }
            return at;
        }
        at += 1;
    }
    proof {
        lemma_first_index_unique(heads(deploy_views(queue@)), head@, at as int);
    }
    at
}

/// How many entries of `queue` the environment `downstream` needs.
fn entries_needed(
    queue: &VecDeque<DeployState>,
    current_head: &CommitHash,
    name: &str,
    downstream: &EnvironmentState,
) -> (need: usize)
    ensures
        need == needed_entries(deploy_views(queue@), current_head@, name@, downstream@),
        need <= queue@.len(),
{
    match &downstream.propagated_from {
        Some(upstream) => {
            if !str_eq(upstream.as_str(), name) {
                return 0;
            }
            match downstream.current.propagated_head() {
                Some(head) => {
                    if head.same(current_head) {
                        0
                    } else {
                        let at = position_of_head(queue, head);
                        if at < queue.len() {
                            at + 1
                        } else {
                            queue.len()
                        }
                    }
                },
                None => 0,
            }
        },
        None => 0,
    }
}

/// The greatest number of entries of `queue` that one of `others` needs.
fn keep_count(
    others: &SortedMap<EnvironmentState>,
    queue: &VecDeque<DeployState>,
    current_head: &CommitHash,
    name: &str,
) -> (keep: usize)
    requires
        !others.as_map().contains_key(name@),
    ensures
        is_keep_count(
            environment_state_views(others.as_map()),
            name@,
            deploy_views(queue@),
            current_head@,
            keep as int,
        ),
{
    let count = others.len();
    let ghost views = deploy_views(queue@);
    let mut keep: usize = 0;
    let mut at: usize = 0;
    while at < count
        invariant
            at <= count,
            count == others.keys().len(),
            others.ordered(),
            views == deploy_views(queue@),
            keep <= views.len(),
            forall|j: int|
                0 <= j < at ==> needed_entries(
                    views,
                    current_head@,
                    name@,
                    (#[trigger] others.values()[j])@,
                ) <= keep,
            keep == 0 || exists|j: int|
                0 <= j < at && needed_entries(
                    views,
                    current_head@,
                    name@,
                    (#[trigger] others.values()[j])@,
                ) == keep,
        decreases count - at,
    {
        let need = entries_needed(queue, current_head, name, others.value_at(at));
        if need > keep {
            keep = need;
        }
        at += 1;
    }
    proof {
        let keys = others.keys();
        let values = others.values();
        lemma_map_of_sorted(keys, values);
        let environments = environment_state_views(others.as_map());
        assert forall|other: Seq<char>| #[trigger]
            environments.contains_key(other) && other != name@ implies needed_entries(
            views,
            current_head@,
            name@,
            environments[other],
        ) <= keep by {
            let j = keys.index_of(other);
            assert(others.as_map()[keys[j]] == values[j]);
        }
        if keep != 0 {
            let j = choose|j: int|
                0 <= j < at && needed_entries(
                    views,
                    current_head@,
                    name@,
                    (#[trigger] others.values()[j])@,
                ) == keep;
            assert(others.as_map().contains_key(keys[j]));
            assert(others.as_map()[keys[j]] == values[j]);
            assert(environments.contains_key(keys[j]) && keys[j] != name@ && needed_entries(
                views,
                current_head@,
                name@,
                environments[keys[j]],
            ) == keep);
        }
    }
    keep
}

impl Database {
    /// The directory of the state files of `scope`, for the configuration
    /// file at `path_to_config`: `.cepler/<scope>` beside that file.
    pub fn state_dir_from_config(scope: &str, path_to_config: &str) -> (dir: String)
        ensures
            dir@ == state_dir_text(path_parent(path_to_config@), scope@),
    {
        match parent_of(path_to_config) {
            Some(parent) => state_dir_in(Some(parent.as_str()), scope),
            None => state_dir_in(None, scope),
        }
    }

    /// The database of `scope` that holds `environments`, each under its
    /// name; of two with one name the later stays.
    pub fn open(
        scope: &str,
        path_to_config: &str,
        ignore_queue: bool,
        environments: Vec<(String, EnvironmentState)>,
    ) -> (db: Self)
        ensures
            db@.ignore_queue == ignore_queue,
            db@.state_dir == state_dir_text(path_parent(path_to_config@), scope@),
            db@.environments == environment_state_views(
                entries_map(environments@, environments@.len() as int),
            ),
    {
        Database {
            state: SortedMap::from_entries(environments),
            ignore_queue,
            state_dir: Self::state_dir_from_config(scope, path_to_config),
        }
    }

    /// The view of the database that an older commit is judged by: of this
    /// database only the environment of `env_config`, and beside it the state
    /// of its upstream as the older commit holds it, where it holds one.
    pub fn open_env_from_commit(
        &self,
        path_to_config: &str,
        ignore_queue: bool,
        scope: &str,
        env_config: &EnvironmentConfig,
        upstream_state: Option<EnvironmentState>,
    ) -> (db: Self)
        ensures
            db@.ignore_queue == ignore_queue,
            db@.state_dir == state_dir_text(path_parent(path_to_config@), scope@),
            db@.environments == scoped_environments(
                self@.environments,
                env_config@.name,
                env_config@.propagated_from,
                match upstream_state {
                    Some(s) => Some(s@),
                    None => None,
                },
            ),
    {
        let mut state: SortedMap<EnvironmentState> = SortedMap::new();
        let name = env_config.name();
        match self.state.get(name.as_str()) {
            Some(env_state) => {
                state.insert(name.clone(), env_state.clone());
            },
            None => {},
        }
        match (env_config.propagated_from(), upstream_state) {
            (Some(last_env), Some(env_state)) => {
                state.insert(last_env.clone(), env_state);
            },
            _ => {},
        }
        let db = Database {
            state,
            ignore_queue,
            state_dir: Self::state_dir_from_config(scope, path_to_config),
        };
        assert(db@.environments =~= scoped_environments(
            self@.environments,
            env_config@.name,
            env_config@.propagated_from,
            match upstream_state {
                Some(s) => Some(s@),
                None => None,
            },
        ));
        db
    }

    /// Whether the queue is ignored for every environment.
    pub fn ignore_queue(&self) -> (ignore: bool)
        ensures
            ignore == self@.ignore_queue,
    {
        self.ignore_queue
    }

    /// The directory of the state files.
    pub fn state_dir(&self) -> (dir: &String)
        ensures
            dir@ == self@.state_dir,
    {
        &self.state_dir
    }

    /// The path of the state file of the environment `name`.
    pub fn state_file(&self, name: &str) -> (path: String)
        ensures
            path@ == state_file_text(self@.state_dir, name@),
    {
        state_file_path(self.state_dir.as_str(), name)
    }

    /// Number of environments that have a state.
    pub fn environment_count(&self) -> (count: usize)
        ensures
            count == self.environment_names().len(),
    {
        self.state.len()
    }

    /// The names of the environments that have a state, in order.
    pub closed spec fn environment_names(&self) -> Seq<Seq<char>> {
        self.state.keys()
    }

    /// The name of the environment at a position.
    pub fn environment_name_at(&self, at: usize) -> (name: &String)
        requires
            at < self.environment_names().len(),
        ensures
            name@ == self.environment_names()[at as int],
            self@.environments.contains_key(name@),
    {
        let _ = self.state.len();
        proof {
            lemma_map_of_sorted(self.state.keys(), self.state.values());
        }
        self.state.key_at(at)
    }

    /// The state of the environment at a position.
    pub fn environment_at(&self, at: usize) -> (state: &EnvironmentState)
        requires
            at < self.environment_names().len(),
        ensures
            self@.environments.contains_key(self.environment_names()[at as int]),
            state@ == self@.environments[self.environment_names()[at as int]],
    {
        let _ = self.state.len();
        proof {
            lemma_map_of_sorted(self.state.keys(), self.state.values());
        }
        self.state.value_at(at)
    }

    /// The state of the environment `name`, if it has one.
    pub fn environment(&self, name: &str) -> (state: Option<&EnvironmentState>)
        ensures
            match state {
                Some(s) => self@.environments.contains_key(name@) && self@.environments[name@]
                    == s@,
                None => !self@.environments.contains_key(name@),
            },
    {
        self.state.get(name)
    }

    /// What `env` has deployed now, with its version, if it was ever
    /// recorded.
    pub fn get_current_state(&self, env: &str) -> (current: Option<(u32, &DeployState)>)
        ensures
            current_view(current) == if self@.environments.contains_key(env@) {
                Some((self@.environments[env@].version, self@.environments[env@].current))
            } else {
                None::<(u32, DeployStateView)>
            },
    {
        match self.state.get(env) {
            Some(state) => Some((state.version, &state.current)),
            None => None,
        }
    }

    /// The state that `env` is to consume next from `propagated_from`.
    pub fn get_target_propagated_state(
        &self,
        env: &str,
        env_ignore_queue: bool,
        propagated_from: &str,
        patterns: &PatternList,
    ) -> (target: Option<&DeployState>)
        ensures
            deploy_view(target) == target_state(
                self@,
                env@,
                env_ignore_queue,
                propagated_from@,
                patterns@,
            ),
    {
        let from = match self.state.get(propagated_from) {
            Some(from) => from,
            None => {
                return None;
            },
        };
        let own = match self.state.get(env) {
            Some(own) => own,
            None => {
                return Some(&from.current);
            },
        };
        let from_head = match own.current.propagated_head() {
            Some(head) => head,
            None => {
                return Some(&from.current);
            },
        };
        if self.ignore_queue || env_ignore_queue || from_head.same(from.current.head_commit())
            || from.propagation_queue.len() == 0 {
            return Some(&from.current);
        }
        let stop = position_of_head(&from.propagation_queue, from_head);
        let ghost queue = deploy_views(from.propagation_queue@);
        let mut changes: Vec<bool> = Vec::new();
        let mut at: usize = 0;
        while at < stop
            invariant
                at <= stop <= from.propagation_queue@.len(),
                queue == deploy_views(from.propagation_queue@),
                changes@.len() == at,
                forall|i: int|
                    0 <= i < at ==> changes@[i] == state_brings_change(
                        #[trigger] queue[i],
                        own.current@,
                        patterns@,
                    ),
            decreases stop - at,
        {
            let state = &from.propagation_queue[at];
            assert(queue[at as int] == state@);
            changes.push(brings_change(state, &own.current, patterns));
            at += 1;
        }
        proof {
            let walked = queue.take(stop as int);
            assert forall|i: int| 0 <= i < walked.len() implies changes@[i]
                == state_brings_change(#[trigger] walked[i], own.current@, patterns@) by {
                assert(walked[i] == queue[i]);
            }
            lemma_queued_target_by_answers(
                walked,
                changes@,
                own.current@,
                patterns@,
                from.current@,
            );
            lemma_last_true(changes@);
        }
        match oldest_change(&changes) {
            Some(chosen) => {
                assert(queue.take(stop as int)[chosen as int] == queue[chosen as int]);
                Some(&from.propagation_queue[chosen])
            },
            None => Some(&from.current),
        }
    }

    /// Records `env` as what the environment `name` has deployed now. Its
    /// former current state moves to the front of its queue, and the queue is
    /// cut down to what the other environments still need. Gives the new
    /// version and the path of the state file to write.
    ///
    /// Fails, and changes nothing, where the version would no longer fit.
    pub fn set_current_environment_state(
        &mut self,
        name: String,
        propagated_from: Option<String>,
        env: DeployState,
    ) -> (outcome: Result<(u32, String), Error>)
        ensures
            final(self)@.ignore_queue == old(self)@.ignore_queue,
            final(self)@.state_dir == old(self)@.state_dir,
            match outcome {
                Ok((version, path)) => {
                    &&& version == next_version(old(self)@.environments, name@)
                    &&& path@ == state_file_text(old(self)@.state_dir, name@)
                    &&& recorded(
                        old(self)@.environments,
                        final(self)@.environments,
                        name@,
                        text_view(propagated_from),
                        env@,
                    )
                },
                Err(e) => {
                    &&& e == Error::VersionOverflow
                    &&& next_version(old(self)@.environments, name@) > u32::MAX
                    &&& final(self)@ == old(self)@
                },
            },
            outcome is Ok <==> next_version(old(self)@.environments, name@) <= u32::MAX,
    {
        let path = state_file_path(self.state_dir.as_str(), name.as_str());
        match self.state.get(name.as_str()) {
            Some(state) => {
                if state.version == u32::MAX {
                    return Err(Error::VersionOverflow);
                }
            },
            None => {},
        }
        let ghost before = self.state.as_map();
        let ghost before_views = self@.environments;
        let (version, mut queue) = match self.state.remove(name.as_str()) {
            Some(state) => {
                let EnvironmentState { version, current, propagated_from: _, propagation_queue } =
                    state;
                let mut queue = propagation_queue;
                let ghost tail = deploy_views(queue@);
                queue.push_front(current);
                assert(deploy_views(queue@) =~= seq![current@] + tail);
                (version + 1, queue)
            },
            None => {
                let queue: VecDeque<DeployState> = VecDeque::new();
                assert(deploy_views(queue@) =~= Seq::<DeployStateView>::empty());
                (1u32, queue)
            },
        };
        let ghost pushed = deploy_views(queue@);
        assert(pushed == pushed_queue(before_views, name@));
        let keep = keep_count(&self.state, &queue, env.head_commit(), name.as_str());
        queue.truncate(keep);
        assert(deploy_views(queue@) =~= pushed.take(keep as int));
        let ghost others = environment_state_views(self.state.as_map());
        let ghost head = env@.head_commit;
        let state = EnvironmentState {
            version,
            current: env,
            propagated_from,
            propagation_queue: queue,
        };
        self.state.insert(name, state);
        proof {
            let after = self@.environments;
            assert(after.dom() =~= before_views.dom().insert(name@));
            assert(others =~= before_views.remove(name@));
            assert(is_keep_count(before_views, name@, pushed, head, keep as int)) by {
                if keep != 0 {
                    let other = choose|other: Seq<char>| #[trigger]
                        others.contains_key(other) && other != name@ && needed_entries(
                            pushed,
                            head,
                            name@,
                            others[other],
                        ) == keep;
                    assert(before_views.contains_key(other));
                }
                assert forall|other: Seq<char>| #[trigger]
                    before_views.contains_key(other) && other != name@ implies needed_entries(
                    pushed,
                    head,
                    name@,
                    before_views[other],
                ) <= keep by {
                    assert(others.contains_key(other));
                }
            }
        }
        Ok((version, path))
    }
}

/// The environments of the view of a database that an older commit is judged
/// by: of `environments` only `name`, and `upstream_state` under the name of
/// its upstream, where there is an upstream and a state of it.
pub open spec fn scoped_environments(
    environments: Map<Seq<char>, EnvironmentStateView>,
    name: Seq<char>,
    propagated_from: Option<Seq<char>>,
    upstream_state: Option<EnvironmentStateView>,
) -> Map<Seq<char>, EnvironmentStateView> {
    let own = if environments.contains_key(name) {
        Map::<Seq<char>, EnvironmentStateView>::empty().insert(name, environments[name])
    } else {
        Map::<Seq<char>, EnvironmentStateView>::empty()
    };
    match (propagated_from, upstream_state) {
        (Some(upstream), Some(state)) => own.insert(upstream, state),
        _ => own,
    }
}

/// After a recording the queue of the recorded environment is exactly as
/// long as the greatest need among the other environments: it is the front of
/// the former queue, with the former current state before it, up to and
/// including the oldest state that another environment has consumed, and
/// holds nothing older.
pub proof fn lemma_pruned_queue_is_minimal(
    before: Map<Seq<char>, EnvironmentStateView>,
    after: Map<Seq<char>, EnvironmentStateView>,
    name: Seq<char>,
    propagated_from: Option<Seq<char>>,
    current: DeployStateView,
)
    requires
        recorded(before, after, name, propagated_from, current),
    ensures
        is_keep_count(
            before,
            name,
            pushed_queue(before, name),
            current.head_commit,
            after[name].queue.len() as int,
        ),
        after[name].queue == pushed_queue(before, name).take(after[name].queue.len() as int),
        forall|other: Seq<char>| #[trigger]
            before.contains_key(other) && other != name ==> needed_entries(
                pushed_queue(before, name),
                current.head_commit,
                name,
                before[other],
            ) <= after[name].queue.len(),
{
    let keep = choose|keep: int| #[trigger]
        is_keep_count(before, name, pushed_queue(before, name), current.head_commit, keep)
            && after[name].queue == pushed_queue(before, name).take(keep);
    assert(after[name].queue.len() == keep);
}

/// After a recording the queue still holds the state that a downstream
/// environment has consumed, at the place where it stood, as long as that
/// state was in the queue at all.
pub proof fn lemma_consumed_state_is_kept(
    before: Map<Seq<char>, EnvironmentStateView>,
    after: Map<Seq<char>, EnvironmentStateView>,
    name: Seq<char>,
    propagated_from: Option<Seq<char>>,
    current: DeployStateView,
    other: Seq<char>,
    head: Seq<char>,
)
    requires
        recorded(before, after, name, propagated_from, current),
        before.contains_key(other),
        other != name,
        before[other].propagated_from == Some(name),
        before[other].current.propagated_head == Some(head),
        head != current.head_commit,
        stop_index(pushed_queue(before, name), head) < pushed_queue(before, name).len(),
    ensures
        stop_index(pushed_queue(before, name), head) < after[name].queue.len(),
        after[name].queue[stop_index(pushed_queue(before, name), head)].head_commit == head,
        stop_index(after[name].queue, head) == stop_index(pushed_queue(before, name), head),
{
    lemma_pruned_queue_is_minimal(before, after, name, propagated_from, current);
    let pushed = pushed_queue(before, name);
    let at = stop_index(pushed, head);
    lemma_first_index_of(heads(pushed), head);
    assert(needed_entries(pushed, current.head_commit, name, before[other]) == at + 1);
    let kept = after[name].queue;
    assert(kept[at] == pushed[at]);
    assert(heads(pushed)[at] == pushed[at].head_commit);
    assert forall|i: int| 0 <= i < at implies heads(kept)[i] != head by {
        assert(heads(kept)[i] == heads(pushed)[i]);
    }
    assert(heads(kept)[at] == head);
    lemma_first_index_unique(heads(kept), head, at);
}

/// The state that an environment is to consume next depends on nothing but
/// the recorded states of the environment and of its upstream: two databases
/// that agree on these two, and on ignoring the queue, give the same target.
pub proof fn lemma_target_depends_on_two_environments(
    db1: DatabaseView,
    db2: DatabaseView,
    env: Seq<char>,
    env_ignore_queue: bool,
    upstream: Seq<char>,
    patterns: Seq<Seq<char>>,
)
    requires
        db1.ignore_queue == db2.ignore_queue,
        db1.environments.contains_key(env) == db2.environments.contains_key(env),
        db1.environments.contains_key(env) ==> db1.environments[env] == db2.environments[env],
        db1.environments.contains_key(upstream) == db2.environments.contains_key(upstream),
        db1.environments.contains_key(upstream) ==> db1.environments[upstream]
            == db2.environments[upstream],
    ensures
        target_state(db1, env, env_ignore_queue, upstream, patterns) == target_state(
            db2,
            env,
            env_ignore_queue,
            upstream,
            patterns,
        ),
{
}

/// The target is the upstream's current state or one of its queued states.
pub proof fn lemma_target_is_recorded_upstream_state(
    db: DatabaseView,
    env: Seq<char>,
    env_ignore_queue: bool,
    upstream: Seq<char>,
    patterns: Seq<Seq<char>>,
)
    ensures
        target_state(db, env, env_ignore_queue, upstream, patterns) matches Some(target) ==> {
            &&& db.environments.contains_key(upstream)
            &&& (target == db.environments[upstream].current
                || db.environments[upstream].queue.contains(target))
        },
{
    if db.environments.contains_key(upstream) && db.environments.contains_key(env) {
        let from = db.environments[upstream];
        let own = db.environments[env].current;
        if own.propagated_head.is_some() {
            let head = own.propagated_head.unwrap();
            lemma_first_index_of(heads(from.queue), head);
            lemma_queued_target_is_member(
                from.queue,
                stop_index(from.queue, head),
                own,
                patterns,
                from.current,
            );
        }
    }
}

/// The oldest changing state among the first `upto` of `queue` is one of
/// `queue`, or the fallback.
pub proof fn lemma_queued_target_is_member(
    queue: Seq<DeployStateView>,
    upto: int,
    own: DeployStateView,
    patterns: Seq<Seq<char>>,
    fallback: DeployStateView,
)
    requires
        0 <= upto <= queue.len(),
    ensures
        queued_target(queue.take(upto), own, patterns, fallback) == fallback || queue.contains(
            queued_target(queue.take(upto), own, patterns, fallback),
        ),
    decreases upto,
{
    if upto > 0 {
        assert(queue.take(upto).last() == queue[upto - 1]);
        assert(queue.take(upto).drop_last() =~= queue.take(upto - 1));
        lemma_queued_target_is_member(queue, upto - 1, own, patterns, fallback);
    }
}

} // verus!
