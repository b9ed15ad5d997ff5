//! What is decided for a Concourse resource around a check, a recording or a
//! preparation. Reading the request and writing the answer is left to the
//! caller.

use crate::diff::{FileDiff, FileDiffView};
use crate::error::Error;
use crate::state::file_state_text;
use crate::text::str_eq;
use crate::workspace::StateId;
use vstd::prelude::*;
use vstd::std_specs::convert::FromSpecImpl;
use vstd::string::*;

verus! {

/// The configuration file of a resource that names none.
pub fn default_config_path() -> (path: String)
    ensures
        path@ == "cepler.yml"@,
{
    String::from_str("cepler.yml")
}

/// A version of the resource: the commit of a recorded state, and how often
/// the environment was recorded up to it.
#[derive(Debug, PartialEq, Eq)]
pub struct Version {
    pub trigger: String,
    pub version: Option<u32>,
}

/// A [`Version`] as plain values.
pub struct VersionView {
    pub trigger: Seq<char>,
    pub version: Option<u32>,
}

impl View for Version {
    type V = VersionView;

    open spec fn view(&self) -> VersionView {
        VersionView { trigger: self.trigger@, version: self.version }
    }
}

impl From<StateId> for Version {
    fn from(id: StateId) -> (version: Self) {
        Version { trigger: id.head_commit, version: Some(id.version) }
    }
}

impl FromSpecImpl<StateId> for Version {
    open spec fn obeys_from_spec() -> bool {
        true
    }

    open spec fn from_spec(id: StateId) -> Self {
        Version { trigger: id.head_commit, version: Some(id.version) }
    }
}

/// The views of a row of versions.
pub open spec fn version_views(versions: Seq<Version>) -> Seq<VersionView> {
    Seq::new(versions.len(), |i: int| versions[i]@)
}

/// The version that stands for a recorded state.
pub open spec fn version_of(id: StateId) -> VersionView {
    VersionView { trigger: id.head_commit@, version: Some(id.version) }
}

/// The versions that a check answers with, oldest first: the version that
/// was last handed out, if there is one, and behind it the state that the
/// check found, unless that is the commit of the last version.
pub open spec fn versions_to_report(last: Option<Version>, found: Option<StateId>) -> Seq<
    VersionView,
> {
    match (last, found) {
        (None, Some(id)) => seq![version_of(id)],
        (Some(l), Some(id)) => if l.trigger@ != id.head_commit@ {
            seq![l@, version_of(id)]
        } else {
            seq![l@]
        },
        (Some(l), None) => seq![l@],
        (None, None) => Seq::empty(),
    }
}

/// The versions that a check answers with, oldest first.
pub fn versions_after_check(last: Option<Version>, found: Option<StateId>) -> (versions: Vec<
    Version,
>)
    ensures
        version_views(versions@) == versions_to_report(last, found),
{
    let mut versions: Vec<Version> = Vec::new();
    match (last, found) {
        (None, Some(id)) => {
            versions.push(Version::from(id));
        },
        (Some(l), Some(id)) => {
            let differs = !(l.trigger == id.head_commit);
            versions.push(l);
            if differs {
                versions.push(Version::from(id));
            }
        },
        (Some(l), None) => {
            versions.push(l);
        },
        (None, None) => {},
    }
    assert(version_views(versions@) =~= versions_to_report(last, found));
    versions
}

/// Where the gates of a resource are to be read from.
#[derive(Debug, PartialEq, Eq)]
pub enum GatesSource {
    /// The resource has no gates.
    NoGates,
    /// The file in the working copy.
    File { path: String },
    /// The file as the branch holds it.
    Branch { path: String, branch: String },
}

/// Where the gates of a resource are to be read from: the file on the branch
/// where both are named, the file in the working copy where only the file is
/// named, nowhere where neither is. A branch without a file is a failure.
pub fn gates_source(gates_file: Option<&String>, gates_branch: Option<&String>) -> (source:
    Result<GatesSource, Error>)
    ensures
        match (gates_file, gates_branch) {
            (Some(file), Some(branch)) => (source matches Ok(
                GatesSource::Branch { path, branch: b },
            ) && path@ == file@ && b@ == branch@),
            (Some(file), None) => (source matches Ok(GatesSource::File { path }) && path@
                == file@),
            (None, Some(_)) => (source matches Err(e) && e == Error::MissingGatesFile),
            (None, None) => (source matches Ok(s) && s == GatesSource::NoGates),
        },
{
    match (gates_file, gates_branch) {
        (Some(file), Some(branch)) => Ok(
            GatesSource::Branch { path: file.clone(), branch: branch.clone() },
        ),
        (Some(file), None) => Ok(GatesSource::File { path: file.clone() }),
        (None, Some(_)) => Err(Error::MissingGatesFile),
        (None, None) => Ok(GatesSource::NoGates),
    }
}

/// One line of metadata about a changed file.
#[derive(Debug, PartialEq, Eq)]
pub struct DiffElem {
    name: String,
    value: String,
}

impl View for DiffElem {
    type V = (Seq<char>, Seq<char>);

    closed spec fn view(&self) -> (Seq<char>, Seq<char>) {
        (self.name@, self.value@)
    }
}

impl DiffElem {
    /// The identifier of the file.
    pub fn name(&self) -> (name: &String)
        ensures
            name@ == self@.0,
    {
        &self.name
    }

    /// What is said of the file.
    pub fn value(&self) -> (value: &String)
        ensures
            value@ == self@.1,
    {
        &self.value
    }
}

/// The line of metadata for one difference: the file's identifier, and its
/// state in words, or `gone` where the difference holds no state.
pub open spec fn metadata_line(diff: FileDiffView, gone: Seq<char>) -> (Seq<char>, Seq<char>) {
    (
        diff.ident,
        match diff.current_state {
            Some(state) => file_state_text(state),
            None => gone,
        },
    )
}

/// The views of a row of metadata lines.
pub open spec fn metadata_views(lines: Seq<DiffElem>) -> Seq<(Seq<char>, Seq<char>)> {
    Seq::new(lines.len(), |i: int| lines[i]@)
}

/// The metadata for the differences `diffs`, one line each, in their order.
/// A difference without a state reads as `gone`.
pub fn metadata(diffs: &Vec<FileDiff>, gone: &str) -> (lines: Vec<DiffElem>)
    ensures
        metadata_views(lines@) == Seq::new(
            diffs@.len(),
            |i: int| metadata_line(diffs@[i]@, gone@),
        ),
{
    let mut lines: Vec<DiffElem> = Vec::new();
    let mut at: usize = 0;
    while at < diffs.len()
        invariant
            at <= diffs@.len(),
            metadata_views(lines@) == Seq::new(
                diffs@.len(),
                |i: int| metadata_line(diffs@[i]@, gone@),
            ).take(at as int),
        decreases diffs@.len() - at,
    {
        let ghost before = metadata_views(lines@);
        let diff = &diffs[at];
        let value = match &diff.current_state {
            Some(state) => state.to_text(),
            None => String::from_str(gone),
        };
        let line = DiffElem { name: diff.ident.clone().inner(), value };
        lines.push(line);
        assert(metadata_views(lines@) =~= before.push(line@));
        assert(before.push(line@) =~= Seq::new(
            diffs@.len(),
            |i: int| metadata_line(diffs@[i]@, gone@),
        ).take(at + 1));
        at += 1;
    }
    assert(Seq::new(diffs@.len(), |i: int| metadata_line(diffs@[i]@, gone@)).take(at as int)
        =~= Seq::new(diffs@.len(), |i: int| metadata_line(diffs@[i]@, gone@)));
    lines
}

/// What fetching a version of the resource does with the working copy.
#[derive(Debug, PartialEq, Eq, Clone, Copy)]
pub enum FetchAction {
    /// There is a new state, and it is the wanted one: prepare the working
    /// copy for it.
    Prepare,
    /// Restore what was deployed last.
    Reproduce,
    /// There is a new state, but it is not the wanted one: give up.
    OutOfSync,
}

/// What fetching the version `wanted_trigger` does, given whether the
/// working copy is to be prepared and what a check found. Without
/// preparation, and where the check found nothing, the last deployment is
/// restored. A new state is prepared for where it is the wanted one.
pub fn fetch_action(should_prepare: bool, found: Option<&StateId>, wanted_trigger: &str) -> (action:
    FetchAction)
    ensures
        action == if !should_prepare {
            FetchAction::Reproduce
        } else {
            match found {
                None => FetchAction::Reproduce,
                Some(id) => if id.head_commit@ == wanted_trigger@ {
                    FetchAction::Prepare
                } else {
                    FetchAction::OutOfSync
                },
            }
        },
{
    if !should_prepare {
        return FetchAction::Reproduce;
    }
    match found {
        None => FetchAction::Reproduce,
        Some(id) => {
            if str_eq(id.head_commit.as_str(), wanted_trigger) {
                FetchAction::Prepare
            } else {
                FetchAction::OutOfSync
            }
        },
    }
}

/// Whether the state that was restored is the wanted one.
pub fn is_in_sync(reproduced: &StateId, wanted_trigger: &str) -> (in_sync: bool)
    ensures
        in_sync == (reproduced.head_commit@ == wanted_trigger@),
{
    str_eq(reproduced.head_commit.as_str(), wanted_trigger)
}

/// The environment that a recording is for: the one that the parameters
/// name, else the one that the source names.
pub fn chosen_environment(from_params: Option<String>, from_source: Option<String>) -> (chosen:
    Result<String, Error>)
    ensures
        match (from_params, from_source) {
            (Some(name), _) => chosen == Ok::<String, Error>(name),
            (None, Some(name)) => chosen == Ok::<String, Error>(name),
            (None, None) => chosen == Err::<String, Error>(Error::EnvironmentNotSpecified),
        },
{
    match from_params {
        Some(name) => Ok(name),
        None => match from_source {
            Some(name) => Ok(name),
            None => Err(Error::EnvironmentNotSpecified),
        },
    }
}

} // verus!
