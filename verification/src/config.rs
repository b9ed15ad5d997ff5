//! The configuration of a pipeline: its environments with their file
//! patterns, and the optional gates that pin an environment to a commit.

use crate::error::Error;
use crate::pattern::{all_compile, first_invalid, texts, PatternList};
use crate::sorted_map::{lemma_map_of_sorted, SortedMap};
use crate::text::str_eq;
use vstd::prelude::*;
use vstd::string::*;

verus! {

/// The scope of a configuration that names none.
pub fn default_scope() -> (scope: String)
    ensures
        scope@ == "default"@,
{
    String::from_str("default")
}

/// The entry of a gates file that pins nothing: the environment follows the
/// head.
pub open spec fn head_gate() -> Seq<char> {
    "HEAD"@
}

/// A copy of a row of strings.
pub(crate) fn clone_strings(strings: &Vec<String>) -> (copy: Vec<String>)
    ensures
        texts(copy@) == texts(strings@),
{
    let mut copy: Vec<String> = Vec::new();
    let mut at: usize = 0;
    while at < strings.len()
        invariant
            at <= strings@.len(),
            copy@.len() == at,
            forall|j: int| 0 <= j < at ==> (#[trigger] copy@[j])@ == strings@[j]@,
        decreases strings@.len() - at,
    {
        copy.push(strings[at].clone());
        at += 1;
    }
    assert(texts(copy@) =~= texts(strings@));
    copy
}

/// The text of a string that may be missing.
pub open spec fn text_view(text: Option<String>) -> Option<Seq<char>> {
    match text {
        Some(t) => Some(t@),
        None => None,
    }
}

/// One environment of the pipeline.
#[derive(Debug)]
pub struct EnvironmentConfig {
    name: String,
    ignore_queue: bool,
    propagated_from: Option<String>,
    propagated_files: Vec<String>,
    head_files: Vec<String>,
}

/// An [`EnvironmentConfig`] as plain values.
pub struct EnvironmentConfigView {
    pub name: Seq<char>,
    pub ignore_queue: bool,
    pub propagated_from: Option<Seq<char>>,
    pub propagated_files: Seq<Seq<char>>,
    pub head_files: Seq<Seq<char>>,
}

impl View for EnvironmentConfig {
    type V = EnvironmentConfigView;

    closed spec fn view(&self) -> EnvironmentConfigView {
        EnvironmentConfigView {
            name: self.name@,
            ignore_queue: self.ignore_queue,
            propagated_from: text_view(self.propagated_from),
            propagated_files: texts(self.propagated_files@),
            head_files: texts(self.head_files@),
        }
    }
}

impl EnvironmentConfig {
    /// An environment that inherits the files matching `propagated_files`
    /// from `propagated_from` and takes those matching `head_files` from the
    /// commit itself.
    pub fn new(
        name: String,
        ignore_queue: bool,
        propagated_from: Option<String>,
        propagated_files: Vec<String>,
        head_files: Vec<String>,
    ) -> (env: Self)
        ensures
            env@ == (EnvironmentConfigView {
                name: name@,
                ignore_queue,
                propagated_from: text_view(propagated_from),
                propagated_files: texts(propagated_files@),
                head_files: texts(head_files@),
            }),
    {
        EnvironmentConfig { name, ignore_queue, propagated_from, propagated_files, head_files }
    }

    /// The name of the environment.
    pub fn name(&self) -> (name: &String)
        ensures
            name@ == self@.name,
    {
        &self.name
    }

    /// Whether this environment jumps to the newest upstream state instead of
    /// following the upstream's history step by step.
    pub fn ignore_queue(&self) -> (ignore: bool)
        ensures
            ignore == self@.ignore_queue,
    {
        self.ignore_queue
    }

    /// The upstream environment, if there is one.
    pub fn propagated_from(&self) -> (upstream: Option<&String>)
        ensures
            match upstream {
                Some(u) => self@.propagated_from == Some(u@),
                None => self@.propagated_from.is_none(),
            },
    {
        self.propagated_from.as_ref()
    }

    /// The patterns of the files that are inherited from the upstream
    /// environment, or the first of them that is no valid glob.
    pub fn propagated_file_patterns(&self) -> (patterns: Result<PatternList, Error>)
        ensures
            match first_invalid(self@.propagated_files) {
                None => (patterns matches Ok(list) && list@ == self@.propagated_files),
                Some(bad) => (patterns matches Err(Error::InvalidPattern { pattern }) && pattern@
                    == bad),
            },
            patterns is Ok <==> all_compile(self@.propagated_files),
    {
        PatternList::compile(clone_strings(&self.propagated_files))
    }

    /// The patterns of the files that are taken from the commit itself, or
    /// the first of them that is no valid glob.
    pub fn head_file_patterns(&self) -> (patterns: Result<PatternList, Error>)
        ensures
            match first_invalid(self@.head_files) {
                None => (patterns matches Ok(list) && list@ == self@.head_files),
                Some(bad) => (patterns matches Err(Error::InvalidPattern { pattern }) && pattern@
                    == bad),
            },
            patterns is Ok <==> all_compile(self@.head_files),
    {
        PatternList::compile(clone_strings(&self.head_files))
    }

    /// The patterns of the inherited files, as they were written.
    pub fn propagated_files(&self) -> (sources: &Vec<String>)
        ensures
            texts(sources@) == self@.propagated_files,
    {
        &self.propagated_files
    }

    /// The patterns of the files from the commit, as they were written.
    pub fn head_files(&self) -> (sources: &Vec<String>)
        ensures
            texts(sources@) == self@.head_files,
    {
        &self.head_files
    }
}

/// The environments that come of putting the first `upto` of `entries` into
/// an empty map one after the other, each under its key and named by it.
pub open spec fn named_environments(entries: Seq<(String, EnvironmentConfig)>, upto: int) -> Map<
    Seq<char>,
    EnvironmentConfigView,
>
    decreases upto,
{
    if upto <= 0 {
        Map::empty()
    } else {
        let key = entries[upto - 1].0@;
        named_environments(entries, upto - 1).insert(
            key,
            EnvironmentConfigView { name: key, ..entries[upto - 1].1@ },
        )
    }
}

/// Whether every environment is named by its key and every upstream that an
/// environment names is itself an environment.
pub open spec fn environments_valid(environments: Map<Seq<char>, EnvironmentConfigView>) -> bool {
    forall|key: Seq<char>| #[trigger]
        environments.contains_key(key) ==> environments[key].name == key && (
        environments[key].propagated_from matches Some(upstream) ==> environments.contains_key(
            upstream,
        ))
}

/// Whether every upstream that an environment names is itself an environment.
pub open spec fn upstreams_defined(environments: Map<Seq<char>, EnvironmentConfigView>) -> bool {
    forall|key: Seq<char>| #[trigger]
        environments.contains_key(key) ==> (environments[key].propagated_from matches Some(
            upstream,
        ) ==> environments.contains_key(upstream))
}

/// Whether one of the environments names `upstream` as its upstream while
/// `upstream` is none of them.
pub open spec fn names_undefined_upstream(
    environments: Map<Seq<char>, EnvironmentConfigView>,
    upstream: Seq<char>,
) -> bool {
    &&& !environments.contains_key(upstream)
    &&& exists|key: Seq<char>| #[trigger]
        environments.contains_key(key) && environments[key].propagated_from == Some(upstream)
}

/// The views of the environments of a map.
pub open spec fn environment_views(environments: Map<Seq<char>, EnvironmentConfig>) -> Map<
    Seq<char>,
    EnvironmentConfigView,
> {
    Map::new(
        |key: Seq<char>| environments.contains_key(key),
        |key: Seq<char>| environments[key]@,
    )
}

/// A pipeline's configuration.
#[derive(Debug)]
pub struct Config {
    scope: String,
    environments: SortedMap<EnvironmentConfig>,
}

/// A [`Config`] as plain values.
pub struct ConfigView {
    pub scope: Seq<char>,
    pub environments: Map<Seq<char>, EnvironmentConfigView>,
}

impl View for Config {
    type V = ConfigView;

    closed spec fn view(&self) -> ConfigView {
        ConfigView {
            scope: self.scope@,
            environments: environment_views(self.environments.as_map()),
        }
    }
}

impl Config {
    #[verifier::type_invariant]
    spec fn upstreams_exist(&self) -> bool {
        environments_valid(environment_views(self.environments.as_map()))
    }

    /// The configuration of `scope` with the given environments, each named by
    /// the key it stands under. Fails where an environment names an upstream
    /// that is not among them.
    pub fn new(scope: String, environments: Vec<(String, EnvironmentConfig)>) -> (config: Result<
        Self,
        Error,
    >)
        ensures
            config is Ok <==> upstreams_defined(
                named_environments(environments@, environments@.len() as int),
            ),
            config matches Ok(c) ==> c@.scope == scope@ && c@.environments == named_environments(
                environments@,
                environments@.len() as int,
            ) && environments_valid(c@.environments),
            config matches Err(e) ==> (e matches Error::PreviousNotDefined { name }
                && names_undefined_upstream(
                named_environments(environments@, environments@.len() as int),
                name@,
            )),
    {
        let mut entries = environments;
        let ghost all = entries@;
        let mut map: SortedMap<EnvironmentConfig> = SortedMap::new();
        let ghost mut done: int = 0;
        assert(environment_views(map.as_map()) =~= named_environments(all, 0));
        while entries.len() > 0
            invariant
                0 <= done,
                done + entries@.len() == all.len(),
                entries@ == all.subrange(done, all.len() as int),
                map.ordered(),
                environment_views(map.as_map()) == named_environments(all, done),
                forall|key: Seq<char>| #[trigger]
                    map.as_map().contains_key(key) ==> map.as_map()[key]@.name == key,
            decreases entries@.len(),
        {
            let (key, env) = entries.remove(0);
            assert(all[done] == (key, env));
            let named = EnvironmentConfig {
                name: key.clone(),
                ignore_queue: env.ignore_queue,
                propagated_from: env.propagated_from,
                propagated_files: env.propagated_files,
                head_files: env.head_files,
            };
            let ghost before = map.as_map();
            map.insert(key, named);
            assert(entries@ =~= all.subrange(done + 1, all.len() as int));
            assert(environment_views(map.as_map()) =~= environment_views(before).insert(
                key@,
                named@,
            ));
            proof {
                done = done + 1;
            }
        }
        let ghost views = environment_views(map.as_map());
        let count = map.len();
        let mut at: usize = 0;
        while at < count
            invariant
                at <= count,
                count == map.keys().len(),
                map.ordered(),
                views == environment_views(map.as_map()),
                views == named_environments(environments@, environments@.len() as int),
                forall|j: int|
                    0 <= j < at ==> ((#[trigger] map.values()[j])@.propagated_from matches Some(
                        upstream,
                    ) ==> map.as_map().contains_key(upstream)),
            decreases count - at,
        {
            proof {
                lemma_map_of_sorted(map.keys(), map.values());
            }
            let env = map.value_at(at);
            match &env.propagated_from {
                Some(previous) => {
                    if !map.contains_key(previous.as_str()) {
                        assert(views.contains_key(map.keys()[at as int]));
                        assert(views[map.keys()[at as int]] == env@);
                        assert(names_undefined_upstream(views, previous@));
                        return Err(Error::PreviousNotDefined { name: previous.clone() });
                    }
                },
                None => {},
            }
            at += 1;
        }
        proof {
            lemma_map_of_sorted(map.keys(), map.values());
            assert forall|key: Seq<char>| #[trigger] views.contains_key(key) implies views[key].name
                == key && (views[key].propagated_from matches Some(upstream)
                ==> views.contains_key(upstream)) by {
                let j = map.keys().index_of(key);
                assert(map.as_map()[map.keys()[j]] == map.values()[j]);
            }
        }
        Ok(Config { scope, environments: map })
    }

    /// Makes known what holds of every configuration.
    pub fn validity(&self)
        ensures
            environments_valid(self@.environments),
    {
        proof {
            use_type_invariant(self);
        }
    }

    /// The scope, which names the directory of the state files.
    pub fn scope(&self) -> (scope: &String)
        ensures
            scope@ == self@.scope,
    {
        &self.scope
    }

    /// The environment of the given name, if the configuration has one.
    pub fn environment(&self, name: &str) -> (env: Option<&EnvironmentConfig>)
        ensures
            environments_valid(self@.environments),
            match env {
                Some(e) => self@.environments.contains_key(name@) && self@.environments[name@]
                    == e@,
                None => !self@.environments.contains_key(name@),
            },
    {
        proof {
            use_type_invariant(self);
        }
        self.environments.get(name)
    }

    /// The environment of the given name. Fails where the configuration has
    /// none.
    pub fn find_environment(&self, name: &str) -> (env: Result<&EnvironmentConfig, Error>)
        ensures
            environments_valid(self@.environments),
            match env {
                Ok(e) => self@.environments.contains_key(name@) && self@.environments[name@]
                    == e@,
                Err(e) => !self@.environments.contains_key(name@) && (e
                    matches Error::EnvironmentNotFound { name: missing } && missing@ == name@),
            },
    {
        match self.environment(name) {
            Some(env) => Ok(env),
            None => Err(Error::EnvironmentNotFound { name: String::from_str(name) }),
        }
    }

    /// Number of environments.
    pub fn len(&self) -> (count: usize)
        ensures
            count == self@.environments.dom().len(),
    {
        let count = self.environments.len();
        proof {
            lemma_keys_count(self.environments.keys(), self.environments.values());
            assert(self@.environments.dom() =~= self.environments.as_map().dom());
        }
        count
    }

    /// The names of the environments, each once, every name before those
    /// that come after it in the order of texts.
    pub fn environment_names(&self) -> (names: Vec<String>)
        ensures
            texts(names@).to_set() == self@.environments.dom(),
            texts(names@).no_duplicates(),
            crate::sorted_map::sorted_keys(texts(names@)),
    {
        let count = self.environments.len();
        let mut names: Vec<String> = Vec::new();
        let mut at: usize = 0;
        while at < count
            invariant
                at <= count,
                count == self.environments.keys().len(),
                self.environments.ordered(),
                texts(names@) == self.environments.keys().take(at as int),
            decreases count - at,
        {
            let ghost before = texts(names@);
            let name = self.environments.key_at(at).clone();
            names.push(name);
            assert(texts(names@) =~= before.push(name@));
            assert(before.push(name@) =~= self.environments.keys().take(at + 1));
            at += 1;
        }
        proof {
            let keys = self.environments.keys();
            assert(keys.take(count as int) =~= keys);
            lemma_map_of_sorted(keys, self.environments.values());
            assert(keys.to_set() =~= self@.environments.dom());
            assert forall|i: int, j: int| 0 <= i < keys.len() && 0 <= j < keys.len() && i
                != j implies keys[i] != keys[j] by {
                if keys[i] == keys[j] {
                    crate::sorted_map::lemma_sorted_keys_distinct(keys, i, j);
                }
            }
        }
        names
    }
}

/// Sorted keys are as many as the entries of the map they stand for.
pub proof fn lemma_keys_count<V>(keys: Seq<Seq<char>>, values: Seq<V>)
    requires
        crate::sorted_map::sorted_keys(keys),
        keys.len() == values.len(),
    ensures
        crate::sorted_map::map_of(keys, values).dom().finite(),
        crate::sorted_map::map_of(keys, values).dom().len() == keys.len(),
{
    lemma_map_of_sorted(keys, values);
    assert forall|i: int, j: int| 0 <= i < keys.len() && 0 <= j < keys.len() && i
        != j implies keys[i] != keys[j] by {
        if keys[i] == keys[j] {
            crate::sorted_map::lemma_sorted_keys_distinct(keys, i, j);
        }
    }
    assert(keys.no_duplicates());
    keys.unique_seq_to_set();
    assert(keys.to_set() =~= crate::sorted_map::map_of(keys, values).dom());
}

/// The gates of a pipeline: for each environment the commit that it may not
/// advance past, or `HEAD`.
#[derive(Debug)]
pub struct GatesConfig {
    gates: SortedMap<String>,
}

/// The texts of the values of a map of strings.
pub open spec fn string_views(strings: Map<Seq<char>, String>) -> Map<Seq<char>, Seq<char>> {
    Map::new(|key: Seq<char>| strings.contains_key(key), |key: Seq<char>| strings[key]@)
}

impl View for GatesConfig {
    type V = Map<Seq<char>, Seq<char>>;

    closed spec fn view(&self) -> Map<Seq<char>, Seq<char>> {
        string_views(self.gates.as_map())
    }
}

impl GatesConfig {
    /// The gates with the given entries, environment and gate; of two entries
    /// for one environment the later stays.
    pub fn new(entries: Vec<(String, String)>) -> (gates: Self)
        ensures
            gates@ == string_views(
                crate::sorted_map::entries_map(entries@, entries@.len() as int),
            ),
    {
        GatesConfig { gates: SortedMap::from_entries(entries) }
    }

    /// What the gates say of `env`: `None` where the file says `HEAD`, the commit
    /// otherwise. Fails where the file has no entry for `env`.
    pub fn get_gate(self, env: &str) -> (gate: Result<Option<String>, Error>)
        ensures
            match gate {
                Ok(Some(commit)) => self@.contains_key(env@) && self@[env@] == commit@ && commit@
                    != head_gate(),
                Ok(None) => self@.contains_key(env@) && self@[env@] == head_gate(),
                Err(e) => e == Error::MissingGate && !self@.contains_key(env@),
            },
    {
        let mut gates = self.gates;
        match gates.remove(env) {
            None => Err(Error::MissingGate),
            Some(gate) => {
                if str_eq(gate.as_str(), "HEAD") {
                    Ok(None)
                } else {
                    Ok(Some(gate))
                }
            },
        }
    }
}

/// Where the repository of a pipeline lives and how to reach it.
#[derive(Debug)]
pub struct RepoConfig {
    pub uri: String,
    pub branch: String,
    pub private_key: String,
}

} // verus!
