use cepler::config::EnvironmentConfig;
use cepler::database::EnvironmentState;
use cepler::error::Error;
use cepler::repo::{CommitHash, FileHash};
use cepler::state::{DeployState, FileIdent, FileState};
use cepler::walk::AncestorWalk;
use cepler::workspace::{
    added_files, head_file_state, inherit, record_steps, DiskFile, HeadFile, RecordStep, StateId,
    Workspace,
};

const C1: &str = "1111111111111111111111111111111111111111";
const C2: &str = "2222222222222222222222222222222222222222";
const C3: &str = "3333333333333333333333333333333333333333";

fn commit(text: &str) -> CommitHash {
    CommitHash::new(text.to_string())
}

fn hash(text: &str) -> FileHash {
    FileHash::new(text.to_string())
}

fn head_file(path: &str, content: &str, from: &str) -> HeadFile {
    HeadFile {
        path: path.to_string(),
        file_hash: hash(content),
        from_commit: commit(from),
        message: format!("Change {}", path),
    }
}

fn disk_file(path: &str, content: &str) -> DiskFile {
    DiskFile {
        path: path.to_string(),
        file_hash: hash(content),
    }
}

fn testflight(pattern: &str) -> EnvironmentConfig {
    EnvironmentConfig::new(
        "testflight".to_string(),
        false,
        None,
        vec![],
        vec![pattern.to_string()],
    )
}

fn prod(ignore_queue: bool) -> EnvironmentConfig {
    EnvironmentConfig::new(
        "prod".to_string(),
        ignore_queue,
        Some("testflight".to_string()),
        vec!["a.yml".to_string()],
        vec![],
    )
}

fn workspace() -> Workspace {
    Workspace::new("default", "cepler.yml".to_string(), false, vec![])
}

fn assemble(
    ws: &Workspace,
    env: &EnvironmentConfig,
    at: &str,
    recording: bool,
    tree: &[HeadFile],
    disk: &[DiskFile],
) -> DeployState {
    let tree: Vec<HeadFile> = tree
        .iter()
        .map(|f| HeadFile {
            path: f.path.clone(),
            file_hash: f.file_hash.clone(),
            from_commit: f.from_commit.clone(),
            message: f.message.clone(),
        })
        .collect();
    let disk: Vec<DiskFile> = disk
        .iter()
        .map(|f| DiskFile {
            path: f.path.clone(),
            file_hash: f.file_hash.clone(),
        })
        .collect();
    ws.construct_state_for_commit(commit(at), env, ws.database(), recording, &tree, &disk)
        .unwrap()
}

fn record_clean(ws: &mut Workspace, env: &EnvironmentConfig, at: &str, tree: &[HeadFile]) -> StateId {
    let disk: Vec<DiskFile> = tree
        .iter()
        .map(|f| DiskFile {
            path: f.path.clone(),
            file_hash: f.file_hash.clone(),
        })
        .collect();
    let state = assemble(ws, env, at, true, tree, &disk);
    ws.record_env(env, state).unwrap().state_id
}

#[test]
fn check_on_an_empty_database_finds_the_file_added() {
    let ws = workspace();
    let env = testflight("file.yml");
    let tree = [head_file("file.yml", "h1", C1)];
    let state = assemble(&ws, &env, C1, false, &tree, &[]);
    let (id, diffs) = ws.check(&env, state).unwrap().unwrap();
    assert_eq!(
        id,
        StateId {
            head_commit: C1.to_string(),
            version: 1
        }
    );
    assert_eq!(diffs.len(), 1);
    assert_eq!(diffs[0].ident.name(), "file.yml");
    assert_eq!(diffs[0].ident.clone().inner(), "{latest}/file.yml");
    assert!(diffs[0].added);
    let shown = diffs[0].current_state.as_ref().unwrap();
    assert_eq!(shown.file_hash, Some(hash("h1")));
    assert!(!shown.dirty);
    assert_eq!(shown.from_commit, commit(C1));
    assert_eq!(shown.message, "Change file.yml");
}

#[test]
fn check_after_record_finds_nothing() {
    let mut ws = workspace();
    let env = testflight("file.yml");
    let tree = [head_file("file.yml", "h1", C1)];
    let id = record_clean(&mut ws, &env, C1, &tree);
    assert_eq!(
        id,
        StateId {
            head_commit: C1.to_string(),
            version: 1
        }
    );
    let state = assemble(&ws, &env, C1, false, &tree, &[]);
    assert_eq!(ws.check(&env, state), Ok(None));
}

#[test]
fn check_is_idempotent() {
    let mut ws = workspace();
    let env = testflight("*.yml");
    let tree = [head_file("a.yml", "h1", C1), head_file("b.yml", "h2", C1)];
    record_clean(&mut ws, &env, C1, &tree);
    for _ in 0..3 {
        let state = assemble(&ws, &env, C1, false, &tree, &[]);
        assert_eq!(ws.check(&env, state), Ok(None));
    }
}

#[test]
fn commit_that_touches_no_selected_file_changes_nothing() {
    let mut ws = workspace();
    let env = testflight("file.yml");
    let tree = [head_file("file.yml", "h1", C1)];
    record_clean(&mut ws, &env, C1, &tree);
    let later = [
        head_file("file.yml", "h1", C1),
        head_file("readme.md", "r1", C2),
        head_file("cepler.yml", "conf", C2),
    ];
    let state = assemble(&ws, &env, C2, false, &later, &[]);
    assert_eq!(ws.check(&env, state), Ok(None));
}

#[test]
fn changed_file_is_found_with_the_next_version() {
    let mut ws = workspace();
    let env = testflight("file.yml");
    record_clean(&mut ws, &env, C1, &[head_file("file.yml", "h1", C1)]);
    let state = assemble(&ws, &env, C2, false, &[head_file("file.yml", "h2", C2)], &[]);
    let (id, diffs) = ws.check(&env, state).unwrap().unwrap();
    assert_eq!(
        id,
        StateId {
            head_commit: C2.to_string(),
            version: 2
        }
    );
    assert_eq!(diffs.len(), 1);
    assert!(!diffs[0].added);
    assert_eq!(
        diffs[0].current_state.as_ref().unwrap().file_hash,
        Some(hash("h2"))
    );
}

#[test]
fn downstream_check_points_at_the_upstream_state() {
    let mut ws = workspace();
    record_clean(&mut ws, &testflight("a.yml"), C1, &[head_file("a.yml", "h1", C1)]);
    let env = prod(false);
    let state = assemble(&ws, &env, C1, false, &[head_file("a.yml", "h1", C1)], &[]);
    assert_eq!(state.propagated_head(), Some(&commit(C1)));
    assert_eq!(state.len(), 1);
    assert_eq!(state.ident_at(0), "{testflight}/a.yml");
    assert_eq!(state.file_at(0).file_hash, Some(hash("h1")));
    assert_eq!(state.file_at(0).from_commit, commit(C1));
    let (id, diffs) = ws.check(&env, state).unwrap().unwrap();
    assert_eq!(id.version, 1);
    assert_eq!(id.head_commit, C1);
    assert_eq!(diffs.len(), 1);
    assert!(diffs[0].added);
}

fn two_steps_ahead(ignore_queue: bool) -> (Workspace, EnvironmentConfig) {
    let mut ws = workspace();
    let upstream = testflight("a.yml");
    let env = prod(ignore_queue);
    record_clean(&mut ws, &upstream, C1, &[head_file("a.yml", "h1", C1)]);
    let state = assemble(&ws, &env, C1, true, &[], &[disk_file("a.yml", "h1")]);
    ws.record_env(&env, state).unwrap();
    record_clean(&mut ws, &upstream, C2, &[head_file("a.yml", "h2", C2)]);
    record_clean(&mut ws, &upstream, C3, &[head_file("a.yml", "h3", C3)]);
    (ws, env)
}

#[test]
fn downstream_advances_one_upstream_step_at_a_time() {
    let (ws, env) = two_steps_ahead(false);
    let state = assemble(&ws, &env, C3, false, &[], &[]);
    assert_eq!(state.propagated_head(), Some(&commit(C2)));
    assert_eq!(state.file_at(0).file_hash, Some(hash("h2")));
    assert_eq!(state.file_at(0).from_commit, commit(C2));
    let (id, diffs) = ws.check(&env, state).unwrap().unwrap();
    assert_eq!(id.version, 2);
    assert_eq!(diffs.len(), 1);
    assert!(!diffs[0].added);
}

#[test]
fn downstream_that_ignores_the_queue_jumps_to_the_newest_state() {
    let (ws, env) = two_steps_ahead(true);
    let state = assemble(&ws, &env, C3, false, &[], &[]);
    assert_eq!(state.propagated_head(), Some(&commit(C3)));
    assert_eq!(state.file_at(0).file_hash, Some(hash("h3")));
}

#[test]
fn repeated_downstream_check_gives_the_same_finding() {
    let (ws, env) = two_steps_ahead(false);
    let first = ws.check(&env, assemble(&ws, &env, C3, false, &[], &[]));
    let second = ws.check(&env, assemble(&ws, &env, C3, false, &[], &[]));
    assert_eq!(first, second);
    assert!(first.unwrap().is_some());
}

#[test]
fn downstream_catches_up_step_by_step() {
    let (mut ws, env) = two_steps_ahead(false);
    let state = assemble(&ws, &env, C3, true, &[], &[disk_file("a.yml", "h2")]);
    let recording = ws.record_env(&env, state).unwrap();
    assert_eq!(recording.state_id.version, 2);
    let next = assemble(&ws, &env, C3, false, &[], &[]);
    assert_eq!(next.propagated_head(), Some(&commit(C3)));
    assert!(ws.check(&env, next).unwrap().is_some());
    let state = assemble(&ws, &env, C3, true, &[], &[disk_file("a.yml", "h3")]);
    ws.record_env(&env, state).unwrap();
    let done = assemble(&ws, &env, C3, false, &[], &[]);
    assert_eq!(ws.check(&env, done), Ok(None));
}

#[test]
fn check_fails_when_the_upstream_was_never_recorded() {
    let ws = workspace();
    let env = prod(false);
    let state = assemble(&ws, &env, C1, false, &[], &[]);
    assert_eq!(state.propagated_head(), None);
    assert_eq!(
        ws.check(&env, state),
        Err(Error::PreviousNotDeployed {
            name: "testflight".to_string()
        })
    );
    assert_eq!(
        ws.ensure_upstream_deployed(&env),
        Err(Error::PreviousNotDeployed {
            name: "testflight".to_string()
        })
    );
    assert_eq!(ws.ensure_upstream_deployed(&testflight("a.yml")), Ok(()));
    assert_eq!(
        Error::PreviousNotDeployed {
            name: "testflight".to_string()
        }
        .message(),
        "Previous environment 'testflight' not deployed yet"
    );
}

#[test]
fn check_fails_when_the_version_no_longer_fits() {
    let mut current = DeployState::new(commit(C1));
    current.insert_file(
        FileIdent::new("file.yml".to_string(), None),
        FileState {
            file_hash: Some(hash("h1")),
            dirty: false,
            from_commit: commit(C1),
            message: "m".to_string(),
        },
    );
    let ws = Workspace::new(
        "default",
        "cepler.yml".to_string(),
        false,
        vec![(
            "testflight".to_string(),
            EnvironmentState::new(u32::MAX, current, None, vec![]),
        )],
    );
    let env = testflight("file.yml");
    let same = assemble(&ws, &env, C1, false, &[head_file("file.yml", "h1", C1)], &[]);
    assert_eq!(ws.check(&env, same), Ok(None));
    let changed = assemble(&ws, &env, C2, false, &[head_file("file.yml", "h2", C2)], &[]);
    assert_eq!(ws.check(&env, changed), Err(Error::VersionOverflow));
    assert_eq!(Error::VersionOverflow.message(), "Version counter exhausted");
}

#[test]
fn recording_takes_the_hash_from_disk_and_marks_dirty_files() {
    let ws = workspace();
    let env = testflight("*.yml");
    let tree = [
        head_file("clean.yml", "c", C1),
        head_file("edited.yml", "committed", C1),
        head_file("missing.yml", "m", C1),
    ];
    let disk = [disk_file("clean.yml", "c"), disk_file("edited.yml", "on disk")];
    let state = assemble(&ws, &env, C1, true, &tree, &disk);
    assert!(state.any_dirty());
    let clean = state.get("{latest}/clean.yml").unwrap();
    assert_eq!(clean.file_hash, Some(hash("c")));
    assert!(!clean.dirty);
    let edited = state.get("{latest}/edited.yml").unwrap();
    assert_eq!(edited.file_hash, Some(hash("on disk")));
    assert!(edited.dirty);
    let missing = state.get("{latest}/missing.yml").unwrap();
    assert_eq!(missing.file_hash, None);
    assert!(missing.dirty);
}

#[test]
fn check_never_reads_the_disk() {
    let ws = workspace();
    let env = testflight("*.yml");
    let tree = [head_file("edited.yml", "committed", C1)];
    let disk = [disk_file("edited.yml", "on disk")];
    let state = assemble(&ws, &env, C1, false, &tree, &disk);
    assert!(!state.any_dirty());
    assert_eq!(state.file_at(0).file_hash, Some(hash("committed")));
}

#[test]
fn dirty_recording_is_found_again_by_the_next_check() {
    let mut ws = workspace();
    let env = testflight("a.yml");
    let tree = [head_file("a.yml", "committed", C1)];
    let state = assemble(&ws, &env, C1, true, &tree, &[disk_file("a.yml", "on disk")]);
    let recording = ws.record_env(&env, state).unwrap();
    assert_eq!(recording.diffs.len(), 1);
    assert!(recording.diffs[0].added);
    let again = assemble(&ws, &env, C1, false, &tree, &[]);
    let (id, diffs) = ws.check(&env, again).unwrap().unwrap();
    assert_eq!(id.version, 2);
    assert_eq!(diffs.len(), 1);
    assert!(!diffs[0].added);
}

#[test]
fn inherited_file_is_dirty_when_the_disk_differs_while_recording() {
    let mut ws = workspace();
    record_clean(&mut ws, &testflight("a.yml"), C1, &[head_file("a.yml", "h1", C1)]);
    let env = prod(false);
    let same = assemble(&ws, &env, C1, true, &[], &[disk_file("a.yml", "h1")]);
    assert!(!same.any_dirty());
    assert_eq!(same.file_at(0).file_hash, Some(hash("h1")));
    let edited = assemble(&ws, &env, C1, true, &[], &[disk_file("a.yml", "other")]);
    assert!(edited.file_at(0).dirty);
    assert_eq!(edited.file_at(0).file_hash, Some(hash("other")));
    assert_eq!(edited.file_at(0).from_commit, commit(C1));
    let missing = assemble(&ws, &env, C1, true, &[], &[]);
    assert!(missing.file_at(0).dirty);
    assert_eq!(missing.file_at(0).file_hash, None);
}

#[test]
fn own_files_of_the_engine_are_never_part_of_a_state() {
    let ws = Workspace::new("default", "conf/cepler.yml".to_string(), false, vec![]);
    let env = EnvironmentConfig::new(
        "testflight".to_string(),
        false,
        None,
        vec![],
        vec!["conf/*".to_string(), "conf/.cepler/default/*".to_string()],
    );
    let tree = [
        head_file("conf/cepler.yml", "c", C1),
        head_file("conf/values.yml", "v", C1),
        head_file("conf/.cepler/default/testflight.state", "s", C1),
    ];
    let state = assemble(&ws, &env, C1, false, &tree, &[]);
    assert_eq!(ws.ls(&state), vec!["conf/values.yml".to_string()]);
}

#[test]
fn head_file_replaces_an_inherited_file_under_the_same_identifier() {
    let mut ws = workspace();
    let upstream = EnvironmentConfig::new(
        "latest".to_string(),
        false,
        None,
        vec![],
        vec!["a.yml".to_string()],
    );
    record_clean(&mut ws, &upstream, C1, &[head_file("a.yml", "old", C1)]);
    let env = EnvironmentConfig::new(
        "prod".to_string(),
        false,
        Some("latest".to_string()),
        vec!["a.yml".to_string()],
        vec!["a.yml".to_string()],
    );
    let state = assemble(&ws, &env, C2, false, &[head_file("a.yml", "new", C2)], &[]);
    assert_eq!(state.len(), 1);
    assert_eq!(state.ident_at(0), "{latest}/a.yml");
    assert_eq!(state.file_at(0).file_hash, Some(hash("new")));
    assert_eq!(state.propagated_head(), Some(&commit(C1)));
}

#[test]
fn listing_gives_the_paths_sorted() {
    let mut ws = workspace();
    record_clean(&mut ws, &testflight("a.yml"), C1, &[head_file("a.yml", "h1", C1)]);
    let env = EnvironmentConfig::new(
        "prod".to_string(),
        false,
        Some("testflight".to_string()),
        vec!["a.yml".to_string()],
        vec!["z.yml".to_string(), "b.yml".to_string()],
    );
    let tree = [head_file("z.yml", "z", C1), head_file("b.yml", "b", C1)];
    let state = assemble(&ws, &env, C1, false, &tree, &[]);
    assert_eq!(
        ws.ls(&state),
        vec!["a.yml".to_string(), "b.yml".to_string(), "z.yml".to_string()]
    );
}

#[test]
fn listing_names_a_path_once_for_each_file_that_has_it() {
    let ws = workspace();
    let mut state = DeployState::new(commit(C1));
    for (name, source) in [
        ("b.yml", None),
        ("a.yml", Some("zeta")),
        ("a.yml", None),
        ("B.yml", Some("alpha")),
    ] {
        state.insert_file(
            FileIdent::new(name.to_string(), source),
            FileState {
                file_hash: Some(hash("h")),
                dirty: false,
                from_commit: commit(C1),
                message: "m".to_string(),
            },
        );
    }
    assert_eq!(
        ws.ls(&state),
        vec![
            "B.yml".to_string(),
            "a.yml".to_string(),
            "a.yml".to_string(),
            "b.yml".to_string()
        ]
    );
    assert!(ws.ls(&DeployState::new(commit(C1))).is_empty());
}

#[test]
fn invalid_pattern_fails_the_assembly() {
    let ws = workspace();
    let env = testflight("a**b");
    let outcome = ws.construct_state_for_commit(
        commit(C1),
        &env,
        ws.database(),
        false,
        &vec![],
        &vec![],
    );
    match outcome {
        Err(Error::InvalidPattern { pattern }) => assert_eq!(pattern, "a**b"),
        other => panic!("unexpected outcome: {:?}", other),
    }
    let odd = Workspace::new("default", "conf[.yml".to_string(), false, vec![]);
    let outcome = odd.construct_state_for_commit(
        commit(C1),
        &testflight("a.yml"),
        odd.database(),
        false,
        &vec![],
        &vec![],
    );
    match outcome {
        Err(Error::InvalidPattern { pattern }) => assert_eq!(pattern, "conf[.yml"),
        other => panic!("unexpected outcome: {:?}", other),
    }
    assert!(odd.ignore_list().is_err());
}

#[test]
fn ignore_list_names_the_engine_and_git_files() {
    let ws = Workspace::new("blue", "deploy/cepler.yml".to_string(), true, vec![]);
    let ignored = ws.ignore_list().unwrap();
    assert_eq!(ignored.len(), 4);
    assert_eq!(ignored.source_at(0), "deploy/cepler.yml");
    assert_eq!(ignored.source_at(1), "deploy/.cepler/blue/*");
    assert_eq!(ignored.source_at(2), ".git/*");
    assert_eq!(ignored.source_at(3), ".gitignore");
    assert_eq!(ws.scope(), "blue");
    assert_eq!(ws.path_to_config(), "deploy/cepler.yml");
    assert!(ws.ignore_queue());
    assert!(ws.database().ignore_queue());
}

#[test]
fn record_gives_the_state_file_and_the_difference() {
    let mut ws = workspace();
    let env = testflight("*.yml");
    let first = assemble(
        &ws,
        &env,
        C1,
        true,
        &[head_file("a.yml", "a1", C1), head_file("b.yml", "b1", C1)],
        &[disk_file("a.yml", "a1"), disk_file("b.yml", "b1")],
    );
    let recording = ws.record_env(&env, first).unwrap();
    assert_eq!(recording.state_file, ".cepler/default/testflight.state");
    assert_eq!(
        recording.state_id,
        StateId {
            head_commit: C1.to_string(),
            version: 1
        }
    );
    assert_eq!(recording.diffs.len(), 2);
    assert!(recording.diffs.iter().all(|d| d.added));
    let second = assemble(
        &ws,
        &env,
        C2,
        true,
        &[head_file("a.yml", "a2", C2), head_file("c.yml", "c1", C2)],
        &[disk_file("a.yml", "a2"), disk_file("c.yml", "c1")],
    );
    let recording = ws.record_env(&env, second).unwrap();
    assert_eq!(recording.state_id.version, 2);
    let names: Vec<String> = recording.diffs.iter().map(|d| d.ident.name()).collect();
    assert_eq!(names, vec!["a.yml", "c.yml", "b.yml"]);
    let added: Vec<bool> = recording.diffs.iter().map(|d| d.added).collect();
    assert_eq!(added, vec![false, true, false]);
    assert!(recording.diffs[2].current_state.is_none());
    let (version, current) = ws.database().get_current_state("testflight").unwrap();
    assert_eq!(version, 2);
    assert_eq!(current.head_commit(), &commit(C2));
    assert_eq!(current.len(), 2);
}

#[test]
fn record_sets_the_upstream_of_the_environment() {
    let mut ws = workspace();
    record_clean(&mut ws, &testflight("a.yml"), C1, &[head_file("a.yml", "h1", C1)]);
    let env = prod(false);
    let state = assemble(&ws, &env, C1, true, &[], &[disk_file("a.yml", "h1")]);
    ws.record_env(&env, state).unwrap();
    let recorded = ws.database().environment("prod").unwrap();
    assert_eq!(recorded.propagated_from(), Some(&"testflight".to_string()));
    assert_eq!(recorded.current().propagated_head(), Some(&commit(C1)));
}

#[test]
fn steps_after_a_recording_come_in_their_order() {
    assert_eq!(
        record_steps(true, true, true),
        vec![
            RecordStep::CommitStateFile,
            RecordStep::CheckoutHead,
            RecordStep::Push
        ]
    );
    assert_eq!(record_steps(false, true, false), vec![RecordStep::CheckoutHead]);
    assert_eq!(
        record_steps(true, false, true),
        vec![RecordStep::CommitStateFile, RecordStep::Push]
    );
    assert!(record_steps(false, false, false).is_empty());
}

#[test]
fn reproduce_restores_every_recorded_file_from_its_commit() {
    let mut ws = workspace();
    let env = testflight("*.yml");
    record_clean(
        &mut ws,
        &env,
        C2,
        &[head_file("b.yml", "b", C2), head_file("a.yml", "a", C1)],
    );
    let (id, checkouts) = ws.reproduce(&env).unwrap();
    assert_eq!(
        id,
        StateId {
            head_commit: C2.to_string(),
            version: 1
        }
    );
    let restored: Vec<(String, CommitHash)> = checkouts
        .into_iter()
        .map(|c| (c.path, c.commit))
        .collect();
    assert_eq!(
        restored,
        vec![
            ("a.yml".to_string(), commit(C1)),
            ("b.yml".to_string(), commit(C2))
        ]
    );
}

#[test]
fn reproduce_fails_without_a_recorded_state() {
    let ws = workspace();
    match ws.reproduce(&testflight("a.yml")) {
        Err(Error::NoStateRecorded { name }) => assert_eq!(name, "testflight"),
        other => panic!("unexpected outcome: {:?}", other.map(|(id, _)| id)),
    }
    assert_eq!(
        Error::NoStateRecorded {
            name: "testflight".to_string()
        }
        .message(),
        "No state recorded for testflight"
    );
}

#[test]
fn prepare_removes_inherited_files_and_restores_them_from_upstream() {
    let mut ws = workspace();
    let upstream = testflight("*.yml");
    record_clean(
        &mut ws,
        &upstream,
        C2,
        &[head_file("a.yml", "a", C1), head_file("shared.yml", "s", C2)],
    );
    let env = EnvironmentConfig::new(
        "prod".to_string(),
        false,
        Some("testflight".to_string()),
        vec!["*.yml".to_string()],
        vec!["shared.yml".to_string()],
    );
    let on_disk = vec![
        "a.yml".to_string(),
        "stale.yml".to_string(),
        "shared.yml".to_string(),
        "cepler.yml".to_string(),
        "notes.txt".to_string(),
    ];
    let plan = ws.prepare(&env, &on_disk).unwrap();
    assert_eq!(plan.remove, vec!["a.yml".to_string(), "stale.yml".to_string()]);
    let restored: Vec<(String, CommitHash)> = plan
        .checkouts
        .into_iter()
        .map(|c| (c.path, c.commit))
        .collect();
    assert_eq!(restored, vec![("a.yml".to_string(), commit(C1))]);
}

#[test]
fn prepare_without_upstream_restores_nothing() {
    let ws = workspace();
    let plan = ws
        .prepare(&testflight("a.yml"), &vec!["a.yml".to_string()])
        .unwrap();
    assert!(plan.remove.is_empty());
    assert!(plan.checkouts.is_empty());
    let plan = ws.prepare(&prod(false), &vec!["a.yml".to_string()]).unwrap();
    assert_eq!(plan.remove, vec!["a.yml".to_string()]);
    assert!(plan.checkouts.is_empty());
}

#[test]
fn candidate_is_kept_only_when_it_does_not_differ() {
    let ws = workspace();
    let env = testflight("*.yml");
    let best = assemble(&ws, &env, C2, false, &[head_file("a.yml", "h", C1)], &[]);
    let same = assemble(&ws, &env, C1, false, &[head_file("a.yml", "h", C1)], &[]);
    let kept = ws.get_state_if_equivalent(&env, &best, same).unwrap();
    assert_eq!(kept.head_commit(), &commit(C1));
    let other = assemble(&ws, &env, C1, false, &[head_file("a.yml", "older", C1)], &[]);
    assert!(ws.get_state_if_equivalent(&env, &best, other).is_none());
    let fewer = assemble(&ws, &env, C1, false, &[], &[]);
    assert!(ws.get_state_if_equivalent(&env, &best, fewer).is_none());
}

#[test]
fn candidate_with_an_unknown_upstream_is_not_kept() {
    let ws = workspace();
    let now = testflight("*.yml");
    let best = assemble(&ws, &now, C2, false, &[], &[]);
    let once = EnvironmentConfig::new(
        "testflight".to_string(),
        false,
        Some("gone".to_string()),
        vec![],
        vec!["*.yml".to_string()],
    );
    let same = assemble(&ws, &once, C1, false, &[], &[]);
    assert!(best.diff(&same).is_empty());
    assert!(ws.get_state_if_equivalent(&once, &best, same).is_none());
}

#[test]
fn record_fails_when_the_upstream_was_never_recorded() {
    let mut ws = workspace();
    let env = prod(false);
    let state = assemble(&ws, &env, C1, true, &[], &[]);
    match ws.record_env(&env, state) {
        Err(Error::PreviousNotDeployed { name }) => assert_eq!(name, "testflight"),
        other => panic!("unexpected outcome: {:?}", other.map(|r| r.state_id)),
    }
    assert!(ws.database().get_current_state("prod").is_none());
    assert_eq!(ws.database().environment_count(), 0);
}

#[test]
fn record_fails_when_the_version_no_longer_fits() {
    let mut ws = Workspace::new(
        "default",
        "cepler.yml".to_string(),
        false,
        vec![(
            "testflight".to_string(),
            EnvironmentState::new(u32::MAX, DeployState::new(commit(C1)), None, vec![]),
        )],
    );
    let env = testflight("a.yml");
    let state = assemble(&ws, &env, C2, true, &[], &[]);
    match ws.record_env(&env, state) {
        Err(Error::VersionOverflow) => {}
        other => panic!("unexpected outcome: {:?}", other.map(|r| r.state_id)),
    }
    let (version, current) = ws.database().get_current_state("testflight").unwrap();
    assert_eq!(version, u32::MAX);
    assert_eq!(current.head_commit(), &commit(C1));
}

#[test]
fn every_file_of_a_state_is_added_against_nothing() {
    let ws = workspace();
    let env = testflight("*.yml");
    let state = assemble(
        &ws,
        &env,
        C1,
        true,
        &[head_file("a.yml", "a", C1), head_file("gone.yml", "g", C1)],
        &[disk_file("a.yml", "a")],
    );
    let diffs = added_files(&state);
    assert_eq!(diffs.len(), 2);
    assert!(diffs.iter().all(|d| d.added && d.current_state.is_some()));
    assert_eq!(diffs[1].current_state.as_ref().unwrap().file_hash, None);
}

#[test]
fn head_commit_is_dated_back_to_the_oldest_equivalent_ancestor() {
    let ws = workspace();
    let env = testflight("file.yml");
    // Newest first: the file changed last in the third commit from the top.
    let history: [(&str, &str, Option<&str>); 4] = [
        ("d4", "h2", Some("c3")),
        ("c3", "h2", Some("b2")),
        ("b2", "h2", Some("a1")),
        ("a1", "h1", None),
    ];
    let tree_at = |name: &str| -> Vec<HeadFile> {
        let (_, content, _) = history.iter().find(|(n, _, _)| *n == name).unwrap();
        let from = if *content == "h2" { "b2" } else { "a1" };
        vec![head_file("file.yml", content, from)]
    };
    let parents_of = |name: &str| -> Vec<CommitHash> {
        history
            .iter()
            .find(|(n, _, _)| *n == name)
            .and_then(|(_, _, parent)| *parent)
            .map(|p| vec![commit(p)])
            .unwrap_or_default()
    };
    let gate = "c3";
    let mut best = assemble(&ws, &env, gate, false, &tree_at(gate), &[]);
    let mut walk = AncestorWalk::start(&commit(gate), &parents_of(gate));
    while let Some(candidate) = walk.next() {
        let name = candidate.clone().inner();
        let state = assemble(&ws, &env, &name, false, &tree_at(&name), &[]);
        match ws.get_state_if_equivalent(&env, &best, state) {
            Some(older) => best = older,
            None => break,
        }
        walk.expand(&parents_of(&name));
    }
    assert_eq!(best.head_commit(), &commit("b2"));
    assert_eq!(best.file_at(0).file_hash, Some(hash("h2")));
    assert_eq!(best.file_at(0).from_commit, commit("b2"));
}

fn upstream_without_hash() -> (Workspace, EnvironmentConfig) {
    let mut absent = DeployState::new(commit(C1));
    absent.insert_file(
        FileIdent::new("a.yml".to_string(), None),
        FileState {
            file_hash: None,
            dirty: true,
            from_commit: commit(C1),
            message: "Change a.yml".to_string(),
        },
    );
    let ws = Workspace::new(
        "default",
        "cepler.yml".to_string(),
        false,
        vec![(
            "testflight".to_string(),
            EnvironmentState::new(1, absent, None, vec![]),
        )],
    );
    (ws, prod(false))
}

#[test]
fn upstream_file_without_hash_is_inherited_as_it_is() {
    let (ws, env) = upstream_without_hash();
    let state = assemble(&ws, &env, C1, false, &[], &[]);
    assert_eq!(state.len(), 1);
    assert_eq!(state.ident_at(0), "{testflight}/a.yml");
    assert_eq!(state.file_at(0).file_hash, None);
    assert!(!state.file_at(0).dirty);
    assert_eq!(state.file_at(0).from_commit, commit(C1));
    assert_eq!(state.file_at(0).message, "Change a.yml");
    assert_eq!(state.propagated_head(), Some(&commit(C1)));
}

#[test]
fn upstream_file_without_hash_takes_the_hash_on_disk_while_recording() {
    let (ws, env) = upstream_without_hash();
    let found = assemble(&ws, &env, C1, true, &[], &[disk_file("a.yml", "h")]);
    assert_eq!(found.file_at(0).file_hash, Some(hash("h")));
    assert!(found.file_at(0).dirty);
    let missing = assemble(&ws, &env, C1, true, &[], &[]);
    assert_eq!(missing.len(), 1);
    assert_eq!(missing.file_at(0).file_hash, None);
    assert!(!missing.file_at(0).dirty);
}

#[test]
fn inherited_state_follows_the_disk_only_while_recording() {
    let prev = FileState {
        file_hash: Some(hash("up")),
        dirty: true,
        from_commit: commit(C1),
        message: "m".to_string(),
    };
    let same = hash("up");
    let other = hash("other");
    let copied = inherit(&prev, false, Some(&other));
    assert_eq!(copied.file_hash, Some(hash("up")));
    assert!(!copied.dirty);
    assert_eq!(copied.from_commit, commit(C1));
    assert_eq!(copied.message, "m");
    let clean = inherit(&prev, true, Some(&same));
    assert_eq!(clean.file_hash, Some(hash("up")));
    assert!(!clean.dirty);
    let edited = inherit(&prev, true, Some(&other));
    assert_eq!(edited.file_hash, Some(hash("other")));
    assert!(edited.dirty);
    let gone = inherit(&prev, true, None);
    assert_eq!(gone.file_hash, None);
    assert!(gone.dirty);
}

#[test]
fn head_file_state_follows_the_disk_only_while_recording() {
    let file = head_file("a.yml", "committed", C2);
    let same = hash("committed");
    let other = hash("other");
    let checked = head_file_state(&file, false, Some(&other));
    assert_eq!(checked.file_hash, Some(hash("committed")));
    assert!(!checked.dirty);
    assert_eq!(checked.from_commit, commit(C2));
    assert_eq!(checked.message, "Change a.yml");
    let clean = head_file_state(&file, true, Some(&same));
    assert_eq!(clean.file_hash, Some(hash("committed")));
    assert!(!clean.dirty);
    let edited = head_file_state(&file, true, Some(&other));
    assert_eq!(edited.file_hash, Some(hash("other")));
    assert!(edited.dirty);
    let gone = head_file_state(&file, true, None);
    assert_eq!(gone.file_hash, None);
    assert!(gone.dirty);
}

#[test]
fn prepare_restores_an_upstream_file_without_hash_too() {
    let (ws, env) = upstream_without_hash();
    let plan = ws.prepare(&env, &vec![]).unwrap();
    assert_eq!(plan.checkouts.len(), 1);
    assert_eq!(plan.checkouts[0].path, "a.yml");
    assert_eq!(plan.checkouts[0].commit, commit(C1));
}
