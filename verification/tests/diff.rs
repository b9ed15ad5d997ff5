use cepler::diff::FileDiff;
use cepler::repo::{CommitHash, FileHash};
use cepler::state::{DeployState, FileIdent, FileState};

fn commit(text: &str) -> CommitHash {
    CommitHash::new(text.to_string())
}

fn file(hash: Option<&str>, dirty: bool) -> FileState {
    FileState {
        file_hash: hash.map(|h| FileHash::new(h.to_string())),
        dirty,
        from_commit: commit("c0ffee0000000000000000000000000000000000"),
        message: "a change".to_string(),
    }
}

fn state(head: &str, files: Vec<(&str, FileState)>) -> DeployState {
    let mut state = DeployState::new(commit(head));
    for (name, file) in files {
        state.insert_file(FileIdent::new(name.to_string(), None), file);
    }
    state
}

fn ident(name: &str) -> FileIdent {
    FileIdent::new(name.to_string(), None)
}

#[test]
fn equal_clean_states_do_not_differ() {
    let mine = state("c1", vec![("a.yml", file(Some("h1"), false)), ("b.yml", file(Some("h2"), false))]);
    let theirs = state("c0", vec![("b.yml", file(Some("h2"), false)), ("a.yml", file(Some("h1"), false))]);
    assert!(mine.diff(&theirs).is_empty());
    assert!(theirs.diff(&mine).is_empty());
}

#[test]
fn empty_states_do_not_differ() {
    assert!(state("c1", vec![]).diff(&state("c2", vec![])).is_empty());
}

#[test]
fn file_only_in_the_new_state_is_added() {
    let mine = state("c1", vec![("a.yml", file(Some("h1"), false))]);
    let theirs = state("c0", vec![]);
    assert_eq!(
        mine.diff(&theirs),
        vec![FileDiff {
            ident: ident("a.yml"),
            current_state: Some(file(Some("h1"), false)),
            added: true,
        }]
    );
}

#[test]
fn file_without_hash_only_in_the_new_state_is_no_difference() {
    let mine = state("c1", vec![("a.yml", file(None, true))]);
    let theirs = state("c0", vec![]);
    assert!(mine.diff(&theirs).is_empty());
    let mixed = state(
        "c1",
        vec![("a.yml", file(None, true)), ("b.yml", file(Some("h"), false))],
    );
    let diffs = mixed.diff(&theirs);
    assert_eq!(diffs.len(), 1);
    assert_eq!(diffs[0].ident, ident("b.yml"));
    assert!(diffs[0].added);
}

#[test]
fn file_with_another_hash_is_changed() {
    let mine = state("c1", vec![("a.yml", file(Some("h2"), false))]);
    let theirs = state("c0", vec![("a.yml", file(Some("h1"), false))]);
    assert_eq!(
        mine.diff(&theirs),
        vec![FileDiff {
            ident: ident("a.yml"),
            current_state: Some(file(Some("h2"), false)),
            added: false,
        }]
    );
}

#[test]
fn dirty_file_is_changed_whichever_side_is_dirty() {
    let clean = state("c1", vec![("a.yml", file(Some("h1"), false))]);
    let dirty = state("c0", vec![("a.yml", file(Some("h1"), true))]);
    assert_eq!(
        clean.diff(&dirty),
        vec![FileDiff {
            ident: ident("a.yml"),
            current_state: Some(file(Some("h1"), false)),
            added: false,
        }]
    );
    assert_eq!(
        dirty.diff(&clean),
        vec![FileDiff {
            ident: ident("a.yml"),
            current_state: Some(file(Some("h1"), true)),
            added: false,
        }]
    );
    assert_eq!(dirty.diff(&dirty).len(), 1);
}

#[test]
fn file_only_in_the_old_state_is_removed() {
    let mine = state("c1", vec![]);
    let theirs = state("c0", vec![("a.yml", file(Some("h1"), false))]);
    assert_eq!(
        mine.diff(&theirs),
        vec![FileDiff {
            ident: ident("a.yml"),
            current_state: None,
            added: false,
        }]
    );
}

#[test]
fn files_without_hash_on_both_sides_are_no_difference() {
    let mine = state("c1", vec![("a.yml", file(None, true))]);
    let theirs = state("c0", vec![("a.yml", file(None, true))]);
    assert!(mine.diff(&theirs).is_empty());
}

#[test]
fn file_that_lost_or_gained_its_hash_is_changed() {
    let with = state("c1", vec![("a.yml", file(Some("h1"), false))]);
    let without = state("c0", vec![("a.yml", file(None, false))]);
    assert_eq!(
        with.diff(&without),
        vec![FileDiff {
            ident: ident("a.yml"),
            current_state: Some(file(Some("h1"), false)),
            added: false,
        }]
    );
    assert_eq!(
        without.diff(&with),
        vec![FileDiff {
            ident: ident("a.yml"),
            current_state: Some(file(None, false)),
            added: false,
        }]
    );
}

#[test]
fn differences_come_in_order_with_removals_last() {
    let mine = state(
        "c1",
        vec![
            ("z.yml", file(Some("new"), false)),
            ("m.yml", file(Some("same"), false)),
            ("b.yml", file(Some("changed"), false)),
        ],
    );
    let theirs = state(
        "c0",
        vec![
            ("y.yml", file(Some("gone"), false)),
            ("m.yml", file(Some("same"), false)),
            ("b.yml", file(Some("old"), false)),
            ("a.yml", file(Some("gone too"), false)),
        ],
    );
    let diffs = mine.diff(&theirs);
    let names: Vec<String> = diffs.iter().map(|d| d.ident.name()).collect();
    assert_eq!(names, vec!["b.yml", "z.yml", "a.yml", "y.yml"]);
    let added: Vec<bool> = diffs.iter().map(|d| d.added).collect();
    assert_eq!(added, vec![false, true, false, false]);
    let shown: Vec<bool> = diffs.iter().map(|d| d.current_state.is_some()).collect();
    assert_eq!(shown, vec![true, true, false, false]);
}

#[test]
fn difference_ignores_the_commits() {
    let mut mine = state("c1", vec![("a.yml", file(Some("h1"), false))]);
    mine.set_propagated_head(Some(commit("up1")));
    let mut other = file(Some("h1"), false);
    other.from_commit = commit("another");
    other.message = "another message".to_string();
    let theirs = state("c0", vec![("a.yml", other)]);
    assert!(mine.diff(&theirs).is_empty());
}

#[test]
fn files_of_different_sources_are_different_files() {
    let mut mine = DeployState::new(commit("c1"));
    mine.insert_file(FileIdent::new("a.yml".to_string(), Some("up")), file(Some("h1"), false));
    let theirs = state("c0", vec![("a.yml", file(Some("h1"), false))]);
    let diffs = mine.diff(&theirs);
    assert_eq!(diffs.len(), 2);
    assert_eq!(diffs[0].ident.clone().inner(), "{up}/a.yml");
    assert!(diffs[0].added);
    assert_eq!(diffs[1].ident.clone().inner(), "{latest}/a.yml");
    assert!(!diffs[1].added);
    assert!(diffs[1].current_state.is_none());
}

#[test]
fn difference_reads_in_words() {
    let added = FileDiff {
        ident: ident("dir/a.yml"),
        current_state: Some(file(Some("h"), false)),
        added: true,
    };
    let changed = FileDiff {
        ident: ident("dir/a.yml"),
        current_state: Some(file(Some("h"), false)),
        added: false,
    };
    let removed = FileDiff {
        ident: ident("dir/a.yml"),
        current_state: None,
        added: false,
    };
    assert_eq!(added.describe(), "File dir/a.yml was added");
    assert_eq!(changed.describe(), "File dir/a.yml changed");
    assert_eq!(removed.describe(), "File dir/a.yml was removed");
}

#[test]
fn state_keeps_its_files_in_the_order_of_their_identifiers() {
    let mut state = DeployState::new(commit("c1"));
    state.insert_file(FileIdent::new("b.yml".to_string(), None), file(Some("1"), false));
    state.insert_file(FileIdent::new("a.yml".to_string(), Some("zeta")), file(Some("2"), false));
    state.insert_file(FileIdent::new("a.yml".to_string(), None), file(Some("3"), false));
    state.insert_file(FileIdent::new("c.yml".to_string(), Some("alpha")), file(Some("4"), false));
    assert_eq!(state.len(), 4);
    let idents: Vec<String> = (0..state.len()).map(|i| state.ident_at(i).clone()).collect();
    assert_eq!(
        idents,
        vec!["{alpha}/c.yml", "{latest}/a.yml", "{latest}/b.yml", "{zeta}/a.yml"]
    );
    assert_eq!(state.file_at(0).file_hash, Some(FileHash::new("4".to_string())));
    assert_eq!(
        state.get("{latest}/b.yml").unwrap().file_hash,
        Some(FileHash::new("1".to_string()))
    );
    assert!(state.get("{latest}/missing").is_none());
}

#[test]
fn inserting_under_an_identifier_replaces_what_was_there() {
    let mut state = DeployState::new(commit("c1"));
    state.insert_file(ident("a.yml"), file(Some("old"), true));
    assert!(state.any_dirty());
    state.insert_file(ident("a.yml"), file(Some("new"), false));
    assert_eq!(state.len(), 1);
    assert_eq!(state.file_at(0).file_hash, Some(FileHash::new("new".to_string())));
    assert!(!state.any_dirty());
}

#[test]
fn any_dirty_is_set_exactly_when_a_file_is_dirty() {
    let mut state = DeployState::new(commit("c1"));
    assert!(!state.any_dirty());
    state.insert_file(ident("a.yml"), file(Some("1"), false));
    assert!(!state.any_dirty());
    state.insert_file(ident("b.yml"), file(None, true));
    assert!(state.any_dirty());
    state.insert_file(ident("c.yml"), file(Some("3"), false));
    assert!(state.any_dirty());
    let copy = state.clone();
    assert!(copy.any_dirty());
    assert_eq!(copy.len(), 3);
    assert_eq!(copy.head_commit(), &commit("c1"));
}

#[test]
fn new_state_has_its_commit_and_nothing_else() {
    let mut state = DeployState::new(commit("abc"));
    assert_eq!(state.head_commit(), &commit("abc"));
    assert_eq!(state.propagated_head(), None);
    assert_eq!(state.len(), 0);
    state.set_propagated_head(Some(commit("up")));
    assert_eq!(state.propagated_head(), Some(&commit("up")));
    state.set_head_commit(commit("def"));
    assert_eq!(state.head_commit(), &commit("def"));
    assert_eq!(state.propagated_head(), Some(&commit("up")));
}
