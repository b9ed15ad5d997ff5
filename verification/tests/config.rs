use cepler::config::{default_scope, Config, EnvironmentConfig, GatesConfig, RepoConfig};
use cepler::error::Error;

fn strings(value: Option<&serde_yaml::Value>) -> Vec<String> {
    match value.and_then(|v| v.as_sequence()) {
        Some(items) => items
            .iter()
            .map(|item| item.as_str().expect("pattern").to_string())
            .collect(),
        None => Vec::new(),
    }
}

fn config_from_yaml(text: &str) -> Result<Config, Error> {
    let document: serde_yaml::Value = serde_yaml::from_str(text).expect("yaml");
    let scope = match document.get("deployment").and_then(|v| v.as_str()) {
        Some(scope) => scope.to_string(),
        None => default_scope(),
    };
    let mut environments = Vec::new();
    let mapping = document
        .get("environments")
        .and_then(|v| v.as_mapping())
        .expect("environments");
    for (name, entry) in mapping.iter() {
        let name = name.as_str().expect("name").to_string();
        let env = EnvironmentConfig::new(
            String::new(),
            entry
                .get("ignore_queue")
                .and_then(|v| v.as_bool())
                .unwrap_or(false),
            entry
                .get("passed")
                .and_then(|v| v.as_str())
                .map(|s| s.to_string()),
            strings(entry.get("propagated")),
            strings(entry.get("latest")),
        );
        environments.push((name, env));
    }
    Config::new(scope, environments)
}

#[test]
fn deserialize_config() {
    let conf = r#"environments:
  testflight:
    latest:
    - file.yml"#;

    let conf = config_from_yaml(conf).unwrap();
    assert!(conf.environment("testflight").unwrap().name() == "testflight");
    assert!(conf.environment("testflight").unwrap().head_files() == &vec!["file.yml".to_string()]);
    assert!(conf.scope() == &"default".to_string());
}

#[test]
fn config_takes_the_scope_from_the_deployment_key() {
    let conf = config_from_yaml("deployment: blue\nenvironments:\n  a:\n    latest: ['*.yml']\n")
        .unwrap();
    assert_eq!(conf.scope(), "blue");
    assert_eq!(conf.len(), 1);
}

#[test]
fn config_names_each_environment_by_its_key() {
    let conf = Config::new(
        "default".to_string(),
        vec![
            (
                "prod".to_string(),
                EnvironmentConfig::new(
                    "something else".to_string(),
                    true,
                    Some("testflight".to_string()),
                    vec!["a.yml".to_string()],
                    vec![],
                ),
            ),
            (
                "testflight".to_string(),
                EnvironmentConfig::new(String::new(), false, None, vec![], vec!["a.yml".to_string()]),
            ),
        ],
    )
    .unwrap();
    let prod = conf.environment("prod").unwrap();
    assert_eq!(prod.name(), "prod");
    assert!(prod.ignore_queue());
    assert_eq!(prod.propagated_from(), Some(&"testflight".to_string()));
    assert_eq!(prod.propagated_files(), &vec!["a.yml".to_string()]);
    assert!(prod.head_files().is_empty());
    let testflight = conf.environment("testflight").unwrap();
    assert_eq!(testflight.name(), "testflight");
    assert!(!testflight.ignore_queue());
    assert_eq!(testflight.propagated_from(), None);
    assert!(conf.environment("staging").is_none());
    assert_eq!(
        conf.environment_names(),
        vec!["prod".to_string(), "testflight".to_string()]
    );
}

#[test]
fn config_with_unknown_upstream_fails_to_load() {
    let outcome = config_from_yaml("environments:\n  prod:\n    passed: staging\n");
    match outcome {
        Err(Error::PreviousNotDefined { name }) => assert_eq!(name, "staging"),
        other => panic!("unexpected outcome: {:?}", other.map(|_| ())),
    }
    assert_eq!(
        Error::PreviousNotDefined {
            name: "staging".to_string()
        }
        .message(),
        "Previous environment 'staging' not defined"
    );
}

#[test]
fn config_accepts_an_environment_that_is_its_own_upstream() {
    let conf = config_from_yaml("environments:\n  loop:\n    passed: loop\n").unwrap();
    assert_eq!(
        conf.environment("loop").unwrap().propagated_from(),
        Some(&"loop".to_string())
    );
}

#[test]
fn later_of_two_environments_with_one_name_stays() {
    let conf = Config::new(
        "default".to_string(),
        vec![
            (
                "a".to_string(),
                EnvironmentConfig::new(String::new(), false, None, vec![], vec!["one".to_string()]),
            ),
            (
                "a".to_string(),
                EnvironmentConfig::new(String::new(), false, None, vec![], vec!["two".to_string()]),
            ),
        ],
    )
    .unwrap();
    assert_eq!(conf.len(), 1);
    assert_eq!(
        conf.environment("a").unwrap().head_files(),
        &vec!["two".to_string()]
    );
}

#[test]
fn unknown_environment_is_an_error() {
    let conf = config_from_yaml("environments:\n  a:\n    latest: ['*.yml']\n").unwrap();
    assert_eq!(conf.find_environment("a").unwrap().name(), "a");
    match conf.find_environment("b") {
        Err(Error::EnvironmentNotFound { name }) => assert_eq!(name, "b"),
        other => panic!("unexpected outcome: {:?}", other),
    }
    assert_eq!(
        Error::EnvironmentNotFound {
            name: "b".to_string()
        }
        .message(),
        "Environment 'b' not found in config"
    );
}

#[test]
fn default_scope_is_default() {
    assert_eq!(default_scope(), "default");
}

#[test]
fn gate_of_an_environment_is_its_commit() {
    let gates = GatesConfig::new(vec![
        ("staging".to_string(), "0123abc".to_string()),
        ("prod".to_string(), "HEAD".to_string()),
    ]);
    assert_eq!(gates.get_gate("staging"), Ok(Some("0123abc".to_string())));
}

#[test]
fn head_gate_means_no_gate() {
    let gates = GatesConfig::new(vec![
        ("staging".to_string(), "0123abc".to_string()),
        ("prod".to_string(), "HEAD".to_string()),
    ]);
    assert_eq!(gates.get_gate("prod"), Ok(None));
}

#[test]
fn missing_gate_is_an_error() {
    let gates = GatesConfig::new(vec![("staging".to_string(), "0123abc".to_string())]);
    assert_eq!(gates.get_gate("prod"), Err(Error::MissingGate));
    assert_eq!(
        Error::MissingGate.message(),
        "Environment is missing in gates file"
    );
}

#[test]
fn lower_case_head_is_a_commit_like_any_other() {
    let gates = GatesConfig::new(vec![("prod".to_string(), "head".to_string())]);
    assert_eq!(gates.get_gate("prod"), Ok(Some("head".to_string())));
}

#[test]
fn repo_config_holds_what_it_is_given() {
    let repo = RepoConfig {
        uri: "git@example.com:repo.git".to_string(),
        branch: "main".to_string(),
        private_key: "SECRET-REDACTED".to_string(),
    };
    assert_eq!(repo.uri, "git@example.com:repo.git");
    assert_eq!(repo.branch, "main");
    assert_eq!(repo.private_key, "SECRET-REDACTED");
}

#[test]
fn invalid_patterns_are_reported_by_their_text() {
    let env = EnvironmentConfig::new(
        "a".to_string(),
        false,
        Some("b".to_string()),
        vec!["ok/*.yml".to_string(), "bad[".to_string(), "worse**x".to_string()],
        vec!["a**b".to_string()],
    );
    match env.propagated_file_patterns() {
        Err(Error::InvalidPattern { pattern }) => assert_eq!(pattern, "bad["),
        other => panic!("unexpected outcome: {:?}", other),
    }
    match env.head_file_patterns() {
        Err(Error::InvalidPattern { pattern }) => assert_eq!(pattern, "a**b"),
        other => panic!("unexpected outcome: {:?}", other),
    }
    assert_eq!(
        Error::InvalidPattern {
            pattern: "bad[".to_string()
        }
        .message(),
        "Couldn't compile glob pattern 'bad['"
    );
}

#[test]
fn valid_patterns_compile_in_their_order() {
    let env = EnvironmentConfig::new(
        "a".to_string(),
        false,
        None,
        vec![],
        vec!["*.yml".to_string(), "dir/**/*.txt".to_string()],
    );
    let patterns = env.head_file_patterns().unwrap();
    assert_eq!(patterns.len(), 2);
    assert_eq!(patterns.source_at(0), "*.yml");
    assert_eq!(patterns.source_at(1), "dir/**/*.txt");
    assert_eq!(env.propagated_file_patterns().unwrap().len(), 0);
}
