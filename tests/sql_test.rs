use crab_hooks::hook_types::HookTypes;
use crab_hooks::sqllite::SqlLiteConfig;

fn counts(config: &SqlLiteConfig, name: &str) -> Option<(u64, u64)> {
    config
        .hook_records()
        .iter()
        .find(|r| r.name == name)
        .map(|r| (r.total_runs, r.successful_runs))
}

#[test]
fn test_add_and_check_hook() {
    let mut config = SqlLiteConfig::new();
    // Initially not managed
    assert!(!config.is_hook_managed("hook1"));
    // Add and check
    config.add_hook("hook1");
    assert!(config.is_hook_managed("hook1"));
    // Inserting same hook again should be ignored
    config.add_hook("hook1");
    assert!(config.is_hook_managed("hook1"));
}

#[test]
fn test_repo_hook_management() {
    let mut config = SqlLiteConfig::new();
    let repo = "repo1";
    let hook_type = HookTypes::PreCommit;

    // No hooks known initially
    assert!(!config.check_if_new_hook_is_known(repo, &hook_type));

    // Add hook and link to repo
    config.add_hook("hook1");
    config.add_hook_to_repo("hook1", repo, &hook_type);
    assert!(config.check_if_new_hook_is_known(repo, &hook_type));

    // Name matching
    assert!(config.check_if_new_hook_is_same(repo, &hook_type, "hook1"));
    // Different name returns false
    assert!(!config.check_if_new_hook_is_same(repo, &hook_type, "hook2"));
}

#[test]
fn test_run_count_paths() {
    let mut config = SqlLiteConfig::new();
    config.add_hook("hook1");

    // Successful run
    config.add_successful_run("hook1");
    // Failed run on existing hook
    config.add_failed_run("hook1");

    // Run counts on non-existing hook (should not error)
    config.add_successful_run("nonexistent");
    config.add_failed_run("nonexistent");
    assert_eq!(counts(&config, "hook1"), Some((2, 1)));
    assert_eq!(counts(&config, "nonexistent"), None);
    assert_eq!(config.hook_records().len(), 1);
}

#[test]
fn register_twice_keeps_counters() {
    let mut config = SqlLiteConfig::new();
    config.add_hook("lint");
    config.add_successful_run("lint");
    config.add_hook("lint");
    assert_eq!(counts(&config, "lint"), Some((1, 1)));
    assert_eq!(config.hook_records().len(), 1);
}

#[test]
fn successful_never_exceeds_total() {
    let mut config = SqlLiteConfig::new();
    config.add_hook("a");
    let outcomes = [true, false, false, true, true, false];
    for ok in outcomes {
        if ok {
            config.add_successful_run("a");
        } else {
            config.add_failed_run("a");
        }
        let (total, successful) = counts(&config, "a").unwrap();
        assert!(successful <= total);
    }
    assert_eq!(counts(&config, "a"), Some((6, 3)));
}

#[test]
fn run_of_unknown_hook_changes_nothing() {
    let mut config = SqlLiteConfig::new();
    config.add_hook("known");
    config.add_failed_run("unknown");
    config.add_successful_run("unknown");
    assert_eq!(counts(&config, "known"), Some((0, 0)));
    assert!(!config.is_hook_managed("unknown"));
}

#[test]
fn binding_is_not_added_twice_and_keeps_order() {
    let mut config = SqlLiteConfig::new();
    config.add_hook_to_repo("a", "/r", &HookTypes::PrePush);
    config.add_hook_to_repo("b", "/r", &HookTypes::PrePush);
    config.add_hook_to_repo("a", "/r", &HookTypes::PrePush);
    config.add_hook_to_repo("c", "/other", &HookTypes::PrePush);
    config.add_hook_to_repo("d", "/r", &HookTypes::PreCommit);
    assert_eq!(config.bound_names("/r", &HookTypes::PrePush), vec!["a".to_string(), "b".to_string()]);
    assert_eq!(config.repo_hooks().len(), 4);
}

#[test]
fn remove_and_delete() {
    let mut config = SqlLiteConfig::new();
    config.add_hook("a");
    config.add_hook("b");
    config.add_hook_to_repo("a", "/r", &HookTypes::PrePush);
    config.add_hook_to_repo("b", "/r", &HookTypes::PrePush);
    config.add_hook_to_repo("a", "/s", &HookTypes::PreCommit);
    config.remove_hook_from_repo("a", "/r", &HookTypes::PrePush);
    assert_eq!(config.bound_names("/r", &HookTypes::PrePush), vec!["b".to_string()]);
    assert!(config.check_if_new_hook_is_same("/s", &HookTypes::PreCommit, "a"));
    config.delete_hook("a");
    assert!(!config.is_hook_managed("a"));
    assert!(config.is_hook_managed("b"));
    assert!(!config.check_if_new_hook_is_known("/s", &HookTypes::PreCommit));
    assert_eq!(config.repo_hooks().len(), 1);
}

#[test]
fn restore_skips_duplicates_and_bad_counts() {
    let mut config = SqlLiteConfig::new();
    config.restore_hook("a", 5, 3);
    config.restore_hook("a", 9, 9);
    config.restore_hook("b", 1, 2);
    assert_eq!(counts(&config, "a"), Some((5, 3)));
    assert_eq!(counts(&config, "b"), None);
}
