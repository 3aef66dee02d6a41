use crab_hooks::changes::{collect_changed_paths, StatusEntry};
use crab_hooks::git_hook::{
    find_hook, first_match, relative_paths, ApplyError, CommandConfig, GitHook,
    Outcome, RemoveError, RunError, RunStep, ShimRemoval, ShimWrite,
};
use crab_hooks::hook_types::HookTypes;
use crab_hooks::sqllite::SqlLiteConfig;
use crab_hooks::text::split_args;

fn strings(v: &[&str]) -> Vec<String> {
    v.iter().map(|s| s.to_string()).collect()
}

fn hook(name: &str, patterns: &[&str]) -> GitHook {
    GitHook::new(
        name.to_string(),
        CommandConfig { cmd: "cargo".to_string(), args: Some("fmt --check".to_string()), directory: None },
        strings(patterns),
        None,
    )
}

const EXE: &str = "/usr/local/bin/crab_hooks";

#[test]
fn glob_star_does_not_cross_separator() {
    let lib = strings(&["src/lib.rs"]);
    let nested = strings(&["src/nested/lib.rs"]);
    assert_eq!(first_match(&strings(&["src/*.rs"]), &lib), Some((0, 0)));
    assert_eq!(first_match(&strings(&["src/*.rs"]), &nested), None);
    assert_eq!(first_match(&strings(&["src/**/*.rs"]), &lib), Some((0, 0)));
    assert_eq!(first_match(&strings(&["src/**/*.rs"]), &nested), Some((0, 0)));
}

#[test]
fn glob_first_pattern_in_order_wins_and_bad_patterns_are_skipped() {
    let paths = strings(&["README.md", "src/main.rs"]);
    assert_eq!(first_match(&strings(&["a[", "*.toml", "src/*.rs", "*.md"]), &paths), Some((2, 1)));
    assert_eq!(first_match(&strings(&[]), &paths), None);
    assert_eq!(first_match(&strings(&["*"]), &strings(&[])), None);
}

#[test]
fn gate_works_on_paths_relative_to_cwd() {
    let h = hook("fmt", &["src/*.rs"]);
    let changed = strings(&["/repo/src/lib.rs", "/elsewhere/src/x.rs"]);
    assert!(h.check_files_match_glob(&changed, "/repo"));
    assert!(!h.check_files_match_glob(&strings(&["/elsewhere/src/x.rs"]), "/repo"));
    assert_eq!(relative_paths(&changed, "/repo"), strings(&["src/lib.rs"]));
}

#[test]
fn match_report_names_first_pattern_and_path() {
    let h = hook("fmt", &["*.md", "src/*.rs", "*"]);
    let changed = strings(&["/repo/Cargo.toml", "/repo/src/a.rs", "/repo/src/b.rs"]);
    assert_eq!(h.matched_pattern(&changed, "/repo"), Some((1, "src/a.rs".to_string())));
    assert_eq!(hook("x", &["*.md"]).matched_pattern(&changed, "/repo"), None);
}

#[test]
fn nested_alternates_are_refused_not_fatal() {
    let mut deep = String::new();
    for _ in 0..300 {
        deep.push_str("{a,");
    }
    deep.push('b');
    for _ in 0..300 {
        deep.push('}');
    }
    let paths = strings(&["b", "src/lib.rs"]);
    assert_eq!(first_match(&vec![deep, "src/*.rs".to_string()], &paths), Some((1, 1)));
}

#[test]
fn run_without_matching_change_is_skipped() {
    let h = hook("fmt", &["src/*.rs"]);
    let store = SqlLiteConfig::new();
    let step = h.plan_run(&strings(&["/repo/docs/a.md", "/repo/src/sub/b.rs"]), "/repo");
    assert!(matches!(step, RunStep::Skip));
    assert!(matches!(h.plan_run(&strings(&[]), "/repo"), RunStep::Skip));
    assert_eq!(store.hook_records().len(), 0);
}

#[test]
fn run_with_matching_change_executes_the_command() {
    let h = GitHook::new(
        "fmt".to_string(),
        CommandConfig {
            cmd: "cargo".to_string(),
            args: Some("fmt  --check".to_string()),
            directory: Some("/work".to_string()),
        },
        strings(&["*.md", "src/*.rs"]),
        Some("formatting".to_string()),
    );
    match h.plan_run(&strings(&["/repo/src/lib.rs"]), "/repo") {
        RunStep::Execute(c) => {
            assert_eq!(c.program, "cargo");
            assert_eq!(c.args, strings(&["fmt", "--check"]));
            assert_eq!(c.directory, Some("/work".to_string()));
        }
        RunStep::Skip => panic!("a changed file matches src/*.rs"),
    }
}

#[test]
fn args_split_on_runs_of_white_space() {
    assert_eq!(split_args("a b c"), strings(&["a", "b", "c"]));
    assert_eq!(split_args(""), strings(&[]));
    assert_eq!(split_args(" x "), strings(&["x"]));
    assert_eq!(split_args("a\tb\n  c\u{3000}d\u{a0}"), strings(&["a", "b", "c", "d"]));
    assert_eq!(split_args("--msg=\"a b\""), strings(&["--msg=\"a", "b\""]));
    let no_args = GitHook::new(
        "n".to_string(),
        CommandConfig { cmd: "true".to_string(), args: None, directory: None },
        strings(&["*"]),
        None,
    );
    assert!(no_args.command_line().args.is_empty());
}

#[test]
fn outcomes_are_counted_then_reported() {
    let h = hook("fmt", &["*"]);
    let mut store = SqlLiteConfig::new();
    store.add_hook("fmt");
    assert_eq!(h.record_outcome(&mut store, Outcome::Success), Ok(()));
    assert_eq!(h.record_outcome(&mut store, Outcome::Failure(3)), Err(RunError::CommandFailure(3)));
    assert_eq!(h.record_outcome(&mut store, Outcome::Signaled), Err(RunError::CommandSignaled));
    let r = &store.hook_records()[0];
    assert_eq!((r.total_runs, r.successful_runs), (3, 1));
}

#[test]
fn outcome_of_unregistered_hook_is_not_an_error() {
    let h = hook("ghost", &["*"]);
    let mut store = SqlLiteConfig::new();
    assert_eq!(h.record_outcome(&mut store, Outcome::Success), Ok(()));
    assert!(store.hook_records().is_empty());
}

#[test]
fn apply_creates_rejects_then_chains() {
    let a = hook("A", &["*"]);
    let b = hook("B", &["*"]);
    let mut store = SqlLiteConfig::new();
    let repo = "/repo";
    let mut shim: Option<String> = None;

    match a.apply_hook(&HookTypes::PreCommit, &mut store, repo, EXE, shim.is_some()) {
        Ok(ShimWrite::Create(content)) => shim = Some(content),
        _ => panic!("first apply should create the shim"),
    }
    assert_eq!(store.repo_hooks().len(), 1);
    assert!(store.is_hook_managed("A"));

    assert_eq!(
        a.apply_hook(&HookTypes::PreCommit, &mut store, repo, EXE, shim.is_some()).err(),
        Some(ApplyError::AlreadyConfigured)
    );
    assert_eq!(store.repo_hooks().len(), 1);

    match b.apply_hook(&HookTypes::PreCommit, &mut store, repo, EXE, shim.is_some()) {
        Ok(ShimWrite::Append(line)) => shim.as_mut().unwrap().push_str(&line),
        _ => panic!("second hook should be chained"),
    }
    assert_eq!(store.repo_hooks().len(), 2);
    assert_eq!(store.bound_names(repo, &HookTypes::PreCommit), strings(&["A", "B"]));
    assert_eq!(
        shim.unwrap(),
        "#!/usr/bin/env sh\nset -e\n/usr/local/bin/crab_hooks run A\n/usr/local/bin/crab_hooks run B\n"
    );
}

#[test]
fn apply_over_foreign_shim_is_refused() {
    let a = hook("A", &["*"]);
    let mut store = SqlLiteConfig::new();
    let r = a.apply_hook(&HookTypes::PrePush, &mut store, "/repo", EXE, true);
    assert_eq!(r.err(), Some(ApplyError::ForeignHookConflict));
    assert!(store.repo_hooks().is_empty());
    assert!(!store.is_hook_managed("A"));
}

#[test]
fn same_hook_on_other_point_or_repo_is_independent() {
    let a = hook("A", &["*"]);
    let mut store = SqlLiteConfig::new();
    assert!(matches!(a.apply_hook(&HookTypes::PreCommit, &mut store, "/r1", EXE, false), Ok(ShimWrite::Create(_))));
    assert!(matches!(a.apply_hook(&HookTypes::PrePush, &mut store, "/r1", EXE, false), Ok(ShimWrite::Create(_))));
    assert!(matches!(a.apply_hook(&HookTypes::PreCommit, &mut store, "/r2", EXE, false), Ok(ShimWrite::Create(_))));
    assert_eq!(store.repo_hooks().len(), 3);
    assert_eq!(store.hook_records().len(), 1);
}

#[test]
fn remove_rewrites_then_deletes_the_shim() {
    let a = hook("A", &["*"]);
    let b = hook("B", &["*"]);
    let mut store = SqlLiteConfig::new();
    a.apply_hook(&HookTypes::PreCommit, &mut store, "/r", EXE, false).unwrap();
    b.apply_hook(&HookTypes::PreCommit, &mut store, "/r", EXE, true).unwrap();
    match a.remove_hook(&HookTypes::PreCommit, &mut store, "/r", EXE) {
        Ok(ShimRemoval::Rewrite(content)) => {
            assert_eq!(content, "#!/usr/bin/env sh\nset -e\n/usr/local/bin/crab_hooks run B\n")
        }
        _ => panic!("B is still bound"),
    }
    assert_eq!(
        a.remove_hook(&HookTypes::PreCommit, &mut store, "/r", EXE).err(),
        Some(RemoveError::NotConfigured)
    );
    assert!(matches!(b.remove_hook(&HookTypes::PreCommit, &mut store, "/r", EXE), Ok(ShimRemoval::Delete)));
    assert!(!store.check_if_new_hook_is_known("/r", &HookTypes::PreCommit));
}

#[test]
fn find_hook_by_name() {
    let hooks = vec![hook("a", &["*"]), hook("b", &["*"]), hook("b", &["x"])];
    assert_eq!(find_hook(&hooks, "b"), Some(1));
    assert_eq!(find_hook(&hooks, "c"), None);
}

fn entry(path: &str, index_new: bool, wt_modified: bool) -> StatusEntry {
    StatusEntry {
        path: Some(path.to_string()),
        index_new,
        index_modified: false,
        index_deleted: false,
        wt_new: false,
        wt_modified,
        wt_deleted: false,
    }
}

#[test]
fn changed_paths_are_joined_deduplicated_and_sorted() {
    let statuses = vec![
        entry("src/b.rs", true, false),
        entry("ignored.txt", false, false),
        entry("a.rs", false, true),
        StatusEntry { path: None, ..entry("", true, false) },
    ];
    let unpushed = vec![Some("src/b.rs".to_string()), None, Some("z.md".to_string())];
    let paths = collect_changed_paths("/repo/", &statuses, &unpushed);
    assert_eq!(paths, strings(&["/repo/a.rs", "/repo/src/b.rs", "/repo/z.md"]));
    assert!(collect_changed_paths("/repo", &vec![], &vec![]).is_empty());
    let joined = collect_changed_paths("/repo", &vec![entry("x", false, true)], &vec![Some("/abs/y".to_string())]);
    assert_eq!(joined, strings(&["/abs/y", "/repo/x"]));
}
