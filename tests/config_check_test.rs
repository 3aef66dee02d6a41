use crab_hooks::config_check::{
    executable_candidate, executable_name, validate_hook, validate_hooks, ExecutableProbe,
    ValidationError,
};
use crab_hooks::git_hook::{CommandConfig, GitHook};

fn hook(name: &str, cmd: &str, directory: Option<&str>, patterns: &[&str]) -> GitHook {
    GitHook::new(
        name.to_string(),
        CommandConfig { cmd: cmd.to_string(), args: None, directory: directory.map(|d| d.to_string()) },
        patterns.iter().map(|p| p.to_string()).collect(),
        None,
    )
}

const FOUND: ExecutableProbe = ExecutableProbe { in_directory: false, on_path: true };
const MISSING: ExecutableProbe = ExecutableProbe { in_directory: false, on_path: false };

fn fields(errors: &[ValidationError]) -> Vec<(String, String)> {
    errors.iter().map(|e| (e.hook_name.clone(), e.field.clone())).collect()
}

#[test]
fn valid_hook_has_no_problem() {
    let mut out = Vec::new();
    validate_hook(&hook("fmt", "cargo", None, &["src/*.rs"]), &FOUND, &mut out);
    assert!(out.is_empty());
}

#[test]
fn empty_patterns_and_missing_executable_are_all_reported() {
    let hooks = vec![hook("a", "nope", None, &[]), hook("b", "cargo", None, &["*.rs"])];
    let errors = validate_hooks(&hooks, &vec![MISSING, FOUND]);
    assert_eq!(
        fields(&errors),
        vec![("a".to_string(), "command.cmd".to_string()), ("a".to_string(), "glob_pattern".to_string())]
    );
    assert_eq!(errors[0].problem, "could not locate `nope` on PATH");
    assert_eq!(errors[1].problem, "must contain at least one pattern");
}

#[test]
fn every_field_problem_is_collected() {
    let mut out = Vec::new();
    validate_hook(&hook("  ", " ", Some(""), &["ok/*", "a[", "b"]), &MISSING, &mut out);
    let got: Vec<(&str, &str)> = out.iter().map(|e| (e.field.as_str(), e.problem.as_str())).collect();
    assert_eq!(got.len(), 4);
    assert_eq!(got[0], ("name", "must not be empty"));
    assert_eq!(got[1], ("command.cmd", "must not be empty"));
    assert_eq!(got[2], ("command.directory", "path is empty"));
    assert_eq!(got[3].0, "glob_pattern");
    assert!(got[3].1.starts_with("invalid glob `a[`: "));
}

#[test]
fn executable_in_directory_or_on_path() {
    let h = hook("x", " run.sh ", Some("/tools"), &["*"]);
    let mut out = Vec::new();
    validate_hook(&h, &ExecutableProbe { in_directory: true, on_path: false }, &mut out);
    assert!(out.is_empty());
    validate_hook(&h, &MISSING, &mut out);
    assert_eq!(out[0].problem, "could not find executable `run.sh` in directory \"/tools\" or on PATH");
    assert_eq!(executable_name(&h), "run.sh");
    assert_eq!(executable_candidate(&h), Some("/tools/run.sh".to_string()));
    assert_eq!(executable_candidate(&hook("y", "z", None, &["*"])), None);
}

#[test]
fn directory_is_quoted_with_escapes() {
    let mut out = Vec::new();
    validate_hook(&hook("q", "tool", Some("a\"b\\c"), &["*"]), &MISSING, &mut out);
    assert_eq!(out[0].problem, "could not find executable `tool` in directory \"a\\\"b\\\\c\" or on PATH");
}

#[test]
fn unicode_white_space_counts_as_blank() {
    let mut out = Vec::new();
    validate_hook(&hook("\u{a0}\t", "cargo", None, &["*"]), &FOUND, &mut out);
    assert_eq!(fields(&out), vec![("\u{a0}\t".to_string(), "name".to_string())]);
}

#[test]
fn message_names_hook_and_field() {
    let e = ValidationError {
        hook_name: "fmt".to_string(),
        field: "glob_pattern".to_string(),
        problem: "must contain at least one pattern".to_string(),
    };
    assert_eq!(e.message(), "hook `fmt`: field `glob_pattern` \u{2014} must contain at least one pattern");
}
