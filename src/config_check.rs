//! Checks of hook definitions that run nothing: every problem of every hook
//! is reported, scoped to the field it concerns.
use vstd::prelude::*;
use crate::changes::{join_path, joined_path};
use crate::git_hook::GitHook;
use crate::text::{trim, trimmed, views};

verus! {

/// A problem with one field of one hook definition.
pub struct ValidationError {
    pub hook_name: String,
    pub field: String,
    pub problem: String,
}

/// The abstract content of a validation error.
pub ghost struct Problem {
    pub hook_name: Seq<char>,
    pub field: Seq<char>,
    pub problem: Seq<char>,
}

impl ValidationError {
    pub open spec fn view_problem(self) -> Problem {
        Problem { hook_name: self.hook_name@, field: self.field@, problem: self.problem@ }
    }

    /// The error as one line of text.
    pub fn message(&self) -> (r: String)
        ensures
            r@ == "hook `"@ + self.hook_name@ + "`: field `"@ + self.field@ + "` \u{2014} "@ + self.problem@,
    {
        let r = String::from_str("hook `").concat(self.hook_name.as_str()).concat("`: field `").concat(
            self.field.as_str(),
        ).concat("` \u{2014} ").concat(self.problem.as_str());
        proof {
            assert(r@ =~= "hook `"@ + self.hook_name@ + "`: field `"@ + self.field@ + "` \u{2014} "@ + self.problem@);
        }
        r
    }
}

/// What the file system and the search path say of a hook's executable.
pub struct ExecutableProbe {
    /// The executable exists in the hook's working directory.
    pub in_directory: bool,
    /// The executable is found on the search path.
    pub on_path: bool,
}

/// A string written as Rust's `Debug` writes it: in double quotes, with
/// quotes, backslashes and unprintable characters escaped.
pub uninterp spec fn debug_quoted(s: Seq<char>) -> Seq<char>;

/// Relies on `<str as Debug>::fmt`, which the `Debug` of a path holding
/// valid text agrees with; the result depends on the characters alone.
#[verifier::external_body]
fn quote(s: &str) -> (r: String)
    ensures
        r@ == debug_quoted(s@),
{
    format!("{:?}", s)
}

/// The error text of a glob pattern that does not parse, `None` for one that
/// does.
pub uninterp spec fn glob_pattern_error(pattern: Seq<char>) -> Option<Seq<char>>;

/// Relies on `glob::Pattern::new`: it fails on a malformed pattern, with an
/// error whose text depends on the pattern alone.
#[verifier::external_body]
fn check_glob_pattern(pattern: &str) -> (r: Option<String>)
    ensures
        r.is_none() == glob_pattern_error(pattern@).is_none(),
        r matches Some(e) ==> glob_pattern_error(pattern@) == Some(e@),
{
    match glob::Pattern::new(pattern) {
        Ok(_) => None,
        Err(e) => Some(e.to_string()),
    }
}

pub open spec fn problem(h: GitHook, field: Seq<char>, text: Seq<char>) -> Problem {
    Problem { hook_name: h.name@, field, problem: text }
}

/// The problems with the name.
pub open spec fn name_problems(h: GitHook) -> Seq<Problem> {
    if trimmed(h.name@).len() == 0 {
        seq![problem(h, "name"@, "must not be empty"@)]
    } else {
        seq![]
    }
}

/// The problems with the executable, found by `probe`.
pub open spec fn command_problems(h: GitHook, probe: ExecutableProbe) -> Seq<Problem> {
    let cmd = trimmed(h.command.cmd@);
    if cmd.len() == 0 {
        seq![problem(h, "command.cmd"@, "must not be empty"@)]
    } else {
        match h.command.directory {
            Some(dir) => if !probe.in_directory && !probe.on_path {
                seq![
                    problem(
                        h,
                        "command.cmd"@,
                        "could not find executable `"@ + cmd + "` in directory "@ + debug_quoted(dir@)
                            + " or on PATH"@,
                    ),
                ]
            } else {
                seq![]
            },
            None => if !probe.on_path {
                seq![problem(h, "command.cmd"@, "could not locate `"@ + cmd + "` on PATH"@)]
            } else {
                seq![]
            },
        }
    }
}

/// The problems with the working directory.
pub open spec fn directory_problems(h: GitHook) -> Seq<Problem> {
    match h.command.directory {
        Some(dir) => if dir@.len() == 0 {
            seq![problem(h, "command.directory"@, "path is empty"@)]
        } else {
            seq![]
        },
        None => seq![],
    }
}

pub open spec fn glob_problem(h: GitHook, p: Seq<char>) -> Option<Problem> {
    match glob_pattern_error(p) {
        Some(e) => Some(problem(h, "glob_pattern"@, "invalid glob `"@ + p + "`: "@ + e)),
        None => None,
    }
}

/// The problems with the glob patterns: none given, or one per malformed
/// pattern, in order.
pub open spec fn glob_problems(h: GitHook) -> Seq<Problem> {
    if h.glob_pattern.len() == 0 {
        seq![problem(h, "glob_pattern"@, "must contain at least one pattern"@)]
    } else {
        views(h.glob_pattern@).filter_map(|p: Seq<char>| glob_problem(h, p))
    }
}

/// Every problem of one hook definition, field by field.
pub open spec fn hook_problems(h: GitHook, probe: ExecutableProbe) -> Seq<Problem> {
    name_problems(h) + command_problems(h, probe) + directory_problems(h) + glob_problems(h)
}

/// Every problem of a configuration, hook after hook.
pub open spec fn config_problems(hooks: Seq<GitHook>, probes: Seq<ExecutableProbe>) -> Seq<Problem>
    decreases hooks.len(),
{
    if hooks.len() == 0 || probes.len() < hooks.len() {
        seq![]
    } else {
        config_problems(hooks.drop_last(), probes.take(hooks.len() - 1)) + hook_problems(
            hooks.last(),
            probes[hooks.len() - 1],
        )
    }
}

pub open spec fn problems_of(v: Seq<ValidationError>) -> Seq<Problem> {
    v.map_values(|e: ValidationError| e.view_problem())
}

fn push_problem(out: &mut Vec<ValidationError>, hook: &GitHook, field: &str, text: String)
    ensures
        problems_of(final(out)@) == problems_of(old(out)@).push(problem(*hook, field@, text@)),
{
    out.push(ValidationError { hook_name: hook.name.clone(), field: String::from_str(field), problem: text });
    proof {
        assert(problems_of(out@) =~= problems_of(old(out)@).push(problem(*hook, field@, text@)));
    }
}

/// The path of the executable inside the hook's working directory, if it has
/// one: where `probe.in_directory` is to look.
pub fn executable_candidate(hook: &GitHook) -> (r: Option<String>)
    ensures
        match hook.command.directory {
            Some(dir) => r matches Some(p) && p@ == joined_path(dir@, trimmed(hook.command.cmd@)),
            None => r is None,
        },
{
    match &hook.command.directory {
        Some(dir) => {
            let cmd = trim(hook.command.cmd.as_str());
            Some(join_path(dir.as_str(), cmd.as_str()))
        },
        None => None,
    }
}

/// The executable name to look up on the search path.
pub fn executable_name(hook: &GitHook) -> (r: String)
    ensures
        r@ == trimmed(hook.command.cmd@),
{
    trim(hook.command.cmd.as_str())
}

/// Checks one hook definition; `probe` says where its executable was found.
pub fn validate_hook(hook: &GitHook, probe: &ExecutableProbe, out: &mut Vec<ValidationError>)
    ensures
        problems_of(final(out)@) == problems_of(old(out)@) + hook_problems(*hook, *probe),
{
    let ghost start = problems_of(out@);
    let name = trim(hook.name.as_str());
    if name.unicode_len() == 0 {
        push_problem(out, hook, "name", String::from_str("must not be empty"));
    }
    proof {
        assert(problems_of(out@) =~= start + name_problems(*hook));
    }
    let ghost after_name = problems_of(out@);
    let cmd = trim(hook.command.cmd.as_str());
    if cmd.unicode_len() == 0 {
        push_problem(out, hook, "command.cmd", String::from_str("must not be empty"));
    } else {
        match &hook.command.directory {
            Some(dir) => {
                if !probe.in_directory && !probe.on_path {
                    let text = String::from_str("could not find executable `").concat(cmd.as_str()).concat(
                        "` in directory ",
                    ).concat(quote(dir.as_str()).as_str()).concat(" or on PATH");
                    push_problem(out, hook, "command.cmd", text);
                }
            },
            None => {
                if !probe.on_path {
                    let text = String::from_str("could not locate `").concat(cmd.as_str()).concat("` on PATH");
                    push_problem(out, hook, "command.cmd", text);
                }
            },
        }
    }
    proof {
        assert(problems_of(out@) =~= after_name + command_problems(*hook, *probe));
    }
    let ghost after_cmd = problems_of(out@);
    if let Some(dir) = &hook.command.directory {
        if dir.unicode_len() == 0 {
            push_problem(out, hook, "command.directory", String::from_str("path is empty"));
        }
    }
    proof {
        assert(problems_of(out@) =~= after_cmd + directory_problems(*hook));
    }
    let ghost after_dir = problems_of(out@);
    if hook.glob_pattern.len() == 0 {
        push_problem(out, hook, "glob_pattern", String::from_str("must contain at least one pattern"));
        proof {
            assert(problems_of(out@) =~= after_dir + glob_problems(*hook));
        }
    } else {
        let ghost f = |p: Seq<char>| glob_problem(*hook, p);
        let ghost pats = views(hook.glob_pattern@);
        let mut i: usize = 0;
        proof {
            assert(pats.take(0) =~= Seq::<Seq<char>>::empty());
            assert(Seq::<Seq<char>>::empty().filter_map(f) =~= Seq::<Problem>::empty());
            assert(problems_of(out@) =~= after_dir + Seq::<Problem>::empty());
        }
        while i < hook.glob_pattern.len()
            invariant
                i <= hook.glob_pattern.len(),
                f == (|p: Seq<char>| glob_problem(*hook, p)),
                pats == views(hook.glob_pattern@),
                problems_of(out@) == after_dir + pats.take(i as int).filter_map(f),
            decreases hook.glob_pattern.len() - i,
        {
            proof {
                pats.lemma_filter_map_take_succ(f, i as int);
                assert(pats[i as int] == hook.glob_pattern@[i as int]@);
            }
            let pat = &hook.glob_pattern[i];
            match check_glob_pattern(pat.as_str()) {
                Some(e) => {
                    let text = String::from_str("invalid glob `").concat(pat.as_str()).concat("`: ").concat(
                        e.as_str(),
                    );
                    proof {
                        assert(text@ =~= "invalid glob `"@ + pat@ + "`: "@ + e@);
                    }
                    push_problem(out, hook, "glob_pattern", text);
                    proof {
                        assert(problems_of(out@) =~= after_dir + pats.take(i + 1).filter_map(f));
                    }
                },
                None => {
                    proof {
                        assert(problems_of(out@) =~= after_dir + pats.take(i + 1).filter_map(f));
                    }
                },
            }
            i = i + 1;
        }
        proof {
            assert(pats.take(hook.glob_pattern.len() as int) =~= pats);
        }
    }
    proof {
        assert(problems_of(out@) =~= start + hook_problems(*hook, *probe));
    }
}

/// Checks every hook of a configuration, `probes[i]` telling where the
/// executable of `hooks[i]` was found, and collects all the problems rather
/// than stopping at the first.
pub fn validate_hooks(hooks: &Vec<GitHook>, probes: &Vec<ExecutableProbe>) -> (r: Vec<ValidationError>)
    requires
        probes.len() == hooks.len(),
    ensures
        problems_of(r@) == config_problems(hooks@, probes@),
{
    let mut out: Vec<ValidationError> = Vec::new();
    let mut i: usize = 0;
    proof {
        assert(problems_of(out@) =~= Seq::<Problem>::empty());
        assert(config_problems(hooks@.take(0), probes@.take(0)) == Seq::<Problem>::empty());
    }
    while i < hooks.len()
        invariant
            i <= hooks.len(),
            probes.len() == hooks.len(),
            problems_of(out@) == config_problems(hooks@.take(i as int), probes@.take(i as int)),
        decreases hooks.len() - i,
    {
        validate_hook(&hooks[i], &probes[i], &mut out);
        proof {
            let h = hooks@.take(i + 1);
            let p = probes@.take(i + 1);
            assert(h.drop_last() =~= hooks@.take(i as int));
            assert(p.take(h.len() - 1) =~= probes@.take(i as int));
        }
        i = i + 1;
    }
    proof {
        assert(hooks@.take(hooks.len() as int) =~= hooks@);
        assert(probes@.take(probes.len() as int) =~= probes@);
    }
    out
}

/// A hook with no glob pattern, or whose executable is found neither in its
/// directory nor on the search path, yields at least one problem for that
/// field, and the problems of every hook of a configuration are all reported:
/// those of each hook stand in the list for the whole configuration.
pub proof fn lemma_problems_collected(hooks: Seq<GitHook>, probes: Seq<ExecutableProbe>, k: int)
    requires
        probes.len() == hooks.len(),
        0 <= k < hooks.len(),
        hooks[k].glob_pattern.len() == 0 || (trimmed(hooks[k].command.cmd@).len() != 0
            && !probes[k].on_path && !(hooks[k].command.directory is Some && probes[k].in_directory)),
    ensures
        hook_problems(hooks[k], probes[k]).len() > 0,
        exists|j: int|
            0 <= j < config_problems(hooks, probes).len() && (#[trigger] config_problems(hooks, probes)[j]).field
                == (if hooks[k].glob_pattern.len() == 0 { "glob_pattern"@ } else { "command.cmd"@ })
                && config_problems(hooks, probes)[j].hook_name == hooks[k].name@,
        forall|i: int| 0 <= i < hooks.len() ==> config_problems(hooks, probes).len() >= #[trigger] hook_problems(hooks[i], probes[i]).len(),
{
    let h = hooks[k];
    let pr = probes[k];
    let hp = hook_problems(h, pr);
    let gp = glob_problems(h);
    let cp = command_problems(h, pr);
    let before = name_problems(h) + cp + directory_problems(h);
    let field = if h.glob_pattern.len() == 0 { "glob_pattern"@ } else { "command.cmd"@ };
    let at: int = if h.glob_pattern.len() == 0 {
        assert(hp[before.len() as int] == gp[0]);
        before.len() as int
    } else {
        assert(hp[name_problems(h).len() as int] == cp[0]);
        name_problems(h).len() as int
    };
    assert(hp[at].field == field && hp[at].hook_name == h.name@);
    lemma_config_contains(hooks, probes, k, at);
    assert forall|i: int| 0 <= i < hooks.len() implies config_problems(hooks, probes).len()
        >= #[trigger] hook_problems(hooks[i], probes[i]).len() by {
        if hook_problems(hooks[i], probes[i]).len() > 0 {
            lemma_config_contains(hooks, probes, i, 0);
        }
    }
}

/// The problems of hook `k` stand, in order, inside those of the configuration.
proof fn lemma_config_contains(hooks: Seq<GitHook>, probes: Seq<ExecutableProbe>, k: int, at: int)
    requires
        probes.len() == hooks.len(),
        0 <= k < hooks.len(),
        0 <= at < hook_problems(hooks[k], probes[k]).len(),
    ensures
        config_problems(hooks, probes).len() >= hook_problems(hooks[k], probes[k]).len(),
        exists|j: int|
            0 <= j < config_problems(hooks, probes).len() && #[trigger] config_problems(hooks, probes)[j]
                == hook_problems(hooks[k], probes[k])[at],
    decreases hooks.len(),
{
    let n = hooks.len();
    let front = config_problems(hooks.drop_last(), probes.take(n - 1));
    let last = hook_problems(hooks.last(), probes[n - 1]);
    assert(config_problems(hooks, probes) == front + last);
    if k == n - 1 {
        assert((front + last)[front.len() + at] == last[at]);
    } else {
        assert(hooks.drop_last()[k] == hooks[k]);
        assert(probes.take(n - 1)[k] == probes[k]);
        lemma_config_contains(hooks.drop_last(), probes.take(n - 1), k, at);
        let j = choose|j: int|
            0 <= j < front.len() && #[trigger] front[j] == hook_problems(hooks[k], probes[k])[at];
        assert((front + last)[j] == front[j]);
    }
}

} // verus!
