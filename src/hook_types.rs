//! The Git hook points a managed hook can be bound to.
use vstd::prelude::*;

verus! {

/// A Git hook point (see `githooks(5)`), written in kebab-case on the command
/// line and in the store.
#[derive(Clone, Copy, Debug, PartialEq, Eq, Structural)]
pub enum HookTypes {
    PreCommit,
    PrepareCommitMsg,
    CommitMsg,
    PostCommit,
    ApplyPatchMsg,
    PreApplyPatch,
    PostApplyPatch,
    PreRebase,
    PostRewrite,
    PostCheckout,
    PostMerge,
    PrePush,
    PreAutoGC,
    PreReceive,
    Update,
    PostReceive,
}

/// Returned when a string names no hook point.
#[derive(Clone, Copy, Debug, PartialEq, Eq, Structural)]
pub struct UnknownHookType;

impl HookTypes {
    /// The kebab-case name of the hook point.
    pub open spec fn kebab(self) -> Seq<char> {
        match self {
            HookTypes::PreCommit => "pre-commit"@,
            HookTypes::PrepareCommitMsg => "prepare-commit-msg"@,
            HookTypes::CommitMsg => "commit-msg"@,
            HookTypes::PostCommit => "post-commit"@,
            HookTypes::ApplyPatchMsg => "apply-patch-msg"@,
            HookTypes::PreApplyPatch => "pre-apply-patch"@,
            HookTypes::PostApplyPatch => "post-apply-patch"@,
            HookTypes::PreRebase => "pre-rebase"@,
            HookTypes::PostRewrite => "post-rewrite"@,
            HookTypes::PostCheckout => "post-checkout"@,
            HookTypes::PostMerge => "post-merge"@,
            HookTypes::PrePush => "pre-push"@,
            HookTypes::PreAutoGC => "pre-auto-gc"@,
            HookTypes::PreReceive => "pre-receive"@,
            HookTypes::Update => "update"@,
            HookTypes::PostReceive => "post-receive"@,
        }
    }

    /// The name as a string slice.
    pub fn as_str(&self) -> (r: &'static str)
        ensures
            r@ == self.kebab(),
    {
        match self {
            HookTypes::PreCommit => "pre-commit",
            HookTypes::PrepareCommitMsg => "prepare-commit-msg",
            HookTypes::CommitMsg => "commit-msg",
            HookTypes::PostCommit => "post-commit",
            HookTypes::ApplyPatchMsg => "apply-patch-msg",
            HookTypes::PreApplyPatch => "pre-apply-patch",
            HookTypes::PostApplyPatch => "post-apply-patch",
            HookTypes::PreRebase => "pre-rebase",
            HookTypes::PostRewrite => "post-rewrite",
            HookTypes::PostCheckout => "post-checkout",
            HookTypes::PostMerge => "post-merge",
            HookTypes::PrePush => "pre-push",
            HookTypes::PreAutoGC => "pre-auto-gc",
            HookTypes::PreReceive => "pre-receive",
            HookTypes::Update => "update",
            HookTypes::PostReceive => "post-receive",
        }
    }

    /// The name as an owned string.
    pub fn to_string(&self) -> (r: String)
        ensures
            r@ == self.kebab(),
    {
        String::from_str(self.as_str())
    }

    /// Reads a hook point from its kebab-case name; any other string is refused.
    pub fn from_str(s: &str) -> (r: Result<HookTypes, UnknownHookType>)
        ensures
            forall|h: HookTypes| r == Ok::<HookTypes, UnknownHookType>(h) <==> #[trigger] h.kebab() == s@,
            r is Err <==> forall|h: HookTypes| #[trigger] h.kebab() != s@,
    {
        let owned = String::from_str(s);
        let mut i: usize = 0;
        while i < 16
            invariant
                owned@ == s@,
                i <= 16,
                forall|j: int| 0 <= j < i ==> all_hook_types()[j].kebab() != s@,
            decreases 16 - i,
        {
            let h = hook_type_at(i);
            if owned == h.to_string() {
                proof {
                    assert forall|g: HookTypes| #[trigger] g.kebab() == s@ implies g == h by {
                        lemma_kebab_injective(g, h);
                    }
                }
                return Ok(h);
            }
            i = i + 1;
        }
        proof {
            lemma_none_named(s@);
        }
        Err(UnknownHookType)
    }
}

/// Length and a few characters that tell the names apart.
spec fn name_key(h: HookTypes) -> (int, char, char, char) {
    match h {
        HookTypes::PreCommit => (10, 'p', 'c', 'm'),
        HookTypes::PrepareCommitMsg => (18, 'p', 'a', '-'),
        HookTypes::CommitMsg => (10, 'c', 'i', 'm'),
        HookTypes::PostCommit => (11, 'p', '-', 'm'),
        HookTypes::ApplyPatchMsg => (15, 'a', 'y', 'a'),
        HookTypes::PreApplyPatch => (15, 'p', 'a', 'l'),
        HookTypes::PostApplyPatch => (16, 'p', '-', 'p'),
        HookTypes::PreRebase => (10, 'p', 'r', 'a'),
        HookTypes::PostRewrite => (12, 'p', '-', 'w'),
        HookTypes::PostCheckout => (13, 'p', '-', 'e'),
        HookTypes::PostMerge => (10, 'p', '-', 'r'),
        HookTypes::PrePush => (8, 'p', 'p', 'h'),
        HookTypes::PreAutoGC => (11, 'p', 'a', 'o'),
        HookTypes::PreReceive => (11, 'p', 'r', 'e'),
        HookTypes::Update => (6, 'u', 't', 'u'),
        HookTypes::PostReceive => (12, 'p', '-', 'c'),
    }
}

spec fn key_of(s: Seq<char>) -> (int, char, char, char) {
    (s.len() as int, s[0], s[4], if s.len() > 7 { s[7] } else { s[0] })
}

proof fn lemma_key_of_name(h: HookTypes)
    ensures
        key_of(h.kebab()) == name_key(h),
{
    match h {
            HookTypes::PreCommit => {
                reveal_strlit("pre-commit");
            },
            HookTypes::PrepareCommitMsg => {
                reveal_strlit("prepare-commit-msg");
            },
            HookTypes::CommitMsg => {
                reveal_strlit("commit-msg");
            },
            HookTypes::PostCommit => {
                reveal_strlit("post-commit");
            },
            HookTypes::ApplyPatchMsg => {
                reveal_strlit("apply-patch-msg");
            },
            HookTypes::PreApplyPatch => {
                reveal_strlit("pre-apply-patch");
            },
            HookTypes::PostApplyPatch => {
                reveal_strlit("post-apply-patch");
            },
            HookTypes::PreRebase => {
                reveal_strlit("pre-rebase");
            },
            HookTypes::PostRewrite => {
                reveal_strlit("post-rewrite");
            },
            HookTypes::PostCheckout => {
                reveal_strlit("post-checkout");
            },
            HookTypes::PostMerge => {
                reveal_strlit("post-merge");
            },
            HookTypes::PrePush => {
                reveal_strlit("pre-push");
            },
            HookTypes::PreAutoGC => {
                reveal_strlit("pre-auto-gc");
            },
            HookTypes::PreReceive => {
                reveal_strlit("pre-receive");
            },
            HookTypes::Update => {
                reveal_strlit("update");
            },
            HookTypes::PostReceive => {
                reveal_strlit("post-receive");
            },
    }
}

/// Distinct hook points have distinct names, so a name read back gives the
/// hook point it was written from.
pub proof fn lemma_kebab_injective(a: HookTypes, b: HookTypes)
    requires
        a.kebab() == b.kebab(),
    ensures
        a == b,
{
    lemma_key_of_name(a);
    lemma_key_of_name(b);
}

impl std::str::FromStr for HookTypes {
    type Err = UnknownHookType;

    fn from_str(s: &str) -> Result<HookTypes, UnknownHookType> {
        HookTypes::from_str(s)
    }
}

/// Every hook point, in declaration order.
pub open spec fn all_hook_types() -> Seq<HookTypes> {
    seq![
        HookTypes::PreCommit,
        HookTypes::PrepareCommitMsg,
        HookTypes::CommitMsg,
        HookTypes::PostCommit,
        HookTypes::ApplyPatchMsg,
        HookTypes::PreApplyPatch,
        HookTypes::PostApplyPatch,
        HookTypes::PreRebase,
        HookTypes::PostRewrite,
        HookTypes::PostCheckout,
        HookTypes::PostMerge,
        HookTypes::PrePush,
        HookTypes::PreAutoGC,
        HookTypes::PreReceive,
        HookTypes::Update,
        HookTypes::PostReceive,
    ]
}

proof fn lemma_none_named(s: Seq<char>)
    requires
        forall|j: int| 0 <= j < 16 ==> all_hook_types()[j].kebab() != s,
    ensures
        forall|h: HookTypes| #[trigger] h.kebab() != s,
{
    assert forall|h: HookTypes| #[trigger] h.kebab() != s by {
        match h {
            HookTypes::PreCommit => assert(all_hook_types()[0] == h),
            HookTypes::PrepareCommitMsg => assert(all_hook_types()[1] == h),
            HookTypes::CommitMsg => assert(all_hook_types()[2] == h),
            HookTypes::PostCommit => assert(all_hook_types()[3] == h),
            HookTypes::ApplyPatchMsg => assert(all_hook_types()[4] == h),
            HookTypes::PreApplyPatch => assert(all_hook_types()[5] == h),
            HookTypes::PostApplyPatch => assert(all_hook_types()[6] == h),
            HookTypes::PreRebase => assert(all_hook_types()[7] == h),
            HookTypes::PostRewrite => assert(all_hook_types()[8] == h),
            HookTypes::PostCheckout => assert(all_hook_types()[9] == h),
            HookTypes::PostMerge => assert(all_hook_types()[10] == h),
            HookTypes::PrePush => assert(all_hook_types()[11] == h),
            HookTypes::PreAutoGC => assert(all_hook_types()[12] == h),
            HookTypes::PreReceive => assert(all_hook_types()[13] == h),
            HookTypes::Update => assert(all_hook_types()[14] == h),
            HookTypes::PostReceive => assert(all_hook_types()[15] == h),
        }
    }
}

fn hook_type_at(i: usize) -> (h: HookTypes)
    requires
        i < 16,
    ensures
        h == all_hook_types()[i as int],
{
    match i {
        0 => HookTypes::PreCommit,
        1 => HookTypes::PrepareCommitMsg,
        2 => HookTypes::CommitMsg,
        3 => HookTypes::PostCommit,
        4 => HookTypes::ApplyPatchMsg,
        5 => HookTypes::PreApplyPatch,
        6 => HookTypes::PostApplyPatch,
        7 => HookTypes::PreRebase,
        8 => HookTypes::PostRewrite,
        9 => HookTypes::PostCheckout,
        10 => HookTypes::PostMerge,
        11 => HookTypes::PrePush,
        12 => HookTypes::PreAutoGC,
        13 => HookTypes::PreReceive,
        14 => HookTypes::Update,
        _ => HookTypes::PostReceive,
    }
}

} // verus!
