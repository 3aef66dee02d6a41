//! The change set of a repository: paths staged or changed in the working
//! tree, and paths committed but not yet pushed, as absolute paths without
//! repetition, in order.
use vstd::prelude::*;
use crate::text::views;

verus! {

/// The status of one path in the repository, as `git status` reports it.
pub struct StatusEntry {
    /// The path relative to the working directory, when it is valid text.
    pub path: Option<String>,
    pub index_new: bool,
    pub index_modified: bool,
    pub index_deleted: bool,
    pub wt_new: bool,
    pub wt_modified: bool,
    pub wt_deleted: bool,
}

impl StatusEntry {
    /// Added, modified or deleted, staged or not.
    pub open spec fn is_change(self) -> bool {
        self.index_new || self.index_modified || self.index_deleted || self.wt_new || self.wt_modified
            || self.wt_deleted
    }
}

/// The path `rel` joined onto the directory `base`, as on Unix: an absolute
/// `rel` replaces `base`; otherwise a `/` is put between them unless `base`
/// is empty or already ends in one.
pub open spec fn joined_path(base: Seq<char>, rel: Seq<char>) -> Seq<char> {
    if rel.len() > 0 && rel[0] == '/' {
        rel
    } else if base.len() == 0 || base.last() == '/' {
        base + rel
    } else {
        base + seq!['/'] + rel
    }
}

/// Relies on std's `Path::join` (through `PathBuf::push`) on Unix.
#[verifier::external_body]
pub(crate) fn join_path(base: &str, rel: &str) -> (r: String)
    ensures
        r@ == joined_path(base@, rel@),
{
    std::path::Path::new(base).join(rel).to_string_lossy().into_owned()
}

/// `a` comes before `b`, or equals it, comparing characters by code point.
pub open spec fn lex_le(a: Seq<char>, b: Seq<char>) -> bool
    decreases a.len(),
{
    if a.len() == 0 {
        true
    } else if b.len() == 0 {
        false
    } else if a[0] != b[0] {
        (a[0] as u32) < (b[0] as u32)
    } else {
        lex_le(a.drop_first(), b.drop_first())
    }
}

/// Relies on `slice::sort` for `String`, whose order is that of the UTF-8
/// bytes, which is that of the code points: the result is a permutation in
/// ascending order.
#[verifier::external_body]
fn sort_strings(v: &mut Vec<String>)
    ensures
        views(final(v)@).to_multiset() == views(old(v)@).to_multiset(),
        forall|i: int, j: int|
            0 <= i < j < final(v)@.len() ==> lex_le(#[trigger] final(v)@[i]@, #[trigger] final(v)@[j]@),
{
    v.sort();
}

/// The absolute paths the change set is made of, repetitions included.
pub open spec fn changed_candidates(
    workdir: Seq<char>,
    statuses: Seq<StatusEntry>,
    unpushed: Seq<Option<String>>,
) -> Seq<Seq<char>> {
    statuses.filter_map(
        |e: StatusEntry|
            if e.is_change() && e.path is Some {
                Some(joined_path(workdir, e.path->Some_0@))
            } else {
                None
            },
    ) + unpushed.filter_map(
        |p: Option<String>|
            match p {
                Some(s) => Some(joined_path(workdir, s@)),
                None => None,
            },
    )
}

/// Appends `p` unless it is already there.
fn push_unique(out: &mut Vec<String>, p: String)
    requires
        views(old(out)@).no_duplicates(),
    ensures
        views(final(out)@).no_duplicates(),
        views(final(out)@).to_set() == views(old(out)@).to_set().insert(p@),
{
    let mut i: usize = 0;
    while i < out.len()
        invariant
            i <= out.len(),
            views(out@).no_duplicates(),
            forall|k: int| 0 <= k < i ==> #[trigger] out@[k]@ != p@,
        decreases out.len() - i,
    {
        if out[i] == p {
            proof {
                assert(views(out@)[i as int] == p@);
                assert(views(out@).to_set().insert(p@) =~= views(out@).to_set());
            }
            return;
        }
        i = i + 1;
    }
    let ghost pre = views(out@);
    out.push(p);
    proof {
        assert(views(out@) =~= pre.push(p@));
        assert(views(out@).to_set() =~= pre.to_set().insert(p@)) by {
            assert forall|x: Seq<char>| views(out@).to_set().contains(x) <==> pre.to_set().insert(p@).contains(x) by {
                if x == p@ {
                    assert(views(out@)[pre.len() as int] == x);
                } else if pre.contains(x) {
                    let k = choose|k: int| 0 <= k < pre.len() && pre[k] == x;
                    assert(views(out@)[k] == x);
                }
            }
        }
        assert forall|a: int, b: int|
            0 <= a < views(out@).len() && 0 <= b < views(out@).len() && a != b
                implies views(out@)[a] != views(out@)[b] by {
            if b == pre.len() {
                assert(out@[a]@ != p@);
            } else if a == pre.len() {
                assert(out@[b]@ != p@);
            }
        }
    }
}

/// Gathers the change set from the status of each path and from the paths
/// the upstream branch lacks (empty where no upstream is set): changed paths
/// with a valid name and all named unpushed paths, joined onto `workdir`,
/// each once, in ascending order.
pub fn collect_changed_paths(
    workdir: &str,
    statuses: &Vec<StatusEntry>,
    unpushed: &Vec<Option<String>>,
) -> (r: Vec<String>)
    ensures
        views(r@).to_set() == changed_candidates(workdir@, statuses@, unpushed@).to_set(),
        views(r@).no_duplicates(),
        forall|i: int, j: int| 0 <= i < j < r@.len() ==> lex_le(#[trigger] r@[i]@, #[trigger] r@[j]@),
{
    let ghost fs = |e: StatusEntry|
        if e.is_change() && e.path is Some {
            Some(joined_path(workdir@, e.path->Some_0@))
        } else {
            None
        };
    let ghost fu = |p: Option<String>|
        match p {
            Some(s) => Some(joined_path(workdir@, s@)),
            None => None,
        };
    let mut out: Vec<String> = Vec::new();
    proof {
        assert(views(out@) =~= Seq::<Seq<char>>::empty());
        assert(statuses@.take(0) =~= Seq::<StatusEntry>::empty());
        assert(Seq::<StatusEntry>::empty().filter_map(fs) =~= Seq::<Seq<char>>::empty());
        assert(views(out@).to_set() =~= Set::<Seq<char>>::empty());
    }
    let mut i: usize = 0;
    while i < statuses.len()
        invariant
            i <= statuses.len(),
            fs == (|e: StatusEntry|
                if e.is_change() && e.path is Some {
                    Some(joined_path(workdir@, e.path->Some_0@))
                } else {
                    None
                }),
            views(out@).no_duplicates(),
            views(out@).to_set() == statuses@.take(i as int).filter_map(fs).to_set(),
        decreases statuses.len() - i,
    {
        proof {
            statuses@.lemma_filter_map_take_succ(fs, i as int);
        }
        let e = &statuses[i];
        if e.index_new || e.index_modified || e.index_deleted || e.wt_new || e.wt_modified || e.wt_deleted {
            if let Some(p) = &e.path {
                let full = join_path(workdir, p.as_str());
                push_unique(&mut out, full);
                proof {
                    let prev = statuses@.take(i as int).filter_map(fs);
                    assert((prev + seq![full@]).to_set() =~= prev.to_set().insert(full@)) by {
                        assert forall|x| (prev + seq![full@]).contains(x) <==> prev.to_set().insert(full@).contains(x) by {
                            if prev.contains(x) {
                                let k = choose|k: int| 0 <= k < prev.len() && prev[k] == x;
                                assert((prev + seq![full@])[k] == x);
                            }
                            if x == full@ {
                                assert((prev + seq![full@])[prev.len() as int] == x);
                            }
                            if (prev + seq![full@]).contains(x) {
                                let k = choose|k: int| 0 <= k < prev.len() + 1 && (prev + seq![full@])[k] == x;
                                if k < prev.len() {
                                    assert(prev[k] == x);
                                }
                            }
                        }
                    }
                }
            } else {
                proof {
                    let prev = statuses@.take(i as int).filter_map(fs);
                    assert(prev + Seq::<Seq<char>>::empty() =~= prev);
                }
            }
        } else {
            proof {
                let prev = statuses@.take(i as int).filter_map(fs);
                assert(prev + Seq::<Seq<char>>::empty() =~= prev);
            }
        }
        i = i + 1;
    }
    proof {
        assert(statuses@.take(statuses.len() as int) =~= statuses@);
    }
    let ghost first = statuses@.filter_map(fs);
    let mut k: usize = 0;
    proof {
        assert(unpushed@.take(0) =~= Seq::<Option<String>>::empty());
        assert(Seq::<Option<String>>::empty().filter_map(fu) =~= Seq::<Seq<char>>::empty());
        assert(first + Seq::<Seq<char>>::empty() =~= first);
    }
    while k < unpushed.len()
        invariant
            k <= unpushed.len(),
            fu == (|p: Option<String>|
                match p {
                    Some(s) => Some(joined_path(workdir@, s@)),
                    None => None,
                }),
            views(out@).no_duplicates(),
            views(out@).to_set() == (first + unpushed@.take(k as int).filter_map(fu)).to_set(),
        decreases unpushed.len() - k,
    {
        proof {
            unpushed@.lemma_filter_map_take_succ(fu, k as int);
        }
        if let Some(p) = &unpushed[k] {
            let full = join_path(workdir, p.as_str());
            push_unique(&mut out, full);
            proof {
                let prev = first + unpushed@.take(k as int).filter_map(fu);
                assert(first + unpushed@.take(k + 1).filter_map(fu) =~= prev + seq![full@]);
                assert((prev + seq![full@]).to_set() =~= prev.to_set().insert(full@)) by {
                    assert forall|x| (prev + seq![full@]).contains(x) <==> prev.to_set().insert(full@).contains(x) by {
                        if prev.contains(x) {
                            let j = choose|j: int| 0 <= j < prev.len() && prev[j] == x;
                            assert((prev + seq![full@])[j] == x);
                        }
                        if x == full@ {
                            assert((prev + seq![full@])[prev.len() as int] == x);
                        }
                        if (prev + seq![full@]).contains(x) {
                            let j = choose|j: int| 0 <= j < prev.len() + 1 && (prev + seq![full@])[j] == x;
                            if j < prev.len() {
                                assert(prev[j] == x);
                            }
                        }
                    }
                }
            }
        } else {
            proof {
                let prev = first + unpushed@.take(k as int).filter_map(fu);
                assert(first + unpushed@.take(k + 1).filter_map(fu) =~= prev);
            }
        }
        k = k + 1;
    }
    proof {
        assert(unpushed@.take(unpushed.len() as int) =~= unpushed@);
    }
    let ghost before = views(out@);
    sort_strings(&mut out);
    proof {
        broadcast use vstd::seq_lib::group_to_multiset_ensures;
        before.lemma_multiset_has_no_duplicates();
        views(out@).lemma_multiset_has_no_duplicates_conv();
        assert(views(out@).to_set() =~= before.to_set()) by {
            assert forall|x| views(out@).to_set().contains(x) <==> before.to_set().contains(x) by {
                assert(views(out@).contains(x) <==> views(out@).to_multiset().count(x) > 0);
                assert(before.contains(x) <==> before.to_multiset().count(x) > 0);
            }
        }
    }
    out
}

} // verus!
