use vstd::prelude::*;

use crate::paths::{
    chars_lt, lemma_chars_lt_connected, lemma_chars_lt_irrefl, lemma_chars_lt_trans,
    path_is_ignored, spec_ignored, str_eq, str_lt,
};

verus! {

// ---------------------------------------------------------------------------
// The script: the declared state of the machine.
// ---------------------------------------------------------------------------

/// How to start one effector: an executable and its arguments.
pub struct Invocation {
    pub exe: String,
    pub args: Vec<String>,
}

/// A validated script: the desired machine state as path-addressed contents,
/// the ignore patterns, and the effector descriptors.  Parsing and validating
/// the script language is a collaborator's job; the engine receives the
/// finished value.
pub struct Script {
    pub shadow_dir: String,
    pub paths: Vec<(String, Vec<u8>)>,
    pub ignores: Vec<String>,
    pub effectors: Vec<(String, Invocation)>,
}

impl Script {
    /// The declared slash-paths, in declaration order.
    pub open spec fn keys(&self) -> Seq<Seq<char>> {
        Seq::new(self.paths@.len(), |i: int| self.paths@[i].0@)
    }

    pub open spec fn has_key(&self, q: Seq<char>) -> bool {
        exists|i: int| 0 <= i < self.keys().len() && self.keys()[i] == q
    }

    pub open spec fn spec_ignores_path(&self, p: Seq<char>) -> bool {
        spec_ignored(self.ignores.deep_view(), p)
    }

    /// A path is ignored exactly when some ignore pattern opens it.
    pub fn ignores_path(&self, path: &str) -> (r: bool)
        ensures
            r == self.spec_ignores_path(path@),
    {
        path_is_ignored(&self.ignores, path)
    }
}

// ---------------------------------------------------------------------------
// The path set: an ordered set of slash-paths with lexicographic iteration,
// so every reconciliation run walks its paths in the same order.
// ---------------------------------------------------------------------------

pub struct PathSet {
    pub items: Vec<String>,
}

impl View for PathSet {
    type V = Seq<Seq<char>>;

    open spec fn view(&self) -> Seq<Seq<char>> {
        self.items.deep_view()
    }
}

impl PathSet {
    /// Strictly sorted, hence free of duplicates.
    pub open spec fn wf(&self) -> bool {
        forall|i: int, j: int|
            0 <= i < j < self@.len() ==> chars_lt(#[trigger] self@[i], #[trigger] self@[j])
    }

    pub open spec fn contains_path(&self, q: Seq<char>) -> bool {
        exists|i: int| 0 <= i < self@.len() && self@[i] == q
    }

    pub fn new() -> (r: PathSet)
        ensures
            r.wf(),
            r@.len() == 0,
            forall|q: Seq<char>| !r.contains_path(q),
    {
        let r = PathSet { items: Vec::new() };
        proof {
            assert(r@ =~~= Seq::<Seq<char>>::empty());
        }
        r
    }

    pub fn len(&self) -> (r: usize)
        ensures
            r == self@.len(),
    {
        self.items.len()
    }

    pub fn get(&self, i: usize) -> (r: &str)
        requires
            i < self@.len(),
        ensures
            r@ == self@[i as int],
    {
        let r = self.items[i].as_str();
        proof {
            assert(self@[i as int] =~= self.items@[i as int]@);
        }
        r
    }

    pub fn contains(&self, p: &str) -> (r: bool)
        ensures
            r == self.contains_path(p@),
    {
        let mut i: usize = 0;
        while i < self.items.len()
            invariant
                i <= self@.len(),
                self@.len() == self.items@.len(),
                forall|k: int| 0 <= k < i ==> self@[k] != p@,
            decreases self@.len() - i,
        {
            proof {
                assert(self@[i as int] =~= self.items@[i as int]@);
            }
            if str_eq(self.items[i].as_str(), p) {
                return true;
            }
            i = i + 1;
        }
        false
    }

    /// Adds a path, keeping the order; adding a path already present changes
    /// nothing.
    pub fn insert(&mut self, s: String)
        requires
            old(self).wf(),
        ensures
            final(self).wf(),
            forall|q: Seq<char>|
                #[trigger] final(self).contains_path(q) <==> (old(self).contains_path(q) || q
                    == s@),
    {
        let ghost pre = self@;
        let n = self.items.len();
        let mut i: usize = 0;
        while i < n && str_lt(self.items[i].as_str(), s.as_str())
            invariant
                n == self.items@.len(),
                self@.len() == n,
                self@ == pre,
                i <= n,
                forall|k: int| 0 <= k < i ==> chars_lt(#[trigger] self@[k], s@),
            decreases n - i,
        {
            proof {
                assert(self@[i as int] =~= self.items@[i as int]@);
            }
            i = i + 1;
        }
        proof {
            if i < n {
                assert(self@[i as int] =~= self.items@[i as int]@);
            }
        }
        if i < n && str_eq(self.items[i].as_str(), s.as_str()) {
            proof {
                assert(self.contains_path(s@));
            }
            return ;
        }
        proof {
            if i < n {
                assert(!chars_lt(self@[i as int], s@));
                assert(self@[i as int] != s@);
                if !chars_lt(s@, self@[i as int]) {
                    lemma_chars_lt_connected(self@[i as int], s@);
                }
                assert(chars_lt(s@, self@[i as int]));
            }
        }
        self.items.insert(i, s);
        proof {
            assert(self@ =~~= pre.insert(i as int, s@));
            let now = self@;
            assert forall|a: int, b: int| 0 <= a < b < now.len() implies chars_lt(
                #[trigger] now[a],
                #[trigger] now[b],
            ) by {
                let ii = i as int;
                if b < ii {
                    assert(now[a] == pre[a] && now[b] == pre[b]);
                } else if a < ii && b == ii {
                    assert(now[a] == pre[a] && now[b] == s@);
                } else if a < ii && b > ii {
                    assert(now[a] == pre[a] && now[b] == pre[b - 1]);
                } else if a == ii && b > ii {
                    assert(now[a] == s@ && now[b] == pre[b - 1]);
                    assert(chars_lt(s@, pre[ii]));
                    if b - 1 > ii {
                        assert(chars_lt(pre[ii], pre[b - 1]));
                        lemma_chars_lt_trans(s@, pre[ii], pre[b - 1]);
                    }
                } else {
                    assert(now[a] == pre[a - 1] && now[b] == pre[b - 1]);
                }
            }
            assert forall|q: Seq<char>|
                #[trigger] self.contains_path(q) <==> (exists|k: int|
                    0 <= k < pre.len() && pre[k] == q) || q == s@ by {
                let ii = i as int;
                if self.contains_path(q) {
                    let k = choose|k: int| 0 <= k < now.len() && now[k] == q;
                    if k < ii {
                        assert(pre[k] == q);
                    } else if k == ii {
                    } else {
                        assert(pre[k - 1] == q);
                    }
                }
                if exists|k: int| 0 <= k < pre.len() && pre[k] == q {
                    let k = choose|k: int| 0 <= k < pre.len() && pre[k] == q;
                    if k < ii {
                        assert(now[k] == q);
                    } else {
                        assert(now[k + 1] == q);
                    }
                }
                if q == s@ {
                    assert(now[ii] == q);
                }
            }
        }
    }

    /// Takes a path out; taking out a path not present changes nothing.
    pub fn remove(&mut self, p: &str)
        requires
            old(self).wf(),
        ensures
            final(self).wf(),
            forall|q: Seq<char>|
                #[trigger] final(self).contains_path(q) <==> (old(self).contains_path(q) && q
                    != p@),
    {
        let ghost pre = self@;
        proof {
            assert(old(self)@ == pre);
        }
        let n = self.items.len();
        let mut i: usize = 0;
        while i < n
            invariant
                old(self)@ == pre,
                old(self).wf(),
                n == self.items@.len(),
                self@.len() == n,
                self@ == pre,
                i <= n,
                forall|k: int| 0 <= k < i ==> self@[k] != p@,
            decreases n - i,
        {
            proof {
                assert(self@[i as int] =~= self.items@[i as int]@);
            }
            if str_eq(self.items[i].as_str(), p) {
                self.items.remove(i);
                proof {
                    assert(old(self)@ == pre);
                    assert(pre[i as int] == p@);
                    assert(self@ =~~= pre.remove(i as int));
                    let now = self@;
                    let ii = i as int;
                    assert forall|a: int, b: int| 0 <= a < b < now.len() implies chars_lt(
                        #[trigger] now[a],
                        #[trigger] now[b],
                    ) by {
                        let pa = if a < ii { a } else { a + 1 };
                        let pb = if b < ii { b } else { b + 1 };
                        assert(0 <= pa < pb < pre.len());
                        assert(chars_lt(old(self)@[pa], old(self)@[pb]));
                        assert(now[a] == pre[pa] && now[b] == pre[pb]);
                    }
                    assert forall|q: Seq<char>|
                        #[trigger] self.contains_path(q) <==> ((exists|k: int|
                            0 <= k < pre.len() && pre[k] == q) && q != p@) by {
                        if self.contains_path(q) {
                            let k = choose|k: int| 0 <= k < now.len() && now[k] == q;
                            let pk = if k < ii { k } else { k + 1 };
                            assert(pre[pk] == q);
                            if q == p@ {
                                // a second copy of p would break the strict order
                                if pk < ii {
                                    assert(chars_lt(old(self)@[pk], old(self)@[ii]));
                                    lemma_chars_lt_irrefl(p@);
                                } else {
                                    assert(ii < pk < pre.len());
                                    assert(chars_lt(old(self)@[ii], old(self)@[pk]));
                                    lemma_chars_lt_irrefl(p@);
                                }
                            }
                        }
                        if (exists|k: int| 0 <= k < pre.len() && pre[k] == q) && q != p@ {
                            let k = choose|k: int| 0 <= k < pre.len() && pre[k] == q;
                            assert(k != ii);
                            if k < ii {
                                assert(now[k] == q);
                            } else {
                                assert(now[k - 1] == q);
                            }
                        }
                    }
                }
                return ;
            }
            i = i + 1;
        }
    }
}

// ---------------------------------------------------------------------------
// Case folding, for the collision guard between git paths and script paths.
// ---------------------------------------------------------------------------

pub uninterp spec fn fold_of(s: Seq<char>) -> Seq<char>;

/// Relies on unicase::eq: it maps both strings through Unicode case folding
/// and compares the folded characters, a function of the two strings alone.
#[verifier::external_body]
pub(crate) fn case_eq(a: &str, b: &str) -> (r: bool)
    ensures
        r == (fold_of(a@) == fold_of(b@)),
{
    unicase::eq(&a, &b)
}

// ---------------------------------------------------------------------------
// Engine errors.
// ---------------------------------------------------------------------------

#[derive(Debug)]
pub enum EngineError {
    /// The shadow repo must be clean before a check refreshes it.
    DirtyRepo,
    /// After the refresh the working tree differs from what is committed:
    /// the machine disagrees with the approved state.
    Drift,
    /// A script path collides with a git path under case folding.
    CaseMismatch { git_path: String, script_path: String },
    /// The script declares a path that its own ignore patterns match.
    IgnoredPath { path: String },
    /// A pending git status outside the accepted set during apply.
    UnsupportedStatus { path: String },
    /// A path from git status that is not UTF-8.
    PathNotUtf8,
}

// ---------------------------------------------------------------------------
// The path universe for `check`: git paths and script paths, ignored ones
// excluded, with the case-collision guard.
// ---------------------------------------------------------------------------

pub open spec fn in_git(git: Seq<Seq<char>>, q: Seq<char>) -> bool {
    exists|i: int| 0 <= i < git.len() && git[i] == q
}

/// Builds the ordered union of the git tree's paths and the script's paths,
/// leaving out ignored ones.  It fails on a script path that is ignored, and
/// on a script path whose case fold equals a live git path spelled otherwise;
/// with no such path it succeeds.
pub fn build_universe(git_paths: &Vec<String>, script: &Script) -> (r: Result<
    PathSet,
    EngineError,
>)
    ensures
        r matches Ok(u) ==> {
            &&& u.wf()
            &&& forall|q: Seq<char>|
                #[trigger] u.contains_path(q) <==> (!script.spec_ignores_path(q) && (in_git(
                    git_paths.deep_view(),
                    q,
                ) || script.has_key(q)))
        },
        r is Ok ==> forall|k: int|
            0 <= k < script.keys().len() ==> !script.spec_ignores_path(
                #[trigger] script.keys()[k],
            ),
        r is Ok ==> forall|i: int, k: int|
            0 <= i < git_paths.deep_view().len() && 0 <= k < script.keys().len()
                && !script.spec_ignores_path(git_paths.deep_view()[i]) && fold_of(
                #[trigger] git_paths.deep_view()[i],
            ) == fold_of(#[trigger] script.keys()[k]) ==> git_paths.deep_view()[i]
                == script.keys()[k],
        r matches Err(e) ==> (e matches EngineError::IgnoredPath { path } && script.has_key(
            path@,
        ) && script.spec_ignores_path(path@)) || (e matches EngineError::CaseMismatch {
            git_path,
            script_path,
        } && in_git(git_paths.deep_view(), git_path@) && !script.spec_ignores_path(git_path@)
            && script.has_key(script_path@) && fold_of(git_path@) == fold_of(script_path@)
            && git_path@ != script_path@),
        ((forall|k: int|
            0 <= k < script.keys().len() ==> !script.spec_ignores_path(
                #[trigger] script.keys()[k],
            )) && (forall|i: int, k: int|
            0 <= i < git_paths.deep_view().len() && 0 <= k < script.keys().len()
                && !script.spec_ignores_path(git_paths.deep_view()[i]) && fold_of(
                #[trigger] git_paths.deep_view()[i],
            ) == fold_of(#[trigger] script.keys()[k]) ==> git_paths.deep_view()[i]
                == script.keys()[k])) ==> r is Ok,
{
    let gn = git_paths.len();
    let mut u = PathSet::new();
    let mut i: usize = 0;
    while i < gn
        invariant
            gn == git_paths@.len(),
            i <= gn,
            u.wf(),
            forall|q: Seq<char>|
                #[trigger] u.contains_path(q) <==> (!script.spec_ignores_path(q) && exists|k: int|
                    0 <= k < i && git_paths.deep_view()[k] == q),
        decreases gn - i,
    {
        proof {
            assert(git_paths.deep_view()[i as int] =~= git_paths@[i as int]@);
        }
        if !script.ignores_path(git_paths[i].as_str()) {
            u.insert(git_paths[i].clone());
        }
        i = i + 1;
    }
    let sn = script.paths.len();
    let mut j: usize = 0;
    while j < sn
        invariant
            gn == git_paths@.len(),
            sn == script.paths@.len(),
            j <= sn,
            u.wf(),
            forall|q: Seq<char>|
                #[trigger] u.contains_path(q) <==> (!script.spec_ignores_path(q) && in_git(
                    git_paths.deep_view(),
                    q,
                )) || (exists|k: int| 0 <= k < j && script.keys()[k] == q),
            forall|k: int| 0 <= k < j ==> !script.spec_ignores_path(#[trigger] script.keys()[k]),
            forall|t: int, k: int|
                0 <= t < gn && 0 <= k < j && !script.spec_ignores_path(git_paths.deep_view()[t])
                    && fold_of(#[trigger] git_paths.deep_view()[t]) == fold_of(
                    #[trigger] script.keys()[k],
                ) ==> git_paths.deep_view()[t] == script.keys()[k],
        decreases sn - j,
    {
        proof {
            assert(script.keys()[j as int] == script.paths@[j as int].0@);
        }
        if script.ignores_path(script.paths[j].0.as_str()) {
            return Err(EngineError::IgnoredPath { path: script.paths[j].0.clone() });
        }
        // the collision guard: no live git path may equal this script path
        // under case folding while being spelled otherwise
        let mut k: usize = 0;
        while k < gn
            invariant
                gn == git_paths@.len(),
                sn == script.paths@.len(),
                j < sn,
                forall|t: int|
                    0 <= t < k && !script.spec_ignores_path(#[trigger] git_paths.deep_view()[t])
                        && fold_of(git_paths.deep_view()[t]) == fold_of(script.keys()[j as int])
                        ==> git_paths.deep_view()[t] == script.keys()[j as int],
            decreases gn - k,
        {
            proof {
                assert(git_paths.deep_view()[k as int] =~= git_paths@[k as int]@);
                assert(script.keys()[j as int] == script.paths@[j as int].0@);
            }
            let g = git_paths[k].as_str();
            let p = script.paths[j].0.as_str();
            if !script.ignores_path(g) && case_eq(g, p) && !str_eq(g, p) {
                proof {
                    assert(fold_of(git_paths.deep_view()[k as int]) == fold_of(
                        script.keys()[j as int],
                    ));
                }
                return Err(
                    EngineError::CaseMismatch {
                        git_path: git_paths[k].clone(),
                        script_path: script.paths[j].0.clone(),
                    },
                );
            }
            k = k + 1;
        }
        u.insert(script.paths[j].0.clone());
        j = j + 1;
    }
    Ok(u)
}

// ---------------------------------------------------------------------------
// The per-path decisions of `check` and `apply`.
// ---------------------------------------------------------------------------

/// What `check` does with one path after the effector's answer: an absent
/// artifact's shadow file is deleted, a present one is gathered afresh.
#[derive(Clone, Copy, PartialEq, Eq, Structural, Debug)]
pub enum CheckAction {
    DeleteShadowFile,
    Gather,
}

pub fn check_action(present: bool) -> (r: CheckAction)
    ensures
        r == (if present {
            CheckAction::Gather
        } else {
            CheckAction::DeleteShadowFile
        }),
{
    if present {
        CheckAction::Gather
    } else {
        CheckAction::DeleteShadowFile
    }
}

/// The `check` precondition: the shadow repo must be clean, so that fresh
/// effector output is the sole source of any diff.
pub fn require_clean(statuses_empty: bool) -> (r: Result<(), EngineError>)
    ensures
        statuses_empty <==> r is Ok,
        !statuses_empty ==> r == Err::<(), EngineError>(EngineError::DirtyRepo),
{
    if statuses_empty {
        Ok(())
    } else {
        Err(EngineError::DirtyRepo)
    }
}

/// The `check` postcondition: a working tree still clean after the refresh
/// means the machine matches the approved state; anything else is drift.
pub fn require_no_drift(statuses_empty: bool) -> (r: Result<(), EngineError>)
    ensures
        statuses_empty <==> r is Ok,
        !statuses_empty ==> r == Err::<(), EngineError>(EngineError::Drift),
{
    if statuses_empty {
        Ok(())
    } else {
        Err(EngineError::Drift)
    }
}

/// A pending working-tree entry's status, as git reports it; `Other` stands
/// for everything outside the accepted set (renames, type changes, conflicts,
/// staged entries).
#[derive(Clone, Copy, PartialEq, Eq, Structural, Debug)]
pub enum Status {
    New,
    Modified,
    Deleted,
    Other,
}

#[derive(Clone, Copy, PartialEq, Eq, Structural, Debug)]
pub enum IndexOp {
    Add,
    Remove,
}

#[derive(Clone, Copy, PartialEq, Eq, Structural, Debug)]
pub enum ApplyDispatch {
    Skip,
    Affect,
}

/// The first decision of `apply` for one pending entry: an ignored path is
/// skipped, every other one is handed to its effector's affect call.
pub fn apply_dispatch(path: &str, script: &Script) -> (r: ApplyDispatch)
    ensures
        r == (if script.spec_ignores_path(path@) {
            ApplyDispatch::Skip
        } else {
            ApplyDispatch::Affect
        }),
{
    if script.ignores_path(path) {
        ApplyDispatch::Skip
    } else {
        ApplyDispatch::Affect
    }
}

/// The second decision of `apply`, taken after the affect call went out: a
/// new or modified file is staged, a deleted one is removed from the index,
/// and any other status is fatal, naming the path.
pub fn apply_index_op(path: &str, status: Status) -> (r: Result<IndexOp, EngineError>)
    ensures
        status == Status::New || status == Status::Modified ==> r == Ok::<IndexOp, EngineError>(
            IndexOp::Add,
        ),
        status == Status::Deleted ==> r == Ok::<IndexOp, EngineError>(IndexOp::Remove),
        status == Status::Other ==> (r matches Err(e) && (e matches
            EngineError::UnsupportedStatus { path: p } && p@ == path@)),
{
    match status {
        Status::New => Ok(IndexOp::Add),
        Status::Modified => Ok(IndexOp::Add),
        Status::Deleted => Ok(IndexOp::Remove),
        Status::Other => Err(EngineError::UnsupportedStatus { path: path.to_owned() }),
    }
}

// ---------------------------------------------------------------------------
// The `draft` plan// ---------------------------------------------------------------------------
// The `draft` plan: desired state into the shadow tree.
// ---------------------------------------------------------------------------

/// One step of a draft: write declared contents to a shadow file, or delete
/// a shadow file the script no longer declares.
#[derive(Debug)]
pub enum DraftAction {
    Write { path: String, contents: Vec<u8> },
    Remove { path: String },
}

#[verifier::ext_equal]
pub enum ActModel {
    Write { path: Seq<char>, contents: Seq<u8> },
    Remove { path: Seq<char> },
}

impl DeepView for DraftAction {
    type V = ActModel;

    open spec fn deep_view(&self) -> ActModel {
        match self {
            DraftAction::Write { path, contents } => ActModel::Write {
                path: path@,
                contents: contents@,
            },
            DraftAction::Remove { path } => ActModel::Remove { path: path@ },
        }
    }
}

impl Script {
    /// The declared paths with their contents, as a mathematical sequence.
    pub open spec fn paths_model(&self) -> Seq<(Seq<char>, Seq<u8>)> {
        Seq::new(self.paths@.len(), |i: int| (self.paths@[i].0@, self.paths@[i].1@))
    }
}

pub open spec fn write_acts(ps: Seq<(Seq<char>, Seq<u8>)>) -> Seq<ActModel> {
    Seq::new(ps.len(), |i: int| ActModel::Write { path: ps[i].0, contents: ps[i].1 })
}

pub open spec fn remove_acts(rs: Seq<Seq<char>>) -> Seq<ActModel> {
    Seq::new(rs.len(), |i: int| ActModel::Remove { path: rs[i] })
}

/// The effect of one action on a working tree, modelled as a map from
/// slash-path to file contents.
pub open spec fn apply_action(
    state: Map<Seq<char>, Seq<u8>>,
    a: ActModel,
) -> Map<Seq<char>, Seq<u8>> {
    match a {
        ActModel::Write { path, contents } => state.insert(path, contents),
        ActModel::Remove { path } => state.remove(path),
    }
}

pub open spec fn apply_actions(
    state: Map<Seq<char>, Seq<u8>>,
    acts: Seq<ActModel>,
) -> Map<Seq<char>, Seq<u8>>
    decreases acts.len(),
{
    if acts.len() == 0 {
        state
    } else {
        apply_actions(apply_action(state, acts[0]), acts.drop_first())
    }
}

/// Computes the draft: one write per declared path, in declaration order,
/// then one delete for each live git path the script no longer lists, in
/// lexicographic order.  No effector is consulted and nothing is staged; the
/// operator reviews the resulting diff.  The whole plan is computed before
/// anything is written, so a script that declares an ignored path (which a
/// validated script never does) is rejected with no file touched.
pub fn draft_plan(script: &Script, git_paths: &Vec<String>) -> (r: Result<
    Vec<DraftAction>,
    EngineError,
>)
    ensures
        r matches Ok(plan) ==> exists|rem: Seq<Seq<char>>|
            plan.deep_view() == write_acts(script.paths_model()) + #[trigger] remove_acts(rem)
                && (forall|q: Seq<char>|
                #[trigger] rem.contains(q) <==> (!script.spec_ignores_path(q) && in_git(
                    git_paths.deep_view(),
                    q,
                ) && !script.has_key(q))) && (forall|a: int, b: int|
                0 <= a < b < rem.len() ==> chars_lt(rem[a], rem[b])),
        r matches Ok(_) ==> forall|k: int|
            0 <= k < script.keys().len() ==> !script.spec_ignores_path(
                #[trigger] script.keys()[k],
            ),
        r matches Err(e) ==> (e matches EngineError::IgnoredPath { path } && script.has_key(
            path@,
        ) && script.spec_ignores_path(path@)),
        (forall|k: int|
            0 <= k < script.keys().len() ==> !script.spec_ignores_path(
                #[trigger] script.keys()[k],
            )) ==> r is Ok,
{
    let gn = git_paths.len();
    let mut remaining = PathSet::new();
    let mut i: usize = 0;
    while i < gn
        invariant
            gn == git_paths@.len(),
            i <= gn,
            remaining.wf(),
            forall|q: Seq<char>|
                #[trigger] remaining.contains_path(q) <==> (!script.spec_ignores_path(q)
                    && exists|k: int| 0 <= k < i && git_paths.deep_view()[k] == q),
        decreases gn - i,
    {
        proof {
            assert(git_paths.deep_view()[i as int] =~= git_paths@[i as int]@);
        }
        if !script.ignores_path(git_paths[i].as_str()) {
            remaining.insert(git_paths[i].clone());
        }
        i = i + 1;
    }
    let mut plan: Vec<DraftAction> = Vec::new();
    proof {
        assert(plan.deep_view() =~~= write_acts(script.paths_model().take(0)));
    }
    let sn = script.paths.len();
    let mut j: usize = 0;
    while j < sn
        invariant
            gn == git_paths@.len(),
            sn == script.paths@.len(),
            j <= sn,
            remaining.wf(),
            plan.deep_view() == write_acts(script.paths_model().take(j as int)),
            forall|q: Seq<char>|
                #[trigger] remaining.contains_path(q) <==> (!script.spec_ignores_path(q) && in_git(
                    git_paths.deep_view(),
                    q,
                ) && !(exists|k: int| 0 <= k < j && script.keys()[k] == q)),
            forall|k: int| 0 <= k < j ==> !script.spec_ignores_path(#[trigger] script.keys()[k]),
        decreases sn - j,
    {
        proof {
            assert(script.keys()[j as int] == script.paths@[j as int].0@);
        }
        if script.ignores_path(script.paths[j].0.as_str()) {
            return Err(EngineError::IgnoredPath { path: script.paths[j].0.clone() });
        }
        let ghost plan_pre = plan.deep_view();
        let contents = crate::codec::copy_range(&script.paths[j].1, 0, script.paths[j].1.len());
        proof {
            assert(contents@ =~= script.paths@[j as int].1@);
        }
        plan.push(DraftAction::Write { path: script.paths[j].0.clone(), contents });
        proof {
            let pm = script.paths_model();
            assert(pm.len() == sn as int);
            assert(plan_pre == write_acts(pm.take(j as int)));
            assert(plan_pre.len() == j as int);
            assert(plan@.len() == j + 1);
            assert(plan.deep_view().len() == plan@.len());
            assert(plan.deep_view()[j as int] == plan@[j as int].deep_view());
            assert(plan.deep_view()[j as int] =~~= write_acts(pm.take(j as int + 1))[j as int]);
            assert forall|t: int| 0 <= t < plan.deep_view().len() implies plan.deep_view()[t]
                =~~= write_acts(pm.take(j as int + 1))[t] by {
                if t < j as int {
                    assert(plan.deep_view()[t] == plan_pre[t]);
                    assert(plan_pre[t] == write_acts(pm.take(j as int))[t]);
                }
            }
            assert(plan.deep_view() =~~= write_acts(pm.take(j as int + 1)));
        }
        remaining.remove(script.paths[j].0.as_str());
        j = j + 1;
    }
    proof {
        assert(script.paths_model().take(sn as int) =~= script.paths_model());
    }
    let rn = remaining.len();
    let ghost rem = remaining@;
    let mut k: usize = 0;
    while k < rn
        invariant
            rn == rem.len(),
            remaining@ == rem,
            remaining.wf(),
            k <= rn,
            plan.deep_view() == write_acts(script.paths_model()) + remove_acts(
                rem.take(k as int),
            ),
        decreases rn - k,
    {
        let ghost plan_pre = plan.deep_view();
        let path = remaining.get(k);
        plan.push(DraftAction::Remove { path: path.to_owned() });
        proof {
            let pm = script.paths_model();
            let target = write_acts(pm) + remove_acts(rem.take(k as int + 1));
            assert(plan_pre.len() == pm.len() + k as int);
            assert(plan.deep_view().len() == pm.len() + k + 1);
            assert(plan.deep_view()[pm.len() + k as int] =~~= target[pm.len() + k as int]);
            assert forall|t: int| 0 <= t < plan.deep_view().len() implies plan.deep_view()[t]
                =~~= target[t] by {
                if t < pm.len() + k as int {
                    assert(plan.deep_view()[t] == plan_pre[t]);
                    assert(plan_pre[t] == (write_acts(pm) + remove_acts(rem.take(k as int)))[t]);
                    if t >= pm.len() {
                        assert(plan_pre[t] == remove_acts(rem.take(k as int))[t - pm.len()]);
                        assert(target[t] == remove_acts(rem.take(k as int + 1))[t - pm.len()]);
                    }
                }
            }
            assert(plan.deep_view() =~~= target);
        }
        k = k + 1;
    }
    proof {
        assert(rem.take(rn as int) =~= rem);
        assert forall|q: Seq<char>|
            #[trigger] rem.contains(q) <==> (!script.spec_ignores_path(q) && in_git(
                git_paths.deep_view(),
                q,
            ) && !script.has_key(q)) by {
            if rem.contains(q) {
                let w = choose|w: int| 0 <= w < rem.len() && rem[w] == q;
                assert(remaining.contains_path(q));
            }
            if !script.spec_ignores_path(q) && in_git(git_paths.deep_view(), q)
                && !script.has_key(q) {
                assert(remaining.contains_path(q));
            }
        }
    }
    Ok(plan)
}

/// Ignore semantics: a path matched by an ignore pattern reaches no
/// effector.  `check` walks only the universe, which leaves such a path out;
/// `apply` answers Skip for it before any dispatch.
pub proof fn lemma_ignored_never_dispatched(
    script: Script,
    git_paths: Seq<Seq<char>>,
    u: PathSet,
    path: Seq<char>,
)
    requires
        script.spec_ignores_path(path),
        forall|q: Seq<char>|
            #[trigger] u.contains_path(q) <==> (!script.spec_ignores_path(q) && (in_git(
                git_paths,
                q,
            ) || script.has_key(q))),
    ensures
        !u.contains_path(path),
{
}

// ---------------------------------------------------------------------------
// What a draft does to the working tree.
// ---------------------------------------------------------------------------

pub proof fn lemma_apply_actions_app(
    state: Map<Seq<char>, Seq<u8>>,
    a: Seq<ActModel>,
    b: Seq<ActModel>,
)
    ensures
        apply_actions(state, a + b) == apply_actions(apply_actions(state, a), b),
    decreases a.len(),
{
    if a.len() == 0 {
        assert(a + b =~= b);
    } else {
        assert((a + b)[0] == a[0]);
        assert((a + b).drop_first() =~= a.drop_first() + b);
        lemma_apply_actions_app(apply_action(state, a[0]), a.drop_first(), b);
    }
}

/// The contents the script declares for a path: the last binding wins.
pub open spec fn last_value(ps: Seq<(Seq<char>, Seq<u8>)>, q: Seq<char>) -> Option<Seq<u8>>
    decreases ps.len(),
{
    if ps.len() == 0 {
        None
    } else if ps.last().0 == q {
        Some(ps.last().1)
    } else {
        last_value(ps.drop_last(), q)
    }
}

pub proof fn lemma_last_value_has_key(ps: Seq<(Seq<char>, Seq<u8>)>, q: Seq<char>)
    ensures
        (last_value(ps, q) is Some) == (exists|i: int| 0 <= i < ps.len() && ps[i].0 == q),
    decreases ps.len(),
{
    if ps.len() > 0 {
        let front = ps.drop_last();
        lemma_last_value_has_key(front, q);
        if ps.last().0 == q {
            assert(ps[ps.len() - 1].0 == q);
        } else {
            if exists|i: int| 0 <= i < ps.len() && ps[i].0 == q {
                let i = choose|i: int| 0 <= i < ps.len() && ps[i].0 == q;
                assert(i < ps.len() - 1);
                assert(front[i].0 == q);
            }
            if last_value(ps, q) is Some {
                let i = choose|i: int| 0 <= i < front.len() && front[i].0 == q;
                assert(ps[i].0 == q);
            }
        }
    }
}

pub proof fn lemma_writes_pointwise(state: Map<Seq<char>, Seq<u8>>, ps: Seq<(Seq<char>, Seq<u8>)>)
    ensures
        forall|q: Seq<char>|
            #[trigger] apply_actions(state, write_acts(ps)).contains_key(q) <==> (last_value(
                ps,
                q,
            ) is Some || state.contains_key(q)),
        forall|q: Seq<char>|
            apply_actions(state, write_acts(ps)).contains_key(q)
                ==> #[trigger] apply_actions(state, write_acts(ps))[q] == (match last_value(
                ps,
                q,
            ) {
                Some(c) => c,
                None => state[q],
            }),
    decreases ps.len(),
{
    if ps.len() == 0 {
        assert(write_acts(ps) =~= Seq::<ActModel>::empty());
    } else {
        let front = ps.drop_last();
        let w = ActModel::Write { path: ps.last().0, contents: ps.last().1 };
        lemma_writes_pointwise(state, front);
        assert forall|t: int| 0 <= t < write_acts(ps).len() implies write_acts(ps)[t] =~~= (
        write_acts(front) + seq![w])[t] by {
            if t < ps.len() - 1 {
                assert(front[t] == ps[t]);
            }
        }
        assert(write_acts(ps) =~~= write_acts(front) + seq![w]);
        lemma_apply_actions_app(state, write_acts(front), seq![w]);
        let m1 = apply_actions(state, write_acts(front));
        assert(seq![w].drop_first() =~= Seq::<ActModel>::empty());
        assert(seq![w].len() == 1);
        assert(seq![w][0] == w);
        assert(apply_action(m1, w) == m1.insert(ps.last().0, ps.last().1));
        assert(apply_actions(m1, seq![w]) == apply_actions(
            apply_action(m1, w),
            seq![w].drop_first(),
        ));
        assert(apply_actions(apply_action(m1, w), Seq::<ActModel>::empty()) == apply_action(
            m1,
            w,
        ));
        assert(apply_actions(m1, seq![w]) == m1.insert(ps.last().0, ps.last().1));
        let m = apply_actions(state, write_acts(ps));
        assert(m == m1.insert(ps.last().0, ps.last().1));
        assert forall|q: Seq<char>|
            (#[trigger] m.contains_key(q) <==> (last_value(ps, q) is Some || state.contains_key(
                q,
            ))) && (m.contains_key(q) ==> m[q] == (match last_value(ps, q) {
                Some(c) => c,
                None => state[q],
            })) by {
            if q == ps.last().0 {
            } else {
                assert(last_value(ps, q) == last_value(front, q));
                assert(m.contains_key(q) == m1.contains_key(q));
            }
        }
    }
}

pub proof fn lemma_removes_pointwise(state: Map<Seq<char>, Seq<u8>>, rs: Seq<Seq<char>>)
    ensures
        forall|q: Seq<char>|
            #[trigger] apply_actions(state, remove_acts(rs)).contains_key(q) <==> (
            state.contains_key(q) && !rs.contains(q)),
        forall|q: Seq<char>|
            apply_actions(state, remove_acts(rs)).contains_key(q) ==> #[trigger] apply_actions(
                state,
                remove_acts(rs),
            )[q] == state[q],
    decreases rs.len(),
{
    if rs.len() == 0 {
        assert(remove_acts(rs) =~= Seq::<ActModel>::empty());
        assert forall|q: Seq<char>| !rs.contains(q) by {
            if rs.contains(q) {
                let i = choose|i: int| 0 <= i < rs.len() && rs[i] == q;
            }
        }
    } else {
        let rest = rs.drop_first();
        assert(remove_acts(rs)[0] == ActModel::Remove { path: rs[0] });
        assert(remove_acts(rs).drop_first() =~= remove_acts(rest));
        let s1 = state.remove(rs[0]);
        lemma_removes_pointwise(s1, rest);
        let m = apply_actions(state, remove_acts(rs));
        assert(m == apply_actions(s1, remove_acts(rest)));
        assert forall|q: Seq<char>|
            (#[trigger] m.contains_key(q) <==> (state.contains_key(q) && !rs.contains(q))) && (
            m.contains_key(q) ==> m[q] == state[q]) by {
            assert(rs.contains(q) == (q == rs[0] || rest.contains(q))) by {
                if rs.contains(q) {
                    let i = choose|i: int| 0 <= i < rs.len() && rs[i] == q;
                    if i > 0 {
                        assert(rest[i - 1] == q);
                        assert(rest.contains(q));
                    }
                }
                if rest.contains(q) {
                    let i = choose|i: int| 0 <= i < rest.len() && rest[i] == q;
                    assert(rs[i + 1] == q);
                }
                if q == rs[0] {
                    assert(rs.contains(q));
                }
            }
        }
    }
}

/// After a draft, the working tree under the shadow directory holds, outside
/// the ignored paths, exactly the script's declared files, each with its
/// declared contents: the plan writes every declared path and deletes every
/// other live git path.
pub proof fn lemma_draft_establishes_script(
    state: Map<Seq<char>, Seq<u8>>,
    script: Script,
    git: Seq<Seq<char>>,
    rem: Seq<Seq<char>>,
)
    requires
        forall|q: Seq<char>|
            #[trigger] rem.contains(q) <==> (!script.spec_ignores_path(q) && in_git(git, q)
                && !script.has_key(q)),
        forall|q: Seq<char>|
            #[trigger] state.contains_key(q) && !script.spec_ignores_path(q) ==> in_git(git, q),
        forall|k: int|
            0 <= k < script.keys().len() ==> !script.spec_ignores_path(
                #[trigger] script.keys()[k],
            ),
    ensures
        forall|q: Seq<char>|
            !script.spec_ignores_path(q) ==> ((#[trigger] apply_actions(
                state,
                write_acts(script.paths_model()) + remove_acts(rem),
            ).contains_key(q)) <==> script.has_key(q)),
        forall|q: Seq<char>|
            #[trigger] last_value(script.paths_model(), q) matches Some(c) ==> apply_actions(
                state,
                write_acts(script.paths_model()) + remove_acts(rem),
            ).contains_key(q) && apply_actions(
                state,
                write_acts(script.paths_model()) + remove_acts(rem),
            )[q] == c,
{
    let ps = script.paths_model();
    let mw = apply_actions(state, write_acts(ps));
    let m = apply_actions(state, write_acts(ps) + remove_acts(rem));
    lemma_apply_actions_app(state, write_acts(ps), remove_acts(rem));
    lemma_writes_pointwise(state, ps);
    lemma_removes_pointwise(mw, rem);
    assert forall|q: Seq<char>| (script.has_key(q) == (last_value(ps, q) is Some)) by {
        lemma_last_value_has_key(ps, q);
        assert(forall|i: int| 0 <= i < ps.len() ==> (#[trigger] ps[i].0) == script.keys()[i]);
        if script.has_key(q) {
            let i = choose|i: int|
                0 <= i < script.keys().len() && script.keys()[i] == q;
            assert(ps[i].0 == q);
        }
        if exists|i: int| 0 <= i < ps.len() && ps[i].0 == q {
            let i = choose|i: int| 0 <= i < ps.len() && ps[i].0 == q;
            assert(script.keys()[i] == q);
        }
    }
    assert forall|q: Seq<char>| !script.spec_ignores_path(q) implies (#[trigger] m.contains_key(
        q,
    ) <==> script.has_key(q)) by {
        if script.has_key(q) {
            assert(!rem.contains(q));
        }
    }
    assert forall|q: Seq<char>|
        (#[trigger] last_value(ps, q) matches Some(c) ==> (m.contains_key(q) && m[q] == c)) by {
        if last_value(ps, q) is Some {
            assert(script.has_key(q));
            assert(!script.spec_ignores_path(q));
            assert(!rem.contains(q));
            assert(mw.contains_key(q));
        }
    }
}

/// Drafting is idempotent: applying the same draft plan a second time leaves
/// the working tree exactly as the first application left it.
pub proof fn lemma_draft_idempotent(
    state: Map<Seq<char>, Seq<u8>>,
    ps: Seq<(Seq<char>, Seq<u8>)>,
    rem: Seq<Seq<char>>,
)
    requires
        forall|q: Seq<char>| #[trigger] rem.contains(q) ==> last_value(ps, q) is None,
    ensures
        apply_actions(
            apply_actions(state, write_acts(ps) + remove_acts(rem)),
            write_acts(ps) + remove_acts(rem),
        ) == apply_actions(state, write_acts(ps) + remove_acts(rem)),
{
    let plan = write_acts(ps) + remove_acts(rem);
    let m1 = apply_actions(state, plan);
    let m2 = apply_actions(m1, plan);
    lemma_apply_actions_app(state, write_acts(ps), remove_acts(rem));
    lemma_apply_actions_app(m1, write_acts(ps), remove_acts(rem));
    lemma_writes_pointwise(state, ps);
    lemma_writes_pointwise(m1, ps);
    lemma_removes_pointwise(apply_actions(state, write_acts(ps)), rem);
    lemma_removes_pointwise(apply_actions(m1, write_acts(ps)), rem);
    assert forall|q: Seq<char>|
        (#[trigger] m2.contains_key(q) <==> m1.contains_key(q)) && (m2.contains_key(q)
            ==> m2[q] == m1[q]) by {
        if rem.contains(q) {
        }
    }
    assert(m2 =~= m1);
}

} // verus!
