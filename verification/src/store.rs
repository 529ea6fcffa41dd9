//! Branch & version store: branches, their ordered version histories, and
//! the lineage pointers between them.
//!
//! Invariants: branch names are unique within a project; a branch's
//! `latest_version` is the id of its last version (empty while the branch
//! has none); version ids are the sequence numbers `v1`, `v2`, ... and
//! timestamps never decrease along a branch.

use vstd::prelude::*;
use vstd::string::{StrSliceExecFns, StringExecFns};
use crate::{ErrorKind, StoreError};
use crate::e2k::parse_e2k;
use crate::e2k_diff::{diff_e2k, E2KDiffResult};
use crate::geometry::{diff_geometry, extract_members, GeometryDiffResult};
use crate::reconcile::WorkingFileInfo;
use crate::strutil::{dec_digits, str_eq, u64_to_string};

verus! {

/// One immutable, timestamped snapshot within a branch.
#[derive(Clone, Debug)]
pub struct VersionInfo {
    pub id: String,
    pub message: String,
    pub author: Option<String>,
    /// Milliseconds since the epoch.
    pub timestamp: i64,
    /// Path of the generated artifact; absent when generation was skipped
    /// or failed.
    pub e2k_path: Option<String>,
    pub analyzed: bool,
}

/// One named line of history, optionally forked from a version of another
/// branch.
#[derive(Clone, Debug)]
pub struct BranchData {
    pub name: String,
    pub description: Option<String>,
    pub versions: Vec<VersionInfo>,
    pub latest_version: String,
    pub parent_branch: Option<String>,
    pub parent_version: Option<String>,
    /// Creation time, milliseconds since the epoch.
    pub created: Option<i64>,
    pub working_file: Option<WorkingFileInfo>,
}

/// A whole project: its branches and the one currently checked out.
#[derive(Clone, Debug)]
pub struct ProjectState {
    pub project_name: String,
    pub project_path: String,
    pub current_branch: String,
    pub branches: Vec<BranchData>,
}

/// A request to fork a new branch from a version of an existing one.
#[derive(Clone, Debug)]
pub struct CreateBranchRequest {
    pub project_path: String,
    pub branch_name: String,
    pub from_branch: String,
    pub from_version: String,
    pub description: Option<String>,
}

/// A request to commit a version on a branch.
#[derive(Clone, Debug)]
pub struct SaveVersionRequest {
    pub project_path: String,
    pub branch_name: String,
    pub message: String,
    pub generate_e2k: bool,
}

/// A request to compare two versions.
#[derive(Clone, Debug)]
pub struct CompareVersionsRequest {
    pub project_path: String,
    pub version1: VersionIdentifier,
    pub version2: VersionIdentifier,
    pub diff_type: String,
}

/// Names one version of one branch.
#[derive(Clone, Debug)]
pub struct VersionIdentifier {
    pub branch: String,
    pub version_id: String,
}

/// What the external E2K generator reported.
#[derive(Clone, Debug)]
pub struct GenerateE2KData {
    pub input_file: String,
    pub output_file: Option<String>,
    pub file_exists: bool,
    pub file_extension: Option<String>,
    pub output_exists: Option<bool>,
    pub generation_successful: Option<bool>,
    pub file_size_bytes: Option<u64>,
    pub generation_time_ms: Option<u64>,
    pub messages: Vec<String>,
}

/// The id of the `n`-th version of a branch, counting from one.
pub open spec fn version_id_spec(n: nat) -> Seq<char> {
    "v"@ + dec_digits(n)
}

/// A branch is well-formed when `latest_version` tracks the last version,
/// ids are the sequence numbers in order, and timestamps never decrease.
pub open spec fn branch_wf(b: BranchData) -> bool {
    &&& (b.versions@.len() == 0 ==> b.latest_version@ == Seq::<char>::empty())
    &&& (b.versions@.len() > 0 ==> b.latest_version@ == b.versions@.last().id@)
    &&& (forall|i: int|
        0 <= i < b.versions@.len() ==> (#[trigger] b.versions@[i]).id@ == version_id_spec(
            (i + 1) as nat,
        ))
    &&& (forall|i: int, j: int|
        0 <= i < j < b.versions@.len() ==> (#[trigger] b.versions@[i]).timestamp <= (
        #[trigger] b.versions@[j]).timestamp)
}

/// Whether the project has a branch of the given name.
pub open spec fn has_branch(s: ProjectState, name: Seq<char>) -> bool {
    exists|i: int| 0 <= i < s.branches@.len() && (#[trigger] s.branches@[i]).name@ == name
}

/// The branch of the given name (well-defined whenever names are unique).
pub open spec fn branch_named(s: ProjectState, name: Seq<char>) -> BranchData {
    s.branches@[choose|i: int|
        0 <= i < s.branches@.len() && (#[trigger] s.branches@[i]).name@ == name]
}

/// Whether a branch holds a version with the given id.
pub open spec fn has_version(b: BranchData, id: Seq<char>) -> bool {
    exists|i: int| 0 <= i < b.versions@.len() && (#[trigger] b.versions@[i]).id@ == id
}

/// The first version of a branch with the given id.
pub open spec fn version_with(vs: Seq<VersionInfo>, id: Seq<char>) -> VersionInfo
    decreases vs.len(),
{
    if vs.len() == 0 {
        // no version carries the id; callers guard with `has_version`
        vs[0]
    } else if vs[0].id@ == id {
        vs[0]
    } else {
        version_with(vs.skip(1), id)
    }
}

/// A branch's lineage pointers name an existing branch and a version that
/// branch holds.  Valid at fork time, and preserved ever after: branches
/// are never removed and histories only append.
pub open spec fn lineage_ok(s: ProjectState, b: BranchData) -> bool {
    match b.parent_branch {
        Some(p) => has_branch(s, p@) && match b.parent_version {
            Some(v) => has_version(branch_named(s, p@), v@),
            None => true,
        },
        None => true,
    }
}

/// A project is well-formed when its branch names are unique, every branch
/// is well-formed with valid lineage pointers, and the current branch
/// exists.
pub open spec fn state_wf(s: ProjectState) -> bool {
    &&& (forall|i: int, j: int|
        0 <= i < j < s.branches@.len() ==> (#[trigger] s.branches@[i]).name@ != (
        #[trigger] s.branches@[j]).name@)
    &&& (forall|i: int| 0 <= i < s.branches@.len() ==> branch_wf(#[trigger] s.branches@[i]))
    &&& (forall|i: int| 0 <= i < s.branches@.len() ==> lineage_ok(s, #[trigger] s.branches@[i]))
    &&& has_branch(s, s.current_branch@)
}

/// With unique branch names, the branch of a name is the one at any index
/// carrying that name.
pub proof fn lemma_branch_named_at(s: ProjectState, name: Seq<char>, i: int)
    requires
        forall|p: int, q: int|
            0 <= p < q < s.branches@.len() ==> (#[trigger] s.branches@[p]).name@ != (
            #[trigger] s.branches@[q]).name@,
        0 <= i < s.branches@.len(),
        s.branches@[i].name@ == name,
    ensures
        has_branch(s, name),
        branch_named(s, name) == s.branches@[i],
{
    assert(has_branch(s, name));
    let w = choose|j: int|
        0 <= j < s.branches@.len() && (#[trigger] s.branches@[j]).name@ == name;
    if w < i {
        assert(s.branches@[w].name@ != s.branches@[i].name@);
    } else if w > i {
        assert(s.branches@[i].name@ != s.branches@[w].name@);
    }
}

/// A branch is newly forked when it has no versions yet and its lineage
/// pointers name exactly the requested parent branch and version.
pub open spec fn is_fresh_branch(b: BranchData, req: CreateBranchRequest, now: i64) -> bool {
    &&& b.name@ == req.branch_name@
    &&& b.description.deep_view() == req.description.deep_view()
    &&& b.versions@.len() == 0
    &&& b.latest_version@ == Seq::<char>::empty()
    &&& b.parent_branch.deep_view() == Some(req.from_branch@)
    &&& b.parent_version.deep_view() == Some(req.from_version@)
    &&& b.created == Some(now)
    &&& b.working_file is None
}

impl ProjectState {
    /// Initialize a project: one root branch, `main`, with no versions and
    /// no parent, currently checked out.
    pub fn new_project(project_name: String, project_path: String, now: i64) -> (s: ProjectState)
        ensures
            state_wf(s),
            s.project_name@ == project_name@,
            s.project_path@ == project_path@,
            s.current_branch@ == "main"@,
            s.branches@.len() == 1,
            s.branches@[0].name@ == "main"@,
            s.branches@[0].versions@.len() == 0,
            s.branches@[0].parent_branch is None,
            s.branches@[0].parent_version is None,
            s.branches@[0].created == Some(now),
    {
        let main = BranchData {
            name: String::from_str("main"),
            description: None,
            versions: Vec::new(),
            latest_version: String::new(),
            parent_branch: None,
            parent_version: None,
            created: Some(now),
            working_file: None,
        };
        let mut branches: Vec<BranchData> = Vec::new();
        branches.push(main);
        let s = ProjectState {
            project_name,
            project_path,
            current_branch: String::from_str("main"),
            branches,
        };
        proof {
            assert(s.branches@[0].name@ == "main"@);
            assert(has_branch(s, s.current_branch@));
        }
        s
    }

    /// The index of the branch with the given name, if any.
    fn find_branch(&self, name: &str) -> (r: Option<usize>)
        ensures
            r is Some ==> r->0 < self.branches@.len() && self.branches@[r->0 as int].name@
                == name@,
            r is None ==> !has_branch(*self, name@),
    {
        let mut i: usize = 0;
        while i < self.branches.len()
            invariant
                i <= self.branches@.len(),
                forall|j: int| 0 <= j < i ==> (#[trigger] self.branches@[j]).name@ != name@,
            decreases self.branches@.len() - i,
        {
            if str_eq(self.branches[i].name.as_str(), name) {
                return Some(i);
            }
            i += 1;
        }
        None
    }

    /// Fork a new branch from a version of an existing branch.
    ///
    /// Fails with `InvalidInput` on an empty branch name, `NotFound` when
    /// the parent branch or parent version does not exist, and `Conflict`
    /// when the name is already taken.  On success the new branch starts
    /// empty, with its lineage pointers set to exactly the request's
    /// values; no artifact is copied.
    pub fn create_branch(&mut self, req: &CreateBranchRequest, now: i64) -> (r: Result<
        BranchData,
        StoreError,
    >)
        requires
            state_wf(*old(self)),
        ensures
            state_wf(*final(self)),
            final(self).project_name == old(self).project_name,
            final(self).project_path == old(self).project_path,
            final(self).current_branch == old(self).current_branch,
            r is Err ==> *final(self) == *old(self),
            (r matches Err(e) && e.kind == ErrorKind::InvalidInput) <==> req.branch_name@.len()
                == 0,
            (r matches Err(e) && e.kind == ErrorKind::NotFound) <==> (req.branch_name@.len() > 0
                && (!has_branch(*old(self), req.from_branch@) || !has_version(
                branch_named(*old(self), req.from_branch@),
                req.from_version@,
            ))),
            (r matches Err(e) && e.kind == ErrorKind::Conflict) <==> (req.branch_name@.len() > 0
                && has_branch(*old(self), req.from_branch@) && has_version(
                branch_named(*old(self), req.from_branch@),
                req.from_version@,
            ) && has_branch(*old(self), req.branch_name@)),
            r is Ok <==> (req.branch_name@.len() > 0 && has_branch(*old(self), req.from_branch@)
                && has_version(branch_named(*old(self), req.from_branch@), req.from_version@)
                && !has_branch(*old(self), req.branch_name@)),
            r is Ok ==> is_fresh_branch(r->Ok_0, *req, now),
            r is Ok ==> final(self).branches@.len() == old(self).branches@.len() + 1,
            r is Ok ==> is_fresh_branch(final(self).branches@.last(), *req, now),
            r is Ok ==> forall|i: int|
                0 <= i < old(self).branches@.len() ==> final(self).branches@[i] == old(
                    self,
                ).branches@[i],
    {
        if req.branch_name.as_str().unicode_len() == 0 {
            return Err(
                StoreError::new(
                    ErrorKind::InvalidInput,
                    String::from_str("branch name must not be empty"),
                ),
            );
        }
        let from = self.find_branch(req.from_branch.as_str());
        let fi = match from {
            Some(fi) => fi,
            None => {
                return Err(
                    StoreError::new(ErrorKind::NotFound, String::from_str("branch not found")),
                );
            },
        };
        proof {
            let ci = choose|i: int|
                0 <= i < self.branches@.len() && (#[trigger] self.branches@[i]).name@
                    == req.from_branch@;
            assert(ci == fi as int);
            assert(branch_named(*self, req.from_branch@) == self.branches@[fi as int]);
        }
        // the parent version must have existed in the parent branch
        let parent = &self.branches[fi];
        let mut found = false;
        let mut k: usize = 0;
        while k < parent.versions.len()
            invariant
                k <= parent.versions@.len(),
                found == exists|j: int|
                    0 <= j < k && (#[trigger] parent.versions@[j]).id@ == req.from_version@,
            decreases parent.versions@.len() - k,
        {
            if str_eq(parent.versions[k].id.as_str(), req.from_version.as_str()) {
                found = true;
            }
            k += 1;
        }
        if !found {
            proof {
                assert(!has_version(branch_named(*self, req.from_branch@), req.from_version@));
            }
            return Err(
                StoreError::new(ErrorKind::NotFound, String::from_str("version not found")),
            );
        }
        proof {
            assert(has_version(branch_named(*self, req.from_branch@), req.from_version@));
        }
        if self.find_branch(req.branch_name.as_str()).is_some() {
            return Err(
                StoreError::new(ErrorKind::Conflict, String::from_str("branch already exists")),
            );
        }
        let b = BranchData {
            name: req.branch_name.clone(),
            description: match &req.description {
                Some(d) => Some(d.clone()),
                None => None,
            },
            versions: Vec::new(),
            latest_version: String::new(),
            parent_branch: Some(req.from_branch.clone()),
            parent_version: Some(req.from_version.clone()),
            created: Some(now),
            working_file: None,
        };
        let ret = BranchData {
            name: req.branch_name.clone(),
            description: match &req.description {
                Some(d) => Some(d.clone()),
                None => None,
            },
            versions: Vec::new(),
            latest_version: String::new(),
            parent_branch: Some(req.from_branch.clone()),
            parent_version: Some(req.from_version.clone()),
            created: Some(now),
            working_file: None,
        };
        let ghost before = *self;
        self.branches.push(b);
        proof {
            assert(self.branches@.last().name@ == req.branch_name@);
            assert(branch_wf(self.branches@.last()));
            assert forall|i: int, j: int|
                0 <= i < j < self.branches@.len() implies (#[trigger] self.branches@[i]).name@ != (
                #[trigger] self.branches@[j]).name@ by {
                if j == self.branches@.len() - 1 {
                    assert(!has_branch(before, req.branch_name@));
                }
            }
            let cb = self.current_branch@;
            let w = choose|i: int|
                0 <= i < before.branches@.len() && (#[trigger] before.branches@[i]).name@ == cb;
            assert(self.branches@[w].name@ == cb);
            assert(has_branch(*self, cb));
            assert(is_fresh_branch(self.branches@.last(), *req, now));
            let n_old = before.branches@.len() as int;
            assert forall|i: int| 0 <= i < self.branches@.len() implies lineage_ok(
                *self,
                #[trigger] self.branches@[i],
            ) by {
                let cur = self.branches@[i];
                match cur.parent_branch {
                    Some(p) => {
                        if i < n_old {
                            assert(cur == before.branches@[i]);
                            assert(lineage_ok(before, cur));
                            let pw = choose|j: int|
                                0 <= j < before.branches@.len() && (
                                #[trigger] before.branches@[j]).name@ == p@;
                            lemma_branch_named_at(before, p@, pw);
                            assert(self.branches@[pw] == before.branches@[pw]);
                            lemma_branch_named_at(*self, p@, pw);
                        } else {
                            // the freshly pushed branch: its parent was
                            // validated against the old state
                            assert(p@ == req.from_branch@);
                            let pw = choose|j: int|
                                0 <= j < before.branches@.len() && (
                                #[trigger] before.branches@[j]).name@ == req.from_branch@;
                            lemma_branch_named_at(before, req.from_branch@, pw);
                            assert(self.branches@[pw] == before.branches@[pw]);
                            lemma_branch_named_at(*self, req.from_branch@, pw);
                            assert(has_version(branch_named(*self, p@), req.from_version@));
                        }
                    },
                    None => {},
                }
            }
        }
        Ok(ret)
    }

    /// Commit a version on a branch: assign the next sequence id, clamp the
    /// timestamp so it never decreases along the branch, record the
    /// artifact path the caller obtained (absent when generation was
    /// skipped or failed — the commit still proceeds), and update
    /// `latest_version`.
    ///
    /// Fails with `NotFound` exactly when the branch does not exist.
    pub fn save_version(
        &mut self,
        branch_name: &String,
        message: String,
        author: Option<String>,
        e2k_path: Option<String>,
        now: i64,
    ) -> (r: Result<VersionInfo, StoreError>)
        requires
            state_wf(*old(self)),
            has_branch(*old(self), branch_name@) ==> branch_named(
                *old(self),
                branch_name@,
            ).versions@.len() < usize::MAX,
        ensures
            state_wf(*final(self)),
            r is Err <==> !has_branch(*old(self), branch_name@),
            r matches Err(e) ==> e.kind == ErrorKind::NotFound && *final(self) == *old(self),
            r matches Ok(v) ==> {
                let b_old = branch_named(*old(self), branch_name@);
                let b_new = branch_named(*final(self), branch_name@);
                &&& v.id@ == version_id_spec((b_old.versions@.len() + 1) as nat)
                &&& v.message@ == message@
                &&& v.author.deep_view() == author.deep_view()
                &&& v.e2k_path.deep_view() == e2k_path.deep_view()
                &&& !v.analyzed
                &&& v.timestamp >= now
                &&& b_new.versions@ == b_old.versions@.push(v)
                &&& b_new.versions@.len() == b_old.versions@.len() + 1
                &&& b_new.latest_version@ == v.id@
                &&& b_new.versions@.last() == v
                &&& (forall|i: int|
                    0 <= i < b_old.versions@.len() ==> #[trigger] b_new.versions@[i]
                        == b_old.versions@[i])
                &&& (forall|i: int|
                    0 <= i < b_old.versions@.len() ==> (#[trigger] b_old.versions@[i]).timestamp
                        <= v.timestamp)
                &&& final(self).branches@.len() == old(self).branches@.len()
            },
            r is Ok ==> forall|i: int|
                0 <= i < old(self).branches@.len() && (#[trigger] old(self).branches@[i]).name@
                    != branch_name@ ==> final(self).branches@[i] == old(self).branches@[i],
    {
        let bi = match self.find_branch(branch_name.as_str()) {
            Some(bi) => bi,
            None => {
                return Err(
                    StoreError::new(ErrorKind::NotFound, String::from_str("branch not found")),
                );
            },
        };
        proof {
            let ci = choose|i: int|
                0 <= i < self.branches@.len() && (#[trigger] self.branches@[i]).name@
                    == branch_name@;
            assert(ci == bi as int);
            assert(branch_named(*self, branch_name@) == self.branches@[bi as int]);
        }
        let ghost before = *self;
        let mut b = self.branches.remove(bi);
        let n = b.versions.len() + 1;
        let num = u64_to_string(n as u64);
        let mut id = String::from_str("v");
        id.append(num.as_str());
        proof {
            assert(id@ == version_id_spec(n as nat));
        }
        let ts = if b.versions.len() > 0 {
            let last_ts = b.versions[b.versions.len() - 1].timestamp;
            if last_ts > now {
                last_ts
            } else {
                now
            }
        } else {
            now
        };
        let v = VersionInfo {
            id: id.clone(),
            message: message.clone(),
            author: match &author {
                Some(a) => Some(a.clone()),
                None => None,
            },
            timestamp: ts,
            e2k_path: match &e2k_path {
                Some(p) => Some(p.clone()),
                None => None,
            },
            analyzed: false,
        };
        let ret = VersionInfo {
            id,
            message,
            author,
            timestamp: ts,
            e2k_path,
            analyzed: false,
        };
        let ghost b_before = b;
        let ghost gv = v;
        let ghost gret = ret;
        b.versions.push(v);
        b.latest_version = ret.id.clone();
        proof {
            assert(gv == gret);
            assert(b.versions@ == b_before.versions@.push(gret));
            assert(branch_wf(b_before));
            assert forall|i: int| 0 <= i < b_before.versions@.len() implies (
            #[trigger] b_before.versions@[i]).timestamp <= ts by {
                let m = b_before.versions@.len() - 1;
                if i < m {
                    assert(b_before.versions@[i].timestamp <= b_before.versions@[m].timestamp);
                }
            }
            assert(branch_wf(b)) by {
                assert(forall|i: int|
                    0 <= i < b_before.versions@.len() ==> #[trigger] b.versions@[i]
                        == b_before.versions@[i]);
                assert(b.versions@.last().id@ == version_id_spec(n as nat));
            }
        }
        let ghost b_done = b;
        self.branches.insert(bi, b);
        proof {
            assert forall|i: int| 0 <= i < self.branches@.len() && i != bi implies
                #[trigger] self.branches@[i] == before.branches@[i] by {
                assert(before.branches@.remove(bi as int).insert(bi as int, b_done) =~= self
                    .branches@);
            }
            assert(self.branches@ =~= before.branches@.remove(bi as int).insert(bi as int, b_done));
            assert(self.branches@.len() == before.branches@.len());
            assert(self.branches@[bi as int] == b_done);
            assert forall|i: int, j: int| 0 <= i < j < self.branches@.len() implies (
            #[trigger] self.branches@[i]).name@ != (#[trigger] self.branches@[j]).name@ by {
                assert(self.branches@[i].name@ == before.branches@[i].name@);
                assert(self.branches@[j].name@ == before.branches@[j].name@);
            }
            assert(has_branch(*self, self.current_branch@)) by {
                let cb = self.current_branch@;
                let w = choose|i: int|
                    0 <= i < before.branches@.len() && (#[trigger] before.branches@[i]).name@
                        == cb;
                assert(self.branches@[w].name@ == cb);
            }
            assert(branch_named(*self, branch_name@) == b_done) by {
                let w = choose|i: int|
                    0 <= i < self.branches@.len() && (#[trigger] self.branches@[i]).name@
                        == branch_name@;
                if w != bi as int {
                    assert(before.branches@[w].name@ == branch_name@);
                    assert(before.branches@[bi as int].name@ == branch_name@);
                    assert(false);
                }
            }
            assert forall|i: int| 0 <= i < self.branches@.len() implies lineage_ok(
                *self,
                #[trigger] self.branches@[i],
            ) by {
                let cur = self.branches@[i];
                let bb0 = before.branches@[i];
                assert(lineage_ok(before, bb0));
                // the commit touched only the history and latest pointer,
                // never the lineage fields
                assert(cur.parent_branch == bb0.parent_branch);
                assert(cur.parent_version == bb0.parent_version);
                match cur.parent_branch {
                    Some(p) => {
                        let pw = choose|j: int|
                            0 <= j < before.branches@.len() && (
                            #[trigger] before.branches@[j]).name@ == p@;
                        lemma_branch_named_at(before, p@, pw);
                        assert(self.branches@[pw].name@ == p@);
                        lemma_branch_named_at(*self, p@, pw);
                        match cur.parent_version {
                            Some(v) => {
                                assert(has_version(before.branches@[pw], v@));
                                let vw = choose|q: int|
                                    0 <= q < before.branches@[pw].versions@.len() && (
                                    #[trigger] before.branches@[pw].versions@[q]).id@ == v@;
                                if pw == bi as int {
                                    assert(b_done.versions@[vw]
                                        == before.branches@[pw].versions@[vw]);
                                }
                                assert(has_version(branch_named(*self, p@), v@));
                            },
                            None => {},
                        }
                    },
                    None => {},
                }
            }
        }
        Ok(ret)
    }

    /// Resolve a version identifier to the stored version record.  Fails
    /// with `NotFound` exactly when the branch or the version is absent.
    pub fn resolve_version(&self, ident: &VersionIdentifier) -> (r: Result<
        VersionInfo,
        StoreError,
    >)
        requires
            state_wf(*self),
        ensures
            r is Ok <==> (has_branch(*self, ident.branch@) && has_version(
                branch_named(*self, ident.branch@),
                ident.version_id@,
            )),
            r matches Err(e) ==> e.kind == ErrorKind::NotFound,
            r matches Ok(v) ==> {
                let stored = version_with(
                    branch_named(*self, ident.branch@).versions@,
                    ident.version_id@,
                );
                &&& v.id@ == stored.id@
                &&& v.id@ == ident.version_id@
                &&& v.message@ == stored.message@
                &&& v.author.deep_view() == stored.author.deep_view()
                &&& v.timestamp == stored.timestamp
                &&& v.e2k_path.deep_view() == stored.e2k_path.deep_view()
                &&& v.analyzed == stored.analyzed
            },
    {
        let bi = match self.find_branch(ident.branch.as_str()) {
            Some(bi) => bi,
            None => {
                return Err(
                    StoreError::new(ErrorKind::NotFound, String::from_str("branch not found")),
                );
            },
        };
        proof {
            let ci = choose|i: int|
                0 <= i < self.branches@.len() && (#[trigger] self.branches@[i]).name@
                    == ident.branch@;
            assert(ci == bi as int);
            assert(branch_named(*self, ident.branch@) == self.branches@[bi as int]);
        }
        let b = &self.branches[bi];
        let ghost vs = b.versions@;
        let mut k: usize = 0;
        proof {
            assert(vs.skip(0) =~= vs);
        }
        while k < b.versions.len()
            invariant
                k <= vs.len(),
                vs == b.versions@,
                bi < self.branches@.len(),
                *b == self.branches@[bi as int],
                branch_named(*self, ident.branch@) == *b,
                has_branch(*self, ident.branch@),
                version_with(vs, ident.version_id@) == version_with(
                    vs.skip(k as int),
                    ident.version_id@,
                ),
                forall|j: int| 0 <= j < k ==> (#[trigger] vs[j]).id@ != ident.version_id@,
            decreases vs.len() - k,
        {
            proof {
                assert(vs.skip(k as int)[0] == vs[k as int]);
            }
            if str_eq(b.versions[k].id.as_str(), ident.version_id.as_str()) {
                let sv = &b.versions[k];
                let out = VersionInfo {
                    id: sv.id.clone(),
                    message: sv.message.clone(),
                    author: match &sv.author {
                        Some(a) => Some(a.clone()),
                        None => None,
                    },
                    timestamp: sv.timestamp,
                    e2k_path: match &sv.e2k_path {
                        Some(p) => Some(p.clone()),
                        None => None,
                    },
                    analyzed: sv.analyzed,
                };
                proof {
                    assert(has_version(branch_named(*self, ident.branch@), ident.version_id@));
                }
                return Ok(out);
            }
            proof {
                assert(vs.skip(k as int).skip(1) =~= vs.skip(k as int + 1));
            }
            k += 1;
        }
        proof {
            assert(vs.skip(vs.len() as int).len() == 0);
            assert(!has_version(branch_named(*self, ident.branch@), ident.version_id@));
        }
        Err(StoreError::new(ErrorKind::NotFound, String::from_str("version not found")))
    }

    /// Resolve a version identifier to its artifact path.  Fails with
    /// `NotFound` exactly when the version is absent or carries no
    /// artifact.
    pub fn resolve_artifact(&self, ident: &VersionIdentifier) -> (r: Result<String, StoreError>)
        requires
            state_wf(*self),
        ensures
            r is Ok <==> (has_branch(*self, ident.branch@) && has_version(
                branch_named(*self, ident.branch@),
                ident.version_id@,
            ) && version_with(
                branch_named(*self, ident.branch@).versions@,
                ident.version_id@,
            ).e2k_path is Some),
            r matches Err(e) ==> e.kind == ErrorKind::NotFound,
            r matches Ok(p) ==> Some(p@) == version_with(
                branch_named(*self, ident.branch@).versions@,
                ident.version_id@,
            ).e2k_path.deep_view(),
    {
        let v = match self.resolve_version(ident) {
            Ok(v) => v,
            Err(e) => {
                return Err(e);
            },
        };
        match v.e2k_path {
            Some(p) => Ok(p),
            None => Err(
                StoreError::new(
                    ErrorKind::NotFound,
                    String::from_str("version has no generated artifact"),
                ),
            ),
        }
    }
}

impl ProjectState {
    /// Commit a version stamped with the current wall-clock time.  The
    /// timestamp still never decreases along the branch, whatever the
    /// clock returned.
    pub fn save_version_now(
        &mut self,
        branch_name: &String,
        message: String,
        author: Option<String>,
        e2k_path: Option<String>,
    ) -> (r: Result<VersionInfo, StoreError>)
        requires
            state_wf(*old(self)),
            has_branch(*old(self), branch_name@) ==> branch_named(
                *old(self),
                branch_name@,
            ).versions@.len() < usize::MAX,
        ensures
            state_wf(*final(self)),
            r is Err <==> !has_branch(*old(self), branch_name@),
            r matches Err(e) ==> e.kind == ErrorKind::NotFound && *final(self) == *old(self),
            r matches Ok(v) ==> {
                let b_old = branch_named(*old(self), branch_name@);
                let b_new = branch_named(*final(self), branch_name@);
                &&& v.id@ == version_id_spec((b_old.versions@.len() + 1) as nat)
                &&& v.message@ == message@
                &&& v.author.deep_view() == author.deep_view()
                &&& v.e2k_path.deep_view() == e2k_path.deep_view()
                &&& !v.analyzed
                &&& b_new.versions@ == b_old.versions@.push(v)
                &&& b_new.versions@.len() == b_old.versions@.len() + 1
                &&& b_new.latest_version@ == v.id@
                &&& b_new.versions@.last() == v
                &&& (forall|i: int|
                    0 <= i < b_old.versions@.len() ==> (#[trigger] b_old.versions@[i]).timestamp
                        <= v.timestamp)
                &&& final(self).branches@.len() == old(self).branches@.len()
            },
            r is Ok ==> forall|i: int|
                0 <= i < old(self).branches@.len() && (#[trigger] old(self).branches@[i]).name@
                    != branch_name@ ==> final(self).branches@[i] == old(self).branches@[i],
    {
        let now = crate::clock::now_millis();
        self.save_version(branch_name, message, author, e2k_path, now)
    }
}

/// Which diff engines a comparison runs.
#[derive(Clone, Copy, Debug, PartialEq, Eq, Structural)]
pub enum DiffType {
    E2k,
    Geometry,
    Both,
}

/// What a comparison returns: the results the requested mode asked for.
#[derive(Clone, Debug)]
pub struct ComparisonData {
    pub e2k: Option<E2KDiffResult>,
    pub geometry: Option<GeometryDiffResult>,
}

/// Read a diff-type selector.  Exactly `e2k`, `geometry` and `both` are
/// accepted; anything else is `InvalidInput`.
pub fn diff_type_of(s: &str) -> (r: Result<DiffType, StoreError>)
    ensures
        s@ == "e2k"@ ==> r == Ok::<DiffType, StoreError>(DiffType::E2k),
        s@ == "geometry"@ ==> r == Ok::<DiffType, StoreError>(DiffType::Geometry),
        s@ == "both"@ ==> r == Ok::<DiffType, StoreError>(DiffType::Both),
        (s@ != "e2k"@ && s@ != "geometry"@ && s@ != "both"@) ==> (r matches Err(e) && e.kind
            == ErrorKind::InvalidInput),
{
    proof {
        reveal_strlit("e2k");
        reveal_strlit("geometry");
        reveal_strlit("both");
        assert("e2k"@.len() == 3 && "geometry"@.len() == 8 && "both"@.len() == 4);
    }
    if str_eq(s, "e2k") {
        Ok(DiffType::E2k)
    } else if str_eq(s, "geometry") {
        Ok(DiffType::Geometry)
    } else if str_eq(s, "both") {
        Ok(DiffType::Both)
    } else {
        Err(StoreError::new(ErrorKind::InvalidInput, String::from_str("unknown diff type")))
    }
}

/// Compare two artifact texts: parse both, then run the diff engines the
/// mode asks for.  Read-only and free of side effects; a result is present
/// exactly when the mode requires it.
pub fn run_comparison(text1: &str, text2: &str, mode: DiffType) -> (r: ComparisonData)
    requires
        text1@.len() + text2@.len() + 2 <= usize::MAX,
    ensures
        r.e2k is Some <==> (mode == DiffType::E2k || mode == DiffType::Both),
        r.geometry is Some <==> (mode == DiffType::Geometry || mode == DiffType::Both),
        r.e2k matches Some(d) ==> {
            let o = crate::e2k::parse_spec(text1@).recs;
            let n = crate::e2k::parse_spec(text2@).recs;
            &&& d.added == crate::e2k_diff::added_cnt(o, n)
            &&& d.removed == crate::e2k_diff::removed_cnt(o, n)
            &&& d.modified == crate::e2k_diff::modified_cnt(o, n)
            &&& crate::e2k_diff::sorted_changes(d.changes.deep_view())
            &&& d.added == crate::e2k_diff::count_type(d.changes.deep_view(), "add"@)
            &&& d.removed == crate::e2k_diff::count_type(d.changes.deep_view(), "remove"@)
            &&& d.modified == crate::e2k_diff::count_type(d.changes.deep_view(), "modify"@)
            &&& d.raw_diff@ == crate::e2k_diff::render_diff(o, n)
        },
        r.geometry matches Some(g) ==> {
            let mo = crate::geometry::extract_spec(crate::e2k::parse_spec(text1@).recs);
            let mn = crate::geometry::extract_spec(crate::e2k::parse_spec(text2@).recs);
            &&& (forall|x: Seq<char>|
                #[trigger] g.members_added.deep_view().contains(x) <==> (crate::geometry::has_id(
                    mn,
                    x,
                ) && !crate::geometry::has_id(mo, x)))
            &&& (forall|x: Seq<char>|
                #[trigger] g.members_removed.deep_view().contains(x) <==> (crate::geometry::has_id(
                    mo,
                    x,
                ) && !crate::geometry::has_id(mn, x)))
            &&& (forall|x: Seq<char>|
                #[trigger] g.members_modified.deep_view().contains(x)
                    <==> crate::geometry::is_modified_id(mo, mn, x))
            &&& crate::geometry::strictly_sorted(g.members_added.deep_view())
            &&& crate::geometry::strictly_sorted(g.members_removed.deep_view())
            &&& crate::geometry::strictly_sorted(g.members_modified.deep_view())
            &&& g.total_changes == g.members_added@.len() + g.members_removed@.len()
                + g.members_modified@.len()
        },
{
    let p1 = parse_e2k(text1);
    let p2 = parse_e2k(text2);
    let want_e2k = match mode {
        DiffType::E2k => true,
        DiffType::Both => true,
        DiffType::Geometry => false,
    };
    let want_geo = match mode {
        DiffType::Geometry => true,
        DiffType::Both => true,
        DiffType::E2k => false,
    };
    let e2k = if want_e2k {
        Some(diff_e2k(&p1.records, &p2.records))
    } else {
        None
    };
    let geometry = if want_geo {
        let mo = extract_members(&p1.records);
        let mn = extract_members(&p2.records);
        proof {
            crate::geometry::lemma_extract_len(p1.records.deep_view());
            crate::geometry::lemma_extract_len(p2.records.deep_view());
            crate::e2k::lemma_parse_recs_len(crate::strutil::split_on_nl(text1@));
            crate::e2k::lemma_parse_recs_len(crate::strutil::split_on_nl(text2@));
            crate::strutil::lemma_split_pred_count(text1@, |c: char| c == '\n');
            crate::strutil::lemma_split_pred_count(text2@, |c: char| c == '\n');
        }
        Some(diff_geometry(&mo, &mn))
    } else {
        None
    };
    ComparisonData { e2k, geometry }
}

/// Along any sequence of commits, `latest_version` names exactly the last
/// appended version, and is empty before the first: this is part of
/// well-formedness, which every store operation preserves, while each
/// successful commit grows the history by exactly one entry.
pub proof fn lemma_latest_tracks_last(s: ProjectState, name: Seq<char>)
    requires
        state_wf(s),
        has_branch(s, name),
    ensures
        branch_named(s, name).versions@.len() > 0 ==> branch_named(s, name).latest_version@
            == branch_named(s, name).versions@.last().id@,
        branch_named(s, name).versions@.len() == 0 ==> branch_named(s, name).latest_version@
            == Seq::<char>::empty(),
{
    let w = choose|i: int|
        0 <= i < s.branches@.len() && (#[trigger] s.branches@[i]).name@ == name;
    assert(branch_wf(s.branches@[w]));
}

/// The artifact path a generator report yields: the output file when
/// generation succeeded, nothing otherwise.  The second component says
/// whether a warning must be surfaced (generation was attempted and
/// failed); the commit itself proceeds either way.
pub fn artifact_of(gen: &GenerateE2KData) -> (r: (Option<String>, bool))
    ensures
        (gen.generation_successful == Some(true) && gen.output_file is Some) ==> (
        r.0.deep_view() == gen.output_file.deep_view() && !r.1),
        !(gen.generation_successful == Some(true) && gen.output_file is Some) ==> (r.0 is None
            && r.1),
{
    let ok = match gen.generation_successful {
        Some(true) => true,
        _ => false,
    };
    if ok {
        match &gen.output_file {
            Some(f) => (Some(f.clone()), false),
            None => (None, true),
        }
    } else {
        (None, true)
    }
}

} // verus!
