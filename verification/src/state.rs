//! The project registry: a bounded set of indexed projects with
//! least-recently-used eviction, and the sessions that point into it.
use vstd::prelude::*;
use crate::errors::AppError;
use crate::file_tree::FileTree;
use crate::session::Session;
use crate::strmap::StrMap;
use crate::symbol_table::SymbolTable;
use crate::walker::{scan_directory, spec_accepts, spec_scan_record, ScanItem};
use vstd::string::StringExecFns;

verus! {

/// One indexed project: its canonical root, live index, whether a
/// watcher could be attached, and the last-active timestamp.
pub struct Project {
    pub root: String,
    pub file_tree: FileTree,
    pub symbol_table: SymbolTable,
    pub watching: bool,
    pub last_active: i64,
}

/// The registry: projects by canonical root, sessions by id, and the
/// capacity and size limits.
pub struct AppState {
    pub projects: StrMap<Project>,
    pub sessions: StrMap<Session>,
    pub max_projects: usize,
    pub max_file_size: u64,
}

impl AppState {
    /// Maps well formed, every project's index well formed.
    pub open spec fn wf(&self) -> bool {
        &&& self.projects.wf()
        &&& self.sessions.wf()
        &&& forall|p: Seq<char>|
            #[trigger] self.projects@.contains_key(p) ==> self.projects@[p].file_tree.wf()
                && self.projects@[p].symbol_table.inv()
    }

    pub fn new(max_projects: usize, max_file_size: u64) -> (r: Self)
        ensures
            r.wf(),
            r.projects@ == Map::<Seq<char>, Project>::empty(),
            r.sessions@ == Map::<Seq<char>, Session>::empty(),
            r.max_projects == max_projects,
            r.max_file_size == max_file_size,
    {
        AppState {
            projects: StrMap::new(),
            sessions: StrMap::new(),
            max_projects,
            max_file_size,
        }
    }

    /// Update a project's last-active timestamp; a miss is a no-op.
    #[verifier::loop_isolation(false)]
    pub fn touch_project(&mut self, project_path: &str, now: i64)
        requires
            old(self).wf(),
        ensures
            final(self).wf(),
            final(self).sessions@ == old(self).sessions@,
            final(self).max_projects == old(self).max_projects,
            final(self).max_file_size == old(self).max_file_size,
            forall|p: Seq<char>|
                #[trigger] final(self).projects@.contains_key(p) == old(
                    self,
                ).projects@.contains_key(p),
            forall|p: Seq<char>|
                p != project_path@ && old(self).projects@.contains_key(p)
                    ==> #[trigger] final(self).projects@[p] == old(self).projects@[p],
            old(self).projects@.contains_key(project_path@) ==> final(self).projects@[
                project_path@].last_active == now && ({
                let u = final(self).projects@[project_path@];
                let o = old(self).projects@[project_path@];
                u.root == o.root && u.file_tree == o.file_tree && u.symbol_table == o.symbol_table
                    && u.watching == o.watching
            }),
    {
        let present = self.projects.contains_key(project_path);
        if present {
            match self.projects.remove(project_path) {
                Some(mut proj) => {
                    proj.last_active = now;
                    let ghost pm = self.projects@;
                    self.projects.insert(String::from_str(project_path), proj);
                    proof {
                        assert forall|p: Seq<char>|
                            #[trigger] self.projects@.contains_key(p) == old(
                            self,
                        ).projects@.contains_key(p) by {}
                        assert forall|p: Seq<char>|
                            p != project_path@ && old(self).projects@.contains_key(p)
                                implies #[trigger] self.projects@[p] == old(self).projects@[
                            p] by {}
                    }
                },
                None => {
                    proof {
                        assert(false);
                    }
                },
            }
        }
    }

    /// The project a session points to. A missing session is reported as
    /// not found; a session whose project was evicted is reported as
    /// gone, so the client knows to re-establish.
    pub fn get_project_for_session(&self, session_id: &str) -> (r: Result<&Project, AppError>)
        ensures
            r is Ok <==> (self.sessions@.contains_key(session_id@)
                && self.projects@.contains_key(self.sessions@[session_id@].project_path@)),
            match r {
                Ok(p) => *p == self.projects@[self.sessions@[session_id@].project_path@],
                Err(e) => match e {
                    AppError::NotFound(_) => !self.sessions@.contains_key(session_id@),
                    AppError::Gone(_) => self.sessions@.contains_key(session_id@)
                        && !self.projects@.contains_key(
                        self.sessions@[session_id@].project_path@,
                    ),
                    _ => false,
                },
            },
    {
        let session = match self.sessions.get(session_id) {
            Some(s) => s,
            None => {
                let mut msg = String::from_str("Session '");
                msg.append(session_id);
                msg.append("' not found");
                return Err(AppError::NotFound(msg));
            },
        };
        match self.projects.get(session.project_path.as_str()) {
            Some(p) => Ok(p),
            None => {
                let mut msg = String::from_str("Project at '");
                msg.append(session.project_path.as_str());
                msg.append(
                    "' was evicted due to capacity limits. Start a new session to re-index.",
                );
                Err(AppError::Gone(msg))
            },
        }
    }

    /// Evict the least recently used project. Sessions bound to it stay
    /// and report the distinct gone error until re-established. Hands
    /// back the evicted root, or nothing when the registry is empty.
    #[verifier::loop_isolation(false)]
    #[verifier::rlimit(60)]
    pub fn evict_lru(&mut self) -> (r: Option<String>)
        requires
            old(self).wf(),
        ensures
            final(self).wf(),
            final(self).sessions@ == old(self).sessions@,
            final(self).max_projects == old(self).max_projects,
            final(self).max_file_size == old(self).max_file_size,
            r is Some <==> old(self).projects.key_seq().len() > 0,
            match r {
                Some(root) => {
                    &&& old(self).projects@.contains_key(root@)
                    &&& forall|p: Seq<char>|
                        #[trigger] old(self).projects@.contains_key(p) ==> old(self).projects@[
                            root@].last_active <= old(self).projects@[p].last_active
                    &&& final(self).projects@ == old(self).projects@.remove(root@)
                },
                None => final(self).projects@ == old(self).projects@,
            },
    {
        if self.projects.entries.len() == 0 {
            proof {
                assert(self.projects.key_seq().len() == 0);
            }
            return None;
        }
        // pick the entry with the smallest last-active stamp
        let mut best: usize = 0;
        let mut i: usize = 1;
        while i < self.projects.entries.len()
            invariant
                best < i <= self.projects.entries@.len(),
                forall|j: int|
                    0 <= j < i ==> self.projects.entries@[best as int].1.last_active <= (
                    #[trigger] self.projects.entries@[j]).1.last_active,
            decreases self.projects.entries@.len() - i,
        {
            if self.projects.entries[i].1.last_active
                < self.projects.entries[best].1.last_active {
                best = i;
            }
            i += 1;
        }
        let root = self.projects.entries[best].0.clone();
        proof {
            self.projects.lemma_entries_in_view();
            assert(self.projects@.contains_key(root@));
            assert forall|p: Seq<char>| #[trigger] self.projects@.contains_key(p) implies self
                .projects@[root@].last_active <= self.projects@[p].last_active by {
                let j = choose|j: int|
                    0 <= j < self.projects.entries@.len() && (#[trigger] self.projects.entries@[
                    j]).0@ == p;
                assert(self.projects@[p] == self.projects.entries@[j].1);
                assert(self.projects@[root@] == self.projects.entries@[best as int].1);
            }
        }
        self.projects.remove(root.as_str());
        proof {
            assert forall|p: Seq<char>| #[trigger] self.projects@.contains_key(p) implies self
                .projects@[p].file_tree.wf() && self.projects@[p].symbol_table.inv() by {
                assert(old(self).projects@.contains_key(p));
                assert(self.projects@[p] == old(self).projects@[p]);
            }
        }
        Some(root)
    }

    /// Look up an existing project (touching it), or index a new one,
    /// evicting the least recently used project when the registry is
    /// full. The caller supplies the canonical root, the scanned
    /// entries, and whether a watcher could be attached.
    pub fn get_or_create_project(
        &mut self,
        canonical: &str,
        now: i64,
        scan: Vec<ScanItem>,
        watching: bool,
    ) -> (created: bool)
        requires
            old(self).wf(),
        ensures
            final(self).wf(),
            final(self).projects@.contains_key(canonical@),
            final(self).projects@[canonical@].last_active == now,
            created == !old(self).projects@.contains_key(canonical@),
            final(self).sessions@ == old(self).sessions@,
            final(self).max_projects == old(self).max_projects,
            final(self).max_file_size == old(self).max_file_size,
            !created ==> (forall|p: Seq<char>|
                #[trigger] final(self).projects@.contains_key(p) == old(
                    self,
                ).projects@.contains_key(p)) && (forall|p: Seq<char>|
                p != canonical@ && old(self).projects@.contains_key(p)
                    ==> #[trigger] final(self).projects@[p] == old(self).projects@[p]) && ({
                let u = final(self).projects@[canonical@];
                let o = old(self).projects@[canonical@];
                u.root == o.root && u.file_tree == o.file_tree && u.symbol_table == o.symbol_table
                    && u.watching == o.watching
            }),
            created ==> ({
                let p = final(self).projects@[canonical@];
                &&& p.root@ == canonical@
                &&& p.watching == watching
                &&& p.symbol_table.symbols@ == Map::<Seq<char>, crate::symbol::Symbol>::empty()
                &&& forall|q: Seq<char>|
                    #[trigger] p.file_tree.files@.contains_key(q) ==> spec_scan_record(
                        p.file_tree.files@[q],
                        q,
                        old(self).max_file_size,
                    )
                &&& forall|it: ScanItem|
                    scan@.contains(it) && spec_accepts(it, old(self).max_file_size)
                        ==> p.file_tree.files@.contains_key(#[trigger] it.rel_path@)
            }),
            created && (old(self).projects.key_seq().len() < old(self).max_projects || old(
                self,
            ).projects.key_seq().len() == 0) ==> final(self).projects@
                == old(self).projects@.insert(canonical@, final(self).projects@[canonical@]),
            created && old(self).projects.key_seq().len() >= old(self).max_projects && old(
                self,
            ).projects.key_seq().len() > 0 ==> exists|root: Seq<char>|
                old(self).projects@.contains_key(root) && (forall|q: Seq<char>|
                    #[trigger] old(self).projects@.contains_key(q) ==> old(self).projects@[
                        root].last_active <= old(self).projects@[q].last_active)
                    && final(self).projects@ == old(self).projects@.remove(root).insert(
                    canonical@,
                    final(self).projects@[canonical@],
                ),
    {
        if self.projects.contains_key(canonical) {
            self.touch_project(canonical, now);
            proof {
                assert(self.projects@.contains_key(canonical@));
            }
            return false;
        }
        let ghost m0 = self.projects@;
        let mut evicted = false;
        if self.projects.len() >= self.max_projects && self.projects.len() > 0 {
            let r = self.evict_lru();
            proof {
                assert(r is Some);
            }
            evicted = true;
        }
        let ghost me = self.projects@;
        let mut file_tree = FileTree::new();
        scan_directory(&mut file_tree, scan, self.max_file_size);
        let symbol_table = SymbolTable::new();
        let project = Project {
            root: String::from_str(canonical),
            file_tree,
            symbol_table,
            watching,
            last_active: now,
        };
        self.projects.insert(String::from_str(canonical), project);
        proof {
            let p = self.projects@[canonical@];
            if !evicted {
                assert(self.projects@ =~= old(self).projects@.insert(canonical@, p));
            } else {
                let root = choose|root: Seq<char>|
                    old(self).projects@.contains_key(root) && (forall|q: Seq<char>|
                        #[trigger] old(self).projects@.contains_key(q) ==> old(self).projects@[
                            root].last_active <= old(self).projects@[q].last_active) && me
                        == old(self).projects@.remove(root);
                assert(self.projects@ =~= old(self).projects@.remove(root).insert(canonical@, p));
            }
        }
        true
    }
}

} // verus!
