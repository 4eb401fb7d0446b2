//! Client sessions: identity, project binding, and a bounded-preview
//! request history. Timestamps are milliseconds since the Unix epoch and
//! are handed in by the caller.
use vstd::prelude::*;
use vstd::string::StrSliceExecFns;
use vstd::string::StringExecFns;

verus! {

pub struct HistoryEntry {
    pub timestamp: i64,
    pub method: String,
    pub path: String,
    pub response_preview: String,
}

impl HistoryEntry {
    /// An equal copy of this entry.
    pub fn duplicate(&self) -> (r: Self)
        ensures
            r == *self,
    {
        HistoryEntry {
            timestamp: self.timestamp,
            method: self.method.clone(),
            path: self.path.clone(),
            response_preview: self.response_preview.clone(),
        }
    }
}

pub struct Session {
    pub id: String,
    pub project_path: String,
    pub created_at: i64,
    pub last_active: i64,
    pub history: Vec<HistoryEntry>,
}

/// A preview cut to at most 200 characters, a mark appended when cut.
pub open spec fn spec_preview(s: Seq<char>) -> Seq<char> {
    if s.len() > 200 {
        s.take(200) + "..."@
    } else {
        s
    }
}

impl Session {
    /// A fresh session bound to a project root.
    pub fn new(id: String, project_path: String, now: i64) -> (r: Self)
        ensures
            r.id@ == id@,
            r.project_path@ == project_path@,
            r.created_at == now,
            r.last_active == now,
            r.history@ == Seq::<HistoryEntry>::empty(),
    {
        Session { id, project_path, created_at: now, last_active: now, history: Vec::new() }
    }

    /// Append one request to the history, with a bounded response
    /// preview, and touch the session.
    pub fn record(&mut self, method: &str, path: &str, response_preview: &str, now: i64)
        ensures
            final(self).id == old(self).id,
            final(self).project_path == old(self).project_path,
            final(self).created_at == old(self).created_at,
            final(self).last_active == now,
            final(self).history@.len() == old(self).history@.len() + 1,
            forall|j: int|
                0 <= j < old(self).history@.len() ==> final(self).history@[j] == old(
                    self,
                ).history@[j],
            ({
                let e = final(self).history@.last();
                e.timestamp == now && e.method@ == method@ && e.path@ == path@
                    && e.response_preview@ == spec_preview(response_preview@)
            }),
    {
        self.last_active = now;
        let plen = response_preview.unicode_len();
        let preview = if plen > 200 {
            proof {
                reveal_strlit("...");
            }
            let cut = String::from_str(response_preview.substring_char(0, 200));
            cut.concat("...")
        } else {
            String::from_str(response_preview)
        };
        let entry = HistoryEntry {
            timestamp: now,
            method: String::from_str(method),
            path: String::from_str(path),
            response_preview: preview,
        };
        self.history.push(entry);
    }
}

} // verus!
