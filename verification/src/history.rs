//! Session history retrieval.
use vstd::prelude::*;
use crate::session::{HistoryEntry, Session};
use crate::state::AppState;
use vstd::string::StringExecFns;

verus! {

/// The history of every active session, one block per session.
pub struct SessionHistoryBlock {
    pub session_id: String,
    pub project: String,
    pub entries: Vec<HistoryEntry>,
}

/// The last `limit` entries of one session's history, oldest first.
/// Fails exactly when the session is unknown.
#[verifier::loop_isolation(false)]
pub fn get_history(state: &AppState, session_id: &str, limit: usize) -> (r: Result<
    Vec<HistoryEntry>,
    String,
>)
    ensures
        r is Ok <==> state.sessions@.contains_key(session_id@),
        match r {
            Ok(entries) => {
                let h = state.sessions@[session_id@].history@;
                let start = if h.len() <= limit {
                    0int
                } else {
                    h.len() - limit
                };
                entries@.len() == h.len() - start && forall|j: int|
                    0 <= j < entries@.len() ==> #[trigger] entries@[j] == h[start + j]
            },
            Err(_) => true,
        },
{
    let session = match state.sessions.get(session_id) {
        Some(s) => s,
        None => {
            let mut msg = String::from_str("Session '");
            msg.append(session_id);
            msg.append("' not found");
            return Err(msg);
        },
    };
    Ok(history_tail(&session.history, limit))
}

/// The last `limit` entries, oldest first.
#[verifier::loop_isolation(false)]
pub fn history_tail(history: &Vec<HistoryEntry>, limit: usize) -> (r: Vec<HistoryEntry>)
    ensures
        ({
            let start = if history@.len() <= limit {
                0int
            } else {
                history@.len() - limit
            };
            r@.len() == history@.len() - start && forall|j: int|
                0 <= j < r@.len() ==> #[trigger] r@[j] == history@[start + j]
        }),
{
    let hlen = history.len();
    let start = if hlen <= limit {
        0
    } else {
        hlen - limit
    };
    let mut r: Vec<HistoryEntry> = Vec::new();
    let mut i: usize = start;
    while i < hlen
        invariant
            start <= i <= hlen,
            r@.len() == i - start,
            forall|j: int| 0 <= j < r@.len() ==> #[trigger] r@[j] == history@[start + j],
        decreases hlen - i,
    {
        let ghost pre = r@;
        r.push(history[i].duplicate());
        proof {
            assert(forall|j: int| 0 <= j < pre.len() ==> r@[j] == pre[j]);
        }
        i += 1;
    }
    r
}

/// The recent history of every session, one block per session, in the
/// session map's order.
#[verifier::loop_isolation(false)]
pub fn get_all_history(state: &AppState, limit: usize) -> (r: Vec<SessionHistoryBlock>)
    ensures
        r@.len() == state.sessions.key_seq().len(),
        forall|k: int|
            0 <= k < r@.len() ==> (#[trigger] r@[k]).session_id@ == state.sessions.entries@[
                k].1.id@ && r@[k].project@ == state.sessions.entries@[k].1.project_path@ && ({
                let h = state.sessions.entries@[k].1.history@;
                let start = if h.len() <= limit {
                    0int
                } else {
                    h.len() - limit
                };
                r@[k].entries@.len() == h.len() - start && forall|j: int|
                    0 <= j < r@[k].entries@.len() ==> #[trigger] r@[k].entries@[j] == h[start + j]
            }),
{
    let mut r: Vec<SessionHistoryBlock> = Vec::new();
    let mut i: usize = 0;
    while i < state.sessions.entries.len()
        invariant
            i <= state.sessions.entries@.len(),
            r@.len() == i,
            forall|k: int|
                0 <= k < i ==> (#[trigger] r@[k]).session_id@ == state.sessions.entries@[k].1.id@
                    && r@[k].project@ == state.sessions.entries@[k].1.project_path@ && ({
                    let h = state.sessions.entries@[k].1.history@;
                    let start = if h.len() <= limit {
                        0int
                    } else {
                        h.len() - limit
                    };
                    r@[k].entries@.len() == h.len() - start && forall|j: int|
                        0 <= j < r@[k].entries@.len() ==> #[trigger] r@[k].entries@[j] == h[start
                            + j]
                }),
        decreases state.sessions.entries@.len() - i,
    {
        let sess = &state.sessions.entries[i].1;
        let block = SessionHistoryBlock {
            session_id: sess.id.clone(),
            project: sess.project_path.clone(),
            entries: history_tail(&sess.history, limit),
        };
        let ghost pre = r@;
        r.push(block);
        proof {
            assert(forall|k: int| 0 <= k < pre.len() ==> r@[k] == pre[k]);
        }
        i += 1;
    }
    r
}

} // verus!
