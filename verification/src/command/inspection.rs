//! What an inspection of local state reports.

use crate::bytes::{hex, hex_text};
use crate::id::{id_text, ReplicaId, SpaceId};
use crate::sync::change::{change_views, Change, ChangeId, ChangeView};
use crate::text::{decimal, decimal_text, owned, same_text};
use vstd::prelude::*;
use vstd::string::*;

verus! {

/// The state of an application's local database.
#[derive(Debug, PartialEq, Eq)]
pub struct LocalStatus {
    /// Default space of the database.
    pub space: SpaceId,
    /// Replica that writes to the database.
    pub replica: ReplicaId,
    /// Number of live documents.
    pub documents: u64,
    /// Number of retained local changes.
    pub changes: u64,
    /// Number of changes retained for replication.
    pub replicated_changes: u64,
    /// Greatest committed local change sequence.
    pub frontier: u64,
    /// Frontier of the local replica.
    pub replica_frontier: u64,
    /// Result of the database's integrity check.
    pub integrity: String,
}

impl LocalStatus {
    /// Returns whether the database passed its integrity check.
    pub fn is_healthy(&self) -> (healthy: bool)
        ensures
            healthy == (self.integrity@ == "ok"@),
    {
        same_text(self.integrity.as_str(), "ok")
    }
}

/// Whether a counter is the greatest that a replica authored among changes, or
/// zero where it authored none.
pub open spec fn is_last_authored(
    changes: Seq<ChangeView>,
    replica: ReplicaId,
    counter: u64,
) -> bool {
    &&& forall|i: int|
        0 <= i < changes.len() && (#[trigger] changes[i]).id.replica == replica
            ==> changes[i].id.counter <= counter
    &&& counter > 0 ==> exists|i: int|
        0 <= i < changes.len() && (#[trigger] changes[i]).id == (ChangeId { replica, counter })
}

/// Returns the greatest counter that a replica authored among changes, or zero
/// where it authored none.
pub fn last_authored(changes: &[Change], replica: ReplicaId) -> (counter: u64)
    ensures
        is_last_authored(change_views(changes@), replica, counter),
{
    let ghost views = change_views(changes@);
    let mut counter: u64 = 0;
    let mut index: usize = 0;
    while index < changes.len()
        invariant
            index <= changes@.len(),
            views == change_views(changes@),
            is_last_authored(views.take(index as int), replica, counter),
        decreases changes@.len() - index,
    {
        let id = changes[index].id;
        let ghost before = views.take(index as int);
        let ghost longer = views.take(index + 1);
        let ghost former = counter;
        assert(longer[index as int].id == id);
        if id.replica == replica && id.counter > counter {
            counter = id.counter;
        }
        proof {
            assert forall|i: int|
                0 <= i < longer.len() && (#[trigger] longer[i]).id.replica
                    == replica implies longer[i].id.counter <= counter by {
                if i < index {
                    assert(before[i] == longer[i]);
                }
            }
            if counter > 0 && counter == former {
                let i = choose|i: int|
                    0 <= i < before.len() && (#[trigger] before[i]).id == (ChangeId {
                        replica,
                        counter,
                    });
                assert(longer[i].id == before[i].id);
            }
        }
        index += 1;
    }
    assert(views.take(views.len() as int) =~= views);
    counter
}

/// The report of an inspection.
pub open spec fn inspection_text(path: Seq<char>, status: LocalStatus) -> Seq<char> {
    "Cyrene local state\n  database     "@ + path + "\n  space        "@ + id_text(status.space.0)
        + "\n  replica      "@ + id_text(status.replica.0) + "\n  documents    "@ + decimal_text(
        status.documents as nat,
    ) + "\n  changes      "@ + decimal_text(status.changes as nat) + " local / "@ + decimal_text(
        status.replicated_changes as nat,
    ) + " replicated\n  frontier     "@ + decimal_text(status.frontier as nat) + " local / "@
        + decimal_text(status.replica_frontier as nat) + " replica\n  integrity    "@
        + status.integrity@ + " ("@ + (if status.integrity@ == "ok"@ {
        "healthy"@
    } else {
        "attention needed"@
    }) + ")"@
}

/// Renders the report of an inspection.
pub fn render_inspection(path: &str, status: &LocalStatus) -> (text: String)
    ensures
        text@ == inspection_text(path@, *status),
{
    let mut text = owned("Cyrene local state\n  database     ");
    text.append(path);
    text.append("\n  space        ");
    text.append(status.space.to_string().as_str());
    text.append("\n  replica      ");
    text.append(status.replica.to_string().as_str());
    text.append("\n  documents    ");
    text.append(decimal(status.documents).as_str());
    text.append("\n  changes      ");
    text.append(decimal(status.changes).as_str());
    text.append(" local / ");
    text.append(decimal(status.replicated_changes).as_str());
    text.append(" replicated\n  frontier     ");
    text.append(decimal(status.frontier).as_str());
    text.append(" local / ");
    text.append(decimal(status.replica_frontier).as_str());
    text.append(" replica\n  integrity    ");
    text.append(status.integrity.as_str());
    text.append(" (");
    if status.is_healthy() {
        text.append("healthy");
    } else {
        text.append("attention needed");
    }
    text.append(")");
    assert(text@ =~= inspection_text(path@, *status));
    text
}

/// Renders bytes in lower-case hexadecimal, leading zeroes included.
pub fn full_hex(bytes: &[u8]) -> (text: String)
    ensures
        text@ == hex_text(bytes@),
{
    hex(bytes)
}

/// The last authored counter is the greatest of the replica's own, and zero
/// exactly where it has none; there is only one.
pub proof fn law_last_authored_is_the_greatest(
    changes: Seq<ChangeView>,
    replica: ReplicaId,
    counter: u64,
    other: u64,
    i: int,
)
    requires
        is_last_authored(changes, replica, counter),
        is_last_authored(changes, replica, other),
    ensures
        counter == other,
        0 <= i < changes.len() && changes[i].id.replica == replica ==> changes[i].id.counter
            <= counter,
        counter > 0 ==> exists|k: int|
            0 <= k < changes.len() && (#[trigger] changes[k]).id.replica == replica
                && changes[k].id.counter == counter,
{
    if counter > 0 {
        let k = choose|k: int|
            0 <= k < changes.len() && (#[trigger] changes[k]).id == (ChangeId {
                replica,
                counter,
            });
        assert(changes[k].id.counter <= other);
    }
    if other > 0 {
        let k = choose|k: int|
            0 <= k < changes.len() && (#[trigger] changes[k]).id == (ChangeId {
                replica,
                counter: other,
            });
        assert(changes[k].id.counter <= counter);
    }
}

/// An inspection names the database, its space and its replica, counts what it
/// holds, and says whether it is healthy.
pub proof fn law_inspection_says_the_status(path: Seq<char>, status: LocalStatus)
    ensures
        ({
            let health = if status.integrity@ == "ok"@ {
                "healthy"@
            } else {
                "attention needed"@
            };
            let counts = decimal_text(status.changes as nat) + " local / "@ + decimal_text(
                status.replicated_changes as nat,
            ) + " replicated"@;
            let frontiers = decimal_text(status.frontier as nat) + " local / "@ + decimal_text(
                status.replica_frontier as nat,
            ) + " replica"@;
            inspection_text(path, status) == "Cyrene local state"@ + ("\n  database     "@ + path)
                + ("\n  space        "@ + id_text(status.space.0)) + ("\n  replica      "@
                + id_text(status.replica.0)) + ("\n  documents    "@ + decimal_text(
                status.documents as nat,
            )) + ("\n  changes      "@ + counts) + ("\n  frontier     "@ + frontiers) + (
            "\n  integrity    "@ + status.integrity@ + " ("@ + health + ")"@)
        }),
{
    reveal_strlit("Cyrene local state\n  database     ");
    reveal_strlit("Cyrene local state");
    reveal_strlit("\n  database     ");
    reveal_strlit(" replicated\n  frontier     ");
    reveal_strlit(" replicated");
    reveal_strlit("\n  frontier     ");
    reveal_strlit(" replica\n  integrity    ");
    reveal_strlit(" replica");
    reveal_strlit("\n  integrity    ");
    assert("Cyrene local state\n  database     "@ =~= "Cyrene local state"@
        + "\n  database     "@);
    assert(" replicated\n  frontier     "@ =~= " replicated"@ + "\n  frontier     "@);
    assert(" replica\n  integrity    "@ =~= " replica"@ + "\n  integrity    "@);
    let health = if status.integrity@ == "ok"@ {
        "healthy"@
    } else {
        "attention needed"@
    };
    let counts = decimal_text(status.changes as nat) + " local / "@ + decimal_text(
        status.replicated_changes as nat,
    ) + " replicated"@;
    let frontiers = decimal_text(status.frontier as nat) + " local / "@ + decimal_text(
        status.replica_frontier as nat,
    ) + " replica"@;
    assert(inspection_text(path, status) =~= "Cyrene local state"@ + ("\n  database     "@ + path)
        + ("\n  space        "@ + id_text(status.space.0)) + ("\n  replica      "@ + id_text(
        status.replica.0,
    )) + ("\n  documents    "@ + decimal_text(status.documents as nat)) + ("\n  changes      "@
        + counts) + ("\n  frontier     "@ + frontiers) + ("\n  integrity    "@
        + status.integrity@ + " ("@ + health + ")"@));
}

} // verus!
