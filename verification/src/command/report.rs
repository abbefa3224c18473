//! What commands report in words.

use crate::bytes::hex_text;
use crate::crypto::blake3_hash;
use crate::identity::device::device_id;
use crate::store::types::{BackupReport, CompactionReport};
use crate::text::{decimal, decimal_text, owned};
use crate::trust::rows::{PeerRecord, PeerView};
use vstd::prelude::*;
use vstd::string::*;

verus! {

/// The report of a completed backup.
pub open spec fn backup_words(destination: Seq<char>, report: BackupReport) -> Seq<char> {
    "Backup ready at "@ + destination + "\n  documents          "@ + decimal_text(
        report.documents as nat,
    ) + "\n  replicated changes "@ + decimal_text(report.replicated_changes as nat)
        + "\n  integrity          "@ + report.integrity@
}

/// Renders the report of a completed backup.
pub fn backup_text(destination: &str, report: &BackupReport) -> (text: String)
    ensures
        text@ == backup_words(destination@, *report),
{
    let mut text = owned("Backup ready at ");
    text.append(destination);
    text.append("\n  documents          ");
    text.append(decimal(report.documents).as_str());
    text.append("\n  replicated changes ");
    text.append(decimal(report.replicated_changes).as_str());
    text.append("\n  integrity          ");
    text.append(report.integrity.as_str());
    assert(text@ =~= backup_words(destination@, *report));
    text
}

/// The report of a compaction.
pub open spec fn compaction_words(report: CompactionReport) -> Seq<char> {
    "Compaction complete\n  local journal      "@ + decimal_text(report.changes_before as nat)
        + " → "@ + decimal_text(report.changes_after as nat) + " ("@ + decimal_text(
        (report.changes_before - report.changes_after) as nat,
    ) + " removed)\n  replicated history "@ + decimal_text(report.replicated_changes as nat)
        + " preserved"@
}

/// Renders the report of a compaction.
pub fn compaction_text(report: CompactionReport) -> (text: String)
    requires
        report.changes_after <= report.changes_before,
    ensures
        text@ == compaction_words(report),
{
    let mut text = owned("Compaction complete\n  local journal      ");
    text.append(decimal(report.changes_before).as_str());
    text.append(" → ");
    text.append(decimal(report.changes_after).as_str());
    text.append(" (");
    text.append(decimal(report.removed()).as_str());
    text.append(" removed)\n  replicated history ");
    text.append(decimal(report.replicated_changes).as_str());
    text.append(" preserved");
    assert(text@ =~= compaction_words(report));
    text
}

/// Texts with a separator between them.
pub open spec fn joined(separator: Seq<char>, parts: Seq<Seq<char>>) -> Seq<char>
    decreases parts.len(),
{
    if parts.len() == 0 {
        Seq::empty()
    } else if parts.len() == 1 {
        parts[0]
    } else {
        joined(separator, parts.drop_last()) + separator + parts.last()
    }
}

/// What texts say.
pub open spec fn text_views(texts: Seq<String>) -> Seq<Seq<char>> {
    texts.map_values(|text: String| text@)
}

/// Joins texts with a separator between them.
pub fn join(separator: &str, parts: &[String]) -> (text: String)
    ensures
        text@ == joined(separator@, text_views(parts@)),
{
    let ghost views = text_views(parts@);
    let mut text = String::new();
    let mut index: usize = 0;
    assert(views.take(0) =~= Seq::<Seq<char>>::empty());
    assert(text@ =~= joined(separator@, views.take(0)));
    while index < parts.len()
        invariant
            index <= parts@.len(),
            views == text_views(parts@),
            text@ == joined(separator@, views.take(index as int)),
        decreases parts@.len() - index,
    {
        let ghost before = text@;
        if index > 0 {
            text.append(separator);
        }
        text.append(parts[index].as_str());
        proof {
            let longer = views.take(index + 1);
            assert(longer.drop_last() =~= views.take(index as int));
            assert(longer.last() == parts@[index as int]@);
            if index == 0 {
                assert(text@ =~= joined(separator@, longer));
            } else {
                assert(text@ =~= before + separator@ + parts@[index as int]@);
            }
        }
        index += 1;
    }
    assert(views.take(views.len() as int) =~= views);
    text
}

/// Where a peer was seen on the LAN, in words.
pub open spec fn reachability(addresses: Option<Seq<Seq<char>>>) -> Seq<char> {
    match addresses {
        None => "not observed"@,
        Some(addresses) => joined(", "@, addresses),
    }
}

/// One line of the list of paired devices.
pub open spec fn peer_words(
    peer: PeerView,
    spaces: nat,
    addresses: Option<Seq<Seq<char>>>,
) -> Seq<char> {
    "  "@ + hex_text(device_id(peer.public_key).take(8)) + "  certificate "@ + hex_text(
        blake3_hash(peer.certificate).take(8),
    ) + "  paired at "@ + decimal_text(peer.paired_at as nat) + "  spaces "@ + decimal_text(spaces)
        + "  LAN "@ + reachability(addresses)
}

/// Renders one line of the list of paired devices.
pub fn peer_line(peer: &PeerRecord, spaces: usize, addresses: Option<&Vec<String>>) -> (line: String)
    ensures
        line@ == peer_words(
            peer@,
            spaces as nat,
            match addresses {
                Some(addresses) => Some(text_views(addresses@)),
                None => None,
            },
        ),
{
    let mut line = owned("  ");
    line.append(peer.public_key.id().to_string().as_str());
    line.append("  certificate ");
    line.append(peer.certificate_pin().to_string().as_str());
    line.append("  paired at ");
    line.append(decimal(peer.paired_at).as_str());
    line.append("  spaces ");
    line.append(decimal(spaces as u64).as_str());
    line.append("  LAN ");
    match addresses {
        None => {
            line.append("not observed");
        },
        Some(addresses) => {
            line.append(join(", ", addresses.as_slice()).as_str());
        },
    }
    assert(line@ =~= peer_words(
        peer@,
        spaces as nat,
        match addresses {
            Some(addresses) => Some(text_views(addresses@)),
            None => None,
        },
    ));
    line
}

/// The list of paired devices, or how to pair one.
pub open spec fn peers_words(lines: Seq<Seq<char>>) -> Seq<char> {
    if lines.len() == 0 {
        "No paired devices yet.\n\nStart with: cyrene pair listen --vault …"@
    } else {
        "Paired devices ("@ + decimal_text(lines.len()) + ")\n"@ + joined("\n"@, lines)
    }
}

/// Renders the list of paired devices.
pub fn peers_text(lines: &[String]) -> (text: String)
    ensures
        text@ == peers_words(text_views(lines@)),
{
    if lines.len() == 0 {
        return owned("No paired devices yet.\n\nStart with: cyrene pair listen --vault …");
    }
    let mut text = owned("Paired devices (");
    text.append(decimal(lines.len() as u64).as_str());
    text.append(")\n");
    text.append(join("\n", lines).as_str());
    assert(text@ =~= peers_words(text_views(lines@)));
    text
}

/// Joined parts come in order with the separator between two of them, and
/// nowhere else.
pub proof fn law_parts_are_joined_in_order(
    separator: Seq<char>,
    parts: Seq<Seq<char>>,
    part: Seq<char>,
)
    ensures
        joined(separator, Seq::empty()) == Seq::<char>::empty(),
        joined(separator, seq![part]) == part,
        parts.len() > 0 ==> joined(separator, parts.push(part)) == joined(separator, parts)
            + separator + part,
{
    if parts.len() > 0 {
        assert(parts.push(part).drop_last() =~= parts);
    }
}

/// A backup report names where the backup is, what it counts and how it was
/// checked.
pub proof fn law_backup_report_says_its_counts(destination: Seq<char>, report: BackupReport)
    ensures
        backup_words(destination, report) == ("Backup ready at "@ + destination) + (
        "\n  documents          "@ + decimal_text(report.documents as nat)) + (
        "\n  replicated changes "@ + decimal_text(report.replicated_changes as nat)) + (
        "\n  integrity          "@ + report.integrity@),
{
    assert(backup_words(destination, report) =~= ("Backup ready at "@ + destination) + (
    "\n  documents          "@ + decimal_text(report.documents as nat)) + (
    "\n  replicated changes "@ + decimal_text(report.replicated_changes as nat)) + (
    "\n  integrity          "@ + report.integrity@));
}

/// A compaction report says how many local changes there were and are, how many
/// were removed, and how many replicated ones are preserved.
pub proof fn law_compaction_report_says_its_counts(report: CompactionReport)
    requires
        report.changes_after <= report.changes_before,
    ensures
        compaction_words(report) == ("Compaction complete\n  local journal      "@ + decimal_text(
            report.changes_before as nat,
        )) + (" → "@ + decimal_text(report.changes_after as nat)) + (" ("@ + decimal_text(
            (report.changes_before - report.changes_after) as nat,
        ) + " removed)\n  replicated history "@) + (decimal_text(
            report.replicated_changes as nat,
        ) + " preserved"@),
{
    assert(compaction_words(report) =~= ("Compaction complete\n  local journal      "@
        + decimal_text(report.changes_before as nat)) + (" → "@ + decimal_text(
        report.changes_after as nat,
    )) + (" ("@ + decimal_text((report.changes_before - report.changes_after) as nat)
        + " removed)\n  replicated history "@) + (decimal_text(report.replicated_changes as nat)
        + " preserved"@));
}

/// A peer's line names the beginnings of its identity and its certificate's
/// digest, when it was paired, how many spaces it shares, and where it was seen.
pub proof fn law_peer_line_says_the_peer(
    peer: PeerView,
    spaces: nat,
    addresses: Seq<Seq<char>>,
)
    ensures
        ({
            let start = "  "@ + hex_text(device_id(peer.public_key).take(8)) + ("  certificate "@
                + hex_text(blake3_hash(peer.certificate).take(8))) + ("  paired at "@
                + decimal_text(peer.paired_at as nat)) + ("  spaces "@ + decimal_text(spaces))
                + "  LAN "@;
            &&& peer_words(peer, spaces, None) == start + "not observed"@
            &&& peer_words(peer, spaces, Some(addresses)) == start + joined(", "@, addresses)
        }),
{
    let start = "  "@ + hex_text(device_id(peer.public_key).take(8)) + ("  certificate "@
        + hex_text(blake3_hash(peer.certificate).take(8))) + ("  paired at "@ + decimal_text(
        peer.paired_at as nat,
    )) + ("  spaces "@ + decimal_text(spaces)) + "  LAN "@;
    assert(peer_words(peer, spaces, None) =~= start + "not observed"@);
    assert(peer_words(peer, spaces, Some(addresses)) =~= start + joined(", "@, addresses));
}

/// A list of peers says how many there are and has a line for each.
pub proof fn law_peer_list_counts_its_lines(lines: Seq<Seq<char>>)
    ensures
        lines.len() > 0 ==> peers_words(lines) == ("Paired devices ("@ + decimal_text(lines.len()))
            + (")\n"@ + joined("\n"@, lines)),
{
    if lines.len() > 0 {
        assert(peers_words(lines) =~= ("Paired devices ("@ + decimal_text(lines.len())) + (")\n"@
            + joined("\n"@, lines)));
    }
}

} // verus!
