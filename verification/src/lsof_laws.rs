//! What holds of every decoded inventory.

use crate::lsof::{
    aggregate, collect, decoded, entries, field_kind, field_of, first_seen, groups,
    groups_is_nonempty, has_port, lines_of, listen, observed_ports, parsed, port_of, reduce,
    reduced, FieldType, Fields,
};
use crate::text::split_at_separator;
use vstd::utf8::{is_ascii_chars, is_ascii_chars_encode_utf8};
use vstd::prelude::*;

verus! {

/// `first_seen` lists nothing twice.
pub proof fn first_seen_has_no_duplicates(items: Seq<Seq<char>>)
    ensures
        first_seen(items).no_duplicates(),
    decreases items.len(),
{
    if items.len() > 0 {
        first_seen_has_no_duplicates(items.drop_last());
    }
}

/// `first_seen` lists exactly the items that occur.
pub proof fn first_seen_keeps_items(items: Seq<Seq<char>>, item: Seq<char>)
    ensures
        first_seen(items).contains(item) <==> items.contains(item),
    decreases items.len(),
{
    if items.len() > 0 {
        let before = items.drop_last();
        let kept = first_seen(before);
        let listed = first_seen(items);
        first_seen_keeps_items(before, item);
        if listed.contains(item) {
            let k = choose|k: int| 0 <= k < listed.len() && listed[k] == item;
            if k < kept.len() {
                assert(kept[k] == item);
                let m = choose|m: int| 0 <= m < before.len() && before[m] == item;
                assert(items[m] == item);
            } else {
                assert(items[items.len() - 1] == item);
            }
        }
        if items.contains(item) {
            let k = choose|k: int| 0 <= k < items.len() && items[k] == item;
            if k < before.len() {
                assert(before[k] == item);
                let m = choose|m: int| 0 <= m < kept.len() && kept[m] == item;
                assert(listed[m] == item);
            } else if kept.contains(item) {
            } else {
                assert(listed[listed.len() - 1] == item);
            }
        }
    }
}

/// `first_seen` lists the items in the order in which they occur first: of two listed items,
/// the earlier one occurs at a place before which the later one does not occur.
pub proof fn first_seen_keeps_order(items: Seq<Seq<char>>, i: int, j: int)
    requires
        0 <= i < j < first_seen(items).len(),
    ensures
        exists|k: int|
            0 <= k < items.len() && #[trigger] items[k] == first_seen(items)[i] && !items.take(
                k + 1,
            ).contains(first_seen(items)[j]),
    decreases items.len(),
{
    let before = items.drop_last();
    let kept = first_seen(before);
    if j < kept.len() {
        first_seen_keeps_order(before, i, j);
        let k = choose|k: int|
            0 <= k < before.len() && #[trigger] before[k] == kept[i] && !before.take(
                k + 1,
            ).contains(kept[j]);
        assert(items.take(k + 1) == before.take(k + 1));
        assert(items[k] == first_seen(items)[i]);
    } else {
        let late = items.last();
        assert(first_seen(items)[j] == late);
        assert(kept.contains(kept[i]));
        first_seen_keeps_items(before, kept[i]);
        first_seen_keeps_items(before, late);
        let k = choose|k: int| 0 <= k < before.len() && before[k] == kept[i];
        let early = items.take(k + 1);
        if early.contains(late) {
            let m = choose|m: int| 0 <= m < early.len() && early[m] == late;
            assert(before[m] == late);
        }
        assert(items[k] == first_seen(items)[i]);
    }
}

/// An entry that a group describes lists no port twice.
pub proof fn reduced_entry_is_well_formed(group: Seq<Fields>)
    ensures
        reduce(group) matches Some(entry) ==> entry.well_formed(),
{
    if group.len() > 0 {
        first_seen_has_no_duplicates(observed_ports(group.skip(1)));
    }
}

/// Every entry is what one of the groups describes.
pub proof fn entry_has_group(groups: Seq<Seq<Fields>>, i: int)
    requires
        0 <= i < entries(groups).len(),
    ensures
        exists|g: int| 0 <= g < groups.len() && reduce(#[trigger] groups[g]) == Some(entries(groups)[i]),
    decreases groups.len(),
{
    let before = groups.drop_last();
    if i < entries(before).len() {
        entry_has_group(before, i);
        let g = choose|g: int| 0 <= g < before.len() && reduce(#[trigger] before[g]) == Some(entries(before)[i]);
        assert(groups[g] == before[g]);
    } else {
        assert(reduce(groups[groups.len() - 1]) == Some(entries(groups)[i]));
    }
}

/// No entry of a decoded output lists a port twice.
pub proof fn parsed_entries_are_well_formed(out: Seq<u8>)
    ensures
        forall|i: int| 0 <= i < parsed(out).len() ==> (#[trigger] parsed(out)[i]).well_formed(),
{
    let all = groups(crate::lsof::lines_of(out));
    assert forall|i: int| 0 <= i < parsed(out).len() implies (#[trigger] parsed(out)[i]).well_formed() by {
        entry_has_group(all, i);
        let g = choose|g: int| 0 <= g < all.len() && reduce(#[trigger] all[g]) == Some(entries(all)[i]);
        reduced_entry_is_well_formed(all[g]);
    }
}

/// Every entry of an inventory lists at least one port, and none twice.
pub proof fn decoded_entries_listen(out: Seq<u8>)
    ensures
        forall|i: int|
            0 <= i < decoded(out).len() ==> (#[trigger] decoded(out)[i]).ports.len() > 0
                && decoded(out)[i].well_formed(),
{
    let all = parsed(out);
    parsed_entries_are_well_formed(out);
    assert forall|i: int| 0 <= i < decoded(out).len() implies (#[trigger] decoded(out)[i]).ports.len()
        > 0 && decoded(out)[i].well_formed() by {
        let entry = decoded(out)[i];
        all.lemma_filter_pred(has_port(), i);
        assert(all.filter(has_port()).contains(entry));
        all.lemma_filter_contains_rev(has_port(), entry);
        let k = choose|k: int| 0 <= k < all.len() && all[k] == entry;
        assert(all[k].well_formed());
    }
}

/// A port that was observed was reported by a line.
proof fn observed_port_has_line(lines: Seq<Fields>, port: Seq<char>)
    requires
        observed_ports(lines).contains(port),
    ensures
        exists|j: int| 0 <= j < lines.len() && port_of(#[trigger] lines[j]) == Some(port),
    decreases lines.len(),
{
    let seen = observed_ports(lines);
    let k = choose|k: int| 0 <= k < seen.len() && seen[k] == port;
    let before = lines.drop_last();
    if k < observed_ports(before).len() {
        assert(observed_ports(before)[k] == port);
        observed_port_has_line(before, port);
        let j = choose|j: int| 0 <= j < before.len() && port_of(#[trigger] before[j]) == Some(port);
        assert(lines[j] == before[j]);
    } else {
        assert(port_of(lines[lines.len() - 1]) == Some(port));
    }
}

/// The port that a line reports is among those observed.
proof fn line_has_observed_port(lines: Seq<Fields>, j: int)
    requires
        0 <= j < lines.len(),
        port_of(lines[j]) is Some,
    ensures
        observed_ports(lines).contains(port_of(lines[j]).unwrap()),
    decreases lines.len(),
{
    let seen = observed_ports(lines);
    let before = lines.drop_last();
    let port = port_of(lines[j]).unwrap();
    if j < before.len() {
        line_has_observed_port(before, j);
        let k = choose|k: int| 0 <= k < observed_ports(before).len() && observed_ports(before)[k] == port;
        assert(seen[k] == port);
    } else {
        assert(seen[seen.len() - 1] == port);
    }
}

/// A line that reports no port can be left out.
proof fn observed_ports_without_line(lines: Seq<Fields>, j: int)
    requires
        0 <= j < lines.len(),
        port_of(lines[j]) is None,
    ensures
        observed_ports(lines.remove(j)) == observed_ports(lines),
    decreases lines.len(),
{
    if j == lines.len() - 1 {
        assert(lines.remove(j) == lines.drop_last());
    } else {
        observed_ports_without_line(lines.drop_last(), j);
        assert(lines.remove(j).drop_last() == lines.drop_last().remove(j));
        assert(lines.remove(j).last() == lines.last());
    }
}

/// Every observed port is reported by a line, and what was observed up to that line is what
/// was observed up to that port.
proof fn observed_port_line(lines: Seq<Fields>, k: int)
    requires
        0 <= k < observed_ports(lines).len(),
    ensures
        exists|a: int|
            0 <= a < lines.len() && port_of(#[trigger] lines[a]) == Some(observed_ports(lines)[k])
                && observed_ports(lines.take(a + 1)) == observed_ports(lines).take(k + 1),
    decreases lines.len(),
{
    let seen = observed_ports(lines);
    let before = lines.drop_last();
    if k < observed_ports(before).len() {
        observed_port_line(before, k);
        let a = choose|a: int|
            0 <= a < before.len() && port_of(#[trigger] before[a]) == Some(
                observed_ports(before)[k],
            ) && observed_ports(before.take(a + 1)) == observed_ports(before).take(k + 1);
        assert(lines[a] == before[a]);
        assert(lines.take(a + 1) == before.take(a + 1));
        assert(seen.take(k + 1) == observed_ports(before).take(k + 1));
    } else {
        let a = lines.len() - 1;
        assert(port_of(lines[a]) == Some(seen[k]));
        assert(lines.take(a + 1) == lines);
        assert(seen.take(k + 1) == seen);
    }
}

/// The ports of an entry stand in the order in which the lines of its group report them
/// first: of two ports, the earlier one is reported by a line up to which no line reports
/// the later one.
pub proof fn ports_stand_in_first_seen_order(group: Seq<Fields>, i: int, j: int)
    requires
        reduce(group) is Some,
        0 <= i < j < reduce(group).unwrap().ports.len(),
    ensures
        exists|a: int|
            1 <= a < group.len() && port_of(#[trigger] group[a]) == Some(
                reduce(group).unwrap().ports[i],
            ) && forall|b: int|
                1 <= b <= a ==> port_of(#[trigger] group[b]) != Some(
                    reduce(group).unwrap().ports[j],
                ),
{
    let rest = group.skip(1);
    let seen = observed_ports(rest);
    let ports = first_seen(seen);
    first_seen_keeps_order(seen, i, j);
    let k = choose|k: int|
        0 <= k < seen.len() && #[trigger] seen[k] == ports[i] && !seen.take(k + 1).contains(
            ports[j],
        );
    observed_port_line(rest, k);
    let a = choose|a: int|
        0 <= a < rest.len() && port_of(#[trigger] rest[a]) == Some(seen[k]) && observed_ports(
            rest.take(a + 1),
        ) == seen.take(k + 1);
    assert(group[a + 1] == rest[a]);
    assert forall|b: int| 1 <= b <= a + 1 implies port_of(#[trigger] group[b]) != Some(ports[j]) by {
        if port_of(group[b]) == Some(ports[j]) {
            assert(rest.take(a + 1)[b - 1] == group[b]);
            line_has_observed_port(rest.take(a + 1), b - 1);
        }
    }
}

/// Every port of an entry is the network address of a line after the header whose TCP state
/// is `LISTEN`.
pub proof fn ports_come_from_listening_lines(group: Seq<Fields>, port: Seq<char>)
    requires
        reduce(group) is Some,
        reduce(group).unwrap().ports.contains(port),
    ensures
        exists|j: int|
            1 <= j < group.len() && (#[trigger] group[j]).network == Some(port)
                && group[j].tcp_state == Some(listen()),
{
    let rest = group.skip(1);
    first_seen_keeps_items(observed_ports(rest), port);
    observed_port_has_line(rest, port);
    let k = choose|k: int| 0 <= k < rest.len() && port_of(#[trigger] rest[k]) == Some(port);
    assert(group[k + 1] == rest[k]);
}

/// The network address of every line after the header whose TCP state is `LISTEN` is a port
/// of the entry.
pub proof fn listening_lines_are_reported(group: Seq<Fields>, j: int)
    requires
        reduce(group) is Some,
        1 <= j < group.len(),
        group[j].network is Some,
        group[j].tcp_state == Some(listen()),
    ensures
        reduce(group).unwrap().ports.contains(group[j].network.unwrap()),
{
    let rest = group.skip(1);
    assert(rest[j - 1] == group[j]);
    line_has_observed_port(rest, j - 1);
    first_seen_keeps_items(observed_ports(rest), group[j].network.unwrap());
}

/// A line after the header whose TCP state is not `LISTEN` adds nothing, whether or not it
/// has a network address: the group describes the same process without it.
pub proof fn line_in_another_state_adds_nothing(group: Seq<Fields>, j: int)
    requires
        1 <= j < group.len(),
        group[j].tcp_state != Some(listen()),
    ensures
        reduce(group.remove(j)) == reduce(group),
{
    let rest = group.skip(1);
    assert(rest[j - 1] == group[j]);
    observed_ports_without_line(rest, j - 1);
    assert(group.remove(j).skip(1) == rest.remove(j - 1));
    assert(group.remove(j)[0] == group[0]);
}

/// A line with a pid opens a group, and a line without a pid opens none: it never starts a
/// new entry.
pub proof fn only_a_pid_opens_a_group(lines: Seq<Fields>, line: Fields)
    ensures
        line.pid is Some ==> groups(lines.push(line)).len() == groups(lines).len() + 1,
        line.pid is None ==> groups(lines.push(line)).len() == groups(lines).len(),
        line.pid is None ==> aggregate(lines.push(line)).len() == aggregate(lines).len(),
{
    let held = groups(lines);
    let more = groups(lines.push(line));
    groups_is_nonempty(lines);
    assert(lines.push(line).drop_last() == lines);
    if line.pid is None {
        let open = held.last();
        assert(more.drop_last() == held.drop_last());
        assert(more.last() == open.push(line));
        if open.len() > 0 {
            assert(open.push(line)[0] == open[0]);
        }
        assert(reduced(open.push(line)).len() == reduced(open).len());
    }
}

/// Lines without a pid form a single group.
proof fn lines_without_pid_are_one_group(lead: Seq<Fields>)
    requires
        forall|i: int| 0 <= i < lead.len() ==> (#[trigger] lead[i]).pid is None,
    ensures
        groups(lead) == seq![lead],
    decreases lead.len(),
{
    if lead.len() > 0 {
        let before = lead.drop_last();
        lines_without_pid_are_one_group(before);
        assert(lead.last() == lead[lead.len() - 1]);
        assert(before.push(lead.last()) == lead);
        assert(seq![before].drop_last().push(before.push(lead.last())) == seq![lead]);
    } else {
        assert(lead == Seq::<Fields>::empty());
    }
}

/// Lines without a pid in front of other lines join the first group of those lines, and
/// leave the groups after it as they are.
proof fn lead_joins_first_group(lead: Seq<Fields>, rest: Seq<Fields>)
    requires
        forall|i: int| 0 <= i < lead.len() ==> (#[trigger] lead[i]).pid is None,
    ensures
        groups(rest).len() >= 1,
        groups(lead + rest) == groups(rest).update(0, lead + groups(rest)[0]),
    decreases rest.len(),
{
    groups_is_nonempty(rest);
    if rest.len() == 0 {
        lines_without_pid_are_one_group(lead);
        assert(lead + rest == lead);
        assert(lead + groups(rest)[0] == lead);
        assert(groups(rest).update(0, lead) == seq![lead]);
    } else {
        let before = rest.drop_last();
        let line = rest.last();
        lead_joins_first_group(lead, before);
        groups_is_nonempty(before);
        assert((lead + rest).drop_last() == lead + before);
        assert((lead + rest).last() == line);
        let held = groups(before);
        let joined = groups(lead + before);
        if line.pid is Some {
            assert(joined.push(seq![line]) == held.push(seq![line]).update(
                0,
                lead + held.push(seq![line])[0],
            ));
        } else if held.len() == 1 {
            assert((lead + held[0]).push(line) == lead + held[0].push(line));
            assert(joined.drop_last().push(joined.last().push(line)) == held.drop_last().push(
                held.last().push(line),
            ).update(0, lead + held[0].push(line)));
        } else {
            assert(joined.drop_last().push(joined.last().push(line)) == held.drop_last().push(
                held.last().push(line),
            ).update(0, lead + held[0]));
        }
    }
}

/// No line of the first group has a pid.
proof fn first_group_has_no_pid(lines: Seq<Fields>)
    ensures
        groups(lines).len() >= 1,
        forall|i: int| 0 <= i < groups(lines)[0].len() ==> (#[trigger] groups(lines)[0][i]).pid is None,
    decreases lines.len(),
{
    if lines.len() > 0 {
        first_group_has_no_pid(lines.drop_last());
    }
}

/// The entries depend on a group only through the process that it describes.
proof fn entries_of_like_group(groups: Seq<Seq<Fields>>, g: int, like: Seq<Fields>)
    requires
        0 <= g < groups.len(),
        reduce(like) == reduce(groups[g]),
    ensures
        entries(groups.update(g, like)) == entries(groups),
    decreases groups.len(),
{
    let before = groups.drop_last();
    if g == groups.len() - 1 {
        assert(groups.update(g, like).drop_last() == before);
    } else {
        entries_of_like_group(before, g, like);
        assert(groups.update(g, like).drop_last() == before.update(g, like));
    }
}

/// The lines that come before the first line with a pid are dropped: the rest describes
/// the same entries without them.
pub proof fn lines_before_the_first_pid_are_dropped(lead: Seq<Fields>, rest: Seq<Fields>)
    requires
        forall|i: int| 0 <= i < lead.len() ==> (#[trigger] lead[i]).pid is None,
    ensures
        aggregate(lead + rest) == aggregate(rest),
{
    lead_joins_first_group(lead, rest);
    first_group_has_no_pid(rest);
    let first = groups(rest)[0];
    let joined = lead + first;
    if joined.len() > 0 {
        if lead.len() > 0 {
            assert(joined[0] == lead[0]);
        } else {
            assert(joined[0] == first[0]);
        }
        assert(joined[0].pid is None);
    }
    if first.len() > 0 {
        assert(first[0].pid is None);
    }
    entries_of_like_group(groups(rest), 0, joined);
}

/// Decoding is a function of the bytes alone: the same bytes describe the same inventory,
/// with the same entries in the same order.
pub proof fn same_bytes_same_inventory(a: Seq<u8>, b: Seq<u8>)
    requires
        a.len() == b.len(),
        forall|i: int| 0 <= i < a.len() ==> a[i] == b[i],
    ensures
        parsed(a) == parsed(b),
        decoded(a) == decoded(b),
{
    assert(a =~= b);
}

/// The prefixes as bytes: `p`, `c`, `n` and `TST=` in ASCII.
pub proof fn prefixes_are_ascii()
    ensures
        FieldType::Pid.prefix_bytes() == seq![0x70u8],
        FieldType::Command.prefix_bytes() == seq![0x63u8],
        FieldType::Network.prefix_bytes() == seq![0x6eu8],
        FieldType::TcpState.prefix_bytes() == seq![0x54u8, 0x53u8, 0x54u8, 0x3du8],
{
    let pid = FieldType::Pid.spec_prefix();
    let command = FieldType::Command.spec_prefix();
    let network = FieldType::Network.spec_prefix();
    let state = FieldType::TcpState.spec_prefix();
    assert(is_ascii_chars(pid) && is_ascii_chars(command) && is_ascii_chars(network)
        && is_ascii_chars(state));
    is_ascii_chars_encode_utf8(pid);
    is_ascii_chars_encode_utf8(command);
    is_ascii_chars_encode_utf8(network);
    is_ascii_chars_encode_utf8(state);
    assert(pid[0] as u8 == 0x70u8 && command[0] as u8 == 0x63u8 && network[0] as u8 == 0x6eu8);
    assert(state[0] as u8 == 0x54u8 && state[1] as u8 == 0x53u8 && state[2] as u8 == 0x54u8
        && state[3] as u8 == 0x3du8);
    assert(FieldType::Pid.prefix_bytes() =~= seq![0x70u8]);
    assert(FieldType::Command.prefix_bytes() =~= seq![0x63u8]);
    assert(FieldType::Network.prefix_bytes() =~= seq![0x6eu8]);
    assert(FieldType::TcpState.prefix_bytes() =~= seq![0x54u8, 0x53u8, 0x54u8, 0x3du8]);
}

/// No two prefixes open the same chunk, so that the order in which they are tried does not
/// matter: a chunk holds a field of a kind exactly when the prefix of that kind opens it.
pub proof fn one_prefix_opens_a_chunk(chunk: Seq<u8>, kind: FieldType)
    ensures
        field_kind(chunk) == Some(kind) <==> kind.prefix_bytes().is_prefix_of(chunk),
{
    prefixes_are_ascii();
    if chunk.len() > 0 {
        assert(FieldType::Pid.prefix_bytes().is_prefix_of(chunk) ==> chunk[0] == 0x70u8) by {
            if FieldType::Pid.prefix_bytes().is_prefix_of(chunk) {
                assert(chunk.subrange(0, 1)[0] == 0x70u8);
            }
        }
        assert(FieldType::Command.prefix_bytes().is_prefix_of(chunk) ==> chunk[0] == 0x63u8) by {
            if FieldType::Command.prefix_bytes().is_prefix_of(chunk) {
                assert(chunk.subrange(0, 1)[0] == 0x63u8);
            }
        }
        assert(FieldType::Network.prefix_bytes().is_prefix_of(chunk) ==> chunk[0] == 0x6eu8) by {
            if FieldType::Network.prefix_bytes().is_prefix_of(chunk) {
                assert(chunk.subrange(0, 1)[0] == 0x6eu8);
            }
        }
        assert(FieldType::TcpState.prefix_bytes().is_prefix_of(chunk) ==> chunk[0] == 0x54u8) by {
            if FieldType::TcpState.prefix_bytes().is_prefix_of(chunk) {
                assert(chunk.subrange(0, 4)[0] == 0x54u8);
            }
        }
    }
}

/// The lines of an output that stand before a line feed and those that stand after it are
/// decoded each for themselves.
proof fn lines_at_line_feed(lead: Seq<u8>, rest: Seq<u8>)
    ensures
        lines_of(lead.push(0x0au8) + rest) == lines_of(lead) + lines_of(rest),
{
    split_at_separator(lead, rest, 0x0au8);
    assert(lines_of(lead.push(0x0au8) + rest) =~= lines_of(lead) + lines_of(rest));
}

/// Output before the first line with a pid is dropped: where no line of `lead` gives a
/// pid, `lead`, a line feed and `rest` describe what `rest` describes.
pub proof fn output_before_the_first_pid_is_dropped(lead: Seq<u8>, rest: Seq<u8>)
    requires
        forall|i: int| 0 <= i < lines_of(lead).len() ==> (#[trigger] lines_of(lead)[i]).pid is None,
    ensures
        parsed(lead.push(0x0au8) + rest) == parsed(rest),
        decoded(lead.push(0x0au8) + rest) == decoded(rest),
{
    lines_at_line_feed(lead, rest);
    lines_before_the_first_pid_are_dropped(lines_of(lead), lines_of(rest));
}

/// Of the chunks of a line that hold a field of one kind, the last one counts.
pub proof fn last_field_of_a_kind_counts(chunks: Seq<Seq<u8>>, j: int)
    requires
        0 <= j < chunks.len(),
        field_of(chunks[j]) is Some,
        forall|m: int|
            j < m < chunks.len() && field_of(chunks[m]) is Some ==> (#[trigger] field_of(
                chunks[m],
            )).unwrap().0 != field_of(chunks[j]).unwrap().0,
    ensures
        collect(chunks).get(field_of(chunks[j]).unwrap().0) == Some(field_of(chunks[j]).unwrap().1),
    decreases chunks.len(),
{
    if j < chunks.len() - 1 {
        let before = chunks.drop_last();
        assert forall|m: int| j < m < before.len() && field_of(before[m]) is Some implies (
        #[trigger] field_of(before[m])).unwrap().0 != field_of(before[j]).unwrap().0 by {
            assert(before[m] == chunks[m]);
        }
        last_field_of_a_kind_counts(before, j);
        assert(field_of(chunks[chunks.len() - 1]) is Some ==> field_of(
            chunks[chunks.len() - 1],
        ).unwrap().0 != field_of(chunks[j]).unwrap().0);
    }
}

/// A kind of field that no chunk of a line holds is missing from the line.
pub proof fn missing_field_stays_missing(chunks: Seq<Seq<u8>>, kind: FieldType)
    requires
        forall|m: int|
            0 <= m < chunks.len() && field_of(chunks[m]) is Some ==> (#[trigger] field_of(
                chunks[m],
            )).unwrap().0 != kind,
    ensures
        collect(chunks).get(kind) is None,
    decreases chunks.len(),
{
    if chunks.len() > 0 {
        let before = chunks.drop_last();
        assert forall|m: int| 0 <= m < before.len() && field_of(before[m]) is Some implies (
        #[trigger] field_of(before[m])).unwrap().0 != kind by {
            assert(before[m] == chunks[m]);
        }
        missing_field_stays_missing(before, kind);
        assert(field_of(chunks[chunks.len() - 1]) is Some ==> field_of(
            chunks[chunks.len() - 1],
        ).unwrap().0 != kind);
    }
}

/// The groups, one after another, are the lines: each line belongs to one group, and the
/// order is kept.
pub proof fn groups_cover_the_lines(lines: Seq<Fields>)
    ensures
        groups(lines).flatten() == lines,
    decreases lines.len(),
{
    groups(lines).lemma_flatten_and_flatten_alt_are_equivalent();
    if lines.len() == 0 {
        assert(groups(lines).drop_last().len() == 0);
        assert(groups(lines).drop_last().flatten_alt() == Seq::<Fields>::empty());
        assert(groups(lines).flatten_alt() == Seq::<Fields>::empty() + Seq::<Fields>::empty());
    } else {
        let rest = lines.drop_last();
        let before = groups(rest);
        groups_cover_the_lines(rest);
        groups_is_nonempty(rest);
        before.lemma_flatten_and_flatten_alt_are_equivalent();
        assert(rest.push(lines.last()) == lines);
        if lines.last().pid is Some {
            assert(before.push(seq![lines.last()]).drop_last() == before);
            assert(before.flatten_alt() + seq![lines.last()] == lines);
        } else {
            let parted = before.drop_last().push(before.last().push(lines.last()));
            assert(parted.drop_last() == before.drop_last());
            assert(before.drop_last().flatten_alt() + before.last().push(lines.last()) == (
            before.drop_last().flatten_alt() + before.last()).push(lines.last()));
        }
    }
}

/// The first line of every group but the first gives a pid, and no other line of any group
/// gives one: a group reaches from one line with a pid up to the next.
pub proof fn groups_open_with_a_pid(lines: Seq<Fields>)
    ensures
        forall|g: int|
            #![trigger groups(lines)[g]]
            1 <= g < groups(lines).len() ==> groups(lines)[g].len() >= 1,
        forall|g: int, j: int|
            0 <= g < groups(lines).len() && 0 <= j < groups(lines)[g].len() ==> ((
            #[trigger] groups(lines)[g][j]).pid is Some <==> g >= 1 && j == 0),
    decreases lines.len(),
{
    if lines.len() > 0 {
        let rest = lines.drop_last();
        let before = groups(rest);
        let parted = groups(lines);
        groups_open_with_a_pid(rest);
        groups_is_nonempty(rest);
        assert forall|g: int|
            #![trigger parted[g]]
            1 <= g < parted.len() implies parted[g].len() >= 1 by {
            if g < before.len() - 1 {
                assert(parted[g] == before[g]);
            } else if g < before.len() {
                assert(before[g].len() >= 1);
            }
        }
        assert forall|g: int, j: int| 0 <= g < parted.len() && 0 <= j < parted[g].len() implies ((
        #[trigger] parted[g][j]).pid is Some <==> g >= 1 && j == 0) by {
            if g < before.len() - 1 {
                assert(parted[g] == before[g]);
                assert(before[g][j].pid is Some <==> g >= 1 && j == 0);
            } else if lines.last().pid is None {
                if j < before[g].len() {
                    assert(parted[g][j] == before[g][j]);
                    assert(before[g][j].pid is Some <==> g >= 1 && j == 0);
                } else if g >= 1 {
                    assert(before[g].len() >= 1);
                }
            } else if g < before.len() {
                assert(parted[g] == before[g]);
                assert(before[g][j].pid is Some <==> g >= 1 && j == 0);
            }
        }
    }
}

} // verus!
