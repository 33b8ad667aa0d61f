//! The visible part of an inventory: the entries that a free-text filter shows, and the
//! selection among them.

use crate::decimal::{decimal_chars, decimal_text};
use crate::lsof::{Entry, Process};
use crate::text::{chars_of, contains, occurs_in, text_contains};
use vstd::prelude::*;

verus! {

/// Whether the filter text shows an entry: the text is a substring of the command, of one of
/// the ports, or of the pid written in decimal.
pub open spec fn matches(entry: Entry, filter: Seq<char>) -> bool {
    ||| occurs_in(filter, entry.command)
    ||| exists|i: int| 0 <= i < entry.ports.len() && occurs_in(filter, #[trigger] entry.ports[i])
    ||| occurs_in(filter, decimal_text(entry.pid))
}

/// Whether the filter text `filter` shows the process `p`.
fn shows(p: &Process, filter: &[char]) -> (r: bool)
    ensures
        r == matches(p@, filter@),
{
    if text_contains(p.command.as_str(), filter) {
        return true;
    }
    let mut i: usize = 0;
    while i < p.ports.len()
        invariant
            i <= p.ports.len(),
            forall|j: int| 0 <= j < i ==> !occurs_in(filter@, #[trigger] p@.ports[j]),
        decreases p.ports.len() - i,
    {
        if text_contains(p.ports[i].as_str(), filter) {
            assert(occurs_in(filter@, p@.ports[i as int]));
            return true;
        }
        i += 1;
    }
    let pid = decimal_chars(p.pid);
    contains(pid.as_slice(), filter)
}

/// Whether the filter text `filter` shows the process `p`.
pub fn show_in_filter(p: &Process, filter: &str) -> (r: bool)
    ensures
        r == matches(p@, filter@),
{
    let filter = chars_of(filter);
    shows(p, filter.as_slice())
}

/// The test that a filter text puts to an entry.
pub open spec fn showing(filter: Seq<char>) -> spec_fn(Entry) -> bool {
    |entry: Entry| matches(entry, filter)
}

/// The entries of `snapshot` that the filter text shows, in the order of the snapshot.
pub open spec fn visible(snapshot: Seq<Entry>, filter: Seq<char>) -> Seq<Entry> {
    snapshot.filter(showing(filter))
}

/// The processes of `snapshot` that the filter text shows, in the order of the snapshot.
pub fn apply_filter<'a>(snapshot: &'a [Process], filter: &str) -> (view: Vec<&'a Process>)
    ensures
        view.deep_view() == visible(snapshot.deep_view(), filter@),
{
    let filter_chars = chars_of(filter);
    let ghost all = snapshot.deep_view();
    let ghost test = showing(filter@);
    let mut view: Vec<&'a Process> = Vec::new();
    let mut i: usize = 0;
    assert(all.take(0).filter(test) == Seq::<Entry>::empty()) by {
        reveal(Seq::filter);
    }
    while i < snapshot.len()
        invariant
            i <= snapshot.len(),
            all == snapshot.deep_view(),
            test == showing(filter@),
            filter_chars@ == filter@,
            view.deep_view() == all.take(i as int).filter(test),
        decreases snapshot.len() - i,
    {
        let process = &snapshot[i];
        let ghost before = view.deep_view();
        proof {
            assert(all.take(i + 1) == all.take(i as int).push(process@));
            all.take(i as int).lemma_filter_push(process@, test);
        }
        if shows(process, filter_chars.as_slice()) {
            view.push(process);
            assert(view.deep_view() == before.push(process@));
        }
        i += 1;
    }
    assert(all.take(i as int) == all);
    view
}

/// The pid of the entry at the selected place of a view, where something is selected and the
/// view reaches that far.
pub open spec fn pid_at(view: Seq<Entry>, selected: Option<usize>) -> Option<nat> {
    match selected {
        Some(i) => if i < view.len() {
            Some(view[i as int].pid)
        } else {
            None
        },
        None => None,
    }
}

/// The first place in a view at which an entry with the pid `pid` stands.
pub open spec fn position_of(view: Seq<Entry>, pid: nat) -> Option<int>
    decreases view.len(),
{
    if view.len() == 0 {
        None
    } else {
        match position_of(view.drop_last(), pid) {
            Some(i) => Some(i),
            None => if view.last().pid == pid {
                Some(view.len() - 1)
            } else {
                None
            },
        }
    }
}

/// What `position_of` finds: the first place at which the pid stands, and nothing where the
/// pid stands nowhere.
pub proof fn position_of_is_first(view: Seq<Entry>, pid: nat)
    ensures
        match position_of(view, pid) {
            Some(i) => 0 <= i < view.len() && view[i].pid == pid && forall|j: int|
                0 <= j < i ==> (#[trigger] view[j]).pid != pid,
            None => forall|j: int| 0 <= j < view.len() ==> (#[trigger] view[j]).pid != pid,
        },
    decreases view.len(),
{
    if view.len() > 0 {
        let before = view.drop_last();
        position_of_is_first(before, pid);
        assert forall|j: int| 0 <= j < before.len() implies before[j] == view[j] by {}
        match position_of(before, pid) {
            Some(i) => {
                assert(view[i] == before[i]);
                assert forall|j: int| 0 <= j < i implies (#[trigger] view[j]).pid != pid by {
                    assert(before[j].pid != pid);
                }
            },
            None => {
                assert forall|j: int| 0 <= j < before.len() implies (#[trigger] view[j]).pid
                    != pid by {
                    assert(before[j].pid != pid);
                }
            },
        }
    }
}

/// The pid of the selected process of a view.
pub fn selected_pid(view: &[&Process], selected: Option<usize>) -> (pid: Option<usize>)
    ensures
        match pid {
            Some(pid) => pid_at(view.deep_view(), selected) == Some(pid as nat),
            None => pid_at(view.deep_view(), selected) is None,
        },
{
    match selected {
        Some(i) => if i < view.len() {
            Some(view[i].pid)
        } else {
            None
        },
        None => None,
    }
}

/// Where the selection stands in a new view: at the first process with the pid that was
/// selected, and nowhere if no pid was selected or the view holds no such process.
pub open spec fn preserved(old_pid: Option<usize>, new_view: Seq<Entry>) -> Option<int> {
    match old_pid {
        Some(pid) => position_of(new_view, pid as nat),
        None => None,
    }
}

/// Finds the selected pid again in a new view.
pub fn preserve_selection(old_pid: Option<usize>, new_view: &[&Process]) -> (selected: Option<usize>)
    ensures
        match selected {
            Some(i) => preserved(old_pid, new_view.deep_view()) == Some(i as int),
            None => preserved(old_pid, new_view.deep_view()) is None,
        },
{
    let pid = match old_pid {
        Some(pid) => pid,
        None => {
            return None;
        },
    };
    let ghost view = new_view.deep_view();
    let mut i: usize = 0;
    assert(view.take(0).len() == 0);
    while i < new_view.len()
        invariant
            i <= new_view.len(),
            old_pid == Some(pid),
            view == new_view.deep_view(),
            position_of(view.take(i as int), pid as nat) is None,
        decreases new_view.len() - i,
    {
        assert(view.take(i + 1).drop_last() == view.take(i as int));
        assert(view.take(i + 1).last() == new_view@[i as int]@);
        if new_view[i].pid == pid {
            proof {
                position_grows(view, i + 1, pid as nat);
            }
            return Some(i);
        }
        i += 1;
    }
    assert(view.take(i as int) == view);
    None
}

/// A pid that stands in the first `n` places of a view stands at the same place in the whole
/// view.
proof fn position_grows(view: Seq<Entry>, n: int, pid: nat)
    requires
        0 <= n <= view.len(),
        position_of(view.take(n), pid) is Some,
    ensures
        position_of(view, pid) == position_of(view.take(n), pid),
    decreases view.len() - n,
{
    if n < view.len() {
        assert(view.take(n + 1).drop_last() == view.take(n));
        position_grows(view, n + 1, pid);
    } else {
        assert(view.take(n) == view);
    }
}

/// A filter that shows every entry of a snapshot leaves the snapshot as it is.
proof fn all_shown(snapshot: Seq<Entry>, filter: Seq<char>)
    requires
        forall|i: int| 0 <= i < snapshot.len() ==> matches(#[trigger] snapshot[i], filter),
    ensures
        visible(snapshot, filter) == snapshot,
    decreases snapshot.len(),
{
    reveal(Seq::filter);
    if snapshot.len() > 0 {
        let before = snapshot.drop_last();
        assert forall|i: int| 0 <= i < before.len() implies matches(#[trigger] before[i], filter) by {
            assert(before[i] == snapshot[i]);
        }
        all_shown(before, filter);
        assert(matches(snapshot[snapshot.len() - 1], filter));
        assert(before.push(snapshot.last()) == snapshot);
    }
}

/// The empty filter shows every entry, in the order of the snapshot.
pub proof fn empty_filter_shows_all(snapshot: Seq<Entry>)
    ensures
        visible(snapshot, Seq::empty()) == snapshot,
{
    let none = Seq::<char>::empty();
    assert forall|i: int| 0 <= i < snapshot.len() implies matches(#[trigger] snapshot[i], none) by {
        let command = snapshot[i].command;
        assert(command.subrange(0, 0) == none);
        assert(crate::text::occurs_at(none, command, 0));
    }
    all_shown(snapshot, none);
}

/// A filter shows the entries that match it, and no others.
pub proof fn filter_shows_what_matches(snapshot: Seq<Entry>, filter: Seq<char>)
    ensures
        forall|j: int|
            0 <= j < visible(snapshot, filter).len() ==> matches(
                #[trigger] visible(snapshot, filter)[j],
                filter,
            ) && snapshot.contains(visible(snapshot, filter)[j]),
        forall|i: int|
            0 <= i < snapshot.len() && matches(snapshot[i], filter) ==> visible(
                snapshot,
                filter,
            ).contains(#[trigger] snapshot[i]),
{
    let test = showing(filter);
    let view = visible(snapshot, filter);
    assert forall|j: int| 0 <= j < view.len() implies matches(#[trigger] view[j], filter)
        && snapshot.contains(view[j]) by {
        snapshot.lemma_filter_pred(test, j);
        assert(view.contains(view[j]));
        snapshot.lemma_filter_contains_rev(test, view[j]);
    }
    assert forall|i: int| 0 <= i < snapshot.len() && matches(snapshot[i], filter) implies view.contains(
        #[trigger] snapshot[i],
    ) by {
        snapshot.lemma_filter_contains(test, i);
    }
}

/// The pid of an entry, written in decimal, is a filter that shows the entry. What else it
/// shows matches the text too.
pub proof fn pid_text_shows_entry(snapshot: Seq<Entry>, i: int)
    requires
        0 <= i < snapshot.len(),
    ensures
        visible(snapshot, decimal_text(snapshot[i].pid)).contains(snapshot[i]),
        forall|j: int|
            0 <= j < visible(snapshot, decimal_text(snapshot[i].pid)).len() ==> matches(
                #[trigger] visible(snapshot, decimal_text(snapshot[i].pid))[j],
                decimal_text(snapshot[i].pid),
            ),
{
    let written = decimal_text(snapshot[i].pid);
    assert(written.subrange(0, written.len() as int) == written);
    assert(crate::text::occurs_at(written, written, 0));
    filter_shows_what_matches(snapshot, written);
}

/// A filter keeps the order of the snapshot: of two entries that it shows, the one shown
/// first stands first in the snapshot.
pub proof fn filter_keeps_order(snapshot: Seq<Entry>, filter: Seq<char>, i: int, j: int)
    requires
        0 <= i < j < visible(snapshot, filter).len(),
    ensures
        exists|a: int, b: int|
            0 <= a < b < snapshot.len() && #[trigger] snapshot[a] == visible(snapshot, filter)[i]
                && #[trigger] snapshot[b] == visible(snapshot, filter)[j],
    decreases snapshot.len(),
{
    reveal(Seq::filter);
    let test = showing(filter);
    let before = snapshot.drop_last();
    let view = visible(snapshot, filter);
    if j < visible(before, filter).len() {
        filter_keeps_order(before, filter, i, j);
        let (a, b) = choose|a: int, b: int|
            0 <= a < b < before.len() && #[trigger] before[a] == visible(before, filter)[i]
                && #[trigger] before[b] == visible(before, filter)[j];
        assert(snapshot[a] == view[i] && snapshot[b] == view[j]);
    } else {
        let b = snapshot.len() - 1;
        assert(snapshot[b] == view[j]);
        assert(visible(before, filter).contains(view[i]));
        before.lemma_filter_contains_rev(test, view[i]);
        let a = choose|a: int| 0 <= a < before.len() && before[a] == view[i];
        assert(snapshot[a] == view[i] && snapshot[b] == view[j]);
    }
}

} // verus!
