//! Decoding the output of `lsof -F` with NUL-terminated fields: one line per field set, a
//! process per group of lines, and a port for every address that a process listens on.

use crate::decimal::{parse_unsigned, unsigned_value};
use crate::lsof_laws::{
    decoded_entries_listen, parsed_entries_are_well_formed, reduced_entry_is_well_formed,
};
use crate::text::{same_text, split, split_on, strip_prefix, text, text_of};
use itertools::Itertools;
use vstd::prelude::*;
use vstd::string::StringSliceAdditionalSpecFns;
use vstd::utf8::encode_utf8;

verus! {

/// The kinds of field that the decoder reads. Every other field of a line is skipped.
#[derive(Copy, Clone, Debug, PartialEq, Eq, Hash, Structural)]
pub enum FieldType {
    Pid,
    Command,
    Network,
    TcpState,
}

impl FieldType {
    /// The characters that open a field of this kind.
    pub open spec fn spec_prefix(self) -> Seq<char> {
        match self {
            FieldType::Pid => seq!['p'],
            FieldType::Command => seq!['c'],
            FieldType::Network => seq!['n'],
            FieldType::TcpState => seq!['T', 'S', 'T', '='],
        }
    }

    /// The bytes that open a field of this kind.
    pub open spec fn prefix_bytes(self) -> Seq<u8> {
        encode_utf8(self.spec_prefix())
    }

    /// The text that opens a field of this kind.
    pub fn prefix(self) -> (r: &'static str)
        ensures
            r@ == self.spec_prefix(),
    {
        proof {
            reveal_strlit("p");
            reveal_strlit("c");
            reveal_strlit("n");
            reveal_strlit("TST=");
        }
        let r = match self {
            FieldType::Pid => "p",
            FieldType::Command => "c",
            FieldType::Network => "n",
            FieldType::TcpState => "TST=",
        };
        assert(r@ =~= self.spec_prefix());
        r
    }
}

/// The kinds in the order in which a chunk is tried against their prefixes.
pub open spec fn kinds() -> Seq<FieldType> {
    seq![FieldType::Pid, FieldType::Command, FieldType::Network, FieldType::TcpState]
}

/// The first `n` kinds do not open `chunk`.
spec fn none_opens(chunk: Seq<u8>, n: int) -> bool {
    forall|j: int| 0 <= j < n ==> !(#[trigger] kinds()[j]).prefix_bytes().is_prefix_of(chunk)
}

/// The kind of field that `chunk` holds: the first kind, in the order of `kinds`, whose prefix
/// opens the chunk.
pub open spec fn field_kind(chunk: Seq<u8>) -> Option<FieldType> {
    if FieldType::Pid.prefix_bytes().is_prefix_of(chunk) {
        Some(FieldType::Pid)
    } else if FieldType::Command.prefix_bytes().is_prefix_of(chunk) {
        Some(FieldType::Command)
    } else if FieldType::Network.prefix_bytes().is_prefix_of(chunk) {
        Some(FieldType::Network)
    } else if FieldType::TcpState.prefix_bytes().is_prefix_of(chunk) {
        Some(FieldType::TcpState)
    } else {
        None
    }
}

/// The field that `chunk` holds: its kind and the text after the prefix. A chunk that no prefix
/// opens holds no field, and neither does one whose payload is not UTF-8.
pub open spec fn field_of(chunk: Seq<u8>) -> Option<(FieldType, Seq<char>)> {
    match field_kind(chunk) {
        Some(kind) => match text(chunk.skip(kind.prefix_bytes().len() as int)) {
            Some(payload) => Some((kind, payload)),
            None => None,
        },
        None => None,
    }
}

/// Decodes one chunk of a line into a field.
pub fn parse_lsof_part(part: &[u8]) -> (r: Option<(FieldType, &str)>)
    ensures
        match r {
            Some((kind, payload)) => field_of(part@) == Some((kind, payload@)),
            None => field_of(part@) is None,
        },
{
    let order = [FieldType::Pid, FieldType::Command, FieldType::Network, FieldType::TcpState];
    assert(order@ =~= kinds());
    let mut i: usize = 0;
    while i < order.len()
        invariant
            i <= order.len(),
            order@ == kinds(),
            none_opens(part@, i as int),
        decreases order.len() - i,
    {
        let field = order[i];
        let prefix = field.prefix().as_bytes();
        if let Some(rest) = strip_prefix(part, prefix) {
            assert(field_kind(part@) == Some(field)) by {
                assert(kinds()[0] == FieldType::Pid);
                assert(kinds()[1] == FieldType::Command);
                assert(kinds()[2] == FieldType::Network);
                assert(kinds()[3] == FieldType::TcpState);
            }
            return match text_of(rest) {
                Some(payload) => Some((field, payload)),
                None => None,
            };
        }
        i += 1;
    }
    assert(field_kind(part@) is None) by {
        assert(kinds()[0] == FieldType::Pid);
        assert(kinds()[1] == FieldType::Command);
        assert(kinds()[2] == FieldType::Network);
        assert(kinds()[3] == FieldType::TcpState);
    }
    None
}

/// The fields of one line: for each kind, the text of the field of that kind, if the line has
/// one.
pub struct Fields {
    pub pid: Option<Seq<char>>,
    pub command: Option<Seq<char>>,
    pub network: Option<Seq<char>>,
    pub tcp_state: Option<Seq<char>>,
}

impl Fields {
    /// A line without fields.
    pub open spec fn empty() -> Fields {
        Fields { pid: None, command: None, network: None, tcp_state: None }
    }

    /// The text of the field of kind `kind`.
    pub open spec fn get(self, kind: FieldType) -> Option<Seq<char>> {
        match kind {
            FieldType::Pid => self.pid,
            FieldType::Command => self.command,
            FieldType::Network => self.network,
            FieldType::TcpState => self.tcp_state,
        }
    }

    /// These fields with the field of kind `kind` set to `payload`, whatever it was before.
    pub open spec fn insert(self, kind: FieldType, payload: Seq<char>) -> Fields {
        match kind {
            FieldType::Pid => Fields { pid: Some(payload), ..self },
            FieldType::Command => Fields { command: Some(payload), ..self },
            FieldType::Network => Fields { network: Some(payload), ..self },
            FieldType::TcpState => Fields { tcp_state: Some(payload), ..self },
        }
    }

    /// These fields after reading one more chunk of the line.
    pub open spec fn with_chunk(self, chunk: Seq<u8>) -> Fields {
        match field_of(chunk) {
            Some((kind, payload)) => self.insert(kind, payload),
            None => self,
        }
    }
}

/// The fields that a list of chunks holds. Where two chunks hold a field of the same kind, the
/// later one counts.
pub open spec fn collect(chunks: Seq<Seq<u8>>) -> Fields
    decreases chunks.len(),
{
    if chunks.len() == 0 {
        Fields::empty()
    } else {
        collect(chunks.drop_last()).with_chunk(chunks.last())
    }
}

/// The fields of a line: those of its chunks, which a NUL byte separates.
pub open spec fn fields_of(line: Seq<u8>) -> Fields {
    collect(split(line, 0u8))
}

/// The fields decoded from one line. The texts are borrowed from the line.
#[derive(Copy, Clone, Debug)]
pub struct FieldSet<'a> {
    pub pid: Option<&'a str>,
    pub command: Option<&'a str>,
    pub network: Option<&'a str>,
    pub tcp_state: Option<&'a str>,
}

impl<'a> View for FieldSet<'a> {
    type V = Fields;

    open spec fn view(&self) -> Fields {
        Fields {
            pid: self.pid.deep_view(),
            command: self.command.deep_view(),
            network: self.network.deep_view(),
            tcp_state: self.tcp_state.deep_view(),
        }
    }
}

impl<'a> DeepView for FieldSet<'a> {
    type V = Fields;

    open spec fn deep_view(&self) -> Fields {
        self@
    }
}

impl<'a> FieldSet<'a> {
    /// A field set without fields.
    pub fn new() -> (r: Self)
        ensures
            r@ == Fields::empty(),
    {
        FieldSet { pid: None, command: None, network: None, tcp_state: None }
    }

    /// The text of the field of kind `kind`.
    pub fn get(&self, kind: FieldType) -> (r: Option<&'a str>)
        ensures
            r.deep_view() == self@.get(kind),
    {
        match kind {
            FieldType::Pid => self.pid,
            FieldType::Command => self.command,
            FieldType::Network => self.network,
            FieldType::TcpState => self.tcp_state,
        }
    }

    /// Whether the set has a field of kind `kind`.
    pub fn contains_key(&self, kind: FieldType) -> (r: bool)
        ensures
            r == self@.get(kind) is Some,
    {
        self.get(kind).is_some()
    }

    /// Sets the field of kind `kind` to `payload`, whatever it was before.
    pub fn insert(&mut self, kind: FieldType, payload: &'a str)
        ensures
            final(self)@ == old(self)@.insert(kind, payload@),
    {
        match kind {
            FieldType::Pid => self.pid = Some(payload),
            FieldType::Command => self.command = Some(payload),
            FieldType::Network => self.network = Some(payload),
            FieldType::TcpState => self.tcp_state = Some(payload),
        }
    }
}

/// Decodes one line into its fields.
pub fn parse_lsof_line(line: &[u8]) -> (r: FieldSet<'_>)
    ensures
        r@ == fields_of(line@),
{
    let parts = split_on(line, 0u8);
    let mut set = FieldSet::new();
    let mut i: usize = 0;
    while i < parts.len()
        invariant
            i <= parts.len(),
            parts.deep_view() == split(line@, 0u8),
            set@ == collect(split(line@, 0u8).take(i as int)),
        decreases parts.len() - i,
    {
        let ghost chunks = split(line@, 0u8);
        assert(chunks.take(i + 1).drop_last() == chunks.take(i as int));
        assert(parts@[i as int].deep_view() == parts@[i as int]@);
        assert(chunks[i as int] == parts@[i as int]@);
        if let Some((kind, payload)) = parse_lsof_part(parts[i]) {
            set.insert(kind, payload);
        }
        i += 1;
    }
    assert(split(line@, 0u8).take(i as int) == split(line@, 0u8));
    set
}

/// A process and the addresses it listens on, as values.
pub struct Entry {
    pub pid: nat,
    pub command: Seq<char>,
    pub ports: Seq<Seq<char>>,
}

impl Entry {
    /// No address is listed twice.
    pub open spec fn well_formed(self) -> bool {
        self.ports.no_duplicates()
    }
}

/// A process and the addresses it listens on.
#[derive(Debug, Clone, PartialEq, Eq)]
pub struct Process {
    pub pid: usize,
    pub command: String,
    pub ports: Vec<String>,
}

impl View for Process {
    type V = Entry;

    open spec fn view(&self) -> Entry {
        Entry { pid: self.pid as nat, command: self.command@, ports: self.ports.deep_view() }
    }
}

impl DeepView for Process {
    type V = Entry;

    open spec fn deep_view(&self) -> Entry {
        self@
    }
}

/// The state of a socket that accepts connections.
pub open spec fn listen() -> Seq<char> {
    "LISTEN"@
}

/// The port that a line reports: its network address, if the line has one and gives the TCP
/// state as exactly `LISTEN`.
pub open spec fn port_of(line: Fields) -> Option<Seq<char>> {
    if line.network is Some && line.tcp_state == Some(listen()) {
        line.network
    } else {
        None
    }
}

/// The ports that a list of lines reports, one for each line that reports one, in order.
pub open spec fn observed_ports(lines: Seq<Fields>) -> Seq<Seq<char>>
    decreases lines.len(),
{
    if lines.len() == 0 {
        Seq::empty()
    } else {
        let before = observed_ports(lines.drop_last());
        match port_of(lines.last()) {
            Some(port) => before.push(port),
            None => before,
        }
    }
}

/// The items of `items` without repetition: each item stands where it stood first.
pub open spec fn first_seen(items: Seq<Seq<char>>) -> Seq<Seq<char>>
    decreases items.len(),
{
    if items.len() == 0 {
        Seq::empty()
    } else {
        let before = first_seen(items.drop_last());
        if before.contains(items.last()) {
            before
        } else {
            before.push(items.last())
        }
    }
}

/// The process that a group of lines describes. The first line is the header: it must give a
/// pid that reads as a number, and a command. The lines after it give the ports. A group
/// without such a header describes no process.
pub open spec fn reduce(group: Seq<Fields>) -> Option<Entry> {
    if group.len() == 0 {
        None
    } else {
        match (group[0].pid, group[0].command) {
            (Some(pid), Some(command)) => match unsigned_value(pid) {
                Some(pid) => Some(
                    Entry { pid, command, ports: first_seen(observed_ports(group.skip(1))) },
                ),
                None => None,
            },
            _ => None,
        }
    }
}

/// Calls `Itertools::unique` of the `itertools` crate on the items of `items` and collects
/// what it yields: the items without repetition, each where it stood first.
#[verifier::external_body]
fn unique(items: Vec<String>) -> (kept: Vec<String>)
    ensures
        kept.deep_view() == first_seen(items.deep_view()),
{
    items.into_iter().unique().collect()
}

/// Reduces the lines of one process to the process and its ports.
pub fn process_set(x: &[FieldSet]) -> (r: Option<Process>)
    ensures
        match r {
            Some(process) => reduce(x.deep_view()) == Some(process@) && process@.well_formed(),
            None => reduce(x.deep_view()) is None,
        },
{
    if x.len() == 0 {
        return None;
    }
    let ghost group = x.deep_view();
    let process = &x[0];
    assert(group[0] == process@);
    let (pid, command) = match (process.pid, process.command) {
        (Some(pid), Some(command)) => (pid, command),
        _ => {
            return None;
        },
    };
    let pid = match parse_unsigned(pid) {
        Some(pid) => pid,
        None => {
            return None;
        },
    };
    let ghost rest = group.skip(1);
    let mut candidates: Vec<String> = Vec::new();
    let mut i: usize = 1;
    assert(rest.take(0).len() == 0);
    assert(candidates.deep_view() == observed_ports(rest.take(0)));
    while i < x.len()
        invariant
            1 <= i <= x.len(),
            group == x.deep_view(),
            rest == group.skip(1),
            candidates.deep_view() == observed_ports(rest.take(i - 1)),
        decreases x.len() - i,
    {
        let set = &x[i];
        assert(rest.take(i as int).drop_last() == rest.take(i - 1));
        assert(rest.take(i as int).last() == set@);
        let ghost before = candidates.deep_view();
        if let Some(network) = set.network {
            if let Some(tcp) = set.tcp_state {
                if same_text(tcp, "LISTEN") {
                    candidates.push(network.to_owned());
                    assert(candidates.deep_view() == before.push(network@));
                }
            }
        }
        i += 1;
    }
    assert(rest.take(i - 1) == rest);
    let ports = unique(candidates);
    proof {
        reduced_entry_is_well_formed(group);
    }
    Some(Process { pid, command: command.to_owned(), ports })
}

/// The groups into which a list of lines falls. A line with a pid opens a group, and a line
/// without one joins the group before it. The first group holds the lines that come before any
/// pid, and may be empty.
pub open spec fn groups(lines: Seq<Fields>) -> Seq<Seq<Fields>>
    decreases lines.len(),
{
    if lines.len() == 0 {
        seq![Seq::empty()]
    } else {
        let before = groups(lines.drop_last());
        if lines.last().pid is Some {
            before.push(seq![lines.last()])
        } else {
            before.drop_last().push(before.last().push(lines.last()))
        }
    }
}

/// The process that a group describes, as a list of one or none.
pub open spec fn reduced(group: Seq<Fields>) -> Seq<Entry> {
    match reduce(group) {
        Some(entry) => seq![entry],
        None => Seq::empty(),
    }
}

/// The processes that a list of groups describes, in the order of the groups.
pub open spec fn entries(groups: Seq<Seq<Fields>>) -> Seq<Entry>
    decreases groups.len(),
{
    if groups.len() == 0 {
        Seq::empty()
    } else {
        entries(groups.drop_last()) + reduced(groups.last())
    }
}

/// The processes that a list of lines describes.
pub open spec fn aggregate(lines: Seq<Fields>) -> Seq<Entry> {
    entries(groups(lines))
}

/// The fields of each line of `out`. A line feed separates the lines.
pub open spec fn lines_of(out: Seq<u8>) -> Seq<Fields> {
    split(out, 0x0au8).map_values(|line: Seq<u8>| fields_of(line))
}

/// The processes that the output `out` describes, with or without ports.
pub open spec fn parsed(out: Seq<u8>) -> Seq<Entry> {
    aggregate(lines_of(out))
}

/// `groups` always yields a group.
pub proof fn groups_is_nonempty(lines: Seq<Fields>)
    ensures
        groups(lines).len() >= 1,
    decreases lines.len(),
{
    if lines.len() > 0 {
        groups_is_nonempty(lines.drop_last());
    }
}

/// Decodes the output of the enumeration tool into processes, in the order in which the
/// output lists them. What cannot be read is left out: a chunk that is no known field, and a
/// group of lines without a proper header.
pub fn parse_lsof_output(out: &[u8]) -> (processes: Vec<Process>)
    ensures
        processes.deep_view() == parsed(out@),
        forall|i: int| 0 <= i < processes.len() ==> (#[trigger] processes[i])@.well_formed(),
{
    let mut processes: Vec<Process> = Vec::new();
    let lines = split_on(out, 0x0au8);
    let ghost all = lines_of(out@);
    let mut process_attributes: Vec<FieldSet> = Vec::new();
    let mut i: usize = 0;
    assert(all.take(0).len() == 0);
    assert(groups(all.take(0)).drop_last().len() == 0);
    assert(process_attributes.deep_view() == groups(all.take(0)).last());
    while i < lines.len()
        invariant
            i <= lines.len(),
            lines.deep_view() == split(out@, 0x0au8),
            all == lines_of(out@),
            processes.deep_view() == entries(groups(all.take(i as int)).drop_last()),
            process_attributes.deep_view() == groups(all.take(i as int)).last(),
        decreases lines.len() - i,
    {
        let attribute_set = parse_lsof_line(lines[i]);
        let ghost seen = all.take(i as int);
        proof {
            assert(lines@[i as int].deep_view() == lines@[i as int]@);
            assert(all[i as int] == fields_of(lines@[i as int]@));
            assert(all.take(i + 1).drop_last() == seen);
            assert(all.take(i + 1).last() == attribute_set@);
            groups_is_nonempty(seen);
        }
        if attribute_set.contains_key(FieldType::Pid) {
            let ghost before = processes.deep_view();
            match process_set(process_attributes.as_slice()) {
                Some(process) => {
                    processes.push(process);
                    assert(processes.deep_view() == before.push(process@));
                    assert(before.push(process@) == before + reduced(groups(seen).last()));
                },
                None => {
                    assert(before == before + reduced(groups(seen).last()));
                },
            }
            process_attributes.clear();
            assert(groups(all.take(i + 1)).drop_last() == groups(seen));
        } else {
            assert(groups(all.take(i + 1)).drop_last() == groups(seen).drop_last());
        }
        let ghost held = process_attributes.deep_view();
        process_attributes.push(attribute_set);
        assert(process_attributes.deep_view() == held.push(attribute_set@));
        i += 1;
    }
    proof {
        assert(all.take(i as int) == all);
        groups_is_nonempty(all);
    }
    let ghost before = processes.deep_view();
    match process_set(process_attributes.as_slice()) {
        Some(process) => {
            processes.push(process);
            assert(processes.deep_view() == before.push(process@));
            assert(before.push(process@) == before + reduced(groups(all).last()));
        },
        None => {
            assert(before == before + reduced(groups(all).last()));
        },
    }
    proof {
        parsed_entries_are_well_formed(out@);
        assert forall|i: int| 0 <= i < processes.len() implies (#[trigger] processes[i])@.well_formed() by {
            assert(parsed(out@)[i] == processes[i]@);
            assert(parsed(out@)[i].well_formed());
        }
    }
    processes
}

/// The test whether an entry lists a port.
pub open spec fn has_port() -> spec_fn(Entry) -> bool {
    |entry: Entry| entry.ports.len() > 0
}

/// The inventory that the output `out` describes: its processes that listen on a port.
pub open spec fn decoded(out: Seq<u8>) -> Seq<Entry> {
    parsed(out).filter(has_port())
}

/// The processes of `processes` that listen on at least one port, in the same order.
pub fn listening(processes: Vec<Process>) -> (snapshot: Vec<Process>)
    ensures
        snapshot.deep_view() == processes.deep_view().filter(has_port()),
{
    let ghost listed = processes.deep_view();
    let mut snapshot: Vec<Process> = Vec::new();
    assert(listed.take(0).filter(has_port()) == Seq::<Entry>::empty()) by {
        reveal(Seq::filter);
    }
    for process in it: processes.into_iter()
        invariant
            it.seq().len() == listed.len(),
            forall|j: int| 0 <= j < listed.len() ==> (#[trigger] it.seq()[j])@ == listed[j],
            snapshot.deep_view() == listed.take(it.index() as int).filter(has_port()),
    {
        let ghost n = it.index() as int;
        let ghost before = snapshot.deep_view();
        proof {
            assert(listed.take(n + 1) == listed.take(n).push(process@));
            listed.take(n).lemma_filter_push(process@, has_port());
        }
        if !process.ports.is_empty() {
            snapshot.push(process);
            assert(snapshot.deep_view() == before.push(process@));
        }
    }
    assert(listed.take(listed.len() as int) == listed);
    snapshot
}

/// Decodes the output of the enumeration tool into the inventory: the processes that listen
/// on at least one port, in the order in which the output lists them.
pub fn decode(out: &[u8]) -> (snapshot: Vec<Process>)
    ensures
        snapshot.deep_view() == decoded(out@),
        forall|i: int|
            0 <= i < snapshot.len() ==> (#[trigger] snapshot[i])@.ports.len() > 0
                && snapshot[i]@.well_formed(),
{
    let snapshot = listening(parse_lsof_output(out));
    proof {
        decoded_entries_listen(out@);
        assert forall|i: int| 0 <= i < snapshot.len() implies (#[trigger] snapshot[i])@.ports.len()
            > 0 && snapshot[i]@.well_formed() by {
            assert(decoded(out@)[i] == snapshot[i]@);
            assert(decoded(out@)[i].well_formed());
        }
    }
    snapshot
}

} // verus!
