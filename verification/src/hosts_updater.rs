//! The reconciliation logic: what one polling cycle does. The managed
//! section's lines are read back as `<address>\t<name>` entries, compared
//! as a set of rows against the freshly observed container set, and the
//! section is replaced — wholesale, entries rendered in observed order —
//! exactly when the two sets differ. An address change for a name shows up
//! as one `Del` of the old row plus one `Add` of the new one; a failed
//! fetch changes nothing. One operation is reported per changed row, for
//! the caller's per-operation notification command.

use vstd::prelude::*;

use crate::docker::{ContainerHostEntry, ContainerLister, EntryV, entries_view};
use crate::hosts::{Hosts, SectionV, doc_wf, section_lines, upsert, lines_view};
use crate::text::{is_space, trimmed, has_char, first_at, trim, find_char, str_eq};

verus! {

/// The identifier of the section this synchronizer owns.
pub open spec fn section_name() -> Seq<char> {
    "DOCKER_CONTAINERS"@
}

/// The identifier of the section this synchronizer owns.
pub fn container_section() -> (s: &'static str)
    ensures
        s@ == section_name(),
{
    "DOCKER_CONTAINERS"
}

/// What kind of change one operation records.
#[derive(Clone, Copy, PartialEq, Eq, Structural, Debug)]
pub enum HostsOperationAction {
    Add,
    Del,
}

impl HostsOperationAction {
    /// The word the notification command receives for this operation.
    pub fn as_str(&self) -> (s: &'static str)
        ensures
            *self matches HostsOperationAction::Add ==> s@ == "add"@,
            *self matches HostsOperationAction::Del ==> s@ == "del"@,
    {
        match self {
            HostsOperationAction::Add => "add",
            HostsOperationAction::Del => "del",
        }
    }
}

/// One detected change: the row that appeared or vanished.
pub struct HostsOperation {
    pub action: HostsOperationAction,
    pub name: String,
    pub addr: String,
}

/// Mathematical model of one operation.
#[verifier::ext_equal]
pub struct OperationV {
    pub action: HostsOperationAction,
    pub name: Seq<char>,
    pub addr: Seq<char>,
}

impl View for HostsOperation {
    type V = OperationV;

    open spec fn view(&self) -> OperationV {
        OperationV { action: self.action, name: self.name@, addr: self.addr@ }
    }
}

pub open spec fn ops_view(v: Seq<HostsOperation>) -> Seq<OperationV> {
    v.map_values(|o: HostsOperation| o@)
}

pub open spec fn add_op(e: EntryV) -> OperationV {
    OperationV { action: HostsOperationAction::Add, name: e.name, addr: e.addr }
}

pub open spec fn del_op(e: EntryV) -> OperationV {
    OperationV { action: HostsOperationAction::Del, name: e.name, addr: e.addr }
}

/// What one managed line means: trimmed, split at its first tab into
/// address and name; a line with no tab carries no entry.
pub open spec fn parse_entry(raw: Seq<char>) -> Option<EntryV> {
    let t = trimmed(raw);
    if has_char(t, '\t') {
        Some(
            EntryV {
                addr: t.subrange(0, first_at(t, '\t')),
                name: t.subrange(first_at(t, '\t') + 1, t.len() as int),
            },
        )
    } else {
        None
    }
}

/// The entries of a managed section's lines, malformed lines skipped.
pub open spec fn parse_entries(lines: Seq<Seq<char>>) -> Seq<EntryV>
    decreases lines.len(),
{
    if lines.len() == 0 {
        Seq::empty()
    } else {
        let rest = parse_entries(lines.drop_last());
        match parse_entry(lines.last()) {
            Some(e) => rest.push(e),
            None => rest,
        }
    }
}

/// The line written for one entry: `<address>\t<name>`.
pub open spec fn render_entry(e: EntryV) -> Seq<char> {
    e.addr + seq!['\t'] + e.name
}

/// The managed section's lines for a container set, observed order kept.
pub open spec fn render_entries(es: Seq<EntryV>) -> Seq<Seq<char>>
    decreases es.len(),
{
    if es.len() == 0 {
        Seq::empty()
    } else {
        render_entries(es.drop_last()).push(render_entry(es.last()))
    }
}

/// The `Add` operations: one per desired row that is not current, in
/// desired order.
pub open spec fn add_ops(current: Seq<EntryV>, desired: Seq<EntryV>) -> Seq<OperationV>
    decreases desired.len(),
{
    if desired.len() == 0 {
        Seq::empty()
    } else {
        let rest = add_ops(current, desired.drop_last());
        if !current.contains(desired.last()) {
            rest.push(add_op(desired.last()))
        } else {
            rest
        }
    }
}

/// The `Del` operations: one per current row no longer desired, in
/// current order.
pub open spec fn del_ops(current: Seq<EntryV>, desired: Seq<EntryV>) -> Seq<OperationV>
    decreases current.len(),
{
    if current.len() == 0 {
        Seq::empty()
    } else {
        let rest = del_ops(current.drop_last(), desired);
        if !desired.contains(current.last()) {
            rest.push(del_op(current.last()))
        } else {
            rest
        }
    }
}

/// The full set difference between the two row sets, additions first.
pub open spec fn diff_ops(current: Seq<EntryV>, desired: Seq<EntryV>) -> Seq<OperationV> {
    add_ops(current, desired) + del_ops(current, desired)
}

/// The entries a cycle finds in the managed section of `doc`.
pub open spec fn current_entries(doc: Seq<SectionV>) -> Seq<EntryV> {
    match section_lines(doc, Some(section_name())) {
        Some(lines) => parse_entries(lines),
        None => Seq::empty(),
    }
}

/// What one poll of the container source yielded: a snapshot of the
/// running containers' host entries, or a failure to observe them.
pub enum FetchOutcome {
    Entries(Vec<ContainerHostEntry>),
    Error,
}

/// The synchronizer's configuration: how often to poll, which file to
/// keep in sync, and where to reach the container runtime.
pub struct HostsUpdater {
    pub interval_secs: u64,
    pub hosts_file: String,
    pub lister: ContainerLister,
}

impl HostsUpdater {
    /// A synchronizer polling every `interval_secs` seconds, keeping
    /// `hosts_file` in sync from the runtime behind `docker_socket`.
    pub fn new(interval_secs: u64, hosts_file: String, docker_socket: &str) -> (u: HostsUpdater)
        ensures
            u.interval_secs == interval_secs,
            u.hosts_file@ == hosts_file@,
            u.lister@ == docker_socket@,
    {
        HostsUpdater {
            interval_secs,
            hosts_file,
            lister: ContainerLister::new(docker_socket),
        }
    }
}

/// Whether the row `(name, addr)` is among `v`'s entries.
fn contains_entry(v: &Vec<ContainerHostEntry>, name: &str, addr: &str) -> (r: bool)
    ensures
        r == entries_view(v@).contains((EntryV { name: name@, addr: addr@ })),
{
    let ghost e = EntryV { name: name@, addr: addr@ };
    let mut i: usize = 0;
    while i < v.len()
        invariant
            0 <= i <= v@.len(),
            entries_view(v@).len() == v@.len(),
            e == (EntryV { name: name@, addr: addr@ }),
            forall|j: int| 0 <= j < i ==> entries_view(v@)[j] != e,
            forall|j: int| 0 <= j < v@.len() ==> entries_view(v@)[j] == v@[j]@,
        decreases v@.len() - i,
    {
        if str_eq(v[i].name.as_str(), name) && str_eq(v[i].addr.as_str(), addr) {
            proof {
                assert(entries_view(v@)[i as int] =~~= e);
                assert(entries_view(v@).contains(e));
            }
            return true;
        }
        proof {
            assert(entries_view(v@)[i as int] != e);
        }
        i += 1;
    }
    false
}

/// Read a managed section's lines back as entries.
pub fn parse_managed_lines(lines: &Vec<String>) -> (out: Vec<ContainerHostEntry>)
    ensures
        entries_view(out@) == parse_entries(lines_view(lines@)),
{
    let mut out: Vec<ContainerHostEntry> = Vec::new();
    proof {
        assert(lines_view(lines@).subrange(0, 0) =~~= Seq::<Seq<char>>::empty());
        assert(entries_view(out@) =~~= parse_entries(lines_view(lines@).subrange(0, 0)));
    }
    let mut idx: usize = 0;
    while idx < lines.len()
        invariant
            0 <= idx <= lines@.len(),
            lines_view(lines@).len() == lines@.len(),
            entries_view(out@) == parse_entries(lines_view(lines@).subrange(0, idx as int)),
            forall|j: int| 0 <= j < lines@.len() ==> lines_view(lines@)[j] == lines@[j]@,
        decreases lines@.len() - idx,
    {
        let ghost prefix = lines_view(lines@).subrange(0, idx as int);
        let ghost base = entries_view(out@);
        let raw = &lines[idx];
        let t = trim(raw.as_str());
        match find_char(t.as_str(), '\t') {
            Some(p) => {
                let tlen = t.as_str().unicode_len();
                let addr = t.as_str().substring_char(0, p).to_owned();
                let name = t.as_str().substring_char(p + 1, tlen).to_owned();
                out.push(ContainerHostEntry { name, addr });
                proof {
                    assert(has_char(t@, '\t'));
                    assert(parse_entry(raw@) == Some(
                        (EntryV {
                            addr: t@.subrange(0, p as int),
                            name: t@.subrange(p + 1 as int, t@.len() as int),
                        }),
                    ));
                    assert(entries_view(out@) =~~= base.push(parse_entry(raw@).unwrap()));
                }
            },
            None => {
                proof {
                    assert(parse_entry(raw@) is None);
                }
            },
        }
        idx += 1;
        proof {
            assert(lines_view(lines@).subrange(0, idx as int).drop_last() =~~= prefix);
            assert(lines_view(lines@).subrange(0, idx as int).last() == raw@);
            assert(entries_view(out@) =~~= parse_entries(
                lines_view(lines@).subrange(0, idx as int),
            ));
        }
    }
    proof {
        assert(lines_view(lines@).subrange(0, lines@.len() as int) =~~= lines_view(lines@));
    }
    out
}

/// Render a container set as managed-section lines, one `<address>\t<name>`
/// per entry, in the set's order.
pub fn render_entry_lines(entries: &Vec<ContainerHostEntry>) -> (out: Vec<String>)
    ensures
        lines_view(out@) == render_entries(entries_view(entries@)),
{
    let mut out: Vec<String> = Vec::new();
    proof {
        assert(entries_view(entries@).subrange(0, 0) =~~= Seq::<EntryV>::empty());
        assert(lines_view(out@) =~~= render_entries(entries_view(entries@).subrange(0, 0)));
    }
    let mut i: usize = 0;
    while i < entries.len()
        invariant
            0 <= i <= entries@.len(),
            entries_view(entries@).len() == entries@.len(),
            lines_view(out@) == render_entries(entries_view(entries@).subrange(0, i as int)),
            forall|j: int| 0 <= j < entries@.len() ==> entries_view(entries@)[j] == entries@[j]@,
        decreases entries@.len() - i,
    {
        let ghost prefix = entries_view(entries@).subrange(0, i as int);
        let ghost base = lines_view(out@);
        let e = &entries[i];
        let mut l = e.addr.clone();
        l.append("\t");
        l.append(e.name.as_str());
        proof {
            reveal_strlit("\t");
            assert("\t"@ =~= seq!['\t']);
            assert(l@ =~= render_entry(e@));
        }
        out.push(l);
        i += 1;
        proof {
            assert(entries_view(entries@).subrange(0, i as int).drop_last() =~~= prefix);
            assert(entries_view(entries@).subrange(0, i as int).last() == e@);
            assert(lines_view(out@) =~~= render_entries(
                entries_view(entries@).subrange(0, i as int),
            ));
        }
    }
    proof {
        assert(entries_view(entries@).subrange(0, entries@.len() as int) =~~= entries_view(
            entries@,
        ));
    }
    out
}

/// The operations that reconcile `current` toward `desired`: an `Add` per
/// desired row not yet current, then a `Del` per current row no longer
/// desired.
pub fn compute_operations(
    current: &Vec<ContainerHostEntry>,
    desired: &Vec<ContainerHostEntry>,
) -> (ops: Vec<HostsOperation>)
    ensures
        ops_view(ops@) == diff_ops(entries_view(current@), entries_view(desired@)),
{
    let ghost cur = entries_view(current@);
    let ghost des = entries_view(desired@);
    let mut ops: Vec<HostsOperation> = Vec::new();
    proof {
        assert(des.subrange(0, 0) =~~= Seq::<EntryV>::empty());
        assert(ops_view(ops@) =~~= add_ops(cur, des.subrange(0, 0)));
    }
    let mut i: usize = 0;
    while i < desired.len()
        invariant
            0 <= i <= desired@.len(),
            cur == entries_view(current@),
            des == entries_view(desired@),
            des.len() == desired@.len(),
            ops_view(ops@) == add_ops(cur, des.subrange(0, i as int)),
            forall|j: int| 0 <= j < desired@.len() ==> des[j] == desired@[j]@,
        decreases desired@.len() - i,
    {
        let ghost prefix = des.subrange(0, i as int);
        let ghost base = ops_view(ops@);
        let e = &desired[i];
        if !contains_entry(current, e.name.as_str(), e.addr.as_str()) {
            proof {
                assert(e@ =~~= (EntryV { name: e.name@, addr: e.addr@ }));
            }
            ops.push(
                HostsOperation {
                    action: HostsOperationAction::Add,
                    name: e.name.clone(),
                    addr: e.addr.clone(),
                },
            );
            proof {
                assert(ops_view(ops@) =~~= base.push(add_op(e@)));
            }
        } else {
            proof {
                assert(e@ =~~= (EntryV { name: e.name@, addr: e.addr@ }));
            }
        }
        i += 1;
        proof {
            assert(des.subrange(0, i as int).drop_last() =~~= prefix);
            assert(des.subrange(0, i as int).last() == e@);
            assert(ops_view(ops@) =~~= add_ops(cur, des.subrange(0, i as int)));
        }
    }
    proof {
        assert(des.subrange(0, des.len() as int) =~~= des);
        assert(cur.subrange(0, 0) =~~= Seq::<EntryV>::empty());
        assert(ops_view(ops@) =~~= add_ops(cur, des) + del_ops(cur.subrange(0, 0), des));
    }
    let mut k: usize = 0;
    while k < current.len()
        invariant
            0 <= k <= current@.len(),
            cur == entries_view(current@),
            des == entries_view(desired@),
            cur.len() == current@.len(),
            ops_view(ops@) == add_ops(cur, des) + del_ops(cur.subrange(0, k as int), des),
            forall|j: int| 0 <= j < current@.len() ==> cur[j] == current@[j]@,
        decreases current@.len() - k,
    {
        let ghost prefix = cur.subrange(0, k as int);
        let ghost base = ops_view(ops@);
        let e = &current[k];
        if !contains_entry(desired, e.name.as_str(), e.addr.as_str()) {
            proof {
                assert(e@ =~~= (EntryV { name: e.name@, addr: e.addr@ }));
            }
            ops.push(
                HostsOperation {
                    action: HostsOperationAction::Del,
                    name: e.name.clone(),
                    addr: e.addr.clone(),
                },
            );
            proof {
                assert(ops_view(ops@) =~~= base.push(del_op(e@)));
            }
        } else {
            proof {
                assert(e@ =~~= (EntryV { name: e.name@, addr: e.addr@ }));
            }
        }
        k += 1;
        proof {
            assert(cur.subrange(0, k as int).drop_last() =~~= prefix);
            assert(cur.subrange(0, k as int).last() == e@);
            assert(ops_view(ops@) =~~= add_ops(cur, des) + del_ops(
                cur.subrange(0, k as int),
                des,
            ));
        }
    }
    proof {
        assert(cur.subrange(0, cur.len() as int) =~~= cur);
        assert(ops_view(ops@) =~~= diff_ops(cur, des));
    }
    ops
}

/// One reconciliation cycle's decision, given what the poll observed. On
/// a failed fetch nothing changes. Otherwise the managed section's rows
/// are diffed against the observed set and the section is replaced with
/// the freshly rendered set exactly when some row changed; every other
/// section keeps its place and lines.
pub fn reconcile(hosts: &mut Hosts, outcome: &FetchOutcome) -> (ops: Vec<HostsOperation>)
    requires
        old(hosts).wf(),
    ensures
        final(hosts).wf(),
        match outcome {
            FetchOutcome::Error => final(hosts)@ == old(hosts)@ && ops@.len() == 0,
            FetchOutcome::Entries(es) => {
                let current = current_entries(old(hosts)@);
                let desired = entries_view(es@);
                &&& ops_view(ops@) == diff_ops(current, desired)
                &&& (ops@.len() == 0 ==> final(hosts)@ == old(hosts)@)
                &&& (ops@.len() > 0 ==> final(hosts)@ == upsert(
                    old(hosts)@,
                    Some(section_name()),
                    render_entries(desired),
                ))
            },
        },
{
    match outcome {
        FetchOutcome::Error => Vec::new(),
        FetchOutcome::Entries(es) => {
            let ghost doc0 = hosts@;
            let current: Vec<ContainerHostEntry> = match hosts.get_section(
                Some(container_section()),
            ) {
                Some(lines) => parse_managed_lines(lines),
                None => Vec::new(),
            };
            proof {
                crate::hosts::lemma_find_named(doc0, Some(section_name()));
                assert(entries_view(current@) =~~= current_entries(doc0));
            }
            let ops = compute_operations(&current, es);
            if ops.len() > 0 {
                let rendered = render_entry_lines(es);
                let sec = container_section().to_owned();
                hosts.update_section(Some(sec), rendered);
            }
            ops
        },
    }
}


/// An entry that survives being written and read back: the address is a
/// non-empty token without whitespace, and the name is non-empty with
/// non-whitespace characters at both ends.
pub open spec fn entry_round_trips(e: EntryV) -> bool {
    &&& e.addr.len() > 0
    &&& (forall|i: int| 0 <= i < e.addr.len() ==> !is_space(#[trigger] e.addr[i]))
    &&& e.name.len() > 0
    &&& !is_space(e.name[0])
    &&& !is_space(e.name[e.name.len() - 1])
}

/// Law: reading the rendered lines back yields the same entries, for
/// entries that survive the line format.
pub proof fn lemma_entries_roundtrip(es: Seq<EntryV>)
    requires
        forall|i: int| 0 <= i < es.len() ==> entry_round_trips(#[trigger] es[i]),
    ensures
        parse_entries(render_entries(es)) == es,
    decreases es.len(),
{
    if es.len() == 0 {
        assert(parse_entries(render_entries(es)) =~~= es);
    } else {
        let p = es.drop_last();
        assert(forall|i: int| 0 <= i < p.len() ==> p[i] == es[i]);
        lemma_entries_roundtrip(p);
        let e = es.last();
        assert(entry_round_trips(e));
        let line = render_entry(e);
        assert(line.len() == e.addr.len() + 1 + e.name.len());
        assert(line[0] == e.addr[0]);
        assert(line[line.len() - 1] == e.name[e.name.len() - 1]);
        assert(crate::text::is_trim_stable(line));
        crate::text::lemma_trim_stable(line);
        assert(line[e.addr.len() as int] == '\t');
        assert(has_char(line, '\t'));
        crate::text::lemma_first_at(line, '\t');
        let pos = first_at(line, '\t');
        if pos < e.addr.len() {
            assert(line[pos] == e.addr[pos]);
            assert(!is_space(e.addr[pos]));
            assert(false);
        }
        if pos > e.addr.len() {
            assert(line[e.addr.len() as int] != '\t');
            assert(false);
        }
        assert(pos == e.addr.len());
        assert(line.subrange(0, pos) =~= e.addr);
        assert(line.subrange(pos + 1, line.len() as int) =~= e.name);
        assert(parse_entry(line) matches Some(x) && x =~~= e);
        assert(render_entries(es).drop_last() =~~= render_entries(p));
        assert(render_entries(es).last() == line);
        assert(parse_entries(render_entries(es)) =~~= es);
    }
}

proof fn lemma_add_ops_elems(current: Seq<EntryV>, desired: Seq<EntryV>)
    ensures
        forall|e: EntryV| #[trigger] add_ops(current, desired).contains(add_op(e)) <==> (
        desired.contains(e) && !current.contains(e)),
        forall|k: int| 0 <= k < add_ops(current, desired).len() ==> (#[trigger] add_ops(
            current,
            desired,
        )[k]).action == HostsOperationAction::Add,
        add_ops(current, desired).len() == 0 <==> (forall|i: int| 0 <= i < desired.len()
            ==> current.contains(#[trigger] desired[i])),
    decreases desired.len(),
{
    if desired.len() == 0 {
    } else {
        let d0 = desired.drop_last();
        lemma_add_ops_elems(current, d0);
        let rest = add_ops(current, d0);
        let last = desired.last();
        let ops = add_ops(current, desired);
        assert(forall|i: int| 0 <= i < d0.len() ==> d0[i] == desired[i]);
        assert forall|e: EntryV| #[trigger] desired.contains(e) implies (d0.contains(e) || e
            == last) by {
            let i = choose|i: int| 0 <= i < desired.len() && desired[i] == e;
            if i < d0.len() {
                assert(d0[i] == e);
            }
        }
        assert forall|e: EntryV| d0.contains(e) implies desired.contains(e) by {
            let i = choose|i: int| 0 <= i < d0.len() && d0[i] == e;
            assert(desired[i] == e);
        }
        assert(desired[desired.len() - 1] == last);
        assert(desired.contains(last));
        if !current.contains(last) {
            assert(ops == rest.push(add_op(last)));
            assert(forall|j: int| 0 <= j < rest.len() ==> ops[j] == rest[j]);
            assert(ops[rest.len() as int] == add_op(last));
            assert forall|e: EntryV| #[trigger] ops.contains(add_op(e)) implies (desired.contains(e)
                && !current.contains(e)) by {
                let j = choose|j: int| 0 <= j < ops.len() && ops[j] == add_op(e);
                if j < rest.len() {
                    assert(rest[j] == add_op(e));
                    assert(rest.contains(add_op(e)));
                } else {
                    assert(add_op(e) == add_op(last));
                    assert(e =~~= last);
                }
            }
            assert forall|e: EntryV| desired.contains(e) && !current.contains(e) implies #[trigger]
                ops.contains(add_op(e)) by {
                if e == last {
                    assert(ops[rest.len() as int] == add_op(e));
                    assert(ops.contains(add_op(e)));
                } else {
                    assert(d0.contains(e));
                    assert(rest.contains(add_op(e)));
                    let j = choose|j: int| 0 <= j < rest.len() && rest[j] == add_op(e);
                    assert(ops[j] == add_op(e));
                    assert(ops.contains(add_op(e)));
                }
            }
            assert(ops.len() > 0);
        } else {
            assert(ops == rest);
            assert forall|e: EntryV| #[trigger] ops.contains(add_op(e)) implies (desired.contains(e)
                && !current.contains(e)) by {
                assert(d0.contains(e) && !current.contains(e));
            }
            assert forall|e: EntryV| desired.contains(e) && !current.contains(e) implies #[trigger]
                ops.contains(add_op(e)) by {
                if e == last {
                    assert(false);
                } else {
                    assert(d0.contains(e));
                }
            }
            if ops.len() == 0 {
                assert forall|i: int| 0 <= i < desired.len() implies current.contains(
                    #[trigger] desired[i],
                ) by {
                    if i < d0.len() {
                        assert(d0[i] == desired[i]);
                    } else {
                        assert(desired[i] == last);
                    }
                }
            }
        }
    }
}

proof fn lemma_del_ops_elems(current: Seq<EntryV>, desired: Seq<EntryV>)
    ensures
        forall|e: EntryV| #[trigger] del_ops(current, desired).contains(del_op(e)) <==> (
        current.contains(e) && !desired.contains(e)),
        forall|k: int| 0 <= k < del_ops(current, desired).len() ==> (#[trigger] del_ops(
            current,
            desired,
        )[k]).action == HostsOperationAction::Del,
        del_ops(current, desired).len() == 0 <==> (forall|i: int| 0 <= i < current.len()
            ==> desired.contains(#[trigger] current[i])),
    decreases current.len(),
{
    if current.len() == 0 {
    } else {
        let c0 = current.drop_last();
        lemma_del_ops_elems(c0, desired);
        let rest = del_ops(c0, desired);
        let last = current.last();
        let ops = del_ops(current, desired);
        assert(forall|i: int| 0 <= i < c0.len() ==> c0[i] == current[i]);
        assert forall|e: EntryV| #[trigger] current.contains(e) implies (c0.contains(e) || e
            == last) by {
            let i = choose|i: int| 0 <= i < current.len() && current[i] == e;
            if i < c0.len() {
                assert(c0[i] == e);
            }
        }
        assert forall|e: EntryV| c0.contains(e) implies current.contains(e) by {
            let i = choose|i: int| 0 <= i < c0.len() && c0[i] == e;
            assert(current[i] == e);
        }
        assert(current[current.len() - 1] == last);
        assert(current.contains(last));
        if !desired.contains(last) {
            assert(ops == rest.push(del_op(last)));
            assert(forall|j: int| 0 <= j < rest.len() ==> ops[j] == rest[j]);
            assert(ops[rest.len() as int] == del_op(last));
            assert forall|e: EntryV| #[trigger] ops.contains(del_op(e)) implies (current.contains(e)
                && !desired.contains(e)) by {
                let j = choose|j: int| 0 <= j < ops.len() && ops[j] == del_op(e);
                if j < rest.len() {
                    assert(rest[j] == del_op(e));
                    assert(rest.contains(del_op(e)));
                } else {
                    assert(del_op(e) == del_op(last));
                    assert(e =~~= last);
                }
            }
            assert forall|e: EntryV| current.contains(e) && !desired.contains(e) implies #[trigger]
                ops.contains(del_op(e)) by {
                if e == last {
                    assert(ops[rest.len() as int] == del_op(e));
                    assert(ops.contains(del_op(e)));
                } else {
                    assert(c0.contains(e));
                    assert(rest.contains(del_op(e)));
                    let j = choose|j: int| 0 <= j < rest.len() && rest[j] == del_op(e);
                    assert(ops[j] == del_op(e));
                    assert(ops.contains(del_op(e)));
                }
            }
            assert(ops.len() > 0);
        } else {
            assert(ops == rest);
            assert forall|e: EntryV| #[trigger] ops.contains(del_op(e)) implies (current.contains(e)
                && !desired.contains(e)) by {
                assert(c0.contains(e) && !desired.contains(e));
            }
            assert forall|e: EntryV| current.contains(e) && !desired.contains(e) implies #[trigger]
                ops.contains(del_op(e)) by {
                if e == last {
                    assert(false);
                } else {
                    assert(c0.contains(e));
                }
            }
            if ops.len() == 0 {
                assert forall|i: int| 0 <= i < current.len() implies desired.contains(
                    #[trigger] current[i],
                ) by {
                    if i < c0.len() {
                        assert(c0[i] == current[i]);
                    } else {
                        assert(current[i] == last);
                    }
                }
            }
        }
    }
}

/// Law (set-diff correctness): whatever order either side lists its rows
/// in, the computed operations are exactly the membership difference: an
/// `Add` for a row if and only if it is desired but not current, a `Del`
/// for a row if and only if it is current but not desired, and no
/// operation at all if and only if the two sets agree.
pub proof fn lemma_diff_ops_correct(current: Seq<EntryV>, desired: Seq<EntryV>)
    ensures
        forall|e: EntryV| #[trigger] diff_ops(current, desired).contains(add_op(e)) <==> (
        desired.contains(e) && !current.contains(e)),
        forall|e: EntryV| #[trigger] diff_ops(current, desired).contains(del_op(e)) <==> (
        current.contains(e) && !desired.contains(e)),
        diff_ops(current, desired).len() == 0 <==> ((forall|i: int| 0 <= i < desired.len()
            ==> current.contains(#[trigger] desired[i])) && (forall|i: int| 0 <= i < current.len()
            ==> desired.contains(#[trigger] current[i]))),
{
    lemma_add_ops_elems(current, desired);
    lemma_del_ops_elems(current, desired);
    let a = add_ops(current, desired);
    let d = del_ops(current, desired);
    let ops = diff_ops(current, desired);
    assert(forall|j: int| 0 <= j < a.len() ==> ops[j] == a[j]);
    assert(forall|j: int| a.len() <= j < ops.len() ==> ops[j] == d[j - a.len()]);
    assert forall|e: EntryV| #[trigger] ops.contains(add_op(e)) implies a.contains(add_op(e)) by {
        let j = choose|j: int| 0 <= j < ops.len() && ops[j] == add_op(e);
        if j < a.len() {
            assert(a[j] == add_op(e));
        } else {
            assert(d[j - a.len()].action == HostsOperationAction::Del);
            assert(false);
        }
    }
    assert forall|e: EntryV| a.contains(add_op(e)) implies #[trigger] ops.contains(add_op(e)) by {
        let j = choose|j: int| 0 <= j < a.len() && a[j] == add_op(e);
        assert(ops[j] == add_op(e));
    }
    assert forall|e: EntryV| #[trigger] ops.contains(del_op(e)) implies d.contains(del_op(e)) by {
        let j = choose|j: int| 0 <= j < ops.len() && ops[j] == del_op(e);
        if j < a.len() {
            assert(a[j].action == HostsOperationAction::Add);
            assert(false);
        } else {
            assert(d[j - a.len()] == del_op(e));
        }
    }
    assert forall|e: EntryV| d.contains(del_op(e)) implies #[trigger] ops.contains(del_op(e)) by {
        let j = choose|j: int| 0 <= j < d.len() && d[j] == del_op(e);
        assert(ops[a.len() + j] == del_op(e));
    }
}

/// Law (preamble preservation): a reconciliation cycle never touches the
/// preamble. Whether or not the managed section is rewritten, the
/// preamble keeps its lines, every other named section keeps its lines,
/// and the serialized file still begins with exactly the preamble's lines.
pub proof fn lemma_preamble_preserved(doc: Seq<SectionV>, desired: Seq<EntryV>)
    requires
        doc_wf(doc),
    ensures
        ({
            let ops = diff_ops(current_entries(doc), desired);
            let doc1 = if ops.len() == 0 {
                doc
            } else {
                upsert(doc, Some(section_name()), render_entries(desired))
            };
            &&& doc_wf(doc1)
            &&& doc1[0] == doc[0]
            &&& (forall|m: Option<Seq<char>>| m != Some(section_name())
                ==> #[trigger] crate::hosts::section_lines(doc1, m) == crate::hosts::section_lines(
                doc,
                m,
            ))
            &&& crate::hosts::render_doc(doc1).len() >= doc[0].lines.len()
            &&& crate::hosts::render_doc(doc1).subrange(0, doc[0].lines.len() as int)
                == doc[0].lines
        }),
{
    let ops = diff_ops(current_entries(doc), desired);
    if ops.len() == 0 {
        crate::hosts::lemma_render_preamble(doc);
    } else {
        let doc1 = upsert(doc, Some(section_name()), render_entries(desired));
        crate::hosts::lemma_upsert_sections(doc, Some(section_name()), render_entries(desired));
        crate::hosts::lemma_render_preamble(doc1);
        assert(doc1[0] == doc[0]);
    }
}

/// Law (idempotence): a second cycle that observes the same container set
/// as the cycle before it computes no operations, so it writes nothing
/// and notifies nobody — for container sets whose entries survive the
/// line format.
pub proof fn lemma_second_cycle_quiet(doc: Seq<SectionV>, desired: Seq<EntryV>)
    requires
        doc_wf(doc),
        forall|i: int| 0 <= i < desired.len() ==> entry_round_trips(#[trigger] desired[i]),
    ensures
        ({
            let ops = diff_ops(current_entries(doc), desired);
            let doc1 = if ops.len() == 0 {
                doc
            } else {
                upsert(doc, Some(section_name()), render_entries(desired))
            };
            diff_ops(current_entries(doc1), desired).len() == 0
        }),
{
    let cur = current_entries(doc);
    let ops = diff_ops(cur, desired);
    assert forall|i: int| 0 <= i < desired.len() implies desired.contains(#[trigger] desired[i]) by {
        assert(0 <= i < desired.len() && desired[i] == desired[i]);
    }
    if ops.len() == 0 {
    } else {
        let doc1 = upsert(doc, Some(section_name()), render_entries(desired));
        crate::hosts::lemma_upsert_sections(doc, Some(section_name()), render_entries(desired));
        assert(crate::hosts::section_lines(doc1, Some(section_name())) == Some(
            render_entries(desired),
        ));
        lemma_entries_roundtrip(desired);
        assert(current_entries(doc1) == desired);
        lemma_diff_ops_correct(desired, desired);
    }
}

/// Law (empty observation): a cycle that observes zero containers deletes
/// every current row — one `Del` per current entry, in order, and nothing
/// else — and the freshly rendered section is empty; there is a change to
/// write exactly when the section held at least one entry.
pub proof fn lemma_empty_fetch_clears(current: Seq<EntryV>)
    ensures
        diff_ops(current, Seq::<EntryV>::empty()) == current.map_values(|e: EntryV| del_op(e)),
        diff_ops(current, Seq::<EntryV>::empty()).len() == current.len(),
        render_entries(Seq::<EntryV>::empty()) == Seq::<Seq<char>>::empty(),
    decreases current.len(),
{
    let des = Seq::<EntryV>::empty();
    assert(add_ops(current, des) =~~= Seq::<OperationV>::empty());
    if current.len() == 0 {
        assert(del_ops(current, des) =~~= Seq::<OperationV>::empty());
        assert(diff_ops(current, des) =~~= current.map_values(|e: EntryV| del_op(e)));
    } else {
        lemma_empty_fetch_clears(current.drop_last());
        assert(!des.contains(current.last()));
        assert(del_ops(current, des) == del_ops(current.drop_last(), des).push(
            del_op(current.last()),
        ));
        assert(diff_ops(current.drop_last(), des) =~~= del_ops(current.drop_last(), des));
        assert(diff_ops(current, des) =~~= current.map_values(|e: EntryV| del_op(e)));
    }
}

} // verus!
