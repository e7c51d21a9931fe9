//! The container side of the synchronizer: the shape of one observed
//! container (its display names and the addresses of the networks it is
//! attached to) and the extraction of name→address host entries from a
//! container snapshot. Talking to the runtime itself is I/O and stays
//! outside the library; it hands the records in as plain values.

use vstd::prelude::*;

verus! {

/// One name→address mapping a container should be reachable by.
pub struct ContainerHostEntry {
    pub name: String,
    pub addr: String,
}

/// Mathematical model of one host entry.
#[verifier::ext_equal]
pub struct EntryV {
    pub name: Seq<char>,
    pub addr: Seq<char>,
}

impl View for ContainerHostEntry {
    type V = EntryV;

    open spec fn view(&self) -> EntryV {
        EntryV { name: self.name@, addr: self.addr@ }
    }
}

pub open spec fn entries_view(v: Seq<ContainerHostEntry>) -> Seq<EntryV> {
    v.map_values(|e: ContainerHostEntry| e@)
}

/// What the synchronizer reads of one container as the runtime reports
/// it: every display name, and the address of every network the container
/// is attached to, in the order given.
pub struct ContainerRecord {
    pub names: Vec<String>,
    pub addrs: Vec<String>,
}

/// Mathematical model of one container record.
#[verifier::ext_equal]
pub struct ContainerRecordV {
    pub names: Seq<Seq<char>>,
    pub addrs: Seq<Seq<char>>,
}

impl View for ContainerRecord {
    type V = ContainerRecordV;

    open spec fn view(&self) -> ContainerRecordV {
        ContainerRecordV {
            names: self.names@.map_values(|s: String| s@),
            addrs: self.addrs@.map_values(|s: String| s@),
        }
    }
}

pub open spec fn records_view(v: Seq<ContainerRecord>) -> Seq<ContainerRecordV> {
    v.map_values(|c: ContainerRecord| c@)
}

/// The entries one name contributes: one per non-empty address, in
/// address order.
pub open spec fn pairs_of_addrs(name: Seq<char>, addrs: Seq<Seq<char>>) -> Seq<EntryV>
    decreases addrs.len(),
{
    if addrs.len() == 0 {
        Seq::empty()
    } else {
        let rest = pairs_of_addrs(name, addrs.drop_last());
        if addrs.last().len() > 0 {
            rest.push(EntryV { name: name, addr: addrs.last() })
        } else {
            rest
        }
    }
}

/// The entries a list of names contributes, names outermost.
pub open spec fn pairs_of_names(names: Seq<Seq<char>>, addrs: Seq<Seq<char>>) -> Seq<EntryV>
    decreases names.len(),
{
    if names.len() == 0 {
        Seq::empty()
    } else {
        pairs_of_names(names.drop_last(), addrs) + pairs_of_addrs(names.last(), addrs)
    }
}

/// All entries of one container record.
pub open spec fn pairs_of_record(c: ContainerRecordV) -> Seq<EntryV> {
    pairs_of_names(c.names, c.addrs)
}

/// All entries of a container snapshot, container order kept.
pub open spec fn collected_entries(cs: Seq<ContainerRecordV>) -> Seq<EntryV>
    decreases cs.len(),
{
    if cs.len() == 0 {
        Seq::empty()
    } else {
        collected_entries(cs.drop_last()) + pairs_of_record(cs.last())
    }
}

/// Turn a container snapshot into host entries: for every container, every
/// display name is paired with every non-empty network address.
pub fn collect_host_entries(containers: &Vec<ContainerRecord>) -> (out: Vec<ContainerHostEntry>)
    ensures
        entries_view(out@) == collected_entries(records_view(containers@)),
{
    let mut out: Vec<ContainerHostEntry> = Vec::new();
    proof {
        assert(records_view(containers@).subrange(0, 0) =~~= Seq::<ContainerRecordV>::empty());
        assert(entries_view(out@) =~~= collected_entries(records_view(containers@).subrange(0, 0)));
    }
    let mut ci: usize = 0;
    while ci < containers.len()
        invariant
            0 <= ci <= containers@.len(),
            records_view(containers@).len() == containers@.len(),
            entries_view(out@) == collected_entries(
                records_view(containers@).subrange(0, ci as int),
            ),
            forall|j: int| 0 <= j < containers@.len()
                ==> records_view(containers@)[j] == containers@[j]@,
        decreases containers@.len() - ci,
    {
        let ghost cprefix = records_view(containers@).subrange(0, ci as int);
        let ghost cv = containers@[ci as int]@;
        let ghost base_c = entries_view(out@);
        let c = &containers[ci];
        let mut ni: usize = 0;
        while ni < c.names.len()
            invariant
                0 <= ni <= c.names@.len(),
                cv == c@,
                cv.names.len() == c.names@.len(),
                cv.addrs.len() == c.addrs@.len(),
                forall|j: int| 0 <= j < c.names@.len() ==> cv.names[j] == c.names@[j]@,
                forall|j: int| 0 <= j < c.addrs@.len() ==> cv.addrs[j] == c.addrs@[j]@,
                entries_view(out@) == base_c + pairs_of_names(
                    cv.names.subrange(0, ni as int),
                    cv.addrs,
                ),
            decreases c.names@.len() - ni,
        {
            let ghost nprefix = cv.names.subrange(0, ni as int);
            let ghost base_n = entries_view(out@);
            let name = &c.names[ni];
            let mut ai: usize = 0;
            while ai < c.addrs.len()
                invariant
                    0 <= ai <= c.addrs@.len(),
                    cv.addrs.len() == c.addrs@.len(),
                    name@ == cv.names[ni as int],
                    0 <= ni < cv.names.len(),
                    forall|j: int| 0 <= j < c.addrs@.len() ==> cv.addrs[j] == c.addrs@[j]@,
                    entries_view(out@) == base_n + pairs_of_addrs(
                        name@,
                        cv.addrs.subrange(0, ai as int),
                    ),
                decreases c.addrs@.len() - ai,
            {
                let ghost aprefix = cv.addrs.subrange(0, ai as int);
                let addr = &c.addrs[ai];
                if !addr.as_str().is_empty() {
                    out.push(ContainerHostEntry { name: name.clone(), addr: addr.clone() });
                    proof {
                        assert(entries_view(out@) =~~= (base_n + pairs_of_addrs(name@, aprefix))
                            .push((EntryV { name: name@, addr: addr@ })));
                    }
                }
                ai += 1;
                proof {
                    assert(cv.addrs.subrange(0, ai as int).drop_last() =~~= aprefix);
                    assert(cv.addrs.subrange(0, ai as int).last() == addr@);
                    assert(entries_view(out@) =~~= base_n + pairs_of_addrs(
                        name@,
                        cv.addrs.subrange(0, ai as int),
                    ));
                }
            }
            ni += 1;
            proof {
                assert(cv.addrs.subrange(0, cv.addrs.len() as int) =~~= cv.addrs);
                assert(cv.names.subrange(0, ni as int).drop_last() =~~= nprefix);
                assert(cv.names.subrange(0, ni as int).last() == name@);
                assert(entries_view(out@) =~~= base_c + pairs_of_names(
                    cv.names.subrange(0, ni as int),
                    cv.addrs,
                ));
            }
        }
        ci += 1;
        proof {
            assert(cv.names.subrange(0, cv.names.len() as int) =~~= cv.names);
            assert(records_view(containers@).subrange(0, ci as int).drop_last() =~~= cprefix);
            assert(records_view(containers@).subrange(0, ci as int).last() == cv);
            assert(entries_view(out@) =~~= collected_entries(
                records_view(containers@).subrange(0, ci as int),
            ));
        }
    }
    proof {
        assert(records_view(containers@).subrange(0, containers@.len() as int) =~~= records_view(
            containers@,
        ));
    }
    out
}

/// A handle on the container runtime's control channel, identified by the
/// path of its local socket.
pub struct ContainerLister {
    docker_socket: String,
}

impl View for ContainerLister {
    type V = Seq<char>;

    closed spec fn view(&self) -> Seq<char> {
        self.docker_socket@
    }
}

impl ContainerLister {
    /// A lister that will query the runtime behind `docker_socket`.
    pub fn new(docker_socket: &str) -> (r: ContainerLister)
        ensures
            r@ == docker_socket@,
    {
        ContainerLister { docker_socket: docker_socket.to_owned() }
    }

    /// The socket path this lister queries.
    pub fn socket_path(&self) -> (s: &str)
        ensures
            s@ == self@,
    {
        self.docker_socket.as_str()
    }
}

} // verus!
