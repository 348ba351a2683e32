use vstd::prelude::*;

use crate::bitmap::BitMap;
use crate::bitmap::bm_contains;
use std::collections::HashMap;

verus! {

broadcast use vstd::std_specs::hash::group_hash_axioms;

/// One schedulable hardware thread, with the package, NUMA node and physical
/// core it belongs to.  Immutable once created.
#[derive(Clone, Copy, PartialEq, Eq, Structural, Debug)]
pub struct LCore {
    pub package_id: u16,
    pub node_id: u16,
    pub core_id: u16,
    pub lcore_id: u16,
}

/// The identification record of one physical package, as the external
/// hardware identifier reports it: a vendor code and the core counts, plain
/// values that the topology captures once per package and hands out
/// unchanged.
#[derive(Clone, Copy, PartialEq, Eq, Structural, Debug)]
pub struct HardwareInfo {
    pub vendor: i32,
    pub num_cores: i32,
    pub num_logical_cpus: i32,
    pub total_logical_cpus: i32,
}

/// One NUMA memory node and the set of logical cores associated with it.
pub struct Node {
    pub node_id: u16,
    pub lcores: BitMap,
}

/// One physical CPU socket: the node it was first observed on, its hardware
/// identification record, and the set of logical cores it owns.
pub struct Package {
    pub package_id: u16,
    pub node_id: u16,
    pub cpu_info: HardwareInfo,
    pub lcores: BitMap,
}

/// The immutable topology model: packages, logical cores and nodes, each
/// keyed by its id.
pub struct Topology {
    pub packages: HashMap<u16, Package>,
    pub lcores: HashMap<u16, LCore>,
    pub nodes: HashMap<u16, Node>,
}

impl Topology {
    /// Referential consistency of the model: every logical core's node and
    /// package exist and list the core as a member, every membership bit
    /// points back at a known core with the matching owner field, and each
    /// map is small enough that its size fits the id width.
    pub open spec fn wf(self) -> bool {
        &&& self.lcores@.len() <= u16::MAX
        &&& self.nodes@.len() <= u16::MAX
        &&& self.packages@.len() <= u16::MAX
        &&& forall|c: u16| #[trigger] self.lcores@.contains_key(c) ==> {
            let lc = self.lcores@[c];
            &&& lc.lcore_id == c
            &&& self.nodes@.contains_key(lc.node_id)
            &&& self.packages@.contains_key(lc.package_id)
            &&& bm_contains(self.nodes@[lc.node_id].lcores@, c as int)
            &&& bm_contains(self.packages@[lc.package_id].lcores@, c as int)
        }
        &&& forall|n: u16| #[trigger] self.nodes@.contains_key(n) ==> {
            let nd = self.nodes@[n];
            &&& nd.node_id == n
            &&& nd.lcores@.len() <= u16::MAX as int + 1
            &&& forall|c: int| #[trigger] bm_contains(nd.lcores@, c) ==> self.lcores@.contains_key(
                c as u16,
            ) && self.lcores@[c as u16].node_id == n
        }
        &&& forall|p: u16| #[trigger] self.packages@.contains_key(p) ==> {
            let pk = self.packages@[p];
            &&& pk.package_id == p
            &&& self.nodes@.contains_key(pk.node_id)
            &&& pk.lcores@.len() <= u16::MAX as int + 1
            &&& forall|c: int| #[trigger] bm_contains(pk.lcores@, c) ==> self.lcores@.contains_key(
                c as u16,
            ) && self.lcores@[c as u16].package_id == p
        }
    }

    /// How many NUMA nodes the model holds.
    pub fn max_num_nodes(&self) -> (r: u16)
        requires
            self.nodes@.len() <= u16::MAX,
        ensures
            r == self.nodes@.len(),
    {
        self.nodes.len() as u16
    }

    /// How many packages the model holds.
    pub fn max_num_packages(&self) -> (r: u16)
        requires
            self.packages@.len() <= u16::MAX,
        ensures
            r == self.packages@.len(),
    {
        self.packages.len() as u16
    }

    /// How many logical cores the model holds.
    pub fn max_num_lcores(&self) -> (r: u16)
        requires
            self.lcores@.len() <= u16::MAX,
        ensures
            r == self.lcores@.len(),
    {
        self.lcores.len() as u16
    }

    /// The node with the given id, or absent if it was never discovered.
    pub fn node(&self, node_id: u16) -> (r: Option<&Node>)
        ensures
            match r {
                Some(nd) => self.nodes@.contains_key(node_id) && *nd == self.nodes@[node_id],
                None => !self.nodes@.contains_key(node_id),
            },
    {
        self.nodes.get(&node_id)
    }

    /// The logical core with the given id, or absent if it was never
    /// discovered.
    pub fn lcore(&self, lcore_id: u16) -> (r: Option<&LCore>)
        ensures
            match r {
                Some(lc) => self.lcores@.contains_key(lcore_id) && *lc == self.lcores@[lcore_id],
                None => !self.lcores@.contains_key(lcore_id),
            },
    {
        self.lcores.get(&lcore_id)
    }

    /// The package with the given id, or absent if it was never discovered.
    pub fn package(&self, package_id: u16) -> (r: Option<&Package>)
        ensures
            match r {
                Some(pk) => self.packages@.contains_key(package_id) && *pk
                    == self.packages@[package_id],
                None => !self.packages@.contains_key(package_id),
            },
    {
        self.packages.get(&package_id)
    }

    /// The node that owns the given logical core, or absent if the core is
    /// unknown.
    pub fn node_of_lcore(&self, lcore_id: u16) -> (r: Option<&Node>)
        ensures
            match r {
                Some(nd) => self.lcores@.contains_key(lcore_id) && self.nodes@.contains_key(
                    self.lcores@[lcore_id].node_id,
                ) && *nd == self.nodes@[self.lcores@[lcore_id].node_id],
                None => !self.lcores@.contains_key(lcore_id) || !self.nodes@.contains_key(
                    self.lcores@[lcore_id].node_id,
                ),
            },
    {
        match self.lcores.get(&lcore_id) {
            Some(lc) => self.nodes.get(&lc.node_id),
            None => None,
        }
    }

    /// The package that owns the given logical core, or absent if the core
    /// is unknown.
    pub fn package_of_lcore(&self, lcore_id: u16) -> (r: Option<&Package>)
        ensures
            match r {
                Some(pk) => self.lcores@.contains_key(lcore_id) && self.packages@.contains_key(
                    self.lcores@[lcore_id].package_id,
                ) && *pk == self.packages@[self.lcores@[lcore_id].package_id],
                None => !self.lcores@.contains_key(lcore_id) || !self.packages@.contains_key(
                    self.lcores@[lcore_id].package_id,
                ),
            },
    {
        match self.lcores.get(&lcore_id) {
            Some(lc) => self.packages.get(&lc.package_id),
            None => None,
        }
    }

    /// The member cores of the given node, or absent if the node is unknown.
    pub fn lcores_of_node(&self, node_id: u16) -> (r: Option<&BitMap>)
        ensures
            match r {
                Some(bm) => self.nodes@.contains_key(node_id) && *bm == self.nodes@[node_id].lcores,
                None => !self.nodes@.contains_key(node_id),
            },
    {
        match self.nodes.get(&node_id) {
            Some(nd) => Some(&nd.lcores),
            None => None,
        }
    }

    /// The member cores of the given package, or absent if the package is
    /// unknown.
    pub fn lcores_of_package(&self, package_id: u16) -> (r: Option<&BitMap>)
        ensures
            match r {
                Some(bm) => self.packages@.contains_key(package_id) && *bm
                    == self.packages@[package_id].lcores,
                None => !self.packages@.contains_key(package_id),
            },
    {
        match self.packages.get(&package_id) {
            Some(pk) => Some(&pk.lcores),
            None => None,
        }
    }
}

/// What probing the enumeration tree for one (node, core) pair yielded:
/// absent when the pair has no topology directory, else the two ids read
/// from it.
#[derive(Clone, Copy, PartialEq, Eq, Structural, Debug)]
pub struct ProbeResult {
    pub package_id: u16,
    pub core_id: u16,
}

/// Why a build failed: the representative logical core of a freshly seen
/// package had no hardware identification record.
#[derive(Clone, Copy, PartialEq, Eq, Structural, Debug)]
pub struct BuildError {
    pub lcore_id: u16,
}

/// The probe table as a sequence of per-node rows.
pub open spec fn probes_view(probes: Seq<Vec<Option<ProbeResult>>>) -> Seq<
    Seq<Option<ProbeResult>>,
> {
    probes.map_values(|row: Vec<Option<ProbeResult>>| row@)
}

/// One row per node, one slot per logical core id.
pub open spec fn probes_shaped(
    probes: Seq<Seq<Option<ProbeResult>>>,
    num_nodes: int,
    num_cpus: int,
) -> bool {
    &&& probes.len() == num_nodes
    &&& forall|n: int| 0 <= n < num_nodes ==> #[trigger] probes[n].len() == num_cpus
}

/// Did core `c` have a topology directory under node `n`?
pub open spec fn discovered(probes: Seq<Seq<Option<ProbeResult>>>, n: int, c: int) -> bool {
    &&& 0 <= n < probes.len()
    &&& 0 <= c < probes[n].len()
    &&& probes[n][c] is Some
}

pub open spec fn probe_package(probes: Seq<Seq<Option<ProbeResult>>>, n: int, c: int) -> u16 {
    probes[n][c]->Some_0.package_id
}

pub open spec fn probe_core(probes: Seq<Seq<Option<ProbeResult>>>, n: int, c: int) -> u16 {
    probes[n][c]->Some_0.core_id
}

/// The logical-core record that probing (n, c) gives rise to.
pub open spec fn lcore_rec(probes: Seq<Seq<Option<ProbeResult>>>, n: int, c: int) -> LCore {
    LCore {
        package_id: probe_package(probes, n, c),
        node_id: n as u16,
        core_id: probe_core(probes, n, c),
        lcore_id: c as u16,
    }
}

/// A core has a topology directory under at most one node: the directory
/// exists only under the core's true owning node.
pub open spec fn unique_node_owner(probes: Seq<Seq<Option<ProbeResult>>>) -> bool {
    forall|n1: int, n2: int, c: int|
        #[trigger] discovered(probes, n1, c) && #[trigger] discovered(probes, n2, c) ==> n1 == n2
}

/// Does position (n1, c1) come strictly before position (n2, c2) in the
/// enumeration order (node-major, core-minor)?
pub open spec fn before(n1: int, c1: int, n2: int, c2: int) -> bool {
    n1 < n2 || (n1 == n2 && c1 < c2)
}

/// Is (n, c) the first position, in enumeration order, at which package `p`
/// is observed?
pub open spec fn first_occurrence(
    probes: Seq<Seq<Option<ProbeResult>>>,
    p: u16,
    n: int,
    c: int,
) -> bool {
    &&& discovered(probes, n, c)
    &&& probe_package(probes, n, c) == p
    &&& forall|n2: int, c2: int|
        #[trigger] discovered(probes, n2, c2) && probe_package(probes, n2, c2) == p ==> !before(
            n2,
            c2,
            n,
            c,
        )
}

/// Every package representative (the first core observed for it) has a
/// hardware identification record.
pub open spec fn reps_identified(
    probes: Seq<Seq<Option<ProbeResult>>>,
    infos: Seq<Option<HardwareInfo>>,
) -> bool {
    forall|p: u16, n: int, c: int|
        #[trigger] first_occurrence(probes, p, n, c) ==> infos[c] is Some
}

impl Topology {
    /// The topology is exactly what the probe table shows: a node entry per
    /// online node whose member set mirrors its probe row; a logical core
    /// per discovered (node, core) pair carrying the ids read for it;
    /// a package per package id observed, owning exactly its cores, with the
    /// node and identification record of its first observed core.
    pub open spec fn models(
        self,
        probes: Seq<Seq<Option<ProbeResult>>>,
        infos: Seq<Option<HardwareInfo>>,
        num_cpus: u16,
        num_nodes: u16,
    ) -> bool {
        &&& forall|n: u16| #[trigger] self.nodes@.contains_key(n) ==> (n as int) < num_nodes
        &&& forall|n: u16| (n as int) < num_nodes ==> #[trigger] self.nodes@.contains_key(n)
        &&& forall|n: u16| #[trigger] self.nodes@.contains_key(n) ==> {
            let nd = self.nodes@[n];
            &&& nd.node_id == n
            &&& nd.lcores@.len() == num_cpus
            &&& forall|c: int|
                #![trigger bm_contains(nd.lcores@, c)]
                #![trigger discovered(probes, n as int, c)]
                0 <= c < num_cpus ==> (bm_contains(nd.lcores@, c) <==> discovered(
                    probes,
                    n as int,
                    c,
                ))
        }
        &&& forall|c: u16| #[trigger] self.lcores@.contains_key(c) ==> exists|n: int|
            discovered(probes, n, c as int)
        &&& forall|n: int, c: int| #[trigger] discovered(probes, n, c) ==> {
            &&& self.lcores@.contains_key(c as u16)
            &&& self.lcores@[c as u16] == lcore_rec(probes, n, c)
            &&& self.packages@.contains_key(probe_package(probes, n, c))
        }
        &&& forall|p: u16| #[trigger] self.packages@.contains_key(p) ==> exists|n: int, c: int|
            discovered(probes, n, c) && probe_package(probes, n, c) == p
        &&& forall|p: u16, n: int, c: int| #[trigger] first_occurrence(probes, p, n, c) ==> {
            &&& self.packages@.contains_key(p)
            &&& self.packages@[p].node_id == n as u16
            &&& infos[c] is Some
            &&& self.packages@[p].cpu_info == infos[c]->Some_0
        }
        &&& forall|p: u16| #[trigger] self.packages@.contains_key(p) ==> {
            let pk = self.packages@[p];
            &&& pk.package_id == p
            &&& pk.lcores@.len() == num_cpus
            &&& forall|c: int|
                #![trigger bm_contains(pk.lcores@, c)]
                0 <= c < num_cpus ==> (bm_contains(pk.lcores@, c) <==> exists|n: int|
                    discovered(probes, n, c) && probe_package(probes, n, c) == p)
        }
        &&& self.nodes@.len() == num_nodes
        &&& self.lcores@.len() <= num_cpus
        &&& self.packages@.len() <= self.lcores@.len()
    }
}

/// A finite map keyed below `bound` has at most `bound` entries.
proof fn lemma_map_keys_bound<V>(m: Map<u16, V>, bound: int)
    requires
        m.dom().finite(),
        0 <= bound <= 65536,
        forall|c: u16| #[trigger] m.contains_key(c) ==> (c as int) < bound,
    ensures
        m.len() <= bound,
    decreases bound,
{
    if bound == 0 {
        assert(m.dom() =~= Set::empty());
    } else {
        let k = (bound - 1) as u16;
        if m.contains_key(k) {
            let m2 = m.remove(k);
            assert(m2.dom() =~= m.dom().remove(k));
            lemma_map_keys_bound(m2, bound - 1);
        } else {
            lemma_map_keys_bound(m, bound - 1);
        }
    }
}

/// A package observed anywhere is observed a first time.
proof fn lemma_first_occurrence_exists(
    probes: Seq<Seq<Option<ProbeResult>>>,
    p: u16,
    n: int,
    c: int,
)
    requires
        discovered(probes, n, c),
        probe_package(probes, n, c) == p,
    ensures
        exists|n0: int, c0: int| #[trigger] first_occurrence(probes, p, n0, c0),
    decreases n, c,
{
    if first_occurrence(probes, p, n, c) {
    } else {
        let (n2, c2) = choose|n2: int, c2: int|
            #[trigger] discovered(probes, n2, c2) && probe_package(probes, n2, c2) == p && before(
                n2,
                c2,
                n,
                c,
            );
        lemma_first_occurrence_exists(probes, p, n2, c2);
    }
}

/// A topology that models a uniquely-owned probe table is referentially
/// consistent.
pub proof fn lemma_models_implies_wf(
    t: Topology,
    probes: Seq<Seq<Option<ProbeResult>>>,
    infos: Seq<Option<HardwareInfo>>,
    num_cpus: u16,
    num_nodes: u16,
)
    requires
        probes_shaped(probes, num_nodes as int, num_cpus as int),
        unique_node_owner(probes),
        t.models(probes, infos, num_cpus, num_nodes),
    ensures
        t.wf(),
{
    assert forall|c: u16| #[trigger] t.lcores@.contains_key(c) implies {
        let lc = t.lcores@[c];
        &&& lc.lcore_id == c
        &&& t.nodes@.contains_key(lc.node_id)
        &&& t.packages@.contains_key(lc.package_id)
        &&& bm_contains(t.nodes@[lc.node_id].lcores@, c as int)
        &&& bm_contains(t.packages@[lc.package_id].lcores@, c as int)
    } by {
        let n = choose|n: int| discovered(probes, n, c as int);
        assert(discovered(probes, n, c as int));
        assert(t.lcores@[c] == lcore_rec(probes, n, c as int));
        assert(t.nodes@.contains_key(n as u16));
        assert(bm_contains(t.nodes@[n as u16].lcores@, c as int));
        let p = probe_package(probes, n, c as int);
        assert(t.packages@.contains_key(p));
        assert(bm_contains(t.packages@[p].lcores@, c as int));
    }
    assert forall|n: u16| #[trigger] t.nodes@.contains_key(n) implies {
        let nd = t.nodes@[n];
        &&& nd.node_id == n
        &&& nd.lcores@.len() <= u16::MAX as int + 1
        &&& forall|c: int| #[trigger] bm_contains(nd.lcores@, c) ==> t.lcores@.contains_key(
            c as u16,
        ) && t.lcores@[c as u16].node_id == n
    } by {
        let nd = t.nodes@[n];
        assert forall|c: int| #[trigger] bm_contains(nd.lcores@, c) implies t.lcores@.contains_key(
            c as u16,
        ) && t.lcores@[c as u16].node_id == n by {
            assert(discovered(probes, n as int, c));
            assert(t.lcores@[c as u16] == lcore_rec(probes, n as int, c));
        }
    }
    assert forall|p: u16| #[trigger] t.packages@.contains_key(p) implies {
        let pk = t.packages@[p];
        &&& pk.package_id == p
        &&& t.nodes@.contains_key(pk.node_id)
        &&& pk.lcores@.len() <= u16::MAX as int + 1
        &&& forall|c: int| #[trigger] bm_contains(pk.lcores@, c) ==> t.lcores@.contains_key(
            c as u16,
        ) && t.lcores@[c as u16].package_id == p
    } by {
        let pk = t.packages@[p];
        let (n1, c1) = choose|n1: int, c1: int|
            #[trigger] discovered(probes, n1, c1) && probe_package(probes, n1, c1) == p;
        lemma_first_occurrence_exists(probes, p, n1, c1);
        let (n0, c0) = choose|n0: int, c0: int| #[trigger] first_occurrence(probes, p, n0, c0);
        assert(discovered(probes, n0, c0));
        assert(t.packages@[p].node_id == n0 as u16);
        assert(t.nodes@.contains_key(n0 as u16));
        assert forall|c: int| #[trigger] bm_contains(pk.lcores@, c) implies t.lcores@.contains_key(
            c as u16,
        ) && t.lcores@[c as u16].package_id == p by {
            let n = choose|n: int| discovered(probes, n, c) && probe_package(probes, n, c) == p;
            assert(discovered(probes, n, c));
            assert(t.lcores@[c as u16] == lcore_rec(probes, n, c));
        }
    }
}

/// Partial node map after the rows before `bn` have been folded in.
spec fn inv_nodes(
    nodes: Map<u16, Node>,
    pv: Seq<Seq<Option<ProbeResult>>>,
    num_cpus: int,
    bn: int,
) -> bool {
    &&& forall|n: u16| #[trigger] nodes.contains_key(n) ==> (n as int) < bn
    &&& forall|n: u16| (n as int) < bn ==> #[trigger] nodes.contains_key(n)
    &&& forall|n: u16| #[trigger] nodes.contains_key(n) ==> {
        let nd = nodes[n];
        &&& nd.node_id == n
        &&& nd.lcores@.len() == num_cpus
        &&& forall|c: int|
            #![trigger bm_contains(nd.lcores@, c)]
            #![trigger discovered(pv, n as int, c)]
            0 <= c < num_cpus ==> (bm_contains(nd.lcores@, c) <==> discovered(pv, n as int, c))
    }
}

/// Partial logical-core map after the positions before (bn, bc) have been
/// folded in.
spec fn inv_lcores(
    lcores: Map<u16, LCore>,
    pv: Seq<Seq<Option<ProbeResult>>>,
    bn: int,
    bc: int,
) -> bool {
    &&& forall|c: u16| #[trigger] lcores.contains_key(c) ==> exists|n: int|
        discovered(pv, n, c as int) && before(n, c as int, bn, bc)
    &&& forall|n: int, c: int|
        #[trigger] discovered(pv, n, c) && before(n, c, bn, bc) ==> lcores.contains_key(c as u16)
            && lcores[c as u16] == lcore_rec(pv, n, c)
}

/// Partial package map after the positions before (bn, bc) have been folded
/// in.
spec fn inv_packages(
    packages: Map<u16, Package>,
    pv: Seq<Seq<Option<ProbeResult>>>,
    infos: Seq<Option<HardwareInfo>>,
    bn: int,
    bc: int,
    num_cpus: int,
) -> bool {
    &&& forall|p: u16| #[trigger] packages.contains_key(p) ==> exists|n: int, c: int|
        discovered(pv, n, c) && before(n, c, bn, bc) && probe_package(pv, n, c) == p
    &&& forall|n: int, c: int|
        #[trigger] discovered(pv, n, c) && before(n, c, bn, bc) ==> packages.contains_key(
            probe_package(pv, n, c),
        )
    &&& forall|p: u16| #[trigger] packages.contains_key(p) ==> pkg_rec_ok(
        packages[p],
        p,
        pv,
        infos,
        bn,
        bc,
        num_cpus,
    )
}

/// One package record agrees with the part of the probe table before
/// position (bn, bc): its identity, its first-occurrence data, and its
/// member set.
spec fn pkg_rec_ok(
    pk: Package,
    p: u16,
    pv: Seq<Seq<Option<ProbeResult>>>,
    infos: Seq<Option<HardwareInfo>>,
    bn: int,
    bc: int,
    num_cpus: int,
) -> bool {
    &&& pk.package_id == p
    &&& pk.lcores@.len() == num_cpus
    &&& exists|n: int, c: int|
        #[trigger] first_occurrence(pv, p, n, c) && before(n, c, bn, bc) && pk.node_id == (
        n as u16) && infos[c] is Some && pk.cpu_info == infos[c]->Some_0
    &&& forall|c: int|
        #![trigger bm_contains(pk.lcores@, c)]
        0 <= c < num_cpus ==> (bm_contains(pk.lcores@, c) <==> exists|n: int|
            discovered(pv, n, c) && before(n, c, bn, bc) && probe_package(pv, n, c) == p)
}

/// A record untouched by the step at position (bn, bc) stays correct, both
/// when that position is undiscovered and when it belongs to another
/// package.
proof fn lemma_rec_unaffected(
    pk: Package,
    p: u16,
    pv: Seq<Seq<Option<ProbeResult>>>,
    infos: Seq<Option<HardwareInfo>>,
    bn: int,
    bc: int,
    num_cpus: int,
)
    requires
        pkg_rec_ok(pk, p, pv, infos, bn, bc, num_cpus),
        !(discovered(pv, bn, bc) && probe_package(pv, bn, bc) == p),
    ensures
        pkg_rec_ok(pk, p, pv, infos, bn, bc + 1, num_cpus),
{
    let (n0, c0) = choose|n0: int, c0: int|
        #[trigger] first_occurrence(pv, p, n0, c0) && before(n0, c0, bn, bc) && pk.node_id == (
        n0 as u16) && infos[c0] is Some && pk.cpu_info == infos[c0]->Some_0;
    assert(first_occurrence(pv, p, n0, c0) && before(n0, c0, bn, bc + 1) && pk.node_id == (
    n0 as u16) && infos[c0] is Some && pk.cpu_info == infos[c0]->Some_0);
    assert forall|c: int| 0 <= c < num_cpus implies (#[trigger] bm_contains(pk.lcores@, c)
        <==> exists|n: int|
        discovered(pv, n, c) && before(n, c, bn, bc + 1) && probe_package(pv, n, c) == p) by {
        if exists|n: int|
            discovered(pv, n, c) && before(n, c, bn, bc + 1) && probe_package(pv, n, c) == p {
            let n = choose|n: int|
                discovered(pv, n, c) && before(n, c, bn, bc + 1) && probe_package(pv, n, c) == p;
            assert(!(n == bn && c == bc));
            assert(before(n, c, bn, bc));
            assert(bm_contains(pk.lcores@, c));
        }
        if bm_contains(pk.lcores@, c) {
            let n = choose|n: int|
                discovered(pv, n, c) && before(n, c, bn, bc) && probe_package(pv, n, c) == p;
            assert(discovered(pv, n, c) && before(n, c, bn, bc + 1) && probe_package(pv, n, c)
                == p);
        }
    }
}

/// Folding a discovered core into the record of its already-known package
/// keeps the record correct.
proof fn lemma_step_existing_package(
    m_pre: Map<u16, Package>,
    m_post: Map<u16, Package>,
    pkg0: Package,
    pkg: Package,
    pv: Seq<Seq<Option<ProbeResult>>>,
    infos: Seq<Option<HardwareInfo>>,
    bn: int,
    bc: int,
    num_cpus: int,
)
    requires
        inv_packages(m_pre, pv, infos, bn, bc, num_cpus),
        discovered(pv, bn, bc),
        unique_node_owner(pv),
        0 <= bc < num_cpus,
        m_pre.contains_key(probe_package(pv, bn, bc)),
        pkg0 == m_pre[probe_package(pv, bn, bc)],
        pkg.package_id == pkg0.package_id,
        pkg.node_id == pkg0.node_id,
        pkg.cpu_info == pkg0.cpu_info,
        pkg.lcores@ == pkg0.lcores@.update(bc, true),
        m_post == m_pre.insert(probe_package(pv, bn, bc), pkg),
    ensures
        inv_packages(m_post, pv, infos, bn, bc + 1, num_cpus),
        m_post.len() == m_pre.len(),
{
    let p = probe_package(pv, bn, bc);
    assert(pkg_rec_ok(pkg0, p, pv, infos, bn, bc, num_cpus));
    assert(m_post.dom() =~= m_pre.dom());
    assert forall|q: u16| #[trigger] m_post.contains_key(q) implies pkg_rec_ok(
        m_post[q],
        q,
        pv,
        infos,
        bn,
        bc + 1,
        num_cpus,
    ) by {
        if q == p {
            let (n0, c0) = choose|n0: int, c0: int|
                #[trigger] first_occurrence(pv, p, n0, c0) && before(n0, c0, bn, bc)
                    && pkg0.node_id == (n0 as u16) && infos[c0] is Some && pkg0.cpu_info
                    == infos[c0]->Some_0;
            assert(first_occurrence(pv, p, n0, c0) && before(n0, c0, bn, bc + 1) && pkg.node_id
                == (n0 as u16) && infos[c0] is Some && pkg.cpu_info == infos[c0]->Some_0);
            assert forall|c: int| 0 <= c < num_cpus implies (#[trigger] bm_contains(
                pkg.lcores@,
                c,
            ) <==> exists|n: int|
                discovered(pv, n, c) && before(n, c, bn, bc + 1) && probe_package(pv, n, c)
                    == p) by {
                if c == bc {
                    assert(bm_contains(pkg.lcores@, bc));
                    assert(discovered(pv, bn, bc) && before(bn, bc, bn, bc + 1) && probe_package(
                        pv,
                        bn,
                        bc,
                    ) == p);
                } else {
                    assert(bm_contains(pkg.lcores@, c) == bm_contains(pkg0.lcores@, c));
                    if exists|n: int|
                        discovered(pv, n, c) && before(n, c, bn, bc + 1) && probe_package(
                            pv,
                            n,
                            c,
                        ) == p {
                        let n = choose|n: int|
                            discovered(pv, n, c) && before(n, c, bn, bc + 1) && probe_package(
                                pv,
                                n,
                                c,
                            ) == p;
                        assert(before(n, c, bn, bc));
                        assert(bm_contains(pkg0.lcores@, c));
                    }
                    if bm_contains(pkg0.lcores@, c) {
                        let n = choose|n: int|
                            discovered(pv, n, c) && before(n, c, bn, bc) && probe_package(
                                pv,
                                n,
                                c,
                            ) == p;
                        assert(discovered(pv, n, c) && before(n, c, bn, bc + 1) && probe_package(
                            pv,
                            n,
                            c,
                        ) == p);
                    }
                }
            }
            assert(pkg_rec_ok(pkg, p, pv, infos, bn, bc + 1, num_cpus));
        } else {
            assert(m_post[q] == m_pre[q]);
            lemma_rec_unaffected(m_pre[q], q, pv, infos, bn, bc, num_cpus);
        }
    }
    assert forall|n: int, c: int|
        #[trigger] discovered(pv, n, c) && before(n, c, bn, bc + 1) implies m_post.contains_key(
        probe_package(pv, n, c),
    ) by {
        if n == bn && c == bc {
        } else {
            assert(before(n, c, bn, bc));
        }
    }
}

/// Creating the record of a package at its first observed core keeps the
/// package map correct.
proof fn lemma_step_new_package(
    m_pre: Map<u16, Package>,
    m_post: Map<u16, Package>,
    pkg: Package,
    pv: Seq<Seq<Option<ProbeResult>>>,
    infos: Seq<Option<HardwareInfo>>,
    bn: int,
    bc: int,
    num_cpus: int,
)
    requires
        m_pre.dom().finite(),
        inv_packages(m_pre, pv, infos, bn, bc, num_cpus),
        discovered(pv, bn, bc),
        unique_node_owner(pv),
        0 <= bc < num_cpus,
        !m_pre.contains_key(probe_package(pv, bn, bc)),
        infos[bc] is Some,
        pkg.package_id == probe_package(pv, bn, bc),
        pkg.node_id == bn as u16,
        pkg.cpu_info == infos[bc]->Some_0,
        pkg.lcores@.len() == num_cpus,
        forall|c: int| 0 <= c < num_cpus ==> (#[trigger] bm_contains(pkg.lcores@, c) <==> c == bc),
        m_post == m_pre.insert(probe_package(pv, bn, bc), pkg),
    ensures
        inv_packages(m_post, pv, infos, bn, bc + 1, num_cpus),
        m_post.len() == m_pre.len() + 1,
        first_occurrence(pv, probe_package(pv, bn, bc), bn, bc),
{
    let p = probe_package(pv, bn, bc);
    assert(first_occurrence(pv, p, bn, bc)) by {
        assert forall|n2: int, c2: int|
            #[trigger] discovered(pv, n2, c2) && probe_package(pv, n2, c2) == p implies !before(
            n2,
            c2,
            bn,
            bc,
        ) by {
            if before(n2, c2, bn, bc) {
                assert(m_pre.contains_key(p));
            }
        }
    }
    assert(m_post.dom() =~= m_pre.dom().insert(p));
    assert forall|q: u16| #[trigger] m_post.contains_key(q) implies pkg_rec_ok(
        m_post[q],
        q,
        pv,
        infos,
        bn,
        bc + 1,
        num_cpus,
    ) by {
        if q == p {
            assert(first_occurrence(pv, p, bn, bc) && before(bn, bc, bn, bc + 1) && pkg.node_id
                == (bn as u16) && infos[bc] is Some && pkg.cpu_info == infos[bc]->Some_0);
            assert forall|c: int| 0 <= c < num_cpus implies (#[trigger] bm_contains(
                pkg.lcores@,
                c,
            ) <==> exists|n: int|
                discovered(pv, n, c) && before(n, c, bn, bc + 1) && probe_package(pv, n, c)
                    == p) by {
                if c == bc {
                    assert(discovered(pv, bn, bc) && before(bn, bc, bn, bc + 1) && probe_package(
                        pv,
                        bn,
                        bc,
                    ) == p);
                } else {
                    if exists|n: int|
                        discovered(pv, n, c) && before(n, c, bn, bc + 1) && probe_package(
                            pv,
                            n,
                            c,
                        ) == p {
                        let n = choose|n: int|
                            discovered(pv, n, c) && before(n, c, bn, bc + 1) && probe_package(
                                pv,
                                n,
                                c,
                            ) == p;
                        assert(before(n, c, bn, bc));
                        assert(m_pre.contains_key(p));
                        assert(false);
                    }
                }
            }
            assert(pkg_rec_ok(pkg, p, pv, infos, bn, bc + 1, num_cpus));
        } else {
            assert(m_post[q] == m_pre[q]);
            lemma_rec_unaffected(m_pre[q], q, pv, infos, bn, bc, num_cpus);
        }
    }
    assert forall|n: int, c: int|
        #[trigger] discovered(pv, n, c) && before(n, c, bn, bc + 1) implies m_post.contains_key(
        probe_package(pv, n, c),
    ) by {
        if n == bn && c == bc {
        } else {
            assert(before(n, c, bn, bc));
        }
    }
}

/// A step over a position with no topology directory changes nothing.
proof fn lemma_step_undiscovered(
    m: Map<u16, Package>,
    pv: Seq<Seq<Option<ProbeResult>>>,
    infos: Seq<Option<HardwareInfo>>,
    bn: int,
    bc: int,
    num_cpus: int,
)
    requires
        inv_packages(m, pv, infos, bn, bc, num_cpus),
        !discovered(pv, bn, bc),
    ensures
        inv_packages(m, pv, infos, bn, bc + 1, num_cpus),
{
    assert forall|n: int, c: int|
        #[trigger] discovered(pv, n, c) && before(n, c, bn, bc + 1) implies m.contains_key(
        probe_package(pv, n, c),
    ) by {
        assert(!(n == bn && c == bc));
        assert(before(n, c, bn, bc));
    }
    assert forall|q: u16| #[trigger] m.contains_key(q) implies pkg_rec_ok(
        m[q],
        q,
        pv,
        infos,
        bn,
        bc + 1,
        num_cpus,
    ) by {
        lemma_rec_unaffected(m[q], q, pv, infos, bn, bc, num_cpus);
    }
}

/// Having folded a whole row in, the frontier moves to the start of the next
/// row.
proof fn lemma_bounds_shift(
    lcores: Map<u16, LCore>,
    packages: Map<u16, Package>,
    pv: Seq<Seq<Option<ProbeResult>>>,
    infos: Seq<Option<HardwareInfo>>,
    bn: int,
    num_cpus: int,
)
    requires
        0 <= bn < pv.len(),
        pv[bn].len() == num_cpus,
        inv_lcores(lcores, pv, bn, num_cpus),
        inv_packages(packages, pv, infos, bn, num_cpus, num_cpus),
    ensures
        inv_lcores(lcores, pv, bn + 1, 0),
        inv_packages(packages, pv, infos, bn + 1, 0, num_cpus),
{
    assert forall|n: int, c: int|
        #[trigger] discovered(pv, n, c) implies (before(n, c, bn, num_cpus) <==> before(
        n,
        c,
        bn + 1,
        0,
    )) by {
        if n == bn {
            assert(c < pv[bn].len());
        }
    }
    assert forall|c: u16| #[trigger] lcores.contains_key(c) implies exists|n: int|
        discovered(pv, n, c as int) && before(n, c as int, bn + 1, 0) by {
        let n = choose|n: int| discovered(pv, n, c as int) && before(n, c as int, bn, num_cpus);
        assert(discovered(pv, n, c as int) && before(n, c as int, bn + 1, 0));
    }
    assert forall|p: u16| #[trigger] packages.contains_key(p) implies exists|n: int, c: int|
        discovered(pv, n, c) && before(n, c, bn + 1, 0) && probe_package(pv, n, c) == p by {
        let (n, c) = choose|n: int, c: int|
            discovered(pv, n, c) && before(n, c, bn, num_cpus) && probe_package(pv, n, c) == p;
        assert(discovered(pv, n, c) && before(n, c, bn + 1, 0) && probe_package(pv, n, c) == p);
    }
    assert forall|q: u16| #[trigger] packages.contains_key(q) implies pkg_rec_ok(
        packages[q],
        q,
        pv,
        infos,
        bn + 1,
        0,
        num_cpus,
    ) by {
        let pk = packages[q];
        assert(pkg_rec_ok(pk, q, pv, infos, bn, num_cpus, num_cpus));
        let (n0, c0) = choose|n0: int, c0: int|
            #[trigger] first_occurrence(pv, q, n0, c0) && before(n0, c0, bn, num_cpus)
                && pk.node_id == (n0 as u16) && infos[c0] is Some && pk.cpu_info
                == infos[c0]->Some_0;
        assert(first_occurrence(pv, q, n0, c0) && before(n0, c0, bn + 1, 0) && pk.node_id == (
        n0 as u16) && infos[c0] is Some && pk.cpu_info == infos[c0]->Some_0);
        assert forall|c: int| 0 <= c < num_cpus implies (#[trigger] bm_contains(pk.lcores@, c)
            <==> exists|n: int|
            discovered(pv, n, c) && before(n, c, bn + 1, 0) && probe_package(pv, n, c) == q) by {
            if exists|n: int|
                discovered(pv, n, c) && before(n, c, bn + 1, 0) && probe_package(pv, n, c) == q {
                let n = choose|n: int|
                    discovered(pv, n, c) && before(n, c, bn + 1, 0) && probe_package(pv, n, c)
                        == q;
                assert(discovered(pv, n, c) && before(n, c, bn, num_cpus) && probe_package(
                    pv,
                    n,
                    c,
                ) == q);
                assert(bm_contains(pk.lcores@, c));
            }
            if bm_contains(pk.lcores@, c) {
                let n = choose|n: int|
                    discovered(pv, n, c) && before(n, c, bn, num_cpus) && probe_package(pv, n, c)
                        == q;
                assert(discovered(pv, n, c) && before(n, c, bn + 1, 0) && probe_package(pv, n, c)
                    == q);
            }
        }
    }
}

/// With every row folded in, the partial invariants say exactly that the
/// topology models the probe table.
proof fn lemma_build_final(
    t: Topology,
    pv: Seq<Seq<Option<ProbeResult>>>,
    infos: Seq<Option<HardwareInfo>>,
    num_cpus: u16,
    num_nodes: u16,
)
    requires
        probes_shaped(pv, num_nodes as int, num_cpus as int),
        unique_node_owner(pv),
        t.lcores@.dom().finite(),
        inv_nodes(t.nodes@, pv, num_cpus as int, num_nodes as int),
        inv_lcores(t.lcores@, pv, num_nodes as int, 0),
        inv_packages(t.packages@, pv, infos, num_nodes as int, 0, num_cpus as int),
        t.nodes@.len() == num_nodes,
        t.packages@.len() <= t.lcores@.len(),
    ensures
        t.models(pv, infos, num_cpus, num_nodes),
        t.wf(),
        reps_identified(pv, infos),
{
    assert forall|n: int, c: int| #[trigger] discovered(pv, n, c) implies before(
        n,
        c,
        num_nodes as int,
        0,
    ) && 0 <= c < num_cpus by {
        assert(pv[n].len() == num_cpus);
    }
    assert forall|c: u16| #[trigger] t.lcores@.contains_key(c) implies exists|n: int|
        discovered(pv, n, c as int) by {
        let n = choose|n: int|
            discovered(pv, n, c as int) && before(n, c as int, num_nodes as int, 0);
        assert(discovered(pv, n, c as int));
    }
    assert forall|p: u16| #[trigger] t.packages@.contains_key(p) implies exists|n: int, c: int|
        discovered(pv, n, c) && probe_package(pv, n, c) == p by {
        let (n, c) = choose|n: int, c: int|
            discovered(pv, n, c) && before(n, c, num_nodes as int, 0) && probe_package(pv, n, c)
                == p;
        assert(discovered(pv, n, c) && probe_package(pv, n, c) == p);
    }
    assert forall|p: u16, n: int, c: int| #[trigger] first_occurrence(pv, p, n, c) implies {
        &&& t.packages@.contains_key(p)
        &&& t.packages@[p].node_id == n as u16
        &&& infos[c] is Some
        &&& t.packages@[p].cpu_info == infos[c]->Some_0
    } by {
        assert(discovered(pv, n, c));
        assert(t.packages@.contains_key(p));
        let pk = t.packages@[p];
        assert(pkg_rec_ok(pk, p, pv, infos, num_nodes as int, 0, num_cpus as int));
        let (n0, c0) = choose|n0: int, c0: int|
            #[trigger] first_occurrence(pv, p, n0, c0) && before(n0, c0, num_nodes as int, 0)
                && pk.node_id == (n0 as u16) && infos[c0] is Some && pk.cpu_info
                == infos[c0]->Some_0;
        assert(first_occurrence(pv, p, n0, c0));
        assert(!before(n0, c0, n, c));
        assert(!before(n, c, n0, c0));
        assert(n0 == n && c0 == c);
    }
    assert forall|p: u16| #[trigger] t.packages@.contains_key(p) implies {
        let pk = t.packages@[p];
        &&& pk.package_id == p
        &&& pk.lcores@.len() == num_cpus
        &&& forall|c: int|
            #![trigger bm_contains(pk.lcores@, c)]
            0 <= c < num_cpus ==> (bm_contains(pk.lcores@, c) <==> exists|n: int|
                discovered(pv, n, c) && probe_package(pv, n, c) == p)
    } by {
        let pk = t.packages@[p];
        assert(pkg_rec_ok(pk, p, pv, infos, num_nodes as int, 0, num_cpus as int));
        assert forall|c: int| 0 <= c < num_cpus implies (#[trigger] bm_contains(pk.lcores@, c)
            <==> exists|n: int| discovered(pv, n, c) && probe_package(pv, n, c) == p) by {
            if bm_contains(pk.lcores@, c) {
                let n = choose|n: int|
                    discovered(pv, n, c) && before(n, c, num_nodes as int, 0) && probe_package(
                        pv,
                        n,
                        c,
                    ) == p;
                assert(discovered(pv, n, c) && probe_package(pv, n, c) == p);
            }
            if exists|n: int| discovered(pv, n, c) && probe_package(pv, n, c) == p {
                let n = choose|n: int| discovered(pv, n, c) && probe_package(pv, n, c) == p;
                assert(discovered(pv, n, c) && before(n, c, num_nodes as int, 0)
                    && probe_package(pv, n, c) == p);
                assert(bm_contains(pk.lcores@, c));
            }
        }
    }
    assert forall|c: u16| #[trigger] t.lcores@.contains_key(c) implies (c as int) < num_cpus by {
        let n = choose|n: int|
            discovered(pv, n, c as int) && before(n, c as int, num_nodes as int, 0);
        assert(discovered(pv, n, c as int));
    }
    lemma_map_keys_bound(t.lcores@, num_cpus as int);
    assert(t.models(pv, infos, num_cpus, num_nodes));
    assert forall|p: u16, n: int, c: int|
        #[trigger] first_occurrence(pv, p, n, c) implies infos[c] is Some by {
        assert(discovered(pv, n, c));
        assert(t.packages@.contains_key(p));
    }
    lemma_models_implies_wf(t, pv, infos, num_cpus, num_nodes);
}

/// Cross-reference consistency: resolving a discovered logical core to its

/// Folds a probe table and the per-core identification records into the
/// three maps of the model, node by node and core by core: exactly the
/// discovery walk over the enumeration tree, with the reads already done.
///
/// Fails exactly when some package's first observed core has no
/// identification record, naming such a core; a package without
/// identification would be unusable, so no model is produced.
pub fn build(
    num_cpus: u16,
    num_nodes: u16,
    probes: &Vec<Vec<Option<ProbeResult>>>,
    infos: &Vec<Option<HardwareInfo>>,
) -> (r: Result<Topology, BuildError>)
    requires
        probes_shaped(probes_view(probes@), num_nodes as int, num_cpus as int),
        unique_node_owner(probes_view(probes@)),
        infos@.len() == num_cpus,
    ensures
        (r is Ok) <==> reps_identified(probes_view(probes@), infos@),
        r matches Ok(t) ==> t.wf() && t.models(probes_view(probes@), infos@, num_cpus, num_nodes),
        r matches Err(e) ==> (e.lcore_id as int) < num_cpus && infos@[e.lcore_id as int] is None
            && exists|p: u16, n: int| #[trigger] first_occurrence(
            probes_view(probes@),
            p,
            n,
            e.lcore_id as int,
        ),
{
    let ghost pv = probes_view(probes@);
    proof {
        assert(forall|n: int| 0 <= n < pv.len() ==> pv[n] == #[trigger] probes@[n]@);
    }
    let mut packages: HashMap<u16, Package> = HashMap::new();
    let mut lcores: HashMap<u16, LCore> = HashMap::new();
    let mut nodes: HashMap<u16, Node> = HashMap::new();

    let mut node_id: u16 = 0;
    while node_id < num_nodes
        invariant
            probes_shaped(pv, num_nodes as int, num_cpus as int),
            unique_node_owner(pv),
            pv == probes_view(probes@),
            infos@.len() == num_cpus,
            node_id <= num_nodes,
            inv_nodes(nodes@, pv, num_cpus as int, node_id as int),
            inv_lcores(lcores@, pv, node_id as int, 0),
            inv_packages(packages@, pv, infos@, node_id as int, 0, num_cpus as int),
            nodes@.len() == node_id,
            packages@.len() <= lcores@.len(),
        decreases num_nodes - node_id,
    {
        let ghost bn = node_id as int;
        let mut node_bm = BitMap::with_capacity(num_cpus as usize);
        let mut lcore_id: u16 = 0;
        while lcore_id < num_cpus
            invariant
                probes_shaped(pv, num_nodes as int, num_cpus as int),
                unique_node_owner(pv),
                pv == probes_view(probes@),
                infos@.len() == num_cpus,
                bn == node_id as int,
                node_id < num_nodes,
                lcore_id <= num_cpus,
                inv_nodes(nodes@, pv, num_cpus as int, bn),
                inv_lcores(lcores@, pv, bn, lcore_id as int),
                inv_packages(packages@, pv, infos@, bn, lcore_id as int, num_cpus as int),
                node_bm@.len() == num_cpus,
                forall|c: int|
                    #![trigger bm_contains(node_bm@, c)]
                    0 <= c < num_cpus ==> (bm_contains(node_bm@, c) <==> (c < lcore_id
                        && discovered(pv, bn, c))),
                nodes@.len() == node_id,
                packages@.len() <= lcores@.len(),
            decreases num_cpus - lcore_id,
        {
            let ghost bc = lcore_id as int;
            proof {
                assert(probes@.len() == num_nodes);
                assert(pv[bn] == probes@[bn]@);
                assert(probes@[bn]@.len() == num_cpus);
            }
            let pr_opt = probes[node_id as usize][lcore_id as usize];
            proof {
                assert(pv[bn][bc] == pr_opt);
            }
            match pr_opt {
                Some(pr) => {
                    proof {
                        assert(discovered(pv, bn, bc));
                        assert(probe_package(pv, bn, bc) == pr.package_id);
                        assert(probe_core(pv, bn, bc) == pr.core_id);
                        // the core was not seen before: it has no directory
                        // under any earlier node, nor earlier in this row
                        assert(!lcores@.contains_key(lcore_id)) by {
                            if lcores@.contains_key(lcore_id) {
                                let n2 = choose|n2: int|
                                    discovered(pv, n2, bc) && before(n2, bc, bn, bc);
                                assert(discovered(pv, n2, bc));
                                assert(n2 == bn);
                            }
                        }
                    }
                    let rec = LCore {
                        package_id: pr.package_id,
                        node_id,
                        core_id: pr.core_id,
                        lcore_id,
                    };
                    lcores.insert(lcore_id, rec);
                    proof {
                        assert(lcore_rec(pv, bn, bc) == rec);
                        assert(inv_lcores(lcores@, pv, bn, bc + 1)) by {
                            assert forall|n: int, c: int|
                                #[trigger] discovered(pv, n, c) && before(
                                    n,
                                    c,
                                    bn,
                                    bc + 1,
                                ) implies lcores@.contains_key(c as u16) && lcores@[c as u16]
                                == lcore_rec(pv, n, c) by {
                                if n == bn && c == bc {
                                } else {
                                    assert(before(n, c, bn, bc));
                                    if c == bc {
                                        assert(n == bn);
                                    }
                                }
                            }
                        }
                    }
                    let ghost m_pre = packages@;
                    match packages.remove(&pr.package_id) {
                        Some(mut pkg) => {
                            let ghost pkg0 = pkg;
                            pkg.lcores.set(lcore_id as usize);
                            packages.insert(pr.package_id, pkg);
                            proof {
                                assert(packages@ =~= m_pre.insert(pr.package_id, pkg));
                                lemma_step_existing_package(
                                    m_pre,
                                    packages@,
                                    pkg0,
                                    pkg,
                                    pv,
                                    infos@,
                                    bn,
                                    bc,
                                    num_cpus as int,
                                );
                            }
                        },
                        None => {
                            proof {
                                assert(packages@ =~= m_pre);
                            }
                            match infos[lcore_id as usize] {
                                Some(hw) => {
                                    let mut pbm = BitMap::with_capacity(num_cpus as usize);
                                    let ghost pbm0 = pbm@;
                                    pbm.set(lcore_id as usize);
                                    proof {
                                        assert forall|c: int| 0 <= c < num_cpus implies (
                                        #[trigger] bm_contains(pbm@, c) <==> c == bc) by {
                                            assert(pbm@ == pbm0.update(bc, true));
                                            if c != bc {
                                                assert(!bm_contains(pbm0, c));
                                            }
                                        }
                                    }
                                    let pkg = Package {
                                        package_id: pr.package_id,
                                        node_id,
                                        cpu_info: hw,
                                        lcores: pbm,
                                    };
                                    packages.insert(pr.package_id, pkg);
                                    proof {
                                        lemma_step_new_package(
                                            m_pre,
                                            packages@,
                                            pkg,
                                            pv,
                                            infos@,
                                            bn,
                                            bc,
                                            num_cpus as int,
                                        );
                                    }
                                },
                                None => {
                                    proof {
                                        assert(first_occurrence(pv, pr.package_id, bn, bc)) by {
                                            assert forall|n2: int, c2: int|
                                                #[trigger] discovered(pv, n2, c2) && probe_package(
                                                    pv,
                                                    n2,
                                                    c2,
                                                ) == pr.package_id implies !before(
                                                n2,
                                                c2,
                                                bn,
                                                bc,
                                            ) by {
                                                if before(n2, c2, bn, bc) {
                                                    assert(m_pre.contains_key(pr.package_id));
                                                }
                                            }
                                        }
                                        assert(!reps_identified(pv, infos@));
                                    }
                                    return Err(BuildError { lcore_id });
                                },
                            }
                        },
                    }
                    let ghost nb0 = node_bm@;
                    node_bm.set(lcore_id as usize);
                    proof {
                        assert forall|c: int| 0 <= c < num_cpus implies (#[trigger] bm_contains(
                            node_bm@,
                            c,
                        ) <==> (c < lcore_id + 1 && discovered(pv, bn, c))) by {
                            assert(node_bm@ == nb0.update(bc, true));
                            if c != bc {
                                assert(bm_contains(node_bm@, c) == bm_contains(nb0, c));
                            }
                        }
                    }
                },
                None => {
                    proof {
                        assert(!discovered(pv, bn, bc));
                        assert(inv_lcores(lcores@, pv, bn, bc + 1)) by {
                            assert forall|n: int, c: int|
                                #[trigger] discovered(pv, n, c) && before(
                                    n,
                                    c,
                                    bn,
                                    bc + 1,
                                ) implies lcores@.contains_key(c as u16) && lcores@[c as u16]
                                == lcore_rec(pv, n, c) by {
                                assert(!(n == bn && c == bc));
                                assert(before(n, c, bn, bc));
                            }
                        }
                        lemma_step_undiscovered(
                            packages@,
                            pv,
                            infos@,
                            bn,
                            bc,
                            num_cpus as int,
                        );
                        assert forall|c: int| 0 <= c < num_cpus implies (#[trigger] bm_contains(
                            node_bm@,
                            c,
                        ) <==> (c < lcore_id + 1 && discovered(pv, bn, c))) by {
                            if c == bc {
                                assert(!discovered(pv, bn, bc));
                            }
                        }
                    }
                },
            }
            lcore_id += 1;
        }
        let nd = Node { node_id, lcores: node_bm };
        proof {
            assert(!nodes@.contains_key(node_id));
        }
        nodes.insert(node_id, nd);
        proof {
            assert(inv_nodes(nodes@, pv, num_cpus as int, bn + 1)) by {
                assert forall|n: u16| #[trigger] nodes@.contains_key(n) implies {
                    let ndd = nodes@[n];
                    &&& ndd.node_id == n
                    &&& ndd.lcores@.len() == num_cpus
                    &&& forall|c: int|
                        #![trigger bm_contains(ndd.lcores@, c)]
                        #![trigger discovered(pv, n as int, c)]
                        0 <= c < num_cpus ==> (bm_contains(ndd.lcores@, c) <==> discovered(
                            pv,
                            n as int,
                            c,
                        ))
                } by {
                    if n == node_id {
                        assert(nodes@[n] == nd);
                    }
                }
            }
            lemma_bounds_shift(lcores@, packages@, pv, infos@, bn, num_cpus as int);
        }
        node_id += 1;
    }
    let t = Topology { packages, lcores, nodes };
    proof {
        lemma_build_final(t, pv, infos@, num_cpus, num_nodes);
    }
    Ok(t)
}

/// The ids marked present in a member bit sequence, as a set.
pub open spec fn members_of(bm: Seq<bool>) -> Set<u16> {
    Set::new(|c: u16| bm_contains(bm, c as int))
}

/// How many cores the node with id `k` holds; zero when there is no such
/// node.
pub open spec fn node_member_count(t: Topology, k: int) -> nat {
    if t.nodes@.contains_key(k as u16) {
        members_of(t.nodes@[k as u16].lcores@).len()
    } else {
        0
    }
}

/// The node member counts summed over all node ids below `k`.
pub open spec fn sum_node_member_counts(t: Topology, k: int) -> nat
    decreases k,
{
    if k <= 0 {
        0
    } else {
        sum_node_member_counts(t, k - 1) + node_member_count(t, k - 1)
    }
}

/// How many cores the package with id `k` owns; zero when there is no such
/// package.
pub open spec fn package_member_count(t: Topology, k: int) -> nat {
    if t.packages@.contains_key(k as u16) {
        members_of(t.packages@[k as u16].lcores@).len()
    } else {
        0
    }
}

/// The package member counts summed over all package ids below `k`.
pub open spec fn sum_package_member_counts(t: Topology, k: int) -> nat
    decreases k,
{
    if k <= 0 {
        0
    } else {
        sum_package_member_counts(t, k - 1) + package_member_count(t, k - 1)
    }
}

/// In a consistent topology, a node's member set is exactly the set of
/// discovered cores that name it as their node.
proof fn lemma_members_eq_filter_node(t: Topology, n: u16)
    requires
        t.wf(),
        t.lcores@.dom().finite(),
        t.nodes@.contains_key(n),
    ensures
        members_of(t.nodes@[n].lcores@) =~= t.lcores@.dom().filter(
            |c: u16| t.lcores@[c].node_id == n,
        ),
        members_of(t.nodes@[n].lcores@).finite(),
{
    let f = |c: u16| t.lcores@[c].node_id == n;
    assert forall|c: u16| #[trigger] members_of(t.nodes@[n].lcores@).contains(c) implies t.lcores@
        .dom().filter(f).contains(c) by {
        assert(bm_contains(t.nodes@[n].lcores@, c as int));
    }
    assert forall|c: u16| #[trigger] t.lcores@.dom().filter(f).contains(c) implies members_of(
        t.nodes@[n].lcores@,
    ).contains(c) by {
        assert(t.lcores@.contains_key(c));
    }
    t.lcores@.dom().lemma_len_filter(f);
}

/// In a consistent topology, a package's member set is exactly the set of
/// discovered cores that name it as their package.
proof fn lemma_members_eq_filter_package(t: Topology, p: u16)
    requires
        t.wf(),
        t.lcores@.dom().finite(),
        t.packages@.contains_key(p),
    ensures
        members_of(t.packages@[p].lcores@) =~= t.lcores@.dom().filter(
            |c: u16| t.lcores@[c].package_id == p,
        ),
        members_of(t.packages@[p].lcores@).finite(),
{
    let f = |c: u16| t.lcores@[c].package_id == p;
    assert forall|c: u16| #[trigger] members_of(t.packages@[p].lcores@).contains(c) implies t
        .lcores@.dom().filter(f).contains(c) by {
        assert(bm_contains(t.packages@[p].lcores@, c as int));
    }
    assert forall|c: u16| #[trigger] t.lcores@.dom().filter(f).contains(c) implies members_of(
        t.packages@[p].lcores@,
    ).contains(c) by {
        assert(t.lcores@.contains_key(c));
    }
    t.lcores@.dom().lemma_len_filter(f);
}

proof fn lemma_sum_node_members_upto(t: Topology, k: int)
    requires
        t.wf(),
        t.lcores@.dom().finite(),
        0 <= k <= 65536,
    ensures
        t.lcores@.dom().filter(|c: u16| (t.lcores@[c].node_id as int) < k).finite(),
        sum_node_member_counts(t, k) == t.lcores@.dom().filter(
            |c: u16| (t.lcores@[c].node_id as int) < k,
        ).len(),
    decreases k,
{
    let dom = t.lcores@.dom();
    let u = dom.filter(|c: u16| (t.lcores@[c].node_id as int) < k);
    dom.lemma_len_filter(|c: u16| (t.lcores@[c].node_id as int) < k);
    if k == 0 {
        assert(u =~= Set::empty());
    } else {
        lemma_sum_node_members_upto(t, k - 1);
        let u0 = dom.filter(|c: u16| (t.lcores@[c].node_id as int) < k - 1);
        let n = (k - 1) as u16;
        if t.nodes@.contains_key(n) {
            let m = members_of(t.nodes@[n].lcores@);
            lemma_members_eq_filter_node(t, n);
            assert(u =~= u0 + m) by {
                assert forall|c: u16| #[trigger] u.contains(c) implies (u0 + m).contains(c) by {
                    if t.lcores@[c].node_id == n {
                        assert(t.lcores@.dom().filter(
                            |c2: u16| t.lcores@[c2].node_id == n,
                        ).contains(c));
                    }
                }
                assert forall|c: u16| #[trigger] (u0 + m).contains(c) implies u.contains(c) by {
                    if m.contains(c) {
                        assert(t.lcores@.dom().filter(
                            |c2: u16| t.lcores@[c2].node_id == n,
                        ).contains(c));
                    }
                }
            }
            assert(u0.disjoint(m)) by {
                assert forall|c: u16| #[trigger] u0.contains(c) implies !m.contains(c) by {
                    if m.contains(c) {
                        assert(t.lcores@.dom().filter(
                            |c2: u16| t.lcores@[c2].node_id == n,
                        ).contains(c));
                    }
                }
            }
            vstd::set_lib::lemma_set_disjoint_lens(u0, m);
        } else {
            assert(u =~= u0) by {
                assert forall|c: u16| #[trigger] u.contains(c) implies u0.contains(c) by {
                    assert(t.lcores@.contains_key(c));
                    assert(t.nodes@.contains_key(t.lcores@[c].node_id));
                }
            }
        }
    }
}

proof fn lemma_sum_package_members_upto(t: Topology, k: int)
    requires
        t.wf(),
        t.lcores@.dom().finite(),
        0 <= k <= 65536,
    ensures
        t.lcores@.dom().filter(|c: u16| (t.lcores@[c].package_id as int) < k).finite(),
        sum_package_member_counts(t, k) == t.lcores@.dom().filter(
            |c: u16| (t.lcores@[c].package_id as int) < k,
        ).len(),
    decreases k,
{
    let dom = t.lcores@.dom();
    let u = dom.filter(|c: u16| (t.lcores@[c].package_id as int) < k);
    dom.lemma_len_filter(|c: u16| (t.lcores@[c].package_id as int) < k);
    if k == 0 {
        assert(u =~= Set::empty());
    } else {
        lemma_sum_package_members_upto(t, k - 1);
        let u0 = dom.filter(|c: u16| (t.lcores@[c].package_id as int) < k - 1);
        let p = (k - 1) as u16;
        if t.packages@.contains_key(p) {
            let m = members_of(t.packages@[p].lcores@);
            lemma_members_eq_filter_package(t, p);
            assert(u =~= u0 + m) by {
                assert forall|c: u16| #[trigger] u.contains(c) implies (u0 + m).contains(c) by {
                    if t.lcores@[c].package_id == p {
                        assert(t.lcores@.dom().filter(
                            |c2: u16| t.lcores@[c2].package_id == p,
                        ).contains(c));
                    }
                }
                assert forall|c: u16| #[trigger] (u0 + m).contains(c) implies u.contains(c) by {
                    if m.contains(c) {
                        assert(t.lcores@.dom().filter(
                            |c2: u16| t.lcores@[c2].package_id == p,
                        ).contains(c));
                    }
                }
            }
            assert(u0.disjoint(m)) by {
                assert forall|c: u16| #[trigger] u0.contains(c) implies !m.contains(c) by {
                    if m.contains(c) {
                        assert(t.lcores@.dom().filter(
                            |c2: u16| t.lcores@[c2].package_id == p,
                        ).contains(c));
                    }
                }
            }
            vstd::set_lib::lemma_set_disjoint_lens(u0, m);
        } else {
            assert(u =~= u0) by {
                assert forall|c: u16| #[trigger] u.contains(c) implies u0.contains(c) by {
                    assert(t.lcores@.contains_key(c));
                    assert(t.packages@.contains_key(t.lcores@[c].package_id));
                }
            }
        }
    }
}

/// Completeness: the member counts of all nodes sum to the total number of
/// discovered logical cores — no core is double-counted or dropped.
pub proof fn lemma_node_member_count_sum(t: Topology)
    requires
        t.wf(),
        t.lcores@.dom().finite(),
    ensures
        sum_node_member_counts(t, 65536) == t.lcores@.len(),
{
    lemma_sum_node_members_upto(t, 65536);
    assert(t.lcores@.dom().filter(|c: u16| (t.lcores@[c].node_id as int) < 65536) =~= t.lcores@
        .dom());
}

/// Completeness: the member counts of all packages sum to the total number
/// of discovered logical cores — no core is double-counted or dropped.
pub proof fn lemma_package_member_count_sum(t: Topology)
    requires
        t.wf(),
        t.lcores@.dom().finite(),
    ensures
        sum_package_member_counts(t, 65536) == t.lcores@.len(),
{
    lemma_sum_package_members_upto(t, 65536);
    assert(t.lcores@.dom().filter(|c: u16| (t.lcores@[c].package_id as int) < 65536) =~= t.lcores@
        .dom());
}

/// Cross-reference consistency: resolving a discovered logical core to its
/// owning node or package lands on an entry whose own id equals the id the
/// core carries.
pub proof fn lemma_cross_reference_consistency(t: Topology, c: u16)
    requires
        t.wf(),
        t.lcores@.contains_key(c),
    ensures
        t.nodes@.contains_key(t.lcores@[c].node_id),
        t.nodes@[t.lcores@[c].node_id].node_id == t.lcores@[c].node_id,
        t.packages@.contains_key(t.lcores@[c].package_id),
        t.packages@[t.lcores@[c].package_id].package_id == t.lcores@[c].package_id,
{
}

/// Membership agreement: a core id marked present in a node's member set
/// belongs to a discovered core whose node id is that node's; symmetrically
/// for packages.
pub proof fn lemma_membership_agreement(t: Topology, n: u16, p: u16, c: int)
    requires
        t.wf(),
    ensures
        t.nodes@.contains_key(n) && bm_contains(t.nodes@[n].lcores@, c) ==> {
            &&& t.lcores@.contains_key(c as u16)
            &&& c == t.lcores@[c as u16].lcore_id
            &&& t.lcores@[c as u16].node_id == t.nodes@[n].node_id
        },
        t.packages@.contains_key(p) && bm_contains(t.packages@[p].lcores@, c) ==> {
            &&& t.lcores@.contains_key(c as u16)
            &&& c == t.lcores@[c as u16].lcore_id
            &&& t.lcores@[c as u16].package_id == t.packages@[p].package_id
        },
{
}

} // verus!
