use cpu::bitmap::BitMap;
use cpu::topology::build;
use cpu::topology::HardwareInfo;
use cpu::topology::ProbeResult;
use cpu::topology::Topology;

fn info(vendor: i32) -> HardwareInfo {
    HardwareInfo {
        vendor,
        num_cores: 2,
        num_logical_cpus: 2,
        total_logical_cpus: 4,
    }
}

fn probe(package_id: u16, core_id: u16) -> Option<ProbeResult> {
    Some(ProbeResult { package_id, core_id })
}

/// The probe table of the reference machine: cpu range 0-3, node range 0-1,
/// with (node0,cpu0), (node0,cpu1), (node1,cpu2), (node1,cpu3) present,
/// package ids 0,0,1,1 and core ids 0,1,0,1.
fn reference_probes() -> Vec<Vec<Option<ProbeResult>>> {
    vec![
        vec![probe(0, 0), probe(0, 1), None, None],
        vec![None, None, probe(1, 0), probe(1, 1)],
    ]
}

fn reference_infos() -> Vec<Option<HardwareInfo>> {
    vec![Some(info(10)), Some(info(11)), Some(info(12)), Some(info(13))]
}

fn reference_topology() -> Topology {
    build(4, 2, &reference_probes(), &reference_infos()).unwrap()
}

fn assert_members(bm: &BitMap, capacity: usize, present: &[usize]) {
    assert_eq!(bm.capacity(), capacity);
    for i in 0..capacity {
        assert_eq!(bm.test(i), present.contains(&i), "bit {}", i);
    }
}

#[test]
fn reference_counts() {
    let topo = reference_topology();
    assert_eq!(topo.max_num_nodes(), 2);
    assert_eq!(topo.max_num_packages(), 2);
    assert_eq!(topo.max_num_lcores(), 4);
}

#[test]
fn reference_node_members() {
    let topo = reference_topology();
    assert_members(topo.lcores_of_node(0).unwrap(), 4, &[0, 1]);
    assert_members(topo.lcores_of_node(1).unwrap(), 4, &[2, 3]);
}

#[test]
fn reference_package_members() {
    let topo = reference_topology();
    assert_members(topo.lcores_of_package(0).unwrap(), 4, &[0, 1]);
    assert_members(topo.lcores_of_package(1).unwrap(), 4, &[2, 3]);
}

#[test]
fn reference_lcore_fields() {
    let topo = reference_topology();
    for (lcore_id, node_id, package_id, core_id) in
        [(0u16, 0u16, 0u16, 0u16), (1, 0, 0, 1), (2, 1, 1, 0), (3, 1, 1, 1)]
    {
        let lc = topo.lcore(lcore_id).unwrap();
        assert_eq!(lc.lcore_id, lcore_id);
        assert_eq!(lc.node_id, node_id);
        assert_eq!(lc.package_id, package_id);
        assert_eq!(lc.core_id, core_id);
    }
}

#[test]
fn lookup_one_past_range_is_absent() {
    let topo = reference_topology();
    assert!(topo.lcore(4).is_none());
    assert!(topo.node_of_lcore(4).is_none());
    assert!(topo.package_of_lcore(4).is_none());
    assert!(topo.node(2).is_none());
    assert!(topo.package(2).is_none());
    assert!(topo.lcores_of_node(2).is_none());
    assert!(topo.lcores_of_package(9).is_none());
}

#[test]
fn test_topology() {
    // the cross-lookup round trip over every discovered entity
    let topo = reference_topology();
    let num_nodes = topo.max_num_nodes();
    let num_packages = topo.max_num_packages();
    let num_cpus = topo.max_num_lcores();

    for node_id in 0..num_nodes {
        let _ = topo.node(node_id).unwrap();
        let lcores = topo.lcores_of_node(node_id).unwrap();
        for lcore_id in 0..num_cpus as usize {
            if !lcores.test(lcore_id) {
                continue;
            }
            let lcore = topo.lcore(lcore_id as u16).unwrap();
            assert_eq!(lcore.node_id, node_id);
            assert_eq!(lcore.lcore_id, lcore_id as u16);
            assert_eq!(
                lcore.package_id,
                topo.package_of_lcore(lcore_id as u16).unwrap().package_id
            );
        }

        for package_id in 0..num_packages {
            let package = topo.package(package_id).unwrap();
            let lcores = topo.lcores_of_package(package_id).unwrap();
            for lcore_id in 0..num_cpus as usize {
                if !lcores.test(lcore_id) {
                    continue;
                }
                let lcore = topo.lcore(lcore_id as u16).unwrap();
                assert_eq!(lcore.package_id, package.package_id);
                assert_eq!(lcore.lcore_id, lcore_id as u16);
                assert_eq!(
                    lcore.node_id,
                    topo.node_of_lcore(lcore_id as u16).unwrap().node_id
                );
            }
        }
    }
}

#[test]
fn completeness_counts() {
    let topo = reference_topology();
    let count_bits = |bm: &BitMap| {
        let mut n = 0u16;
        for i in 0..bm.capacity() {
            if bm.test(i) {
                n += 1;
            }
        }
        n
    };
    let mut node_total = 0u16;
    for node_id in 0..topo.max_num_nodes() {
        node_total += count_bits(topo.lcores_of_node(node_id).unwrap());
    }
    assert_eq!(node_total, topo.max_num_lcores());
    let mut package_total = 0u16;
    for package_id in 0..topo.max_num_packages() {
        package_total += count_bits(topo.lcores_of_package(package_id).unwrap());
    }
    assert_eq!(package_total, topo.max_num_lcores());
}

#[test]
fn package_info_captured_from_first_core() {
    let topo = reference_topology();
    // package 0 first observed at lcore 0, package 1 at lcore 2
    assert_eq!(topo.package(0).unwrap().cpu_info.vendor, 10);
    assert_eq!(topo.package(1).unwrap().cpu_info.vendor, 12);
    assert_eq!(topo.package(0).unwrap().node_id, 0);
    assert_eq!(topo.package(1).unwrap().node_id, 1);
    assert_eq!(topo.package_of_lcore(1).unwrap().cpu_info.vendor, 10);
}

#[test]
fn sparse_pair_not_modeled() {
    // cpu 1 has no topology directory under any node
    let probes = vec![vec![probe(0, 0), None, probe(0, 1)]];
    let infos = vec![Some(info(1)), Some(info(2)), Some(info(3))];
    let topo = build(3, 1, &probes, &infos).unwrap();
    assert_eq!(topo.max_num_lcores(), 2);
    assert!(topo.lcore(1).is_none());
    assert!(!topo.lcores_of_node(0).unwrap().test(1));
    assert!(!topo.lcores_of_package(0).unwrap().test(1));
    assert_eq!(topo.max_num_nodes(), 1);
}

#[test]
fn node_without_cores_still_present() {
    let probes = vec![vec![probe(0, 0)], vec![None]];
    let infos = vec![Some(info(1))];
    let topo = build(1, 2, &probes, &infos).unwrap();
    assert_eq!(topo.max_num_nodes(), 2);
    let empty = topo.lcores_of_node(1).unwrap();
    assert_members(empty, 1, &[]);
}

#[test]
fn missing_representative_info_fails() {
    let probes = vec![vec![probe(7, 0)]];
    let infos = vec![None];
    let err = match build(1, 1, &probes, &infos) {
        Ok(_) => panic!("build must fail without the representative's record"),
        Err(e) => e,
    };
    assert_eq!(err.lcore_id, 0);
}

#[test]
fn missing_info_on_non_representative_core_is_tolerated() {
    // both cores belong to package 0; only the first is its representative
    let probes = vec![vec![probe(0, 0), probe(0, 1)]];
    let infos = vec![Some(info(5)), None];
    let topo = build(2, 1, &probes, &infos).unwrap();
    assert_eq!(topo.max_num_lcores(), 2);
    assert_eq!(topo.package(0).unwrap().cpu_info.vendor, 5);
}

#[test]
fn rebuild_is_structurally_identical() {
    let a = reference_topology();
    let b = reference_topology();
    assert_eq!(a.max_num_nodes(), b.max_num_nodes());
    assert_eq!(a.max_num_packages(), b.max_num_packages());
    assert_eq!(a.max_num_lcores(), b.max_num_lcores());
    for lcore_id in 0..a.max_num_lcores() {
        assert_eq!(a.lcore(lcore_id), b.lcore(lcore_id));
    }
    for node_id in 0..a.max_num_nodes() {
        let ba = a.lcores_of_node(node_id).unwrap();
        let bb = b.lcores_of_node(node_id).unwrap();
        assert_eq!(ba.capacity(), bb.capacity());
        for i in 0..ba.capacity() {
            assert_eq!(ba.test(i), bb.test(i));
        }
    }
    for package_id in 0..a.max_num_packages() {
        assert_eq!(
            a.package(package_id).unwrap().cpu_info,
            b.package(package_id).unwrap().cpu_info
        );
        assert_eq!(
            a.package(package_id).unwrap().node_id,
            b.package(package_id).unwrap().node_id
        );
    }
}

#[test]
fn empty_machine() {
    let probes: Vec<Vec<Option<ProbeResult>>> = Vec::new();
    let infos: Vec<Option<HardwareInfo>> = Vec::new();
    let topo = build(0, 0, &probes, &infos).unwrap();
    assert_eq!(topo.max_num_nodes(), 0);
    assert_eq!(topo.max_num_packages(), 0);
    assert_eq!(topo.max_num_lcores(), 0);
    assert!(topo.lcore(0).is_none());
}

#[test]
fn bitmap_basics() {
    let mut bm = BitMap::with_capacity(8);
    assert_eq!(bm.capacity(), 8);
    for i in 0..8 {
        assert!(!bm.test(i));
    }
    bm.set(3);
    bm.set(7);
    assert!(bm.test(3));
    assert!(bm.test(7));
    assert!(!bm.test(0));
    assert!(!bm.test(8));
    assert!(!bm.test(1000));
}

#[test]
fn sparse_package_ids() {
    // package ids need not be dense or start at zero
    let probes = vec![vec![probe(3, 0), probe(10, 0)]];
    let infos = vec![Some(info(1)), Some(info(2))];
    let topo = build(2, 1, &probes, &infos).unwrap();
    assert_eq!(topo.max_num_packages(), 2);
    assert!(topo.package(0).is_none());
    assert_eq!(topo.package(3).unwrap().cpu_info.vendor, 1);
    assert_eq!(topo.package(10).unwrap().cpu_info.vendor, 2);
    assert_members(topo.lcores_of_package(3).unwrap(), 2, &[0]);
    assert_members(topo.lcores_of_package(10).unwrap(), 2, &[1]);
}

#[test]
fn package_spanning_nodes_keeps_first_node() {
    // a package observed under two nodes keeps the node of its first core
    let probes = vec![vec![probe(0, 0), None], vec![None, probe(0, 1)]];
    let infos = vec![Some(info(8)), Some(info(9))];
    let topo = build(2, 2, &probes, &infos).unwrap();
    assert_eq!(topo.max_num_packages(), 1);
    let pk = topo.package(0).unwrap();
    assert_eq!(pk.node_id, 0);
    assert_eq!(pk.cpu_info.vendor, 8);
    assert_members(topo.lcores_of_package(0).unwrap(), 2, &[0, 1]);
    assert_members(topo.lcores_of_node(0).unwrap(), 2, &[0]);
    assert_members(topo.lcores_of_node(1).unwrap(), 2, &[1]);
}
