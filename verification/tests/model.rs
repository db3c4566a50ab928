use psva4_model::classify::{classify, Verdict, VertexClass};
use psva4_model::constraints::{DistanceConstraints, DEFAULT_DISTANCE};
use psva4_model::faces::{default_constraints, link_faces};
use psva4_model::rebuild::{find_fault, fan_names, find_left_out, sweep_all};
use psva4_model::reconcile::{
    add_defaults, add_defaults_at, dangling_edges, drop_dangling, drop_edges, drop_self_loops,
    drop_strays, edge_in_graph, pick_edges, stray_edges,
};
use psva4_model::edge::{holds_face, holds_id, same_face, sort_edge, sort_face};
use psva4_model::graph::{add_arc, drop_all, is_linked, key_list, squash, squash_graph};
use psva4_model::rawmodel::{grid_id, RawVertex, Rawmodel};
use psva4_model::report::{ConstraintError, Diagnostic, StructuralError, TopoError};
use psva4_model::ring::{angle_code, order_ring, rotate_ring, spoke_targets, Spoke};
use psva4_model::sweep::{add_face, bridges, propose, settle, Continuity, Fan};
use psva4_model::topomodel::Topomodel;
use std::collections::HashMap;

#[test]
fn edges_and_faces_are_sorted() {
    assert_eq!(sort_edge(3, 9), [3, 9]);
    assert_eq!(sort_edge(9, 3), [3, 9]);
    assert_eq!(sort_edge(4, 4), [4, 4]);
    for f in [[1, 2, 3], [1, 3, 2], [2, 1, 3], [2, 3, 1], [3, 1, 2], [3, 2, 1]] {
        assert_eq!(sort_face(f[0], f[1], f[2]), [1, 2, 3]);
    }
    assert_eq!(sort_face(5, 5, 1), [1, 5, 5]);
}

#[test]
fn lists_are_searched() {
    let fs = vec![[1, 2, 3], [2, 3, 4]];
    assert!(holds_face(&fs, &[2, 3, 4]));
    assert!(!holds_face(&fs, &[1, 2, 4]));
    assert!(same_face(&[1, 2, 3], &[1, 2, 3]));
    assert!(!same_face(&[1, 2, 3], &[1, 3, 2]));
    assert!(holds_id(&vec![4, 5], 5));
    assert!(!holds_id(&vec![4, 5], 6));
    assert!(!holds_id(&vec![], 6));
}

#[test]
fn spokes_are_ordered_by_angle_and_ties_keep_their_order() {
    let turn = |to: u64, angle: i32| Spoke { to, angle };
    let ring = order_ring(&vec![turn(1, 30), turn(2, -5), turn(3, 30), turn(4, 7), turn(5, -5)]);
    assert_eq!(spoke_targets(&ring), vec![2, 5, 4, 1, 3]);
    assert_eq!(ring.iter().map(|s| s.angle).collect::<Vec<_>>(), vec![-5, -5, 7, 30, 30]);
    assert!(order_ring(&vec![]).is_empty());
    let ring = order_ring(&vec![turn(1, i32::MAX), turn(2, i32::MIN)]);
    assert_eq!(spoke_targets(&ring), vec![2, 1]);
}

#[test]
fn rings_turn_left() {
    assert_eq!(rotate_ring(&vec![1, 2, 3, 4], 0), vec![1, 2, 3, 4]);
    assert_eq!(rotate_ring(&vec![1, 2, 3, 4], 1), vec![2, 3, 4, 1]);
    assert_eq!(rotate_ring(&vec![1, 2, 3, 4], 3), vec![4, 1, 2, 3]);
    assert_eq!(rotate_ring(&vec![1, 2, 3, 4], 4), vec![1, 2, 3, 4]);
    assert_eq!(rotate_ring(&vec![], 0), Vec::<u64>::new());
}

#[test]
fn rings_are_classified() {
    let invalid = Verdict { class: VertexClass::Invalid, rotation: 0, multiple_gaps: false };
    assert_eq!(classify(&vec![], true), invalid);
    assert_eq!(classify(&vec![true], true), invalid);
    assert_eq!(
        classify(&vec![true, true], true),
        Verdict { class: VertexClass::Border, rotation: 1, multiple_gaps: false }
    );
    assert_eq!(
        classify(&vec![false, false], false),
        Verdict { class: VertexClass::Border, rotation: 0, multiple_gaps: false }
    );
    assert_eq!(
        classify(&vec![true, true, true], true),
        Verdict { class: VertexClass::Interior, rotation: 0, multiple_gaps: false }
    );
    assert_eq!(
        classify(&vec![true, false, true], false),
        Verdict { class: VertexClass::Border, rotation: 2, multiple_gaps: false }
    );
    assert_eq!(
        classify(&vec![true, true, false], false),
        Verdict { class: VertexClass::Border, rotation: 0, multiple_gaps: false }
    );
    assert_eq!(
        classify(&vec![false, true, true, false], false),
        Verdict { class: VertexClass::Border, rotation: 1, multiple_gaps: true }
    );
}

#[test]
fn arcs_are_appended_and_lists_squashed() {
    let mut graph = HashMap::new();
    add_arc(&mut graph, 1, 9);
    add_arc(&mut graph, 1, 4);
    add_arc(&mut graph, 1, 9);
    add_arc(&mut graph, 2, 1);
    assert_eq!(graph[&1], vec![9, 4, 9]);
    assert!(is_linked(&graph, 1, 4));
    assert!(!is_linked(&graph, 4, 1));
    assert!(!is_linked(&graph, 7, 1));
    squash_graph(&mut graph);
    assert_eq!(graph[&1], vec![4, 9]);
    assert_eq!(graph[&2], vec![1]);
    let mut keys = key_list(&graph);
    keys.sort();
    assert_eq!(keys, vec![1, 2]);
    assert_eq!(squash(&vec![5, 1, 5, 3, 1, 1]), vec![1, 3, 5]);
    assert_eq!(drop_all(&vec![5, 1, 5, 3], 5), vec![1, 3]);
    assert_eq!(drop_all(&vec![5, 1], 9), vec![5, 1]);
    assert_eq!(drop_all(&vec![5, 5], 5), Vec::<u64>::new());
}

#[test]
fn edges_are_added_in_both_directions() {
    let mut model = Rawmodel::new();
    model.add_neigh_raw([3, 1]);
    model.add_neigh_raw([3, 1]);
    model.add_neigh_raw([2, 3]);
    assert_eq!(model.neigh[&3], vec![1, 1, 2]);
    assert_eq!(model.neigh[&1], vec![3, 3]);
    model.squash_neigh();
    assert_eq!(model.neigh[&3], vec![1, 2]);
    assert_eq!(model.neigh[&1], vec![3]);
    assert_eq!(model.neigh[&2], vec![3]);
}

#[test]
fn continuity_by_graph_and_by_faces() {
    let mut graph = HashMap::new();
    graph.insert(1u64, vec![2u64, 3]);
    graph.insert(2, vec![3]);
    let by_graph = Continuity::Graph(&graph);
    assert!(by_graph.joins(9, 2, 3));
    assert!(!by_graph.joins(9, 3, 2));
    let fs = vec![[1, 2, 3]];
    let by_faces = Continuity::Faces(&fs);
    assert!(by_faces.joins(3, 2, 1));
    assert!(!by_faces.joins(4, 2, 1));
    assert_eq!(bridges(&by_faces, 1, &vec![2, 3, 4]), vec![true, false, false]);
    assert_eq!(bridges(&by_graph, 1, &vec![2, 3]), vec![true, false]);
}

#[test]
fn one_vertex_is_settled() {
    let mut graph = HashMap::new();
    graph.insert(2u64, vec![3u64]);
    graph.insert(3, vec![4]);
    graph.insert(4, vec![]);
    let how = Continuity::Graph(&graph);
    let turn = |to: u64, angle: i32| Spoke { to, angle };
    let fan = Fan { spokes: vec![turn(4, 5), turn(2, -3), turn(3, 1)], positive: false, undefined: false };
    let out = settle(1, &fan, &how);
    assert_eq!(out.sorted, vec![2, 3, 4]);
    assert_eq!(out.bridged, vec![true, true, false]);
    assert_eq!(out.verdict, Verdict { class: VertexClass::Border, rotation: 0, multiple_gaps: false });
    assert_eq!(out.ring, vec![2, 3, 4]);
    let mut faces = Vec::new();
    propose(1, &out.sorted, &out.bridged, &mut faces);
    propose(1, &out.sorted, &out.bridged, &mut faces);
    assert_eq!(faces, vec![[1, 2, 3], [1, 3, 4]]);
    add_face(&mut faces, [0, 1, 2]);
    add_face(&mut faces, [1, 2, 3]);
    assert_eq!(faces, vec![[1, 2, 3], [1, 3, 4], [0, 1, 2]]);
    let own = Fan { spokes: vec![turn(4, 5), turn(1, -3), turn(3, 1)], positive: false, undefined: false };
    let out = settle(1, &own, &how);
    assert_eq!(out.verdict.class, VertexClass::Invalid);
    assert_eq!(out.ring, vec![4, 1, 3]);
}

#[test]
fn constraint_table_keeps_what_it_is_given() {
    let mut dcs = DistanceConstraints::new();
    assert_eq!(dcs.insert([1, 2], 10), None);
    assert_eq!(dcs.insert([2, 1], 20), None);
    assert_eq!(dcs.insert([1, 2], 30), Some(10));
    assert_eq!(dcs.insert([u64::MAX, 0], 40), None);
    assert_eq!(dcs.insert([0, u64::MAX], 50), None);
    assert!(dcs.contains(&[2, 1]));
    assert!(!dcs.contains(&[2, 2]));
    assert_eq!(dcs.get(&[1, 2]), Some(30));
    assert_eq!(dcs.get(&[u64::MAX, 0]), Some(40));
    assert_eq!(dcs.get(&[0, u64::MAX]), Some(50));
    assert_eq!(dcs.get(&[3, 4]), None);
    let mut edges = dcs.edges();
    edges.sort();
    assert_eq!(edges, vec![[0, u64::MAX], [1, 2], [2, 1], [u64::MAX, 0]]);
    assert_eq!(dcs.remove(&[2, 1]), Some(20));
    assert_eq!(dcs.remove(&[2, 1]), None);
    dcs.clear();
    assert!(dcs.edges().is_empty());
}

#[test]
fn repair_removes_dangling_constraints_and_self_loops() {
    let mut model = Rawmodel::new();
    model.neigh.insert(1, vec![2, 1, 3, 1]);
    model.neigh.insert(2, vec![1]);
    model.neigh.insert(3, vec![3]);
    model.dcs.insert([1, 2], 5);
    model.dcs.insert([2, 2], 6);
    model.dcs.insert([2, 9], 7);
    model.dcs.insert([8, 1], 8);
    let mut report = model.fix();
    report.sort_by_key(|d| format!("{:?}", d));
    assert_eq!(
        report,
        vec![
            Diagnostic::Constraint(ConstraintError::DanglingEdge(2, 2)),
            Diagnostic::Constraint(ConstraintError::DanglingEdge(2, 9)),
            Diagnostic::Constraint(ConstraintError::DanglingEdge(8, 1)),
            Diagnostic::Vertex(StructuralError::SelfAdjacency(1)),
            Diagnostic::Vertex(StructuralError::SelfAdjacency(3)),
        ]
    );
    assert_eq!(model.dcs.edges(), vec![[1, 2]]);
    assert_eq!(model.neigh[&1], vec![2, 3]);
    assert_eq!(model.neigh[&2], vec![1]);
    assert_eq!(model.neigh[&3], Vec::<u64>::new());
    assert!(model.fix().is_empty());
    assert_eq!(model.neigh[&1], vec![2, 3]);
    assert_eq!(model.dcs.edges(), vec![[1, 2]]);
}

#[test]
fn vertex_listed_twice_in_its_own_list_is_taken_out() {
    let mut model = Rawmodel::new();
    model.neigh.insert(4, vec![4, 4]);
    model.neigh.insert(5, vec![4, 5, 4, 5, 5]);
    let mut report = model.fix();
    report.sort_by_key(|d| format!("{:?}", d));
    assert_eq!(
        report,
        vec![
            Diagnostic::Vertex(StructuralError::SelfAdjacency(4)),
            Diagnostic::Vertex(StructuralError::SelfAdjacency(5)),
        ]
    );
    assert_eq!(model.neigh[&4], Vec::<u64>::new());
    assert_eq!(model.neigh[&5], vec![4, 4]);
    assert!(model.fix().is_empty());
}

#[test]
fn model_is_copied() {
    let mut model = Rawmodel::new();
    model.add_neigh_raw([1, 2]);
    model.border.insert(7);
    model.border.insert(9);
    model.dcs.insert([1, 2], 5);
    model.add_face(3, 2, 1);
    model.name.insert("top".to_string(), 1);
    model.vs.insert(1, RawVertex { pos: [1, 2], tex: [3, 4], im: 5 });
    model.tex_layer = -2;
    let copy = model.clone();
    model.set_static();
    model.dcs.insert([1, 2], 6);
    assert_eq!(copy.neigh, model.neigh);
    assert_eq!(copy.border, model.border);
    assert_eq!(copy.fs, vec![[1, 2, 3]]);
    assert_eq!(copy.name, model.name);
    assert_eq!(copy.vs[&1].tex, [3, 4]);
    assert_eq!(copy.dcs.get(&[1, 2]), Some(5));
    assert_eq!(copy.dcs.clone().edges(), vec![[1, 2]]);
    assert_eq!(copy.tex_layer, -2);
    assert!(!copy.is_static);
}

#[test]
fn angle_codes_order_as_the_angles_do() {
    assert_eq!(angle_code(0), 0);
    assert_eq!(angle_code(0x7fff_ffff), i32::MAX);
    assert_eq!(angle_code(0x8000_0000), -1);
    assert_eq!(angle_code(0xffff_ffff), i32::MIN);
    assert_eq!(angle_code(1f32.to_bits()), 0x3f80_0000);
    let angles = [
        -3.1415927f32, -2.5, -1.0, -1e-20, -0.0, 0.0, 1e-30, 0.5, 1.5707964, 3.0, 3.1415927,
        f32::NEG_INFINITY, f32::INFINITY, f32::MIN, f32::MAX,
    ];
    for a in angles {
        for b in angles {
            let by_code = angle_code(a.to_bits()).cmp(&angle_code(b.to_bits()));
            assert_eq!(by_code, a.total_cmp(&b), "{} {}", a, b);
        }
    }
}

#[test]
fn identifiers_are_handed_out_in_order() {
    let mut model = Rawmodel::new();
    assert_eq!(model.alloc_id(), 0);
    assert_eq!(model.alloc_id(), 1);
    model.id_alloc = 40;
    assert_eq!(model.alloc_id(), 40);
    assert_eq!(model.id_alloc, 41);
}

#[test]
fn model_is_marked_static() {
    let mut model = Rawmodel::new();
    assert!(!model.is_static);
    model.set_static();
    assert!(model.is_static);
    assert_eq!(model.tex_layer, 0);
}

#[test]
fn texture_follows_position() {
    let mut model = Rawmodel::new();
    model.vs.insert(1, RawVertex { pos: [11, 12], tex: [0, 0], im: 5 });
    model.vs.insert(2, RawVertex { pos: [21, 22], tex: [9, 9], im: 6 });
    model.pos2tex();
    assert_eq!(model.vs[&1].tex, [11, 12]);
    assert_eq!(model.vs[&1].pos, [11, 12]);
    assert_eq!(model.vs[&1].im, 5);
    assert_eq!(model.vs[&2].tex, [21, 22]);
    assert_eq!(model.vs.len(), 2);
}

#[test]
fn empty_cell_tables() {
    let _tables = Topomodel::new();
}

#[test]
fn faces_are_linked_and_constrained() {
    let fs = vec![[3, 5, 9], [3, 4, 5]];
    let graph = link_faces(&fs);
    assert_eq!(graph[&3], vec![4, 5, 9]);
    assert_eq!(graph[&4], vec![3, 5]);
    assert_eq!(graph[&5], vec![3, 4, 9]);
    assert_eq!(graph[&9], vec![3, 5]);
    assert_eq!(graph.len(), 4);
    let dcs = default_constraints(&fs);
    let mut edges = dcs.edges();
    edges.sort();
    assert_eq!(edges, vec![[3, 4], [3, 5], [3, 9], [4, 5], [5, 9]]);
    assert_eq!(dcs.get(&[3, 9]), Some(DEFAULT_DISTANCE));
    assert!(link_faces(&vec![]).is_empty());
}

#[test]
fn dangling_entries_are_found() {
    let mut graph = HashMap::new();
    graph.insert(1u64, vec![2u64]);
    graph.insert(2, vec![1]);
    let mut dcs = DistanceConstraints::new();
    dcs.insert([1, 2], 0);
    dcs.insert([2, 1], 0);
    dcs.insert([1, 1], 0);
    dcs.insert([1, 3], 0);
    let mut bad = dangling_edges(&dcs, &graph);
    bad.sort();
    assert_eq!(bad, vec![[1, 1], [1, 3]]);
    let mut report = vec![Diagnostic::Vertex(StructuralError::MultipleGaps(4))];
    drop_dangling(&mut dcs, &graph, &mut report);
    assert_eq!(report.len(), 3);
    assert_eq!(report[0], Diagnostic::Vertex(StructuralError::MultipleGaps(4)));
    let mut edges = dcs.edges();
    edges.sort();
    assert_eq!(edges, vec![[1, 2], [2, 1]]);
}

#[test]
fn self_loops_are_dropped() {
    let mut graph = HashMap::new();
    graph.insert(1u64, vec![1u64, 2, 1]);
    graph.insert(2, vec![1]);
    let mut report = Vec::new();
    drop_self_loops(&mut graph, &mut report);
    assert_eq!(report, vec![Diagnostic::Vertex(StructuralError::SelfAdjacency(1))]);
    assert_eq!(graph[&1], vec![2]);
    assert_eq!(graph[&2], vec![1]);
}

#[test]
fn strays_are_dropped_and_defaults_added() {
    let mut graph = HashMap::new();
    graph.insert(1u64, vec![2u64, 1, 3]);
    graph.insert(2, vec![1]);
    let mut vs = HashMap::new();
    for k in [1u64, 2, 3] {
        vs.insert(k, RawVertex { pos: [0, 0], tex: [0, 0], im: 0 });
    }
    assert!(edge_in_graph(&graph, &vs, &[1, 2]));
    assert!(edge_in_graph(&graph, &vs, &[1, 3]));
    assert!(!edge_in_graph(&graph, &vs, &[2, 1]));
    assert!(!edge_in_graph(&graph, &vs, &[1, 1]));
    assert!(!edge_in_graph(&graph, &vs, &[2, 3]));
    let mut dcs = DistanceConstraints::new();
    dcs.insert([2, 3], DEFAULT_DISTANCE);
    dcs.insert([1, 2], DEFAULT_DISTANCE);
    dcs.insert([4, 5], 17);
    let mut strays = stray_edges(&dcs, &graph, &vs);
    strays.sort();
    assert_eq!(strays, vec![[2, 3], [4, 5]]);
    let mut report = Vec::new();
    drop_strays(&mut dcs, &graph, &vs, &mut report);
    report.sort_by_key(|d| format!("{:?}", d));
    assert_eq!(
        report,
        vec![
            Diagnostic::Constraint(ConstraintError::DanglingEdge(2, 3)),
            Diagnostic::Constraint(ConstraintError::DanglingEdge(4, 5)),
        ]
    );
    assert_eq!(dcs.edges(), vec![[1, 2]]);
    let mut report = Vec::new();
    add_defaults_at(&mut dcs, 1, &graph[&1], &mut report);
    assert_eq!(report, vec![Diagnostic::Constraint(ConstraintError::MissingDefault(1, 3))]);
    add_defaults(&mut dcs, &graph, &vec![2, 1], &mut report);
    assert_eq!(report.len(), 1);
    let mut edges = dcs.edges();
    edges.sort();
    assert_eq!(edges, vec![[1, 2], [1, 3]]);
    assert_eq!(dcs.get(&[1, 3]), Some(DEFAULT_DISTANCE));
    let picked = pick_edges(&vec![[1, 2], [3, 4], [5, 6]], &vec![true, false, true]);
    assert_eq!(picked, vec![[1, 2], [5, 6]]);
    let mut report = Vec::new();
    drop_edges(&mut dcs, &vec![[1, 3], [9, 9]], &mut report);
    assert_eq!(report.len(), 2);
    assert_eq!(dcs.edges(), vec![[1, 2]]);
}

#[test]
fn faults_are_found() {
    let mut graph = HashMap::new();
    graph.insert(1u64, vec![2u64, 3]);
    graph.insert(2, vec![1]);
    let mut vs = HashMap::new();
    for k in [1u64, 2, 3, 4] {
        vs.insert(k, RawVertex { pos: [0, 0], tex: [0, 0], im: 0 });
    }
    let turn = |to: u64, angle: i32| Spoke { to, angle };
    let fan = Fan { spokes: vec![turn(2, 0), turn(3, 1)], positive: false, undefined: false };
    assert!(fan_names(&fan, &vec![2, 3]));
    assert!(!fan_names(&fan, &vec![3, 2]));
    assert!(!fan_names(&fan, &vec![2]));
    let mut fans = HashMap::new();
    let ids = vec![1, 2, 3, 4];
    assert_eq!(find_fault(&graph, &vs, &ids, &fans), Err(TopoError::MissingBearings(1)));
    fans.insert(1, fan);
    assert_eq!(find_fault(&graph, &vs, &ids, &fans), Ok(()));
    let found = find_left_out(&graph, &ids, &fans);
    assert!(matches!(found, Some(StructuralError::DegenerateVertex(2 | 3 | 4))));
    assert_eq!(find_left_out(&graph, &vec![1], &fans), None);
    vs.remove(&3);
    assert_eq!(
        find_fault(&graph, &vs, &vec![1, 2, 4], &fans),
        Err(TopoError::UnknownVertex { vertex: 1, neighbor: 3 })
    );
}

#[test]
fn all_vertices_are_swept() {
    let mut graph = HashMap::new();
    graph.insert(1u64, vec![2u64, 3]);
    graph.insert(2, vec![1, 3]);
    graph.insert(3, vec![1, 2]);
    graph.insert(8, vec![1]);
    let turn = |to: u64, angle: i32| Spoke { to, angle };
    let mut fans = HashMap::new();
    fans.insert(1, Fan { spokes: vec![turn(2, 0), turn(3, 1)], positive: true, undefined: false });
    fans.insert(2, Fan { spokes: vec![turn(1, 5), turn(3, 1)], positive: false, undefined: false });
    fans.insert(3, Fan { spokes: vec![turn(1, 0), turn(2, 1)], positive: false, undefined: true });
    let how = Continuity::Graph(&graph);
    let out = sweep_all(&graph, &vec![1, 2, 3], &fans, &how, true);
    assert_eq!(out.rings[&1], vec![3, 2]);
    assert_eq!(out.rings[&2], vec![3, 1]);
    assert_eq!(out.rings[&3], vec![1, 2]);
    assert_eq!(out.rings[&8], vec![1]);
    let mut border: Vec<u64> = out.border.iter().copied().collect();
    border.sort();
    assert_eq!(border, vec![1, 2]);
    assert_eq!(out.faces, vec![[1, 2, 3]]);
    assert_eq!(out.report, vec![Diagnostic::Vertex(StructuralError::DegenerateVertex(3))]);
    let out = sweep_all(&graph, &vec![1], &fans, &how, false);
    assert!(out.faces.is_empty());
    assert_eq!(out.rings[&2], vec![1, 3]);
}

#[test]
fn vertices_and_faces_are_added() {
    let mut model = Rawmodel::default();
    let a = model.add_vertex(RawVertex { pos: [1, 2], tex: [3, 4], im: 5 });
    let b = model.add_vertex(RawVertex { pos: [6, 7], tex: [8, 9], im: 10 });
    assert_eq!((a, b), (0, 1));
    assert_eq!(model.id_alloc, 2);
    assert_eq!(model.vs[&1].pos, [6, 7]);
    assert_eq!(model.vs[&0].im, 5);
    model.add_face(9, 2, 4);
    model.add_face(1, 0, 1);
    assert_eq!(model.fs, vec![[2, 4, 9], [0, 1, 1]]);
}

#[test]
fn grid_points_are_numbered_row_by_row() {
    assert_eq!(grid_id(0, 0, 5), Some(0));
    assert_eq!(grid_id(2, 3, 5), Some(13));
    assert_eq!(grid_id(u64::MAX, 0, 1), Some(u64::MAX));
    assert_eq!(grid_id(u64::MAX, 1, 1), None);
    assert_eq!(grid_id(1 << 32, 0, 1 << 32), None);
    assert_eq!(grid_id(7, 9, 0), Some(9));
}

#[test]
fn cell_is_linked_along_its_sides_and_one_diagonal() {
    let mut model = Rawmodel::new();
    model.add_cell([0, 1, 3, 4]);
    model.add_cell([1, 2, 4, 5]);
    assert_eq!(model.neigh[&0], vec![1, 3, 4]);
    assert_eq!(model.neigh[&1], vec![0, 4, 2, 4, 5]);
    assert_eq!(model.neigh[&4], vec![0, 1, 3, 1, 5]);
    model.squash_neigh();
    assert_eq!(model.neigh[&1], vec![0, 2, 4, 5]);
    assert_eq!(model.neigh[&4], vec![0, 1, 3, 5]);
    assert_eq!(model.neigh[&3], vec![0, 4]);
    assert_eq!(model.neigh[&2], vec![1, 5]);
}
