use psva4_model::constraints::DEFAULT_DISTANCE;
use psva4_model::rawmodel::{RawVertex, Rawmodel};
use psva4_model::report::{ConstraintError, Diagnostic, StructuralError, TopoError};
use psva4_model::ring::{angle_code, Spoke};
use psva4_model::sweep::Fan;
use std::collections::HashMap;

fn code(angle: f32) -> i32 {
    angle_code(angle.to_bits())
}

/// Signed angular distance from `a` to `b`, wrapped into (-pi, pi].
fn angle_dist(a: f32, b: f32) -> f32 {
    let pi = std::f32::consts::PI;
    let mut d = (b - a) % (2.0 * pi);
    if d > pi {
        d -= 2.0 * pi;
    } else if d <= -pi {
        d += 2.0 * pi;
    }
    d
}

fn vertex(x: f32, y: f32) -> RawVertex {
    RawVertex { pos: [x.to_bits(), y.to_bits()], tex: [x.to_bits(), y.to_bits()], im: 1f32.to_bits() }
}

/// Measures the fans of every vertex of `graph` from the positions in `model`.
fn measure(model: &Rawmodel, graph: &HashMap<u64, Vec<u64>>) -> HashMap<u64, Fan> {
    let mut fans = HashMap::new();
    for (k, list) in graph.iter() {
        let here = match model.vs.get(k) {
            Some(v) => v.pos,
            None => continue,
        };
        let mut angles = Vec::new();
        let mut spokes = Vec::new();
        let mut undefined = false;
        for v in list.iter() {
            let there = match model.vs.get(v) {
                Some(v) => v.pos,
                None => [0, 0],
            };
            let dx = f32::from_bits(there[0]) - f32::from_bits(here[0]);
            let dy = f32::from_bits(there[1]) - f32::from_bits(here[1]);
            let angle = dy.atan2(dx);
            undefined = undefined || (dx == 0.0 && dy == 0.0 && v != k) || angle.is_nan();
            angles.push(angle);
            spokes.push(Spoke { to: *v, angle: code(angle) });
        }
        let positive = if angles.len() == 2 {
            let (lo, hi) = if code(angles[0]) <= code(angles[1]) {
                (angles[0], angles[1])
            } else {
                (angles[1], angles[0])
            };
            angle_dist(lo, hi) > 0.0
        } else {
            false
        };
        fans.insert(*k, Fan { spokes, positive, undefined });
    }
    fans
}

fn sorted_faces(model: &Rawmodel) -> Vec<[u64; 3]> {
    let mut fs = model.fs.clone();
    fs.sort();
    fs
}

fn sorted_border(model: &Rawmodel) -> Vec<u64> {
    let mut b: Vec<u64> = model.border.iter().copied().collect();
    b.sort();
    b
}

fn sorted_edges(model: &Rawmodel) -> Vec<[u64; 2]> {
    let mut e = model.dcs.edges();
    e.sort();
    e
}

/// Four vertices on the unit square, all pairs joined but (0,0)-(1,1).
fn square() -> Rawmodel {
    let mut model = Rawmodel::new();
    model.vs.insert(0, vertex(0.0, 0.0));
    model.vs.insert(1, vertex(1.0, 0.0));
    model.vs.insert(2, vertex(0.0, 1.0));
    model.vs.insert(3, vertex(1.0, 1.0));
    model.add_neigh_raw([0, 1]);
    model.add_neigh_raw([0, 2]);
    model.add_neigh_raw([1, 2]);
    model.add_neigh_raw([1, 3]);
    model.add_neigh_raw([2, 3]);
    model.squash_neigh();
    model
}

/// A tetrahedron seen from above vertex 0: closed, without border.
fn tetrahedron_fans() -> HashMap<u64, Fan> {
    let mut fans = HashMap::new();
    let turn = |to: u64, angle: i32| Spoke { to, angle };
    fans.insert(0, Fan { spokes: vec![turn(1, 0), turn(2, 10), turn(3, 20)], positive: false, undefined: false });
    fans.insert(1, Fan { spokes: vec![turn(0, 0), turn(2, 20), turn(3, 10)], positive: false, undefined: false });
    fans.insert(2, Fan { spokes: vec![turn(0, 0), turn(1, 10), turn(3, 20)], positive: false, undefined: false });
    fans.insert(3, Fan { spokes: vec![turn(0, 0), turn(1, 20), turn(2, 10)], positive: false, undefined: false });
    fans
}

fn tetrahedron() -> Rawmodel {
    let mut model = Rawmodel::new();
    for k in 0..4u64 {
        model.vs.insert(k, vertex(k as f32, 0.0));
    }
    model.fs = vec![[0, 1, 2], [0, 2, 3], [0, 1, 3], [1, 2, 3]];
    model
}

#[test]
fn square_yields_two_triangles_and_a_border() {
    let mut model = square();
    let fans = measure(&model, &model.neigh);
    let report = model.build_topo2(&fans).unwrap();
    assert_eq!(sorted_faces(&model), vec![[0, 1, 2], [1, 2, 3]]);
    assert_eq!(sorted_border(&model), vec![0, 1, 2, 3]);
    assert!(report.iter().all(|d| !matches!(d, Diagnostic::Vertex(_))));
    assert_eq!(model.neigh[&1], vec![3, 2, 0]);
    assert_eq!(model.neigh[&2], vec![0, 1, 3]);
    assert_eq!(model.neigh[&0], vec![2, 1]);
    assert_eq!(model.neigh[&3], vec![1, 2]);
}

#[test]
fn square_gets_a_default_distance_for_every_edge() {
    let mut model = square();
    let fans = measure(&model, &model.neigh);
    let report = model.build_topo2(&fans).unwrap();
    assert_eq!(sorted_edges(&model), vec![[0, 1], [0, 2], [1, 2], [1, 3], [2, 3]]);
    for e in sorted_edges(&model) {
        assert_eq!(model.dcs.get(&e), Some(DEFAULT_DISTANCE));
        assert!(report.contains(&Diagnostic::Constraint(ConstraintError::MissingDefault(e[0], e[1]))));
    }
    assert_eq!(report.len(), 5);
    assert_eq!(f32::from_bits(DEFAULT_DISTANCE), 1e-6f32);
}

#[test]
fn two_runs_give_the_same_result() {
    let mut first = square();
    let mut second = square();
    let fans_first = measure(&first, &first.neigh);
    let fans_second = measure(&second, &second.neigh);
    first.build_topo2(&fans_first).unwrap();
    second.build_topo2(&fans_second).unwrap();
    assert_eq!(sorted_faces(&first), sorted_faces(&second));
    assert_eq!(first.neigh, second.neigh);
    assert_eq!(sorted_border(&first), sorted_border(&second));
    assert_eq!(sorted_edges(&first), sorted_edges(&second));
}

#[test]
fn rebuilding_twice_changes_nothing() {
    let mut model = square();
    let fans = measure(&model, &model.neigh);
    model.build_topo2(&fans).unwrap();
    let faces = sorted_faces(&model);
    let rings = model.neigh.clone();
    let border = sorted_border(&model);
    let edges = sorted_edges(&model);
    let again = measure(&model, &model.neigh);
    let report = model.build_topo2(&again).unwrap();
    assert_eq!(sorted_faces(&model), faces);
    assert_eq!(model.neigh, rings);
    assert_eq!(sorted_border(&model), border);
    assert_eq!(sorted_edges(&model), edges);
    assert!(report.is_empty());
}

#[test]
fn closed_mesh_round_trips() {
    let mut model = tetrahedron();
    let fans = tetrahedron_fans();
    let report = model.build_topo(&fans).unwrap();
    assert!(report.is_empty());
    assert!(model.border.is_empty());
    assert_eq!(model.neigh[&0], vec![1, 2, 3]);
    assert_eq!(model.neigh[&1], vec![0, 3, 2]);
    let given = sorted_faces(&model);
    let mut again = HashMap::new();
    for (k, list) in model.neigh.iter() {
        let fan = &fans[k];
        let spokes = list
            .iter()
            .map(|v| *fan.spokes.iter().find(|s| s.to == *v).unwrap())
            .collect();
        again.insert(*k, Fan { spokes, positive: false, undefined: false });
    }
    model.fs.clear();
    let report = model.build_topo2(&again).unwrap();
    assert!(report.is_empty());
    assert_eq!(sorted_faces(&model), given);
    assert!(model.border.is_empty());
}

#[test]
fn faces_give_graph_and_constraints() {
    let mut model = Rawmodel::new();
    model.vs.insert(0, vertex(0.0, 0.0));
    model.vs.insert(1, vertex(1.0, 0.0));
    model.vs.insert(2, vertex(0.0, 1.0));
    model.vs.insert(3, vertex(1.0, 1.0));
    model.fs = vec![[0, 1, 2], [1, 2, 3]];
    model.dcs.insert([7, 9], 5);
    let graph = model.face_graph();
    assert_eq!(graph[&0], vec![1, 2]);
    assert_eq!(graph[&1], vec![0, 2, 3]);
    assert_eq!(graph[&2], vec![0, 1, 3]);
    assert_eq!(graph[&3], vec![1, 2]);
    let fans = measure(&model, &graph);
    let report = model.build_topo(&fans).unwrap();
    assert!(report.is_empty());
    assert_eq!(model.fs, vec![[0, 1, 2], [1, 2, 3]]);
    assert_eq!(sorted_border(&model), vec![0, 1, 2, 3]);
    assert_eq!(sorted_edges(&model), vec![[0, 1], [0, 2], [1, 2], [1, 3], [2, 3]]);
    assert_eq!(model.neigh[&1], vec![3, 2, 0]);
    assert_eq!(model.neigh[&2], vec![0, 1, 3]);
    assert_eq!(model.neigh[&0], vec![2, 1]);
    assert_eq!(model.neigh[&3], vec![1, 2]);
}

#[test]
fn both_directions_agree_on_the_square() {
    let mut from_graph = square();
    let fans = measure(&from_graph, &from_graph.neigh);
    from_graph.build_topo2(&fans).unwrap();
    let mut from_faces = Rawmodel::new();
    from_faces.vs = from_graph.vs.clone();
    from_faces.fs = vec![[0, 1, 2], [1, 2, 3]];
    let graph = from_faces.face_graph();
    let fans = measure(&from_faces, &graph);
    from_faces.build_topo(&fans).unwrap();
    assert_eq!(from_faces.neigh, from_graph.neigh);
    assert_eq!(sorted_border(&from_faces), sorted_border(&from_graph));
    let mut back = Rawmodel::new();
    back.vs = from_faces.vs.clone();
    back.neigh = graph;
    back.build_topo2(&fans).unwrap();
    assert_eq!(sorted_faces(&back), vec![[0, 1, 2], [1, 2, 3]]);
    assert_eq!(back.neigh, from_faces.neigh);
}

#[test]
fn vertex_with_two_neighbours_is_a_border() {
    let mut model = Rawmodel::new();
    model.vs.insert(5, vertex(0.0, 0.0));
    model.vs.insert(8, vertex(1.0, 0.0));
    model.vs.insert(2, vertex(0.0, 1.0));
    model.add_neigh_raw([5, 8]);
    model.add_neigh_raw([5, 2]);
    model.squash_neigh();
    let fans = measure(&model, &model.neigh);
    let report = model.build_topo2(&fans).unwrap();
    assert!(model.border.contains(&5));
    assert_eq!(model.fs, vec![[2, 5, 8]]);
    assert!(report.contains(&Diagnostic::Vertex(StructuralError::DegenerateVertex(8))));
    assert!(report.contains(&Diagnostic::Vertex(StructuralError::DegenerateVertex(2))));
    assert!(!model.border.contains(&8));
    assert!(!model.border.contains(&2));
}

#[test]
fn ring_of_two_turns_by_the_sign_of_the_distance() {
    let mut model = Rawmodel::new();
    for k in [1u64, 2, 3] {
        model.vs.insert(k, vertex(k as f32, 0.0));
    }
    model.neigh.insert(1, vec![2, 3]);
    let spokes = vec![Spoke { to: 2, angle: 40 }, Spoke { to: 3, angle: 10 }];
    let mut fans = HashMap::new();
    fans.insert(1, Fan { spokes: spokes.clone(), positive: true, undefined: false });
    let mut turned = Rawmodel::new();
    turned.vs = model.vs.clone();
    turned.neigh = model.neigh.clone();
    turned.build_topo2(&fans).unwrap();
    assert_eq!(turned.neigh[&1], vec![2, 3]);
    fans.insert(1, Fan { spokes, positive: false, undefined: false });
    model.build_topo2(&fans).unwrap();
    assert_eq!(model.neigh[&1], vec![3, 2]);
    assert_eq!(model.fs, vec![[1, 2, 3]]);
}

#[test]
fn degenerate_vertices_do_not_stop_the_build() {
    let mut model = square();
    model.vs.insert(9, vertex(5.0, 5.0));
    model.vs.insert(10, vertex(6.0, 5.0));
    model.vs.insert(11, vertex(7.0, 5.0));
    model.add_neigh_raw([10, 11]);
    let fans = measure(&model, &model.neigh);
    let report = model.build_topo2(&fans).unwrap();
    assert!(report.contains(&Diagnostic::Vertex(StructuralError::DegenerateVertex(9))));
    assert!(report.contains(&Diagnostic::Vertex(StructuralError::DegenerateVertex(10))));
    assert!(report.contains(&Diagnostic::Vertex(StructuralError::DegenerateVertex(11))));
    assert_eq!(sorted_faces(&model), vec![[0, 1, 2], [1, 2, 3]]);
    assert_eq!(sorted_border(&model), vec![0, 1, 2, 3]);
    assert_eq!(model.neigh[&10], vec![11]);
    assert!(!model.neigh.contains_key(&9));
}

#[test]
fn second_gap_is_reported_and_the_first_is_used() {
    let mut model = Rawmodel::new();
    for k in 0..5u64 {
        model.vs.insert(k, vertex(k as f32, 0.0));
    }
    model.neigh.insert(0, vec![1, 2, 3, 4]);
    model.neigh.insert(1, vec![0, 2]);
    model.neigh.insert(2, vec![0, 1]);
    model.neigh.insert(3, vec![0, 4]);
    model.neigh.insert(4, vec![0, 3]);
    let turn = |to: u64, angle: i32| Spoke { to, angle };
    let mut fans = HashMap::new();
    fans.insert(0, Fan { spokes: vec![turn(1, 0), turn(2, 10), turn(3, 20), turn(4, 30)], positive: false, undefined: false });
    fans.insert(1, Fan { spokes: vec![turn(0, 0), turn(2, 10)], positive: true, undefined: false });
    fans.insert(2, Fan { spokes: vec![turn(0, 0), turn(1, 10)], positive: true, undefined: false });
    fans.insert(3, Fan { spokes: vec![turn(0, 0), turn(4, 10)], positive: true, undefined: false });
    fans.insert(4, Fan { spokes: vec![turn(0, 0), turn(3, 10)], positive: true, undefined: false });
    let report = model.build_topo2(&fans).unwrap();
    assert!(report.contains(&Diagnostic::Vertex(StructuralError::MultipleGaps(0))));
    assert!(model.border.contains(&0));
    assert_eq!(model.neigh[&0], vec![3, 4, 1, 2]);
    assert_eq!(sorted_faces(&model), vec![[0, 1, 2], [0, 3, 4]]);
}

#[test]
fn interior_vertex_keeps_its_ordered_ring() {
    let mut model = tetrahedron();
    model.neigh.insert(0, vec![3, 1, 2]);
    model.neigh.insert(1, vec![0, 2, 3]);
    model.neigh.insert(2, vec![0, 1, 3]);
    model.neigh.insert(3, vec![0, 1, 2]);
    let turn = |to: u64, angle: i32| Spoke { to, angle };
    let mut fans = tetrahedron_fans();
    fans.insert(0, Fan { spokes: vec![turn(3, 20), turn(1, 0), turn(2, 10)], positive: false, undefined: false });
    model.fs.clear();
    model.build_topo2(&fans).unwrap();
    assert_eq!(model.neigh[&0], vec![1, 2, 3]);
    assert!(model.border.is_empty());
    assert_eq!(sorted_faces(&model), vec![[0, 1, 2], [0, 1, 3], [0, 2, 3], [1, 2, 3]]);
}

#[test]
fn vertex_that_lists_itself_is_skipped() {
    let mut model = square();
    model.neigh.insert(0, vec![0, 1, 2]);
    let fans = measure(&model, &model.neigh);
    let report = model.build_topo2(&fans).unwrap();
    assert!(report.contains(&Diagnostic::Vertex(StructuralError::SelfAdjacency(0))));
    assert_eq!(model.neigh[&0], vec![0, 1, 2]);
    assert!(!model.border.contains(&0));
    assert_eq!(sorted_faces(&model), vec![[0, 1, 2], [1, 2, 3]]);
    assert!(!model.dcs.contains(&[0, 0]));
}

#[test]
fn vertex_under_a_neighbour_is_degenerate() {
    let mut model = square();
    model.vs.insert(3, vertex(1.0, 0.0));
    let fans = measure(&model, &model.neigh);
    assert!(fans[&1].undefined && fans[&3].undefined && !fans[&0].undefined);
    let report = model.build_topo2(&fans).unwrap();
    assert!(report.contains(&Diagnostic::Vertex(StructuralError::DegenerateVertex(1))));
    assert!(report.contains(&Diagnostic::Vertex(StructuralError::DegenerateVertex(3))));
    assert_eq!(model.neigh[&1], vec![0, 2, 3]);
    assert_eq!(model.neigh[&3], vec![1, 2]);
    assert_eq!(sorted_border(&model), vec![0, 2]);
    assert_eq!(sorted_faces(&model), vec![[0, 1, 2], [1, 2, 3]]);
}

#[test]
fn unknown_neighbour_is_a_hard_failure() {
    let mut model = square();
    model.add_neigh_raw([3, 77]);
    model.vs.remove(&77);
    let before = model.neigh.clone();
    let fans = measure(&model, &model.neigh);
    let res = model.build_topo2(&fans);
    assert_eq!(res, Err(TopoError::UnknownVertex { vertex: 3, neighbor: 77 }));
    assert_eq!(model.neigh, before);
    assert!(model.fs.is_empty());
    assert!(model.dcs.edges().is_empty());
}

#[test]
fn missing_fan_is_a_hard_failure() {
    let mut model = square();
    let mut fans = measure(&model, &model.neigh);
    fans.remove(&2);
    assert_eq!(model.build_topo2(&fans), Err(TopoError::MissingBearings(2)));
    let mut fans = measure(&model, &model.neigh);
    fans.get_mut(&1).unwrap().spokes.swap(0, 1);
    assert_eq!(model.build_topo2(&fans), Err(TopoError::MissingBearings(1)));
    assert!(model.border.is_empty());
}

#[test]
fn face_with_a_stranger_is_a_hard_failure() {
    let mut model = Rawmodel::new();
    model.vs.insert(0, vertex(0.0, 0.0));
    model.vs.insert(1, vertex(1.0, 0.0));
    model.fs = vec![[0, 1, 2]];
    let graph = model.face_graph();
    let fans = measure(&model, &graph);
    let res = model.build_topo(&fans);
    assert!(matches!(res, Err(TopoError::UnknownVertex { neighbor: 2, .. })));
    assert!(model.neigh.is_empty());
}

#[test]
fn entries_that_belong_to_no_edge_leave() {
    let mut model = square();
    model.dcs.insert([0, 3], DEFAULT_DISTANCE);
    model.dcs.insert([3, 0], 55);
    model.dcs.insert([5, 6], 1234);
    model.dcs.insert([1, 0], 77);
    model.dcs.insert([2, 2], 8);
    model.dcs.insert([0, 1], 99);
    let fans = measure(&model, &model.neigh);
    let mut report = model.build_topo2(&fans).unwrap();
    assert_eq!(sorted_edges(&model), vec![[0, 1], [0, 2], [1, 2], [1, 3], [2, 3]]);
    assert_eq!(model.dcs.get(&[0, 1]), Some(99));
    assert_eq!(model.dcs.get(&[0, 2]), Some(DEFAULT_DISTANCE));
    report.sort_by_key(|d| format!("{:?}", d));
    let gone = |a: u64, b: u64| Diagnostic::Constraint(ConstraintError::DanglingEdge(a, b));
    let added = |a: u64, b: u64| Diagnostic::Constraint(ConstraintError::MissingDefault(a, b));
    assert_eq!(
        report,
        vec![
            gone(0, 3),
            gone(1, 0),
            gone(2, 2),
            gone(3, 0),
            gone(5, 6),
            added(0, 2),
            added(1, 2),
            added(1, 3),
            added(2, 3),
        ]
    );
    assert!(model.fix().is_empty());
    assert_eq!(sorted_edges(&model), vec![[0, 1], [0, 2], [1, 2], [1, 3], [2, 3]]);
}

#[test]
fn constraints_match_the_edges_after_repair_and_rebuild() {
    let mut model = square();
    model.neigh.insert(2, vec![0, 2, 1, 2, 3]);
    model.dcs.insert([1, 1], 7);
    model.dcs.insert([1, 40], 7);
    model.dcs.insert([0, 3], 7);
    model.dcs.insert([1, 2], 7);
    let repairs = model.fix();
    assert_eq!(repairs.len(), 3);
    assert_eq!(model.neigh[&2], vec![0, 1, 3]);
    let fans = measure(&model, &model.neigh);
    let report = model.build_topo2(&fans).unwrap();
    assert!(report.contains(&Diagnostic::Constraint(ConstraintError::DanglingEdge(0, 3))));
    let mut edges = Vec::new();
    for (k, list) in model.neigh.iter() {
        for v in list.iter() {
            let e = if k <= v { [*k, *v] } else { [*v, *k] };
            if !edges.contains(&e) {
                edges.push(e);
            }
        }
    }
    edges.sort();
    assert_eq!(sorted_edges(&model), edges);
    assert_eq!(model.dcs.get(&[1, 2]), Some(7));
    assert_eq!(model.dcs.get(&[0, 1]), Some(DEFAULT_DISTANCE));
}

#[test]
fn isolated_vertex_is_in_no_triangle() {
    let mut model = square();
    model.vs.insert(9, vertex(5.0, 5.0));
    model.neigh.insert(9, vec![]);
    let fans = measure(&model, &model.neigh);
    let report = model.build_topo2(&fans).unwrap();
    assert!(report.contains(&Diagnostic::Vertex(StructuralError::DegenerateVertex(9))));
    assert!(!model.border.contains(&9));
    assert!(model.fs.iter().all(|f| !f.contains(&9)));
    assert_eq!(model.neigh[&9], Vec::<u64>::new());
}

#[test]
fn strict_rebuild_stops_at_a_degenerate_vertex() {
    let mut model = square();
    model.vs.insert(9, vertex(5.0, 5.0));
    let before = model.neigh.clone();
    let fans = measure(&model, &model.neigh);
    let res = model.build_topo2_strict(&fans);
    assert_eq!(res, Err(TopoError::Rejected(StructuralError::DegenerateVertex(9))));
    assert_eq!(model.neigh, before);
    assert!(model.fs.is_empty());
    assert!(model.border.is_empty());
    assert!(model.dcs.edges().is_empty());
    let report = model.build_topo2(&fans).unwrap();
    assert!(report.contains(&Diagnostic::Vertex(StructuralError::DegenerateVertex(9))));
    assert_eq!(sorted_faces(&model), vec![[0, 1, 2], [1, 2, 3]]);
}

#[test]
fn strict_rebuild_stops_at_a_vertex_that_lists_itself() {
    let mut model = square();
    model.neigh.insert(0, vec![0, 1, 2]);
    let fans = measure(&model, &model.neigh);
    let res = model.build_topo2_strict(&fans);
    assert_eq!(res, Err(TopoError::Rejected(StructuralError::SelfAdjacency(0))));
}

#[test]
fn strict_rebuild_of_a_sound_mesh_is_the_rebuild() {
    let mut strict = square();
    let mut plain = square();
    let fans = measure(&strict, &strict.neigh);
    let said = strict.build_topo2_strict(&fans).unwrap();
    let told = plain.build_topo2(&fans).unwrap();
    assert_eq!(said.len(), told.len());
    assert_eq!(strict.neigh, plain.neigh);
    assert_eq!(sorted_faces(&strict), sorted_faces(&plain));
    assert_eq!(sorted_border(&strict), sorted_border(&plain));
    assert_eq!(sorted_edges(&strict), sorted_edges(&plain));
}

#[test]
fn strict_rebuild_from_faces() {
    let mut model = tetrahedron();
    let fans = tetrahedron_fans();
    assert_eq!(model.build_topo_strict(&fans), Ok(vec![]));
    assert_eq!(model.neigh[&3], vec![0, 2, 1]);
    let mut model = tetrahedron();
    model.vs.insert(7, vertex(9.0, 9.0));
    let res = model.build_topo_strict(&fans);
    assert_eq!(res, Err(TopoError::Rejected(StructuralError::DegenerateVertex(7))));
    assert!(model.neigh.is_empty());
    let report = model.build_topo(&fans).unwrap();
    assert_eq!(report, vec![Diagnostic::Vertex(StructuralError::DegenerateVertex(7))]);
    assert_eq!(model.neigh.len(), 4);
}

#[test]
fn missing_fan_stops_a_strict_rebuild_too() {
    let mut model = square();
    let mut fans = measure(&model, &model.neigh);
    fans.remove(&1);
    assert_eq!(model.build_topo2_strict(&fans), Err(TopoError::MissingBearings(1)));
}
