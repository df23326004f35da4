use std::collections::BTreeMap;

use triforce::cli::{parse_usize, tiling_from_tiles, GraphSource};
use triforce::concurrency::{PopStep, WithCost, Worklist};
use triforce::graph::{bottleneck_decompose, connected_parts, counts_by_size, diameter, edge_ends_per_part, UGraph};
use triforce::happy::{check_happy_cover, tiles_have_size};
use triforce::metagraph::Metagraph;
use triforce::region::MaybeRegion;
use triforce::search::{hex_cost, search_happy_cover};
use triforce::timer::Timer;
use triforce::{regions, Color, CompactRegion, Graph, Node, Region, Tiling};

#[test]
fn compact_region_from_to_region() {
    let universe = Graph::triangle(5);
    let r = Region::from(vec![(0, 0), (0, 2), (1, 1), (2, 2), (3, 5), (4, 4)]);
    assert_eq!(r, CompactRegion::from(&r, &universe).to_region(&universe));
}

/// Check that par_min_covers returns the same set as min_covers for the given graph/extension.
fn assert_par_min_covers_eq(g: &Graph, allowed: &Graph, tile_size: usize) {
    let seq = Tiling::min_covers(g, allowed, tile_size, &Vec::new());
    let par = Tiling::par_min_covers(g, allowed, tile_size);
    assert_eq!(seq.is_none(), par.is_none(), "both should agree on None/Some");
    if let (Some(seq_set), Some(par_set)) = (seq, par) {
        assert_eq!(seq_set, par_set, "cover sets should be identical");
    }
}

#[test]
fn par_min_covers_equiv_triangle3_4() {
    let g = Graph::triangle(3);
    let allowed = Graph::triangle(4);
    assert_par_min_covers_eq(&g, &allowed, 2);
}

#[test]
fn par_min_covers_equiv_triangle4_5() {
    let g = Graph::triangle(4);
    let allowed = Graph::triangle(5);
    assert_par_min_covers_eq(&g, &allowed, 2);
}

#[test]
fn par_min_covers_equiv_triangle3_4_tile3() {
    let g = Graph::triangle(3);
    let allowed = Graph::triangle(4);
    assert_par_min_covers_eq(&g, &allowed, 3);
}

#[test]
fn compact_region_ord() {
    // empty < non-empty
    let universe = Graph::triangle(4);
    let empty = CompactRegion::empty();
    let r1 = Region::from(vec![(0, 0)]);
    let r2 = Region::from(vec![(0, 0), (1, 1)]);
    let cr1 = CompactRegion::from(&r1, &universe);
    let cr2 = CompactRegion::from(&r2, &universe);
    assert!(empty < cr1);
    assert!(cr1 < cr2);
    // reflexive
    assert_eq!(empty.cmp(&empty), std::cmp::Ordering::Equal);
    assert_eq!(cr1.cmp(&cr1), std::cmp::Ordering::Equal);
}

#[test]
fn compact_region_bitops() {
    let universe = Graph::triangle(4);
    let r1 = Region::from(vec![(0, 0), (1, 1)]);
    let r2 = Region::from(vec![(0, 2), (1, 1)]);
    let r3 = Region::from(vec![(0, 0), (0, 2), (1, 1)]);
    let cr1 = CompactRegion::from(&r1, &universe);
    let cr2 = CompactRegion::from(&r2, &universe);
    let cr3 = CompactRegion::from(&r3, &universe);
    let empty = CompactRegion::empty();

    // len
    assert_eq!(empty.len(), 0);
    assert_eq!(cr1.len(), 2);
    assert_eq!(cr3.len(), 3);

    // is_empty
    assert!(empty.is_empty());
    assert!(!cr1.is_empty());

    // bitor (union)
    assert_eq!(cr1.bitor(cr2).to_region(&universe), r3);

    // is_superset_of
    assert!(cr3.is_superset_of(cr1));
    assert!(cr3.is_superset_of(cr2));
    assert!(!cr1.is_superset_of(cr3));
    assert!(cr1.is_superset_of(empty));
    assert!(cr1.is_superset_of(cr1));

    // is_disjoint
    let r_disjoint = Region::from(vec![(0, 2)]);
    let cr_disjoint = CompactRegion::from(&r_disjoint, &universe);
    assert!(cr1.is_disjoint(cr_disjoint)); // (0,0),(1,1) vs (0,2)
    assert!(!cr1.is_disjoint(cr2)); // share (1,1)
    assert!(cr1.is_disjoint(empty));
}

#[test]
fn region_counts_are_fixed_polyhexes() {
    let counts: Vec<usize> = (1..=6).map(|n| regions(n).len()).collect();
    assert_eq!(counts, vec![1, 3, 11, 44, 186, 814]);
}

#[test]
fn regions_start_at_origin() {
    for r in regions(4) {
        assert_eq!(r.first(), Some(&(0, 0)));
        assert_eq!(r.len(), 4);
    }
}

#[test]
fn region_insert_remove() {
    let mut r = Region::from(vec![(2, 2), (0, 0)]);
    assert!(r.insert((1, 1)));
    assert!(!r.insert((1, 1)));
    assert_eq!(r.nodes(), &[(0, 0), (1, 1), (2, 2)]);
    assert!(r.remove(&(0, 0)));
    assert!(!r.remove(&(0, 0)));
    assert_eq!(r.nodes(), &[(1, 1), (2, 2)]);
}

#[test]
fn maybe_region_checks() {
    let r = MaybeRegion(vec![(1, 1), (0, 0)]).to_region(true).unwrap();
    assert_eq!(r.nodes(), &[(0, 0), (1, 1)]);
    assert!(MaybeRegion(vec![(0, 0), (1, 1), (0, 0)]).to_region(false).is_none());
    assert!(MaybeRegion(vec![(1, 1), (2, 2)]).to_region(true).is_none());
    assert!(MaybeRegion(vec![(1, 1), (2, 2)]).to_region(false).is_some());
    assert!(MaybeRegion(vec![]).to_region(true).is_some());
    let back = MaybeRegion::from_region(Region::from(vec![(0, 2), (0, 0)]));
    assert_eq!(back.0, vec![(0, 0), (0, 2)]);
}

#[test]
fn graph_source_parsing() {
    assert!(matches!(GraphSource::parse("triangle=5"), Ok(GraphSource::Triangle(5))));
    assert!(matches!(GraphSource::parse("TRIANGLE=3"), Ok(GraphSource::Triangle(3))));
    match GraphSource::parse("file=a/b.json") {
        Ok(GraphSource::FromFile(p)) => assert_eq!(p, "a/b.json"),
        _ => panic!("expected a file source"),
    }
    assert!(matches!(GraphSource::parse("from-file=x=y"), Ok(GraphSource::FromFile(p)) if p == "x=y"));
    assert_eq!(
        GraphSource::parse("triangle").err().unwrap(),
        "expected format KIND=VALUE (e.g. file=path or triangle=5)"
    );
    assert_eq!(GraphSource::parse("triangle=x").err().unwrap(), "invalid triangle side length `x`");
    assert_eq!(
        GraphSource::parse("Cube=3").err().unwrap(),
        "unknown input kind `cube` (expected `file` or `triangle`)"
    );
    let parsed: GraphSource = "triangle=7".parse().unwrap();
    assert!(matches!(parsed, GraphSource::Triangle(7)));
}

#[test]
fn usize_parsing() {
    assert_eq!(parse_usize("0"), Some(0));
    assert_eq!(parse_usize("+42"), Some(42));
    assert_eq!(parse_usize("18446744073709551615"), Some(usize::MAX));
    assert_eq!(parse_usize("18446744073709551616"), None);
    assert_eq!(parse_usize(""), None);
    assert_eq!(parse_usize("-1"), None);
    assert_eq!(parse_usize("4a"), None);
}

#[test]
fn tiling_from_tile_lists() {
    let tiles: Vec<Vec<Node>> = vec![vec![(0, 0), (1, 1)], vec![(0, 2)]];
    let m = tiling_from_tiles(&tiles);
    assert_eq!(m.len(), 3);
    assert_eq!(m[&(0, 0)].get(), 1);
    assert_eq!(m[&(1, 1)].get(), 1);
    assert_eq!(m[&(0, 2)].get(), 2);
}

#[test]
fn timer_labels() {
    let mut t = Timer::new();
    let (label, d) = t.record_elapsed("step");
    assert_eq!(label, "TIMER step");
    assert!(d.as_nanos() < 60_000_000_000);
    t.restart();
    let (label, _) = t.record_elapsed("");
    assert_eq!(label, "TIMER ");
}

#[test]
fn diameter_of_a_path() {
    let g = UGraph { node_count: 5, edges: vec![(0, 1), (1, 2), (2, 3), (3, 4), (1, 3)] };
    let d = diameter(&g);
    assert_eq!(d.len(), 4);
    let ends = (d[0], d[d.len() - 1]);
    assert!(ends == (0, 4) || ends == (4, 0));
}

#[test]
fn diameter_of_a_single_node() {
    let g = UGraph { node_count: 1, edges: vec![] };
    assert_eq!(diameter(&g), vec![0]);
}

#[test]
fn bottleneck_between_two_triangles() {
    let g = UGraph {
        node_count: 6,
        edges: vec![(0, 1), (1, 2), (2, 0), (3, 4), (4, 5), (5, 3), (2, 3)],
    };
    let cuts = bottleneck_decompose(&g, 2, 2);
    assert_eq!(cuts.len(), 1);
    assert_eq!(cuts[0].cut_edges, vec![(2, 3)]);
    let mut side = cuts[0].side_a.clone();
    side.sort();
    assert!(side == vec![0, 1, 2] || side == vec![3, 4, 5]);
    assert!(bottleneck_decompose(&g, 1, 2).is_empty());
    assert!(bottleneck_decompose(&g, 2, 7).is_empty());
}

#[test]
fn bottleneck_of_disconnected_parts() {
    let g = UGraph { node_count: 7, edges: vec![(0, 1), (1, 2), (3, 4), (4, 5), (5, 6)] };
    let cuts = bottleneck_decompose(&g, 2, 2);
    // each path is split at every edge
    assert_eq!(cuts.len(), 2 + 3);
    for c in &cuts {
        assert_eq!(c.cut_edges.len(), 1);
    }
}

#[test]
fn worklist_order() {
    let a = Region::from(vec![(0, 0)]);
    let b = Region::from(vec![(1, 1)]);
    let c = Region::from(vec![(2, 2)]);
    let mut w = Worklist::new(vec![WithCost(a.clone(), 5), WithCost(b.clone(), 1)], 1);
    w.push(WithCost(c.clone(), 3));
    assert_eq!(w.len(), 3);
    let mut order = vec![];
    loop {
        match w.pop_step() {
            PopStep::Candidate(WithCost(r, cost)) => order.push((r, cost)),
            PopStep::Done => break,
            PopStep::Wait => panic!("a single worker never waits"),
        }
    }
    assert_eq!(order, vec![(b, 1), (c, 3), (a, 5)]);
    assert!(w.is_done());
    assert!(w.is_empty());
}

#[test]
fn worklist_ties_come_out_in_either_order() {
    let a = Region::from(vec![(0, 0)]);
    let b = Region::from(vec![(1, 1)]);
    let mut w = Worklist::new(vec![WithCost(a.clone(), 2), WithCost(b.clone(), 2)], 2);
    let mut got = Vec::new();
    for _ in 0..2 {
        match w.pop_step() {
            PopStep::Candidate(WithCost(r, cost)) => {
                assert_eq!(cost, 2);
                got.push(r);
            }
            _ => panic!("expected a task"),
        }
    }
    got.sort();
    assert_eq!(got, vec![a, b]);
    // the first of two workers waits, the second ends the search
    assert!(matches!(w.pop_step(), PopStep::Wait));
    assert!(matches!(w.pop_step(), PopStep::Done));
}

#[test]
fn worklist_done_drops_pushes() {
    let mut w = Worklist::new(vec![], 3);
    w.done();
    w.push(WithCost(Region::from(vec![(0, 0)]), 1));
    assert!(w.is_empty());
    assert!(matches!(w.pop_step(), PopStep::Done));
}

#[test]
fn hex_cost_is_the_farthest_distance() {
    let mut partial = BTreeMap::new();
    partial.insert((0, 0), Color::new(1));
    partial.insert((2, 2), Color::new(1));
    assert_eq!(hex_cost(&partial, (4, 0)), 4);
    assert_eq!(hex_cost(&partial, (0, 6)), 6);
    assert_eq!(hex_cost(&partial, (1, 1)), 1);
}

#[test]
fn metagraph_holds_the_complete_tilings() {
    let g = Graph::triangle(4);
    let tilings = Tiling::enumerate(&g, 2);
    let complete: Vec<_> = tilings.iter().filter(|t| t.is_complete()).collect();
    let m = Metagraph::new(&g, 2);
    assert_eq!(m.nodes.len(), complete.len());
    assert!(complete.len() > 0);
    assert_eq!(m.meta.node_count, m.nodes.len());
    for &(a, b) in &m.meta.edges {
        assert!(a < m.nodes.len() && b < m.nodes.len());
    }
}

#[test]
fn reachable_tilings_are_complete_and_closed() {
    let g = Graph::triangle(4);
    let tilings = Tiling::enumerate(&g, 2);
    let first = tilings.iter().find(|t| t.is_complete()).unwrap();
    let reached = first.reachable(2);
    assert!(reached.contains(first));
    for t in &reached {
        assert!(t.is_complete());
        // what is reached from a reached tiling is reached
        for u in t.reachable(2) {
            assert!(reached.contains(&u));
        }
    }
}

#[test]
fn every_cover_is_happy_without_a_partial_tiling() {
    let base = Graph::triangle(2);
    let allowed = Graph::triangle(4);
    let partial = BTreeMap::new();
    assert!(check_happy_cover(&base, &allowed, &partial, 2));
}

#[test]
fn search_without_a_partial_tiling_takes_the_base() {
    let base = Graph::triangle(2);
    let extensions = Graph::triangle(3);
    let allowed = Graph::triangle(4);
    let partial = BTreeMap::new();
    let found = search_happy_cover(Graph::triangle(2), &extensions, &allowed, &partial, 2, |_n: Node| 0isize, true);
    assert_eq!(found.unwrap().nodes(), base.nodes());
}

#[test]
fn triangle_of_side_three() {
    let g = Graph::triangle(3);
    assert_eq!(g.nodes(), &vec![(0, 0), (0, 2), (0, 4), (1, 1), (1, 3), (2, 2)]);
    for &(x, y) in g.nodes() {
        assert_eq!((x - y).rem_euclid(2), 0);
    }
}

#[test]
fn worklist_pop_skips_seen_data() {
    let a = Region::from(vec![(0, 0)]);
    let b = Region::from(vec![(1, 1)]);
    let mut w = Worklist::new(
        vec![WithCost(a.clone(), 1), WithCost(b.clone(), 2), WithCost(a.clone(), 3)],
        1,
    );
    let mut seen: Vec<Region> = Vec::new();
    match w.pop(&mut seen) {
        PopStep::Candidate(WithCost(r, cost)) => assert_eq!((r, cost), (a.clone(), 1)),
        _ => panic!("expected a task"),
    }
    match w.pop(&mut seen) {
        PopStep::Candidate(WithCost(r, cost)) => assert_eq!((r, cost), (b.clone(), 2)),
        _ => panic!("expected a task"),
    }
    // the second task on `a` is dropped, and the search ends
    assert!(matches!(w.pop(&mut seen), PopStep::Done));
    assert_eq!(seen, vec![a, b]);
}

#[test]
fn search_with_no_room_to_grow_checks_the_base() {
    let allowed = Graph::triangle(4);
    let tiles: Vec<Vec<Node>> = vec![vec![(0, 0), (0, 2)]];
    let partial = tiling_from_tiles(&tiles);
    for side in 2..4 {
        let base = Graph::triangle(side);
        let checked = check_happy_cover(&base, &allowed, &partial, 2);
        let found = search_happy_cover(
            Graph::triangle(side),
            &Graph::triangle(side),
            &allowed,
            &partial,
            2,
            |n: Node| hex_cost(&partial, n),
            true,
        );
        assert_eq!(found.is_some(), checked);
        if let Some(g) = found {
            assert_eq!(g.nodes(), base.nodes());
        }
    }
}

#[test]
fn search_grows_the_base_until_every_cover_is_happy() {
    let allowed = Graph::triangle(5);
    let tiles: Vec<Vec<Node>> = vec![vec![(0, 0), (0, 2)]];
    let partial = tiling_from_tiles(&tiles);
    let base = Graph::triangle(2);
    let extensions = Graph::triangle(4);
    let found = search_happy_cover(
        Graph::triangle(2),
        &extensions,
        &allowed,
        &partial,
        2,
        |n: Node| hex_cost(&partial, n),
        true,
    );
    if let Some(g) = found {
        for n in base.nodes() {
            assert!(g.contains(n));
        }
        for n in g.nodes() {
            assert!(extensions.contains(n));
        }
        assert!(check_happy_cover(&g, &allowed, &partial, 2));
    } else {
        assert!(!check_happy_cover(&base, &allowed, &partial, 2));
    }
}

#[test]
fn tile_sizes_of_a_partial_tiling() {
    let tiles: Vec<Vec<Node>> = vec![vec![(0, 0), (0, 2)], vec![(1, 1), (1, 3)]];
    let partial = tiling_from_tiles(&tiles);
    assert!(tiles_have_size(&partial, 2));
    assert!(!tiles_have_size(&partial, 3));
    let uneven: Vec<Vec<Node>> = vec![vec![(0, 0), (0, 2)], vec![(1, 1)]];
    assert!(!tiles_have_size(&tiling_from_tiles(&uneven), 2));
    assert!(tiles_have_size(&BTreeMap::new(), 5));
}

#[test]
fn renumbering_forgets_color_names() {
    let g = Graph::triangle(2);
    let mut t1 = Tiling::of_graph(&g);
    t1.set_color((0, 0), Color::new(2));
    t1.set_color((0, 2), Color::new(1));
    t1.set_color((1, 1), Color::new(2));
    let mut t2 = Tiling::of_graph(&g);
    t2.set_color((0, 0), Color::new(5));
    t2.set_color((0, 2), Color::new(3));
    t2.set_color((1, 1), Color::new(5));
    t1.normalize();
    t2.normalize();
    for n in g.nodes() {
        assert_eq!(t1.color(n), t2.color(n));
    }
    assert_eq!(t1.color(&(0, 0)).unwrap().get(), 1);
    assert_eq!(t1.color(&(0, 2)).unwrap().get(), 2);
    assert_eq!(t1.color(&(1, 1)).unwrap().get(), 1);
}

#[test]
fn bottleneck_between_two_triangles_without_size_limit() {
    let g = UGraph {
        node_count: 6,
        edges: vec![(0, 1), (1, 2), (2, 0), (2, 3), (3, 4), (4, 5), (5, 3)],
    };
    let cuts = bottleneck_decompose(&g, 2, 0);
    assert_eq!(cuts.len(), 1);
    assert_eq!(cuts[0].cut_edges, vec![(2, 3)]);
    let mut side = cuts[0].side_a.clone();
    side.sort();
    assert!(side == vec![0, 1, 2] || side == vec![3, 4, 5]);
}

#[test]
fn bottleneck_sides_are_nested_or_disjoint() {
    // a path of four triangles joined by single edges
    let mut edges = Vec::new();
    for t in 0..4usize {
        let b = 3 * t;
        edges.push((b, b + 1));
        edges.push((b + 1, b + 2));
        edges.push((b + 2, b));
        if t > 0 {
            edges.push((b - 1, b));
        }
    }
    let g = UGraph { node_count: 12, edges };
    let cuts = bottleneck_decompose(&g, 2, 0);
    assert_eq!(cuts.len(), 3);
    for (i, a) in cuts.iter().enumerate() {
        assert_eq!(a.cut_edges.len(), 1);
        for b in cuts.iter().skip(i + 1) {
            let inside = b.side_a.iter().all(|x| a.side_a.contains(x));
            let outside = b.side_a.iter().all(|x| !a.side_a.contains(x));
            let around = a.side_a.iter().all(|x| b.side_a.contains(x));
            assert!(inside || outside || around);
        }
    }
}

#[test]
fn search_on_a_row_keeps_the_single_node_base() {
    let row = Graph::from(Region::from(vec![(0, 0), (0, 2), (0, 4)]));
    let base = Graph::from(Region::from(vec![(0, 0)]));
    let partial = BTreeMap::new();
    let found = search_happy_cover(base.clone(), &row, &row, &partial, 2, |_n: Node| 0isize, false);
    assert_eq!(found.unwrap().nodes(), base.nodes());
}

#[test]
fn disjoint_regions_add_their_sizes() {
    let universe = Graph::triangle(4);
    let cr1 = CompactRegion::from(&Region::from(vec![(0, 0), (1, 1)]), &universe);
    let cr2 = CompactRegion::from(&Region::from(vec![(0, 2), (1, 1)]), &universe);
    let cr3 = CompactRegion::from(&Region::from(vec![(0, 2), (2, 2)]), &universe);
    assert!(cr1.is_disjoint(cr3));
    assert_eq!(cr1.bitor(cr3).len(), cr1.len() + cr3.len());
    assert!(!cr1.is_disjoint(cr2));
    assert_ne!(cr1.bitor(cr2).len(), cr1.len() + cr2.len());
}

#[test]
fn counterexamples_only_remove_the_answer() {
    let g = Graph::triangle(2);
    let allowed = Graph::triangle(3);
    let all = Tiling::min_covers(&g, &allowed, 2, &Vec::new()).unwrap();
    assert!(!all.is_empty());
    let cex = all[0].to_region(&allowed);
    assert!(Tiling::min_covers(&g, &allowed, 2, &vec![cex]).is_none());
    let far = Region::from(vec![(2, 2), (2, 4)]);
    assert_eq!(Tiling::min_covers(&g, &allowed, 2, &vec![far]), Some(all));
}

#[test]
fn component_statistics() {
    let g = UGraph {
        node_count: 7,
        edges: vec![(0, 1), (1, 2), (2, 0), (3, 4), (5, 5)],
    };
    let parts = connected_parts(&g);
    assert_eq!(parts.len(), 4);
    let by_size = counts_by_size(&g, &parts);
    assert_eq!(by_size, vec![(1, 2), (2, 1), (3, 1)]);
    let ends = edge_ends_per_part(&g, &parts);
    for (p, e) in parts.iter().zip(ends.iter()) {
        let expected = match p.len() {
            3 => 6,
            2 => 2,
            _ => if p.contains(&5) { 1 } else { 0 },
        };
        assert_eq!(*e, expected);
    }
}

#[test]
fn search_takes_a_region_without_covers() {
    let single = Graph::from(Region::from(vec![(0, 0)]));
    let partial = BTreeMap::new();
    let found = search_happy_cover(single.clone(), &single, &single, &partial, 2, |_n: Node| 0isize, true);
    assert_eq!(found.unwrap().nodes(), single.nodes());
}
