use algokit::graph::{DepthFirst, Graph, Grid, UnweightedGraph, WeightedGraph};

fn unweighted(lists: &[&[usize]]) -> UnweightedGraph {
    UnweightedGraph { n: lists.len(), g: lists.iter().map(|l| l.to_vec()).collect() }
}

fn open_grid(h: usize, w: usize, is_8way: bool) -> Grid {
    Grid { is_8way, h, w, g: vec![vec![true; w]; h] }
}

#[test]
fn dfs_over_a_chain() {
    let g = unweighted(&[&[1], &[2], &[3], &[]]);
    let mut pre = vec![0usize];
    let mut post = Vec::new();
    g.dfs(
        (0usize, ()),
        |_from, to, _cost, _data| {
            pre.push(*to);
            Some(())
        },
        |idx, _data| post.push(*idx),
    );
    assert_eq!(pre, vec![0, 1, 2, 3]);
    assert_eq!(post, vec![3, 2, 1, 0]);
}

#[test]
fn dfs_over_a_cycle_ends() {
    let g = unweighted(&[&[1], &[2], &[0]]);
    let mut edges = Vec::new();
    let mut post = Vec::new();
    g.dfs(
        (0usize, ()),
        |from, to, _cost, _data| {
            edges.push((*from, *to));
            Some(())
        },
        |idx, _data| post.push(*idx),
    );
    assert_eq!(edges, vec![(0, 1), (1, 2)]);
    assert_eq!(post, vec![2, 1, 0]);
    for node in 0..3 {
        assert_eq!(post.iter().filter(|&&p| p == node).count(), 1);
    }
}

#[test]
fn dfs_from_the_middle_of_a_cycle() {
    let g = unweighted(&[&[1], &[2], &[0]]);
    let mut post = Vec::new();
    g.dfs((1usize, ()), |_, _, _, _| Some(()), |idx, _| post.push(*idx));
    assert_eq!(post, vec![0, 2, 1]);
}

#[test]
fn dfs_walks_the_last_edge_first() {
    let g = unweighted(&[&[1, 2, 3], &[], &[], &[]]);
    let mut offered = Vec::new();
    let mut post = Vec::new();
    g.dfs(
        (0usize, ()),
        |_from, to, _cost, _data| {
            offered.push(*to);
            Some(())
        },
        |idx, _data| post.push(*idx),
    );
    assert_eq!(offered, vec![1, 2, 3]);
    assert_eq!(post, vec![3, 2, 1, 0]);
}

#[test]
fn dfs_hands_the_payload_down() {
    let g = unweighted(&[&[1, 4], &[2], &[3], &[], &[]]);
    let mut depth_at_post = vec![usize::MAX; 5];
    let mut seen = Vec::new();
    g.dfs(
        (0usize, 0usize),
        |from, to, cost, depth| {
            seen.push((*from, *to, *cost, *depth));
            Some(*depth + 1)
        },
        |idx, depth| depth_at_post[*idx] = *depth,
    );
    assert_eq!(depth_at_post, vec![0, 1, 2, 3, 1]);
    assert_eq!(seen, vec![(0, 1, 1, 0), (0, 4, 1, 0), (1, 2, 1, 1), (2, 3, 1, 2)]);
}

#[test]
fn dfs_does_not_walk_what_pre_order_declines() {
    let g = unweighted(&[&[1, 2], &[3], &[4], &[], &[]]);
    let mut post = Vec::new();
    g.dfs(
        (0usize, ()),
        |_from, to, _cost, _data| if *to == 1 { None } else { Some(()) },
        |idx, _data| post.push(*idx),
    );
    assert_eq!(post, vec![4, 2, 0]);
}

#[test]
fn dfs_skips_edges_to_marked_nodes() {
    // 1 and 2 both lead back to 0, and 0 to itself
    let g = unweighted(&[&[0, 1, 2], &[0], &[0, 1]]);
    let mut edges = Vec::new();
    let mut post = Vec::new();
    g.dfs(
        (0usize, ()),
        |from, to, _, _| {
            edges.push((*from, *to));
            Some(())
        },
        |idx, _| post.push(*idx),
    );
    // when 2 is expanded, 1 is pushed a second time: it is expanded before
    // the frame that 0 pushed for it comes up
    assert_eq!(edges, vec![(0, 1), (0, 2), (2, 1)]);
    assert_eq!(post, vec![1, 2, 1, 0]);
}

#[test]
fn dfs_expands_a_node_pushed_twice_twice() {
    let g = unweighted(&[&[2, 1], &[2], &[]]);
    let mut edges = Vec::new();
    let mut post = Vec::new();
    g.dfs(
        (0usize, ()),
        |from, to, _, _| {
            edges.push((*from, *to));
            Some(())
        },
        |idx, _| post.push(*idx),
    );
    assert_eq!(edges, vec![(0, 2), (0, 1), (1, 2)]);
    assert_eq!(post, vec![2, 1, 2, 0]);
}

#[test]
fn dfs_of_a_single_node() {
    let g = unweighted(&[&[]]);
    let mut calls = 0;
    let mut post = Vec::new();
    g.dfs(
        (0usize, 5u8),
        |_, _, _, _| {
            calls += 1;
            Some(0u8)
        },
        |idx, data| post.push((*idx, *data)),
    );
    assert_eq!(calls, 0);
    assert_eq!(post, vec![(0, 5)]);
}

#[test]
fn dfs_on_a_deep_chain_does_not_overflow() {
    let n = 200_000;
    let g = UnweightedGraph {
        n,
        g: (0..n).map(|i| if i + 1 < n { vec![i + 1] } else { vec![] }).collect(),
    };
    let mut deepest = 0usize;
    let mut posts = 0usize;
    g.dfs(
        (0usize, 0usize),
        |_, _, _, depth| Some(*depth + 1),
        |_, depth| {
            posts += 1;
            if *depth > deepest {
                deepest = *depth;
            }
        },
    );
    assert_eq!(posts, n);
    assert_eq!(deepest, n - 1);
}

#[test]
fn dfs_over_weighted_edges_sums_costs() {
    let g = WeightedGraph { n: 4, g: vec![vec![(1, 10i64), (2, 20)], vec![(3, 5)], vec![], vec![]] };
    let mut dist = vec![-1i64; 4];
    g.dfs(
        (0usize, 0i64),
        |_from, _to, cost, sum| Some(*sum + *cost),
        |idx, sum| dist[*idx] = *sum,
    );
    assert_eq!(dist, vec![0, 10, 20, 15]);
}

#[test]
fn dfs_over_a_grid_reaches_the_open_region() {
    // . . #
    // # . #
    // . # .
    let g = Grid {
        is_8way: false,
        h: 3,
        w: 3,
        g: vec![vec![true, true, false], vec![false, true, false], vec![true, false, true]],
    };
    let mut post = Vec::new();
    g.dfs(((0usize, 0usize), ()), |_, _, _, _| Some(()), |idx, _| post.push(*idx));
    assert_eq!(post, vec![(1, 1), (0, 1), (0, 0)]);
    let g8 = Grid { is_8way: true, ..g };
    let mut reached = Vec::new();
    g8.dfs(((0usize, 0usize), ()), |_, _, _, _| Some(()), |idx, _| reached.push(*idx));
    reached.sort();
    reached.dedup();
    assert_eq!(reached, vec![(0, 0), (0, 1), (1, 1), (2, 0), (2, 2)]);
}

#[test]
fn dfs_from_a_blocked_cell_visits_only_that_cell() {
    let mut g = open_grid(2, 2, true);
    g.g[0][0] = false;
    let mut calls = 0;
    let mut post = Vec::new();
    g.dfs(
        ((0usize, 0usize), ()),
        |_, _, _, _| {
            calls += 1;
            Some(())
        },
        |idx, _| post.push(*idx),
    );
    assert_eq!(calls, 0);
    assert_eq!(post, vec![(0, 0)]);
}

#[test]
fn grid_centre_has_four_or_eight_neighbours() {
    let g = open_grid(3, 3, false);
    assert_eq!(
        g.edges((1, 1)),
        vec![((0, 1), 1), ((1, 0), 1), ((1, 2), 1), ((2, 1), 1)]
    );
    let g = open_grid(3, 3, true);
    assert_eq!(
        g.edges((1, 1)),
        vec![
            ((0, 0), 1),
            ((0, 1), 1),
            ((0, 2), 1),
            ((1, 0), 1),
            ((1, 2), 1),
            ((2, 0), 1),
            ((2, 1), 1),
            ((2, 2), 1)
        ]
    );
}

#[test]
fn grid_edges_stay_on_the_grid() {
    let g = open_grid(3, 4, true);
    assert_eq!(g.edges((0, 0)), vec![((0, 1), 1), ((1, 0), 1), ((1, 1), 1)]);
    assert_eq!(g.edges((2, 3)), vec![((1, 2), 1), ((1, 3), 1), ((2, 2), 1)]);
    assert_eq!(
        g.edges((0, 2)),
        vec![((0, 1), 1), ((0, 3), 1), ((1, 1), 1), ((1, 2), 1), ((1, 3), 1)]
    );
    let g = open_grid(3, 4, false);
    assert_eq!(g.edges((0, 0)), vec![((0, 1), 1), ((1, 0), 1)]);
    assert_eq!(g.edges((2, 3)), vec![((1, 3), 1), ((2, 2), 1)]);
    let g = open_grid(1, 1, true);
    assert_eq!(g.edges((0, 0)), vec![]);
}

#[test]
fn grid_edges_avoid_blocked_cells() {
    let mut g = open_grid(3, 3, true);
    g.g[0][1] = false;
    g.g[2][2] = false;
    assert_eq!(
        g.edges((1, 1)),
        vec![((0, 0), 1), ((0, 2), 1), ((1, 0), 1), ((1, 2), 1), ((2, 0), 1), ((2, 1), 1)]
    );
    // no edge leaves a blocked cell
    assert_eq!(g.edges((0, 1)), vec![]);
    assert_eq!(g.edges((2, 2)), vec![]);
    g.is_8way = false;
    assert_eq!(g.edges((1, 1)), vec![((1, 0), 1), ((1, 2), 1), ((2, 1), 1)]);
}

#[test]
fn grid_cells_are_numbered_row_by_row() {
    let g = open_grid(3, 5, false);
    assert_eq!(g.len(), 15);
    assert!(!g.is_empty());
    assert_eq!(g.idx_to_usize((0, 0)), 0);
    assert_eq!(g.idx_to_usize((0, 4)), 4);
    assert_eq!(g.idx_to_usize((1, 0)), 5);
    assert_eq!(g.idx_to_usize((2, 3)), 13);
    assert_eq!(g.idx_to_usize((2, 4)), 14);
    let mut seen = vec![false; g.len()];
    for x in 0..3 {
        for y in 0..5 {
            let k = g.idx_to_usize((x, y));
            assert!(k < g.len());
            assert!(!seen[k]);
            seen[k] = true;
        }
    }
    assert!(seen.iter().all(|&s| s));
    let tall = open_grid(5, 2, false);
    assert_eq!(tall.idx_to_usize((4, 1)), 9);
    assert_eq!(tall.len(), 10);
}

#[test]
fn empty_graphs_are_empty() {
    assert!(unweighted(&[]).is_empty());
    assert_eq!(unweighted(&[]).len(), 0);
    assert!(!unweighted(&[&[]]).is_empty());
    assert!(WeightedGraph::<u8> { n: 0, g: vec![] }.is_empty());
    assert!(open_grid(0, 0, false).is_empty());
    assert!(open_grid(0, 3, true).is_empty());
    assert!(Grid { is_8way: false, h: 2, w: 0, g: vec![vec![], vec![]] }.is_empty());
}

#[test]
fn list_graph_edges_and_ordinals() {
    let g = unweighted(&[&[2, 1, 1], &[], &[0]]);
    assert_eq!(g.len(), 3);
    assert_eq!(g.edges(0), vec![(2, 1), (1, 1), (1, 1)]);
    assert_eq!(g.edges(1), vec![]);
    assert_eq!(g.edges(2), vec![(0, 1)]);
    assert_eq!(g.idx_to_usize(2), 2);
    let w = WeightedGraph { n: 2, g: vec![vec![(1, -3i32), (0, 8)], vec![]] };
    assert_eq!(w.len(), 2);
    assert_eq!(w.edges(0), vec![(1, -3), (0, 8)]);
    assert_eq!(w.edges(1), vec![]);
    assert_eq!(w.idx_to_usize(1), 1);
}

#[test]
fn ordinals_of_a_complete_graph_cover_every_number_once() {
    for n in 1..12usize {
        let g = UnweightedGraph { n, g: (0..n).map(|_| (0..n).collect()).collect() };
        for from in 0..n {
            let mut seen = vec![0usize; n];
            for (to, _cost) in g.edges(from) {
                seen[g.idx_to_usize(to)] += 1;
            }
            assert!(seen.iter().all(|&c| c == 1));
        }
    }
    let g = open_grid(2, 2, true);
    let mut seen = vec![0usize; 4];
    seen[g.idx_to_usize((0, 0))] += 1;
    for (to, _cost) in g.edges((0, 0)) {
        seen[g.idx_to_usize(to)] += 1;
    }
    assert_eq!(seen, vec![1, 1, 1, 1]);
}
