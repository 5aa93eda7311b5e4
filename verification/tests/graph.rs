use baking_formula::graph::{bfs_order, lies_on_cycle, validate_structure, Flaw};

/// Graphs of up to seven nodes with up to three edges from each, drawn from a
/// fixed seed.
fn samples() -> Vec<Vec<Vec<usize>>> {
    let mut seed: u64 = 0x9E3779B97F4A7C15;
    let mut next = move || {
        seed ^= seed << 13;
        seed ^= seed >> 7;
        seed ^= seed << 17;
        seed
    };
    let mut graphs = Vec::new();
    for _ in 0..3000 {
        let n = 1 + (next() % 7) as usize;
        let mut lists = Vec::new();
        for _ in 0..n {
            let edges = (next() % 4) as usize;
            let mut list = Vec::new();
            for _ in 0..edges {
                list.push((next() % n as u64) as usize);
            }
            lists.push(list);
        }
        graphs.push(lists);
    }
    graphs
}

/// For each pair of nodes the least number of edges of a walk from the one
/// to the other, of at least `least` edges.
fn distances(lists: &Vec<Vec<usize>>, least: usize) -> Vec<Vec<Option<usize>>> {
    let n = lists.len();
    let mut best: Vec<Vec<Option<usize>>> = vec![vec![None; n]; n];
    for u in 0..n {
        if least == 0 {
            best[u][u] = Some(0);
        }
        // walks of exactly `d` edges, for growing `d`
        let mut ends = vec![false; n];
        ends[u] = true;
        for d in 1..=n {
            let mut further = vec![false; n];
            for v in 0..n {
                if ends[v] {
                    for &w in &lists[v] {
                        further[w] = true;
                    }
                }
            }
            for v in 0..n {
                if further[v] && best[u][v].is_none() {
                    best[u][v] = Some(d);
                }
            }
            ends = further;
        }
    }
    best
}

#[test]
fn the_verdict_names_the_first_node_at_fault() {
    for lists in samples() {
        let n = lists.len();
        let reach = distances(&lists, 0);
        let around = distances(&lists, 1);
        for c in 0..n {
            assert_eq!(lies_on_cycle(&lists, c), around[c][c].is_some());
        }
        for root in 0..n {
            let cycle = (0..n).find(|&v| reach[root][v].is_some() && around[v][v].is_some());
            let gap = (0..n).find(|&v| reach[root][v].is_none());
            let expected = match (cycle, gap) {
                (Some(v), _) => Err(Flaw::Cycle(v)),
                (None, Some(v)) => Err(Flaw::Gap(v)),
                (None, None) => Ok(()),
            };
            assert_eq!(validate_structure(&lists, root), expected);
        }
    }
}

#[test]
fn breadth_first_goes_by_distance() {
    for lists in samples() {
        let n = lists.len();
        let reach = distances(&lists, 0);
        for root in 0..n {
            let order = bfs_order(&lists, root);
            assert_eq!(order[0], root);
            // every node within reach, once
            let mut sorted = order.clone();
            sorted.sort();
            sorted.dedup();
            assert_eq!(sorted.len(), order.len());
            let within: Vec<usize> = (0..n).filter(|&v| reach[root][v].is_some()).collect();
            assert_eq!(sorted, within);
            // none before a nearer one
            for pair in order.windows(2) {
                assert!(reach[root][pair[0]].unwrap() <= reach[root][pair[1]].unwrap());
            }
            // each but the root behind a node that points to it
            for i in 1..order.len() {
                assert!((0..i).any(|a| lists[order[a]].contains(&order[i])));
            }
            // the nodes a node brings in come in the order of its edges
            let mut expected = vec![root];
            let mut head = 0;
            while head < expected.len() {
                for &w in &lists[expected[head]] {
                    if !expected.contains(&w) {
                        expected.push(w);
                    }
                }
                head += 1;
            }
            assert_eq!(order, expected);
        }
    }
}
