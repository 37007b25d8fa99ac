use std::collections::HashSet;

use arena_graph::addr_hm::AddrHashSet;
use arena_graph::edge::UnweightedEdge;
use arena_graph::{DiGraph, Graph, UndirectedGraph, UnweightedUndirectedGraph};

#[test]
fn arena_insert_index_round_trip() {
    let mut arena: AddrHashSet<usize> = AddrHashSet::with_capacity(8);
    let h42 = arena.insert(42).unwrap();
    let h7 = arena.insert(7).unwrap();
    assert_eq!(*arena.index(h42), 42);
    assert_eq!(*arena.index(h7), 7);
    assert_eq!(arena.len(), 2);
    assert_eq!(arena.capacity(), 8);
    assert!(!arena.is_empty());
    assert!(arena.contains(&42));
    assert!(!arena.contains(&13));
    assert_eq!(arena.get(&7), Some(h7));
    assert_eq!(arena.get(&13), None);
}

#[test]
fn arena_grow_round_trip() {
    let mut arena: AddrHashSet<usize> = AddrHashSet::with_capacity(4);
    let mut handles = Vec::new();
    for v in 0..5 {
        handles.push((v, arena.insert(v).unwrap()));
    }
    let (bigger, map) = AddrHashSet::from_old(arena);
    assert_eq!(bigger.capacity(), 8);
    assert_eq!(bigger.len(), 5);
    for (v, h) in handles {
        let h2 = map.lookup(h).unwrap();
        assert_eq!(*bigger.index(h2), v);
    }
}

#[test]
fn arena_grow_empty_arena() {
    let arena: AddrHashSet<usize> = AddrHashSet::with_capacity(0);
    let (bigger, map) = AddrHashSet::from_old(arena);
    assert_eq!(bigger.capacity(), 32);
    assert_eq!(bigger.len(), 0);
    assert!(map.lookup(arena_graph::addr_hm::VertAddr { table: 0, bucket: 0, sig: 0 }).is_none());
}

#[test]
fn arena_rejects_past_load_threshold() {
    // with one bucket, the load factor threshold of three halves allows two
    // entries and rejects the third
    let mut arena: AddrHashSet<usize> = AddrHashSet::with_capacity(1);
    assert!(arena.insert(1).is_some());
    assert!(arena.insert(2).is_some());
    assert!(arena.insert(3).is_none());
    assert_eq!(arena.len(), 2);
}

#[test]
fn arena_rejects_full_bucket() {
    // thirty-two multiples of thirty-two all land in bucket zero of a
    // thirty-two-bucket table; the thirty-third is rejected although the
    // load factor is still fine
    let mut arena: AddrHashSet<usize> = AddrHashSet::with_capacity(32);
    for v in 0..32 {
        assert!(arena.insert(v * 32).is_some());
    }
    assert!(arena.insert(32 * 32).is_none());
    assert_eq!(arena.len(), 32);
}

#[test]
fn arena_rejects_zero_capacity() {
    let mut arena: AddrHashSet<usize> = AddrHashSet::with_capacity(0);
    assert!(arena.insert(5).is_none());
    assert!(arena.is_empty());
}

#[test]
fn duplicate_vertex_rejected() {
    let mut g = UnweightedUndirectedGraph::<usize>::new();
    let mut accepted: usize = 0;
    for v in [3, 1, 4, 1, 5, 3, 3] {
        if g.insert_vertex(v).is_some() {
            accepted += 1;
        }
    }
    assert_eq!(g.order(), accepted);
    assert_eq!(g.order(), 4);
    assert!(g.contains_key(&4));
    assert!(!g.contains_key(&2));
}

#[test]
fn missing_endpoint_rejected() {
    let mut g = UndirectedGraph::<usize, u16>::new();
    g.insert_vertex(1);
    g.insert_vertex(2);
    assert!(g.insert_undirected_edge(10, &1, &9).is_none());
    assert!(g.insert_undirected_edge(10, &9, &1).is_none());
    assert_eq!(g.size(), 0);
    assert!(g.insert_undirected_edge(10, &1, &2).is_some());
    assert_eq!(g.size(), 1);
}

#[test]
fn directed_edge_counts() {
    let mut g = DiGraph::<char, u8>::new();
    let a = g.insert_vertex('a').unwrap();
    let b = g.insert_vertex('b').unwrap();
    let c = g.insert_vertex('c').unwrap();
    g.insert_directed_edge(1, &'a', &'b');
    g.insert_directed_edge(2, &'a', &'c');
    g.insert_directed_edge(3, &'b', &'c');
    assert_eq!(g.size(), 3);
    assert_eq!(g.get_children(a).count(), 2);
    assert_eq!(g.get_parents(a).count(), 0);
    assert_eq!(g.get_children(b).count(), 1);
    assert_eq!(g.get_parents(b).count(), 1);
    assert_eq!(g.get_parents(c).count(), 2);
    assert_eq!(g.vertex_at(a).degree(), 2);
    assert_eq!(g.vertex_at(b).degree(), 2);
    assert_eq!(g.vertex_at(c).degree(), 2);
    // reachability follows outgoing edges only
    let reach_a: Vec<char> = {
        let mut out = Vec::new();
        let mut it = g.get_reachable(a);
        while let Some(h) = it.next() {
            out.push(*g.vertex_at(h).get());
        }
        out
    };
    assert_eq!(reach_a, vec!['b', 'c']);
    assert_eq!(g.get_reachable(c).count(), 0);
}

#[test]
fn undirected_edge_counts() {
    let mut g = UndirectedGraph::<usize, u16>::new();
    let a = g.insert_vertex(1).unwrap();
    let b = g.insert_vertex(2).unwrap();
    let before_a = g.get_neighbors(a).count();
    let before_b = g.get_neighbors(b).count();
    let old_size = g.size();
    assert!(g.insert_undirected_edge(7, &1, &2).is_some());
    assert_eq!(g.size(), old_size + 1);
    assert_eq!(g.get_neighbors(a).count(), before_a + 1);
    assert_eq!(g.get_neighbors(b).count(), before_b + 1);
}

#[test]
fn traversals_cover_connected_graph_once() {
    let mut g = UnweightedUndirectedGraph::<usize>::new();
    for v in 0..7 {
        g.insert_vertex(v);
    }
    // a cycle plus a chord keeps it connected
    for v in 0..7 {
        g.insert_undirected_edge(UnweightedEdge, &v, &((v + 1) % 7));
    }
    g.insert_undirected_edge(UnweightedEdge, &0, &3);
    assert_eq!(g.breadth_first(None).count(), g.order());
    assert_eq!(g.depth_first(None).count(), g.order());
    let mut seen_bfs: HashSet<usize> = HashSet::new();
    let mut bf = g.breadth_first(None);
    while let Some(h) = bf.next() {
        assert!(seen_bfs.insert(*g.vertex_at(h).get()));
    }
    assert_eq!(seen_bfs.len(), 7);
    let mut seen_dfs: HashSet<usize> = HashSet::new();
    let mut df = g.depth_first(None);
    while let Some(h) = df.next() {
        assert!(seen_dfs.insert(*g.vertex_at(h).get()));
    }
    assert_eq!(seen_dfs.len(), 7);
}

#[test]
fn components_split_disconnected_graph() {
    let mut g = UnweightedUndirectedGraph::<usize>::new();
    for v in 0..6 {
        g.insert_vertex(v);
    }
    g.insert_undirected_edge(UnweightedEdge, &0, &1);
    g.insert_undirected_edge(UnweightedEdge, &1, &2);
    g.insert_undirected_edge(UnweightedEdge, &3, &4);
    g.insert_undirected_edge(UnweightedEdge, &4, &5);
    let mut comps = g.components();
    assert_eq!(comps.count(), 2);
    comps = g.components();
    let mut sizes = Vec::new();
    let mut covered: HashSet<usize> = HashSet::new();
    while let Some(c) = comps.next() {
        sizes.push(c.len());
        for h in c {
            covered.insert(*g.vertex_at(h).get());
        }
    }
    assert_eq!(sizes, vec![3, 3]);
    assert_eq!(covered.len(), 6);
}

#[test]
fn edge_between_finds_either_orientation() {
    let mut g = UndirectedGraph::<usize, u16>::new();
    g.insert_vertex(1);
    g.insert_vertex(2);
    g.insert_vertex(3);
    g.insert_undirected_edge(80, &1, &2);
    let e12 = g.edge_between(&1, &2).unwrap();
    assert_eq!(*e12.get_weight(), 80);
    let e21 = g.edge_between(&2, &1).unwrap();
    assert_eq!(*e21.get_weight(), 80);
    assert!(g.are_adjacent(&1, &2));
    assert!(g.are_adjacent(&2, &1));
    assert!(!g.are_adjacent(&1, &3));
    assert!(g.edge_between(&1, &9).is_none());
    assert!(g.is_empty() == false);
}

#[test]
fn get_vertex_by_value() {
    let mut g = UndirectedGraph::<String, u16>::new();
    g.insert_vertex(String::from("left"));
    g.insert_vertex(String::from("right"));
    let v = g.get_vertex(&String::from("left")).unwrap();
    assert_eq!(v.get(), &String::from("left"));
    assert!(g.get_vertex(&String::from("middle")).is_none());
    let empty = UndirectedGraph::<String, u16>::undirected();
    assert!(empty.is_empty());
    assert_eq!(empty.breadth_first(None).count(), 0);
}

#[test]
fn edge_record_accessors() {
    let mut g = DiGraph::<usize, u16>::new();
    let a = g.insert_vertex(10).unwrap();
    let b = g.insert_vertex(20).unwrap();
    g.insert_directed_edge(5, &10, &20);
    let edges = g.edges();
    assert_eq!(edges.len(), 1);
    assert_eq!(edges[0].get_src(), a);
    assert_eq!(edges[0].get_dst(), b);
    assert_eq!(edges[0].get_end(a), b);
    assert_eq!(edges[0].get_end(b), a);

    let mut u = UndirectedGraph::<usize, u16>::new();
    let x = u.insert_vertex(1).unwrap();
    let y = u.insert_vertex(2).unwrap();
    let z = u.insert_vertex(3).unwrap();
    u.insert_undirected_edge(9, &1, &2);
    let e = u.edge_between(&1, &2).unwrap();
    assert_eq!(e.get_other_endpoint(x), Some(y));
    assert_eq!(e.get_other_endpoint(y), Some(x));
    assert_eq!(e.get_other_endpoint(z), None);
}
