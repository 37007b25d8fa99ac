use std::collections::HashSet;

use arena_graph::edge::UnweightedEdge;
use arena_graph::{DiGraph, Graph, UndirectedGraph, UnweightedUndirectedGraph};

// poset lattice looking tree thing
// edge from 0 to 1..9
// edge from 1 to 10..19
// edge from 2 to 20..29
// etc.
fn numerical_tree(n: usize) -> UnweightedUndirectedGraph<usize> {
    let mut g = Graph::new();
    g.insert_vertex(0);
    for i in 1..n {
        g.insert_vertex(i);
        let res = g.insert_undirected_edge(UnweightedEdge, &(i / 10), &i);
        assert!(res.is_some());
    }
    g
}

#[test]
fn insert() {
    let mut g = DiGraph::<char, u8>::new();
    g.insert_vertex('A');
    g.insert_vertex('B');
    g.insert_vertex('C');
    g.insert_directed_edge(1, &'A', &'B');
    g.insert_directed_edge(2, &'B', &'C');
    g.insert_directed_edge(3, &'C', &'A');
}

#[test]
fn comprehensive_iter() {
    const TREE_SIZE: usize = 100;
    let g = numerical_tree(TREE_SIZE);
    let mut seen: HashSet<usize> = HashSet::new();
    let mut it = g.vertices();
    while let Some(h) = it.next() {
        let n: &usize = g.vertex_at(h).get();
        assert!(seen.contains(n) == false);
        seen.insert(*n);
    }
    assert_eq!(TREE_SIZE, seen.len());
    assert_eq!(TREE_SIZE, g.order());
    assert_eq!(TREE_SIZE - 1, g.size());
}

#[test]
fn neighborhood_sizes() {
    let g = numerical_tree(100);
    let mut it = g.vertices();
    while let Some(h) = it.next() {
        let vert = g.vertex_at(h);
        let degree = match *vert.get() {
            0 => 9,          // edge to 0..9
            1..=9 => 1 + 10, // edge to 0 and n0..n9
            10..=99 => 1,    // edge to range(00,90,10)
            _ => unreachable!(),
        };
        assert_eq!(vert.degree(), degree, "Failed at node {:?}", vert.get());
    }
}

#[test]
fn depth_first_lattice_undir() {
    // 0, 1, 10, 11, .., 19, 2, 20, 21, .., 29, 3, ...
    let g = numerical_tree(100);
    assert_eq!(100, g.depth_first(None).count());
    let start = g.get_addr(&0).unwrap();
    let mut df = g.depth_first(Some(start));
    assert_eq!(0, *g.vertex_at(df.next().unwrap()).get());
    for _tens in 1..10 {
        let x = *g.vertex_at(df.next().unwrap()).get();
        assert!(x > 0);
        assert!(x < 10);
        for _ones in 0..10 {
            let xx = *g.vertex_at(df.next().unwrap()).get();
            assert!(xx > 9);
            assert!(xx < 100);
            assert_eq!(x, xx / 10);
        }
    }
    let mid = g.get_addr(&5).unwrap();
    assert_eq!(100, g.depth_first(Some(mid)).count());
}

#[test]
fn breadth_first_lattice_undir() {
    let g = numerical_tree(100);
    let start = g.get_addr(&42).unwrap();
    assert_eq!(100, g.breadth_first(Some(start)).count());
    assert_eq!(100, g.breadth_first(None).count());

    let root = g.get_addr(&0).unwrap();
    let mut bf = g.breadth_first(Some(root));
    let mut i: usize = 0;
    while let Some(h) = bf.next() {
        let x: usize = *g.vertex_at(h).get();
        match i {
            0 => assert_eq!(x, 0, "started at wrong node"),
            1..=9 => {
                assert!(x > 0);
                assert!(x < 10)
            }
            10..=99 => {
                assert!(x > 9);
                assert!(x < 100)
            }
            _ => unreachable!(),
        }
        i += 1;
    }
}

// https://en.wikipedia.org/wiki/File:MapGermanyGraph.svg
fn germany_wiki_map() -> UndirectedGraph<String, u16> {
    let mut g = Graph::new();
    g.insert_vertex(String::from("Augsburg"));
    g.insert_vertex(String::from("Erfurt"));
    g.insert_vertex(String::from("Frankfurt"));
    g.insert_vertex(String::from("Karlsruhe"));
    g.insert_vertex(String::from("Kassel"));
    g.insert_vertex(String::from("Mannheim"));
    g.insert_vertex(String::from("München"));
    g.insert_vertex(String::from("Nürnberg"));
    g.insert_vertex(String::from("Stuttgart"));
    g.insert_vertex(String::from("Würzburg"));
    g.insert_undirected_edge(103, &String::from("Nürnberg"), &String::from("Würzburg"));
    g.insert_undirected_edge(167, &String::from("München"), &String::from("Nürnberg"));
    g.insert_undirected_edge(173, &String::from("Frankfurt"), &String::from("Kassel"));
    g.insert_undirected_edge(183, &String::from("Nürnberg"), &String::from("Stuttgart"));
    g.insert_undirected_edge(186, &String::from("Erfurt"), &String::from("Würzburg"));
    g.insert_undirected_edge(217, &String::from("Frankfurt"), &String::from("Würzburg"));
    g.insert_undirected_edge(250, &String::from("Augsburg"), &String::from("München"));
    g.insert_undirected_edge(250, &String::from("Augsburg"), &String::from("Karlsruhe"));
    g.insert_undirected_edge(502, &String::from("Kassel"), &String::from("München"));
    g.insert_undirected_edge(80, &String::from("Karlsruhe"), &String::from("Mannheim"));
    g.insert_undirected_edge(85, &String::from("Frankfurt"), &String::from("Mannheim"));
    g
}

#[test]
fn bfs_germany_undir() {
    let g = germany_wiki_map();
    assert_eq!(g.order(), g.breadth_first(None).count());
    let start = g.get_addr(&String::from("Frankfurt")).unwrap();
    // https://en.wikipedia.org/wiki/File:GermanyBFS.svg
    let rows: Vec<Vec<String>> = vec![
        vec![String::from("Frankfurt")],
        vec![
            String::from("Mannheim"),
            String::from("Würzburg"),
            String::from("Kassel"),
        ],
        vec![
            String::from("Karlsruhe"),
            String::from("Nürnberg"),
            String::from("Erfurt"),
            String::from("München"),
        ],
        vec![String::from("Augsburg"), String::from("Stuttgart")],
    ];
    assert_eq!(g.order(), rows.iter().map(|v| v.len()).sum());
    let mut cities = g.breadth_first(Some(start));
    for row in rows {
        for _ in 0..row.len() {
            let city = cities.next().unwrap();
            assert!(row.contains(g.vertex_at(city).get()));
        }
    }
    assert!(cities.next().is_none());
}
