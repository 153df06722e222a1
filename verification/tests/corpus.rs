use graph_simulation::algorithm::simulation::Simulation;
use graph_simulation::graph::base::{check_well_formed, Graph};
use graph_simulation::graph::labeled_graph::StandardLabeledGraph;

const CORPUS: [(&str, &str); 5] = [
    ("path_in_cycle", "t 3 2 0  1 a 2 b 3 c  1 2 2 3   3 3 0  10 a 20 b 30 c  10 20 20 30 30 10"),
    ("edge_in_path", "t 2 1 0  1 a 2 b  1 2   3 2 0  10 a 20 b 30 b  10 20 20 30"),
    ("loop_without_partner", "f 1 1 0  1 a  1 1   1 0 0  7 a"),
    ("label_without_partner", "f 2 1 0  1 a 2 z  1 2   2 1 0  10 a 20 b  10 20"),
    ("twin_branches", "t 3 2 0  1 a 2 b 3 b  1 2 1 3   2 1 0  10 a 20 b  10 20"),
];

fn read_graph<'a>(tokens: &mut impl Iterator<Item = &'a str>) -> StandardLabeledGraph {
    let n: usize = tokens.next().unwrap().parse().unwrap();
    let m: usize = tokens.next().unwrap().parse().unwrap();
    let _: usize = tokens.next().unwrap().parse().unwrap();
    let mut graph = StandardLabeledGraph::new();
    for _ in 0..n {
        let node: u64 = tokens.next().unwrap().parse().unwrap();
        let label: String = tokens.next().unwrap().parse().unwrap();
        graph.add_node(node, label);
    }
    for _ in 0..m {
        let source: u64 = tokens.next().unwrap().parse().unwrap();
        let destination: u64 = tokens.next().unwrap().parse().unwrap();
        graph.add_edge(source, destination);
    }
    assert_eq!(check_well_formed(&graph), Ok(()));
    graph
}

fn read_case(content: &str) -> (bool, StandardLabeledGraph, StandardLabeledGraph) {
    let mut tokens = content.split_whitespace();
    let is_true = tokens.next().unwrap() == "t";
    let graph1 = read_graph(&mut tokens);
    let graph2 = read_graph(&mut tokens);
    (is_true, graph1, graph2)
}

#[test]
fn simulation_native_test() {
    for (_, content) in CORPUS {
        let (is_true, graph1, graph2) = read_case(content);
        let sim = graph1.get_simulation_native(&graph2);
        let has_sim = StandardLabeledGraph::has_simulation(sim);
        assert_eq!(has_sim, is_true);
    }
}

#[test]
fn test_simulation() {
    for (graph_name, content) in CORPUS {
        let (is_true, graph1, graph2) = read_case(content);
        let sim = graph1.get_simulation_inter(&graph2);
        let has_sim = StandardLabeledGraph::has_simulation(sim);

        match (is_true, has_sim) {
            (true, true) => assert!(true),
            (false, false) => assert!(true),
            (true, false) => {
                println!("{}: Test failed at: Expected isomorphic, got no simulation", graph_name);
                assert!(false);
            }
            (false, true) => {
                println!("{}: Test warm: graphs no isomorphic, got simulation", graph_name);
            }
        }
    }
}

#[test]
fn simulation_same() {
    for (graph_name, content) in CORPUS {
        let (is_true, graph1, graph2) = read_case(content);
        let sim1 = graph1.get_simulation_inter(&graph2);
        let sim2 = graph1.get_simulation_native(&graph2);

        println!("graphs {} is {}", graph_name, if is_true { "isomorphic" } else { "not isomorphic" });

        for u in graph1.nodes() {
            let sim1_u = sim1.get(&u.id).unwrap();
            let sim2_u = sim2.get(&u.id).unwrap();

            assert!(sim1_u == sim2_u);
        }
    }
}
