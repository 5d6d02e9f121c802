use advent_of_code::year_2015::day_09::{Edge, Graph};

#[test]
fn test_shortest_path() {
    let mut graph = Graph::new();

    if let Ok(edge) = Edge::from_str("London to Dublin = 464") {
        graph.add_edge(edge);
    };
    if let Ok(edge) = Edge::from_str("London to Belfast = 518") {
        graph.add_edge(edge);
    };
    if let Ok(edge) = Edge::from_str("Dublin to Belfast = 141") {
        graph.add_edge(edge);
    }

    let min = graph.shortest_path();
    assert_eq!(min, 605);
}

#[test]
fn test_longest_path() {
    let mut graph = Graph::new();

    if let Ok(edge) = Edge::from_str("London to Dublin = 464") {
        graph.add_edge(edge);
    };
    if let Ok(edge) = Edge::from_str("London to Belfast = 518") {
        graph.add_edge(edge);
    };
    if let Ok(edge) = Edge::from_str("Dublin to Belfast = 141") {
        graph.add_edge(edge);
    }

    let min = graph.longest_path();
    assert_eq!(min, 982);
}

#[test]
fn test_edge_from_str() {
    let edge = Edge::from_str("London to Dublin = 464").unwrap();
    assert_eq!(edge.origin, "London");
    assert_eq!(edge.destination, "Dublin");
    assert_eq!(edge.weight, 464);
}

#[test]
fn test_edge_from_str_bad_input() {
    assert!(Edge::from_str("").is_err());
    assert!(Edge::from_str("London to Dublin").is_err());
    assert!(Edge::from_str("London to Dublin = x").is_err());
    assert!(Edge::from_str("London Dublin = 464").is_err());
}

#[test]
fn test_single_place_path() {
    let mut graph = Graph::new();
    if let Ok(edge) = Edge::from_str("Oslo to Oslo = 7") {
        graph.add_edge(edge);
    }
    // One known place: the only route stays put and costs nothing.
    assert_eq!(graph.shortest_path(), 0);
    assert_eq!(graph.longest_path(), 0);
}

#[test]
fn test_latest_distance_wins() {
    let mut graph = Graph::new();
    if let Ok(edge) = Edge::from_str("Oslo to Bergen = 100") {
        graph.add_edge(edge);
    }
    if let Ok(edge) = Edge::from_str("Bergen to Oslo = 42") {
        graph.add_edge(edge);
    }
    assert_eq!(graph.shortest_path(), 42);
    assert_eq!(graph.longest_path(), 42);
}
