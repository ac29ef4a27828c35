use flight_search::error::SearchError;
use flight_search::neighbours::{
    compute_neighbours, copy_airports, lists_airport, Adjacency, RouteEdge,
};
use flight_search::paths::find_all_paths;

fn code(s: &str) -> String {
    s.to_string()
}

fn route(from: &str, to: &str) -> RouteEdge {
    RouteEdge { departure_airport: code(from), arrival_airport: code(to) }
}

fn path(airports: &[&str]) -> Vec<String> {
    airports.iter().map(|a| a.to_string()).collect()
}

fn diamond() -> Adjacency {
    compute_neighbours(&vec![route("A", "B"), route("A", "C"), route("B", "D"), route("C", "D")])
}

#[test]
fn diamond_has_exactly_two_paths() {
    let found = find_all_paths(&diamond(), &code("A"), &code("D"), 3).unwrap();
    assert_eq!(found, vec![path(&["A", "B", "D"]), path(&["A", "C", "D"])]);
}

#[test]
fn diamond_with_an_entry_for_every_airport_has_exactly_two_paths() {
    // {A: [B, C], B: [D], C: [D], D: []}
    let mut adjacency = Adjacency::new();
    adjacency.add_route(&code("A"), &code("B"));
    adjacency.add_route(&code("A"), &code("C"));
    adjacency.add_route(&code("B"), &code("D"));
    adjacency.add_route(&code("C"), &code("D"));
    adjacency.add_airport(&code("D"));
    assert_eq!(adjacency.neighbours(&code("D")), Some(&Vec::new()));
    let found = find_all_paths(&adjacency, &code("A"), &code("D"), 3).unwrap();
    assert_eq!(found, vec![path(&["A", "B", "D"]), path(&["A", "C", "D"])]);
}

#[test]
fn cycle_with_an_entry_for_every_airport_is_never_taken() {
    // {A: [B], B: [A, C], C: []}
    let mut adjacency = Adjacency::new();
    adjacency.add_route(&code("A"), &code("B"));
    adjacency.add_route(&code("B"), &code("A"));
    adjacency.add_route(&code("B"), &code("C"));
    adjacency.add_airport(&code("C"));
    let found = find_all_paths(&adjacency, &code("A"), &code("C"), 5).unwrap();
    assert_eq!(found, vec![path(&["A", "B", "C"])]);
}

#[test]
fn add_airport_keeps_an_entry_that_is_there() {
    let mut adjacency = Adjacency::new();
    adjacency.add_airport(&code("A"));
    assert_eq!(adjacency.neighbours(&code("A")), Some(&Vec::new()));
    adjacency.add_route(&code("A"), &code("B"));
    adjacency.add_airport(&code("A"));
    assert_eq!(adjacency.neighbours(&code("A")), Some(&path(&["B"])));
    assert_eq!(adjacency.neighbours(&code("B")), None);
}

#[test]
fn cycle_is_never_taken() {
    let adjacency = compute_neighbours(&vec![route("A", "B"), route("B", "A"), route("B", "C")]);
    let found = find_all_paths(&adjacency, &code("A"), &code("C"), 5).unwrap();
    assert_eq!(found, vec![path(&["A", "B", "C"])]);
}

#[test]
fn origin_without_entry_gives_empty_result() {
    let found = find_all_paths(&diamond(), &code("Z"), &code("D"), 3);
    assert_eq!(found, Ok(Vec::<Vec<String>>::new()));
}

#[test]
fn empty_topology_gives_empty_result() {
    let found = find_all_paths(&Adjacency::new(), &code("A"), &code("B"), 4);
    assert_eq!(found, Ok(Vec::<Vec<String>>::new()));
}

#[test]
fn airport_without_entry_is_a_dead_end() {
    // B is reached but has no entry of its own.
    let adjacency = compute_neighbours(&vec![route("A", "B"), route("A", "C"), route("C", "D")]);
    let found = find_all_paths(&adjacency, &code("A"), &code("D"), 4).unwrap();
    assert_eq!(found, vec![path(&["A", "C", "D"])]);
}

#[test]
fn zero_depth_is_refused() {
    assert_eq!(find_all_paths(&diamond(), &code("A"), &code("B"), 0), Err(SearchError::InvalidDepth));
    assert_eq!(find_all_paths(&diamond(), &code("A"), &code("A"), 0), Err(SearchError::InvalidDepth));
}

#[test]
fn one_route_bound_finds_the_direct_path_only() {
    let adjacency = diamond();
    assert_eq!(
        find_all_paths(&adjacency, &code("A"), &code("B"), 1).unwrap(),
        vec![path(&["A", "B"])]
    );
    assert_eq!(
        find_all_paths(&adjacency, &code("A"), &code("D"), 1).unwrap(),
        Vec::<Vec<String>>::new()
    );
}

#[test]
fn depth_bound_counts_routes() {
    let chain = compute_neighbours(&vec![route("A", "B"), route("B", "C"), route("C", "D")]);
    assert!(find_all_paths(&chain, &code("A"), &code("D"), 2).unwrap().is_empty());
    assert_eq!(
        find_all_paths(&chain, &code("A"), &code("D"), 3).unwrap(),
        vec![path(&["A", "B", "C", "D"])]
    );
    assert_eq!(
        find_all_paths(&chain, &code("A"), &code("D"), usize::MAX).unwrap(),
        vec![path(&["A", "B", "C", "D"])]
    );
}

#[test]
fn origin_equal_to_destination_is_the_path_of_one_airport() {
    assert_eq!(find_all_paths(&diamond(), &code("A"), &code("A"), 3).unwrap(), vec![path(&["A"])]);
    // Also where the airport has no entry at all.
    assert_eq!(find_all_paths(&diamond(), &code("Q"), &code("Q"), 3).unwrap(), vec![path(&["Q"])]);
}

#[test]
fn walk_stops_at_the_destination() {
    // D leads on to E and back to the destination's neighbours, but a path
    // ends where it first meets D.
    let adjacency = compute_neighbours(&vec![
        route("A", "D"),
        route("D", "E"),
        route("E", "D"),
        route("A", "E"),
    ]);
    let found = find_all_paths(&adjacency, &code("A"), &code("D"), 5).unwrap();
    assert_eq!(found, vec![path(&["A", "D"]), path(&["A", "E", "D"])]);
}

#[test]
fn paths_come_in_the_order_of_the_successor_lists() {
    let adjacency = compute_neighbours(&vec![
        route("A", "C"),
        route("A", "B"),
        route("B", "D"),
        route("C", "D"),
        route("A", "D"),
    ]);
    let found = find_all_paths(&adjacency, &code("A"), &code("D"), 3).unwrap();
    assert_eq!(found, vec![path(&["A", "C", "D"]), path(&["A", "B", "D"]), path(&["A", "D"])]);
}

#[test]
fn found_paths_are_simple_and_within_the_bound() {
    let adjacency = compute_neighbours(&vec![
        route("A", "B"),
        route("B", "C"),
        route("C", "A"),
        route("C", "D"),
        route("B", "D"),
        route("A", "D"),
        route("D", "A"),
    ]);
    let max_depth = 3;
    let found = find_all_paths(&adjacency, &code("A"), &code("D"), max_depth).unwrap();
    assert_eq!(
        found,
        vec![path(&["A", "B", "C", "D"]), path(&["A", "B", "D"]), path(&["A", "D"])]
    );
    for p in &found {
        assert!(p.len() <= max_depth + 1);
        assert_eq!(p[0], "A");
        assert_eq!(p[p.len() - 1], "D");
        for i in 0..p.len() {
            for j in (i + 1)..p.len() {
                assert_ne!(p[i], p[j]);
            }
        }
    }
}

#[test]
fn same_search_twice_gives_the_same_paths() {
    let adjacency = diamond();
    let first = find_all_paths(&adjacency, &code("A"), &code("D"), 3);
    let second = find_all_paths(&adjacency, &code("A"), &code("D"), 3);
    assert_eq!(first, second);
}

#[test]
fn repeated_routes_collapse() {
    let adjacency = compute_neighbours(&vec![
        route("A", "B"),
        route("A", "C"),
        route("A", "B"),
        route("B", "A"),
        route("A", "C"),
    ]);
    assert_eq!(adjacency.neighbours(&code("A")), Some(&path(&["B", "C"])));
    assert_eq!(adjacency.neighbours(&code("B")), Some(&path(&["A"])));
    assert_eq!(adjacency.neighbours(&code("C")), None);
    let found = find_all_paths(&adjacency, &code("A"), &code("B"), 2).unwrap();
    assert_eq!(found, vec![path(&["A", "B"])]);
}

#[test]
fn add_route_keeps_other_lists() {
    let mut adjacency = Adjacency::new();
    assert_eq!(adjacency.neighbours(&code("A")), None);
    adjacency.add_route(&code("A"), &code("B"));
    adjacency.add_route(&code("C"), &code("D"));
    adjacency.add_route(&code("A"), &code("B"));
    adjacency.add_route(&code("A"), &code("E"));
    adjacency.recall_deduplicated();
    assert_eq!(adjacency.neighbours(&code("A")), Some(&path(&["B", "E"])));
    assert_eq!(adjacency.neighbours(&code("C")), Some(&path(&["D"])));
}

#[test]
fn no_routes_no_entries() {
    let adjacency = compute_neighbours(&Vec::new());
    assert_eq!(adjacency.neighbours(&code("A")), None);
}

#[test]
fn lists_airport_finds_exact_codes_only() {
    let list = path(&["JFK", "ORD"]);
    assert!(lists_airport(&list, &code("ORD")));
    assert!(!lists_airport(&list, &code("OR")));
    assert!(!lists_airport(&Vec::new(), &code("JFK")));
    assert_eq!(copy_airports(&list), list);
}

#[test]
fn refusal_has_a_message() {
    assert_eq!(SearchError::InvalidDepth.message(), "the depth bound must be positive");
    assert_eq!(
        SearchError::InvalidMaxConnections.message(),
        "the connection bound must be positive"
    );
    assert_eq!(
        SearchError::InvalidConnectionTime.message(),
        "the connection times must be positive"
    );
    assert_eq!(SearchError::InvalidDate.message(), "the departure date does not exist");
}
