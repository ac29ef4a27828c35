//! The route topology: for each departure airport, the airports that a direct
//! route reaches from it.

use vstd::prelude::*;
use vstd::hash_map::StringHashMap;

verus! {

/// A directed route between two airports. A schedule may hold the same pair
/// many times.
#[derive(Clone, Debug, PartialEq, Eq)]
pub struct RouteEdge {
    pub departure_airport: String,
    pub arrival_airport: String,
}

/// The topology as a mathematical value: every airport that has an entry,
/// mapped to the airports its routes reach, in the order in which a search
/// walks them.
pub type Topology = Map<Seq<char>, Seq<Seq<char>>>;

/// The airports directly reachable from `airport`; none where it has no entry.
pub open spec fn successors(topology: Topology, airport: Seq<char>) -> Seq<Seq<char>> {
    if topology.contains_key(airport) {
        topology[airport]
    } else {
        Seq::empty()
    }
}

/// No airport is listed twice among the successors of any airport.
pub open spec fn deduplicated(topology: Topology) -> bool {
    forall|airport: Seq<char>| #[trigger]
        topology.contains_key(airport) ==> topology[airport].no_duplicates()
}

/// `s` with only the first occurrence of each element kept.
pub open spec fn distinct<T>(s: Seq<T>) -> Seq<T>
    decreases s.len(),
{
    if s.len() == 0 {
        s
    } else {
        let before = distinct(s.drop_last());
        if before.contains(s.last()) {
            before
        } else {
            before.push(s.last())
        }
    }
}

/// The arrival airport of every route that leaves `airport`, in route order.
pub open spec fn arrivals_from(routes: Seq<RouteEdge>, airport: Seq<char>) -> Seq<Seq<char>>
    decreases routes.len(),
{
    if routes.len() == 0 {
        Seq::empty()
    } else {
        let before = arrivals_from(routes.drop_last(), airport);
        if routes.last().departure_airport@ == airport {
            before.push(routes.last().arrival_airport@)
        } else {
            before
        }
    }
}

/// The topology that a collection of routes describes: an entry for every
/// airport that some route leaves, listing each airport reached from it once,
/// in the order of first appearance.
pub open spec fn topology_of(routes: Seq<RouteEdge>) -> Topology {
    Map::new(
        |airport: Seq<char>| arrivals_from(routes, airport).len() > 0,
        |airport: Seq<char>| distinct(arrivals_from(routes, airport)),
    )
}

/// `distinct` keeps every element of its argument.
pub proof fn lemma_distinct_contains<T>(s: Seq<T>, x: T)
    ensures
        distinct(s).contains(x) <==> s.contains(x),
    decreases s.len(),
{
    if s.len() > 0 {
        let shorter = s.drop_last();
        let before = distinct(shorter);
        lemma_distinct_contains(shorter, x);
        if s.contains(x) {
            let i = choose|i: int| 0 <= i < s.len() && s[i] == x;
            if i < s.len() - 1 {
                assert(shorter[i] == x);
                assert(shorter.contains(x));
                let j = choose|j: int| 0 <= j < before.len() && before[j] == x;
                assert(distinct(s)[j] == x);
            } else if !before.contains(x) {
                assert(distinct(s)[before.len() as int] == x);
            }
        }
        if distinct(s).contains(x) {
            let j = choose|j: int| 0 <= j < distinct(s).len() && distinct(s)[j] == x;
            if j < before.len() {
                assert(before[j] == x);
                assert(before.contains(x));
                let i = choose|i: int| 0 <= i < shorter.len() && shorter[i] == x;
                assert(s[i] == x);
            } else {
                assert(s[s.len() - 1] == x);
            }
        }
    }
}

/// `distinct` keeps no element twice.
pub proof fn lemma_distinct_no_duplicates<T>(s: Seq<T>)
    ensures
        distinct(s).no_duplicates(),
    decreases s.len(),
{
    if s.len() > 0 {
        lemma_distinct_no_duplicates(s.drop_last());
    }
}

/// An airport is among the arrivals from `airport` exactly if some route
/// joins the two.
pub proof fn lemma_arrivals_from(routes: Seq<RouteEdge>, airport: Seq<char>, arrival: Seq<char>)
    ensures
        arrivals_from(routes, airport).contains(arrival) <==> exists|i: int|
            0 <= i < routes.len() && (#[trigger] routes[i]).departure_airport@ == airport
                && routes[i].arrival_airport@ == arrival,
    decreases routes.len(),
{
    let all = arrivals_from(routes, airport);
    if routes.len() > 0 {
        let shorter = routes.drop_last();
        let before = arrivals_from(shorter, airport);
        lemma_arrivals_from(shorter, airport, arrival);
        if all.contains(arrival) {
            let j = choose|j: int| 0 <= j < all.len() && all[j] == arrival;
            if j < before.len() {
                assert(before[j] == arrival);
                assert(before.contains(arrival));
                let i = choose|i: int|
                    0 <= i < shorter.len() && (#[trigger] shorter[i]).departure_airport@ == airport
                        && shorter[i].arrival_airport@ == arrival;
                assert(routes[i] == shorter[i]);
            } else {
                assert(routes[routes.len() - 1].arrival_airport@ == arrival);
            }
        }
        if exists|i: int|
            0 <= i < routes.len() && (#[trigger] routes[i]).departure_airport@ == airport
                && routes[i].arrival_airport@ == arrival {
            let i = choose|i: int|
                0 <= i < routes.len() && (#[trigger] routes[i]).departure_airport@ == airport
                    && routes[i].arrival_airport@ == arrival;
            if i < routes.len() - 1 {
                assert(shorter[i] == routes[i]);
                assert(before.contains(arrival));
                let j = choose|j: int| 0 <= j < before.len() && before[j] == arrival;
                assert(all[j] == arrival);
            } else {
                assert(all[before.len() as int] == arrival);
            }
        }
    }
}

/// The topology of a collection of routes lists an airport among the
/// successors of another exactly if some route joins the two, and lists it
/// once.
pub proof fn lemma_topology_of(routes: Seq<RouteEdge>)
    ensures
        deduplicated(topology_of(routes)),
        forall|from: Seq<char>, to: Seq<char>| #[trigger]
            successors(topology_of(routes), from).contains(to) <==> exists|i: int|
                0 <= i < routes.len() && (#[trigger] routes[i]).departure_airport@ == from
                    && routes[i].arrival_airport@ == to,
{
    let topology = topology_of(routes);
    assert forall|airport: Seq<char>| #[trigger]
        topology.contains_key(airport) implies topology[airport].no_duplicates() by {
        lemma_distinct_no_duplicates(arrivals_from(routes, airport));
    }
    assert forall|from: Seq<char>, to: Seq<char>| #[trigger]
        successors(topology, from).contains(to) <==> exists|i: int|
            0 <= i < routes.len() && (#[trigger] routes[i]).departure_airport@ == from
                && routes[i].arrival_airport@ == to by {
        lemma_distinct_contains(arrivals_from(routes, from), to);
        lemma_arrivals_from(routes, from, to);
    }
}

/// The adjacency view of the airports, built once from route data and only
/// read by the searches.
pub struct Adjacency {
    lists: StringHashMap<Vec<String>>,
}

impl View for Adjacency {
    type V = Topology;

    closed spec fn view(&self) -> Topology {
        Map::new(
            |airport: Seq<char>| self.lists@.contains_key(airport),
            |airport: Seq<char>| self.lists@[airport].deep_view(),
        )
    }
}

/// Whether `airport` occurs in `list`.
pub fn lists_airport(list: &Vec<String>, airport: &String) -> (found: bool)
    ensures
        found == list.deep_view().contains(airport@),
{
    let mut i: usize = 0;
    while i < list.len()
        invariant
            i <= list.len(),
            forall|j: int| 0 <= j < i ==> list.deep_view()[j] != airport@,
        decreases list.len() - i,
    {
        if list[i] == *airport {
            assert(list.deep_view()[i as int] == airport@);
            return true;
        }
        i += 1;
    }
    false
}

/// A copy of a list of airport codes.
pub fn copy_airports(list: &Vec<String>) -> (copy: Vec<String>)
    ensures
        copy.deep_view() == list.deep_view(),
{
    let mut copy: Vec<String> = Vec::new();
    let mut i: usize = 0;
    while i < list.len()
        invariant
            i <= list.len(),
            copy.len() == i,
            forall|j: int| 0 <= j < i ==> copy@[j]@ == list@[j]@,
        decreases list.len() - i,
    {
        copy.push(list[i].clone());
        i += 1;
    }
    copy
}

impl Adjacency {
    #[verifier::type_invariant]
    spec fn lists_are_deduplicated(self) -> bool {
        forall|airport: Seq<char>| #[trigger]
            self.lists@.contains_key(airport) ==> self.lists@[airport].deep_view().no_duplicates()
    }

    /// The topology without any airport.
    pub fn new() -> (adjacency: Adjacency)
        ensures
            adjacency@ == Map::<Seq<char>, Seq<Seq<char>>>::empty(),
    {
        let adjacency = Adjacency { lists: StringHashMap::new() };
        adjacency
    }

    /// Recalls that no list names an airport twice. Nothing runs.
    pub fn recall_deduplicated(&self)
        ensures
            deduplicated(self@),
    {
        proof {
            use_type_invariant(self);
        }
    }

    /// The airports listed for `airport`, or `None` where it has no entry.
    pub fn neighbours(&self, airport: &String) -> (list: Option<&Vec<String>>)
        ensures
            deduplicated(self@),
            match list {
                Some(found) => self@.contains_key(airport@) && found.deep_view()
                    == self@[airport@],
                None => !self@.contains_key(airport@),
            },
    {
        proof {
            use_type_invariant(self);
        }
        self.lists.get(airport.as_str())
    }

    /// Gives `airport` an entry without successors, unless it has an entry.
    pub fn add_airport(&mut self, airport: &String)
        ensures
            final(self)@ == (if old(self)@.contains_key(airport@) {
                old(self)@
            } else {
                old(self)@.insert(airport@, Seq::empty())
            }),
    {
        proof {
            use_type_invariant(&*self);
        }
        let ghost before = self@;
        let mut lists: StringHashMap<Vec<String>> = StringHashMap::new();
        std::mem::swap(&mut self.lists, &mut lists);
        if !lists.contains_key(airport.as_str()) {
            let list: Vec<String> = Vec::new();
            assert(list.deep_view() =~= Seq::<Seq<char>>::empty());
            lists.insert(airport.clone(), list);
        }
        std::mem::swap(&mut self.lists, &mut lists);
    }

    /// Records a route: `arrival` joins the list of `departure` unless it is
    /// already there, and every other list stays as it is.
    pub fn add_route(&mut self, departure: &String, arrival: &String)
        ensures
            final(self)@ == old(self)@.insert(
                departure@,
                if successors(old(self)@, departure@).contains(arrival@) {
                    successors(old(self)@, departure@)
                } else {
                    successors(old(self)@, departure@).push(arrival@)
                },
            ),
    {
        proof {
            use_type_invariant(&*self);
        }
        let ghost before = self@;
        let mut lists: StringHashMap<Vec<String>> = StringHashMap::new();
        std::mem::swap(&mut self.lists, &mut lists);
        let mut list = match lists.get(departure.as_str()) {
            Some(found) => copy_airports(found),
            None => Vec::new(),
        };
        assert(list.deep_view() =~= successors(before, departure@));
        if !lists_airport(&list, arrival) {
            let ghost shorter = list.deep_view();
            list.push(arrival.clone());
            assert(list.deep_view() =~= shorter.push(arrival@));
        }
        lists.insert(departure.clone(), list);
        std::mem::swap(&mut self.lists, &mut lists);
    }
}

/// Builds the adjacency view from what was read of the routes. A read that
/// failed is handed on as it is: no view is made of it, not even an empty
/// one.
pub fn load_neighbours<E>(read: Result<Vec<RouteEdge>, E>) -> (loaded: Result<Adjacency, E>)
    ensures
        match read {
            Ok(routes) => loaded matches Ok(adjacency) && adjacency@ == topology_of(routes@)
                && deduplicated(adjacency@),
            Err(failure) => loaded matches Err(handed) && handed == failure,
        },
{
    match read {
        Ok(routes) => Ok(compute_neighbours(&routes)),
        Err(failure) => Err(failure),
    }
}

/// Builds the adjacency view from route data: every airport that some route
/// leaves gets an entry that lists, once each and in order of first
/// appearance, the airports its routes reach.
pub fn compute_neighbours(routes: &Vec<RouteEdge>) -> (adjacency: Adjacency)
    ensures
        adjacency@ == topology_of(routes@),
        deduplicated(adjacency@),
{
    let mut adjacency = Adjacency::new();
    let mut i: usize = 0;
    while i < routes.len()
        invariant
            i <= routes.len(),
            adjacency@ == topology_of(routes@.take(i as int)),
        decreases routes.len() - i,
    {
        let ghost before = adjacency@;
        let ghost seen = routes@.take(i as int);
        let ghost grown = routes@.take(i + 1);
        adjacency.add_route(&routes[i].departure_airport, &routes[i].arrival_airport);
        proof {
            let departure = routes@[i as int].departure_airport@;
            let arrival = routes@[i as int].arrival_airport@;
            let listed = arrivals_from(seen, departure);
            assert(grown.drop_last() =~= seen);
            assert(listed.push(arrival).drop_last() =~= listed);
            assert(successors(before, departure) == distinct(listed));
        }
        i += 1;
    }
    proof {
        assert(routes@.take(routes.len() as int) =~= routes@);
        lemma_topology_of(routes@);
    }
    adjacency
}

} // verus!
