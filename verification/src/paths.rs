//! Topology search: every simple path between two airports, within a bound
//! on the number of routes flown, found by a depth-first walk of the
//! adjacency view.

use vstd::prelude::*;
use vstd::hash_set::StringHashSet;
use crate::error::SearchError;
use crate::neighbours::{copy_airports, deduplicated, successors, Adjacency, Topology};

verus! {

/// Every step of `path` is a route of the topology.
pub open spec fn follows_routes(topology: Topology, path: Seq<Seq<char>>) -> bool {
    forall|i: int|
        1 <= i < path.len() ==> successors(topology, path[i - 1]).contains(#[trigger] path[i])
}

/// `path` leads from `origin` to `destination` over at most `max_depth`
/// routes and visits no airport twice.
pub open spec fn is_simple_path(
    topology: Topology,
    origin: Seq<char>,
    destination: Seq<char>,
    max_depth: nat,
    path: Seq<Seq<char>>,
) -> bool {
    &&& 1 <= path.len() <= max_depth + 1
    &&& path[0] == origin
    &&& path.last() == destination
    &&& path.no_duplicates()
    &&& follows_routes(topology, path)
}

/// `path` continues `prefix` to `destination` over at most `budget` further
/// routes, through airports that it has not visited before.
pub open spec fn completes(
    topology: Topology,
    prefix: Seq<Seq<char>>,
    destination: Seq<char>,
    budget: nat,
    path: Seq<Seq<char>>,
) -> bool {
    &&& prefix.len() <= path.len() <= prefix.len() + budget
    &&& path.take(prefix.len() as int) =~= prefix
    &&& path.last() == destination
    &&& forall|i: int|
        prefix.len() <= i < path.len() ==> successors(topology, path[i - 1]).contains(
            #[trigger] path[i],
        )
    &&& forall|i: int, j: int|
        0 <= i < j < path.len() && prefix.len() <= j ==> path[i] != path[j]
}

/// The paths that a depth-first walk finds from the last airport of `prefix`,
/// in the order in which it finds them. The walk stops at the destination,
/// and gives up where no further route is allowed.
pub open spec fn paths_from(
    topology: Topology,
    prefix: Seq<Seq<char>>,
    destination: Seq<char>,
    budget: nat,
) -> Seq<Seq<Seq<char>>>
    decreases budget, 1nat, 0nat,
{
    if prefix.len() == 0 {
        Seq::empty()
    } else if prefix.last() == destination {
        seq![prefix]
    } else if budget == 0 {
        Seq::empty()
    } else {
        paths_via(
            topology,
            prefix,
            destination,
            budget,
            successors(topology, prefix.last()).len(),
        )
    }
}

/// The paths found through the first `n` successors of the last airport of
/// `prefix`. A successor that the prefix has visited is passed over.
pub open spec fn paths_via(
    topology: Topology,
    prefix: Seq<Seq<char>>,
    destination: Seq<char>,
    budget: nat,
    n: nat,
) -> Seq<Seq<Seq<char>>>
    decreases budget, 0nat, n,
{
    if n == 0 || budget == 0 || prefix.len() == 0 {
        Seq::empty()
    } else {
        let next = successors(topology, prefix.last())[n - 1];
        let earlier = paths_via(topology, prefix, destination, budget, (n - 1) as nat);
        if prefix.contains(next) {
            earlier
        } else {
            earlier + paths_from(topology, prefix.push(next), destination, (budget - 1) as nat)
        }
    }
}

/// All simple paths from `origin` to `destination` over at most `max_depth`
/// routes, in depth-first order.
pub open spec fn all_paths(
    topology: Topology,
    origin: Seq<char>,
    destination: Seq<char>,
    max_depth: nat,
) -> Seq<Seq<Seq<char>>> {
    paths_from(topology, seq![origin], destination, max_depth)
}

/// How a topology search answers: it refuses a depth bound of zero, and else
/// lists every simple path within the bound.
pub open spec fn path_outcome(
    topology: Topology,
    origin: Seq<char>,
    destination: Seq<char>,
    max_depth: nat,
) -> Result<Seq<Seq<Seq<char>>>, SearchError> {
    if max_depth == 0 {
        Err(SearchError::InvalidDepth)
    } else {
        Ok(all_paths(topology, origin, destination, max_depth))
    }
}

/// `result` is the answer `expected`.
pub open spec fn lists_paths(
    result: Result<Vec<Vec<String>>, SearchError>,
    expected: Result<Seq<Seq<Seq<char>>>, SearchError>,
) -> bool {
    match result {
        Ok(paths) => expected == Ok::<Seq<Seq<Seq<char>>>, SearchError>(paths.deep_view()),
        Err(error) => expected == Err::<Seq<Seq<Seq<char>>>, SearchError>(error),
    }
}

/// To continue a prefix through `next` is to continue the prefix with a path
/// whose next airport is `next`.
proof fn lemma_completes_step(
    topology: Topology,
    prefix: Seq<Seq<char>>,
    destination: Seq<char>,
    budget: nat,
    next: Seq<char>,
    path: Seq<Seq<char>>,
)
    requires
        prefix.len() >= 1,
        budget >= 1,
    ensures
        (successors(topology, prefix.last()).contains(next) && !prefix.contains(next) && completes(
            topology,
            prefix.push(next),
            destination,
            (budget - 1) as nat,
            path,
        )) <==> (completes(topology, prefix, destination, budget, path) && path.len() > prefix.len()
            && path[prefix.len() as int] == next),
{
    let longer = prefix.push(next);
    let n = prefix.len() as int;
    if successors(topology, prefix.last()).contains(next) && !prefix.contains(next) && completes(
        topology,
        longer,
        destination,
        (budget - 1) as nat,
        path,
    ) {
        assert(path.take(n + 1)[n] == longer[n]);
        assert forall|i: int| 0 <= i < n implies path[i] == prefix[i] by {
            assert(path.take(n + 1)[i] == longer[i]);
        }
        assert(path.take(n) =~= prefix);
        assert forall|i: int, j: int| 0 <= i < j < path.len() && n <= j implies path[i]
            != path[j] by {
            if j == n {
                assert(prefix[i] == path[i]);
            }
        }
    }
    if completes(topology, prefix, destination, budget, path) && path.len() > n && path[n]
        == next {
        assert forall|i: int| 0 <= i < n implies path[i] == prefix[i] by {
            assert(path.take(n)[i] == prefix[i]);
        }
        assert(path.take(n + 1) =~= longer);
        assert(path[n - 1] == prefix.last());
        if prefix.contains(next) {
            let i = choose|i: int| 0 <= i < prefix.len() && prefix[i] == next;
            assert(path[i] == path[n]);
        }
    }
}

/// The walk from a prefix finds exactly the paths that complete it.
pub proof fn lemma_paths_from(
    topology: Topology,
    prefix: Seq<Seq<char>>,
    destination: Seq<char>,
    budget: nat,
    path: Seq<Seq<char>>,
)
    requires
        prefix.len() >= 1,
    ensures
        paths_from(topology, prefix, destination, budget).contains(path) <==> completes(
            topology,
            prefix,
            destination,
            budget,
            path,
        ),
    decreases budget, 1nat, 0nat,
{
    let n = prefix.len() as int;
    let found = paths_from(topology, prefix, destination, budget);
    if completes(topology, prefix, destination, budget, path) && path.len() == n {
        assert(path.take(n) =~= path);
    }
    if prefix.last() == destination {
        assert(found[0] == prefix);
        assert(prefix.take(n) =~= prefix);
        if completes(topology, prefix, destination, budget, path) && path.len() > n {
            assert(path.take(n)[n - 1] == prefix[n - 1]);
            assert(path[n - 1] == path[path.len() - 1]);
        }
    } else if budget > 0 {
        let list = successors(topology, prefix.last());
        lemma_paths_via(topology, prefix, destination, budget, list.len(), path);
        if completes(topology, prefix, destination, budget, path) {
            assert(path.take(n)[n - 1] == prefix[n - 1]);
            assert(list.contains(path[n]));
        }
    }
}

/// The walk through the first `n` successors finds exactly the completing
/// paths whose next airport is one of them.
pub proof fn lemma_paths_via(
    topology: Topology,
    prefix: Seq<Seq<char>>,
    destination: Seq<char>,
    budget: nat,
    n: nat,
    path: Seq<Seq<char>>,
)
    requires
        prefix.len() >= 1,
        budget >= 1,
        n <= successors(topology, prefix.last()).len(),
    ensures
        paths_via(topology, prefix, destination, budget, n).contains(path) <==> (completes(
            topology,
            prefix,
            destination,
            budget,
            path,
        ) && path.len() > prefix.len() && exists|k: int|
            0 <= k < n && #[trigger] successors(topology, prefix.last())[k]
                == path[prefix.len() as int]),
    decreases budget, 0nat, n,
{
    let list = successors(topology, prefix.last());
    let at = prefix.len() as int;
    if n > 0 {
        let next = list[n - 1];
        let earlier = paths_via(topology, prefix, destination, budget, (n - 1) as nat);
        let deeper = paths_from(topology, prefix.push(next), destination, (budget - 1) as nat);
        let all = paths_via(topology, prefix, destination, budget, n);
        lemma_paths_via(topology, prefix, destination, budget, (n - 1) as nat, path);
        lemma_paths_from(topology, prefix.push(next), destination, (budget - 1) as nat, path);
        lemma_completes_step(topology, prefix, destination, budget, next, path);
        assert(list.contains(next));
        if all.contains(path) {
            let i = choose|i: int| 0 <= i < all.len() && all[i] == path;
            if i < earlier.len() {
                assert(earlier[i] == path);
                let k = choose|k: int| 0 <= k < n - 1 && #[trigger] list[k] == path[at];
                assert(0 <= k < n && list[k] == path[at]);
            } else {
                assert(deeper[i - earlier.len()] == path);
                assert(list[n - 1] == path[at]);
            }
        }
        if completes(topology, prefix, destination, budget, path) && path.len() > at && exists|
            k: int,
        |
            0 <= k < n && #[trigger] list[k] == path[at] {
            let k = choose|k: int| 0 <= k < n && #[trigger] list[k] == path[at];
            if exists|k: int| 0 <= k < n - 1 && #[trigger] list[k] == path[at] {
                let i = choose|i: int| 0 <= i < earlier.len() && earlier[i] == path;
                assert(all[i] == path);
            } else {
                assert(k == n - 1);
                assert(deeper.contains(path));
                let i = choose|i: int| 0 <= i < deeper.len() && deeper[i] == path;
                assert(all[earlier.len() + i] == path);
            }
        }
    }
}

/// Where no airport lists a successor twice, the walk finds no path twice.
pub proof fn lemma_paths_from_distinct(
    topology: Topology,
    prefix: Seq<Seq<char>>,
    destination: Seq<char>,
    budget: nat,
)
    requires
        prefix.len() >= 1,
        deduplicated(topology),
    ensures
        paths_from(topology, prefix, destination, budget).no_duplicates(),
    decreases budget, 1nat, 0nat,
{
    if prefix.last() != destination && budget > 0 {
        lemma_paths_via_distinct(
            topology,
            prefix,
            destination,
            budget,
            successors(topology, prefix.last()).len(),
        );
    }
}

proof fn lemma_paths_via_distinct(
    topology: Topology,
    prefix: Seq<Seq<char>>,
    destination: Seq<char>,
    budget: nat,
    n: nat,
)
    requires
        prefix.len() >= 1,
        budget >= 1,
        n <= successors(topology, prefix.last()).len(),
        deduplicated(topology),
    ensures
        paths_via(topology, prefix, destination, budget, n).no_duplicates(),
    decreases budget, 0nat, n,
{
    let list = successors(topology, prefix.last());
    let at = prefix.len() as int;
    if n > 0 {
        let next = list[n - 1];
        let earlier = paths_via(topology, prefix, destination, budget, (n - 1) as nat);
        lemma_paths_via_distinct(topology, prefix, destination, budget, (n - 1) as nat);
        if !prefix.contains(next) {
            let deeper = paths_from(topology, prefix.push(next), destination, (budget - 1) as nat);
            lemma_paths_from_distinct(topology, prefix.push(next), destination, (budget - 1) as nat);
            assert forall|i: int, j: int|
                0 <= i < earlier.len() && 0 <= j < deeper.len() implies earlier[i] != deeper[j] by {
                lemma_paths_via(topology, prefix, destination, budget, (n - 1) as nat, earlier[i]);
                lemma_paths_from(
                    topology,
                    prefix.push(next),
                    destination,
                    (budget - 1) as nat,
                    deeper[j],
                );
                assert(earlier.contains(earlier[i]));
                assert(deeper.contains(deeper[j]));
                assert(deeper[j].take(at + 1)[at] == prefix.push(next)[at]);
                let k = choose|k: int| 0 <= k < n - 1 && #[trigger] list[k] == earlier[i][at];
                assert(list[k] != list[n - 1]);
            }
            vstd::seq_lib::lemma_no_dup_in_concat(earlier, deeper);
        }
    }
}

/// The depth-first search finds every simple path within the bound: a path
/// is among `all_paths` exactly if it is a simple path from the origin to the
/// destination over at most `max_depth` routes.
pub proof fn lemma_all_paths_exact(
    topology: Topology,
    origin: Seq<char>,
    destination: Seq<char>,
    max_depth: nat,
    path: Seq<Seq<char>>,
)
    ensures
        all_paths(topology, origin, destination, max_depth).contains(path) <==> is_simple_path(
            topology,
            origin,
            destination,
            max_depth,
            path,
        ),
{
    let start = seq![origin];
    lemma_paths_from(topology, start, destination, max_depth, path);
    if completes(topology, start, destination, max_depth, path) {
        assert(path.take(1)[0] == start[0]);
    }
    if is_simple_path(topology, origin, destination, max_depth, path) {
        assert(path.take(1) =~= start);
    }
}

/// Where no airport lists a successor twice, no path is found twice.
pub proof fn lemma_all_paths_distinct(
    topology: Topology,
    origin: Seq<char>,
    destination: Seq<char>,
    max_depth: nat,
)
    requires
        deduplicated(topology),
    ensures
        all_paths(topology, origin, destination, max_depth).no_duplicates(),
{
    lemma_paths_from_distinct(topology, seq![origin], destination, max_depth);
}

/// A search repeated on the same topology with the same origin, destination
/// and bound gives the same answer: the same paths in the same order, or the
/// same refusal.
pub proof fn lemma_path_search_repeatable(
    first: Result<Vec<Vec<String>>, SearchError>,
    second: Result<Vec<Vec<String>>, SearchError>,
    topology: Topology,
    origin: Seq<char>,
    destination: Seq<char>,
    max_depth: nat,
)
    requires
        lists_paths(first, path_outcome(topology, origin, destination, max_depth)),
        lists_paths(second, path_outcome(topology, origin, destination, max_depth)),
    ensures
        match (first, second) {
            (Ok(paths), Ok(again)) => paths.deep_view() == again.deep_view(),
            (Err(error), Err(again)) => error == again,
            _ => false,
        },
{
}

/// A depth bound of zero is refused, whatever the topology holds.
pub proof fn lemma_zero_depth_refused(topology: Topology, origin: Seq<char>, destination: Seq<char>)
    ensures
        path_outcome(topology, origin, destination, 0) == Err::<
            Seq<Seq<Seq<char>>>,
            SearchError,
        >(SearchError::InvalidDepth),
{
}

/// At the least depth bound that is accepted, one route, a search between
/// two different airports finds the direct path, once, where the topology
/// has that route, and nothing where it has not.
pub proof fn lemma_single_route_bound(topology: Topology, origin: Seq<char>, destination: Seq<char>)
    requires
        origin != destination,
        deduplicated(topology),
    ensures
        all_paths(topology, origin, destination, 1) == (if successors(topology, origin).contains(
            destination,
        ) {
            seq![seq![origin, destination]]
        } else {
            Seq::<Seq<Seq<char>>>::empty()
        }),
{
    let found = all_paths(topology, origin, destination, 1);
    let direct = seq![origin, destination];
    lemma_all_paths_distinct(topology, origin, destination, 1);
    assert forall|i: int| 0 <= i < found.len() implies found[i] == direct && successors(
        topology,
        origin,
    ).contains(destination) by {
        lemma_all_paths_exact(topology, origin, destination, 1, found[i]);
        assert(found.contains(found[i]));
        assert(found[i].len() == 2);
        assert(found[i] =~= direct);
        assert(successors(topology, found[i][0]).contains(found[i][1]));
    }
    if successors(topology, origin).contains(destination) {
        lemma_all_paths_exact(topology, origin, destination, 1, direct);
        assert(is_simple_path(topology, origin, destination, 1, direct));
        assert(found.len() >= 1);
        if found.len() > 1 {
            assert(found[0] == found[1]);
        }
        assert(found =~= seq![direct]);
    } else {
        if found.len() > 0 {
            assert(found[0] == direct);
        }
        assert(found =~= Seq::<Seq<Seq<char>>>::empty());
    }
}

/// Visits `airport`, which the path has not visited: puts it on the path and
/// marks it, appends to `found` every path that the walk finds from there,
/// and takes it off the path and unmarks it again.
fn visit(
    adjacency: &Adjacency,
    airport: &String,
    destination: &String,
    budget: usize,
    path: &mut Vec<String>,
    visited: &mut StringHashSet,
    found: &mut Vec<Vec<String>>,
)
    requires
        old(visited)@ == old(path).deep_view().to_set(),
        !old(path).deep_view().contains(airport@),
    ensures
        final(path).deep_view() == old(path).deep_view(),
        final(visited)@ == old(visited)@,
        final(found).deep_view() == old(found).deep_view() + paths_from(
            adjacency@,
            old(path).deep_view().push(airport@),
            destination@,
            budget as nat,
        ),
    decreases budget,
{
    let ghost before = path.deep_view();
    let ghost prefix = before.push(airport@);
    let ghost found_before = found.deep_view();
    path.push(airport.clone());
    visited.insert(airport.clone());
    assert(path.deep_view() =~= prefix);
    assert(visited@ =~= prefix.to_set()) by {
        assert forall|a: Seq<char>| prefix.contains(a) <==> (before.contains(a) || a == airport@) by {
            if before.contains(a) {
                let i = choose|i: int| 0 <= i < before.len() && before[i] == a;
                assert(prefix[i] == a);
            }
            if a == airport@ {
                assert(prefix[before.len() as int] == a);
            }
        }
    }
    if *airport == *destination {
        let copy = copy_airports(path);
        found.push(copy);
    } else if budget > 0 {
        match adjacency.neighbours(airport) {
            None => {},
            Some(list) => {
                let mut i: usize = 0;
                while i < list.len()
                    invariant
                        i <= list.len(),
                        budget >= 1,
                        prefix.len() >= 1,
                        list.deep_view() == successors(adjacency@, prefix.last()),
                        path.deep_view() == prefix,
                        visited@ == prefix.to_set(),
                        found.deep_view() == found_before + paths_via(
                            adjacency@,
                            prefix,
                            destination@,
                            budget as nat,
                            i as nat,
                        ),
                    decreases list.len() - i,
                {
                    if !visited.contains(list[i].as_str()) {
                        visit(adjacency, &list[i], destination, budget - 1, path, visited, found);
                    }
                    i += 1;
                }
            },
        }
    }
    let ghost longer = path.deep_view();
    path.pop();
    visited.remove(airport.as_str());
    assert forall|k: int| 0 <= k < before.len() implies path@[k]@ == before[k] by {
        assert(longer[k] == prefix[k]);
    }
}

/// Finds every simple path from `origin` to `destination` that flies at most
/// `max_depth` routes, in the order in which a depth-first walk over the
/// successor lists meets them. A path ends where it first meets the
/// destination. A depth bound of zero is refused. An airport without an
/// entry in the adjacency view is a dead end, not an error.
///
/// The walk goes no deeper than the bound, and no deeper than there are
/// airports, since it visits none twice.
pub fn find_all_paths(
    adjacency: &Adjacency,
    origin: &String,
    destination: &String,
    max_depth: usize,
) -> (result: Result<Vec<Vec<String>>, SearchError>)
    ensures
        lists_paths(result, path_outcome(adjacency@, origin@, destination@, max_depth as nat)),
        result is Err <==> max_depth == 0,
        result matches Ok(paths) ==> paths.deep_view().no_duplicates(),
        result matches Ok(paths) ==> forall|path: Seq<Seq<char>>| #[trigger]
            paths.deep_view().contains(path) <==> is_simple_path(
                adjacency@,
                origin@,
                destination@,
                max_depth as nat,
                path,
            ),
{
    if max_depth == 0 {
        return Err(SearchError::InvalidDepth);
    }
    let mut path: Vec<String> = Vec::new();
    let mut visited = StringHashSet::new();
    let mut found: Vec<Vec<String>> = Vec::new();
    assert(visited@ =~= path.deep_view().to_set());
    assert(path.deep_view().push(origin@) =~= seq![origin@]);
    visit(adjacency, origin, destination, max_depth, &mut path, &mut visited, &mut found);
    adjacency.recall_deduplicated();
    proof {
        let all = all_paths(adjacency@, origin@, destination@, max_depth as nat);
        lemma_all_paths_distinct(adjacency@, origin@, destination@, max_depth as nat);
        assert forall|path: Seq<Seq<char>>| #[trigger]
            all.contains(path) <==> is_simple_path(
                adjacency@,
                origin@,
                destination@,
                max_depth as nat,
                path,
            ) by {
            lemma_all_paths_exact(adjacency@, origin@, destination@, max_depth as nat, path);
        }
    }
    Ok(found)
}

} // verus!
