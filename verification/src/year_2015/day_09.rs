//! Shortest and longest routes that visit every location exactly once, by
//! exhaustive search over the orderings of a small complete distance graph.

use vstd::prelude::*;

use crate::util::{completion_ok, fresh_marks, is_word, is_word_str, lemma_completion_exists, lemma_completion_pop, lemma_completion_push, lemma_fresh_count, lemma_unused_list_props, lemma_unused_list_update, num_val, parse_decimal, split_bounds, split_char, str_eq, unused_count, unused_list};

verus! {

/// One parsed distance line: an undirected edge between two named places.
pub struct Edge {
    pub origin: String,
    pub destination: String,
    pub weight: u32,
}

pub open spec fn to_word() -> Seq<char> {
    seq!['t', 'o']
}

pub open spec fn equals_word() -> Seq<char> {
    seq!['=']
}

/// The edge a distance line stands for, before any size check:
/// `<origin> to <destination> = <weight>`.
pub open spec fn edge_of(s: Seq<char>) -> Option<(Seq<char>, Seq<char>, int)> {
    let toks = split_char(s, ' ');
    if toks.len() == 5 && is_word(toks[0]) && toks[1] == to_word() && is_word(toks[2]) && toks[3]
        == equals_word() && toks[4].len() > 0 && crate::util::all_digits(toks[4]) {
        Some((toks[0], toks[2], num_val(toks[4])))
    } else {
        None
    }
}

impl Edge {
    /// Parses one distance line. `Ok` exactly when the line fits the format
    /// that [`edge_of`] describes; a distance too large for 32 bits is ruled
    /// out by the precondition, as real inputs always fit.
    pub fn from_str(s: &str) -> (r: Result<Edge, ()>)
        requires
            edge_of(s@) matches Some((o, d, wt)) ==> wt <= u32::MAX,
        ensures
            match r {
                Ok(e) => edge_of(s@) == Some((e.origin@, e.destination@, e.weight as int)),
                Err(_) => edge_of(s@) is None,
            },
    {
        proof {
            reveal_strlit("to");
            reveal_strlit("=");
            assert("to"@ =~= to_word());
            assert("="@ =~= equals_word());
        }
        let bounds = split_bounds(s, ' ');
        if bounds.len() != 5 {
            return Err(());
        }
        let origin = s.substring_char(bounds[0].0, bounds[0].1);
        let to_tok = s.substring_char(bounds[1].0, bounds[1].1);
        let destination = s.substring_char(bounds[2].0, bounds[2].1);
        let eq_tok = s.substring_char(bounds[3].0, bounds[3].1);
        let weight_tok = s.substring_char(bounds[4].0, bounds[4].1);
        if !(is_word_str(origin) && str_eq(to_tok, "to") && is_word_str(destination) && str_eq(
            eq_tok,
            "=",
        )) {
            return Err(());
        }
        let weight = match parse_decimal(weight_tok) {
            Some(v) => v,
            None => {
                return Err(());
            },
        };
        proof {
            if weight > u32::MAX {
                assert(false);
            }
        }
        Ok(
            Edge {
                origin: origin.to_owned(),
                destination: destination.to_owned(),
                weight: weight as u32,
            },
        )
    }
}

/// The weight the edge list gives an unordered pair of places, later entries
/// overriding earlier ones.
pub open spec fn list_weight(
    es: Seq<((String, String), u32)>,
    a: Seq<char>,
    b: Seq<char>,
) -> Option<int>
    decreases es.len(),
{
    if es.len() == 0 {
        None
    } else if (es.last().0.0@ == a && es.last().0.1@ == b) || (es.last().0.0@ == b
        && es.last().0.1@ == a) {
        Some(es.last().1 as int)
    } else {
        list_weight(es.drop_last(), a, b)
    }
}

proof fn lemma_list_weight_range(es: Seq<((String, String), u32)>, a: Seq<char>, b: Seq<char>)
    ensures
        list_weight(es, a, b) matches Some(v) ==> 0 <= v <= u32::MAX,
    decreases es.len(),
{
    if es.len() > 0 {
        lemma_list_weight_range(es.drop_last(), a, b);
    }
}

/// A distance graph over named places.
pub struct Graph {
    vertices: Vec<String>,
    edges: Vec<((String, String), u32)>,
}

impl Graph {
    /// The place names, in first-appearance order.
    pub closed spec fn place_names(&self) -> Seq<Seq<char>> {
        self.vertices@.map_values(|v: String| v@)
    }

    /// The weight between two places, if an edge connects them.
    pub closed spec fn edge_weight(&self, a: Seq<char>, b: Seq<char>) -> Option<int> {
        list_weight(self.edges@, a, b)
    }

    /// Place names are listed once each. `new` establishes this and every
    /// method preserves it.
    pub closed spec fn places_ok(&self) -> bool {
        forall|i: int, j: int|
            0 <= i < j < self.vertices@.len() ==> self.vertices@[i]@ != self.vertices@[j]@
    }

    /// An empty graph.
    pub fn new() -> (g: Graph)
        ensures
            g.place_names() == Seq::<Seq<char>>::empty(),
            g.places_ok(),
            forall|a: Seq<char>, b: Seq<char>| #[trigger] g.edge_weight(a, b) is None,
    {
        let g = Graph { vertices: Vec::new(), edges: Vec::new() };
        proof {
            assert(g.place_names() =~= Seq::<Seq<char>>::empty());
        }
        g
    }

    /// Index of the place with this name, if it is known.
    fn find_place(&self, name: &str) -> (r: Option<usize>)
        requires
            self.places_ok(),
        ensures
            match r {
                Some(i) => i < self.place_names().len() && self.place_names()[i as int] == name@,
                None => !self.place_names().contains(name@),
            },
    {
        let n = self.vertices.len();
        let mut i: usize = 0;
        while i < n
            invariant
                n == self.vertices@.len(),
                i <= n,
                forall|j: int| 0 <= j < i ==> self.place_names()[j] != name@,
            decreases n - i,
        {
            if str_eq(self.vertices[i].as_str(), name) {
                return Some(i);
            }
            i = i + 1;
        }
        proof {
            if self.place_names().contains(name@) {
                let j = choose|j: int|
                    0 <= j < self.place_names().len() && self.place_names()[j] == name@;
                assert(false);
            }
        }
        None
    }

    /// Records an edge, making both of its endpoints known places.
    pub fn add_edge(&mut self, edge: Edge)
        requires
            old(self).places_ok(),
        ensures
            final(self).places_ok(),
            final(self).place_names() == ({
                let with_origin = if old(self).place_names().contains(edge.origin@) {
                    old(self).place_names()
                } else {
                    old(self).place_names().push(edge.origin@)
                };
                if with_origin.contains(edge.destination@) {
                    with_origin
                } else {
                    with_origin.push(edge.destination@)
                }
            }),
            forall|a: Seq<char>, b: Seq<char>| #[trigger]
                final(self).edge_weight(a, b) == if (edge.origin@ == a && edge.destination@ == b)
                    || (edge.origin@ == b && edge.destination@ == a) {
                    Some(edge.weight as int)
                } else {
                    old(self).edge_weight(a, b)
                },
    {
        let Edge { origin, destination, weight } = edge;
        let ghost names0 = self.place_names();
        match self.find_place(origin.as_str()) {
            Some(_) => {
                proof {
                    assert(self.place_names().contains(origin@));
                }
            },
            None => {
                self.vertices.push(origin.clone());
                proof {
                    assert(self.place_names() =~= names0.push(origin@));
                    assert forall|i: int, j: int|
                        0 <= i < j < self.vertices@.len() implies self.vertices@[i]@
                        != self.vertices@[j]@ by {
                        if j == self.vertices@.len() - 1 {
                            assert(!names0.contains(origin@));
                            assert(names0[i] == self.vertices@[i]@);
                        }
                    };
                }
            },
        }
        let ghost names1 = self.place_names();
        match self.find_place(destination.as_str()) {
            Some(_) => {
                proof {
                    assert(self.place_names().contains(destination@));
                }
            },
            None => {
                self.vertices.push(destination.clone());
                proof {
                    assert(self.place_names() =~= names1.push(destination@));
                    assert forall|i: int, j: int|
                        0 <= i < j < self.vertices@.len() implies self.vertices@[i]@
                        != self.vertices@[j]@ by {
                        if j == self.vertices@.len() - 1 {
                            assert(!names1.contains(destination@));
                            assert(names1[i] == self.vertices@[i]@);
                        }
                    };
                }
            },
        }
        let ghost es0 = self.edges@;
        self.edges.push(((origin, destination), weight));
        proof {
            assert(self.edges@.drop_last() =~= es0);
        }
    }

    /// The stored weight between the places at indices `i` and `j`.
    fn weight_between(&self, i: usize, j: usize) -> (r: u32)
        requires
            i < self.place_names().len(),
            j < self.place_names().len(),
            self.edge_weight(self.place_names()[i as int], self.place_names()[j as int])
                is Some,
        ensures
            Some(r as int) == self.edge_weight(
                self.place_names()[i as int],
                self.place_names()[j as int],
            ),
    {
        let ghost a = self.place_names()[i as int];
        let ghost b = self.place_names()[j as int];
        proof {
            assert(self.place_names().len() == self.vertices@.len());
            assert(a == self.vertices@[i as int]@);
            assert(b == self.vertices@[j as int]@);
            assert(self.edges@.take(self.edges@.len() as int) =~= self.edges@);
        }
        let m = self.edges.len();
        let mut k = m;
        while k > 0
            invariant
                m == self.edges@.len(),
                k <= m,
                i < self.vertices@.len(),
                j < self.vertices@.len(),
                a == self.vertices@[i as int]@,
                b == self.vertices@[j as int]@,
                list_weight(self.edges@, a, b) == list_weight(self.edges@.take(k as int), a, b),
                list_weight(self.edges@, a, b) is Some,
            decreases k,
        {
            k = k - 1;
            let entry = &self.edges[k];
            proof {
                assert(self.edges@.take(k + 1).drop_last() =~= self.edges@.take(k as int));
                assert(self.edges@.take(k + 1).last() == self.edges@[k as int]);
            }
            let fwd = str_eq(entry.0.0.as_str(), self.vertices[i].as_str()) && str_eq(
                entry.0.1.as_str(),
                self.vertices[j].as_str(),
            );
            let bwd = str_eq(entry.0.0.as_str(), self.vertices[j].as_str()) && str_eq(
                entry.0.1.as_str(),
                self.vertices[i].as_str(),
            );
            if fwd || bwd {
                return entry.1;
            }
        }
        proof {
            assert(self.edges@.take(0) =~= Seq::<((String, String), u32)>::empty());
            assert(false);
        }
        0
    }
}

impl Default for Graph {
    /// The same empty graph as `new`.
    fn default() -> (g: Self)
        ensures
            g.place_names() == Seq::<Seq<char>>::empty(),
            g.places_ok(),
            forall|a: Seq<char>, b: Seq<char>| #[trigger] g.edge_weight(a, b) is None,
    {
        Graph::new()
    }
}

impl Graph {
    /// Cost of one leg between two known places; a missing edge counts as
    /// zero, though a connected graph has none.
    pub open spec fn hop(&self, i: int, j: int) -> int {
        match self.edge_weight(self.place_names()[i], self.place_names()[j]) {
            Some(v) => v,
            None => 0,
        }
    }

    /// Cost of continuing a route from the place at index `last` through the
    /// places listed in `q`, in order.
    pub open spec fn route_cost(&self, last: int, q: Seq<int>) -> int
        decreases q.len(),
    {
        if q.len() == 0 {
            0
        } else {
            self.hop(last, q[0]) + self.route_cost(q[0], q.drop_first())
        }
    }

    /// Total cost of a full route: the sum of the distances between each
    /// consecutive pair of places.
    pub open spec fn path_cost(&self, p: Seq<int>) -> int {
        if p.len() == 0 {
            0
        } else {
            self.route_cost(p[0], p.drop_first())
        }
    }

    /// `p` visits every known place exactly once.
    pub open spec fn is_route(&self, p: Seq<int>) -> bool {
        completion_ok(fresh_marks(self.place_names().len() as nat), p)
    }

    /// Every pair of distinct known places has a recorded distance.
    pub open spec fn connected(&self) -> bool {
        forall|i: int, j: int|
            0 <= i < self.place_names().len() && 0 <= j < self.place_names().len() && i != j
                ==> #[trigger] self.edge_weight(
                self.place_names()[i],
                self.place_names()[j],
            ) is Some
    }

    proof fn lemma_hop_range(&self, i: int, j: int)
        ensures
            0 <= self.hop(i, j) <= u32::MAX,
    {
        lemma_list_weight_range(
            self.edges@,
            self.place_names()[i],
            self.place_names()[j],
        );
    }

    proof fn lemma_route_cost_range(&self, last: int, q: Seq<int>)
        ensures
            0 <= self.route_cost(last, q) <= q.len() * 0xffff_ffff,
        decreases q.len(),
    {
        if q.len() > 0 {
            self.lemma_hop_range(last, q[0]);
            self.lemma_route_cost_range(q[0], q.drop_first());
        }
    }

    /// Cheapest and costliest ways of routing through every unmarked place,
    /// starting from the place at index `last`.
    fn explore(&self, used: &mut Vec<bool>, last: usize, remaining: usize) -> (r: (u64, u64))
        requires
            self.places_ok(),
            self.connected(),
            old(used)@.len() == self.place_names().len(),
            old(used)@.len() <= 0xffff_ffff,
            last < old(used)@.len(),
            old(used)@[last as int],
            remaining == unused_count(old(used)@),
        ensures
            final(used)@ == old(used)@,
            exists|q: Seq<int>|
                completion_ok(old(used)@, q) && #[trigger] self.route_cost(last as int, q) == r.0,
            exists|q: Seq<int>|
                completion_ok(old(used)@, q) && #[trigger] self.route_cost(last as int, q) == r.1,
            forall|q: Seq<int>|
                completion_ok(old(used)@, q) ==> r.0 <= #[trigger] self.route_cost(last as int, q)
                    <= r.1,
        decreases remaining,
    {
        proof {
            lemma_unused_list_props(old(used)@, 0);
        }
        if remaining == 0 {
            proof {
                lemma_completion_exists(used@);
                assert(unused_list(used@, 0) =~= Seq::<int>::empty());
                assert(self.route_cost(last as int, unused_list(used@, 0)) == 0);
                assert forall|q: Seq<int>|
                    completion_ok(used@, q) implies #[trigger] self.route_cost(last as int, q)
                    == 0 by {
                    assert(q.len() == 0);
                };
            }
            return (0, 0);
        }
        let n = used.len();
        let ghost entry = used@;
        let mut best_min: u64 = u64::MAX;
        let mut best_max: u64 = 0;
        let mut v: usize = 0;
        while v < n
            invariant
                self.places_ok(),
                self.connected(),
                n == entry.len(),
                entry.len() == self.place_names().len(),
                n <= 0xffff_ffff,
                last < n,
                entry[last as int],
                1 <= remaining <= n,
                remaining == unused_count(entry),
                v <= n,
                used@ == entry,
                forall|q: Seq<int>|
                    completion_ok(entry, q) && q[0] < v ==> best_min <= #[trigger] self.route_cost(
                        last as int,
                        q,
                    ),
                forall|q: Seq<int>|
                    completion_ok(entry, q) && q[0] < v ==> #[trigger] self.route_cost(
                        last as int,
                        q,
                    ) <= best_max,
                (exists|q: Seq<int>|
                    completion_ok(entry, q) && q[0] < v && #[trigger] self.route_cost(
                        last as int,
                        q,
                    ) == best_min) || best_min == u64::MAX,
                (exists|q: Seq<int>|
                    completion_ok(entry, q) && q[0] < v && #[trigger] self.route_cost(
                        last as int,
                        q,
                    ) == best_max) || best_max == 0,
            decreases n - v,
        {
            if !used[v] {
                proof {
                    lemma_unused_list_update(entry, v as int, 0);
                }
                used.set(v, true);
                let (m1, m2) = self.explore(used, v, remaining - 1);
                used.set(v, false);
                proof {
                    assert(used@ =~= entry);
                }
                let wv = self.weight_between(last, v);
                proof {
                    assert(self.hop(last as int, v as int) == wv as int);
                    self.lemma_route_cost_range(v as int, Seq::<int>::empty());
                }
                let ghost upd = entry.update(v as int, true);
                let ghost q1min = choose|q: Seq<int>|
                    completion_ok(upd, q) && #[trigger] self.route_cost(v as int, q) == m1;
                let ghost q1max = choose|q: Seq<int>|
                    completion_ok(upd, q) && #[trigger] self.route_cost(v as int, q) == m2;
                proof {
                    self.lemma_route_cost_range(v as int, q1min);
                    self.lemma_route_cost_range(v as int, q1max);
                    assert(q1min.len() <= n && q1max.len() <= n) by {
                        lemma_unused_list_props(upd, 0);
                    }
                }
                let cand_min = wv as u64 + m1;
                let cand_max = wv as u64 + m2;
                proof {
                    lemma_completion_push(entry, v as int, q1min);
                    assert((seq![v as int] + q1min).drop_first() =~= q1min);
                    assert(self.route_cost(last as int, seq![v as int] + q1min) == cand_min);
                    lemma_completion_push(entry, v as int, q1max);
                    assert((seq![v as int] + q1max).drop_first() =~= q1max);
                    assert(self.route_cost(last as int, seq![v as int] + q1max) == cand_max);
                    assert forall|q: Seq<int>|
                        completion_ok(entry, q) && q[0] == v implies cand_min
                        <= #[trigger] self.route_cost(last as int, q) <= cand_max by {
                        lemma_completion_pop(entry, v as int, q);
                        assert(self.route_cost(last as int, q) == wv + self.route_cost(
                            v as int,
                            q.drop_first(),
                        ));
                    };
                }
                if cand_min < best_min {
                    best_min = cand_min;
                }
                if cand_max > best_max {
                    best_max = cand_max;
                }
            }
            v = v + 1;
        }
        proof {
            lemma_completion_exists(entry);
            let q0 = unused_list(entry, 0);
            lemma_unused_list_props(entry, 0);
            self.lemma_route_cost_range(last as int, q0);
            assert(q0.len() >= 1);
            assert(0 <= q0[0] < n);
            if best_min == u64::MAX {
                assert(best_min <= self.route_cost(last as int, q0));
                assert(false);
            }
            if best_max == 0 {
                assert(self.route_cost(last as int, q0) == 0);
            }
        }
        (best_min, best_max)
    }
}

impl Graph {
    /// The cheapest and costliest full routes, found by exhaustive search.
    fn path_extremes(&self) -> (r: (u32, u32))
        requires
            self.places_ok(),
            self.connected(),
            1 <= self.place_names().len() <= 0xffff_ffff,
            forall|p: Seq<int>| self.is_route(p) ==> #[trigger] self.path_cost(p) <= u32::MAX,
        ensures
            exists|p: Seq<int>| self.is_route(p) && #[trigger] self.path_cost(p) == r.0,
            exists|p: Seq<int>| self.is_route(p) && #[trigger] self.path_cost(p) == r.1,
            forall|p: Seq<int>|
                self.is_route(p) ==> r.0 <= #[trigger] self.path_cost(p) <= r.1,
    {
        let n = self.vertices.len();
        proof {
            assert(n == self.place_names().len());
        }
        let ghost fresh = fresh_marks(n as nat);
        let mut used: Vec<bool> = Vec::new();
        let mut k: usize = 0;
        while k < n
            invariant
                k <= n,
                used@.len() == k,
                forall|j: int| 0 <= j < k ==> !(#[trigger] used@[j]),
            decreases n - k,
        {
            used.push(false);
            k = k + 1;
        }
        proof {
            assert(used@ =~= fresh);
            lemma_fresh_count(n as nat, 0);
        }
        let mut best_min: u64 = u64::MAX;
        let mut best_max: u64 = 0;
        let mut v: usize = 0;
        while v < n
            invariant
                self.places_ok(),
                self.connected(),
                n == self.place_names().len(),
                1 <= n <= 0xffff_ffff,
                fresh == fresh_marks(n as nat),
                used@ == fresh,
                unused_count(fresh) == n,
                v <= n,
                forall|p: Seq<int>|
                    self.is_route(p) && p[0] < v ==> best_min <= #[trigger] self.path_cost(p),
                forall|p: Seq<int>|
                    self.is_route(p) && p[0] < v ==> #[trigger] self.path_cost(p) <= best_max,
                (exists|p: Seq<int>|
                    self.is_route(p) && p[0] < v && #[trigger] self.path_cost(p) == best_min)
                    || best_min == u64::MAX,
                (exists|p: Seq<int>|
                    self.is_route(p) && p[0] < v && #[trigger] self.path_cost(p) == best_max)
                    || best_max == 0,
            decreases n - v,
        {
            proof {
                lemma_unused_list_update(fresh, v as int, 0);
            }
            used.set(v, true);
            let (m1, m2) = self.explore(&mut used, v, n - 1);
            used.set(v, false);
            proof {
                assert(used@ =~= fresh);
            }
            let ghost upd = fresh.update(v as int, true);
            let ghost q1min = choose|q: Seq<int>|
                completion_ok(upd, q) && #[trigger] self.route_cost(v as int, q) == m1;
            let ghost q1max = choose|q: Seq<int>|
                completion_ok(upd, q) && #[trigger] self.route_cost(v as int, q) == m2;
            proof {
                lemma_completion_push(fresh, v as int, q1min);
                assert((seq![v as int] + q1min).drop_first() =~= q1min);
                assert(self.path_cost(seq![v as int] + q1min) == m1);
                lemma_completion_push(fresh, v as int, q1max);
                assert((seq![v as int] + q1max).drop_first() =~= q1max);
                assert(self.path_cost(seq![v as int] + q1max) == m2);
                assert forall|p: Seq<int>|
                    self.is_route(p) && p[0] == v implies m1 <= #[trigger] self.path_cost(p)
                    <= m2 by {
                    lemma_completion_pop(fresh, v as int, p);
                    assert(self.path_cost(p) == self.route_cost(v as int, p.drop_first()));
                };
            }
            if m1 < best_min {
                best_min = m1;
            }
            if m2 > best_max {
                best_max = m2;
            }
            v = v + 1;
        }
        proof {
            lemma_completion_exists(fresh);
            let p0 = unused_list(fresh, 0);
            lemma_unused_list_props(fresh, 0);
            self.lemma_route_cost_range(p0[0], p0.drop_first());
            assert(p0.len() == n);
            assert(0 <= p0[0] < n);
            if best_min == u64::MAX {
                assert(best_min <= self.path_cost(p0));
                assert(false);
            }
            if best_max == 0 {
                assert(self.path_cost(p0) == 0);
            }
            let pw_min = choose|p: Seq<int>|
                self.is_route(p) && p[0] < n && #[trigger] self.path_cost(p) == best_min;
            let pw_max = choose|p: Seq<int>|
                self.is_route(p) && p[0] < n && #[trigger] self.path_cost(p) == best_max;
            assert(self.path_cost(pw_min) <= u32::MAX);
            assert(self.path_cost(pw_max) <= u32::MAX);
            assert forall|p: Seq<int>| self.is_route(p) implies best_min
                <= #[trigger] self.path_cost(p) <= best_max by {
                assert(0 <= p[0] < n);
            };
        }
        (best_min as u32, best_max as u32)
    }

    /// Distance of the cheapest route that visits every place exactly once.
    pub fn shortest_path(&self) -> (r: u32)
        requires
            self.places_ok(),
            self.connected(),
            1 <= self.place_names().len() <= 0xffff_ffff,
            forall|p: Seq<int>| self.is_route(p) ==> #[trigger] self.path_cost(p) <= u32::MAX,
        ensures
            exists|p: Seq<int>| self.is_route(p) && #[trigger] self.path_cost(p) == r,
            forall|p: Seq<int>| self.is_route(p) ==> r <= #[trigger] self.path_cost(p),
    {
        let (mn, _) = self.path_extremes();
        mn
    }

    /// Distance of the costliest route that visits every place exactly once.
    pub fn longest_path(&self) -> (r: u32)
        requires
            self.places_ok(),
            self.connected(),
            1 <= self.place_names().len() <= 0xffff_ffff,
            forall|p: Seq<int>| self.is_route(p) ==> #[trigger] self.path_cost(p) <= u32::MAX,
        ensures
            exists|p: Seq<int>| self.is_route(p) && #[trigger] self.path_cost(p) == r,
            forall|p: Seq<int>| self.is_route(p) ==> #[trigger] self.path_cost(p) <= r,
    {
        let (_, mx) = self.path_extremes();
        mx
    }
}

} // verus!
