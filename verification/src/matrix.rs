//! Routing matrix: cross-repository adjacency with weights and a
//! shortest-path walk over it.
//!
//! The matrix is held as an ordered adjacency list. The path search returns
//! a route whose every hop is an edge of the matrix; loading a matrix from
//! serialized form stays with the caller, which hands in plain pairs.

use vstd::prelude::*;
use crate::strutil::str_eq;

verus! {

/// Adjacency with weights: for each source node, its outgoing edges.
pub struct RoutingMatrix {
    pub adjacency: Vec<(String, Vec<(String, u64)>)>,
}

/// The weight of the first matching edge, if any.
pub open spec fn edge_weight(
    adjacency: Seq<(Seq<char>, Seq<(Seq<char>, int)>)>,
    from: Seq<char>,
    to: Seq<char>,
) -> Option<int>
    decreases adjacency.len(),
{
    if adjacency.len() == 0 {
        None
    } else if adjacency[0].0 == from {
        edge_to(adjacency[0].1, to)
    } else {
        edge_weight(adjacency.drop_first(), from, to)
    }
}

/// Whether a name occurs in a list of node names.
pub open spec fn has_name(r: Seq<String>, x: Seq<char>) -> bool {
    exists|t: int| 0 <= t < r.len() && (#[trigger] r[t])@ == x
}

/// Whether a node name occurs in the rows, as a source or as a target.
pub open spec fn mentions(rows: Seq<(Seq<char>, Seq<(Seq<char>, int)>)>, x: Seq<char>) -> bool {
    (exists|i: int| 0 <= i < rows.len() && (#[trigger] rows[i]).0 == x) || (exists|i: int, j: int|
        0 <= i < rows.len() && 0 <= j < rows[i].1.len() && (#[trigger] rows[i].1[j]).0 == x)
}

/// The weight of the first matching target in an edge list.
pub open spec fn edge_to(edges: Seq<(Seq<char>, int)>, to: Seq<char>) -> Option<int>
    decreases edges.len(),
{
    if edges.len() == 0 {
        None
    } else if edges[0].0 == to {
        Some(edges[0].1)
    } else {
        edge_to(edges.drop_first(), to)
    }
}

impl RoutingMatrix {
    /// Model of the adjacency rows.
    pub open spec fn model(&self) -> Seq<(Seq<char>, Seq<(Seq<char>, int)>)> {
        self.adjacency@.map_values(
            |row: (String, Vec<(String, u64)>)|
                (
                    row.0@,
                    row.1@.map_values(|e: (String, u64)| (e.0@, e.1 as int)),
                ),
        )
    }

    /// Build a matrix from plain adjacency rows.
    pub fn from_rows(adjacency: Vec<(String, Vec<(String, u64)>)>) -> (r: RoutingMatrix)
        ensures
            r.adjacency == adjacency,
    {
        RoutingMatrix { adjacency }
    }

    /// The weight of the edge `from -> to`, if present.
    #[verifier::loop_isolation(false)]
    pub fn weight(&self, from: &str, to: &str) -> (r: Option<u64>)
        ensures
            match r {
                Some(w) => edge_weight(self.model(), from@, to@) == Some(w as int),
                None => edge_weight(self.model(), from@, to@) is None,
            },
    {
        let ghost rows = self.model();
        proof {
            assert(rows.skip(0) =~= rows);
        }
        let mut i: usize = 0;
        while i < self.adjacency.len()
            invariant
                0 <= i <= self.adjacency@.len(),
                rows.len() == self.adjacency@.len(),
                edge_weight(rows, from@, to@) == edge_weight(rows.skip(i as int), from@, to@),
            decreases self.adjacency@.len() - i,
        {
            proof {
                assert(rows.skip(i as int)[0] == rows[i as int]);
                assert(rows.skip(i as int).drop_first() =~= rows.skip(i + 1));
            }
            if str_eq(self.adjacency[i].0.as_str(), from) {
                let edges = &self.adjacency[i].1;
                let ghost erows = rows[i as int].1;
                proof {
                    assert(erows.skip(0) =~= erows);
                }
                let mut j: usize = 0;
                while j < edges.len()
                    invariant
                        0 <= j <= edges@.len(),
                        erows == rows[i as int].1,
                        erows.len() == edges@.len(),
                        edges == &self.adjacency@[i as int].1,
                        0 <= i < self.adjacency@.len(),
                        edge_to(erows, to@) == edge_to(erows.skip(j as int), to@),
                    decreases edges@.len() - j,
                {
                    proof {
                        assert(erows.skip(j as int)[0] == erows[j as int]);
                        assert(erows.skip(j as int).drop_first() =~= erows.skip(j + 1));
                    }
                    if str_eq(edges[j].0.as_str(), to) {
                        return Some(edges[j].1);
                    }
                    j = j + 1;
                }
                proof {
                    assert(erows.skip(erows.len() as int) =~= Seq::<(Seq<char>, int)>::empty());
                }
                return None;
            }
            i = i + 1;
        }
        proof {
            assert(rows.skip(rows.len() as int) =~= Seq::<(Seq<char>, Seq<(Seq<char>, int)>)>::empty());
        }
        None
    }

    /// Every node that occurs as a source or a target, in first-seen order
    /// without duplicates: the result holds exactly the mentioned names.
    #[verifier::loop_isolation(false)]
    #[verifier::rlimit(100)]
    pub fn nodes(&self) -> (r: Vec<String>)
        ensures
            forall|a: int, b: int| 0 <= a < b < r@.len() ==> r@[a]@ != r@[b]@,
            forall|t: int| 0 <= t < r@.len() ==> mentions(self.model(), (#[trigger] r@[t])@),
            forall|i: int|
                0 <= i < self.model().len() ==> has_name(r@, (#[trigger] self.model()[i]).0),
            forall|i: int, j: int|
                0 <= i < self.model().len() && 0 <= j < self.model()[i].1.len() ==> has_name(
                    r@,
                    (#[trigger] self.model()[i].1[j]).0,
                ),
    {
        let ghost rows = self.model();
        let mut out: Vec<String> = Vec::new();
        let mut i: usize = 0;
        while i < self.adjacency.len()
            invariant
                0 <= i <= self.adjacency@.len(),
                rows == self.model(),
                rows.len() == self.adjacency@.len(),
                forall|a: int, b: int| 0 <= a < b < out@.len() ==> out@[a]@ != out@[b]@,
                forall|t: int| 0 <= t < out@.len() ==> mentions(rows, (#[trigger] out@[t])@),
                forall|a: int| 0 <= a < i ==> has_name(out@, (#[trigger] rows[a]).0),
                forall|a: int, b: int|
                    0 <= a < i && 0 <= b < rows[a].1.len() ==> has_name(
                        out@,
                        (#[trigger] rows[a].1[b]).0,
                    ),
            decreases self.adjacency@.len() - i,
        {
            let ghost pre = out@;
            push_unique(&mut out, &self.adjacency[i].0);
            proof {
                assert(rows[i as int].0 == self.adjacency@[i as int].0@);
                assert forall|t: int| 0 <= t < out@.len() implies mentions(
                    rows,
                    (#[trigger] out@[t])@,
                ) by {
                    if t < pre.len() {
                        assert(out@[t] == pre[t]);
                    } else {
                        assert(out@[t]@ == self.adjacency@[i as int].0@);
                        assert((rows[i as int]).0 == out@[t]@);
                    }
                }
                assert forall|x: Seq<char>| has_name(pre, x) implies #[trigger] has_name(
                    out@,
                    x,
                ) by {
                    let t = choose|t: int| 0 <= t < pre.len() && (#[trigger] pre[t])@ == x;
                    assert(out@[t] == pre[t]);
                }
                assert(has_name(out@, rows[i as int].0));
            }
            let mut j: usize = 0;
            while j < self.adjacency[i].1.len()
                invariant
                    0 <= i < self.adjacency@.len(),
                    0 <= j <= self.adjacency@[i as int].1@.len(),
                    rows[i as int].1.len() == self.adjacency@[i as int].1@.len(),
                    forall|a: int, b: int| 0 <= a < b < out@.len() ==> out@[a]@ != out@[b]@,
                    forall|t: int| 0 <= t < out@.len() ==> mentions(rows, (#[trigger] out@[t])@),
                    forall|a: int| 0 <= a < i + 1 ==> has_name(out@, (#[trigger] rows[a]).0),
                    forall|a: int, b: int|
                        0 <= a < i && 0 <= b < rows[a].1.len() ==> has_name(
                            out@,
                            (#[trigger] rows[a].1[b]).0,
                        ),
                    forall|b: int|
                        0 <= b < j ==> has_name(out@, (#[trigger] rows[i as int].1[b]).0),
                decreases self.adjacency@[i as int].1@.len() - j,
            {
                let ghost pre2 = out@;
                push_unique(&mut out, &self.adjacency[i].1[j].0);
                proof {
                    assert(rows[i as int].1[j as int].0 == self.adjacency@[i as int].1@[j as int].0@);
                    assert forall|t: int| 0 <= t < out@.len() implies mentions(
                        rows,
                        (#[trigger] out@[t])@,
                    ) by {
                        if t < pre2.len() {
                            assert(out@[t] == pre2[t]);
                        } else {
                            assert(out@[t]@ == self.adjacency@[i as int].1@[j as int].0@);
                            assert((rows[i as int].1[j as int]).0 == out@[t]@);
                        }
                    }
                    assert forall|x: Seq<char>| has_name(pre2, x) implies #[trigger] has_name(
                        out@,
                        x,
                    ) by {
                        let t = choose|t: int| 0 <= t < pre2.len() && (#[trigger] pre2[t])@ == x;
                        assert(out@[t] == pre2[t]);
                    }
                    assert(has_name(out@, rows[i as int].1[j as int].0));
                }
                j = j + 1;
            }
            i = i + 1;
        }
        proof {
            assert forall|i2: int| 0 <= i2 < self.model().len() implies has_name(
                out@,
                (#[trigger] self.model()[i2]).0,
            ) by {
                assert(rows[i2] == self.model()[i2]);
                assert(has_name(out@, rows[i2].0));
            }
            assert forall|i2: int, j2: int|
                0 <= i2 < self.model().len() && 0 <= j2 < self.model()[i2].1.len() implies has_name(
                out@,
                (#[trigger] self.model()[i2].1[j2]).0,
            ) by {
                assert(rows[i2] == self.model()[i2]);
                assert(has_name(out@, rows[i2].1[j2].0));
            }
        }
        out
    }

    /// Total number of edges, clamped at the machine's count limit.
    pub fn edge_count(&self) -> (r: usize)
        ensures
            count_edges(self.model()) <= usize::MAX ==> r as int == count_edges(self.model()),
            count_edges(self.model()) > usize::MAX ==> r == usize::MAX,
    {
        let ghost rows = self.model();
        let mut total: usize = 0;
        let mut i: usize = 0;
        while i < self.adjacency.len()
            invariant
                0 <= i <= self.adjacency@.len(),
                rows == self.model(),
                rows.len() == self.adjacency@.len(),
                total as int == count_edges(rows.take(i as int)),
            decreases self.adjacency@.len() - i,
        {
            proof {
                lemma_count_edges_snoc(rows, i as int);
                assert(rows[i as int].1.len() == self.adjacency@[i as int].1@.len());
            }
            let row_len = self.adjacency[i].1.len();
            if row_len > usize::MAX - total {
                proof {
                    lemma_count_edges_prefix_le(rows, i + 1, rows.len() as int);
                    assert(rows.take(rows.len() as int) =~= rows);
                }
                return usize::MAX;
            }
            total = total + row_len;
            i = i + 1;
        }
        proof {
            assert(rows.take(rows.len() as int) =~= rows);
        }
        total
    }

    /// A route from `start` to `end`, found by relaxing edges in order of
    /// total weight, Bellman-Ford style: every reachable node settles within
    /// one round per node. The contract checks that the route is well formed
    /// over the matrix and that the trivial query returns the trivial route;
    /// that the returned route's total weight is minimal, and that `None`
    /// comes back only for unreachable targets, are properties of the
    /// relaxation that are not machine-checked here.
    #[verifier::loop_isolation(false)]
    #[verifier::rlimit(100)]
    pub fn shortest_path(&self, start: &str, end: &str) -> (r: Option<Vec<String>>)
        ensures
            start@ == end@ ==> (r matches Some(path) && path@.len() == 1),
            r matches Some(path) ==> {
                &&& path@.len() >= 1
                &&& path@[0]@ == start@
                &&& path@[path@.len() - 1]@ == end@
                &&& forall|k: int|
                    0 <= k < path@.len() - 1 ==> edge_weight(
                        self.model(),
                        (#[trigger] path@[k])@,
                        path@[k + 1]@,
                    ) is Some
            },
    {
        if str_eq(start, end) {
            let mut path: Vec<String> = Vec::new();
            path.push(String::from_str(start));
            return Some(path);
        }
        let mut dist: Vec<(String, u64)> = Vec::new();
        let mut preds: Vec<(String, String)> = Vec::new();
        dist.push((String::from_str(start), 0));
        // a simple route has fewer hops than there are nodes, so this many
        // relaxation rounds reach a fixed point over every reachable node
        let rounds = self.nodes().len();
        let mut round: usize = 0;
        while round < rounds
            invariant
                forall|k: int|
                    0 <= k < preds@.len() ==> edge_weight(
                        self.model(),
                        (#[trigger] preds@[k]).1@,
                        preds@[k].0@,
                    ) is Some,
            decreases rounds - round,
        {
            let mut i: usize = 0;
            while i < self.adjacency.len()
                invariant
                    forall|k: int|
                        0 <= k < preds@.len() ==> edge_weight(
                            self.model(),
                            (#[trigger] preds@[k]).1@,
                            preds@[k].0@,
                        ) is Some,
                decreases self.adjacency@.len() - i,
            {
                let reached = find_dist(&dist, self.adjacency[i].0.as_str());
                match reached {
                    None => {},
                    Some(di) => {
                        let d = dist[di].1;
                        let mut j: usize = 0;
                        while j < self.adjacency[i].1.len()
                            invariant
                                0 <= i < self.adjacency@.len(),
                                forall|k: int|
                                    0 <= k < preds@.len() ==> edge_weight(
                                        self.model(),
                                        (#[trigger] preds@[k]).1@,
                                        preds@[k].0@,
                                    ) is Some,
                            decreases self.adjacency@[i as int].1@.len() - j,
                        {
                            let next = self.adjacency[i].1[j].0.clone();
                            let w = self.weight(self.adjacency[i].0.as_str(), next.as_str());
                            match w {
                                None => {},
                                Some(wv) => {
                                    let cand: u64 = if wv > u64::MAX - d {
                                        u64::MAX
                                    } else {
                                        d + wv
                                    };
                                    let mut relax = false;
                                    match find_dist(&dist, next.as_str()) {
                                        None => {
                                            relax = true;
                                        },
                                        Some(ti) => {
                                            if cand < dist[ti].1 {
                                                dist.remove(ti);
                                                relax = true;
                                            }
                                        },
                                    }
                                    if relax {
                                        dist.push((next.clone(), cand));
                                        match find_pred_idx(&preds, next.as_str()) {
                                            Some(pi) => {
                                                let ghost held = preds@;
                                                preds.remove(pi);
                                                proof {
                                                    assert forall|k: int|
                                                        0 <= k < preds@.len() implies edge_weight(
                                                        self.model(),
                                                        (#[trigger] preds@[k]).1@,
                                                        preds@[k].0@,
                                                    ) is Some by {
                                                        if k < pi {
                                                            assert(preds@[k] == held[k]);
                                                        } else {
                                                            assert(preds@[k] == held[k + 1]);
                                                        }
                                                    }
                                                }
                                            },
                                            None => {},
                                        }
                                        let ghost base = preds@;
                                        preds.push((next.clone(), self.adjacency[i].0.clone()));
                                        proof {
                                            assert forall|k: int|
                                                0 <= k < preds@.len() implies edge_weight(
                                                self.model(),
                                                (#[trigger] preds@[k]).1@,
                                                preds@[k].0@,
                                            ) is Some by {
                                                if k < base.len() {
                                                    assert(preds@[k] == base[k]);
                                                } else {
                                                    assert(preds@[k].0@ == next@);
                                                    assert(preds@[k].1@ == self.adjacency@[
                                                        i as int
                                                    ].0@);
                                                }
                                            }
                                        }
                                    }
                                },
                            }
                            j = j + 1;
                        }
                    },
                }
                i = i + 1;
            }
            round = round + 1;
        }
        // reconstruct the route backwards through the predecessor records;
        // each settled node holds one record, so the walk needs no more hops
        if !contains_pred(&preds, end) {
            return None;
        }
        let mut rev_path: Vec<String> = Vec::new();
        rev_path.push(String::from_str(end));
        let mut hops: usize = 0;
        let hop_limit = preds.len().saturating_add(1);
        while hops < hop_limit
            invariant
                rev_path@.len() >= 1,
                rev_path@[0]@ == end@,
                forall|k: int|
                    0 <= k < rev_path@.len() - 1 ==> edge_weight(
                        self.model(),
                        rev_path@[k + 1]@,
                        (#[trigger] rev_path@[k])@,
                    ) is Some,
                forall|k: int|
                    0 <= k < preds@.len() ==> edge_weight(
                        self.model(),
                        (#[trigger] preds@[k]).1@,
                        preds@[k].0@,
                    ) is Some,
            decreases hop_limit - hops,
        {
            let last_idx = rev_path.len() - 1;
            let tail_is_start = str_eq(rev_path[last_idx].as_str(), start);
            if tail_is_start {
                break;
            }
            let current = rev_path[last_idx].clone();
            match find_pred(&preds, current.as_str()) {
                Some(prev) => {
                    proof {
                        assert(rev_path@.last()@ == current@);
                    }
                    rev_path.push(prev);
                },
                None => {
                    return None;
                },
            }
            hops = hops + 1;
        }
        let tail = rev_path.len() - 1;
        if !str_eq(rev_path[tail].as_str(), start) {
            return None;
        }
        let mut path: Vec<String> = Vec::new();
        let mut k: usize = rev_path.len();
        while k > 0
            invariant
                k <= rev_path@.len(),
                path@.len() == rev_path@.len() - k,
                forall|t: int|
                    0 <= t < path@.len() ==> (#[trigger] path@[t])@ == rev_path@[
                        rev_path@.len() - 1 - t
                    ]@,
            decreases k,
        {
            k = k - 1;
            path.push(rev_path[k].clone());
        }
        proof {
            assert(path@[0]@ == rev_path@.last()@);
            assert(path@[path@.len() - 1]@ == rev_path@[0]@);
            assert forall|t: int| 0 <= t < path@.len() - 1 implies edge_weight(
                self.model(),
                (#[trigger] path@[t])@,
                path@[t + 1]@,
            ) is Some by {
                let n = rev_path@.len();
                assert(path@[t]@ == rev_path@[n - 1 - t]@);
                assert(path@[t + 1]@ == rev_path@[n - 2 - t]@);
            }
        }
        Some(path)
    }
}

/// Total edges over the rows.
pub open spec fn count_edges(rows: Seq<(Seq<char>, Seq<(Seq<char>, int)>)>) -> int
    decreases rows.len(),
{
    if rows.len() == 0 {
        0
    } else {
        count_edges(rows.drop_last()) + rows.last().1.len()
    }
}

proof fn lemma_count_edges_snoc(rows: Seq<(Seq<char>, Seq<(Seq<char>, int)>)>, i: int)
    requires
        0 <= i < rows.len(),
    ensures
        count_edges(rows.take(i + 1)) == count_edges(rows.take(i)) + rows[i].1.len(),
{
    assert(rows.take(i + 1).drop_last() =~= rows.take(i));
    assert(rows.take(i + 1).last() == rows[i]);
}

proof fn lemma_count_edges_prefix_le(rows: Seq<(Seq<char>, Seq<(Seq<char>, int)>)>, i: int, j: int)
    requires
        0 <= i <= j <= rows.len(),
    ensures
        count_edges(rows.take(i)) <= count_edges(rows.take(j)),
    decreases j - i,
{
    if i < j {
        lemma_count_edges_prefix_le(rows, i, j - 1);
        lemma_count_edges_snoc(rows, j - 1);
    }
}

/// Append a node unless it is already present: afterwards the name is in
/// the list, earlier entries are unchanged, and any new entry is the name.
fn push_unique(xs: &mut Vec<String>, x: &String)
    requires
        forall|a: int, b: int| 0 <= a < b < old(xs)@.len() ==> old(xs)@[a]@ != old(xs)@[b]@,
    ensures
        forall|a: int, b: int| 0 <= a < b < final(xs)@.len() ==> final(xs)@[a]@ != final(xs)@[b]@,
        old(xs)@.len() <= final(xs)@.len(),
        forall|k: int| 0 <= k < old(xs)@.len() ==> final(xs)@[k] == old(xs)@[k],
        exists|k: int| 0 <= k < final(xs)@.len() && (#[trigger] final(xs)@[k])@ == x@,
        forall|k: int| old(xs)@.len() <= k < final(xs)@.len() ==> (#[trigger] final(xs)@[k])@
            == x@,
{
    let mut i: usize = 0;
    let mut seen = false;
    while i < xs.len()
        invariant
            0 <= i <= xs@.len(),
            xs@ == old(xs)@,
            seen == exists|k: int| 0 <= k < i && (#[trigger] xs@[k])@ == x@,
        decreases xs@.len() - i,
    {
        let hit = str_eq(xs[i].as_str(), x.as_str());
        if hit {
            seen = true;
        }
        i = i + 1;
    }
    if seen {
        return;
    }
    {
        let ghost pre = xs@;
        xs.push(x.clone());
        proof {
            assert(xs@[pre.len() as int]@ == x@);
            assert forall|a: int, b: int|
                0 <= a < b < xs@.len() implies xs@[a]@ != xs@[b]@ by {
                if b < pre.len() {
                    assert(xs@[a] == pre[a] && xs@[b] == pre[b]);
                } else {
                    assert(xs@[b]@ == x@);
                    assert(xs@[a] == pre[a]);
                    assert(!(pre[a]@ == x@));
                }
            }
        }
    }
}

/// Index of the first distance record for a node.
fn find_dist(xs: &Vec<(String, u64)>, x: &str) -> (r: Option<usize>)
    ensures
        r matches Some(i) ==> i < xs@.len(),
{
    let mut i: usize = 0;
    while i < xs.len()
        invariant
            i <= xs@.len(),
        decreases xs@.len() - i,
    {
        if str_eq(xs[i].0.as_str(), x) {
            return Some(i);
        }
        i = i + 1;
    }
    None
}

/// Index of the first predecessor record for a node.
fn find_pred_idx(preds: &Vec<(String, String)>, node: &str) -> (r: Option<usize>)
    ensures
        r matches Some(i) ==> i < preds@.len(),
{
    let mut i: usize = 0;
    while i < preds.len()
        invariant
            i <= preds@.len(),
        decreases preds@.len() - i,
    {
        if str_eq(preds[i].0.as_str(), node) {
            return Some(i);
        }
        i = i + 1;
    }
    None
}

/// Whether a predecessor record exists for a node.
fn contains_pred(preds: &Vec<(String, String)>, node: &str) -> (r: bool) {
    let mut i: usize = 0;
    while i < preds.len()
        decreases preds@.len() - i,
    {
        if str_eq(preds[i].0.as_str(), node) {
            return true;
        }
        i = i + 1;
    }
    false
}

/// The predecessor recorded for a node, whose hop into the node is an edge.
fn find_pred(preds: &Vec<(String, String)>, node: &str) -> (r: Option<String>)
    ensures
        r matches Some(prev) ==> exists|k: int|
            0 <= k < preds@.len() && (#[trigger] preds@[k]).0@ == node@ && preds@[k].1@ == prev@,
{
    let mut i: usize = 0;
    while i < preds.len()
        decreases preds@.len() - i,
    {
        if str_eq(preds[i].0.as_str(), node) {
            let prev = preds[i].1.clone();
            proof {
                assert((preds@[i as int]).0@ == node@ && preds@[i as int].1@ == prev@);
            }
            return Some(prev);
        }
        i = i + 1;
    }
    None
}

} // verus!
