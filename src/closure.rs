use vstd::prelude::*;
use std::collections::HashMap;

use crate::rank::{qualifies, rank_eq};
use crate::rank::TaxonomyRank;
use crate::record::{TaxonomyRecord, TaxonomyRelation};

verus! {

broadcast use vstd::std_specs::hash::group_hash_axioms;

/// `index` maps each record's id to the record's position, and nothing else.
pub open spec fn index_ok(recs: Seq<TaxonomyRecord>, index: Map<u32, usize>) -> bool {
    &&& forall|i: int|
        0 <= i < recs.len() ==> #[trigger] index.contains_key(recs[i].id) && index[recs[i].id] == i
    &&& forall|k: u32|
        #[trigger] index.contains_key(k) ==> index[k] < recs.len() && recs[index[k] as int].id == k
}

/// The parentage of the records: each one's id and parent id.
pub open spec fn graph_of(recs: Seq<TaxonomyRecord>) -> Seq<(u32, u32)> {
    Seq::new(recs.len(), |i: int| (recs[i].id, recs[i].parent_id))
}

/// Record `j` is a direct child of record `i`. A record whose parent id is its
/// own id (the root) is no child of itself.
pub open spec fn edge(g: Seq<(u32, u32)>, i: int, j: int) -> bool {
    &&& 0 <= i < g.len()
    &&& 0 <= j < g.len()
    &&& g[j].1 == g[i].0
    &&& g[j].0 != g[j].1
}

/// `p` walks from parent to child at each step.
pub open spec fn is_path(g: Seq<(u32, u32)>, p: Seq<int>) -> bool {
    &&& p.len() >= 2
    &&& forall|k: int| 0 <= k < p.len() - 1 ==> #[trigger] edge(g, p[k], p[k + 1])
}

/// Record `j` can be reached from record `i` by one or more parent-to-child steps.
pub open spec fn reaches(g: Seq<(u32, u32)>, i: int, j: int) -> bool {
    exists|p: Seq<int>| #[trigger] is_path(g, p) && p[0] == i && p.last() == j
}

/// Record `j` is a descendant of record `i`: reachable, and not `i` itself.
pub open spec fn descendant(g: Seq<(u32, u32)>, i: int, j: int) -> bool {
    reaches(g, i, j) && j != i
}

/// `x` is the id of a descendant of record `i`.
pub open spec fn is_descendant_id(g: Seq<(u32, u32)>, i: int, x: u32) -> bool {
    exists|j: int| 0 <= j < g.len() && g[j].0 == x && #[trigger] descendant(g, i, j)
}

/// The ids in a descendant list.
pub open spec fn ids_of(children: Seq<TaxonomyRelation>) -> Seq<u32> {
    children.map_values(|c: TaxonomyRelation| c.id)
}

/// What the closure pass owes record `a` of `orig`: at or above the clade
/// threshold, exactly the ids of its descendants, each with that record's
/// rank; below it, nothing.
pub open spec fn closure_ok(orig: Seq<TaxonomyRecord>, a: int, children: Seq<TaxonomyRelation>) -> bool {
    &&& qualifies(orig[a].rank) ==> forall|x: u32|
        #[trigger] ids_of(children).contains(x) <==> is_descendant_id(graph_of(orig), a, x)
    &&& !qualifies(orig[a].rank) ==> children.len() == 0
    &&& ids_of(children).no_duplicates()
    &&& forall|t: int, j: int|
        0 <= t < children.len() && 0 <= j < orig.len() && orig[j].id == #[trigger] children[t].id
            ==> rank_eq(children[t].rank, #[trigger] orig[j].rank)
}

/// Everything but the descendant list is kept.
pub open spec fn same_node(a: TaxonomyRecord, b: TaxonomyRecord) -> bool {
    &&& a.id == b.id
    &&& a.parent_id == b.parent_id
    &&& a.rank == b.rank
    &&& a.scientific_name == b.scientific_name
}

pub proof fn lemma_reach_step(g: Seq<(u32, u32)>, a: int, b: int, c: int)
    requires
        a == b || reaches(g, a, b),
        edge(g, b, c),
    ensures
        reaches(g, a, c),
{
    if a == b {
        let p = seq![a, c];
        assert(edge(g, p[0], p[1]));
        assert(is_path(g, p));
    } else {
        let p = choose|p: Seq<int>| #[trigger] is_path(g, p) && p[0] == a && p.last() == b;
        let q = p.push(c);
        assert forall|k: int| 0 <= k < q.len() - 1 implies #[trigger] edge(g, q[k], q[k + 1]) by {
            if k < p.len() - 1 {
                assert(edge(g, p[k], p[k + 1]));
            }
        }
        assert(is_path(g, q));
    }
}

pub proof fn lemma_reach_trans(g: Seq<(u32, u32)>, a: int, b: int, c: int)
    requires
        a == b || reaches(g, a, b),
        reaches(g, b, c),
    ensures
        reaches(g, a, c),
{
    if a != b {
        let p = choose|p: Seq<int>| #[trigger] is_path(g, p) && p[0] == a && p.last() == b;
        let q = choose|q: Seq<int>| #[trigger] is_path(g, q) && q[0] == b && q.last() == c;
        let t = p + q.drop_first();
        assert forall|k: int| 0 <= k < t.len() - 1 implies #[trigger] edge(g, t[k], t[k + 1]) by {
            if k < p.len() - 1 {
                assert(edge(g, p[k], p[k + 1]));
            } else {
                let m = k - (p.len() - 1);
                assert(edge(g, q[m], q[m + 1]));
            }
        }
        assert(is_path(g, t));
    }
}

/// Every position along a path that starts inside a set closed under
/// parent-to-child steps lies in that set.
pub proof fn lemma_closed_path(g: Seq<(u32, u32)>, vis: Seq<bool>, p: Seq<int>, k: int)
    requires
        vis.len() == g.len(),
        is_path(g, p),
        0 <= k < p.len(),
        0 <= p[0] < vis.len(),
        vis[p[0]],
        forall|x: int, y: int| 0 <= x < vis.len() && vis[x] && #[trigger] edge(g, x, y) ==> vis[y],
    ensures
        0 <= p[k] < vis.len(),
        vis[p[k]],
    decreases k,
{
    if k > 0 {
        lemma_closed_path(g, vis, p, k - 1);
        let m = k - 1;
        assert(edge(g, p[m], p[m + 1]));
    }
}

/// A set of positions that holds `r` and is closed under parent-to-child
/// steps holds everything reachable from `r`.
pub proof fn lemma_closed_holds_reach(g: Seq<(u32, u32)>, vis: Seq<bool>, r: int, w: int)
    requires
        vis.len() == g.len(),
        0 <= r < vis.len(),
        vis[r],
        forall|x: int, y: int| 0 <= x < vis.len() && vis[x] && #[trigger] edge(g, x, y) ==> vis[y],
        reaches(g, r, w),
    ensures
        0 <= w < vis.len(),
        vis[w],
{
    let p = choose|p: Seq<int>| #[trigger] is_path(g, p) && p[0] == r && p.last() == w;
    lemma_closed_path(g, vis, p, p.len() - 1);
}

/// The direct children of every record, by position.
pub fn build_adjacency(recs: &Vec<TaxonomyRecord>, index: &HashMap<u32, usize>) -> (adj: Vec<Vec<usize>>)
    requires
        index_ok(recs@, index@),
    ensures
        adj@.len() == recs@.len(),
        forall|i: int, x: usize|
            0 <= i < recs@.len() ==> (#[trigger] adj@[i]@.contains(x) <==> edge(graph_of(recs@), i, x as int)),
{
    let n = recs.len();
    let mut adj: Vec<Vec<usize>> = Vec::new();
    let mut i: usize = 0;
    while i < n
        invariant
            n == recs@.len(),
            i <= n,
            adj@.len() == i,
            forall|a: int| 0 <= a < i ==> (#[trigger] adj@[a])@.len() == 0,
        decreases n - i,
    {
        adj.push(Vec::new());
        i = i + 1;
    }
    let mut j: usize = 0;
    while j < n
        invariant
            n == recs@.len(),
            j <= n,
            adj@.len() == n,
            index_ok(recs@, index@),
            forall|a: int, x: usize|
                0 <= a < n ==> (#[trigger] adj@[a]@.contains(x) <==> (x < j && edge(graph_of(recs@), a, x as int))),
        decreases n - j,
    {
        let p = recs[j].parent_id;
        if recs[j].id != p {
            match index.get(&p) {
                Some(pi) => {
                    let pi = *pi;
                    let ghost old_adj = adj@;
                    let mut bucket: Vec<usize> = Vec::new();
                    adj.set_and_swap(pi, &mut bucket);
                    assert(bucket == old_adj[pi as int]);
                    bucket.push(j);
                    adj.set(pi, bucket);
                    assert forall|a: int, x: usize|
                        0 <= a < n implies (#[trigger] adj@[a]@.contains(x) <==> (x < j + 1 && edge(graph_of(recs@), a, x as int))) by {
                        if a == pi as int {
                            let ob = old_adj[a]@;
                            assert(adj@[a]@ == ob.push(j));
                            if x == j {
                                assert(adj@[a]@[ob.len() as int] == x);
                            } else {
                                if adj@[a]@.contains(x) {
                                    let t = choose|t: int| 0 <= t < adj@[a]@.len() && adj@[a]@[t] == x;
                                    assert(ob[t] == x);
                                }
                                if ob.contains(x) {
                                    let t = choose|t: int| 0 <= t < ob.len() && ob[t] == x;
                                    assert(adj@[a]@[t] == x);
                                }
                                assert(old_adj[a]@.contains(x) <==> (x < j && edge(graph_of(recs@), a, x as int)));
                            }
                        } else {
                            assert(adj@[a] == old_adj[a]);
                            if x == j {
                                assert(!edge(graph_of(recs@), a, x as int)) by {
                                    if edge(graph_of(recs@), a, x as int) {
                                        assert(index@[recs@[a].id] == a);
                                    }
                                }
                            }
                        }
                    }
                },
                None => {
                    assert forall|a: int, x: usize|
                        0 <= a < n implies (#[trigger] adj@[a]@.contains(x) <==> (x < j + 1 && edge(graph_of(recs@), a, x as int))) by {
                        if x == j && edge(graph_of(recs@), a, x as int) {
                            assert(index@.contains_key(recs@[a].id));
                        }
                    }
                },
            }
        }
        j = j + 1;
    }
    adj
}

/// `adj` lists, for each position, exactly the positions of its direct children.
pub open spec fn adj_ok(g: Seq<(u32, u32)>, adj: Seq<Vec<usize>>) -> bool {
    &&& adj.len() == g.len()
    &&& forall|i: int, x: usize| 0 <= i < g.len() ==> (#[trigger] adj[i]@.contains(x) <==> edge(g, i, x as int))
}

/// Each filled slot of `memo` lists exactly the descendants of its position.
pub open spec fn memo_ok(g: Seq<(u32, u32)>, memo: Seq<Option<Vec<usize>>>) -> bool {
    &&& memo.len() == g.len()
    &&& forall|u: int, w: usize|
        #![trigger memo[u]->Some_0@.contains(w)]
        #![trigger memo[u], descendant(g, u, w as int)]
        0 <= u < g.len() && memo[u] is Some ==> (memo[u]->Some_0@.contains(w) <==> (w < g.len()
            && descendant(g, u, w as int)))
}

/// The number of unmarked slots.
pub open spec fn count_false(s: Seq<bool>) -> nat
    decreases s.len(),
{
    if s.len() == 0 {
        0
    } else {
        count_false(s.drop_last()) + if s.last() { 0nat } else { 1nat }
    }
}

pub proof fn lemma_count_false_mark(s: Seq<bool>, i: int)
    requires
        0 <= i < s.len(),
        !s[i],
    ensures
        count_false(s.update(i, true)) + 1 == count_false(s),
    decreases s.len(),
{
    if i == s.len() - 1 {
        assert(s.update(i, true).drop_last() =~= s.drop_last());
    } else {
        assert(s.update(i, true).drop_last() =~= s.drop_last().update(i, true));
        lemma_count_false_mark(s.drop_last(), i);
    }
}

/// The positions of all descendants of `r`, each once. Subtrees whose
/// descendants `memo` already holds are taken from it, not walked again.
/// `visited` is scratch space: all unmarked before and after.
pub fn descendants_of(
    g: Ghost<Seq<(u32, u32)>>,
    adj: &Vec<Vec<usize>>,
    memo: &Vec<Option<Vec<usize>>>,
    visited: &mut Vec<bool>,
    r: usize,
) -> (out: Vec<usize>)
    requires
        adj_ok(g@, adj@),
        memo_ok(g@, memo@),
        old(visited)@.len() == g@.len(),
        forall|x: int| 0 <= x < g@.len() ==> !(#[trigger] old(visited)@[x]),
        r < g@.len(),
    ensures
        final(visited)@.len() == g@.len(),
        forall|x: int| 0 <= x < g@.len() ==> !(#[trigger] final(visited)@[x]),
        out@.no_duplicates(),
        forall|w: usize| #[trigger] out@.contains(w) <==> (w < g@.len() && descendant(g@, r as int, w as int)),
{
    let n = adj.len();
    proof {
        lemma_count_false_mark(visited@, r as int);
    }
    visited.set(r, true);
    let mut out: Vec<usize> = Vec::new();
    let mut stack: Vec<usize> = Vec::new();
    stack.push(r);
    proof {
        assert(stack@[0] == r);
        assert forall|x: int| 0 <= x < n && #[trigger] visited@[x] implies x == r by {}
    }
    while stack.len() > 0
        invariant
            n == g@.len(),
            adj_ok(g@, adj@),
            memo_ok(g@, memo@),
            r < n,
            visited@.len() == n,
            forall|x: int| 0 <= x < n ==> (#[trigger] visited@[x] <==> (x == r || out@.contains(x as usize))),
            out@.no_duplicates(),
            forall|k: int|
                0 <= k < out@.len() ==> #[trigger] out@[k] < n && out@[k] != r && descendant(g@, r as int, out@[k] as int),
            stack@.no_duplicates(),
            forall|k: int| 0 <= k < stack@.len() ==> #[trigger] stack@[k] < n && visited@[stack@[k] as int],
            forall|x: int, y: int|
                0 <= x < n && visited@[x] && !stack@.contains(x as usize) && #[trigger] edge(g@, x, y) ==> visited@[y],
        decreases 2 * count_false(visited@) + stack@.len(),
    {
        let ghost m0 = 2 * count_false(visited@) + stack@.len();
        let ghost s0 = stack@;
        let u = stack.pop().unwrap();
        proof {
            assert(s0[s0.len() - 1] == u);
            assert(stack@ =~= s0.drop_last());
            assert(!stack@.contains(u)) by {
                if stack@.contains(u) {
                    let t = choose|t: int| 0 <= t < stack@.len() && stack@[t] == u;
                    assert(s0[t] == s0[s0.len() - 1]);
                }
            }
            assert(visited@[s0[s0.len() - 1] as int]);
            assert forall|x: int, y: int|
                0 <= x < n && visited@[x] && !stack@.contains(x as usize) && x != u && #[trigger] edge(g@, x, y)
                implies visited@[y] by {
                if s0.contains(x as usize) {
                    let t = choose|t: int| 0 <= t < s0.len() && s0[t] == x as usize;
                    if t < s0.len() - 1 {
                        assert(stack@[t] == x as usize);
                    }
                }
            }
            if u != r {
                assert(out@.contains(u));
                let t = choose|t: int| 0 <= t < out@.len() && out@[t] == u;
                assert(descendant(g@, r as int, out@[t] as int));
            }
        }
        match &memo[u] {
            Some(list) => {
                proof {
                    assert forall|t: int| 0 <= t < list@.len() implies (#[trigger] list@[t]) < n by {
                        assert(list@.contains(list@[t]));
                    }
                }
                let mut k: usize = 0;
                while k < list.len()
                    invariant
                        n == g@.len(),
                        adj_ok(g@, adj@),
                        memo_ok(g@, memo@),
                        memo@[u as int] == Some(*list),
                        forall|t: int| 0 <= t < list@.len() ==> (#[trigger] list@[t]) < n,
                        r < n,
                        u < n,
                        u == r || descendant(g@, r as int, u as int),
                        k <= list@.len(),
                        visited@.len() == n,
                        visited@[u as int],
                        !stack@.contains(u),
                        forall|x: int| 0 <= x < n ==> (#[trigger] visited@[x] <==> (x == r || out@.contains(x as usize))),
                        out@.no_duplicates(),
                        forall|t: int|
                            0 <= t < out@.len() ==> #[trigger] out@[t] < n && out@[t] != r && descendant(g@, r as int, out@[t] as int),
                        stack@.no_duplicates(),
                        forall|t: int| 0 <= t < stack@.len() ==> #[trigger] stack@[t] < n && visited@[stack@[t] as int],
                        forall|t: int| 0 <= t < k ==> visited@[#[trigger] list@[t] as int],
                        forall|x: int, y: int|
                            0 <= x < n && visited@[x] && !stack@.contains(x as usize) && x != u && !descendant(g@, u as int, x)
                                && #[trigger] edge(g@, x, y) ==> visited@[y],
                        2 * count_false(visited@) + stack@.len() < m0,
                    decreases list@.len() - k,
                {
                    let w = list[k];
                    proof {
                        assert(list@.contains(w));
                        assert(descendant(g@, u as int, w as int));
                    }
                    if !visited[w] {
                        proof {
                            lemma_reach_trans(g@, r as int, u as int, w as int);
                            lemma_count_false_mark(visited@, w as int);
                        }
                        let ghost vo = visited@;
                        let ghost oo = out@;
                        let ghost so = stack@;
                        visited.set(w, true);
                        out.push(w);
                        proof {
                            assert(out@ == oo.push(w));
                            assert(!oo.contains(w));
                            assert forall|x: int| 0 <= x < n implies (#[trigger] visited@[x] <==> (x == r || out@.contains(x as usize))) by {
                                if x != w as int {
                                    assert(visited@[x] == vo[x]);
                                    if oo.contains(x as usize) {
                                        let t = choose|t: int| 0 <= t < oo.len() && oo[t] == x as usize;
                                        assert(out@[t] == x as usize);
                                    }
                                    if out@.contains(x as usize) {
                                        let t = choose|t: int| 0 <= t < out@.len() && out@[t] == x as usize;
                                        assert(t < oo.len());
                                        assert(oo[t] == x as usize);
                                    }
                                } else {
                                    assert(out@[oo.len() as int] == w);
                                }
                            }
                            assert forall|t: int| 0 <= t < k implies visited@[#[trigger] list@[t] as int] by {
                                assert(vo[list@[t] as int]);
                            }
                        }
                    }
                    assert(visited@[w as int]);
                    k = k + 1;
                }
                proof {
                    assert forall|x: int, y: int|
                        0 <= x < n && visited@[x] && !stack@.contains(x as usize) && #[trigger] edge(g@, x, y) implies visited@[y] by {
                        if x == u || descendant(g@, u as int, x) {
                            lemma_reach_step(g@, u as int, x, y);
                            if y != u {
                                assert(list@.contains(y as usize));
                                let t = choose|t: int| 0 <= t < list@.len() && list@[t] == y as usize;
                                assert(visited@[list@[t] as int]);
                            }
                        }
                    }
                }
            },
            None => {
                let succ = &adj[u];
                proof {
                    assert forall|t: int| 0 <= t < succ@.len() implies (#[trigger] succ@[t]) < n by {
                        assert(succ@.contains(succ@[t]));
                        assert(edge(g@, u as int, succ@[t] as int));
                    }
                }
                let mut k: usize = 0;
                while k < succ.len()
                    invariant
                        n == g@.len(),
                        adj_ok(g@, adj@),
                        memo_ok(g@, memo@),
                        *succ == adj@[u as int],
                        forall|t: int| 0 <= t < succ@.len() ==> (#[trigger] succ@[t]) < n,
                        r < n,
                        u < n,
                        u == r || descendant(g@, r as int, u as int),
                        k <= succ@.len(),
                        visited@.len() == n,
                        visited@[u as int],
                        !stack@.contains(u),
                        forall|x: int| 0 <= x < n ==> (#[trigger] visited@[x] <==> (x == r || out@.contains(x as usize))),
                        out@.no_duplicates(),
                        forall|t: int|
                            0 <= t < out@.len() ==> #[trigger] out@[t] < n && out@[t] != r && descendant(g@, r as int, out@[t] as int),
                        stack@.no_duplicates(),
                        forall|t: int| 0 <= t < stack@.len() ==> #[trigger] stack@[t] < n && visited@[stack@[t] as int],
                        forall|t: int| 0 <= t < k ==> visited@[#[trigger] succ@[t] as int],
                        forall|x: int, y: int|
                            0 <= x < n && visited@[x] && !stack@.contains(x as usize) && x != u
                                && #[trigger] edge(g@, x, y) ==> visited@[y],
                        2 * count_false(visited@) + stack@.len() < m0,
                    decreases succ@.len() - k,
                {
                    let y = succ[k];
                    proof {
                        assert(succ@.contains(y));
                        assert(edge(g@, u as int, y as int));
                    }
                    if !visited[y] {
                        proof {
                            lemma_reach_step(g@, r as int, u as int, y as int);
                            lemma_count_false_mark(visited@, y as int);
                        }
                        let ghost vo = visited@;
                        let ghost oo = out@;
                        let ghost so = stack@;
                        visited.set(y, true);
                        out.push(y);
                        stack.push(y);
                        proof {
                            assert(out@ == oo.push(y));
                            assert(!oo.contains(y));
                            assert forall|x: int| 0 <= x < n implies (#[trigger] visited@[x] <==> (x == r || out@.contains(x as usize))) by {
                                if x != y as int {
                                    assert(visited@[x] == vo[x]);
                                    if oo.contains(x as usize) {
                                        let t = choose|t: int| 0 <= t < oo.len() && oo[t] == x as usize;
                                        assert(out@[t] == x as usize);
                                    }
                                    if out@.contains(x as usize) {
                                        let t = choose|t: int| 0 <= t < out@.len() && out@[t] == x as usize;
                                        assert(t < oo.len());
                                        assert(oo[t] == x as usize);
                                    }
                                } else {
                                    assert(out@[oo.len() as int] == y);
                                }
                            }
                            assert forall|t: int| 0 <= t < k implies visited@[#[trigger] succ@[t] as int] by {
                                assert(vo[succ@[t] as int]);
                            }
                            assert(stack@ == so.push(y));
                            assert(!so.contains(y));
                            assert forall|x: usize| so.contains(x) implies stack@.contains(x) by {
                                let t = choose|t: int| 0 <= t < so.len() && so[t] == x;
                                assert(stack@[t] == x);
                            }
                            assert forall|x: int, z: int|
                                0 <= x < n && visited@[x] && !stack@.contains(x as usize) && x != u
                                    && #[trigger] edge(g@, x, z) implies visited@[z] by {
                                if x == y as int {
                                    assert(stack@[so.len() as int] == y);
                                } else {
                                    assert(vo[x]);
                                    assert(vo[z]);
                                }
                            }
                            assert forall|x: usize| stack@.contains(x) && x != y implies so.contains(x) by {
                                let t = choose|t: int| 0 <= t < stack@.len() && stack@[t] == x;
                                assert(so[t] == x);
                            }
                        }
                    }
                    assert(visited@[y as int]);
                    k = k + 1;
                }
                proof {
                    assert forall|x: int, y: int|
                        0 <= x < n && visited@[x] && !stack@.contains(x as usize) && #[trigger] edge(g@, x, y) implies visited@[y] by {
                        if x == u {
                            assert(adj@[u as int]@.contains(y as usize));
                            let t = choose|t: int| 0 <= t < succ@.len() && succ@[t] == y as usize;
                            assert(visited@[succ@[t] as int]);
                        }
                    }
                }
            },
        }
    }
    proof {
        assert forall|w: usize| #[trigger] out@.contains(w) <==> (w < n && descendant(g@, r as int, w as int)) by {
            if out@.contains(w) {
                let t = choose|t: int| 0 <= t < out@.len() && out@[t] == w;
                assert(descendant(g@, r as int, out@[t] as int));
            }
            if w < n && descendant(g@, r as int, w as int) {
                lemma_closed_holds_reach(g@, visited@, r as int, w as int);
            }
        }
    }
    let mut k: usize = 0;
    while k < out.len()
        invariant
            n == g@.len(),
            visited@.len() == n,
            k <= out@.len(),
            r < n,
            out@.no_duplicates(),
            forall|t: int| 0 <= t < out@.len() ==> #[trigger] out@[t] < n,
            forall|x: int|
                0 <= x < n && #[trigger] visited@[x] ==> (x == r || exists|t: int| k <= t < out@.len() && out@[t] == x as usize),
        decreases out@.len() - k,
    {
        let w = out[k];
        visited.set(w, false);
        proof {
            assert forall|x: int|
                0 <= x < n && #[trigger] visited@[x] implies (x == r || exists|t: int| k + 1 <= t < out@.len() && out@[t] == x as usize) by {
                if x != r {
                    let t = choose|t: int| k <= t < out@.len() && out@[t] == x as usize;
                    assert(t != k);
                }
            }
        }
        k = k + 1;
    }
    visited.set(r, false);
    out
}

/// Fills every record's descendant list: for each record at or above the
/// clade threshold, all records reachable below it; for the others, none.
/// Descendant sets already found are reused for every later ancestor.
pub fn compute_closures(recs: &mut Vec<TaxonomyRecord>, index: &HashMap<u32, usize>)
    requires
        index_ok(old(recs)@, index@),
    ensures
        final(recs)@.len() == old(recs)@.len(),
        forall|a: int|
            0 <= a < old(recs)@.len() ==> same_node(#[trigger] final(recs)@[a], old(recs)@[a])
                && closure_ok(old(recs)@, a, final(recs)@[a].children@),
{
    let ghost orig = recs@;
    let ghost g = graph_of(recs@);
    let adj = build_adjacency(recs, index);
    let n = recs.len();
    let mut memo: Vec<Option<Vec<usize>>> = Vec::new();
    let mut visited: Vec<bool> = Vec::new();
    let mut i: usize = 0;
    while i < n
        invariant
            n == orig.len(),
            i <= n,
            memo@.len() == i,
            visited@.len() == i,
            forall|a: int| 0 <= a < i ==> (#[trigger] memo@[a]) is None,
            forall|a: int| 0 <= a < i ==> !(#[trigger] visited@[a]),
        decreases n - i,
    {
        memo.push(None);
        visited.push(false);
        i = i + 1;
    }
    let mut i: usize = 0;
    while i < n
        invariant
            n == orig.len(),
            i <= n,
            recs@.len() == n,
            g == graph_of(orig),
            graph_of(recs@) == g,
            index_ok(orig, index@),
            adj_ok(g, adj@),
            memo_ok(g, memo@),
            visited@.len() == n,
            forall|x: int| 0 <= x < n ==> !(#[trigger] visited@[x]),
            forall|a: int| 0 <= a < n ==> same_node(#[trigger] recs@[a], orig[a]),
            forall|a: int| 0 <= a < i ==> closure_ok(orig, a, (#[trigger] recs@[a]).children@),
        decreases n - i,
    {
        let mut rels: Vec<TaxonomyRelation> = Vec::new();
        if recs[i].rank.qualifies_for_closure() {
            let out = descendants_of(Ghost(g), &adj, &memo, &mut visited, i);
            let mut k: usize = 0;
            while k < out.len()
                invariant
                    n == orig.len(),
                    recs@.len() == n,
                    forall|a: int| 0 <= a < n ==> same_node(#[trigger] recs@[a], orig[a]),
                    k <= out@.len(),
                    out@.no_duplicates(),
                    forall|w: usize| #[trigger] out@.contains(w) <==> (w < n && descendant(g, i as int, w as int)),
                    rels@.len() == k,
                    forall|t: int|
                        0 <= t < k ==> (#[trigger] rels@[t]).id == orig[out@[t] as int].id
                            && rank_eq(rels@[t].rank, orig[out@[t] as int].rank),
                decreases out@.len() - k,
            {
                let w = out[k];
                proof {
                    assert(out@.contains(w));
                }
                let rel = TaxonomyRelation { id: recs[w].id, rank: recs[w].rank.duplicate() };
                rels.push(rel);
                k = k + 1;
            }
            proof {
                let ch = rels@;
                assert forall|x: u32| #[trigger] ids_of(ch).contains(x) <==> is_descendant_id(g, i as int, x) by {
                    if ids_of(ch).contains(x) {
                        let t = choose|t: int| 0 <= t < ids_of(ch).len() && ids_of(ch)[t] == x;
                        let j = out@[t] as int;
                        assert(out@.contains(out@[t]));
                        assert(g[j].0 == x);
                        assert(descendant(g, i as int, j));
                    }
                    if is_descendant_id(g, i as int, x) {
                        let j = choose|j: int| 0 <= j < g.len() && g[j].0 == x && #[trigger] descendant(g, i as int, j);
                        assert(out@.contains(j as usize));
                        let t = choose|t: int| 0 <= t < out@.len() && out@[t] == j as usize;
                        assert(ids_of(ch)[t] == x);
                    }
                }
                assert forall|t: int, j: int|
                    0 <= t < ch.len() && 0 <= j < orig.len() && orig[j].id == #[trigger] ch[t].id
                    implies rank_eq(ch[t].rank, #[trigger] orig[j].rank) by {
                    assert(out@.contains(out@[t]));
                    assert(index@.contains_key(orig[j].id));
                    assert(index@.contains_key(orig[out@[t] as int].id));
                }
                assert forall|p: int, q: int| 0 <= p < ids_of(ch).len() && 0 <= q < ids_of(ch).len() && p != q
                    implies ids_of(ch)[p] != ids_of(ch)[q] by {
                    assert(out@.contains(out@[p]));
                    assert(out@.contains(out@[q]));
                    assert(index@.contains_key(orig[out@[p] as int].id));
                    assert(index@.contains_key(orig[out@[q] as int].id));
                }
                assert(closure_ok(orig, i as int, ch));
            }
            memo.set(i, Some(out));
        } else {
            proof {
                assert(ids_of(rels@) =~= Seq::<u32>::empty());
            }
        }
        let ghost ch = rels@;
        let mut rec = TaxonomyRecord::init(0, 0, TaxonomyRank::NoRank);
        recs.set_and_swap(i, &mut rec);
        rec.children = rels;
        recs.set(i, rec);
        proof {
            assert(graph_of(recs@) =~= g);
            assert(recs@[i as int].children@ == ch);
        }
        i = i + 1;
    }
}

/// `closure_ok` looks only at ids, parent ids and ranks, so it carries over
/// to records that keep those.
pub proof fn lemma_closure_ok_same_nodes(
    orig: Seq<TaxonomyRecord>,
    fin: Seq<TaxonomyRecord>,
    a: int,
    children: Seq<TaxonomyRelation>,
)
    requires
        fin.len() == orig.len(),
        0 <= a < orig.len(),
        forall|b: int| 0 <= b < orig.len() ==> same_node(#[trigger] fin[b], orig[b]),
        closure_ok(orig, a, children),
    ensures
        closure_ok(fin, a, children),
{
    assert(graph_of(fin) =~= graph_of(orig));
    assert(same_node(fin[a], orig[a]));
    assert forall|t: int, j: int|
        0 <= t < children.len() && 0 <= j < fin.len() && fin[j].id == #[trigger] children[t].id
        implies rank_eq(children[t].rank, #[trigger] fin[j].rank) by {
        assert(same_node(fin[j], orig[j]));
        assert(rank_eq(children[t].rank, orig[j].rank));
    }
}

/// Running the closure pass a second time, on what the first pass returned,
/// gives every record the same descendant ids and ranks as the first pass did.
pub proof fn lemma_closure_idempotent(
    orig: Seq<TaxonomyRecord>,
    first: Seq<TaxonomyRecord>,
    second: Seq<TaxonomyRecord>,
)
    requires
        first.len() == orig.len(),
        second.len() == orig.len(),
        forall|a: int|
            0 <= a < orig.len() ==> same_node(#[trigger] first[a], orig[a]) && closure_ok(orig, a, first[a].children@),
        forall|a: int|
            0 <= a < orig.len() ==> same_node(#[trigger] second[a], first[a]) && closure_ok(first, a, second[a].children@),
    ensures
        forall|a: int, x: u32|
            0 <= a < orig.len() ==> (#[trigger] ids_of(first[a].children@).contains(x) <==> ids_of(
                second[a].children@,
            ).contains(x)),
        forall|a: int| 0 <= a < orig.len() ==> (#[trigger] first[a].children@.len()) == second[a].children@.len(),
{
    assert(graph_of(first) =~= graph_of(orig));
    assert forall|a: int, x: u32|
        0 <= a < orig.len() implies (#[trigger] ids_of(first[a].children@).contains(x) <==> ids_of(
            second[a].children@,
        ).contains(x)) by {
        assert(same_node(first[a], orig[a]));
        assert(same_node(second[a], first[a]));
        if !qualifies(orig[a].rank) {
            assert(ids_of(first[a].children@).len() == 0);
            assert(ids_of(second[a].children@).len() == 0);
        }
    }
    assert forall|a: int| 0 <= a < orig.len() implies (#[trigger] first[a].children@.len()) == second[a].children@.len() by {
        assert(same_node(first[a], orig[a]));
        assert(same_node(second[a], first[a]));
        if qualifies(orig[a].rank) {
            let f = ids_of(first[a].children@);
            let s = ids_of(second[a].children@);
            assert forall|x: u32| f.contains(x) <==> s.contains(x) by {
                assert(f.contains(x) <==> is_descendant_id(graph_of(orig), a, x));
                assert(s.contains(x) <==> is_descendant_id(graph_of(first), a, x));
            }
            f.unique_seq_to_set();
            s.unique_seq_to_set();
            assert(f.to_set() =~= s.to_set());
        }
    }
}

} // verus!
