//! Topological ordering and cycle finding over a graph whose vertices are
//! the keys of a [`NameMap`] and whose edges point at the listed names;
//! edges to names that are not keys are ignored.
//!
//! The one algorithm serves three callers: the fatal type-dependency cycle
//! check, the advisory import cycle check, and the generation order handed
//! to code emitters. Its result is self-certifying: an order proves the
//! graph acyclic, and a failure carries a genuine cycle.

use vstd::prelude::*;
use vstd::pervasive::VecAdditionalExecFns;
use vstd::pervasive::unreached;
use crate::collections::{NameMap, first_index, lemma_first_index_props, lemma_first_index_contains};
use crate::text::{copy_string, views_of};

verus! {

/// An edge of the graph: `b` is listed under key `a`, and is itself a key.
pub open spec fn graph_edge(g: NameMap<Vec<String>>, a: Seq<char>, b: Seq<char>) -> bool {
    &&& g.spec_contains_key(b)
    &&& match g.spec_get(a) {
        Option::Some(es) => views_of(es@).contains(b),
        Option::None => false,
    }
}

/// Consecutive elements of `c` are edges.
pub open spec fn graph_chain(g: NameMap<Vec<String>>, c: Seq<Seq<char>>) -> bool {
    forall|i: int| 0 <= i < c.len() - 1 ==> graph_edge(g, #[trigger] c[i], c[i + 1])
}

/// A cycle: a chain of length at least two that ends where it starts.
pub open spec fn graph_cycle(g: NameMap<Vec<String>>, c: Seq<Seq<char>>) -> bool {
    c.len() >= 2 && c[0] == c.last() && graph_chain(g, c)
}

/// No cycle anywhere in the graph.
pub open spec fn graph_acyclic(g: NameMap<Vec<String>>) -> bool {
    forall|c: Seq<Seq<char>>| !graph_cycle(g, c)
}

/// What a valid topological order is: all keys, each once, and every edge
/// points at an earlier position.
pub open spec fn is_topo_order(g: NameMap<Vec<String>>, order: Seq<Seq<char>>) -> bool {
    &&& order.len() == g.spec_len()
    &&& forall|i: int, j: int| 0 <= i < j < order.len() ==> order[i] != order[j]
    &&& forall|q: Seq<char>| order.contains(q) ==> g.spec_contains_key(q)
    &&& forall|i: int, b: Seq<char>|
        0 <= i < order.len() && #[trigger] graph_edge(g, order[i], b) ==> exists|j: int|
            0 <= j < i && order[j] == b
}

/// How many entries of a boolean sequence are set.
pub open spec fn count_true(s: Seq<bool>) -> int
    decreases s.len(),
{
    if s.len() == 0 {
        0
    } else {
        count_true(s.drop_last()) + if s.last() {
            1int
        } else {
            0int
        }
    }
}

/// At most every entry is set.
proof fn lemma_count_true_bound(s: Seq<bool>)
    ensures
        0 <= count_true(s) <= s.len(),
    decreases s.len(),
{
    if s.len() > 0 {
        lemma_count_true_bound(s.drop_last());
    }
}

/// Setting an unset entry raises the count by one.
proof fn lemma_count_true_update(s: Seq<bool>, i: int)
    requires
        0 <= i < s.len(),
        !s[i],
    ensures
        count_true(s.update(i, true)) == count_true(s) + 1,
    decreases s.len(),
{
    let u = s.update(i, true);
    if i == s.len() - 1 {
        assert(u.drop_last() =~= s.drop_last());
    } else {
        assert(u.drop_last() =~= s.drop_last().update(i, true));
        lemma_count_true_update(s.drop_last(), i);
    }
}

/// When not every entry is set, some entry is unset.
proof fn lemma_count_true_partial(s: Seq<bool>)
    requires
        count_true(s) < s.len(),
    ensures
        exists|m: int| 0 <= m < s.len() && !s[m],
    decreases s.len(),
{
    if s.len() > 0 {
        if s.last() {
            lemma_count_true_bound(s.drop_last());
            lemma_count_true_partial(s.drop_last());
            let m = choose|m: int| 0 <= m < s.drop_last().len() && !s.drop_last()[m];
            assert(!s[m]);
        } else {
            assert(!s[s.len() - 1]);
        }
    }
}

/// Positions strictly decrease along a chain of a topological order, so no
/// chain returns to its start: an order certifies acyclicity.
pub proof fn lemma_order_acyclic(g: NameMap<Vec<String>>, order: Seq<Seq<char>>)
    requires
        is_topo_order(g, order),
    ensures
        graph_acyclic(g),
{
    assert forall|c: Seq<Seq<char>>| !graph_cycle(g, c) by {
        if graph_cycle(g, c) {
            lemma_chain_position(g, order, c);
        }
    }
}

/// Along a non-trivial chain, the position of the last element is strictly
/// below the position of the first.
proof fn lemma_chain_position(g: NameMap<Vec<String>>, order: Seq<Seq<char>>, c: Seq<Seq<char>>)
    requires
        is_topo_order(g, order),
        graph_chain(g, c),
        c.len() >= 2,
    ensures
        0 <= first_index(order, c.last()) < first_index(order, c[0]) < order.len(),
    decreases c.len(),
{
    if c.len() == 2 {
        assert(graph_edge(g, c[0], c[1]));
        lemma_edge_position(g, order, c[0], c[1]);
    } else {
        assert(graph_chain(g, c.drop_last())) by {
            assert forall|i: int| 0 <= i < c.drop_last().len() - 1 implies graph_edge(
                g,
                #[trigger] c.drop_last()[i],
                c.drop_last()[i + 1],
            ) by {
                assert(c.drop_last()[i] == c[i]);
                assert(c.drop_last()[i + 1] == c[i + 1]);
                assert(graph_edge(g, c[i], c[i + 1]));
            }
        }
        lemma_chain_position(g, order, c.drop_last());
        assert(graph_edge(g, c[c.len() - 2], c[c.len() - 1]));
        lemma_edge_position(g, order, c[c.len() - 2], c.last());
        assert(c.drop_last().last() == c[c.len() - 2]);
        assert(c.drop_last()[0] == c[0]);
    }
}

/// An edge's target sits strictly before its source in the order.
proof fn lemma_edge_position(
    g: NameMap<Vec<String>>,
    order: Seq<Seq<char>>,
    a: Seq<char>,
    b: Seq<char>,
)
    requires
        is_topo_order(g, order),
        graph_edge(g, a, b),
    ensures
        0 <= first_index(order, b) < first_index(order, a) < order.len(),
{
    lemma_first_index_props(order, a);
    lemma_first_index_props(order, b);
    lemma_topo_order_complete(g, order, a);
    lemma_first_index_contains(order, a);
    let i = first_index(order, a);
    assert(order[i] == a);
    let j = choose|j: int| 0 <= j < i && order[j] == b;
    if first_index(order, b) < 0 {
        assert(order[j] != b);
    }
    if first_index(order, b) > j {
        assert(order[j] != b);
    }
}

/// Every key appears in a topological order.
pub proof fn lemma_topo_order_complete(g: NameMap<Vec<String>>, order: Seq<Seq<char>>, a: Seq<char>)
    requires
        is_topo_order(g, order),
        g.spec_contains_key(a),
    ensures
        order.contains(a),
{
    lemma_first_index_contains(g.key_seq(), a);
    if !order.contains(a) {
        let ki = choose|ki: int| 0 <= ki < g.key_seq().len() && g.key_seq()[ki] == a;
        let keys2 = g.key_seq().remove(ki);
        assert forall|q: Seq<char>| order.contains(q) implies keys2.contains(q) by {
            lemma_first_index_contains(g.key_seq(), q);
            let i = choose|i: int| 0 <= i < g.key_seq().len() && g.key_seq()[i] == q;
            assert(q != a);
            if i < ki {
                assert(keys2[i] == q);
            } else {
                assert(keys2[i - 1] == q);
            }
        }
        lemma_distinct_le_pool(order, keys2);
    }
}

/// A duplicate-free sequence drawing its elements from a pool is no longer
/// than the pool.
pub proof fn lemma_distinct_le_pool(order: Seq<Seq<char>>, pool: Seq<Seq<char>>)
    requires
        forall|i: int, j: int| 0 <= i < j < order.len() ==> order[i] != order[j],
        forall|q: Seq<char>| order.contains(q) ==> pool.contains(q),
    ensures
        order.len() <= pool.len(),
    decreases order.len(),
{
    if order.len() > 0 {
        let x = order[0];
        assert(order.contains(x));
        let ki = choose|ki: int| 0 <= ki < pool.len() && pool[ki] == x;
        let pool2 = pool.remove(ki);
        let order2 = order.remove(0);
        assert(forall|i: int| 0 <= i < order2.len() ==> order2[i] == order[i + 1]);
        assert forall|q: Seq<char>| order2.contains(q) implies pool2.contains(q) by {
            let i = choose|i: int| 0 <= i < order2.len() && order2[i] == q;
            assert(order[i + 1] == q);
            assert(order.contains(q));
            assert(q != x);
            let kj = choose|kj: int| 0 <= kj < pool.len() && pool[kj] == q;
            if kj < ki {
                assert(pool2[kj] == q);
            } else {
                assert(pool2[kj - 1] == q);
            }
        }
        lemma_distinct_le_pool(order2, pool2);
    }
}

/// A vector of `n` `false` entries.
#[verifier::loop_isolation(false)]
fn vec_false(n: usize) -> (r: Vec<bool>)
    ensures
        r@.len() == n,
        forall|m: int| 0 <= m < n ==> !r@[m],
        count_true(r@) == 0,
{
    let mut out: Vec<bool> = Vec::new();
    let mut i: usize = 0;
    while i < n
        invariant
            0 <= i <= n,
            out@.len() == i,
            forall|m: int| 0 <= m < i ==> !out@[m],
            count_true(out@) == 0,
        decreases n - i,
    {
        let ghost pre = out@;
        out.push(false);
        proof {
            assert(out@.drop_last() =~= pre);
        }
        i += 1;
    }
    out
}

/// The position of the first unset entry.
#[verifier::loop_isolation(false)]
fn first_unset(placed: &Vec<bool>) -> (r: usize)
    requires
        count_true(placed@) < placed@.len(),
    ensures
        r < placed@.len(),
        !placed@[r as int],
{
    proof {
        lemma_count_true_partial(placed@);
    }
    let n = placed.len();
    let mut i: usize = 0;
    while i < n
        invariant
            0 <= i <= n,
            forall|m: int| 0 <= m < i ==> placed@[m],
        decreases n - i,
    {
        if !placed[i] {
            return i;
        }
        i += 1;
    }
    proof {
        let m = choose|m: int| 0 <= m < placed@.len() && !placed@[m];
        assert(false);
    }
    unreached()
}

/// The position of `x` in `trail`.
#[verifier::loop_isolation(false)]
fn position_of_index(trail: &Vec<usize>, x: usize) -> (r: usize)
    requires
        exists|k: int| 0 <= k < trail@.len() && trail@[k] == x,
    ensures
        r < trail@.len(),
        trail@[r as int] == x,
{
    let n = trail.len();
    let mut i: usize = 0;
    while i < n
        invariant
            0 <= i <= n,
            forall|m: int| 0 <= m < i ==> trail@[m] != x,
        decreases n - i,
    {
        if trail[i] == x {
            return i;
        }
        i += 1;
    }
    proof {
        let k = choose|k: int| 0 <= k < trail@.len() && trail@[k] == x;
        assert(false);
    }
    unreached()
}

/// Computes a topological order of the graph's keys, dependencies first, or
/// finds a cycle: a chain of keys, each holding an edge to the next, whose
/// last name repeats its first.
#[verifier::rlimit(50)]
#[verifier::loop_isolation(false)]
pub fn topo_order_or_cycle(g: &NameMap<Vec<String>>) -> (r: Result<Vec<String>, Vec<String>>)
    requires
        g.wf(),
    ensures
        match r {
            Result::Ok(order) => is_topo_order(*g, views_of(order@)),
            Result::Err(cycle) => graph_cycle(*g, views_of(cycle@)),
        },
{
    let n = g.len();
    let mut order: Vec<String> = Vec::new();
    let mut placed: Vec<bool> = vec_false(n);

    loop
        invariant
            placed@.len() == n,
            n == g.spec_len(),
            order@.len() == count_true(placed@),
            forall|m: int|
                0 <= m < n ==> placed@[m] == views_of(order@).contains(#[trigger] g.key_seq()[m]),
            forall|i: int, j: int|
                0 <= i < j < order@.len() ==> views_of(order@)[i] != views_of(order@)[j],
            forall|q: Seq<char>| views_of(order@).contains(q) ==> g.spec_contains_key(q),
            forall|i: int, b: Seq<char>|
                0 <= i < order@.len() && #[trigger] graph_edge(*g, views_of(order@)[i], b)
                    ==> exists|j: int| 0 <= j < i && views_of(order@)[j] == b,
        decreases n - order@.len(),
    {
        let ghost placed_start = placed@;
        let ghost order_len_start = order@.len();
        let mut progress = false;
        let mut i: usize = 0;
        while i < n
            invariant
                0 <= i <= n,
                placed@.len() == n,
                order@.len() == count_true(placed@),
                forall|m: int|
                    0 <= m < n ==> placed@[m] == views_of(order@).contains(
                        #[trigger] g.key_seq()[m],
                    ),
                forall|ii: int, j: int|
                    0 <= ii < j < order@.len() ==> views_of(order@)[ii] != views_of(order@)[j],
                forall|q: Seq<char>| views_of(order@).contains(q) ==> g.spec_contains_key(q),
                forall|ii: int, b: Seq<char>|
                    0 <= ii < order@.len() && #[trigger] graph_edge(*g, views_of(order@)[ii], b)
                        ==> exists|j: int| 0 <= j < ii && views_of(order@)[j] == b,
                progress ==> order@.len() > order_len_start,
                !progress ==> order@.len() == order_len_start,
                !progress ==> placed@ == placed_start,
                !progress ==> forall|m: int|
                    0 <= m < i && !placed@[m] ==> exists|m2: int|
                        0 <= m2 < n && !placed@[m2] && graph_edge(
                            *g,
                            #[trigger] g.key_seq()[m],
                            g.key_seq()[m2],
                        ),
            decreases n - i,
        {
            if !placed[i] {
                let edges = g.val_at(i);
                let ghost evs = views_of(edges@);
                proof {
                    lemma_first_index_props(g.key_seq(), g.key_seq()[i as int]);
                    assert(g.spec_get(g.key_seq()[i as int]) == Option::Some(*edges));
                }
                let ne = edges.len();
                let mut all_in = true;
                let ghost mut blocker: int = 0;
                let mut j: usize = 0;
                while j < ne
                    invariant
                        0 <= j <= ne,
                        ne == evs.len(),
                        evs == views_of(edges@),
                        all_in ==> forall|k: int|
                            0 <= k < j && g.spec_contains_key(#[trigger] evs[k])
                                ==> views_of(order@).contains(evs[k]),
                        !all_in ==> 0 <= blocker < n && !placed@[blocker] && graph_edge(
                            *g,
                            g.key_seq()[i as int],
                            g.key_seq()[blocker],
                        ),
                    decreases ne - j,
                {
                    match g.position_of(edges[j].as_str()) {
                        Option::Some(m2) => {
                            proof {
                                lemma_first_index_props(g.key_seq(), evs[j as int]);
                                assert(g.key_seq()[m2 as int] == evs[j as int]);
                            }
                            if !placed[m2] {
                                proof {
                                    blocker = m2 as int;
                                }
                                all_in = false;
                            }
                        },
                        Option::None => {},
                    }
                    j += 1;
                }
                if all_in {
                    let key = g.key_at(i);
                    let ghost pre_order = order@;
                    let ghost pre_placed = placed@;
                    order.push(copy_string(key));
                    placed.set(i, true);
                    progress = true;
                    proof {
                        lemma_count_true_update(pre_placed, i as int);
                        let ov = views_of(order@);
                        assert(ov =~= views_of(pre_order).push(g.key_seq()[i as int]));
                        assert forall|m: int|
                            0 <= m < n implies placed@[m] == ov.contains(
                            #[trigger] g.key_seq()[m],
                        ) by {
                            if m == i as int {
                                assert(ov[ov.len() - 1] == g.key_seq()[m]);
                            } else {
                                if ov.contains(g.key_seq()[m]) {
                                    let k = choose|k: int|
                                        0 <= k < ov.len() && ov[k] == g.key_seq()[m];
                                    if k == ov.len() - 1 {
                                        assert(g.key_seq()[m] == g.key_seq()[i as int]);
                                        assert(false);
                                    } else {
                                        assert(views_of(pre_order)[k] == g.key_seq()[m]);
                                        assert(views_of(pre_order).contains(g.key_seq()[m]));
                                    }
                                }
                                if views_of(pre_order).contains(g.key_seq()[m]) {
                                    let k = choose|k: int|
                                        0 <= k < pre_order.len() && views_of(pre_order)[k]
                                            == g.key_seq()[m];
                                    assert(ov[k] == g.key_seq()[m]);
                                }
                            }
                        }
                        assert forall|q: Seq<char>| ov.contains(q) implies g.spec_contains_key(
                            q,
                        ) by {
                            let k = choose|k: int| 0 <= k < ov.len() && ov[k] == q;
                            if k < ov.len() - 1 {
                                assert(views_of(pre_order)[k] == q);
                                assert(views_of(pre_order).contains(q));
                            } else {
                                lemma_first_index_contains(g.key_seq(), q);
                                assert(g.key_seq()[i as int] == q);
                                assert(g.key_seq().contains(q));
                            }
                        }
                        assert forall|ii: int, b: Seq<char>|
                            0 <= ii < ov.len() && #[trigger] graph_edge(*g, ov[ii], b)
                                implies exists|k: int| 0 <= k < ii && ov[k] == b by {
                            if ii < ov.len() - 1 {
                                assert(views_of(pre_order)[ii] == ov[ii]);
                                assert(views_of(pre_order).contains(ov[ii]));
                                let k = choose|k: int| 0 <= k < ii && views_of(pre_order)[k] == b;
                                assert(ov[k] == b);
                            } else {
                                assert(ov[ii] == g.key_seq()[i as int]);
                                let k0 = choose|k0: int| 0 <= k0 < evs.len() && evs[k0] == b;
                                assert(g.spec_contains_key(evs[k0]));
                                assert(views_of(pre_order).contains(b));
                                let k = choose|k: int|
                                    0 <= k < pre_order.len() && views_of(pre_order)[k] == b;
                                assert(ov[k] == b);
                            }
                        }
                    }
                }
            }
            i += 1;
        }
        if order.len() == n {
            return Result::Ok(order);
        }
        if !progress {
            proof {
                lemma_count_true_bound(placed@);
            }
            return Result::Err(extract_cycle(g, &placed));
        }
        proof {
            lemma_count_true_bound(placed@);
        }
    }
}

/// Walks unplaced keys along unplaced edges until a key repeats, and
/// returns the repeated stretch: a genuine cycle.
/// Finds an unplaced, in-key edge target of the key at index `cur`.
#[verifier::loop_isolation(false)]
fn find_unplaced_edge(g: &NameMap<Vec<String>>, placed: &Vec<bool>, cur: usize) -> (r: usize)
    requires
        g.wf(),
        placed@.len() == g.spec_len(),
        (cur as int) < g.spec_len(),
        !placed@[cur as int],
        exists|m2: int|
            0 <= m2 < g.spec_len() && !placed@[m2] && graph_edge(
                *g,
                g.key_seq()[cur as int],
                #[trigger] g.key_seq()[m2],
            ),
    ensures
        (r as int) < g.spec_len(),
        !placed@[r as int],
        graph_edge(*g, g.key_seq()[cur as int], g.key_seq()[r as int]),
{
    let n = g.len();
    let edges = g.val_at(cur);
    let ghost evs = views_of(edges@);
    proof {
        lemma_first_index_props(g.key_seq(), g.key_seq()[cur as int]);
        assert(g.spec_get(g.key_seq()[cur as int]) == Option::Some(*edges));
    }
    let ne = edges.len();
    let mut j: usize = 0;
    while j < ne
        invariant
            0 <= j <= ne,
            forall|k: int|
                0 <= k < j && g.spec_contains_key(#[trigger] evs[k]) ==> placed@[first_index(
                    g.key_seq(),
                    evs[k],
                )],
        decreases ne - j,
    {
        match g.position_of(edges[j].as_str()) {
            Option::Some(m2) => {
                proof {
                    lemma_first_index_props(g.key_seq(), evs[j as int]);
                    assert(g.key_seq()[m2 as int] == evs[j as int]);
                }
                if !placed[m2] {
                    return m2;
                }
            },
            Option::None => {},
        }
        j += 1;
    }
    proof {
        let m2 = choose|m2: int|
            0 <= m2 < g.spec_len() && !placed@[m2] && graph_edge(
                *g,
                g.key_seq()[cur as int],
                g.key_seq()[m2],
            );
        let b = g.key_seq()[m2];
        let k0 = choose|k0: int| 0 <= k0 < evs.len() && evs[k0] == b;
        assert(g.spec_contains_key(evs[k0]));
        assert(placed@[first_index(g.key_seq(), b)]);
        lemma_first_index_props(g.key_seq(), b);
        assert(g.key_seq()[first_index(g.key_seq(), b)] == b);
        assert(first_index(g.key_seq(), b) == m2) by {
            if first_index(g.key_seq(), b) != m2 {
                assert(g.key_seq()[first_index(g.key_seq(), b)] == g.key_seq()[m2]);
            }
        }
        assert(false);
    }
    unreached()
}

/// Copies the stretch of the trail from position `p` on, closing it with
/// the repeated key: a cycle.
#[verifier::loop_isolation(false)]
fn close_cycle(g: &NameMap<Vec<String>>, trail: &Vec<usize>, p: usize, next: usize) -> (r: Vec<
    String,
>)
    requires
        g.wf(),
        (p as int) < trail@.len(),
        forall|k: int| 0 <= k < trail@.len() ==> (#[trigger] trail@[k]) < g.spec_len(),
        trail@[p as int] == next,
        forall|k: int|
            0 <= k < trail@.len() - 1 ==> graph_edge(
                *g,
                g.key_seq()[(#[trigger] trail@[k]) as int],
                g.key_seq()[trail@[k + 1] as int],
            ),
        graph_edge(
            *g,
            g.key_seq()[trail@.last() as int],
            g.key_seq()[next as int],
        ),
    ensures
        graph_cycle(*g, views_of(r@)),
{
    let mut cycle: Vec<String> = Vec::new();
    let mut k: usize = p;
    while k < trail.len()
        invariant
            p <= k <= trail@.len(),
            cycle@.len() == k - p,
            forall|m: int|
                0 <= m < cycle@.len() ==> views_of(cycle@)[m] == g.key_seq()[trail@[p
                    + m] as int],
        decreases trail@.len() - k,
    {
        let ghost pre_cycle = cycle@;
        cycle.push(copy_string(g.key_at(trail[k])));
        proof {
            assert(views_of(cycle@) =~= views_of(pre_cycle).push(
                g.key_seq()[trail@[k as int] as int],
            ));
        }
        k += 1;
    }
    let ghost pre_cycle = cycle@;
    cycle.push(copy_string(g.key_at(next)));
    proof {
        let cv = views_of(cycle@);
        assert(cv =~= views_of(pre_cycle).push(g.key_seq()[next as int]));
        assert(cv.len() == trail@.len() - p + 1);
        assert(cv[cv.len() - 1] == g.key_seq()[next as int]);
        assert(cv[0] == g.key_seq()[trail@[p as int] as int]);
        assert(cv.len() >= 2);
        assert forall|m: int| 0 <= m < cv.len() - 1 implies graph_edge(
            *g,
            #[trigger] cv[m],
            cv[m + 1],
        ) by {
            if m < cv.len() - 2 {
                assert(cv[m] == g.key_seq()[trail@[p + m] as int]);
                assert(cv[m + 1] == g.key_seq()[trail@[p + m + 1] as int]);
                assert(graph_edge(
                    *g,
                    g.key_seq()[trail@[p + m] as int],
                    g.key_seq()[trail@[p + m + 1] as int],
                ));
            } else {
                assert(cv[m] == g.key_seq()[trail@[trail@.len() - 1] as int]);
            }
        }
    }
    cycle
}

/// Walks unplaced keys along unplaced edges until a key repeats, and
/// returns the repeated stretch: a genuine cycle.
#[verifier::rlimit(100)]
#[verifier::spinoff_prover]
#[verifier::loop_isolation(false)]
fn extract_cycle(g: &NameMap<Vec<String>>, placed: &Vec<bool>) -> (r: Vec<String>)
    requires
        g.wf(),
        placed@.len() == g.spec_len(),
        count_true(placed@) < g.spec_len(),
        forall|m: int|
            0 <= m < g.spec_len() && !placed@[m] ==> exists|m2: int|
                0 <= m2 < g.spec_len() && !placed@[m2] && graph_edge(
                    *g,
                    #[trigger] g.key_seq()[m],
                    g.key_seq()[m2],
                ),
    ensures
        graph_cycle(*g, views_of(r@)),
{
    let n = g.len();
    let start = first_unset(placed);

    let mut trail: Vec<usize> = Vec::new();
    let mut on_trail: Vec<bool> = vec_false(n);
    let ghost pre_ot = on_trail@;
    trail.push(start);
    on_trail.set(start, true);
    proof {
        lemma_count_true_update(pre_ot, start as int);
        assert forall|m: int|
            0 <= m < n implies on_trail@[m] == (exists|k: int|
            0 <= k < trail@.len() && (#[trigger] trail@[k]) as int == m) by {
            if m == start as int {
                assert(trail@[0] as int == m);
            }
        }
    }

    loop
        invariant
            1 <= trail@.len(),
            on_trail@.len() == n,
            n == g.spec_len(),
            trail@.len() == count_true(on_trail@),
            forall|k: int| 0 <= k < trail@.len() ==> (#[trigger] trail@[k]) < n,
            forall|k: int| 0 <= k < trail@.len() ==> !placed@[(#[trigger] trail@[k]) as int],
            forall|m: int|
                0 <= m < n ==> on_trail@[m] == (exists|k: int|
                    0 <= k < trail@.len() && (#[trigger] trail@[k]) as int == m),
            forall|k1: int, k2: int|
                0 <= k1 < k2 < trail@.len() ==> trail@[k1] != trail@[k2],
            forall|k: int|
                0 <= k < trail@.len() - 1 ==> graph_edge(
                    *g,
                    g.key_seq()[(#[trigger] trail@[k]) as int],
                    g.key_seq()[trail@[k + 1] as int],
                ),
        decreases n - trail@.len(),
    {
        let cur = trail[trail.len() - 1];
        proof {
            assert(!placed@[cur as int] && (cur as int) < g.spec_len() && graph_edge(
                *g,
                g.key_seq()[cur as int],
                g.key_seq()[choose|m2: int|
                    0 <= m2 < g.spec_len() && !placed@[m2] && graph_edge(
                        *g,
                        g.key_seq()[cur as int],
                        g.key_seq()[m2],
                    )],
            ));
        }
        let next = find_unplaced_edge(g, placed, cur);

        if on_trail[next] {
            let p = position_of_index(&trail, next);
            return close_cycle(g, &trail, p, next);
        }

        // extend the walk
        let ghost pre_trail = trail@;
        let ghost pre_ot2 = on_trail@;
        trail.push(next);
        on_trail.set(next, true);
        proof {
            lemma_count_true_update(pre_ot2, next as int);
            assert forall|m: int|
                0 <= m < n implies on_trail@[m] == (exists|k: int|
                0 <= k < trail@.len() && (#[trigger] trail@[k]) as int == m) by {
                if m == next as int {
                    assert(trail@[trail@.len() - 1] as int == m);
                } else {
                    if on_trail@[m] {
                        let k = choose|k: int|
                            0 <= k < pre_trail.len() && (pre_trail[k]) as int == m;
                        assert(trail@[k] as int == m);
                    } else {
                        if exists|k: int| 0 <= k < trail@.len() && (trail@[k]) as int == m {
                            let k = choose|k: int|
                                0 <= k < trail@.len() && (trail@[k]) as int == m;
                            assert(k < pre_trail.len());
                            assert(pre_trail[k] as int == m);
                        }
                    }
                }
            }
            lemma_count_true_bound(on_trail@);
        }
    }
}

} // verus!
