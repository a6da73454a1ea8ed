//! Dependency-order scheduling: a depth-first post-order traversal over the
//! dependency graph, with a three-state visit marker so that a cyclic graph
//! is reported instead of revisited.
use vstd::prelude::*;
use vstd::pervasive::VecAdditionalExecFns;

verus! {

/// Well-formed adjacency lists: every target index lies inside the graph.
pub open spec fn adj_wf(adj: Seq<Vec<usize>>) -> bool {
    forall|i: int, k: int| 0 <= i < adj.len() && 0 <= k < adj[i]@.len() ==> (#[trigger] adj[
        i]@[k]) < adj.len()
}

/// A dependency edge from `a` to `b`: `a`'s statement reads `b`.
pub open spec fn edge(adj: Seq<Vec<usize>>, a: usize, b: usize) -> bool {
    (a as int) < adj.len() && adj[a as int]@.contains(b)
}

/// A non-empty index sequence that steps along edges and closes on itself.
pub open spec fn is_cycle(adj: Seq<Vec<usize>>, c: Seq<usize>) -> bool {
    &&& c.len() >= 1
    &&& forall|t: int| 0 <= t < c.len() - 1 ==> edge(adj, #[trigger] c[t], c[t + 1])
    &&& edge(adj, c.last(), c.first())
}

/// Whether the dependency graph holds any cycle.
pub open spec fn has_cycle(adj: Seq<Vec<usize>>) -> bool {
    exists|c: Seq<usize>| is_cycle(adj, c)
}

/// How many nodes the visit markers still show untouched.
pub open spec fn count_unvisited(st: Seq<u8>) -> int
    decreases st.len(),
{
    if st.len() == 0 {
        0
    } else {
        count_unvisited(st.drop_last()) + if st.last() == 0 {
            1int
        } else {
            0int
        }
    }
}

/// How many nodes the visit markers show finished.
pub open spec fn count_done(st: Seq<u8>) -> int
    decreases st.len(),
{
    if st.len() == 0 {
        0
    } else {
        count_done(st.drop_last()) + if st.last() == 2 {
            1int
        } else {
            0int
        }
    }
}

proof fn lemma_count_unvisited_nonneg(st: Seq<u8>)
    ensures
        count_unvisited(st) >= 0,
    decreases st.len(),
{
    if st.len() > 0 {
        lemma_count_unvisited_nonneg(st.drop_last());
    }
}

proof fn lemma_count_unvisited_le(a: Seq<u8>, b: Seq<u8>)
    requires
        a.len() == b.len(),
        forall|k: int| 0 <= k < b.len() ==> b[k] == 0 ==> a[k] == 0,
    ensures
        count_unvisited(b) <= count_unvisited(a),
    decreases a.len(),
{
    if a.len() > 0 {
        lemma_count_unvisited_le(a.drop_last(), b.drop_last());
    }
}

proof fn lemma_count_unvisited_update(st: Seq<u8>, w: int, v: u8)
    requires
        0 <= w < st.len(),
        st[w] == 0,
        v != 0,
    ensures
        count_unvisited(st.update(w, v)) == count_unvisited(st) - 1,
    decreases st.len(),
{
    let upd = st.update(w, v);
    if w == st.len() - 1 {
        assert(upd.drop_last() =~= st.drop_last());
    } else {
        assert(upd.drop_last() =~= st.drop_last().update(w, v));
        lemma_count_unvisited_update(st.drop_last(), w, v);
    }
}

proof fn lemma_count_done_update(st: Seq<u8>, w: int, v: u8)
    requires
        0 <= w < st.len(),
        st[w] != 2,
        v == 2,
    ensures
        count_done(st.update(w, v)) == count_done(st) + 1,
    decreases st.len(),
{
    let upd = st.update(w, v);
    if w == st.len() - 1 {
        assert(upd.drop_last() =~= st.drop_last());
    } else {
        assert(upd.drop_last() =~= st.drop_last().update(w, v));
        lemma_count_done_update(st.drop_last(), w, v);
    }
}

proof fn lemma_count_done_update_keep(st: Seq<u8>, w: int, v: u8)
    requires
        0 <= w < st.len(),
        st[w] != 2,
        v != 2,
    ensures
        count_done(st.update(w, v)) == count_done(st),
    decreases st.len(),
{
    let upd = st.update(w, v);
    if w == st.len() - 1 {
        assert(upd.drop_last() =~= st.drop_last());
    } else {
        assert(upd.drop_last() =~= st.drop_last().update(w, v));
        lemma_count_done_update_keep(st.drop_last(), w, v);
    }
}

proof fn lemma_count_done_full(st: Seq<u8>)
    requires
        forall|k: int| 0 <= k < st.len() ==> st[k] == 2,
    ensures
        count_done(st) == st.len(),
    decreases st.len(),
{
    if st.len() > 0 {
        lemma_count_done_full(st.drop_last());
    }
}

/// Visit markers hold nothing but untouched, in-progress and finished.
pub open spec fn st_wf(st: Seq<u8>) -> bool {
    forall|k: int| 0 <= k < st.len() ==> (#[trigger] st[k]) == 0 || st[k] == 1 || st[k] == 2
}

/// The in-progress markers describe exactly the traversal stack, whose
/// consecutive entries step along dependency edges.
#[verifier::opaque]
pub open spec fn stack_ok(adj: Seq<Vec<usize>>, st: Seq<u8>, stack: Seq<usize>) -> bool {
    &&& forall|t: int| 0 <= t < stack.len() ==> (#[trigger] stack[t]) < st.len() && st[stack[
        t] as int] == 1
    &&& forall|k: int| 0 <= k < st.len() ==> (#[trigger] st[k]) == 1 ==> stack.contains(k as usize)
    &&& forall|t: int| 0 <= t < stack.len() - 1 ==> edge(adj, #[trigger] stack[t], stack[t + 1])
}

/// The schedule built so far: exactly the finished nodes, each after all of
/// its dependencies.
#[verifier::opaque]
pub open spec fn order_ok(adj: Seq<Vec<usize>>, st: Seq<u8>, order: Seq<usize>) -> bool {
    &&& forall|t: int| 0 <= t < order.len() ==> (#[trigger] order[t]) < st.len() && st[order[
        t] as int] == 2
    &&& forall|k: int| 0 <= k < st.len() ==> (#[trigger] st[k]) == 2 ==> order.contains(k as usize)
    &&& order.no_duplicates()
    &&& order.len() == count_done(st)
    &&& forall|t: int, k: int| 0 <= t < order.len() && 0 <= k < adj[order[t] as int]@.len()
        ==> order.take(t).contains(#[trigger] adj[order[t] as int]@[k])
}

proof fn lemma_prefix_trans(a: Seq<usize>, b: Seq<usize>, c: Seq<usize>)
    requires
        a.is_prefix_of(b),
        b.is_prefix_of(c),
    ensures
        a.is_prefix_of(c),
{
    assert(a =~= c.subrange(0, a.len() as int)) by {
        assert forall|t: int| 0 <= t < a.len() implies a[t] == c.subrange(0, a.len() as int)[
            t] by {
            assert(a[t] == b.subrange(0, a.len() as int)[t]);
            assert(b[t] == c.subrange(0, b.len() as int)[t]);
        };
    };
}

proof fn lemma_prefix_contains(a: Seq<usize>, b: Seq<usize>, x: usize)
    requires
        a.is_prefix_of(b),
        a.contains(x),
    ensures
        b.contains(x),
{
    let t = choose|t: int| 0 <= t < a.len() && a[t] == x;
    assert(a[t] == b.subrange(0, a.len() as int)[t]);
    assert(b[t] == x);
}

proof fn lemma_stack_cycle(adj: Seq<Vec<usize>>, stack2: Seq<usize>, i: usize, j: usize)
    requires
        forall|t: int| 0 <= t < stack2.len() - 1 ==> edge(adj, #[trigger] stack2[t], stack2[t
            + 1]),
        stack2.len() >= 1,
        stack2.last() == i,
        stack2.contains(j),
        edge(adj, i, j),
    ensures
        has_cycle(adj),
{
    let t = choose|t: int| 0 <= t < stack2.len() && stack2[t] == j;
    let c = stack2.subrange(t, stack2.len() as int);
    assert(c.first() == j);
    assert(c.last() == i);
    assert(is_cycle(adj, c)) by {
        assert forall|u: int| 0 <= u < c.len() - 1 implies edge(adj, #[trigger] c[u], c[u
            + 1]) by {
            assert(c[u] == stack2[t + u]);
            assert(c[u + 1] == stack2[t + u + 1]);
        };
    };
}

proof fn lemma_done_in_order(adj: Seq<Vec<usize>>, st: Seq<u8>, order: Seq<usize>, j: usize)
    requires
        order_ok(adj, st, order),
        (j as int) < st.len(),
        st[j as int] == 2,
    ensures
        order.contains(j),
{
    reveal(order_ok);
}

proof fn lemma_in_progress_cycle(adj: Seq<Vec<usize>>, st: Seq<u8>, stack: Seq<usize>,
    stack2: Seq<usize>, i: usize, j: usize)
    requires
        stack_ok(adj, st, stack2),
        stack2 == stack.push(i),
        (j as int) < st.len(),
        st[j as int] == 1,
        edge(adj, i, j),
    ensures
        has_cycle(adj),
{
    reveal(stack_ok);
    assert(stack2.contains(j));
    assert(stack2.last() == i);
    lemma_stack_cycle(adj, stack2, i, j);
}

proof fn lemma_deps_prefix(adj: Seq<Vec<usize>>, i: usize, a: Seq<usize>, b: Seq<usize>, k: int)
    requires
        (i as int) < adj.len(),
        0 <= k < adj[i as int]@.len(),
        a.is_prefix_of(b),
        forall|d: int| 0 <= d < k ==> a.contains(#[trigger] adj[i as int]@[d]),
        b.contains(adj[i as int]@[k]),
    ensures
        forall|d: int| 0 <= d < k + 1 ==> b.contains(#[trigger] adj[i as int]@[d]),
{
    assert forall|d: int| 0 <= d < k + 1 implies b.contains(#[trigger] adj[i as int]@[d]) by {
        if d < k {
            lemma_prefix_contains(a, b, adj[i as int]@[d]);
        }
    };
}

proof fn lemma_prefix_refl(a: Seq<usize>)
    ensures
        a.is_prefix_of(a),
{
    assert(a =~= a.subrange(0, a.len() as int));
}

/// Visits one unvisited node depth-first: its dependencies are scheduled
/// before it, and meeting an in-progress node reports a dependency cycle.
#[verifier::rlimit(100)]
fn visit(adj: &Vec<Vec<usize>>, i: usize, st: &mut Vec<u8>, order: &mut Vec<usize>,
    Ghost(stack): Ghost<Seq<usize>>) -> (r: Result<(), ()>)
    requires
        adj_wf(adj@),
        old(st)@.len() == adj@.len(),
        (i as int) < adj@.len(),
        old(st)@[i as int] == 0,
        st_wf(old(st)@),
        stack_ok(adj@, old(st)@, stack),
        order_ok(adj@, old(st)@, old(order)@),
        stack.len() > 0 ==> edge(adj@, stack.last(), i),
    ensures
        final(st)@.len() == old(st)@.len(),
        st_wf(final(st)@),
        old(order)@.is_prefix_of(final(order)@),
        forall|k: int| 0 <= k < final(st)@.len() ==> final(st)@[k] == 0 ==> old(st)@[k] == 0,
        forall|k: int| 0 <= k < old(st)@.len() ==> old(st)@[k] == 2 ==> final(st)@[k] == 2,
        r is Ok ==> final(st)@[i as int] == 2 && stack_ok(adj@, final(st)@, stack) && order_ok(
            adj@, final(st)@, final(order)@) && (forall|k: int| 0 <= k < old(st)@.len() && k != i
            ==> ((old(st)@[k] == 1) <==> (final(st)@[k] == 1))),
        r is Err ==> has_cycle(adj@),
    decreases count_unvisited(old(st)@),
{
    let ghost st0 = st@;
    st.set(i, 1);
    let ghost stack2 = stack.push(i);
    proof {
        reveal(stack_ok);
        reveal(order_ok);
        assert(!stack.contains(i)) by {
            if stack.contains(i) {
                let t = choose|t: int| 0 <= t < stack.len() && stack[t] == i;
                assert(st0[i as int] == 1);
            }
        };
        assert(stack_ok(adj@, st@, stack2)) by {
            assert forall|k: int| 0 <= k < st@.len() && (#[trigger] st@[k]) == 1 implies
                stack2.contains(k as usize) by {
                if k != i {
                    assert(st0[k] == 1);
                    assert(stack.contains(k as usize));
                    let t = choose|t: int| 0 <= t < stack.len() && stack[t] == k as usize;
                    assert(stack2[t] == k as usize);
                } else {
                    assert(stack2[stack2.len() - 1] == i);
                }
            };
        };
        lemma_count_unvisited_update(st0, i as int, 1);
        lemma_count_done_update_keep(st0, i as int, 1);
        assert forall|t: int| 0 <= t < order@.len() implies (#[trigger] order@[t]) < st@.len()
            && st@[order@[t] as int] == 2 by {
            assert(st0[order@[t] as int] == 2);
        };
        assert forall|k: int| 0 <= k < st@.len() && (#[trigger] st@[k]) == 2 implies
            order@.contains(k as usize) by {
            assert(st0[k] == 2);
        };
        assert(order_ok(adj@, st@, order@));
    }
    let ghost st1 = st@;
    let n_deps = adj[i].len();
    let mut k: usize = 0;
    while k < n_deps
        invariant
            adj_wf(adj@),
            (i as int) < adj@.len(),
            n_deps == adj@[i as int]@.len(),
            0 <= k <= n_deps,
            st@.len() == adj@.len(),
            st@[i as int] == 1,
            st_wf(st@),
            stack_ok(adj@, st@, stack2),
            order_ok(adj@, st@, order@),
            stack2 == stack.push(i),
            old(order)@.is_prefix_of(order@),
            count_unvisited(st@) <= count_unvisited(st0) - 1,
            st0 == old(st)@,
            st0.len() == adj@.len(),
            st0[i as int] == 0,
            st1 == st0.update(i as int, 1u8),
            forall|m: int| 0 <= m < st@.len() ==> st@[m] == 0 ==> st1[m] == 0,
            forall|m: int| 0 <= m < st1.len() && m != i ==> ((st1[m] == 1) <==> (st@[m] == 1)),
            forall|m: int| 0 <= m < st1.len() ==> st1[m] == 2 ==> st@[m] == 2,
            forall|d: int| 0 <= d < k ==> order@.contains(#[trigger] adj@[i as int]@[d]),
        decreases n_deps - k,
    {
        let ghost order_iter = order@;
        let j = adj[i][k];
        assert((j as int) < adj@.len());
        let sj = st[j];
        if sj == 1 {
            // `j` is on the traversal stack: the stack from `j` onward,
            // which ends at `i`, together with the edge from `i` back to
            // `j`, closes a dependency cycle.
            proof {
                assert(edge(adj@, i, j)) by {
                    assert(adj@[i as int]@[k as int] == j);
                };
                lemma_in_progress_cycle(adj@, st@, stack, stack2, i, j);
                assert forall|m: int| 0 <= m < st@.len() && st@[m] == 0 implies st0[m] == 0 by {
                    assert(st1[m] == 0);
                };
                assert forall|m: int| 0 <= m < st0.len() && st0[m] == 2 implies st@[m] == 2 by {
                    assert(m != i);
                    assert(st1[m] == 2);
                };
            }
            return Err(());
        } else if sj == 0 {
            let ghost st_before = st@;
            proof {
                lemma_count_unvisited_nonneg(st@);
            }
            let r = visit(adj, j, st, order, Ghost(stack2));
            proof {
                lemma_count_unvisited_le(st_before, st@);
            }
            if r.is_err() {
                proof {
                    assert forall|m: int| 0 <= m < st@.len() && st@[m] == 0 implies st0[m]
                        == 0 by {
                        assert(st1[m] == 0);
                    };
                    assert forall|m: int| 0 <= m < st0.len() && st0[m] == 2 implies st@[m]
                        == 2 by {
                        assert(m != i);
                        assert(st1[m] == 2);
                    };
                }
                return Err(());
            }
            proof {
                assert(i != j);
                assert(st@[i as int] == 1);
                assert(st@[j as int] == 2);
                lemma_done_in_order(adj@, st@, order@, j);
                lemma_prefix_trans(old(order)@, order_iter, order@);
                lemma_deps_prefix(adj@, i, order_iter, order@, k as int);
            }
        } else {
            proof {
                assert(sj == 2);
                lemma_done_in_order(adj@, st@, order@, j);
                lemma_prefix_refl(order@);
                lemma_deps_prefix(adj@, i, order@, order@, k as int);
            }
        }
        k = k + 1;
    }
    let ghost st2 = st@;
    let ghost order2 = order@;
    st.set(i, 2);
    order.push(i);
    proof {
        reveal(stack_ok);
        reveal(order_ok);
        assert(!order2.contains(i)) by {
            if order2.contains(i) {
                let t = choose|t: int| 0 <= t < order2.len() && order2[t] == i;
                assert(st2[order2[t] as int] == 2);
            }
        };
        lemma_count_done_update(st2, i as int, 2);
        lemma_prefix_trans(old(order)@, order2, order@);
        assert forall|m: int| 0 <= m < st@.len() && st@[m] == 0 implies st0[m] == 0 by {
            assert(st2[m] == 0);
            assert(st1[m] == 0);
        };
        assert forall|m: int| 0 <= m < st0.len() && st0[m] == 2 implies st@[m] == 2 by {
            if m != i {
                assert(st1[m] == 2);
                assert(st2[m] == 2);
            }
        };
        assert forall|m: int| 0 <= m < st0.len() && m != i implies ((st0[m] == 1) <==> (st@[m]
            == 1)) by {
            assert(st1[m] == st0[m]);
            assert((st1[m] == 1) <==> (st2[m] == 1));
            assert(st@[m] == st2[m]);
        };
        assert(stack_ok(adj@, st@, stack)) by {
            assert forall|t: int| 0 <= t < stack.len() implies (#[trigger] stack[t]) < st@.len()
                && st@[stack[t] as int] == 1 by {
                assert(stack2[t] == stack[t]);
                assert(st2[stack[t] as int] == 1);
                assert(stack[t] != i);
            };
            assert forall|k2: int| 0 <= k2 < st@.len() && (#[trigger] st@[k2]) == 1 implies
                stack.contains(k2 as usize) by {
                assert(k2 != i);
                assert(st2[k2] == 1);
                assert(stack2.contains(k2 as usize));
                let t = choose|t: int| 0 <= t < stack2.len() && stack2[t] == k2 as usize;
                if t < stack.len() {
                    assert(stack[t] == k2 as usize);
                } else {
                    assert(stack2[t] == i);
                    assert(st.len() == st@.len());
                    assert((k2 as usize) as int == k2);
                    assert(false);
                }
            };
            assert forall|t: int| 0 <= t < stack.len() - 1 implies edge(adj@, #[trigger] stack[
                t], stack[t + 1]) by {
                assert(stack[t] == stack2[t]);
                assert(stack[t + 1] == stack2[t + 1]);
            };
        };
        assert(order@.no_duplicates()) by {
            assert forall|a: int, b: int| 0 <= a < b < order@.len() implies order@[a] != order@[
                b] by {
                if b < order2.len() {
                    assert(order2[a] != order2[b]);
                } else {
                    assert(order@[b] == i);
                    if order@[a] == i {
                        assert(order2[a] == i);
                        assert(order2.contains(i));
                    }
                }
            };
        };
        assert(order_ok(adj@, st@, order@)) by {
            assert forall|t: int| 0 <= t < order@.len() implies (#[trigger] order@[t])
                < st@.len() && st@[order@[t] as int] == 2 by {
                if t < order2.len() {
                    assert(order2[t] == order@[t]);
                    assert(st2[order2[t] as int] == 2);
                } else {
                    assert(order@[t] == i);
                }
            };
            assert forall|k2: int| 0 <= k2 < st@.len() && (#[trigger] st@[k2]) == 2 implies
                order@.contains(k2 as usize) by {
                if k2 != i {
                    assert(st2[k2] == 2);
                    assert(order2.contains(k2 as usize));
                    let t = choose|t: int| 0 <= t < order2.len() && order2[t] == k2 as usize;
                    assert(order@[t] == k2 as usize);
                } else {
                    assert(order@[order@.len() - 1] == i);
                }
            };
            assert forall|t: int, k2: int| 0 <= t < order@.len() && 0 <= k2 < adj@[order@[
                t] as int]@.len() implies order@.take(t).contains(#[trigger] adj@[order@[
                t] as int]@[k2]) by {
                if t < order2.len() {
                    assert(order2[t] == order@[t]);
                    assert(order@.take(t) =~= order2.take(t));
                    assert(order2.take(t).contains(adj@[order2[t] as int]@[k2]));
                } else {
                    assert(order@[t] == i);
                    let x = adj@[i as int]@[k2];
                    assert(order2.contains(x));
                    assert(order@.take(t) =~= order2);
                }
            };
        };
    }
    Ok(())
}

/// Schedules the subgraph reachable from one root, depth-first: every
/// dependency of a scheduled node is scheduled before it; a node already
/// scheduled is left alone, and a dependency cycle is reported.
pub fn topo(adj: &Vec<Vec<usize>>, root: usize, st: &mut Vec<u8>, order: &mut Vec<usize>) -> (r:
    Result<(), ()>)
    requires
        adj_wf(adj@),
        old(st)@.len() == adj@.len(),
        (root as int) < adj@.len(),
        st_wf(old(st)@),
        forall|k: int| 0 <= k < old(st)@.len() ==> old(st)@[k] != 1,
        order_ok(adj@, old(st)@, old(order)@),
    ensures
        final(st)@.len() == old(st)@.len(),
        st_wf(final(st)@),
        old(order)@.is_prefix_of(final(order)@),
        forall|k: int| 0 <= k < final(st)@.len() ==> final(st)@[k] == 0 ==> old(st)@[k] == 0,
        forall|k: int| 0 <= k < old(st)@.len() ==> old(st)@[k] == 2 ==> final(st)@[k] == 2,
        r is Ok ==> final(st)@[root as int] == 2 && (forall|k: int| 0 <= k < final(st)@.len()
            ==> final(st)@[k] != 1) && order_ok(adj@, final(st)@, final(order)@),
        r is Err ==> has_cycle(adj@),
{
    proof {
        reveal(stack_ok);
    }
    let s = st[root];
    if s == 0 {
        assert(stack_ok(adj@, st@, Seq::<usize>::empty())) by {
            reveal(stack_ok);
        };
        let r = visit(adj, root, st, order, Ghost(Seq::empty()));
        proof {
            reveal(stack_ok);
            if r is Ok {
                assert forall|k: int| 0 <= k < st@.len() implies st@[k] != 1 by {
                    if st@[k] == 1 {
                        assert(Seq::<usize>::empty().contains(k as usize));
                    }
                };
            }
        }
        r
    } else {
        assert(s == 2);
        Ok(())
    }
}

proof fn lemma_least_index(order: Seq<usize>, c: Seq<usize>, w0: int)
    requires
        0 <= w0 < order.len(),
        c.contains(order[w0]),
    ensures
        exists|w: int| 0 <= w <= w0 && c.contains(#[trigger] order[w]) && (forall|v: int|
            0 <= v < w ==> !c.contains(#[trigger] order[v])),
    decreases w0,
{
    if exists|v: int| 0 <= v < w0 && c.contains(#[trigger] order[v]) {
        let v = choose|v: int| 0 <= v < w0 && c.contains(#[trigger] order[v]);
        lemma_least_index(order, c, v);
    } else {
        assert(0 <= w0 <= w0 && c.contains(order[w0]) && (forall|v: int| 0 <= v < w0
            ==> !c.contains(#[trigger] order[v])));
    }
}

/// A schedule that covers every node and puts each node's dependencies in a
/// strict prefix leaves no room for a dependency cycle.
pub proof fn lemma_schedule_excludes_cycle(adj: Seq<Vec<usize>>, order: Seq<usize>)
    requires
        forall|k: int| 0 <= k < adj.len() ==> order.contains(#[trigger] (k as usize)),
        forall|t: int| 0 <= t < order.len() ==> (#[trigger] order[t]) < adj.len(),
        forall|t: int, k: int| 0 <= t < order.len() && 0 <= k < adj[order[t] as int]@.len()
            ==> order.take(t).contains(#[trigger] adj[order[t] as int]@[k]),
    ensures
        !has_cycle(adj),
{
    if has_cycle(adj) {
        let c = choose|c: Seq<usize>| is_cycle(adj, c);
        assert(edge(adj, c.last(), c.first()));
        assert((c[0] as int) < adj.len()) by {
            if c.len() == 1 {
                assert(c.last() == c[0]);
            } else {
                assert(edge(adj, c[0], c[1]));
            }
        };
        assert(order.contains(c[0])) by {
            assert(order.contains(((c[0] as int) as usize)));
        };
        let w0 = choose|w: int| 0 <= w < order.len() && order[w] == c[0];
        assert(c.contains(order[w0]));
        lemma_least_index(order, c, w0);
        let w = choose|w: int| 0 <= w <= w0 && c.contains(#[trigger] order[w]) && (forall|v: int|
            0 <= v < w ==> !c.contains(#[trigger] order[v]));
        let t = choose|t: int| 0 <= t < c.len() && c[t] == order[w];
        let nxt: usize = if t < c.len() - 1 {
            c[t + 1]
        } else {
            c.first()
        };
        assert(edge(adj, c[t], nxt)) by {
            if t < c.len() - 1 {
                assert(edge(adj, c[t], c[t + 1]));
            } else {
                assert(c[t] == c.last());
            }
        };
        assert(adj[order[w] as int]@.contains(nxt));
        let k = choose|k: int| 0 <= k < adj[order[w] as int]@.len() && adj[order[w] as int]@[k]
            == nxt;
        assert(order.take(w).contains(adj[order[w] as int]@[k]));
        let v = choose|v: int| 0 <= v < order.take(w).len() && order.take(w)[v] == nxt;
        assert(order[v] == nxt);
        assert(c.contains(nxt)) by {
            if t < c.len() - 1 {
                assert(c[t + 1] == nxt);
            } else {
                assert(c[0] == nxt);
            }
        };
        assert(!c.contains(order[v]));
        assert(false);
    }
}

proof fn lemma_count_done_zero(st: Seq<u8>)
    requires
        forall|k: int| 0 <= k < st.len() ==> st[k] == 0,
    ensures
        count_done(st) == 0,
    decreases st.len(),
{
    if st.len() > 0 {
        lemma_count_done_zero(st.drop_last());
    }
}

/// A full dependency-respecting schedule: the traversal starts from every
/// given root, then sweeps the nodes any root missed, so that every node is
/// scheduled exactly once, each after all of its dependencies; a dependency
/// cycle is reported instead.
pub fn schedule_indices(adj: &Vec<Vec<usize>>, roots: &Vec<usize>) -> (r: Result<Vec<usize>, ()>)
    requires
        adj_wf(adj@),
        forall|t: int| 0 <= t < roots@.len() ==> (#[trigger] roots@[t]) < adj@.len(),
    ensures
        r matches Ok(order) ==> ({
            &&& order@.len() == adj@.len()
            &&& order@.no_duplicates()
            &&& forall|k: int| 0 <= k < adj@.len() ==> order@.contains(#[trigger] (k as usize))
            &&& forall|t: int, k: int| 0 <= t < order@.len() && 0 <= k < adj@[order@[
                t] as int]@.len() ==> order@.take(t).contains(#[trigger] adj@[order@[
                t] as int]@[k])
            &&& forall|t: int| 0 <= t < order@.len() ==> (#[trigger] order@[t]) < adj@.len()
        }),
        r is Err ==> has_cycle(adj@),
{
    let n = adj.len();
    let mut st: Vec<u8> = Vec::new();
    while st.len() < n
        invariant
            st@.len() <= n,
            forall|k: int| 0 <= k < st@.len() ==> st@[k] == 0,
        decreases n - st@.len(),
    {
        st.push(0);
    }
    let mut order: Vec<usize> = Vec::new();
    proof {
        reveal(order_ok);
        lemma_count_done_zero(st@);
        assert(order_ok(adj@, st@, order@));
    }
    let mut t: usize = 0;
    while t < roots.len()
        invariant
            adj_wf(adj@),
            forall|u: int| 0 <= u < roots@.len() ==> (#[trigger] roots@[u]) < adj@.len(),
            0 <= t <= roots@.len(),
            st@.len() == adj@.len(),
            st_wf(st@),
            forall|k: int| 0 <= k < st@.len() ==> st@[k] != 1,
            order_ok(adj@, st@, order@),
        decreases roots@.len() - t,
    {
        if topo(adj, roots[t], &mut st, &mut order).is_err() {
            return Err(());
        }
        t = t + 1;
    }
    let mut i: usize = 0;
    while i < n
        invariant
            adj_wf(adj@),
            0 <= i <= n,
            n == adj@.len(),
            st@.len() == adj@.len(),
            st_wf(st@),
            forall|k: int| 0 <= k < st@.len() ==> st@[k] != 1,
            forall|k: int| 0 <= k < i ==> st@[k] == 2,
            order_ok(adj@, st@, order@),
        decreases n - i,
    {
        let s = st[i];
        if s == 0 {
            if topo(adj, i, &mut st, &mut order).is_err() {
                return Err(());
            }
        } else {
            assert(s == 2);
        }
        i = i + 1;
    }
    proof {
        reveal(order_ok);
        lemma_count_done_full(st@);
        assert forall|k: int| 0 <= k < adj@.len() implies order@.contains(#[trigger] (k as usize)) by {
            assert(st@[k] == 2);
        };
    }
    Ok(order)
}

} // verus!
