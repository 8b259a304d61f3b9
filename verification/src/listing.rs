use vstd::prelude::*;
use crate::entry::{DirectoryEntry, SizeState};

verus! {

/// Where a size state places its group in the listing: known sizes come first,
/// the larger the earlier, then those still pending, then those that failed.
/// A smaller rank comes earlier.
pub open spec fn size_rank(s: SizeState) -> int {
    match s {
        SizeState::Calculated(n) => -(n as int) - 1,
        SizeState::Pending => 0,
        SizeState::Error => 1,
    }
}

/// The order of the ranks: a larger known size goes before a smaller one,
/// equal sizes rank alike, any known size goes before a pending one, and a
/// pending one before a failed one.
pub proof fn lemma_size_rank_order(x: u64, y: u64)
    ensures
        x > y ==> size_rank(SizeState::Calculated(x)) < size_rank(SizeState::Calculated(y)),
        x == y ==> size_rank(SizeState::Calculated(x)) == size_rank(SizeState::Calculated(y)),
        size_rank(SizeState::Calculated(x)) < size_rank(SizeState::Pending),
        size_rank(SizeState::Pending) < size_rank(SizeState::Error),
{
}

/// The listing cut into groups: a new group begins at the first entry and at
/// every later entry of depth 0, so each top-level entry heads its subtree.
pub open spec fn split_groups(s: Seq<DirectoryEntry>) -> Seq<Seq<DirectoryEntry>>
    decreases s.len(),
{
    if s.len() == 0 {
        Seq::empty()
    } else {
        let g = split_groups(s.drop_last());
        if s.len() > 1 && s.last().depth != 0 {
            g.update(g.len() - 1, g.last().push(s.last()))
        } else {
            g.push(seq![s.last()])
        }
    }
}

/// The rank of each group, taken from the entry that heads it.
pub open spec fn group_ranks(gs: Seq<Seq<DirectoryEntry>>) -> Seq<int> {
    gs.map_values(|g: Seq<DirectoryEntry>| size_rank(g[0].size_state))
}

/// `p` lists every position of `r` exactly once, by increasing rank, and
/// positions of equal rank in their original order: the order that a stable
/// sort by rank produces.
pub open spec fn is_stable_order(r: Seq<int>, p: Seq<int>) -> bool {
    &&& p.len() == r.len()
    &&& forall|i: int| 0 <= i < p.len() ==> 0 <= #[trigger] p[i] < r.len()
    &&& forall|k: int| 0 <= k < r.len() ==> #[trigger] p.contains(k)
    &&& forall|i: int, j: int|
        #![trigger p[i], p[j]]
        0 <= i < j < p.len() ==> r[p[i]] < r[p[j]] || (r[p[i]] == r[p[j]] && p[i] < p[j])
}

/// The groups of `s` put in the order `p` and joined again.
pub open spec fn arrange(s: Seq<DirectoryEntry>, p: Seq<int>) -> Seq<DirectoryEntry> {
    p.map_values(|i: int| split_groups(s)[i]).flatten()
}

/// `t` is `s` with its groups stably sorted by the size state of their heads.
pub open spec fn is_size_sorting(s: Seq<DirectoryEntry>, t: Seq<DirectoryEntry>) -> bool {
    exists|p: Seq<int>| is_stable_order(group_ranks(split_groups(s)), p) && t == arrange(s, p)
}

/// Every group is non-empty.
pub open spec fn groups_nonempty(gs: Seq<Seq<DirectoryEntry>>) -> bool {
    forall|i: int| 0 <= i < gs.len() ==> #[trigger] gs[i].len() > 0
}

pub proof fn lemma_split_groups_nonempty(s: Seq<DirectoryEntry>)
    ensures
        groups_nonempty(split_groups(s)),
        s.len() > 0 ==> split_groups(s).len() > 0,
    decreases s.len(),
{
    if s.len() > 0 {
        lemma_split_groups_nonempty(s.drop_last());
    }
}

/// Inserting position `k`, which follows every position already placed, where
/// the ranks before it are at most its own and those after it greater, keeps
/// the order stable.
pub proof fn lemma_insert_keeps_stable_order(r: Seq<int>, p: Seq<int>, k: int, pos: int)
    requires
        0 <= k < r.len(),
        is_stable_order(r.take(k), p),
        0 <= pos <= p.len(),
        forall|i: int| 0 <= i < pos ==> r[#[trigger] p[i]] <= r[k],
        forall|i: int| pos <= i < p.len() ==> r[k] < r[#[trigger] p[i]],
    ensures
        is_stable_order(r.take(k + 1), p.insert(pos, k)),
{
    let q = p.insert(pos, k);
    let rk = r.take(k);
    let rk1 = r.take(k + 1);
    assert forall|i: int| 0 <= i < q.len() implies 0 <= #[trigger] q[i] < rk1.len() by {
        if i < pos {
            assert(q[i] == p[i]);
        } else if i > pos {
            assert(q[i] == p[i - 1]);
        }
    }
    assert forall|x: int| 0 <= x < rk1.len() implies #[trigger] q.contains(x) by {
        if x == k {
            assert(q[pos] == k);
        } else {
            assert(p.contains(x));
            let i = choose|i: int| 0 <= i < p.len() && p[i] == x;
            if i < pos {
                assert(q[i] == x);
            } else {
                assert(q[i + 1] == x);
            }
        }
    }
    assert forall|i: int, j: int|
        #![trigger q[i], q[j]]
        0 <= i < j < q.len() implies rk1[q[i]] < rk1[q[j]] || (rk1[q[i]] == rk1[q[j]] && q[i] < q[j]) by {
        if i < pos {
            assert(q[i] == p[i]);
            assert(0 <= p[i] < k);
            if j < pos {
                assert(q[j] == p[j]);
                assert(rk[p[i]] < rk[p[j]] || (rk[p[i]] == rk[p[j]] && p[i] < p[j]));
            } else if j == pos {
            } else {
                assert(q[j] == p[j - 1]);
                assert(rk[p[i]] < rk[p[j - 1]] || (rk[p[i]] == rk[p[j - 1]] && p[i] < p[j - 1]));
            }
        } else if i == pos {
            assert(q[j] == p[j - 1]);
        } else {
            assert(q[i] == p[i - 1]);
            assert(q[j] == p[j - 1]);
            assert(0 <= p[i - 1] < k);
            assert(0 <= p[j - 1] < k);
            assert(rk[p[i - 1]] < rk[p[j - 1]] || (rk[p[i - 1]] == rk[p[j - 1]] && p[i - 1] < p[j - 1]));
        }
    }
}

/// Two stable orders of the same ranks agree up to position `k`.
proof fn lemma_stable_orders_agree_up_to(r: Seq<int>, p: Seq<int>, q: Seq<int>, k: int)
    requires
        is_stable_order(r, p),
        is_stable_order(r, q),
        0 <= k < p.len(),
    ensures
        forall|i: int| 0 <= i <= k ==> p[i] == q[i],
    decreases k,
{
    if k > 0 {
        lemma_stable_orders_agree_up_to(r, p, q, k - 1);
    }
    let x = p[k];
    let y = q[k];
    assert(q.contains(x));
    let j = choose|j: int| 0 <= j < q.len() && q[j] == x;
    assert(p.contains(y));
    let jj = choose|j: int| 0 <= j < p.len() && p[j] == y;
    if x != y {
        if j < k {
            assert(q[j] == p[j]);
            assert(r[p[j]] < r[p[k]] || (r[p[j]] == r[p[k]] && p[j] < p[k]));
        }
        assert(j != k);
        if jj < k {
            assert(p[jj] == q[jj]);
            assert(r[q[jj]] < r[q[k]] || (r[q[jj]] == r[q[k]] && q[jj] < q[k]));
        }
        assert(jj != k);
        assert(r[q[k]] < r[q[j]] || (r[q[k]] == r[q[j]] && q[k] < q[j]));
        assert(r[p[k]] < r[p[jj]] || (r[p[k]] == r[p[jj]] && p[k] < p[jj]));
    }
}

/// Ranks have one stable order: any two agree.
pub proof fn lemma_stable_order_unique(r: Seq<int>, p: Seq<int>, q: Seq<int>)
    requires
        is_stable_order(r, p),
        is_stable_order(r, q),
    ensures
        p == q,
{
    assert forall|k: int| 0 <= k < p.len() implies p[k] == q[k] by {
        lemma_stable_orders_agree_up_to(r, p, q, k);
    }
    assert(p =~= q);
}

/// A listing has one sorting by size: what `sort_entries` produces is
/// determined by the listing it starts from.
pub proof fn lemma_size_sorting_unique(s: Seq<DirectoryEntry>, t1: Seq<DirectoryEntry>, t2: Seq<DirectoryEntry>)
    requires
        is_size_sorting(s, t1),
        is_size_sorting(s, t2),
    ensures
        t1 == t2,
{
    let r = group_ranks(split_groups(s));
    let p1 = choose|p: Seq<int>| is_stable_order(r, p) && t1 == arrange(s, p);
    let p2 = choose|p: Seq<int>| is_stable_order(r, p) && t2 == arrange(s, p);
    lemma_stable_order_unique(r, p1, p2);
}

/// `p` lists each of `0 .. n` exactly once.
pub open spec fn is_permutation(p: Seq<int>, n: int) -> bool {
    &&& p.len() == n
    &&& forall|i: int| 0 <= i < p.len() ==> 0 <= #[trigger] p[i] < n
    &&& forall|i: int, j: int| 0 <= i < j < p.len() ==> #[trigger] p[i] != #[trigger] p[j]
    &&& forall|k: int| 0 <= k < n ==> #[trigger] p.contains(k)
}

/// A stable order of the ranks is a permutation of their positions.
pub proof fn lemma_stable_order_is_permutation(r: Seq<int>, p: Seq<int>)
    requires
        is_stable_order(r, p),
    ensures
        is_permutation(p, r.len() as int),
{
    assert forall|i: int, j: int| 0 <= i < j < p.len() implies #[trigger] p[i] != #[trigger] p[j] by {
        assert(r[p[i]] < r[p[j]] || (r[p[i]] == r[p[j]] && p[i] < p[j]));
    }
}

/// Flattening distributes over concatenation.
pub proof fn lemma_flatten_concat<A>(a: Seq<Seq<A>>, b: Seq<Seq<A>>)
    ensures
        (a + b).flatten() == a.flatten() + b.flatten(),
    decreases b.len(),
{
    if b.len() == 0 {
        assert(a + b == a);
        assert(a.flatten() + b.flatten() == a.flatten());
    } else {
        let c = b.drop_last();
        lemma_flatten_concat(a, c);
        assert(a + b == (a + c).push(b.last()));
        assert(b == c.push(b.last()));
        (a + c).lemma_flatten_push(b.last());
        c.lemma_flatten_push(b.last());
        assert(a.flatten() + (c.flatten() + b.last()) == (a.flatten() + c.flatten()) + b.last());
    }
}

/// Joining the sequences in another order gives the same elements, each as
/// often.
pub proof fn lemma_permuted_flatten_multiset<A>(gs: Seq<Seq<A>>, p: Seq<int>)
    requires
        is_permutation(p, gs.len() as int),
    ensures
        p.map_values(|i: int| gs[i]).flatten().to_multiset() == gs.flatten().to_multiset(),
    decreases gs.len(),
{
    broadcast use vstd::seq_lib::lemma_multiset_commutative;
    let n = gs.len() as int;
    if n == 0 {
        assert(p.map_values(|i: int| gs[i]) =~= Seq::<Seq<A>>::empty());
        assert(gs =~= Seq::<Seq<A>>::empty());
    } else {
        let last = n - 1;
        assert(p.contains(last));
        let j = choose|j: int| 0 <= j < p.len() && p[j] == last;
        let q = p.remove(j);
        let hs = gs.drop_last();
        assert forall|i: int| 0 <= i < q.len() implies 0 <= #[trigger] q[i] < n - 1 by {
            if i < j {
                assert(q[i] == p[i]);
                assert(p[i] != p[j]);
            } else {
                assert(q[i] == p[i + 1]);
                assert(p[i + 1] != p[j]);
            }
        }
        assert forall|i: int, k: int| 0 <= i < k < q.len() implies #[trigger] q[i] != #[trigger] q[k] by {
            let ii = if i < j { i } else { i + 1 };
            let kk = if k < j { k } else { k + 1 };
            assert(q[i] == p[ii]);
            assert(q[k] == p[kk]);
        }
        assert forall|k: int| 0 <= k < n - 1 implies #[trigger] q.contains(k) by {
            assert(p.contains(k));
            let i = choose|i: int| 0 <= i < p.len() && p[i] == k;
            if i < j {
                assert(q[i] == k);
            } else {
                assert(i != j);
                assert(q[i - 1] == k);
            }
        }
        lemma_permuted_flatten_multiset(hs, q);
        let mapped = p.map_values(|i: int| gs[i]);
        let qmapped = q.map_values(|i: int| hs[i]);
        let pre = mapped.take(j);
        let post = mapped.skip(j + 1);
        assert(mapped == pre.push(gs[last]) + post);
        assert(qmapped == pre + post) by {
            assert forall|i: int| 0 <= i < qmapped.len() implies qmapped[i] == (pre + post)[i] by {
                if i < j {
                    assert(q[i] == p[i]);
                } else {
                    assert(q[i] == p[i + 1]);
                }
            }
            assert(qmapped =~= pre + post);
        }
        lemma_flatten_concat(pre.push(gs[last]), post);
        lemma_flatten_concat(pre, post);
        pre.lemma_flatten_push(gs[last]);
        hs.lemma_flatten_push(gs[last]);
        assert(gs == hs.push(gs[last]));
        assert(mapped.flatten() == (pre.flatten() + gs[last]) + post.flatten());
        assert(qmapped.flatten() == pre.flatten() + post.flatten());
        assert(mapped.flatten().to_multiset() =~= pre.flatten().to_multiset().add(gs[last].to_multiset()).add(post.flatten().to_multiset()));
        assert(gs.flatten().to_multiset() =~= hs.flatten().to_multiset().add(gs[last].to_multiset()));
    }
}

/// Joining the groups of a listing gives the listing back.
pub proof fn lemma_split_groups_flatten(s: Seq<DirectoryEntry>)
    ensures
        split_groups(s).flatten() == s,
    decreases s.len(),
{
    if s.len() > 0 {
        let t = s.drop_last();
        lemma_split_groups_flatten(t);
        lemma_split_groups_nonempty(t);
        let g = split_groups(t);
        if s.len() > 1 && s.last().depth != 0 {
            let h = g.drop_last();
            assert(g == h.push(g.last()));
            h.lemma_flatten_push(g.last());
            h.lemma_flatten_push(g.last().push(s.last()));
            assert(g.update(g.len() - 1, g.last().push(s.last())) == h.push(g.last().push(s.last())));
            assert(t.push(s.last()) == s);
        } else {
            g.lemma_flatten_push(seq![s.last()]);
            assert(t + seq![s.last()] == s);
        }
    }
}

/// After its first entry, a group holds only entries below the top level.
pub open spec fn nested_tail(g: Seq<DirectoryEntry>) -> bool {
    forall|k: int| 1 <= k < g.len() ==> #[trigger] g[k].depth != 0
}

/// The groups of a listing are non-empty and nested after their first entry.
proof fn lemma_split_groups_shape(s: Seq<DirectoryEntry>)
    ensures
        groups_nonempty(split_groups(s)),
        forall|i: int| 0 <= i < split_groups(s).len() ==> nested_tail(#[trigger] split_groups(s)[i]),
    decreases s.len(),
{
    lemma_split_groups_nonempty(s);
    if s.len() > 0 {
        let t = s.drop_last();
        lemma_split_groups_shape(t);
        lemma_split_groups_nonempty(t);
        let g = split_groups(t);
        if s.len() > 1 && s.last().depth != 0 {
            assert forall|i: int| 0 <= i < split_groups(s).len() implies nested_tail(
                #[trigger] split_groups(s)[i],
            ) by {
                if i == g.len() - 1 {
                    assert(nested_tail(g[i]));
                    assert(split_groups(s)[i] == g[i].push(s.last()));
                } else {
                    assert(split_groups(s)[i] == g[i]);
                }
            }
        } else {
            assert forall|i: int| 0 <= i < split_groups(s).len() implies nested_tail(
                #[trigger] split_groups(s)[i],
            ) by {
                if i < g.len() {
                    assert(split_groups(s)[i] == g[i]);
                }
            }
        }
    }
}

/// Splitting a listing extended by a group whose tail is nested: the group
/// joins the last group where it starts below the top level, and stands on
/// its own otherwise.
proof fn lemma_split_groups_append(a: Seq<DirectoryEntry>, g: Seq<DirectoryEntry>)
    requires
        g.len() > 0,
        nested_tail(g),
    ensures
        split_groups(a + g) == (if a.len() > 0 && g[0].depth != 0 {
            split_groups(a).update(
                split_groups(a).len() - 1,
                split_groups(a).last() + g,
            )
        } else {
            split_groups(a).push(g)
        }),
    decreases g.len(),
{
    lemma_split_groups_nonempty(a);
    if g.len() == 1 {
        assert(a + g == (a + g).drop_last().push(g[0]));
        assert((a + g).drop_last() == a);
        assert(seq![g[0]] == g);
        assert(split_groups(a).last().push(g[0]) == split_groups(a).last() + g);
    } else {
        let h = g.drop_last();
        let x = g.last();
        assert(nested_tail(h)) by {
            assert forall|k: int| 1 <= k < h.len() implies #[trigger] h[k].depth != 0 by {
                assert(h[k] == g[k]);
            }
        }
        lemma_split_groups_append(a, h);
        assert(a + g == (a + h).push(x));
        assert((a + g).drop_last() == a + h);
        assert(x.depth != 0);
        let sa = split_groups(a);
        lemma_split_groups_nonempty(a + h);
        if a.len() > 0 && g[0].depth != 0 {
            assert(h[0] == g[0]);
            assert((sa.last() + h).push(x) == sa.last() + g);
        } else {
            assert(h[0] == g[0]);
            assert(h.push(x) == g);
        }
    }
}

/// The head rank of each group.
pub open spec fn head_rank(g: Seq<DirectoryEntry>) -> int {
    size_rank(g[0].size_state)
}

/// Joining groups whose heads come in order of rank, and splitting the result
/// again, gives groups whose heads still come in order of rank, none of them
/// after the last of the joined groups.
proof fn lemma_split_of_ordered_groups(gs: Seq<Seq<DirectoryEntry>>)
    requires
        groups_nonempty(gs),
        forall|i: int| 0 <= i < gs.len() ==> nested_tail(#[trigger] gs[i]),
        forall|i: int, j: int| 0 <= i < j < gs.len() ==> head_rank(#[trigger] gs[i]) <= head_rank(
            #[trigger] gs[j],
        ),
    ensures
        forall|i: int, j: int|
            0 <= i < j < split_groups(gs.flatten()).len() ==> head_rank(
                #[trigger] split_groups(gs.flatten())[i],
            ) <= head_rank(#[trigger] split_groups(gs.flatten())[j]),
        gs.len() > 0 ==> forall|i: int|
            0 <= i < split_groups(gs.flatten()).len() ==> head_rank(
                #[trigger] split_groups(gs.flatten())[i],
            ) <= head_rank(gs.last()),
    decreases gs.len(),
{
    if gs.len() > 0 {
        let hs = gs.drop_last();
        let g = gs.last();
        assert(gs == hs.push(g));
        assert forall|i: int, j: int| 0 <= i < j < hs.len() implies head_rank(#[trigger] hs[i])
            <= head_rank(#[trigger] hs[j]) by {
            assert(hs[i] == gs[i] && hs[j] == gs[j]);
        }
        assert forall|i: int| 0 <= i < hs.len() implies nested_tail(#[trigger] hs[i]) by {
            assert(hs[i] == gs[i]);
        }
        assert forall|i: int| 0 <= i < hs.len() implies #[trigger] hs[i].len() > 0 by {
            assert(hs[i] == gs[i]);
        }
        lemma_split_of_ordered_groups(hs);
        hs.lemma_flatten_push(g);
        assert(gs.flatten() == hs.flatten() + g);
        assert(g.len() > 0);
        assert(nested_tail(g));
        lemma_split_groups_append(hs.flatten(), g);
        lemma_split_groups_nonempty(hs.flatten());
        let before = split_groups(hs.flatten());
        let after = split_groups(gs.flatten());
        if hs.len() > 0 {
            assert(head_rank(hs.last()) <= head_rank(g));
        }
        if hs.flatten().len() > 0 && g[0].depth != 0 {
            assert forall|i: int| 0 <= i < after.len() implies head_rank(#[trigger] after[i])
                == head_rank(before[i]) by {
                if i == before.len() - 1 {
                    assert(after[i] == before[i] + g);
                    assert(before[i].len() > 0);
                    assert((before[i] + g)[0] == before[i][0]);
                }
            }
            if hs.len() == 0 {
                assert(hs.flatten() == Seq::<DirectoryEntry>::empty());
            }
        } else {
            if hs.len() == 0 {
                assert(hs.flatten() =~= Seq::<DirectoryEntry>::empty());
                assert(before.len() == 0);
            }
            assert forall|i: int| 0 <= i < before.len() implies after[i] == before[i] by {}
            assert(after[before.len() as int] == g);
        }
    }
}

/// Sorting a sorted listing leaves it as it is.
pub proof fn lemma_sorting_is_idempotent(s: Seq<DirectoryEntry>, t: Seq<DirectoryEntry>)
    requires
        is_size_sorting(s, t),
    ensures
        is_size_sorting(t, t),
{
    let gv = split_groups(s);
    let r = group_ranks(gv);
    let p = choose|p: Seq<int>| is_stable_order(r, p) && t == arrange(s, p);
    let gs = p.map_values(|i: int| gv[i]);
    assert(p.map_values(|i: int| split_groups(s)[i]) == gs);
    lemma_split_groups_shape(s);
    assert forall|i: int| 0 <= i < gs.len() implies #[trigger] gs[i].len() > 0 by {
        assert(gs[i] == gv[p[i]]);
    }
    assert forall|i: int| 0 <= i < gs.len() implies nested_tail(#[trigger] gs[i]) by {
        assert(gs[i] == gv[p[i]]);
    }
    assert forall|i: int, j: int| 0 <= i < j < gs.len() implies head_rank(#[trigger] gs[i])
        <= head_rank(#[trigger] gs[j]) by {
        assert(gs[i] == gv[p[i]]);
        assert(gs[j] == gv[p[j]]);
        assert(r[p[i]] < r[p[j]] || (r[p[i]] == r[p[j]] && p[i] < p[j]));
    }
    lemma_split_of_ordered_groups(gs);
    let hv = split_groups(t);
    let q = Seq::new(hv.len(), |i: int| i);
    let rt = group_ranks(hv);
    assert forall|k: int| 0 <= k < rt.len() implies #[trigger] q.contains(k) by {
        assert(q[k] == k);
    }
    assert forall|i: int, j: int| #![trigger q[i], q[j]] 0 <= i < j < q.len() implies rt[q[i]]
        < rt[q[j]] || (rt[q[i]] == rt[q[j]] && q[i] < q[j]) by {
        assert(head_rank(hv[i]) <= head_rank(hv[j]));
    }
    assert(is_stable_order(rt, q));
    lemma_split_groups_flatten(t);
    assert(q.map_values(|i: int| split_groups(t)[i]) =~= hv);
    assert(t == arrange(t, q));
}

/// In joined sequences, element `m` of sequence `k` stands after all the
/// elements of the sequences before `k`.
pub proof fn lemma_flatten_index<A>(gs: Seq<Seq<A>>, k: int, m: int)
    requires
        0 <= k < gs.len(),
        0 <= m < gs[k].len(),
    ensures
        gs.take(k).flatten().len() + m < gs.flatten().len(),
        gs.flatten()[gs.take(k).flatten().len() + m] == gs[k][m],
{
    let rest = seq![gs[k]] + gs.skip(k + 1);
    assert(gs == gs.take(k) + rest);
    lemma_flatten_concat(gs.take(k), rest);
    lemma_flatten_concat(seq![gs[k]], gs.skip(k + 1));
    seq![gs[k]].lemma_flatten_one_element();
    assert(seq![gs[k]].flatten() == gs[k]);
}

/// An entry below the top level lies in the same group as the entry before
/// it, right after it.
proof fn lemma_nested_entry_follows_in_group(s: Seq<DirectoryEntry>, i: int)
    requires
        0 <= i,
        i + 1 < s.len(),
        s[i + 1].depth != 0,
    ensures
        exists|k: int, m: int|
            #![trigger split_groups(s)[k][m]]
            0 <= k < split_groups(s).len() && 0 <= m && m + 1 < split_groups(s)[k].len()
                && split_groups(s)[k][m] == s[i] && split_groups(s)[k][m + 1] == s[i + 1],
    decreases s.len(),
{
    let t = s.drop_last();
    let g = split_groups(t);
    lemma_split_groups_nonempty(t);
    if i + 1 < s.len() - 1 {
        lemma_nested_entry_follows_in_group(t, i);
        let (k, m) = choose|k: int, m: int|
            #![trigger g[k][m]]
            0 <= k < g.len() && 0 <= m && m + 1 < g[k].len() && g[k][m] == t[i] && g[k][m + 1]
                == t[i + 1];
        if s.len() > 1 && s.last().depth != 0 {
            let h = split_groups(s);
            if k == g.len() - 1 {
                assert(h[k] == g[k].push(s.last()));
            } else {
                assert(h[k] == g[k]);
            }
            assert(h[k][m] == s[i] && h[k][m + 1] == s[i + 1]);
        } else {
            let h = split_groups(s);
            assert(h[k] == g[k]);
            assert(h[k][m] == s[i] && h[k][m + 1] == s[i + 1]);
        }
    } else {
        lemma_split_groups_flatten(t);
        let k = g.len() - 1;
        let last = g[k];
        let m = last.len() - 1;
        g.drop_last().lemma_flatten_push(last);
        assert(g == g.drop_last().push(last));
        assert(t.last() == last[m]);
        let h = split_groups(s);
        assert(h[k] == last.push(s.last()));
        assert(h[k][m] == s[i] && h[k][m + 1] == s[i + 1]);
    }
}

/// Sorting keeps each entry below the top level right after the entry that
/// preceded it, so the entries under a top-level entry stay under it, in
/// their order.
pub proof fn lemma_sorting_keeps_nested_after_predecessor(
    s: Seq<DirectoryEntry>,
    t: Seq<DirectoryEntry>,
    i: int,
)
    requires
        is_size_sorting(s, t),
        0 <= i,
        i + 1 < s.len(),
        s[i + 1].depth != 0,
    ensures
        exists|j: int| 0 <= j && j + 1 < t.len() && #[trigger] t[j] == s[i] && t[j + 1] == s[i + 1],
{
    let gv = split_groups(s);
    let r = group_ranks(gv);
    let p = choose|p: Seq<int>| is_stable_order(r, p) && t == arrange(s, p);
    lemma_nested_entry_follows_in_group(s, i);
    let (k, m) = choose|k: int, m: int|
        #![trigger gv[k][m]]
        0 <= k < gv.len() && 0 <= m && m + 1 < gv[k].len() && gv[k][m] == s[i] && gv[k][m + 1]
            == s[i + 1];
    assert(p.contains(k));
    let q = choose|q: int| 0 <= q < p.len() && p[q] == k;
    let gs = p.map_values(|x: int| gv[x]);
    assert(p.map_values(|x: int| split_groups(s)[x]) == gs);
    assert(gs[q] == gv[k]);
    lemma_flatten_index(gs, q, m);
    lemma_flatten_index(gs, q, m + 1);
    let j = gs.take(q).flatten().len() + m;
    assert(t[j] == s[i] && t[j + 1] == s[i + 1]);
}

/// Where the joined sequences start: sequence `k` starts after the elements
/// of the sequences before it, and starts no earlier than those before it.
proof fn lemma_flatten_offsets<A>(gs: Seq<Seq<A>>, k1: int, k2: int)
    requires
        0 <= k1 <= k2 <= gs.len(),
    ensures
        gs.take(k1).flatten().len() <= gs.take(k2).flatten().len(),
        k1 < k2 ==> gs.take(k1).flatten().len() + gs[k1].len() <= gs.take(k2).flatten().len(),
    decreases k2 - k1,
{
    if k1 < k2 {
        lemma_flatten_offsets(gs, k1 + 1, k2);
        assert(gs.take(k1 + 1) == gs.take(k1).push(gs[k1]));
        gs.take(k1).lemma_flatten_push(gs[k1]);
    }
}

/// Every element of joined sequences comes from some sequence, at the offset
/// where that sequence starts.
proof fn lemma_flatten_locate<A>(gs: Seq<Seq<A>>, i: int)
    requires
        0 <= i < gs.flatten().len(),
    ensures
        exists|q: int, m: int|
            #![trigger gs[q][m]]
            0 <= q < gs.len() && 0 <= m < gs[q].len() && gs.take(q).flatten().len() + m == i
                && gs.flatten()[i] == gs[q][m],
    decreases gs.len(),
{
    let front = gs.drop_last();
    assert(gs == front.push(gs.last()));
    front.lemma_flatten_push(gs.last());
    assert(gs.take(gs.len() - 1) == front);
    if i < front.flatten().len() {
        lemma_flatten_locate(front, i);
        let (q, m) = choose|q: int, m: int|
            #![trigger front[q][m]]
            0 <= q < front.len() && 0 <= m < front[q].len() && front.take(q).flatten().len() + m == i
                && front.flatten()[i] == front[q][m];
        assert(front.take(q) == gs.take(q));
        assert(gs[q][m] == front[q][m]);
    } else {
        let q = gs.len() - 1;
        let m = i - front.flatten().len();
        assert(gs[q][m] == gs.flatten()[i]);
    }
}

/// In a sorted listing the top-level entries come by size: a known size is
/// not smaller than a known size after it, nothing but known sizes comes
/// before a known size, and after a failed size come only failed sizes.
pub proof fn lemma_sorted_top_level_by_size(s: Seq<DirectoryEntry>, t: Seq<DirectoryEntry>, i: int, j: int)
    requires
        is_size_sorting(s, t),
        0 <= i < j < t.len(),
        t[i].depth == 0,
        t[j].depth == 0,
    ensures
        (t[i].size_state is Calculated && t[j].size_state is Calculated) ==> t[i].size_state->0
            >= t[j].size_state->0,
        t[j].size_state is Calculated ==> t[i].size_state is Calculated,
        t[i].size_state is Error ==> t[j].size_state is Error,
{
    let gv = split_groups(s);
    let r = group_ranks(gv);
    let p = choose|p: Seq<int>| is_stable_order(r, p) && t == arrange(s, p);
    let gs = p.map_values(|x: int| gv[x]);
    assert(p.map_values(|x: int| split_groups(s)[x]) == gs);
    lemma_split_groups_shape(s);
    lemma_flatten_locate(gs, i);
    lemma_flatten_locate(gs, j);
    let (qi, mi) = choose|q: int, m: int|
        #![trigger gs[q][m]]
        0 <= q < gs.len() && 0 <= m < gs[q].len() && gs.take(q).flatten().len() + m == i
            && gs.flatten()[i] == gs[q][m];
    let (qj, mj) = choose|q: int, m: int|
        #![trigger gs[q][m]]
        0 <= q < gs.len() && 0 <= m < gs[q].len() && gs.take(q).flatten().len() + m == j
            && gs.flatten()[j] == gs[q][m];
    assert(gs[qi] == gv[p[qi]]);
    assert(gs[qj] == gv[p[qj]]);
    assert(nested_tail(gv[p[qi]]));
    assert(nested_tail(gv[p[qj]]));
    assert(mi == 0);
    assert(mj == 0);
    if qj < qi {
        lemma_flatten_offsets(gs, qj, qi);
    }
    if qi == qj {
        assert(i == j);
    }
    assert(qi < qj);
    assert(r[p[qi]] < r[p[qj]] || (r[p[qi]] == r[p[qj]] && p[qi] < p[qj]));
    assert(r[p[qi]] == size_rank(t[i].size_state));
    assert(r[p[qj]] == size_rank(t[j].size_state));
    assert(size_rank(t[i].size_state) <= size_rank(t[j].size_state));
    match (t[i].size_state, t[j].size_state) {
        (SizeState::Calculated(x), SizeState::Calculated(y)) => {
            assert(-(x as int) - 1 <= -(y as int) - 1);
        },
        _ => {},
    }
}

/// Sorting only reorders: every entry comes out as often as it went in.
pub proof fn lemma_sorting_keeps_entries(s: Seq<DirectoryEntry>, t: Seq<DirectoryEntry>)
    requires
        is_size_sorting(s, t),
    ensures
        t.to_multiset() == s.to_multiset(),
        t.len() == s.len(),
{
    let gs = split_groups(s);
    let p = choose|p: Seq<int>| is_stable_order(group_ranks(gs), p) && t == arrange(s, p);
    lemma_stable_order_is_permutation(group_ranks(gs), p);
    lemma_permuted_flatten_multiset(gs, p);
    lemma_split_groups_flatten(s);
    assert(p.map_values(|i: int| split_groups(s)[i]) == p.map_values(|i: int| gs[i]));
    t.to_multiset_ensures();
    s.to_multiset_ensures();
}

} // verus!
