//! Stable descending ranking: selecting the best `k` entries by key.

use vstd::prelude::*;

verus! {

/// Entry `a` ranks ahead of entry `b`: it has the higher key, or the same key
/// and an earlier position (the order is stable).
pub open spec fn ranks_ahead(keys: Seq<u64>, a: int, b: int) -> bool {
    keys[a] > keys[b] || (keys[a] == keys[b] && a < b)
}

/// The smaller of two naturals.
pub open spec fn min_nat(a: nat, b: nat) -> nat {
    if a <= b {
        a
    } else {
        b
    }
}

/// Positions as mathematical integers.
pub open spec fn positions(v: Seq<usize>) -> Seq<int> {
    v.map_values(|x: usize| x as int)
}

/// `sel` lists, best first, the positions of the `k` entries (all of them, if
/// there are fewer) that rank ahead of every entry left out: the first `k`
/// entries of `keys` sorted by descending key, ties kept in input order.
pub open spec fn is_top_selection(keys: Seq<u64>, k: nat, sel: Seq<int>) -> bool {
    &&& sel.len() == min_nat(k, keys.len())
    &&& forall|t: int| 0 <= t < sel.len() ==> 0 <= #[trigger] sel[t] < keys.len()
    &&& forall|t: int, u: int|
        0 <= t < u < sel.len() ==> ranks_ahead(keys, #[trigger] sel[t], #[trigger] sel[u])
    &&& forall|j: int, t: int|
        #![trigger sel.contains(j), sel[t]]
        0 <= j < keys.len() && !sel.contains(j) && 0 <= t < sel.len() ==> ranks_ahead(
            keys,
            sel[t],
            j,
        )
}

/// The top `k` selection of `keys` (it exists and is unique, see
/// `lemma_top_selection_unique` and `top_k_positions`).
pub open spec fn top_selection(keys: Seq<u64>, k: nat) -> Seq<int> {
    choose|sel: Seq<int>| is_top_selection(keys, k, sel)
}

/// At most one sequence is the top `k` selection of given keys.
pub proof fn lemma_top_selection_unique(keys: Seq<u64>, k: nat, s1: Seq<int>, s2: Seq<int>)
    requires
        is_top_selection(keys, k, s1),
        is_top_selection(keys, k, s2),
    ensures
        s1 == s2,
{
    assert forall|t: int| 0 <= t < s1.len() implies s1[t] == s2[t] by {
        lemma_top_selection_agree(keys, k, s1, s2, t);
    }
    assert(s1 =~= s2);
}

proof fn lemma_top_selection_agree(keys: Seq<u64>, k: nat, s1: Seq<int>, s2: Seq<int>, t: int)
    requires
        is_top_selection(keys, k, s1),
        is_top_selection(keys, k, s2),
        0 <= t < s1.len(),
    ensures
        s1[t] == s2[t],
    decreases t,
{
    assert forall|u: int| 0 <= u < t implies s1[u] == s2[u] by {
        lemma_top_selection_agree(keys, k, s1, s2, u);
    }
    let a = s1[t];
    let b = s2[t];
    if a != b {
        if ranks_ahead(keys, a, b) {
            if s2.contains(a) {
                let w = choose|w: int| 0 <= w < s2.len() && s2[w] == a;
                if w < t {
                    assert(s1[w] == s2[w]);
                    assert(ranks_ahead(keys, s1[w], s1[t]));
                } else {
                    assert(ranks_ahead(keys, s2[t], s2[w]));
                }
            } else {
                assert(ranks_ahead(keys, s2[t], a));
            }
        } else {
            assert(ranks_ahead(keys, b, a));
            if s1.contains(b) {
                let w = choose|w: int| 0 <= w < s1.len() && s1[w] == b;
                if w < t {
                    assert(s1[w] == s2[w]);
                    assert(ranks_ahead(keys, s2[w], s2[t]));
                } else {
                    assert(ranks_ahead(keys, s1[t], s1[w]));
                }
            } else {
                assert(ranks_ahead(keys, s1[t], b));
            }
        }
    }
}

/// The selection after considering entry `i`, which belongs at position
/// `pos` among the entries selected so far: it is inserted there if that is
/// among the first `k`, and the selection is cut back to `k` entries.
pub open spec fn next_selection(sel: Seq<int>, pos: int, i: int, k: nat) -> Seq<int> {
    if pos < k {
        let ins = sel.insert(pos, i);
        if ins.len() > k {
            ins.drop_last()
        } else {
            ins
        }
    } else {
        sel
    }
}

/// While fewer than `k` entries are selected, none is left out.
spec fn keeps_all(sel: Seq<int>, i: int, k: nat) -> bool {
    i <= k ==> forall|j: int| 0 <= j < i ==> #[trigger] sel.contains(j)
}

/// One step of selection: from the top `k` of the first `i` entries to the
/// top `k` of the first `i + 1`.
proof fn lemma_top_step(keys: Seq<u64>, k: nat, i: int, sel: Seq<int>, pos: int)
    requires
        0 <= i < keys.len(),
        is_top_selection(keys.take(i), k, sel),
        keeps_all(sel, i, k),
        0 <= pos <= sel.len(),
        forall|t: int| 0 <= t < pos ==> keys[#[trigger] sel[t]] >= keys[i],
        pos < sel.len() ==> keys[sel[pos]] < keys[i],
    ensures
        is_top_selection(keys.take(i + 1), k, next_selection(sel, pos, i, k)),
        keeps_all(next_selection(sel, pos, i, k), i + 1, k),
{
    let ka = keys.take(i);
    let kb = keys.take(i + 1);
    let next = next_selection(sel, pos, i, k);
    assert forall|t: int| 0 <= t < sel.len() implies #[trigger] kb[sel[t]] == ka[sel[t]] && ka[sel[t]]
        == keys[sel[t]] && sel[t] < i by {}
    assert(kb[i] == keys[i]);
    // entries selected so far from `pos` on rank behind `i`
    assert forall|t: int| pos <= t < sel.len() implies ranks_ahead(kb, i, #[trigger] sel[t]) by {
        if t > pos {
            assert(ranks_ahead(ka, sel[pos], sel[t]));
        }
    }
    assert forall|t: int| 0 <= t < pos implies ranks_ahead(kb, #[trigger] sel[t], i) by {}
    assert forall|t: int, u: int| 0 <= t < u < sel.len() implies ranks_ahead(
        kb,
        #[trigger] sel[t],
        #[trigger] sel[u],
    ) by {
        assert(ranks_ahead(ka, sel[t], sel[u]));
    }
    if pos < k {
        let ins = sel.insert(pos, i);
        assert forall|t: int| 0 <= t < ins.len() implies #[trigger] ins[t] == if t < pos {
            sel[t]
        } else if t == pos {
            i
        } else {
            sel[t - 1]
        } by {}
        assert forall|t: int, u: int| 0 <= t < u < next.len() implies ranks_ahead(
            kb,
            #[trigger] next[t],
            #[trigger] next[u],
        ) by {
            assert(next[t] == ins[t] && next[u] == ins[u]);
        }
        assert forall|j: int, t: int|
            #![trigger next.contains(j), next[t]]
            0 <= j < kb.len() && !next.contains(j) && 0 <= t < next.len() implies ranks_ahead(
            kb,
            next[t],
            j,
        ) by {
            assert(next[t] == ins[t]);
            if j == i {
                assert(next[pos] == i);
            } else if sel.contains(j) {
                // `j` was the entry cut off at the end
                let w = choose|w: int| 0 <= w < sel.len() && sel[w] == j;
                if w < pos {
                    assert(next[w] == j);
                } else if w + 1 < next.len() {
                    assert(next[w + 1] == j);
                }
                assert(w == sel.len() - 1);
                if t != pos {
                    assert(ranks_ahead(kb, ins[t], j));
                }
            } else {
                assert(!keeps_all(sel, i, k) || !(i <= k)) by {
                    if i <= k {
                        assert(sel.contains(j));
                    }
                }
                assert(sel.len() == k);
                let last = sel[sel.len() - 1];
                assert(ranks_ahead(ka, last, j));
                if t == pos {
                    assert(ranks_ahead(kb, i, last));
                } else {
                    assert(ranks_ahead(ka, ins[t], j));
                }
            }
        }
        assert(keeps_all(next, i + 1, k)) by {
            if i + 1 <= k {
                assert forall|j: int| 0 <= j < i + 1 implies #[trigger] next.contains(j) by {
                    if j == i {
                        assert(next[pos] == i);
                    } else {
                        assert(sel.contains(j));
                        let w = choose|w: int| 0 <= w < sel.len() && sel[w] == j;
                        if w < pos {
                            assert(next[w] == j);
                        } else {
                            assert(next[w + 1] == j);
                        }
                    }
                }
            }
        }
    } else {
        assert forall|j: int, t: int|
            #![trigger next.contains(j), next[t]]
            0 <= j < kb.len() && !next.contains(j) && 0 <= t < next.len() implies ranks_ahead(
            kb,
            next[t],
            j,
        ) by {
            if j < i {
                assert(ranks_ahead(ka, sel[t], j));
            }
        }
    }
}

/// How many of the leading selected entries have a key of at least
/// `keys[i]`.
spec fn leading(keys: Seq<u64>, sel: Seq<int>, i: int) -> nat
    decreases sel.len(),
{
    if sel.len() == 0 {
        0
    } else if keys[sel[0]] >= keys[i] {
        1 + leading(keys, sel.drop_first(), i)
    } else {
        0
    }
}

proof fn lemma_leading(keys: Seq<u64>, sel: Seq<int>, i: int)
    ensures
        leading(keys, sel, i) <= sel.len(),
        forall|t: int| 0 <= t < leading(keys, sel, i) ==> keys[#[trigger] sel[t]] >= keys[i],
        leading(keys, sel, i) < sel.len() ==> keys[sel[leading(keys, sel, i) as int]] < keys[i],
    decreases sel.len(),
{
    if sel.len() > 0 && keys[sel[0]] >= keys[i] {
        lemma_leading(keys, sel.drop_first(), i);
        assert forall|t: int| 0 <= t < leading(keys, sel, i) implies keys[#[trigger] sel[t]]
            >= keys[i] by {
            if t > 0 {
                assert(sel[t] == sel.drop_first()[t - 1]);
            }
        }
    }
}

/// A top `k` selection of the first `n` entries, built entry by entry.
spec fn selection_of_prefix(keys: Seq<u64>, k: nat, n: nat) -> Seq<int>
    decreases n,
{
    if n == 0 {
        Seq::empty()
    } else {
        let prev = selection_of_prefix(keys, k, (n - 1) as nat);
        next_selection(prev, leading(keys, prev, n - 1) as int, n - 1, k)
    }
}

proof fn lemma_selection_of_prefix(keys: Seq<u64>, k: nat, n: nat)
    requires
        n <= keys.len(),
    ensures
        is_top_selection(keys.take(n as int), k, selection_of_prefix(keys, k, n)),
        keeps_all(selection_of_prefix(keys, k, n), n as int, k),
    decreases n,
{
    if n == 0 {
        assert(selection_of_prefix(keys, k, 0) =~= Seq::<int>::empty());
    } else {
        let prev = selection_of_prefix(keys, k, (n - 1) as nat);
        lemma_selection_of_prefix(keys, k, (n - 1) as nat);
        lemma_leading(keys, prev, n - 1);
        lemma_top_step(keys, k, n - 1, prev, leading(keys, prev, n - 1) as int);
    }
}

/// Every list of keys has a top `k` selection.
pub proof fn lemma_top_selection_exists(keys: Seq<u64>, k: nat)
    ensures
        is_top_selection(keys, k, top_selection(keys, k)),
{
    lemma_selection_of_prefix(keys, k, keys.len());
    assert(keys.take(keys.len() as int) =~= keys);
    assert(is_top_selection(keys, k, selection_of_prefix(keys, k, keys.len())));
}

/// The positions of the best `k` entries of `keys`, best first: entries with
/// higher keys come first, and of equal keys the earlier one.
pub fn top_k_positions(keys: &Vec<u64>, k: usize) -> (sel: Vec<usize>)
    ensures
        is_top_selection(keys@, k as nat, positions(sel@)),
        positions(sel@) == top_selection(keys@, k as nat),
{
    let n = keys.len();
    let mut top: Vec<usize> = Vec::new();
    let mut i: usize = 0;
    assert(positions(top@) =~= Seq::<int>::empty());
    while i < n
        invariant
            n == keys.len(),
            i <= n,
            forall|t: int| 0 <= t < top.len() ==> #[trigger] top@[t] < i,
            is_top_selection(keys@.take(i as int), k as nat, positions(top@)),
            keeps_all(positions(top@), i as int, k as nat),
        decreases n - i,
    {
        let ghost sel = positions(top@);
        let key = keys[i];
        let mut pos: usize = 0;
        while pos < top.len() && keys[top[pos]] >= key
            invariant
                n == keys.len(),
                i < n,
                key == keys@[i as int],
                pos <= top.len(),
                sel == positions(top@),
                forall|t: int| 0 <= t < top.len() ==> #[trigger] top@[t] < i,
                forall|t: int| 0 <= t < pos ==> keys@[#[trigger] sel[t]] >= key,
            decreases top.len() - pos,
        {
            pos = pos + 1;
        }
        proof {
            lemma_top_step(keys@, k as nat, i as int, sel, pos as int);
        }
        if pos < k {
            top.insert(pos, i);
            assert(positions(top@) =~= sel.insert(pos as int, i as int));
            if top.len() > k {
                let ghost full = top@;
                top.pop();
                assert(positions(top@) =~= positions(full).drop_last());
            }
        }
        assert(positions(top@) == next_selection(sel, pos as int, i as int, k as nat));
        i = i + 1;
    }
    assert(keys@.take(n as int) =~= keys@);
    proof {
        lemma_top_selection_exists(keys@, k as nat);
        lemma_top_selection_unique(keys@, k as nat, positions(top@), top_selection(keys@, k as nat));
    }
    top
}

} // verus!
