use vstd::prelude::*;
use vstd::set_lib::{lemma_int_range, lemma_len_subset, set_int_range};

verus! {

/// Follows predecessor links from the last node of `path` until a node is
/// its own predecessor or a node repeats; a repeated node is appended once.
pub open spec fn pred_walk(pred: Seq<usize>, path: Seq<usize>) -> Seq<usize>
    decreases pred.len() - path.len(),
{
    if path.len() == 0 || path.last() >= pred.len() {
        path
    } else {
        let cur = path.last();
        let p = pred[cur as int];
        if p == cur {
            path
        } else if path.contains(p) {
            path.push(p)
        } else if path.len() >= pred.len() {
            path
        } else {
            pred_walk(pred, path.push(p))
        }
    }
}

/// Position of the last occurrence of `x` in `s`, or -1.
pub open spec fn last_position(s: Seq<usize>, x: usize) -> int
    decreases s.len(),
{
    if s.len() == 0 {
        -1
    } else if s.last() == x {
        s.len() - 1
    } else {
        last_position(s.drop_last(), x)
    }
}

/// The cycle found from the predecessor walk `path` from `u` and the relaxing
/// edge `u -> v`.
///
/// When `v` lies on the walk: `v`, the walk back down to `u`, then `v` again.
/// Otherwise, when the walk ended on a node it had already visited, the
/// predecessor cycle through that node, from it back to it. Otherwise there
/// is no cycle: the empty sequence.
pub open spec fn close_cycle(path: Seq<usize>, v: usize) -> Seq<usize> {
    let vp = last_position(path, v);
    let rp = last_position(path.drop_last(), path.last());
    if vp >= 0 {
        seq![v] + path.subrange(0, vp).reverse() + seq![v]
    } else if path.len() >= 2 && rp >= 0 {
        seq![path.last()] + path.subrange(rp, path.len() - 1).reverse()
    } else {
        Seq::empty()
    }
}

/// The cycle reported for a relaxing edge `u -> v` under predecessor array `pred`.
pub open spec fn spec_cycle(pred: Seq<usize>, u: usize, v: usize) -> Seq<usize> {
    close_cycle(pred_walk(pred, seq![u]), v)
}

pub open spec fn all_below(s: Seq<usize>, n: int) -> bool {
    forall|k: int| 0 <= k < s.len() ==> #[trigger] s[k] < n
}

/// A sequence of distinct numbers below `n` has at most `n` elements.
pub proof fn lemma_distinct_below(s: Seq<usize>, n: int)
    requires
        s.no_duplicates(),
        all_below(s, n),
        n >= 0,
    ensures
        s.len() <= n,
{
    let t = s.map_values(|x: usize| x as int);
    assert(t.no_duplicates()) by {
        assert forall|i: int, j: int| 0 <= i < t.len() && 0 <= j < t.len() && i != j implies t[i]
            != t[j] by {
            assert(s[i] != s[j]);
        }
    }
    t.unique_seq_to_set();
    lemma_int_range(0, n);
    assert(t.to_set().subset_of(set_int_range(0, n))) by {
        assert forall|x: int| t.to_set().contains(x) implies set_int_range(0, n).contains(x) by {
            let k = choose|k: int| 0 <= k < t.len() && t[k] == x;
            assert(s[k] < n);
        }
    }
    lemma_len_subset(t.to_set(), set_int_range(0, n));
}

/// Facts about the predecessor walk from a path that follows `pred`.
pub proof fn lemma_walk_shape(pred: Seq<usize>, path: Seq<usize>)
    requires
        path.len() > 0,
        all_below(pred, pred.len() as int),
        all_below(path, pred.len() as int),
        forall|k: int| 0 <= k < path.len() - 1 ==> #[trigger] path[k + 1] == pred[path[k] as int],
    ensures
        pred_walk(pred, path).len() >= path.len(),
        pred_walk(pred, path).subrange(0, path.len() as int) == path,
        all_below(pred_walk(pred, path), pred.len() as int),
        forall|k: int|
            0 <= k < pred_walk(pred, path).len() - 1 ==> #[trigger] pred_walk(pred, path)[k + 1]
                == pred[pred_walk(pred, path)[k] as int],
    decreases pred.len() - path.len(),
{
    let cur = path.last();
    let p = pred[cur as int];
    let w = pred_walk(pred, path);
    if p == cur {
        assert(w == path);
        assert(path.subrange(0, path.len() as int) =~= path);
    } else if path.contains(p) {
        assert(w == path.push(p));
        assert(w.subrange(0, path.len() as int) =~= path);
        assert forall|k: int| 0 <= k < w.len() - 1 implies #[trigger] w[k + 1] == pred[w[k] as int] by {
            if k == path.len() - 1 {
            } else {
                assert(w[k] == path[k] && w[k + 1] == path[k + 1]);
            }
        }
    } else if path.len() >= pred.len() {
        assert(w == path);
        assert(path.subrange(0, path.len() as int) =~= path);
    } else {
        let np = path.push(p);
        assert forall|k: int| 0 <= k < np.len() - 1 implies #[trigger] np[k + 1] == pred[np[k] as int] by {
            if k == path.len() - 1 {
            } else {
                assert(np[k] == path[k] && np[k + 1] == path[k + 1]);
            }
        }
        lemma_walk_shape(pred, np);
        assert(w == pred_walk(pred, np));
        assert(w.subrange(0, np.len() as int) == np);
        assert(w.subrange(0, path.len() as int) =~= np.subrange(0, path.len() as int));
        assert(np.subrange(0, path.len() as int) =~= path);
    }
}

fn vec_contains(v: &Vec<usize>, x: usize) -> (r: bool)
    ensures
        r == v@.contains(x),
{
    let mut k: usize = 0;
    while k < v.len()
        invariant
            k <= v.len(),
            forall|q: int| 0 <= q < k ==> v@[q] != x,
        decreases v.len() - k,
    {
        if v[k] == x {
            assert(v@[k as int] == x);
            return true;
        }
        k = k + 1;
    }
    false
}

/// The predecessor walk from `u`: `u`, `pred[u]`, `pred[pred[u]]`, ... up to a
/// self-loop, or up to and including the first repeated node.
pub fn predecessor_path(pred: &Vec<usize>, u: usize) -> (path: Vec<usize>)
    requires
        u < pred.len(),
        all_below(pred@, pred.len() as int),
    ensures
        path@ == pred_walk(pred@, seq![u]),
        path.len() >= 1,
        path@[0] == u,
        all_below(path@, pred.len() as int),
        forall|k: int| 0 <= k < path.len() - 1 ==> #[trigger] path@[k + 1] == pred@[path@[k] as int],
{
    let ghost target = pred_walk(pred@, seq![u]);
    let mut path: Vec<usize> = Vec::new();
    let mut cur = u;
    proof {
        assert(path@.push(cur) =~= seq![u]);
    }
    loop
        invariant_except_break
            cur < pred.len(),
            all_below(path@, pred.len() as int),
            path@.push(cur).no_duplicates(),
            pred_walk(pred@, path@.push(cur)) == target,
        invariant
            all_below(pred@, pred.len() as int),
            target == pred_walk(pred@, seq![u]),
        ensures
            path@ == target,
        decreases pred.len() - path.len(),
    {
        let ghost before = path@;
        path.push(cur);
        proof {
            assert(path@ == before.push(cur));
            lemma_distinct_below(path@, pred.len() as int);
        }
        let p = pred[cur];
        if p == cur {
            assert(pred_walk(pred@, path@) == path@);
            break;
        }
        if vec_contains(&path, p) {
            let ghost w = path@;
            assert(pred_walk(pred@, w) == w.push(p));
            path.push(p);
            break;
        }
        proof {
            let np = path@.push(p);
            assert(np.no_duplicates()) by {
                assert forall|i: int, j: int| 0 <= i < np.len() && 0 <= j < np.len() && i != j implies np[i]
                    != np[j] by {
                    if j == path@.len() {
                        assert(path@.contains(path@[i]));
                    } else if i == path@.len() {
                        assert(path@.contains(path@[j]));
                    }
                }
            }
            assert(all_below(np, pred.len() as int));
            lemma_distinct_below(np, pred.len() as int);
            assert(pred_walk(pred@, path@) == pred_walk(pred@, np));
        }
        cur = p;
    }
    proof {
        lemma_walk_shape(pred@, seq![u]);
        assert(target.subrange(0, 1)[0] == u);
    }
    path
}

/// Position of the last occurrence of `x` in `s[0..end]`, or `None`.
fn rposition(s: &Vec<usize>, x: usize, end: usize) -> (r: Option<usize>)
    requires
        end <= s.len(),
    ensures
        match r {
            Some(k) => k < end && last_position(s@.subrange(0, end as int), x) == k,
            None => last_position(s@.subrange(0, end as int), x) == -1,
        },
{
    let mut k: usize = end;
    while k > 0
        invariant
            k <= end <= s.len(),
            last_position(s@.subrange(0, end as int), x) == last_position(s@.subrange(0, k as int), x),
        decreases k,
    {
        let ghost pre = s@.subrange(0, k as int);
        if s[k - 1] == x {
            return Some(k - 1);
        }
        proof {
            assert(pre.drop_last() =~= s@.subrange(0, k - 1));
        }
        k = k - 1;
    }
    proof {
        assert(s@.subrange(0, 0).len() == 0);
    }
    None
}

/// Reconstructs the arbitrage cycle closed by the relaxing edge `u -> v`.
///
/// The walk from `u` along `pred` is reversed up to the last occurrence of
/// `v`, giving `v, ..., u, v`. When `v` is not on the walk but the walk ran
/// into a node it had already visited, the predecessor cycle through that
/// node is returned instead; when neither holds there is no cycle and the
/// result is empty. A non-empty result is closed: it starts and ends at the
/// same node.
pub fn reconstruct_cycle(pred: &Vec<usize>, u: usize, v: usize) -> (cycle: Vec<usize>)
    requires
        u < pred.len(),
        all_below(pred@, pred.len() as int),
    ensures
        cycle@ == spec_cycle(pred@, u, v),
        cycle.len() == 0 || (cycle.len() >= 2 && cycle@[0] == cycle@[cycle.len() - 1]),
{
    let path = predecessor_path(pred, u);
    let ghost w = path@;
    let n = path.len();
    let mut c: Vec<usize> = Vec::new();
    let (start, end, via_v): (usize, usize, bool) = match rposition(&path, v, n) {
        Some(vp) => {
            c.push(v);
            (0, vp, true)
        },
        None => {
            let last = path[n - 1];
            match rposition(&path, last, n - 1) {
                Some(rp) => {
                    c.push(last);
                    (rp, n - 1, false)
                },
                None => {
                    proof {
                        assert(w.subrange(0, n as int) =~= w);
                        assert(w.subrange(0, n - 1) =~= w.drop_last());
                    }
                    return Vec::new();
                },
            }
        },
    };
    let ghost first = c@[0];
    let mut k: usize = end;
    while k > start
        invariant
            start <= k <= end,
            end < path.len(),
            c@ == seq![first] + path@.subrange(k as int, end as int).reverse(),
        decreases k,
    {
        k = k - 1;
        c.push(path[k]);
        proof {
            assert(path@.subrange(k as int, end as int).reverse() =~= path@.subrange(
                k + 1,
                end as int,
            ).reverse().push(path@[k as int]));
        }
    }
    proof {
        assert(w.subrange(0, n as int) =~= w);
        assert(w.subrange(0, n - 1) =~= w.drop_last());
        lemma_last_position(w, v);
        lemma_last_position(w.drop_last(), w.last());
    }
    if via_v {
        c.push(v);
    }
    proof {
        let vp = last_position(w, v);
        if vp >= 0 {
            assert(c@ =~= seq![v] + w.subrange(0, vp).reverse() + seq![v]);
        } else {
            let rp = last_position(w.drop_last(), w.last());
            assert(c@ =~= seq![w.last()] + w.subrange(rp, w.len() - 1).reverse());
            assert(w.drop_last()[rp] == w[rp]);
        }
    }
    c
}

/// A reported cycle is closed: it starts and ends at the same node. When `v`
/// lies on the predecessor walk from `u`, the cycle runs from `v` and ends with
/// the relaxing edge `u -> v`, every earlier hop following a predecessor link
/// (`pred[c[k]] == c[k - 1]`). Otherwise every hop of a non-empty cycle follows
/// a predecessor link.
pub proof fn lemma_cycle_follows_predecessors(pred: Seq<usize>, u: usize, v: usize)
    requires
        u < pred.len(),
        all_below(pred, pred.len() as int),
    ensures
        spec_cycle(pred, u, v).len() == 0 || (spec_cycle(pred, u, v).len() >= 2 && spec_cycle(pred, u, v)[0]
            == spec_cycle(pred, u, v).last()),
        pred_walk(pred, seq![u]).contains(v) ==> {
            &&& spec_cycle(pred, u, v).len() >= 2
            &&& spec_cycle(pred, u, v)[0] == v
            &&& spec_cycle(pred, u, v).last() == v
            &&& spec_cycle(pred, u, v)[spec_cycle(pred, u, v).len() - 2] == u
            &&& forall|k: int|
                1 <= k <= spec_cycle(pred, u, v).len() - 2 ==> pred[#[trigger] spec_cycle(pred, u, v)[k] as int]
                    == spec_cycle(pred, u, v)[k - 1]
        },
        !pred_walk(pred, seq![u]).contains(v) ==> forall|k: int|
            1 <= k <= spec_cycle(pred, u, v).len() - 1 ==> pred[#[trigger] spec_cycle(pred, u, v)[k] as int]
                == spec_cycle(pred, u, v)[k - 1],
{
    let w = pred_walk(pred, seq![u]);
    lemma_walk_shape(pred, seq![u]);
    assert(w[0] == seq![u][0]);
    lemma_last_position(w, v);
    lemma_last_position(w.drop_last(), w.last());
    let c = spec_cycle(pred, u, v);
    let vp = last_position(w, v);
    let rp = last_position(w.drop_last(), w.last());
    if vp >= 0 {
        let r = w.subrange(0, vp).reverse();
        assert(c =~= seq![v] + r + seq![v]);
        assert forall|k: int| 1 <= k <= c.len() - 2 implies pred[#[trigger] c[k] as int] == c[k - 1] by {
            assert(c[k] == w[vp - k]);
            assert(w[(vp - k) + 1] == pred[w[vp - k] as int]);
            if k == 1 {
                assert(c[k - 1] == v);
            } else {
                assert(c[k - 1] == w[vp - k + 1]);
            }
        }
        if vp > 0 {
            assert(c[c.len() - 2] == w[0]);
        }
    } else if w.len() >= 2 && rp >= 0 {
        let n = w.len();
        assert(w.drop_last()[rp] == w[rp]);
        let r = w.subrange(rp, n - 1).reverse();
        assert(c =~= seq![w.last()] + r);
        assert(c.len() == n - rp);
        assert(c[c.len() - 1] == w[rp]);
        assert forall|k: int| 1 <= k <= c.len() - 1 implies pred[#[trigger] c[k] as int] == c[k - 1] by {
            assert(c[k] == w[n - 1 - k]);
            assert(w[(n - 1 - k) + 1] == pred[w[n - 1 - k] as int]);
            if k == 1 {
                assert(c[k - 1] == w[n - 1]);
            } else {
                assert(c[k - 1] == w[n - k]);
            }
        }
    } else {
        assert(c.len() == 0);
    }
}

/// `last_position` finds the last occurrence, and -1 exactly when absent.
pub proof fn lemma_last_position(s: Seq<usize>, x: usize)
    ensures
        -1 <= last_position(s, x) < s.len(),
        last_position(s, x) >= 0 ==> s[last_position(s, x)] == x,
        last_position(s, x) == -1 <==> !s.contains(x),
    decreases s.len(),
{
    if s.len() > 0 && s.last() != x {
        lemma_last_position(s.drop_last(), x);
        if s.contains(x) {
            let k = choose|k: int| 0 <= k < s.len() && s[k] == x;
            assert(s.drop_last()[k] == x);
        }
        if s.drop_last().contains(x) {
            let k = choose|k: int| 0 <= k < s.drop_last().len() && s.drop_last()[k] == x;
            assert(s[k] == x);
        }
    } else if s.len() > 0 {
        assert(s[s.len() - 1] == x);
    }
}

} // verus!
