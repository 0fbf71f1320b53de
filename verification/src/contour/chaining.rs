//! Stitching unordered contour segments into connected polylines.
//!
//! Segment end points are matched by their quantised [`Key`]s, so that the
//! same edge crossing computed from two neighbouring cells is recognised as
//! one point.

use vstd::prelude::*;
use std::collections::HashMap;

verus! {

broadcast use vstd::std_specs::hash::group_hash_axioms;

/// A quantised point; two segment ends join when their keys are equal.
#[derive(Debug, Clone, Copy, PartialEq, Eq, Structural, Hash)]
pub struct Key {
    pub x: i64,
    pub y: i64,
}

/// A segment taken in a direction: its index and whether it is reversed.
pub type Link = (usize, bool);

/// Segment `i` has an end point at key `k`.
pub open spec fn touches(keys: Seq<(Key, Key)>, i: int, k: Key) -> bool {
    keys[i].0 == k || keys[i].1 == k
}

/// Key at which a link starts.
pub open spec fn link_start_key(keys: Seq<(Key, Key)>, l: Link) -> Key {
    if l.1 {
        keys[l.0 as int].1
    } else {
        keys[l.0 as int].0
    }
}

/// Key at which a link ends.
pub open spec fn link_end_key(keys: Seq<(Key, Key)>, l: Link) -> Key {
    if l.1 {
        keys[l.0 as int].0
    } else {
        keys[l.0 as int].1
    }
}

/// Point at which a link starts.
pub open spec fn link_start<P>(segs: Seq<(P, P)>, l: Link) -> P {
    if l.1 {
        segs[l.0 as int].1
    } else {
        segs[l.0 as int].0
    }
}

/// Point at which a link ends.
pub open spec fn link_end<P>(segs: Seq<(P, P)>, l: Link) -> P {
    if l.1 {
        segs[l.0 as int].0
    } else {
        segs[l.0 as int].1
    }
}

/// The points of a chain of links grown in both directions from the link at
/// position `start`: each joint is the point of the link that was placed
/// first, so joints before `start` come from the later link and joints after
/// it from the earlier one.
pub open spec fn polyline<P>(segs: Seq<(P, P)>, chain: Seq<Link>, start: int) -> Seq<P> {
    Seq::new(
        (chain.len() + 1) as nat,
        |q: int|
            if q <= start {
                link_start(segs, chain[q])
            } else {
                link_end(segs, chain[q - 1])
            },
    )
}

/// Segment `i` belongs to a chain before chain `j`.
pub open spec fn owned_before(owner: Seq<int>, i: int, j: int) -> bool {
    0 <= owner[i] < j
}

/// Every segment sits at exactly one place of exactly one chain.
pub open spec fn placed(chains: Seq<Seq<Link>>, owner: Seq<int>, place: Seq<int>, n: int) -> bool {
    &&& owner.len() == n
    &&& place.len() == n
    &&& forall|i: int|
        0 <= i < n ==> {
            &&& 0 <= #[trigger] owner[i] < chains.len()
            &&& 0 <= place[i] < chains[owner[i]].len()
            &&& chains[owner[i]][place[i]].0 == i
        }
    &&& forall|j: int, p: int|
        0 <= j < chains.len() && 0 <= p < chains[j].len() ==> {
            &&& 0 <= (#[trigger] chains[j][p]).0 < n
            &&& owner[chains[j][p].0 as int] == j
            &&& place[chains[j][p].0 as int] == p
        }
}

/// Chain `j` was grown greedily: it starts from the lowest segment not in an
/// earlier chain, extends forward from its tail and then backward from its
/// head, each time with the lowest-numbered segment not yet used that touches
/// the current end, and stops at each end only when no unused segment touches
/// it.
pub open spec fn chain_ok(
    keys: Seq<(Key, Key)>,
    chains: Seq<Seq<Link>>,
    starts: Seq<int>,
    owner: Seq<int>,
    place: Seq<int>,
    j: int,
) -> bool {
    let c = chains[j];
    let s = starts[j];
    let n = keys.len() as int;
    &&& 0 <= s < c.len()
    &&& !c[s].1
    &&& forall|i: int| 0 <= i < c[s].0 ==> owned_before(owner, i, j)
    &&& forall|p: int|
        0 <= p < c.len() - 1 ==> link_end_key(keys, #[trigger] c[p]) == link_start_key(
            keys,
            c[p + 1],
        )
    &&& forall|p: int|
        s < p < c.len() ==> {
            let k = link_end_key(keys, c[p - 1]);
            &&& touches(keys, (#[trigger] c[p]).0 as int, k)
            &&& c[p].1 == (keys[c[p].0 as int].0 != k)
            &&& forall|i: int|
                0 <= i < c[p].0 && touches(keys, i, k) ==> owned_before(owner, i, j) || (owner[i]
                    == j && s <= place[i] < p)
        }
    &&& forall|p: int|
        0 <= p < s ==> {
            let k = link_start_key(keys, c[p + 1]);
            &&& touches(keys, (#[trigger] c[p]).0 as int, k)
            &&& c[p].1 == (keys[c[p].0 as int].0 == k)
            &&& forall|i: int|
                0 <= i < c[p].0 && touches(keys, i, k) ==> owned_before(owner, i, j) || (owner[i]
                    == j && place[i] > p)
        }
    &&& forall|i: int|
        0 <= i < n && touches(keys, i, link_end_key(keys, c[c.len() - 1])) ==> owned_before(
            owner,
            i,
            j,
        ) || (owner[i] == j && place[i] >= s)
    &&& forall|i: int|
        0 <= i < n && touches(keys, i, link_start_key(keys, c[0])) ==> owned_before(
            owner,
            i,
            j + 1,
        )
}

/// `chains` is the greedy chaining of the segments whose end keys are `keys`.
pub open spec fn valid_chaining(
    keys: Seq<(Key, Key)>,
    chains: Seq<Seq<Link>>,
    starts: Seq<int>,
    owner: Seq<int>,
    place: Seq<int>,
) -> bool {
    &&& starts.len() == chains.len()
    &&& placed(chains, owner, place, keys.len() as int)
    &&& forall|j: int| 0 <= j < chains.len() ==> #[trigger] chain_ok(keys, chains, starts, owner, place, j)
}


// ── key codes and the adjacency table ────────────────────────────────────

/// Integer code of a key: the `x` coordinate in the high 64 bits and the
/// offset `y` coordinate in the low 64 bits.
spec fn code(k: Key) -> int {
    k.x as int * 0x1_0000_0000_0000_0000 + (k.y as int + 0x8000_0000_0000_0000)
}

proof fn lemma_code_injective(k1: Key, k2: Key)
    requires
        code(k1) == code(k2),
    ensures
        k1 == k2,
{
    let a = k1.x as int - k2.x as int;
    let b = k2.y as int - k1.y as int;
    assert(a * 0x1_0000_0000_0000_0000 == b) by (nonlinear_arith)
        requires
            code(k1) == code(k2),
            a == k1.x as int - k2.x as int,
            b == k2.y as int - k1.y as int,
    ;
    assert(a == 0) by (nonlinear_arith)
        requires
            a * 0x1_0000_0000_0000_0000 == b,
            -0x1_0000_0000_0000_0000 < b < 0x1_0000_0000_0000_0000,
    ;
}

fn key_code(k: Key) -> (c: i128)
    ensures
        c == code(k),
{
    let lo: i128 = k.y as i128 + 0x8000_0000_0000_0000i128;
    assert(-0x8000_0000_0000_0000 * 0x1_0000_0000_0000_0000 <= k.x as int
        * 0x1_0000_0000_0000_0000 <= 0x7fff_ffff_ffff_ffff * 0x1_0000_0000_0000_0000)
        by (nonlinear_arith)
        requires
            -0x8000_0000_0000_0000 <= k.x <= 0x7fff_ffff_ffff_ffff,
    ;
    let hi: i128 = k.x as i128 * 0x1_0000_0000_0000_0000i128;
    hi + lo
}

/// Indices of the segments among the first `m` that touch `k`, in increasing
/// order, an index listed twice when both its ends are at `k`.
spec fn touching_upto(keys: Seq<(Key, Key)>, k: Key, m: int) -> Seq<usize>
    decreases m,
{
    if m <= 0 {
        Seq::empty()
    } else {
        let prev = touching_upto(keys, k, m - 1);
        let a = if keys[m - 1].0 == k {
            prev.push((m - 1) as usize)
        } else {
            prev
        };
        if keys[m - 1].1 == k {
            a.push((m - 1) as usize)
        } else {
            a
        }
    }
}

proof fn lemma_touching_upto(keys: Seq<(Key, Key)>, k: Key, m: int)
    requires
        0 <= m <= keys.len(),
        keys.len() <= usize::MAX,
    ensures
        forall|q: int|
            0 <= q < touching_upto(keys, k, m).len() ==> (#[trigger] touching_upto(keys, k, m)[q])
                < m && touches(keys, touching_upto(keys, k, m)[q] as int, k),
        forall|q1: int, q2: int|
            0 <= q1 <= q2 < touching_upto(keys, k, m).len() ==> #[trigger] touching_upto(
                keys,
                k,
                m,
            )[q1] <= #[trigger] touching_upto(keys, k, m)[q2],
        forall|i: int|
            0 <= i < m && touches(keys, i, k) ==> #[trigger] touching_upto(keys, k, m).contains(
                i as usize,
            ),
    decreases m,
{
    if m > 0 {
        lemma_touching_upto(keys, k, m - 1);
        let prev = touching_upto(keys, k, m - 1);
        let cur = touching_upto(keys, k, m);
        assert forall|i: int| 0 <= i < m && touches(keys, i, k) implies cur.contains(i as usize) by {
            if i < m - 1 {
                assert(prev.contains(i as usize));
                let q = choose|q: int| 0 <= q < prev.len() && prev[q] == i as usize;
                assert(cur[q] == i as usize);
            } else {
                assert(cur[cur.len() - 1] == i as usize);
            }
        }
    }
}

/// Each key with a segment end maps to the list of segments touching it.
spec fn adjacency_upto(m: Map<i128, Vec<usize>>, keys: Seq<(Key, Key)>, upto: int) -> bool {
    forall|k: Key|
        #![trigger touching_upto(keys, k, upto)]
        (m.contains_key(code(k) as i128) ==> m[code(k) as i128]@ == touching_upto(keys, k, upto))
            && (!m.contains_key(code(k) as i128) ==> touching_upto(keys, k, upto).len() == 0)
}

spec fn adjacency_ok(m: Map<i128, Vec<usize>>, keys: Seq<(Key, Key)>) -> bool {
    adjacency_upto(m, keys, keys.len() as int)
}

fn add_touch(adj: &mut HashMap<i128, Vec<usize>>, c: i128, idx: usize)
    ensures
        final(adj)@.contains_key(c),
        old(adj)@.contains_key(c) ==> final(adj)@[c]@ == old(adj)@[c]@.push(idx),
        !old(adj)@.contains_key(c) ==> final(adj)@[c]@ == seq![idx],
        forall|c2: i128|
            c2 != c ==> (#[trigger] final(adj)@.contains_key(c2) == old(adj)@.contains_key(c2))
                && (old(adj)@.contains_key(c2) ==> final(adj)@[c2] == old(adj)@[c2]),
{
    match adj.remove(&c) {
        Some(mut v) => {
            v.push(idx);
            adj.insert(c, v);
        },
        None => {
            let mut v: Vec<usize> = Vec::new();
            v.push(idx);
            adj.insert(c, v);
        },
    }
}

fn build_adjacency(keys: &[(Key, Key)]) -> (adj: HashMap<i128, Vec<usize>>)
    ensures
        adjacency_ok(adj@, keys@),
{
    let mut adj: HashMap<i128, Vec<usize>> = HashMap::new();
    let n = keys.len();
    let mut idx: usize = 0;
    while idx < n
        invariant
            n == keys@.len(),
            idx <= n,
            adjacency_upto(adj@, keys@, idx as int),
        decreases n - idx,
    {
        let (ka, kb) = keys[idx];
        let ca = key_code(ka);
        let cb = key_code(kb);
        let ghost m0 = adj@;
        add_touch(&mut adj, ca, idx);
        let ghost m1 = adj@;
        add_touch(&mut adj, cb, idx);
        proof {
            assert forall|k: Key|
                #![trigger touching_upto(keys@, k, idx + 1)]
                (adj@.contains_key(code(k) as i128) ==> adj@[code(k) as i128]@ == touching_upto(
                    keys@,
                    k,
                    idx + 1,
                )) && (!adj@.contains_key(code(k) as i128) ==> touching_upto(keys@, k, idx + 1).len()
                    == 0) by {
                let t0 = touching_upto(keys@, k, idx as int);
                assert(touching_upto(keys@, k, idx + 1) == {
                    let a = if keys@[idx as int].0 == k {
                        t0.push(idx)
                    } else {
                        t0
                    };
                    if keys@[idx as int].1 == k {
                        a.push(idx)
                    } else {
                        a
                    }
                });
                if ka == k {
                    assert(ca == code(k) as i128);
                } else if code(ka) == code(k) {
                    lemma_code_injective(ka, k);
                }
                if kb == k {
                    assert(cb == code(k) as i128);
                } else if code(kb) == code(k) {
                    lemma_code_injective(kb, k);
                }
            }
        }
        idx = idx + 1;
    }
    adj
}

/// The lowest-numbered segment that touches `k` and is not yet used.
fn next_unused(
    adj: &HashMap<i128, Vec<usize>>,
    used: &Vec<bool>,
    keys: &[(Key, Key)],
    k: Key,
) -> (r: Option<usize>)
    requires
        adjacency_ok(adj@, keys@),
        used@.len() == keys@.len(),
    ensures
        match r {
            Some(i) => {
                &&& i < keys@.len()
                &&& !used@[i as int]
                &&& touches(keys@, i as int, k)
                &&& forall|i2: int| 0 <= i2 < i && touches(keys@, i2, k) ==> used@[i2]
            },
            None => forall|i: int| 0 <= i < keys@.len() && touches(keys@, i, k) ==> used@[i],
        },
{
    let nk = keys.len();
    let ghost list = touching_upto(keys@, k, keys@.len() as int);
    proof {
        assert(keys@.len() == nk);
        lemma_touching_upto(keys@, k, keys@.len() as int);
    }
    let c = key_code(k);
    match adj.get(&c) {
        None => {
            proof {
                assert forall|i: int| 0 <= i < keys@.len() && touches(keys@, i, k) implies used@[i] by {
                    assert(list.contains(i as usize));
                }
            }
            None
        },
        Some(v) => {
            let mut q: usize = 0;
            while q < v.len()
                invariant
                    v@ == list,
                    used@.len() == keys@.len(),
                    q <= v@.len(),
                    forall|q2: int| 0 <= q2 < q ==> used@[list[q2] as int],
                    forall|qq: int|
                        0 <= qq < list.len() ==> (#[trigger] list[qq]) < keys@.len() && touches(
                            keys@,
                            list[qq] as int,
                            k,
                        ),
                    forall|q1: int, q2: int|
                        0 <= q1 <= q2 < list.len() ==> #[trigger] list[q1] <= #[trigger] list[q2],
                    forall|i: int|
                        0 <= i < keys@.len() && touches(keys@, i, k) ==> #[trigger] list.contains(
                            i as usize,
                        ),
                decreases v@.len() - q,
            {
                let i = v[q];
                if !used[i] {
                    proof {
                        assert forall|i2: int| 0 <= i2 < i && touches(keys@, i2, k) implies used@[i2] by {
                            assert(list.contains(i2 as usize));
                            let q2 = choose|q2: int| 0 <= q2 < list.len() && list[q2] == i2 as usize;
                            if q2 >= q {
                                assert(list[q as int] <= list[q2]);
                            }
                        }
                    }
                    return Some(i);
                }
                q = q + 1;
            }
            proof {
                assert forall|i: int| 0 <= i < keys@.len() && touches(keys@, i, k) implies used@[i] by {
                    assert(list.contains(i as usize));
                    let q2 = choose|q2: int| 0 <= q2 < list.len() && list[q2] == i as usize;
                }
            }
            None
        },
    }
}

// ── growing one polyline ─────────────────────────────────────────────────

/// Number of `false` entries.
spec fn count_false(s: Seq<bool>) -> nat
    decreases s.len(),
{
    if s.len() == 0 {
        0
    } else {
        count_false(s.drop_last()) + if s.last() {
            0nat
        } else {
            1nat
        }
    }
}

proof fn lemma_count_set(s: Seq<bool>, i: int)
    requires
        0 <= i < s.len(),
        !s[i],
    ensures
        count_false(s.update(i, true)) + 1 == count_false(s),
    decreases s.len(),
{
    if i < s.len() - 1 {
        assert(s.update(i, true).drop_last() =~= s.drop_last().update(i, true));
        lemma_count_set(s.drop_last(), i);
    } else {
        assert(s.update(i, true).drop_last() =~= s.drop_last());
    }
}

/// The link before position `t` of a one-sided extension from segment `s`.
spec fn prev_link(s: usize, ext: Seq<Link>, t: int) -> Link {
    if t == 0 {
        (s, false)
    } else {
        ext[t - 1]
    }
}

/// The forward extension `fwd` from segment `s` picked, at each step, the
/// lowest segment not yet used that touches the current tail.
#[verifier::opaque]
spec fn fwd_ok(
    keys: Seq<(Key, Key)>,
    s: usize,
    fwd: Seq<Link>,
    owner: Seq<int>,
    off: Seq<int>,
    j: int,
) -> bool {
    forall|t: int|
        0 <= t < fwd.len() ==> {
            let k = link_end_key(keys, prev_link(s, fwd, t));
            &&& touches(keys, (#[trigger] fwd[t]).0 as int, k)
            &&& fwd[t].1 == (keys[fwd[t].0 as int].0 != k)
            &&& forall|i: int|
                0 <= i < fwd[t].0 && touches(keys, i, k) ==> owned_before(owner, i, j) || (owner[i]
                    == j && 0 <= off[i] <= t)
        }
}

/// The backward extension `bwd` from segment `s` picked, at each step, the
/// lowest segment not yet used that touches the current head.
#[verifier::opaque]
spec fn bwd_ok(
    keys: Seq<(Key, Key)>,
    s: usize,
    bwd: Seq<Link>,
    owner: Seq<int>,
    off: Seq<int>,
    j: int,
) -> bool {
    forall|t: int|
        0 <= t < bwd.len() ==> {
            let k = link_start_key(keys, prev_link(s, bwd, t));
            &&& touches(keys, (#[trigger] bwd[t]).0 as int, k)
            &&& bwd[t].1 == (keys[bwd[t].0 as int].0 == k)
            &&& forall|i: int|
                0 <= i < bwd[t].0 && touches(keys, i, k) ==> owned_before(owner, i, j) || (owner[i]
                    == j && off[i] >= -t)
        }
}

/// The segments of chain `j` are `s`, the forward links at offsets `1..`
/// and the backward links at offsets `-1, -2, ..`.
#[verifier::opaque]
spec fn cur_consistent(
    n: int,
    s: usize,
    fwd: Seq<Link>,
    bwd: Seq<Link>,
    owner: Seq<int>,
    off: Seq<int>,
    j: int,
) -> bool {
    &&& s < n
    &&& owner[s as int] == j
    &&& off[s as int] == 0
    &&& forall|t: int|
        0 <= t < fwd.len() ==> (#[trigger] fwd[t]).0 < n && owner[fwd[t].0 as int] == j && off[fwd[t].0 as int]
            == t + 1
    &&& forall|t: int|
        0 <= t < bwd.len() ==> (#[trigger] bwd[t]).0 < n && owner[bwd[t].0 as int] == j && off[bwd[t].0 as int]
            == -(t + 1)
    &&& forall|i: int|
        0 <= i < n && #[trigger] owner[i] == j ==> (i == s && off[i] == 0) || (1 <= off[i]
            <= fwd.len() && fwd[off[i] - 1].0 == i) || (1 <= -off[i] <= bwd.len() && bwd[-off[i]
            - 1].0 == i)
}

/// The chain made of the backward links (reversed), the start segment and
/// the forward links.
spec fn chain_of(s: usize, fwd: Seq<Link>, bwd: Seq<Link>) -> Seq<Link> {
    let b = bwd.len() as int;
    Seq::new(
        (b + 1 + fwd.len()) as nat,
        |p: int|
            if p < b {
                bwd[b - 1 - p]
            } else if p == b {
                (s, false)
            } else {
                fwd[p - b - 1]
            },
    )
}

/// Places after chain `j` is laid out with its start at position `b`.
spec fn place_of(owner: Seq<int>, off: Seq<int>, place: Seq<int>, j: int, b: int) -> Seq<
    int,
> {
    Seq::new(place.len(), |i: int| if owner[i] == j { off[i] + b } else { place[i] })
}

/// State between two polylines: the used segments are exactly those placed
/// in a chain, and each finished chain is a greedy chain.
spec fn outer_state(
    keys: Seq<(Key, Key)>,
    chains: Seq<Seq<Link>>,
    starts: Seq<int>,
    owner: Seq<int>,
    place: Seq<int>,
    used: Seq<bool>,
) -> bool {
    let n = keys.len() as int;
    &&& starts.len() == chains.len()
    &&& owner.len() == n
    &&& place.len() == n
    &&& used.len() == n
    &&& forall|i: int|
        0 <= i < n ==> (used[i] <==> #[trigger] owner[i] >= 0) && -1 <= owner[i] < chains.len()
    &&& forall|i: int|
        0 <= i < n && #[trigger] owner[i] >= 0 ==> 0 <= place[i] < chains[owner[i]].len()
            && chains[owner[i]][place[i]].0 == i
    &&& forall|j: int, p: int|
        0 <= j < chains.len() && 0 <= p < chains[j].len() ==> {
            &&& 0 <= (#[trigger] chains[j][p]).0 < n
            &&& owner[chains[j][p].0 as int] == j
            &&& place[chains[j][p].0 as int] == p
        }
    &&& forall|j: int| 0 <= j < chains.len() ==> #[trigger] chain_ok(keys, chains, starts, owner, place, j)
}

proof fn lemma_chain_ok_frame(
    keys: Seq<(Key, Key)>,
    chains: Seq<Seq<Link>>,
    starts: Seq<int>,
    owner: Seq<int>,
    place: Seq<int>,
    chains2: Seq<Seq<Link>>,
    starts2: Seq<int>,
    owner2: Seq<int>,
    place2: Seq<int>,
    j: int,
)
    requires
        0 <= j < chains.len(),
        j < chains2.len(),
        j < starts.len(),
        j < starts2.len(),
        chains2[j] == chains[j],
        starts2[j] == starts[j],
        owner.len() == keys.len(),
        owner2.len() == keys.len(),
        place.len() == keys.len(),
        place2.len() == keys.len(),
        forall|i: int|
            0 <= i < keys.len() ==> (#[trigger] owner2[i] == owner[i] && place2[i] == place[i]) || (
            owner[i] < 0 && (owner2[i] < 0 || owner2[i] > j)),
        forall|p: int| 0 <= p < chains[j].len() ==> (#[trigger] chains[j][p]).0 < keys.len(),
        chain_ok(keys, chains, starts, owner, place, j),
    ensures
        chain_ok(keys, chains2, starts2, owner2, place2, j),
{
    let c = chains[j];
    let s = starts[j];
    let n = keys.len() as int;
    assert forall|i: int| 0 <= i < c[s].0 implies owned_before(owner2, i, j) by {
        assert(owned_before(owner, i, j));
    }
    assert forall|p: int| s < p < c.len() implies {
        let k = link_end_key(keys, c[p - 1]);
        &&& touches(keys, (#[trigger] c[p]).0 as int, k)
        &&& c[p].1 == (keys[c[p].0 as int].0 != k)
        &&& forall|i: int|
            0 <= i < c[p].0 && touches(keys, i, k) ==> owned_before(owner2, i, j) || (owner2[i] == j
                && s <= place2[i] < p)
    } by {
        let k = link_end_key(keys, c[p - 1]);
        assert forall|i: int| 0 <= i < c[p].0 && touches(keys, i, k) implies owned_before(
            owner2,
            i,
            j,
        ) || (owner2[i] == j && s <= place2[i] < p) by {
            assert(owned_before(owner, i, j) || (owner[i] == j && s <= place[i] < p));
            assert(owner2[i] == owner[i]);
        }
    }
    assert forall|p: int| 0 <= p < s implies {
        let k = link_start_key(keys, c[p + 1]);
        &&& touches(keys, (#[trigger] c[p]).0 as int, k)
        &&& c[p].1 == (keys[c[p].0 as int].0 == k)
        &&& forall|i: int|
            0 <= i < c[p].0 && touches(keys, i, k) ==> owned_before(owner2, i, j) || (owner2[i] == j
                && place2[i] > p)
    } by {
        let k = link_start_key(keys, c[p + 1]);
        assert forall|i: int| 0 <= i < c[p].0 && touches(keys, i, k) implies owned_before(
            owner2,
            i,
            j,
        ) || (owner2[i] == j && place2[i] > p) by {
            assert(owned_before(owner, i, j) || (owner[i] == j && place[i] > p));
            assert(owner2[i] == owner[i]);
        }
    }
    assert forall|i: int|
        0 <= i < n && touches(keys, i, link_end_key(keys, c[c.len() - 1])) implies owned_before(
        owner2,
        i,
        j,
    ) || (owner2[i] == j && place2[i] >= s) by {
        assert(owned_before(owner, i, j) || (owner[i] == j && place[i] >= s));
        assert(owner2[i] == owner[i]);
    }
    assert forall|i: int|
        0 <= i < n && touches(keys, i, link_start_key(keys, c[0])) implies owned_before(
        owner2,
        i,
        j + 1,
    ) by {
        assert(owned_before(owner, i, j + 1));
        assert(owner2[i] == owner[i]);
    }
}

proof fn lemma_new_chain(
    keys: Seq<(Key, Key)>,
    chains: Seq<Seq<Link>>,
    starts: Seq<int>,
    owner: Seq<int>,
    place: Seq<int>,
    used0: Seq<bool>,
    owner2: Seq<int>,
    off: Seq<int>,
    used: Seq<bool>,
    s: usize,
    fwd: Seq<Link>,
    bwd: Seq<Link>,
)
    requires
        outer_state(keys, chains, starts, owner, place, used0),
        forall|i: int| 0 <= i < s ==> used0[i],
        owner2.len() == keys.len(),
        off.len() == keys.len(),
        used.len() == keys.len(),
        forall|i: int|
            0 <= i < keys.len() ==> (#[trigger] owner2[i] == owner[i] && owner[i] >= 0) || (owner[i]
                < 0 && (owner2[i] == -1 || owner2[i] == chains.len())),
        forall|i: int| 0 <= i < keys.len() ==> (used[i] <==> #[trigger] owner2[i] >= 0),
        cur_consistent(keys.len() as int, s, fwd, bwd, owner2, off, chains.len() as int),
        fwd_ok(keys, s, fwd, owner2, off, chains.len() as int),
        bwd_ok(keys, s, bwd, owner2, off, chains.len() as int),
        forall|i: int|
            0 <= i < keys.len() && touches(keys, i, link_end_key(keys, prev_link(s, fwd, fwd.len() as int)))
                ==> owner2[i] >= 0 && (owner2[i] < chains.len() || off[i] >= 0),
        forall|i: int|
            0 <= i < keys.len() && touches(keys, i, link_start_key(keys, prev_link(s, bwd, bwd.len() as int)))
                ==> owner2[i] >= 0,
    ensures
        outer_state(
            keys,
            chains.push(chain_of(s, fwd, bwd)),
            starts.push(bwd.len() as int),
            owner2,
            place_of(owner2, off, place, chains.len() as int, bwd.len() as int),
            used,
        ),
{
    reveal(cur_consistent);
    let n = keys.len() as int;
    let j = chains.len() as int;
    let b = bwd.len() as int;
    let f = fwd.len() as int;
    let c = chain_of(s, fwd, bwd);
    let chains2 = chains.push(c);
    let starts2 = starts.push(b);
    let place2 = place_of(owner2, off, place, j, b);
    assert(c.len() == b + 1 + f);
    assert(c[b] == (s, false));
    // placement of owned segments
    assert forall|i: int| 0 <= i < n && #[trigger] owner2[i] >= 0 implies 0 <= place2[i]
        < chains2[owner2[i]].len() && chains2[owner2[i]][place2[i]].0 == i by {
        if owner2[i] == j {
            if i == s {
            } else if 1 <= off[i] <= f {
                assert(c[b + off[i]] == fwd[off[i] - 1]);
            } else {
                assert(c[b + off[i]] == bwd[-off[i] - 1]);
            }
        } else {
            assert(owner[i] >= 0);
        }
    }
    assert forall|jj: int, p: int| 0 <= jj < chains2.len() && 0 <= p < chains2[jj].len() implies {
        &&& 0 <= (#[trigger] chains2[jj][p]).0 < n
        &&& owner2[chains2[jj][p].0 as int] == jj
        &&& place2[chains2[jj][p].0 as int] == p
    } by {
        if jj < j {
            assert(chains2[jj] == chains[jj]);
            let i = chains[jj][p].0 as int;
            assert(owner[i] == jj);
        } else {
            if p < b {
                assert(c[p] == bwd[b - 1 - p]);
            } else if p == b {
            } else {
                assert(c[p] == fwd[p - b - 1]);
            }
        }
    }
    assert forall|i: int|
        0 <= i < n implies (used[i] <==> #[trigger] owner2[i] >= 0) && -1 <= owner2[i]
        < chains2.len() by {
        if owner[i] >= 0 {
            assert(owner[i] < j);
        }
    }
    // earlier chains keep their properties
    assert forall|jj: int| 0 <= jj < chains2.len() implies #[trigger] chain_ok(
        keys,
        chains2,
        starts2,
        owner2,
        place2,
        jj,
    ) by {
        if jj < j {
            assert(chain_ok(keys, chains, starts, owner, place, jj));
            assert forall|i: int| 0 <= i < keys.len() implies (#[trigger] owner2[i] == owner[i]
                && place2[i] == place[i]) || (owner[i] < 0 && (owner2[i] < 0 || owner2[i] > jj)) by {
                if owner[i] >= 0 {
                    assert(owner[i] < j);
                }
            }
            lemma_chain_ok_frame(
                keys,
                chains,
                starts,
                owner,
                place,
                chains2,
                starts2,
                owner2,
                place2,
                jj,
            );
        } else {
            lemma_new_chain_ok(keys, chains, starts, owner, place, used0, owner2, off, s, fwd, bwd);
        }
    }
}

proof fn lemma_new_chain_ok(
    keys: Seq<(Key, Key)>,
    chains: Seq<Seq<Link>>,
    starts: Seq<int>,
    owner: Seq<int>,
    place: Seq<int>,
    used0: Seq<bool>,
    owner2: Seq<int>,
    off: Seq<int>,
    s: usize,
    fwd: Seq<Link>,
    bwd: Seq<Link>,
)
    requires
        outer_state(keys, chains, starts, owner, place, used0),
        forall|i: int| 0 <= i < s ==> used0[i],
        owner2.len() == keys.len(),
        off.len() == keys.len(),
        forall|i: int|
            0 <= i < keys.len() ==> (#[trigger] owner2[i] == owner[i] && owner[i] >= 0) || (owner[i]
                < 0 && (owner2[i] == -1 || owner2[i] == chains.len())),
        cur_consistent(keys.len() as int, s, fwd, bwd, owner2, off, chains.len() as int),
        fwd_ok(keys, s, fwd, owner2, off, chains.len() as int),
        bwd_ok(keys, s, bwd, owner2, off, chains.len() as int),
        forall|i: int|
            0 <= i < keys.len() && touches(keys, i, link_end_key(keys, prev_link(s, fwd, fwd.len() as int)))
                ==> owner2[i] >= 0 && (owner2[i] < chains.len() || off[i] >= 0),
        forall|i: int|
            0 <= i < keys.len() && touches(keys, i, link_start_key(keys, prev_link(s, bwd, bwd.len() as int)))
                ==> owner2[i] >= 0,
    ensures
        chain_ok(
            keys,
            chains.push(chain_of(s, fwd, bwd)),
            starts.push(bwd.len() as int),
            owner2,
            place_of(owner2, off, place, chains.len() as int, bwd.len() as int),
            chains.len() as int,
        ),
{
    reveal(cur_consistent);
    reveal(fwd_ok);
    reveal(bwd_ok);
    let n = keys.len() as int;
    let j = chains.len() as int;
    let b = bwd.len() as int;
    let f = fwd.len() as int;
    let c = chain_of(s, fwd, bwd);
    let chains2 = chains.push(c);
    let starts2 = starts.push(b);
    let place2 = place_of(owner2, off, place, j, b);
    assert(chains2[j] == c);
    assert(starts2[j] == b);
    assert(c[b] == (s, false));
    assert forall|i: int| 0 <= i < c[b].0 implies owned_before(owner2, i, j) by {
        assert(used0[i]);
        assert(owner[i] >= 0);
    }
    assert forall|p: int| 0 <= p < c.len() - 1 implies link_end_key(keys, #[trigger] c[p])
        == link_start_key(keys, c[p + 1]) by {
        if p < b {
            let t = b - 1 - p;
            assert(c[p] == bwd[t]);
            assert(c[p + 1] == prev_link(s, bwd, t));
            assert(touches(keys, bwd[t].0 as int, link_start_key(keys, prev_link(s, bwd, t))));
        } else {
            let t = p - b;
            assert(c[p + 1] == fwd[t]);
            assert(c[p] == prev_link(s, fwd, t));
            assert(touches(keys, fwd[t].0 as int, link_end_key(keys, prev_link(s, fwd, t))));
        }
    }
    assert forall|p: int| b < p < c.len() implies {
        let k = link_end_key(keys, c[p - 1]);
        &&& touches(keys, (#[trigger] c[p]).0 as int, k)
        &&& c[p].1 == (keys[c[p].0 as int].0 != k)
        &&& forall|i: int|
            0 <= i < c[p].0 && touches(keys, i, k) ==> owned_before(owner2, i, j) || (owner2[i] == j
                && b <= place2[i] < p)
    } by {
        let t = p - b - 1;
        assert(c[p] == fwd[t]);
        assert(c[p - 1] == prev_link(s, fwd, t));
        let k = link_end_key(keys, c[p - 1]);
        assert(touches(keys, fwd[t].0 as int, k));
        assert forall|i: int| 0 <= i < c[p].0 && touches(keys, i, k) implies owned_before(
            owner2,
            i,
            j,
        ) || (owner2[i] == j && b <= place2[i] < p) by {
            assert(owned_before(owner2, i, j) || (owner2[i] == j && 0 <= off[i] <= t));
        }
    }
    assert forall|p: int| 0 <= p < b implies {
        let k = link_start_key(keys, c[p + 1]);
        &&& touches(keys, (#[trigger] c[p]).0 as int, k)
        &&& c[p].1 == (keys[c[p].0 as int].0 == k)
        &&& forall|i: int|
            0 <= i < c[p].0 && touches(keys, i, k) ==> owned_before(owner2, i, j) || (owner2[i] == j
                && place2[i] > p)
    } by {
        let t = b - 1 - p;
        assert(c[p] == bwd[t]);
        assert(c[p + 1] == prev_link(s, bwd, t));
        let k = link_start_key(keys, c[p + 1]);
        assert(touches(keys, bwd[t].0 as int, k));
        assert forall|i: int| 0 <= i < c[p].0 && touches(keys, i, k) implies owned_before(
            owner2,
            i,
            j,
        ) || (owner2[i] == j && place2[i] > p) by {
            assert(owned_before(owner2, i, j) || (owner2[i] == j && off[i] >= -t));
        }
    }
    assert(c[c.len() - 1] == prev_link(s, fwd, f));
    assert(c[0] == prev_link(s, bwd, b));
    assert forall|i: int|
        0 <= i < n && touches(keys, i, link_end_key(keys, c[c.len() - 1])) implies owned_before(
        owner2,
        i,
        j,
    ) || (owner2[i] == j && place2[i] >= b) by {
    }
    assert forall|i: int|
        0 <= i < n && touches(keys, i, link_start_key(keys, c[0])) implies owned_before(
        owner2,
        i,
        j + 1,
    ) by {
        if owner[i] >= 0 {
            assert(owner[i] < j);
        }
    }
}

/// `owner2` extends `owner` by giving unused segments to chain `j`, and the
/// used segments are exactly the owned ones.
#[verifier::opaque]
spec fn frame(n: int, owner: Seq<int>, owner2: Seq<int>, off: Seq<int>, j: int, used: Seq<bool>) -> bool {
    &&& owner.len() == n
    &&& owner2.len() == n
    &&& off.len() == n
    &&& used.len() == n
    &&& forall|i: int|
        0 <= i < n ==> (#[trigger] owner2[i] == owner[i] && owner[i] >= 0) || (owner[i] < 0 && (
        owner2[i] == -1 || owner2[i] == j))
    &&& forall|i: int| 0 <= i < n ==> (used[i] <==> #[trigger] owner2[i] >= 0)
    &&& forall|i: int| 0 <= i < n ==> #[trigger] owner[i] < j
}

proof fn lemma_frame_used(n: int, owner: Seq<int>, owner2: Seq<int>, off: Seq<int>, j: int, used: Seq<bool>, i: int)
    requires
        frame(n, owner, owner2, off, j, used),
        0 <= i < n,
    ensures
        used[i] <==> owner2[i] >= 0,
        owner2[i] >= 0 ==> owner2[i] == j || (owner2[i] == owner[i] && 0 <= owner[i] < j),
        owner2[i] < 0 ==> owner[i] < 0,
{
    reveal(frame);
}

proof fn lemma_cur_bounds(n: int, si: usize, fwd: Seq<Link>, bwd: Seq<Link>, owner2: Seq<int>, off: Seq<int>, j: int)
    requires
        cur_consistent(n, si, fwd, bwd, owner2, off, j),
    ensures
        si < n,
        owner2[si as int] == j,
        forall|t: int| 0 <= t < fwd.len() ==> (#[trigger] fwd[t]).0 < n,
        forall|t: int| 0 <= t < bwd.len() ==> (#[trigger] bwd[t]).0 < n,
{
    reveal(cur_consistent);
}

proof fn lemma_bwd_ok_empty(keys: Seq<(Key, Key)>, si: usize, owner2: Seq<int>, off: Seq<int>, j: int)
    ensures
        bwd_ok(keys, si, Seq::empty(), owner2, off, j),
{
    reveal(bwd_ok);
}

proof fn lemma_fwd_step_frame(
    n: int,
    owner: Seq<int>,
    owner2: Seq<int>,
    off: Seq<int>,
    j: int,
    used: Seq<bool>,
    ni: int,
    v: int,
)
    requires
        0 <= j,
        0 <= ni < n,
        frame(n, owner, owner2, off, j, used),
        !used[ni],
    ensures
        owner2[ni] < 0,
        frame(n, owner, owner2.update(ni, j), off.update(ni, v), j, used.update(ni, true)),
{
    reveal(frame);
    let owner3 = owner2.update(ni, j);
    assert forall|i: int| 0 <= i < n implies (#[trigger] owner3[i] == owner[i] && owner[i] >= 0) || (
    owner[i] < 0 && (owner3[i] == -1 || owner3[i] == j)) by {
        if i != ni {
            assert(owner2[i] == owner[i] && owner[i] >= 0 || owner[i] < 0 && (owner2[i] == -1
                || owner2[i] == j));
        }
    }
    assert forall|i: int| 0 <= i < n implies (used.update(ni, true)[i] <==> #[trigger] owner3[i]
        >= 0) by {
        if i != ni {
            assert(used[i] <==> owner2[i] >= 0);
        }
    }
}

proof fn lemma_cur_push_fwd(
    n: int,
    si: usize,
    fwd: Seq<Link>,
    owner2: Seq<int>,
    off: Seq<int>,
    j: int,
    ni: usize,
    flipped: bool,
)
    requires
        0 <= j,
        ni < n,
        owner2.len() == n,
        off.len() == n,
        owner2[ni as int] < 0,
        cur_consistent(n, si, fwd, Seq::empty(), owner2, off, j),
    ensures
        cur_consistent(
            n,
            si,
            fwd.push((ni, flipped)),
            Seq::empty(),
            owner2.update(ni as int, j),
            off.update(ni as int, fwd.len() as int + 1),
            j,
        ),
{
    reveal(cur_consistent);
    let fwd2 = fwd.push((ni, flipped));
    let owner3 = owner2.update(ni as int, j);
    let off3 = off.update(ni as int, fwd.len() as int + 1);
    assert forall|i: int| 0 <= i < n && #[trigger] owner3[i] == j implies (i == si && off3[i] == 0)
        || (1 <= off3[i] <= fwd2.len() && fwd2[off3[i] - 1].0 == i) || (1 <= -off3[i] <= Seq::<
        Link,
    >::empty().len() && Seq::<Link>::empty()[-off3[i] - 1].0 == i) by {
        if i != ni {
            assert(owner2[i] == j);
        }
    }
}

proof fn lemma_cur_push_bwd(
    n: int,
    si: usize,
    fwd: Seq<Link>,
    bwd: Seq<Link>,
    owner2: Seq<int>,
    off: Seq<int>,
    j: int,
    ni: usize,
    flipped: bool,
)
    requires
        0 <= j,
        ni < n,
        owner2.len() == n,
        off.len() == n,
        owner2[ni as int] < 0,
        cur_consistent(n, si, fwd, bwd, owner2, off, j),
    ensures
        cur_consistent(
            n,
            si,
            fwd,
            bwd.push((ni, flipped)),
            owner2.update(ni as int, j),
            off.update(ni as int, -(bwd.len() + 1)),
            j,
        ),
{
    reveal(cur_consistent);
    let bwd2 = bwd.push((ni, flipped));
    let owner3 = owner2.update(ni as int, j);
    let off3 = off.update(ni as int, -(bwd.len() + 1));
    assert forall|i: int| 0 <= i < n && #[trigger] owner3[i] == j implies (i == si && off3[i] == 0)
        || (1 <= off3[i] <= fwd.len() && fwd[off3[i] - 1].0 == i) || (1 <= -off3[i] <= bwd2.len()
        && bwd2[-off3[i] - 1].0 == i) by {
        if i != ni {
            assert(owner2[i] == j);
        }
    }
}

/// Chain `j`'s own segments at the moment of a forward step: `si` and the
/// forward links, at offsets `0..=t`.
proof fn lemma_owned_by_chain_fwd(
    n: int,
    si: usize,
    fwd: Seq<Link>,
    owner2: Seq<int>,
    off: Seq<int>,
    j: int,
    i: int,
)
    requires
        0 <= i < n,
        owner2[i] == j,
        cur_consistent(n, si, fwd, Seq::empty(), owner2, off, j),
    ensures
        0 <= off[i] <= fwd.len(),
{
    reveal(cur_consistent);
}

proof fn lemma_owned_by_chain_bwd(
    n: int,
    si: usize,
    fwd: Seq<Link>,
    bwd: Seq<Link>,
    owner2: Seq<int>,
    off: Seq<int>,
    j: int,
    i: int,
)
    requires
        0 <= i < n,
        owner2[i] == j,
        cur_consistent(n, si, fwd, bwd, owner2, off, j),
    ensures
        -bwd.len() <= off[i] <= fwd.len(),
{
    reveal(cur_consistent);
}

proof fn lemma_fwd_ok_push(
    keys: Seq<(Key, Key)>,
    si: usize,
    fwd: Seq<Link>,
    owner: Seq<int>,
    owner2: Seq<int>,
    off: Seq<int>,
    j: int,
    used: Seq<bool>,
    ni: usize,
    flipped: bool,
)
    requires
        0 <= j,
        frame(keys.len() as int, owner, owner2, off, j, used),
        owner2.len() == keys.len(),
        off.len() == keys.len(),
        used.len() == keys.len(),
        cur_consistent(keys.len() as int, si, fwd, Seq::empty(), owner2, off, j),
        fwd_ok(keys, si, fwd, owner2, off, j),
        ni < keys.len(),
        owner2[ni as int] < 0,
        touches(keys, ni as int, link_end_key(keys, prev_link(si, fwd, fwd.len() as int))),
        forall|i: int|
            0 <= i < ni && touches(keys, i, link_end_key(keys, prev_link(si, fwd, fwd.len() as int)))
                ==> used[i],
        flipped == (keys[ni as int].0 != link_end_key(keys, prev_link(si, fwd, fwd.len() as int))),
    ensures
        fwd_ok(
            keys,
            si,
            fwd.push((ni, flipped)),
            owner2.update(ni as int, j),
            off.update(ni as int, fwd.len() as int + 1),
            j,
        ),
{
    reveal(fwd_ok);
    let n = keys.len() as int;
    lemma_cur_bounds(n, si, fwd, Seq::empty(), owner2, off, j);
    let t = fwd.len() as int;
    let fwd2 = fwd.push((ni, flipped));
    let owner3 = owner2.update(ni as int, j);
    let off3 = off.update(ni as int, t + 1);
    assert forall|tt: int| 0 <= tt <= t implies prev_link(si, fwd2, tt) == prev_link(si, fwd, tt) by {}
    assert forall|tt: int| 0 <= tt < fwd2.len() implies {
        let kk = link_end_key(keys, prev_link(si, fwd2, tt));
        &&& touches(keys, (#[trigger] fwd2[tt]).0 as int, kk)
        &&& fwd2[tt].1 == (keys[fwd2[tt].0 as int].0 != kk)
        &&& forall|i: int|
            0 <= i < fwd2[tt].0 && touches(keys, i, kk) ==> owned_before(owner3, i, j) || (owner3[i]
                == j && 0 <= off3[i] <= tt)
    } by {
        let kk = link_end_key(keys, prev_link(si, fwd2, tt));
        if tt < t {
            assert(fwd2[tt] == fwd[tt]);
            assert forall|i: int| 0 <= i < fwd2[tt].0 && touches(keys, i, kk) implies owned_before(
                owner3,
                i,
                j,
            ) || (owner3[i] == j && 0 <= off3[i] <= tt) by {
                assert(touches(keys, i, link_end_key(keys, prev_link(si, fwd, tt))));
                assert(owned_before(owner2, i, j) || (owner2[i] == j && 0 <= off[i] <= tt));
                assert(i != ni);
                assert(owner3[i] == owner2[i]);
                assert(off3[i] == off[i]);
            }
        } else {
            assert(fwd2[tt] == (ni, flipped));
            assert forall|i: int| 0 <= i < fwd2[tt].0 && touches(keys, i, kk) implies owned_before(
                owner3,
                i,
                j,
            ) || (owner3[i] == j && 0 <= off3[i] <= tt) by {
                assert(touches(keys, i, link_end_key(keys, prev_link(si, fwd, t))));
                assert(used[i]);
                lemma_frame_used(n, owner, owner2, off, j, used, i);
                if owner2[i] == j {
                    lemma_owned_by_chain_fwd(n, si, fwd, owner2, off, j, i);
                }
                assert(owner3[i] == owner2[i]);
                assert(off3[i] == off[i]);
            }
        }
    }
}

proof fn lemma_fwd_ok_keep(
    keys: Seq<(Key, Key)>,
    si: usize,
    fwd: Seq<Link>,
    bwd: Seq<Link>,
    owner2: Seq<int>,
    off: Seq<int>,
    j: int,
    ni: usize,
    v: int,
)
    requires
        0 <= j,
        ni < keys.len(),
        owner2.len() == keys.len(),
        off.len() == keys.len(),
        owner2[ni as int] < 0,
        v < 0,
        cur_consistent(keys.len() as int, si, fwd, bwd, owner2, off, j),
        fwd_ok(keys, si, fwd, owner2, off, j),
    ensures
        fwd_ok(keys, si, fwd, owner2.update(ni as int, j), off.update(ni as int, v), j),
{
    reveal(fwd_ok);
    reveal(cur_consistent);
    let owner3 = owner2.update(ni as int, j);
    let off3 = off.update(ni as int, v);
    assert forall|tt: int| 0 <= tt < fwd.len() implies {
        let kk = link_end_key(keys, prev_link(si, fwd, tt));
        &&& touches(keys, (#[trigger] fwd[tt]).0 as int, kk)
        &&& fwd[tt].1 == (keys[fwd[tt].0 as int].0 != kk)
        &&& forall|i: int|
            0 <= i < fwd[tt].0 && touches(keys, i, kk) ==> owned_before(owner3, i, j) || (owner3[i]
                == j && 0 <= off3[i] <= tt)
    } by {
        let kk = link_end_key(keys, prev_link(si, fwd, tt));
        assert forall|i: int| 0 <= i < fwd[tt].0 && touches(keys, i, kk) implies owned_before(
            owner3,
            i,
            j,
        ) || (owner3[i] == j && 0 <= off3[i] <= tt) by {
            assert(owned_before(owner2, i, j) || (owner2[i] == j && 0 <= off[i] <= tt));
        }
    }
}

proof fn lemma_bwd_ok_push(
    keys: Seq<(Key, Key)>,
    si: usize,
    fwd: Seq<Link>,
    bwd: Seq<Link>,
    owner: Seq<int>,
    owner2: Seq<int>,
    off: Seq<int>,
    j: int,
    used: Seq<bool>,
    ni: usize,
    flipped: bool,
)
    requires
        0 <= j,
        frame(keys.len() as int, owner, owner2, off, j, used),
        owner2.len() == keys.len(),
        off.len() == keys.len(),
        used.len() == keys.len(),
        cur_consistent(keys.len() as int, si, fwd, bwd, owner2, off, j),
        bwd_ok(keys, si, bwd, owner2, off, j),
        ni < keys.len(),
        owner2[ni as int] < 0,
        touches(keys, ni as int, link_start_key(keys, prev_link(si, bwd, bwd.len() as int))),
        forall|i: int|
            0 <= i < ni && touches(keys, i, link_start_key(keys, prev_link(si, bwd, bwd.len() as int)))
                ==> used[i],
        flipped == (keys[ni as int].0 == link_start_key(keys, prev_link(si, bwd, bwd.len() as int))),
    ensures
        bwd_ok(
            keys,
            si,
            bwd.push((ni, flipped)),
            owner2.update(ni as int, j),
            off.update(ni as int, -(bwd.len() + 1)),
            j,
        ),
{
    reveal(bwd_ok);
    let n = keys.len() as int;
    lemma_cur_bounds(n, si, fwd, bwd, owner2, off, j);
    let t = bwd.len() as int;
    let bwd2 = bwd.push((ni, flipped));
    let owner3 = owner2.update(ni as int, j);
    let off3 = off.update(ni as int, -(t + 1));
    assert forall|tt: int| 0 <= tt <= t implies prev_link(si, bwd2, tt) == prev_link(si, bwd, tt) by {}
    assert forall|tt: int| 0 <= tt < bwd2.len() implies {
        let kk = link_start_key(keys, prev_link(si, bwd2, tt));
        &&& touches(keys, (#[trigger] bwd2[tt]).0 as int, kk)
        &&& bwd2[tt].1 == (keys[bwd2[tt].0 as int].0 == kk)
        &&& forall|i: int|
            0 <= i < bwd2[tt].0 && touches(keys, i, kk) ==> owned_before(owner3, i, j) || (owner3[i]
                == j && off3[i] >= -tt)
    } by {
        let kk = link_start_key(keys, prev_link(si, bwd2, tt));
        if tt < t {
            assert(bwd2[tt] == bwd[tt]);
            assert forall|i: int| 0 <= i < bwd2[tt].0 && touches(keys, i, kk) implies owned_before(
                owner3,
                i,
                j,
            ) || (owner3[i] == j && off3[i] >= -tt) by {
                assert(touches(keys, i, link_start_key(keys, prev_link(si, bwd, tt))));
                assert(owned_before(owner2, i, j) || (owner2[i] == j && off[i] >= -tt));
                assert(i != ni);
                assert(owner3[i] == owner2[i]);
                assert(off3[i] == off[i]);
            }
        } else {
            assert(bwd2[tt] == (ni, flipped));
            assert forall|i: int| 0 <= i < bwd2[tt].0 && touches(keys, i, kk) implies owned_before(
                owner3,
                i,
                j,
            ) || (owner3[i] == j && off3[i] >= -tt) by {
                assert(touches(keys, i, link_start_key(keys, prev_link(si, bwd, t))));
                assert(used[i]);
                lemma_frame_used(n, owner, owner2, off, j, used, i);
                if owner2[i] == j {
                    lemma_owned_by_chain_bwd(n, si, fwd, bwd, owner2, off, j, i);
                }
                assert(owner3[i] == owner2[i]);
                assert(off3[i] == off[i]);
            }
        }
    }
}

/// Leaving the forward loop: every segment at the tail is owned by an
/// earlier chain or by this one, at a non-negative offset.
proof fn lemma_fwd_exit(
    keys: Seq<(Key, Key)>,
    si: usize,
    fwd: Seq<Link>,
    owner: Seq<int>,
    owner2: Seq<int>,
    off: Seq<int>,
    j: int,
    used: Seq<bool>,
    k: Key,
)
    requires
        frame(keys.len() as int, owner, owner2, off, j, used),
        used.len() == keys.len(),
        owner2.len() == keys.len(),
        off.len() == keys.len(),
        cur_consistent(keys.len() as int, si, fwd, Seq::empty(), owner2, off, j),
        forall|i: int| 0 <= i < keys.len() && touches(keys, i, k) ==> used[i],
    ensures
        forall|i: int|
            0 <= i < keys.len() && touches(keys, i, k) ==> owner2[i] >= 0 && (owner2[i] < j || off[i]
                >= 0),
{
    assert forall|i: int| 0 <= i < keys.len() && touches(keys, i, k) implies owner2[i] >= 0 && (
    owner2[i] < j || off[i] >= 0) by {
        assert(used[i]);
        lemma_frame_used(keys.len() as int, owner, owner2, off, j, used, i);
        if owner2[i] == j {
            lemma_owned_by_chain_fwd(keys.len() as int, si, fwd, owner2, off, j, i);
        }
    }
}

proof fn lemma_bwd_exit(
    keys: Seq<(Key, Key)>,
    owner: Seq<int>,
    owner2: Seq<int>,
    off: Seq<int>,
    j: int,
    used: Seq<bool>,
    k: Key,
)
    requires
        frame(keys.len() as int, owner, owner2, off, j, used),
        used.len() == keys.len(),
        forall|i: int| 0 <= i < keys.len() && touches(keys, i, k) ==> used[i],
    ensures
        forall|i: int| 0 <= i < keys.len() && touches(keys, i, k) ==> owner2[i] >= 0,
{
    reveal(frame);
}

/// A backward step keeps the segments at the forward tail as they were.
proof fn lemma_tail_keep(
    keys: Seq<(Key, Key)>,
    owner2: Seq<int>,
    off: Seq<int>,
    j: int,
    ni: usize,
    v: int,
    k: Key,
)
    requires
        ni < keys.len(),
        owner2.len() == keys.len(),
        off.len() == keys.len(),
        owner2[ni as int] < 0,
        forall|i: int|
            0 <= i < keys.len() && touches(keys, i, k) ==> owner2[i] >= 0 && (owner2[i] < j || off[i]
                >= 0),
    ensures
        forall|i: int|
            0 <= i < keys.len() && touches(keys, i, k) ==> owner2.update(ni as int, j)[i] >= 0 && (
            owner2.update(ni as int, j)[i] < j || off.update(ni as int, v)[i] >= 0),
{
    assert forall|i: int| 0 <= i < keys.len() && touches(keys, i, k) implies owner2.update(
        ni as int,
        j,
    )[i] >= 0 && (owner2.update(ni as int, j)[i] < j || off.update(ni as int, v)[i] >= 0) by {
        assert(owner2[i] >= 0);
    }
}

proof fn lemma_chain_init(n: int, owner: Seq<int>, used: Seq<bool>, si: usize, j: int, keys: Seq<(Key, Key)>)
    requires
        0 <= j,
        si < n,
        owner.len() == n,
        used.len() == n,
        owner[si as int] < 0,
        forall|i: int| 0 <= i < n ==> (used[i] <==> #[trigger] owner[i] >= 0),
        forall|i: int| 0 <= i < n ==> -1 <= #[trigger] owner[i] < j,
    ensures
        frame(
            n,
            owner,
            owner.update(si as int, j),
            Seq::new(n as nat, |i: int| 0),
            j,
            used.update(si as int, true),
        ),
        cur_consistent(
            n,
            si,
            Seq::empty(),
            Seq::empty(),
            owner.update(si as int, j),
            Seq::new(n as nat, |i: int| 0),
            j,
        ),
        fwd_ok(
            keys,
            si,
            Seq::empty(),
            owner.update(si as int, j),
            Seq::new(n as nat, |i: int| 0),
            j,
        ),
        bwd_ok(
            keys,
            si,
            Seq::empty(),
            owner.update(si as int, j),
            Seq::new(n as nat, |i: int| 0),
            j,
        ),
{
    reveal(frame);
    reveal(cur_consistent);
    reveal(fwd_ok);
    reveal(bwd_ok);
    let owner2 = owner.update(si as int, j);
    assert forall|i: int| 0 <= i < n implies (used.update(si as int, true)[i] <==> #[trigger] owner2[i]
        >= 0) by {
        if i != si {
            assert(used[i] <==> owner[i] >= 0);
        }
    }
    assert forall|i: int| 0 <= i < n && #[trigger] owner2[i] == j implies i == si by {
        if i != si {
            assert(owner[i] >= 0 || owner[i] < 0);
        }
    }
}

/// Extend chain `j` forward from the tail of segment `si`.
fn extend_forward(
    keys: &[(Key, Key)],
    adj: &HashMap<i128, Vec<usize>>,
    used: &mut Vec<bool>,
    si: usize,
    Ghost(owner): Ghost<Seq<int>>,
    Ghost(j): Ghost<int>,
    Ghost(owner_in): Ghost<Seq<int>>,
    Ghost(off_in): Ghost<Seq<int>>,
) -> (out: (Vec<Link>, Ghost<Seq<int>>, Ghost<Seq<int>>))
    requires
        0 <= j,
        adjacency_ok(adj@, keys@),
        si < keys@.len(),
        frame(keys@.len() as int, owner, owner_in, off_in, j, old(used)@),
        old(used)@.len() == keys@.len(),
        owner_in.len() == keys@.len(),
        off_in.len() == keys@.len(),
        cur_consistent(keys@.len() as int, si, Seq::empty(), Seq::empty(), owner_in, off_in, j),
        fwd_ok(keys@, si, Seq::empty(), owner_in, off_in, j),
    ensures
        final(used)@.len() == keys@.len(),
        out.1@.len() == keys@.len(),
        out.2@.len() == keys@.len(),
        frame(keys@.len() as int, owner, out.1@, out.2@, j, final(used)@),
        cur_consistent(keys@.len() as int, si, out.0@, Seq::empty(), out.1@, out.2@, j),
        fwd_ok(keys@, si, out.0@, out.1@, out.2@, j),
        forall|i: int|
            0 <= i < keys@.len() && touches(
                keys@,
                i,
                link_end_key(keys@, prev_link(si, out.0@, out.0@.len() as int)),
            ) ==> out.1@[i] >= 0 && (out.1@[i] < j || out.2@[i] >= 0),
{
    let n = keys.len();
    let ghost mut owner2 = owner_in;
    let ghost mut off = off_in;
    let mut fwd: Vec<Link> = Vec::new();
    let mut tail: Key = keys[si].1;
    let mut more = true;
    while more
        invariant
            0 <= j,
            n == keys@.len(),
            adjacency_ok(adj@, keys@),
            si < n,
            frame(n as int, owner, owner2, off, j, used@),
            used@.len() == n,
            owner2.len() == n,
            off.len() == n,
            cur_consistent(n as int, si, fwd@, Seq::empty(), owner2, off, j),
            fwd_ok(keys@, si, fwd@, owner2, off, j),
            tail == link_end_key(keys@, prev_link(si, fwd@, fwd@.len() as int)),
            !more ==> forall|i: int|
                0 <= i < n && touches(keys@, i, tail) ==> owner2[i] >= 0 && (owner2[i] < j
                    || off[i] >= 0),
        decreases count_false(used@) + if more {
            1int
        } else {
            0int
        },
    {
        match next_unused(adj, used, keys, tail) {
            None => {
                more = false;
                proof {
                    lemma_fwd_exit(keys@, si, fwd@, owner, owner2, off, j, used@, tail);
                }
            },
            Some(ni) => {
                let flipped = !(keys[ni].0 == tail);
                let ghost t = fwd@.len() as int;
                proof {
                    lemma_count_set(used@, ni as int);
                    lemma_fwd_step_frame(n as int, owner, owner2, off, j, used@, ni as int, t + 1);
                    lemma_cur_push_fwd(n as int, si, fwd@, owner2, off, j, ni, flipped);
                    lemma_fwd_ok_push(keys@, si, fwd@, owner, owner2, off, j, used@, ni, flipped);
                    assert(prev_link(si, fwd@.push((ni, flipped)), t + 1) == (ni, flipped));
                }
                used.set(ni, true);
                proof {
                    owner2 = owner2.update(ni as int, j);
                    off = off.update(ni as int, t + 1);
                }
                tail = if flipped {
                    keys[ni].0
                } else {
                    keys[ni].1
                };
                fwd.push((ni, flipped));
            },
        }
    }
    (fwd, Ghost(owner2), Ghost(off))
}

/// Extend chain `j` backward from the head of segment `si`.
fn extend_backward(
    keys: &[(Key, Key)],
    adj: &HashMap<i128, Vec<usize>>,
    used: &mut Vec<bool>,
    si: usize,
    Ghost(fwd): Ghost<Seq<Link>>,
    Ghost(owner): Ghost<Seq<int>>,
    Ghost(j): Ghost<int>,
    Ghost(owner_in): Ghost<Seq<int>>,
    Ghost(off_in): Ghost<Seq<int>>,
) -> (out: (Vec<Link>, Ghost<Seq<int>>, Ghost<Seq<int>>))
    requires
        0 <= j,
        adjacency_ok(adj@, keys@),
        si < keys@.len(),
        frame(keys@.len() as int, owner, owner_in, off_in, j, old(used)@),
        old(used)@.len() == keys@.len(),
        owner_in.len() == keys@.len(),
        off_in.len() == keys@.len(),
        cur_consistent(keys@.len() as int, si, fwd, Seq::empty(), owner_in, off_in, j),
        fwd_ok(keys@, si, fwd, owner_in, off_in, j),
        bwd_ok(keys@, si, Seq::empty(), owner_in, off_in, j),
        forall|i: int|
            0 <= i < keys@.len() && touches(keys@, i, link_end_key(keys@, prev_link(si, fwd, fwd.len() as int)))
                ==> owner_in[i] >= 0 && (owner_in[i] < j || off_in[i] >= 0),
    ensures
        frame(keys@.len() as int, owner, out.1@, out.2@, j, final(used)@),
        final(used)@.len() == keys@.len(),
        out.1@.len() == keys@.len(),
        out.2@.len() == keys@.len(),
        cur_consistent(keys@.len() as int, si, fwd, out.0@, out.1@, out.2@, j),
        fwd_ok(keys@, si, fwd, out.1@, out.2@, j),
        bwd_ok(keys@, si, out.0@, out.1@, out.2@, j),
        forall|i: int|
            0 <= i < keys@.len() && touches(keys@, i, link_end_key(keys@, prev_link(si, fwd, fwd.len() as int)))
                ==> out.1@[i] >= 0 && (out.1@[i] < j || out.2@[i] >= 0),
        forall|i: int|
            0 <= i < keys@.len() && touches(
                keys@,
                i,
                link_start_key(keys@, prev_link(si, out.0@, out.0@.len() as int)),
            ) ==> out.1@[i] >= 0,
{
    let n = keys.len();
    let ghost mut owner2 = owner_in;
    let ghost mut off = off_in;
    let ghost fwd_tail = link_end_key(keys@, prev_link(si, fwd, fwd.len() as int));
    let mut bwd: Vec<Link> = Vec::new();
    let mut head: Key = keys[si].0;
    let mut more = true;
    while more
        invariant
            0 <= j,
            n == keys@.len(),
            adjacency_ok(adj@, keys@),
            si < n,
            frame(n as int, owner, owner2, off, j, used@),
            used@.len() == n,
            owner2.len() == n,
            off.len() == n,
            cur_consistent(n as int, si, fwd, bwd@, owner2, off, j),
            fwd_ok(keys@, si, fwd, owner2, off, j),
            bwd_ok(keys@, si, bwd@, owner2, off, j),
            fwd_tail == link_end_key(keys@, prev_link(si, fwd, fwd.len() as int)),
            forall|i: int|
                0 <= i < n && touches(keys@, i, fwd_tail) ==> owner2[i] >= 0 && (owner2[i] < j
                    || off[i] >= 0),
            head == link_start_key(keys@, prev_link(si, bwd@, bwd@.len() as int)),
            !more ==> forall|i: int| 0 <= i < n && touches(keys@, i, head) ==> owner2[i] >= 0,
        decreases count_false(used@) + if more {
            1int
        } else {
            0int
        },
    {
        match next_unused(adj, used, keys, head) {
            None => {
                more = false;
                proof {
                    lemma_bwd_exit(keys@, owner, owner2, off, j, used@, head);
                }
            },
            Some(ni) => {
                let flipped = keys[ni].0 == head;
                let ghost t = bwd@.len() as int;
                proof {
                    lemma_count_set(used@, ni as int);
                    lemma_fwd_step_frame(n as int, owner, owner2, off, j, used@, ni as int, -(t + 1));
                    lemma_cur_push_bwd(n as int, si, fwd, bwd@, owner2, off, j, ni, flipped);
                    lemma_fwd_ok_keep(keys@, si, fwd, bwd@, owner2, off, j, ni, -(t + 1));
                    lemma_bwd_ok_push(keys@, si, fwd, bwd@, owner, owner2, off, j, used@, ni, flipped);
                    lemma_tail_keep(keys@, owner2, off, j, ni, -(t + 1), fwd_tail);
                    assert(prev_link(si, bwd@.push((ni, flipped)), t + 1) == (ni, flipped));
                }
                used.set(ni, true);
                proof {
                    owner2 = owner2.update(ni as int, j);
                    off = off.update(ni as int, -(t + 1));
                }
                head = if flipped {
                    keys[ni].1
                } else {
                    keys[ni].0
                };
                bwd.push((ni, flipped));
            },
        }
    }
    (bwd, Ghost(owner2), Ghost(off))
}

/// The points of the chain made of `bwd` (reversed), segment `si` and `fwd`.
fn lay_out<P: Copy>(segments: &[(P, P)], si: usize, fwd: &Vec<Link>, bwd: &Vec<Link>) -> (poly: Vec<P>)
    requires
        si < segments@.len(),
        forall|q: int| 0 <= q < fwd@.len() ==> (#[trigger] fwd@[q]).0 < segments@.len(),
        forall|q: int| 0 <= q < bwd@.len() ==> (#[trigger] bwd@[q]).0 < segments@.len(),
    ensures
        poly@ == polyline(segments@, chain_of(si, fwd@, bwd@), bwd@.len() as int),
{
    let ghost b = bwd@.len() as int;
    let ghost c = chain_of(si, fwd@, bwd@);
    let mut poly: Vec<P> = Vec::new();
    let mut t: usize = bwd.len();
    while t > 0
        invariant
            t <= bwd@.len(),
            b == bwd@.len(),
            c == chain_of(si, fwd@, bwd@),
            forall|q: int| 0 <= q < bwd@.len() ==> (#[trigger] bwd@[q]).0 < segments@.len(),
            poly@.len() == b - t,
            forall|q: int| 0 <= q < b - t ==> #[trigger] poly@[q] == link_start(segments@, c[q]),
        decreases t,
    {
        t = t - 1;
        let (ni, flipped) = bwd[t];
        let pt = if flipped {
            segments[ni].1
        } else {
            segments[ni].0
        };
        poly.push(pt);
        proof {
            assert(c[b - 1 - t] == bwd@[t as int]);
        }
    }
    poly.push(segments[si].0);
    poly.push(segments[si].1);
    let mut u: usize = 0;
    while u < fwd.len()
        invariant
            u <= fwd@.len(),
            b == bwd@.len(),
            c == chain_of(si, fwd@, bwd@),
            si < segments@.len(),
            forall|q: int| 0 <= q < fwd@.len() ==> (#[trigger] fwd@[q]).0 < segments@.len(),
            poly@.len() == b + 2 + u,
            forall|q: int| 0 <= q < b ==> #[trigger] poly@[q] == link_start(segments@, c[q]),
            poly@[b] == segments@[si as int].0,
            forall|q: int| b < q < b + 2 + u ==> #[trigger] poly@[q] == link_end(segments@, c[q - 1]),
        decreases fwd@.len() - u,
    {
        let (ni, flipped) = fwd[u];
        let pt = if flipped {
            segments[ni].0
        } else {
            segments[ni].1
        };
        poly.push(pt);
        proof {
            assert(c[b + 1 + u] == fwd@[u as int]);
        }
        u = u + 1;
    }
    proof {
        assert(poly@ =~= polyline(segments@, c, b));
    }
    poly
}

/// Grow the polyline that starts at segment `si`, the lowest unused one:
/// forward from its tail, then backward from its head.
fn grow_chain<P: Copy>(
    segments: &[(P, P)],
    keys: &[(Key, Key)],
    adj: &HashMap<i128, Vec<usize>>,
    used: &mut Vec<bool>,
    si: usize,
    Ghost(chains): Ghost<Seq<Seq<Link>>>,
    Ghost(starts): Ghost<Seq<int>>,
    Ghost(owner): Ghost<Seq<int>>,
    Ghost(place): Ghost<Seq<int>>,
) -> (out: (Vec<P>, Ghost<Seq<Link>>, Ghost<int>, Ghost<Seq<int>>, Ghost<Seq<int>>))
    requires
        keys@.len() == segments@.len(),
        adjacency_ok(adj@, keys@),
        si < keys@.len(),
        outer_state(keys@, chains, starts, owner, place, old(used)@),
        !old(used)@[si as int],
        forall|i: int| 0 <= i < si ==> old(used)@[i],
    ensures
        outer_state(
            keys@,
            chains.push(out.1@),
            starts.push(out.2@),
            out.3@,
            out.4@,
            final(used)@,
        ),
        out.0@ == polyline(segments@, out.1@, out.2@),
        forall|i: int| 0 <= i <= si ==> final(used)@[i],
{
    let n = keys.len();
    let ghost used0 = used@;
    let ghost j = chains.len() as int;
    let ghost owner1 = owner.update(si as int, j);
    let ghost off1: Seq<int> = Seq::new(n as nat, |i: int| 0);
    proof {
        lemma_chain_init(n as int, owner, used@, si, j, keys@);
    }
    used.set(si, true);
    let (fwd, Ghost(owner2), Ghost(off2)) = extend_forward(
        keys,
        adj,
        used,
        si,
        Ghost(owner),
        Ghost(j),
        Ghost(owner1),
        Ghost(off1),
    );
    proof {
        lemma_bwd_ok_empty(keys@, si, owner2, off2, j);
    }
    let (bwd, Ghost(owner3), Ghost(off3)) = extend_backward(
        keys,
        adj,
        used,
        si,
        Ghost(fwd@),
        Ghost(owner),
        Ghost(j),
        Ghost(owner2),
        Ghost(off2),
    );
    proof {
        lemma_cur_bounds(n as int, si, fwd@, bwd@, owner3, off3, j);
        reveal(frame);
    }
    let poly = lay_out(segments, si, &fwd, &bwd);
    let ghost b = bwd@.len() as int;
    let ghost c = chain_of(si, fwd@, bwd@);
    proof {
        lemma_new_chain(
            keys@,
            chains,
            starts,
            owner,
            place,
            used0,
            owner3,
            off3,
            used@,
            si,
            fwd@,
            bwd@,
        );
        assert forall|i: int| 0 <= i <= si implies used@[i] by {
            if i < si {
                assert(used0[i]);
                assert(owner[i] >= 0);
                assert(owner3[i] >= 0);
            } else {
                assert(owner3[i] == j);
            }
        }
    }
    (poly, Ghost(c), Ghost(b), Ghost(owner3), Ghost(place_of(owner3, off3, place, j, b)))
}

proof fn lemma_outer_done(
    keys: Seq<(Key, Key)>,
    chains: Seq<Seq<Link>>,
    starts: Seq<int>,
    owner: Seq<int>,
    place: Seq<int>,
    used: Seq<bool>,
)
    requires
        outer_state(keys, chains, starts, owner, place, used),
        forall|i: int| 0 <= i < keys.len() ==> used[i],
    ensures
        valid_chaining(keys, chains, starts, owner, place),
{
    assert forall|i: int| 0 <= i < keys.len() implies {
        &&& 0 <= #[trigger] owner[i] < chains.len()
        &&& 0 <= place[i] < chains[owner[i]].len()
        &&& chains[owner[i]][place[i]].0 == i
    } by {
        assert(used[i]);
    }
}

/// Stitch a set of unordered segments into connected polylines.
///
/// `keys[i]` holds the quantised keys of the two ends of `segments[i]`.
/// Every segment is used exactly once; consecutive segments of a polyline
/// share a key at their joint, and a polyline ends only where no segment
/// outside the earlier polylines touches its end.
pub fn chain_segments<P: Copy>(segments: &[(P, P)], keys: &[(Key, Key)]) -> (result: Vec<Vec<P>>)
    requires
        keys@.len() == segments@.len(),
    ensures
        exists|chains: Seq<Seq<Link>>, starts: Seq<int>, owner: Seq<int>, place: Seq<int>|
            {
                &&& valid_chaining(keys@, chains, starts, owner, place)
                &&& result@.len() == chains.len()
                &&& forall|j: int|
                    0 <= j < chains.len() ==> (#[trigger] result@[j])@ == polyline(
                        segments@,
                        chains[j],
                        starts[j],
                    )
            },
{
    let n = segments.len();
    let adj = build_adjacency(keys);
    let mut used: Vec<bool> = Vec::new();
    let mut k: usize = 0;
    while k < n
        invariant
            k <= n,
            used@.len() == k,
            forall|i: int| 0 <= i < k ==> !used@[i],
        decreases n - k,
    {
        used.push(false);
        k = k + 1;
    }
    let mut result: Vec<Vec<P>> = Vec::new();
    let ghost mut chains: Seq<Seq<Link>> = Seq::empty();
    let ghost mut starts: Seq<int> = Seq::empty();
    let ghost mut owner: Seq<int> = Seq::new(n as nat, |i: int| -1);
    let ghost mut place: Seq<int> = Seq::new(n as nat, |i: int| 0);
    let mut si: usize = 0;
    while si < n
        invariant
            n == keys@.len(),
            n == segments@.len(),
            used@.len() == n,
            adjacency_ok(adj@, keys@),
            si <= n,
            outer_state(keys@, chains, starts, owner, place, used@),
            forall|i: int| 0 <= i < si ==> used@[i],
            result@.len() == chains.len(),
            forall|j: int|
                0 <= j < chains.len() ==> (#[trigger] result@[j])@ == polyline(
                    segments@,
                    chains[j],
                    starts[j],
                ),
        decreases n - si,
    {
        if !used[si] {
            let (poly, Ghost(c), Ghost(b), Ghost(owner2), Ghost(place2)) = grow_chain(
                segments,
                keys,
                &adj,
                &mut used,
                si,
                Ghost(chains),
                Ghost(starts),
                Ghost(owner),
                Ghost(place),
            );
            proof {
                owner = owner2;
                place = place2;
                chains = chains.push(c);
                starts = starts.push(b);
            }
            result.push(poly);
        }
        si = si + 1;
    }
    proof {
        lemma_outer_done(keys@, chains, starts, owner, place, used@);
    }
    result
}

} // verus!
