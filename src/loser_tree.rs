//! The tournament ("loser") tree over 256 lanes that the wide merge sort
//! merges through.
//!
//! Node `n` of the tree, for `1 <= n < 256`, has children `2n` and `2n + 1`;
//! node `256 + r` is the leaf of lane `r`. Each internal node records the lane
//! that lost the match played there; entry 0 records the overall winner. The
//! proofs follow a ghost array of the winner of every subtree.
use vstd::prelude::*;

verus! {

/// Number of lanes merged at once.
pub const LANES: usize = 256;

/// `n` lies on the path from `x` up to the root, at or above `x`.
pub open spec fn anc(x: int, n: int) -> bool
    decreases x,
{
    if x <= n || x < 1 {
        x == n
    } else {
        anc(x / 2, n)
    }
}

/// The match at node `n` was played between the winners of its two children,
/// the recorded loser is the other one, and the winner's key is no larger.
pub open spec fn node_ok(keys: Seq<u128>, lt: Seq<u8>, w: Seq<u8>, n: int) -> bool {
    &&& ((w[n] == w[2 * n] && lt[n] == w[2 * n + 1]) || (w[n] == w[2 * n + 1] && lt[n] == w[2 * n]))
    &&& keys[w[n] as int] <= keys[lt[n] as int]
}

/// `w` names a winner for every node of a well-played tournament over `keys`,
/// and `lt` records its losers.
pub open spec fn tree_valid(keys: Seq<u128>, lt: Seq<u8>, w: Seq<u8>) -> bool {
    &&& keys.len() == 256
    &&& lt.len() == 256
    &&& w.len() == 512
    &&& forall|r: int| 0 <= r < 256 ==> #[trigger] w[256 + r] == r
    &&& forall|n: int| 1 <= n < 256 ==> #[trigger] node_ok(keys, lt, w, n)
    &&& forall|n: int| 1 <= n < 512 ==> anc(256 + #[trigger] w[n], n)
}

pub proof fn lemma_anc_self(x: int)
    ensures
        anc(x, x),
{
    reveal_with_fuel(anc, 2);
}

pub proof fn lemma_anc_below(x: int, n: int)
    requires
        anc(x, n),
        1 <= n,
    ensures
        x >= n,
    decreases x,
{
    if x > n {
    } else if x < n {
        if x >= 1 {
            lemma_anc_below(x / 2, n);
        }
    }
}

/// A node's ancestors include its parent's.
pub proof fn lemma_anc_parent(x: int, c: int)
    requires
        anc(x, c),
        2 <= c,
    ensures
        anc(x, c / 2),
    decreases x,
{
    lemma_anc_below(x, c);
    if x == c {
        assert(anc(c / 2, c / 2)) by {
            lemma_anc_self(c / 2);
        }
    } else {
        lemma_anc_parent(x / 2, c);
    }
}

/// Every node in `[1, 512)` lies below the root.
pub proof fn lemma_anc_root(x: int)
    requires
        1 <= x,
    ensures
        anc(x, 1),
    decreases x,
{
    if x > 1 {
        lemma_anc_root(x / 2);
    }
}

/// Two nodes above `x` are one above the other.
pub proof fn lemma_anc_order(x: int, a: int, b: int)
    requires
        anc(x, a),
        anc(x, b),
        1 <= a < b,
    ensures
        anc(b, a),
    decreases x,
{
    lemma_anc_below(x, b);
    if x != b {
        lemma_anc_order(x / 2, a, b);
    }
}

/// Two children of one node are not both above `x`.
pub proof fn lemma_anc_siblings(x: int, a: int, b: int)
    requires
        anc(x, a),
        anc(x, b),
        2 <= a,
        2 <= b,
        a / 2 == b / 2,
    ensures
        a == b,
{
    if a < b {
        lemma_anc_order(x, a, b);
        lemma_anc_below(b / 2, a);
    } else if b < a {
        lemma_anc_order(x, b, a);
        lemma_anc_below(a / 2, b);
    }
}

/// Above `x`, a node other than `x` has a child above `x`.
pub proof fn lemma_anc_child(x: int, n: int)
    requires
        anc(x, n),
        1 <= n < x,
    ensures
        anc(x, 2 * n) || anc(x, 2 * n + 1),
    decreases x,
{
    if x / 2 == n {
        lemma_anc_self(x);
    } else {
        lemma_anc_below(x / 2, n);
        lemma_anc_child(x / 2, n);
    }
}

/// The winner of a subtree has the least key of every node below it.
pub proof fn lemma_winner_least(keys: Seq<u128>, lt: Seq<u8>, w: Seq<u8>, n: int, x: int)
    requires
        tree_valid(keys, lt, w),
        1 <= n,
        n <= x < 512,
        anc(x, n),
    ensures
        keys[w[n] as int] <= keys[w[x] as int],
    decreases x,
{
    if x > n {
        lemma_anc_below(x / 2, n);
        lemma_winner_least(keys, lt, w, n, x / 2);
        assert(node_ok(keys, lt, w, x / 2));
    }
}

/// The overall winner's key is the least of all lanes' keys.
pub proof fn lemma_root_least(keys: Seq<u128>, lt: Seq<u8>, w: Seq<u8>, r: int)
    requires
        tree_valid(keys, lt, w),
        0 <= r < 256,
    ensures
        keys[w[1] as int] <= keys[r],
{
    lemma_anc_root(256 + r);
    lemma_winner_least(keys, lt, w, 1, 256 + r);
}

/// On the path from the overall winner's leaf to the root, every node's
/// winner is that lane, and its recorded loser is the winner of the child off
/// the path.
pub proof fn lemma_path(keys: Seq<u128>, lt: Seq<u8>, w: Seq<u8>, m: int)
    requires
        tree_valid(keys, lt, w),
        1 <= m < 256,
        anc(256 + w[1], m),
    ensures
        w[m] == w[1],
        anc(256 + w[1], 2 * m) ==> lt[m] == w[2 * m + 1],
        anc(256 + w[1], 2 * m + 1) ==> lt[m] == w[2 * m],
    decreases m,
{
    let x = 256 + w[1] as int;
    if m > 1 {
        lemma_anc_parent(x, m);
        lemma_path(keys, lt, w, m / 2);
        let p = m / 2;
        assert(node_ok(keys, lt, w, p));
        let sib = if m == 2 * p { 2 * p + 1 } else { 2 * p };
        if w[sib] == w[1] {
            assert(anc(256 + w[sib], sib));
            lemma_anc_siblings(x, m, sib);
        }
    }
    assert(node_ok(keys, lt, w, m));
    if anc(x, 2 * m) {
        assert(anc(256 + w[2 * m + 1], 2 * m + 1));
        if w[2 * m + 1] == w[1] {
            lemma_anc_siblings(x, 2 * m, 2 * m + 1);
        }
    }
    if anc(x, 2 * m + 1) {
        assert(anc(256 + w[2 * m], 2 * m));
        if w[2 * m] == w[1] {
            lemma_anc_siblings(x, 2 * m, 2 * m + 1);
        }
    }
}

/// Ancestry passes along a path.
pub proof fn lemma_anc_trans(x: int, y: int, z: int)
    requires
        anc(x, y),
        anc(y, z),
        1 <= z,
    ensures
        anc(x, z),
    decreases x,
{
    lemma_anc_below(y, z);
    lemma_anc_below(x, y);
    if x != y {
        lemma_anc_trans(x / 2, y, z);
    }
}

/// Plays the whole tournament over the lanes' keys, leaves upwards. Returns
/// the loser table, whose entry 0 is the overall winner, and the winner of
/// every node.
pub fn build_loser_table(keys: &Vec<u128>) -> (r: (Vec<u8>, Vec<u8>))
    requires
        keys.len() == LANES,
    ensures
        tree_valid(keys@, r.0@, r.1@),
        r.0@[0] == r.1@[1],
{
    let mut winners: Vec<u8> = Vec::with_capacity(2 * LANES);
    let mut i: usize = 0;
    while i < 2 * LANES
        invariant
            i <= 2 * LANES,
            winners.len() == i,
            forall|k: int| 0 <= k < i ==> #[trigger] winners[k] == k % 256,
        decreases 2 * LANES - i,
    {
        winners.push((i % LANES) as u8);
        i += 1;
    }
    let mut lt: Vec<u8> = Vec::with_capacity(LANES);
    let mut i: usize = 0;
    while i < LANES
        invariant
            i <= LANES,
            lt.len() == i,
        decreases LANES - i,
    {
        lt.push(0u8);
        i += 1;
    }
    proof {
        assert forall|n: int| 256 <= n < 512 implies anc(256 + #[trigger] winners[n], n) by {
            assert(winners[n] == n - 256);
            lemma_anc_self(n);
        }
    }
    let mut i: usize = LANES - 1;
    while i > 0
        invariant
            i < LANES,
            keys.len() == LANES,
            winners.len() == 2 * LANES,
            lt.len() == LANES,
            forall|r: int| 0 <= r < 256 ==> #[trigger] winners[256 + r] == r,
            forall|n: int| i < n < 256 ==> #[trigger] node_ok(keys@, lt@, winners@, n),
            forall|n: int| i < n < 512 ==> anc(256 + #[trigger] winners[n], n),
        decreases i,
    {
        let left = 2 * i;
        let right = left + 1;
        let win = if keys[winners[left] as usize] < keys[winners[right] as usize] {
            left
        } else {
            right
        };
        let lose = win ^ 1;
        proof {
            assert(lose == if win == left { right } else { left }) by (bit_vector)
                requires
                    left == 2 * i,
                    right == left + 1,
                    win == left || win == right,
                    lose == win ^ 1,
                    i < 256,
            ;
        }
        let ghost old_winners = winners@;
        let ghost old_lt = lt@;
        let wv = winners[win];
        winners[i] = wv;
        let lv = winners[lose];
        lt[i] = lv;
        proof {
            assert(node_ok(keys@, lt@, winners@, i as int));
            assert(anc(256 + old_winners[win as int], win as int));
            lemma_anc_parent(256 + old_winners[win as int], win as int);
            assert forall|n: int| i < n < 256 implies #[trigger] node_ok(keys@, lt@, winners@, n) by {
                assert(node_ok(keys@, old_lt, old_winners, n));
            }
        }
        i -= 1;
    }
    let first = winners[1];
    let ghost before = lt@;
    lt[0] = first;
    proof {
        assert forall|n: int| 1 <= n < 256 implies #[trigger] node_ok(keys@, lt@, winners@, n) by {
            assert(node_ok(keys@, before, winners@, n));
        }
    }
    (lt, winners)
}

/// After the key of the overall winner's lane has changed, replays that lane's
/// matches from its leaf up to the root: at each node the new entrant meets the
/// recorded loser, the larger key stays there as the loser and the other moves
/// up. Eight matches, one per level.
pub fn replay(keys: &Vec<u128>, lt: &mut Vec<u8>, Ghost(old_keys): Ghost<Seq<u128>>, Ghost(w): Ghost<Seq<u8>>) -> (w_new: Ghost<Seq<u8>>)
    requires
        keys.len() == LANES,
        tree_valid(old_keys, old(lt)@, w),
        old(lt)@[0] == w[1],
        keys@ == old_keys.update(w[1] as int, keys@[w[1] as int]),
    ensures
        tree_valid(keys@, final(lt)@, w_new@),
        final(lt)@[0] == w_new@[1],
{
    let lane = lt[0] as usize;
    let ghost x: int = 256 + lane;
    let mut child: usize = lane + LANES;
    let mut node: usize = child / 2;
    let mut winner: u8 = lt[0];
    let ghost mut wg = w;
    proof {
        assert(anc(x, 1)) by {
            lemma_anc_root(x);
        }
        assert forall|m: int| 1 <= m < 256 && anc(x, m) implies (anc(x, 2 * m) ==> lt@[m] == wg[2 * m + 1]) && (anc(
            x,
            2 * m + 1,
        ) ==> lt@[m] == wg[2 * m]) by {
            lemma_path(old_keys, lt@, w, m);
        }
        assert forall|n: int| 1 <= n < 256 && !(anc(x, n) && n != x) implies #[trigger] node_ok(keys@, lt@, wg, n) by {
            assert(node_ok(old_keys, lt@, w, n));
            assert(anc(256 + w[n], n));
            assert(anc(256 + w[2 * n], 2 * n));
            assert(anc(256 + w[2 * n + 1], 2 * n + 1));
            lemma_anc_parent(256 + w[2 * n], 2 * n);
            lemma_anc_parent(256 + w[2 * n + 1], 2 * n + 1);
            assert(anc(256 + lt@[n], n));
        }
        lemma_anc_self(x);
    }
    while node > 0
        invariant
            keys.len() == LANES,
            lt.len() == LANES,
            wg.len() == 512,
            x == 256 + lane,
            lane < 256,
            node == child / 2,
            1 <= child < 512,
            anc(x, child as int),
            wg[child as int] == winner,
            forall|r: int| 0 <= r < 256 ==> #[trigger] wg[256 + r] == r,
            forall|n: int| 1 <= n < 512 ==> anc(256 + #[trigger] wg[n], n),
            forall|n: int|
                1 <= n < 256 && !(anc(child as int, n) && n != child) ==> #[trigger] node_ok(keys@, lt@, wg, n),
            forall|m: int|
                1 <= m < 256 && anc(child as int, m) && m != child ==> (anc(x, 2 * m) ==> #[trigger] lt@[m]
                    == wg[2 * m + 1]) && (anc(x, 2 * m + 1) ==> lt@[m] == wg[2 * m]),
        decreases node,
    {
        let loser = lt[node];
        let ghost old_lt = lt@;
        let ghost old_wg = wg;
        let ghost c = child as int;
        let ghost nd = node as int;
        let ghost sib: int = if c == 2 * nd { 2 * nd + 1 } else { 2 * nd };
        proof {
            lemma_anc_self(nd);
            assert(anc(c, nd));
            assert(old_lt[nd] == wg[sib]) by {
                if c == 2 * nd + 1 && anc(x, 2 * nd) {
                    lemma_anc_siblings(x, 2 * nd, 2 * nd + 1);
                }
                if c == 2 * nd && anc(x, 2 * nd + 1) {
                    lemma_anc_siblings(x, 2 * nd, 2 * nd + 1);
                }
            }
        }
        if !(keys[winner as usize] < keys[loser as usize]) {
            lt[node] = winner;
            winner = loser;
        }
        proof {
            wg = wg.update(nd, winner);
            assert(node_ok(keys@, lt@, wg, nd));
            assert(anc(256 + old_wg[c], c));
            assert(anc(256 + old_wg[sib], sib));
            lemma_anc_parent(256 + old_wg[c], c);
            lemma_anc_parent(256 + old_wg[sib], sib);
            lemma_anc_parent(x, c);
            assert forall|n: int| 1 <= n < 512 implies anc(256 + #[trigger] wg[n], n) by {
                if n != nd {
                    assert(wg[n] == old_wg[n]);
                }
            }
            assert forall|n: int|
                1 <= n < 256 && !(anc(nd, n) && n != nd) implies #[trigger] node_ok(keys@, lt@, wg, n) by {
                if n != nd {
                    if anc(c, n) && n != c {
                        lemma_anc_below(c, n);
                        if n < nd {
                            lemma_anc_order(c, n, nd);
                        } else {
                            assert(n == nd || n > nd);
                            lemma_anc_below(c / 2, n);
                        }
                    }
                    assert(node_ok(keys@, old_lt, old_wg, n));
                    assert(2 * n != nd && 2 * n + 1 != nd) by {
                        if 2 * n == nd || 2 * n + 1 == nd {
                            lemma_anc_self(n);
                            assert(anc(nd, n));
                        }
                    }
                }
            }
            assert forall|m: int|
                1 <= m < 256 && anc(nd, m) && m != nd implies (anc(x, 2 * m) ==> #[trigger] lt@[m]
                    == wg[2 * m + 1]) && (anc(x, 2 * m + 1) ==> lt@[m] == wg[2 * m]) by {
                lemma_anc_below(nd, m);
                lemma_anc_trans(c, nd, m);
                if anc(x, 2 * m) && 2 * m + 1 == nd {
                    lemma_anc_trans(x, c, nd);
                    lemma_anc_siblings(x, 2 * m, 2 * m + 1);
                }
                if anc(x, 2 * m + 1) && 2 * m == nd {
                    lemma_anc_trans(x, c, nd);
                    lemma_anc_siblings(x, 2 * m, 2 * m + 1);
                }
            }
        }
        child = node;
        node = node / 2;
    }
    let ghost before = lt@;
    lt[0] = winner;
    proof {
        assert(child == 1);
        assert forall|n: int| 1 <= n < 256 implies #[trigger] node_ok(keys@, lt@, wg, n) by {
            if anc(1, n) && n != 1 {
                lemma_anc_below(1, n);
            }
            assert(node_ok(keys@, before, wg, n));
        }
    }
    Ghost(wg)
}

} // verus!
