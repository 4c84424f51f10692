//! Support routines for a generalized search tree over vector clocks:
//! consistency test, subtree union, insertion penalty and page split.
use vstd::prelude::*;
use crate::clock::{differing, merged, vectime};
use crate::order::causal_order;
use std::cmp::Ordering;

verus! {

/// Strategy number of the concurrency operator.
pub const STRATEGY_NUMBER_CONCURRENT: i16 = 3;

/// Strategy number of the equality operator.
pub const STRATEGY_NUMBER_EQUAL: i16 = 6;

/// Strategy number of the "follows" operator.
pub const STRATEGY_NUMBER_GREATER: i16 = 7;

/// Strategy number of the "precedes" operator.
pub const STRATEGY_NUMBER_LESS: i16 = 8;

pub open spec fn is_strategy(strategy: i16) -> bool {
    strategy == STRATEGY_NUMBER_CONCURRENT || strategy == STRATEGY_NUMBER_EQUAL || strategy
        == STRATEGY_NUMBER_GREATER || strategy == STRATEGY_NUMBER_LESS
}

/// The causal relation that a strategy number asks for.
pub open spec fn strategy_relation(strategy: i16) -> Option<Ordering> {
    if strategy == STRATEGY_NUMBER_EQUAL {
        Some(Ordering::Equal)
    } else if strategy == STRATEGY_NUMBER_GREATER {
        Some(Ordering::Greater)
    } else if strategy == STRATEGY_NUMBER_LESS {
        Some(Ordering::Less)
    } else {
        None
    }
}

/// Does the entry's clock stand in the relation named by `strategy` to the
/// query? An absent entry matches nothing. The answer is always exact.
pub fn consistent(entry: Option<vectime>, query: vectime, strategy: i16) -> (r: bool)
    requires
        is_strategy(strategy),
    ensures
        entry is None ==> !r,
        entry is Some ==> r == (causal_order(entry->0@, query@) == strategy_relation(strategy)),
{
    match entry {
        None => false,
        Some(value) => {
            let rel = value.compare(&query);
            match rel {
                None => strategy == STRATEGY_NUMBER_CONCURRENT,
                Some(Ordering::Equal) => strategy == STRATEGY_NUMBER_EQUAL,
                Some(Ordering::Greater) => strategy == STRATEGY_NUMBER_GREATER,
                Some(Ordering::Less) => strategy == STRATEGY_NUMBER_LESS,
            }
        },
    }
}

/// The least upper bound of a sequence of clocks.
pub open spec fn union_all(s: Seq<vectime>) -> Map<Seq<char>, int>
    decreases s.len(),
{
    if s.len() == 0 {
        Map::empty()
    } else {
        merged(union_all(s.drop_last()), s.last()@)
    }
}

/// The summary of a set of entries: the merge of all their clocks. A single
/// entry is returned as it is.
pub fn union(entries: Vec<vectime>) -> (r: vectime)
    ensures
        r@ == union_all(entries@),
        entries@.len() == 1 ==> r == entries@[0],
{
    let mut entries = entries;
    if entries.len() == 1 {
        let ghost s = entries@;
        let only = entries.pop().unwrap();
        proof {
            assert(s.drop_last() =~= Seq::<vectime>::empty());
            assert(union_all(s.drop_last()) == Map::<Seq<char>, int>::empty());
            use_type_invariant(&only);
            only.lemma_valid();
            assert(merged(Map::empty(), only@) =~= only@);
        }
        return only;
    }
    let mut result = vectime::new();
    let mut i: usize = 0;
    proof {
        assert(entries@.take(0) =~= Seq::<vectime>::empty());
    }
    while i < entries.len()
        invariant
            i <= entries@.len(),
            result@ == union_all(entries@.take(i as int)),
        decreases entries@.len() - i,
    {
        result = result.merge(&entries[i]);
        proof {
            assert(entries@.take(i + 1).drop_last() =~= entries@.take(i as int));
        }
        i = i + 1;
    }
    proof {
        assert(entries@.take(entries@.len() as int) =~= entries@);
    }
    result
}

/// Stored form of an entry: the clock itself.
pub fn compress(entry: vectime) -> (r: vectime)
    ensures
        r == entry,
{
    entry
}

/// Working form of a stored entry: the clock itself.
pub fn decompress(entry: vectime) -> (r: vectime)
    ensures
        r == entry,
{
    entry
}

/// Cost of placing a clock under a summary, by their causal relation.
pub open spec fn penalty_of(rel: Option<Ordering>) -> u32 {
    match rel {
        Some(Ordering::Equal) => 0,
        None => 1,
        Some(Ordering::Greater) => 2,
        Some(Ordering::Less) => 3,
    }
}

/// The cost of routing `candidate` under a branch summarized by `existing`:
/// 0 when equal, 1 when concurrent, 2 when the summary already follows it,
/// 3 when it would force the summary to grow.
pub fn penalty(existing: &vectime, candidate: &vectime) -> (r: u32)
    ensures
        r == penalty_of(causal_order(existing@, candidate@)),
{
    match existing.compare(candidate) {
        Some(Ordering::Equal) => 0,
        None => 1,
        Some(Ordering::Greater) => 2,
        Some(Ordering::Less) => 3,
    }
}

/// Least number of entries that each side of a split of `n` entries gets:
/// three tenths of them, rounded up.
pub open spec fn min_fill(n: int) -> int {
    (3 * n + 9) / 10
}

fn min_fill_of(n: usize) -> (r: usize)
    requires
        n >= 2,
    ensures
        r == min_fill(n as int),
        10 * r >= 3 * n,
        1 <= r,
        2 * r <= n,
{
    let f = n / 10 * 3 + (n % 10 * 3 + 9) / 10;
    assert(f == (3 * n + 9) / 10) by (nonlinear_arith)
        requires
            f == n / 10 * 3 + (n % 10 * 3 + 9) / 10,
    ;
    assert(10 * f >= 3 * n) by (nonlinear_arith)
        requires
            f == (3 * n + 9) / 10,
    ;
    if n < 5 {
        assert(2 * f <= n);
    } else {
        assert(2 * f <= n) by (nonlinear_arith)
            requires
                f == (3 * n + 9) / 10,
                n >= 5,
        ;
    }
    f
}

/// The pair `(p, q)` of entries is concurrent.
pub open spec fn concurrent_pair(entries: Seq<vectime>, p: int, q: int) -> bool {
    causal_order(entries[p]@, entries[q]@) is None
}

/// The pair `(p, q)` of entries is causally equal.
pub open spec fn equal_pair(entries: Seq<vectime>, p: int, q: int) -> bool {
    causal_order(entries[p]@, entries[q]@) == Some(Ordering::Equal)
}

/// The number of identifiers at which entries `p` and `q` disagree.
pub open spec fn spread(entries: Seq<vectime>, p: int, q: int) -> int {
    differing(entries[p]@, entries[q]@).len() as int
}

/// Pair `(p, q)` comes before pair `(s, t)` in the order of scanning.
pub open spec fn scanned_before(p: int, q: int, s: int, t: int) -> bool {
    p < s || (p == s && q < t)
}

/// Which two entries a split starts from. Among the concurrent pairs, the one
/// that disagrees at the most identifiers, the first such in scanning order.
/// When no pair is concurrent, the first pair that is not equal. When all
/// are equal, the first two entries.
pub open spec fn seed_rule(entries: Seq<vectime>, s: int, t: int) -> bool {
    let n = entries.len() as int;
    &&& 0 <= s < t < n
    &&& if exists|p: int, q: int| 0 <= p < q < n && concurrent_pair(entries, p, q) {
        &&& concurrent_pair(entries, s, t)
        &&& forall|p: int, q: int|
            0 <= p < q < n && concurrent_pair(entries, p, q) ==> spread(entries, p, q) <= spread(
                entries,
                s,
                t,
            )
        &&& forall|p: int, q: int|
            0 <= p < q < n && concurrent_pair(entries, p, q) && scanned_before(p, q, s, t)
                ==> spread(entries, p, q) < spread(entries, s, t)
    } else if exists|p: int, q: int| 0 <= p < q < n && !equal_pair(entries, p, q) {
        &&& !equal_pair(entries, s, t)
        &&& forall|p: int, q: int|
            0 <= p < q < n && scanned_before(p, q, s, t) ==> equal_pair(entries, p, q)
    } else {
        s == 0 && t == 1
    }
}

/// At most one pair of entries meets the seed rule.
pub proof fn lemma_seed_rule_unique(entries: Seq<vectime>, s1: int, t1: int, s2: int, t2: int)
    requires
        seed_rule(entries, s1, t1),
        seed_rule(entries, s2, t2),
    ensures
        s1 == s2 && t1 == t2,
{
    if !(s1 == s2 && t1 == t2) {
        if scanned_before(s1, t1, s2, t2) {
            assert(!scanned_before(s2, t2, s1, t1));
        } else {
            assert(scanned_before(s2, t2, s1, t1));
        }
    }
}

/// Two distinct entries to start the two sides of a split from, by the seed
/// rule.
fn pick_seeds(entries: &Vec<vectime>) -> (r: (usize, usize))
    requires
        entries@.len() >= 2,
    ensures
        seed_rule(entries@, r.0 as int, r.1 as int),
{
    let n = entries.len();
    let mut best: (usize, usize) = (0, 1);
    let mut best_spread: u128 = 0;
    let mut found = false;
    let mut fallback: (usize, usize) = (0, 1);
    let mut found_fallback = false;
    let mut i: usize = 0;
    while i < n
        invariant
            n == entries@.len(),
            n >= 2,
            i <= n,
            best.0 < best.1 < n,
            fallback.0 < fallback.1 < n,
            found ==> concurrent_pair(entries@, best.0 as int, best.1 as int),
            found ==> best_spread == spread(entries@, best.0 as int, best.1 as int),
            found ==> best.0 < i,
            found_fallback ==> fallback.0 < i,
            forall|p: int, q: int|
                0 <= p < q < n && p < i && concurrent_pair(entries@, p, q) ==> found && spread(
                    entries@,
                    p,
                    q,
                ) <= best_spread && (scanned_before(p, q, best.0 as int, best.1 as int) ==> spread(
                    entries@,
                    p,
                    q,
                ) < best_spread),
            found_fallback ==> !equal_pair(entries@, fallback.0 as int, fallback.1 as int),
            found_fallback ==> forall|p: int, q: int|
                0 <= p < q < n && scanned_before(p, q, fallback.0 as int, fallback.1 as int) ==> (
                equal_pair(entries@, p, q) || concurrent_pair(entries@, p, q)),
            !found_fallback ==> fallback.0 == 0 && fallback.1 == 1,
            forall|p: int, q: int|
                0 <= p < q < n && p < i && !equal_pair(entries@, p, q) && !concurrent_pair(
                    entries@,
                    p,
                    q,
                ) ==> found_fallback,
        decreases n - i,
    {
        let mut j: usize = i + 1;
        while j < n
            invariant
                n == entries@.len(),
                n >= 2,
                i < j <= n,
                i < n,
                best.0 < best.1 < n,
                fallback.0 < fallback.1 < n,
                found ==> concurrent_pair(entries@, best.0 as int, best.1 as int),
                found ==> best_spread == spread(entries@, best.0 as int, best.1 as int),
                found ==> scanned_before(best.0 as int, best.1 as int, i as int, j as int),
                forall|p: int, q: int|
                    0 <= p < q < n && scanned_before(p, q, i as int, j as int) && concurrent_pair(
                        entries@,
                        p,
                        q,
                    ) ==> found && spread(entries@, p, q) <= best_spread && (scanned_before(
                        p,
                        q,
                        best.0 as int,
                        best.1 as int,
                    ) ==> spread(entries@, p, q) < best_spread),
                found_fallback ==> !equal_pair(entries@, fallback.0 as int, fallback.1 as int),
                found_fallback ==> forall|p: int, q: int|
                    0 <= p < q < n && scanned_before(p, q, fallback.0 as int, fallback.1 as int)
                        ==> (equal_pair(entries@, p, q) || concurrent_pair(entries@, p, q)),
                found_fallback ==> scanned_before(
                    fallback.0 as int,
                    fallback.1 as int,
                    i as int,
                    j as int,
                ),
                !found_fallback ==> fallback.0 == 0 && fallback.1 == 1,
                forall|p: int, q: int|
                    0 <= p < q < n && scanned_before(p, q, i as int, j as int) && !equal_pair(
                        entries@,
                        p,
                        q,
                    ) && !concurrent_pair(entries@, p, q) ==> found_fallback,
            decreases n - j,
        {
            match entries[i].compare(&entries[j]) {
                None => {
                    let d = entries[i].disagreements(&entries[j]);
                    if !found || d > best_spread {
                        best = (i, j);
                        best_spread = d;
                        found = true;
                    }
                },
                Some(Ordering::Equal) => {},
                Some(_) => {
                    if !found_fallback {
                        fallback = (i, j);
                        found_fallback = true;
                    }
                },
            }
            j = j + 1;
        }
        i = i + 1;
    }
    if found {
        best
    } else {
        fallback
    }
}

/// The merge of the clocks at the given positions.
pub open spec fn union_at(entries: Seq<vectime>, positions: Seq<usize>) -> Map<Seq<char>, int>
    decreases positions.len(),
{
    if positions.len() == 0 {
        Map::empty()
    } else {
        merged(union_at(entries, positions.drop_last()), entries[positions.last() as int]@)
    }
}

/// Whether the entry at `idx` joins the left side, given the sides so far:
/// not when the left side is full; yes when the right one is; else the side
/// whose summary it joins at the lower penalty, the smaller side on a tie
/// (the left one when both are as large).
pub open spec fn goes_left(
    entries: Seq<vectime>,
    cap: int,
    left: Seq<usize>,
    right: Seq<usize>,
    idx: int,
) -> bool {
    if left.len() == cap {
        false
    } else if right.len() == cap {
        true
    } else {
        let pl = penalty_of(causal_order(union_at(entries, left), entries[idx]@));
        let pr = penalty_of(causal_order(union_at(entries, right), entries[idx]@));
        if pl != pr {
            pl < pr
        } else {
            left.len() <= right.len()
        }
    }
}

/// The two sides after the entries before `upto` have been placed, starting
/// from seeds `s` (left) and `t` (right), with at most `cap` on each side.
pub open spec fn greedy_split(entries: Seq<vectime>, s: int, t: int, cap: int, upto: nat) -> (
    Seq<usize>,
    Seq<usize>,
)
    decreases upto,
{
    if upto == 0 {
        (seq![s as usize], seq![t as usize])
    } else {
        let prev = greedy_split(entries, s, t, cap, (upto - 1) as nat);
        let idx = upto - 1;
        if idx == s || idx == t {
            prev
        } else if goes_left(entries, cap, prev.0, prev.1, idx) {
            (prev.0.push(idx as usize), prev.1)
        } else {
            (prev.0, prev.1.push(idx as usize))
        }
    }
}

/// The seeds of a split of `entries`: the one pair that meets `seed_rule`.
pub open spec fn seeds_of(entries: Seq<vectime>) -> (int, int) {
    choose|st: (int, int)| seed_rule(entries, st.0, st.1)
}

/// The split of `entries`: the greedy placement from the seeds of
/// `seeds_of`, at most `n - min_fill(n)` entries on a side.
pub open spec fn split_of(entries: Seq<vectime>) -> (Seq<usize>, Seq<usize>) {
    let st = seeds_of(entries);
    let n = entries.len() as int;
    greedy_split(entries, st.0, st.1, n - min_fill(n), n as nat)
}

/// The two sides of a page split and the summary of each.
pub struct Split {
    pub left: Vec<usize>,
    pub right: Vec<usize>,
    pub left_union: vectime,
    pub right_union: vectime,
}

/// Splits an overflowing page in two: returns the positions of the entries
/// that go to each side, and each side's summary. The seeds are those of
/// `seed_rule`; every other entry is placed in order of position as
/// `goes_left` says, with at most `n - min_fill(n)` entries on a side. Every
/// position is on one side, and each side gets at least three tenths of them.
pub fn picksplit(entries: &Vec<vectime>) -> (r: Split)
    requires
        entries@.len() >= 2,
    ensures
        r.left@.len() >= 1,
        r.right@.len() >= 1,
        (r.left@, r.right@) == split_of(entries@),
        seeds_of(entries@) == (r.left@[0] as int, r.right@[0] as int),
        seed_rule(entries@, r.left@[0] as int, r.right@[0] as int),
        r.left_union@ == union_at(entries@, r.left@),
        r.right_union@ == union_at(entries@, r.right@),
        r.left@.len() + r.right@.len() == entries@.len(),
        10 * r.left@.len() >= 3 * entries@.len(),
        10 * r.right@.len() >= 3 * entries@.len(),
        forall|t: usize| t < entries@.len() ==> r.left@.contains(t) || r.right@.contains(t),
        forall|p: int| 0 <= p < r.left@.len() ==> r.left@[p] < entries@.len(),
        forall|p: int| 0 <= p < r.right@.len() ==> r.right@[p] < entries@.len(),
{
    let n = entries.len();
    let fill = min_fill_of(n);
    let cap = n - fill;
    let (s1, s2) = pick_seeds(entries);
    let mut left: Vec<usize> = Vec::new();
    let mut right: Vec<usize> = Vec::new();
    left.push(s1);
    right.push(s2);
    let mut left_union = vectime::new().merge(&entries[s1]);
    let mut right_union = vectime::new().merge(&entries[s2]);
    proof {
        assert(left@ =~= seq![s1]);
        assert(right@ =~= seq![s2]);
        assert(left@.drop_last() =~= Seq::<usize>::empty());
        assert(right@.drop_last() =~= Seq::<usize>::empty());
        assert(union_at(entries@, Seq::<usize>::empty()) == Map::<Seq<char>, int>::empty());
        assert(union_at(entries@, left@) == merged(Map::empty(), entries@[s1 as int]@));
        assert(union_at(entries@, right@) == merged(Map::empty(), entries@[s2 as int]@));
        assert(left@[0] == s1 && right@[0] == s2);
    }
    let mut idx: usize = 0;
    while idx < n
        invariant
            n == entries@.len(),
            seed_rule(entries@, s1 as int, s2 as int),
            s1 < s2 < n,
            cap == n - fill,
            fill == min_fill(n as int),
            2 * fill <= n,
            10 * fill >= 3 * n,
            fill >= 1,
            1 <= left@.len() <= cap,
            1 <= right@.len() <= cap,
            idx <= n,
            (left@, right@) == greedy_split(entries@, s1 as int, s2 as int, cap as int, idx as nat),
            left_union@ == union_at(entries@, left@),
            right_union@ == union_at(entries@, right@),
            left@.len() + right@.len() == 2 + idx - (if s1 < idx {
                1int
            } else {
                0
            }) - (if s2 < idx {
                1int
            } else {
                0
            }),
            left@[0] == s1,
            right@[0] == s2,
            forall|t: usize| t < idx ==> left@.contains(t) || right@.contains(t),
            forall|p: int| 0 <= p < left@.len() ==> left@[p] < n,
            forall|p: int| 0 <= p < right@.len() ==> right@[p] < n,
            left@.contains(s1),
            right@.contains(s2),
        decreases n - idx,
    {
        if idx != s1 && idx != s2 {
            let to_left = if left.len() == cap {
                false
            } else if right.len() == cap {
                true
            } else {
                let pl = penalty(&left_union, &entries[idx]);
                let pr = penalty(&right_union, &entries[idx]);
                if pl != pr {
                    pl < pr
                } else {
                    left.len() <= right.len()
                }
            };
            if to_left {
                left_union = left_union.merge(&entries[idx]);
                let ghost before = left@;
                left.push(idx);
                proof {
                    assert(left@.drop_last() =~= before);
                    assert forall|t: usize| before.contains(t) implies left@.contains(t) by {
                        let p = choose|p: int| 0 <= p < before.len() && before[p] == t;
                        assert(left@[p] == t);
                    }
                    assert(left@[left@.len() - 1] == idx);
                }
            } else {
                right_union = right_union.merge(&entries[idx]);
                let ghost before = right@;
                right.push(idx);
                proof {
                    assert(right@.drop_last() =~= before);
                    assert forall|t: usize| before.contains(t) implies right@.contains(t) by {
                        let p = choose|p: int| 0 <= p < before.len() && before[p] == t;
                        assert(right@[p] == t);
                    }
                    assert(right@[right@.len() - 1] == idx);
                }
            }
        }
        idx = idx + 1;
    }
    proof {
        let pair = (s1 as int, s2 as int);
        assert(seed_rule(entries@, pair.0, pair.1));
        let st = seeds_of(entries@);
        lemma_seed_rule_unique(entries@, st.0, st.1, s1 as int, s2 as int);
    }
    Split { left, right, left_union, right_union }
}

} // verus!
