//! The vector clock value: identifiers mapped to non-negative counters, kept
//! as entries sorted by identifier so that two clocks can be merge-joined.
use vstd::prelude::*;
use crate::keys::{
    compare_keys, key_lt, lemma_key_lt_asymmetric, lemma_key_lt_irreflexive, lemma_key_lt_total,
    lemma_key_lt_transitive,
};
use crate::order::causal_order;
use std::cmp::Ordering;

verus! {

/// The counter of `k` in a clock's map; an absent identifier counts 0.
pub open spec fn counter(m: Map<Seq<char>, int>, k: Seq<char>) -> int {
    if m.contains_key(k) {
        m[k]
    } else {
        0
    }
}

/// A clock's map: finitely many identifiers, each with a non-negative counter.
pub open spec fn valid_clock(m: Map<Seq<char>, int>) -> bool {
    &&& m.dom().finite()
    &&& forall|k| #[trigger] m.contains_key(k) ==> m[k] >= 0
}

/// Pointwise maximum over the union of both identifier sets.
pub open spec fn merged(a: Map<Seq<char>, int>, b: Map<Seq<char>, int>) -> Map<Seq<char>, int> {
    Map::new(
        |k: Seq<char>| a.contains_key(k) || b.contains_key(k),
        |k: Seq<char>|
            if counter(a, k) >= counter(b, k) {
                counter(a, k)
            } else {
                counter(b, k)
            },
    )
}

/// The map that a sequence of entries describes (a later entry wins).
pub open spec fn entries_map(s: Seq<(String, i64)>) -> Map<Seq<char>, int>
    decreases s.len(),
{
    if s.len() == 0 {
        Map::empty()
    } else {
        entries_map(s.drop_last()).insert(s.last().0@, s.last().1 as int)
    }
}

/// Identifiers strictly ascending.
pub open spec fn sorted(s: Seq<(String, i64)>) -> bool {
    forall|p: int, q: int| 0 <= p < q < s.len() ==> key_lt(#[trigger] s[p].0@, #[trigger] s[q].0@)
}

pub open spec fn nonneg(s: Seq<(String, i64)>) -> bool {
    forall|p: int| 0 <= p < s.len() ==> #[trigger] s[p].1 >= 0
}

/// A vector clock: a mapping from identifier to counter, absent meaning 0.
/// The entries are a vector sorted by identifier rather than a `BTreeMap`,
/// so that the order of `String` keys is one this crate states and proves.
#[derive(Debug)]
pub struct vectime {
    entries: Vec<(String, i64)>,
}

impl View for vectime {
    type V = Map<Seq<char>, int>;

    closed spec fn view(&self) -> Map<Seq<char>, int> {
        entries_map(self.entries@)
    }
}

impl vectime {
    #[verifier::type_invariant]
    pub closed spec fn wf(&self) -> bool {
        sorted(self.entries@) && nonneg(self.entries@)
    }

    /// The counter of `k` in this clock.
    pub open spec fn value(&self, k: Seq<char>) -> int {
        counter(self@, k)
    }

    /// A well-formed clock's map is valid.
    pub proof fn lemma_valid(&self)
        requires
            self.wf(),
        ensures
            valid_clock(self@),
    {
        lemma_entries_map_dom(self.entries@);
        assert forall|k| #[trigger] self@.contains_key(k) implies self@[k] >= 0 by {
            let p = choose|p: int| 0 <= p < self.entries@.len() && self.entries@[p].0@ == k;
            lemma_entries_map_at(self.entries@, p);
        }
    }

    /// The empty clock.
    pub fn new() -> (r: vectime)
        ensures
            r@ == Map::<Seq<char>, int>::empty(),
    {
        vectime { entries: Vec::new() }
    }
}

pub proof fn lemma_entries_map_push(s: Seq<(String, i64)>, e: (String, i64))
    ensures
        entries_map(s.push(e)) == entries_map(s).insert(e.0@, e.1 as int),
{
    assert(s.push(e).drop_last() =~= s);
}

pub proof fn lemma_entries_map_dom(s: Seq<(String, i64)>)
    ensures
        entries_map(s).dom().finite(),
        forall|k| #[trigger]
            entries_map(s).contains_key(k) <==> exists|p: int| 0 <= p < s.len() && s[p].0@ == k,
    decreases s.len(),
{
    if s.len() > 0 {
        let t = s.drop_last();
        lemma_entries_map_dom(t);
        assert forall|k| #[trigger]
            entries_map(s).contains_key(k) <==> exists|p: int| 0 <= p < s.len() && s[p].0@ == k by {
            if entries_map(s).contains_key(k) && k != s.last().0@ {
                let p = choose|p: int| 0 <= p < t.len() && t[p].0@ == k;
                assert(s[p].0@ == k);
            }
            if exists|p: int| 0 <= p < s.len() && s[p].0@ == k {
                let p = choose|p: int| 0 <= p < s.len() && s[p].0@ == k;
                if p < s.len() - 1 {
                    assert(t[p].0@ == k);
                }
            }
        }
    }
}

pub proof fn lemma_entries_map_at(s: Seq<(String, i64)>, p: int)
    requires
        sorted(s),
        0 <= p < s.len(),
    ensures
        entries_map(s).contains_key(s[p].0@),
        entries_map(s)[s[p].0@] == s[p].1 as int,
    decreases s.len(),
{
    if p < s.len() - 1 {
        let t = s.drop_last();
        assert(key_lt(s[p].0@, s[s.len() - 1].0@));
        lemma_key_lt_irreflexive(s[p].0@);
        assert(sorted(t)) by {
            assert forall|x: int, y: int| 0 <= x < y < t.len() implies key_lt(
                #[trigger] t[x].0@,
                #[trigger] t[y].0@,
            ) by {
                assert(s[x] == t[x] && s[y] == t[y]);
            }
        }
        lemma_entries_map_at(t, p);
        assert(t[p] == s[p]);
    }
}

/// No entry of `s` has an identifier above every one of its own.
pub proof fn lemma_absent_above(s: Seq<(String, i64)>, k: Seq<char>)
    requires
        forall|t: int| 0 <= t < s.len() ==> key_lt(#[trigger] s[t].0@, k),
    ensures
        !entries_map(s).contains_key(k),
{
    lemma_entries_map_dom(s);
    lemma_key_lt_irreflexive(k);
}

/// An identifier strictly between the entries at `idx - 1` and `idx` is absent.
pub proof fn lemma_absent_between(s: Seq<(String, i64)>, idx: int, k: Seq<char>)
    requires
        sorted(s),
        0 <= idx <= s.len(),
        idx == 0 || key_lt(s[idx - 1].0@, k),
        idx == s.len() || key_lt(k, s[idx].0@),
    ensures
        !entries_map(s).contains_key(k),
{
    lemma_entries_map_dom(s);
    lemma_key_lt_irreflexive(k);
    assert forall|p: int| 0 <= p < s.len() implies #[trigger] s[p].0@ != k by {
        if p < idx - 1 {
            lemma_key_lt_transitive(s[p].0@, s[idx - 1].0@, k);
        } else if p > idx {
            lemma_key_lt_transitive(k, s[idx].0@, s[p].0@);
        }
    }
}

proof fn lemma_take_push(s: Seq<(String, i64)>, i: int)
    requires
        0 <= i < s.len(),
    ensures
        entries_map(s.take(i + 1)) == entries_map(s.take(i)).insert(s[i].0@, s[i].1 as int),
{
    assert(s.take(i + 1) =~= s.take(i).push(s[i]));
    lemma_entries_map_push(s.take(i), s[i]);
}

/// Pushing an entry above all present identifiers keeps the sequence sorted.
proof fn lemma_sorted_push(s: Seq<(String, i64)>, e: (String, i64))
    requires
        sorted(s),
        forall|t: int| 0 <= t < s.len() ==> key_lt(#[trigger] s[t].0@, e.0@),
    ensures
        sorted(s.push(e)),
{
    let s2 = s.push(e);
    assert forall|p: int, q: int| 0 <= p < q < s2.len() implies key_lt(
        #[trigger] s2[p].0@,
        #[trigger] s2[q].0@,
    ) by {
        assert(s2[p] == s[p]);
        if q < s.len() {
            assert(s2[q] == s[q]);
        }
    }
}

/// Returns the merge of two clocks: the pointwise maximum of their counters.
pub fn max(left: vectime, right: vectime) -> (r: vectime)
    ensures
        r@ == merged(left@, right@),
{
    left.merge(&right)
}

impl vectime {
    /// The merge of `self` and `other`: the pointwise maximum of their counters.
    pub fn merge(&self, other: &vectime) -> (r: vectime)
        ensures
            r@ == merged(self@, other@),
    {
        proof {
            use_type_invariant(self);
            use_type_invariant(other);
        }
        let a = &self.entries;
        let b = &other.entries;
        let mut out: Vec<(String, i64)> = Vec::new();
        let mut i: usize = 0;
        let mut j: usize = 0;
        proof {
            assert(entries_map(out@) =~= merged(entries_map(a@.take(0)), entries_map(b@.take(0))));
        }
        while i < a.len() || j < b.len()
            invariant
                sorted(a@),
                nonneg(a@),
                sorted(b@),
                nonneg(b@),
                i <= a@.len(),
                j <= b@.len(),
                sorted(out@),
                nonneg(out@),
                entries_map(out@) == merged(
                    entries_map(a@.take(i as int)),
                    entries_map(b@.take(j as int)),
                ),
                i < a@.len() ==> forall|t: int|
                    0 <= t < out@.len() ==> key_lt(#[trigger] out@[t].0@, a@[i as int].0@),
                j < b@.len() ==> forall|t: int|
                    0 <= t < out@.len() ==> key_lt(#[trigger] out@[t].0@, b@[j as int].0@),
            decreases a@.len() + b@.len() - i - j,
        {
            let step = if i == a.len() {
                Ordering::Greater
            } else if j == b.len() {
                Ordering::Less
            } else {
                compare_keys(a[i].0.as_str(), b[j].0.as_str())
            };
            let ghost m1 = entries_map(a@.take(i as int));
            let ghost m2 = entries_map(b@.take(j as int));
            let ghost old_out = out@;
            proof {
                lemma_entries_map_dom(out@);
            }
            match step {
                Ordering::Less => {
                    let e = (a[i].0.clone(), a[i].1);
                    proof {
                        lemma_take_push(a@, i as int);
                        lemma_absent_above(old_out, e.0@);
                        lemma_sorted_push(old_out, e);
                        lemma_entries_map_push(old_out, e);
                        assert(merged(m1.insert(e.0@, e.1 as int), m2) =~= merged(m1, m2).insert(
                            e.0@,
                            e.1 as int,
                        ));
                    }
                    out.push(e);
                    proof {
                        if i + 1 < a@.len() {
                            assert forall|t: int| 0 <= t < out@.len() implies key_lt(
                                #[trigger] out@[t].0@,
                                a@[i + 1].0@,
                            ) by {
                                if t < old_out.len() {
                                    lemma_key_lt_transitive(out@[t].0@, a@[i as int].0@, a@[i + 1].0@);
                                }
                            }
                        }
                    }
                    i = i + 1;
                },
                Ordering::Greater => {
                    let e = (b[j].0.clone(), b[j].1);
                    proof {
                        lemma_take_push(b@, j as int);
                        lemma_absent_above(old_out, e.0@);
                        lemma_sorted_push(old_out, e);
                        lemma_entries_map_push(old_out, e);
                        assert(merged(m1, m2.insert(e.0@, e.1 as int)) =~= merged(m1, m2).insert(
                            e.0@,
                            e.1 as int,
                        ));
                    }
                    out.push(e);
                    proof {
                        if j + 1 < b@.len() {
                            assert forall|t: int| 0 <= t < out@.len() implies key_lt(
                                #[trigger] out@[t].0@,
                                b@[j + 1].0@,
                            ) by {
                                if t < old_out.len() {
                                    lemma_key_lt_transitive(out@[t].0@, b@[j as int].0@, b@[j + 1].0@);
                                }
                            }
                        }
                    }
                    j = j + 1;
                },
                Ordering::Equal => {
                    let va = a[i].1;
                    let vb = b[j].1;
                    let v = if va >= vb {
                        va
                    } else {
                        vb
                    };
                    let e = (a[i].0.clone(), v);
                    proof {
                        lemma_take_push(a@, i as int);
                        lemma_take_push(b@, j as int);
                        lemma_absent_above(old_out, e.0@);
                        lemma_sorted_push(old_out, e);
                        lemma_entries_map_push(old_out, e);
                        assert(merged(m1.insert(e.0@, va as int), m2.insert(e.0@, vb as int))
                            =~= merged(m1, m2).insert(e.0@, v as int));
                    }
                    out.push(e);
                    proof {
                        if i + 1 < a@.len() {
                            assert forall|t: int| 0 <= t < out@.len() implies key_lt(
                                #[trigger] out@[t].0@,
                                a@[i + 1].0@,
                            ) by {
                                if t < old_out.len() {
                                    lemma_key_lt_transitive(out@[t].0@, a@[i as int].0@, a@[i + 1].0@);
                                }
                            }
                        }
                        if j + 1 < b@.len() {
                            assert forall|t: int| 0 <= t < out@.len() implies key_lt(
                                #[trigger] out@[t].0@,
                                b@[j + 1].0@,
                            ) by {
                                if t < old_out.len() {
                                    lemma_key_lt_transitive(out@[t].0@, b@[j as int].0@, b@[j + 1].0@);
                                }
                            }
                        }
                    }
                    i = i + 1;
                    j = j + 1;
                },
            }
        }
        proof {
            assert(a@.take(a@.len() as int) =~= a@);
            assert(b@.take(b@.len() as int) =~= b@);
        }
        vectime { entries: out }
    }
}

/// One step of a merge-join that takes the entry at `i` of `a`, whose
/// identifier is below what is left of `b`: what the two clocks hold there
/// and up to the next entry of `a`, and that the frontier moves on in order.
proof fn lemma_step_one(a: Seq<(String, i64)>, b: Seq<(String, i64)>, i: int, j: int)
    requires
        sorted(a),
        sorted(b),
        0 <= i < a.len(),
        0 <= j <= b.len(),
        j == b.len() || key_lt(a[i].0@, b[j].0@),
        j > 0 ==> key_lt(b[j - 1].0@, a[i].0@),
    ensures
        counter(entries_map(a), a[i].0@) == a[i].1,
        counter(entries_map(b), a[i].0@) == 0,
        !key_lt(a[i].0@, a[i].0@),
        forall|k: Seq<char>|
            (i + 1 < a.len() ==> key_lt(k, a[i + 1].0@)) && (j < b.len() ==> key_lt(k, b[j].0@))
                && !key_lt(k, a[i].0@) && k != a[i].0@ ==> #[trigger] counter(entries_map(a), k)
                == 0 && counter(entries_map(b), k) == 0,
        i + 1 < a.len() && j > 0 ==> key_lt(b[j - 1].0@, a[i + 1].0@),
        i + 1 < a.len() ==> key_lt(a[i].0@, a[i + 1].0@),
        i + 1 < a.len() ==> forall|k: Seq<char>| #[trigger]
            key_lt(k, a[i].0@) ==> key_lt(k, a[i + 1].0@),
{
    let key = a[i].0@;
    lemma_entries_map_at(a, i);
    lemma_absent_between(b, j, key);
    lemma_key_lt_irreflexive(key);
    assert forall|k: Seq<char>|
        (i + 1 < a.len() ==> key_lt(k, a[i + 1].0@)) && (j < b.len() ==> key_lt(k, b[j].0@))
            && !key_lt(k, key) && k != key implies #[trigger] counter(entries_map(a), k) == 0
        && counter(entries_map(b), k) == 0 by {
        lemma_key_lt_total(k, key);
        lemma_absent_between(a, i + 1, k);
        if j > 0 {
            lemma_key_lt_transitive(b[j - 1].0@, key, k);
        }
        lemma_absent_between(b, j, k);
    }
    if i + 1 < a.len() {
        assert(key_lt(a[i].0@, a[i + 1].0@));
        if j > 0 {
            lemma_key_lt_transitive(b[j - 1].0@, key, a[i + 1].0@);
        }
        assert forall|k: Seq<char>| #[trigger] key_lt(k, a[i].0@) implies key_lt(k, a[i + 1].0@) by {
            lemma_key_lt_transitive(k, a[i].0@, a[i + 1].0@);
        }
    }
}

/// One step of a merge-join that takes the entries at `i` of `a` and `j` of
/// `b`, which share their identifier.
proof fn lemma_step_both(a: Seq<(String, i64)>, b: Seq<(String, i64)>, i: int, j: int)
    requires
        sorted(a),
        sorted(b),
        0 <= i < a.len(),
        0 <= j < b.len(),
        a[i].0@ == b[j].0@,
    ensures
        counter(entries_map(a), a[i].0@) == a[i].1,
        counter(entries_map(b), a[i].0@) == b[j].1,
        !key_lt(a[i].0@, a[i].0@),
        forall|k: Seq<char>|
            (i + 1 < a.len() ==> key_lt(k, a[i + 1].0@)) && (j + 1 < b.len() ==> key_lt(
                k,
                b[j + 1].0@,
            )) && !key_lt(k, a[i].0@) && k != a[i].0@ ==> #[trigger] counter(entries_map(a), k)
                == 0 && counter(entries_map(b), k) == 0,
        i + 1 < a.len() && j + 1 < b.len() ==> key_lt(a[i].0@, a[i + 1].0@) && key_lt(
            b[j].0@,
            b[j + 1].0@,
        ),
        i + 1 < a.len() ==> key_lt(a[i].0@, a[i + 1].0@),
        j + 1 < b.len() ==> key_lt(b[j].0@, b[j + 1].0@),
        i + 1 < a.len() ==> forall|k: Seq<char>| #[trigger]
            key_lt(k, a[i].0@) ==> key_lt(k, a[i + 1].0@),
        j + 1 < b.len() ==> forall|k: Seq<char>| #[trigger]
            key_lt(k, b[j].0@) ==> key_lt(k, b[j + 1].0@),
{
    let key = a[i].0@;
    lemma_entries_map_at(a, i);
    lemma_entries_map_at(b, j);
    lemma_key_lt_irreflexive(key);
    assert forall|k: Seq<char>|
        (i + 1 < a.len() ==> key_lt(k, a[i + 1].0@)) && (j + 1 < b.len() ==> key_lt(
            k,
            b[j + 1].0@,
        )) && !key_lt(k, key) && k != key implies #[trigger] counter(entries_map(a), k) == 0
        && counter(entries_map(b), k) == 0 by {
        lemma_key_lt_total(k, key);
        lemma_absent_between(a, i + 1, k);
        lemma_absent_between(b, j + 1, k);
    }
    if i + 1 < a.len() {
        assert(key_lt(a[i].0@, a[i + 1].0@));
        assert forall|k: Seq<char>| #[trigger] key_lt(k, a[i].0@) implies key_lt(k, a[i + 1].0@) by {
            lemma_key_lt_transitive(k, a[i].0@, a[i + 1].0@);
        }
    }
    if j + 1 < b.len() {
        assert(key_lt(b[j].0@, b[j + 1].0@));
        assert forall|k: Seq<char>| #[trigger] key_lt(k, b[j].0@) implies key_lt(k, b[j + 1].0@) by {
            lemma_key_lt_transitive(k, b[j].0@, b[j + 1].0@);
        }
    }
}

impl vectime {
    /// Decides the causal relation of `self` to `other` by merge-joining their
    /// entries, stopping as soon as they are found concurrent.
    pub fn compare(&self, other: &vectime) -> (r: Option<Ordering>)
        ensures
            r == causal_order(self@, other@),
    {
        proof {
            use_type_invariant(self);
            use_type_invariant(other);
        }
        let a = &self.entries;
        let b = &other.entries;
        let ghost ma = self@;
        let ghost mb = other@;
        let mut a_gt = false;
        let mut b_gt = false;
        let mut i: usize = 0;
        let mut j: usize = 0;
        proof {
            assert forall|k: Seq<char>|
                (0 < a@.len() ==> key_lt(k, a@[0].0@)) && (0 < b@.len() ==> key_lt(
                    k,
                    b@[0].0@,
                )) implies counter(ma, k) == 0 && counter(mb, k) == 0 by {
                lemma_absent_between(a@, 0, k);
                lemma_absent_between(b@, 0, k);
            }
        }
        while (i < a.len() || j < b.len()) && !(a_gt && b_gt)
            invariant
                sorted(a@),
                nonneg(a@),
                sorted(b@),
                nonneg(b@),
                ma == entries_map(a@),
                mb == entries_map(b@),
                i <= a@.len(),
                j <= b@.len(),
                a_gt ==> exists|k: Seq<char>| counter(ma, k) > counter(mb, k),
                b_gt ==> exists|k: Seq<char>| counter(mb, k) > counter(ma, k),
                forall|k: Seq<char>|
                    (i < a@.len() ==> key_lt(k, a@[i as int].0@)) && (j < b@.len() ==> key_lt(
                        k,
                        b@[j as int].0@,
                    )) ==> (!a_gt ==> #[trigger] counter(ma, k) <= counter(mb, k)) && (!b_gt
                        ==> counter(mb, k) <= counter(ma, k)),
                i < a@.len() && j > 0 ==> key_lt(b@[j - 1].0@, a@[i as int].0@),
                j < b@.len() && i > 0 ==> key_lt(a@[i - 1].0@, b@[j as int].0@),
            decreases a@.len() + b@.len() - i - j,
        {
            let step = if i == a.len() {
                Ordering::Greater
            } else if j == b.len() {
                Ordering::Less
            } else {
                compare_keys(a[i].0.as_str(), b[j].0.as_str())
            };
            match step {
                Ordering::Less => {
                    let ghost key = a@[i as int].0@;
                    proof {
                        lemma_step_one(a@, b@, i as int, j as int);
                    }
                    if a[i].1 > 0 {
                        a_gt = true;
                        assert(counter(ma, key) > counter(mb, key));
                    }
                    i = i + 1;
                },
                Ordering::Greater => {
                    let ghost key = b@[j as int].0@;
                    proof {
                        lemma_step_one(b@, a@, j as int, i as int);
                    }
                    if b[j].1 > 0 {
                        b_gt = true;
                        assert(counter(mb, key) > counter(ma, key));
                    }
                    j = j + 1;
                },
                Ordering::Equal => {
                    let ghost key = a@[i as int].0@;
                    proof {
                        lemma_step_both(a@, b@, i as int, j as int);
                    }
                    if a[i].1 > b[j].1 {
                        a_gt = true;
                        assert(counter(ma, key) > counter(mb, key));
                    } else if a[i].1 < b[j].1 {
                        b_gt = true;
                        assert(counter(mb, key) > counter(ma, key));
                    }
                    i = i + 1;
                    j = j + 1;
                },
            }
        }
        if a_gt && b_gt {
            None
        } else if a_gt {
            Some(Ordering::Greater)
        } else if b_gt {
            Some(Ordering::Less)
        } else {
            Some(Ordering::Equal)
        }
    }
}

/// The identifiers at which two clocks' counters differ.
pub open spec fn differing(a: Map<Seq<char>, int>, b: Map<Seq<char>, int>) -> Set<Seq<char>> {
    Set::new(|k: Seq<char>| counter(a, k) != counter(b, k))
}

impl vectime {
    /// The number of identifiers at which the two clocks' counters differ.
    pub fn disagreements(&self, other: &vectime) -> (r: u128)
        ensures
            differing(self@, other@).finite(),
            r == differing(self@, other@).len(),
    {
        proof {
            use_type_invariant(self);
            use_type_invariant(other);
        }
        let a = &self.entries;
        let b = &other.entries;
        let ghost ma = self@;
        let ghost mb = other@;
        let ghost mut seen: Set<Seq<char>> = Set::empty();
        let mut count: u128 = 0;
        let mut i: usize = 0;
        let mut j: usize = 0;
        proof {
            assert forall|k: Seq<char>|
                (0 < a@.len() ==> key_lt(k, a@[0].0@)) && (0 < b@.len() ==> key_lt(
                    k,
                    b@[0].0@,
                )) implies counter(ma, k) == 0 && counter(mb, k) == 0 by {
                lemma_absent_between(a@, 0, k);
                lemma_absent_between(b@, 0, k);
            }
        }
        while i < a.len() || j < b.len()
            invariant
                sorted(a@),
                sorted(b@),
                ma == entries_map(a@),
                mb == entries_map(b@),
                i <= a@.len(),
                j <= b@.len(),
                seen.finite(),
                count == seen.len(),
                count <= i + j,
                forall|k: Seq<char>| #[trigger]
                    seen.contains(k) <==> (i < a@.len() ==> key_lt(k, a@[i as int].0@)) && (j
                        < b@.len() ==> key_lt(k, b@[j as int].0@)) && counter(ma, k) != counter(
                        mb,
                        k,
                    ),
                i < a@.len() && j > 0 ==> key_lt(b@[j - 1].0@, a@[i as int].0@),
                j < b@.len() && i > 0 ==> key_lt(a@[i - 1].0@, b@[j as int].0@),
            decreases a@.len() + b@.len() - i - j,
        {
            let step = if i == a.len() {
                Ordering::Greater
            } else if j == b.len() {
                Ordering::Less
            } else {
                compare_keys(a[i].0.as_str(), b[j].0.as_str())
            };
            match step {
                Ordering::Less => {
                    let ghost key = a@[i as int].0@;
                    proof {
                        lemma_step_one(a@, b@, i as int, j as int);
                    }
                    if a[i].1 != 0 {
                        proof {
                            seen = seen.insert(key);
                        }
                        count = count + 1;
                    }
                    i = i + 1;
                },
                Ordering::Greater => {
                    let ghost key = b@[j as int].0@;
                    proof {
                        lemma_step_one(b@, a@, j as int, i as int);
                    }
                    if b[j].1 != 0 {
                        proof {
                            seen = seen.insert(key);
                        }
                        count = count + 1;
                    }
                    j = j + 1;
                },
                Ordering::Equal => {
                    let ghost key = a@[i as int].0@;
                    proof {
                        lemma_step_both(a@, b@, i as int, j as int);
                    }
                    if a[i].1 != b[j].1 {
                        proof {
                            seen = seen.insert(key);
                        }
                        count = count + 1;
                    }
                    i = i + 1;
                    j = j + 1;
                },
            }
        }
        proof {
            assert(seen =~= differing(ma, mb));
        }
        count
    }
}

/// Sum of all counters of a finite map.
pub open spec fn total(m: Map<Seq<char>, int>) -> int
    decreases m.dom().len(),
{
    if m.dom().finite() && m.dom().len() > 0 {
        let k = m.dom().choose();
        m[k] + total(m.remove(k))
    } else {
        0
    }
}

/// The sum does not depend on which identifier is taken out first.
pub proof fn lemma_total_remove(m: Map<Seq<char>, int>, k: Seq<char>)
    requires
        m.dom().finite(),
        m.contains_key(k),
    ensures
        total(m) == m[k] + total(m.remove(k)),
    decreases m.dom().len(),
{
    let c = m.dom().choose();
    if c != k {
        lemma_total_remove(m.remove(c), k);
        lemma_total_remove(m.remove(k), c);
        assert(m.remove(c).remove(k) =~= m.remove(k).remove(c));
    }
}

pub proof fn lemma_total_insert(m: Map<Seq<char>, int>, k: Seq<char>, v: int)
    requires
        m.dom().finite(),
        !m.contains_key(k),
    ensures
        total(m.insert(k, v)) == v + total(m),
{
    lemma_total_remove(m.insert(k, v), k);
    assert(m.insert(k, v).remove(k) =~= m);
}

/// A map that is pointwise at most another, with fewer identifiers and the
/// other's counters non-negative, has at most its sum.
pub proof fn lemma_total_mono(m1: Map<Seq<char>, int>, m2: Map<Seq<char>, int>)
    requires
        valid_clock(m2),
        m1.dom().subset_of(m2.dom()),
        forall|k| #[trigger] m1.contains_key(k) ==> m1[k] <= m2[k],
    ensures
        total(m1) <= total(m2),
    decreases m2.dom().len(),
{
    vstd::set_lib::lemma_len_subset(m1.dom(), m2.dom());
    if m2.dom().len() > 0 {
        let k = m2.dom().choose();
        lemma_total_remove(m2, k);
        if m1.contains_key(k) {
            lemma_total_remove(m1, k);
            lemma_total_mono(m1.remove(k), m2.remove(k));
        } else {
            assert(m1.dom().subset_of(m2.remove(k).dom()));
            lemma_total_mono(m1, m2.remove(k));
        }
    } else {
        assert(m1.dom() =~= Set::empty());
        assert(m2.dom() =~= Set::empty());
    }
}

/// The entries before `i` describe a part of what all of them describe.
proof fn lemma_prefix_submap(s: Seq<(String, i64)>, i: int)
    requires
        sorted(s),
        0 <= i <= s.len(),
    ensures
        entries_map(s.take(i)).dom().subset_of(entries_map(s).dom()),
        forall|k| #[trigger]
            entries_map(s.take(i)).contains_key(k) ==> entries_map(s.take(i))[k] == entries_map(
                s,
            )[k],
{
    let t = s.take(i);
    lemma_entries_map_dom(s);
    lemma_entries_map_dom(t);
    assert(sorted(t)) by {
        assert forall|x: int, y: int| 0 <= x < y < t.len() implies key_lt(
            #[trigger] t[x].0@,
            #[trigger] t[y].0@,
        ) by {
            assert(s[x] == t[x] && s[y] == t[y]);
        }
    }
    assert forall|k| #[trigger] entries_map(t).contains_key(k) implies entries_map(s).contains_key(
        k,
    ) && entries_map(t)[k] == entries_map(s)[k] by {
        let p = choose|p: int| 0 <= p < t.len() && t[p].0@ == k;
        lemma_entries_map_at(t, p);
        lemma_entries_map_at(s, p);
    }
}

impl vectime {
    /// The counter of `key`, 0 when absent.
    fn lookup(&self, key: &str) -> (r: i64)
        ensures
            r == self.value(key@),
    {
        proof {
            use_type_invariant(self);
        }
        let a = &self.entries;
        let mut i: usize = 0;
        while i < a.len()
            invariant
                sorted(a@),
                i <= a@.len(),
                self@ == entries_map(a@),
                forall|p: int| 0 <= p < i ==> #[trigger] a@[p].0@ != key@,
            decreases a@.len() - i,
        {
            if let Ordering::Equal = compare_keys(a[i].0.as_str(), key) {
                proof {
                    lemma_entries_map_at(a@, i as int);
                }
                return a[i].1;
            }
            i = i + 1;
        }
        proof {
            lemma_entries_map_dom(a@);
        }
        0
    }
}

/// Returns the counter at `key`, 0 when the clock has none.
pub fn valueat(timestamp: vectime, key: String) -> (r: i64)
    ensures
        r == timestamp.value(key@),
{
    timestamp.lookup(key.as_str())
}

/// Returns the sum of all counters of the clock.
pub fn valueof(timestamp: vectime) -> (r: i64)
    requires
        total(timestamp@) <= i64::MAX,
    ensures
        r == total(timestamp@),
{
    match try_valueof(timestamp) {
        Some(v) => v,
        None => 0,
    }
}

/// The sum of all counters, or `None` when it does not fit in an `i64`.
pub fn try_valueof(timestamp: vectime) -> (r: Option<i64>)
    ensures
        r is Some <==> total(timestamp@) <= i64::MAX,
        r is Some ==> r->0 == total(timestamp@),
{
    proof {
        use_type_invariant(&timestamp);
        timestamp.lemma_valid();
    }
    let a = &timestamp.entries;
    let mut sum: i64 = 0;
    let mut i: usize = 0;
    proof {
        assert(entries_map(a@.take(0)) =~= Map::empty());
    }
    while i < a.len()
        invariant
            sorted(a@),
            nonneg(a@),
            i <= a@.len(),
            timestamp@ == entries_map(a@),
            valid_clock(entries_map(a@)),
            sum == total(entries_map(a@.take(i as int))),
        decreases a@.len() - i,
    {
        proof {
            let m = entries_map(a@.take(i as int));
            lemma_take_push(a@, i as int);
            lemma_entries_map_dom(a@.take(i as int));
            lemma_absent_above(a@.take(i as int), a@[i as int].0@);
            lemma_total_insert(m, a@[i as int].0@, a@[i as int].1 as int);
            lemma_prefix_submap(a@, i + 1);
            lemma_total_mono(entries_map(a@.take(i + 1)), entries_map(a@));
        }
        match sum.checked_add(a[i].1) {
            Some(next) => {
                sum = next;
            },
            None => {
                return None;
            },
        }
        i = i + 1;
    }
    proof {
        assert(a@.take(a@.len() as int) =~= a@);
    }
    Some(sum)
}

/// Adds `delta` to the counter at `id`; a `delta` that is not positive leaves
/// the clock as it is.
pub fn increment(vt: vectime, id: String, delta: i64) -> (r: vectime)
    requires
        delta <= 0 || vt.value(id@) + delta <= i64::MAX,
    ensures
        delta <= 0 ==> r@ == vt@,
        delta > 0 ==> r@ == vt@.insert(id@, vt.value(id@) + delta),
{
    if delta <= 0 {
        return vt;
    }
    proof {
        use_type_invariant(&vt);
        vt.lemma_valid();
    }
    let cur = vt.lookup(id.as_str());
    let ghost key = id@;
    let e = (id, cur + delta);
    let single = vectime { entries: vec![e] };
    proof {
        lemma_entries_map_push(Seq::empty(), e);
        assert(single.entries@ =~= Seq::<(String, i64)>::empty().push(e));
        assert(Seq::<(String, i64)>::empty().len() == 0);
        assert(entries_map(Seq::<(String, i64)>::empty()) == Map::<Seq<char>, int>::empty());
    }
    let r = max(vt, single);
    proof {
        assert(merged(vt@, single@) =~= vt@.insert(key, vt.value(key) + delta));
    }
    r
}

impl Default for vectime {
    /// The empty clock.
    fn default() -> (r: vectime)
        ensures
            r@ == Map::<Seq<char>, int>::empty(),
    {
        vectime::new()
    }
}

/// Merging a clock with itself gives it back.
pub proof fn lemma_merge_idempotent(a: Map<Seq<char>, int>)
    ensures
        merged(a, a) == a,
{
    assert(merged(a, a) =~= a);
}

/// The order of the two clocks does not matter to a merge.
pub proof fn lemma_merge_commutative(a: Map<Seq<char>, int>, b: Map<Seq<char>, int>)
    ensures
        merged(a, b) == merged(b, a),
{
    assert(merged(a, b) =~= merged(b, a));
}

/// Merges may be grouped either way.
pub proof fn lemma_merge_associative(
    a: Map<Seq<char>, int>,
    b: Map<Seq<char>, int>,
    c: Map<Seq<char>, int>,
)
    ensures
        merged(merged(a, b), c) == merged(a, merged(b, c)),
{
    assert(merged(merged(a, b), c) =~= merged(a, merged(b, c)));
}

/// The sum of a merge is at least the sum of either clock merged.
pub proof fn lemma_total_of_merge(a: Map<Seq<char>, int>, b: Map<Seq<char>, int>)
    requires
        valid_clock(a),
        valid_clock(b),
    ensures
        total(merged(a, b)) >= total(a),
        total(merged(a, b)) >= total(b),
{
    let m = merged(a, b);
    assert(m.dom() =~= a.dom().union(b.dom()));
    assert(valid_clock(m));
    assert(a.dom().subset_of(m.dom()));
    assert(b.dom().subset_of(m.dom()));
    lemma_total_mono(a, m);
    lemma_total_mono(b, m);
}

/// Entries that form a clock: identifiers strictly ascending, counters
/// non-negative.
pub open spec fn well_formed_entries(s: Seq<(String, i64)>) -> bool {
    sorted(s) && nonneg(s)
}

/// The clock that stored entries describe, if they form one.
pub open spec fn decoded(s: Seq<(String, i64)>) -> Option<Map<Seq<char>, int>> {
    if well_formed_entries(s) {
        Some(entries_map(s))
    } else {
        None
    }
}

/// Reading back the stored form of a clock gives that clock: entries that
/// `to_entries` can return for `clock` are accepted and describe it.
pub proof fn lemma_round_trip(clock: Map<Seq<char>, int>, stored: Seq<(String, i64)>)
    requires
        well_formed_entries(stored),
        entries_map(stored) == clock,
    ensures
        decoded(stored) == Some(clock),
{
}

/// Entry by entry the same identifiers and counters.
pub open spec fn same_entries(s1: Seq<(String, i64)>, s2: Seq<(String, i64)>) -> bool {
    &&& s1.len() == s2.len()
    &&& forall|p: int| 0 <= p < s1.len() ==> #[trigger] s1[p].0@ == s2[p].0@ && s1[p].1 == s2[p].1
}

proof fn lemma_same_entries(s1: Seq<(String, i64)>, s2: Seq<(String, i64)>)
    requires
        same_entries(s1, s2),
    ensures
        entries_map(s1) == entries_map(s2),
        sorted(s1) ==> sorted(s2),
        nonneg(s1) ==> nonneg(s2),
    decreases s1.len(),
{
    if s1.len() > 0 {
        lemma_same_entries(s1.drop_last(), s2.drop_last());
        assert(s1[s1.len() - 1].0@ == s2[s2.len() - 1].0@);
    }
    if sorted(s1) {
        assert forall|p: int, q: int| 0 <= p < q < s2.len() implies key_lt(
            #[trigger] s2[p].0@,
            #[trigger] s2[q].0@,
        ) by {
            assert(s1[p].0@ == s2[p].0@ && s1[q].0@ == s2[q].0@);
        }
    }
    if nonneg(s1) {
        assert forall|p: int| 0 <= p < s2.len() implies #[trigger] s2[p].1 >= 0 by {
            assert(s1[p].0@ == s2[p].0@);
        }
    }
}

impl vectime {
    /// The entries of the clock, in ascending order of identifier: the form
    /// in which it is stored.
    pub fn to_entries(&self) -> (r: Vec<(String, i64)>)
        ensures
            well_formed_entries(r@),
            entries_map(r@) == self@,
    {
        proof {
            use_type_invariant(self);
        }
        let a = &self.entries;
        let mut out: Vec<(String, i64)> = Vec::new();
        let mut i: usize = 0;
        while i < a.len()
            invariant
                i <= a@.len(),
                same_entries(out@, a@.take(i as int)),
            decreases a@.len() - i,
        {
            let ghost before = out@;
            out.push((a[i].0.clone(), a[i].1));
            proof {
                let t = a@.take(i + 1);
                assert forall|p: int| 0 <= p < out@.len() implies #[trigger] out@[p].0@ == t[p].0@
                    && out@[p].1 == t[p].1 by {
                    if p < i {
                        assert(before[p] == out@[p]);
                        assert(a@.take(i as int)[p] == t[p]);
                        assert(before[p].0@ == a@.take(i as int)[p].0@);
                    }
                }
                assert(out@.len() == t.len());
                assert(same_entries(out@, t));
            }
            i = i + 1;
        }
        proof {
            assert(a@.take(a@.len() as int) =~= a@);
            assert forall|p: int| 0 <= p < a@.len() implies #[trigger] a@[p].0@ == out@[p].0@
                && a@[p].1 == out@[p].1 by {
                assert(out@[p].0@ == a@[p].0@);
            }
            lemma_same_entries(a@, out@);
        }
        out
    }

    /// Rebuilds a clock from stored entries; `None` unless they are in
    /// strictly ascending order of identifier with non-negative counters.
    /// A negative counter is refused here, not carried along: every counter
    /// of a clock is non-negative, which `valueof` and the merge laws rely on.
    pub fn from_entries(v: Vec<(String, i64)>) -> (r: Option<vectime>)
        ensures
            match r {
                Some(c) => decoded(v@) == Some(c@),
                None => decoded(v@) is None,
            },
    {
        let mut i: usize = 0;
        while i < v.len()
            invariant
                i <= v@.len(),
                sorted(v@.take(i as int)),
                nonneg(v@.take(i as int)),
            decreases v@.len() - i,
        {
            if v[i].1 < 0 {
                return None;
            }
            if i > 0 {
                match compare_keys(v[i - 1].0.as_str(), v[i].0.as_str()) {
                    Ordering::Less => {},
                    _ => {
                        proof {
                            lemma_key_lt_asymmetric(v@[i - 1].0@, v@[i as int].0@);
                            lemma_key_lt_irreflexive(v@[i as int].0@);
                        }
                        return None;
                    },
                }
            }
            proof {
                let t = v@.take(i + 1);
                assert forall|p: int, q: int| 0 <= p < q < t.len() implies key_lt(
                    #[trigger] t[p].0@,
                    #[trigger] t[q].0@,
                ) by {
                    assert(v@.take(i as int)[p] == t[p]);
                    if q < i {
                        assert(v@.take(i as int)[q] == t[q]);
                    } else if p < i - 1 {
                        assert(v@.take(i as int)[i - 1] == t[i - 1]);
                        lemma_key_lt_transitive(t[p].0@, t[i - 1].0@, t[q].0@);
                    }
                }
                assert forall|p: int| 0 <= p < t.len() implies #[trigger] t[p].1 >= 0 by {
                    if p < i {
                        assert(v@.take(i as int)[p] == t[p]);
                    }
                }
            }
            i = i + 1;
        }
        proof {
            assert(v@.take(v@.len() as int) =~= v@);
        }
        Some(vectime { entries: v })
    }
}

} // verus!
