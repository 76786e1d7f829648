//! Ranking skill: how well a hazard score orders units with and without an event.
//!
//! [`roc_auc`], [`pr_auc`] and [`pod_at_area`] measure discrimination where
//! threshold-dependent scores are uninformative. Each is stated over pairs or
//! sets of units, independently of how they are computed.

use vstd::prelude::*;
use vstd::set_lib::set_int_range;

use crate::accuracy::{
    is_whole, leaves_neutral, lemma_scales, rounds_closely, rounds_to, rounds_up_exactly, tiny, ulp,
};
use crate::arithmetic::{counts, deterministic, divides, multiplies, ratio, ratio_of, rounds_up, sums, Arithmetic};
use crate::binary64::{
    absolute, lemma_rank_orders_numbers, lemma_small_numbers, lemma_unit_number, lemma_whole_part, one, zero, Binary64,
};
use crate::error::{Error, Reason};
use crate::keyset::{Key, KeySet};
use crate::matching::lemma_count_next;
use crate::series::{lemma_bound_of_product, lemma_part_of, lemma_quotient_of, sum};

verus! {

/// The position of a unit in a ranking: its key, and its index among equal keys.
#[derive(Debug, Clone, Copy)]
pub struct Ranked {
    pub key: i64,
    pub index: usize,
}

impl Key for Ranked {
    open spec fn code(self) -> int {
        self.key * 0x1_0000_0000_0000_0000 + self.index
    }

    proof fn code_is_injective(a: Self, b: Self) {
    }

    fn precedes(self, other: Self) -> (r: bool) {
        self.key < other.key || (self.key == other.key && self.index < other.index)
    }
}

/// Whether the unit at `a` comes before the one at `b`: by key, then by index.
pub open spec fn comes_before(keys: Seq<i64>, a: int, b: int) -> bool {
    keys[a] < keys[b] || (keys[a] == keys[b] && a < b)
}

/// A list holds every index once, in the order of the keys; equal keys keep the
/// order of their indices.
pub open spec fn ranks(keys: Seq<i64>, order: Seq<usize>) -> bool {
    &&& order.len() == keys.len()
    &&& forall|a: int| 0 <= a < order.len() ==> (#[trigger] order[a]) < keys.len()
    &&& forall|a: int, b: int|
        0 <= a < b < order.len() ==> comes_before(keys, #[trigger] order[a] as int, #[trigger] order[b] as int)
    &&& forall|i: int| 0 <= i < keys.len() ==> #[trigger] order.contains(i as usize)
}

/// The indices of a list of keys in ascending, stable order.
pub fn order_by(keys: &[i64]) -> (r: Vec<usize>)
    ensures
        ranks(keys@, r@),
{
    let mut items: Vec<Ranked> = Vec::new();
    let mut i: usize = 0;
    while i < keys.len()
        invariant
            i <= keys@.len(),
            items@.len() == i,
            forall|a: int| 0 <= a < i ==> #[trigger] items@[a] == (Ranked { key: keys@[a], index: a as usize }),
        decreases keys@.len() - i,
    {
        items.push(Ranked { key: keys[i], index: i });
        i = i + 1;
    }
    let set: KeySet<Ranked> = KeySet::from_keys(items.as_slice());
    let sorted: &[Ranked] = set.as_slice();
    proof {
        set.lemma_listed();
        assert(items@.no_duplicates());
        items@.unique_seq_to_set();
        assert forall|a: int| 0 <= a < sorted@.len() implies (#[trigger] sorted@[a]).index < keys@.len() && sorted@[a].key
            == keys@[sorted@[a].index as int] by {
            assert(set@.contains(sorted@[a]));
            assert(items@.contains(sorted@[a]));
        }
        assert forall|b: int| 0 <= b < keys@.len() implies sorted@.contains(
            Ranked { key: keys@[b], index: #[trigger] (b as usize) },
        ) by {
            assert(items@.contains(items@[b]));
            assert(set@.contains(items@[b]));
        }
    }
    let mut r: Vec<usize> = Vec::new();
    i = 0;
    while i < sorted.len()
        invariant
            i <= sorted@.len(),
            r@.len() == i,
            forall|a: int| 0 <= a < i ==> #[trigger] r@[a] == sorted@[a].index,
        decreases sorted@.len() - i,
    {
        r.push(sorted[i].index);
        i = i + 1;
    }
    proof {
        assert forall|b: int| 0 <= b < keys@.len() implies #[trigger] r@.contains(b as usize) by {
            let item = Ranked { key: keys@[b], index: b as usize };
            assert(sorted@.contains(item));
            let a = choose|a: int| 0 <= a < sorted@.len() && sorted@[a] == item;
            assert(r@[a] == b as usize);
        }
        assert forall|a: int, b: int| 0 <= a < b < r@.len() implies comes_before(
            keys@,
            #[trigger] r@[a] as int,
            #[trigger] r@[b] as int,
        ) by {
            assert(sorted@[a].code() < sorted@[b].code());
        }
    }
    r
}

/// The indices of a ranking as numbers.
pub open spec fn as_numbers(order: Seq<usize>) -> Seq<int> {
    order.map_values(|i: usize| i as int)
}

/// The numbers of a ranking are all indices, each once.
pub proof fn lemma_ranks(keys: Seq<i64>, order: Seq<usize>)
    requires
        ranks(keys, order),
        keys.len() <= usize::MAX,
    ensures
        as_numbers(order).len() == keys.len(),
        as_numbers(order).no_duplicates(),
        as_numbers(order).to_set() == set_int_range(0, keys.len() as int),
        forall|a: int| 0 <= a < order.len() ==> 0 <= #[trigger] as_numbers(order)[a] < keys.len(),
{
    let s = as_numbers(order);
    assert forall|a: int, b: int| 0 <= a < s.len() && 0 <= b < s.len() && a != b implies s[a] != s[b] by {
        if a < b {
            assert(comes_before(keys, order[a] as int, order[b] as int));
        } else {
            assert(comes_before(keys, order[b] as int, order[a] as int));
        }
    }
    assert forall|i: int| 0 <= i < keys.len() implies s.to_set().contains(i) by {
        assert(order.contains(i as usize));
        let a = choose|a: int| 0 <= a < order.len() && order[a] == i as usize;
        assert(s[a] == i);
    }
    assert(s.to_set() == set_int_range(0, keys.len() as int));
}

/// The units with a given label.
pub open spec fn labelled(labels: Seq<bool>, value: bool) -> Set<int> {
    set_int_range(0, labels.len() as int).filter(|i: int| labels[i] == value)
}

/// Pairs of a unit with an event and a unit without one, in which the first has
/// the higher score.
pub open spec fn pairs_won(scores: Seq<Binary64>, labels: Seq<bool>) -> Set<(int, int)> {
    Set::new(
        |p: (int, int)|
            0 <= p.0 < labels.len() && 0 <= p.1 < labels.len() && labels[p.0] && !labels[p.1] && scores[p.1].rank()
                < scores[p.0].rank(),
    )
}

/// Pairs of a unit with an event and a unit without one, in which both have the
/// same score.
pub open spec fn pairs_tied(scores: Seq<Binary64>, labels: Seq<bool>) -> Set<(int, int)> {
    Set::new(
        |p: (int, int)|
            0 <= p.0 < labels.len() && 0 <= p.1 < labels.len() && labels[p.0] && !labels[p.1] && scores[p.1].rank()
                == scores[p.0].rank(),
    )
}

/// Twice the Mann–Whitney statistic: two for every pair won, one for every tie.
pub open spec fn double_u(scores: Seq<Binary64>, labels: Seq<bool>) -> nat {
    2 * pairs_won(scores, labels).len() + pairs_tied(scores, labels).len()
}

/// Whether no score is a NaN.
pub open spec fn ordered(scores: Seq<Binary64>) -> bool {
    forall|i: int| 0 <= i < scores.len() ==> !(#[trigger] scores[i]).nan()
}

/// The error for scores and labels that are not aligned.
pub open spec fn unaligned(scores: Seq<Binary64>, labels: Seq<bool>) -> Error {
    Error::InvalidParameter {
        name: "labels",
        reason: Reason::Counts {
            before: "",
            first: scores.len() as usize,
            between: " scores but ",
            second: labels.len() as usize,
            after: " labels",
        },
    }
}

fn unaligned_error(scores: &[Binary64], labels: &[bool]) -> (r: Error)
    ensures
        r == unaligned(scores@, labels@),
{
    Error::InvalidParameter {
        name: "labels",
        reason: Reason::Counts {
            before: "",
            first: scores.len(),
            between: " scores but ",
            second: labels.len(),
            after: " labels",
        },
    }
}

/// How many units have a given label.
pub fn count_labelled(labels: &[bool], value: bool) -> (r: usize)
    ensures
        r == labelled(labels@, value).len(),
        labelled(labels@, value).finite(),
        r <= labels@.len(),
{
    let mut n: usize = 0;
    let mut i: usize = 0;
    let ghost s = Seq::new(labels@.len(), |k: int| k);
    let ghost p = |k: int| labels@[k] == value;
    assert(s.no_duplicates());
    assert(s.take(0).to_set().filter(p) == Set::<int>::empty());
    while i < labels.len()
        invariant
            i <= labels@.len(),
            s == Seq::new(labels@.len(), |k: int| k),
            s.no_duplicates(),
            p == (|k: int| labels@[k] == value),
            n == s.take(i as int).to_set().filter(p).len(),
            n <= i,
        decreases labels@.len() - i,
    {
        proof {
            lemma_count_next(s, i as int, p);
        }
        if labels[i] == value {
            n = n + 1;
        }
        i = i + 1;
    }
    proof {
        assert(s.take(s.len() as int) == s);
        assert forall|k: int| set_int_range(0, labels@.len() as int).contains(k) implies s.to_set().contains(k) by {
            assert(s[k] == k);
        }
        assert(s.to_set() == set_int_range(0, labels@.len() as int));
        vstd::set_lib::lemma_int_range(0, labels@.len() as int);
        set_int_range(0, labels@.len() as int).lemma_len_filter(p);
        assert(labelled(labels@, value) == s.to_set().filter(p));
    }
    n
}

/// The positions of all scores among the numbers, or their opposites.
fn positions(scores: &[Binary64], descending: bool) -> (r: Vec<i64>)
    ensures
        r@.len() == scores@.len(),
        forall|i: int|
            0 <= i < scores@.len() ==> #[trigger] r@[i] == if descending {
                -scores@[i].rank()
            } else {
                scores@[i].rank()
            },
{
    let mut r: Vec<i64> = Vec::new();
    let mut i: usize = 0;
    while i < scores.len()
        invariant
            i <= scores@.len(),
            r@.len() == i,
            forall|k: int|
                0 <= k < i ==> #[trigger] r@[k] == if descending {
                    -scores@[k].rank()
                } else {
                    scores@[k].rank()
                },
        decreases scores@.len() - i,
    {
        let p: i64 = scores[i].position();
        assert(-0x7FFF_FFFF_FFFF_FFFF <= p);
        r.push(
            if descending {
                -p
            } else {
                p
            },
        );
        i = i + 1;
    }
    r
}

/// The pairs of a set of units that satisfy a predicate.
pub open spec fn pairs_in(units: Set<int>, p: spec_fn((int, int)) -> bool) -> Set<(int, int)> {
    Set::new(|q: (int, int)| units.contains(q.0) && units.contains(q.1) && p(q))
}

/// One more unit adds a pair for every partner that it has.
proof fn lemma_pairs_grow(
    units: Set<int>,
    unit: int,
    p: spec_fn((int, int)) -> bool,
    partners: Set<int>,
    unit_first: bool,
)
    requires
        pairs_in(units, p).finite(),
        partners.finite(),
        !units.contains(unit),
        !p((unit, unit)),
        forall|x: int| #[trigger] partners.contains(x) <==> units.contains(x) && p(if unit_first { (unit, x) } else { (x, unit) }),
        forall|x: int| #[trigger] units.contains(x) ==> !p(if unit_first { (x, unit) } else { (unit, x) }),
    ensures
        pairs_in(units.insert(unit), p).finite(),
        pairs_in(units.insert(unit), p).len() == pairs_in(units, p).len() + partners.len(),
{
    let f = |x: int| if unit_first { (unit, x) } else { (x, unit) };
    let added = partners.map(f);
    assert forall|x: int, y: int| #[trigger] f(x) == #[trigger] f(y) implies x == y by {}
    vstd::set_lib::lemma_map_size(partners, added, f);
    partners.lemma_map_finite(f);
    let all = pairs_in(units.insert(unit), p);
    assert forall|q: (int, int)| all.contains(q) <==> (pairs_in(units, p) + added).contains(q) by {
        if all.contains(q) && !pairs_in(units, p).contains(q) {
            if q.0 == unit {
                assert(q.1 != unit);
                assert(unit_first) by {
                    assert(units.contains(q.1));
                    assert((unit, q.1) == q);
                }
                assert(partners.contains(q.1) && f(q.1) == q);
            } else {
                assert(q.1 == unit);
                assert(!unit_first) by {
                    assert(units.contains(q.0));
                    assert((q.0, unit) == q);
                }
                assert(partners.contains(q.0) && f(q.0) == q);
            }
        }
        if added.contains(q) {
            let x = choose|x: int| partners.contains(x) && f(x) == q;
            assert(units.contains(x));
        }
    }
    assert(all == pairs_in(units, p) + added);
    vstd::set_lib::lemma_set_disjoint_lens(pairs_in(units, p), added);
}

/// Area under the ROC curve of a ranked hazard score against binary labels.
///
/// This is the Mann–Whitney statistic: the share of pairs of a unit with and a
/// unit without an event in which the first has the higher score, where a tie
/// counts for half. `None` if either class is empty, since the area is undefined
/// without both positives and negatives.
pub fn roc_auc<A: Arithmetic>(scores: &[Binary64], labels: &[bool]) -> (r: Result<Option<Binary64>, Error>)
    requires
        ({
            let (pos, neg) = (labelled(labels@, true).len(), labelled(labels@, false).len());
            scores@.len() == labels@.len() && pos > 0 && neg > 0 ==> ordered(scores@) && 2 * pos * neg <= u64::MAX
        }),
    ensures
        match r {
            Err(e) => scores@.len() != labels@.len() && e == unaligned(scores@, labels@),
            Ok(area) => {
                let (pos, neg) = (labelled(labels@, true).len(), labelled(labels@, false).len());
                &&& scores@.len() == labels@.len()
                &&& match area {
                    Some(v) => pos > 0 && neg > 0 && ratio_of::<A>(
                        double_u(scores@, labels@) as int,
                        2 * pos * neg as int,
                        v,
                    ),
                    None => pos == 0 || neg == 0,
                }
            },
        },
{
    if scores.len() != labels.len() {
        return Err(unaligned_error(scores, labels));
    }
    let positives: usize = count_labelled(labels, true);
    let negatives: usize = count_labelled(labels, false);
    if positives == 0 || negatives == 0 {
        return Ok(None);
    }
    let (numerator, denominator): (u64, u64) = double_statistic(scores, labels, positives, negatives);
    Ok(Some(ratio::<A>(numerator, denominator)))
}

/// The doubled Mann–Whitney statistic and the doubled number of pairs.
fn double_statistic(scores: &[Binary64], labels: &[bool], positives: usize, negatives: usize) -> (r: (u64, u64))
    requires
        scores@.len() == labels@.len(),
        positives == labelled(labels@, true).len(),
        negatives == labelled(labels@, false).len(),
        negatives > 0,
        2 * positives * negatives <= u64::MAX,
    ensures
        r.0 == double_u(scores@, labels@),
        r.1 == 2 * positives * negatives,
{
    let keys: Vec<i64> = positions(scores, false);
    let order: Vec<usize> = order_by(keys.as_slice());
    let n: usize = order.len();
    let ghost s = as_numbers(order@);
    let ghost key = |i: int| scores@[i].rank();
    let ghost won = |q: (int, int)| labels@[q.0] && !labels@[q.1] && scores@[q.1].rank() < scores@[q.0].rank();
    let ghost tied = |q: (int, int)| labels@[q.0] && !labels@[q.1] && scores@[q.1].rank() == scores@[q.0].rank();
    let ghost pos = |i: int| labels@[i] == true;
    let ghost neg = |i: int| labels@[i] == false;
    let mut double: u64 = 0;
    let mut seen_positive: u64 = 0;
    let mut seen_negative: u64 = 0;
    let mut tied_positive: u64 = 0;
    let mut tied_negative: u64 = 0;
    let mut i: usize = 0;
    proof {
        lemma_ranks(keys@, order@);
        let none = s.take(0).to_set();
        assert(none == Set::<int>::empty());
        assert(pairs_in(none, won) == Set::<(int, int)>::empty());
        assert(pairs_in(none, tied) == Set::<(int, int)>::empty());
        assert(none.filter(pos) == Set::<int>::empty());
        assert(none.filter(neg) == Set::<int>::empty());
        assert(2 * 0 * 0 == 0);
    }
    while i < n
        invariant
            i <= n,
            n == order@.len(),
            order@.len() == labels@.len(),
            scores@.len() == labels@.len(),
            keys@.len() == labels@.len(),
            ranks(keys@, order@),
            forall|k: int| 0 <= k < keys@.len() ==> #[trigger] keys@[k] == scores@[k].rank(),
            s == as_numbers(order@),
            s.len() == order@.len(),
            s.no_duplicates(),
            s.to_set() == set_int_range(0, labels@.len() as int),
            key == (|k: int| scores@[k].rank()),
            won == (|q: (int, int)| labels@[q.0] && !labels@[q.1] && scores@[q.1].rank() < scores@[q.0].rank()),
            tied == (|q: (int, int)| labels@[q.0] && !labels@[q.1] && scores@[q.1].rank() == scores@[q.0].rank()),
            pos == (|k: int| labels@[k] == true),
            neg == (|k: int| labels@[k] == false),
            pairs_in(s.take(i as int).to_set(), won).finite(),
            pairs_in(s.take(i as int).to_set(), tied).finite(),
            double == 2 * pairs_in(s.take(i as int).to_set(), won).len() + pairs_in(s.take(i as int).to_set(), tied).len(),
            seen_positive == s.take(i as int).to_set().filter(pos).len(),
            seen_negative == s.take(i as int).to_set().filter(neg).len(),
            i > 0 ==> tied_positive == s.take(i as int).to_set().filter(
                |k: int| labels@[k] && key(k) == key(s[i - 1]),
            ).len(),
            i > 0 ==> tied_negative == s.take(i as int).to_set().filter(
                |k: int| !labels@[k] && key(k) == key(s[i - 1]),
            ).len(),
            tied_positive <= seen_positive <= i,
            tied_negative <= seen_negative <= i,
            i == 0 ==> tied_positive == 0 && tied_negative == 0,
            double <= 2 * seen_positive * seen_negative,
            positives == labelled(labels@, true).len(),
            negatives == labelled(labels@, false).len(),
            2 * positives * negatives <= u64::MAX,
        decreases order@.len() - i,
    {
        let at: usize = order[i];
        let ghost e = at as int;
        let ghost before = s.take(i as int).to_set();
        let ghost after = s.take(i + 1).to_set();
        let ghost level = key(e);
        let ghost level_pos = |k: int| labels@[k] && key(k) == level;
        let ghost level_neg = |k: int| !labels@[k] && key(k) == level;
        let ghost below_neg = |k: int| !labels@[k] && key(k) < level;
        if i > 0 && keys[at] != keys[order[i - 1]] {
            tied_positive = 0;
            tied_negative = 0;
        }
        proof {
            assert(s[i as int] == e);
            assert(s.take(i + 1) == s.take(i as int).push(e));
            s.take(i as int).lemma_push_to_set_commute(e);
            assert(after == before.insert(e));
            vstd::seq_lib::seq_to_set_is_finite(s.take(i as int));
            assert forall|k: int| #[trigger] before.contains(k) implies k != e && key(k) <= level && 0 <= k
                < labels@.len() by {
                let a = choose|a: int| 0 <= a < i && s.take(i as int)[a] == k;
                assert(s[a] == k && order@[a] == k);
                assert(comes_before(keys@, order@[a] as int, order@[i as int] as int));
            }
            before.lemma_len_filter(level_pos);
            before.lemma_len_filter(level_neg);
            before.lemma_len_filter(below_neg);
            before.lemma_len_filter(pos);
            before.lemma_len_filter(neg);
            if i > 0 {
                let last = key(s[i - 1]);
                assert(s[i - 1] == order@[i - 1]);
                assert(keys@[order@[i - 1] as int] == last);
                assert(keys@[e] == level);
                assert(before.contains(s[i - 1])) by {
                    assert(s.take(i as int)[i - 1] == s[i - 1]);
                }
                if last == level {
                    assert(before.filter(level_pos) == before.filter(|k: int| labels@[k] && key(k) == key(s[i - 1])));
                    assert(before.filter(level_neg) == before.filter(|k: int| !labels@[k] && key(k) == key(s[i - 1])));
                } else {
                    assert forall|k: int| before.contains(k) implies key(k) < level by {
                        let a = choose|a: int| 0 <= a < i && s.take(i as int)[a] == k;
                        assert(s[a] == k && order@[a] == k && order@[i - 1] == s[i - 1]);
                        if a < i - 1 {
                            assert(comes_before(keys@, order@[a] as int, order@[i - 1] as int));
                        }
                    }
                    assert(before.filter(level_pos) == Set::<int>::empty());
                    assert(before.filter(level_neg) == Set::<int>::empty());
                }
            } else {
                assert(before.filter(level_pos) == Set::<int>::empty());
                assert(before.filter(level_neg) == Set::<int>::empty());
            }
            assert(tied_positive == before.filter(level_pos).len());
            assert(tied_negative == before.filter(level_neg).len());
            vstd::set_lib::lemma_len_subset(before.filter(level_pos), before.filter(pos));
            assert(before.filter(neg) == before.filter(level_neg) + before.filter(below_neg));
            vstd::set_lib::lemma_set_disjoint_lens(before.filter(level_neg), before.filter(below_neg));
            lemma_count_next(s, i as int, pos);
            lemma_count_next(s, i as int, neg);
            lemma_count_next(s, i as int, level_pos);
            lemma_count_next(s, i as int, level_neg);
            if labels@[e] {
                lemma_pairs_grow(before, e, won, before.filter(below_neg), true);
                lemma_pairs_grow(before, e, tied, before.filter(level_neg), true);
            } else {
                lemma_pairs_grow(before, e, won, Set::<int>::empty(), false);
                lemma_pairs_grow(before, e, tied, before.filter(level_pos), false);
            }
            assert(after.filter(level_pos) == after.filter(|k: int| labels@[k] && key(k) == key(s[i + 1 - 1])));
            assert(after.filter(level_neg) == after.filter(|k: int| !labels@[k] && key(k) == key(s[i + 1 - 1])));
            lemma_seen_at_most(s, labels@, i + 1);
            lemma_products(
                double as int,
                seen_positive as int,
                seen_negative as int,
                positives as int,
                negatives as int,
            );
        }
        if labels[at] {
            double = double + 2 * (seen_negative - tied_negative) + tied_negative;
            seen_positive = seen_positive + 1;
            tied_positive = tied_positive + 1;
        } else {
            double = double + tied_positive;
            seen_negative = seen_negative + 1;
            tied_negative = tied_negative + 1;
        }
        i = i + 1;
    }
    proof {
        assert(s.take(s.len() as int) == s);
        assert(pairs_in(s.to_set(), won) == pairs_won(scores@, labels@));
        assert(pairs_in(s.to_set(), tied) == pairs_tied(scores@, labels@));
        assert(2 * positives <= 2 * positives * negatives) by (nonlinear_arith)
            requires
                negatives >= 1,
        ;
    }
    (double, 2 * positives as u64 * negatives as u64)
}

/// A part of all units holds at most as many with a label as there are.
proof fn lemma_seen_at_most(s: Seq<int>, labels: Seq<bool>, n: int)
    requires
        0 <= n <= s.len(),
        s.to_set() == set_int_range(0, labels.len() as int),
    ensures
        s.take(n).to_set().filter(|k: int| labels[k] == true).len() <= labelled(labels, true).len(),
        s.take(n).to_set().filter(|k: int| labels[k] == false).len() <= labelled(labels, false).len(),
{
    let part = s.take(n).to_set();
    assert forall|k: int| part.contains(k) implies s.to_set().contains(k) by {
        let a = choose|a: int| 0 <= a < n && s.take(n)[a] == k;
        assert(s[a] == k);
    }
    let all = set_int_range(0, labels.len() as int);
    vstd::set_lib::lemma_int_range(0, labels.len() as int);
    all.lemma_len_filter(|k: int| labels[k] == true);
    all.lemma_len_filter(|k: int| labels[k] == false);
    vstd::set_lib::lemma_len_subset(part.filter(|k: int| labels[k] == true), labelled(labels, true));
    vstd::set_lib::lemma_len_subset(part.filter(|k: int| labels[k] == false), labelled(labels, false));
}

/// The doubled statistic stays within twice the number of pairs.
proof fn lemma_products(double: int, pos: int, neg: int, positives: int, negatives: int)
    requires
        double <= 2 * pos * neg,
        0 <= pos <= positives,
        0 <= neg <= negatives,
    ensures
        double + 2 * neg <= 2 * (pos + 1) * neg,
        double + 2 * pos <= 2 * pos * (neg + 1),
        pos + 1 <= positives ==> 2 * (pos + 1) * neg <= 2 * positives * negatives,
        neg + 1 <= negatives ==> 2 * pos * (neg + 1) <= 2 * positives * negatives,
{
    assert(2 * (pos + 1) * neg == 2 * pos * neg + 2 * neg) by (nonlinear_arith);
    assert(2 * pos * (neg + 1) == 2 * pos * neg + 2 * pos) by (nonlinear_arith);
    if pos + 1 <= positives {
        assert(2 * (pos + 1) * neg <= 2 * positives * negatives) by (nonlinear_arith)
            requires
                0 <= pos + 1 <= positives,
                0 <= neg <= negatives,
        ;
    }
    if neg + 1 <= negatives {
        assert(2 * pos * (neg + 1) <= 2 * positives * negatives) by (nonlinear_arith)
            requires
                0 <= pos <= positives,
                0 <= neg + 1 <= negatives,
        ;
    }
}

/// Units whose score is not below a level.
pub open spec fn warned_at(scores: Seq<Binary64>, level: int) -> Set<int> {
    set_int_range(0, scores.len() as int).filter(|i: int| scores[i].rank() >= level)
}

/// Units with an event whose score is not below a level.
pub open spec fn caught_at(scores: Seq<Binary64>, labels: Seq<bool>, level: int) -> Set<int> {
    set_int_range(0, scores.len() as int).filter(|i: int| labels[i] && scores[i].rank() >= level)
}

/// Units with an event whose score is at a level.
pub open spec fn met_at(scores: Seq<Binary64>, labels: Seq<bool>, level: int) -> Set<int> {
    set_int_range(0, scores.len() as int).filter(|i: int| labels[i] && scores[i].rank() == level)
}

/// The levels of the scores of units with an event.
pub open spec fn event_levels(scores: Seq<Binary64>, labels: Seq<bool>) -> Set<int> {
    set_int_range(0, scores.len() as int).filter(|i: int| labels[i]).map(|i: int| scores[i].rank())
}

/// `after` is `before` plus the share of events met at a level, weighted with the
/// precision at that level.
pub open spec fn precision_step<A: Arithmetic>(
    scores: Seq<Binary64>,
    labels: Seq<bool>,
    level: int,
    before: Binary64,
    after: Binary64,
) -> bool {
    exists|precision: Binary64, recall: Binary64, term: Binary64|
        {
            &&& ratio_of::<A>(
                caught_at(scores, labels, level).len() as int,
                warned_at(scores, level).len() as int,
                precision,
            )
            &&& ratio_of::<A>(
                met_at(scores, labels, level).len() as int,
                labelled(labels, true).len() as int,
                recall,
            )
            &&& #[trigger] multiplies::<A>(precision, recall, term)
            &&& #[trigger] sums::<A>(before, term, after)
        }
}

/// The partial sums over descending levels, from zero.
pub open spec fn precision_steps<A: Arithmetic>(
    scores: Seq<Binary64>,
    labels: Seq<bool>,
    levels: Seq<int>,
    partials: Seq<Binary64>,
) -> bool {
    &&& partials.len() == levels.len() + 1
    &&& partials[0] == zero()
    &&& forall|a: int, b: int| 0 <= a < b < levels.len() ==> #[trigger] levels[a] > #[trigger] levels[b]
    &&& levels.to_set() == event_levels(scores, labels)
    &&& forall|k: int|
        0 <= k < levels.len() ==> precision_step::<A>(
            scores,
            labels,
            #[trigger] levels[k],
            partials[k],
            partials[k + 1],
        )
}

/// `r` is the average precision: over the distinct scores of units with an event,
/// from the highest down, the sum of the precision among the units not below the
/// score, weighted with the share of the events at the score.
pub open spec fn average_precision<A: Arithmetic>(scores: Seq<Binary64>, labels: Seq<bool>, r: Binary64) -> bool {
    exists|levels: Seq<int>, partials: Seq<Binary64>| #[trigger]
        precision_steps::<A>(scores, labels, levels, partials) && partials.last() == r
}

/// Area under the precision–recall curve (average precision) of a ranked hazard
/// score against binary labels.
///
/// The discrimination metric of choice when events are rare: the baseline of a
/// skill-less score is the base rate. Tied scores are one decision, with the
/// precision taken at the end of the tie, so that ties cannot fake resolution.
/// `None` if there are no positive labels.
pub fn pr_auc<A: Arithmetic>(scores: &[Binary64], labels: &[bool]) -> (r: Result<Option<Binary64>, Error>)
    requires
        scores@.len() == labels@.len() && labelled(labels@, true).len() > 0 ==> ordered(scores@),
    ensures
        match r {
            Err(e) => scores@.len() != labels@.len() && e == unaligned(scores@, labels@),
            Ok(Some(v)) => scores@.len() == labels@.len() && labelled(labels@, true).len() > 0
                && average_precision::<A>(scores@, labels@, v),
            Ok(None) => scores@.len() == labels@.len() && labelled(labels@, true).len() == 0,
        },
{
    if scores.len() != labels.len() {
        return Err(unaligned_error(scores, labels));
    }
    let positives: usize = count_labelled(labels, true);
    if positives == 0 {
        return Ok(None);
    }
    let keys: Vec<i64> = positions(scores, true);
    let order: Vec<usize> = order_by(keys.as_slice());
    let n: usize = order.len();
    let ghost s = as_numbers(order@);
    let ghost pos = |k: int| labels@[k] == true;
    let ghost mut levels: Seq<int> = Seq::empty();
    let ghost mut partials: Seq<Binary64> = seq![zero()];
    let mut area: Binary64 = zero();
    let mut caught: usize = 0;
    let mut i: usize = 0;
    proof {
        lemma_ranks(keys@, order@);
        assert(s.take(0).to_set().filter(pos) == Set::<int>::empty());
    }
    while i < n
        invariant
            i <= n,
            n == order@.len(),
            n == labels@.len(),
            scores@.len() == labels@.len(),
            keys@.len() == labels@.len(),
            ranks(keys@, order@),
            forall|k: int| 0 <= k < keys@.len() ==> #[trigger] keys@[k] == -scores@[k].rank(),
            s == as_numbers(order@),
            s.len() == n,
            s.no_duplicates(),
            s.to_set() == set_int_range(0, labels@.len() as int),
            pos == (|k: int| labels@[k] == true),
            positives == labelled(labels@, true).len(),
            caught == s.take(i as int).to_set().filter(pos).len(),
            caught <= i,
            0 < i < n ==> keys@[order@[i - 1] as int] < keys@[order@[i as int] as int],
            partials.len() == levels.len() + 1,
            partials[0] == zero(),
            partials.last() == area,
            forall|a: int, b: int| 0 <= a < b < levels.len() ==> #[trigger] levels[a] > #[trigger] levels[b],
            forall|k: int|
                0 <= k < levels.len() ==> precision_step::<A>(
                    scores@,
                    labels@,
                    #[trigger] levels[k],
                    partials[k],
                    partials[k + 1],
                ),
            forall|x: int| #[trigger]
                levels.contains(x) <==> exists|a: int|
                    0 <= a < i && labels@[order@[a] as int] && x == -keys@[#[trigger] order@[a] as int],
        decreases n - i,
    {
        let before: usize = caught;
        let mut j: usize = i;
        let head: i64 = keys[order[i]];
        while j < n && keys[order[j]] == head
            invariant
                i <= j <= n,
                i < n,
                n == order@.len(),
                n == labels@.len(),
                keys@.len() == labels@.len(),
                ranks(keys@, order@),
                head == keys@[order@[i as int] as int],
                s == as_numbers(order@),
                s.len() == n,
                s.no_duplicates(),
                pos == (|k: int| labels@[k] == true),
                caught == s.take(j as int).to_set().filter(pos).len(),
                before <= caught <= j,
                forall|a: int| i <= a < j ==> keys@[#[trigger] order@[a] as int] == head,
            decreases n - j,
        {
            proof {
                lemma_count_next(s, j as int, pos);
                assert(s[j as int] == order@[j as int]);
            }
            if labels[order[j]] {
                caught = caught + 1;
            }
            j = j + 1;
        }
        let ghost level = -(head as int);
        proof {
            assert(j > i);
            lemma_block(scores@, labels@, keys@, order@, i as int, j as int);
            assert forall|a: int| 0 <= a < i implies -keys@[#[trigger] order@[a] as int] > level by {
                if a < i - 1 {
                    assert(comes_before(keys@, order@[a] as int, order@[i - 1] as int));
                }
            }
        }
        if caught > before {
            let precision: Binary64 = ratio::<A>(caught as u64, j as u64);
            let recall: Binary64 = ratio::<A>((caught - before) as u64, positives as u64);
            let term: Binary64 = A::times(precision, recall);
            let ghost last = area;
            area = A::plus(area, term);
            proof {
                assert(multiplies::<A>(precision, recall, term));
                assert(sums::<A>(last, term, area));
                assert(precision_step::<A>(scores@, labels@, level, last, area));
                let (old_levels, old_partials) = (levels, partials);
                assert forall|a: int| 0 <= a < old_levels.len() implies #[trigger] old_levels[a] > level by {
                    assert(old_levels.contains(old_levels[a]));
                }
                levels = levels.push(level);
                partials = partials.push(area);
                assert forall|k: int| 0 <= k < levels.len() implies precision_step::<A>(
                    scores@,
                    labels@,
                    #[trigger] levels[k],
                    partials[k],
                    partials[k + 1],
                ) by {
                    if k < old_levels.len() {
                        assert(old_levels[k] == levels[k]);
                    }
                }
                assert forall|x: int| #[trigger] levels.contains(x) <==> exists|a: int|
                    0 <= a < j && labels@[order@[a] as int] && x == -keys@[#[trigger] order@[a] as int] by {
                    vstd::seq_lib::lemma_seq_contains_after_push(old_levels, level, x);
                    if x == level {
                        let met = met_at(scores@, labels@, level);
                        let k = met.choose();
                        assert(met.len() > 0);
                        assert(met.contains(k));
                        assert(warned_at(scores@, level).contains(k));
                        assert(s.take(j as int).to_set().contains(k));
                        let b = choose|b: int| 0 <= b < j && s.take(j as int)[b] == k;
                        assert(s[b] == k && order@[b] == k);
                    }
                    if old_levels.contains(x) {
                        let a = choose|a: int|
                            0 <= a < i && labels@[order@[a] as int] && x == -keys@[#[trigger] order@[a] as int];
                        assert(labels@[order@[a] as int]);
                    }
                }
            }
        } else {
            proof {
                assert forall|x: int| #[trigger] levels.contains(x) <==> exists|a: int|
                    0 <= a < j && labels@[order@[a] as int] && x == -keys@[#[trigger] order@[a] as int] by {
                    if exists|a: int|
                        0 <= a < j && labels@[order@[a] as int] && x == -keys@[#[trigger] order@[a] as int] {
                        let a = choose|a: int|
                            0 <= a < j && labels@[order@[a] as int] && x == -keys@[#[trigger] order@[a] as int];
                        if a >= i {
                            assert(met_at(scores@, labels@, level).contains(order@[a] as int));
                        }
                    }
                }
            }
        }
        i = j;
    }
    proof {
        assert forall|x: int| levels.to_set().contains(x) <==> event_levels(scores@, labels@).contains(x) by {
            let units = set_int_range(0, scores@.len() as int).filter(|k: int| labels@[k]);
            let f = |k: int| scores@[k].rank();
            if levels.contains(x) {
                let a = choose|a: int|
                    0 <= a < n && labels@[order@[a] as int] && x == -keys@[#[trigger] order@[a] as int];
                let k = order@[a] as int;
                assert(units.contains(k) && f(k) == x);
            }
            if event_levels(scores@, labels@).contains(x) {
                let k = choose|k: int| units.contains(k) && f(k) == x;
                assert(order@.contains(k as usize));
                let a = choose|a: int| 0 <= a < n && order@[a] == k as usize;
                assert(x == -keys@[order@[a] as int]);
            }
        }
        assert(levels.to_set() == event_levels(scores@, labels@));
        assert(precision_steps::<A>(scores@, labels@, levels, partials));
    }
    Ok(Some(area))
}

/// A block of equal scores of a descending ranking: the units up to its end are
/// those not below its level.
proof fn lemma_block(
    scores: Seq<Binary64>,
    labels: Seq<bool>,
    keys: Seq<i64>,
    order: Seq<usize>,
    i: int,
    j: int,
)
    requires
        ranks(keys, order),
        keys.len() == scores.len(),
        labels.len() == scores.len(),
        keys.len() <= usize::MAX,
        forall|k: int| 0 <= k < keys.len() ==> #[trigger] keys[k] == -scores[k].rank(),
        0 <= i < j <= keys.len(),
        forall|a: int| i <= a < j ==> keys[#[trigger] order[a] as int] == keys[order[i] as int],
        i > 0 ==> keys[order[i - 1] as int] < keys[order[i] as int],
        j < keys.len() ==> keys[order[j] as int] != keys[order[i] as int],
    ensures
        ({
            let level = -(keys[order[i] as int] as int);
            let s = as_numbers(order);
            let pos = |k: int| labels[k] == true;
            &&& s.take(j).to_set() == warned_at(scores, level)
            &&& warned_at(scores, level).len() == j
            &&& s.take(j).to_set().filter(pos) == caught_at(scores, labels, level)
            &&& met_at(scores, labels, level).finite()
            &&& s.take(j).to_set().filter(pos).len() == s.take(i).to_set().filter(pos).len() + met_at(
                scores,
                labels,
                level,
            ).len()
        }),
{
    let level = -(keys[order[i] as int] as int);
    let s = as_numbers(order);
    let pos = |k: int| labels[k] == true;
    lemma_ranks(keys, order);
    let (before, all) = (s.take(i).to_set(), s.take(j).to_set());
    assert forall|k: int| all.contains(k) <==> warned_at(scores, level).contains(k) by {
        if all.contains(k) {
            let a = choose|a: int| 0 <= a < j && s.take(j)[a] == k;
            assert(s[a] == k && order[a] == k);
            if a < i {
                assert(comes_before(keys, order[a] as int, order[i] as int));
            }
        }
        if warned_at(scores, level).contains(k) {
            assert(order.contains(k as usize));
            let a = choose|a: int| 0 <= a < order.len() && order[a] == k as usize;
            if a >= j {
                assert(comes_before(keys, order[i] as int, order[j] as int));
                if a > j {
                    assert(comes_before(keys, order[j] as int, order[a] as int));
                }
            }
            assert(s.take(j)[a] == k);
        }
    }
    assert(all == warned_at(scores, level));
    assert(s.take(j).no_duplicates());
    s.take(j).unique_seq_to_set();
    assert(all.filter(pos) == caught_at(scores, labels, level));
    let met = met_at(scores, labels, level);
    assert forall|k: int| before.contains(k) <==> all.contains(k) && scores[k].rank() > level by {
        if before.contains(k) {
            let a = choose|a: int| 0 <= a < i && s.take(i)[a] == k;
            assert(s[a] == k && order[a] == k && s.take(j)[a] == k);
            if a < i - 1 {
                assert(comes_before(keys, order[a] as int, order[i - 1] as int));
            }
        }
        if all.contains(k) && scores[k].rank() > level {
            let a = choose|a: int| 0 <= a < j && s.take(j)[a] == k;
            assert(s[a] == k && order[a] == k);
            assert(a < i);
            assert(s.take(i)[a] == k);
        }
    }
    vstd::seq_lib::seq_to_set_is_finite(s.take(i));
    vstd::seq_lib::seq_to_set_is_finite(s.take(j));
    before.lemma_len_filter(pos);
    vstd::set_lib::lemma_int_range(0, scores.len() as int);
    set_int_range(0, scores.len() as int).lemma_len_filter(|k: int| labels[k] && scores[k].rank() == level);
    assert(all.filter(pos) == before.filter(pos) + met);
    vstd::set_lib::lemma_set_disjoint_lens(before.filter(pos), met);
}

/// How many units come before a unit when the highest score comes first; equal
/// scores keep their order.
pub open spec fn place(scores: Seq<Binary64>, unit: int) -> nat {
    set_int_range(0, scores.len() as int).filter(
        |j: int| scores[unit].rank() < scores[j].rank() || (scores[j].rank() == scores[unit].rank() && j < unit),
    ).len()
}

/// Units with an event among the `n` first ones.
pub open spec fn caught_in_first(scores: Seq<Binary64>, labels: Seq<bool>, n: int) -> Set<int> {
    set_int_range(0, scores.len() as int).filter(|i: int| labels[i] && place(scores, i) < n)
}

/// `k` is the number of units that a share of the area stands for: the product of
/// their number and the share, rounded up, but at least one and at most all.
pub open spec fn warned_units<A: Arithmetic>(n: int, area_fraction: Binary64, k: int) -> bool {
    exists|total: Binary64, product: Binary64, up: Binary64| #[trigger]
        counts::<A>(n, total) && #[trigger] multiplies::<A>(total, area_fraction, product) && #[trigger] rounds_up::<A>(
            product,
            up,
        ) && k == if up.integer_part() < 1 {
            1
        } else if up.integer_part() > n {
            n
        } else {
            up.integer_part() as int
        }
}

/// Whether a share lies within `(0, 1]`.
pub open spec fn proper_share(share: Binary64) -> bool {
    zero().less(share) && share.at_most(one())
}

/// Probability of detection when only the top `area_fraction` of the ranked
/// hazard field can be warned: the fraction of events among the units with the
/// highest scores.
///
/// `None` if there are no positives or `area_fraction` is not in `(0, 1]`.
pub fn pod_at_area<A: Arithmetic>(scores: &[Binary64], labels: &[bool], area_fraction: Binary64) -> (r: Result<
    Option<Binary64>,
    Error,
>)
    requires
        scores@.len() == labels@.len() && labelled(labels@, true).len() > 0 && proper_share(area_fraction) ==> ordered(
            scores@,
        ),
    ensures
        match r {
            Err(e) => scores@.len() != labels@.len() && e == unaligned(scores@, labels@),
            Ok(Some(v)) => scores@.len() == labels@.len() && labelled(labels@, true).len() > 0 && proper_share(
                area_fraction,
            ) && exists|k: int| #[trigger]
                warned_units::<A>(scores@.len() as int, area_fraction, k) && ratio_of::<A>(
                    caught_in_first(scores@, labels@, k).len() as int,
                    labelled(labels@, true).len() as int,
                    v,
                ),
            Ok(None) => scores@.len() == labels@.len() && (labelled(labels@, true).len() == 0 || !proper_share(
                area_fraction,
            )),
        },
{
    if scores.len() != labels.len() {
        return Err(unaligned_error(scores, labels));
    }
    if !(zero().below(area_fraction) && area_fraction.not_above(one())) {
        return Ok(None);
    }
    let positives: usize = count_labelled(labels, true);
    if positives == 0 {
        return Ok(None);
    }
    let n: usize = scores.len();
    let total: Binary64 = A::of_count(n as u64);
    let product: Binary64 = A::times(total, area_fraction);
    let up: Binary64 = A::ceiling(product);
    let whole: u64 = up.to_count();
    let k: usize = if whole < 1 {
        1
    } else if whole > n as u64 {
        n
    } else {
        whole as usize
    };
    proof {
        assert(counts::<A>(n as int, total));
        assert(multiplies::<A>(total, area_fraction, product));
        assert(rounds_up::<A>(product, up));
        assert(warned_units::<A>(n as int, area_fraction, k as int));
        assert(n > 0) by {
            if n == 0 {
                assert(labelled(labels@, true) == Set::<int>::empty());
            }
        }
    }
    let keys: Vec<i64> = positions(scores, true);
    let order: Vec<usize> = order_by(keys.as_slice());
    let ghost s = as_numbers(order@);
    let ghost pos = |u: int| labels@[u] == true;
    let mut caught: usize = 0;
    let mut i: usize = 0;
    proof {
        lemma_ranks(keys@, order@);
        assert(s.take(0).to_set().filter(pos) == Set::<int>::empty());
    }
    while i < k
        invariant
            i <= k <= order@.len(),
            order@.len() == labels@.len(),
            ranks(keys@, order@),
            keys@.len() == labels@.len(),
            s == as_numbers(order@),
            s.no_duplicates(),
            pos == (|u: int| labels@[u] == true),
            caught == s.take(i as int).to_set().filter(pos).len(),
            caught <= i,
        decreases k - i,
    {
        proof {
            lemma_count_next(s, i as int, pos);
            assert(s[i as int] == order@[i as int]);
        }
        if labels[order[i]] {
            caught = caught + 1;
        }
        i = i + 1;
    }
    proof {
        assert forall|u: int|
            s.take(k as int).to_set().filter(pos).contains(u) <==> caught_in_first(scores@, labels@, k as int).contains(
                u,
            ) by {
            if 0 <= u < n {
                assert(order@.contains(u as usize));
                let a = choose|a: int| 0 <= a < order@.len() && order@[a] == u as usize;
                lemma_place(scores@, keys@, order@, a);
                assert(s[a] == u);
                if a < k {
                    assert(s.take(k as int)[a] == u);
                }
                if s.take(k as int).to_set().contains(u) {
                    let b = choose|b: int| 0 <= b < k && s.take(k as int)[b] == u;
                    assert(s[b] == u);
                }
            } else if s.take(k as int).to_set().contains(u) {
                let b = choose|b: int| 0 <= b < k && s.take(k as int)[b] == u;
                assert(s[b] == u && order@[b] == u);
            }
        }
        assert(s.take(k as int).to_set().filter(pos) == caught_in_first(scores@, labels@, k as int));
    }
    Ok(Some(ratio::<A>(caught as u64, positives as u64)))
}

/// The unit at a place of a descending ranking has as many units before it.
proof fn lemma_place(scores: Seq<Binary64>, keys: Seq<i64>, order: Seq<usize>, a: int)
    requires
        ranks(keys, order),
        keys.len() == scores.len(),
        keys.len() <= usize::MAX,
        forall|k: int| 0 <= k < keys.len() ==> #[trigger] keys[k] == -scores[k].rank(),
        0 <= a < order.len(),
    ensures
        place(scores, order[a] as int) == a,
{
    let s = as_numbers(order);
    lemma_ranks(keys, order);
    let unit = order[a] as int;
    let earlier = set_int_range(0, scores.len() as int).filter(
        |j: int| scores[unit].rank() < scores[j].rank() || (scores[j].rank() == scores[unit].rank() && j < unit),
    );
    assert forall|j: int| earlier.contains(j) <==> s.take(a).to_set().contains(j) by {
        if earlier.contains(j) {
            assert(order.contains(j as usize));
            let b = choose|b: int| 0 <= b < order.len() && order[b] == j as usize;
            if b > a {
                assert(comes_before(keys, order[a] as int, order[b] as int));
            }
            assert(keys[unit] == -scores[unit].rank() && keys[j] == -scores[j].rank());
            assert(b < a);
            assert(s.take(a)[b] == j);
        }
        if s.take(a).to_set().contains(j) {
            let b = choose|b: int| 0 <= b < a && s.take(a)[b] == j;
            assert(s[b] == j && order[b] == j);
            assert(comes_before(keys, order[b] as int, order[a] as int));
            assert(keys[unit] == -scores[unit].rank() && keys[j] == -scores[j].rank());
        }
    }
    assert(earlier == s.take(a).to_set());
    s.take(a).unique_seq_to_set();
}

/// All pairs of two sets.
pub open spec fn product(a: Set<int>, b: Set<int>) -> Set<(int, int)> {
    Set::new(|q: (int, int)| a.contains(q.0) && b.contains(q.1))
}

/// Two sets have as many pairs as the product of their sizes.
proof fn lemma_product_len(a: Set<int>, b: Set<int>)
    requires
        a.finite(),
        b.finite(),
    ensures
        product(a, b).finite(),
        product(a, b).len() == a.len() * b.len(),
    decreases a.len(),
{
    if a.len() == 0 {
        assert(product(a, b) == Set::<(int, int)>::empty());
        assert(0 * b.len() == 0);
    } else {
        let x = a.choose();
        let rest = a.remove(x);
        lemma_product_len(rest, b);
        let f = |y: int| (x, y);
        assert forall|y: int, z: int| #[trigger] f(y) == #[trigger] f(z) implies y == z by {}
        vstd::set_lib::lemma_map_size(b, b.map(f), f);
        b.lemma_map_finite(f);
        assert forall|q: (int, int)| product(a, b).contains(q) <==> (product(rest, b) + b.map(f)).contains(q) by {
            if q.0 == x && b.contains(q.1) {
                assert(f(q.1) == q);
            }
        }
        assert(product(a, b) == product(rest, b) + b.map(f));
        vstd::set_lib::lemma_set_disjoint_lens(product(rest, b), b.map(f));
        assert((rest.len() + 1) * b.len() == rest.len() * b.len() + b.len()) by (nonlinear_arith);
    }
}

/// Pairs whose first unit is among the `k` first ones.
spec fn pairs_from(k: int, n: int, p: spec_fn((int, int)) -> bool) -> Set<(int, int)> {
    Set::new(|q: (int, int)| 0 <= q.0 < k && 0 <= q.1 < n && p(q))
}

/// The partners of a unit.
spec fn partners(i: int, n: int, p: spec_fn((int, int)) -> bool) -> Set<int> {
    set_int_range(0, n).filter(|j: int| p((i, j)))
}

/// One more first unit adds a pair for every partner of it.
proof fn lemma_pairs_from(k: int, n: int, p: spec_fn((int, int)) -> bool)
    requires
        0 <= k,
        0 <= n,
        pairs_from(k, n, p).finite(),
    ensures
        pairs_from(k + 1, n, p).finite(),
        pairs_from(k + 1, n, p).len() == pairs_from(k, n, p).len() + partners(k, n, p).len(),
{
    let f = |j: int| (k, j);
    let few = partners(k, n, p);
    vstd::set_lib::lemma_int_range(0, n);
    set_int_range(0, n).lemma_len_filter(|j: int| p((k, j)));
    assert forall|y: int, z: int| #[trigger] f(y) == #[trigger] f(z) implies y == z by {}
    vstd::set_lib::lemma_map_size(few, few.map(f), f);
    few.lemma_map_finite(f);
    assert forall|q: (int, int)|
        pairs_from(k + 1, n, p).contains(q) <==> (pairs_from(k, n, p) + few.map(f)).contains(q) by {
        if pairs_from(k + 1, n, p).contains(q) && q.0 == k {
            assert((k, q.1) == q);
            assert(few.contains(q.1) && f(q.1) == q);
        }
        if few.map(f).contains(q) {
            let j = choose|j: int| few.contains(j) && f(j) == q;
            assert((k, j) == q);
        }
    }
    assert(pairs_from(k + 1, n, p) == pairs_from(k, n, p) + few.map(f));
    vstd::set_lib::lemma_set_disjoint_lens(pairs_from(k, n, p), few.map(f));
}

/// Twice the average rank of a unit, counted from one, where equal scores share
/// the average of their ranks.
pub open spec fn double_rank(scores: Seq<Binary64>, unit: int) -> nat {
    2 * set_int_range(0, scores.len() as int).filter(|j: int| scores[j].rank() < scores[unit].rank()).len()
        + set_int_range(0, scores.len() as int).filter(|j: int| scores[j].rank() == scores[unit].rank()).len() + 1
}

/// The sum of the doubled average ranks of the units with an event among the `k`
/// first ones.
pub open spec fn double_rank_sum(scores: Seq<Binary64>, labels: Seq<bool>, k: nat) -> nat
    decreases k,
{
    if k == 0 {
        0
    } else {
        let i = k - 1;
        double_rank_sum(scores, labels, i as nat) + if labels[i] {
            double_rank(scores, i)
        } else {
            0
        }
    }
}

/// The sum of doubled ranks counts pairs of a unit with an event and any unit.
proof fn lemma_rank_sum_counts_pairs(scores: Seq<Binary64>, labels: Seq<bool>, k: nat)
    requires
        scores.len() == labels.len(),
        k <= scores.len(),
    ensures
        ({
            let n = scores.len() as int;
            let below = |q: (int, int)| labels[q.0] && scores[q.1].rank() < scores[q.0].rank();
            let level = |q: (int, int)| labels[q.0] && scores[q.1].rank() == scores[q.0].rank();
            let units = set_int_range(0, k as int).filter(|i: int| labels[i]);
            &&& pairs_from(k as int, n, below).finite()
            &&& pairs_from(k as int, n, level).finite()
            &&& units.finite()
            &&& double_rank_sum(scores, labels, k) == 2 * pairs_from(k as int, n, below).len() + pairs_from(
                k as int,
                n,
                level,
            ).len() + units.len()
        }),
    decreases k,
{
    let n = scores.len() as int;
    let below = |q: (int, int)| labels[q.0] && scores[q.1].rank() < scores[q.0].rank();
    let level = |q: (int, int)| labels[q.0] && scores[q.1].rank() == scores[q.0].rank();
    let units = set_int_range(0, k as int).filter(|i: int| labels[i]);
    if k == 0 {
        assert(pairs_from(0, n, below) == Set::<(int, int)>::empty());
        assert(pairs_from(0, n, level) == Set::<(int, int)>::empty());
        assert(units == Set::<int>::empty());
    } else {
        let i = k - 1;
        lemma_rank_sum_counts_pairs(scores, labels, i as nat);
        lemma_pairs_from(i, n, below);
        lemma_pairs_from(i, n, level);
        let fewer = set_int_range(0, i).filter(|i: int| labels[i]);
        if labels[i] {
            assert(units == fewer.insert(i));
            assert(partners(i, n, below) == set_int_range(0, n).filter(|j: int| scores[j].rank() < scores[i].rank()));
            assert(partners(i, n, level) == set_int_range(0, n).filter(|j: int| scores[j].rank() == scores[i].rank()));
        } else {
            assert(units == fewer);
            assert(partners(i, n, below) == Set::<int>::empty());
            assert(partners(i, n, level) == Set::<int>::empty());
        }
    }
}

/// The area under the curve is the Mann–Whitney rank-sum statistic: the sum of
/// the average ranks of the units with an event exceeds the statistic by the
/// least sum that so many ranks can have. Both sides are doubled.
pub proof fn lemma_area_is_rank_sum(scores: Seq<Binary64>, labels: Seq<bool>)
    requires
        scores.len() == labels.len(),
    ensures
        ({
            let pos = labelled(labels, true).len();
            double_rank_sum(scores, labels, scores.len()) == double_u(scores, labels) + pos * (pos + 1)
        }),
{
    let n = scores.len() as int;
    let units = labelled(labels, true);
    let pos = units.len();
    let below = |q: (int, int)| labels[q.0] && scores[q.1].rank() < scores[q.0].rank();
    let level = |q: (int, int)| labels[q.0] && scores[q.1].rank() == scores[q.0].rank();
    vstd::set_lib::lemma_int_range(0, n);
    set_int_range(0, n).lemma_len_filter(|i: int| labels[i] == true);
    lemma_rank_sum_counts_pairs(scores, labels, scores.len());
    lemma_product_len(units, units);
    assert(units == set_int_range(0, n).filter(|i: int| labels[i]));
    let all = product(units, units);
    let lower = all.filter(|q: (int, int)| scores[q.1].rank() < scores[q.0].rank());
    let upper = all.filter(|q: (int, int)| scores[q.0].rank() < scores[q.1].rank());
    let equal = all.filter(|q: (int, int)| scores[q.1].rank() == scores[q.0].rank());
    all.lemma_len_filter(|q: (int, int)| scores[q.1].rank() < scores[q.0].rank());
    all.lemma_len_filter(|q: (int, int)| scores[q.0].rank() < scores[q.1].rank());
    all.lemma_len_filter(|q: (int, int)| scores[q.1].rank() == scores[q.0].rank());
    let swap = |q: (int, int)| (q.1, q.0);
    assert forall|q: (int, int)| upper.contains(q) <==> lower.map(swap).contains(q) by {
        if upper.contains(q) {
            assert(lower.contains((q.1, q.0)) && swap((q.1, q.0)) == q);
        }
    }
    assert(upper == lower.map(swap));
    assert forall|a: (int, int), b: (int, int)| #[trigger] swap(a) == #[trigger] swap(b) implies a == b by {
        assert(swap(a).0 == swap(b).0 && swap(a).1 == swap(b).1);
    }
    vstd::set_lib::lemma_map_size(lower, upper, swap);
    assert(all == lower + (upper + equal));
    vstd::set_lib::lemma_set_disjoint_lens(upper, equal);
    vstd::set_lib::lemma_set_disjoint_lens(lower, upper + equal);
    let (won, tied) = (pairs_won(scores, labels), pairs_tied(scores, labels));
    assert(pairs_from(n, n, below) == won + lower);
    assert(pairs_from(n, n, level) == tied + equal);
    vstd::set_lib::lemma_len_subset(won, pairs_from(n, n, below));
    vstd::set_lib::lemma_len_subset(tied, pairs_from(n, n, level));
    vstd::set_lib::lemma_set_disjoint_lens(won, lower);
    vstd::set_lib::lemma_set_disjoint_lens(tied, equal);
    assert(pos * (pos + 1) == pos * pos + pos) by (nonlinear_arith);
}

/// The extremes of the area: it lies within the unit interval; it is one where
/// every unit with an event scores higher than every unit without, zero where it
/// scores lower, and one half where all scores are equal.
pub proof fn lemma_area_extremes(scores: Seq<Binary64>, labels: Seq<bool>)
    requires
        scores.len() == labels.len(),
    ensures
        ({
            let pairs = labelled(labels, true).len() * labelled(labels, false).len();
            &&& double_u(scores, labels) <= 2 * pairs
            &&& (forall|i: int, j: int|
                0 <= i < labels.len() && 0 <= j < labels.len() && labels[i] && !labels[j] ==> (#[trigger]
                scores[j]).rank() < (#[trigger] scores[i]).rank()) ==> double_u(scores, labels) == 2 * pairs
            &&& (forall|i: int, j: int|
                0 <= i < labels.len() && 0 <= j < labels.len() && labels[i] && !labels[j] ==> (#[trigger]
                scores[i]).rank() < (#[trigger] scores[j]).rank()) ==> double_u(scores, labels) == 0
            &&& (forall|i: int, j: int|
                0 <= i < labels.len() && 0 <= j < labels.len() ==> (#[trigger] scores[i]).rank() == (#[trigger]
                scores[j]).rank()) ==> double_u(scores, labels) == pairs
        }),
{
    let n = scores.len() as int;
    let (units, others) = (labelled(labels, true), labelled(labels, false));
    vstd::set_lib::lemma_int_range(0, n);
    set_int_range(0, n).lemma_len_filter(|i: int| labels[i] == true);
    set_int_range(0, n).lemma_len_filter(|i: int| labels[i] == false);
    lemma_product_len(units, others);
    let all = product(units, others);
    let (won, tied) = (pairs_won(scores, labels), pairs_tied(scores, labels));
    let lost = all.filter(|q: (int, int)| scores[q.0].rank() < scores[q.1].rank());
    all.lemma_len_filter(|q: (int, int)| scores[q.0].rank() < scores[q.1].rank());
    assert(all == won + (tied + lost));
    vstd::set_lib::lemma_len_subset(won, all);
    vstd::set_lib::lemma_len_subset(tied, all);
    vstd::set_lib::lemma_set_disjoint_lens(tied, lost);
    vstd::set_lib::lemma_set_disjoint_lens(won, tied + lost);
    if forall|i: int, j: int|
        0 <= i < labels.len() && 0 <= j < labels.len() && labels[i] && !labels[j] ==> (#[trigger] scores[j]).rank() < (
        #[trigger] scores[i]).rank() {
        assert(won == all);
        assert(tied == Set::<(int, int)>::empty());
    }
    if forall|i: int, j: int|
        0 <= i < labels.len() && 0 <= j < labels.len() && labels[i] && !labels[j] ==> (#[trigger] scores[i]).rank() < (
        #[trigger] scores[j]).rank() {
        assert(won == Set::<(int, int)>::empty());
        assert(tied == Set::<(int, int)>::empty());
    }
    if forall|i: int, j: int|
        0 <= i < labels.len() && 0 <= j < labels.len() ==> (#[trigger] scores[i]).rank() == (#[trigger]
        scores[j]).rank() {
        assert(tied == all);
        assert(won == Set::<(int, int)>::empty());
    }
}

/// Warning a larger area never catches fewer events; warning all of it catches
/// every one.
pub proof fn lemma_larger_area_catches_more(scores: Seq<Binary64>, labels: Seq<bool>, fewer: int, more: int)
    requires
        scores.len() == labels.len(),
        fewer <= more,
    ensures
        caught_in_first(scores, labels, fewer).subset_of(caught_in_first(scores, labels, more)),
        caught_in_first(scores, labels, scores.len() as int) == labelled(labels, true),
{
    let n = scores.len() as int;
    vstd::set_lib::lemma_int_range(0, n);
    assert forall|i: int| 0 <= i < n implies #[trigger] place(scores, i) < n by {
        let range = set_int_range(0, n);
        let p = |j: int| scores[i].rank() < scores[j].rank() || (scores[j].rank() == scores[i].rank() && j < i);
        range.lemma_len_filter(p);
        vstd::set_lib::lemma_len_subset(range.filter(p), range.remove(i));
    }
    assert(caught_in_first(scores, labels, n) == labelled(labels, true));
}

/// A quotient of counts is the quotient of the numbers, within a neighbouring
/// value.
pub proof fn lemma_ratio_value<A: Arithmetic>(n: int, d: int, r: Binary64)
    requires
        rounds_closely::<A>(),
        ratio_of::<A>(n, d, r),
        n <= 0x20_0000_0000_0000,
        0 < d <= 0x20_0000_0000_0000,
    ensures
        rounds_to((n as real) / (d as real), r),
{
    let (x, y) = choose|x: Binary64, y: Binary64| #[trigger]
        counts::<A>(n, x) && #[trigger] counts::<A>(d, y) && divides::<A>(x, y, r);
    lemma_scales();
    let (a, b) = (n as real, d as real);
    let q = a / b;
    lemma_quotient_of(a, b);
    assert(0real <= q && q <= a) by (nonlinear_arith)
        requires
            q * b == a,
            b >= 1real,
            a >= 0real,
    ;
}

/// Units with fewer than `k` units before them.
pub open spec fn first_units(scores: Seq<Binary64>, k: int) -> Set<int> {
    set_int_range(0, scores.len() as int).filter(|i: int| place(scores, i) < k)
}

/// Whether one unit comes before another one: it has the higher score, or the same
/// score and the lower index.
spec fn leads(scores: Seq<Binary64>, i: int, j: int) -> bool {
    scores[j].rank() < scores[i].rank() || (scores[i].rank() == scores[j].rank() && i < j)
}

/// A unit that comes before another one has fewer units before it.
proof fn lemma_place_of_earlier(scores: Seq<Binary64>, i: int, j: int)
    requires
        0 <= i < scores.len(),
        0 <= j < scores.len(),
        leads(scores, i, j),
    ensures
        place(scores, i) < place(scores, j),
{
    let all = set_int_range(0, scores.len() as int);
    vstd::set_lib::lemma_int_range(0, scores.len() as int);
    let p = |u: int| scores[i].rank() < scores[u].rank() || (scores[u].rank() == scores[i].rank() && u < i);
    let q = |u: int| scores[j].rank() < scores[u].rank() || (scores[u].rank() == scores[j].rank() && u < j);
    all.lemma_len_filter(p);
    all.lemma_len_filter(q);
    assert(!all.filter(p).contains(i));
    assert(all.filter(q).contains(i));
    assert(all.filter(p).insert(i).subset_of(all.filter(q)));
    vstd::set_lib::lemma_len_subset(all.filter(p).insert(i), all.filter(q));
}

/// There are `k` first units.
proof fn lemma_first_units_len(scores: Seq<Binary64>, k: int)
    requires
        0 <= k <= scores.len(),
    ensures
        first_units(scores, k).finite(),
        first_units(scores, k).len() == k,
    decreases k,
{
    let n = scores.len() as int;
    let all = set_int_range(0, n);
    vstd::set_lib::lemma_int_range(0, n);
    if k == 0 {
        assert(first_units(scores, 0) == Set::<int>::empty());
    } else {
        let before = first_units(scores, k - 1);
        lemma_first_units_len(scores, k - 1);
        let rest = all.difference(before);
        assert(before.subset_of(all));
        assert(all == before + rest);
        vstd::set_lib::lemma_set_disjoint_lens(before, rest);
        let leq = |i: int, j: int| i == j || leads(scores, i, j);
        assert(vstd::relations::total_ordering(leq));
        rest.find_unique_minimal_ensures(leq);
        let u = rest.find_unique_minimal(leq);
        let p = |j: int| scores[u].rank() < scores[j].rank() || (scores[j].rank() == scores[u].rank() && j < u);
        assert forall|j: int| all.filter(p).contains(j) <==> before.contains(j) by {
            if all.filter(p).contains(j) && !before.contains(j) {
                assert(rest.contains(j) && leq(j, u));
                assert(leq(u, j));
            }
            if before.contains(j) && !p(j) {
                assert(leads(scores, u, j));
                lemma_place_of_earlier(scores, u, j);
                assert(before.contains(u));
            }
        }
        assert(all.filter(p) == before);
        assert(place(scores, u) == k - 1);
        assert forall|j: int| first_units(scores, k).contains(j) <==> before.insert(u).contains(j) by {
            if first_units(scores, k).contains(j) && !before.contains(j) && j != u {
                if leads(scores, u, j) {
                    lemma_place_of_earlier(scores, u, j);
                } else {
                    lemma_place_of_earlier(scores, j, u);
                }
            }
        }
        assert(first_units(scores, k) == before.insert(u));
        assert(!before.contains(u));
    }
}

/// Whether a set of units is the top of a ranking: no unit outside scores higher
/// than one inside.
pub open spec fn is_top(scores: Seq<Binary64>, units: Set<int>) -> bool {
    &&& units.subset_of(set_int_range(0, scores.len() as int))
    &&& forall|i: int, j: int|
        #![trigger units.contains(i), scores[j]]
        units.contains(i) && 0 <= j < scores.len() && !units.contains(j) ==> scores[j].rank() <= scores[i].rank()
}

/// A product of a count and a share, within a neighbouring value.
proof fn lemma_share_of_units<A: Arithmetic>(n: int, share: Binary64, k: int)
    requires
        rounds_closely::<A>(),
        rounds_up_exactly::<A>(),
        0 < n <= 0x1_0000_0000_0000,
        proper_share(share),
        warned_units::<A>(n, share, k),
    ensures
        1 <= k <= n,
        (n as real) * share.number() <= k as real + ulp(2real * (n as real)),
        k as real - 1real < (n as real) * share.number() + ulp(2real * (n as real)),
        share.number() == 1real && leaves_neutral::<A>() ==> k == n,
{
    let (total, product, up) = choose|total: Binary64, product: Binary64, up: Binary64| #[trigger]
        counts::<A>(n, total) && #[trigger] multiplies::<A>(total, share, product) && #[trigger] rounds_up::<A>(
            product,
            up,
        ) && k == if up.integer_part() < 1 {
            1
        } else if up.integer_part() > n {
            n
        } else {
            up.integer_part() as int
        };
    lemma_scales();
    lemma_small_numbers();
    lemma_unit_number(share);
    lemma_rank_orders_numbers(zero(), share);
    lemma_rank_orders_numbers(share, one());
    let (x, f) = (n as real, share.number());
    lemma_part_of(x, f);
    let xf = x * f;
    assert(0real < xf) by (nonlinear_arith)
        requires
            xf == x * f,
            x > 0real,
            f > 0real,
    ;
    assert(rounds_to(xf, product));
    let w = choose|w: int| is_whole(up.number(), w);
    assert(is_whole(up.number(), w));
    assert(up.number() > -1real);
    assert(w >= 0);
    lemma_whole_part(up);
    assert(up.integer_part() == w);
    if f == 1real && leaves_neutral::<A>() {
        assert(share == one()) by {
            lemma_rank_orders_numbers(share, one());
        }
        assert(product == total);
    }
}

/// The share of events that is caught where a share of the area is warned. The
/// warned units are the top of the ranking; they cover the share of the area and
/// no more than one unit beyond it, within rounding; and the result is the share
/// of the events that lie in them. Where all of the area is warned, it is one.
pub proof fn lemma_warned_area<A: Arithmetic>(
    scores: &[Binary64],
    labels: &[bool],
    area_fraction: Binary64,
    v: Binary64,
) -> (warned: Set<int>)
    requires
        deterministic::<A>(),
        rounds_closely::<A>(),
        rounds_up_exactly::<A>(),
        leaves_neutral::<A>(),
        ordered(scores@),
        scores@.len() <= 0x1_0000_0000_0000,
        call_ensures(
            pod_at_area::<A>,
            (scores, labels, area_fraction),
            Ok::<Option<Binary64>, Error>(Some(v)),
        ),
    ensures
        warned.finite(),
        is_top(scores@, warned),
        ({
            let (n, k, f) = (scores@.len() as real, warned.len() as real, area_fraction.number());
            &&& n * f <= k + ulp(2real * n)
            &&& k - 1real < n * f + ulp(2real * n)
            &&& k >= 1real
        }),
        rounds_to(
            (warned.filter(|i: int| labels@[i]).len() as real) / (labelled(labels@, true).len() as real),
            v,
        ),
        area_fraction == one() ==> warned == set_int_range(0, scores@.len() as int) && v == one(),
{
    let n = scores@.len() as int;
    let k = choose|k: int| #[trigger]
        warned_units::<A>(n, area_fraction, k) && ratio_of::<A>(
            caught_in_first(scores@, labels@, k).len() as int,
            labelled(labels@, true).len() as int,
            v,
        );
    let all = set_int_range(0, n);
    vstd::set_lib::lemma_int_range(0, n);
    all.lemma_len_filter(|i: int| labels@[i] == true);
    assert(n > 0) by {
        if n == 0 {
            assert(labelled(labels@, true) == Set::<int>::empty());
        }
    }
    lemma_share_of_units::<A>(n, area_fraction, k);
    lemma_first_units_len(scores@, k);
    let warned = first_units(scores@, k);
    assert forall|i: int, j: int|
        #![trigger warned.contains(i), scores@[j]]
        warned.contains(i) && 0 <= j < scores@.len() && !warned.contains(j) implies scores@[j].rank()
        <= scores@[i].rank() by {
        if scores@[i].rank() < scores@[j].rank() {
            assert(leads(scores@, j, i));
            lemma_place_of_earlier(scores@, j, i);
        }
    }
    let caught = warned.filter(|i: int| labels@[i]);
    assert(caught == caught_in_first(scores@, labels@, k));
    vstd::set_lib::lemma_len_subset(caught, all);
    vstd::set_lib::lemma_len_subset(labelled(labels@, true), all);
    lemma_ratio_value::<A>(caught.len() as int, labelled(labels@, true).len() as int, v);
    if area_fraction == one() {
        lemma_small_numbers();
        lemma_larger_area_catches_more(scores@, labels@, n, n);
        assert(warned == all) by {
            assert(warned.subset_of(all));
            vstd::set_lib::lemma_subset_equality(warned, all);
        }
        let pos = labelled(labels@, true).len() as int;
        let (x, y) = choose|x: Binary64, y: Binary64| #[trigger]
            counts::<A>(pos, x) && #[trigger] counts::<A>(pos, y) && divides::<A>(x, y, v);
        assert(x == y);
        lemma_rank_orders_numbers(zero(), x);
    }
    warned
}

/// The area under the curve is the share of pairs won, with half of the ties,
/// within a neighbouring value.
pub proof fn lemma_area_is_share_of_pairs<A: Arithmetic>(scores: &[Binary64], labels: &[bool], v: Binary64)
    requires
        rounds_closely::<A>(),
        ordered(scores@),
        scores@.len() <= 0x400_0000,
        call_ensures(roc_auc::<A>, (scores, labels), Ok::<Option<Binary64>, Error>(Some(v))),
    ensures
        ({
            let won = pairs_won(scores@, labels@).len() as real;
            let tied = pairs_tied(scores@, labels@).len() as real;
            let pairs = (labelled(labels@, true).len() * labelled(labels@, false).len()) as real;
            &&& pairs >= 1real
            &&& rounds_to((2real * won + tied) / (2real * pairs), v)
        }),
{
    let n = scores@.len() as int;
    let (pos, neg) = (labelled(labels@, true).len() as int, labelled(labels@, false).len() as int);
    vstd::set_lib::lemma_int_range(0, n);
    set_int_range(0, n).lemma_len_filter(|i: int| labels@[i] == true);
    set_int_range(0, n).lemma_len_filter(|i: int| labels@[i] == false);
    vstd::set_lib::lemma_len_subset(labelled(labels@, true), set_int_range(0, n));
    vstd::set_lib::lemma_len_subset(labelled(labels@, false), set_int_range(0, n));
    assert(pos * neg <= 0x400_0000 * 0x400_0000 && pos * neg >= 1) by (nonlinear_arith)
        requires
            0 < pos <= 0x400_0000,
            0 < neg <= 0x400_0000,
    ;
    assert(2 * pos * neg == 2 * (pos * neg)) by (nonlinear_arith);
    lemma_area_extremes(scores@, labels@);
    lemma_ratio_value::<A>(double_u(scores@, labels@) as int, 2 * pos * neg, v);
}

/// Swapping events and non-events turns the curve around: the two areas add up to
/// one, within rounding.
pub proof fn lemma_area_turns_around<A: Arithmetic>(
    scores: &[Binary64],
    labels: &[bool],
    swapped: &[bool],
    v: Binary64,
    w: Binary64,
)
    requires
        rounds_closely::<A>(),
        ordered(scores@),
        scores@.len() <= 0x400_0000,
        labels@.len() == scores@.len(),
        swapped@.len() == scores@.len(),
        forall|i: int| 0 <= i < scores@.len() ==> #[trigger] swapped@[i] == !labels@[i],
        call_ensures(roc_auc::<A>, (scores, labels), Ok::<Option<Binary64>, Error>(Some(v))),
        call_ensures(roc_auc::<A>, (scores, swapped), Ok::<Option<Binary64>, Error>(Some(w))),
    ensures
        absolute(v.number() + w.number() - 1real) <= ulp(4real),
{
    let n = scores@.len() as int;
    lemma_area_is_share_of_pairs::<A>(scores, labels, v);
    lemma_area_is_share_of_pairs::<A>(scores, swapped, w);
    assert(labelled(swapped@, true) == labelled(labels@, false));
    assert(labelled(swapped@, false) == labelled(labels@, true));
    lemma_area_extremes(scores@, labels@);
    let (units, others) = (labelled(labels@, true), labelled(labels@, false));
    vstd::set_lib::lemma_int_range(0, n);
    set_int_range(0, n).lemma_len_filter(|i: int| labels@[i] == true);
    set_int_range(0, n).lemma_len_filter(|i: int| labels@[i] == false);
    lemma_product_len(units, others);
    let all = product(units, others);
    let (won, tied) = (pairs_won(scores@, labels@), pairs_tied(scores@, labels@));
    let lost = all.filter(|q: (int, int)| scores@[q.0].rank() < scores@[q.1].rank());
    all.lemma_len_filter(|q: (int, int)| scores@[q.0].rank() < scores@[q.1].rank());
    assert(all == won + (tied + lost));
    vstd::set_lib::lemma_len_subset(won, all);
    vstd::set_lib::lemma_len_subset(tied, all);
    vstd::set_lib::lemma_set_disjoint_lens(tied, lost);
    vstd::set_lib::lemma_set_disjoint_lens(won, tied + lost);
    let swap = |q: (int, int)| (q.1, q.0);
    let (gained, level) = (pairs_won(scores@, swapped@), pairs_tied(scores@, swapped@));
    assert forall|q: (int, int)| gained.contains(q) <==> lost.map(swap).contains(q) by {
        if gained.contains(q) {
            assert(lost.contains((q.1, q.0)) && swap((q.1, q.0)) == q);
        }
    }
    assert forall|q: (int, int)| level.contains(q) <==> tied.map(swap).contains(q) by {
        if level.contains(q) {
            assert(tied.contains((q.1, q.0)) && swap((q.1, q.0)) == q);
        }
    }
    assert(gained == lost.map(swap) && level == tied.map(swap));
    assert forall|a: (int, int), b: (int, int)| #[trigger] swap(a) == #[trigger] swap(b) implies a == b by {
        assert(swap(a).0 == swap(b).0 && swap(a).1 == swap(b).1);
    }
    vstd::set_lib::lemma_map_size(lost, gained, swap);
    vstd::set_lib::lemma_map_size(tied, level, swap);
    let m = 2real * ((units.len() * others.len()) as real);
    assert(others.len() * units.len() == units.len() * others.len()) by (nonlinear_arith);
    let x = 2real * (won.len() as real) + tied.len() as real;
    let y = 2real * (gained.len() as real) + level.len() as real;
    assert(x + y == m);
    let (p, q) = (x / m, y / m);
    lemma_quotient_of(x, m);
    lemma_quotient_of(y, m);
    assert(p + q == 1real) by (nonlinear_arith)
        requires
            p * m == x,
            q * m == y,
            x + y == m,
            m > 0real,
    ;
    assert(0real <= p && 0real <= q) by (nonlinear_arith)
        requires
            p * m == x,
            q * m == y,
            0real <= x,
            0real <= y,
            m > 0real,
    ;
    lemma_scales();
}

/// Units whose score is not below that of a unit.
pub open spec fn at_or_above(scores: Seq<Binary64>, u: int) -> Set<int> {
    set_int_range(0, scores.len() as int).filter(|i: int| scores[i].number() >= scores[u].number())
}

/// Units with an event whose score is not below that of a unit.
pub open spec fn events_at_or_above(scores: Seq<Binary64>, labels: Seq<bool>, u: int) -> Set<int> {
    set_int_range(0, scores.len() as int).filter(|i: int| labels[i] && scores[i].number() >= scores[u].number())
}

/// Units with an event whose score is that of a unit.
pub open spec fn events_at(scores: Seq<Binary64>, labels: Seq<bool>, u: int) -> Set<int> {
    set_int_range(0, scores.len() as int).filter(|i: int| labels[i] && scores[i].number() == scores[u].number())
}

/// The precisions at the scores of units, each times the share of the events that
/// have the score.
pub open spec fn weighted_precisions(scores: Seq<Binary64>, labels: Seq<bool>, units: Seq<int>) -> Seq<real> {
    Seq::new(
        units.len(),
        |k: int|
            ((events_at_or_above(scores, labels, units[k]).len() as real) / (at_or_above(scores, units[k]).len() as real))
                * ((events_at(scores, labels, units[k]).len() as real) / (labelled(labels, true).len() as real)),
    )
}

/// Whether units stand for the scores of events: each has an event, their scores
/// descend, and every event has the score of one of them.
pub open spec fn stand_for_scores(scores: Seq<Binary64>, labels: Seq<bool>, units: Seq<int>) -> bool {
    &&& forall|k: int| 0 <= k < units.len() ==> 0 <= #[trigger] units[k] < scores.len() && labels[units[k]]
    &&& forall|a: int, b: int|
        0 <= a < b < units.len() ==> scores[#[trigger] units[a]].number() > scores[#[trigger] units[b]].number()
    &&& forall|i: int|
        0 <= i < scores.len() && #[trigger] labels[i] ==> exists|k: int|
            0 <= k < units.len() && scores[#[trigger] units[k]].number() == scores[i].number()
}

/// A share of two counts is at most one.
proof fn lemma_share_near<A: Arithmetic>(n: int, d: int, r: Binary64)
    requires
        rounds_closely::<A>(),
        0 <= n <= d,
        0 < d <= 0x100_0000_0000,
        ratio_of::<A>(n, d, r),
    ensures
        r.finite(),
        0real <= (n as real) / (d as real) <= 1real,
        absolute(r.number() - (n as real) / (d as real)) <= ulp(2real),
{
    lemma_scales();
    lemma_ratio_value::<A>(n, d, r);
    let (a, b) = (n as real, d as real);
    let q = a / b;
    lemma_quotient_of(a, b);
    assert(0real <= q && q <= 1real) by (nonlinear_arith)
        requires
            q * b == a,
            b > 0real,
            0real <= a <= b,
    ;
}

/// The product of two shares.
proof fn lemma_shares_near(s: real, x: real, g: real, y: real)
    requires
        0real <= s <= 1real,
        0real <= g <= 1real,
        absolute(x - s) <= ulp(2real),
        absolute(y - g) <= ulp(2real),
    ensures
        0real <= s * g <= 1real,
        absolute(x * y - s * g) <= ulp(6real),
{
    assert(x * y - s * g == (x - s) * y + (y - g) * s) by (nonlinear_arith);
    lemma_bound_of_product(x - s, y, 2real);
    lemma_bound_of_product(y - g, s, 1real);
    assert(s * g == g * s) by (nonlinear_arith);
    lemma_part_of(g, s);
}

/// One step of the average precision.
proof fn lemma_precision_step<A: Arithmetic>(
    scores: Seq<Binary64>,
    labels: Seq<bool>,
    u: int,
    before: Binary64,
    after: Binary64,
    size: real,
)
    requires
        rounds_closely::<A>(),
        scores.len() == labels.len(),
        scores.len() <= 0x100_0000_0000,
        0 <= u < scores.len(),
        labels[u],
        before.finite(),
        absolute(before.number()) <= size,
        0real <= size <= 0x200_0000_0000real,
        precision_step::<A>(scores, labels, scores[u].rank(), before, after),
    ensures
        after.finite(),
        ({
            let exact = ((events_at_or_above(scores, labels, u).len() as real) / (at_or_above(scores, u).len() as real))
                * ((events_at(scores, labels, u).len() as real) / (labelled(labels, true).len() as real));
            0real <= exact <= 1real && absolute(after.number() - before.number() - exact) <= ulp(size + 12real)
        }),
{
    let level = scores[u].rank();
    let all = set_int_range(0, scores.len() as int);
    let (caught, warned, met, events) = (
        caught_at(scores, labels, level),
        warned_at(scores, level),
        met_at(scores, labels, level),
        labelled(labels, true),
    );
    assert forall|i: int| 0 <= i < scores.len() implies (scores[i].rank() >= level <==> #[trigger] scores[i].number()
        >= scores[u].number()) && (scores[i].rank() == level <==> scores[i].number() == scores[u].number()) by {
        lemma_rank_orders_numbers(scores[i], scores[u]);
    }
    assert(caught == events_at_or_above(scores, labels, u));
    assert(warned == at_or_above(scores, u));
    assert(met == events_at(scores, labels, u));
    vstd::set_lib::lemma_int_range(0, scores.len() as int);
    vstd::set_lib::lemma_len_subset(warned, all);
    vstd::set_lib::lemma_len_subset(events, all);
    vstd::set_lib::lemma_len_subset(caught, warned);
    vstd::set_lib::lemma_len_subset(met, events);
    assert(warned.contains(u) && events.contains(u));
    assert(warned.len() > 0 && events.len() > 0);
    let (precision, recall, term) = choose|precision: Binary64, recall: Binary64, term: Binary64|
        {
            &&& ratio_of::<A>(caught.len() as int, warned.len() as int, precision)
            &&& ratio_of::<A>(met.len() as int, events.len() as int, recall)
            &&& #[trigger] multiplies::<A>(precision, recall, term)
            &&& #[trigger] sums::<A>(before, term, after)
        };
    lemma_scales();
    lemma_share_near::<A>(caught.len() as int, warned.len() as int, precision);
    lemma_share_near::<A>(met.len() as int, events.len() as int, recall);
    let (s, g) = (
        (caught.len() as real) / (warned.len() as real),
        (met.len() as real) / (events.len() as real),
    );
    lemma_shares_near(s, precision.number(), g, recall.number());
    assert(rounds_to(precision.number() * recall.number(), term));
    assert(absolute(term.number() - s * g) <= ulp(9real));
    assert(rounds_to(before.number() + term.number(), after));
}

/// The partial sums of the average precision.
proof fn lemma_precision_sums<A: Arithmetic>(
    scores: Seq<Binary64>,
    labels: Seq<bool>,
    units: Seq<int>,
    levels: Seq<int>,
    partials: Seq<Binary64>,
    k: int,
)
    requires
        rounds_closely::<A>(),
        scores.len() == labels.len(),
        scores.len() <= 0x100_0000_0000,
        levels.len() <= 0x100_0000_0000,
        precision_steps::<A>(scores, labels, levels, partials),
        stand_for_scores(scores, labels, units),
        units.len() == levels.len(),
        forall|i: int| 0 <= i < units.len() ==> scores[#[trigger] units[i]].rank() == levels[i],
        0 <= k <= levels.len(),
    ensures
        partials[k].finite(),
        absolute(partials[k].number() - sum(weighted_precisions(scores, labels, units).take(k))) <= (k as real) * ulp(
            2real * (levels.len() as real) + 14real,
        ),
        0real <= sum(weighted_precisions(scores, labels, units).take(k)) <= k as real,
    decreases k,
{
    lemma_small_numbers();
    let numbers = weighted_precisions(scores, labels, units);
    let unit = ulp(2real * (levels.len() as real) + 14real);
    if k == 0 {
        assert(0real * unit == 0real) by (nonlinear_arith);
        assert(numbers.take(0).len() == 0);
    } else {
        let j = k - 1;
        lemma_precision_sums::<A>(scores, labels, units, levels, partials, j);
        let x = j as real;
        assert(x * unit <= x * 1real) by (nonlinear_arith)
            requires
                unit <= 1real,
                x >= 0real,
        ;
        assert(precision_step::<A>(scores, labels, levels[j], partials[j], partials[j + 1]));
        assert(scores[units[j]].rank() == levels[j]);
        lemma_precision_step::<A>(scores, labels, units[j], partials[j], partials[k], 2real * x);
        assert((x + 1real) * unit == x * unit + unit) by (nonlinear_arith);
        assert(numbers.take(k).drop_last() == numbers.take(j));
        assert(numbers.take(k).last() == numbers[j]);
    }
}

/// Units that stand for the levels of events.
proof fn lemma_units_of_levels(scores: Seq<Binary64>, labels: Seq<bool>, levels: Seq<int>) -> (units: Seq<int>)
    requires
        scores.len() == labels.len(),
        forall|a: int, b: int| 0 <= a < b < levels.len() ==> #[trigger] levels[a] > #[trigger] levels[b],
        levels.to_set() == event_levels(scores, labels),
    ensures
        stand_for_scores(scores, labels, units),
        units.len() == levels.len(),
        forall|i: int| 0 <= i < units.len() ==> scores[#[trigger] units[i]].rank() == levels[i],
{
    let units = Seq::new(levels.len(), |k: int| unit_of_level(scores, labels, levels[k]));
    assert forall|k: int| 0 <= k < units.len() implies has_level(scores, labels, levels[k], #[trigger] units[k]) by {
        assert(levels.to_set().contains(levels[k]));
        let i = choose|i: int|
            set_int_range(0, scores.len() as int).filter(|i: int| labels[i]).contains(i) && scores[i].rank() == levels[k];
        assert(has_level(scores, labels, levels[k], i));
    }
    assert forall|a: int, b: int| 0 <= a < b < units.len() implies scores[#[trigger] units[a]].number()
        > scores[#[trigger] units[b]].number() by {
        lemma_rank_orders_numbers(scores[units[b]], scores[units[a]]);
    }
    assert forall|i: int| 0 <= i < scores.len() && #[trigger] labels[i] implies exists|k: int|
        0 <= k < units.len() && scores[#[trigger] units[k]].number() == scores[i].number() by {
        let events = set_int_range(0, scores.len() as int).filter(|i: int| labels[i]);
        let rank = |i: int| scores[i].rank();
        assert(events.contains(i) && rank(i) == scores[i].rank());
        assert(event_levels(scores, labels).contains(rank(i)));
        assert(levels.to_set().contains(rank(i)));
        let k = choose|k: int| 0 <= k < levels.len() && levels[k] == rank(i);
        assert(has_level(scores, labels, levels[k], units[k]));
        lemma_rank_orders_numbers(scores[units[k]], scores[i]);
    }
    units
}

/// Whether a unit has an event and a score at a level.
spec fn has_level(scores: Seq<Binary64>, labels: Seq<bool>, level: int, i: int) -> bool {
    0 <= i < scores.len() && labels[i] && scores[i].rank() == level
}

/// A unit with an event whose score is at a level.
spec fn unit_of_level(scores: Seq<Binary64>, labels: Seq<bool>, level: int) -> int {
    choose|i: int| has_level(scores, labels, level, i)
}

/// There are no more levels of events than units.
proof fn lemma_levels_len(scores: Seq<Binary64>, labels: Seq<bool>, levels: Seq<int>)
    requires
        forall|a: int, b: int| 0 <= a < b < levels.len() ==> #[trigger] levels[a] > #[trigger] levels[b],
        levels.to_set() == event_levels(scores, labels),
    ensures
        levels.len() <= scores.len(),
{
    let events = set_int_range(0, scores.len() as int).filter(|i: int| labels[i]);
    vstd::set_lib::lemma_int_range(0, scores.len() as int);
    vstd::set_lib::lemma_len_subset(events, set_int_range(0, scores.len() as int));
    vstd::set_lib::lemma_map_size_bound(events, event_levels(scores, labels), |i: int| scores[i].rank());
    levels.unique_seq_to_set();
}

/// The average precision in numbers: the sum, over the distinct scores of units
/// with an event, of the share of events among the units not below the score times
/// the share of the events that have it, within rounding. What is returned are
/// units that stand for those scores.
pub proof fn lemma_average_precision_in_numbers<A: Arithmetic>(scores: &[Binary64], labels: &[bool], v: Binary64) -> (units:
    Seq<int>)
    requires
        rounds_closely::<A>(),
        scores@.len() <= 0x100_0000_0000,
        call_ensures(pr_auc::<A>, (scores, labels), Ok::<Option<Binary64>, Error>(Some(v))),
    ensures
        stand_for_scores(scores@, labels@, units),
        v.finite(),
        absolute(v.number() - sum(weighted_precisions(scores@, labels@, units))) <= (units.len() as real) * ulp(
            2real * (units.len() as real) + 14real,
        ),
{
    let (levels, partials) = choose|levels: Seq<int>, partials: Seq<Binary64>| #[trigger]
        precision_steps::<A>(scores@, labels@, levels, partials) && partials.last() == v;
    let units = lemma_units_of_levels(scores@, labels@, levels);
    lemma_levels_len(scores@, labels@, levels);
    lemma_precision_sums::<A>(scores@, labels@, units, levels, partials, levels.len() as int);
    let numbers = weighted_precisions(scores@, labels@, units);
    assert(numbers.take(levels.len() as int) == numbers);
    units
}

} // verus!
