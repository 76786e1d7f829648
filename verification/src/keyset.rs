//! Sets of verification units, kept in ascending order.
//!
//! A unit is a day, a month, or a cell together with one of them. [`KeySet`]
//! holds units in ascending order without repetition, so that membership is a
//! binary search and a walk over the set meets the units in order.

use vstd::prelude::*;

verus! {

/// A unit with a total order, given by an integer code that no two units share.
pub trait Key: Sized {
    /// The code that orders the units.
    spec fn code(self) -> int;

    /// No two units share a code.
    proof fn code_is_injective(a: Self, b: Self)
        requires
            a.code() == b.code(),
        ensures
            a == b,
    ;

    /// Whether this unit comes before another one.
    fn precedes(self, other: Self) -> (r: bool)
        ensures
            r == (self.code() < other.code()),
    ;
}

impl Key for i64 {
    open spec fn code(self) -> int {
        self as int
    }

    proof fn code_is_injective(a: Self, b: Self) {
    }

    fn precedes(self, other: Self) -> (r: bool) {
        self < other
    }
}

impl Key for (i32, u32) {
    open spec fn code(self) -> int {
        self.0 * 0x1_0000_0000 + self.1
    }

    proof fn code_is_injective(a: Self, b: Self) {
    }

    fn precedes(self, other: Self) -> (r: bool) {
        self.0 < other.0 || (self.0 == other.0 && self.1 < other.1)
    }
}

/// A unit of time: a day number or a calendar month.
pub trait Period: Key {
    /// The unit that lies `delta` units later, where it is representable.
    spec fn moved(self, delta: int) -> Option<Self>;

    /// The codes of time units fit into 64 bits.
    proof fn code_is_bounded(self)
        ensures
            i64::MIN <= self.code() <= i64::MAX,
    ;

    /// The unit that lies `delta` units later, where it is representable.
    fn shifted(self, delta: i64) -> (r: Option<Self>)
        requires
            -0x1_0000_0000 <= delta <= 0x1_0000_0000,
        ensures
            r == self.moved(delta as int),
    ;
}

impl<T: Period> Key for (usize, T) {
    open spec fn code(self) -> int {
        self.0 * 0x1_0000_0000_0000_0000 + self.1.code()
    }

    proof fn code_is_injective(a: Self, b: Self) {
        a.1.code_is_bounded();
        b.1.code_is_bounded();
        T::code_is_injective(a.1, b.1);
    }

    fn precedes(self, other: Self) -> (r: bool) {
        proof {
            self.1.code_is_bounded();
            other.1.code_is_bounded();
        }
        self.0 < other.0 || (self.0 == other.0 && self.1.precedes(other.1))
    }
}

impl Period for i64 {
    open spec fn moved(self, delta: int) -> Option<i64> {
        if i64::MIN <= self + delta <= i64::MAX {
            Some((self + delta) as i64)
        } else {
            None
        }
    }

    proof fn code_is_bounded(self) {
    }

    fn shifted(self, delta: i64) -> (r: Option<i64>) {
        self.checked_add(delta)
    }
}

/// The number of months from the start of year zero to a `(year, month)` pair,
/// counting the first month of a year as `1`.
pub open spec fn month_number(month: (i32, u32)) -> int {
    month.0 * 12 + month.1 - 1
}

/// The month of a given number, where its year is representable.
pub open spec fn month_of_number(n: int) -> Option<(i32, u32)> {
    if i32::MIN <= n / 12 <= i32::MAX {
        Some(((n / 12) as i32, (n % 12 + 1) as u32))
    } else {
        None
    }
}

impl Period for (i32, u32) {
    open spec fn moved(self, delta: int) -> Option<(i32, u32)> {
        month_of_number(month_number(self) + delta)
    }

    proof fn code_is_bounded(self) {
    }

    fn shifted(self, delta: i64) -> (r: Option<(i32, u32)>) {
        let number: i64 = self.0 as i64 * 12 + self.1 as i64 - 1 + delta;
        let from_low: i64 = number + 0xC00_0000_0000;
        let year: i64 = from_low / 12 - 0x100_0000_0000;
        let month: i64 = from_low % 12 + 1;
        assert(number / 12 == year && number % 12 + 1 == month);
        if -0x8000_0000 <= year && year <= 0x7FFF_FFFF {
            Some((year as i32, month as u32))
        } else {
            None
        }
    }
}

/// Whether a sequence of units ascends strictly.
pub open spec fn ascending<K: Key>(s: Seq<K>) -> bool {
    forall|i: int, j: int| 0 <= i < j < s.len() ==> (#[trigger] s[i]).code() < (#[trigger] s[j]).code()
}

/// Merges two strictly ascending lists into one.
fn merge<K: Key + Copy>(a: &Vec<K>, b: &Vec<K>) -> (r: Vec<K>)
    requires
        ascending(a@),
        ascending(b@),
    ensures
        ascending(r@),
        r@.to_set() == a@.to_set() + b@.to_set(),
{
    let mut r: Vec<K> = Vec::new();
    let mut i: usize = 0;
    let mut j: usize = 0;
    assert(r@.to_set() == a@.take(0).to_set() + b@.take(0).to_set());
    while i < a.len() || j < b.len()
        invariant
            i <= a@.len(),
            j <= b@.len(),
            ascending(a@),
            ascending(b@),
            ascending(r@),
            r@.to_set() == a@.take(i as int).to_set() + b@.take(j as int).to_set(),
            forall|k: int| 0 <= k < r@.len() ==> (i < a@.len() ==> (#[trigger] r@[k]).code() < a@[i as int].code()),
            forall|k: int| 0 <= k < r@.len() ==> (j < b@.len() ==> (#[trigger] r@[k]).code() < b@[j as int].code()),
        decreases a@.len() - i + b@.len() - j,
    {
        let ghost before = r@;
        let ghost (i0, j0) = (i as int, j as int);
        let from_a: bool = j >= b.len() || (i < a.len() && !b[j].precedes(a[i]));
        let from_b: bool = i >= a.len() || (j < b.len() && !a[i].precedes(b[j]));
        let next: K = if from_a {
            a[i]
        } else {
            b[j]
        };
        r.push(next);
        if from_a {
            i = i + 1;
        }
        if from_b {
            j = j + 1;
        }
        proof {
            if from_a && from_b {
                K::code_is_injective(a@[i0], b@[j0]);
            }
            if from_a {
                assert(a@.take(i0 + 1) == a@.take(i0).push(a@[i0]));
                a@.take(i0).lemma_push_to_set_commute(a@[i0]);
            }
            if from_b {
                assert(b@.take(j0 + 1) == b@.take(j0).push(b@[j0]));
                b@.take(j0).lemma_push_to_set_commute(b@[j0]);
            }
            before.lemma_push_to_set_commute(next);
            assert(r@.to_set() == a@.take(i as int).to_set() + b@.take(j as int).to_set());
        }
    }
    assert(a@.take(a@.len() as int) == a@);
    assert(b@.take(b@.len() as int) == b@);
    r
}

/// The units of a part of a list, each once, in ascending order.
fn distinct_ascending<K: Key + Copy>(keys: &[K], from: usize, to: usize) -> (r: Vec<K>)
    requires
        from <= to <= keys@.len(),
    ensures
        ascending(r@),
        r@.to_set() == keys@.subrange(from as int, to as int).to_set(),
    decreases to - from,
{
    if to - from <= 1 {
        let mut r: Vec<K> = Vec::new();
        if from < to {
            r.push(keys[from]);
        }
        assert(r@ == keys@.subrange(from as int, to as int));
        r
    } else {
        let mid: usize = from + (to - from) / 2;
        let a: Vec<K> = distinct_ascending(keys, from, mid);
        let b: Vec<K> = distinct_ascending(keys, mid, to);
        proof {
            vstd::seq_lib::seq_to_set_distributes_over_add(
                keys@.subrange(from as int, mid as int),
                keys@.subrange(mid as int, to as int),
            );
            assert(keys@.subrange(from as int, mid as int) + keys@.subrange(mid as int, to as int) == keys@.subrange(
                from as int,
                to as int,
            ));
        }
        merge(&a, &b)
    }
}

/// A set of units, kept in ascending order.
#[derive(Debug)]
pub struct KeySet<K> {
    items: Vec<K>,
}

impl<K: Key> View for KeySet<K> {
    type V = Set<K>;

    closed spec fn view(&self) -> Set<K> {
        self.items@.to_set()
    }
}

impl<K: Key + Copy> KeySet<K> {
    /// The units in ascending order.
    pub closed spec fn listed(&self) -> Seq<K> {
        self.items@
    }

    /// The units ascend strictly.
    pub closed spec fn wf(&self) -> bool {
        ascending(self.items@)
    }

    /// What every set satisfies: it is finite, and its list holds each of its
    /// units once, in ascending order.
    pub proof fn lemma_listed(&self)
        requires
            self.wf(),
        ensures
            ascending(self.listed()),
            self.listed().no_duplicates(),
            self.listed().to_set() == self@,
            self@.finite(),
            self@.len() == self.listed().len(),
    {
        assert forall|i: int, j: int| 0 <= i < self.items@.len() && 0 <= j < self.items@.len() && i != j implies
            self.items@[i] != self.items@[j] by {
            if i < j {
                assert(self.items@[i].code() < self.items@[j].code());
            } else {
                assert(self.items@[j].code() < self.items@[i].code());
            }
        }
        self.items@.unique_seq_to_set();
        vstd::seq_lib::seq_to_set_is_finite(self.items@);
    }

    /// The set of the units of a list.
    pub fn from_keys(keys: &[K]) -> (r: KeySet<K>)
        ensures
            r.wf(),
            r@ == keys@.to_set(),
    {
        let items: Vec<K> = distinct_ascending(keys, 0, keys.len());
        assert(keys@.subrange(0, keys@.len() as int) == keys@);
        KeySet { items }
    }

    /// The number of listed units before `key`.
    fn lower_bound(&self, key: K) -> (r: usize)
        requires
            self.wf(),
        ensures
            r <= self.items@.len(),
            forall|i: int| 0 <= i < r ==> (#[trigger] self.items@[i]).code() < key.code(),
            forall|i: int| r <= i < self.items@.len() ==> (#[trigger] self.items@[i]).code() >= key.code(),
    {
        let mut low: usize = 0;
        let mut high: usize = self.items.len();
        while low < high
            invariant
                low <= high <= self.items@.len(),
                self.wf(),
                forall|i: int| 0 <= i < low ==> (#[trigger] self.items@[i]).code() < key.code(),
                forall|i: int| high <= i < self.items@.len() ==> (#[trigger] self.items@[i]).code() >= key.code(),
            decreases high - low,
        {
            let mid: usize = low + (high - low) / 2;
            if self.items[mid].precedes(key) {
                low = mid + 1;
            } else {
                high = mid;
            }
        }
        low
    }

    /// Whether a unit belongs to the set.
    pub fn contains(&self, key: K) -> (r: bool)
        requires
            self.wf(),
        ensures
            r == self@.contains(key),
    {
        let at: usize = self.lower_bound(key);
        if at < self.items.len() && !key.precedes(self.items[at]) {
            proof {
                K::code_is_injective(self.items@[at as int], key);
            }
            true
        } else {
            proof {
                if self@.contains(key) {
                    let i = choose|i: int| 0 <= i < self.items@.len() && self.items@[i] == key;
                    if i > at {
                        assert(self.items@[at as int].code() < self.items@[i].code());
                    }
                }
            }
            false
        }
    }

    /// The number of units.
    pub fn len(&self) -> (r: usize)
        requires
            self.wf(),
        ensures
            r == self@.len(),
    {
        proof {
            self.lemma_listed();
        }
        self.items.len()
    }

    /// The units in ascending order.
    pub fn as_slice(&self) -> (r: &[K])
        ensures
            r@ == self.listed(),
    {
        self.items.as_slice()
    }
}

} // verus!
