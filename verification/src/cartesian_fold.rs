//! Every combination of one element from each of several sequences, produced
//! one at a time in odometer order into a single reused buffer.

use vstd::prelude::*;
use vstd::arithmetic::div_mod::{
    lemma_fundamental_div_mod, lemma_fundamental_div_mod_converse, lemma_mod_bound,
};

verus! {

/// How many combinations there are of factors with these lengths: the
/// product of the lengths, which is one for no factor at all.
pub open spec fn count(lens: Seq<int>) -> int
    decreases lens.len(),
{
    if lens.len() == 0 {
        1
    } else {
        count(lens.drop_last()) * lens.last()
    }
}

/// The position within each factor of the `n`-th combination: `n` written in
/// the mixed radix of the lengths, the first factor being the lowest digit.
pub open spec fn digits(lens: Seq<int>, n: int) -> Seq<int>
    decreases lens.len(),
{
    if lens.len() == 0 {
        Seq::empty()
    } else {
        let low = lens.drop_last();
        digits(low, n % count(low)).push(n / count(low))
    }
}

/// The lengths of the factors.
pub open spec fn lengths<T>(factors: Seq<Seq<T>>) -> Seq<int> {
    Seq::new(factors.len(), |i: int| factors[i].len() as int)
}

/// The `n`-th combination: one element of each factor, in the factors' order.
pub open spec fn combination<T>(factors: Seq<Seq<T>>, n: int) -> Seq<T> {
    Seq::new(factors.len(), |i: int| factors[i][digits(lengths(factors), n)[i]])
}

/// The factors held in vectors, as sequences.
pub open spec fn grid<T>(factors: Seq<Vec<T>>) -> Seq<Seq<T>> {
    Seq::new(factors.len(), |i: int| factors[i]@)
}

/// Whether no factor is empty.
pub open spec fn all_positive(lens: Seq<int>) -> bool {
    forall|i: int| 0 <= i < lens.len() ==> #[trigger] lens[i] > 0
}

/// There is one position for each factor.
pub proof fn lemma_digits_len(lens: Seq<int>, n: int)
    ensures
        digits(lens, n).len() == lens.len(),
    decreases lens.len(),
{
    if lens.len() > 0 {
        lemma_digits_len(lens.drop_last(), n % count(lens.drop_last()));
    }
}

/// Factors that all hold something have at least one combination.
pub proof fn lemma_count_positive(lens: Seq<int>)
    requires
        all_positive(lens),
    ensures
        count(lens) > 0,
    decreases lens.len(),
{
    if lens.len() > 0 {
        let low = lens.drop_last();
        assert forall|i: int| 0 <= i < low.len() implies #[trigger] low[i] > 0 by {
            assert(low[i] == lens[i]);
        }
        lemma_count_positive(low);
        assert(lens.last() == lens[lens.len() - 1]);
        assert(count(low) * lens.last() > 0) by (nonlinear_arith)
            requires
                count(low) > 0,
                lens.last() > 0,
        ;
    }
}

/// One empty factor leaves no combination at all.
pub proof fn lemma_count_zero(lens: Seq<int>, i: int)
    requires
        0 <= i < lens.len(),
        lens[i] == 0,
    ensures
        count(lens) == 0,
    decreases lens.len(),
{
    let low = lens.drop_last();
    if i == lens.len() - 1 {
        assert(count(low) * 0 == 0);
    } else {
        assert(low[i] == lens[i]);
        lemma_count_zero(low, i);
        assert(0 * lens.last() == 0);
    }
}

/// The quotient and remainder of a combination's number by the count of the
/// lower factors.
pub proof fn lemma_split(w: int, top: int, n: int)
    requires
        w > 0,
        top > 0,
        0 <= n < w * top,
    ensures
        0 <= n % w < w,
        0 <= n / w < top,
        n == (n / w) * w + n % w,
{
    lemma_fundamental_div_mod(n, w);
    lemma_mod_bound(n, w);
    let q = n / w;
    let r = n % w;
    assert(n == w * q + r);
    assert(w * q == q * w) by (nonlinear_arith);
    assert(0 <= q < top) by (nonlinear_arith)
        requires
            w > 0,
            0 <= r < w,
            0 <= q * w + r < w * top,
    ;
}

/// Every position of a combination lies within its factor.
pub proof fn lemma_digits_in_range(lens: Seq<int>, n: int)
    requires
        all_positive(lens),
        0 <= n < count(lens),
    ensures
        digits(lens, n).len() == lens.len(),
        forall|i: int| 0 <= i < lens.len() ==> 0 <= #[trigger] digits(lens, n)[i] < lens[i],
    decreases lens.len(),
{
    lemma_digits_len(lens, n);
    if lens.len() > 0 {
        let low = lens.drop_last();
        assert forall|i: int| 0 <= i < low.len() implies #[trigger] low[i] > 0 by {
            assert(low[i] == lens[i]);
        }
        lemma_count_positive(low);
        assert(lens.last() == lens[lens.len() - 1]);
        lemma_split(count(low), lens.last(), n);
        lemma_digits_in_range(low, n % count(low));
        assert forall|i: int| 0 <= i < lens.len() implies 0 <= #[trigger] digits(lens, n)[i]
            < lens[i] by {
            if i < low.len() {
                assert(digits(lens, n)[i] == digits(low, n % count(low))[i]);
                assert(low[i] == lens[i]);
            }
        }
    }
}

/// The first combination takes the first element of every factor.
pub proof fn lemma_digits_zero(lens: Seq<int>)
    requires
        all_positive(lens),
    ensures
        digits(lens, 0) == Seq::new(lens.len(), |i: int| 0int),
    decreases lens.len(),
{
    if lens.len() > 0 {
        let low = lens.drop_last();
        assert forall|i: int| 0 <= i < low.len() implies #[trigger] low[i] > 0 by {
            assert(low[i] == lens[i]);
        }
        lemma_count_positive(low);
        lemma_digits_zero(low);
        lemma_fundamental_div_mod_converse(0, count(low), 0, 0);
    }
    assert(digits(lens, 0) =~= Seq::new(lens.len(), |i: int| 0int));
}

/// The positions after one odometer step from those of combination `n`:
/// factor `i` advances and the factors before it start over.
pub open spec fn stepped(lens: Seq<int>, n: int, i: int) -> Seq<int> {
    Seq::new(
        lens.len(),
        |j: int|
            if j < i {
                0
            } else if j == i {
                digits(lens, n)[i] + 1
            } else {
                digits(lens, n)[j]
            },
    )
}

/// The odometer step is the step to the next number. Let `i` be the first
/// factor whose position in combination `n` is not its last. If there is
/// none, `n` is the last combination; otherwise advancing factor `i` and
/// restarting the factors before it gives combination `n + 1`.
pub proof fn lemma_digits_step(lens: Seq<int>, n: int, i: int)
    requires
        all_positive(lens),
        0 <= n < count(lens),
        0 <= i <= lens.len(),
        forall|j: int| 0 <= j < i ==> #[trigger] digits(lens, n)[j] == lens[j] - 1,
        i < lens.len() ==> digits(lens, n)[i] + 1 < lens[i],
    ensures
        i == lens.len() ==> n == count(lens) - 1,
        i < lens.len() ==> n + 1 < count(lens) && digits(lens, n + 1) == stepped(lens, n, i),
    decreases lens.len(),
{
    if lens.len() > 0 {
        let low = lens.drop_last();
        let top = lens.last();
        let w = count(low);
        assert forall|j: int| 0 <= j < low.len() implies #[trigger] low[j] > 0 by {
            assert(low[j] == lens[j]);
        }
        lemma_count_positive(low);
        assert(top == lens[lens.len() - 1]);
        lemma_split(w, top, n);
        let q = n / w;
        let r = n % w;
        lemma_digits_len(low, r);
        lemma_digits_len(lens, n);
        assert(digits(lens, n) == digits(low, r).push(q));
        if i < low.len() {
            assert forall|j: int| 0 <= j < i implies #[trigger] digits(low, r)[j] == low[j] - 1 by {
                assert(digits(lens, n)[j] == lens[j] - 1);
                assert(low[j] == lens[j]);
            }
            assert(digits(low, r)[i] == digits(lens, n)[i]);
            assert(low[i] == lens[i]);
            lemma_digits_step(low, r, i);
            assert(n + 1 == q * w + (r + 1));
            lemma_fundamental_div_mod_converse(n + 1, w, q, r + 1);
            assert((q + 1) * w <= top * w) by (nonlinear_arith)
                requires
                    q + 1 <= top,
                    w > 0,
            ;
            assert(n + 1 < w * top) by (nonlinear_arith)
                requires
                    n + 1 == q * w + (r + 1),
                    r + 1 < w,
                    (q + 1) * w <= top * w,
            ;
            lemma_digits_len(low, r + 1);
            assert(digits(lens, n + 1) =~= stepped(lens, n, i));
        } else {
            assert forall|j: int| 0 <= j < low.len() implies #[trigger] digits(low, r)[j] == low[j]
                - 1 by {
                assert(digits(lens, n)[j] == lens[j] - 1);
                assert(low[j] == lens[j]);
            }
            lemma_digits_step(low, r, low.len() as int);
            assert(r == w - 1);
            if i == low.len() {
                assert(digits(lens, n)[i] == q);
                assert(q + 1 < top);
                assert(n + 1 == (q + 1) * w + 0) by (nonlinear_arith)
                    requires
                        n == q * w + r,
                        r == w - 1,
                ;
                lemma_fundamental_div_mod_converse(n + 1, w, q + 1, 0);
                lemma_digits_zero(low);
                assert((q + 2) * w <= top * w) by (nonlinear_arith)
                    requires
                        q + 2 <= top,
                        w > 0,
                ;
                assert(n + 1 < w * top) by (nonlinear_arith)
                    requires
                        n + 1 == (q + 1) * w + 0,
                        (q + 2) * w <= top * w,
                        w > 0,
                ;
                assert(digits(lens, n + 1) =~= stepped(lens, n, i));
            } else {
                assert(digits(lens, n)[lens.len() - 1] == q);
                assert(q == top - 1);
                assert(n == w * top - 1) by (nonlinear_arith)
                    requires
                        n == q * w + r,
                        r == w - 1,
                        q == top - 1,
                ;
            }
        }
    }
}

/// Two different numbers below the count give different positions: no
/// combination is produced twice.
pub proof fn lemma_digits_differ(lens: Seq<int>, n: int, m: int)
    requires
        all_positive(lens),
        0 <= n < count(lens),
        0 <= m < count(lens),
        n != m,
    ensures
        digits(lens, n) != digits(lens, m),
    decreases lens.len(),
{
    if lens.len() > 0 {
        let low = lens.drop_last();
        let w = count(low);
        assert forall|j: int| 0 <= j < low.len() implies #[trigger] low[j] > 0 by {
            assert(low[j] == lens[j]);
        }
        lemma_count_positive(low);
        assert(lens.last() == lens[lens.len() - 1]);
        lemma_split(w, lens.last(), n);
        lemma_split(w, lens.last(), m);
        lemma_digits_len(low, n % w);
        lemma_digits_len(low, m % w);
        if n / w != m / w {
            assert(digits(lens, n)[lens.len() - 1] == n / w);
            assert(digits(lens, m)[lens.len() - 1] == m / w);
        } else {
            assert(n % w != m % w);
            lemma_digits_differ(low, n % w, m % w);
            assert(digits(lens, n).drop_last() =~= digits(low, n % w));
            assert(digits(lens, m).drop_last() =~= digits(low, m % w));
        }
    }
}

/// The first factor varies fastest: its position is the number modulo its
/// length.
pub proof fn lemma_first_factor_fastest(lens: Seq<int>, n: int)
    requires
        all_positive(lens),
        0 <= n < count(lens),
        lens.len() > 0,
    ensures
        digits(lens, n)[0] == n % lens[0],
    decreases lens.len(),
{
    let low = lens.drop_last();
    let w = count(low);
    assert forall|j: int| 0 <= j < low.len() implies #[trigger] low[j] > 0 by {
        assert(low[j] == lens[j]);
    }
    lemma_count_positive(low);
    assert(lens.last() == lens[lens.len() - 1]);
    lemma_split(w, lens.last(), n);
    if lens.len() == 1 {
        assert(low.len() == 0);
        assert(w == 1);
        assert(count(lens) == 1 * lens[0]);
        assert(n / 1 == n);
        lemma_digits_len(low, n % w);
        assert(digits(lens, n)[0] == n / w);
        vstd::arithmetic::div_mod::lemma_small_mod(n as nat, lens[0] as nat);
    } else {
        lemma_digits_len(low, n % w);
        lemma_first_factor_fastest(low, n % w);
        assert(low[0] == lens[0]);
        assert(digits(lens, n)[0] == digits(low, n % w)[0]);
        // the count of the lower factors is a multiple of the first length
        lemma_count_multiple_of_first(low);
        let k = w / lens[0];
        assert(w == k * lens[0]);
        let q = n / w;
        let r = n % w;
        lemma_fundamental_div_mod(r, lens[0]);
        let a = r / lens[0];
        let b = r % lens[0];
        lemma_mod_bound(r, lens[0]);
        assert(n == (q * k + a) * lens[0] + b) by (nonlinear_arith)
            requires
                n == q * w + r,
                w == k * lens[0],
                r == lens[0] * a + b,
        ;
        lemma_fundamental_div_mod_converse(n, lens[0], q * k + a, b);
    }
}

proof fn lemma_count_multiple_of_first(lens: Seq<int>)
    requires
        lens.len() > 0,
        all_positive(lens),
    ensures
        count(lens) == (count(lens) / lens[0]) * lens[0],
    decreases lens.len(),
{
    let low = lens.drop_last();
    if lens.len() == 1 {
        assert(low.len() == 0);
        assert(count(low) == 1);
        assert(count(lens) == 1 * lens[0]);
        lemma_fundamental_div_mod_converse(count(lens), lens[0], 1, 0);
    } else {
        assert forall|j: int| 0 <= j < low.len() implies #[trigger] low[j] > 0 by {
            assert(low[j] == lens[j]);
        }
        lemma_count_multiple_of_first(low);
        assert(low[0] == lens[0]);
        let k = count(low) / lens[0];
        assert(count(lens) == (k * lens.last()) * lens[0] + 0) by (nonlinear_arith)
            requires
                count(lens) == count(low) * lens.last(),
                count(low) == k * lens[0],
        ;
        lemma_fundamental_div_mod_converse(count(lens), lens[0], k * lens.last(), 0);
    }
}

/// Where an enumeration stands.
enum Items {
    /// Nothing was asked for yet.
    InIterator,
    /// The buffer holds the combination produced last.
    Evaluated,
    /// Every combination was produced.
    Empty,
}

/// The combinations of one element from each factor, produced lazily in
/// odometer order: the first factor varies fastest. A combination is lent
/// out of one buffer that the next call overwrites.
pub struct CartesianProductCollections<T> {
    factors: Vec<Vec<T>>,
    positions: Vec<usize>,
    current_items: Vec<T>,
    items: Items,
    produced: Ghost<int>,
}

impl<T: Copy> CartesianProductCollections<T> {
    /// The factors that are combined.
    pub closed spec fn factors(&self) -> Seq<Seq<T>> {
        grid(self.factors@)
    }

    /// How many combinations were produced so far.
    pub closed spec fn produced(&self) -> int {
        self.produced@
    }

    /// How many combinations there are in all.
    pub open spec fn total(&self) -> int {
        count(lengths(self.factors()))
    }

    /// The buffer and the positions agree with the number of combinations
    /// produced.
    pub closed spec fn wf(&self) -> bool {
        let lens = lengths(self.factors());
        match self.items {
            Items::InIterator => {
                &&& self.produced@ == 0
                &&& self.positions@.len() == 0
                &&& self.current_items@.len() == 0
            },
            Items::Evaluated => {
                &&& all_positive(lens)
                &&& 1 <= self.produced@ <= count(lens)
                &&& self.positions@.len() == self.factors@.len()
                &&& self.current_items@.len() == self.factors@.len()
                &&& forall|i: int|
                    0 <= i < self.factors@.len() ==> (#[trigger] self.positions@[i]) as int
                        == digits(lens, self.produced@ - 1)[i]
                &&& self.current_items@ == combination(self.factors(), self.produced@ - 1)
            },
            Items::Empty => 0 <= self.produced@ && count(lens) <= self.produced@,
        }
    }

    /// An enumeration of the combinations of `factors` that has produced
    /// nothing yet.
    pub fn new(factors: Vec<Vec<T>>) -> (r: Self)
        ensures
            r.wf(),
            r.factors() == grid(factors@),
            r.produced() == 0,
    {
        CartesianProductCollections {
            factors,
            positions: Vec::new(),
            current_items: Vec::new(),
            items: Items::InIterator,
            produced: Ghost(0),
        }
    }

    /// The next combination, or `None` once all of them were produced. With
    /// no factor there is one combination, the empty one; with an empty
    /// factor there is none.
    pub fn next(&mut self) -> (r: Option<&[T]>)
        requires
            old(self).wf(),
        ensures
            final(self).wf(),
            final(self).factors() == old(self).factors(),
            0 <= old(self).produced(),
            old(self).produced() < old(self).total() ==> {
                &&& final(self).produced() == old(self).produced() + 1
                &&& r matches Some(c)
                &&& c@ == combination(old(self).factors(), old(self).produced())
            },
            old(self).produced() >= old(self).total() ==> {
                &&& final(self).produced() == old(self).produced()
                &&& r is None
            },
    {
        let ghost lens = lengths(self.factors());
        let ghost before = self.produced@;
        let n = self.factors.len();
        match self.items {
            Items::InIterator => {
                let mut i: usize = 0;
                while i < n
                    invariant
                        n == self.factors@.len(),
                        i <= n,
                        self.factors == old(self).factors,
                        self.produced@ == 0,
                        old(self).produced@ == 0,
                        self.items is InIterator,
                        lens == lengths(self.factors()),
                        self.positions@.len() == i,
                        self.current_items@.len() == i,
                        forall|j: int| 0 <= j < i ==> #[trigger] lens[j] > 0,
                        forall|j: int| 0 <= j < i ==> #[trigger] self.positions@[j] == 0,
                        forall|j: int|
                            0 <= j < i ==> #[trigger] self.current_items@[j]
                                == self.factors@[j]@[0],
                    decreases n - i,
                {
                    if self.factors[i].len() == 0 {
                        self.items = Items::Empty;
                        proof {
                            assert(lens[i as int] == 0);
                            lemma_count_zero(lens, i as int);
                        }
                        return None;
                    }
                    let first = self.factors[i][0];
                    self.positions.push(0);
                    self.current_items.push(first);
                    assert(lens[i as int] > 0);
                    i = i + 1;
                }
                self.items = Items::Evaluated;
                proof {
                    self.produced@ = 1;
                    lemma_count_positive(lens);
                    lemma_digits_zero(lens);
                    assert(self.current_items@ =~= combination(self.factors(), 0));
                }
                Some(self.current_items.as_slice())
            },
            Items::Evaluated => {
                proof {
                    lemma_digits_in_range(lens, before - 1);
                }
                let mut idx: usize = 0;
                let mut found = false;
                while idx < n && !found
                    invariant
                        n == self.factors@.len(),
                        idx <= n,
                        self.wf(),
                        self.items is Evaluated,
                        *self == *old(self),
                        lens == lengths(self.factors()),
                        before == self.produced@,
                        forall|j: int|
                            0 <= j < n ==> 0 <= #[trigger] digits(lens, before - 1)[j] < lens[j],
                        forall|j: int|
                            0 <= j < idx ==> #[trigger] digits(lens, before - 1)[j] == lens[j] - 1,
                        found ==> idx < n && digits(lens, before - 1)[idx as int] + 1
                            < lens[idx as int],
                    decreases n - idx, if found { 0int } else { 1int },
                {
                    let len = self.factors[idx].len();
                    assert(self.positions@[idx as int] as int == digits(
                        lens,
                        before - 1,
                    )[idx as int]);
                    assert(lens[idx as int] == len);
                    if self.positions[idx] + 1 < len {
                        found = true;
                    } else {
                        idx = idx + 1;
                    }
                }
                proof {
                    lemma_digits_step(lens, before - 1, idx as int);
                }
                if !found {
                    self.items = Items::Empty;
                    return None;
                }
                let ghost target = stepped(lens, before - 1, idx as int);
                let len = self.factors[idx].len();
                assert(self.positions@[idx as int] as int == digits(lens, before - 1)[idx as int]);
                assert(lens[idx as int] == len);
                let advanced = self.positions[idx] + 1;
                let item = self.factors[idx][advanced];
                assert(target[idx as int] == advanced);
                self.positions[idx] = advanced;
                self.current_items[idx] = item;
                let mut j: usize = 0;
                while j < idx
                    invariant
                        n == self.factors@.len(),
                        j <= idx < n,
                        self.factors == old(self).factors,
                        self.items is Evaluated,
                        self.produced@ == before,
                        lens == lengths(self.factors()),
                        all_positive(lens),
                        target.len() == n,
                        target == stepped(lens, before - 1, idx as int),
                        self.positions@.len() == n,
                        self.current_items@.len() == n,
                        forall|k: int|
                            j <= k < n ==> (#[trigger] self.positions@[k]) as int == (if k < idx {
                                digits(lens, before - 1)[k]
                            } else {
                                target[k]
                            }),
                        forall|k: int|
                            0 <= k < j ==> (#[trigger] self.positions@[k]) as int == target[k],
                        forall|k: int|
                            0 <= k < n && (k < j || idx <= k) ==> 0 <= #[trigger] target[k]
                                < lens[k],
                        forall|k: int|
                            #![trigger self.current_items@[k]]
                            0 <= k < n && (k < j || idx <= k) ==> self.current_items@[k]
                                == self.factors@[k]@[target[k]],
                    decreases idx - j,
                {
                    assert(lens[j as int] > 0);
                    assert(lens[j as int] == self.factors@[j as int]@.len());
                    assert(target[j as int] == 0);
                    let first = self.factors[j][0];
                    let ghost items_before = self.current_items@;
                    self.positions[j] = 0;
                    self.current_items[j] = first;
                    assert(self.current_items@ == items_before.update(j as int, first));
                    assert forall|k: int| 0 <= k < n && (k < j + 1 || idx <= k) implies (
                    #[trigger] self.current_items@[k]) == self.factors@[k]@[target[k]] by {
                        if k != j {
                            assert(self.current_items@[k] == items_before[k]);
                        }
                    }
                    j = j + 1;
                }
                proof {
                    self.produced@ = before + 1;
                    assert(self.current_items@ =~= combination(self.factors(), before));
                }
                Some(self.current_items.as_slice())
            },
            Items::Empty => None,
        }
    }
}

/// Building the enumeration of combinations straight from the factors.
pub trait IterExt<T: Copy>: Sized {
    /// The factors as sequences.
    spec fn as_factors(self) -> Seq<Seq<T>>;

    /// The combinations of one element from each of the factors.
    fn cartesian_collections(self) -> (r: CartesianProductCollections<T>)
        ensures
            r.wf(),
            r.factors() == self.as_factors(),
            r.produced() == 0,
    ;
}

impl<T: Copy> IterExt<T> for Vec<Vec<T>> {
    open spec fn as_factors(self) -> Seq<Seq<T>> {
        grid(self@)
    }

    fn cartesian_collections(self) -> (r: CartesianProductCollections<T>) {
        CartesianProductCollections::new(self)
    }
}

} // verus!
