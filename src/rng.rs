//! Weighted random choice without replacement.
use vstd::prelude::*;
use vstd::set_lib::{set_int_range, lemma_int_range};

verus! {

/// An item with the weight of its chance to be drawn.
pub struct Weighted<T> {
    /// The numerical weight of this item.
    pub weight: u64,
    /// The item itself.
    pub item: T,
}

/// Why no item could be drawn.
#[derive(PartialEq, Eq, Structural, Clone, Copy, Debug)]
pub enum SampleError {
    /// The pool holds no item.
    EmptyPool,
    /// Every item left weighs zero.
    ZeroTotalWeight,
}

/// The sum of the weights in `s`.
pub open spec fn total<T>(s: Seq<Weighted<T>>) -> int
    decreases s.len(),
{
    if s.len() == 0 {
        0
    } else {
        total(s.drop_last()) + s.last().weight
    }
}

/// The sum of the weights of the first `i` items of `s`.
pub open spec fn prefix<T>(s: Seq<Weighted<T>>, i: int) -> int {
    total(s.take(i))
}

/// The index that the number `r` draws from `s`: the first item whose
/// running sum of weights exceeds `r`.
pub open spec fn pick<T>(s: Seq<Weighted<T>>, r: int) -> int
    decreases s.len(),
{
    if s.len() <= 1 {
        0
    } else if r >= total(s.drop_last()) {
        s.len() - 1
    } else {
        pick(s.drop_last(), r)
    }
}

/// `s` once the item at `i` has been taken out and the last item put in its
/// place.
pub open spec fn removed_at<T>(s: Seq<Weighted<T>>, i: int) -> Seq<Weighted<T>> {
    s.update(i, s.last()).drop_last()
}

proof fn lemma_take_step<T>(s: Seq<Weighted<T>>, i: int)
    requires
        0 <= i < s.len(),
    ensures
        prefix(s, i + 1) == prefix(s, i) + s[i].weight,
{
    assert(s.take(i + 1).drop_last() =~= s.take(i));
}

proof fn lemma_prefix_mono<T>(s: Seq<Weighted<T>>, a: int, b: int)
    requires
        0 <= a <= b <= s.len(),
    ensures
        0 <= prefix(s, a) <= prefix(s, b),
    decreases b - a,
{
    if a < b {
        lemma_take_step(s, b - 1);
        lemma_prefix_mono(s, a, b - 1);
    } else {
        lemma_total_bounds(s.take(a));
    }
}

proof fn lemma_total_bounds<T>(s: Seq<Weighted<T>>)
    ensures
        0 <= total(s) <= s.len() * u64::MAX,
    decreases s.len(),
{
    if s.len() > 0 {
        lemma_total_bounds(s.drop_last());
    }
}

proof fn lemma_prefix_all<T>(s: Seq<Weighted<T>>)
    ensures
        prefix(s, s.len() as int) == total(s),
{
    assert(s.take(s.len() as int) =~= s);
}

/// The number `r` below the total draws an item whose running sum of weights
/// first exceeds `r`.
pub proof fn lemma_pick<T>(s: Seq<Weighted<T>>, r: int)
    requires
        0 <= r < total(s),
    ensures
        0 <= pick(s, r) < s.len(),
        prefix(s, pick(s, r)) <= r < prefix(s, pick(s, r)) + s[pick(s, r)].weight,
    decreases s.len(),
{
    let d = s.drop_last();
    if s.len() == 1 {
        assert(d.len() == 0);
        assert(s.take(0).len() == 0);
    } else if r >= total(d) {
        assert(s.take(s.len() - 1) =~= d);
    } else {
        lemma_pick(d, r);
        let p = pick(d, r);
        assert(d.take(p) =~= s.take(p));
    }
}

/// Only the index whose range of numbers holds `r` is drawn by `r`.
pub proof fn lemma_pick_unique<T>(s: Seq<Weighted<T>>, r: int, i: int)
    requires
        0 <= i < s.len(),
        prefix(s, i) <= r < prefix(s, i) + s[i].weight,
    ensures
        pick(s, r) == i,
    decreases s.len(),
{
    let d = s.drop_last();
    if s.len() > 1 {
        if i == s.len() - 1 {
            assert(s.take(i) =~= d);
        } else {
            lemma_take_step(s, i);
            lemma_prefix_mono(s, i + 1, s.len() - 1);
            assert(s.take(s.len() - 1) =~= d);
            assert(d.take(i) =~= s.take(i));
            lemma_pick_unique(d, r, i);
        }
    }
}

proof fn lemma_total_update<T>(s: Seq<Weighted<T>>, i: int, x: Weighted<T>)
    requires
        0 <= i < s.len(),
    ensures
        total(s.update(i, x)) == total(s) - s[i].weight + x.weight,
    decreases s.len(),
{
    let u = s.update(i, x);
    if i == s.len() - 1 {
        assert(u.drop_last() =~= s.drop_last());
    } else {
        assert(u.drop_last() =~= s.drop_last().update(i, x));
        lemma_total_update(s.drop_last(), i, x);
    }
}

proof fn lemma_total_removed<T>(s: Seq<Weighted<T>>, i: int)
    requires
        0 <= i < s.len(),
    ensures
        total(removed_at(s, i)) == total(s) - s[i].weight,
{
    lemma_total_update(s, i, s.last());
}

/// An item of weight zero is never drawn: every number below the total draws
/// an item whose weight is above zero.
pub proof fn lemma_zero_weight_excluded<T>(s: Seq<Weighted<T>>, r: int)
    requires
        0 <= r < total(s),
    ensures
        s[pick(s, r)].weight > 0,
{
    lemma_pick(s, r);
}

/// The numbers below the total that draw the item at `i`.
pub open spec fn drawing<T>(s: Seq<Weighted<T>>, i: int) -> Set<int> {
    Set::new(|r: int| 0 <= r < total(s) && pick(s, r) == i)
}

/// A number drawn uniformly below the total draws each item with a chance of
/// its weight over the total: the numbers that draw the item at `i` are a run
/// as long as its weight.
pub proof fn lemma_draw_proportional<T>(s: Seq<Weighted<T>>, i: int)
    requires
        0 <= i < s.len(),
    ensures
        drawing(s, i) == set_int_range(prefix(s, i), prefix(s, i) + s[i].weight),
        drawing(s, i).finite(),
        drawing(s, i).len() == s[i].weight,
{
    lemma_take_step(s, i);
    lemma_prefix_mono(s, 0, i);
    lemma_prefix_mono(s, i + 1, s.len() as int);
    lemma_prefix_all(s);
    assert forall|r: int| #[trigger] drawing(s, i).contains(r) <==> set_int_range(
        prefix(s, i),
        prefix(s, i) + s[i].weight,
    ).contains(r) by {
        if 0 <= r < total(s) {
            lemma_pick(s, r);
            if prefix(s, i) <= r < prefix(s, i) + s[i].weight {
                lemma_pick_unique(s, r, i);
            }
        }
    }
    assert(drawing(s, i) =~= set_int_range(prefix(s, i), prefix(s, i) + s[i].weight));
    lemma_int_range(prefix(s, i), prefix(s, i) + s[i].weight);
}

/// The number of items of `s` whose weight is above zero.
pub open spec fn positive_count<T>(s: Seq<Weighted<T>>) -> int
    decreases s.len(),
{
    if s.len() == 0 {
        0
    } else {
        positive_count(s.drop_last()) + if s.last().weight > 0 {
            1int
        } else {
            0int
        }
    }
}

proof fn lemma_positive_update<T>(s: Seq<Weighted<T>>, i: int, x: Weighted<T>)
    requires
        0 <= i < s.len(),
    ensures
        positive_count(s.update(i, x)) == positive_count(s) - (if s[i].weight > 0 {
            1int
        } else {
            0int
        }) + (if x.weight > 0 {
            1int
        } else {
            0int
        }),
    decreases s.len(),
{
    let u = s.update(i, x);
    if i == s.len() - 1 {
        assert(u.drop_last() =~= s.drop_last());
    } else {
        assert(u.drop_last() =~= s.drop_last().update(i, x));
        lemma_positive_update(s.drop_last(), i, x);
    }
}

proof fn lemma_positive_zero<T>(s: Seq<Weighted<T>>)
    ensures
        0 <= positive_count(s),
        total(s) == 0 ==> positive_count(s) == 0,
    decreases s.len(),
{
    if s.len() > 0 {
        lemma_positive_zero(s.drop_last());
        lemma_total_bounds(s.drop_last());
    }
}

proof fn lemma_removed<T>(s: Seq<Weighted<T>>, i: int)
    requires
        0 <= i < s.len(),
        s[i].weight > 0,
    ensures
        positive_count(removed_at(s, i)) == positive_count(s) - 1,
        removed_at(s, i).to_multiset().insert(s[i]) == s.to_multiset(),
{
    broadcast use vstd::seq_lib::group_to_multiset_ensures, vstd::multiset::group_multiset_axioms;

    let u = s.update(i, s.last());
    lemma_positive_update(s, i, s.last());
    assert(u.last() == s.last());
    assert(u.drop_last().push(u.last()) =~= u);
    vstd::seq_lib::to_multiset_update(s, i, s.last());
    let d = u.drop_last();
    assert(d.push(u.last()).to_multiset() == d.to_multiset().insert(s.last()));
    assert(s.contains(s[i]));
    assert(s.to_multiset().count(s[i]) > 0);
    assert forall|a: Weighted<T>|
        #[trigger] d.to_multiset().insert(s[i]).count(a) == s.to_multiset().count(a) by {
        assert(u.to_multiset().count(a) == d.to_multiset().insert(s.last()).count(a));
        assert(u.to_multiset().count(a) == s.to_multiset().insert(s.last()).remove(s[i]).count(
            a,
        ));
    }
    assert(removed_at(s, i).to_multiset().insert(s[i]) =~= s.to_multiset());
}

/// Relies on rand's `thread_rng` and `Rng::gen_range(0..bound)`: a number
/// below `bound`. `gen_range` panics on an empty range, which `bound > 0`
/// rules out.
#[verifier::external_body]
fn random_below(bound: u128) -> (r: u128)
    requires
        bound > 0,
    ensures
        r < bound,
{
    rand::Rng::gen_range(&mut rand::thread_rng(), 0..bound)
}

/// A pool of weighted items, of which each draw takes one out.
pub struct WeightedChoice<T> {
    items: Vec<Weighted<T>>,
    sum: u128,
}

impl<T> View for WeightedChoice<T> {
    type V = Seq<Weighted<T>>;

    closed spec fn view(&self) -> Seq<Weighted<T>> {
        self.items@
    }
}

impl<T> WeightedChoice<T> {
    /// The cached sum is the sum of the weights of the items left.
    pub closed spec fn wf(&self) -> bool {
        self.sum == total(self.items@)
    }

    /// A pool of `items`.
    pub fn new(items: Vec<Weighted<T>>) -> (r: Self)
        ensures
            r.wf(),
            r@ == items@,
    {
        let mut sum: u128 = 0;
        let mut i: usize = 0;
        while i < items.len()
            invariant
                i <= items@.len(),
                sum == prefix(items@, i as int),
            decreases items@.len() - i,
        {
            proof {
                lemma_take_step(items@, i as int);
                lemma_total_bounds(items@.take(i as int + 1));
                assert((i as int + 1) * u64::MAX <= usize::MAX * u64::MAX) by (nonlinear_arith)
                    requires
                        i < usize::MAX,
                ;
            }
            sum = sum + items[i].weight as u128;
            i = i + 1;
        }
        proof {
            lemma_prefix_all(items@);
        }
        WeightedChoice { items, sum }
    }

    /// The sum of the weights of the items left.
    pub fn total_weight(&self) -> (r: u128)
        requires
            self.wf(),
        ensures
            r == total(self@),
    {
        self.sum
    }

    /// The number of items left.
    pub fn len(&self) -> (r: usize)
        ensures
            r == self@.len(),
    {
        self.items.len()
    }

    fn locate(&self, r: u128) -> (i: usize)
        requires
            self.wf(),
            r < total(self@),
        ensures
            i == pick(self@, r as int),
    {
        proof {
            lemma_pick(self@, r as int);
        }
        let mut acc: u128 = 0;
        let mut i: usize = 0;
        while i < self.items.len()
            invariant
                self.wf(),
                r < total(self@),
                i <= self.items@.len(),
                acc == prefix(self.items@, i as int),
                acc <= r,
            decreases self.items@.len() - i,
        {
            proof {
                lemma_take_step(self.items@, i as int);
                lemma_prefix_mono(self.items@, i as int + 1, self.items@.len() as int);
                lemma_prefix_all(self.items@);
            }
            acc = acc + self.items[i].weight as u128;
            if acc > r {
                proof {
                    lemma_pick_unique(self.items@, r as int, i as int);
                }
                return i;
            }
            i = i + 1;
        }
        proof {
            lemma_prefix_all(self.items@);
        }
        0
    }

    /// Draws the item that the number `r`, below the total weight, stands
    /// for, and takes it out of the pool: the first item whose running sum
    /// of weights exceeds `r`, whose place the last item then takes. For `r`
    /// drawn uniformly below the total, each item comes with a chance of its
    /// weight over the total.
    pub fn sample_with(&mut self, r: u128) -> (res: Result<T, SampleError>)
        requires
            old(self).wf(),
            old(self)@.len() > 0 && total(old(self)@) > 0 ==> r < total(old(self)@),
        ensures
            final(self).wf(),
            old(self)@.len() == 0 ==> res == Err::<T, SampleError>(SampleError::EmptyPool)
                && final(self)@ == old(self)@,
            old(self)@.len() > 0 && total(old(self)@) == 0 ==> res == Err::<T, SampleError>(
                SampleError::ZeroTotalWeight,
            ) && final(self)@ == old(self)@,
            old(self)@.len() > 0 && total(old(self)@) > 0 ==> {
                let p = pick(old(self)@, r as int);
                &&& 0 <= p < old(self)@.len()
                &&& old(self)@[p].weight > 0
                &&& res == Ok::<T, SampleError>(old(self)@[p].item)
                &&& final(self)@ == removed_at(old(self)@, p)
            },
    {
        if self.items.len() == 0 {
            return Err(SampleError::EmptyPool);
        }
        if self.sum == 0 {
            return Err(SampleError::ZeroTotalWeight);
        }
        let i = self.locate(r);
        proof {
            lemma_pick(self@, r as int);
            lemma_total_removed(self.items@, i as int);
            lemma_total_bounds(removed_at(self.items@, i as int));
        }
        let chosen = self.items.swap_remove(i);
        self.sum = self.sum - chosen.weight as u128;
        Ok(chosen.item)
    }

    /// Draws an item at random, each with a chance of its weight over the
    /// total, and takes it out of the pool.
    pub fn sample(&mut self) -> (res: Result<T, SampleError>)
        requires
            old(self).wf(),
        ensures
            final(self).wf(),
            old(self)@.len() == 0 ==> res == Err::<T, SampleError>(SampleError::EmptyPool)
                && final(self)@ == old(self)@,
            old(self)@.len() > 0 && total(old(self)@) == 0 ==> res == Err::<T, SampleError>(
                SampleError::ZeroTotalWeight,
            ) && final(self)@ == old(self)@,
            old(self)@.len() > 0 && total(old(self)@) > 0 ==> exists|r: int|
                0 <= r < total(old(self)@) && 0 <= #[trigger] pick(old(self)@, r) < old(
                    self,
                )@.len() && old(self)@[pick(old(self)@, r)].weight > 0 && res == Ok::<
                    T,
                    SampleError,
                >(old(self)@[pick(old(self)@, r)].item) && final(self)@ == removed_at(
                    old(self)@,
                    pick(old(self)@, r),
                ),
    {
        if self.items.len() == 0 {
            return Err(SampleError::EmptyPool);
        }
        if self.sum == 0 {
            return Err(SampleError::ZeroTotalWeight);
        }
        let r = random_below(self.sum);
        self.sample_with(r)
    }

    /// Draws up to `count` items, one after another, each taken out of the
    /// pool as it is drawn, and stops early once no item of weight above zero
    /// is left. The items come out in the order drawn; each is a distinct
    /// entry of the pool, of weight above zero.
    pub fn sample_up_to(&mut self, count: usize) -> (out: Vec<T>)
        requires
            old(self).wf(),
        ensures
            final(self).wf(),
            out@.len() == if count < positive_count(old(self)@) {
                count as int
            } else {
                positive_count(old(self)@)
            },
            positive_count(final(self)@) == positive_count(old(self)@) - out@.len(),
            exists|drawn: Seq<Weighted<T>>|
                {
                    &&& drawn.len() == out@.len()
                    &&& forall|j: int|
                        0 <= j < drawn.len() ==> #[trigger] drawn[j].item == out@[j]
                            && drawn[j].weight > 0
                    &&& final(self)@.to_multiset().add(drawn.to_multiset()) == old(
                        self,
                    )@.to_multiset()
                },
    {
        broadcast use vstd::seq_lib::group_to_multiset_ensures, vstd::multiset::group_multiset_axioms;

        let ghost start = self@;
        let ghost mut drawn: Seq<Weighted<T>> = Seq::empty();
        let mut out: Vec<T> = Vec::new();
        let mut done = false;
        proof {
            lemma_positive_zero(self@);
            assert(self@.to_multiset().add(drawn.to_multiset()) =~= start.to_multiset());
        }
        while !done && out.len() < count
            invariant
                self.wf(),
                out@.len() <= count,
                drawn.len() == out@.len(),
                forall|j: int| 0 <= j < drawn.len() ==> #[trigger] drawn[j].item == out@[j],
                forall|j: int| 0 <= j < drawn.len() ==> #[trigger] drawn[j].weight > 0,
                self@.to_multiset().add(drawn.to_multiset()) == start.to_multiset(),
                positive_count(self@) == positive_count(start) - out@.len(),
                0 <= positive_count(self@),
                done ==> positive_count(self@) == 0,
            decreases count - out@.len(), if done { 0int } else { 1int },
        {
            let ghost before = self@;
            match self.sample() {
                Ok(x) => {
                    let ghost old_drawn = drawn;
                    let ghost old_out = out@;
                    let ghost r = choose|r: int|
                        0 <= r < total(before) && 0 <= #[trigger] pick(before, r) < before.len()
                            && before[pick(before, r)].weight > 0 && Ok::<T, SampleError>(x)
                            == Ok::<T, SampleError>(before[pick(before, r)].item) && self@
                            == removed_at(before, pick(before, r));
                    let ghost p = pick(before, r);
                    proof {
                        lemma_removed(before, p);
                        lemma_positive_zero(self@);
                        old_drawn.to_multiset_ensures();
                        drawn = drawn.push(before[p]);
                        assert(drawn.to_multiset() == old_drawn.to_multiset().insert(before[p]));
                        assert(self@.to_multiset().add(drawn.to_multiset()) =~= start.to_multiset());
                        assert(x == before[p].item);
                    }
                    out.push(x);
                    proof {
                        assert forall|j: int| 0 <= j < drawn.len() implies #[trigger] drawn[j].item
                            == out@[j] && drawn[j].weight > 0 by {
                            if j < drawn.len() - 1 {
                                assert(drawn[j] == old_drawn[j]);
                                assert(out@[j] == old_out[j]);
                            } else {
                                assert(drawn[j] == before[p]);
                            }
                        }
                    }
                },
                Err(_) => {
                    proof {
                        lemma_positive_zero(self@);
                    }
                    done = true;
                },
            }
        }
        out
    }
}

} // verus!
