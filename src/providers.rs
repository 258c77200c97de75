use vstd::prelude::*;

use crate::BbpError;

verus! {

/// Whether provider `a` comes before provider `b` when ordered by price, ties broken by index.
pub open spec fn price_before(prices: Seq<u32>, a: usize, b: usize) -> bool {
    prices[a as int] < prices[b as int] || (prices[a as int] == prices[b as int] && a < b)
}

/// `order` lists every provider index of `prices` once, cheapest first, ties by index.
pub open spec fn is_price_order(prices: Seq<u32>, order: Seq<usize>) -> bool {
    &&& order.len() == prices.len()
    &&& forall|k: int| 0 <= k < order.len() ==> order[k] < prices.len()
    &&& forall|i: int, j: int|
        0 <= i < j < order.len() ==> #[trigger] price_before(prices, order[i], order[j])
    &&& forall|q: usize| q < prices.len() ==> #[trigger] order.contains(q)
}

/// No price occurs twice.
pub open spec fn prices_distinct(prices: Seq<u32>) -> bool {
    forall|i: int, j: int| 0 <= i < prices.len() && 0 <= j < prices.len() && i != j ==> prices[i] != prices[j]
}

/// The registered providers, each identified by its price; its index is its order of registration.
#[derive(Debug, Clone, PartialEq, Eq)]
pub struct Providers(pub Vec<u32>);

impl Providers {
    pub open spec fn view(&self) -> Seq<u32> {
        self.0@
    }

    pub fn new() -> (r: Self)
        ensures
            r@ == Seq::<u32>::empty(),
    {
        Providers(Vec::new())
    }

    /// Registers `price` as a new provider and returns its index; a price seen before is refused.
    pub fn add_provider(&mut self, price: u32) -> (r: Result<usize, BbpError>)
        ensures
            match r {
                Ok(idx) => !old(self)@.contains(price) && idx == old(self)@.len()
                    && final(self)@ == old(self)@.push(price),
                Err(e) => old(self)@.contains(price) && e == BbpError::DuplicateProvider
                    && final(self)@ == old(self)@,
            },
    {
        if self.find_provider(price).is_some() {
            return Err(BbpError::DuplicateProvider);
        }
        let idx = self.0.len();
        self.0.push(price);
        Ok(idx)
    }

    /// The index of the first provider with this price, if any.
    pub fn find_provider(&self, price: u32) -> (r: Option<usize>)
        ensures
            match r {
                Some(idx) => idx < self@.len() && self@[idx as int] == price
                    && forall|j: int| 0 <= j < idx ==> self@[j] != price,
                None => !self@.contains(price),
            },
    {
        let mut idx: usize = 0;
        while idx < self.0.len()
            invariant
                idx <= self@.len(),
                forall|j: int| 0 <= j < idx ==> self@[j] != price,
            decreases self@.len() - idx,
        {
            if self.0[idx] == price {
                return Some(idx);
            }
            idx += 1;
        }
        None
    }

    /// The provider indices ordered by ascending price; equal prices keep registration order.
    pub fn sort_by_price(&self) -> (r: Vec<usize>)
        ensures
            is_price_order(self@, r@),
    {
        let prices = &self.0;
        let n = prices.len();
        let mut sorted: Vec<usize> = Vec::new();
        let mut k: usize = 0;
        while k < n
            invariant
                n == prices@.len(),
                k <= n,
                sorted@.len() == k,
                forall|i: int| 0 <= i < k ==> sorted@[i] < k,
                forall|i: int, j: int|
                    0 <= i < j < k ==> #[trigger] price_before(prices@, sorted@[i], sorted@[j]),
                forall|q: usize| q < k ==> #[trigger] sorted@.contains(q),
            decreases n - k,
        {
            let pk = prices[k];
            let mut pos: usize = 0;
            while pos < sorted.len() && prices[sorted[pos]] <= pk
                invariant
                    pos <= sorted@.len(),
                    sorted@.len() == k,
                    k < n == prices@.len(),
                    forall|i: int| 0 <= i < k ==> sorted@[i] < k,
                    forall|i: int| 0 <= i < pos ==> prices@[sorted@[i] as int] <= pk,
                decreases sorted@.len() - pos,
            {
                pos += 1;
            }
            let ghost before = sorted@;
            sorted.insert(pos, k);
            proof {
                let s = sorted@;
                assert(s == before.insert(pos as int, k));
                assert forall|i: int, j: int| 0 <= i < j < k + 1 implies #[trigger] price_before(
                    prices@,
                    s[i],
                    s[j],
                ) by {
                    if j < pos {
                        assert(price_before(prices@, before[i], before[j]));
                    } else if j == pos {
                        assert(prices@[before[i] as int] <= pk);
                    } else if i < pos {
                        assert(price_before(prices@, before[i], before[j - 1]));
                    } else if i == pos {
                        assert(prices@[before[pos as int] as int] > pk);
                        if j - 1 > pos {
                            assert(price_before(prices@, before[pos as int], before[j - 1]));
                        }
                    } else {
                        assert(price_before(prices@, before[i - 1], before[j - 1]));
                    }
                }
                assert forall|q: usize| q < k + 1 implies #[trigger] s.contains(q) by {
                    if q == k {
                        assert(s[pos as int] == q);
                    } else {
                        assert(before.contains(q));
                        let i = choose|i: int| 0 <= i < k && before[i] == q;
                        if i < pos {
                            assert(s[i] == q);
                        } else {
                            assert(s[i + 1] == q);
                        }
                    }
                }
            }
            k += 1;
        }
        sorted
    }
}

} // verus!
