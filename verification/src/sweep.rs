//! The parameter sweep: every combination of baud rate, low tone, high tone
//! and filter width that four stepped ranges allow, tried in random order,
//! with one result row for each.

use crate::steppedrange::SteppedRange;
use vstd::prelude::*;

verus! {

/// One choice of the four swept parameters.
#[derive(Clone, Copy, Debug, PartialEq, Eq, Structural)]
pub struct Combination {
    pub baud_rate: u32,
    pub f_lo: u32,
    pub f_hi: u32,
    pub filter_width: u32,
}

/// Every pair of an item of `a` and an item of `b`: the pairs of the first
/// item of `a` come first, each run in the order of `b`.
pub open spec fn pairs<A, B>(a: Seq<A>, b: Seq<B>) -> Seq<(A, B)> {
    Seq::new(a.len() * b.len(), |i: int| (a[i / (b.len() as int)], b[i % (b.len() as int)]))
}

/// `Itertools::cartesian_product` of the itertools crate, collected. The
/// adaptor walks `b` once for every item of `a` and pairs a copy of that item
/// with each item of `b`.
#[verifier::external_body]
fn cartesian_product<A: Copy, B: Copy>(a: Vec<A>, b: Vec<B>) -> (r: Vec<(A, B)>)
    ensures
        r@ == pairs(a@, b@),
{
    itertools::Itertools::cartesian_product(a.into_iter(), b).collect()
}

/// The combination that two pairs make.
pub open spec fn combine(p: ((u32, u32), (u32, u32))) -> Combination {
    Combination { baud_rate: p.0.0, f_lo: p.0.1, f_hi: p.1.0, filter_width: p.1.1 }
}

/// The Cartesian product of four sequences, in the order baud rate, low
/// tone, high tone, filter width: the last varies fastest.
pub open spec fn product(
    baud_rate: Seq<u32>,
    f_lo: Seq<u32>,
    f_hi: Seq<u32>,
    filter_width: Seq<u32>,
) -> Seq<Combination> {
    pairs(pairs(baud_rate, f_lo), pairs(f_hi, filter_width)).map_values(
        |p: ((u32, u32), (u32, u32))| combine(p),
    )
}

/// The pair of the items at `i` and `j` stands at place `i * b.len() + j`.
pub proof fn lemma_pairs_index<A, B>(a: Seq<A>, b: Seq<B>, i: int, j: int)
    requires
        0 <= i < a.len(),
        0 <= j < b.len(),
    ensures
        0 <= i * b.len() + j < pairs(a, b).len(),
        pairs(a, b)[i * b.len() + j] == (a[i], b[j]),
{
    let n = b.len() as int;
    assert(0 <= i * n && i * n + n <= a.len() * n) by (nonlinear_arith)
        requires
            0 <= i < a.len(),
            n > 0,
    ;
    vstd::arithmetic::div_mod::lemma_fundamental_div_mod_converse(i * n + j, n, i, j);
}

/// Every place of `pairs(a, b)` holds the pair of an item of `a` and an item
/// of `b`, and is the place that `lemma_pairs_index` gives that pair.
pub proof fn lemma_pairs_place<A, B>(a: Seq<A>, b: Seq<B>, k: int)
    requires
        0 <= k < pairs(a, b).len(),
    ensures
        b.len() > 0,
        0 <= k / (b.len() as int) < a.len(),
        0 <= k % (b.len() as int) < b.len(),
        k == (k / (b.len() as int)) * b.len() + k % (b.len() as int),
        pairs(a, b)[k] == (a[k / (b.len() as int)], b[k % (b.len() as int)]),
{
    let n = b.len() as int;
    if n == 0 {
        assert(a.len() * n == 0) by (nonlinear_arith)
            requires
                n == 0,
        ;
    }
    vstd::arithmetic::div_mod::lemma_fundamental_div_mod(k, n);
    vstd::arithmetic::div_mod::lemma_mod_bound(k, n);
    vstd::arithmetic::div_mod::lemma_div_pos_is_pos(k, n);
    assert(a.len() * n == n * a.len()) by (nonlinear_arith);
    vstd::arithmetic::div_mod::lemma_multiply_divide_lt(k, n, a.len() as int);
    assert((k / n) * n == n * (k / n)) by (nonlinear_arith);
}

/// A pair is among `pairs(a, b)` exactly when its first part is among `a` and
/// its second among `b`.
pub proof fn lemma_pairs_contains<A, B>(a: Seq<A>, b: Seq<B>, x: A, y: B)
    ensures
        pairs(a, b).contains((x, y)) <==> a.contains(x) && b.contains(y),
{
    if pairs(a, b).contains((x, y)) {
        let k = choose|k: int| 0 <= k < pairs(a, b).len() && pairs(a, b)[k] == (x, y);
        lemma_pairs_place(a, b, k);
        assert(a[k / (b.len() as int)] == x);
        assert(b[k % (b.len() as int)] == y);
    }
    if a.contains(x) && b.contains(y) {
        let i = choose|i: int| 0 <= i < a.len() && a[i] == x;
        let j = choose|j: int| 0 <= j < b.len() && b[j] == y;
        lemma_pairs_index(a, b, i, j);
    }
}

/// Where neither `a` nor `b` holds an item twice, no pair comes twice.
pub proof fn lemma_pairs_no_duplicates<A, B>(a: Seq<A>, b: Seq<B>)
    requires
        a.no_duplicates(),
        b.no_duplicates(),
    ensures
        pairs(a, b).no_duplicates(),
{
    assert forall|k: int, m: int|
        0 <= k < pairs(a, b).len() && 0 <= m < pairs(a, b).len() && k != m implies pairs(a, b)[k]
        != pairs(a, b)[m] by {
        lemma_pairs_place(a, b, k);
        lemma_pairs_place(a, b, m);
    }
}

/// The product holds as many combinations as the four lengths multiply to.
pub proof fn lemma_product_len(
    baud_rate: Seq<u32>,
    f_lo: Seq<u32>,
    f_hi: Seq<u32>,
    filter_width: Seq<u32>,
)
    ensures
        product(baud_rate, f_lo, f_hi, filter_width).len() == baud_rate.len() * f_lo.len()
            * f_hi.len() * filter_width.len(),
{
    assert((baud_rate.len() * f_lo.len()) * (f_hi.len() * filter_width.len()) == baud_rate.len()
        * f_lo.len() * f_hi.len() * filter_width.len()) by (nonlinear_arith);
}

/// The order of the product: the combination of the items at `b`, `l`, `h`
/// and `w` stands at place `((b * f_lo.len() + l) * f_hi.len() + h) *
/// filter_width.len() + w`.
pub proof fn lemma_product_index(
    baud_rate: Seq<u32>,
    f_lo: Seq<u32>,
    f_hi: Seq<u32>,
    filter_width: Seq<u32>,
    b: int,
    l: int,
    h: int,
    w: int,
)
    requires
        0 <= b < baud_rate.len(),
        0 <= l < f_lo.len(),
        0 <= h < f_hi.len(),
        0 <= w < filter_width.len(),
    ensures
        0 <= ((b * f_lo.len() + l) * f_hi.len() + h) * filter_width.len() + w < product(
            baud_rate,
            f_lo,
            f_hi,
            filter_width,
        ).len(),
        product(baud_rate, f_lo, f_hi, filter_width)[((b * f_lo.len() + l) * f_hi.len() + h)
            * filter_width.len() + w] == (Combination {
            baud_rate: baud_rate[b],
            f_lo: f_lo[l],
            f_hi: f_hi[h],
            filter_width: filter_width[w],
        }),
{
    let rates = pairs(baud_rate, f_lo);
    let filters = pairs(f_hi, filter_width);
    lemma_pairs_index(baud_rate, f_lo, b, l);
    lemma_pairs_index(f_hi, filter_width, h, w);
    let r = b * f_lo.len() + l;
    let f = h * filter_width.len() + w;
    lemma_pairs_index(rates, filters, r, f);
    assert(r * filters.len() + f == (r * f_hi.len() + h) * filter_width.len() + w)
        by (nonlinear_arith)
        requires
            filters.len() == f_hi.len() * filter_width.len(),
            f == h * filter_width.len() + w,
    ;
}

/// A combination is in the product exactly when each of its four parts is in
/// its sequence.
pub proof fn lemma_product_contains(
    baud_rate: Seq<u32>,
    f_lo: Seq<u32>,
    f_hi: Seq<u32>,
    filter_width: Seq<u32>,
    c: Combination,
)
    ensures
        product(baud_rate, f_lo, f_hi, filter_width).contains(c) <==> baud_rate.contains(
            c.baud_rate,
        ) && f_lo.contains(c.f_lo) && f_hi.contains(c.f_hi) && filter_width.contains(
            c.filter_width,
        ),
{
    let rates = pairs(baud_rate, f_lo);
    let filters = pairs(f_hi, filter_width);
    let nested = pairs(rates, filters);
    let all = product(baud_rate, f_lo, f_hi, filter_width);
    let p = ((c.baud_rate, c.f_lo), (c.f_hi, c.filter_width));
    lemma_pairs_contains(baud_rate, f_lo, c.baud_rate, c.f_lo);
    lemma_pairs_contains(f_hi, filter_width, c.f_hi, c.filter_width);
    lemma_pairs_contains(rates, filters, p.0, p.1);
    if all.contains(c) {
        let k = choose|k: int| 0 <= k < all.len() && all[k] == c;
        assert(combine(nested[k]) == c);
        assert(nested[k] == p);
    }
    if nested.contains(p) {
        let k = choose|k: int| 0 <= k < nested.len() && nested[k] == p;
        assert(all[k] == c);
    }
}

/// Where none of the four sequences holds a number twice, no combination
/// comes twice in the product.
pub proof fn lemma_product_no_duplicates(
    baud_rate: Seq<u32>,
    f_lo: Seq<u32>,
    f_hi: Seq<u32>,
    filter_width: Seq<u32>,
)
    requires
        baud_rate.no_duplicates(),
        f_lo.no_duplicates(),
        f_hi.no_duplicates(),
        filter_width.no_duplicates(),
    ensures
        product(baud_rate, f_lo, f_hi, filter_width).no_duplicates(),
{
    let rates = pairs(baud_rate, f_lo);
    let filters = pairs(f_hi, filter_width);
    let nested = pairs(rates, filters);
    let all = product(baud_rate, f_lo, f_hi, filter_width);
    lemma_pairs_no_duplicates(baud_rate, f_lo);
    lemma_pairs_no_duplicates(f_hi, filter_width);
    lemma_pairs_no_duplicates(rates, filters);
    assert forall|k: int, m: int| 0 <= k < all.len() && 0 <= m < all.len() && k != m implies all[k]
        != all[m] by {
        assert(all[k] == combine(nested[k]));
        assert(all[m] == combine(nested[m]));
        assert(nested[k] != nested[m]);
    }
}

/// Every combination that the four ranges allow, in the order of `product`.
pub fn combinations(
    baud_rate: &SteppedRange,
    f_lo: &SteppedRange,
    f_hi: &SteppedRange,
    filter_width: &SteppedRange,
) -> (all: Vec<Combination>)
    requires
        baud_rate.valid(),
        f_lo.valid(),
        f_hi.valid(),
        filter_width.valid(),
    ensures
        all@ == product(
            baud_rate.sequence(),
            f_lo.sequence(),
            f_hi.sequence(),
            filter_width.sequence(),
        ),
{
    let rates = cartesian_product(baud_rate.values(), f_lo.values());
    let filters = cartesian_product(f_hi.values(), filter_width.values());
    let nested = cartesian_product(rates, filters);
    let mut all: Vec<Combination> = Vec::new();
    let mut i: usize = 0;
    while i < nested.len()
        invariant
            i <= nested.len(),
            all@ == nested@.take(i as int).map_values(|p: ((u32, u32), (u32, u32))| combine(p)),
        decreases nested.len() - i,
    {
        let p = nested[i];
        all.push(
            Combination { baud_rate: p.0.0, f_lo: p.0.1, f_hi: p.1.0, filter_width: p.1.1 },
        );
        i += 1;
        assert(all@ =~= nested@.take(i as int).map_values(
            |p: ((u32, u32), (u32, u32))| combine(p),
        ));
    }
    assert(nested@.take(i as int) =~= nested@);
    all
}

#[verifier::external_type_specification]
#[verifier::external_body]
pub struct ExStdRng(rand::rngs::StdRng);

/// `SliceRandom::shuffle` of the rand crate, on the whole vector. The
/// shuffle only swaps items, so the same combinations remain, each as often
/// as before; nothing is claimed of their new order.
#[verifier::external_body]
fn shuffle(items: &mut Vec<Combination>, rng: &mut rand::rngs::StdRng)
    ensures
        final(items)@.to_multiset() == old(items)@.to_multiset(),
{
    rand::seq::SliceRandom::shuffle(items.as_mut_slice(), rng);
}

/// What one trial gave: the combination tried, the sample rate it was tried
/// at, how many packets were sent and how many the demodulator got back.
#[derive(Clone, Copy, Debug, PartialEq, Eq, Structural)]
pub struct SweepResult {
    pub combination: Combination,
    pub sample_rate: u32,
    pub packets_sent: usize,
    pub packets_decoded: u32,
}

impl SweepResult {
    /// The success ratio as decoded over sent; there is none where nothing
    /// was sent.
    pub fn success_ratio(&self) -> (r: Option<(u32, usize)>)
        ensures
            self.packets_sent == 0 ==> r is None,
            self.packets_sent != 0 ==> r == Some((self.packets_decoded, self.packets_sent)),
    {
        if self.packets_sent == 0 {
            None
        } else {
            Some((self.packets_decoded, self.packets_sent))
        }
    }
}

/// The combinations of the rows, in the rows' order.
pub open spec fn combinations_of(rows: Seq<SweepResult>) -> Seq<Combination> {
    rows.map_values(|row: SweepResult| row.combination)
}

/// A sweep in progress: the four ranges, the order in which their
/// combinations are tried, and the rows of the trials made so far.
#[derive(Debug)]
pub struct Sweep {
    baud_rate: SteppedRange,
    f_lo: SteppedRange,
    f_hi: SteppedRange,
    filter_width: SteppedRange,
    order: Vec<Combination>,
    rows: Vec<SweepResult>,
}

/// What a `Sweep` holds.
pub struct SweepState {
    pub baud_rate: Seq<u32>,
    pub f_lo: Seq<u32>,
    pub f_hi: Seq<u32>,
    pub filter_width: Seq<u32>,
    pub order: Seq<Combination>,
    pub rows: Seq<SweepResult>,
}

impl SweepState {
    /// The unshuffled product of the four sequences.
    pub open spec fn product(self) -> Seq<Combination> {
        product(self.baud_rate, self.f_lo, self.f_hi, self.filter_width)
    }

    /// The order is a rearrangement of the product, and the rows so far are
    /// those of the first trials of the order, one each.
    pub open spec fn wf(self) -> bool {
        &&& self.baud_rate.no_duplicates()
        &&& self.f_lo.no_duplicates()
        &&& self.f_hi.no_duplicates()
        &&& self.filter_width.no_duplicates()
        &&& self.order.to_multiset() == self.product().to_multiset()
        &&& self.rows.len() <= self.order.len()
        &&& combinations_of(self.rows) == self.order.take(self.rows.len() as int)
    }

    /// Whether every combination has its row.
    pub open spec fn finished(self) -> bool {
        self.rows.len() >= self.order.len()
    }
}

impl View for Sweep {
    type V = SweepState;

    closed spec fn view(&self) -> SweepState {
        SweepState {
            baud_rate: self.baud_rate.sequence(),
            f_lo: self.f_lo.sequence(),
            f_hi: self.f_hi.sequence(),
            filter_width: self.filter_width.sequence(),
            order: self.order@,
            rows: self.rows@,
        }
    }
}

impl Sweep {
    /// Whether the sweep is in order; every sweep that `new` made is, and
    /// stays so.
    pub open spec fn wf(&self) -> bool {
        self@.wf()
    }

    /// Plans a sweep over the combinations of four ranges, in an order that
    /// `rng` decides.
    pub fn new(
        baud_rate: &SteppedRange,
        f_lo: &SteppedRange,
        f_hi: &SteppedRange,
        filter_width: &SteppedRange,
        rng: &mut rand::rngs::StdRng,
    ) -> (sweep: Sweep)
        requires
            baud_rate.valid(),
            f_lo.valid(),
            f_hi.valid(),
            filter_width.valid(),
        ensures
            sweep.wf(),
            sweep@.baud_rate == baud_rate.sequence(),
            sweep@.f_lo == f_lo.sequence(),
            sweep@.f_hi == f_hi.sequence(),
            sweep@.filter_width == filter_width.sequence(),
            sweep@.rows == Seq::<SweepResult>::empty(),
    {
        let mut order = combinations(baud_rate, f_lo, f_hi, filter_width);
        shuffle(&mut order, rng);
        let sweep = Sweep {
            baud_rate: *baud_rate,
            f_lo: *f_lo,
            f_hi: *f_hi,
            filter_width: *filter_width,
            order,
            rows: Vec::new(),
        };
        proof {
            crate::steppedrange::lemma_sequence(*baud_rate);
            crate::steppedrange::lemma_sequence(*f_lo);
            crate::steppedrange::lemma_sequence(*f_hi);
            crate::steppedrange::lemma_sequence(*filter_width);
            assert(combinations_of(sweep@.rows) =~= sweep@.order.take(0));
        }
        sweep
    }

    /// How many trials the sweep has in all.
    pub fn total(&self) -> (n: usize)
        ensures
            n == self@.order.len(),
    {
        self.order.len()
    }

    /// How many trials have their row.
    pub fn done(&self) -> (n: usize)
        ensures
            n == self@.rows.len(),
    {
        self.rows.len()
    }

    /// The order in which the combinations are tried.
    pub fn order(&self) -> (order: &Vec<Combination>)
        ensures
            order@ == self@.order,
    {
        &self.order
    }

    /// The rows of the trials made so far, in the order they were made.
    pub fn rows(&self) -> (rows: &Vec<SweepResult>)
        ensures
            rows@ == self@.rows,
    {
        &self.rows
    }

    /// The combination to try next, or `None` when every one has its row.
    pub fn next_trial(&self) -> (trial: Option<Combination>)
        ensures
            self@.finished() ==> trial is None,
            !self@.finished() ==> trial == Some(self@.order[self@.rows.len() as int]),
    {
        if self.rows.len() < self.order.len() {
            Some(self.order[self.rows.len()])
        } else {
            None
        }
    }

    /// Records what the pending trial gave and hands back its row. A
    /// finished sweep takes no more rows and is left as it is.
    pub fn record(&mut self, sample_rate: u32, packets_sent: usize, packets_decoded: u32) -> (row:
        Option<SweepResult>)
        ensures
            old(self).wf() ==> final(self).wf(),
            old(self)@.finished() ==> row is None && final(self)@ == old(self)@,
            !old(self)@.finished() ==> row == Some(
                SweepResult {
                    combination: old(self)@.order[old(self)@.rows.len() as int],
                    sample_rate,
                    packets_sent,
                    packets_decoded,
                },
            ) && final(self)@ == (SweepState { rows: old(self)@.rows.push(row->0), ..old(self)@ }),
    {
        if self.rows.len() < self.order.len() {
            let row = SweepResult {
                combination: self.order[self.rows.len()],
                sample_rate,
                packets_sent,
                packets_decoded,
            };
            self.rows.push(row);
            proof {
                if old(self).wf() {
                    assert(combinations_of(self@.rows) =~= self@.order.take(
                        self@.rows.len() as int,
                    ));
                }
            }
            Some(row)
        } else {
            None
        }
    }
}

/// The order of a sweep holds every combination of the four sequences
/// exactly once: it is as long as the four lengths multiply to, holds no
/// combination twice, and holds the same combinations as the unshuffled
/// product.
pub proof fn lemma_sweep_order(state: SweepState)
    requires
        state.wf(),
    ensures
        state.order.len() == state.baud_rate.len() * state.f_lo.len() * state.f_hi.len()
            * state.filter_width.len(),
        state.order.no_duplicates(),
        forall|c: Combination| state.product().contains(c) <==> #[trigger] state.order.contains(c),
{
    let all = state.product();
    lemma_product_len(state.baud_rate, state.f_lo, state.f_hi, state.filter_width);
    lemma_product_no_duplicates(state.baud_rate, state.f_lo, state.f_hi, state.filter_width);
    vstd::seq_lib::to_multiset_len(state.order);
    vstd::seq_lib::to_multiset_len(all);
    all.lemma_multiset_has_no_duplicates();
    state.order.lemma_multiset_has_no_duplicates_conv();
    assert forall|c: Combination| all.contains(c) <==> #[trigger] state.order.contains(c) by {
        vstd::seq_lib::to_multiset_contains(state.order, c);
        vstd::seq_lib::to_multiset_contains(all, c);
    }
}

/// A finished sweep holds exactly one row for every combination of the four
/// sequences: as many rows as the four lengths multiply to, no combination
/// twice, and the same combinations as the unshuffled product.
pub proof fn lemma_finished_sweep(state: SweepState)
    requires
        state.wf(),
        state.finished(),
    ensures
        state.rows.len() == state.baud_rate.len() * state.f_lo.len() * state.f_hi.len()
            * state.filter_width.len(),
        combinations_of(state.rows).no_duplicates(),
        combinations_of(state.rows).to_multiset() == state.product().to_multiset(),
        forall|c: Combination|
            state.product().contains(c) <==> #[trigger] combinations_of(state.rows).contains(c),
{
    assert(combinations_of(state.rows) =~= state.order);
    lemma_sweep_order(state);
}

} // verus!
