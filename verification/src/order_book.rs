use crate::decimal::{
    key_floor, key_frac, lemma_ordering_key, MAX_SCALE, decimal_difference, in_decimal_range, lemma_value_eq_lt, lemma_value_eq_trans, lemma_value_lt_eq,
    lemma_value_lt_trans, value_eq, value_lt, DecimalValue,
};
use crate::order::{Order, OrderStatus, Side};
use crate::types::{OrderId, Price};
use std::collections::{BTreeMap, HashMap, VecDeque};
use vstd::prelude::*;

verus! {

broadcast use vstd::std_specs::hash::group_hash_axioms;

/// Reasons a cancel request can fail.
#[derive(Debug, PartialEq, Eq, Structural)]
pub enum CancelError {
    /// No order with the given ID exists in the book.
    NotFound,
    /// The order exists but has already been cancelled.
    /// `OrderBook::cancel_order` removes the ID of an order it cancels from its index, so a
    /// repeated cancel meets `NotFound` there first; `Level::cancel_order` gives this one.
    AlreadyCancelled,
}

/// A level compacts once its tombstones make up at least this fraction of its orders:
/// the numerator of the fraction.
pub const COMPACTION_THRESHOLD_NUM: u64 = 1u64;

/// The denominator of the compaction threshold.
pub const COMPACTION_THRESHOLD_DEN: u64 = 2u64;

/// The order has been cancelled and stays only as a tombstone.
pub open spec fn is_cancelled(o: Order) -> bool {
    o.status is Cancelled
}

/// Keeps the orders that are not tombstones.
pub open spec fn is_live() -> spec_fn(Order) -> bool {
    |o: Order| !is_cancelled(o)
}

/// `o` with its status replaced.
pub open spec fn with_status(o: Order, status: OrderStatus) -> Order {
    Order { status, ..o }
}

/// `len` orders of which `tombstones` are tombstones have reached the compaction threshold.
pub open spec fn compaction_due(tombstones: nat, len: nat) -> bool {
    len > 0 && tombstones * COMPACTION_THRESHOLD_DEN >= len * COMPACTION_THRESHOLD_NUM
}

/// The number of cancelled orders in `s`.
pub open spec fn count_cancelled(s: Seq<Order>) -> nat
    decreases s.len(),
{
    if s.len() == 0 {
        0
    } else {
        count_cancelled(s.drop_last()) + if is_cancelled(s.last()) {
            1nat
        } else {
            0nat
        }
    }
}

/// `s` holds an order with ID `id`.
pub open spec fn holds_id(s: Seq<Order>, id: u64) -> bool {
    exists|i: int| 0 <= i < s.len() && #[trigger] s[i].id.0 == id
}

/// `i` is the position of the first order with ID `id` in `s`.
pub open spec fn is_first_with_id(s: Seq<Order>, id: u64, i: int) -> bool {
    &&& 0 <= i < s.len()
    &&& s[i].id.0 == id
    &&& forall|j: int| 0 <= j < i ==> #[trigger] s[j].id.0 != id
}

/// The position of the first order with ID `id` in `s` (meaningful where `holds_id(s, id)`).
pub open spec fn first_with_id(s: Seq<Order>, id: u64) -> int {
    choose|i: int| is_first_with_id(s, id, i)
}

/// `s` holds an order with ID `id` that is not cancelled.
pub open spec fn live_with_id(s: Seq<Order>, id: u64) -> bool {
    exists|i: int| 0 <= i < s.len() && #[trigger] s[i].id.0 == id && !is_cancelled(s[i])
}

/// `i` is the position of the first live order with ID `id` in `s`.
pub open spec fn is_first_live_with_id(s: Seq<Order>, id: u64, i: int) -> bool {
    &&& 0 <= i < s.len()
    &&& s[i].id.0 == id
    &&& !is_cancelled(s[i])
    &&& forall|j: int| 0 <= j < i ==> #[trigger] s[j].id.0 != id || is_cancelled(s[j])
}

/// The position of the first live order with ID `id` in `s` (meaningful where
/// `live_with_id(s, id)`).
pub open spec fn first_live_with_id(s: Seq<Order>, id: u64) -> int {
    choose|i: int| is_first_live_with_id(s, id, i)
}

/// The contents of a price level: its orders in time priority, and its tombstone count.
pub struct LevelView {
    pub orders: Seq<Order>,
    pub tombstones: nat,
}

impl LevelView {
    /// The tombstone count never exceeds the cancelled orders held, and a level that holds
    /// tombstones has not reached the compaction threshold.
    pub open spec fn wf(self) -> bool {
        &&& self.tombstones <= count_cancelled(self.orders)
        &&& (self.tombstones == 0 || !compaction_due(self.tombstones, self.orders.len()))
    }

    /// What cancelling the order with ID `id` answers.
    pub open spec fn cancel_outcome(self, id: u64) -> Result<(), CancelError> {
        if !holds_id(self.orders, id) {
            Err(CancelError::NotFound)
        } else if is_cancelled(self.orders[first_with_id(self.orders, id)]) {
            Err(CancelError::AlreadyCancelled)
        } else {
            Ok(())
        }
    }

    /// The level after the order at `i` is cancelled: it is marked cancelled and counted as a
    /// tombstone; once tombstones reach the threshold, all cancelled orders are dropped and the
    /// count starts again.
    pub open spec fn cancelled_at(self, i: int) -> LevelView {
        let marked = self.orders.update(i, with_status(self.orders[i], OrderStatus::Cancelled));
        let tombstones = self.tombstones + 1;
        if compaction_due(tombstones, marked.len()) {
            LevelView { orders: marked.filter(is_live()), tombstones: 0 }
        } else {
            LevelView { orders: marked, tombstones }
        }
    }

    /// The level after cancelling the order with ID `id`: the first order with that ID is
    /// cancelled. A refused cancel changes nothing.
    pub open spec fn after_cancel(self, id: u64) -> LevelView {
        if self.cancel_outcome(id) is Ok {
            self.cancelled_at(first_with_id(self.orders, id))
        } else {
            self
        }
    }

    /// What cancelling the live order with ID `id` answers: tombstones are passed over.
    pub open spec fn live_cancel_outcome(self, id: u64) -> Result<(), CancelError> {
        if live_with_id(self.orders, id) {
            Ok(())
        } else {
            Err(CancelError::NotFound)
        }
    }

    /// The level after cancelling the first live order with ID `id`. Where there is none,
    /// nothing changes.
    pub open spec fn after_live_cancel(self, id: u64) -> LevelView {
        if live_with_id(self.orders, id) {
            self.cancelled_at(first_live_with_id(self.orders, id))
        } else {
            self
        }
    }

    /// The level after `o` joins the back of its queue.
    pub open spec fn push(self, o: Order) -> LevelView {
        LevelView { orders: self.orders.push(o), tombstones: self.tombstones }
    }
}

/// The first order with an ID is unique.
pub proof fn lemma_first_with_id_unique(s: Seq<Order>, id: u64, i: int, j: int)
    requires
        is_first_with_id(s, id, i),
        is_first_with_id(s, id, j),
    ensures
        i == j,
{
    if i < j {
        assert(s[i].id.0 != id);
    } else if j < i {
        assert(s[j].id.0 != id);
    }
}

/// An order with ID `id` at `k` means a first one exists, at or before `k`.
proof fn lemma_first_with_id_exists(s: Seq<Order>, id: u64, k: int)
    requires
        0 <= k < s.len(),
        s[k].id.0 == id,
    ensures
        is_first_with_id(s, id, first_with_id(s, id)),
        first_with_id(s, id) <= k,
    decreases k,
{
    if exists|j: int| 0 <= j < k && #[trigger] s[j].id.0 == id {
        let j = choose|j: int| 0 <= j < k && #[trigger] s[j].id.0 == id;
        lemma_first_with_id_exists(s, id, j);
    } else {
        assert(is_first_with_id(s, id, k));
        lemma_first_with_id_unique(s, id, k, first_with_id(s, id));
    }
}

/// Where `s` holds `id`, `first_with_id` names the first order with it.
pub proof fn lemma_first_with_id(s: Seq<Order>, id: u64)
    requires
        holds_id(s, id),
    ensures
        is_first_with_id(s, id, first_with_id(s, id)),
{
    let k = choose|k: int| 0 <= k < s.len() && #[trigger] s[k].id.0 == id;
    lemma_first_with_id_exists(s, id, k);
}

/// Appending an order adds one to the cancelled count if it is cancelled.
proof fn lemma_count_cancelled_push(s: Seq<Order>, o: Order)
    ensures
        count_cancelled(s.push(o)) == count_cancelled(s) + if is_cancelled(o) {
            1nat
        } else {
            0nat
        },
{
    assert(s.push(o).drop_last() =~= s);
}

/// Replacing one order changes the cancelled count by the difference it makes.
proof fn lemma_count_cancelled_update(s: Seq<Order>, i: int, o: Order)
    requires
        0 <= i < s.len(),
    ensures
        count_cancelled(s.update(i, o)) + (if is_cancelled(s[i]) {
            1nat
        } else {
            0nat
        }) == count_cancelled(s) + (if is_cancelled(o) {
            1nat
        } else {
            0nat
        }),
    decreases s.len(),
{
    let u = s.update(i, o);
    if i == s.len() - 1 {
        assert(u.drop_last() =~= s.drop_last());
    } else {
        assert(u.drop_last() =~= s.drop_last().update(i, o));
        lemma_count_cancelled_update(s.drop_last(), i, o);
    }
}

/// Dropping the tombstones leaves no cancelled order.
pub proof fn lemma_compaction_leaves_no_tombstones(s: Seq<Order>)
    ensures
        count_cancelled(s.filter(is_live())) == 0,
    decreases s.len(),
{
    reveal(Seq::filter);
    if s.len() > 0 {
        lemma_compaction_leaves_no_tombstones(s.drop_last());
        if !is_cancelled(s.last()) {
            lemma_count_cancelled_push(s.drop_last().filter(is_live()), s.last());
        }
    }
}

/// The first live order with an ID is unique.
pub proof fn lemma_first_live_with_id_unique(s: Seq<Order>, id: u64, i: int, j: int)
    requires
        is_first_live_with_id(s, id, i),
        is_first_live_with_id(s, id, j),
    ensures
        i == j,
{
    if i < j {
        assert(s[i].id.0 != id || is_cancelled(s[i]));
    } else if j < i {
        assert(s[j].id.0 != id || is_cancelled(s[j]));
    }
}

/// A live order with ID `id` at `k` means a first one exists, at or before `k`.
proof fn lemma_first_live_with_id_exists(s: Seq<Order>, id: u64, k: int)
    requires
        0 <= k < s.len(),
        s[k].id.0 == id,
        !is_cancelled(s[k]),
    ensures
        is_first_live_with_id(s, id, first_live_with_id(s, id)),
        first_live_with_id(s, id) <= k,
    decreases k,
{
    if exists|j: int| 0 <= j < k && #[trigger] s[j].id.0 == id && !is_cancelled(s[j]) {
        let j = choose|j: int| 0 <= j < k && #[trigger] s[j].id.0 == id && !is_cancelled(s[j]);
        lemma_first_live_with_id_exists(s, id, j);
    } else {
        assert(is_first_live_with_id(s, id, k));
        lemma_first_live_with_id_unique(s, id, k, first_live_with_id(s, id));
    }
}

/// Where `s` holds a live order with ID `id`, `first_live_with_id` names the first one.
pub proof fn lemma_first_live_with_id(s: Seq<Order>, id: u64)
    requires
        live_with_id(s, id),
    ensures
        is_first_live_with_id(s, id, first_live_with_id(s, id)),
{
    let k = choose|k: int| 0 <= k < s.len() && #[trigger] s[k].id.0 == id && !is_cancelled(s[k]);
    lemma_first_live_with_id_exists(s, id, k);
}

/// Cancelling a live order keeps a level well formed.
pub proof fn lemma_level_cancelled_at_wf(lv: LevelView, i: int)
    requires
        lv.wf(),
        0 <= i < lv.orders.len(),
        !is_cancelled(lv.orders[i]),
    ensures
        lv.cancelled_at(i).wf(),
{
    let marked = lv.orders.update(i, with_status(lv.orders[i], OrderStatus::Cancelled));
    lemma_count_cancelled_update(lv.orders, i, with_status(lv.orders[i], OrderStatus::Cancelled));
    assert(count_cancelled(marked) == count_cancelled(lv.orders) + 1);
}

/// A cancel keeps a level well formed.
pub proof fn lemma_level_cancel_wf(lv: LevelView, id: u64)
    requires
        lv.wf(),
    ensures
        lv.after_cancel(id).wf(),
        lv.after_live_cancel(id).wf(),
{
    if lv.cancel_outcome(id) is Ok {
        lemma_first_with_id(lv.orders, id);
        lemma_level_cancelled_at_wf(lv, first_with_id(lv.orders, id));
    }
    if live_with_id(lv.orders, id) {
        lemma_first_live_with_id(lv.orders, id);
        lemma_level_cancelled_at_wf(lv, first_live_with_id(lv.orders, id));
    }
}

/// Adding an order keeps a level well formed.
pub proof fn lemma_level_push_wf(lv: LevelView, o: Order)
    requires
        lv.wf(),
    ensures
        lv.push(o).wf(),
{
    lemma_count_cancelled_push(lv.orders, o);
}

/// The orders resting at one price, in time priority, with lazily removed cancellations.
pub struct Level {
    orders: VecDeque<Order>,
    tombstone_count: usize,
}

impl View for Level {
    type V = LevelView;

    closed spec fn view(&self) -> LevelView {
        LevelView { orders: self.orders@, tombstones: self.tombstone_count as nat }
    }
}

impl Level {
    /// The level's invariant.
    pub open spec fn wf(&self) -> bool {
        self@.wf()
    }

    /// An empty level.
    pub fn new() -> (r: Self)
        ensures
            r@ == (LevelView { orders: Seq::empty(), tombstones: 0 }),
            r.wf(),
    {
        Self { orders: VecDeque::new(), tombstone_count: 0 }
    }

    /// The position of the first order with ID `order_id`.
    fn find_order(&self, order_id: OrderId) -> (r: Result<usize, CancelError>)
        ensures
            match r {
                Ok(i) => is_first_with_id(self@.orders, order_id.0, i as int),
                Err(e) => e == CancelError::NotFound && !holds_id(self@.orders, order_id.0),
            },
    {
        let len = self.orders.len();
        let mut i: usize = 0;
        while i < len
            invariant
                len == self@.orders.len(),
                i <= len,
                forall|j: int| 0 <= j < i ==> #[trigger] self@.orders[j].id.0 != order_id.0,
            decreases len - i,
        {
            if self.orders[i].id.0 == order_id.0 {
                return Ok(i);
            }
            i += 1;
        }
        Err(CancelError::NotFound)
    }

    /// Replaces the status of the order at `order_idx`.
    fn update_order_status(&mut self, order_idx: usize, status: OrderStatus)
        requires
            order_idx < old(self)@.orders.len(),
        ensures
            final(self)@.orders == old(self)@.orders.update(
                order_idx as int,
                with_status(old(self)@.orders[order_idx as int], status),
            ),
            final(self)@.tombstones == old(self)@.tombstones,
    {
        let removed = self.orders.remove(order_idx);
        let mut order = removed.unwrap();
        order.status = status;
        self.orders.insert(order_idx, order);
        proof {
            assert(self@.orders =~= old(self)@.orders.update(
                order_idx as int,
                with_status(old(self)@.orders[order_idx as int], status),
            ));
        }
    }

    /// Drops the cancelled orders once the tombstones reach the compaction threshold.
    fn compact_if_needed(&mut self)
        ensures
            compaction_due(old(self)@.tombstones, old(self)@.orders.len()) ==> final(self)@ == (
            LevelView { orders: old(self)@.orders.filter(is_live()), tombstones: 0 }),
            !compaction_due(old(self)@.tombstones, old(self)@.orders.len()) ==> final(self)@
                == old(self)@,
    {
        let len = self.orders.len();
        if len > 0 && (self.tombstone_count as u128) * (COMPACTION_THRESHOLD_DEN as u128) >= (
        len as u128) * (COMPACTION_THRESHOLD_NUM as u128) {
            let ghost original = self@.orders;
            let mut kept: VecDeque<Order> = VecDeque::new();
            let mut i: usize = 0;
            while i < len
                invariant
                    len == original.len(),
                    i <= len,
                    self@.orders == original.subrange(i as int, len as int),
                    kept@ == original.take(i as int).filter(is_live()),
                decreases len - i,
            {
                let next = self.orders.pop_front();
                let order = next.unwrap();
                proof {
                    assert(original.take(i + 1).drop_last() =~= original.take(i as int));
                    assert(original.take(i + 1).last() == original[i as int]);
                    reveal_with_fuel(Seq::filter, 1);
                    assert(self@.orders =~= original.subrange(i + 1, len as int));
                }
                if !matches!(order.status, OrderStatus::Cancelled) {
                    kept.push_back(order);
                }
                i += 1;
            }
            proof {
                assert(original.take(len as int) =~= original);
            }
            self.orders = kept;
            self.tombstone_count = 0;
        }
    }

    /// Cancels the first order with ID `order_id`. It stays in the queue as a tombstone until
    /// the tombstones reach the compaction threshold, which drops them all.
    pub fn cancel_order(&mut self, order_id: OrderId) -> (r: Result<(), CancelError>)
        requires
            old(self).wf(),
        ensures
            final(self).wf(),
            r == old(self)@.cancel_outcome(order_id.0),
            final(self)@ == old(self)@.after_cancel(order_id.0),
    {
        let order_idx = match self.find_order(order_id) {
            Ok(i) => i,
            Err(e) => {
                return Err(e);
            },
        };
        proof {
            lemma_first_with_id(self@.orders, order_id.0);
            lemma_first_with_id_unique(
                self@.orders,
                order_id.0,
                order_idx as int,
                first_with_id(self@.orders, order_id.0),
            );
        }
        if matches!(self.orders[order_idx].status, OrderStatus::Cancelled) {
            return Err(CancelError::AlreadyCancelled);
        }
        self.cancel_at(order_idx);
        Ok(())
    }

    /// Marks the live order at `order_idx` cancelled, counts the tombstone, and compacts once
    /// the tombstones reach the threshold.
    fn cancel_at(&mut self, order_idx: usize)
        requires
            old(self).wf(),
            order_idx < old(self)@.orders.len(),
            !is_cancelled(old(self)@.orders[order_idx as int]),
        ensures
            final(self).wf(),
            final(self)@ == old(self)@.cancelled_at(order_idx as int),
    {
        self.update_order_status(order_idx, OrderStatus::Cancelled);
        let len = self.orders.len();
        proof {
            assert(old(self)@.tombstones < old(self)@.orders.len());
            assert(self.tombstone_count < len);
        }
        self.tombstone_count += 1;
        self.compact_if_needed();
        proof {
            lemma_level_cancelled_at_wf(old(self)@, order_idx as int);
        }
    }

    /// The position of the first live order with ID `order_id`.
    fn find_live_order(&self, order_id: OrderId) -> (r: Result<usize, CancelError>)
        ensures
            match r {
                Ok(i) => is_first_live_with_id(self@.orders, order_id.0, i as int),
                Err(e) => e == CancelError::NotFound && !live_with_id(self@.orders, order_id.0),
            },
    {
        let len = self.orders.len();
        let mut i: usize = 0;
        while i < len
            invariant
                len == self@.orders.len(),
                i <= len,
                forall|j: int|
                    0 <= j < i ==> #[trigger] self@.orders[j].id.0 != order_id.0 || is_cancelled(
                        self@.orders[j],
                    ),
            decreases len - i,
        {
            if self.orders[i].id.0 == order_id.0 && !matches!(
                self.orders[i].status,
                OrderStatus::Cancelled
            ) {
                return Ok(i);
            }
            i += 1;
        }
        Err(CancelError::NotFound)
    }

    /// Cancels the first live order with ID `order_id`, passing over tombstones: `NotFound`
    /// where the level holds no live order with that ID.
    pub fn cancel_live_order(&mut self, order_id: OrderId) -> (r: Result<(), CancelError>)
        requires
            old(self).wf(),
        ensures
            final(self).wf(),
            r == old(self)@.live_cancel_outcome(order_id.0),
            final(self)@ == old(self)@.after_live_cancel(order_id.0),
    {
        let order_idx = match self.find_live_order(order_id) {
            Ok(i) => i,
            Err(e) => {
                return Err(e);
            },
        };
        proof {
            lemma_first_live_with_id(self@.orders, order_id.0);
            lemma_first_live_with_id_unique(
                self@.orders,
                order_id.0,
                order_idx as int,
                first_live_with_id(self@.orders, order_id.0),
            );
        }
        self.cancel_at(order_idx);
        Ok(())
    }

    /// Adds `order` at the back of the queue.
    pub fn add_order(&mut self, order: Order)
        requires
            old(self).wf(),
        ensures
            final(self).wf(),
            final(self)@ == old(self)@.push(order),
    {
        proof {
            lemma_level_push_wf(self@, order);
        }
        self.orders.push_back(order);
    }

    /// The number of cancelled orders still held as tombstones.
    pub fn get_tombstone_count(&self) -> (r: usize)
        ensures
            r == self@.tombstones,
    {
        self.tombstone_count
    }

    /// Whether the level holds no order at all, tombstones included.
    pub fn is_empty(&self) -> (r: bool)
        ensures
            r == (self@.orders.len() == 0),
    {
        self.orders.len() == 0
    }
}

/// The levels of a side are in strictly increasing order of price.
pub open spec fn sorted_by_price(s: Seq<(Price, LevelView)>) -> bool {
    forall|i: int, j: int|
        0 <= i < j < s.len() ==> value_lt(#[trigger] s[i].0.0, #[trigger] s[j].0.0)
}

/// A side is sorted by price and each of its levels is well formed and holds an order.
pub open spec fn side_wf(s: Seq<(Price, LevelView)>) -> bool {
    &&& sorted_by_price(s)
    &&& forall|k: int| 0 <= k < s.len() ==> (#[trigger] s[k]).1.wf() && s[k].1.orders.len() > 0
}

/// `k` is where a level at `p` stands or would stand: the levels before it are priced below
/// `p`, the others are not.
pub open spec fn is_lower_bound(s: Seq<(Price, LevelView)>, p: DecimalValue, k: int) -> bool {
    &&& 0 <= k <= s.len()
    &&& forall|j: int| 0 <= j < k ==> value_lt(#[trigger] s[j].0.0, p)
    &&& forall|j: int| k <= j < s.len() ==> !value_lt(#[trigger] s[j].0.0, p)
}

/// Where a level at `p` stands or would stand in a sorted side.
pub open spec fn lower_bound(s: Seq<(Price, LevelView)>, p: DecimalValue) -> int {
    choose|k: int| is_lower_bound(s, p, k)
}

/// The level at `k` has price `p`.
pub open spec fn has_level_at(s: Seq<(Price, LevelView)>, p: DecimalValue, k: int) -> bool {
    0 <= k < s.len() && value_eq(s[k].0.0, p)
}

/// The side has a level at price `p`.
pub open spec fn contains_price(s: Seq<(Price, LevelView)>, p: DecimalValue) -> bool {
    exists|k: int| #[trigger] has_level_at(s, p, k)
}

/// The level at `k` has price `p` and holds a live order with ID `id`.
pub open spec fn holds_live_at(s: Seq<(Price, LevelView)>, p: DecimalValue, id: u64, k: int) -> bool {
    has_level_at(s, p, k) && live_with_id(s[k].1.orders, id)
}

/// The side has a level at price `p` that holds a live order with ID `id`.
pub open spec fn holds_live(s: Seq<(Price, LevelView)>, p: DecimalValue, id: u64) -> bool {
    exists|k: int| #[trigger] holds_live_at(s, p, id, k)
}

/// The side after `o` joins the level at its price, which is created where there is none.
pub open spec fn side_add(s: Seq<(Price, LevelView)>, o: Order) -> Seq<(Price, LevelView)> {
    let k = lower_bound(s, o.price.0);
    if has_level_at(s, o.price.0, k) {
        s.update(k, (s[k].0, s[k].1.push(o)))
    } else {
        s.insert(k, (o.price, LevelView { orders: seq![o], tombstones: 0 }))
    }
}

/// The side after the live order with ID `id` is cancelled at the level at price `p`; a level
/// left without orders goes.
pub open spec fn side_cancel(s: Seq<(Price, LevelView)>, p: DecimalValue, id: u64) -> Seq<
    (Price, LevelView),
> {
    let k = lower_bound(s, p);
    let level = s[k].1.after_live_cancel(id);
    if level.orders.len() == 0 {
        s.remove(k)
    } else {
        s.update(k, (s[k].0, level))
    }
}

/// The side after the level at price `p` goes, if it holds no order.
pub open spec fn side_remove_if_empty(s: Seq<(Price, LevelView)>, p: DecimalValue) -> Seq<
    (Price, LevelView),
> {
    let k = lower_bound(s, p);
    if has_level_at(s, p, k) && s[k].1.orders.len() == 0 {
        s.remove(k)
    } else {
        s
    }
}

/// A sorted side has a lower bound for every price.
pub proof fn lemma_lower_bound(s: Seq<(Price, LevelView)>, p: DecimalValue)
    requires
        sorted_by_price(s),
    ensures
        is_lower_bound(s, p, lower_bound(s, p)),
    decreases s.len(),
{
    if s.len() == 0 {
        assert(is_lower_bound(s, p, 0));
    } else {
        let t = s.drop_last();
        assert(sorted_by_price(t));
        lemma_lower_bound(t, p);
        let k = lower_bound(t, p);
        let n = s.len() - 1;
        if k < n {
            assert forall|j: int| k <= j < s.len() implies !value_lt(#[trigger] s[j].0.0, p) by {
                if j == n {
                    assert(!value_lt(t[k].0.0, p));
                    assert(value_lt(s[k].0.0, s[n].0.0));
                    if value_lt(s[n].0.0, p) {
                        lemma_value_lt_trans(s[k].0.0, s[n].0.0, p);
                    }
                } else {
                    assert(t[j] == s[j]);
                }
            }
            assert forall|j: int| 0 <= j < k implies value_lt(#[trigger] s[j].0.0, p) by {
                assert(t[j] == s[j]);
            }
            assert(is_lower_bound(s, p, k));
        } else if value_lt(s[n].0.0, p) {
            assert forall|j: int| 0 <= j < s.len() implies value_lt(#[trigger] s[j].0.0, p) by {
                if j < n {
                    assert(t[j] == s[j]);
                }
            }
            assert(is_lower_bound(s, p, s.len() as int));
        } else {
            assert forall|j: int| 0 <= j < n implies value_lt(#[trigger] s[j].0.0, p) by {
                assert(t[j] == s[j]);
            }
            assert(is_lower_bound(s, p, n));
        }
    }
}

/// The lower bound is unique.
pub proof fn lemma_lower_bound_unique(s: Seq<(Price, LevelView)>, p: DecimalValue, i: int, j: int)
    requires
        is_lower_bound(s, p, i),
        is_lower_bound(s, p, j),
    ensures
        i == j,
{
    if i < j {
        assert(value_lt(s[i].0.0, p));
    } else if j < i {
        assert(value_lt(s[j].0.0, p));
    }
}

/// A lower bound found by search is the one the specification names.
pub proof fn lemma_is_the_lower_bound(s: Seq<(Price, LevelView)>, p: DecimalValue, k: int)
    requires
        is_lower_bound(s, p, k),
    ensures
        lower_bound(s, p) == k,
{
    lemma_lower_bound_unique(s, p, k, lower_bound(s, p));
}

/// In a sorted side that has a level at `p`, the lower bound is that level.
pub proof fn lemma_found_level(s: Seq<(Price, LevelView)>, p: DecimalValue)
    requires
        sorted_by_price(s),
        contains_price(s, p),
    ensures
        has_level_at(s, p, lower_bound(s, p)),
{
    let k = choose|k: int| #[trigger] has_level_at(s, p, k);
    assert forall|j: int| 0 <= j < k implies value_lt(#[trigger] s[j].0.0, p) by {
        lemma_value_lt_eq(s[j].0.0, s[k].0.0, p);
    }
    assert forall|j: int| k <= j < s.len() implies !value_lt(#[trigger] s[j].0.0, p) by {
        if j > k {
            assert(value_eq(p, s[k].0.0));
            lemma_value_eq_lt(p, s[k].0.0, s[j].0.0);
        }
    }
    assert(is_lower_bound(s, p, k));
    lemma_is_the_lower_bound(s, p, k);
}

/// Two sides with the same prices have the same lower bounds.
proof fn lemma_same_prices_same_lower_bound(
    s: Seq<(Price, LevelView)>,
    t: Seq<(Price, LevelView)>,
    p: DecimalValue,
)
    requires
        s.len() == t.len(),
        forall|j: int| 0 <= j < s.len() ==> s[j].0 == t[j].0,
        sorted_by_price(s),
    ensures
        lower_bound(s, p) == lower_bound(t, p),
        sorted_by_price(t),
{
    lemma_lower_bound(s, p);
    let k = lower_bound(s, p);
    assert forall|j: int| 0 <= j < k implies value_lt(#[trigger] t[j].0.0, p) by {
        assert(s[j].0 == t[j].0);
    }
    assert forall|j: int| k <= j < t.len() implies !value_lt(#[trigger] t[j].0.0, p) by {
        assert(s[j].0 == t[j].0);
    }
    lemma_is_the_lower_bound(t, p, k);
    assert forall|i: int, j: int| 0 <= i < j < t.len() implies value_lt(
        #[trigger] t[i].0.0,
        #[trigger] t[j].0.0,
    ) by {
        assert(s[i].0 == t[i].0);
        assert(s[j].0 == t[j].0);
    }
}

/// Adding an order keeps a side well formed, puts a level at the order's price, and keeps
/// every price the side had.
pub proof fn lemma_side_add(s: Seq<(Price, LevelView)>, o: Order)
    requires
        side_wf(s),
    ensures
        side_wf(side_add(s, o)),
        contains_price(side_add(s, o), o.price.0),
        forall|p: DecimalValue| contains_price(s, p) ==> contains_price(side_add(s, o), p),
{
    let p = o.price.0;
    lemma_lower_bound(s, p);
    let k = lower_bound(s, p);
    let r = side_add(s, o);
    if has_level_at(s, p, k) {
        lemma_level_push_wf(s[k].1, o);
        assert(has_level_at(r, p, k));
        assert forall|q: DecimalValue| contains_price(s, q) implies contains_price(r, q) by {
            let j = choose|j: int| #[trigger] has_level_at(s, q, j);
            assert(has_level_at(r, q, j));
        }
        assert forall|i: int, j: int| 0 <= i < j < r.len() implies value_lt(
            #[trigger] r[i].0.0,
            #[trigger] r[j].0.0,
        ) by {
            assert(value_lt(s[i].0.0, s[j].0.0));
        }
    } else {
        let level = LevelView { orders: seq![o], tombstones: 0 };
        assert(r[k] == (o.price, level));
        assert(has_level_at(r, p, k));
        assert forall|q: DecimalValue| contains_price(s, q) implies contains_price(r, q) by {
            let j = choose|j: int| #[trigger] has_level_at(s, q, j);
            if j < k {
                assert(has_level_at(r, q, j));
            } else {
                assert(r[j + 1] == s[j]);
                assert(has_level_at(r, q, j + 1));
            }
        }
        // Levels from `k` on are priced above `p`.
        assert forall|j: int| k <= j < s.len() implies value_lt(p, #[trigger] s[j].0.0) by {
            if j == k {
                assert(!value_lt(s[k].0.0, p));
                assert(!value_eq(s[k].0.0, p));
            } else {
                assert(!value_lt(s[k].0.0, p));
                assert(!value_eq(s[k].0.0, p));
                assert(value_lt(p, s[k].0.0));
                assert(value_lt(s[k].0.0, s[j].0.0));
                lemma_value_lt_trans(p, s[k].0.0, s[j].0.0);
            }
        }
        assert forall|i: int, j: int| 0 <= i < j < r.len() implies value_lt(
            #[trigger] r[i].0.0,
            #[trigger] r[j].0.0,
        ) by {
            if j < k {
                assert(value_lt(s[i].0.0, s[j].0.0));
            } else if j == k {
                assert(value_lt(s[i].0.0, p));
            } else if i < k {
                assert(r[j] == s[j - 1]);
                assert(value_lt(s[i].0.0, s[j - 1].0.0));
            } else if i == k {
                assert(r[j] == s[j - 1]);
            } else {
                assert(r[i] == s[i - 1]);
                assert(r[j] == s[j - 1]);
                assert(value_lt(s[i - 1].0.0, s[j - 1].0.0));
            }
        }
        assert forall|j: int| 0 <= j < r.len() implies (#[trigger] r[j]).1.wf() && r[j].1.orders.len()
            > 0 by {
            if j > k {
                assert(r[j] == s[j - 1]);
            }
        }
    }
}

/// A successful cancel keeps a side well formed and keeps every price whose level still
/// holds orders.
pub proof fn lemma_side_cancel(s: Seq<(Price, LevelView)>, p: DecimalValue, id: u64)
    requires
        side_wf(s),
        contains_price(s, p),
    ensures
        side_wf(side_cancel(s, p, id)),
{
    lemma_found_level(s, p);
    let k = lower_bound(s, p);
    let level = s[k].1.after_live_cancel(id);
    lemma_level_cancel_wf(s[k].1, id);
    let r = side_cancel(s, p, id);
    if level.orders.len() == 0 {
        assert forall|i: int, j: int| 0 <= i < j < r.len() implies value_lt(
            #[trigger] r[i].0.0,
            #[trigger] r[j].0.0,
        ) by {
            if j < k {
                assert(value_lt(s[i].0.0, s[j].0.0));
            } else if i < k {
                assert(r[j] == s[j + 1]);
                assert(value_lt(s[i].0.0, s[j + 1].0.0));
            } else {
                assert(r[i] == s[i + 1]);
                assert(r[j] == s[j + 1]);
                assert(value_lt(s[i + 1].0.0, s[j + 1].0.0));
            }
        }
        assert forall|j: int| 0 <= j < r.len() implies (#[trigger] r[j]).1.wf() && r[j].1.orders.len()
            > 0 by {
            if j >= k {
                assert(r[j] == s[j + 1]);
            }
        }
    } else {
        assert forall|i: int, j: int| 0 <= i < j < r.len() implies value_lt(
            #[trigger] r[i].0.0,
            #[trigger] r[j].0.0,
        ) by {
            assert(value_lt(s[i].0.0, s[j].0.0));
        }
    }
}

/// No two live orders in `s` share an ID.
pub open spec fn live_ids_distinct(s: Seq<Order>) -> bool {
    forall|i: int, j: int|
        0 <= i < s.len() && 0 <= j < s.len() && !is_cancelled(#[trigger] s[i]) && !is_cancelled(
            #[trigger] s[j],
        ) && s[i].id.0 == s[j].id.0 ==> i == j
}

/// Each level of the side counts exactly its cancelled orders and holds no two live orders
/// with one ID.
pub open spec fn side_exact(s: Seq<(Price, LevelView)>) -> bool {
    forall|k: int|
        0 <= k < s.len() ==> (#[trigger] s[k]).1.tombstones == count_cancelled(s[k].1.orders)
            && live_ids_distinct(s[k].1.orders)
}

/// The levels of a side with only their live orders.
pub open spec fn live_levels(s: Seq<(Price, LevelView)>) -> Seq<(Price, Seq<Order>)> {
    s.map_values(|e: (Price, LevelView)| (e.0, e.1.orders.filter(is_live())))
}

/// Two levels of a sorted side at one price are the same level.
pub proof fn lemma_level_at_unique(s: Seq<(Price, LevelView)>, p: DecimalValue, k: int, j: int)
    requires
        sorted_by_price(s),
        has_level_at(s, p, k),
        has_level_at(s, p, j),
    ensures
        k == j,
{
    if k < j {
        assert(value_lt(s[k].0.0, s[j].0.0));
        lemma_value_eq_trans(s[k].0.0, p, s[j].0.0);
    } else if j < k {
        assert(value_lt(s[j].0.0, s[k].0.0));
        lemma_value_eq_trans(s[j].0.0, p, s[k].0.0);
    }
}

/// A level that counts exactly and has not reached the threshold holds a live order.
proof fn lemma_level_holds_live(lv: LevelView)
    requires
        lv.wf(),
        lv.tombstones == count_cancelled(lv.orders),
        lv.orders.len() > 0,
    ensures
        exists|i: int| 0 <= i < lv.orders.len() && !is_cancelled(#[trigger] lv.orders[i]),
{
    if forall|i: int| 0 <= i < lv.orders.len() ==> is_cancelled(#[trigger] lv.orders[i]) {
        lemma_count_all_cancelled(lv.orders);
    }
}

/// A sequence of cancelled orders counts them all.
proof fn lemma_count_all_cancelled(s: Seq<Order>)
    requires
        forall|i: int| 0 <= i < s.len() ==> is_cancelled(#[trigger] s[i]),
    ensures
        count_cancelled(s) == s.len(),
    decreases s.len(),
{
    if s.len() > 0 {
        let d = s.drop_last();
        assert forall|i: int| 0 <= i < d.len() implies is_cancelled(#[trigger] d[i]) by {
            assert(d[i] == s[i]);
        }
        lemma_count_all_cancelled(d);
    }
}

/// Dropping tombstones keeps live IDs distinct.
proof fn lemma_filter_keeps_live_ids_distinct(s: Seq<Order>)
    requires
        live_ids_distinct(s),
    ensures
        live_ids_distinct(s.filter(is_live())),
    decreases s.len(),
{
    reveal(Seq::filter);
    if s.len() > 0 {
        let d = s.drop_last();
        let n = s.len() - 1;
        assert forall|i: int, j: int|
            0 <= i < d.len() && 0 <= j < d.len() && !is_cancelled(#[trigger] d[i]) && !is_cancelled(
                #[trigger] d[j],
            ) && d[i].id.0 == d[j].id.0 implies i == j by {
            assert(d[i] == s[i] && d[j] == s[j]);
        }
        lemma_filter_keeps_live_ids_distinct(d);
        let fd = d.filter(is_live());
        if is_live()(s.last()) {
            let f = fd.push(s.last());
            assert(s.filter(is_live()) == f);
            assert forall|i: int, j: int|
                0 <= i < f.len() && 0 <= j < f.len() && !is_cancelled(#[trigger] f[i])
                    && !is_cancelled(#[trigger] f[j]) && f[i].id.0 == f[j].id.0 implies i == j by {
                if i < fd.len() && j < fd.len() {
                    assert(f[i] == fd[i] && f[j] == fd[j]);
                } else if i < fd.len() || j < fd.len() {
                    let m = if i < fd.len() {
                        i
                    } else {
                        j
                    };
                    assert(f[m] == fd[m]);
                    assert(fd.contains(fd[m]));
                    d.lemma_filter_contains_rev(is_live(), fd[m]);
                    let q = choose|q: int| 0 <= q < d.len() && d[q] == fd[m];
                    assert(s[q] == d[q]);
                    assert(s[n] == s.last());
                    assert(!is_cancelled(s[q]) && !is_cancelled(s[n]) && s[q].id.0 == s[n].id.0);
                }
            }
        }
    }
}

/// Where a live order of the side after adding `o` came from: `None` for `o` itself, which
/// rests in a level of its price; otherwise a position in the side before, with the same
/// order in a level of the same price.
proof fn lemma_side_add_origin(s: Seq<(Price, LevelView)>, o: Order, k2: int, i2: int) -> (r:
    Option<(int, int)>)
    requires
        side_wf(s),
        0 <= k2 < side_add(s, o).len(),
        0 <= i2 < side_add(s, o)[k2].1.orders.len(),
    ensures
        ({
            let t = side_add(s, o);
            match r {
                None => t[k2].1.orders[i2] == o && value_eq(o.price.0, t[k2].0.0),
                Some((k, i)) => 0 <= k < s.len() && 0 <= i < s[k].1.orders.len() && s[k].1.orders[i]
                    == t[k2].1.orders[i2] && s[k].0 == t[k2].0 && i == i2 && k == (if !has_level_at(
                    s,
                    o.price.0,
                    lower_bound(s, o.price.0),
                ) && k2 > lower_bound(s, o.price.0) {
                    k2 - 1
                } else {
                    k2
                }),
            }
        }),
{
    let p = o.price.0;
    lemma_lower_bound(s, p);
    let k = lower_bound(s, p);
    let t = side_add(s, o);
    if has_level_at(s, p, k) {
        if k2 != k {
            Some((k2, i2))
        } else if i2 < s[k].1.orders.len() {
            assert(t[k].1.orders == s[k].1.orders.push(o));
            Some((k, i2))
        } else {
            assert(t[k].1.orders == s[k].1.orders.push(o));
            None
        }
    } else {
        if k2 < k {
            Some((k2, i2))
        } else if k2 == k {
            assert(t[k].1.orders == seq![o]);
            None
        } else {
            assert(t[k2] == s[k2 - 1]);
            Some((k2 - 1, i2))
        }
    }
}

/// Where a live order of the side after a successful cancel came from: a position in the
/// side before, holding the same live order in a level of the same price, other than the
/// cancelled order.
proof fn lemma_side_cancel_origin(
    s: Seq<(Price, LevelView)>,
    p: DecimalValue,
    id: u64,
    k2: int,
    i2: int,
) -> (r: (int, int))
    requires
        side_wf(s),
        contains_price(s, p),
        live_with_id(s[lower_bound(s, p)].1.orders, id),
        0 <= k2 < side_cancel(s, p, id).len(),
        0 <= i2 < side_cancel(s, p, id)[k2].1.orders.len(),
        !is_cancelled(side_cancel(s, p, id)[k2].1.orders[i2]),
    ensures
        ({
            let t = side_cancel(s, p, id);
            let k0 = lower_bound(s, p);
            let (k, i) = r;
            &&& 0 <= k < s.len()
            &&& 0 <= i < s[k].1.orders.len()
            &&& s[k].1.orders[i] == t[k2].1.orders[i2]
            &&& s[k].0 == t[k2].0
            &&& !(k == k0 && i == first_live_with_id(s[k0].1.orders, id))
        }),
{
    lemma_found_level(s, p);
    let k0 = lower_bound(s, p);
    let lv = s[k0].1;
    lemma_first_live_with_id(lv.orders, id);
    let i0 = first_live_with_id(lv.orders, id);
    let after = lv.after_live_cancel(id);
    let marked = lv.orders.update(i0, with_status(lv.orders[i0], OrderStatus::Cancelled));
    let t = side_cancel(s, p, id);
    if after.orders.len() == 0 {
        if k2 < k0 {
            (k2, i2)
        } else {
            assert(t[k2] == s[k2 + 1]);
            (k2 + 1, i2)
        }
    } else if k2 != k0 {
        (k2, i2)
    } else {
        assert(t[k0].1 == after);
        if compaction_due(lv.tombstones + 1, marked.len()) {
            broadcast use vstd::seq_lib::group_filter_ensures;

            let e = after.orders[i2];
            assert(after.orders.contains(e));
            marked.lemma_filter_contains_rev(is_live(), e);
            let m = choose|m: int| 0 <= m < marked.len() && marked[m] == e;
            assert(m != i0);
            (k0, m)
        } else {
            assert(i2 != i0);
            (k0, i2)
        }
    }
}

/// The contents of a book: both sides, bids and asks each in increasing order of price, and
/// the index from order ID to the side and price the order was added at.
pub struct BookView {
    pub bids: Seq<(Price, LevelView)>,
    pub asks: Seq<(Price, LevelView)>,
    pub index: Map<u64, (Side, Price)>,
}

impl BookView {
    /// The levels of one side.
    pub open spec fn side(self, side: Side) -> Seq<(Price, LevelView)> {
        match side {
            Side::Bid => self.bids,
            Side::Ask => self.asks,
        }
    }

    /// The book with the levels of one side replaced.
    pub open spec fn with_side(self, side: Side, levels: Seq<(Price, LevelView)>) -> BookView {
        match side {
            Side::Bid => BookView { bids: levels, ..self },
            Side::Ask => BookView { asks: levels, ..self },
        }
    }

    /// Both sides are sorted by price, with well-formed levels that each hold an order.
    pub open spec fn wf(self) -> bool {
        side_wf(self.bids) && side_wf(self.asks)
    }

    /// Where `id` is indexed, the book has a level at the price the index gives for it.
    pub open spec fn resolves(self, id: u64) -> bool {
        self.index.contains_key(id) ==> contains_price(
            self.side(self.index[id].0),
            self.index[id].1.0,
        )
    }

    /// Every indexed ID leads to a level, at the price indexed for it, that holds a live
    /// order with that ID.
    pub open spec fn index_live(self) -> bool {
        forall|id: u64| #[trigger]
            self.index.contains_key(id) ==> holds_live(
                self.side(self.index[id].0),
                self.index[id].1.0,
                id,
            )
    }

    /// The live order `o`, in a level priced `level_price` on `side`, is indexed at that side
    /// and its own price, which equals the level's in value.
    pub open spec fn indexes(self, side: Side, level_price: Price, o: Order) -> bool {
        &&& o.side == side
        &&& value_eq(o.price.0, level_price.0)
        &&& self.index.contains_key(o.id.0)
        &&& self.index[o.id.0] == (side, o.price)
    }

    /// Every live order on `side` is indexed where it rests.
    pub open spec fn side_indexed(self, side: Side) -> bool {
        forall|k: int, i: int|
            0 <= k < self.side(side).len() && 0 <= i < self.side(side)[k].1.orders.len()
                && !is_cancelled(#[trigger] self.side(side)[k].1.orders[i]) ==> self.indexes(
                side,
                self.side(side)[k].0,
                self.side(side)[k].1.orders[i],
            )
    }

    /// The whole invariant of a book built from live orders: it is well formed; each level
    /// counts exactly its cancelled orders and holds no two live orders with one ID; every
    /// live order is indexed where it rests; every indexed ID leads to a live order at the
    /// indexed price (so every indexed ID resolves to a level).
    pub open spec fn consistent(self) -> bool {
        &&& self.wf()
        &&& side_exact(self.bids)
        &&& side_exact(self.asks)
        &&& self.side_indexed(Side::Bid)
        &&& self.side_indexed(Side::Ask)
        &&& self.index_live()
        &&& forall|id: u64| #[trigger] self.resolves(id)
    }

    /// The book after adding `o`.
    pub open spec fn add(self, o: Order) -> BookView {
        let b = self.with_side(o.side, side_add(self.side(o.side), o));
        BookView { index: self.index.insert(o.id.0, (o.side, o.price)), ..b }
    }

    /// What cancelling the order with ID `id` answers.
    pub open spec fn cancel_outcome(self, id: u64) -> Result<(), CancelError> {
        if !self.index.contains_key(id) {
            Err(CancelError::NotFound)
        } else {
            let s = self.side(self.index[id].0);
            s[lower_bound(s, self.index[id].1.0)].1.live_cancel_outcome(id)
        }
    }

    /// The book after cancelling the order with ID `id`: the order is cancelled at its level, a
    /// level left without orders goes, and the ID leaves the index. A refused cancel changes
    /// nothing.
    pub open spec fn after_cancel(self, id: u64) -> BookView {
        if self.cancel_outcome(id) is Ok {
            let side = self.index[id].0;
            let b = self.with_side(side, side_cancel(self.side(side), self.index[id].1.0, id));
            BookView { index: self.index.remove(id), ..b }
        } else {
            self
        }
    }

    /// Subtracting the best bid from the best ask does not overflow, or a side is empty.
    pub open spec fn spread_defined(self) -> bool {
        self.bids.len() > 0 && self.asks.len() > 0 ==> ({
            let ask = self.asks[0].0.0;
            let bid = self.bids.last().0.0;
            decimal_difference(
                ask.mantissa_spec(),
                ask.scale_spec() as int,
                bid.mantissa_spec(),
                bid.scale_spec() as int,
            ) is Some
        })
    }

    /// `r` is the spread: `None` exactly when a side is empty, and otherwise the result of
    /// subtracting the best bid from the best ask, exact where both have one scale.
    pub open spec fn is_spread(self, r: Option<DecimalValue>) -> bool {
        &&& (r is Some <==> (self.bids.len() > 0 && self.asks.len() > 0))
        &&& r matches Some(d) ==> ({
            let ask = self.asks[0].0.0;
            let bid = self.bids.last().0.0;
            &&& decimal_difference(
                ask.mantissa_spec(),
                ask.scale_spec() as int,
                bid.mantissa_spec(),
                bid.scale_spec() as int,
            ) == Some((d.mantissa_spec(), d.scale_spec() as int))
            &&& ask.scale_spec() == bid.scale_spec() && in_decimal_range(
                ask.mantissa_spec() - bid.mantissa_spec(),
                ask.scale_spec() as int,
            ) ==> d.mantissa_spec() == ask.mantissa_spec() - bid.mantissa_spec()
                && d.scale_spec() == ask.scale_spec()
        })
    }

    /// The highest bid price.
    pub open spec fn best_bid(self) -> Option<Price> {
        if self.bids.len() > 0 {
            Some(self.bids.last().0)
        } else {
            None
        }
    }

    /// The lowest ask price.
    pub open spec fn best_ask(self) -> Option<Price> {
        if self.asks.len() > 0 {
            Some(self.asks[0].0)
        } else {
            None
        }
    }
}

/// Adding an order with a fresh ID keeps a book well formed and resolves every indexed ID.
pub proof fn lemma_book_add(b: BookView, o: Order)
    requires
        b.wf(),
    ensures
        b.add(o).wf(),
        b.add(o).resolves(o.id.0),
        forall|id: u64| b.resolves(id) ==> #[trigger] b.add(o).resolves(id),
{
    lemma_side_add(b.side(o.side), o);
    let r = b.add(o);
    assert forall|id: u64| b.resolves(id) implies #[trigger] r.resolves(id) by {
        if id != o.id.0 && b.index.contains_key(id) {
            let sd = b.index[id].0;
            assert(r.index[id] == b.index[id]);
            if sd != o.side {
                assert(r.side(sd) == b.side(sd));
            }
        }
    }
}

/// Cancelling keeps a book well formed.
pub proof fn lemma_book_cancel(b: BookView, id: u64)
    requires
        b.wf(),
        b.resolves(id),
    ensures
        b.after_cancel(id).wf(),
{
    if b.cancel_outcome(id) is Ok {
        lemma_side_cancel(b.side(b.index[id].0), b.index[id].1.0, id);
    }
}

/// The ordering key of a price as the map key of its level: its integer part and its fraction
/// at the finest scale (see `ordering_key`).
pub open spec fn level_key(p: Price) -> (i128, u128) {
    (key_floor(p.0) as i128, key_frac(p.0) as u128)
}

/// The machine key `k` is the ordering key of `p`, without truncation.
pub open spec fn is_key_of(k: (i128, u128), p: Price) -> bool {
    &&& k.0 as int == key_floor(p.0)
    &&& k.1 as int == key_frac(p.0)
    &&& p.0.scale_spec() <= MAX_SCALE
}

/// Lexicographic order of map keys, as `Ord` orders pairs.
pub open spec fn pair_lt(a: (i128, u128), b: (i128, u128)) -> bool {
    a.0 < b.0 || (a.0 == b.0 && a.1 < b.1)
}

/// Calls `BTreeMap::last_key_value` and returns the key.
/// The contract claims that the key is the greatest of the map (pairs ordered
/// lexicographically), and that there is none only in an empty map.
#[verifier::external_body]
fn last_key<V>(levels: &BTreeMap<(i128, u128), V>) -> (r: Option<(i128, u128)>)
    ensures
        r is None ==> forall|k: (i128, u128)| !levels@.contains_key(k),
        r matches Some(k) ==> levels@.contains_key(k) && forall|k2: (i128, u128)|
            levels@.contains_key(k2) ==> !pair_lt(k, k2),
{
    match levels.last_key_value() {
        Some((k, _)) => Some(*k),
        None => None,
    }
}

/// Calls `BTreeMap::first_key_value` and returns the key.
/// The contract claims that the key is the least of the map (pairs ordered lexicographically),
/// and that there is none only in an empty map.
#[verifier::external_body]
fn first_key<V>(levels: &BTreeMap<(i128, u128), V>) -> (r: Option<(i128, u128)>)
    ensures
        r is None ==> forall|k: (i128, u128)| !levels@.contains_key(k),
        r matches Some(k) ==> levels@.contains_key(k) && forall|k2: (i128, u128)|
            levels@.contains_key(k2) ==> !pair_lt(k2, k),
{
    match levels.first_key_value() {
        Some((k, _)) => Some(*k),
        None => None,
    }
}

/// The map `m` holds exactly the levels of `s`, each under the key of its price.
pub open spec fn map_holds_levels(
    m: Map<(i128, u128), (Price, Level)>,
    s: Seq<(Price, LevelView)>,
) -> bool {
    &&& sorted_by_price(s)
    &&& forall|j: int|
        0 <= j < s.len() ==> {
            &&& is_key_of(level_key(#[trigger] s[j].0), s[j].0)
            &&& m.contains_key(level_key(s[j].0))
            &&& m[level_key(s[j].0)].0 == s[j].0
            &&& m[level_key(s[j].0)].1@ == s[j].1
        }
    &&& forall|k: (i128, u128)| #[trigger]
        m.contains_key(k) ==> exists|j: int| 0 <= j < s.len() && level_key(#[trigger] s[j].0) == k
}

/// Two prices whose keys are their ordering keys compare by value as the keys do.
proof fn lemma_keys_order(a: Price, b: Price)
    requires
        is_key_of(level_key(a), a),
        is_key_of(level_key(b), b),
    ensures
        value_lt(a.0, b.0) <==> pair_lt(level_key(a), level_key(b)),
        value_eq(a.0, b.0) <==> level_key(a) == level_key(b),
{
    lemma_ordering_key(a.0, b.0);
}

/// In a map holding the levels of `s`, distinct levels have distinct keys, and the level at
/// `j` is the one of any key equal to its own.
proof fn lemma_level_keys_distinct(m: Map<(i128, u128), (Price, Level)>, s: Seq<(Price, LevelView)>, i: int, j: int)
    requires
        map_holds_levels(m, s),
        0 <= i < s.len(),
        0 <= j < s.len(),
        level_key(s[i].0) == level_key(s[j].0),
    ensures
        i == j,
{
    lemma_keys_order(s[i].0, s[j].0);
    if i < j {
        assert(value_lt(s[i].0.0, s[j].0.0));
    } else if j < i {
        assert(value_lt(s[j].0.0, s[i].0.0));
        lemma_keys_order(s[j].0, s[i].0);
    }
}

/// One side of the book: its levels in a `BTreeMap` keyed by the ordering key of their price,
/// so that the map's key order is the order of prices; the levels in that order are kept as
/// ghost state.
struct SideBook {
    levels: BTreeMap<(i128, u128), (Price, Level)>,
    in_order: Ghost<Seq<(Price, LevelView)>>,
}

impl View for SideBook {
    type V = Seq<(Price, LevelView)>;

    closed spec fn view(&self) -> Seq<(Price, LevelView)> {
        self.in_order@
    }
}

impl SideBook {
    /// The map holds exactly the levels, in key order.
    closed spec fn matches(&self) -> bool {
        map_holds_levels(self.levels@, self@)
    }

    /// A side without levels.
    fn new() -> (r: Self)
        ensures
            r.matches(),
            r@ == Seq::<(Price, LevelView)>::empty(),
    {
        let r = SideBook { levels: BTreeMap::new(), in_order: Ghost(Seq::empty()) };
        r
    }

    /// Where `s` has a level at `price`, it is the one under `key`; where it has none, `key` is
    /// not in the map.
    proof fn lemma_key_lookup(&self, price: Price, key: (i128, u128))
        requires
            self.matches(),
            key == level_key(price),
            is_key_of(key, price),
        ensures
            self.levels@.contains_key(key) <==> has_level_at(
                self@,
                price.0,
                lower_bound(self@, price.0),
            ),
            self.levels@.contains_key(key) ==> level_key(self@[lower_bound(self@, price.0)].0)
                == key,
    {
        let s = self@;
        lemma_lower_bound(s, price.0);
        let lb = lower_bound(s, price.0);
        if self.levels@.contains_key(key) {
            let j = choose|j: int| 0 <= j < s.len() && level_key(#[trigger] s[j].0) == key;
            lemma_keys_order(s[j].0, price);
            assert(has_level_at(s, price.0, j));
            lemma_found_level(s, price.0);
            lemma_level_at_unique(s, price.0, j, lb);
        }
        if has_level_at(s, price.0, lb) {
            lemma_keys_order(s[lb].0, price);
        }
    }

    /// Adds `order` to the level at its price, creating the level where there is none.
    fn add(&mut self, order: Order)
        requires
            old(self).matches(),
            side_wf(old(self)@),
        ensures
            final(self).matches(),
            final(self)@ == side_add(old(self)@, order),
    {
        broadcast use vstd::std_specs::btree::group_btree_axioms;
        broadcast use vstd::laws_cmp::group_laws_cmp;

        let ghost s = self@;
        let price = order.price;
        let key = price.0.key();
        proof {
            self.lemma_key_lookup(price, key);
            lemma_side_add(s, order);
            lemma_lower_bound(s, price.0);
        }
        let ghost lb = lower_bound(s, price.0);
        let existing = self.levels.remove(&key);
        match existing {
            Some(entry) => {
                let (stored, mut level) = entry;
                level.add_order(order);
                self.levels.insert(key, (stored, level));
            },
            None => {
                let mut level = Level::new();
                level.add_order(order);
                self.levels.insert(key, (price, level));
            },
        }
        self.in_order = Ghost(side_add(s, order));
        proof {
            let t = side_add(s, order);
            let m = self.levels@;
            if has_level_at(s, price.0, lb) {
                assert(t == s.update(lb, (s[lb].0, s[lb].1.push(order))));
                assert forall|j: int| 0 <= j < t.len() implies {
                    &&& is_key_of(level_key(#[trigger] t[j].0), t[j].0)
                    &&& m.contains_key(level_key(t[j].0))
                    &&& m[level_key(t[j].0)].0 == t[j].0
                    &&& m[level_key(t[j].0)].1@ == t[j].1
                } by {
                    if j != lb {
                        if level_key(s[j].0) == key {
                            lemma_level_keys_distinct(old(self).levels@, s, j, lb);
                        }
                    }
                }
                assert forall|k: (i128, u128)| #[trigger] m.contains_key(k) implies exists|j: int|
                    0 <= j < t.len() && level_key(#[trigger] t[j].0) == k by {
                    if k != key {
                        assert(old(self).levels@.contains_key(k));
                        let j = choose|j: int| 0 <= j < s.len() && level_key(#[trigger] s[j].0) == k;
                        assert(t[j].0 == s[j].0);
                    } else {
                        assert(t[lb].0 == s[lb].0);
                    }
                }
            } else {
                let level = LevelView { orders: seq![order], tombstones: 0 };
                assert(t == s.insert(lb, (price, level)));
                assert forall|j: int| 0 <= j < t.len() implies {
                    &&& is_key_of(level_key(#[trigger] t[j].0), t[j].0)
                    &&& m.contains_key(level_key(t[j].0))
                    &&& m[level_key(t[j].0)].0 == t[j].0
                    &&& m[level_key(t[j].0)].1@ == t[j].1
                } by {
                    if j < lb {
                        assert(t[j] == s[j]);
                        if level_key(s[j].0) == key {
                            assert(old(self).levels@.contains_key(key));
                        }
                    } else if j > lb {
                        assert(t[j] == s[j - 1]);
                        if level_key(s[j - 1].0) == key {
                            assert(old(self).levels@.contains_key(key));
                        }
                    } else {
                        assert(m[key].1@.orders =~= seq![order]);
                    }
                }
                assert forall|k: (i128, u128)| #[trigger] m.contains_key(k) implies exists|j: int|
                    0 <= j < t.len() && level_key(#[trigger] t[j].0) == k by {
                    if k != key {
                        assert(old(self).levels@.contains_key(k));
                        let j = choose|j: int| 0 <= j < s.len() && level_key(#[trigger] s[j].0) == k;
                        if j < lb {
                            assert(t[j] == s[j]);
                        } else {
                            assert(t[j + 1] == s[j]);
                        }
                    } else {
                        assert(t[lb].0 == price);
                    }
                }
            }
        }
    }

    /// Cancels the live order with ID `order_id` at the level at `price`.
    fn cancel(&mut self, price: Price, order_id: OrderId) -> (r: Result<(), CancelError>)
        requires
            old(self).matches(),
            side_wf(old(self)@),
            contains_price(old(self)@, price.0),
        ensures
            final(self).matches(),
            ({
                let s = old(self)@;
                let k = lower_bound(s, price.0);
                &&& has_level_at(s, price.0, k)
                &&& r == s[k].1.live_cancel_outcome(order_id.0)
                &&& final(self)@ == s.update(k, (s[k].0, s[k].1.after_live_cancel(order_id.0)))
            }),
    {
        broadcast use vstd::std_specs::btree::group_btree_axioms;
        broadcast use vstd::laws_cmp::group_laws_cmp;

        let ghost s = self@;
        let key = price.0.key();
        proof {
            lemma_found_level(s, price.0);
            self.lemma_key_lookup(price, key);
        }
        let ghost lb = lower_bound(s, price.0);
        let existing = self.levels.remove(&key);
        let (stored, mut level) = existing.unwrap();
        proof {
            assert(level@ == s[lb].1);
        }
        let r = level.cancel_live_order(order_id);
        self.levels.insert(key, (stored, level));
        let ghost t = s.update(lb, (s[lb].0, s[lb].1.after_live_cancel(order_id.0)));
        self.in_order = Ghost(t);
        proof {
            let m = self.levels@;
            lemma_same_prices_same_lower_bound(s, t, price.0);
            assert forall|j: int| 0 <= j < t.len() implies {
                &&& is_key_of(level_key(#[trigger] t[j].0), t[j].0)
                &&& m.contains_key(level_key(t[j].0))
                &&& m[level_key(t[j].0)].0 == t[j].0
                &&& m[level_key(t[j].0)].1@ == t[j].1
            } by {
                if j != lb && level_key(s[j].0) == key {
                    lemma_level_keys_distinct(old(self).levels@, s, j, lb);
                }
            }
            assert forall|k: (i128, u128)| #[trigger] m.contains_key(k) implies exists|j: int|
                0 <= j < t.len() && level_key(#[trigger] t[j].0) == k by {
                if k != key {
                    assert(old(self).levels@.contains_key(k));
                    let j = choose|j: int| 0 <= j < s.len() && level_key(#[trigger] s[j].0) == k;
                    assert(t[j].0 == s[j].0);
                } else {
                    assert(t[lb].0 == s[lb].0);
                }
            }
        }
        r
    }

    /// Drops the level at `price` if it holds no order.
    fn remove_if_empty(&mut self, price: Price)
        requires
            old(self).matches(),
        ensures
            final(self).matches(),
            final(self)@ == side_remove_if_empty(old(self)@, price.0),
    {
        broadcast use vstd::std_specs::btree::group_btree_axioms;
        broadcast use vstd::laws_cmp::group_laws_cmp;

        let ghost s = self@;
        let key = price.0.key();
        proof {
            self.lemma_key_lookup(price, key);
            lemma_lower_bound(s, price.0);
        }
        let ghost lb = lower_bound(s, price.0);
        let empty = match self.levels.get(&key) {
            Some(entry) => entry.1.is_empty(),
            None => false,
        };
        if empty {
            let _removed = self.levels.remove(&key);
            let ghost t = s.remove(lb);
            self.in_order = Ghost(t);
            proof {
                let m = self.levels@;
                assert(sorted_by_price(t)) by {
                    assert forall|i: int, j: int| 0 <= i < j < t.len() implies value_lt(
                        #[trigger] t[i].0.0,
                        #[trigger] t[j].0.0,
                    ) by {
                        if j < lb {
                        } else if i < lb {
                            assert(t[j] == s[j + 1]);
                        } else {
                            assert(t[i] == s[i + 1] && t[j] == s[j + 1]);
                        }
                    }
                }
                assert forall|j: int| 0 <= j < t.len() implies {
                    &&& is_key_of(level_key(#[trigger] t[j].0), t[j].0)
                    &&& m.contains_key(level_key(t[j].0))
                    &&& m[level_key(t[j].0)].0 == t[j].0
                    &&& m[level_key(t[j].0)].1@ == t[j].1
                } by {
                    let j0 = if j < lb {
                        j
                    } else {
                        j + 1
                    };
                    assert(t[j] == s[j0]);
                    if level_key(s[j0].0) == key {
                        lemma_level_keys_distinct(old(self).levels@, s, j0, lb);
                    }
                }
                assert forall|k: (i128, u128)| #[trigger] m.contains_key(k) implies exists|j: int|
                    0 <= j < t.len() && level_key(#[trigger] t[j].0) == k by {
                    assert(old(self).levels@.contains_key(k));
                    let j = choose|j: int| 0 <= j < s.len() && level_key(#[trigger] s[j].0) == k;
                    assert(j != lb);
                    if j < lb {
                        assert(t[j] == s[j]);
                    } else {
                        assert(t[j - 1] == s[j]);
                    }
                }
            }
        } else {
            proof {
                if has_level_at(s, price.0, lb) {
                    assert(self.levels@[key].1@ == s[lb].1);
                }
            }
        }
    }

    /// The price of the highest level; `None` without levels.
    fn last_price(&self) -> (r: Option<Price>)
        requires
            self.matches(),
        ensures
            r == (if self@.len() > 0 {
                Some(self@.last().0)
            } else {
                None::<Price>
            }),
    {
        broadcast use vstd::std_specs::btree::group_btree_axioms;
        broadcast use vstd::laws_cmp::group_laws_cmp;

        let ghost s = self@;
        match last_key(&self.levels) {
            None => {
                proof {
                    if s.len() > 0 {
                        assert(self.levels@.contains_key(level_key(s[0].0)));
                    }
                }
                None
            },
            Some(k) => {
                let ghost j = choose|j: int| 0 <= j < s.len() && level_key(#[trigger] s[j].0) == k;
                proof {
                    let n = s.len() - 1;
                    if j < n {
                        assert(value_lt(s[j].0.0, s[n].0.0));
                        lemma_keys_order(s[j].0, s[n].0);
                        assert(self.levels@.contains_key(level_key(s[n].0)));
                    }
                }
                let entry = self.levels.get(&k);
                Some(entry.unwrap().0)
            },
        }
    }

    /// The price of the lowest level; `None` without levels.
    fn first_price(&self) -> (r: Option<Price>)
        requires
            self.matches(),
        ensures
            r == (if self@.len() > 0 {
                Some(self@[0].0)
            } else {
                None::<Price>
            }),
    {
        broadcast use vstd::std_specs::btree::group_btree_axioms;
        broadcast use vstd::laws_cmp::group_laws_cmp;

        let ghost s = self@;
        match first_key(&self.levels) {
            None => {
                proof {
                    if s.len() > 0 {
                        assert(self.levels@.contains_key(level_key(s[0].0)));
                    }
                }
                None
            },
            Some(k) => {
                let ghost j = choose|j: int| 0 <= j < s.len() && level_key(#[trigger] s[j].0) == k;
                proof {
                    if j > 0 {
                        assert(value_lt(s[0].0.0, s[j].0.0));
                        lemma_keys_order(s[0].0, s[j].0);
                        assert(self.levels@.contains_key(level_key(s[0].0)));
                    }
                }
                let entry = self.levels.get(&k);
                Some(entry.unwrap().0)
            },
        }
    }
}

/// A limit order book: bid and ask levels kept in price order, each level a time-ordered
/// queue, and an index from order ID to where the order rests.
pub struct OrderBook {
    bids: SideBook,
    asks: SideBook,
    order_index: HashMap<u64, (Side, Price)>,
}

impl View for OrderBook {
    type V = BookView;

    closed spec fn view(&self) -> BookView {
        BookView { bids: self.bids@, asks: self.asks@, index: self.order_index@ }
    }
}

impl OrderBook {
    /// Each side's map holds exactly its levels, under the keys of their prices.
    pub closed spec fn sides_match(&self) -> bool {
        self.bids.matches() && self.asks.matches()
    }

    /// The book's invariant.
    pub open spec fn wf(&self) -> bool {
        self@.wf() && self.sides_match()
    }

    /// An empty book.
    pub fn new() -> (r: Self)
        ensures
            r.wf(),
            r@.bids.len() == 0,
            r@.asks.len() == 0,
            r@.index == Map::<u64, (Side, Price)>::empty(),
            r@.consistent(),
            r@.ids_distinct(),
    {
        let r = Self { bids: SideBook::new(), asks: SideBook::new(), order_index: HashMap::new() };
        r
    }

    /// Adds `order` at the back of the level at its price, on its side.
    /// IDs are unique: the caller never adds an ID that the book indexes.
    /// A consistent book stays consistent when the order is live.
    pub fn add_order(&mut self, order: Order)
        requires
            old(self).wf(),
            !old(self)@.index.contains_key(order.id.0),
        ensures
            final(self).wf(),
            final(self)@ == old(self)@.add(order),
            old(self)@.consistent() && !is_cancelled(order) ==> final(self)@.consistent(),
            old(self)@.ids_distinct() && !old(self)@.holds(order.id.0) ==> final(self)@.ids_distinct(),
    {
        let id = order.id.0;
        let side = order.side;
        let price = order.price;
        proof {
            lemma_book_add(self@, order);
            if self@.consistent() && !is_cancelled(order) {
                law_add_keeps_consistent(self@, order);
            }
            if self@.ids_distinct() && !self@.holds(order.id.0) {
                law_add_keeps_ids_distinct(self@, order);
            }
        }
        match side {
            Side::Ask => self.asks.add(order),
            Side::Bid => self.bids.add(order),
        }
        let _previous = self.order_index.insert(id, (side, price));
        proof {
            assert(self@ == old(self)@.add(order));
        }
    }

    /// Drops the level at `price` on `side` if it holds no order.
    fn remove_level_if_empty(&mut self, side: Side, price: Price)
        requires
            old(self).sides_match(),
        ensures
            final(self).sides_match(),
            final(self)@ == old(self)@.with_side(
                side,
                side_remove_if_empty(old(self)@.side(side), price.0),
            ),
    {
        match side {
            Side::Ask => self.asks.remove_if_empty(price),
            Side::Bid => self.bids.remove_if_empty(price),
        }
    }

    /// Cancels the live order with ID `order_id`: the order is cancelled at its level (passing
    /// over tombstones of earlier orders with that ID), a level left without orders goes, and
    /// the ID leaves the index. The book never answers `AlreadyCancelled`.
    pub fn cancel_order(&mut self, order_id: OrderId) -> (r: Result<(), CancelError>)
        requires
            old(self).wf(),
            old(self)@.resolves(order_id.0),
        ensures
            final(self).wf(),
            r != Err::<(), CancelError>(CancelError::AlreadyCancelled),
            r == old(self)@.cancel_outcome(order_id.0),
            final(self)@ == old(self)@.after_cancel(order_id.0),
            old(self)@.consistent() ==> final(self)@.consistent(),
            old(self)@.ids_distinct() ==> final(self)@.ids_distinct(),
    {
        let (side, price) = match self.order_index.get(&order_id.0) {
            Some(entry) => *entry,
            None => {
                return Err(CancelError::NotFound);
            },
        };
        let ghost s = self@.side(side);
        let result = match side {
            Side::Ask => self.asks.cancel(price, order_id),
            Side::Bid => self.bids.cancel(price, order_id),
        };
        match result {
            Ok(()) => {},
            Err(e) => {
                proof {
                    let k = lower_bound(s, price.0);
                    assert(s.update(k, (s[k].0, s[k].1.after_live_cancel(order_id.0))) =~= s);
                    assert(self@.bids =~= old(self)@.bids);
                    assert(self@.asks =~= old(self)@.asks);
                }
                return Err(e);
            },
        }
        proof {
            let k = lower_bound(s, price.0);
            let t = s.update(k, (s[k].0, s[k].1.after_live_cancel(order_id.0)));
            lemma_same_prices_same_lower_bound(s, t, price.0);
        }
        self.remove_level_if_empty(side, price);
        let _removed = self.order_index.remove(&order_id.0);
        proof {
            let k = lower_bound(s, price.0);
            let t = s.update(k, (s[k].0, s[k].1.after_live_cancel(order_id.0)));
            assert(t.remove(k) =~= s.remove(k));
            assert(self@.side(side) == side_cancel(s, price.0, order_id.0));
            assert(self@ == old(self)@.after_cancel(order_id.0));
            lemma_book_cancel(old(self)@, order_id.0);
            if old(self)@.consistent() {
                law_cancel_keeps_consistent(old(self)@, order_id.0);
            }
            if old(self)@.ids_distinct() {
                law_cancel_keeps_ids_distinct(old(self)@, order_id.0);
            }
        }
        Ok(())
    }

    /// The highest bid price; `None` when there are no bids.
    pub fn best_bid(&self) -> (r: Option<Price>)
        requires
            self.wf(),
        ensures
            r == self@.best_bid(),
            r is Some <==> self@.bids.len() > 0,
            r matches Some(p) ==> exists|k: int| 0 <= k < self@.bids.len() && self@.bids[k].0 == p,
            r matches Some(p) ==> forall|k: int|
                0 <= k < self@.bids.len() ==> !value_lt(p.0, #[trigger] self@.bids[k].0.0),
    {
        let r = self.bids.last_price();
        proof {
            let b = self@.bids;
            let len = b.len();
            assert forall|k: int| 0 <= k < len implies !value_lt(
                b.last().0.0,
                #[trigger] b[k].0.0,
            ) by {
                if k < len - 1 {
                    assert(value_lt(b[k].0.0, b[len - 1].0.0));
                }
            }
        }
        r
    }

    /// The lowest ask price; `None` when there are no asks.
    pub fn best_ask(&self) -> (r: Option<Price>)
        requires
            self.wf(),
        ensures
            r == self@.best_ask(),
            r is Some <==> self@.asks.len() > 0,
            r matches Some(p) ==> exists|k: int| 0 <= k < self@.asks.len() && self@.asks[k].0 == p,
            r matches Some(p) ==> forall|k: int|
                0 <= k < self@.asks.len() ==> !value_lt(#[trigger] self@.asks[k].0.0, p.0),
    {
        let r = self.asks.first_price();
        proof {
            let a = self@.asks;
            assert forall|k: int| 0 <= k < a.len() implies !value_lt(#[trigger] a[k].0.0, a[0].0.0) by {
                if k > 0 {
                    assert(value_lt(a[0].0.0, a[k].0.0));
                }
            }
        }
        r
    }

    /// Best ask minus best bid; `None` if either side is empty.
    /// A price difference is a spread rather than a unit price, so it is a bare decimal.
    /// The subtraction must not overflow (see `checked_spread`).
    pub fn spread(&self) -> (r: Option<DecimalValue>)
        requires
            self.wf(),
            self@.spread_defined(),
        ensures
            self@.is_spread(r),
            r is Some <==> (self@.bids.len() > 0 && self@.asks.len() > 0),
            r matches Some(d) ==> decimal_difference(
                self@.asks[0].0.0.mantissa_spec(),
                self@.asks[0].0.0.scale_spec() as int,
                self@.bids.last().0.0.mantissa_spec(),
                self@.bids.last().0.0.scale_spec() as int,
            ) == Some((d.mantissa_spec(), d.scale_spec() as int)),
    {
        match (self.best_bid(), self.best_ask()) {
            (Some(bid), Some(ask)) => ask.0.checked_sub(&bid.0),
            _ => None,
        }
    }

    /// The spread, where computing it does not overflow; `None` where it does.
    pub fn checked_spread(&self) -> (r: Option<Option<DecimalValue>>)
        requires
            self.wf(),
        ensures
            r is Some <==> self@.spread_defined(),
            r matches Some(spread) ==> self@.is_spread(spread),
            r is None <==> (self@.bids.len() > 0 && self@.asks.len() > 0 && decimal_difference(
                self@.asks[0].0.0.mantissa_spec(),
                self@.asks[0].0.0.scale_spec() as int,
                self@.bids.last().0.0.mantissa_spec(),
                self@.bids.last().0.0.scale_spec() as int,
            ) is None),
            r matches Some(spread) ==> (spread is Some <==> (self@.bids.len() > 0
                && self@.asks.len() > 0)),
    {
        match (self.best_bid(), self.best_ask()) {
            (Some(bid), Some(ask)) => match ask.0.checked_sub(&bid.0) {
                Some(_) => Some(self.spread()),
                None => None,
            },
            _ => Some(self.spread()),
        }
    }
}

/// A cancel that succeeded removes the ID from the index, so cancelling it again is answered
/// `NotFound`.
pub proof fn law_cancel_twice_not_found(b: BookView, id: u64)
    requires
        b.cancel_outcome(id) is Ok,
    ensures
        b.after_cancel(id).cancel_outcome(id) == Err::<(), CancelError>(CancelError::NotFound),
{
}

/// Adding an order at a price that has no level on its side, then cancelling it, gives back
/// the book as it was: the new level goes with its only order, and the ID leaves the index.
pub proof fn law_add_then_cancel_restores(b: BookView, o: Order)
    requires
        b.wf(),
        !b.index.contains_key(o.id.0),
        !contains_price(b.side(o.side), o.price.0),
        !is_cancelled(o),
    ensures
        b.add(o).resolves(o.id.0),
        b.add(o).cancel_outcome(o.id.0) == Ok::<(), CancelError>(()),
        b.add(o).after_cancel(o.id.0) == b,
{
    let sd = o.side;
    let p = o.price.0;
    let id = o.id.0;
    let s = b.side(sd);
    lemma_lower_bound(s, p);
    lemma_book_add(b, o);
    let k = lower_bound(s, p);
    assert(!has_level_at(s, p, k));
    let level = LevelView { orders: seq![o], tombstones: 0 };
    let a = b.add(o);
    let t = a.side(sd);
    assert(t == s.insert(k, (o.price, level)));
    assert(a.index[id] == (sd, o.price));
    assert forall|j: int| 0 <= j < k implies value_lt(#[trigger] t[j].0.0, p) by {
        assert(t[j] == s[j]);
    }
    assert forall|j: int| k <= j < t.len() implies !value_lt(#[trigger] t[j].0.0, p) by {
        if j > k {
            assert(t[j] == s[j - 1]);
        }
    }
    lemma_is_the_lower_bound(t, p, k);
    assert(t[k].1 == level);
    assert(is_first_live_with_id(level.orders, id, 0));
    lemma_first_live_with_id(level.orders, id);
    lemma_first_live_with_id_unique(level.orders, id, 0, first_live_with_id(level.orders, id));
    let marked = level.orders.update(0, with_status(o, OrderStatus::Cancelled));
    assert(compaction_due(1, marked.len()));
    assert(marked.filter(is_live()) =~= Seq::<Order>::empty()) by {
        reveal_with_fuel(Seq::filter, 2);
        assert(marked.drop_last() =~= Seq::<Order>::empty());
    }
    assert(t.remove(k) =~= s);
    assert(a.index.remove(id) =~= b.index);
    let c = a.after_cancel(id);
    assert(c.bids =~= b.bids);
    assert(c.asks =~= b.asks);
}

/// After a bid is added, the best bid is the higher of the former best bid and the new price;
/// a price equal in value to the former best keeps the former's representation.
pub proof fn law_best_bid_after_add(b: BookView, o: Order)
    requires
        b.wf(),
        o.side == Side::Bid,
    ensures
        match b.best_bid() {
            None => b.add(o).best_bid() == Some(o.price),
            Some(p) => if value_lt(p.0, o.price.0) {
                b.add(o).best_bid() == Some(o.price)
            } else {
                b.add(o).best_bid() == Some(p)
            },
        },
{
    let s = b.bids;
    let p = o.price.0;
    lemma_lower_bound(s, p);
    let k = lower_bound(s, p);
    let t = b.add(o).bids;
    assert(t == side_add(s, o));
    if s.len() == 0 {
        assert(t.len() == 1);
    } else {
        let n = s.len() - 1;
        if value_lt(s[n].0.0, p) {
            assert forall|j: int| 0 <= j < s.len() implies value_lt(#[trigger] s[j].0.0, p) by {
                if j < n {
                    lemma_value_lt_trans(s[j].0.0, s[n].0.0, p);
                }
            }
            lemma_is_the_lower_bound(s, p, s.len() as int);
            assert(t.last() == (o.price, LevelView { orders: seq![o], tombstones: 0 }));
        } else {
            assert(k <= n);
            if has_level_at(s, p, k) {
                assert(t[n].0 == s[n].0);
            } else {
                assert(t[n + 1] == s[n]);
            }
        }
    }
}

/// After an ask is added, the best ask is the lower of the former best ask and the new price;
/// a price equal in value to the former best keeps the former's representation.
pub proof fn law_best_ask_after_add(b: BookView, o: Order)
    requires
        b.wf(),
        o.side == Side::Ask,
    ensures
        match b.best_ask() {
            None => b.add(o).best_ask() == Some(o.price),
            Some(p) => if value_lt(o.price.0, p.0) {
                b.add(o).best_ask() == Some(o.price)
            } else {
                b.add(o).best_ask() == Some(p)
            },
        },
{
    let s = b.asks;
    let p = o.price.0;
    lemma_lower_bound(s, p);
    let k = lower_bound(s, p);
    let t = b.add(o).asks;
    assert(t == side_add(s, o));
    if s.len() == 0 {
        assert(t.len() == 1);
    } else if value_lt(p, s[0].0.0) {
        assert(k == 0);
        assert(!has_level_at(s, p, 0));
        assert(t[0] == (o.price, LevelView { orders: seq![o], tombstones: 0 }));
    } else {
        if k == 0 {
            assert(has_level_at(s, p, 0));
        }
        assert(t[0].0 == s[0].0);
    }
}

/// Where a level holds one order with ID `id` and cancelling it succeeds, a second cancel is
/// refused: `AlreadyCancelled` while the tombstone stays, `NotFound` once compaction dropped it.
pub proof fn law_level_cancel_twice(lv: LevelView, id: u64)
    requires
        lv.wf(),
        lv.cancel_outcome(id) is Ok,
        forall|i: int, j: int|
            0 <= i < lv.orders.len() && 0 <= j < lv.orders.len() && #[trigger] lv.orders[i].id.0
                == id && #[trigger] lv.orders[j].id.0 == id ==> i == j,
    ensures
        lv.after_cancel(id).cancel_outcome(id) is Err,
        compaction_due(lv.tombstones + 1, lv.orders.len()) ==> lv.after_cancel(id).cancel_outcome(id)
            == Err::<(), CancelError>(CancelError::NotFound),
        !compaction_due(lv.tombstones + 1, lv.orders.len()) ==> lv.after_cancel(id).cancel_outcome(
            id,
        ) == Err::<(), CancelError>(CancelError::AlreadyCancelled),
{
    lemma_first_with_id(lv.orders, id);
    let i = first_with_id(lv.orders, id);
    let marked = lv.orders.update(i, with_status(lv.orders[i], OrderStatus::Cancelled));
    let after = lv.after_cancel(id);
    if compaction_due(lv.tombstones + 1, marked.len()) {
        let kept = marked.filter(is_live());
        assert(after.orders == kept);
        if holds_id(kept, id) {
            let j = choose|j: int| 0 <= j < kept.len() && #[trigger] kept[j].id.0 == id;
            broadcast use vstd::seq_lib::group_filter_ensures;

            assert(is_live()(kept[j]));
            marked.lemma_filter_contains_rev(is_live(), kept[j]);
            let m = choose|m: int| 0 <= m < marked.len() && marked[m] == kept[j];
            if m != i {
                assert(marked[m] == lv.orders[m]);
            }
        }
    } else {
        assert(after.orders == marked);
        assert(is_first_with_id(marked, id, i));
        lemma_first_with_id(marked, id);
        lemma_first_with_id_unique(marked, id, i, first_with_id(marked, id));
    }
}

/// In a book whose index is live, every indexed ID resolves to a level.
pub proof fn law_index_live_resolves(b: BookView, id: u64)
    requires
        b.index_live(),
    ensures
        b.resolves(id),
{
    if b.index.contains_key(id) {
        let s = b.side(b.index[id].0);
        let k = choose|k: int| #[trigger] holds_live_at(s, b.index[id].1.0, id, k);
        assert(has_level_at(s, b.index[id].1.0, k));
    }
}

/// Adding a live order with a fresh ID keeps the index live.
pub proof fn law_add_keeps_index_live(b: BookView, o: Order)
    requires
        b.wf(),
        b.index_live(),
        !b.index.contains_key(o.id.0),
        !is_cancelled(o),
    ensures
        b.add(o).index_live(),
{
    let sd = o.side;
    let p = o.price.0;
    let s = b.side(sd);
    lemma_lower_bound(s, p);
    let k = lower_bound(s, p);
    let a = b.add(o);
    let t = a.side(sd);
    assert(t == side_add(s, o));
    assert forall|id: u64| #[trigger] a.index.contains_key(id) implies holds_live(
        a.side(a.index[id].0),
        a.index[id].1.0,
        id,
    ) by {
        if id == o.id.0 {
            assert(a.index[id] == (sd, o.price));
            if has_level_at(s, p, k) {
                let orders = t[k].1.orders;
                assert(orders == s[k].1.orders.push(o));
                assert(orders[orders.len() - 1] == o);
                assert(live_with_id(orders, id));
                assert(holds_live_at(t, p, id, k));
            } else {
                assert(t[k].1.orders == seq![o]);
                assert(t[k].1.orders[0] == o);
                assert(live_with_id(t[k].1.orders, id));
                assert(holds_live_at(t, p, id, k));
            }
        } else {
            assert(a.index[id] == b.index[id]);
            assert(b.index.contains_key(id));
            let sd2 = b.index[id].0;
            let q = b.index[id].1.0;
            if sd2 != sd {
                assert(a.side(sd2) == b.side(sd2));
            } else {
                let j = choose|j: int| #[trigger] holds_live_at(s, q, id, j);
                let i = choose|i: int|
                    0 <= i < s[j].1.orders.len() && #[trigger] s[j].1.orders[i].id.0 == id
                        && !is_cancelled(s[j].1.orders[i]);
                if has_level_at(s, p, k) {
                    if j == k {
                        assert(t[j].1.orders[i] == s[j].1.orders[i]);
                    }
                    assert(t[j].1.orders[i] == s[j].1.orders[i]);
                    assert(holds_live_at(t, q, id, j));
                } else if j < k {
                    assert(t[j] == s[j]);
                    assert(holds_live_at(t, q, id, j));
                } else {
                    assert(t[j + 1] == s[j]);
                    assert(holds_live_at(t, q, id, j + 1));
                }
            }
        }
    }
}

/// Cancelling keeps the index live: the cancelled ID leaves it, and every other indexed order
/// stays live at its level, which therefore stays.
pub proof fn law_cancel_keeps_index_live(b: BookView, id: u64)
    requires
        b.wf(),
        b.index_live(),
    ensures
        b.after_cancel(id).index_live(),
{
    if b.cancel_outcome(id) is Ok {
        law_index_live_resolves(b, id);
        let sd = b.index[id].0;
        let p = b.index[id].1.0;
        let s = b.side(sd);
        lemma_found_level(s, p);
        let k = lower_bound(s, p);
        let lv = s[k].1;
        let after = lv.after_live_cancel(id);
        lemma_first_live_with_id(lv.orders, id);
        let i0 = first_live_with_id(lv.orders, id);
        let marked = lv.orders.update(i0, with_status(lv.orders[i0], OrderStatus::Cancelled));
        let c = b.after_cancel(id);
        let t = c.side(sd);
        assert(t == side_cancel(s, p, id));
        assert forall|other: u64| #[trigger] c.index.contains_key(other) implies holds_live(
            c.side(c.index[other].0),
            c.index[other].1.0,
            other,
        ) by {
            assert(other != id);
            assert(c.index[other] == b.index[other]);
            assert(b.index.contains_key(other));
            let sd2 = b.index[other].0;
            let q = b.index[other].1.0;
            if sd2 != sd {
                assert(c.side(sd2) == b.side(sd2));
            } else {
                let j = choose|j: int| #[trigger] holds_live_at(s, q, other, j);
                let i = choose|i: int|
                    0 <= i < s[j].1.orders.len() && #[trigger] s[j].1.orders[i].id.0 == other
                        && !is_cancelled(s[j].1.orders[i]);
                if j == k {
                    assert(i != i0);
                    assert(marked[i] == lv.orders[i]);
                    if compaction_due(lv.tombstones + 1, marked.len()) {
                        broadcast use vstd::seq_lib::group_filter_ensures;

                        assert(is_live()(marked[i]));
                        assert(after.orders.contains(marked[i]));
                        let m = choose|m: int| 0 <= m < after.orders.len() && after.orders[m] == marked[i];
                        assert(after.orders[m].id.0 == other);
                        assert(live_with_id(after.orders, other));
                    } else {
                        assert(after.orders[i] == lv.orders[i]);
                        assert(live_with_id(after.orders, other));
                    }
                    assert(after.orders.len() > 0);
                    assert(t[k].1 == after);
                    assert(holds_live_at(t, q, other, k));
                } else if after.orders.len() == 0 && j > k {
                    assert(t[j - 1] == s[j]);
                    assert(holds_live_at(t, q, other, j - 1));
                } else {
                    assert(t[j] == s[j]);
                    assert(holds_live_at(t, q, other, j));
                }
            }
        }
    }
}

/// After adding a live order with a fresh ID, every live order on `side` is still indexed
/// where it rests.
proof fn lemma_add_side_indexed(b: BookView, o: Order, side: Side)
    requires
        b.consistent(),
        !is_cancelled(o),
        !b.index.contains_key(o.id.0),
    ensures
        b.add(o).side_indexed(side),
{
    let a = b.add(o);
    let id = o.id.0;
    let s = b.side(side);
    assert(b.side_indexed(side));
    if side == o.side {
        assert(a.side(side) == side_add(s, o));
        assert forall|k2: int, i2: int|
            0 <= k2 < a.side(side).len() && 0 <= i2 < a.side(side)[k2].1.orders.len()
                && !is_cancelled(#[trigger] a.side(side)[k2].1.orders[i2]) implies a.indexes(
            side,
            a.side(side)[k2].0,
            a.side(side)[k2].1.orders[i2],
        ) by {
            let r = lemma_side_add_origin(s, o, k2, i2);
            match r {
                None => {},
                Some((k1, i1)) => {
                    let e = s[k1].1.orders[i1];
                    assert(b.indexes(side, s[k1].0, e));
                    assert(e.id.0 != id);
                },
            }
        }
    } else {
        assert(a.side(side) == s);
        assert forall|k2: int, i2: int|
            0 <= k2 < a.side(side).len() && 0 <= i2 < a.side(side)[k2].1.orders.len()
                && !is_cancelled(#[trigger] a.side(side)[k2].1.orders[i2]) implies a.indexes(
            side,
            a.side(side)[k2].0,
            a.side(side)[k2].1.orders[i2],
        ) by {
            let e = s[k2].1.orders[i2];
            assert(b.indexes(side, s[k2].0, e));
            assert(e.id.0 != id);
        }
    }
}

/// Adding a live order keeps each level's exact count and distinct live IDs.
proof fn lemma_add_side_exact(b: BookView, o: Order)
    requires
        b.consistent(),
        !is_cancelled(o),
        !b.index.contains_key(o.id.0),
    ensures
        side_exact(side_add(b.side(o.side), o)),
{
    let sd = o.side;
    let p = o.price.0;
    let id = o.id.0;
    let s = b.side(sd);
    assert(side_exact(s));
    assert(b.side_indexed(sd));
    lemma_lower_bound(s, p);
    let k = lower_bound(s, p);
    let t = side_add(s, o);
    assert forall|k2: int| 0 <= k2 < t.len() implies (#[trigger] t[k2]).1.tombstones
        == count_cancelled(t[k2].1.orders) && live_ids_distinct(t[k2].1.orders) by {
        if has_level_at(s, p, k) {
            if k2 == k {
                let os = s[k].1.orders;
                let ts = t[k].1.orders;
                assert(ts == os.push(o));
                lemma_count_cancelled_push(os, o);
                assert forall|i: int, j: int|
                    0 <= i < ts.len() && 0 <= j < ts.len() && !is_cancelled(#[trigger] ts[i])
                        && !is_cancelled(#[trigger] ts[j]) && ts[i].id.0 == ts[j].id.0 implies i
                    == j by {
                    if i < os.len() && j < os.len() {
                        assert(ts[i] == os[i] && ts[j] == os[j]);
                    } else if i < os.len() {
                        assert(ts[i] == os[i]);
                        assert(b.indexes(sd, s[k].0, os[i]));
                    } else if j < os.len() {
                        assert(ts[j] == os[j]);
                        assert(b.indexes(sd, s[k].0, os[j]));
                    }
                }
            }
        } else {
            if k2 == k {
                assert(t[k].1.orders == seq![o]);
                lemma_count_cancelled_push(Seq::<Order>::empty(), o);
                assert(seq![o] == Seq::<Order>::empty().push(o));
            } else if k2 > k {
                assert(t[k2] == s[k2 - 1]);
            }
        }
    }
}

/// Adding a live order with a fresh ID keeps a consistent book consistent.
pub proof fn law_add_keeps_consistent(b: BookView, o: Order)
    requires
        b.consistent(),
        !is_cancelled(o),
        !b.index.contains_key(o.id.0),
    ensures
        b.add(o).consistent(),
{
    let a = b.add(o);
    lemma_book_add(b, o);
    law_add_keeps_index_live(b, o);
    lemma_add_side_exact(b, o);
    lemma_add_side_indexed(b, o, Side::Bid);
    lemma_add_side_indexed(b, o, Side::Ask);
    assert(a.side(o.side) == side_add(b.side(o.side), o));
    assert(side_exact(a.bids) && side_exact(a.asks)) by {
        assert(side_exact(b.bids) && side_exact(b.asks));
    }
    assert forall|x: u64| #[trigger] a.resolves(x) by {
        assert(b.resolves(x));
    }
}

/// After a cancel, every live order on `side` is still indexed where it rests.
proof fn lemma_cancel_side_indexed(b: BookView, id: u64, side: Side)
    requires
        b.consistent(),
        b.cancel_outcome(id) is Ok,
    ensures
        b.after_cancel(id).side_indexed(side),
{
    let c = b.after_cancel(id);
    let sd = b.index[id].0;
    let price = b.index[id].1;
    let p = price.0;
    let s = b.side(side);
    assert(b.side_indexed(side));
    assert(b.resolves(id));
    assert(b.wf());
    if side == sd {
        lemma_found_level(s, p);
        let k0 = lower_bound(s, p);
        lemma_first_live_with_id(s[k0].1.orders, id);
        let i0 = first_live_with_id(s[k0].1.orders, id);
        assert(c.side(side) == side_cancel(s, p, id));
        assert forall|k2: int, i2: int|
            0 <= k2 < c.side(side).len() && 0 <= i2 < c.side(side)[k2].1.orders.len()
                && !is_cancelled(#[trigger] c.side(side)[k2].1.orders[i2]) implies c.indexes(
            side,
            c.side(side)[k2].0,
            c.side(side)[k2].1.orders[i2],
        ) by {
            let (k1, i1) = lemma_side_cancel_origin(s, p, id, k2, i2);
            let e = s[k1].1.orders[i1];
            assert(b.indexes(side, s[k1].0, e));
            if e.id.0 == id {
                assert(e.price == price);
                assert(has_level_at(s, p, k1));
                lemma_level_at_unique(s, p, k1, k0);
                assert(side_exact(s));
                assert(live_ids_distinct(s[k0].1.orders));
                assert(s[k0].1.orders[i0].id.0 == id);
            }
        }
    } else {
        assert(c.side(side) == s);
        assert forall|k2: int, i2: int|
            0 <= k2 < c.side(side).len() && 0 <= i2 < c.side(side)[k2].1.orders.len()
                && !is_cancelled(#[trigger] c.side(side)[k2].1.orders[i2]) implies c.indexes(
            side,
            c.side(side)[k2].0,
            c.side(side)[k2].1.orders[i2],
        ) by {
            let e = s[k2].1.orders[i2];
            assert(b.indexes(side, s[k2].0, e));
        }
    }
}

/// A cancel keeps each level's exact count and distinct live IDs.
proof fn lemma_cancel_side_exact(b: BookView, id: u64)
    requires
        b.consistent(),
        b.cancel_outcome(id) is Ok,
    ensures
        side_exact(side_cancel(b.side(b.index[id].0), b.index[id].1.0, id)),
{
    let sd = b.index[id].0;
    let p = b.index[id].1.0;
    let s = b.side(sd);
    assert(side_exact(s));
    assert(b.resolves(id));
    lemma_found_level(s, p);
    let k0 = lower_bound(s, p);
    let lv = s[k0].1;
    lemma_first_live_with_id(lv.orders, id);
    let i0 = first_live_with_id(lv.orders, id);
    let after = lv.after_live_cancel(id);
    let oc = with_status(lv.orders[i0], OrderStatus::Cancelled);
    let marked = lv.orders.update(i0, oc);
    lemma_count_cancelled_update(lv.orders, i0, oc);
    assert(live_ids_distinct(lv.orders));
    assert(live_ids_distinct(marked)) by {
        assert forall|i: int, j: int|
            0 <= i < marked.len() && 0 <= j < marked.len() && !is_cancelled(#[trigger] marked[i])
                && !is_cancelled(#[trigger] marked[j]) && marked[i].id.0 == marked[j].id.0 implies i
            == j by {
            assert(marked[i] == lv.orders[i] && marked[j] == lv.orders[j]);
        }
    }
    if compaction_due(lv.tombstones + 1, marked.len()) {
        lemma_compaction_leaves_no_tombstones(marked);
        lemma_filter_keeps_live_ids_distinct(marked);
    }
    let t = side_cancel(s, p, id);
    assert forall|k2: int| 0 <= k2 < t.len() implies (#[trigger] t[k2]).1.tombstones
        == count_cancelled(t[k2].1.orders) && live_ids_distinct(t[k2].1.orders) by {
        if after.orders.len() == 0 {
            if k2 >= k0 {
                assert(t[k2] == s[k2 + 1]);
            }
        } else if k2 == k0 {
            assert(t[k0].1 == after);
        }
    }
}

/// Cancelling keeps a consistent book consistent.
pub proof fn law_cancel_keeps_consistent(b: BookView, id: u64)
    requires
        b.consistent(),
    ensures
        b.after_cancel(id).consistent(),
{
    if b.cancel_outcome(id) is Ok {
        let c = b.after_cancel(id);
        let sd = b.index[id].0;
        assert(b.resolves(id));
        lemma_book_cancel(b, id);
        law_cancel_keeps_index_live(b, id);
        lemma_cancel_side_exact(b, id);
        lemma_cancel_side_indexed(b, id, Side::Bid);
        lemma_cancel_side_indexed(b, id, Side::Ask);
        assert(side_exact(c.bids) && side_exact(c.asks)) by {
            assert(side_exact(b.bids) && side_exact(b.asks));
            assert(c.side(sd) == side_cancel(b.side(sd), b.index[id].1.0, id));
        }
        assert forall|x: u64| #[trigger] c.resolves(x) by {
            law_index_live_resolves(c, x);
        }
    }
}

/// Appending a cancelled order leaves the live orders as they were.
proof fn lemma_filter_push_cancelled(s: Seq<Order>, x: Order)
    requires
        is_cancelled(x),
    ensures
        s.push(x).filter(is_live()) == s.filter(is_live()),
{
    reveal_with_fuel(Seq::filter, 1);
    assert(s.push(x).drop_last() =~= s);
}

/// Dropping tombstones twice is dropping them once.
proof fn lemma_filter_live_idempotent(s: Seq<Order>)
    ensures
        s.filter(is_live()).filter(is_live()) == s.filter(is_live()),
    decreases s.len(),
{
    reveal(Seq::filter);
    if s.len() > 0 {
        let d = s.drop_last();
        lemma_filter_live_idempotent(d);
        let fd = d.filter(is_live());
        if is_live()(s.last()) {
            let f = fd.push(s.last());
            assert(f.drop_last() =~= fd);
            assert(f.last() == s.last());
        }
    }
}

/// In a consistent book, adding a live order with a fresh ID and then cancelling it succeeds
/// and leaves the index, the best prices, and the live orders of every level (in their order)
/// as they were; only a tombstone may stay behind.
pub proof fn law_add_then_cancel_keeps_live_orders(b: BookView, o: Order)
    requires
        b.consistent(),
        !b.index.contains_key(o.id.0),
        !is_cancelled(o),
    ensures
        b.add(o).cancel_outcome(o.id.0) == Ok::<(), CancelError>(()),
        b.add(o).after_cancel(o.id.0).index == b.index,
        live_levels(b.add(o).after_cancel(o.id.0).bids) == live_levels(b.bids),
        live_levels(b.add(o).after_cancel(o.id.0).asks) == live_levels(b.asks),
        b.add(o).after_cancel(o.id.0).best_bid() == b.best_bid(),
        b.add(o).after_cancel(o.id.0).best_ask() == b.best_ask(),
{
    let sd = o.side;
    let p = o.price.0;
    let id = o.id.0;
    let s = b.side(sd);
    lemma_lower_bound(s, p);
    let k = lower_bound(s, p);
    if !has_level_at(s, p, k) {
        if contains_price(s, p) {
            lemma_found_level(s, p);
        }
        law_add_then_cancel_restores(b, o);
    } else {
        let a = b.add(o);
        let t = a.side(sd);
        assert(t == s.update(k, (s[k].0, s[k].1.push(o))));
        lemma_same_prices_same_lower_bound(s, t, p);
        assert(a.index[id] == (sd, o.price));
        let old_orders = s[k].1.orders;
        let lv = t[k].1;
        let n = old_orders.len();
        assert(lv.orders == old_orders.push(o));
        assert(b.side_indexed(sd));
        assert forall|j: int| 0 <= j < n implies #[trigger] lv.orders[j].id.0 != id || is_cancelled(
            lv.orders[j],
        ) by {
            assert(lv.orders[j] == old_orders[j]);
            if !is_cancelled(old_orders[j]) {
                assert(b.indexes(sd, s[k].0, old_orders[j]));
            }
        }
        assert(is_first_live_with_id(lv.orders, id, n as int));
        lemma_first_live_with_id(lv.orders, id);
        lemma_first_live_with_id_unique(lv.orders, id, n as int, first_live_with_id(lv.orders, id));
        assert(live_with_id(lv.orders, id));
        let oc = with_status(o, OrderStatus::Cancelled);
        let marked = lv.orders.update(n as int, oc);
        assert(marked =~= old_orders.push(oc));
        lemma_filter_push_cancelled(old_orders, oc);
        let after = lv.after_live_cancel(id);
        assert(after == lv.cancelled_at(n as int));
        if compaction_due(lv.tombstones + 1, marked.len()) {
            assert(after.orders == old_orders.filter(is_live()));
            lemma_filter_live_idempotent(old_orders);
            assert(side_exact(s));
            lemma_level_holds_live(s[k].1);
            let q = choose|q: int| 0 <= q < old_orders.len() && !is_cancelled(#[trigger] old_orders[q]);
            broadcast use vstd::seq_lib::group_filter_ensures;

            assert(is_live()(old_orders[q]));
            assert(after.orders.contains(old_orders[q]));
        }
        assert(after.orders.filter(is_live()) == old_orders.filter(is_live()));
        assert(after.orders.len() > 0);
        let c = a.after_cancel(id);
        let t2 = c.side(sd);
        assert(t2 == t.update(k, (t[k].0, after)));
        assert(a.index.remove(id) =~= b.index);
        assert(live_levels(t2) =~= live_levels(s));
        assert(c.side(sd) == t2);
        if sd == Side::Bid {
            assert(c.asks == b.asks);
            assert(c.bids.len() == b.bids.len());
            if b.bids.len() > 0 {
                assert(c.bids.last().0 == b.bids.last().0);
            }
        } else {
            assert(c.bids == b.bids);
            assert(c.asks.len() == b.asks.len());
            if b.asks.len() > 0 {
                assert(c.asks[0].0 == b.asks[0].0);
            }
        }
    }
}

/// A cancel never improves a best price: the best bid after it is at most the best bid
/// before, the best ask after it at least the best ask before, and the side that did not hold
/// the order keeps its levels.
pub proof fn law_cancel_never_improves_best(b: BookView, id: u64)
    requires
        b.wf(),
        b.resolves(id),
    ensures
        b.after_cancel(id).best_bid() matches Some(q) ==> (b.best_bid() matches Some(p) && !value_lt(
            p.0,
            q.0,
        )),
        b.after_cancel(id).best_ask() matches Some(q) ==> (b.best_ask() matches Some(p) && !value_lt(
            q.0,
            p.0,
        )),
        b.cancel_outcome(id) is Ok && b.index[id].0 == Side::Bid ==> b.after_cancel(id).asks
            == b.asks,
        b.cancel_outcome(id) is Ok && b.index[id].0 == Side::Ask ==> b.after_cancel(id).bids
            == b.bids,
{
    if b.cancel_outcome(id) is Ok {
        let sd = b.index[id].0;
        let p = b.index[id].1.0;
        let s = b.side(sd);
        lemma_found_level(s, p);
        let k = lower_bound(s, p);
        let c = b.after_cancel(id);
        let t = c.side(sd);
        assert(t == side_cancel(s, p, id));
        let after = s[k].1.after_live_cancel(id);
        let n = s.len() - 1;
        if sd == Side::Bid {
            assert(c.asks == b.asks);
            if t.len() > 0 {
                if after.orders.len() == 0 {
                    if k == n {
                        assert(t.last() == s[n - 1]);
                        assert(value_lt(s[n - 1].0.0, s[n].0.0));
                    } else {
                        assert(t.last() == s[n]);
                    }
                } else {
                    assert(t.last().0 == s[n].0);
                }
            }
        } else {
            assert(c.bids == b.bids);
            if t.len() > 0 {
                if after.orders.len() == 0 {
                    if k == 0 {
                        assert(t[0] == s[1]);
                        assert(value_lt(s[0].0.0, s[1].0.0));
                    } else {
                        assert(t[0] == s[0]);
                    }
                } else {
                    assert(t[0].0 == s[0].0);
                }
            }
        }
    }
}

/// No two orders in `s` share an ID, tombstones included.
pub open spec fn ids_distinct(s: Seq<Order>) -> bool {
    forall|i: int, j: int|
        0 <= i < s.len() && 0 <= j < s.len() && (#[trigger] s[i]).id.0 == (#[trigger] s[j]).id.0
            ==> i == j
}

/// No two orders held on the side share an ID, tombstones included.
pub open spec fn side_ids_distinct(s: Seq<(Price, LevelView)>) -> bool {
    &&& forall|k: int| 0 <= k < s.len() ==> ids_distinct(#[trigger] s[k].1.orders)
    &&& forall|k1: int, i1: int, k2: int, i2: int|
        0 <= k1 < s.len() && 0 <= k2 < s.len() && k1 != k2 && 0 <= i1 < s[k1].1.orders.len() && 0
            <= i2 < s[k2].1.orders.len() ==> (#[trigger] s[k1].1.orders[i1]).id.0 != (
        #[trigger] s[k2].1.orders[i2]).id.0
}

/// The side holds an order with ID `id`, tombstones included.
pub open spec fn side_holds(s: Seq<(Price, LevelView)>, id: u64) -> bool {
    exists|k: int, i: int|
        0 <= k < s.len() && 0 <= i < s[k].1.orders.len() && (#[trigger] s[k].1.orders[i]).id.0
            == id
}

impl BookView {
    /// The book holds an order with ID `id`, tombstones included.
    pub open spec fn holds(self, id: u64) -> bool {
        side_holds(self.bids, id) || side_holds(self.asks, id)
    }

    /// No two orders held in the book share an ID, tombstones included.
    pub open spec fn ids_distinct(self) -> bool {
        &&& side_ids_distinct(self.bids)
        &&& side_ids_distinct(self.asks)
        &&& forall|k1: int, i1: int, k2: int, i2: int|
            0 <= k1 < self.bids.len() && 0 <= k2 < self.asks.len() && 0 <= i1
                < self.bids[k1].1.orders.len() && 0 <= i2 < self.asks[k2].1.orders.len() ==> (
            #[trigger] self.bids[k1].1.orders[i1]).id.0 != (
            #[trigger] self.asks[k2].1.orders[i2]).id.0
    }
}

/// Dropping tombstones keeps IDs distinct.
proof fn lemma_filter_keeps_ids_distinct(s: Seq<Order>)
    requires
        ids_distinct(s),
    ensures
        ids_distinct(s.filter(is_live())),
    decreases s.len(),
{
    reveal(Seq::filter);
    if s.len() > 0 {
        let d = s.drop_last();
        let n = s.len() - 1;
        assert forall|i: int, j: int|
            0 <= i < d.len() && 0 <= j < d.len() && (#[trigger] d[i]).id.0 == (
            #[trigger] d[j]).id.0 implies i == j by {
            assert(d[i] == s[i] && d[j] == s[j]);
        }
        lemma_filter_keeps_ids_distinct(d);
        let fd = d.filter(is_live());
        if is_live()(s.last()) {
            let f = fd.push(s.last());
            assert(s.filter(is_live()) == f);
            assert forall|i: int, j: int|
                0 <= i < f.len() && 0 <= j < f.len() && (#[trigger] f[i]).id.0 == (
                #[trigger] f[j]).id.0 implies i == j by {
                if i < fd.len() && j < fd.len() {
                    assert(f[i] == fd[i] && f[j] == fd[j]);
                } else if i < fd.len() || j < fd.len() {
                    let m = if i < fd.len() {
                        i
                    } else {
                        j
                    };
                    assert(f[m] == fd[m]);
                    assert(fd.contains(fd[m]));
                    d.lemma_filter_contains_rev(is_live(), fd[m]);
                    let q = choose|q: int| 0 <= q < d.len() && d[q] == fd[m];
                    assert(s[q] == d[q]);
                    assert(s[n] == s.last());
                    assert(s[q].id.0 == s[n].id.0);
                }
            }
        }
    }
}

/// Where an order of the side after a successful cancel came from: a position in the side
/// before, holding an order with the same ID; levels keep their order, so the map is one to
/// one across levels.
proof fn lemma_side_cancel_source(
    s: Seq<(Price, LevelView)>,
    p: DecimalValue,
    id: u64,
    k2: int,
    i2: int,
) -> (r: (int, int))
    requires
        side_wf(s),
        contains_price(s, p),
        live_with_id(s[lower_bound(s, p)].1.orders, id),
        0 <= k2 < side_cancel(s, p, id).len(),
        0 <= i2 < side_cancel(s, p, id)[k2].1.orders.len(),
    ensures
        ({
            let t = side_cancel(s, p, id);
            let k0 = lower_bound(s, p);
            let (k, i) = r;
            &&& 0 <= k < s.len()
            &&& 0 <= i < s[k].1.orders.len()
            &&& s[k].1.orders[i].id.0 == t[k2].1.orders[i2].id.0
            &&& k == (if s[k0].1.after_live_cancel(id).orders.len() == 0 && k2 >= k0 {
                k2 + 1
            } else {
                k2
            })
        }),
{
    lemma_found_level(s, p);
    let k0 = lower_bound(s, p);
    let lv = s[k0].1;
    lemma_first_live_with_id(lv.orders, id);
    let i0 = first_live_with_id(lv.orders, id);
    let after = lv.after_live_cancel(id);
    let marked = lv.orders.update(i0, with_status(lv.orders[i0], OrderStatus::Cancelled));
    let t = side_cancel(s, p, id);
    if after.orders.len() == 0 {
        if k2 < k0 {
            (k2, i2)
        } else {
            assert(t[k2] == s[k2 + 1]);
            (k2 + 1, i2)
        }
    } else if k2 != k0 {
        (k2, i2)
    } else {
        assert(t[k0].1 == after);
        if compaction_due(lv.tombstones + 1, marked.len()) {
            broadcast use vstd::seq_lib::group_filter_ensures;

            let e = after.orders[i2];
            assert(after.orders.contains(e));
            marked.lemma_filter_contains_rev(is_live(), e);
            let m = choose|m: int| 0 <= m < marked.len() && marked[m] == e;
            (k0, m)
        } else {
            (k0, i2)
        }
    }
}

/// Adding an order whose ID the book holds nowhere keeps the held IDs distinct.
pub proof fn law_add_keeps_ids_distinct(b: BookView, o: Order)
    requires
        b.wf(),
        b.ids_distinct(),
        !b.holds(o.id.0),
    ensures
        b.add(o).ids_distinct(),
        b.add(o).holds(o.id.0),
{
    let sd = o.side;
    let p = o.price.0;
    let id = o.id.0;
    let s = b.side(sd);
    lemma_lower_bound(s, p);
    let kk = lower_bound(s, p);
    let a = b.add(o);
    let t = a.side(sd);
    assert(t == side_add(s, o));
    assert(side_ids_distinct(s));
    assert(!side_holds(s, id));
    assert forall|k: int| 0 <= k < t.len() implies ids_distinct(#[trigger] t[k].1.orders) by {
        if has_level_at(s, p, kk) {
            if k == kk {
                let os = s[kk].1.orders;
                let ts = t[kk].1.orders;
                assert(ts == os.push(o));
                assert(ids_distinct(os));
                assert forall|i: int, j: int|
                    0 <= i < ts.len() && 0 <= j < ts.len() && (#[trigger] ts[i]).id.0 == (
                    #[trigger] ts[j]).id.0 implies i == j by {
                    if i < os.len() && j < os.len() {
                        assert(ts[i] == os[i] && ts[j] == os[j]);
                    } else if i < os.len() {
                        assert(ts[i] == os[i]);
                        assert(s[kk].1.orders[i].id.0 != id);
                    } else if j < os.len() {
                        assert(ts[j] == os[j]);
                        assert(s[kk].1.orders[j].id.0 != id);
                    }
                }
            } else {
                assert(t[k] == s[k]);
            }
        } else {
            if k == kk {
                assert(t[k].1.orders == seq![o]);
            } else if k < kk {
                assert(t[k] == s[k]);
            } else {
                assert(t[k] == s[k - 1]);
            }
        }
    }
    assert forall|k1: int, i1: int, k2: int, i2: int|
        0 <= k1 < t.len() && 0 <= k2 < t.len() && k1 != k2 && 0 <= i1 < t[k1].1.orders.len() && 0
            <= i2 < t[k2].1.orders.len() implies (#[trigger] t[k1].1.orders[i1]).id.0 != (
    #[trigger] t[k2].1.orders[i2]).id.0 by {
        let r1 = lemma_side_add_origin(s, o, k1, i1);
        let r2 = lemma_side_add_origin(s, o, k2, i2);
        match r1 {
            None => {
                match r2 {
                    None => {
                        if has_level_at(s, p, kk) {
                            assert(k1 == kk || t[k1] == s[k1]);
                        }
                    },
                    Some((q2, j2)) => {
                        assert(s[q2].1.orders[j2].id.0 != id);
                    },
                }
            },
            Some((q1, j1)) => {
                match r2 {
                    None => {
                        assert(s[q1].1.orders[j1].id.0 != id);
                    },
                    Some((q2, j2)) => {
                        assert(s[q1].1.orders[j1] == t[k1].1.orders[i1]);
                        assert(s[q2].1.orders[j2] == t[k2].1.orders[i2]);
                    },
                }
            },
        }
    }
    assert(side_ids_distinct(t));
    let other = if sd == Side::Bid {
        Side::Ask
    } else {
        Side::Bid
    };
    assert(a.side(other) == b.side(other));
    assert(!side_holds(b.side(other), id));
    assert forall|k1: int, i1: int, k2: int, i2: int|
        0 <= k1 < a.bids.len() && 0 <= k2 < a.asks.len() && 0 <= i1 < a.bids[k1].1.orders.len() && 0
            <= i2 < a.asks[k2].1.orders.len() implies (#[trigger] a.bids[k1].1.orders[i1]).id.0 != (
    #[trigger] a.asks[k2].1.orders[i2]).id.0 by {
        if sd == Side::Bid {
            let r = lemma_side_add_origin(s, o, k1, i1);
            assert(a.asks[k2].1.orders[i2] == b.asks[k2].1.orders[i2]);
            match r {
                None => {},
                Some((q, j)) => {
                    assert(b.bids[q].1.orders[j] == a.bids[k1].1.orders[i1]);
                },
            }
        } else {
            let r = lemma_side_add_origin(s, o, k2, i2);
            assert(a.bids[k1].1.orders[i1] == b.bids[k1].1.orders[i1]);
            match r {
                None => {},
                Some((q, j)) => {
                    assert(b.asks[q].1.orders[j] == a.asks[k2].1.orders[i2]);
                },
            }
        }
    }
    // The new order is held.
    if has_level_at(s, p, kk) {
        assert(t[kk].1.orders == s[kk].1.orders.push(o));
        assert(t[kk].1.orders[s[kk].1.orders.len() as int] == o);
    } else {
        assert(t[kk].1.orders == seq![o]);
        assert(t[kk].1.orders[0] == o);
    }
    assert(side_holds(t, id));
}

/// Cancelling keeps the held IDs distinct.
pub proof fn law_cancel_keeps_ids_distinct(b: BookView, id: u64)
    requires
        b.wf(),
        b.resolves(id),
        b.ids_distinct(),
    ensures
        b.after_cancel(id).ids_distinct(),
{
    if b.cancel_outcome(id) is Ok {
        let sd = b.index[id].0;
        let p = b.index[id].1.0;
        let s = b.side(sd);
        lemma_found_level(s, p);
        let k0 = lower_bound(s, p);
        let lv = s[k0].1;
        lemma_first_live_with_id(lv.orders, id);
        let i0 = first_live_with_id(lv.orders, id);
        let after = lv.after_live_cancel(id);
        let marked = lv.orders.update(i0, with_status(lv.orders[i0], OrderStatus::Cancelled));
        let c = b.after_cancel(id);
        let t = c.side(sd);
        assert(t == side_cancel(s, p, id));
        assert(side_ids_distinct(s));
        assert(ids_distinct(lv.orders));
        assert(ids_distinct(marked)) by {
            assert forall|i: int, j: int|
                0 <= i < marked.len() && 0 <= j < marked.len() && (#[trigger] marked[i]).id.0 == (
                #[trigger] marked[j]).id.0 implies i == j by {
                assert(marked[i].id == lv.orders[i].id && marked[j].id == lv.orders[j].id);
            }
        }
        if compaction_due(lv.tombstones + 1, marked.len()) {
            lemma_filter_keeps_ids_distinct(marked);
        }
        assert forall|k: int| 0 <= k < t.len() implies ids_distinct(#[trigger] t[k].1.orders) by {
            if after.orders.len() == 0 {
                if k >= k0 {
                    assert(t[k] == s[k + 1]);
                }
            } else if k == k0 {
                assert(t[k0].1 == after);
            }
        }
        assert forall|k1: int, i1: int, k2: int, i2: int|
            0 <= k1 < t.len() && 0 <= k2 < t.len() && k1 != k2 && 0 <= i1 < t[k1].1.orders.len()
                && 0 <= i2 < t[k2].1.orders.len() implies (#[trigger] t[k1].1.orders[i1]).id.0 != (
        #[trigger] t[k2].1.orders[i2]).id.0 by {
            let (q1, j1) = lemma_side_cancel_source(s, p, id, k1, i1);
            let (q2, j2) = lemma_side_cancel_source(s, p, id, k2, i2);
            assert(s[q1].1.orders[j1].id.0 != s[q2].1.orders[j2].id.0);
        }
        assert(side_ids_distinct(t));
        assert forall|k1: int, i1: int, k2: int, i2: int|
            0 <= k1 < c.bids.len() && 0 <= k2 < c.asks.len() && 0 <= i1 < c.bids[k1].1.orders.len()
                && 0 <= i2 < c.asks[k2].1.orders.len() implies (
            #[trigger] c.bids[k1].1.orders[i1]).id.0 != (#[trigger] c.asks[k2].1.orders[i2]).id.0 by {
            if sd == Side::Bid {
                let (q, j) = lemma_side_cancel_source(s, p, id, k1, i1);
                assert(c.asks == b.asks);
                assert(b.bids[q].1.orders[j].id.0 != b.asks[k2].1.orders[i2].id.0);
            } else {
                let (q, j) = lemma_side_cancel_source(s, p, id, k2, i2);
                assert(c.bids == b.bids);
                assert(b.bids[k1].1.orders[i1].id.0 != b.asks[q].1.orders[j].id.0);
            }
        }
    }
}

/// Cancelling at a level depends only on the first order with the ID: where it is not
/// cancelled, whatever its other status, the cancel succeeds and that order becomes a
/// tombstone (counted, or dropped with all tombstones once they reach the threshold) while
/// every other order stays; where it is cancelled, the answer is `AlreadyCancelled` and
/// nothing changes.
pub proof fn law_level_cancel_first_with_id(lv: LevelView, id: u64, i: int)
    requires
        0 <= i < lv.orders.len(),
        lv.orders[i].id.0 == id,
        forall|j: int| 0 <= j < i ==> (#[trigger] lv.orders[j]).id.0 != id,
    ensures
        !(lv.orders[i].status is Cancelled) ==> {
            let marked = lv.orders.update(i, Order { status: OrderStatus::Cancelled, ..lv.orders[i] });
            &&& lv.cancel_outcome(id) == Ok::<(), CancelError>(())
            &&& (lv.tombstones + 1) * COMPACTION_THRESHOLD_DEN < lv.orders.len()
                * COMPACTION_THRESHOLD_NUM ==> lv.after_cancel(id) == (LevelView {
                orders: marked,
                tombstones: lv.tombstones + 1,
            })
            &&& (lv.tombstones + 1) * COMPACTION_THRESHOLD_DEN >= lv.orders.len()
                * COMPACTION_THRESHOLD_NUM ==> lv.after_cancel(id) == (LevelView {
                orders: marked.filter(|o: Order| !(o.status is Cancelled)),
                tombstones: 0,
            })
        },
        lv.orders[i].status is Cancelled ==> lv.cancel_outcome(id) == Err::<(), CancelError>(
            CancelError::AlreadyCancelled,
        ) && lv.after_cancel(id) == lv,
{
    assert(is_first_with_id(lv.orders, id, i));
    lemma_first_with_id(lv.orders, id);
    lemma_first_with_id_unique(lv.orders, id, i, first_with_id(lv.orders, id));
    assert(is_live() == (|o: Order| !(o.status is Cancelled)));
}

/// A level without an order with the ID answers `NotFound` and does not change.
pub proof fn law_level_cancel_absent(lv: LevelView, id: u64)
    requires
        forall|j: int| 0 <= j < lv.orders.len() ==> (#[trigger] lv.orders[j]).id.0 != id,
    ensures
        lv.cancel_outcome(id) == Err::<(), CancelError>(CancelError::NotFound),
        lv.after_cancel(id) == lv,
{
}

/// The side holds a live order with ID `id`, at any level.
pub open spec fn side_holds_live(s: Seq<(Price, LevelView)>, id: u64) -> bool {
    exists|k: int, i: int|
        0 <= k < s.len() && 0 <= i < s[k].1.orders.len() && (#[trigger] s[k].1.orders[i]).id.0
            == id && !(s[k].1.orders[i].status is Cancelled)
}

/// In a consistent book, every indexed order can be cancelled, at whatever level and place in
/// its queue it rests: the cancel succeeds, the ID leaves the index, and no live order with the
/// ID remains on either side.
pub proof fn law_indexed_order_cancels(b: BookView, id: u64)
    requires
        b.consistent(),
        b.index.contains_key(id),
    ensures
        b.cancel_outcome(id) == Ok::<(), CancelError>(()),
        !b.after_cancel(id).index.contains_key(id),
        !side_holds_live(b.after_cancel(id).bids, id),
        !side_holds_live(b.after_cancel(id).asks, id),
{
    let sd = b.index[id].0;
    let price = b.index[id].1;
    let p = price.0;
    let s = b.side(sd);
    assert(holds_live(s, p, id));
    let k = choose|k: int| #[trigger] holds_live_at(s, p, id, k);
    assert(b.wf());
    lemma_found_level(s, p);
    let k0 = lower_bound(s, p);
    lemma_level_at_unique(s, p, k, k0);
    assert(live_with_id(s[k0].1.orders, id));
    assert(b.cancel_outcome(id) == Ok::<(), CancelError>(()));
    let c = b.after_cancel(id);
    lemma_first_live_with_id(s[k0].1.orders, id);
    let i0 = first_live_with_id(s[k0].1.orders, id);
    let t = side_cancel(s, p, id);
    assert(c.side(sd) == t);
    assert(b.side_indexed(Side::Bid) && b.side_indexed(Side::Ask));
    assert(side_exact(s));
    assert(!side_holds_live(t, id)) by {
        if side_holds_live(t, id) {
            let (k2, i2) = choose|k2: int, i2: int|
                0 <= k2 < t.len() && 0 <= i2 < t[k2].1.orders.len() && (
                #[trigger] t[k2].1.orders[i2]).id.0 == id && !(
                t[k2].1.orders[i2].status is Cancelled);
            let (k1, i1) = lemma_side_cancel_origin(s, p, id, k2, i2);
            let e = s[k1].1.orders[i1];
            assert(b.side_indexed(sd));
            assert(b.indexes(sd, s[k1].0, e));
            assert(e.price == price);
            assert(has_level_at(s, p, k1));
            lemma_level_at_unique(s, p, k1, k0);
            assert(live_ids_distinct(s[k0].1.orders));
            assert(s[k0].1.orders[i0].id.0 == id);
        }
    }
    let other = if sd == Side::Bid {
        Side::Ask
    } else {
        Side::Bid
    };
    assert(c.side(other) == b.side(other));
    assert(!side_holds_live(b.side(other), id)) by {
        let o = b.side(other);
        if side_holds_live(o, id) {
            let (k2, i2) = choose|k2: int, i2: int|
                0 <= k2 < o.len() && 0 <= i2 < o[k2].1.orders.len() && (
                #[trigger] o[k2].1.orders[i2]).id.0 == id && !(o[k2].1.orders[i2].status is Cancelled);
            assert(b.side_indexed(other));
            assert(b.indexes(other, o[k2].0, o[k2].1.orders[i2]));
        }
    }
}

/// A new order joins its level at the back: the orders already queued keep their places and
/// the tombstone count stays.
pub proof fn law_level_add_at_back(lv: LevelView, o: Order)
    ensures
        lv.push(o).orders.len() == lv.orders.len() + 1,
        lv.push(o).orders[lv.orders.len() as int] == o,
        forall|j: int| 0 <= j < lv.orders.len() ==> lv.push(o).orders[j] == lv.orders[j],
        lv.push(o).tombstones == lv.tombstones,
{
}

/// Cancelling the live order with an ID passes over tombstones: it succeeds exactly when the
/// level holds an order with that ID that is not cancelled, and a refused cancel changes
/// nothing.
pub proof fn law_level_live_cancel(lv: LevelView, id: u64)
    ensures
        (exists|i: int|
            0 <= i < lv.orders.len() && (#[trigger] lv.orders[i]).id.0 == id && !(
            lv.orders[i].status is Cancelled)) <==> lv.live_cancel_outcome(id) == Ok::<
            (),
            CancelError,
        >(()),
        lv.live_cancel_outcome(id) != Ok::<(), CancelError>(()) ==> lv.live_cancel_outcome(id)
            == Err::<(), CancelError>(CancelError::NotFound) && lv.after_live_cancel(id) == lv,
{
}

/// Adding an order puts it at the back of the level at its price on its side, behind the
/// orders already there; the other side and the other levels do not change, and the index
/// maps the ID to the order's side and price.
pub proof fn law_add_places_order(b: BookView, o: Order)
    requires
        b.wf(),
    ensures
        ({
            let s = b.side(o.side);
            let t = b.add(o).side(o.side);
            let k = lower_bound(t, o.price.0);
            &&& has_level_at(t, o.price.0, k)
            &&& t[k].1.orders.last() == o
            &&& t[k].1.orders.drop_last() == (if contains_price(s, o.price.0) {
                s[lower_bound(s, o.price.0)].1.orders
            } else {
                Seq::<Order>::empty()
            })
            &&& t.len() == s.len() + (if contains_price(s, o.price.0) {
                0int
            } else {
                1int
            })
        }),
        o.side == Side::Bid ==> b.add(o).asks == b.asks,
        o.side == Side::Ask ==> b.add(o).bids == b.bids,
        b.add(o).index.contains_key(o.id.0),
        b.add(o).index[o.id.0] == (o.side, o.price),
{
    let s = b.side(o.side);
    let p = o.price.0;
    lemma_lower_bound(s, p);
    lemma_side_add(s, o);
    let kk = lower_bound(s, p);
    let t = b.add(o).side(o.side);
    assert(t == side_add(s, o));
    lemma_found_level(t, p);
    let k = lower_bound(t, p);
    if has_level_at(s, p, kk) {
        assert(contains_price(s, p));
        lemma_same_prices_same_lower_bound(s, t, p);
        assert(t[kk].1.orders.drop_last() =~= s[kk].1.orders);
    } else {
        if contains_price(s, p) {
            lemma_found_level(s, p);
        }
        assert(has_level_at(t, p, kk));
        lemma_level_at_unique(t, p, k, kk);
        assert(t[kk].1.orders.drop_last() =~= Seq::<Order>::empty());
    }
}

} // verus!
