//! One side of the book: at most `MAX_LEVELS` price levels, best price first.

use crate::types::{DeltaResult, Level, Price, Qty};
use vstd::prelude::*;

verus! {

pub const MAX_LEVELS: usize = 64;

/// A bounded, sorted run of price levels.
///
/// Only the first `count` entries of `levels` are tracked, best price first:
/// descending for bids, ascending for asks. What lies past `count` is stale.
pub struct BookSide {
    pub count: usize,
    pub levels: [Level; MAX_LEVELS],
}

impl View for BookSide {
    type V = Seq<Level>;

    /// The tracked levels, best price first.
    open spec fn view(&self) -> Seq<Level> {
        self.levels@.take(self.count as int)
    }
}

/// Price `a` ranks strictly ahead of price `b`: it is higher on a descending
/// side, lower on an ascending one.
pub open spec fn ahead(a: Price, b: Price, descending: bool) -> bool {
    if descending {
        a.0 > b.0
    } else {
        a.0 < b.0
    }
}

/// Every level ranks strictly ahead of those behind it; in particular no
/// price occurs twice.
pub open spec fn sorted(levels: Seq<Level>, descending: bool) -> bool {
    forall|i: int, j: int|
        0 <= i < j < levels.len() ==> ahead(levels[i].price, levels[j].price, descending)
}

/// Some level has this price.
pub open spec fn holds_price(levels: Seq<Level>, price: Price) -> bool {
    exists|i: int| 0 <= i < levels.len() && (#[trigger] levels[i]).price == price
}

/// How many levels rank strictly ahead of `price`.
pub open spec fn rank(levels: Seq<Level>, price: Price, descending: bool) -> nat
    decreases levels.len(),
{
    if levels.len() == 0 {
        0
    } else if ahead(levels.last().price, price, descending) {
        rank(levels.drop_last(), price, descending) + 1
    } else {
        rank(levels.drop_last(), price, descending)
    }
}

/// What a delta reports when it meets these levels.
pub open spec fn delta_result(
    levels: Seq<Level>,
    price: Price,
    qty: Qty,
    descending: bool,
) -> DeltaResult {
    if holds_price(levels, price) {
        if qty.0 == 0 {
            DeltaResult::Removed
        } else {
            DeltaResult::Updated
        }
    } else if qty.0 == 0 {
        DeltaResult::NoOp
    } else if levels.len() < MAX_LEVELS {
        DeltaResult::Inserted
    } else if rank(levels, price, descending) < MAX_LEVELS {
        DeltaResult::InsertedEvicted
    } else {
        DeltaResult::Discarded
    }
}

/// The levels after a delta: the level at `price` is replaced, taken out, or
/// put where it ranks; a full side gives up its last level for a better one.
pub open spec fn delta_levels(
    levels: Seq<Level>,
    price: Price,
    qty: Qty,
    descending: bool,
) -> Seq<Level> {
    let at = rank(levels, price, descending) as int;
    let level = Level { price, qty };
    match delta_result(levels, price, qty, descending) {
        DeltaResult::Updated => levels.update(at, level),
        DeltaResult::Inserted => levels.insert(at, level),
        DeltaResult::Removed => levels.remove(at),
        DeltaResult::InsertedEvicted => levels.drop_last().insert(at, level),
        DeltaResult::NoOp => levels,
        DeltaResult::Discarded => levels,
    }
}

/// `rank` is the point at which the levels stop ranking ahead of `price`.
pub proof fn lemma_rank_is_split(levels: Seq<Level>, price: Price, descending: bool, at: int)
    requires
        0 <= at <= levels.len(),
        forall|i: int| 0 <= i < at ==> ahead((#[trigger] levels[i]).price, price, descending),
        forall|i: int|
            at <= i < levels.len() ==> !ahead((#[trigger] levels[i]).price, price, descending),
    ensures
        rank(levels, price, descending) == at,
    decreases levels.len(),
{
    if levels.len() > 0 {
        let front = levels.drop_last();
        if at == levels.len() {
            lemma_rank_is_split(front, price, descending, at - 1);
        } else {
            lemma_rank_is_split(front, price, descending, at);
        }
    }
}

/// In sorted levels the first `rank` entries are those ahead of `price`, and
/// if `price` is tracked it stands right behind them.
pub proof fn lemma_rank_splits(levels: Seq<Level>, price: Price, descending: bool)
    requires
        sorted(levels, descending),
    ensures
        ({
            let at = rank(levels, price, descending) as int;
            &&& at <= levels.len()
            &&& forall|i: int|
                0 <= i < at ==> ahead((#[trigger] levels[i]).price, price, descending)
            &&& forall|i: int|
                at <= i < levels.len() ==> !ahead((#[trigger] levels[i]).price, price, descending)
            &&& holds_price(levels, price) <==> at < levels.len() && levels[at].price == price
        }),
    decreases levels.len(),
{
    let at = rank(levels, price, descending) as int;
    if levels.len() > 0 {
        let front = levels.drop_last();
        assert(sorted(front, descending));
        lemma_rank_splits(front, price, descending);
        let last = levels.len() - 1;
        if ahead(levels[last].price, price, descending) {
            assert forall|i: int| 0 <= i < last implies ahead(
                (#[trigger] levels[i]).price,
                price,
                descending,
            ) by {
                assert(ahead(levels[i].price, levels[last].price, descending));
            }
            lemma_rank_is_split(front, price, descending, last);
        }
        assert forall|i: int| 0 <= i < at implies ahead(
            (#[trigger] levels[i]).price,
            price,
            descending,
        ) by {
            if i < last {
                assert(front[i] == levels[i]);
            }
        }
        assert forall|i: int| at <= i < levels.len() implies !ahead(
            (#[trigger] levels[i]).price,
            price,
            descending,
        ) by {
            if i < last {
                assert(front[i] == levels[i]);
            }
        }
    }
    if holds_price(levels, price) {
        let i = choose|i: int| 0 <= i < levels.len() && (#[trigger] levels[i]).price == price;
        assert(at <= i);
        if at < i {
            assert(ahead(levels[at].price, levels[i].price, descending));
            assert(!ahead(levels[at].price, price, descending));
        }
    }
}

impl BookSide {
    /// The side is within bounds and in order.
    pub open spec fn wf(&self, descending: bool) -> bool {
        &&& self.count <= MAX_LEVELS
        &&& sorted(self@, descending)
    }

    /// The entries past `count` are those of `before`.
    pub open spec fn spare_entries_of(&self, before: BookSide) -> bool {
        forall|i: int|
            self.count <= i < MAX_LEVELS ==> (#[trigger] self.levels@[i]) == before.levels@[i]
    }

    pub fn new() -> (side: Self)
        ensures
            side@ == Seq::<Level>::empty(),
            side.count == 0,
            side.wf(true),
            side.wf(false),
            forall|i: int|
                0 <= i < MAX_LEVELS ==> (#[trigger] side.levels@[i]) == (Level {
                    price: Price(0),
                    qty: Qty(0),
                }),
    {
        BookSide { count: 0, levels: vstd::array::array_fill_for_copy_types(Level::empty()) }
    }

    /// Forgets every level. The entries themselves are left as they are.
    pub fn clear(&mut self)
        ensures
            final(self)@ == Seq::<Level>::empty(),
            final(self).count == 0,
            final(self).wf(true),
            final(self).wf(false),
            final(self).levels == old(self).levels,
    {
        self.count = 0;
    }

    /// The best level, if there is one.
    pub fn best(&self) -> (best: Option<Level>)
        ensures
            best == (if self.count > 0 {
                Some(self.levels@[0])
            } else {
                None
            }),
    {
        if self.count > 0 {
            Some(self.levels[0])
        } else {
            None
        }
    }

    /// Sets, replaces or removes the quantity at one price.
    pub fn apply_delta(&mut self, price: Price, qty: Qty, descending: bool) -> (result: DeltaResult)
        requires
            old(self).wf(descending),
        ensures
            final(self).wf(descending),
            result == delta_result(old(self)@, price, qty, descending),
            final(self)@ == delta_levels(old(self)@, price, qty, descending),
            final(self).spare_entries_of(*old(self)),
    {
        proof {
            lemma_rank_splits(self@, price, descending);
            law_delta_keeps_order(self@, price, qty, descending);
        }
        let pos: Result<usize, usize> = self.search(price, descending);
        if qty.is_zero() {
            match pos {
                Ok(idx) => self.remove(idx),
                Err(_) => DeltaResult::NoOp,
            }
        } else {
            match pos {
                Ok(idx) => {
                    self.levels[idx] = Level { price, qty };
                    assert(self@ =~= old(self)@.update(idx as int, Level { price, qty }));
                    DeltaResult::Updated
                },
                Err(idx) => self.insert(idx, Level { price, qty }),
            }
        }
    }

    /// Where `price` stands, or where it would have to go.
    fn search(&self, price: Price, descending: bool) -> (pos: Result<usize, usize>)
        requires
            self.wf(descending),
        ensures
            match pos {
                Ok(idx) => holds_price(self@, price) && idx == rank(self@, price, descending),
                Err(idx) => !holds_price(self@, price) && idx == rank(self@, price, descending),
            },
    {
        let mut lo: usize = 0;
        let mut hi: usize = self.count;
        proof {
            lemma_rank_splits(self@, price, descending);
        }
        while lo < hi
            invariant
                lo <= hi <= self.count <= MAX_LEVELS,
                sorted(self@, descending),
                forall|i: int| 0 <= i < lo ==> ahead((#[trigger] self@[i]).price, price, descending),
                forall|i: int|
                    hi <= i < self.count ==> ahead(price, (#[trigger] self@[i]).price, descending),
            decreases hi - lo,
        {
            let mid: usize = lo + (hi - lo) / 2;
            let here: Price = self.levels[mid].price;
            assert(self@[mid as int].price == here);
            if here.0 == price.0 {
                proof {
                    assert(holds_price(self@, price));
                    assert forall|i: int| 0 <= i < mid implies ahead(
                        (#[trigger] self@[i]).price,
                        price,
                        descending,
                    ) by {
                        assert(ahead(self@[i].price, self@[mid as int].price, descending));
                    }
                    assert forall|i: int| mid <= i < self@.len() implies !ahead(
                        (#[trigger] self@[i]).price,
                        price,
                        descending,
                    ) by {
                        if mid < i {
                            assert(ahead(self@[mid as int].price, self@[i].price, descending));
                        }
                    }
                    lemma_rank_is_split(self@, price, descending, mid as int);
                }
                return Ok(mid);
            }
            if (here.0 > price.0) == descending {
                assert forall|i: int| 0 <= i < mid + 1 implies ahead(
                    (#[trigger] self@[i]).price,
                    price,
                    descending,
                ) by {
                    if i < mid {
                        assert(ahead(self@[i].price, self@[mid as int].price, descending));
                    }
                }
                lo = mid + 1;
            } else {
                assert forall|i: int| mid <= i < self.count implies ahead(
                    price,
                    (#[trigger] self@[i]).price,
                    descending,
                ) by {
                    if mid < i {
                        assert(ahead(self@[mid as int].price, self@[i].price, descending));
                    }
                }
                hi = mid;
            }
        }
        proof {
            lemma_rank_is_split(self@, price, descending, lo as int);
            lemma_rank_splits(self@, price, descending);
        }
        Err(lo)
    }

    /// Takes out the level at `idx` and closes the gap.
    fn remove(&mut self, idx: usize) -> (result: DeltaResult)
        requires
            idx < old(self).count <= MAX_LEVELS,
        ensures
            result == DeltaResult::Removed,
            final(self).count == old(self).count - 1,
            final(self)@ == old(self)@.remove(idx as int),
            final(self).spare_entries_of(*old(self)),
    {
        let tail: usize = self.count - 1;
        let mut i: usize = idx;
        while i < tail
            invariant
                idx <= i <= tail,
                tail == self.count - 1,
                self.count == old(self).count,
                tail < MAX_LEVELS,
                forall|j: int| 0 <= j < idx ==> self.levels@[j] == old(self).levels@[j],
                forall|j: int| idx <= j < i ==> self.levels@[j] == old(self).levels@[j + 1],
                forall|j: int| i <= j < MAX_LEVELS ==> self.levels@[j] == old(self).levels@[j],
            decreases tail - i,
        {
            self.levels[i] = self.levels[i + 1];
            i += 1;
        }
        self.count = tail;
        assert(self@ =~= old(self)@.remove(idx as int));
        DeltaResult::Removed
    }

    /// Puts `level` at `idx`; a full side pushes its last level out, unless
    /// the new one would come behind it.
    fn insert(&mut self, idx: usize, level: Level) -> (result: DeltaResult)
        requires
            idx <= old(self).count <= MAX_LEVELS,
        ensures
            final(self).spare_entries_of(*old(self)),
            old(self).count < MAX_LEVELS ==> {
                &&& result == DeltaResult::Inserted
                &&& final(self).count == old(self).count + 1
                &&& final(self)@ == old(self)@.insert(idx as int, level)
            },
            old(self).count == MAX_LEVELS && idx < MAX_LEVELS ==> {
                &&& result == DeltaResult::InsertedEvicted
                &&& final(self).count == MAX_LEVELS
                &&& final(self)@ == old(self)@.drop_last().insert(idx as int, level)
            },
            old(self).count == MAX_LEVELS && idx == MAX_LEVELS ==> {
                &&& result == DeltaResult::Discarded
                &&& *final(self) == *old(self)
            },
    {
        if self.count < MAX_LEVELS {
            let end: usize = self.count;
            self.open_gap(idx, end);
            self.levels[idx] = level;
            self.count = end + 1;
            assert(self@ =~= old(self)@.insert(idx as int, level));
            DeltaResult::Inserted
        } else if idx < MAX_LEVELS {
            self.open_gap(idx, MAX_LEVELS - 1);
            self.levels[idx] = level;
            assert(self@ =~= old(self)@.drop_last().insert(idx as int, level));
            DeltaResult::InsertedEvicted
        } else {
            DeltaResult::Discarded
        }
    }

    /// Moves the entries from `idx` up to `end` one place back.
    fn open_gap(&mut self, idx: usize, end: usize)
        requires
            idx <= end < MAX_LEVELS,
        ensures
            final(self).count == old(self).count,
            forall|j: int| 0 <= j < idx ==> final(self).levels@[j] == old(self).levels@[j],
            forall|j: int| idx < j <= end ==> final(self).levels@[j] == old(self).levels@[j - 1],
            forall|j: int| end < j < MAX_LEVELS ==> final(self).levels@[j] == old(self).levels@[j],
    {
        let mut i: usize = end;
        while idx < i
            invariant
                idx <= i <= end < MAX_LEVELS,
                self.count == old(self).count,
                forall|j: int| 0 <= j <= i ==> self.levels@[j] == old(self).levels@[j],
                forall|j: int| i < j <= end ==> self.levels@[j] == old(self).levels@[j - 1],
                forall|j: int| end < j < MAX_LEVELS ==> self.levels@[j] == old(self).levels@[j],
            decreases i,
        {
            self.levels[i] = self.levels[i - 1];
            i -= 1;
        }
    }
}

impl Default for BookSide {
    fn default() -> (side: Self)
        ensures
            side@ == Seq::<Level>::empty(),
            side.count == 0,
            side.wf(true),
            side.wf(false),
            forall|i: int|
                0 <= i < MAX_LEVELS ==> (#[trigger] side.levels@[i]) == (Level {
                    price: Price(0),
                    qty: Qty(0),
                }),
    {
        Self::new()
    }
}

/// A delta keeps a side in order, without duplicates, and within its bound.
pub proof fn law_delta_keeps_order(levels: Seq<Level>, price: Price, qty: Qty, descending: bool)
    requires
        sorted(levels, descending),
        levels.len() <= MAX_LEVELS,
    ensures
        sorted(delta_levels(levels, price, qty, descending), descending),
        delta_levels(levels, price, qty, descending).len() <= MAX_LEVELS,
{
    lemma_rank_splits(levels, price, descending);
    let at = rank(levels, price, descending) as int;
    let after = delta_levels(levels, price, qty, descending);
    assert forall|i: int, j: int| 0 <= i < j < after.len() implies ahead(
        after[i].price,
        after[j].price,
        descending,
    ) by {
        match delta_result(levels, price, qty, descending) {
            DeltaResult::Removed => {
                let oi = if i < at { i } else { i + 1 };
                let oj = if j < at { j } else { j + 1 };
                assert(ahead(levels[oi].price, levels[oj].price, descending));
            },
            DeltaResult::Inserted => {
                if i != at && j != at {
                    let oi = if i < at { i } else { i - 1 };
                    let oj = if j < at { j } else { j - 1 };
                    assert(ahead(levels[oi].price, levels[oj].price, descending));
                } else if i == at {
                    assert(!ahead(levels[j - 1].price, price, descending));
                    assert(levels[j - 1].price != price);
                }
            },
            DeltaResult::InsertedEvicted => {
                if i != at && j != at {
                    let oi = if i < at { i } else { i - 1 };
                    let oj = if j < at { j } else { j - 1 };
                    assert(ahead(levels[oi].price, levels[oj].price, descending));
                } else if i == at {
                    assert(!ahead(levels[j - 1].price, price, descending));
                    assert(levels[j - 1].price != price);
                }
            },
            _ => {
                assert(ahead(levels[i].price, levels[j].price, descending));
            },
        }
    }
}

/// The first level is the best: it ranks ahead of every other.
pub proof fn law_first_level_is_best(levels: Seq<Level>, descending: bool)
    requires
        sorted(levels, descending),
    ensures
        forall|i: int|
            0 < i < levels.len() ==> ahead(levels[0].price, (#[trigger] levels[i]).price, descending),
{
}

/// No price is ever listed twice.
pub proof fn law_no_duplicate_prices(levels: Seq<Level>, descending: bool, i: int, j: int)
    requires
        sorted(levels, descending),
        0 <= i < levels.len(),
        0 <= j < levels.len(),
        i != j,
    ensures
        levels[i].price != levels[j].price,
{
    if i < j {
        assert(ahead(levels[i].price, levels[j].price, descending));
    } else {
        assert(ahead(levels[j].price, levels[i].price, descending));
    }
}

/// After a delta the side shows the given quantity at its price, or nothing
/// there if the delta removed or could not place it.
pub proof fn law_delta_sets_quantity(levels: Seq<Level>, price: Price, qty: Qty, descending: bool)
    requires
        sorted(levels, descending),
        levels.len() <= MAX_LEVELS,
    ensures
        ({
            let after = delta_levels(levels, price, qty, descending);
            match delta_result(levels, price, qty, descending) {
                DeltaResult::Updated => after.contains(Level { price, qty }),
                DeltaResult::Inserted => after.contains(Level { price, qty }),
                DeltaResult::InsertedEvicted => after.contains(Level { price, qty }),
                DeltaResult::Removed => !holds_price(after, price),
                DeltaResult::NoOp => !holds_price(after, price),
                DeltaResult::Discarded => !holds_price(after, price),
            }
        }),
{
    lemma_rank_splits(levels, price, descending);
    let at = rank(levels, price, descending) as int;
    let after = delta_levels(levels, price, qty, descending);
    match delta_result(levels, price, qty, descending) {
        DeltaResult::Removed => {
            assert forall|i: int| 0 <= i < after.len() implies (#[trigger] after[i]).price
                != price by {
                let o = if i < at { i } else { i + 1 };
                assert(after[i] == levels[o]);
                law_no_duplicate_prices(levels, descending, o, at);
            }
        },
        DeltaResult::NoOp => {},
        DeltaResult::Discarded => {},
        _ => {
            assert(after[at] == Level { price, qty });
        },
    }
}

/// A delta touches no other price: every other level stays, and none
/// appears, save that an insertion into a full side gives up the last level.
pub proof fn law_delta_leaves_other_prices(
    levels: Seq<Level>,
    price: Price,
    qty: Qty,
    descending: bool,
    other: Level,
)
    requires
        sorted(levels, descending),
        levels.len() <= MAX_LEVELS,
        other.price != price,
    ensures
        delta_levels(levels, price, qty, descending).contains(other) <==> levels.contains(other)
            && !(delta_result(levels, price, qty, descending) == DeltaResult::InsertedEvicted
            && other == levels.last()),
{
    lemma_rank_splits(levels, price, descending);
    let at = rank(levels, price, descending) as int;
    let after = delta_levels(levels, price, qty, descending);
    let result = delta_result(levels, price, qty, descending);
    if after.contains(other) {
        let i = choose|i: int| 0 <= i < after.len() && after[i] == other;
        let o = match result {
            DeltaResult::Removed => if i < at { i } else { i + 1 },
            DeltaResult::Inserted => if i < at { i } else { i - 1 },
            DeltaResult::InsertedEvicted => if i < at { i } else { i - 1 },
            _ => i,
        };
        assert(levels[o] == other);
        if result == DeltaResult::InsertedEvicted {
            law_no_duplicate_prices(levels, descending, o, levels.len() - 1);
        }
    }
    if levels.contains(other) && !(result == DeltaResult::InsertedEvicted && other
        == levels.last()) {
        let o = choose|o: int| 0 <= o < levels.len() && levels[o] == other;
        let i = match result {
            DeltaResult::Removed => if o < at { o } else { o - 1 },
            DeltaResult::Inserted => if o < at { o } else { o + 1 },
            DeltaResult::InsertedEvicted => if o < at { o } else { o + 1 },
            _ => o,
        };
        assert(after[i] == other);
    }
}

/// A level is given up only when the side is full and the newcomer beats it,
/// and the one given up is the worst; a newcomer is turned away exactly when
/// the side is full and every level beats it.
pub proof fn law_full_side_keeps_the_best(
    levels: Seq<Level>,
    price: Price,
    qty: Qty,
    descending: bool,
)
    requires
        sorted(levels, descending),
        levels.len() <= MAX_LEVELS,
    ensures
        delta_result(levels, price, qty, descending) == DeltaResult::InsertedEvicted ==> {
            &&& levels.len() == MAX_LEVELS
            &&& ahead(price, levels.last().price, descending)
            &&& forall|i: int|
                0 <= i < levels.len() - 1 ==> ahead(
                    (#[trigger] levels[i]).price,
                    levels.last().price,
                    descending,
                )
        },
        delta_result(levels, price, qty, descending) == DeltaResult::Discarded <==> {
            &&& qty.0 != 0
            &&& levels.len() == MAX_LEVELS
            &&& forall|i: int|
                0 <= i < levels.len() ==> ahead((#[trigger] levels[i]).price, price, descending)
        },
{
    lemma_rank_splits(levels, price, descending);
    if levels.len() == MAX_LEVELS && (forall|i: int|
        0 <= i < levels.len() ==> ahead((#[trigger] levels[i]).price, price, descending)) {
        lemma_rank_is_split(levels, price, descending, MAX_LEVELS as int);
    }
}

/// Repeating a delta changes nothing more.
pub proof fn law_delta_is_idempotent(levels: Seq<Level>, price: Price, qty: Qty, descending: bool)
    requires
        sorted(levels, descending),
        levels.len() <= MAX_LEVELS,
    ensures
        delta_levels(delta_levels(levels, price, qty, descending), price, qty, descending)
            == delta_levels(levels, price, qty, descending),
{
    let after = delta_levels(levels, price, qty, descending);
    lemma_rank_splits(levels, price, descending);
    law_delta_keeps_order(levels, price, qty, descending);
    law_delta_sets_quantity(levels, price, qty, descending);
    lemma_rank_splits(after, price, descending);
    let at = rank(levels, price, descending) as int;
    match delta_result(levels, price, qty, descending) {
        DeltaResult::Removed => {},
        DeltaResult::NoOp => {},
        DeltaResult::Discarded => {},
        _ => {
            lemma_rank_is_split(after, price, descending, at);
            assert(after[at] == Level { price, qty });
            assert(after.update(at, Level { price, qty }) =~= after);
        },
    }
}

/// Removing a level that was just inserted with room to spare gives back the
/// side as it was.
pub proof fn law_removal_undoes_insertion(
    levels: Seq<Level>,
    price: Price,
    qty: Qty,
    descending: bool,
)
    requires
        sorted(levels, descending),
        levels.len() <= MAX_LEVELS,
        delta_result(levels, price, qty, descending) == DeltaResult::Inserted,
    ensures
        ({
            let after = delta_levels(levels, price, qty, descending);
            &&& delta_result(after, price, Qty(0), descending) == DeltaResult::Removed
            &&& delta_levels(after, price, Qty(0), descending) == levels
        }),
{
    let after = delta_levels(levels, price, qty, descending);
    let at = rank(levels, price, descending) as int;
    lemma_rank_splits(levels, price, descending);
    law_delta_keeps_order(levels, price, qty, descending);
    assert(after[at] == Level { price, qty });
    lemma_rank_is_split(after, price, descending, at);
    assert(after.remove(at) =~= levels);
}

/// No level is empty.
pub open spec fn no_empty_levels(levels: Seq<Level>) -> bool {
    forall|i: int| 0 <= i < levels.len() ==> (#[trigger] levels[i]).qty.0 != 0
}

/// A delta never leaves an empty level behind.
pub proof fn law_no_level_is_empty(levels: Seq<Level>, price: Price, qty: Qty, descending: bool)
    requires
        sorted(levels, descending),
        levels.len() <= MAX_LEVELS,
        no_empty_levels(levels),
    ensures
        no_empty_levels(delta_levels(levels, price, qty, descending)),
{
    lemma_rank_splits(levels, price, descending);
    let at = rank(levels, price, descending) as int;
    let after = delta_levels(levels, price, qty, descending);
    assert forall|i: int| 0 <= i < after.len() implies (#[trigger] after[i]).qty.0 != 0 by {
        match delta_result(levels, price, qty, descending) {
            DeltaResult::Removed => {
                assert(after[i] == if i < at { levels[i] } else { levels[i + 1] });
            },
            DeltaResult::Updated => {},
            DeltaResult::Inserted => {
                if i != at {
                    assert(after[i] == if i < at { levels[i] } else { levels[i - 1] });
                }
            },
            DeltaResult::InsertedEvicted => {
                if i != at {
                    assert(after[i] == if i < at { levels[i] } else { levels[i - 1] });
                }
            },
            _ => {},
        }
    }
}

/// A well-formed side has at most 64 levels, each price below the one ahead of
/// it on a descending side, above it on an ascending one; and what it shows is
/// the first `count` of its entries.
pub proof fn law_side_is_in_price_order(side: BookSide, descending: bool)
    ensures
        side.wf(descending) <==> {
            &&& side.count <= 64
            &&& forall|i: int, j: int|
                #![trigger side.levels@[i], side.levels@[j]]
                0 <= i < j < side.count ==> if descending {
                    side.levels@[i].price.0 > side.levels@[j].price.0
                } else {
                    side.levels@[i].price.0 < side.levels@[j].price.0
                }
        },
        side.count <= 64 ==> {
            &&& side@.len() == side.count
            &&& forall|i: int| 0 <= i < side.count ==> (#[trigger] side@[i]) == side.levels@[i]
        },
{
    if side.wf(descending) {
        assert forall|i: int, j: int|
            #![trigger side.levels@[i], side.levels@[j]]
            0 <= i < j < side.count implies if descending {
            side.levels@[i].price.0 > side.levels@[j].price.0
        } else {
            side.levels@[i].price.0 < side.levels@[j].price.0
        } by {
            assert(ahead(side@[i].price, side@[j].price, descending));
        }
    }
    if side.count <= 64 && (forall|i: int, j: int|
        #![trigger side.levels@[i], side.levels@[j]]
        0 <= i < j < side.count ==> if descending {
            side.levels@[i].price.0 > side.levels@[j].price.0
        } else {
            side.levels@[i].price.0 < side.levels@[j].price.0
        }) {
        assert forall|i: int, j: int| 0 <= i < j < side@.len() implies ahead(
            side@[i].price,
            side@[j].price,
            descending,
        ) by {
            let a = side.levels@[i];
            let b = side.levels@[j];
        }
    }
}

/// Entries past `count` that were left alone are those there were.
pub proof fn law_spare_entries_are_left(side: BookSide, before: BookSide)
    ensures
        side.spare_entries_of(before) <==> forall|i: int|
            side.count <= i < 64 ==> (#[trigger] side.levels@[i]) == before.levels@[i],
{
}

/// Levels are in price order: each price below the one ahead of it if the
/// order is descending, above it if not.
pub proof fn law_sorted_means_price_order(levels: Seq<Level>, descending: bool)
    ensures
        sorted(levels, descending) <==> forall|i: int, j: int|
            #![trigger levels[i], levels[j]]
            0 <= i < j < levels.len() ==> if descending {
                levels[i].price.0 > levels[j].price.0
            } else {
                levels[i].price.0 < levels[j].price.0
            },
{
    if sorted(levels, descending) {
        assert forall|i: int, j: int|
            #![trigger levels[i], levels[j]]
            0 <= i < j < levels.len() implies if descending {
            levels[i].price.0 > levels[j].price.0
        } else {
            levels[i].price.0 < levels[j].price.0
        } by {
            assert(ahead(levels[i].price, levels[j].price, descending));
        }
    }
    if forall|i: int, j: int|
        #![trigger levels[i], levels[j]]
        0 <= i < j < levels.len() ==> if descending {
            levels[i].price.0 > levels[j].price.0
        } else {
            levels[i].price.0 < levels[j].price.0
        } {
        assert forall|i: int, j: int| 0 <= i < j < levels.len() implies ahead(
            levels[i].price,
            levels[j].price,
            descending,
        ) by {
            let a = levels[i];
            let b = levels[j];
        }
    }
}

/// What a delta reports says what it met. A quantity of zero reports `Removed`
/// exactly when the price had a level, `NoOp` when it had none. Any other
/// reports `Updated` exactly when the price had a level; else `Inserted` while
/// there are fewer than 64, and on a full side `InsertedEvicted` if the price
/// beats the last one, `Discarded` if not.
pub proof fn law_delta_reports_what_it_met(
    levels: Seq<Level>,
    price: Price,
    qty: Qty,
    descending: bool,
)
    requires
        levels.len() <= 64,
        forall|i: int, j: int|
            #![trigger levels[i], levels[j]]
            0 <= i < j < levels.len() ==> if descending {
                levels[i].price.0 > levels[j].price.0
            } else {
                levels[i].price.0 < levels[j].price.0
            },
    ensures
        ({
            let result = delta_result(levels, price, qty, descending);
            let there = exists|i: int| 0 <= i < levels.len() && (#[trigger] levels[i]).price == price;
            let beats_last = if descending {
                price.0 > levels.last().price.0
            } else {
                price.0 < levels.last().price.0
            };
            &&& result == DeltaResult::Removed <==> qty.0 == 0 && there
            &&& result == DeltaResult::NoOp <==> qty.0 == 0 && !there
            &&& result == DeltaResult::Updated <==> qty.0 != 0 && there
            &&& result == DeltaResult::Inserted <==> qty.0 != 0 && !there && levels.len() < 64
            &&& result == DeltaResult::InsertedEvicted <==> qty.0 != 0 && !there && levels.len()
                == 64 && beats_last
            &&& result == DeltaResult::Discarded <==> qty.0 != 0 && !there && levels.len() == 64
                && !beats_last
        }),
{
    law_sorted_means_price_order(levels, descending);
    lemma_rank_splits(levels, price, descending);
    if levels.len() == 64 {
        let last = levels[63];
        assert(last == levels.last());
    }
}

/// What a delta leaves: a side in price order of at most 64 levels. At the
/// price there is one level with the delta's quantity, or none if that is zero
/// or the delta was discarded. Every other level is there exactly when it was
/// before, but for the last one of a full side that a better price displaced.
pub proof fn law_delta_leaves_what_it_says(
    levels: Seq<Level>,
    price: Price,
    qty: Qty,
    descending: bool,
)
    requires
        levels.len() <= 64,
        forall|i: int, j: int|
            #![trigger levels[i], levels[j]]
            0 <= i < j < levels.len() ==> if descending {
                levels[i].price.0 > levels[j].price.0
            } else {
                levels[i].price.0 < levels[j].price.0
            },
    ensures
        ({
            let after = delta_levels(levels, price, qty, descending);
            let there = exists|i: int| 0 <= i < levels.len() && (#[trigger] levels[i]).price == price;
            let full = levels.len() == 64;
            let beats_last = if descending {
                price.0 > levels.last().price.0
            } else {
                price.0 < levels.last().price.0
            };
            &&& after.len() <= 64
            &&& forall|i: int, j: int|
                #![trigger after[i], after[j]]
                0 <= i < j < after.len() ==> if descending {
                    after[i].price.0 > after[j].price.0
                } else {
                    after[i].price.0 < after[j].price.0
                }
            &&& forall|q: Qty|
                #![trigger after.contains(Level { price, qty: q })]
                after.contains(Level { price, qty: q }) <==> q == qty && qty.0 != 0 && (there
                    || !full || beats_last)
            &&& forall|other: Level|
                other.price != price ==> (#[trigger] after.contains(other) <==> levels.contains(other)
                    && !(qty.0 != 0 && !there && full && beats_last && other == levels.last()))
        }),
{
    let after = delta_levels(levels, price, qty, descending);
    law_sorted_means_price_order(levels, descending);
    law_delta_keeps_order(levels, price, qty, descending);
    law_sorted_means_price_order(after, descending);
    law_delta_sets_quantity(levels, price, qty, descending);
    law_delta_reports_what_it_met(levels, price, qty, descending);
    assert forall|q: Qty|
        #![trigger after.contains(Level { price, qty: q })]
        after.contains(Level { price, qty: q }) implies after.contains(Level { price, qty }) && q
        == qty by {
        let k = choose|k: int| 0 <= k < after.len() && after[k] == (Level { price, qty: q });
        assert(after[k].price == price);
        assert(holds_price(after, price));
        let m = choose|m: int| 0 <= m < after.len() && after[m] == (Level { price, qty });
        if k != m {
            law_no_duplicate_prices(after, descending, k, m);
        }
    }
    assert forall|other: Level| other.price != price implies (#[trigger] after.contains(other)
        <==> levels.contains(other) && !(delta_result(levels, price, qty, descending)
        == DeltaResult::InsertedEvicted && other == levels.last())) by {
        law_delta_leaves_other_prices(levels, price, qty, descending, other);
    }
}

} // verus!
