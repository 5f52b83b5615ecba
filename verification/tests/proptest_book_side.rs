//! Drives a `BookSide` with random deltas and compares it with a plain `Vec`
//! that follows the same rules.

use feedhandler::types::MAX_LEVELS;
use feedhandler::{BookSide, Price, Qty};
use proptest::prelude::any;
use proptest::test_runner::{Config, TestCaseError, TestRunner};

// Past MAX_LEVELS distinct prices, so that the side fills up and has to evict
// and discard.
const PRICE_RANGE: std::ops::Range<u64> = 0..100;
const QTY_RANGE: std::ops::Range<u64> = 0..6; // 0 means cancel/remove

fn levels_of(side: &BookSide) -> Vec<(u64, u64)> {
    side.levels[..side.count].iter().map(|l| (l.price.raw(), l.qty.raw())).collect()
}

fn apply_to_model(model: &mut Vec<(u64, u64)>, price: u64, qty: u64, descending: bool) {
    let pos = model.iter().position(|&(p, _)| p == price);

    if qty == 0 {
        if let Some(idx) = pos {
            model.remove(idx);
        }
        return;
    }

    if let Some(idx) = pos {
        model[idx].1 = qty;
        return;
    }

    let insert_at = model
        .iter()
        .position(|&(p, _)| if descending { p < price } else { p > price })
        .unwrap_or(model.len());

    if model.len() < MAX_LEVELS {
        model.insert(insert_at, (price, qty));
    } else if insert_at < MAX_LEVELS {
        model.insert(insert_at, (price, qty));
        model.truncate(MAX_LEVELS);
    }
}

fn is_sorted(levels: &[(u64, u64)], descending: bool) -> bool {
    levels.windows(2).all(|w| if descending { w[0].0 > w[1].0 } else { w[0].0 < w[1].0 })
}

fn holds(condition: bool, otherwise: &'static str) -> Result<(), TestCaseError> {
    if condition {
        Ok(())
    } else {
        Err(TestCaseError::fail(otherwise))
    }
}

fn runner() -> TestRunner {
    TestRunner::new(Config { cases: 512, failure_persistence: None, ..Config::default() })
}

#[test]
fn book_side_matches_reference_model() {
    let inputs = (any::<bool>(), proptest::collection::vec((PRICE_RANGE, QTY_RANGE), 0..400));
    runner()
        .run(&inputs, |(descending, ops)| {
            let mut side = BookSide::new();
            let mut model: Vec<(u64, u64)> = Vec::new();

            for (price, qty) in ops {
                side.apply_delta(Price::new(price), Qty::new(qty), descending);
                apply_to_model(&mut model, price, qty, descending);

                let levels = levels_of(&side);
                holds(side.count <= MAX_LEVELS, "more than MAX_LEVELS levels")?;
                holds(is_sorted(&levels, descending), "book side lost its sort order")?;
                holds(levels == model, "diverged from the reference model")?;
            }
            Ok(())
        })
        .unwrap();
}

#[test]
fn no_duplicate_prices_ever() {
    let inputs = (any::<bool>(), proptest::collection::vec((PRICE_RANGE, QTY_RANGE), 0..400));
    runner()
        .run(&inputs, |(descending, ops)| {
            let mut side = BookSide::new();
            for (price, qty) in ops {
                side.apply_delta(Price::new(price), Qty::new(qty), descending);
                let levels = levels_of(&side);
                let mut prices: Vec<u64> = levels.iter().map(|&(p, _)| p).collect();
                let before = prices.len();
                prices.dedup();
                holds(prices.len() == before, "same price tracked twice")?;
            }
            Ok(())
        })
        .unwrap();
}
