use scrapestore::bids::{merge_bids, Bid, BidReading, BidRow};

fn bid_reading(from: i64, to: i64, product: &str, rank: i32, price: Option<f64>, volume: Option<f64>) -> BidReading {
    BidReading {
        delivery_from: from,
        delivery_to: to,
        bid: Bid {
            product: String::from(product),
            rank,
            price: price.map(f64::to_bits),
            volume: volume.map(f64::to_bits),
        },
    }
}

fn price_of(row: &BidRow) -> Option<f64> {
    row.price.map(f64::from_bits)
}

#[test]
fn bids_history_is_append_only() {
    let rows: Vec<BidRow> = Vec::new();
    let (rows, changed) =
        merge_bids(rows, &vec![bid_reading(1000, 2000, "X", 1, Some(10.0), Some(5.0))], 100);
    assert!(changed);
    assert_eq!(rows.len(), 1);
    let (rows, changed) =
        merge_bids(rows, &vec![bid_reading(1000, 2000, "X", 1, Some(11.0), Some(5.0))], 200);
    assert!(changed);
    assert_eq!(rows.len(), 2, "a changed price appends a row, never overwrites");
    assert_eq!(price_of(&rows[0]), Some(10.0), "the old observation is retained verbatim");
    assert_eq!(price_of(&rows[1]), Some(11.0));
    assert_eq!(rows[1].scraped_at, 200);
}

#[test]
fn unchanged_bid_is_dropped_silently() {
    let rows: Vec<BidRow> = Vec::new();
    let batch = vec![bid_reading(1000, 2000, "X", 1, Some(10.0), Some(5.0))];
    let (rows, _) = merge_bids(rows, &batch, 100);
    let (rows, changed) = merge_bids(rows, &batch, 200);
    assert!(!changed);
    assert_eq!(rows.len(), 1);
    assert_eq!(rows[0].scraped_at, 100);
}

#[test]
fn absent_and_present_values_differ() {
    let rows: Vec<BidRow> = Vec::new();
    let (rows, _) = merge_bids(rows, &vec![bid_reading(1000, 2000, "X", 1, Some(10.0), None)], 100);
    let (rows, changed) =
        merge_bids(rows, &vec![bid_reading(1000, 2000, "X", 1, Some(10.0), Some(5.0))], 200);
    assert!(changed, "volume going from absent to present is a change");
    assert_eq!(rows.len(), 2);
    let (rows, changed) =
        merge_bids(rows, &vec![bid_reading(1000, 2000, "X", 1, None, Some(5.0))], 300);
    assert!(changed, "price going from present to absent is a change");
    assert_eq!(rows.len(), 3);
}

#[test]
fn bid_keys_are_interval_product_and_rank() {
    let rows: Vec<BidRow> = Vec::new();
    let (rows, _) = merge_bids(rows, &vec![bid_reading(1000, 2000, "X", 1, Some(10.0), Some(5.0))], 100);
    // Same product and rank, other interval: a distinct key, so it appends.
    let (rows, changed) =
        merge_bids(rows, &vec![bid_reading(3000, 4000, "X", 1, Some(10.0), Some(5.0))], 200);
    assert!(changed);
    assert_eq!(rows.len(), 2);
    // Same interval, other rank: distinct again.
    let (rows, changed) =
        merge_bids(rows, &vec![bid_reading(1000, 2000, "X", 2, Some(10.0), Some(5.0))], 300);
    assert!(changed);
    assert_eq!(rows.len(), 3);
}

#[test]
fn bid_tolerance_ignores_representation_noise() {
    let rows: Vec<BidRow> = Vec::new();
    let (rows, _) = merge_bids(rows, &vec![bid_reading(1000, 2000, "X", 1, Some(1.0), Some(5.0))], 100);
    let noisy = 1.0 + f64::EPSILON;
    let (rows, changed) =
        merge_bids(rows, &vec![bid_reading(1000, 2000, "X", 1, Some(noisy), Some(5.0))], 200);
    assert!(!changed, "a price within the tolerance is no change");
    assert_eq!(rows.len(), 1);
}
