use vstd::prelude::*;

use crate::numeric::{opt_value_changed, opt_values_differ};

verus! {

/// One bid level of a reading: a product name, a rank, and optional price
/// and volume, the two numeric fields given as 64-bit float bit patterns.
pub struct Bid {
    pub product: String,
    pub rank: i32,
    pub price: Option<u64>,
    pub volume: Option<u64>,
}

/// One incoming bid observation for a delivery interval, instants in
/// microseconds since the Unix epoch.
pub struct BidReading {
    pub delivery_from: i64,
    pub delivery_to: i64,
    pub bid: Bid,
}

/// One stored row of a bids partition: the delivery interval, the bid
/// fields, and the instant the changed observation was appended.
pub struct BidRow {
    pub start: i64,
    pub end: i64,
    pub product: String,
    pub rank: i32,
    pub price: Option<u64>,
    pub volume: Option<u64>,
    pub scraped_at: i64,
}

/// Whether a stored row carries the given bid key.
pub open spec fn row_matches_key(row: BidRow, s: i64, e: i64, p: Seq<char>, rank: i32) -> bool {
    row.start == s && row.end == e && row.product@ == p && row.rank == rank
}

/// The most recently appended (price, volume) for a bid key, reading the log
/// from its end; `None` when the key was never seen.
pub open spec fn last_known(
    rows: Seq<BidRow>,
    s: i64,
    e: i64,
    p: Seq<char>,
    rank: i32,
) -> Option<(Option<u64>, Option<u64>)>
    decreases rows.len(),
{
    if rows.len() == 0 {
        None
    } else if row_matches_key(rows.last(), s, e, p, rank) {
        Some((rows.last().price, rows.last().volume))
    } else {
        last_known(rows.drop_last(), s, e, p, rank)
    }
}

/// Whether an incoming bid differs from the last known value for its key:
/// an unseen key is a change, and otherwise price or volume must differ by
/// more than the near-zero tolerance.
pub open spec fn bid_is_change(rows: Seq<BidRow>, r: BidReading) -> bool {
    match last_known(rows, r.delivery_from, r.delivery_to, r.bid.product@, r.bid.rank) {
        None => true,
        Some(pv) => opt_value_changed(pv.0, r.bid.price) || opt_value_changed(pv.1, r.bid.volume),
    }
}

/// The row appended for a changed bid observation.
pub open spec fn appended_row(r: BidReading, now: i64) -> BidRow {
    BidRow {
        start: r.delivery_from,
        end: r.delivery_to,
        product: r.bid.product,
        rank: r.bid.rank,
        price: r.bid.price,
        volume: r.bid.volume,
        scraped_at: now,
    }
}

/// One merge step: a changed bid is appended to the log, an unchanged one is
/// dropped silently. No row is ever removed or overwritten.
pub open spec fn apply_bid(rows: Seq<BidRow>, r: BidReading, now: i64) -> Seq<BidRow> {
    if bid_is_change(rows, r) {
        rows.push(appended_row(r, now))
    } else {
        rows
    }
}

/// The bids merge: each incoming bid in order is appended exactly when it
/// differs from the last known value for its key at that point.
pub open spec fn merge_bids_spec(rows: Seq<BidRow>, incoming: Seq<BidReading>, now: i64) -> Seq<
    BidRow,
>
    decreases incoming.len(),
{
    if incoming.len() == 0 {
        rows
    } else {
        merge_bids_spec(apply_bid(rows, incoming.first(), now), incoming.drop_first(), now)
    }
}

/// Unrolls the merge at its last step.
pub proof fn lemma_merge_bids_unroll(
    rows: Seq<BidRow>,
    incoming: Seq<BidReading>,
    r: BidReading,
    now: i64,
)
    ensures
        merge_bids_spec(rows, incoming.push(r), now) == apply_bid(
            merge_bids_spec(rows, incoming, now),
            r,
            now,
        ),
    decreases incoming.len(),
{
    if incoming.len() == 0 {
        assert(incoming.push(r).first() == r);
        assert(incoming.push(r).drop_first() =~= incoming);
        assert(merge_bids_spec(rows, incoming.push(r), now) == merge_bids_spec(
            apply_bid(rows, r, now),
            incoming,
            now,
        ));
        assert(merge_bids_spec(apply_bid(rows, r, now), incoming, now) == apply_bid(rows, r, now));
        assert(merge_bids_spec(rows, incoming, now) == rows);
    } else {
        assert(incoming.push(r).first() == incoming.first());
        assert(incoming.push(r).drop_first() =~= incoming.drop_first().push(r));
        lemma_merge_bids_unroll(apply_bid(rows, incoming.first(), now), incoming.drop_first(), r, now);
        assert(merge_bids_spec(rows, incoming, now) == merge_bids_spec(
            apply_bid(rows, incoming.first(), now),
            incoming.drop_first(),
            now,
        ));
        assert(merge_bids_spec(rows, incoming.push(r), now) == merge_bids_spec(
            apply_bid(rows, incoming.first(), now),
            incoming.drop_first().push(r),
            now,
        ));
    }
}

/// Bids partitions are an append-only history: every merge leaves the
/// existing rows in place, unchanged and in their order, and only appends.
pub proof fn lemma_merge_bids_append_only(rows: Seq<BidRow>, incoming: Seq<BidReading>, now: i64)
    ensures
        merge_bids_spec(rows, incoming, now).len() >= rows.len(),
        merge_bids_spec(rows, incoming, now).take(rows.len() as int) == rows,
    decreases incoming.len(),
{
    if incoming.len() == 0 {
        assert(merge_bids_spec(rows, incoming, now).take(rows.len() as int) =~= rows);
    } else {
        let rows1 = apply_bid(rows, incoming.first(), now);
        lemma_merge_bids_append_only(rows1, incoming.drop_first(), now);
        let m = merge_bids_spec(rows, incoming, now);
        assert(rows1.take(rows.len() as int) =~= rows);
        assert(m.take(rows1.len() as int).take(rows.len() as int) =~= m.take(rows.len() as int));
    }
}

/// Executable scan for the last known (price, volume) of a bid key.
fn find_last_known(rows: &Vec<BidRow>, s: i64, e: i64, product: &String, rank: i32) -> (r: Option<
    (Option<u64>, Option<u64>),
>)
    ensures
        r == last_known(rows@, s, e, product@, rank),
{
    let mut i: usize = rows.len();
    proof {
        assert(rows@.take(rows@.len() as int) =~= rows@);
    }
    while i > 0
        invariant
            i <= rows.len(),
            last_known(rows@, s, e, product@, rank) == last_known(
                rows@.take(i as int),
                s,
                e,
                product@,
                rank,
            ),
        decreases i,
    {
        let row = &rows[i - 1];
        proof {
            assert(rows@.take(i as int).last() == rows@[i - 1]);
            assert(rows@.take(i as int).drop_last() =~= rows@.take(i as int - 1));
        }
        if row.start == s && row.end == e && row.rank == rank && row.product == *product {
            return Some((row.price, row.volume));
        }
        i = i - 1;
    }
    proof {
        assert(rows@.take(0) =~= Seq::<BidRow>::empty());
    }
    None
}

/// Merges incoming bid observations into the stored log. Returns the new row
/// list and whether anything was appended; the stored rows are never touched,
/// a changed observation is appended with the given instant, an unchanged one
/// is dropped.
pub fn merge_bids(rows: Vec<BidRow>, incoming: &Vec<BidReading>, now: i64) -> (res: (
    Vec<BidRow>,
    bool,
))
    ensures
        res.0@ == merge_bids_spec(rows@, incoming@, now),
        res.1 == (res.0@.len() > rows@.len()),
        res.0@.take(rows@.len() as int) == rows@,
{
    let ghost rows0 = rows@;
    let old_len = rows.len();
    let mut out = rows;
    let mut j: usize = 0;
    while j < incoming.len()
        invariant
            j <= incoming.len(),
            out@ == merge_bids_spec(rows0, incoming@.take(j as int), now),
            out@.len() >= rows0.len(),
            old_len == rows0.len(),
        decreases incoming.len() - j,
    {
        let r = &incoming[j];
        let last = find_last_known(&out, r.delivery_from, r.delivery_to, &r.bid.product, r.bid.rank);
        let changed = match &last {
            None => true,
            Some(pv) => {
                opt_values_differ(&pv.0, &r.bid.price) || opt_values_differ(&pv.1, &r.bid.volume)
            },
        };
        if changed {
            out.push(
                BidRow {
                    start: r.delivery_from,
                    end: r.delivery_to,
                    product: r.bid.product.clone(),
                    rank: r.bid.rank,
                    price: r.bid.price,
                    volume: r.bid.volume,
                    scraped_at: now,
                },
            );
        }
        proof {
            assert(incoming@.take(j as int).push(incoming@[j as int]) =~= incoming@.take(
                j as int + 1,
            ));
            lemma_merge_bids_unroll(rows0, incoming@.take(j as int), incoming@[j as int], now);
        }
        j = j + 1;
    }
    proof {
        assert(incoming@.take(incoming@.len() as int) =~= incoming@);
        lemma_merge_bids_append_only(rows0, incoming@, now);
    }
    let changed_any = out.len() > old_len;
    (out, changed_any)
}

} // verus!
