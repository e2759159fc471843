use vstd::prelude::*;

use crate::bids::{Bid, BidReading};
use crate::values::{Metric, ValuesReading};

verus! {

/// The payload of one reading: either a map of metric values or a list of
/// bid levels for the delivery interval.
pub enum Payload {
    Values(Vec<Metric>),
    Bids(Vec<Bid>),
}

/// One observation emitted by a data source for a delivery interval, both
/// instants in microseconds since the Unix epoch.
pub struct Reading {
    pub delivery_from: i64,
    pub delivery_to: i64,
    pub payload: Payload,
}

/// The bid observations of one reading, one per bid level, each carrying the
/// reading's delivery interval.
pub open spec fn bid_readings_of(from: i64, to: i64, bs: Seq<Bid>) -> Seq<BidReading> {
    bs.map_values(
        |b: Bid| BidReading { delivery_from: from, delivery_to: to, bid: b },
    )
}

/// The split of a batch of readings by payload kind: the values readings in
/// order, and the bid observations flattened in order.
pub open spec fn split_spec(rs: Seq<Reading>) -> (Seq<ValuesReading>, Seq<BidReading>)
    decreases rs.len(),
{
    if rs.len() == 0 {
        (Seq::empty(), Seq::empty())
    } else {
        let rest = split_spec(rs.drop_first());
        let r = rs.first();
        match r.payload {
            Payload::Values(ms) => (
                seq![
                    ValuesReading {
                        delivery_from: r.delivery_from,
                        delivery_to: r.delivery_to,
                        metrics: ms,
                    },
                ] + rest.0,
                rest.1,
            ),
            Payload::Bids(bs) => (rest.0, bid_readings_of(r.delivery_from, r.delivery_to, bs@) + rest.1),
        }
    }
}

/// Splits a batch of readings by payload kind, flattening each bids payload
/// into one observation per bid level. Order is kept within each kind.
pub fn split_readings(data: Vec<Reading>) -> (res: (Vec<ValuesReading>, Vec<BidReading>))
    ensures
        (res.0@, res.1@) == split_spec(data@),
{
    let ghost rs0 = data@;
    let mut rest = data;
    let mut out_v: Vec<ValuesReading> = Vec::new();
    let mut out_b: Vec<BidReading> = Vec::new();
    while rest.len() > 0
        invariant
            split_spec(rs0).0 == out_v@ + split_spec(rest@).0,
            split_spec(rs0).1 == out_b@ + split_spec(rest@).1,
        decreases rest@.len(),
    {
        let ghost pre = rest@;
        let r = rest.remove(0);
        proof {
            assert(pre.drop_first() =~= rest@);
            assert(pre.first() == r);
        }
        match r.payload {
            Payload::Values(ms) => {
                out_v.push(
                    ValuesReading {
                        delivery_from: r.delivery_from,
                        delivery_to: r.delivery_to,
                        metrics: ms,
                    },
                );
                proof {
                    assert(split_spec(rs0).0 =~= out_v@ + split_spec(rest@).0);
                }
            },
            Payload::Bids(bs) => {
                let ghost bs0 = bs@;
                let ghost tail = rest@;
                let ghost outb0 = out_b@;
                let from = r.delivery_from;
                let to = r.delivery_to;
                proof {
                    assert(split_spec(rs0).1 == outb0 + bid_readings_of(from, to, bs0)
                        + split_spec(tail).1);
                    assert(bs0.take(0) =~= Seq::<Bid>::empty());
                    assert(bid_readings_of(from, to, bs0.take(0)) =~= Seq::<BidReading>::empty());
                    assert(out_b@ =~= outb0 + bid_readings_of(from, to, bs0.take(0)));
                }
                let mut brest = bs;
                while brest.len() > 0
                    invariant
                        brest@.len() <= bs0.len(),
                        bs0.take(bs0.len() - brest@.len()) + brest@ == bs0,
                        out_b@ == outb0 + bid_readings_of(
                            from,
                            to,
                            bs0.take(bs0.len() - brest@.len()),
                        ),
                        split_spec(rs0).1 == outb0 + bid_readings_of(from, to, bs0) + split_spec(
                            tail,
                        ).1,
                    decreases brest@.len(),
                {
                    let ghost bpre = brest@;
                    let ghost done = bs0.len() - brest@.len();
                    let b = brest.remove(0);
                    proof {
                        assert(bpre.drop_first() =~= brest@);
                        assert(bpre.first() == b);
                    }
                    out_b.push(BidReading { delivery_from: from, delivery_to: to, bid: b });
                    proof {
                        assert(bs0.take(done + 1) =~= bs0.take(done).push(b));
                        assert(bid_readings_of(from, to, bs0.take(done).push(b)) =~= bid_readings_of(
                            from,
                            to,
                            bs0.take(done),
                        ).push(BidReading { delivery_from: from, delivery_to: to, bid: b }));
                        assert(out_b@ =~= outb0 + bid_readings_of(from, to, bs0.take(done + 1)));
                        assert(bs0.take(done + 1) + brest@ =~= bs0);
                    }
                }
                proof {
                    assert(bs0.take(bs0.len() as int) =~= bs0);
                    assert(out_b@ =~= outb0 + bid_readings_of(from, to, bs0));
                    assert(split_spec(rs0).1 =~= out_b@ + split_spec(rest@).1);
                }
            },
        }
    }
    proof {
        assert(split_spec(rest@).0 =~= Seq::<ValuesReading>::empty());
        assert(split_spec(rest@).1 =~= Seq::<BidReading>::empty());
        assert(split_spec(rs0).0 =~= out_v@);
        assert(split_spec(rs0).1 =~= out_b@);
    }
    (out_v, out_b)
}

} // verus!
