use vstd::prelude::*;

use crate::bids::BidReading;
use crate::tz::{instant_in_range, vienna_ymd, vienna_ymd_of};
use crate::values::ValuesReading;

verus! {

/// A reading that carries the delivery start deciding its partition date.
pub trait Dated {
    /// The delivery start instant, in microseconds since the Unix epoch.
    spec fn start_instant(&self) -> i64;

    /// Reads the delivery start instant.
    fn start_value(&self) -> (r: i64)
        ensures
            r == self.start_instant(),
    ;
}

impl Dated for ValuesReading {
    open spec fn start_instant(&self) -> i64 {
        self.delivery_from
    }

    fn start_value(&self) -> (r: i64)
        ensures
            r == self.start_instant(),
    {
        self.delivery_from
    }
}

impl Dated for BidReading {
    open spec fn start_instant(&self) -> i64 {
        self.delivery_from
    }

    fn start_value(&self) -> (r: i64)
        ensures
            r == self.start_instant(),
    {
        self.delivery_from
    }
}

/// The readings of one partition date, with the calendar date in the
/// reference timezone that keys the partition.
pub struct DateGroup<T> {
    pub year: i32,
    pub month: u32,
    pub day: u32,
    pub readings: Vec<T>,
}

/// The mathematical model of a date group.
pub struct DateGroupModel<T> {
    pub year: i32,
    pub month: u32,
    pub day: u32,
    pub readings: Seq<T>,
}

impl<T> View for DateGroup<T> {
    type V = DateGroupModel<T>;

    open spec fn view(&self) -> DateGroupModel<T> {
        DateGroupModel { year: self.year, month: self.month, day: self.day, readings: self.readings@ }
    }
}

/// The models of a list of groups.
pub open spec fn groups_view<T>(gs: Seq<DateGroup<T>>) -> Seq<DateGroupModel<T>> {
    gs.map_values(|g: DateGroup<T>| g@)
}

/// The position of the group keyed by a calendar date, or -1.
pub open spec fn group_index<T>(gs: Seq<DateGroupModel<T>>, y: i32, m: u32, d: u32) -> int
    decreases gs.len(),
{
    if gs.len() == 0 {
        -1
    } else if gs.first().year == y && gs.first().month == m && gs.first().day == d {
        0
    } else {
        let r = group_index(gs.drop_first(), y, m, d);
        if r < 0 {
            -1
        } else {
            r + 1
        }
    }
}

/// One reading routed to the group of its reference-timezone calendar date:
/// an existing group takes it at its end, an unseen date opens a new group.
pub open spec fn route_reading<T: Dated>(gs: Seq<DateGroupModel<T>>, r: T) -> Seq<
    DateGroupModel<T>,
> {
    let k = vienna_ymd(r.start_instant());
    let i = group_index(gs, k.0, k.1, k.2);
    if i < 0 {
        gs.push(DateGroupModel { year: k.0, month: k.1, day: k.2, readings: seq![r] })
    } else {
        gs.update(
            i,
            DateGroupModel {
                year: gs[i].year,
                month: gs[i].month,
                day: gs[i].day,
                readings: gs[i].readings.push(r),
            },
        )
    }
}

/// All readings routed in order.
pub open spec fn group_fold<T: Dated>(gs: Seq<DateGroupModel<T>>, rs: Seq<T>) -> Seq<
    DateGroupModel<T>,
>
    decreases rs.len(),
{
    if rs.len() == 0 {
        gs
    } else {
        group_fold(route_reading(gs, rs.first()), rs.drop_first())
    }
}

/// Every reading in every group bears the group's calendar date.
pub open spec fn groups_dated<T: Dated>(gs: Seq<DateGroupModel<T>>) -> bool {
    forall|i: int, j: int|
        0 <= i < gs.len() && 0 <= j < gs[i].readings.len() ==> vienna_ymd(
            #[trigger] gs[i].readings[j].start_instant(),
        ) == (gs[i].year, gs[i].month, gs[i].day)
}

/// No two groups share a calendar date.
pub open spec fn groups_distinct<T>(gs: Seq<DateGroupModel<T>>) -> bool {
    forall|i: int, j: int|
        0 <= i < j < gs.len() ==> !(#[trigger] gs[i].year == #[trigger] gs[j].year && gs[i].month
            == gs[j].month && gs[i].day == gs[j].day)
}

/// The total number of readings held by the groups.
pub open spec fn groups_size<T>(gs: Seq<DateGroupModel<T>>) -> int
    decreases gs.len(),
{
    if gs.len() == 0 {
        0
    } else {
        gs.first().readings.len() + groups_size(gs.drop_first())
    }
}

/// A found group carries the searched date; a miss means no group does.
proof fn lemma_group_index_props<T>(gs: Seq<DateGroupModel<T>>, y: i32, m: u32, d: u32)
    ensures
        group_index(gs, y, m, d) >= 0 ==> {
            let i = group_index(gs, y, m, d);
            i < gs.len() && gs[i].year == y && gs[i].month == m && gs[i].day == d
        },
        group_index(gs, y, m, d) < 0 ==> forall|j: int|
            0 <= j < gs.len() ==> !(#[trigger] gs[j].year == y && gs[j].month == m && gs[j].day
                == d),
    decreases gs.len(),
{
    if gs.len() > 0 {
        lemma_group_index_props(gs.drop_first(), y, m, d);
        if !(gs.first().year == y && gs.first().month == m && gs.first().day == d) {
            if group_index(gs, y, m, d) < 0 {
                assert forall|j: int| 0 <= j < gs.len() implies !(#[trigger] gs[j].year == y
                    && gs[j].month == m && gs[j].day == d) by {
                    if j > 0 {
                        assert(gs.drop_first()[j - 1] == gs[j]);
                    }
                }
            }
        }
    }
}

/// Updating one group's readings keeps the sum, except for the one push.
proof fn lemma_groups_size_update<T>(
    gs: Seq<DateGroupModel<T>>,
    i: int,
    g: DateGroupModel<T>,
)
    requires
        0 <= i < gs.len(),
        g.readings.len() == gs[i].readings.len() + 1,
    ensures
        groups_size(gs.update(i, g)) == groups_size(gs) + 1,
    decreases gs.len(),
{
    if i == 0 {
        assert(gs.update(0, g).drop_first() =~= gs.drop_first());
    } else {
        assert(gs.update(i, g).drop_first() =~= gs.drop_first().update(i - 1, g));
        assert(gs.update(i, g).first() == gs.first());
        lemma_groups_size_update(gs.drop_first(), i - 1, g);
    }
}

/// Appending a group adds its readings to the sum.
proof fn lemma_groups_size_push<T>(gs: Seq<DateGroupModel<T>>, g: DateGroupModel<T>)
    ensures
        groups_size(gs.push(g)) == groups_size(gs) + g.readings.len(),
    decreases gs.len(),
{
    if gs.len() == 0 {
        assert(gs.push(g).first() == g);
        assert(gs.push(g).drop_first() =~= Seq::<DateGroupModel<T>>::empty());
        assert(groups_size(Seq::<DateGroupModel<T>>::empty()) == 0);
    } else {
        assert(gs.push(g).drop_first() =~= gs.drop_first().push(g));
        assert(gs.push(g).first() == gs.first());
        lemma_groups_size_push(gs.drop_first(), g);
    }
}

/// Routing one reading keeps the groups dated and distinct and grows the
/// sum by one.
proof fn lemma_route_reading_ok<T: Dated>(gs: Seq<DateGroupModel<T>>, r: T)
    requires
        groups_dated(gs),
        groups_distinct(gs),
    ensures
        groups_dated(route_reading(gs, r)),
        groups_distinct(route_reading(gs, r)),
        groups_size(route_reading(gs, r)) == groups_size(gs) + 1,
{
    let k = vienna_ymd(r.start_instant());
    lemma_group_index_props(gs, k.0, k.1, k.2);
    let i = group_index(gs, k.0, k.1, k.2);
    if i < 0 {
        let g = DateGroupModel { year: k.0, month: k.1, day: k.2, readings: seq![r] };
        lemma_groups_size_push(gs, g);
    } else {
        let g = DateGroupModel {
            year: gs[i].year,
            month: gs[i].month,
            day: gs[i].day,
            readings: gs[i].readings.push(r),
        };
        lemma_groups_size_update(gs, i, g);
    }
}

/// Partitioning readings by date: the groups remain dated and distinct, and
/// together hold exactly the routed readings.
pub proof fn lemma_group_fold_ok<T: Dated>(gs: Seq<DateGroupModel<T>>, rs: Seq<T>)
    requires
        groups_dated(gs),
        groups_distinct(gs),
    ensures
        groups_dated(group_fold(gs, rs)),
        groups_distinct(group_fold(gs, rs)),
        groups_size(group_fold(gs, rs)) == groups_size(gs) + rs.len(),
    decreases rs.len(),
{
    if rs.len() > 0 {
        lemma_route_reading_ok(gs, rs.first());
        lemma_group_fold_ok(route_reading(gs, rs.first()), rs.drop_first());
    }
}

/// Whether a reading's delivery start falls on the given reference-timezone
/// calendar date.
pub open spec fn dated_pred<T: Dated>(y: i32, m: u32, d: u32) -> spec_fn(T) -> bool {
    |r: T| vienna_ymd(r.start_instant()) == (y, m, d)
}

/// The groups hold, for each of their dates, exactly the routed readings of
/// that date in their routed order; a date with no group has no routed
/// reading.
pub open spec fn groups_filtered<T: Dated>(gs: Seq<DateGroupModel<T>>, done: Seq<T>) -> bool {
    (forall|i: int|
        0 <= i < gs.len() ==> (#[trigger] gs[i]).readings == done.filter(
            dated_pred(gs[i].year, gs[i].month, gs[i].day),
        )) && (forall|y: i32, m: u32, d: u32|
        group_index(gs, y, m, d) < 0 ==> #[trigger] done.filter(dated_pred::<T>(y, m, d))
            == Seq::<T>::empty())
}

/// Appending a group leaves found dates in place; a missing date is found
/// at the end exactly when the new group carries it.
proof fn lemma_group_index_push<T>(
    gs: Seq<DateGroupModel<T>>,
    g: DateGroupModel<T>,
    y: i32,
    m: u32,
    d: u32,
)
    ensures
        group_index(gs, y, m, d) >= 0 ==> group_index(gs.push(g), y, m, d) == group_index(
            gs,
            y,
            m,
            d,
        ),
        group_index(gs, y, m, d) < 0 ==> group_index(gs.push(g), y, m, d) == (if g.year == y
            && g.month == m && g.day == d {
            gs.len() as int
        } else {
            -1int
        }),
    decreases gs.len(),
{
    if gs.len() == 0 {
        assert(gs.push(g).first() == g);
        assert(gs.push(g).drop_first() =~= Seq::<DateGroupModel<T>>::empty());
        assert(group_index(Seq::<DateGroupModel<T>>::empty(), y, m, d) == -1);
    } else {
        assert(gs.push(g).first() == gs.first());
        assert(gs.push(g).drop_first() =~= gs.drop_first().push(g));
        lemma_group_index_push(gs.drop_first(), g, y, m, d);
    }
}

/// Replacing a group with one of the same date moves no search result.
proof fn lemma_group_index_update_keep<T>(
    gs: Seq<DateGroupModel<T>>,
    j: int,
    g: DateGroupModel<T>,
    y: i32,
    m: u32,
    d: u32,
)
    requires
        0 <= j < gs.len(),
        g.year == gs[j].year,
        g.month == gs[j].month,
        g.day == gs[j].day,
    ensures
        group_index(gs.update(j, g), y, m, d) == group_index(gs, y, m, d),
    decreases gs.len(),
{
    if j == 0 {
        assert(gs.update(0, g).drop_first() =~= gs.drop_first());
        assert(gs.update(0, g).first() == g);
    } else {
        assert(gs.update(j, g).drop_first() =~= gs.drop_first().update(j - 1, g));
        assert(gs.update(j, g).first() == gs.first());
        lemma_group_index_update_keep(gs.drop_first(), j - 1, g, y, m, d);
    }
}

/// One filter step: appending a reading extends exactly its own date's
/// filtered sequence.
proof fn lemma_filter_push<T: Dated>(done: Seq<T>, r: T, y: i32, m: u32, d: u32)
    ensures
        done.push(r).filter(dated_pred::<T>(y, m, d)) == (if vienna_ymd(r.start_instant()) == (
            y,
            m,
            d,
        ) {
            done.filter(dated_pred::<T>(y, m, d)).push(r)
        } else {
            done.filter(dated_pred::<T>(y, m, d))
        }),
{
    reveal(Seq::filter);
    assert(done.push(r).drop_last() =~= done);
    assert(done.push(r).last() == r);
}

/// Routing one reading keeps the groups' filter characterization.
proof fn lemma_route_filtered<T: Dated>(gs: Seq<DateGroupModel<T>>, done: Seq<T>, r: T)
    requires
        groups_filtered(gs, done),
        groups_distinct(gs),
    ensures
        groups_filtered(route_reading(gs, r), done.push(r)),
{
    let k = vienna_ymd(r.start_instant());
    lemma_group_index_props(gs, k.0, k.1, k.2);
    let i = group_index(gs, k.0, k.1, k.2);
    let gs2 = route_reading(gs, r);
    assert forall|y: i32, m: u32, d: u32| true implies #[trigger] done.push(r).filter(
        dated_pred::<T>(y, m, d),
    ) == (if k == (y, m, d) {
        done.filter(dated_pred::<T>(y, m, d)).push(r)
    } else {
        done.filter(dated_pred::<T>(y, m, d))
    }) by {
        lemma_filter_push(done, r, y, m, d);
    }
    if i < 0 {
        let g = DateGroupModel { year: k.0, month: k.1, day: k.2, readings: seq![r] };
        assert(done.filter(dated_pred::<T>(k.0, k.1, k.2)) == Seq::<T>::empty());
        assert(seq![r] =~= Seq::<T>::empty().push(r));
        assert forall|j: int| 0 <= j < gs2.len() implies (#[trigger] gs2[j]).readings == done.push(
            r,
        ).filter(dated_pred(gs2[j].year, gs2[j].month, gs2[j].day)) by {
            if j < gs.len() {
                assert(gs2[j] == gs[j]);
                assert(!(gs[j].year == k.0 && gs[j].month == k.1 && gs[j].day == k.2));
            } else {
                assert(gs2[j] == g);
            }
        }
        assert forall|y: i32, m: u32, d: u32|
            group_index(gs2, y, m, d) < 0 implies #[trigger] done.push(r).filter(
            dated_pred::<T>(y, m, d),
        ) == Seq::<T>::empty() by {
            lemma_group_index_push(gs, g, y, m, d);
            assert(group_index(gs, y, m, d) < 0);
            assert(!(g.year == y && g.month == m && g.day == d));
        }
    } else {
        let g = DateGroupModel {
            year: gs[i].year,
            month: gs[i].month,
            day: gs[i].day,
            readings: gs[i].readings.push(r),
        };
        assert forall|j: int| 0 <= j < gs2.len() implies (#[trigger] gs2[j]).readings == done.push(
            r,
        ).filter(dated_pred(gs2[j].year, gs2[j].month, gs2[j].day)) by {
            if j == i {
                assert(gs2[j] == g);
            } else {
                assert(gs2[j] == gs[j]);
                assert(!(gs[j].year == k.0 && gs[j].month == k.1 && gs[j].day == k.2));
            }
        }
        assert forall|y: i32, m: u32, d: u32|
            group_index(gs2, y, m, d) < 0 implies #[trigger] done.push(r).filter(
            dated_pred::<T>(y, m, d),
        ) == Seq::<T>::empty() by {
            lemma_group_index_update_keep(gs, i, g, y, m, d);
            assert(group_index(gs, y, m, d) < 0);
            assert(!(k.0 == y && k.1 == m && k.2 == d));
        }
    }
}

/// Folding readings keeps the filter characterization.
proof fn lemma_group_fold_filtered<T: Dated>(
    gs: Seq<DateGroupModel<T>>,
    done: Seq<T>,
    rs: Seq<T>,
)
    requires
        groups_filtered(gs, done),
        groups_distinct(gs),
        groups_dated(gs),
    ensures
        groups_filtered(group_fold(gs, rs), done + rs),
    decreases rs.len(),
{
    if rs.len() == 0 {
        assert(done + rs =~= done);
    } else {
        lemma_route_filtered(gs, done, rs.first());
        lemma_route_reading_ok(gs, rs.first());
        lemma_group_fold_filtered(
            route_reading(gs, rs.first()),
            done.push(rs.first()),
            rs.drop_first(),
        );
        assert(done.push(rs.first()) + rs.drop_first() =~= done + rs);
    }
}

/// The partition of a batch: each group of the routed result holds exactly
/// the batch's readings of its calendar date, in input order.
pub proof fn lemma_groups_are_the_partition<T: Dated>(rs: Seq<T>)
    ensures
        groups_filtered(group_fold(Seq::empty(), rs), rs),
{
    let e = Seq::<DateGroupModel<T>>::empty();
    assert forall|y: i32, m: u32, d: u32| group_index(e, y, m, d) < 0 implies #[trigger] Seq::<
        T,
    >::empty().filter(dated_pred::<T>(y, m, d)) == Seq::<T>::empty() by {
        reveal(Seq::filter);
    }
    lemma_group_fold_filtered(e, Seq::<T>::empty(), rs);
    assert(Seq::<T>::empty() + rs =~= rs);
}

/// Executable scan for the group of a calendar date.
fn find_group<T>(gs: &Vec<DateGroup<T>>, y: i32, m: u32, d: u32) -> (r: Option<usize>)
    ensures
        match r {
            Some(i) => i < gs@.len() && group_index(groups_view(gs@), y, m, d) == i as int,
            None => group_index(groups_view(gs@), y, m, d) == -1,
        },
{
    let ghost gv = groups_view(gs@);
    let mut i: usize = 0;
    proof {
        assert(gv.skip(0) =~= gv);
    }
    while i < gs.len()
        invariant
            i <= gs@.len(),
            gv == groups_view(gs@),
            gv.len() == gs@.len(),
            group_index(gv, y, m, d) == (if group_index(gv.skip(i as int), y, m, d) < 0 {
                -1int
            } else {
                i + group_index(gv.skip(i as int), y, m, d)
            }),
        decreases gs@.len() - i,
    {
        proof {
            assert(gv.skip(i as int).first() == gv[i as int]);
            assert(gv.skip(i as int).drop_first() =~= gv.skip(i as int + 1));
        }
        if gs[i].year == y && gs[i].month == m && gs[i].day == d {
            return Some(i);
        }
        i = i + 1;
    }
    proof {
        assert(gv.skip(gv.len() as int) =~= Seq::<DateGroupModel<T>>::empty());
    }
    None
}

/// Groups readings by the reference-timezone calendar date of their delivery
/// start, in first-encounter order, keeping each group's readings in input
/// order. The date of each reading is computed in the reference timezone, so
/// an instant near a UTC midnight lands on its local date, not its UTC date.
pub fn group_by_date<T: Dated>(readings: Vec<T>) -> (gs: Vec<DateGroup<T>>)
    requires
        forall|i: int| 0 <= i < readings@.len() ==> instant_in_range(
            #[trigger] readings@[i].start_instant(),
        ),
    ensures
        groups_view(gs@) == group_fold(Seq::empty(), readings@),
        groups_dated(groups_view(gs@)),
        groups_distinct(groups_view(gs@)),
        groups_size(groups_view(gs@)) == readings@.len(),
        groups_filtered(groups_view(gs@), readings@),
{
    let ghost rs0 = readings@;
    let mut rest = readings;
    let mut out: Vec<DateGroup<T>> = Vec::new();
    proof {
        assert(groups_view(out@) =~= Seq::<DateGroupModel<T>>::empty());
    }
    while rest.len() > 0
        invariant
            group_fold(Seq::empty(), rs0) == group_fold(groups_view(out@), rest@),
            forall|i: int| 0 <= i < rest@.len() ==> instant_in_range(
                #[trigger] rest@[i].start_instant(),
            ),
        decreases rest@.len(),
    {
        let ghost pre = rest@;
        let ghost gv0 = groups_view(out@);
        let r = rest.remove(0);
        proof {
            assert(pre.drop_first() =~= rest@);
            assert(pre.first() == r);
        }
        let t = r.start_value();
        let (y, m, d) = vienna_ymd_of(t);
        match find_group(&out, y, m, d) {
            None => {
                let mut readings_new: Vec<T> = Vec::new();
                readings_new.push(r);
                out.push(DateGroup { year: y, month: m, day: d, readings: readings_new });
                proof {
                    assert(groups_view(out@) =~= route_reading(gv0, pre.first()));
                }
            },
            Some(i) => {
                let mut g = out.remove(i);
                g.readings.push(r);
                out.insert(i, g);
                proof {
                    assert(groups_view(out@) =~= route_reading(gv0, pre.first()));
                }
            },
        }
    }
    proof {
        lemma_group_fold_ok(Seq::<DateGroupModel<T>>::empty(), rs0);
        lemma_groups_are_the_partition(rs0);
    }
    out
}

} // verus!
