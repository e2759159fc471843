use vstd::prelude::*;

use crate::bids::{
    appended_row, apply_bid, bid_is_change, merge_bids_spec, row_matches_key, BidReading, BidRow,
};
use crate::values::{
    apply_values_reading, cell_change, cell_index, cell_value, cells_change, merge_values_spec,
    row_index, row_takes_change, upsert_cell, upsert_cells, CellModel, ReadingModel, RowModel,
};

verus! {

/// The delivery-interval key of a values reading.
pub open spec fn reading_key(r: ReadingModel) -> (i64, i64) {
    (r.delivery_from, r.delivery_to)
}

/// No two readings of a batch share a delivery interval.
pub open spec fn distinct_intervals(inc: Seq<ReadingModel>) -> bool {
    forall|i: int, j: int|
        0 <= i < j < inc.len() ==> reading_key(#[trigger] inc[i]) != reading_key(#[trigger] inc[j])
}

/// No metric name occurs twice in one reading.
pub open spec fn distinct_metric_names(ms: Seq<CellModel>) -> bool {
    forall|i: int, j: int| 0 <= i < j < ms.len() ==> (#[trigger] ms[i]).name != (#[trigger] ms[j]).name
}

/// Every reading of the batch carries each metric name at most once.
pub open spec fn wf_readings(inc: Seq<ReadingModel>) -> bool {
    forall|i: int| 0 <= i < inc.len() ==> distinct_metric_names((#[trigger] inc[i]).metrics)
}

/// The rows have taken a reading in: its row exists and none of the
/// reading's metrics counts as a change against it.
pub open spec fn absorbed(rows: Seq<RowModel>, r: ReadingModel) -> bool {
    let i = row_index(rows, r.delivery_from, r.delivery_to);
    0 <= i < rows.len() && forall|k: int|
        0 <= k < r.metrics.len() ==> !cell_change(rows[i].cells, #[trigger] r.metrics[k])
}

/// A found row carries the searched interval, and nothing before it does; a
/// miss means no row does.
proof fn lemma_row_index_props(rows: Seq<RowModel>, s: i64, e: i64)
    ensures
        row_index(rows, s, e) >= 0 ==> {
            let i = row_index(rows, s, e);
            i < rows.len() && rows[i].start == s && rows[i].end == e
        },
        row_index(rows, s, e) < 0 ==> forall|j: int|
            0 <= j < rows.len() ==> !((#[trigger] rows[j]).start == s && rows[j].end == e),
    decreases rows.len(),
{
    if rows.len() > 0 {
        lemma_row_index_props(rows.drop_first(), s, e);
        if !(rows.first().start == s && rows.first().end == e) {
            if row_index(rows, s, e) < 0 {
                assert forall|j: int| 0 <= j < rows.len() implies !((#[trigger] rows[j]).start == s
                    && rows[j].end == e) by {
                    if j > 0 {
                        assert(rows.drop_first()[j - 1] == rows[j]);
                    }
                }
            }
        }
    }
}

/// Replacing a row with one of the same interval moves no search result.
proof fn lemma_row_index_update_keep(rows: Seq<RowModel>, j: int, g: RowModel, s: i64, e: i64)
    requires
        0 <= j < rows.len(),
        g.start == rows[j].start,
        g.end == rows[j].end,
    ensures
        row_index(rows.update(j, g), s, e) == row_index(rows, s, e),
    decreases rows.len(),
{
    if j == 0 {
        assert(rows.update(0, g).drop_first() =~= rows.drop_first());
        assert(rows.update(0, g).first() == g);
    } else {
        assert(rows.update(j, g).drop_first() =~= rows.drop_first().update(j - 1, g));
        assert(rows.update(j, g).first() == rows.first());
        lemma_row_index_update_keep(rows.drop_first(), j - 1, g, s, e);
    }
}

/// Appending a row leaves a found search result in place; a missed interval
/// is found at the end exactly when the new row carries it.
proof fn lemma_row_index_push(rows: Seq<RowModel>, g: RowModel, s: i64, e: i64)
    ensures
        row_index(rows, s, e) >= 0 ==> row_index(rows.push(g), s, e) == row_index(rows, s, e),
        row_index(rows, s, e) < 0 ==> row_index(rows.push(g), s, e) == (if g.start == s && g.end
            == e {
            rows.len() as int
        } else {
            -1int
        }),
    decreases rows.len(),
{
    if rows.len() == 0 {
        assert(rows.push(g).first() == g);
        assert(rows.push(g).drop_first() =~= Seq::<RowModel>::empty());
        assert(row_index(Seq::<RowModel>::empty(), s, e) == -1);
        if g.start == s && g.end == e {
            assert(row_index(rows.push(g), s, e) == 0);
        } else {
            assert(row_index(rows.push(g), s, e) == -1);
        }
    } else {
        assert(rows.push(g).first() == rows.first());
        assert(rows.push(g).drop_first() =~= rows.drop_first().push(g));
        lemma_row_index_push(rows.drop_first(), g, s, e);
        if !(rows.first().start == s && rows.first().end == e) {
            assert(row_index(rows, s, e) == (if row_index(rows.drop_first(), s, e) < 0 {
                -1int
            } else {
                row_index(rows.drop_first(), s, e) + 1
            }));
            assert(row_index(rows.push(g), s, e) == (if row_index(
                rows.drop_first().push(g),
                s,
                e,
            ) < 0 {
                -1int
            } else {
                row_index(rows.drop_first().push(g), s, e) + 1
            }));
        }
    }
}

/// The analogous search facts for metric cells.
proof fn lemma_cell_index_props(cs: Seq<CellModel>, name: Seq<char>)
    ensures
        cell_index(cs, name) >= 0 ==> {
            let i = cell_index(cs, name);
            i < cs.len() && cs[i].name == name
        },
        cell_index(cs, name) < 0 ==> forall|j: int|
            0 <= j < cs.len() ==> (#[trigger] cs[j]).name != name,
    decreases cs.len(),
{
    if cs.len() > 0 {
        lemma_cell_index_props(cs.drop_first(), name);
        if cs.first().name != name {
            if cell_index(cs, name) < 0 {
                assert forall|j: int| 0 <= j < cs.len() implies (#[trigger] cs[j]).name != name by {
                    if j > 0 {
                        assert(cs.drop_first()[j - 1] == cs[j]);
                    }
                }
            }
        }
    }
}

/// Replacing a cell with one of the same name moves no search result.
proof fn lemma_cell_index_update_keep(cs: Seq<CellModel>, j: int, m: CellModel, name: Seq<char>)
    requires
        0 <= j < cs.len(),
        m.name == cs[j].name,
    ensures
        cell_index(cs.update(j, m), name) == cell_index(cs, name),
    decreases cs.len(),
{
    if j == 0 {
        assert(cs.update(0, m).drop_first() =~= cs.drop_first());
        assert(cs.update(0, m).first() == m);
    } else {
        assert(cs.update(j, m).drop_first() =~= cs.drop_first().update(j - 1, m));
        assert(cs.update(j, m).first() == cs.first());
        lemma_cell_index_update_keep(cs.drop_first(), j - 1, m, name);
    }
}

/// Appending a cell leaves a found name in place; a missed name is found at
/// the end exactly when the new cell carries it.
proof fn lemma_cell_index_push(cs: Seq<CellModel>, m: CellModel, name: Seq<char>)
    ensures
        cell_index(cs, name) >= 0 ==> cell_index(cs.push(m), name) == cell_index(cs, name),
        cell_index(cs, name) < 0 ==> cell_index(cs.push(m), name) == (if m.name == name {
            cs.len() as int
        } else {
            -1int
        }),
    decreases cs.len(),
{
    if cs.len() == 0 {
        assert(cs.push(m).first() == m);
        assert(cs.push(m).drop_first() =~= Seq::<CellModel>::empty());
        assert(cell_index(Seq::<CellModel>::empty(), name) == -1);
        if m.name == name {
            assert(cell_index(cs.push(m), name) == 0);
        } else {
            assert(cell_index(cs.push(m), name) == -1);
        }
    } else {
        assert(cs.push(m).first() == cs.first());
        assert(cs.push(m).drop_first() =~= cs.drop_first().push(m));
        lemma_cell_index_push(cs.drop_first(), m, name);
        if cs.first().name != name {
            assert(cell_index(cs, name) == (if cell_index(cs.drop_first(), name) < 0 {
                -1int
            } else {
                cell_index(cs.drop_first(), name) + 1
            }));
            assert(cell_index(cs.push(m), name) == (if cell_index(cs.drop_first().push(m), name)
                < 0 {
                -1int
            } else {
                cell_index(cs.drop_first().push(m), name) + 1
            }));
        }
    }
}

/// Upserting a metric stores exactly its value under its name.
proof fn lemma_upsert_cell_same(cs: Seq<CellModel>, m: CellModel)
    ensures
        cell_value(upsert_cell(cs, m), m.name) == Some(m.bits),
{
    lemma_cell_index_props(cs, m.name);
    let i = cell_index(cs, m.name);
    if i < 0 {
        lemma_cell_index_push(cs, m, m.name);
    } else {
        lemma_cell_index_update_keep(cs, i, m, m.name);
    }
}

/// Upserting a metric leaves every other name's value untouched.
proof fn lemma_upsert_cell_other(cs: Seq<CellModel>, m: CellModel, name: Seq<char>)
    requires
        name != m.name,
    ensures
        cell_value(upsert_cell(cs, m), name) == cell_value(cs, name),
{
    lemma_cell_index_props(cs, m.name);
    lemma_cell_index_props(cs, name);
    let i = cell_index(cs, m.name);
    let idx = cell_index(cs, name);
    if i < 0 {
        lemma_cell_index_push(cs, m, name);
        if idx >= 0 {
            assert(cs.push(m)[idx] == cs[idx]);
        }
    } else {
        lemma_cell_index_update_keep(cs, i, m, name);
        if idx >= 0 {
            assert(cs[i].name == m.name);
            assert(cs[idx].name == name);
            assert(i != idx);
            assert(cs.update(i, m)[idx] == cs[idx]);
        }
    }
}

/// Upserting metrics that all carry other names leaves a value untouched.
proof fn lemma_upsert_cells_other(cs: Seq<CellModel>, ms: Seq<CellModel>, name: Seq<char>)
    requires
        forall|j: int| 0 <= j < ms.len() ==> (#[trigger] ms[j]).name != name,
    ensures
        cell_value(upsert_cells(cs, ms), name) == cell_value(cs, name),
    decreases ms.len(),
{
    if ms.len() > 0 {
        lemma_upsert_cell_other(cs, ms.first(), name);
        assert(forall|j: int|
            0 <= j < ms.drop_first().len() ==> #[trigger] ms.drop_first()[j] == ms[j + 1]);
        lemma_upsert_cells_other(upsert_cell(cs, ms.first()), ms.drop_first(), name);
    }
}

/// After upserting a reading's metrics, each of them reads back exactly as
/// sent, provided the reading carries each name once.
proof fn lemma_upsert_cells_lookup(cs: Seq<CellModel>, ms: Seq<CellModel>, k: int)
    requires
        distinct_metric_names(ms),
        0 <= k < ms.len(),
    ensures
        cell_value(upsert_cells(cs, ms), ms[k].name) == Some(ms[k].bits),
    decreases ms.len(),
{
    assert(forall|j: int|
        0 <= j < ms.drop_first().len() ==> #[trigger] ms.drop_first()[j] == ms[j + 1]);
    if k == 0 {
        lemma_upsert_cell_same(cs, ms.first());
        assert(forall|j: int|
            0 <= j < ms.drop_first().len() ==> (#[trigger] ms.drop_first()[j]).name != ms[0].name);
        lemma_upsert_cells_other(upsert_cell(cs, ms.first()), ms.drop_first(), ms[0].name);
    } else {
        assert(distinct_metric_names(ms.drop_first()));
        lemma_upsert_cells_lookup(upsert_cell(cs, ms.first()), ms.drop_first(), k - 1);
    }
}

/// A batch the rows have absorbed merges to no change at all.
proof fn lemma_absorbed_no_change(rows: Seq<RowModel>, r: ReadingModel, now: i64)
    requires
        absorbed(rows, r),
    ensures
        apply_values_reading(rows, r, now) == (rows, false),
{
    let i = row_index(rows, r.delivery_from, r.delivery_to);
    assert(!cells_change(rows[i].cells, r.metrics)) by {
        if cells_change(rows[i].cells, r.metrics) {
            let k = choose|k: int|
                0 <= k < r.metrics.len() && cell_change(rows[i].cells, #[trigger] r.metrics[k]);
            assert(!cell_change(rows[i].cells, r.metrics[k]));
        }
    }
}

/// One merge step absorbs its reading, whatever the rows held before.
proof fn lemma_apply_absorbs(rows: Seq<RowModel>, r: ReadingModel, now: i64)
    requires
        distinct_metric_names(r.metrics),
    ensures
        absorbed(apply_values_reading(rows, r, now).0, r),
{
    let s = r.delivery_from;
    let e = r.delivery_to;
    lemma_row_index_props(rows, s, e);
    let i = row_index(rows, s, e);
    if i < 0 {
        let created = RowModel {
            start: s,
            end: e,
            scraped_at: now,
            cells: upsert_cells(Seq::empty(), r.metrics),
        };
        lemma_row_index_push(rows, created, s, e);
        let rows2 = rows.push(created);
        assert(rows2[rows.len() as int] == created);
        assert forall|k: int| 0 <= k < r.metrics.len() implies !cell_change(
            created.cells,
            #[trigger] r.metrics[k],
        ) by {
            lemma_upsert_cells_lookup(Seq::empty(), r.metrics, k);
        }
    } else {
        let row = rows[i];
        if row_takes_change(row, r.metrics) {
            let updated = RowModel {
                start: row.start,
                end: row.end,
                scraped_at: now,
                cells: upsert_cells(row.cells, r.metrics),
            };
            lemma_row_index_update_keep(rows, i, updated, s, e);
            let rows2 = rows.update(i, updated);
            assert(rows2[i] == updated);
            assert forall|k: int| 0 <= k < r.metrics.len() implies !cell_change(
                updated.cells,
                #[trigger] r.metrics[k],
            ) by {
                lemma_upsert_cells_lookup(row.cells, r.metrics, k);
            }
        } else {
            assert forall|k: int| 0 <= k < r.metrics.len() implies !cell_change(
                rows[i].cells,
                #[trigger] r.metrics[k],
            ) by {
                assert(!cells_change(rows[i].cells, r.metrics));
            }
        }
    }
}

/// A merge step for a different delivery interval disturbs no absorption.
proof fn lemma_apply_keeps_absorbed(
    rows: Seq<RowModel>,
    r2: ReadingModel,
    now: i64,
    r1: ReadingModel,
)
    requires
        absorbed(rows, r1),
        reading_key(r1) != reading_key(r2),
    ensures
        absorbed(apply_values_reading(rows, r2, now).0, r1),
{
    let s1 = r1.delivery_from;
    let e1 = r1.delivery_to;
    let s2 = r2.delivery_from;
    let e2 = r2.delivery_to;
    let i1 = row_index(rows, s1, e1);
    lemma_row_index_props(rows, s1, e1);
    lemma_row_index_props(rows, s2, e2);
    let i2 = row_index(rows, s2, e2);
    if i2 < 0 {
        let created = RowModel {
            start: s2,
            end: e2,
            scraped_at: now,
            cells: upsert_cells(Seq::empty(), r2.metrics),
        };
        lemma_row_index_push(rows, created, s1, e1);
        assert(rows.push(created)[i1] == rows[i1]);
    } else {
        let row = rows[i2];
        if row_takes_change(row, r2.metrics) {
            let updated = RowModel {
                start: row.start,
                end: row.end,
                scraped_at: now,
                cells: upsert_cells(row.cells, r2.metrics),
            };
            lemma_row_index_update_keep(rows, i2, updated, s1, e1);
            assert(i1 != i2);
            assert(rows.update(i2, updated)[i1] == rows[i1]);
        }
    }
}

/// Folding readings of other delivery intervals disturbs no absorption.
proof fn lemma_fold_keeps_absorbed(
    rows: Seq<RowModel>,
    inc: Seq<ReadingModel>,
    now: i64,
    r1: ReadingModel,
)
    requires
        absorbed(rows, r1),
        forall|j: int| 0 <= j < inc.len() ==> reading_key(#[trigger] inc[j]) != reading_key(r1),
    ensures
        absorbed(merge_values_spec(rows, inc, now).0, r1),
    decreases inc.len(),
{
    if inc.len() > 0 {
        lemma_apply_keeps_absorbed(rows, inc.first(), now, r1);
        assert(forall|j: int|
            0 <= j < inc.drop_first().len() ==> #[trigger] inc.drop_first()[j] == inc[j + 1]);
        lemma_fold_keeps_absorbed(
            apply_values_reading(rows, inc.first(), now).0,
            inc.drop_first(),
            now,
            r1,
        );
    }
}

/// After one merge of a batch with pairwise distinct delivery intervals and
/// metric names, the rows have absorbed every reading of the batch.
proof fn lemma_fold_absorbs_all(rows: Seq<RowModel>, inc: Seq<ReadingModel>, now: i64)
    requires
        distinct_intervals(inc),
        wf_readings(inc),
    ensures
        forall|j: int|
            0 <= j < inc.len() ==> absorbed(merge_values_spec(rows, inc, now).0, #[trigger] inc[j]),
    decreases inc.len(),
{
    if inc.len() > 0 {
        let rows1 = apply_values_reading(rows, inc.first(), now).0;
        assert(forall|j: int|
            0 <= j < inc.drop_first().len() ==> #[trigger] inc.drop_first()[j] == inc[j + 1]);
        lemma_apply_absorbs(rows, inc.first(), now);
        lemma_fold_keeps_absorbed(rows1, inc.drop_first(), now, inc.first());
        lemma_fold_absorbs_all(rows1, inc.drop_first(), now);
        assert forall|j: int| 0 <= j < inc.len() implies absorbed(
            merge_values_spec(rows, inc, now).0,
            #[trigger] inc[j],
        ) by {
            if j > 0 {
                assert(inc.drop_first()[j - 1] == inc[j]);
            }
        }
    }
}

/// Merging a batch the rows have fully absorbed changes nothing.
proof fn lemma_fold_of_absorbed(rows: Seq<RowModel>, inc: Seq<ReadingModel>, now: i64)
    requires
        forall|j: int| 0 <= j < inc.len() ==> absorbed(rows, #[trigger] inc[j]),
    ensures
        merge_values_spec(rows, inc, now) == (rows, false),
    decreases inc.len(),
{
    if inc.len() > 0 {
        lemma_absorbed_no_change(rows, inc.first(), now);
        assert(forall|j: int|
            0 <= j < inc.drop_first().len() ==> #[trigger] inc.drop_first()[j] == inc[j + 1]);
        lemma_fold_of_absorbed(rows, inc.drop_first(), now);
    }
}

/// Merging the same values batch twice in a row reports no change the
/// second time and leaves the rows byte-for-byte as the first merge left
/// them, provided the batch pairs each delivery interval and each metric
/// name with one value.
pub proof fn lemma_values_remerge_unchanged(
    rows: Seq<RowModel>,
    inc: Seq<ReadingModel>,
    t1: i64,
    t2: i64,
)
    requires
        distinct_intervals(inc),
        wf_readings(inc),
    ensures
        merge_values_spec(merge_values_spec(rows, inc, t1).0, inc, t2) == (
            merge_values_spec(rows, inc, t1).0,
            false,
        ),
{
    lemma_fold_absorbs_all(rows, inc, t1);
    lemma_fold_of_absorbed(merge_values_spec(rows, inc, t1).0, inc, t2);
}

/// A values merge that reports no change leaves the rows untouched, so the
/// partition file is not rewritten and its bytes stay identical.
pub proof fn lemma_no_change_no_rewrite(rows: Seq<RowModel>, inc: Seq<ReadingModel>, now: i64)
    ensures
        !merge_values_spec(rows, inc, now).1 ==> merge_values_spec(rows, inc, now).0 == rows,
    decreases inc.len(),
{
    if inc.len() > 0 {
        let step = apply_values_reading(rows, inc.first(), now);
        lemma_no_change_no_rewrite(step.0, inc.drop_first(), now);
        if !merge_values_spec(rows, inc, now).1 {
            assert(!step.1);
            assert(step.0 == rows);
        }
    }
}

/// No two rows of a values partition share a delivery interval.
pub open spec fn rows_unique(rows: Seq<RowModel>) -> bool {
    forall|i: int, j: int|
        0 <= i < j < rows.len() ==> !((#[trigger] rows[i]).start == (#[trigger] rows[j]).start
            && rows[i].end == rows[j].end)
}

/// One merge step keeps the rows compacted to one row per interval: a
/// reading either updates its interval's single row or creates the first
/// row for an unseen interval.
proof fn lemma_apply_keeps_unique(rows: Seq<RowModel>, r: ReadingModel, now: i64)
    requires
        rows_unique(rows),
    ensures
        rows_unique(apply_values_reading(rows, r, now).0),
{
    let s = r.delivery_from;
    let e = r.delivery_to;
    lemma_row_index_props(rows, s, e);
    let i = row_index(rows, s, e);
    if i < 0 {
        let rows2 = apply_values_reading(rows, r, now).0;
        assert forall|a: int, b: int| 0 <= a < b < rows2.len() implies !((
        #[trigger] rows2[a]).start == (#[trigger] rows2[b]).start && rows2[a].end
            == rows2[b].end) by {
            if b == rows.len() {
                assert(rows2[a] == rows[a]);
                assert(!(rows[a].start == s && rows[a].end == e));
            } else {
                assert(rows2[a] == rows[a]);
                assert(rows2[b] == rows[b]);
            }
        }
    }
}

/// A values partition holds exactly one row per delivery interval, however
/// many merges it has been through.
pub proof fn lemma_merge_values_keeps_unique(rows: Seq<RowModel>, inc: Seq<ReadingModel>, now: i64)
    requires
        rows_unique(rows),
    ensures
        rows_unique(merge_values_spec(rows, inc, now).0),
    decreases inc.len(),
{
    if inc.len() > 0 {
        lemma_apply_keeps_unique(rows, inc.first(), now);
        lemma_merge_values_keeps_unique(
            apply_values_reading(rows, inc.first(), now).0,
            inc.drop_first(),
            now,
        );
    }
}

/// Every row's cells carry each metric name at most once.
pub open spec fn rows_cells_distinct(rows: Seq<RowModel>) -> bool {
    forall|i: int| 0 <= i < rows.len() ==> distinct_metric_names((#[trigger] rows[i]).cells)
}

/// One upsert never duplicates a metric name.
proof fn lemma_upsert_cell_distinct(cs: Seq<CellModel>, m: CellModel)
    requires
        distinct_metric_names(cs),
    ensures
        distinct_metric_names(upsert_cell(cs, m)),
{
    lemma_cell_index_props(cs, m.name);
    let i = cell_index(cs, m.name);
    let cs2 = upsert_cell(cs, m);
    if i < 0 {
        assert forall|a: int, b: int| 0 <= a < b < cs2.len() implies (#[trigger] cs2[a]).name != (
        #[trigger] cs2[b]).name by {
            if b == cs.len() {
                assert(cs2[a] == cs[a]);
                assert(cs[a].name != m.name);
            } else {
                assert(cs2[a] == cs[a]);
                assert(cs2[b] == cs[b]);
            }
        }
    } else {
        assert forall|a: int, b: int| 0 <= a < b < cs2.len() implies (#[trigger] cs2[a]).name != (
        #[trigger] cs2[b]).name by {
            assert(cs2[a] == (if a == i {
                m
            } else {
                cs[a]
            }));
            assert(cs2[b] == (if b == i {
                m
            } else {
                cs[b]
            }));
            assert(cs[i].name == m.name);
        }
    }
}

/// Upserting a whole reading never duplicates a metric name.
proof fn lemma_upsert_cells_distinct(cs: Seq<CellModel>, ms: Seq<CellModel>)
    requires
        distinct_metric_names(cs),
    ensures
        distinct_metric_names(upsert_cells(cs, ms)),
    decreases ms.len(),
{
    if ms.len() > 0 {
        lemma_upsert_cell_distinct(cs, ms.first());
        lemma_upsert_cells_distinct(upsert_cell(cs, ms.first()), ms.drop_first());
    }
}

/// One merge step keeps every row's metric names free of duplicates.
proof fn lemma_apply_keeps_cells_distinct(rows: Seq<RowModel>, r: ReadingModel, now: i64)
    requires
        rows_cells_distinct(rows),
    ensures
        rows_cells_distinct(apply_values_reading(rows, r, now).0),
{
    let i = row_index(rows, r.delivery_from, r.delivery_to);
    lemma_row_index_props(rows, r.delivery_from, r.delivery_to);
    let rows2 = apply_values_reading(rows, r, now).0;
    if i < 0 {
        assert(distinct_metric_names(Seq::<CellModel>::empty()));
        lemma_upsert_cells_distinct(Seq::empty(), r.metrics);
        assert forall|j: int| 0 <= j < rows2.len() implies distinct_metric_names(
            (#[trigger] rows2[j]).cells,
        ) by {
            if j < rows.len() {
                assert(rows2[j] == rows[j]);
            }
        }
    } else {
        if row_takes_change(rows[i], r.metrics) {
            lemma_upsert_cells_distinct(rows[i].cells, r.metrics);
            assert forall|j: int| 0 <= j < rows2.len() implies distinct_metric_names(
                (#[trigger] rows2[j]).cells,
            ) by {
                if j != i {
                    assert(rows2[j] == rows[j]);
                }
            }
        }
    }
}

/// A values partition never lists a metric name twice for one row, however
/// many merges it has been through: the column set stays unambiguous.
pub proof fn lemma_merge_values_keeps_cells_distinct(
    rows: Seq<RowModel>,
    inc: Seq<ReadingModel>,
    now: i64,
)
    requires
        rows_cells_distinct(rows),
    ensures
        rows_cells_distinct(merge_values_spec(rows, inc, now).0),
    decreases inc.len(),
{
    if inc.len() > 0 {
        lemma_apply_keeps_cells_distinct(rows, inc.first(), now);
        lemma_merge_values_keeps_cells_distinct(
            apply_values_reading(rows, inc.first(), now).0,
            inc.drop_first(),
            now,
        );
    }
}

/// The key of a bid observation: the delivery interval, product and rank.
pub open spec fn bid_key(b: BidReading) -> (i64, i64, Seq<char>, i32) {
    (b.delivery_from, b.delivery_to, b.bid.product@, b.bid.rank)
}

/// No two bid observations of a batch share a key.
pub open spec fn distinct_bid_keys(bs: Seq<BidReading>) -> bool {
    forall|i: int, j: int|
        0 <= i < j < bs.len() ==> bid_key(#[trigger] bs[i]) != bid_key(#[trigger] bs[j])
}

/// One merge step leaves its bid no longer counting as a change.
proof fn lemma_bid_apply_absorbs(rows: Seq<BidRow>, b: BidReading, now: i64)
    ensures
        !bid_is_change(apply_bid(rows, b, now), b),
{
    if bid_is_change(rows, b) {
        let rows2 = rows.push(appended_row(b, now));
        assert(rows2.last() == appended_row(b, now));
        assert(row_matches_key(
            rows2.last(),
            b.delivery_from,
            b.delivery_to,
            b.bid.product@,
            b.bid.rank,
        ));
    }
}

/// A merge step for a bid of another key moves no last known value.
proof fn lemma_bid_apply_keeps(rows: Seq<BidRow>, b2: BidReading, now: i64, b1: BidReading)
    requires
        !bid_is_change(rows, b1),
        bid_key(b1) != bid_key(b2),
    ensures
        !bid_is_change(apply_bid(rows, b2, now), b1),
{
    if bid_is_change(rows, b2) {
        let rows2 = rows.push(appended_row(b2, now));
        assert(rows2.last() == appended_row(b2, now));
        assert(!row_matches_key(
            rows2.last(),
            b1.delivery_from,
            b1.delivery_to,
            b1.bid.product@,
            b1.bid.rank,
        ));
        assert(rows2.drop_last() =~= rows);
    }
}

/// Folding bids of other keys keeps an absorbed bid absorbed.
proof fn lemma_bid_fold_keeps(rows: Seq<BidRow>, bs: Seq<BidReading>, now: i64, b1: BidReading)
    requires
        !bid_is_change(rows, b1),
        forall|j: int| 0 <= j < bs.len() ==> bid_key(#[trigger] bs[j]) != bid_key(b1),
    ensures
        !bid_is_change(merge_bids_spec(rows, bs, now), b1),
    decreases bs.len(),
{
    if bs.len() > 0 {
        lemma_bid_apply_keeps(rows, bs.first(), now, b1);
        assert(forall|j: int|
            0 <= j < bs.drop_first().len() ==> #[trigger] bs.drop_first()[j] == bs[j + 1]);
        lemma_bid_fold_keeps(apply_bid(rows, bs.first(), now), bs.drop_first(), now, b1);
    }
}

/// After one merge of a batch with pairwise distinct keys, no bid of the
/// batch counts as a change any more.
proof fn lemma_bid_fold_absorbs_all(rows: Seq<BidRow>, bs: Seq<BidReading>, now: i64)
    requires
        distinct_bid_keys(bs),
    ensures
        forall|j: int|
            0 <= j < bs.len() ==> !bid_is_change(merge_bids_spec(rows, bs, now), #[trigger] bs[j]),
    decreases bs.len(),
{
    if bs.len() > 0 {
        let rows1 = apply_bid(rows, bs.first(), now);
        assert(forall|j: int|
            0 <= j < bs.drop_first().len() ==> #[trigger] bs.drop_first()[j] == bs[j + 1]);
        lemma_bid_apply_absorbs(rows, bs.first(), now);
        lemma_bid_fold_keeps(rows1, bs.drop_first(), now, bs.first());
        lemma_bid_fold_absorbs_all(rows1, bs.drop_first(), now);
        assert forall|j: int| 0 <= j < bs.len() implies !bid_is_change(
            merge_bids_spec(rows, bs, now),
            #[trigger] bs[j],
        ) by {
            if j > 0 {
                assert(bs.drop_first()[j - 1] == bs[j]);
            }
        }
    }
}

/// Merging a batch no bid of which counts as a change appends nothing.
proof fn lemma_bid_fold_of_absorbed(rows: Seq<BidRow>, bs: Seq<BidReading>, now: i64)
    requires
        forall|j: int| 0 <= j < bs.len() ==> !bid_is_change(rows, #[trigger] bs[j]),
    ensures
        merge_bids_spec(rows, bs, now) == rows,
    decreases bs.len(),
{
    if bs.len() > 0 {
        assert(forall|j: int|
            0 <= j < bs.drop_first().len() ==> #[trigger] bs.drop_first()[j] == bs[j + 1]);
        lemma_bid_fold_of_absorbed(rows, bs.drop_first(), now);
    }
}

/// Merging the same bids batch twice in a row appends nothing the second
/// time: the log is byte-for-byte as the first merge left it, provided the
/// batch holds each (interval, product, rank) key once.
pub proof fn lemma_bids_remerge_unchanged(
    rows: Seq<BidRow>,
    bs: Seq<BidReading>,
    t1: i64,
    t2: i64,
)
    requires
        distinct_bid_keys(bs),
    ensures
        merge_bids_spec(merge_bids_spec(rows, bs, t1), bs, t2) == merge_bids_spec(rows, bs, t1),
{
    lemma_bid_fold_absorbs_all(rows, bs, t1);
    lemma_bid_fold_of_absorbed(merge_bids_spec(rows, bs, t1), bs, t2);
}

} // verus!
