use vstd::prelude::*;

use crate::numeric::{value_changed, values_differ};

verus! {

/// One metric of a values reading: a metric name and the value's 64-bit
/// float bit pattern.
pub struct Metric {
    pub name: String,
    pub bits: u64,
}

/// One incoming values observation for a delivery interval, instants in
/// microseconds since the Unix epoch.
pub struct ValuesReading {
    pub delivery_from: i64,
    pub delivery_to: i64,
    pub metrics: Vec<Metric>,
}

/// One stored row of a values partition: the delivery interval, the instant
/// of the last observed change (zero when never changed), and the metric
/// cells accumulated for that interval.
pub struct ValuesRow {
    pub start: i64,
    pub end: i64,
    pub scraped_at: i64,
    pub cells: Vec<Metric>,
}

/// The mathematical model of a metric cell.
pub struct CellModel {
    pub name: Seq<char>,
    pub bits: u64,
}

/// The mathematical model of a stored row.
pub struct RowModel {
    pub start: i64,
    pub end: i64,
    pub scraped_at: i64,
    pub cells: Seq<CellModel>,
}

/// The mathematical model of an incoming values reading.
pub struct ReadingModel {
    pub delivery_from: i64,
    pub delivery_to: i64,
    pub metrics: Seq<CellModel>,
}

impl DeepView for Metric {
    type V = CellModel;

    open spec fn deep_view(&self) -> CellModel {
        CellModel { name: self.name@, bits: self.bits }
    }
}

impl DeepView for ValuesRow {
    type V = RowModel;

    open spec fn deep_view(&self) -> RowModel {
        RowModel {
            start: self.start,
            end: self.end,
            scraped_at: self.scraped_at,
            cells: self.cells.deep_view(),
        }
    }
}

impl DeepView for ValuesReading {
    type V = ReadingModel;

    open spec fn deep_view(&self) -> ReadingModel {
        ReadingModel {
            delivery_from: self.delivery_from,
            delivery_to: self.delivery_to,
            metrics: self.metrics.deep_view(),
        }
    }
}

/// The position of the first cell carrying the given metric name, or -1.
pub open spec fn cell_index(cs: Seq<CellModel>, name: Seq<char>) -> int
    decreases cs.len(),
{
    if cs.len() == 0 {
        -1
    } else if cs.first().name == name {
        0
    } else {
        let r = cell_index(cs.drop_first(), name);
        if r < 0 {
            -1
        } else {
            r + 1
        }
    }
}

/// The stored value for a metric name, or `None` when the row never saw it.
pub open spec fn cell_value(cs: Seq<CellModel>, name: Seq<char>) -> Option<u64> {
    let i = cell_index(cs, name);
    if i < 0 {
        None
    } else {
        Some(cs[i].bits)
    }
}

/// Whether one incoming metric counts as a change against the stored cells:
/// a name the row never saw, or a stored value that differs by more than the
/// near-zero tolerance.
pub open spec fn cell_change(cs: Seq<CellModel>, m: CellModel) -> bool {
    match cell_value(cs, m.name) {
        None => true,
        Some(old_bits) => value_changed(old_bits, m.bits),
    }
}

/// Whether any metric of an incoming reading counts as a change against the
/// stored cells.
pub open spec fn cells_change(cs: Seq<CellModel>, ms: Seq<CellModel>) -> bool {
    exists|k: int| 0 <= k < ms.len() && cell_change(cs, ms[k])
}

/// Whether an incoming reading counts as a change against its row: some
/// incoming metric name is absent from the row, or some incoming value
/// differs from the stored one beyond the near-zero tolerance. A row whose
/// change instant was never recorded is treated like any other: identical
/// values leave it untouched.
pub open spec fn row_takes_change(row: RowModel, ms: Seq<CellModel>) -> bool {
    cells_change(row.cells, ms)
}

/// One metric upserted into the cells: the first cell of that name is
/// overwritten, a new name is appended.
pub open spec fn upsert_cell(cs: Seq<CellModel>, m: CellModel) -> Seq<CellModel> {
    let i = cell_index(cs, m.name);
    if i < 0 {
        cs.push(m)
    } else {
        cs.update(i, m)
    }
}

/// All metrics of a reading upserted in order; metrics the reading does not
/// carry are left untouched.
pub open spec fn upsert_cells(cs: Seq<CellModel>, ms: Seq<CellModel>) -> Seq<CellModel>
    decreases ms.len(),
{
    if ms.len() == 0 {
        cs
    } else {
        upsert_cells(upsert_cell(cs, ms.first()), ms.drop_first())
    }
}

/// The position of the row for a delivery interval, or -1.
pub open spec fn row_index(rows: Seq<RowModel>, s: i64, e: i64) -> int
    decreases rows.len(),
{
    if rows.len() == 0 {
        -1
    } else if rows.first().start == s && rows.first().end == e {
        0
    } else {
        let r = row_index(rows.drop_first(), s, e);
        if r < 0 {
            -1
        } else {
            r + 1
        }
    }
}

/// One merge step. A reading for an unseen interval creates its row, which
/// counts as changed; a reading for a stored row counts as changed when any
/// incoming metric differs. A changed row takes the instant of the merge and
/// all incoming metric values; an unchanged row is left untouched.
pub open spec fn apply_values_reading(rows: Seq<RowModel>, r: ReadingModel, now: i64) -> (
    Seq<RowModel>,
    bool,
) {
    let i = row_index(rows, r.delivery_from, r.delivery_to);
    if i < 0 {
        let created = RowModel {
            start: r.delivery_from,
            end: r.delivery_to,
            scraped_at: now,
            cells: upsert_cells(Seq::empty(), r.metrics),
        };
        (rows.push(created), true)
    } else {
        let row = rows[i];
        if row_takes_change(row, r.metrics) {
            let updated = RowModel {
                start: row.start,
                end: row.end,
                scraped_at: now,
                cells: upsert_cells(row.cells, r.metrics),
            };
            (rows.update(i, updated), true)
        } else {
            (rows, false)
        }
    }
}

/// The values merge: each incoming reading in order is folded into the row
/// set; the flag reports whether any reading produced a change.
pub open spec fn merge_values_spec(rows: Seq<RowModel>, inc: Seq<ReadingModel>, now: i64) -> (
    Seq<RowModel>,
    bool,
)
    decreases inc.len(),
{
    if inc.len() == 0 {
        (rows, false)
    } else {
        let step = apply_values_reading(rows, inc.first(), now);
        let rest = merge_values_spec(step.0, inc.drop_first(), now);
        (rest.0, step.1 || rest.1)
    }
}

/// Executable scan for the first cell carrying a metric name.
fn find_cell(cells: &Vec<Metric>, name: &String) -> (r: Option<usize>)
    ensures
        match r {
            Some(i) => i < cells@.len() && cell_index(cells.deep_view(), name@) == i as int,
            None => cell_index(cells.deep_view(), name@) == -1,
        },
{
    let ghost cs = cells.deep_view();
    let mut i: usize = 0;
    proof {
        assert(cs.skip(0) =~= cs);
    }
    while i < cells.len()
        invariant
            i <= cells@.len(),
            cs == cells.deep_view(),
            cs.len() == cells@.len(),
            cell_index(cs, name@) == (if cell_index(cs.skip(i as int), name@) < 0 {
                -1int
            } else {
                i + cell_index(cs.skip(i as int), name@)
            }),
        decreases cells@.len() - i,
    {
        proof {
            assert(cs.skip(i as int).first() == cs[i as int]);
            assert(cs.skip(i as int).drop_first() =~= cs.skip(i as int + 1));
        }
        if cells[i].name == *name {
            return Some(i);
        }
        i = i + 1;
    }
    proof {
        assert(cs.skip(cs.len() as int) =~= Seq::<CellModel>::empty());
    }
    None
}

/// Executable scan for the row of a delivery interval.
fn find_row(rows: &Vec<ValuesRow>, s: i64, e: i64) -> (r: Option<usize>)
    ensures
        match r {
            Some(i) => i < rows@.len() && row_index(rows.deep_view(), s, e) == i as int,
            None => row_index(rows.deep_view(), s, e) == -1,
        },
{
    let ghost rs = rows.deep_view();
    let mut i: usize = 0;
    proof {
        assert(rs.skip(0) =~= rs);
    }
    while i < rows.len()
        invariant
            i <= rows@.len(),
            rs == rows.deep_view(),
            rs.len() == rows@.len(),
            row_index(rs, s, e) == (if row_index(rs.skip(i as int), s, e) < 0 {
                -1int
            } else {
                i + row_index(rs.skip(i as int), s, e)
            }),
        decreases rows@.len() - i,
    {
        proof {
            assert(rs.skip(i as int).first() == rs[i as int]);
            assert(rs.skip(i as int).drop_first() =~= rs.skip(i as int + 1));
        }
        if rows[i].start == s && rows[i].end == e {
            return Some(i);
        }
        i = i + 1;
    }
    proof {
        assert(rs.skip(rs.len() as int) =~= Seq::<RowModel>::empty());
    }
    None
}

/// Executable change test of one reading's metrics against stored cells.
fn metrics_change(cells: &Vec<Metric>, ms: &Vec<Metric>) -> (r: bool)
    ensures
        r == cells_change(cells.deep_view(), ms.deep_view()),
{
    let ghost cs = cells.deep_view();
    let ghost msv = ms.deep_view();
    let mut k: usize = 0;
    while k < ms.len()
        invariant
            k <= ms@.len(),
            cs == cells.deep_view(),
            msv == ms.deep_view(),
            msv.len() == ms@.len(),
            forall|k2: int| 0 <= k2 < k ==> !cell_change(cs, msv[k2]),
        decreases ms@.len() - k,
    {
        let m = &ms[k];
        let changed = match find_cell(cells, &m.name) {
            None => true,
            Some(i) => values_differ(cells[i].bits, m.bits),
        };
        if changed {
            assert(cell_change(cs, msv[k as int]));
            return true;
        }
        k = k + 1;
    }
    false
}

/// Executable upsert of one reading's metrics into a row's cells.
fn upsert_metrics(cells: &mut Vec<Metric>, ms: &Vec<Metric>)
    ensures
        final(cells).deep_view() == upsert_cells(old(cells).deep_view(), ms.deep_view()),
{
    let ghost cs0 = old(cells).deep_view();
    let ghost msv = ms.deep_view();
    let mut k: usize = 0;
    proof {
        assert(msv.skip(0) =~= msv);
    }
    while k < ms.len()
        invariant
            k <= ms@.len(),
            msv == ms.deep_view(),
            msv.len() == ms@.len(),
            upsert_cells(cs0, msv) == upsert_cells(cells.deep_view(), msv.skip(k as int)),
        decreases ms@.len() - k,
    {
        let ghost pre = cells.deep_view();
        proof {
            assert(msv.skip(k as int).first() == msv[k as int]);
            assert(msv.skip(k as int).drop_first() =~= msv.skip(k as int + 1));
        }
        let m = &ms[k];
        let updated = Metric { name: m.name.clone(), bits: m.bits };
        match find_cell(cells, &m.name) {
            None => {
                cells.push(updated);
            },
            Some(i) => {
                cells.remove(i);
                cells.insert(i, updated);
            },
        }
        proof {
            assert(cells.deep_view() =~= upsert_cell(pre, msv[k as int]));
        }
        k = k + 1;
    }
    proof {
        assert(msv.skip(msv.len() as int) =~= Seq::<CellModel>::empty());
    }
}

/// One reading folded into the row set, as `apply_values_reading` says.
fn apply_one_reading(rows: &mut Vec<ValuesRow>, r: &ValuesReading, now: i64) -> (ch: bool)
    ensures
        (final(rows).deep_view(), ch) == apply_values_reading(
            old(rows).deep_view(),
            r.deep_view(),
            now,
        ),
{
    let ghost rs0 = old(rows).deep_view();
    match find_row(rows, r.delivery_from, r.delivery_to) {
        None => {
            let mut cells: Vec<Metric> = Vec::new();
            proof {
                assert(cells.deep_view() =~= Seq::<CellModel>::empty());
            }
            upsert_metrics(&mut cells, &r.metrics);
            rows.push(
                ValuesRow { start: r.delivery_from, end: r.delivery_to, scraped_at: now, cells },
            );
            proof {
                assert(rows.deep_view() =~= apply_values_reading(rs0, r.deep_view(), now).0);
            }
            true
        },
        Some(i) => {
            let changed = metrics_change(&rows[i].cells, &r.metrics);
            if changed {
                let mut row = rows.remove(i);
                row.scraped_at = now;
                upsert_metrics(&mut row.cells, &r.metrics);
                rows.insert(i, row);
                proof {
                    assert(rows.deep_view() =~= apply_values_reading(rs0, r.deep_view(), now).0);
                }
                true
            } else {
                proof {
                    assert(rows.deep_view() =~= apply_values_reading(rs0, r.deep_view(), now).0);
                }
                false
            }
        },
    }
}

/// Merges incoming values readings into the stored rows. A reading counts as
/// changed exactly as `apply_values_reading` says: a new interval, a metric
/// name the row never saw, or a value differing by more than the near-zero
/// tolerance. Changed rows take the given instant and the incoming values;
/// unchanged rows and metrics absent from the incoming reading are left
/// untouched. Returns whether any reading produced a change.
pub fn merge_values(rows: &mut Vec<ValuesRow>, incoming: &Vec<ValuesReading>, now: i64) -> (ch:
    bool)
    ensures
        (final(rows).deep_view(), ch) == merge_values_spec(
            old(rows).deep_view(),
            incoming.deep_view(),
            now,
        ),
{
    let ghost rs0 = old(rows).deep_view();
    let ghost incv = incoming.deep_view();
    let mut changed = false;
    let mut j: usize = 0;
    proof {
        assert(incv.skip(0) =~= incv);
    }
    while j < incoming.len()
        invariant
            j <= incoming@.len(),
            incv == incoming.deep_view(),
            incv.len() == incoming@.len(),
            merge_values_spec(rs0, incv, now).0 == merge_values_spec(
                rows.deep_view(),
                incv.skip(j as int),
                now,
            ).0,
            merge_values_spec(rs0, incv, now).1 == (changed || merge_values_spec(
                rows.deep_view(),
                incv.skip(j as int),
                now,
            ).1),
        decreases incoming@.len() - j,
    {
        proof {
            assert(incv.skip(j as int).first() == incv[j as int]);
            assert(incv.skip(j as int).drop_first() =~= incv.skip(j as int + 1));
        }
        let r = &incoming[j];
        let ch = apply_one_reading(rows, r, now);
        changed = changed || ch;
        j = j + 1;
    }
    proof {
        assert(incv.skip(incv.len() as int) =~= Seq::<ReadingModel>::empty());
    }
    changed
}

} // verus!
