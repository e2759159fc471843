use vstd::prelude::*;
use vstd::multiset::Multiset;
use vstd::seq_lib::group_to_multiset_ensures;

use crate::values::{cell_index, cell_value, CellModel, Metric, RowModel, ValuesRow};

verus! {

/// Lexicographic order on character sequences by code point, the order in
/// which the column names of a values partition are laid out.
pub open spec fn lex_lt(a: Seq<char>, b: Seq<char>) -> bool
    decreases a.len(),
{
    if b.len() == 0 {
        false
    } else if a.len() == 0 {
        true
    } else if a.first() as int != b.first() as int {
        (a.first() as int) < (b.first() as int)
    } else {
        lex_lt(a.drop_first(), b.drop_first())
    }
}

/// Exactly one of `a < b`, `a == b`, `b < a` holds.
pub proof fn lemma_lex_trichotomy(a: Seq<char>, b: Seq<char>)
    ensures
        lex_lt(a, b) || lex_lt(b, a) || a == b,
        lex_lt(a, b) ==> !lex_lt(b, a) && a != b,
        lex_lt(b, a) ==> !lex_lt(a, b) && a != b,
    decreases a.len() + b.len(),
{
    if a.len() > 0 && b.len() > 0 {
        if a.first() as int == b.first() as int {
            assert(a.first() == b.first());
            lemma_lex_trichotomy(a.drop_first(), b.drop_first());
            if a.drop_first() == b.drop_first() {
                assert(a.len() == b.len());
                assert forall|i: int| 0 <= i < a.len() implies a[i] == b[i] by {
                    if i > 0 {
                        assert(a.drop_first()[i - 1] == a[i]);
                        assert(b.drop_first()[i - 1] == b[i]);
                    }
                }
                assert(a =~= b);
            }
        }
    }
}

/// The order is transitive.
pub proof fn lemma_lex_transitive(a: Seq<char>, b: Seq<char>, c: Seq<char>)
    requires
        lex_lt(a, b),
        lex_lt(b, c),
    ensures
        lex_lt(a, c),
    decreases a.len() + b.len() + c.len(),
{
    if a.len() > 0 && b.len() > 0 && c.len() > 0 {
        if a.first() == b.first() && b.first() == c.first() {
            lemma_lex_transitive(a.drop_first(), b.drop_first(), c.drop_first());
        }
    }
}

/// Executable lexicographic comparison of strings.
pub fn str_lex_lt(a: &str, b: &str) -> (r: bool)
    ensures
        r == lex_lt(a@, b@),
{
    let al = a.unicode_len();
    let bl = b.unicode_len();
    let mut i: usize = 0;
    proof {
        assert(a@.skip(0) =~= a@);
        assert(b@.skip(0) =~= b@);
    }
    while i < al && i < bl
        invariant
            i <= al,
            i <= bl,
            al == a@.len(),
            bl == b@.len(),
            lex_lt(a@, b@) == lex_lt(a@.skip(i as int), b@.skip(i as int)),
        decreases al - i,
    {
        let ca = a.get_char(i);
        let cb = b.get_char(i);
        proof {
            assert(a@.skip(i as int).first() == a@[i as int]);
            assert(b@.skip(i as int).first() == b@[i as int]);
            assert(a@.skip(i as int).drop_first() =~= a@.skip(i as int + 1));
            assert(b@.skip(i as int).drop_first() =~= b@.skip(i as int + 1));
        }
        if ca != cb {
            let r = (ca as u32) < (cb as u32);
            proof {
                assert(r == ((ca as int) < (cb as int)));
            }
            return r;
        }
        i = i + 1;
    }
    proof {
        if i >= al {
            assert(a@.skip(i as int) =~= Seq::<char>::empty());
        }
        if i >= bl {
            assert(b@.skip(i as int) =~= Seq::<char>::empty());
        }
    }
    i >= al && i < bl
}

/// Whether some row's cells carry the metric name.
pub open spec fn name_in_rows(rs: Seq<RowModel>, n: Seq<char>) -> bool {
    exists|i: int, j: int|
        0 <= i < rs.len() && 0 <= j < rs[i].cells.len() && (#[trigger] rs[i].cells[j]).name == n
}

/// Whether the column list is strictly sorted.
pub open spec fn columns_sorted(cols: Seq<String>) -> bool {
    forall|i: int, j: int| 0 <= i < j < cols.len() ==> lex_lt((#[trigger] cols[i])@, (#[trigger] cols[j])@)
}

/// The views of a column list.
pub open spec fn col_views(cols: Seq<String>) -> Seq<Seq<char>> {
    cols.map_values(|c: String| c@)
}

/// The names a column list holds.
pub open spec fn column_names(cols: Seq<String>) -> Set<Seq<char>> {
    col_views(cols).to_set()
}

/// The position before which a name belongs in a sorted column list.
fn column_pos(cols: &Vec<String>, name: &String) -> (p: usize)
    ensures
        p <= cols@.len(),
        forall|k: int| 0 <= k < p ==> lex_lt((#[trigger] cols@[k])@, name@),
        p < cols@.len() ==> !lex_lt(cols@[p as int]@, name@),
{
    let mut p: usize = 0;
    while p < cols.len()
        invariant
            p <= cols@.len(),
            forall|k: int| 0 <= k < p ==> lex_lt((#[trigger] cols@[k])@, name@),
        decreases cols@.len() - p,
    {
        if !str_lex_lt(cols[p].as_str(), name.as_str()) {
            return p;
        }
        p = p + 1;
    }
    p
}

/// Inserts a name into a strictly sorted column list, keeping it sorted and
/// never duplicating a name already there.
fn insert_column(cols: &mut Vec<String>, name: &String)
    requires
        columns_sorted(old(cols)@),
    ensures
        columns_sorted(final(cols)@),
        column_names(final(cols)@) == column_names(old(cols)@).insert(name@),
{
    let p = column_pos(cols, name);
    if p < cols.len() && cols[p] == *name {
        proof {
            assert(col_views(cols@)[p as int] == name@);
            assert(column_names(cols@).contains(name@));
            assert(column_names(cols@) =~= column_names(old(cols)@).insert(name@));
        }
        return;
    }
    let ghost pre = cols@;
    proof {
        if p < pre.len() {
            lemma_lex_trichotomy(pre[p as int]@, name@);
        }
    }
    cols.insert(p, name.clone());
    proof {
        assert(cols@ == pre.insert(p as int, *name));
        assert forall|i: int, j: int| 0 <= i < j < cols@.len() implies lex_lt(
            (#[trigger] cols@[i])@,
            (#[trigger] cols@[j])@,
        ) by {
            let vi = if i < p {
                pre[i]
            } else if i == p {
                *name
            } else {
                pre[i - 1]
            };
            let vj = if j < p {
                pre[j]
            } else if j == p {
                *name
            } else {
                pre[j - 1]
            };
            assert(cols@[i] == vi);
            assert(cols@[j] == vj);
            if i < p && j == p {
            } else if i == p && j > p {
                if p < pre.len() && j - 1 > p as int {
                    lemma_lex_transitive(name@, pre[p as int]@, pre[j - 1]@);
                }
            } else if i < p && j > p {
            }
        }
        assert forall|x: Seq<char>| #[trigger] column_names(cols@).contains(x) implies column_names(
            pre,
        ).insert(name@).contains(x) by {
            let k = choose|k: int|
                0 <= k < cols@.len() && #[trigger] col_views(cols@)[k] == x;
            if k != p {
                let k0 = if k < p {
                    k
                } else {
                    k - 1
                };
                assert(col_views(pre)[k0] == x);
            }
        }
        assert forall|x: Seq<char>| column_names(pre).insert(name@).contains(x) implies #[trigger] column_names(
            cols@,
        ).contains(x) by {
            if x == name@ {
                assert(col_views(cols@)[p as int] == x);
            } else {
                let k = choose|k: int|
                    0 <= k < pre.len() && #[trigger] col_views(pre)[k] == x;
                let k1 = if k < p {
                    k
                } else {
                    k + 1
                };
                assert(col_views(cols@)[k1] == x);
            }
        }
        assert(column_names(cols@) =~= column_names(pre).insert(name@));
    }
}

/// The alphabetically sorted union of every metric name the rows carry: the
/// value columns a rewritten values partition lays out, after its fixed
/// interval and change-instant columns.
pub fn sorted_columns(rows: &Vec<ValuesRow>) -> (cols: Vec<String>)
    ensures
        columns_sorted(cols@),
        forall|n: Seq<char>| column_names(cols@).contains(n) == name_in_rows(rows.deep_view(), n),
{
    let ghost rs = rows.deep_view();
    let mut cols: Vec<String> = Vec::new();
    proof {
        assert(rows.deep_view().len() == rows@.len());
        assert(column_names(cols@) =~= Set::<Seq<char>>::empty());
    }
    let mut i: usize = 0;
    while i < rows.len()
        invariant
            i <= rows@.len(),
            rs == rows.deep_view(),
            rs.len() == rows@.len(),
            columns_sorted(cols@),
            forall|n: Seq<char>| #[trigger] column_names(cols@).contains(n) == exists|a: int, b: int|
                0 <= a < i && 0 <= b < rs[a].cells.len() && (#[trigger] rs[a].cells[b]).name == n,
        decreases rows@.len() - i,
    {
        let row = &rows[i];
        let ghost cs = rs[i as int].cells;
        let mut j: usize = 0;
        proof {
            assert(row.cells.deep_view() == cs);
        }
        while j < row.cells.len()
            invariant
                j <= row.cells@.len(),
                rs == rows.deep_view(),
                rs.len() == rows@.len(),
                i < rows@.len(),
                row.cells.deep_view() == cs,
                cs == rs[i as int].cells,
                cs.len() == row.cells@.len(),
                columns_sorted(cols@),
                forall|n: Seq<char>| #[trigger] column_names(cols@).contains(n) == ((exists|
                    a: int,
                    b: int,
                |
                    0 <= a < i && 0 <= b < rs[a].cells.len() && (#[trigger] rs[a].cells[b]).name
                        == n) || (exists|b: int| 0 <= b < j && (#[trigger] cs[b]).name == n)),
            decreases row.cells@.len() - j,
        {
            let ghost before = column_names(cols@);
            insert_column(&mut cols, &row.cells[j].name);
            proof {
                assert(cs[j as int].name == row.cells@[j as int].name@);
                assert forall|n: Seq<char>| #[trigger] column_names(cols@).contains(n) implies ((
                exists|a: int, b: int|
                    0 <= a < i && 0 <= b < rs[a].cells.len() && (#[trigger] rs[a].cells[b]).name
                        == n) || (exists|b: int|
                    0 <= b < j + 1 && (#[trigger] cs[b]).name == n)) by {
                    if n == row.cells@[j as int].name@ {
                        assert(cs[j as int].name == n);
                    } else {
                        assert(before.contains(n));
                    }
                }
                assert forall|n: Seq<char>|
                    ((exists|a: int, b: int|
                        0 <= a < i && 0 <= b < rs[a].cells.len() && (
                        #[trigger] rs[a].cells[b]).name == n) || (exists|b: int|
                        0 <= b < j + 1 && (#[trigger] cs[b]).name == n)) implies #[trigger] column_names(
                    cols@,
                ).contains(n) by {
                    if exists|b: int| 0 <= b < j + 1 && (#[trigger] cs[b]).name == n {
                        let b = choose|b: int| 0 <= b < j + 1 && (#[trigger] cs[b]).name == n;
                        if b == j {
                            assert(n == row.cells@[j as int].name@);
                        } else {
                            assert(0 <= b < j && cs[b].name == n);
                            assert(before.contains(n));
                        }
                    } else {
                        assert(before.contains(n));
                    }
                }
            }
            j = j + 1;
        }
        proof {
            assert(j == row.cells@.len());
            assert(cs.len() == row.cells@.len());

            assert forall|n: Seq<char>| #[trigger] column_names(cols@).contains(n) implies exists|
                a: int,
                b: int,
            |
                0 <= a < i + 1 && 0 <= b < rs[a].cells.len() && (#[trigger] rs[a].cells[b]).name
                    == n by {
                if exists|a: int, b: int|
                    0 <= a < i && 0 <= b < rs[a].cells.len() && (#[trigger] rs[a].cells[b]).name
                        == n {
                    let (a, b) = choose|a: int, b: int|
                        0 <= a < i && 0 <= b < rs[a].cells.len() && (#[trigger] rs[a].cells[b]).name
                            == n;
                    assert(0 <= a < i + 1 && 0 <= b < rs[a].cells.len() && rs[a].cells[b].name
                        == n);
                } else {
                    let b = choose|b: int|
                        0 <= b < row.cells@.len() && (#[trigger] cs[b]).name == n;
                    assert(rs[i as int].cells[b].name == n);
                }
            }
            assert forall|n: Seq<char>|
                (exists|a: int, b: int|
                    0 <= a < i + 1 && 0 <= b < rs[a].cells.len() && (#[trigger] rs[a].cells[b]).name
                        == n) implies #[trigger] column_names(cols@).contains(n) by {
                let (a, b) = choose|a: int, b: int|
                    0 <= a < i + 1 && 0 <= b < rs[a].cells.len() && (#[trigger] rs[a].cells[b]).name
                        == n;
                if a == i {
                    assert(rs[i as int].cells == cs);
                    assert(b < cs.len());
                    assert(b < j);
                    assert(cs[b].name == n);
                    assert(exists|b2: int| 0 <= b2 < j && (#[trigger] cs[b2]).name == n);
                    assert(column_names(cols@).contains(n));
                } else {
                    assert(0 <= a < i && 0 <= b < rs[a].cells.len() && rs[a].cells[b].name == n);
                    assert(exists|a2: int, b2: int|
                        0 <= a2 < i && 0 <= b2 < rs[a2].cells.len() && (
                        #[trigger] rs[a2].cells[b2]).name == n);
                    assert(column_names(cols@).contains(n));
                }
            }
        }
        i = i + 1;
    }
    cols
}

/// The position before which a row belongs in a start-sorted row list,
/// after every row with the same or an earlier start.
fn row_pos(out: &Vec<ValuesRow>, start: i64) -> (p: usize)
    ensures
        p <= out@.len(),
        forall|k: int| 0 <= k < p ==> (#[trigger] out@[k]).start <= start,
        p < out@.len() ==> out@[p as int].start > start,
{
    let mut p: usize = 0;
    while p < out.len()
        invariant
            p <= out@.len(),
            forall|k: int| 0 <= k < p ==> (#[trigger] out@[k]).start <= start,
        decreases out@.len() - p,
    {
        if out[p].start > start {
            return p;
        }
        p = p + 1;
    }
    p
}

/// Whether the rows are laid out by ascending delivery start.
pub open spec fn rows_sorted(rs: Seq<ValuesRow>) -> bool {
    forall|i: int, j: int| 0 <= i < j < rs.len() ==> (#[trigger] rs[i]).start <= (#[trigger] rs[j]).start
}

/// Sorts the rows of a values partition by ascending delivery start, as the
/// rewritten file lays them out. The result holds exactly the given rows.
pub fn sort_rows_by_start(rows: Vec<ValuesRow>) -> (out: Vec<ValuesRow>)
    ensures
        rows_sorted(out@),
        out@.to_multiset() == rows@.to_multiset(),
{
    broadcast use group_to_multiset_ensures;
    broadcast use vstd::multiset::group_multiset_axioms;

    let ghost rs0 = rows@;
    let mut rest = rows;
    let mut out: Vec<ValuesRow> = Vec::new();
    while rest.len() > 0
        invariant
            rows_sorted(out@),
            out@.to_multiset().add(rest@.to_multiset()) == rs0.to_multiset(),
        decreases rest@.len(),
    {
        let ghost pre = rest@;
        let row = rest.remove(0);
        let p = row_pos(&out, row.start);
        let ghost mid = out@;
        out.insert(p, row);
        proof {
            broadcast use group_to_multiset_ensures;
            broadcast use vstd::multiset::group_multiset_axioms;

            assert(out@ == mid.insert(p as int, row));
            assert(pre[0] == row);
            assert(pre.contains(row));
            assert(mid.insert(p as int, row).to_multiset() == mid.to_multiset().insert(row));
            assert(pre.remove(0).to_multiset() == pre.to_multiset().remove(pre[0]));
            assert(out@.to_multiset() == mid.to_multiset().insert(row));
            assert(rest@.to_multiset() == pre.to_multiset().remove(row));
            assert forall|i: int, j: int| 0 <= i < j < out@.len() implies (
            #[trigger] out@[i]).start <= (#[trigger] out@[j]).start by {
                let vi = if i < p {
                    mid[i]
                } else if i == p {
                    row
                } else {
                    mid[i - 1]
                };
                let vj = if j < p {
                    mid[j]
                } else if j == p {
                    row
                } else {
                    mid[j - 1]
                };
                assert(out@[i] == vi);
                assert(out@[j] == vj);
                if i == p && j > p {
                    assert(mid[p as int].start > row.start);
                    assert(vj.start >= mid[p as int].start);
                }
            }
            assert(pre.remove(0) =~= rest@);
            assert(out@.to_multiset().add(rest@.to_multiset()) =~= rs0.to_multiset());
        }
    }
    proof {
        broadcast use group_to_multiset_ensures;
        broadcast use vstd::multiset::group_multiset_axioms;

        assert(rest@.to_multiset() =~= Multiset::<ValuesRow>::empty());
        assert(out@.to_multiset().add(Multiset::<ValuesRow>::empty()) =~= out@.to_multiset());
    }
    out
}

/// The stored value of one metric in a row's cells, as the rewritten file
/// serializes it into that metric's column: the cell's value, or null when
/// the row never saw the name.
pub fn row_metric_bits(cells: &Vec<Metric>, name: &String) -> (r: Option<u64>)
    ensures
        r == cell_value(cells.deep_view(), name@),
{
    let ghost cs = cells.deep_view();
    let mut i: usize = 0;
    proof {
        assert(cs.skip(0) =~= cs);
    }
    while i < cells.len()
        invariant
            i <= cells@.len(),
            cs == cells.deep_view(),
            cs.len() == cells@.len(),
            cell_index(cs, name@) == (if cell_index(cs.skip(i as int), name@) < 0 {
                -1int
            } else {
                i + cell_index(cs.skip(i as int), name@)
            }),
        decreases cells@.len() - i,
    {
        proof {
            assert(cs.skip(i as int).first() == cs[i as int]);
            assert(cs.skip(i as int).drop_first() =~= cs.skip(i as int + 1));
        }
        if cells[i].name == *name {
            return Some(cells[i].bits);
        }
        i = i + 1;
    }
    proof {
        assert(cs.skip(cs.len() as int) =~= Seq::<CellModel>::empty());
    }
    None
}

} // verus!
