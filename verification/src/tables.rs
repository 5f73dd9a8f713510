//! Table detection from columnar alignment of lines.
//!
//! Strategy:
//! 1. Find lines that start at similar X positions (column candidates)
//! 2. Group consecutive rows that share the same column structure
//! 3. Build table cells from the intersection of rows and columns
use vstd::prelude::*;
use crate::content::{locates, needs_separator, offset_after_all, place_all, place_text, placed_at, start_of, lemma_offsets_consistent};
use crate::reading_order::{line_views, LineView, TextLine};
use crate::sort::{is_stable_order, permute, stable_order, stable_order_of};
use crate::text::{decimal, narrow, push_char, push_decimal, string_from_chars, utf16_len, lemma_decimal_narrow, lemma_narrow_concat, lemma_narrow_len};
use crate::types::{BoundingRegion, Span, Table, TableCell};

verus! {

/// Threshold for column alignment: 8 points.
pub const COLUMN_SNAP_THRESHOLD: i64 = 8 * 1024;

/// Threshold for considering lines to be in the same row: 4 points.
pub const ROW_SNAP_THRESHOLD: i64 = 4 * 1024;

/// Minimum number of aligned columns to consider something a table.
pub const MIN_TABLE_COLUMNS: usize = 2;

/// Minimum number of rows to consider something a table.
pub const MIN_TABLE_ROWS: usize = 2;

/// A detected column with its X coordinate range.
#[derive(Clone, Copy, Debug, PartialEq, Eq, Structural)]
pub struct Column {
    pub min_x: i32,
    pub max_x: i32,
}

/// State while clustering sorted x positions.
pub struct ClusterState {
    pub columns: Seq<Column>,
    pub start: i32,
    pub end: i32,
    pub count: nat,
}

/// The clustering state after the first `n >= 1` sorted positions: a
/// position within the snap threshold of the current cluster's end extends
/// it; otherwise the cluster is closed (kept as a column when it holds at
/// least `MIN_TABLE_ROWS` positions) and a new one starts.
pub open spec fn cluster_state(xs: Seq<i32>, n: int) -> ClusterState
    decreases n,
{
    if n <= 1 {
        ClusterState { columns: Seq::empty(), start: xs[0], end: xs[0], count: 1 }
    } else {
        let st = cluster_state(xs, n - 1);
        let x = xs[n - 1];
        if x - st.end <= COLUMN_SNAP_THRESHOLD {
            ClusterState { columns: st.columns, start: st.start, end: x, count: st.count + 1 }
        } else {
            ClusterState {
                columns: if st.count >= MIN_TABLE_ROWS {
                    st.columns.push(Column { min_x: st.start, max_x: st.end })
                } else {
                    st.columns
                },
                start: x,
                end: x,
                count: 1,
            }
        }
    }
}

/// The columns found among sorted x positions.
pub open spec fn clustered_columns(xs: Seq<i32>) -> Seq<Column> {
    if xs.len() == 0 {
        Seq::empty()
    } else {
        let st = cluster_state(xs, xs.len() as int);
        if st.count >= MIN_TABLE_ROWS {
            st.columns.push(Column { min_x: st.start, max_x: st.end })
        } else {
            st.columns
        }
    }
}

/// `x` lies in column `c`, widened by the snap threshold on both sides.
pub open spec fn fits_column(x: i32, c: Column) -> bool {
    c.min_x - COLUMN_SNAP_THRESHOLD <= x <= c.max_x + COLUMN_SNAP_THRESHOLD
}

/// The first column from index `i` on that `x` fits.
pub open spec fn column_from(x: i32, cols: Seq<Column>, i: int) -> Option<usize>
    decreases cols.len() - i,
{
    if i < 0 || i >= cols.len() {
        None
    } else if fits_column(x, cols[i]) {
        Some(i as usize)
    } else {
        column_from(x, cols, i + 1)
    }
}

/// The first column that `x` fits.
pub open spec fn column_of(x: i32, cols: Seq<Column>) -> Option<usize> {
    column_from(x, cols, 0)
}

/// Lines `i` and `j` are in the same row: their y values differ by at
/// most the row snap threshold.
pub open spec fn same_row(lines: Seq<LineView>, i: int, j: int) -> bool {
    let d = lines[i].y - lines[j].y;
    -ROW_SNAP_THRESHOLD <= d <= ROW_SNAP_THRESHOLD
}

/// First index from `j` on whose line is not in the row of line `i`.
pub open spec fn row_end(lines: Seq<LineView>, i: int, j: int) -> int
    decreases lines.len() - j,
{
    if j < 0 || j >= lines.len() {
        lines.len() as int
    } else if same_row(lines, i, j) {
        row_end(lines, i, j + 1)
    } else {
        j
    }
}

/// Entries `(line, column)` of the row of line `i` from index `j` on, for
/// the lines that fit a column.
pub open spec fn row_entries(lines: Seq<LineView>, cols: Seq<Column>, i: int, j: int) -> Seq<
    (usize, usize),
>
    decreases lines.len() - j,
{
    if j < 0 || j >= lines.len() || !same_row(lines, i, j) {
        Seq::empty()
    } else {
        match column_of(lines[j].min_x, cols) {
            Some(c) => seq![(j as usize, c)] + row_entries(lines, cols, i, j + 1),
            None => row_entries(lines, cols, i, j + 1),
        }
    }
}

/// The line indices of row entries.
pub open spec fn entry_lines(entries: Seq<(usize, usize)>) -> Seq<usize> {
    entries.map_values(|e: (usize, usize)| e.0)
}

/// A run of table rows as values.
pub struct RunView {
    pub rows: Seq<Seq<(usize, usize)>>,
    pub line_indices: Seq<usize>,
    pub end: int,
}

pub proof fn lemma_row_end(lines: Seq<LineView>, i: int, j: int)
    requires
        0 <= j <= lines.len(),
    ensures
        j <= row_end(lines, i, j) <= lines.len(),
    decreases lines.len() - j,
{
    if j < lines.len() && same_row(lines, i, j) {
        lemma_row_end(lines, i, j + 1);
    }
}

/// The run of table rows starting at line `i`: a line fitting a column
/// starts a row, joined by the following lines at a similar y that fit a
/// column; rows of at least `MIN_TABLE_COLUMNS` entries continue the run.
/// A row's lines are recorded even when it is too short and ends the run.
pub open spec fn run_from(lines: Seq<LineView>, cols: Seq<Column>, i: int) -> RunView
    decreases lines.len() - i,
{
    if i < 0 || i >= lines.len() {
        RunView { rows: Seq::empty(), line_indices: Seq::empty(), end: i }
    } else {
        match column_of(lines[i].min_x, cols) {
            None => RunView { rows: Seq::empty(), line_indices: Seq::empty(), end: i },
            Some(c) => {
                let row = seq![(i as usize, c)] + row_entries(lines, cols, i, i + 1);
                let j = row_end(lines, i, i + 1);
                if row.len() >= MIN_TABLE_COLUMNS {
                    proof {
                        lemma_row_end(lines, i, i + 1);
                    }
                    let rest = run_from(lines, cols, j);
                    RunView {
                        rows: seq![row] + rest.rows,
                        line_indices: entry_lines(row) + rest.line_indices,
                        end: rest.end,
                    }
                } else {
                    RunView { rows: Seq::empty(), line_indices: entry_lines(row), end: i }
                }
            },
        }
    }
}

pub proof fn lemma_run_end(lines: Seq<LineView>, cols: Seq<Column>, i: int)
    requires
        0 <= i <= lines.len(),
    ensures
        i <= run_from(lines, cols, i).end <= lines.len(),
        run_from(lines, cols, i).rows.len() > 0 ==> run_from(lines, cols, i).end > i,
    decreases lines.len() - i,
{
    if i < lines.len() {
        if let Some(c) = column_of(lines[i].min_x, cols) {
            let row = seq![(i as usize, c)] + row_entries(lines, cols, i, i + 1);
            if row.len() >= MIN_TABLE_COLUMNS {
                lemma_row_end(lines, i, i + 1);
                lemma_run_end(lines, cols, row_end(lines, i, i + 1));
            }
        }
    }
}

/// The runs that `detect_tables` accepts from line `r` on: a run with at
/// least `MIN_TABLE_ROWS` rows (and enough columns) becomes a table and
/// scanning resumes at its end; otherwise scanning moves one line on.
pub open spec fn accepted_runs(lines: Seq<LineView>, cols: Seq<Column>, r: int) -> Seq<RunView>
    decreases lines.len() - r,
{
    if r < 0 || r >= lines.len() {
        Seq::empty()
    } else {
        let run = run_from(lines, cols, r);
        if run.rows.len() >= MIN_TABLE_ROWS && cols.len() >= MIN_TABLE_COLUMNS {
            proof {
                lemma_run_end(lines, cols, r);
            }
            seq![run] + accepted_runs(lines, cols, run.end)
        } else {
            accepted_runs(lines, cols, r + 1)
        }
    }
}

/// The placeholder text of a cell: `cell_<row>_<column>`.
pub open spec fn cell_label(row_idx: int, col_idx: int) -> Seq<char> {
    "cell_"@ + decimal(row_idx as nat) + "_"@ + decimal(col_idx as nat)
}

/// The content of the cell for column `col` in row `row_idx`: the label
/// repeated, space-separated, once per entry of the row in that column
/// (among the first `n` entries).
pub open spec fn cell_text(row: Seq<(usize, usize)>, row_idx: int, col: int, n: int) -> Seq<char>
    decreases n,
{
    if n <= 0 {
        Seq::empty()
    } else {
        let acc = cell_text(row, row_idx, col, n - 1);
        if row[n - 1].1 == col {
            if acc.len() == 0 {
                cell_label(row_idx, col)
            } else {
                acc.push(' ') + cell_label(row_idx, col)
            }
        } else {
            acc
        }
    }
}

/// The cells of a table, in order: one per row entry, with its row index.
pub open spec fn flat_cells(rows: Seq<Seq<(usize, usize)>>) -> Seq<(int, (usize, usize))>
    decreases rows.len(),
{
    if rows.len() == 0 {
        Seq::empty()
    } else {
        flat_cells(rows.drop_last()) + rows.last().map_values(
            |e: (usize, usize)| ((rows.len() - 1) as int, e),
        )
    }
}

/// The content of a cell.
pub open spec fn cell_content(rows: Seq<Seq<(usize, usize)>>, cell: (int, (usize, usize))) -> Seq<
    char,
> {
    cell_text(rows[cell.0], cell.0, cell.1.1 as int, rows[cell.0].len() as int)
}

/// The contents of the given cells joined by spaces.
pub open spec fn joined_cells(rows: Seq<Seq<(usize, usize)>>, cells: Seq<(int, (usize, usize))>) -> Seq<char>
    decreases cells.len(),
{
    if cells.len() == 0 {
        Seq::empty()
    } else {
        let acc = joined_cells(rows, cells.drop_last());
        if acc.len() == 0 {
            cell_content(rows, cells.last())
        } else {
            acc.push(' ') + cell_content(rows, cells.last())
        }
    }
}

/// The text of a table: all cell contents, space-separated.
pub open spec fn table_text(rows: Seq<Seq<(usize, usize)>>) -> Seq<char> {
    joined_cells(rows, flat_cells(rows))
}

/// A placeholder region: the page, and a polygon of eight zeros.
pub open spec fn placeholder_region(r: BoundingRegion, page_number: i32) -> bool {
    r.page_number == page_number && r.polygon@ == Seq::new(8, |i: int| 0i64)
}

/// `cell` is the `k`-th cell of a table built at running offset `start`.
pub open spec fn cell_from(
    cell: TableCell,
    rows: Seq<Seq<(usize, usize)>>,
    k: int,
    page_number: i32,
    start: int,
) -> bool {
    let fc = flat_cells(rows)[k];
    &&& cell.content@ == cell_content(rows, fc)
    &&& (if fc.0 == 0 {
        cell.kind matches Some(s) && s@ == "columnHeader"@
    } else {
        cell.kind is None
    })
    &&& cell.row_index == fc.0 as i32
    &&& cell.column_index == fc.1.1 as i32
    &&& cell.bounding_regions@.len() == 1
    &&& placeholder_region(cell.bounding_regions@[0], page_number)
    &&& cell.spans@ == seq![
        Span {
            offset: (start + joined_cells(rows, flat_cells(rows).take(k)).len()) as i32,
            length: 0,
        },
    ]
}

/// `t` is the table built from `run` at running offset `start`.
pub open spec fn table_from(t: Table, run: RunView, col_count: int, page_number: i32, start: int) -> bool {
    &&& t.row_count == run.rows.len() as i32
    &&& t.column_count == col_count as i32
    &&& t.cells@.len() == flat_cells(run.rows).len()
    &&& forall|k: int|
        0 <= k < t.cells@.len() ==> cell_from(#[trigger] t.cells@[k], run.rows, k, page_number, start)
    &&& t.bounding_regions@.len() == 1
    &&& placeholder_region(t.bounding_regions@[0], page_number)
    &&& t.spans@ == seq![
        Span { offset: start as i32, length: table_text(run.rows).len() as i32 },
    ]
}

/// The document content after appending the tables of `runs`.
pub open spec fn content_after_tables(content: Seq<char>, runs: Seq<RunView>) -> Seq<char>
    decreases runs.len(),
{
    if runs.len() == 0 {
        content
    } else {
        place_text(content_after_tables(content, runs.drop_last()), table_text(runs.last().rows))
    }
}

/// The running offset after the tables of `runs` (a table advances it by
/// the separating newline, when there is one, and by its text length).
pub open spec fn offset_after_tables(content: Seq<char>, offset: int, runs: Seq<RunView>) -> int
    decreases runs.len(),
{
    if runs.len() == 0 {
        offset
    } else {
        placed_at(
            content_after_tables(content, runs.drop_last()),
            offset_after_tables(content, offset, runs.drop_last()),
            table_text(runs.last().rows),
        ) + table_text(runs.last().rows).len()
    }
}

/// Where the text of the `t`-th of `runs` starts.
pub open spec fn table_start(content: Seq<char>, offset: int, runs: Seq<RunView>, t: int) -> int {
    placed_at(
        content_after_tables(content, runs.take(t)),
        offset_after_tables(content, offset, runs.take(t)),
        table_text(runs[t].rows),
    )
}

/// The lines of all accepted runs.
pub open spec fn runs_lines(runs: Seq<RunView>) -> Seq<usize>
    decreases runs.len(),
{
    if runs.len() == 0 {
        Seq::empty()
    } else {
        runs_lines(runs.drop_last()) + runs.last().line_indices
    }
}

/// Sort keys for line starts.
pub open spec fn start_keys(lines: Seq<LineView>) -> Seq<(i64, i64)> {
    lines.map_values(|l: LineView| (l.min_x as i64, 0i64))
}

/// Line start positions, sorted ascending.
pub open spec fn sorted_starts(lines: Seq<LineView>) -> Seq<i32> {
    permute(lines, stable_order_of(start_keys(lines))).map_values(|l: LineView| l.min_x)
}

/// The columns of a set of lines.
pub open spec fn line_columns(lines: Seq<LineView>) -> Seq<Column> {
    clustered_columns(sorted_starts(lines))
}

/// The runs that become tables.
pub open spec fn table_runs(lines: Seq<LineView>) -> Seq<RunView> {
    if lines.len() < MIN_TABLE_ROWS || line_columns(lines).len() < MIN_TABLE_COLUMNS {
        Seq::empty()
    } else {
        accepted_runs(lines, line_columns(lines), 0)
    }
}

/// Views of the rows of a run.
pub open spec fn rows_view(rows: Seq<Vec<(usize, usize)>>) -> Seq<Seq<(usize, usize)>> {
    rows.map_values(|r: Vec<(usize, usize)>| r@)
}

/// A run of table rows.
#[derive(Debug)]
pub struct TableRun {
    pub rows: Vec<Vec<(usize, usize)>>,
    pub col_count: usize,
    pub line_indices: Vec<usize>,
    pub end_index: usize,
}

impl View for TableRun {
    type V = RunView;

    open spec fn view(&self) -> RunView {
        RunView { rows: rows_view(self.rows@), line_indices: self.line_indices@, end: self.end_index as int }
    }
}

/// Groups sorted x positions into columns.
pub fn cluster_columns(sorted_xs: &Vec<i32>) -> (cols: Vec<Column>)
    ensures
        cols@ == clustered_columns(sorted_xs@),
{
    let mut columns: Vec<Column> = Vec::new();
    let n = sorted_xs.len();
    if n == 0 {
        return columns;
    }
    let mut cluster_start = sorted_xs[0];
    let mut cluster_end = sorted_xs[0];
    let mut count: usize = 1;
    let mut i: usize = 1;
    while i < n
        invariant
            n == sorted_xs@.len(),
            1 <= i <= n,
            count <= i,
            cluster_state(sorted_xs@, i as int) == (ClusterState {
                columns: columns@,
                start: cluster_start,
                end: cluster_end,
                count: count as nat,
            }),
        decreases n - i,
    {
        let x = sorted_xs[i];
        if (x as i64) - (cluster_end as i64) <= COLUMN_SNAP_THRESHOLD {
            cluster_end = x;
            count = count + 1;
        } else {
            if count >= MIN_TABLE_ROWS {
                columns.push(Column { min_x: cluster_start, max_x: cluster_end });
            }
            cluster_start = x;
            cluster_end = x;
            count = 1;
        }
        i = i + 1;
    }
    if count >= MIN_TABLE_ROWS {
        columns.push(Column { min_x: cluster_start, max_x: cluster_end });
    }
    columns
}

/// Index of the first column that `x` fits.
pub fn find_column(x: i32, columns: &Vec<Column>) -> (r: Option<usize>)
    ensures
        r == column_of(x, columns@),
{
    let mut i: usize = 0;
    while i < columns.len()
        invariant
            0 <= i <= columns@.len(),
            column_from(x, columns@, 0) == column_from(x, columns@, i as int),
        decreases columns@.len() - i,
    {
        let c = columns[i];
        if (x as i64) >= (c.min_x as i64) - COLUMN_SNAP_THRESHOLD && (x as i64) <= (c.max_x as i64)
            + COLUMN_SNAP_THRESHOLD {
            return Some(i);
        }
        i = i + 1;
    }
    None
}

fn in_same_row(lines: &[TextLine], i: usize, j: usize) -> (b: bool)
    requires
        i < lines@.len(),
        j < lines@.len(),
    ensures
        b == same_row(line_views(lines@), i as int, j as int),
{
    let d = lines[i].y as i64 - lines[j].y as i64;
    -ROW_SNAP_THRESHOLD <= d && d <= ROW_SNAP_THRESHOLD
}

/// Finds the run of table rows starting at line `start` (an empty run
/// ending at `start` when `start` is past the last line).
pub fn find_table_run(lines: &[TextLine], start: usize, columns: &Vec<Column>) -> (run: TableRun)
    ensures
        run@ == run_from(line_views(lines@), columns@, start as int),
        run.col_count == columns@.len(),
        start >= lines@.len() ==> run.rows@.len() == 0 && run.line_indices@.len() == 0
            && run.end_index == start,
{
    let ghost lv = line_views(lines@);
    let ghost cols = columns@;
    let mut rows: Vec<Vec<(usize, usize)>> = Vec::new();
    let mut line_indices: Vec<usize> = Vec::new();
    let mut i = start;
    let n = lines.len();
    while i < n
        invariant_except_break
            n == lines@.len(),
            lv == line_views(lines@),
            cols == columns@,
            start <= i,
            i <= n || i == start,
            run_from(lv, cols, start as int) == (RunView {
                rows: rows_view(rows@) + run_from(lv, cols, i as int).rows,
                line_indices: line_indices@ + run_from(lv, cols, i as int).line_indices,
                end: run_from(lv, cols, i as int).end,
            }),
        ensures
            run_from(lv, cols, start as int) == (RunView {
                rows: rows_view(rows@),
                line_indices: line_indices@,
                end: i as int,
            }),
        decreases n - i,
    {
        let col_idx = find_column(lines[i].min_x, columns);
        let c = match col_idx {
            None => {
                assert(rows_view(rows@) + Seq::empty() =~= rows_view(rows@));
                assert(line_indices@ + Seq::empty() =~= line_indices@);
                break;
            },
            Some(c) => c,
        };
        let ghost li_before = line_indices@;
        let mut row: Vec<(usize, usize)> = Vec::new();
        row.push((i, c));
        line_indices.push(i);
        let mut j = i + 1;
        while j < n
            invariant_except_break
                n == lines@.len(),
                lv == line_views(lines@),
                cols == columns@,
                i < j <= n,
                row@ + row_entries(lv, cols, i as int, j as int) == seq![(i, c)] + row_entries(
                    lv,
                    cols,
                    i as int,
                    i + 1,
                ),
                line_indices@ + entry_lines(row_entries(lv, cols, i as int, j as int)) == li_before
                    + entry_lines(seq![(i, c)] + row_entries(lv, cols, i as int, i + 1)),
                row_end(lv, i as int, j as int) == row_end(lv, i as int, i + 1),
            ensures
                row@ == seq![(i, c)] + row_entries(lv, cols, i as int, i + 1),
                line_indices@ == li_before + entry_lines(
                    seq![(i, c)] + row_entries(lv, cols, i as int, i + 1),
                ),
                j == row_end(lv, i as int, i + 1),
                i < j <= n,
            decreases n - j,
        {
            if in_same_row(lines, i, j) {
                let ghost r0 = row@;
                let ghost l0 = line_indices@;
                match find_column(lines[j].min_x, columns) {
                    Some(cj) => {
                        row.push((j, cj));
                        line_indices.push(j);
                        assert(row@ + row_entries(lv, cols, i as int, j + 1) =~= r0
                            + row_entries(lv, cols, i as int, j as int));
                        assert(line_indices@ + entry_lines(row_entries(lv, cols, i as int, j + 1))
                            =~= l0 + entry_lines(row_entries(lv, cols, i as int, j as int)));
                    },
                    None => {},
                }
                j = j + 1;
            } else {
                assert(row@ =~= row@ + row_entries(lv, cols, i as int, j as int));
                assert(line_indices@ =~= line_indices@ + entry_lines(
                    row_entries(lv, cols, i as int, j as int),
                ));
                break;
            }
        }
        proof {
            if j == n {
                assert(row@ =~= row@ + row_entries(lv, cols, i as int, j as int));
                assert(line_indices@ =~= line_indices@ + entry_lines(
                    row_entries(lv, cols, i as int, j as int),
                ));
            }
        }
        if row.len() >= MIN_TABLE_COLUMNS {
            let ghost rows_before = rows@;
            rows.push(row);
            proof {
                let next = run_from(lv, cols, j as int);
                assert(rows_view(rows@) =~= rows_view(rows_before).push(row@));
                assert(rows_view(rows@) + next.rows =~= rows_view(rows_before) + (seq![row@]
                    + next.rows));
                assert(line_indices@ + next.line_indices =~= li_before + (entry_lines(row@)
                    + next.line_indices));
            }
            i = j;
        } else {
            proof {
                assert(rows_view(rows@) + Seq::empty() =~= rows_view(rows@));
            }
            break;
        }
    }
    proof {
        if i == n {
            assert(rows_view(rows@) + Seq::empty() =~= rows_view(rows@));
            assert(line_indices@ + Seq::empty() =~= line_indices@);
        }
    }
    TableRun { col_count: columns.len(), rows, line_indices, end_index: i }
}


fn push_label(out: &mut Vec<char>, row_idx: usize, col_idx: usize)
    ensures
        final(out)@ == old(out)@ + cell_label(row_idx as int, col_idx as int),
{
    out.push('c');
    out.push('e');
    out.push('l');
    out.push('l');
    out.push('_');
    let ghost a = out@;
    push_decimal(out, row_idx);
    out.push('_');
    let ghost b = out@;
    push_decimal(out, col_idx);
    proof {
        reveal_strlit("cell_");
        reveal_strlit("_");
        assert(out@ =~= old(out)@ + cell_label(row_idx as int, col_idx as int));
    }
}

/// The content of the cell for column `col` of row `row_idx`.
fn cell_content_of(row: &Vec<(usize, usize)>, row_idx: usize, col: usize) -> (t: Vec<char>)
    ensures
        t@ == cell_text(row@, row_idx as int, col as int, row@.len() as int),
{
    let mut t: Vec<char> = Vec::new();
    let mut e: usize = 0;
    while e < row.len()
        invariant
            0 <= e <= row@.len(),
            t@ == cell_text(row@, row_idx as int, col as int, e as int),
        decreases row@.len() - e,
    {
        if row[e].1 == col {
            if t.len() > 0 {
                t.push(' ');
            }
            push_label(&mut t, row_idx, col);
        }
        e = e + 1;
    }
    t
}

/// The cells of a run with their row indices, in order.
fn flatten(rows: &Vec<Vec<(usize, usize)>>) -> (f: Vec<(usize, (usize, usize))>)
    ensures
        f@.len() == flat_cells(rows_view(rows@)).len(),
        forall|k: int|
            0 <= k < f@.len() ==> (#[trigger] f@[k]).0 as int == flat_cells(rows_view(rows@))[k].0
                && f@[k].1 == flat_cells(rows_view(rows@))[k].1,
{
    let ghost rv = rows_view(rows@);
    let mut f: Vec<(usize, (usize, usize))> = Vec::new();
    let mut r: usize = 0;
    while r < rows.len()
        invariant
            0 <= r <= rows@.len(),
            rv == rows_view(rows@),
            f@.len() == flat_cells(rv.take(r as int)).len(),
            forall|k: int|
                0 <= k < f@.len() ==> (#[trigger] f@[k]).0 as int == flat_cells(rv.take(r as int))[k].0
                    && f@[k].1 == flat_cells(rv.take(r as int))[k].1,
        decreases rows@.len() - r,
    {
        let row = &rows[r];
        let ghost f0 = f@;
        let mut e: usize = 0;
        while e < row.len()
            invariant
                0 <= e <= row@.len(),
                f@.len() == f0.len() + e,
                forall|k: int| 0 <= k < f0.len() ==> #[trigger] f@[k] == f0[k],
                forall|k: int|
                    0 <= k < e ==> (#[trigger] f@[f0.len() + k]).0 == r && f@[f0.len() + k].1
                        == row@[k],
            decreases row@.len() - e,
        {
            f.push((r, row[e]));
            e = e + 1;
        }
        proof {
            let t = rv.take(r + 1);
            assert(t.drop_last() =~= rv.take(r as int));
            assert(t.last() == row@);
            let fl = flat_cells(t);
            assert(fl == flat_cells(rv.take(r as int)) + row@.map_values(
                |x: (usize, usize)| (r as int, x),
            ));
            assert forall|k: int| 0 <= k < f@.len() implies (#[trigger] f@[k]).0 as int
                == fl[k].0 && f@[k].1 == fl[k].1 by {
                if k >= f0.len() {
                    assert(f@[f0.len() + (k - f0.len())].1 == row@[k - f0.len()]);
                }
            }
        }
        r = r + 1;
    }
    assert(rv.take(r as int) =~= rv);
    f
}

fn placeholder(page_number: i32) -> (r: BoundingRegion)
    ensures
        placeholder_region(r, page_number),
{
    let polygon: Vec<i64> = vec![0, 0, 0, 0, 0, 0, 0, 0];
    assert(polygon@ =~= Seq::new(8, |i: int| 0i64));
    BoundingRegion { page_number, polygon }
}

/// Builds the table of a run: a cell per row entry (placeholder text
/// `cell_<row>_<column>`, placeholder regions), the table text appended to
/// the document content (after a newline when both are non-empty), and the
/// running offset advanced past that newline and the text; the table's
/// span starts where its text does.
pub fn build_table(
    run: &TableRun,
    page_number: i32,
    content_offset: &mut usize,
    full_content: &mut String,
) -> (t: Table)
    requires
        placed_at(old(full_content)@, *old(content_offset) as int, table_text(run@.rows))
            + table_text(run@.rows).len() <= usize::MAX,
    ensures
        table_from(
            t,
            run@,
            run.col_count as int,
            page_number,
            placed_at(old(full_content)@, *old(content_offset) as int, table_text(run@.rows)),
        ),
        final(full_content)@ == place_text(old(full_content)@, table_text(run@.rows)),
        *final(content_offset) == placed_at(
            old(full_content)@,
            *old(content_offset) as int,
            table_text(run@.rows),
        ) + table_text(run@.rows).len(),
{
    let ghost rows = run@.rows;
    let flat = flatten(&run.rows);
    let ghost fc = flat_cells(rows);
    proof {
        lemma_table_text_empty(rows);
    }
    let sep = !full_content.as_str().is_empty() && flat.len() > 0;
    assert(sep == needs_separator(full_content@, table_text(rows)));
    if sep {
        *content_offset = *content_offset + 1;
    }
    let start = *content_offset;
    let mut cells: Vec<TableCell> = Vec::new();
    let mut text: Vec<char> = Vec::new();
    let mut k: usize = 0;
    proof {
        lemma_joined_prefix_len(rows, fc, fc.len() as int);
        assert(fc.take(fc.len() as int) =~= fc);
    }
    while k < flat.len()
        invariant
            0 <= k <= flat@.len(),
            rows == run@.rows,
            fc == flat_cells(rows),
            flat@.len() == fc.len(),
            forall|q: int|
                0 <= q < flat@.len() ==> (#[trigger] flat@[q]).0 as int == fc[q].0 && flat@[q].1
                    == fc[q].1,
            start + table_text(rows).len() <= usize::MAX,
            forall|q: int| 0 <= q <= fc.len() ==> #[trigger] joined_cells(rows, fc.take(q)).len() <= table_text(rows).len(),
            text@ == joined_cells(rows, fc.take(k as int)),
            *content_offset == start + text@.len(),
            cells@.len() == k,
            forall|q: int| 0 <= q < k ==> cell_from(#[trigger] cells@[q], rows, q, page_number, start as int),
        decreases flat@.len() - k,
    {
        let (row_idx, entry) = flat[k];
        let col_idx = entry.1;
        proof {
            assert(fc.take(k + 1).drop_last() =~= fc.take(k as int));
            assert(fc.take(k + 1).last() == fc[k as int]);
            assert(0 <= fc[k as int].0 < rows.len()) by {
                lemma_flat_rows(rows, k as int);
            }
        }
        let content = cell_content_of(&run.rows[row_idx], row_idx, col_idx);
        let cell_offset = *content_offset;
        proof {
            assert(joined_cells(rows, fc.take(k + 1)).len() <= table_text(rows).len());
        }
        if text.len() > 0 {
            text.push(' ');
            *content_offset = *content_offset + 1;
        }
        let mut j: usize = 0;
        let ghost base = text@;
        while j < content.len()
            invariant
                0 <= j <= content@.len(),
                text@ == base + content@.take(j as int),
            decreases content@.len() - j,
        {
            text.push(content[j]);
            assert(content@.take(j + 1) =~= content@.take(j as int).push(content@[j as int]));
            j = j + 1;
        }
        assert(content@.take(j as int) =~= content@);
        assert(text@ =~= joined_cells(rows, fc.take(k + 1)));
        *content_offset = *content_offset + content.len();
        let kind = if row_idx == 0 {
            Some(String::from_str("columnHeader"))
        } else {
            None
        };
        let mut regions: Vec<BoundingRegion> = Vec::new();
        regions.push(placeholder(page_number));
        let mut spans: Vec<Span> = Vec::new();
        spans.push(Span { offset: cell_offset as i32, length: 0 });
        let cell = TableCell {
            content: string_from_chars(&content),
            kind,
            row_index: row_idx as i32,
            column_index: col_idx as i32,
            bounding_regions: regions,
            spans,
        };
        proof {
            assert(cell.spans@ =~= seq![
                Span {
                    offset: (start + joined_cells(rows, fc.take(k as int)).len()) as i32,
                    length: 0,
                },
            ]);
        }
        cells.push(cell);
        k = k + 1;
    }
    assert(fc.take(k as int) =~= fc);
    if sep {
        push_char(full_content, '\n');
    }
    let table_string = string_from_chars(&text);
    full_content.append(table_string.as_str());
    proof {
        if needs_separator(old(full_content)@, text@) {
            assert(full_content@ =~= old(full_content)@.push('\n') + text@);
        }
    }
    let mut regions: Vec<BoundingRegion> = Vec::new();
    regions.push(placeholder(page_number));
    let mut spans: Vec<Span> = Vec::new();
    spans.push(Span { offset: start as i32, length: text.len() as i32 });
    let t = Table {
        row_count: run.rows.len() as i32,
        column_count: run.col_count as i32,
        cells,
        bounding_regions: regions,
        spans,
    };
    assert(t.spans@ =~= seq![
        Span { offset: start as i32, length: table_text(rows).len() as i32 },
    ]);
    t
}

proof fn lemma_flat_rows(rows: Seq<Seq<(usize, usize)>>, k: int)
    requires
        0 <= k < flat_cells(rows).len(),
    ensures
        0 <= flat_cells(rows)[k].0 < rows.len(),
    decreases rows.len(),
{
    if rows.len() > 0 {
        let pre = flat_cells(rows.drop_last());
        if k < pre.len() {
            lemma_flat_rows(rows.drop_last(), k);
        }
    }
}

proof fn lemma_flat_entry(rows: Seq<Seq<(usize, usize)>>, k: int)
    requires
        0 <= k < flat_cells(rows).len(),
    ensures
        0 <= flat_cells(rows)[k].0 < rows.len(),
        exists|e: int|
            0 <= e < rows[flat_cells(rows)[k].0].len() && #[trigger] rows[flat_cells(rows)[k].0][e]
                == flat_cells(rows)[k].1,
    decreases rows.len(),
{
    let pre = flat_cells(rows.drop_last());
    if k < pre.len() {
        lemma_flat_entry(rows.drop_last(), k);
        let r = pre[k].0;
        let e = choose|e: int| 0 <= e < rows.drop_last()[r].len() && #[trigger] rows.drop_last()[r][e] == pre[k].1;
        assert(rows[r][e] == flat_cells(rows)[k].1);
    } else {
        let e = k - pre.len();
        assert(rows[rows.len() - 1][e] == flat_cells(rows)[k].1);
    }
}

proof fn lemma_cell_text_nonempty(row: Seq<(usize, usize)>, row_idx: int, col: int, n: int, e: int)
    requires
        0 <= e < n <= row.len(),
        row[e].1 == col,
    ensures
        cell_text(row, row_idx, col, n).len() > 0,
    decreases n,
{
    reveal_strlit("cell_");
    if e < n - 1 {
        lemma_cell_text_nonempty(row, row_idx, col, n - 1, e);
    }
}

/// A table's text is empty exactly when it has no cells.
proof fn lemma_table_text_empty(rows: Seq<Seq<(usize, usize)>>)
    ensures
        (table_text(rows).len() == 0) == (flat_cells(rows).len() == 0),
{
    let fc = flat_cells(rows);
    if fc.len() > 0 {
        let k = fc.len() - 1;
        lemma_flat_entry(rows, k);
        let r = fc[k].0;
        let e = choose|e: int| 0 <= e < rows[r].len() && #[trigger] rows[r][e] == fc[k].1;
        lemma_cell_text_nonempty(rows[r], r, fc[k].1.1 as int, rows[r].len() as int, e);
        assert(fc.drop_last() + seq![fc.last()] =~= fc);
    }
}

proof fn lemma_joined_prefix_len(
    rows: Seq<Seq<(usize, usize)>>,
    cells: Seq<(int, (usize, usize))>,
    n: int,
)
    requires
        0 <= n <= cells.len(),
    ensures
        forall|q: int| 0 <= q <= n ==> #[trigger] joined_cells(rows, cells.take(q)).len() <= joined_cells(
            rows,
            cells.take(n),
        ).len(),
    decreases n,
{
    if n > 0 {
        lemma_joined_prefix_len(rows, cells, n - 1);
        assert(cells.take(n).drop_last() =~= cells.take(n - 1));
    }
    if n == cells.len() {
        assert(cells.take(n) =~= cells);
    }
}

proof fn lemma_tables_offset_monotone(content: Seq<char>, offset: int, runs: Seq<RunView>, t: int)
    requires
        0 <= t <= runs.len(),
    ensures
        offset <= offset_after_tables(content, offset, runs.take(t)) <= offset_after_tables(
            content,
            offset,
            runs,
        ),
    decreases runs.len(),
{
    if runs.len() > 0 {
        if t == runs.len() {
            assert(runs.take(t) =~= runs);
            lemma_tables_offset_monotone(content, offset, runs.drop_last(), t - 1);
            assert(runs.drop_last().take(t - 1) =~= runs.drop_last());
        } else {
            lemma_tables_offset_monotone(content, offset, runs.drop_last(), t);
            assert(runs.drop_last().take(t) =~= runs.take(t));
        }
    } else {
        assert(runs.take(t) =~= runs);
    }
}

/// Detect tables from lines by finding columnar alignment patterns.
/// Returns the tables and the indices of the lines they use; each table's
/// text is appended to `full_content`, and `content_offset` advances by
/// its length.
pub fn detect_tables(
    lines: &[TextLine],
    page_number: i32,
    content_offset: &mut usize,
    full_content: &mut String,
) -> (r: (Vec<Table>, Vec<usize>))
    requires
        offset_after_tables(
            old(full_content)@,
            *old(content_offset) as int,
            table_runs(line_views(lines@)),
        ) <= usize::MAX,
    ensures
        ({
            let lv = line_views(lines@);
            let runs = table_runs(lv);
            &&& r.0@.len() == runs.len()
            &&& forall|t: int|
                0 <= t < runs.len() ==> table_from(
                    #[trigger] r.0@[t],
                    runs[t],
                    line_columns(lv).len() as int,
                    page_number,
                    table_start(old(full_content)@, *old(content_offset) as int, runs, t),
                )
            &&& r.1@ == runs_lines(runs)
            &&& final(full_content)@ == content_after_tables(old(full_content)@, runs)
            &&& *final(content_offset) == offset_after_tables(
                old(full_content)@,
                *old(content_offset) as int,
                runs,
            )
            &&& increasing(r.1@)
        }),
{
    let ghost lv = line_views(lines@);
    let mut tables: Vec<Table> = Vec::new();
    let mut indices: Vec<usize> = Vec::new();
    let n = lines.len();
    if n < MIN_TABLE_ROWS {
        return (tables, indices);
    }
    let mut keys: Vec<(i64, i64)> = Vec::new();
    let mut i: usize = 0;
    while i < n
        invariant
            n == lines@.len(),
            lv == line_views(lines@),
            0 <= i <= n,
            keys@ =~= start_keys(lv).take(i as int),
        decreases n - i,
    {
        keys.push((lines[i].min_x as i64, 0));
        i = i + 1;
    }
    assert(keys@ =~= start_keys(lv));
    let order = stable_order(&keys);
    assert(is_stable_order(keys@, order@));
    let mut xs: Vec<i32> = Vec::new();
    let mut i: usize = 0;
    while i < n
        invariant
            n == lines@.len(),
            lv == line_views(lines@),
            0 <= i <= n,
            order@ == stable_order_of(start_keys(lv)),
            is_stable_order(keys@, order@),
            keys@ == start_keys(lv),
            xs@ =~= sorted_starts(lv).take(i as int),
        decreases n - i,
    {
        assert(order@[i as int] < n);
        xs.push(lines[order[i]].min_x);
        i = i + 1;
    }
    assert(xs@ =~= sorted_starts(lv));
    let columns = cluster_columns(&xs);
    if columns.len() < MIN_TABLE_COLUMNS {
        return (tables, indices);
    }
    let ghost cols = columns@;
    let ghost all = table_runs(lv);
    let ghost o0 = *content_offset as int;
    let ghost c0 = full_content@;
    let ghost mut done: Seq<RunView> = Seq::empty();
    let mut row_start: usize = 0;
    while row_start < n
        invariant
            n == lines@.len(),
            lv == line_views(lines@),
            cols == columns@,
            cols == line_columns(lv),
            cols.len() >= MIN_TABLE_COLUMNS,
            all == accepted_runs(lv, cols, 0),
            0 <= row_start <= n,
            all == done + accepted_runs(lv, cols, row_start as int),
            offset_after_tables(c0, o0, all) <= usize::MAX,
            tables@.len() == done.len(),
            forall|t: int|
                0 <= t < done.len() ==> table_from(
                    #[trigger] tables@[t],
                    done[t],
                    cols.len() as int,
                    page_number,
                    table_start(c0, o0, done, t),
                ),
            indices@ == runs_lines(done),
            full_content@ == content_after_tables(c0, done),
            *content_offset == offset_after_tables(c0, o0, done),
        decreases n - row_start,
    {
        let run = find_table_run(lines, row_start, &columns);
        if run.rows.len() >= MIN_TABLE_ROWS && run.col_count >= MIN_TABLE_COLUMNS {
            proof {
                lemma_run_end(lv, cols, row_start as int);
                assert(all == done.push(run@) + accepted_runs(lv, cols, run@.end)) by {
                    assert(accepted_runs(lv, cols, row_start as int) == seq![run@] + accepted_runs(
                        lv,
                        cols,
                        run@.end,
                    ));
                    assert(done + (seq![run@] + accepted_runs(lv, cols, run@.end)) =~= done.push(
                        run@,
                    ) + accepted_runs(lv, cols, run@.end));
                }
                lemma_tables_offset_monotone(c0, o0, all, (done.len() + 1) as int);
                assert(all.take((done.len() + 1) as int) =~= done.push(run@));
                assert(done.push(run@).drop_last() =~= done);
            }
            let table = build_table(&run, page_number, content_offset, full_content);
            tables.push(table);
            let mut j: usize = 0;
            let ghost base = indices@;
            while j < run.line_indices.len()
                invariant
                    0 <= j <= run.line_indices@.len(),
                    indices@ == base + run.line_indices@.take(j as int),
                decreases run.line_indices@.len() - j,
            {
                indices.push(run.line_indices[j]);
                assert(run.line_indices@.take(j + 1) =~= run.line_indices@.take(j as int).push(
                    run.line_indices@[j as int],
                ));
                j = j + 1;
            }
            assert(run.line_indices@.take(j as int) =~= run.line_indices@);
            proof {
                let d1 = done.push(run@);
                assert(d1.drop_last() =~= done);
                assert forall|t: int| 0 <= t < d1.len() implies table_from(
                    #[trigger] tables@[t],
                    d1[t],
                    cols.len() as int,
                    page_number,
                    table_start(c0, o0, d1, t),
                ) by {
                    if t < done.len() {
                        assert(d1.take(t) =~= done.take(t));
                    } else {
                        assert(d1.take(t) =~= done);
                    }
                }
                done = d1;
            }
            row_start = run.end_index;
        } else {
            proof {
                assert(accepted_runs(lv, cols, row_start as int) == accepted_runs(
                    lv,
                    cols,
                    row_start + 1,
                ));
            }
            row_start = row_start + 1;
        }
    }
    proof {
        assert(accepted_runs(lv, cols, row_start as int) =~= Seq::<RunView>::empty());
        assert(done =~= all);
        lemma_tables_disjoint(lv);
    }
    (tables, indices)
}

/// A row of a table: at least `MIN_TABLE_COLUMNS` entries, each naming a
/// line and a column that exist.
pub open spec fn row_ok(row: Seq<(usize, usize)>, n_lines: int, n_cols: int) -> bool {
    &&& row.len() >= MIN_TABLE_COLUMNS
    &&& forall|e: int| 0 <= e < row.len() ==> (#[trigger] row[e]).0 < n_lines && row[e].1 < n_cols
}

proof fn lemma_column_from_range(x: i32, cols: Seq<Column>, i: int)
    ensures
        column_from(x, cols, i) matches Some(c) ==> c < cols.len(),
    decreases cols.len() - i,
{
    if 0 <= i < cols.len() && !fits_column(x, cols[i]) {
        lemma_column_from_range(x, cols, i + 1);
    }
}

proof fn lemma_row_entries_ok(lines: Seq<LineView>, cols: Seq<Column>, i: int, j: int)
    ensures
        forall|e: int|
            0 <= e < row_entries(lines, cols, i, j).len() ==> (#[trigger] row_entries(
                lines,
                cols,
                i,
                j,
            )[e]).0 < lines.len() && row_entries(lines, cols, i, j)[e].1 < cols.len(),
    decreases lines.len() - j,
{
    if 0 <= j < lines.len() && same_row(lines, i, j) {
        lemma_row_entries_ok(lines, cols, i, j + 1);
        lemma_column_from_range(lines[j].min_x, cols, 0);
        let rest = row_entries(lines, cols, i, j + 1);
        if let Some(c) = column_of(lines[j].min_x, cols) {
            let r = row_entries(lines, cols, i, j);
            assert(r == seq![(j as usize, c)] + rest);
            assert forall|e: int| 0 <= e < r.len() implies (#[trigger] r[e]).0 < lines.len() && r[e].1
                < cols.len() by {
                if e > 0 {
                    assert(r[e] == rest[e - 1]);
                }
            }
        }
    }
}

proof fn lemma_run_rows_ok(lines: Seq<LineView>, cols: Seq<Column>, i: int)
    ensures
        forall|k: int|
            0 <= k < run_from(lines, cols, i).rows.len() ==> row_ok(
                #[trigger] run_from(lines, cols, i).rows[k],
                lines.len() as int,
                cols.len() as int,
            ),
    decreases lines.len() - i,
{
    if 0 <= i < lines.len() {
        if let Some(c) = column_of(lines[i].min_x, cols) {
            let entries = row_entries(lines, cols, i, i + 1);
            let row = seq![(i as usize, c)] + entries;
            if row.len() >= MIN_TABLE_COLUMNS {
                lemma_row_end(lines, i, i + 1);
                let j = row_end(lines, i, i + 1);
                lemma_run_rows_ok(lines, cols, j);
                lemma_row_entries_ok(lines, cols, i, i + 1);
                lemma_column_from_range(lines[i].min_x, cols, 0);
                let rest = run_from(lines, cols, j);
                let rows = run_from(lines, cols, i).rows;
                assert(rows == seq![row] + rest.rows);
                assert(row_ok(row, lines.len() as int, cols.len() as int)) by {
                    assert forall|e: int| 0 <= e < row.len() implies (#[trigger] row[e]).0
                        < lines.len() && row[e].1 < cols.len() by {
                        if e > 0 {
                            assert(row[e] == entries[e - 1]);
                        }
                    }
                }
                assert forall|k: int| 0 <= k < rows.len() implies row_ok(
                    #[trigger] rows[k],
                    lines.len() as int,
                    cols.len() as int,
                ) by {
                    if k > 0 {
                        assert(rows[k] == rest.rows[k - 1]);
                    }
                }
            }
        }
    }
}

proof fn lemma_accepted_runs_ok(lines: Seq<LineView>, cols: Seq<Column>, r: int)
    ensures
        forall|t: int|
            0 <= t < accepted_runs(lines, cols, r).len() ==> {
                let run = #[trigger] accepted_runs(lines, cols, r)[t];
                &&& run.rows.len() >= MIN_TABLE_ROWS
                &&& forall|k: int|
                    0 <= k < run.rows.len() ==> row_ok(
                        #[trigger] run.rows[k],
                        lines.len() as int,
                        cols.len() as int,
                    )
            },
    decreases lines.len() - r,
{
    if 0 <= r < lines.len() {
        let run = run_from(lines, cols, r);
        lemma_run_end(lines, cols, r);
        if run.rows.len() >= MIN_TABLE_ROWS && cols.len() >= MIN_TABLE_COLUMNS {
            lemma_accepted_runs_ok(lines, cols, run.end);
            lemma_run_rows_ok(lines, cols, r);
            let all = accepted_runs(lines, cols, r);
            let rest = accepted_runs(lines, cols, run.end);
            assert(all == seq![run] + rest);
            assert forall|t: int| 0 <= t < all.len() implies {
                let x = #[trigger] all[t];
                &&& x.rows.len() >= MIN_TABLE_ROWS
                &&& forall|k: int|
                    0 <= k < x.rows.len() ==> row_ok(
                        #[trigger] x.rows[k],
                        lines.len() as int,
                        cols.len() as int,
                    )
            } by {
                if t > 0 {
                    assert(all[t] == rest[t - 1]);
                } else {
                    assert(all[t] == run);
                }
            }
        } else {
            lemma_accepted_runs_ok(lines, cols, r + 1);
            assert(accepted_runs(lines, cols, r) == accepted_runs(lines, cols, r + 1));
        }
    }
}

/// Every detected table has at least `MIN_TABLE_ROWS` rows, and every row
/// at least `MIN_TABLE_COLUMNS` cells, each naming an existing line and
/// one of the detected columns.
pub proof fn lemma_table_shape(lines: Seq<LineView>)
    ensures
        forall|t: int|
            0 <= t < table_runs(lines).len() ==> {
                let run = #[trigger] table_runs(lines)[t];
                &&& run.rows.len() >= MIN_TABLE_ROWS
                &&& forall|k: int|
                    0 <= k < run.rows.len() ==> row_ok(
                        #[trigger] run.rows[k],
                        lines.len() as int,
                        line_columns(lines).len() as int,
                    )
            },
{
    if lines.len() >= MIN_TABLE_ROWS && line_columns(lines).len() >= MIN_TABLE_COLUMNS {
        lemma_accepted_runs_ok(lines, line_columns(lines), 0);
    }
}
proof fn lemma_cell_label_narrow(row_idx: int, col_idx: int)
    ensures
        narrow(cell_label(row_idx, col_idx)),
{
    reveal_strlit("cell_");
    reveal_strlit("_");
    lemma_decimal_narrow(row_idx as nat);
    lemma_decimal_narrow(col_idx as nat);
    let a = "cell_"@;
    let u = "_"@;
    assert(narrow(a));
    assert(narrow(u));
    lemma_narrow_concat(a, decimal(row_idx as nat));
    lemma_narrow_concat(a + decimal(row_idx as nat), u);
    lemma_narrow_concat(a + decimal(row_idx as nat) + u, decimal(col_idx as nat));
}

proof fn lemma_cell_text_narrow(row: Seq<(usize, usize)>, row_idx: int, col: int, n: int)
    ensures
        narrow(cell_text(row, row_idx, col, n)),
    decreases n,
{
    if n > 0 {
        lemma_cell_text_narrow(row, row_idx, col, n - 1);
        lemma_cell_label_narrow(row_idx, col);
        let acc = cell_text(row, row_idx, col, n - 1);
        lemma_narrow_concat(acc, seq![' ']);
        assert(acc.push(' ') =~= acc + seq![' ']);
        lemma_narrow_concat(acc.push(' '), cell_label(row_idx, col));
    }
}

proof fn lemma_joined_cells_narrow(rows: Seq<Seq<(usize, usize)>>, cells: Seq<(int, (usize, usize))>)
    ensures
        narrow(joined_cells(rows, cells)),
    decreases cells.len(),
{
    if cells.len() > 0 {
        lemma_joined_cells_narrow(rows, cells.drop_last());
        let c = cells.last();
        lemma_cell_text_narrow(rows[c.0], c.0, c.1.1 as int, rows[c.0].len() as int);
        let acc = joined_cells(rows, cells.drop_last());
        lemma_narrow_concat(acc, seq![' ']);
        assert(acc.push(' ') =~= acc + seq![' ']);
        lemma_narrow_concat(acc.push(' '), cell_content(rows, c));
    }
}

/// The texts of the tables of `runs`.
pub open spec fn table_texts(runs: Seq<RunView>) -> Seq<Seq<char>> {
    runs.map_values(|r: RunView| table_text(r.rows))
}

proof fn lemma_tables_as_texts(content: Seq<char>, offset: int, runs: Seq<RunView>)
    requires
        offset == utf16_len(content),
    ensures
        content_after_tables(content, runs) == place_all(content, table_texts(runs)),
        offset_after_tables(content, offset, runs) == offset_after_all(content, offset, table_texts(runs)),
    decreases runs.len(),
{
    if runs.len() > 0 {
        lemma_tables_as_texts(content, offset, runs.drop_last());
        assert(table_texts(runs).drop_last() =~= table_texts(runs.drop_last()));
        lemma_joined_cells_narrow(runs.last().rows, flat_cells(runs.last().rows));
        lemma_narrow_len(table_text(runs.last().rows));
    }
}

/// The `t`-th table's text takes one UTF-16 unit per character, and its
/// span start selects it in `c`.
pub open spec fn table_located(c: Seq<char>, content: Seq<char>, offset: int, runs: Seq<RunView>, t: int) -> bool {
    &&& table_text(runs[t].rows).len() == utf16_len(table_text(runs[t].rows))
    &&& locates(c, table_start(content, offset, runs, t), table_text(runs[t].rows))
}

/// Tables keep the running offset at the UTF-16 length of the content,
/// and each table's span selects its text in the content.
pub proof fn lemma_table_spans_locate(content: Seq<char>, offset: int, runs: Seq<RunView>)
    requires
        offset == utf16_len(content),
    ensures
        offset_after_tables(content, offset, runs) == utf16_len(content_after_tables(content, runs)),
        forall|t: int|
            0 <= t < runs.len() ==> #[trigger] table_located(
                content_after_tables(content, runs),
                content,
                offset,
                runs,
                t,
            ),
{
    let texts = table_texts(runs);
    lemma_tables_as_texts(content, offset, runs);
    lemma_offsets_consistent(content, offset, texts);
    assert forall|t: int| 0 <= t < runs.len() implies #[trigger] table_located(
        content_after_tables(content, runs),
        content,
        offset,
        runs,
        t,
    ) by {
        lemma_tables_as_texts(content, offset, runs.take(t));
        assert(table_texts(runs.take(t)) =~= texts.take(t));
        assert(texts[t] == table_text(runs[t].rows));
        assert(table_start(content, offset, runs, t) == start_of(content, offset, texts, t));
        assert(locates(place_all(content, texts), start_of(content, offset, texts, t), texts[t]));
        lemma_joined_cells_narrow(runs[t].rows, flat_cells(runs[t].rows));
        lemma_narrow_len(table_text(runs[t].rows));
    }
}

/// Texts joined by single spaces.
pub open spec fn joined_by_spaces(texts: Seq<Seq<char>>) -> Seq<char>
    decreases texts.len(),
{
    if texts.len() == 0 {
        Seq::empty()
    } else {
        let a = joined_by_spaces(texts.drop_last());
        if a.len() == 0 {
            texts.last()
        } else {
            a.push(' ') + texts.last()
        }
    }
}

/// The texts of cells.
pub open spec fn cell_texts(cells: Seq<TableCell>) -> Seq<Seq<char>> {
    cells.map_values(|c: TableCell| c.content@)
}

proof fn lemma_cells_joined(t: Table, run: RunView, col_count: int, page_number: i32, start: int, k: int)
    requires
        table_from(t, run, col_count, page_number, start),
        0 <= k <= t.cells@.len(),
    ensures
        joined_cells(run.rows, flat_cells(run.rows).take(k)) == joined_by_spaces(
            cell_texts(t.cells@).take(k),
        ),
    decreases k,
{
    let fc = flat_cells(run.rows);
    if k > 0 {
        lemma_cells_joined(t, run, col_count, page_number, start, k - 1);
        assert(fc.take(k).drop_last() =~= fc.take(k - 1));
        assert(cell_texts(t.cells@).take(k).drop_last() =~= cell_texts(t.cells@).take(k - 1));
        assert(cell_from(t.cells@[k - 1], run.rows, k - 1, page_number, start));
    } else {
        assert(cell_texts(t.cells@).take(0) =~= Seq::<Seq<char>>::empty());
    }
}

/// A table built at running offset `o0` after content `c0`, whose offset
/// is its UTF-16 length: the table text is its cells' texts joined by
/// spaces, it goes after `c0` (past a newline when `c0` is not empty), the
/// table's span selects it there, and the new offset is the new content's
/// UTF-16 length. Stated when the new offset fits an `i32` (spans hold
/// `i32` offsets).
pub proof fn lemma_built_table(
    t: Table,
    run: RunView,
    col_count: int,
    page_number: i32,
    c0: Seq<char>,
    o0: int,
)
    requires
        table_from(t, run, col_count, page_number, placed_at(c0, o0, table_text(run.rows))),
        o0 == utf16_len(c0),
        placed_at(c0, o0, table_text(run.rows)) + table_text(run.rows).len() <= i32::MAX,
    ensures
        table_text(run.rows) == joined_by_spaces(cell_texts(t.cells@)),
        t.spans@.len() == 1,
        t.spans@[0].length == utf16_len(table_text(run.rows)),
        locates(place_text(c0, table_text(run.rows)), t.spans@[0].offset as int, table_text(run.rows)),
        placed_at(c0, o0, table_text(run.rows)) + table_text(run.rows).len() == utf16_len(
            place_text(c0, table_text(run.rows)),
        ),
{
    let fc = flat_cells(run.rows);
    lemma_cells_joined(t, run, col_count, page_number, placed_at(c0, o0, table_text(run.rows)), t.cells@.len() as int);
    assert(fc.take(fc.len() as int) =~= fc);
    assert(cell_texts(t.cells@).take(t.cells@.len() as int) =~= cell_texts(t.cells@));
    let runs = seq![run];
    lemma_table_spans_locate(c0, o0, runs);
    assert(runs.drop_last() =~= Seq::<RunView>::empty());
    assert(runs.take(0) =~= Seq::<RunView>::empty());
    assert(runs[0] == run);
    assert(table_located(content_after_tables(c0, runs), c0, o0, runs, 0));
}

/// Strictly increasing indices (so none repeats).
pub open spec fn increasing(s: Seq<usize>) -> bool {
    forall|a: int, b: int| 0 <= a < b < s.len() ==> s[a] < s[b]
}

proof fn lemma_increasing_concat(x: Seq<usize>, y: Seq<usize>, bound: int)
    requires
        increasing(x),
        increasing(y),
        forall|a: int| 0 <= a < x.len() ==> x[a] < bound,
        forall|b: int| 0 <= b < y.len() ==> bound <= y[b],
    ensures
        increasing(x + y),
{
    assert forall|a: int, b: int| 0 <= a < b < (x + y).len() implies (x + y)[a] < (x + y)[b] by {
        if b < x.len() {
        } else if a < x.len() {
            assert(x[a] < bound);
            assert(bound <= y[b - x.len()]);
        } else {
            assert(y[a - x.len()] < y[b - x.len()]);
        }
    }
}

proof fn lemma_row_entry_lines(lines: Seq<LineView>, cols: Seq<Column>, i: int, j: int)
    requires
        0 <= j <= lines.len(),
        lines.len() <= usize::MAX,
    ensures
        increasing(entry_lines(row_entries(lines, cols, i, j))),
        forall|t: int|
            0 <= t < row_entries(lines, cols, i, j).len() ==> j <= (#[trigger] entry_lines(
                row_entries(lines, cols, i, j),
            )[t]) < row_end(lines, i, j),
    decreases lines.len() - j,
{
    if j < lines.len() && same_row(lines, i, j) {
        lemma_row_entry_lines(lines, cols, i, j + 1);
        let rest = row_entries(lines, cols, i, j + 1);
        let e = row_entries(lines, cols, i, j);
        assert(row_end(lines, i, j) == row_end(lines, i, j + 1));
        lemma_row_end(lines, i, j + 1);
        if let Some(c) = column_of(lines[j].min_x, cols) {
            assert(e == seq![(j as usize, c)] + rest);
            assert(entry_lines(e) =~= seq![j as usize] + entry_lines(rest));
            lemma_increasing_concat(seq![j as usize], entry_lines(rest), j + 1);
            assert forall|t: int| 0 <= t < e.len() implies j <= (#[trigger] entry_lines(e)[t]) < row_end(
                lines,
                i,
                j,
            ) by {
                if t > 0 {
                    assert(entry_lines(e)[t] == entry_lines(rest)[t - 1]);
                }
            }
        } else {
            assert(e == rest);
        }
    }
}

/// The lines a run records are increasing, from its start up to its end;
/// one equal to its end is the lone line of a row too short to start a
/// run there.
pub open spec fn run_lines_ok(lines: Seq<LineView>, cols: Seq<Column>, i: int, run: RunView) -> bool {
    &&& increasing(run.line_indices)
    &&& forall|t: int| 0 <= t < run.line_indices.len() ==> i <= #[trigger] run.line_indices[t] <= run.end
    &&& forall|t: int| 0 <= t < run.line_indices.len() ==> #[trigger] run.line_indices[t] < lines.len()
    &&& (run.line_indices.len() > 0 && run.line_indices.last() == run.end) ==> run_from(
        lines,
        cols,
        run.end,
    ).rows.len() == 0
}

proof fn lemma_run_lines(lines: Seq<LineView>, cols: Seq<Column>, i: int)
    requires
        0 <= i <= lines.len(),
        lines.len() <= usize::MAX,
    ensures
        run_lines_ok(lines, cols, i, run_from(lines, cols, i)),
    decreases lines.len() - i,
{
    let run = run_from(lines, cols, i);
    if i < lines.len() {
        if let Some(c) = column_of(lines[i].min_x, cols) {
            let entries = row_entries(lines, cols, i, i + 1);
            let row = seq![(i as usize, c)] + entries;
            lemma_row_entry_lines(lines, cols, i, i + 1);
            lemma_row_end(lines, i, i + 1);
            let j = row_end(lines, i, i + 1);
            assert(entry_lines(row) =~= seq![i as usize] + entry_lines(entries));
            lemma_increasing_concat(seq![i as usize], entry_lines(entries), i + 1);
            if row.len() >= MIN_TABLE_COLUMNS {
                lemma_run_lines(lines, cols, j);
                let rest = run_from(lines, cols, j);
                lemma_run_end(lines, cols, j);
                assert(run.line_indices == entry_lines(row) + rest.line_indices);
                assert forall|t: int| 0 <= t < entry_lines(row).len() implies #[trigger] entry_lines(row)[t] < j by {
                    if t > 0 {
                        assert(entry_lines(row)[t] == entry_lines(entries)[t - 1]);
                    }
                }
                lemma_increasing_concat(entry_lines(row), rest.line_indices, j);
                assert forall|t: int| 0 <= t < run.line_indices.len() implies i <= #[trigger] run.line_indices[t]
                    <= run.end && run.line_indices[t] < lines.len() by {
                    if t < entry_lines(row).len() {
                        assert(run.line_indices[t] == entry_lines(row)[t]);
                        if t > 0 {
                            assert(entry_lines(row)[t] == entry_lines(entries)[t - 1]);
                        }
                    } else {
                        assert(run.line_indices[t] == rest.line_indices[t - entry_lines(row).len()]);
                    }
                }
                if rest.line_indices.len() > 0 {
                    assert(run.line_indices.last() == rest.line_indices.last());
                } else if run.line_indices.len() > 0 {
                    assert(run.line_indices.last() < j);
                    assert(j <= rest.end);
                }
            } else {
                assert(entries.len() == 0);
                assert(entry_lines(row) =~= seq![i as usize]);
            }
        }
    }
}

proof fn lemma_runs_lines_prepend(run: RunView, rest: Seq<RunView>)
    ensures
        runs_lines(seq![run] + rest) == run.line_indices + runs_lines(rest),
    decreases rest.len(),
{
    if rest.len() == 0 {
        assert(seq![run] + rest =~= seq![run]);
        assert(seq![run].drop_last() =~= Seq::<RunView>::empty());
        assert(seq![run].last() == run);
        assert(runs_lines(seq![run]) == runs_lines(seq![run].drop_last()) + run.line_indices);
        assert(runs_lines(Seq::<RunView>::empty()) == Seq::<usize>::empty());
        assert(run.line_indices + runs_lines(rest) =~= run.line_indices);
        assert(Seq::<usize>::empty() + run.line_indices =~= run.line_indices);
    } else {
        lemma_runs_lines_prepend(run, rest.drop_last());
        assert((seq![run] + rest).drop_last() =~= seq![run] + rest.drop_last());
        assert((seq![run] + rest).last() == rest.last());
        assert(run.line_indices + runs_lines(rest) =~= run.line_indices + runs_lines(rest.drop_last())
            + rest.last().line_indices);
    }
}

proof fn lemma_accepted_lines(lines: Seq<LineView>, cols: Seq<Column>, r: int)
    requires
        0 <= r,
        lines.len() <= usize::MAX,
    ensures
        increasing(runs_lines(accepted_runs(lines, cols, r))),
        forall|t: int|
            0 <= t < runs_lines(accepted_runs(lines, cols, r)).len() ==> r <= #[trigger] runs_lines(
                accepted_runs(lines, cols, r),
            )[t],
    decreases lines.len() - r,
{
    if r < lines.len() {
        let run = run_from(lines, cols, r);
        lemma_run_end(lines, cols, r);
        if run.rows.len() >= MIN_TABLE_ROWS && cols.len() >= MIN_TABLE_COLUMNS {
            lemma_run_lines(lines, cols, r);
            let ix = run.line_indices;
            let bound = if ix.len() > 0 && ix.last() == run.end {
                run.end + 1
            } else {
                run.end
            };
            let rest = accepted_runs(lines, cols, run.end);
            if ix.len() > 0 && ix.last() == run.end {
                assert(run_from(lines, cols, run.end).rows.len() == 0);
                assert(run.end < lines.len());
                assert(rest == accepted_runs(lines, cols, run.end + 1));
                lemma_accepted_lines(lines, cols, run.end + 1);
            } else {
                lemma_accepted_lines(lines, cols, run.end);
            }
            assert forall|a: int| 0 <= a < ix.len() implies ix[a] < bound by {
                if a < ix.len() - 1 {
                    assert(ix[a] < ix[ix.len() - 1]);
                }
            }
            assert(accepted_runs(lines, cols, r) == seq![run] + rest);
            lemma_runs_lines_prepend(run, rest);
            lemma_increasing_concat(ix, runs_lines(rest), bound);
            let all = runs_lines(accepted_runs(lines, cols, r));
            assert forall|t: int| 0 <= t < all.len() implies r <= #[trigger] all[t] by {
                if t < ix.len() {
                    assert(all[t] == ix[t]);
                } else {
                    assert(all[t] == runs_lines(rest)[t - ix.len()]);
                }
            }
        } else {
            lemma_accepted_lines(lines, cols, r + 1);
        }
    } else {
        assert(runs_lines(accepted_runs(lines, cols, r)) =~= Seq::<usize>::empty());
    }
}

/// Detected tables do not overlap: the lines they use, table after table,
/// are strictly increasing, so no line belongs to two tables (scanning
/// resumes where an accepted table ends).
pub proof fn lemma_tables_disjoint(lines: Seq<LineView>)
    requires
        lines.len() <= usize::MAX,
    ensures
        increasing(runs_lines(table_runs(lines))),
{
    if lines.len() >= MIN_TABLE_ROWS && line_columns(lines).len() >= MIN_TABLE_COLUMNS {
        lemma_accepted_lines(lines, line_columns(lines), 0);
    } else {
        assert(runs_lines(table_runs(lines)) =~= Seq::<usize>::empty());
    }
}

} // verus!
