use vstd::math::{max, min};
use vstd::prelude::*;

use crate::apo::ant_map_traits::AntMapInfo;

verus! {

// A map over `n` nodes keeps, for each of its two kinds of information
// (distance and pheromone), a lower-triangular table: row `i` holds the
// values between node `i` and the nodes `0 .. i`. The value between two
// nodes is read from and written to the row of the larger index.

/// The contents of a table, row by row.
pub open spec fn table<V>(rows: &Vec<Vec<V>>) -> Seq<Seq<V>> {
    rows@.map_values(|r: Vec<V>| r@)
}

/// `t` is the lower-triangular table of a map over `n` nodes.
pub open spec fn is_triangular<V>(t: Seq<Seq<V>>, n: nat) -> bool {
    &&& t.len() == n
    &&& forall|i: int| 0 <= i < n ==> #[trigger] t[i].len() == i
}

/// `a` and `b` have the same number of rows, and each row the same length.
pub open spec fn same_shape<V>(a: Seq<Seq<V>>, b: Seq<Seq<V>>) -> bool {
    &&& a.len() == b.len()
    &&& forall|i: int| 0 <= i < a.len() ==> #[trigger] a[i].len() == b[i].len()
}

/// The cell (row, column) that holds the value between `start` and `end`.
pub open spec fn cell_of(start: int, end: int) -> (int, int) {
    if start < end {
        (end, start)
    } else {
        (start, end)
    }
}

/// The answer of a lookup of the value between `start` and `end`; a node is
/// at `diagonal` from itself.
pub open spec fn lookup<V>(t: Seq<Seq<V>>, start: int, end: int, diagonal: V) -> Result<V, Seq<char>> {
    if start == end {
        Ok(diagonal)
    } else {
        let (r, c) = cell_of(start, end);
        if r >= t.len() {
            Err("No line"@)
        } else if c >= t[r].len() {
            Err("No column"@)
        } else {
            Ok(t[r][c])
        }
    }
}

/// A lookup's result with its message taken by view.
pub open spec fn viewed<V>(r: Result<V, String>) -> Result<V, Seq<char>> {
    match r {
        Ok(v) => Ok(v),
        Err(e) => Err(e@),
    }
}

/// The table read for `info`.
pub open spec fn selected<V>(info: AntMapInfo, distances: Seq<Seq<V>>, pheromones: Seq<Seq<V>>) -> Seq<Seq<V>> {
    match info {
        AntMapInfo::Distance => distances,
        AntMapInfo::Pheromone => pheromones,
    }
}

/// `t` with the value between `start` and `end` set to `value`; a node's
/// value with itself is never stored, so `start == end` leaves `t` as it is.
pub open spec fn set_value<V>(t: Seq<Seq<V>>, start: int, end: int, value: V) -> Seq<Seq<V>> {
    if start == end {
        t
    } else {
        let (r, c) = cell_of(start, end);
        t.update(r, t[r].update(c, value))
    }
}

/// The value between `start` and `end` can be written: its cell exists.
pub open spec fn cell_exists<V>(t: Seq<Seq<V>>, start: int, end: int) -> bool {
    start != end ==> {
        let (r, c) = cell_of(start, end);
        0 <= c && r < t.len() && c < t[r].len()
    }
}

/// The first row, from `i` on, whose length differs between `a` and `b`, or
/// `a.len()` when there is none.
pub open spec fn first_row_mismatch<V>(a: Seq<Seq<V>>, b: Seq<Seq<V>>, i: int) -> int
    decreases a.len() - i,
{
    if i < 0 || i >= a.len() || i >= b.len() {
        a.len() as int
    } else if a[i].len() != b[i].len() {
        i
    } else {
        first_row_mismatch(a, b, i + 1)
    }
}

/// The table after `update_pheromones` replaced the rows of `a` by those of
/// `b`: nothing when the row counts differ, otherwise every row before the
/// first row whose length differs (all of them when there is none).
pub open spec fn replaced_rows<V>(a: Seq<Seq<V>>, b: Seq<Seq<V>>) -> Seq<Seq<V>> {
    if a.len() != b.len() {
        a
    } else {
        let k = first_row_mismatch(a, b, 0);
        b.take(k) + a.skip(k)
    }
}

/// A table's rows are the views of the vectors it is made of.
pub proof fn lemma_table_rows<V>(rows: &Vec<Vec<V>>)
    ensures
        table(rows).len() == rows@.len(),
        forall|i: int| #![trigger table(rows)[i]] #![trigger rows@[i]] 0 <= i < rows@.len() ==> table(rows)[i] == rows@[i]@,
{
}

/// The cell of the value between two nodes of a one-directional map, `None`
/// for a node and itself.
pub fn info_cell(start: usize, end: usize) -> (cell: Option<(usize, usize)>)
    ensures
        start == end ==> cell is None,
        start != end ==> cell == Some((cell_of(start as int, end as int).0 as usize, cell_of(start as int, end as int).1 as usize)),
        start > end ==> cell == Some((start, end)),
        start < end ==> cell == Some((end, start)),
{
    if start == end {
        None
    } else if start < end {
        Some((end, start))
    } else {
        Some((start, end))
    }
}

/// Builds the distance and pheromone tables of a map over `n` nodes: row `i`
/// of the distances holds `distance_of(i, j)` for each `j < i`, and row `i`
/// of the pheromones holds `i` copies of `phero_initializer`.
pub fn init_map_info<V: Copy, F: Fn(usize, usize) -> V>(
    n: usize,
    phero_initializer: V,
    distance_of: F,
) -> (info: (Vec<Vec<V>>, Vec<Vec<V>>))
    requires
        forall|i: usize, j: usize| j < i < n ==> call_requires(distance_of, (i, j)),
    ensures
        is_triangular(table(&info.0), n as nat),
        is_triangular(table(&info.1), n as nat),
        info.0@.len() == n && info.1@.len() == n,
        forall|i: int| #![trigger info.0@[i]] #![trigger info.1@[i]] 0 <= i < n ==> info.0@[i]@.len() == i && info.1@[i]@.len() == i,
        forall|i: int, j: int| 0 <= j < i < n ==> call_ensures(distance_of, (i as usize, j as usize), #[trigger] table(&info.0)[i][j]),
        forall|i: int, j: int| 0 <= j < i < n ==> #[trigger] table(&info.1)[i][j] == phero_initializer,
{
    let mut distances: Vec<Vec<V>> = Vec::new();
    let mut pheromones: Vec<Vec<V>> = Vec::new();
    let mut line: usize = 0;
    while line < n
        invariant
            line <= n,
            forall|i: usize, j: usize| j < i < n ==> call_requires(distance_of, (i, j)),
            is_triangular(table(&distances), line as nat),
            is_triangular(table(&pheromones), line as nat),
            forall|i: int, j: int| 0 <= j < i < line ==> call_ensures(distance_of, (i as usize, j as usize), #[trigger] table(&distances)[i][j]),
            forall|i: int, j: int| 0 <= j < i < line ==> #[trigger] table(&pheromones)[i][j] == phero_initializer,
        decreases n - line,
    {
        let mut row: Vec<V> = Vec::new();
        let mut phero_row: Vec<V> = Vec::new();
        let mut column: usize = 0;
        while column < line
            invariant
                column <= line < n,
                forall|i: usize, j: usize| j < i < n ==> call_requires(distance_of, (i, j)),
                row@.len() == column,
                phero_row@.len() == column,
                forall|j: int| 0 <= j < column ==> call_ensures(distance_of, (line, j as usize), #[trigger] row@[j]),
                forall|j: int| 0 <= j < column ==> #[trigger] phero_row@[j] == phero_initializer,
            decreases line - column,
        {
            row.push(distance_of(line, column));
            phero_row.push(phero_initializer);
            column += 1;
        }
        let ghost (old_d, old_p, rv, pv) = (table(&distances), table(&pheromones), row@, phero_row@);
        distances.push(row);
        pheromones.push(phero_row);
        assert(table(&distances) =~= old_d.push(rv));
        assert(table(&pheromones) =~= old_p.push(pv));
        line += 1;
    }
    proof {
        lemma_table_rows(&distances);
        lemma_table_rows(&pheromones);
    }
    (distances, pheromones)
}

/// The value between `start_node` and `end_node` in the table chosen by
/// `info`; a node is at `diagonal` from itself. A missing row or column is
/// reported as "No line" or "No column".
pub fn fetch_value_from<V: Copy>(
    distances: &Vec<Vec<V>>,
    pheromones: &Vec<Vec<V>>,
    info: AntMapInfo,
    start_node: usize,
    end_node: usize,
    diagonal: V,
) -> (value: Result<V, String>)
    ensures
        viewed(value) == lookup(
            selected(info, table(distances), table(pheromones)),
            start_node as int,
            end_node as int,
            diagonal,
        ),
        info is Distance ==> viewed(value) == lookup(table(distances), start_node as int, end_node as int, diagonal),
        info is Pheromone ==> viewed(value) == lookup(table(pheromones), start_node as int, end_node as int, diagonal),
        start_node == end_node ==> value == Ok::<V, String>(diagonal),
        ({
            let t = if info is Pheromone { table(pheromones) } else { table(distances) };
            let (hi, lo) = (max(start_node as int, end_node as int), min(start_node as int, end_node as int));
            start_node != end_node && hi < t.len() && lo < t[hi].len() ==> value == Ok::<V, String>(t[hi][lo])
        }),
        ({
            let t = if info is Pheromone { table(pheromones) } else { table(distances) };
            let hi = max(start_node as int, end_node as int);
            start_node != end_node && hi >= t.len() ==> (value matches Err(e) && e@ == "No line"@)
        }),
        ({
            let t = if info is Pheromone { table(pheromones) } else { table(distances) };
            let (hi, lo) = (max(start_node as int, end_node as int), min(start_node as int, end_node as int));
            start_node != end_node && hi < t.len() && lo >= t[hi].len() ==> (value matches Err(e) && e@ == "No column"@)
        }),
{
    proof {
        lemma_selected_tables(info, table(distances), table(pheromones));
    }
    let map = match info {
        AntMapInfo::Distance => distances,
        AntMapInfo::Pheromone => pheromones,
    };
    match info_cell(start_node, end_node) {
        None => Ok(diagonal),
        Some((row, column)) => {
            if row < map.len() {
                if column < map[row].len() {
                    Ok(map[row][column])
                } else {
                    Err("No column".to_owned())
                }
            } else {
                Err("No line".to_owned())
            }
        },
    }
}

/// The values between `start_node` and each of the nodes `0 .. number_of_nodes`,
/// in the table chosen by `info`.
pub fn fetch_info<V: Copy>(
    distances: &Vec<Vec<V>>,
    pheromones: &Vec<Vec<V>>,
    number_of_nodes: usize,
    start_node: usize,
    info: AntMapInfo,
    diagonal: V,
) -> (values: Vec<V>)
    requires
        forall|k: int|
            0 <= k < number_of_nodes ==> #[trigger] lookup(
                selected(info, table(distances), table(pheromones)),
                start_node as int,
                k,
                diagonal,
            ) is Ok,
    ensures
        values@.len() == number_of_nodes,
        forall|k: int|
            0 <= k < number_of_nodes ==> Ok::<V, Seq<char>>(#[trigger] values@[k]) == lookup(
                selected(info, table(distances), table(pheromones)),
                start_node as int,
                k,
                diagonal,
            ),
        info is Distance ==> forall|k: int|
            0 <= k < number_of_nodes ==> Ok::<V, Seq<char>>(#[trigger] values@[k]) == lookup(table(distances), start_node as int, k, diagonal),
        info is Pheromone ==> forall|k: int|
            0 <= k < number_of_nodes ==> Ok::<V, Seq<char>>(#[trigger] values@[k]) == lookup(table(pheromones), start_node as int, k, diagonal),
{
    proof {
        lemma_selected_tables(info, table(distances), table(pheromones));
    }
    let ghost t = selected(info, table(distances), table(pheromones));
    let mut values: Vec<V> = Vec::new();
    let mut node_index: usize = 0;
    while node_index < number_of_nodes
        invariant
            node_index <= number_of_nodes,
            t == selected(info, table(distances), table(pheromones)),
            forall|k: int| 0 <= k < number_of_nodes ==> #[trigger] lookup(t, start_node as int, k, diagonal) is Ok,
            values@.len() == node_index,
            forall|k: int| 0 <= k < node_index ==> Ok::<V, Seq<char>>(#[trigger] values@[k]) == lookup(t, start_node as int, k, diagonal),
        decreases number_of_nodes - node_index,
    {
        let value = fetch_value_from(distances, pheromones, info, start_node, node_index, diagonal);
        assert(lookup(t, start_node as int, node_index as int, diagonal) is Ok);
        match value {
            Ok(v) => values.push(v),
            Err(_) => {},
        }
        node_index += 1;
    }
    values
}

/// Sets the pheromone between `start_node` and `end_node` to `new_value`;
/// nothing is stored between a node and itself.
pub fn update_pheromone<V>(pheromones: &mut Vec<Vec<V>>, start_node: usize, end_node: usize, new_value: V)
    requires
        cell_exists(table(old(pheromones)), start_node as int, end_node as int),
    ensures
        table(final(pheromones)) == set_value(table(old(pheromones)), start_node as int, end_node as int, new_value),
        start_node == end_node ==> table(final(pheromones)) == table(old(pheromones)),
        start_node != end_node ==> {
            let t = table(old(pheromones));
            let (hi, lo) = (max(start_node as int, end_node as int), min(start_node as int, end_node as int));
            table(final(pheromones)) == t.update(hi, t[hi].update(lo, new_value))
        },
{
    match info_cell(start_node, end_node) {
        None => {},
        Some((row, column)) => {
            let ghost t = table(pheromones);
            pheromones[row][column] = new_value;
            assert(table(pheromones) =~= t.update(row as int, t[row as int].update(column as int, new_value)));
        },
    }
}

/// Combines `value` into the cell between `start_node` and `end_node` of a
/// one-directional map's table: the cell becomes `combine(cell, value)`.
pub fn helper_add_to_info<V: Copy, F: Fn(V, V) -> V>(
    info: &mut Vec<Vec<V>>,
    value: V,
    start_node: usize,
    end_node: usize,
    combine: F,
)
    requires
        cell_exists(table(old(info)), start_node as int, end_node as int),
        start_node != end_node ==> call_requires(
            combine,
            (table(old(info))[cell_of(start_node as int, end_node as int).0][cell_of(start_node as int, end_node as int).1], value),
        ),
    ensures
        start_node == end_node ==> table(final(info)) == table(old(info)),
        start_node != end_node ==> {
            let (r, c) = cell_of(start_node as int, end_node as int);
            &&& call_ensures(combine, (table(old(info))[r][c], value), table(final(info))[r][c])
            &&& table(final(info)) == set_value(table(old(info)), start_node as int, end_node as int, table(final(info))[r][c])
        },
        start_node != end_node ==> {
            let t = table(old(info));
            let (hi, lo) = (max(start_node as int, end_node as int), min(start_node as int, end_node as int));
            &&& call_ensures(combine, (t[hi][lo], value), table(final(info))[hi][lo])
            &&& table(final(info)) == t.update(hi, t[hi].update(lo, table(final(info))[hi][lo]))
        },
{
    match info_cell(start_node, end_node) {
        None => {},
        Some((row, column)) => {
            let ghost t = table(info);
            let sum = combine(info[row][column], value);
            info[row][column] = sum;
            assert(table(info) =~= t.update(row as int, t[row as int].update(column as int, sum)));
        },
    }
}

/// Combines `value` into the cell from `start_node` to `end_node` of a
/// two-directional map's table, whose row is always `start_node`: the cell
/// becomes `combine(cell, value)`.
pub fn helper_add_to_info_bidirecional<V: Copy, F: Fn(V, V) -> V>(
    info: &mut Vec<Vec<V>>,
    value: V,
    start_node: usize,
    end_node: usize,
    combine: F,
)
    requires
        start_node != end_node ==> start_node < old(info)@.len() && end_node < old(info)@[start_node as int]@.len(),
        start_node != end_node ==> call_requires(combine, (table(old(info))[start_node as int][end_node as int], value)),
    ensures
        start_node == end_node ==> table(final(info)) == table(old(info)),
        start_node != end_node ==> {
            let t = table(old(info));
            let (r, c) = (start_node as int, end_node as int);
            &&& call_ensures(combine, (t[r][c], value), table(final(info))[r][c])
            &&& table(final(info)) == t.update(r, t[r].update(c, table(final(info))[r][c]))
        },
{
    if start_node != end_node {
        let ghost t = table(info);
        let sum = combine(info[start_node][end_node], value);
        info[start_node][end_node] = sum;
        assert(table(info) =~= t.update(start_node as int, t[start_node as int].update(end_node as int, sum)));
    }
}

/// A table of the shape of `rows` with every cell set to `zero`.
pub fn get_empty_map_info<V: Copy>(rows: &Vec<Vec<V>>, zero: V) -> (empty: Vec<Vec<V>>)
    ensures
        same_shape(table(&empty), table(rows)),
        empty@.len() == rows@.len(),
        forall|i: int| 0 <= i < rows@.len() ==> #[trigger] empty@[i]@.len() == rows@[i]@.len(),
        forall|i: int, j: int|
            0 <= i < table(&empty).len() && 0 <= j < table(&empty)[i].len() ==> #[trigger] table(&empty)[i][j] == zero,
{
    let mut empty: Vec<Vec<V>> = Vec::new();
    let mut i: usize = 0;
    while i < rows.len()
        invariant
            i <= rows@.len(),
            table(&empty).len() == i,
            forall|l: int| 0 <= l < i ==> #[trigger] table(&empty)[l].len() == table(rows)[l].len(),
            forall|l: int, j: int|
                0 <= l < i && 0 <= j < table(&empty)[l].len() ==> #[trigger] table(&empty)[l][j] == zero,
        decreases rows@.len() - i,
    {
        let mut line: Vec<V> = Vec::new();
        let mut j: usize = 0;
        while j < rows[i].len()
            invariant
                i < rows@.len(),
                j <= rows@[i as int]@.len(),
                line@.len() == j,
                forall|k: int| 0 <= k < j ==> #[trigger] line@[k] == zero,
            decreases rows@[i as int]@.len() - j,
        {
            line.push(zero);
            j += 1;
        }
        let ghost (old_t, lv) = (table(&empty), line@);
        empty.push(line);
        assert(table(&empty) =~= old_t.push(lv));
        i += 1;
    }
    proof {
        lemma_table_rows(&empty);
        lemma_table_rows(rows);
    }
    empty
}

/// Replaces the pheromone table by `pheromones`, row by row. A different
/// number of rows is refused ("Row count mismatch") before anything is
/// written; a row of a different length is refused ("Column count
/// mismatch") once the rows before it have been replaced.
pub fn update_pheromones<V: Copy>(current: &mut Vec<Vec<V>>, pheromones: Vec<Vec<V>>) -> (result: Result<(), &'static str>)
    ensures
        table(final(current)) == replaced_rows(table(old(current)), table(&pheromones)),
        table(old(current)).len() != table(&pheromones).len() ==> (result matches Err(e) && e@ == "Row count mismatch"@),
        table(old(current)).len() == table(&pheromones).len() ==> {
            let k = first_row_mismatch(table(old(current)), table(&pheromones), 0);
            &&& k < table(old(current)).len() ==> (result matches Err(e) && e@ == "Column count mismatch"@)
            &&& k == table(old(current)).len() ==> result is Ok
        },
        same_shape(table(old(current)), table(&pheromones)) ==> {
            &&& result is Ok
            &&& table(final(current)) == table(&pheromones)
        },
        old(current)@.len() == pheromones@.len()
            && (forall|i: int| 0 <= i < pheromones@.len() ==> #[trigger] old(current)@[i]@.len() == pheromones@[i]@.len())
            ==> {
            &&& result is Ok
            &&& final(current)@.len() == pheromones@.len()
            &&& forall|i: int| 0 <= i < pheromones@.len() ==> #[trigger] final(current)@[i]@ == pheromones@[i]@
        },
        forall|k: int|
            0 <= k < table(old(current)).len() && table(old(current)).len() == table(&pheromones).len()
                && #[trigger] table(old(current))[k].len() != table(&pheromones)[k].len()
                && (forall|l: int| 0 <= l < k ==> #[trigger] table(old(current))[l].len() == table(&pheromones)[l].len())
                ==> {
                &&& (result matches Err(e) && e@ == "Column count mismatch"@)
                &&& table(final(current)) == table(&pheromones).take(k) + table(old(current)).skip(k)
            },
{
    proof {
        lemma_table_rows(current);
        lemma_table_rows(&pheromones);
        lemma_same_shape_replaced_whole(table(current), table(&pheromones));
        assert forall|k: int|
            0 <= k < table(current).len() && table(current).len() == table(&pheromones).len()
                && #[trigger] table(current)[k].len() != table(&pheromones)[k].len()
                && (forall|l: int| 0 <= l < k ==> #[trigger] table(current)[l].len() == table(&pheromones)[l].len())
            implies first_row_mismatch(table(current), table(&pheromones), 0) == k
                && replaced_rows(table(current), table(&pheromones)) == table(&pheromones).take(k) + table(current).skip(k) by {
            lemma_replaced_rows_at_first_mismatch(table(current), table(&pheromones), k);
        }
    }
    if current.len() != pheromones.len() {
        return Err("Row count mismatch");
    }
    let ghost old_t = table(current);
    let ghost new_t = table(&pheromones);
    let mut i: usize = 0;
    while i < pheromones.len()
        invariant
            i <= new_t.len(),
            old_t.len() == new_t.len(),
            old_t == table(old(current)),
            current@.len() == old_t.len(),
            new_t == table(&pheromones),
            forall|l: int| 0 <= l < i ==> #[trigger] old_t[l].len() == new_t[l].len(),
            first_row_mismatch(old_t, new_t, 0) == first_row_mismatch(old_t, new_t, i as int),
            table(current) == new_t.take(i as int) + old_t.skip(i as int),
        decreases new_t.len() - i,
    {
        assert(table(current)[i as int] == old_t[i as int]);
        if pheromones[i].len() != current[i].len() {
            return Err("Column count mismatch");
        }
        let ghost row_start = table(current);
        let mut j: usize = 0;
        while j < pheromones[i].len()
            invariant
                i < new_t.len(),
                new_t == table(&pheromones),
                old_t.len() == new_t.len(),
                row_start.len() == old_t.len(),
                j <= new_t[i as int].len(),
                new_t[i as int].len() == old_t[i as int].len(),
                row_start[i as int] == old_t[i as int],
                table(current).len() == row_start.len(),
                forall|l: int| 0 <= l < row_start.len() && l != i ==> #[trigger] table(current)[l] == row_start[l],
                table(current)[i as int] == new_t[i as int].take(j as int) + old_t[i as int].skip(j as int),
            decreases new_t[i as int].len() - j,
        {
            let ghost before = table(current);
            let v = pheromones[i][j];
            current[i][j] = v;
            assert(table(current) =~= before.update(i as int, before[i as int].update(j as int, v)));
            assert(table(current)[i as int] =~= new_t[i as int].take(j + 1) + old_t[i as int].skip(j + 1));
            j += 1;
        }
        assert(table(current)[i as int] =~= new_t[i as int]);
        assert(table(current) =~= new_t.take(i + 1) + old_t.skip(i + 1));
        i += 1;
    }
    assert(table(current) =~= new_t);
    assert(new_t.take(new_t.len() as int) + old_t.skip(new_t.len() as int) =~= new_t);
    proof {
        lemma_table_rows(current);
        lemma_table_rows(&pheromones);
    }
    Ok(())
}

/// The value between two nodes does not depend on the order in which they
/// are named, and a node is at `diagonal` from itself.
pub proof fn lemma_lookup_symmetric<V>(t: Seq<Seq<V>>, start: int, end: int, diagonal: V)
    ensures
        lookup(t, start, end, diagonal) == lookup(t, end, start, diagonal),
        lookup(t, start, start, diagonal) == Ok::<V, Seq<char>>(diagonal),
{
}

/// In the table of a map over `n` nodes, the value between any two of its
/// nodes is found, and its cell exists.
pub proof fn lemma_triangular_lookup_ok<V>(t: Seq<Seq<V>>, n: nat, start: int, end: int, diagonal: V)
    requires
        is_triangular(t, n),
        0 <= start < n,
        0 <= end < n,
    ensures
        lookup(t, start, end, diagonal) is Ok,
        cell_exists(t, start, end),
{
    if start != end {
        let (r, c) = cell_of(start, end);
        assert(t[r].len() == r);
    }
}

/// After the value between `start` and `end` is set, it is read back from
/// either side, and every other value reads as before.
pub proof fn lemma_lookup_after_set<V>(
    t: Seq<Seq<V>>,
    start: int,
    end: int,
    value: V,
    other_start: int,
    other_end: int,
    diagonal: V,
)
    requires
        cell_exists(t, start, end),
        start != end,
        0 <= other_start,
        0 <= other_end,
    ensures
        lookup(set_value(t, start, end, value), start, end, diagonal) == Ok::<V, Seq<char>>(value),
        lookup(set_value(t, start, end, value), end, start, diagonal) == Ok::<V, Seq<char>>(value),
        (other_start == other_end || cell_of(other_start, other_end) != cell_of(start, end)) ==> lookup(
            set_value(t, start, end, value),
            other_start,
            other_end,
            diagonal,
        ) == lookup(t, other_start, other_end, diagonal),
{
}

/// Setting a value keeps the table's shape, so a map's table stays triangular.
pub proof fn lemma_set_value_keeps_shape<V>(t: Seq<Seq<V>>, start: int, end: int, value: V)
    requires
        cell_exists(t, start, end),
    ensures
        same_shape(set_value(t, start, end, value), t),
{
}

/// A table of the same shape as the current one is always accepted whole by
/// `update_pheromones`, and only such a table is.
pub proof fn lemma_same_shape_accepted<V>(a: Seq<Seq<V>>, b: Seq<Seq<V>>)
    ensures
        (a.len() == b.len() && first_row_mismatch(a, b, 0) == a.len()) <==> same_shape(a, b),
{
    if a.len() == b.len() {
        lemma_row_mismatch_from(a, b, 0);
    }
}

proof fn lemma_row_mismatch_from<V>(a: Seq<Seq<V>>, b: Seq<Seq<V>>, i: int)
    requires
        0 <= i <= a.len(),
        a.len() == b.len(),
    ensures
        first_row_mismatch(a, b, i) == a.len() <==> forall|l: int| i <= l < a.len() ==> #[trigger] a[l].len() == b[l].len(),
        i <= first_row_mismatch(a, b, i) <= a.len(),
    decreases a.len() - i,
{
    if i < a.len() {
        lemma_row_mismatch_from(a, b, i + 1);
    }
}

/// Every value between two distinct nodes of freshly built pheromones is the
/// initial pheromone.
pub proof fn lemma_initial_pheromones<V>(t: Seq<Seq<V>>, n: nat, initial: V, start: int, end: int, diagonal: V)
    requires
        is_triangular(t, n),
        forall|i: int, j: int| 0 <= j < i < n ==> #[trigger] t[i][j] == initial,
        0 <= start < n,
        0 <= end < n,
        start != end,
    ensures
        lookup(t, start, end, diagonal) == Ok::<V, Seq<char>>(initial),
{
    let (r, c) = cell_of(start, end);
    assert(t[r].len() == r);
    assert(t[r][c] == initial);
}

/// Replacing the rows of a table, whether or not the replacement is
/// accepted, keeps the table's shape; so a map's pheromones stay triangular.
pub proof fn lemma_replaced_rows_keep_shape<V>(a: Seq<Seq<V>>, b: Seq<Seq<V>>)
    ensures
        same_shape(replaced_rows(a, b), a),
{
    if a.len() == b.len() {
        let k = first_row_mismatch(a, b, 0);
        lemma_row_mismatch_prefix(a, b, 0);
        let r = b.take(k) + a.skip(k);
        assert forall|i: int| 0 <= i < r.len() implies #[trigger] r[i].len() == a[i].len() by {
            if i < k {
                assert(r[i] == b[i]);
            } else {
                assert(r[i] == a[i]);
            }
        }
    }
}

proof fn lemma_row_mismatch_prefix<V>(a: Seq<Seq<V>>, b: Seq<Seq<V>>, i: int)
    requires
        0 <= i <= a.len(),
        a.len() == b.len(),
    ensures
        i <= first_row_mismatch(a, b, i) <= a.len(),
        forall|l: int| i <= l < first_row_mismatch(a, b, i) ==> #[trigger] a[l].len() == b[l].len(),
    decreases a.len() - i,
{
    if i < a.len() {
        lemma_row_mismatch_prefix(a, b, i + 1);
    }
}

/// A lookup for pheromones reads the pheromone table and one for distances
/// the distance table, whatever their sizes.
pub proof fn lemma_selected_tables<V>(info: AntMapInfo, distances: Seq<Seq<V>>, pheromones: Seq<Seq<V>>)
    ensures
        selected(AntMapInfo::Pheromone, distances, pheromones) == pheromones,
        selected(AntMapInfo::Distance, distances, pheromones) == distances,
        info is Pheromone ==> selected(info, distances, pheromones) == pheromones,
        info is Distance ==> selected(info, distances, pheromones) == distances,
{
}

/// The value between two distinct nodes is kept in the row of the larger
/// node, at the column of the smaller one.
pub proof fn lemma_cell_of_larger_row(start: int, end: int)
    requires
        start != end,
    ensures
        cell_of(start, end) == (max(start, end), min(start, end)),
        cell_of(start, end) == cell_of(end, start),
{
}

/// In the table of a map over `n` nodes, the value between two distinct nodes
/// is the cell at row `max(start, end)`, column `min(start, end)`.
pub proof fn lemma_lookup_reads_larger_row<V>(t: Seq<Seq<V>>, n: nat, start: int, end: int, diagonal: V)
    requires
        is_triangular(t, n),
        0 <= start < n,
        0 <= end < n,
        start != end,
    ensures
        max(start, end) < t.len(),
        min(start, end) < t[max(start, end)].len(),
        lookup(t, start, end, diagonal) == Ok::<V, Seq<char>>(t[max(start, end)][min(start, end)]),
{
    assert(t[max(start, end)].len() == max(start, end));
}

/// Setting the value between two distinct nodes writes exactly the cell at
/// row `max(start, end)`, column `min(start, end)`; every other cell is kept.
pub proof fn lemma_set_value_cell<V>(t: Seq<Seq<V>>, start: int, end: int, value: V, i: int, j: int)
    requires
        cell_exists(t, start, end),
        start != end,
        0 <= i < t.len(),
        0 <= j < t[i].len(),
    ensures
        set_value(t, start, end, value)[max(start, end)][min(start, end)] == value,
        (i, j) != (max(start, end), min(start, end)) ==> set_value(t, start, end, value)[i][j] == t[i][j],
{
}

/// A replacement of the same shape as the current table is taken whole.
pub proof fn lemma_same_shape_replaced_whole<V>(a: Seq<Seq<V>>, b: Seq<Seq<V>>)
    ensures
        same_shape(a, b) ==> first_row_mismatch(a, b, 0) == a.len(),
        same_shape(a, b) ==> replaced_rows(a, b) == b,
{
    if same_shape(a, b) {
        lemma_row_mismatch_from(a, b, 0);
        assert(b.take(a.len() as int) + a.skip(a.len() as int) =~= b);
    }
}

/// When row `k` is the first whose length differs, the rows before it are
/// replaced and the rows from it on are kept.
pub proof fn lemma_replaced_rows_at_first_mismatch<V>(a: Seq<Seq<V>>, b: Seq<Seq<V>>, k: int)
    requires
        a.len() == b.len(),
        0 <= k < a.len(),
        a[k].len() != b[k].len(),
        forall|l: int| 0 <= l < k ==> #[trigger] a[l].len() == b[l].len(),
    ensures
        first_row_mismatch(a, b, 0) == k,
        replaced_rows(a, b) == b.take(k) + a.skip(k),
{
    lemma_row_mismatch_before(a, b, k, 0);
}

proof fn lemma_row_mismatch_before<V>(a: Seq<Seq<V>>, b: Seq<Seq<V>>, k: int, i: int)
    requires
        a.len() == b.len(),
        0 <= i <= k < a.len(),
        a[k].len() != b[k].len(),
        forall|l: int| 0 <= l < k ==> #[trigger] a[l].len() == b[l].len(),
    ensures
        first_row_mismatch(a, b, i) == k,
    decreases k - i,
{
    if i < k {
        lemma_row_mismatch_before(a, b, k, i + 1);
    }
}

/// A lookup between two distinct nodes fails with "No line" when the row of
/// the larger node is missing, and with "No column" when that row is too
/// short to hold the smaller node; otherwise it reads that cell.
pub proof fn lemma_lookup_errors<V>(t: Seq<Seq<V>>, start: int, end: int, diagonal: V)
    requires
        start != end,
        0 <= start,
        0 <= end,
    ensures
        max(start, end) >= t.len() ==> lookup(t, start, end, diagonal) == Err::<V, Seq<char>>("No line"@),
        max(start, end) < t.len() && min(start, end) >= t[max(start, end)].len() ==> lookup(t, start, end, diagonal)
            == Err::<V, Seq<char>>("No column"@),
        max(start, end) < t.len() && min(start, end) < t[max(start, end)].len() ==> lookup(t, start, end, diagonal)
            == Ok::<V, Seq<char>>(t[max(start, end)][min(start, end)]),
{
}

} // verus!
