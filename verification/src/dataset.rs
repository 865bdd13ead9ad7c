//! The occurrence matrix of a discretised dataset.

use vstd::prelude::*;
use vstd::string::*;
use crate::order::{column, column_distinct, sorted_set, strs, table_of, lemma_sorted_set_unique};
pub use crate::merge::Merge;
use crate::reading::{
    csv_header_row, csv_records, line_fields, plain_line, plain_text, read_header_row, read_items, read_ok,
    read_records,
};
use crate::sparse::{matrix_fits, csc_entry, csc_valid, gram_of_csc, gram_sum, lane_sum, lemma_lane_sum_frame};

verus! {

/// The sequences of `s`, one after the other.
pub open spec fn concat_all<A>(s: Seq<Seq<A>>) -> Seq<A>
    decreases s.len(),
{
    if s.len() == 0 {
        Seq::empty()
    } else {
        concat_all(s.drop_last()) + s.last()
    }
}

/// The last position of `x` in `s`, or -1 when `x` does not occur (a map
/// built from `s` by inserting its elements in order keeps the last one).
pub open spec fn last_index(s: Seq<Seq<char>>, x: Seq<char>) -> int
    decreases s.len(),
{
    if s.len() == 0 {
        -1
    } else if s.last() == x {
        s.len() - 1
    } else {
        last_index(s.drop_last(), x)
    }
}

/// The first `k` feature positions as a map from feature name to sub-feature
/// names: one entry per position that holds the last occurrence of its name,
/// in the order of those positions.
pub open spec fn header_entries(
    headers: Seq<Seq<char>>,
    subheaders: Seq<Seq<Seq<char>>>,
    k: nat,
) -> Seq<(Seq<char>, Seq<Seq<char>>)>
    decreases k,
{
    if k == 0 {
        Seq::empty()
    } else {
        let prev = header_entries(headers, subheaders, (k - 1) as nat);
        if last_index(headers, headers[k - 1]) == k - 1 {
            prev.push((headers[k - 1], subheaders[k - 1]))
        } else {
            prev
        }
    }
}

/// What a `Dataset` holds.
pub struct DatasetModel {
    /// The feature names, in order.
    pub headers: Seq<Seq<char>>,
    /// For each feature position, the names of its sub-features.
    pub subheaders: Seq<Seq<Seq<char>>>,
    /// The number of records counted.
    pub instances: nat,
    /// The occurrence matrix by columns: `matrix[c][r]` is the entry in row
    /// `r` and column `c`; rows and columns follow `names()`.
    pub matrix: Seq<Seq<int>>,
}

impl DatasetModel {
    /// All sub-feature names, feature by feature.
    pub open spec fn names(self) -> Seq<Seq<char>> {
        concat_all(self.subheaders)
    }

    /// The matrix is square, of the size of `names()`, and each entry is a
    /// count between 0 and `instances`.
    pub open spec fn well_formed(self) -> bool {
        &&& self.subheaders.len() == self.headers.len()
        &&& self.matrix.len() == self.names().len()
        &&& forall|c: int|
            0 <= c < self.matrix.len() ==> (#[trigger] self.matrix[c]).len() == self.names().len()
        &&& forall|c: int, r: int|
            0 <= c < self.matrix.len() && 0 <= r < self.matrix.len() ==> 0 <= #[trigger] self.matrix[c][r]
                <= self.instances
        &&& self.instances <= isize::MAX
    }

    /// The entry whose row is the sub-feature named `a` and whose column is
    /// the one named `b`, if both names occur (the last occurrence of each).
    pub open spec fn intersection(self, a: Seq<char>, b: Seq<char>) -> Option<int> {
        let pa = last_index(self.names(), a);
        let pb = last_index(self.names(), b);
        if pa >= 0 && pb >= 0 {
            Some(self.matrix[pb][pa])
        } else {
            None
        }
    }

    /// The count of `intersection(a, b)`, 0 when a name is unknown.
    pub open spec fn count(self, a: Seq<char>, b: Seq<char>) -> int {
        match self.intersection(a, b) {
            Some(v) => v,
            None => 0,
        }
    }

    /// For the features named `fa` and `fb`, and each pair (x, y) of their
    /// sub-features: the counts of x, of y, and of x with y.
    pub open spec fn joint_counts(self, fa: Seq<char>, fb: Seq<char>) -> Option<Seq<Seq<(int, int, int)>>> {
        match (self.header_values(fa), self.header_values(fb)) {
            (Some(sa), Some(sb)) => Some(
                Seq::new(
                    sa.len(),
                    |i: int|
                        Seq::new(
                            sb.len(),
                            |j: int|
                                (
                                    self.count(sa[i], sa[i]),
                                    self.count(sb[j], sb[j]),
                                    self.count(sa[i], sb[j]),
                                ),
                        ),
                ),
            ),
            _ => None,
        }
    }

    /// Each feature name once, with the sub-feature names of its last
    /// occurrence.
    pub open spec fn subheader_entries(self) -> Seq<(Seq<char>, Seq<Seq<char>>)> {
        header_entries(self.headers, self.subheaders, self.headers.len())
    }

    /// The sub-feature names of the feature named `h` (its last occurrence).
    pub open spec fn header_values(self, h: Seq<char>) -> Option<Seq<Seq<char>>> {
        let i = last_index(self.headers, h);
        if i >= 0 {
            Some(self.subheaders[i])
        } else {
            None
        }
    }
}

/// The name of the sub-feature "feature `h` takes value `v`": `h_v`.
pub open spec fn subheader_name(h: Seq<char>, v: Seq<char>) -> Seq<char> {
    h + seq!['_'] + v
}

/// The distinct values of field `c` over the records, in increasing order.
pub open spec fn distinct_values(table: Seq<Seq<Seq<char>>>, c: int) -> Seq<Seq<char>> {
    sorted_set(column(table, c))
}

/// The pairs (field, value) of field `c`, one per distinct value.
pub open spec fn cell_block(table: Seq<Seq<Seq<char>>>, c: int) -> Seq<(int, Seq<char>)> {
    distinct_values(table, c).map_values(|v: Seq<char>| (c, v))
}

/// The pairs (field, value) of the first `k` fields.
pub open spec fn cells_upto(table: Seq<Seq<Seq<char>>>, k: int) -> Seq<(int, Seq<char>)> {
    concat_all(Seq::new(k as nat, |c: int| cell_block(table, c)))
}

/// Whether a record takes the value of a pair (field, value).
pub open spec fn takes_cell(row: Seq<Seq<char>>, cell: (int, Seq<char>)) -> bool {
    row[cell.0] == cell.1
}

/// The number of records that take both pairs (field, value) `x` and `y`.
pub open spec fn co_count(table: Seq<Seq<Seq<char>>>, x: (int, Seq<char>), y: (int, Seq<char>)) -> nat
    decreases table.len(),
{
    if table.len() == 0 {
        0
    } else {
        co_count(table.drop_last(), x, y) + (if takes_cell(table.last(), x) && takes_cell(table.last(), y) {
            1nat
        } else {
            0nat
        })
    }
}

/// The dataset that counts the records of `table` under the feature names
/// `headers`: one sub-feature per feature and distinct value (values in
/// increasing order), and for each pair of sub-features the number of records
/// that take both.
pub open spec fn model_of_records(headers: Seq<Seq<char>>, table: Seq<Seq<Seq<char>>>) -> DatasetModel {
    let cells = cells_upto(table, headers.len() as int);
    DatasetModel {
        headers,
        subheaders: Seq::new(
            headers.len(),
            |c: int| distinct_values(table, c).map_values(|v: Seq<char>| subheader_name(headers[c], v)),
        ),
        instances: table.len(),
        matrix: Seq::new(
            cells.len(),
            |c: int| Seq::new(cells.len(), |r: int| co_count(table, cells[r], cells[c]) as int),
        ),
    }
}

/// Every record has a field for every feature.
pub open spec fn rows_cover(headers_len: nat, table: Seq<Seq<Seq<char>>>) -> bool {
    forall|r: int| 0 <= r < table.len() ==> headers_len <= (#[trigger] table[r]).len()
}

/// A co-occurrence count is at most the number of records.
pub proof fn lemma_co_count_bound(table: Seq<Seq<Seq<char>>>, x: (int, Seq<char>), y: (int, Seq<char>))
    ensures
        co_count(table, x, y) <= table.len(),
    decreases table.len(),
{
    if table.len() > 0 {
        lemma_co_count_bound(table.drop_last(), x, y);
    }
}

proof fn lemma_gram_counts(
    offsets: Seq<usize>,
    rows: Seq<usize>,
    values: Seq<isize>,
    table: Seq<Seq<Seq<char>>>,
    cells: Seq<(int, Seq<char>)>,
    i: int,
    j: int,
    k: int,
)
    requires
        0 <= k <= table.len(),
        0 <= i < cells.len(),
        0 <= j < cells.len(),
        forall|r: int, t: int|
            0 <= r < table.len() && 0 <= t < cells.len() ==> #[trigger] csc_entry(
                offsets,
                rows,
                values,
                r,
                t,
            ) == if takes_cell(table[r], cells[t]) {
                1int
            } else {
                0int
            },
    ensures
        gram_sum(offsets, rows, values, i, j, k) == co_count(table.take(k), cells[i], cells[j]),
    decreases k,
{
    if k > 0 {
        lemma_gram_counts(offsets, rows, values, table, cells, i, j, k - 1);
        assert(table.take(k).drop_last() =~= table.take(k - 1));
        let a = csc_entry(offsets, rows, values, k - 1, i);
        let b = csc_entry(offsets, rows, values, k - 1, j);
        assert(a * b == if takes_cell(table[k - 1], cells[i]) && takes_cell(table[k - 1], cells[j]) {
            1int
        } else {
            0int
        });
    }
}


/// The occurrence matrix of a discretised dataset: for every pair of
/// sub-features (a feature taking one of its values), the number of records
/// in which both hold.
#[derive(Debug)]
pub struct Dataset {
    headers: Vec<String>,
    subheaders: Vec<Vec<String>>,
    names: Vec<String>,
    instances: usize,
    matrix: Vec<Vec<isize>>,
}

/// The integer entries of a matrix stored by columns.
pub open spec fn matrix_view(m: Seq<Vec<isize>>) -> Seq<Seq<int>> {
    m.map_values(|col: Vec<isize>| col@.map_values(|x: isize| x as int))
}

impl View for Dataset {
    type V = DatasetModel;

    closed spec fn view(&self) -> DatasetModel {
        DatasetModel {
            headers: strs(self.headers@),
            subheaders: self.subheaders@.map_values(|v: Vec<String>| strs(v@)),
            instances: self.instances as nat,
            matrix: matrix_view(self.matrix@),
        }
    }
}

impl Dataset {
    #[verifier::type_invariant]
    spec fn inv(self) -> bool {
        &&& self@.well_formed()
        &&& strs(self.names@) == self@.names()
    }
}

/// The sub-feature names of field `c` built from its distinct values.
pub open spec fn block_names(headers: Seq<Seq<char>>, table: Seq<Seq<Seq<char>>>, c: int) -> Seq<Seq<char>> {
    distinct_values(table, c).map_values(|v: Seq<char>| subheader_name(headers[c], v))
}

/// The CSC data describes the records' incidence: entry (r, t) is 1 when
/// record `r` takes the pair `cells[t]`, else 0.
pub open spec fn csc_is_incidence(
    n: nat,
    cells: Seq<(int, Seq<char>)>,
    table: Seq<Seq<Seq<char>>>,
    offsets: Seq<usize>,
    rows: Seq<usize>,
    values: Seq<isize>,
) -> bool {
    &&& csc_valid(n, cells.len(), offsets, rows, values)
    &&& forall|k: int| 0 <= k < values.len() ==> #[trigger] values[k] == 1
    &&& forall|c: int| 0 <= c <= cells.len() ==> #[trigger] offsets[c] <= rows.len()
    &&& forall|r: int, t: int|
        0 <= r < n && 0 <= t < cells.len() ==> #[trigger] csc_entry(offsets, rows, values, r, t)
            == if takes_cell(table[r], cells[t]) {
            1int
        } else {
            0int
        }
}

/// Appending one lane (column) to valid incidence data.
proof fn lemma_push_lane(
    n: nat,
    cells: Seq<(int, Seq<char>)>,
    cell: (int, Seq<char>),
    table: Seq<Seq<Seq<char>>>,
    offsets: Seq<usize>,
    rows: Seq<usize>,
    values: Seq<isize>,
    rows2: Seq<usize>,
    values2: Seq<isize>,
)
    requires
        table.len() == n,
        csc_is_incidence(n, cells, table, offsets, rows, values),
        rows.len() <= rows2.len(),
        rows2.len() == values2.len(),
        forall|k: int| 0 <= k < rows.len() ==> rows2[k] == rows[k],
        forall|k: int| 0 <= k < values.len() ==> values2[k] == values[k],
        forall|k: int| rows.len() <= k < values2.len() ==> #[trigger] values2[k] == 1,
        forall|k: int| rows.len() <= k < rows2.len() ==> #[trigger] rows2[k] < n,
        forall|k1: int, k2: int|
            rows.len() <= k1 < k2 < rows2.len() ==> #[trigger] rows2[k1] < #[trigger] rows2[k2],
        forall|r: int|
            0 <= r < n ==> #[trigger] lane_sum(rows2, values2, r, rows.len() as int, rows2.len() as int)
                == if takes_cell(table[r], cell) {
                1int
            } else {
                0int
            },
        rows2.len() <= usize::MAX,
    ensures
        csc_is_incidence(
            n,
            cells.push(cell),
            table,
            offsets.push(rows2.len() as usize),
            rows2,
            values2,
        ),
{
    let cells2 = cells.push(cell);
    let offsets2 = offsets.push(rows2.len() as usize);
    let m = cells.len() as int;
    assert forall|c: int| 0 <= c < cells2.len() implies #[trigger] offsets2[c] <= offsets2[c + 1] by {
        if c < m {
            assert(offsets[c] <= offsets[c + 1]);
        }
    }
    assert forall|c: int, k1: int, k2: int|
        #![trigger offsets2[c], rows2[k1], rows2[k2]]
        0 <= c < cells2.len() && offsets2[c] <= k1 < k2 < offsets2[c + 1] implies rows2[k1]
        < rows2[k2] by {
        if c < m {
            assert(offsets[c] <= offsets[c + 1]);
            assert(offsets[c + 1] <= rows.len());
            assert(rows[k1] < rows[k2]);
        }
    }
    assert forall|r: int, t: int|
        0 <= r < n && 0 <= t < cells2.len() implies #[trigger] csc_entry(offsets2, rows2, values2, r, t)
        == if takes_cell(table[r], cells2[t]) {
        1int
    } else {
        0int
    } by {
        if t < m {
            assert(offsets[t] <= offsets[t + 1]);
            assert(offsets[t + 1] <= rows.len());
            lemma_lane_sum_frame(rows, values, rows2, values2, r, offsets[t] as int, offsets[t + 1] as int);
            assert(csc_entry(offsets, rows, values, r, t) == csc_entry(offsets2, rows2, values2, r, t));
        } else {
            assert(offsets2[t] == rows.len());
            assert(cells2[t] == cell);
        }
    }
    assert forall|c: int| 0 <= c <= cells2.len() implies #[trigger] offsets2[c] <= rows2.len() by {
        if c <= m {
            assert(offsets[c] <= rows.len());
        }
    }
}


/// Appends one lane: the index of every record, in order, whose field `c`
/// holds `v`, each with the value 1.
fn push_lane(
    records: &Vec<Vec<String>>,
    c: usize,
    v: &String,
    rows: &mut Vec<usize>,
    values: &mut Vec<isize>,
)
    requires
        forall|r: int| 0 <= r < records.len() ==> c < (#[trigger] records[r]).len(),
        old(rows).len() == old(values).len(),
    ensures
        final(rows).len() == final(values).len(),
        old(rows).len() <= final(rows).len(),
        forall|k: int| 0 <= k < old(rows).len() ==> final(rows)[k] == old(rows)[k],
        forall|k: int| 0 <= k < old(values).len() ==> final(values)[k] == old(values)[k],
        forall|k: int| old(rows).len() <= k < final(values).len() ==> #[trigger] final(values)[k] == 1,
        forall|k: int| old(rows).len() <= k < final(rows).len() ==> #[trigger] final(rows)[k] < records.len(),
        forall|k1: int, k2: int|
            old(rows).len() <= k1 < k2 < final(rows).len() ==> #[trigger] final(rows)[k1]
                < #[trigger] final(rows)[k2],
        forall|r: int|
            0 <= r < records.len() ==> #[trigger] lane_sum(
                final(rows)@,
                final(values)@,
                r,
                old(rows).len() as int,
                final(rows).len() as int,
            ) == if takes_cell(table_of(records@)[r], (c as int, v@)) {
                1int
            } else {
                0int
            },
{
    let ghost table = table_of(records@);
    let ghost cell = (c as int, v@);
    let ghost start = rows.len() as int;
    let ghost rows0 = rows@;
    let ghost values0 = values@;
    let n = records.len();
    let mut j: usize = 0;
    while j < n
        invariant
            n == records.len(),
            table == table_of(records@),
            cell == (c as int, v@),
            forall|r: int| 0 <= r < records.len() ==> c < (#[trigger] records[r]).len(),
            j <= n,
            rows.len() == values.len(),
            start == rows0.len(),
            start <= rows.len(),
            forall|k: int| 0 <= k < start ==> rows[k] == rows0[k],
            forall|k: int| 0 <= k < start ==> values[k] == values0[k],
            forall|k: int| start <= k < values.len() ==> #[trigger] values[k] == 1,
            forall|k: int| start <= k < rows.len() ==> #[trigger] rows[k] < j,
            forall|k1: int, k2: int|
                start <= k1 < k2 < rows.len() ==> #[trigger] rows[k1] < #[trigger] rows[k2],
            forall|r: int|
                0 <= r < n ==> #[trigger] lane_sum(rows@, values@, r, start, rows.len() as int) == if r
                    < j && takes_cell(table[r], cell) {
                    1int
                } else {
                    0int
                },
        decreases n - j,
    {
        let ghost rows1 = rows@;
        let ghost values1 = values@;
        if records[j][c] == *v {
            rows.push(j);
            values.push(1);
            assert forall|r: int| 0 <= r < n implies #[trigger] lane_sum(
                rows@,
                values@,
                r,
                start,
                rows.len() as int,
            ) == if r < j + 1 && takes_cell(table[r], cell) {
                1int
            } else {
                0int
            } by {
                lemma_lane_sum_frame(rows1, values1, rows@, values@, r, start, rows1.len() as int);
                assert(table[j as int][c as int] == records[j as int][c as int]@);
            }
        } else {
            assert forall|r: int| 0 <= r < n implies #[trigger] lane_sum(
                rows@,
                values@,
                r,
                start,
                rows.len() as int,
            ) == if r < j + 1 && takes_cell(table[r], cell) {
                1int
            } else {
                0int
            } by {
                assert(table[j as int][c as int] == records[j as int][c as int]@);
            }
        }
        j = j + 1;
    }
}


/// A copy of a list of strings.
pub fn clone_strings(v: &Vec<String>) -> (res: Vec<String>)
    ensures
        res@ == v@,
{
    let mut res: Vec<String> = Vec::new();
    let mut i: usize = 0;
    while i < v.len()
        invariant
            i <= v.len(),
            res@ == v@.take(i as int),
        decreases v.len() - i,
    {
        res.push(v[i].clone());
        i = i + 1;
        assert(res@ =~= v@.take(i as int));
    }
    assert(v@.take(i as int) =~= v@);
    res
}

/// A copy of lists of strings.
fn clone_string_lists(v: &Vec<Vec<String>>) -> (res: Vec<Vec<String>>)
    ensures
        res@.map_values(|x: Vec<String>| strs(x@)) == v@.map_values(|x: Vec<String>| strs(x@)),
{
    let ghost g = |x: Vec<String>| strs(x@);
    let mut res: Vec<Vec<String>> = Vec::new();
    let mut i: usize = 0;
    while i < v.len()
        invariant
            g == (|x: Vec<String>| strs(x@)),
            i <= v.len(),
            res@.map_values(g) == v@.take(i as int).map_values(g),
        decreases v.len() - i,
    {
        let ghost prev = res@.map_values(g);
        res.push(clone_strings(&v[i]));
        assert(res@.map_values(g) =~= prev.push(strs(v[i as int]@)));
        i = i + 1;
        assert(res@.map_values(g) =~= v@.take(i as int).map_values(g));
    }
    assert(v@.take(i as int) =~= v@);
    res
}

/// A copy of a matrix stored by columns.
fn clone_columns(m: &Vec<Vec<isize>>) -> (res: Vec<Vec<isize>>)
    ensures
        matrix_view(res@) == matrix_view(m@),
{
    let mut res: Vec<Vec<isize>> = Vec::new();
    let mut i: usize = 0;
    while i < m.len()
        invariant
            i <= m.len(),
            matrix_view(res@) == matrix_view(m@.take(i as int)),
        decreases m.len() - i,
    {
        let col = &m[i];
        let mut copy: Vec<isize> = Vec::new();
        let mut k: usize = 0;
        while k < col.len()
            invariant
                k <= col.len(),
                copy@ == col@.take(k as int),
            decreases col.len() - k,
        {
            copy.push(col[k]);
            k = k + 1;
            assert(copy@ =~= col@.take(k as int));
        }
        assert(copy@ =~= col@);
        let ghost prev = matrix_view(res@);
        res.push(copy);
        assert(matrix_view(res@) =~= prev.push(col@.map_values(|x: isize| x as int)));
        i = i + 1;
        assert(matrix_view(res@) =~= matrix_view(m@.take(i as int)));
    }
    assert(m@.take(i as int) =~= m@);
    res
}

impl Clone for Dataset {
    /// A dataset holding the same.
    fn clone(&self) -> (res: Self)
        ensures
            res@ == self@,
    {
        proof {
            use_type_invariant(self);
        }
        let headers = clone_strings(&self.headers);
        let subheaders = clone_string_lists(&self.subheaders);
        let names = clone_strings(&self.names);
        let matrix = clone_columns(&self.matrix);
        Dataset { headers, subheaders, names, instances: self.instances, matrix }
    }
}

/// The name `h_v`.
pub fn make_subheader_name(h: &String, v: &String) -> (res: String)
    ensures
        res@ == subheader_name(h@, v@),
{
    proof {
        reveal_strlit("_");
    }
    let sep = "_";
    assert(sep@ =~= seq!['_']);
    h.clone().concat(sep).concat(v.as_str())
}

/// Builds the dataset from the records, given the distinct values of each
/// field.
fn build(headers: &Vec<String>, records: &Vec<Vec<String>>, values: &Vec<Vec<String>>) -> (res: Dataset)
    requires
        values.len() == headers.len(),
        forall|c: int|
            0 <= c < values.len() ==> strs((#[trigger] values[c])@) == distinct_values(
                table_of(records@),
                c,
            ),
        rows_cover(headers.len() as nat, table_of(records@)),
        records.len() <= isize::MAX,
        matrix_fits(cells_upto(table_of(records@), headers.len() as int).len() as int),
    ensures
        res@ == model_of_records(strs(headers@), table_of(records@)),
{
    let ghost table = table_of(records@);
    let ghost hs = strs(headers@);
    let n = records.len();
    let nf = headers.len();
    let mut subheaders: Vec<Vec<String>> = Vec::new();
    let mut names: Vec<String> = Vec::new();
    let mut offsets: Vec<usize> = Vec::new();
    offsets.push(0);
    let mut rows: Vec<usize> = Vec::new();
    let mut data: Vec<isize> = Vec::new();
    let ghost mut cells: Seq<(int, Seq<char>)> = Seq::empty();
    proof {
        assert(cells =~= cells_upto(table, 0));
        assert(strs(names@) =~= concat_all(subheaders@.map_values(|v: Vec<String>| strs(v@))));
    }
    let mut c: usize = 0;
    while c < nf
        invariant
            table == table_of(records@),
            hs == strs(headers@),
            n == records.len(),
            nf == headers.len(),
            values.len() == headers.len(),
            forall|c2: int|
                0 <= c2 < values.len() ==> strs((#[trigger] values[c2])@) == distinct_values(
                    table,
                    c2,
                ),
            rows_cover(headers.len() as nat, table),
            c <= nf,
            cells == cells_upto(table, c as int),
            subheaders.len() == c,
            forall|c2: int|
                0 <= c2 < c ==> strs((#[trigger] subheaders[c2])@) == block_names(hs, table, c2),
            strs(names@) == concat_all(subheaders@.map_values(|v: Vec<String>| strs(v@))),
            names.len() == cells.len(),
            csc_is_incidence(n as nat, cells, table, offsets@, rows@, data@),
        decreases nf - c,
    {
        let vals = &values[c];
        let mut subs: Vec<String> = Vec::new();
        let ghost cells_c = cells;
        let ghost names_c = strs(names@);
        let mut k: usize = 0;
        while k < vals.len()
            invariant
                table == table_of(records@),
                hs == strs(headers@),
                n == records.len(),
                c < nf,
                nf == headers.len(),
                vals == values[c as int],
                strs(vals@) == distinct_values(table, c as int),
                rows_cover(headers.len() as nat, table),
                k <= vals.len(),
                cells_c == cells_upto(table, c as int),
                cells == cells_c + cell_block(table, c as int).take(k as int),
                strs(subs@) == block_names(hs, table, c as int).take(k as int),
                strs(names@) == names_c + strs(subs@),
                names.len() == cells.len(),
                csc_is_incidence(n as nat, cells, table, offsets@, rows@, data@),
            decreases vals.len() - k,
        {
            let ghost rows0 = rows@;
            let ghost data0 = data@;
            let ghost offsets0 = offsets@;
            proof {
                assert forall|r: int| 0 <= r < records.len() implies c < (#[trigger] records[r]).len() by {
                    assert(table[r].len() == records[r].len());
                }
            }
            push_lane(records, c, &vals[k], &mut rows, &mut data);
            let ghost cell = (c as int, vals[k as int]@);
            proof {
                lemma_push_lane(n as nat, cells, cell, table, offsets0, rows0, data0, rows@, data@);
            }
            offsets.push(rows.len());
            let name = make_subheader_name(&headers[c], &vals[k]);
            let ghost subs0 = strs(subs@);
            let ghost names0 = strs(names@);
            subs.push(name.clone());
            names.push(name);
            proof {
                assert(cell_block(table, c as int)[k as int] == cell);
                assert(cell_block(table, c as int).take(k + 1) =~= cell_block(table, c as int).take(
                    k as int,
                ).push(cell));
                cells = cells.push(cell);
                assert(cells =~= cells_c + cell_block(table, c as int).take(k + 1));
                assert(block_names(hs, table, c as int)[k as int] == subheader_name(hs[c as int], vals[k as int]@));
                assert(strs(subs@) =~= subs0.push(name@));
                assert(strs(subs@) =~= block_names(hs, table, c as int).take(k + 1));
                assert(strs(names@) =~= names0.push(name@));
                assert(strs(names@) =~= names_c + strs(subs@));
            }
            k = k + 1;
        }
        let ghost subheaders0 = subheaders@;
        subheaders.push(subs);
        proof {
            let f = |c2: int| cell_block(table, c2);
            assert(Seq::new((c + 1) as nat, f).drop_last() =~= Seq::new(c as nat, f));
            assert(cell_block(table, c as int).take(k as int) =~= cell_block(table, c as int));
            assert(block_names(hs, table, c as int).take(k as int) =~= block_names(hs, table, c as int));
            assert(cells =~= cells_upto(table, c + 1));
            let g = |v: Vec<String>| strs(v@);
            assert(subheaders@.map_values(g).drop_last() =~= subheaders0.map_values(g));
            assert(strs(names@) =~= concat_all(subheaders@.map_values(g)));
            assert forall|c2: int| 0 <= c2 < c + 1 implies strs((#[trigger] subheaders[c2])@)
                == block_names(hs, table, c2) by {
                if c2 < c {
                    assert(subheaders[c2] == subheaders0[c2]);
                }
            }
        }
        c = c + 1;
    }
    let ghost offsets_v = offsets@;
    let ghost rows_v = rows@;
    let ghost data_v = data@;
    let ncols = names.len();
    let matrix = gram_of_csc(n, ncols, offsets, rows, data);
    let ghost model = model_of_records(hs, table);
    proof {
        assert(table.take(n as int) =~= table);
        assert forall|cc: int, r: int| 0 <= cc < ncols && 0 <= r < ncols implies #[trigger] matrix[cc][r]
            as int == co_count(table, cells[r], cells[cc]) by {
            lemma_gram_counts(offsets_v, rows_v, data_v, table, cells, r, cc, n as int);
        }
    }
    let hcopy = clone_strings(headers);
    proof {
        let mv = matrix_view(matrix@);
        let sv = subheaders@.map_values(|v: Vec<String>| strs(v@));
        assert(sv =~= model.subheaders);
        assert forall|cc: int| 0 <= cc < ncols implies #[trigger] mv[cc] =~= model.matrix[cc] by {
            assert forall|r: int| 0 <= r < ncols implies mv[cc][r] == model.matrix[cc][r] by {
                assert(matrix[cc][r] as int == co_count(table, cells[r], cells[cc]));
            }
        }
        assert(mv =~= model.matrix);
        assert forall|cc: int, r: int| 0 <= cc < ncols && 0 <= r < ncols implies
            0 <= #[trigger] mv[cc][r] <= n by {
            lemma_co_count_bound(table, cells[r], cells[cc]);
        }
    }
    let res = Dataset {
        headers: hcopy,
        subheaders,
        names,
        instances: n,
        matrix,
    };
    res
}


/// The dataset made of these parts.
pub open spec fn parts_model(
    headers: Seq<String>,
    subheaders: Seq<Vec<String>>,
    instances: usize,
    matrix: Seq<Vec<isize>>,
) -> DatasetModel {
    DatasetModel {
        headers: strs(headers),
        subheaders: subheaders.map_values(|v: Vec<String>| strs(v@)),
        instances: instances as nat,
        matrix: matrix_view(matrix),
    }
}

/// The names of all parts, one after the other.
pub(crate) fn concat_strings(parts: &Vec<Vec<String>>) -> (res: Vec<String>)
    ensures
        strs(res@) == concat_all(parts@.map_values(|v: Vec<String>| strs(v@))),
{
    let ghost g = |v: Vec<String>| strs(v@);
    let mut res: Vec<String> = Vec::new();
    let mut i: usize = 0;
    assert(parts@.take(0).map_values(g) =~= Seq::<Seq<Seq<char>>>::empty());
    while i < parts.len()
        invariant
            g == (|v: Vec<String>| strs(v@)),
            i <= parts.len(),
            strs(res@) == concat_all(parts@.take(i as int).map_values(g)),
        decreases parts.len() - i,
    {
        let ghost base = strs(res@);
        let part = &parts[i];
        let mut k: usize = 0;
        while k < part.len()
            invariant
                i < parts.len(),
                part == parts[i as int],
                k <= part.len(),
                strs(res@) == base + strs(part@).take(k as int),
            decreases part.len() - k,
        {
            let ghost prev = strs(res@);
            let item = part[k].clone();
            res.push(item);
            assert(strs(res@) =~= prev.push(part[k as int]@));
            k = k + 1;
            assert(strs(res@) =~= base + strs(part@).take(k as int));
        }
        assert(strs(part@).take(k as int) =~= strs(part@));
        assert(parts@.take(i + 1).map_values(g).drop_last() =~= parts@.take(i as int).map_values(g));
        i = i + 1;
    }
    assert(parts@.take(i as int) =~= parts@);
    res
}

impl Dataset {
    /// Puts a dataset together from well-formed parts.
    pub(crate) fn assemble(
        headers: Vec<String>,
        subheaders: Vec<Vec<String>>,
        names: Vec<String>,
        instances: usize,
        matrix: Vec<Vec<isize>>,
    ) -> (res: Dataset)
        requires
            parts_model(headers@, subheaders@, instances, matrix@).well_formed(),
            strs(names@) == parts_model(headers@, subheaders@, instances, matrix@).names(),
        ensures
            res@ == parts_model(headers@, subheaders@, instances, matrix@),
    {
        Dataset { headers, subheaders, names, instances, matrix }
    }

    /// The dataset made of these parts, if they are well formed: one list of
    /// sub-feature names per feature, a square matrix (by columns) of the size
    /// of all sub-feature names, entries between 0 and `instances`, and
    /// `instances` at most `isize::MAX`.
    pub fn from_parts(
        headers: Vec<String>,
        subheaders: Vec<Vec<String>>,
        instances: usize,
        matrix: Vec<Vec<isize>>,
    ) -> (res: Option<Dataset>)
        ensures
            match res {
                Some(d) => d@ == parts_model(headers@, subheaders@, instances, matrix@),
                None => !parts_model(headers@, subheaders@, instances, matrix@).well_formed(),
            },
    {
        let ghost m = parts_model(headers@, subheaders@, instances, matrix@);
        if subheaders.len() != headers.len() || instances > isize::MAX as usize {
            return None;
        }
        let names = concat_strings(&subheaders);
        let n = names.len();
        if matrix.len() != n {
            return None;
        }
        let mut c: usize = 0;
        while c < n
            invariant
                m == parts_model(headers@, subheaders@, instances, matrix@),
                m.names().len() == n,
                matrix.len() == n,
                c <= n,
                forall|c2: int| 0 <= c2 < c ==> (#[trigger] m.matrix[c2]).len() == n,
                forall|c2: int, r: int|
                    0 <= c2 < c && 0 <= r < n ==> 0 <= #[trigger] m.matrix[c2][r] <= instances,
            decreases n - c,
        {
            let col = &matrix[c];
            if col.len() != n {
                assert(m.matrix[c as int].len() != n);
                return None;
            }
            let mut r: usize = 0;
            while r < n
                invariant
                    m == parts_model(headers@, subheaders@, instances, matrix@),
                    col == matrix[c as int],
                    col.len() == n,
                    matrix.len() == n,
                    m.names().len() == n,
                    c < n,
                    r <= n,
                    forall|r2: int| 0 <= r2 < r ==> 0 <= #[trigger] m.matrix[c as int][r2] <= instances,
                decreases n - r,
            {
                assert(m.matrix[c as int][r as int] == col[r as int] as int);
                if col[r] < 0 || col[r] as usize > instances {
                    return None;
                }
                r = r + 1;
            }
            c = c + 1;
        }
        Some(Dataset::assemble(headers, subheaders, names, instances, matrix))
    }
}

/// Why a dataset could not be built.
#[derive(Debug)]
pub enum DatasetError {
    /// The `csv` crate could not read the header row.
    Csv(csv::Error),
    /// The occurrence matrix would have more entries than memory can index.
    TooLarge,
}

/// The number of sub-features of a table: the total number of distinct values
/// over the first `k` fields.
pub proof fn lemma_cells_upto_len(table: Seq<Seq<Seq<char>>>, k: int)
    requires
        0 <= k,
    ensures
        cells_upto(table, k + 1).len() == cells_upto(table, k).len() + distinct_values(table, k).len(),
        cells_upto(table, k + 1) == cells_upto(table, k) + cell_block(table, k),
{
    let f = |c: int| cell_block(table, c);
    assert(Seq::new((k + 1) as nat, f).drop_last() =~= Seq::new(k as nat, f));
}

/// The distinct values of each of the first `nf` fields.
fn distinct_columns(nf: usize, records: &Vec<Vec<String>>) -> (res: Vec<Vec<String>>)
    requires
        rows_cover(nf as nat, table_of(records@)),
    ensures
        res.len() == nf,
        forall|c: int|
            0 <= c < nf ==> strs((#[trigger] res[c])@) == distinct_values(table_of(records@), c),
{
    let mut res: Vec<Vec<String>> = Vec::new();
    let mut c: usize = 0;
    while c < nf
        invariant
            rows_cover(nf as nat, table_of(records@)),
            c <= nf,
            res.len() == c,
            forall|c2: int|
                0 <= c2 < c ==> strs((#[trigger] res[c2])@) == distinct_values(table_of(records@), c2),
        decreases nf - c,
    {
        proof {
            assert forall|r: int| 0 <= r < records.len() implies c < (#[trigger] records[r]).len() by {
                assert(table_of(records@)[r].len() == records[r].len());
            }
        }
        let vals = column_distinct(records, c);
        proof {
            lemma_sorted_set_unique(strs(vals@), column(table_of(records@), c as int));
        }
        res.push(vals);
        c = c + 1;
    }
    res
}

/// The number of sub-features, when a square matrix of that size fits.
fn checked_cell_count(nf: usize, records: &Vec<Vec<String>>, values: &Vec<Vec<String>>) -> (res:
    Option<usize>)
    requires
        values.len() == nf,
        forall|c: int|
            0 <= c < nf ==> strs((#[trigger] values[c])@) == distinct_values(table_of(records@), c),
    ensures
        match res {
            Some(n) => n == cells_upto(table_of(records@), nf as int).len() && matrix_fits(n as int),
            None => !matrix_fits(cells_upto(table_of(records@), nf as int).len() as int),
        },
{
    let ghost table = table_of(records@);
    let mut total: usize = 0;
    let mut c: usize = 0;
    proof {
        assert(cells_upto(table, 0) =~= Seq::<(int, Seq<char>)>::empty());
    }
    while c < nf
        invariant
            table == table_of(records@),
            values.len() == nf,
            forall|c2: int|
                0 <= c2 < nf ==> strs((#[trigger] values[c2])@) == distinct_values(table, c2),
            c <= nf,
            total == cells_upto(table, c as int).len(),
        decreases nf - c,
    {
        proof {
            lemma_cells_upto_len(table, c as int);
            assert(values[c as int].len() == strs(values[c as int]@).len());
        }
        match total.checked_add(values[c].len()) {
            Some(t) => {
                total = t;
            },
            None => {
                proof {
                    let big = cells_upto(table, nf as int).len();
                    lemma_cells_upto_monotone(table, c + 1, nf as int);
                    assert(big * big * 8 >= big) by (nonlinear_arith)
                        requires big >= 1;
                }
                return None;
            },
        }
        c = c + 1;
    }
    match total.checked_mul(total) {
        Some(sq) => {
            if sq <= (isize::MAX as usize) / 8 {
                Some(total)
            } else {
                None
            }
        },
        None => {
            proof {
                let t = total as int;
                assert(t * t * 8 >= t * t) by (nonlinear_arith)
                    requires t >= 0;
            }
            None
        },
    }
}

/// The number of sub-features only grows with the number of fields.
pub proof fn lemma_cells_upto_monotone(table: Seq<Seq<Seq<char>>>, j: int, k: int)
    requires
        0 <= j <= k,
    ensures
        cells_upto(table, j).len() <= cells_upto(table, k).len(),
    decreases k - j,
{
    if j < k {
        lemma_cells_upto_monotone(table, j, k - 1);
        lemma_cells_upto_len(table, k - 1);
    }
}

impl Dataset {
    /// Counts the records under the feature names `headers`: one sub-feature
    /// `feature_value` per feature and distinct value (values in increasing
    /// order), and for each pair of sub-features the number of records that
    /// take both.
    pub fn from_records(headers: &Vec<String>, records: &Vec<Vec<String>>) -> (res: Dataset)
        requires
            rows_cover(headers.len() as nat, table_of(records@)),
            records.len() <= isize::MAX,
            matrix_fits(cells_upto(table_of(records@), headers.len() as int).len() as int),
        ensures
            res@ == model_of_records(strs(headers@), table_of(records@)),
    {
        let values = distinct_columns(headers.len(), records);
        build(headers, records, &values)
    }

    /// Reads CSV text (comma separated, first row the header row) and counts
    /// its records as `from_records` does. Records that the `csv` crate fails
    /// to read are skipped; failing to read the header row is an error.
    pub fn new(csv_text: &[u8]) -> (res: Result<Dataset, DatasetError>)
        ensures
            match csv_header_row(csv_text@) {
                None => res matches Err(DatasetError::Csv(_)),
                Some(h) => {
                    let table = read_ok(csv_records(csv_text@));
                    if table.len() <= isize::MAX && matrix_fits(
                        cells_upto(table, h.len() as int).len() as int,
                    ) {
                        res matches Ok(d) && d@ == model_of_records(h, table)
                    } else {
                        res matches Err(DatasetError::TooLarge)
                    }
                },
            },
            csv_header_row(csv_text@) is Some ==> forall|line: Seq<u8>|
                plain_text(csv_text@) && plain_line(line) ==> csv_header_row(csv_text@ + line) == csv_header_row(
                    csv_text@,
                ) && #[trigger] csv_records(csv_text@ + line) == csv_records(csv_text@).push(
                    if line_fields(line).len() == csv_header_row(csv_text@).unwrap().len() {
                        Some(line_fields(line))
                    } else {
                        None
                    },
                ),
    {
        let headers = match read_header_row(csv_text) {
            Ok(h) => h,
            Err(e) => {
                return Err(DatasetError::Csv(e));
            },
        };
        let items = read_records(csv_text);
        proof {
            assert(read_items(items@) =~= csv_records(csv_text@));
        }
        let ghost hs = strs(headers@);
        let ghost all = csv_records(csv_text@);
        let mut records: Vec<Vec<String>> = Vec::new();
        let mut i: usize = 0;
        while i < items.len()
            invariant
                i <= items.len(),
                items.len() == all.len(),
                all == csv_records(csv_text@),
                csv_header_row(csv_text@) == Some(hs),
                hs == strs(headers@),
                forall|k: int| 0 <= k < items.len() ==> ((#[trigger] items[k]) is Ok <==> all[k] is Some),
                forall|k: int|
                    0 <= k < items.len() ==> (#[trigger] items[k] matches Ok(r) ==> all[k] == Some(
                        strs(r@),
                    )),
                forall|k: int|
                    0 <= k < items.len() ==> (#[trigger] items[k] matches Ok(r) ==> (csv_header_row(
                        csv_text@,
                    ) matches Some(h) ==> r.len() == h.len())),
                table_of(records@) == read_ok(all.take(i as int)),
                rows_cover(headers.len() as nat, table_of(records@)),
            decreases items.len() - i,
        {
            let ghost before = table_of(records@);
            proof {
                assert(all.take(i + 1).drop_last() =~= all.take(i as int));
            }
            match &items[i] {
                Ok(r) => {
                    let row = clone_strings(r);
                    records.push(row);
                    proof {
                        assert(table_of(records@) =~= before.push(strs(r@)));
                    }
                },
                Err(_) => {},
            }
            i = i + 1;
        }
        proof {
            assert(all.take(i as int) =~= all);
        }
        if records.len() > isize::MAX as usize {
            return Err(DatasetError::TooLarge);
        }
        let values = distinct_columns(headers.len(), &records);
        match checked_cell_count(headers.len(), &records, &values) {
            Some(_) => Ok(build(&headers, &records, &values)),
            None => Err(DatasetError::TooLarge),
        }
    }
}


/// `last_index` finds the last occurrence, and -1 exactly when there is none.
pub proof fn lemma_last_index(s: Seq<Seq<char>>, x: Seq<char>)
    ensures
        -1 <= last_index(s, x) < s.len(),
        last_index(s, x) >= 0 ==> s[last_index(s, x)] == x,
        last_index(s, x) >= 0 ==> forall|k: int| last_index(s, x) < k < s.len() ==> s[k] != x,
        last_index(s, x) == -1 <==> !s.contains(x),
    decreases s.len(),
{
    if s.len() > 0 {
        lemma_last_index(s.drop_last(), x);
        if s.last() != x {
            if s.contains(x) {
                let k = choose|k: int| 0 <= k < s.len() && s[k] == x;
                assert(s.drop_last()[k] == x);
            }
            if s.drop_last().contains(x) {
                let k = choose|k: int| 0 <= k < s.drop_last().len() && s.drop_last()[k] == x;
                assert(s[k] == x);
            }
            let li = last_index(s, x);
            if li >= 0 {
                assert forall|k: int| li < k < s.len() implies s[k] != x by {
                    if k < s.len() - 1 {
                        assert(s.drop_last()[k] == s[k]);
                    }
                }
            }
        } else {
            assert(s[s.len() - 1] == x);
        }
    }
}

/// In a well-formed dataset every count is between 0 and the instances.
pub proof fn lemma_count_bounds(m: DatasetModel, x: Seq<char>, y: Seq<char>)
    requires
        m.well_formed(),
    ensures
        0 <= m.count(x, y) <= m.instances,
{
    lemma_last_index(m.names(), x);
    lemma_last_index(m.names(), y);
}

/// Each element of each part occurs in the concatenation, at its place.
pub proof fn lemma_concat_all_index<A>(s: Seq<Seq<A>>, i: int, j: int)
    requires
        0 <= i < s.len(),
        0 <= j < s[i].len(),
    ensures
        concat_all(s.take(i)).len() + j < concat_all(s).len(),
        concat_all(s)[concat_all(s.take(i)).len() + j] == s[i][j],
        concat_all(s).contains(s[i][j]),
    decreases s.len(),
{
    if i == s.len() - 1 {
        assert(s.take(i) =~= s.drop_last());
        assert(concat_all(s)[concat_all(s.take(i)).len() + j] == s[i][j]);
    } else {
        lemma_concat_all_index(s.drop_last(), i, j);
        assert(s.drop_last().take(i) =~= s.take(i));
    }
    assert(concat_all(s)[concat_all(s.take(i)).len() + j] == s[i][j]);
}

/// The position of the last element of `v` equal to `x`.
pub(crate) fn last_position(v: &Vec<String>, x: &String) -> (res: Option<usize>)
    ensures
        match res {
            Some(i) => i as int == last_index(strs(v@), x@),
            None => last_index(strs(v@), x@) == -1,
        },
{
    let ghost sv = strs(v@);
    let mut i: usize = v.len();
    assert(sv.take(i as int) =~= sv);
    while i > 0
        invariant
            i <= v.len(),
            sv == strs(v@),
            last_index(sv, x@) == last_index(sv.take(i as int), x@),
        decreases i,
    {
        assert(sv.take(i as int).drop_last() =~= sv.take(i - 1));
        if v[i - 1] == *x {
            return Some(i - 1);
        }
        i = i - 1;
    }
    assert(sv.take(0) =~= Seq::<Seq<char>>::empty());
    None
}

impl Dataset {
    /// The number of records in which both sub-features hold: the matrix
    /// entry whose row is the sub-feature named `sub_feature_a` and whose
    /// column is the one named `sub_feature_b`; `None` when a name is unknown.
    pub fn intersection(&self, sub_feature_a: &str, sub_feature_b: &str) -> (res: Option<isize>)
        ensures
            match res {
                Some(v) => self@.intersection(sub_feature_a@, sub_feature_b@) == Some(v as int),
                None => self@.intersection(sub_feature_a@, sub_feature_b@) is None,
            },
    {
        proof {
            use_type_invariant(self);
        }
        let a = String::from_str(sub_feature_a);
        let b = String::from_str(sub_feature_b);
        let pa = last_position(&self.names, &a);
        let pb = last_position(&self.names, &b);
        match (pa, pb) {
            (Some(i), Some(j)) => {
                proof {
                    lemma_last_index(self@.names(), a@);
                    lemma_last_index(self@.names(), b@);
                }
                Some(self.matrix[j][i])
            },
            _ => None,
        }
    }

    /// The position in the matrix of each sub-feature named in `subs`, a list
    /// of sub-feature names of this dataset.
    fn positions_of(&self, subs: &Vec<String>) -> (res: Vec<usize>)
        requires
            forall|i: int| 0 <= i < subs.len() ==> self@.names().contains(#[trigger] subs[i]@),
        ensures
            res.len() == subs.len(),
            forall|i: int|
                0 <= i < subs.len() ==> #[trigger] res[i] as int == last_index(self@.names(), subs[i]@)
                    && res[i] < self@.names().len(),
    {
        proof {
            use_type_invariant(self);
        }
        let mut res: Vec<usize> = Vec::new();
        let mut i: usize = 0;
        while i < subs.len()
            invariant
                strs(self.names@) == self@.names(),
                forall|k: int| 0 <= k < subs.len() ==> self@.names().contains(#[trigger] subs[k]@),
                i <= subs.len(),
                res.len() == i,
                forall|k: int|
                    0 <= k < i ==> #[trigger] res[k] as int == last_index(self@.names(), subs[k]@)
                        && res[k] < self@.names().len(),
            decreases subs.len() - i,
        {
            proof {
                lemma_last_index(self@.names(), subs[i as int]@);
            }
            let p = last_position(&self.names, &subs[i]);
            match p {
                Some(q) => {
                    res.push(q);
                },
                None => {
                    proof {
                        assert(false);
                    }
                },
            }
            i = i + 1;
        }
        res
    }

    /// For the features named `feature_a` and `feature_b`, and each pair
    /// (x, y) of a sub-feature of the first and one of the second (row by
    /// row): the number of records with x, with y, and with both. These are
    /// the counts from which the mutual information of the two features is
    /// computed. `None` when a feature name is unknown.
    pub fn mutual_info_counts(&self, feature_a: &str, feature_b: &str) -> (res: Option<
        Vec<Vec<(isize, isize, isize)>>,
    >)
        ensures
            match self@.joint_counts(feature_a@, feature_b@) {
                None => res is None,
                Some(t) => res matches Some(r) && r.len() == t.len() && (forall|i: int|
                    0 <= i < t.len() ==> (#[trigger] r[i]).len() == t[i].len()) && (forall|
                    i: int,
                    j: int,
                |
                    0 <= i < t.len() && 0 <= j < t[i].len() ==> ((#[trigger] r[i][j]).0 as int,
                    r[i][j].1 as int, r[i][j].2 as int) == t[i][j]),
            },
    {
        proof {
            use_type_invariant(self);
        }
        let sa = match self.get_header_values(feature_a) {
            Some(v) => v,
            None => {
                return None;
            },
        };
        let sb = match self.get_header_values(feature_b) {
            Some(v) => v,
            None => {
                return None;
            },
        };
        let ghost m = self@;
        proof {
            let ha = last_index(m.headers, feature_a@);
            let hb = last_index(m.headers, feature_b@);
            lemma_last_index(m.headers, feature_a@);
            lemma_last_index(m.headers, feature_b@);
            assert forall|i: int| 0 <= i < sa.len() implies m.names().contains(#[trigger] sa[i]@) by {
                assert(strs(sa@)[i] == m.subheaders[ha][i]);
                lemma_concat_all_index(m.subheaders, ha, i);
            }
            assert forall|i: int| 0 <= i < sb.len() implies m.names().contains(#[trigger] sb[i]@) by {
                assert(strs(sb@)[i] == m.subheaders[hb][i]);
                lemma_concat_all_index(m.subheaders, hb, i);
            }
        }
        let pa = self.positions_of(sa);
        let pb = self.positions_of(sb);
        let res = self.counts_at(&pa, &pb);
        let ghost t = m.joint_counts(feature_a@, feature_b@)->Some_0;
        proof {
            assert forall|i: int, j: int| 0 <= i < t.len() && 0 <= j < t[i].len() implies ((
            #[trigger] res[i][j]).0 as int, res[i][j].1 as int, res[i][j].2 as int) == t[i][j] by {
                assert(strs(sa@)[i] == sa[i]@);
                assert(strs(sb@)[j] == sb[j]@);
            }
        }
        Some(res)
    }

    /// The position of the feature named `header` (its last occurrence).
    pub fn header_index(&self, header: &str) -> (res: Option<usize>)
        ensures
            match res {
                Some(i) => i as int == last_index(self@.headers, header@) && i < self@.headers.len(),
                None => last_index(self@.headers, header@) == -1,
            },
    {
        let h = String::from_str(header);
        let r = last_position(&self.headers, &h);
        proof {
            lemma_last_index(self@.headers, header@);
        }
        r
    }

    /// For every feature position and each of its sub-features, the matrix
    /// position of that sub-feature's name (its last occurrence).
    pub fn sub_feature_positions(&self) -> (res: Vec<Vec<usize>>)
        ensures
            res.len() == self@.subheaders.len(),
            forall|h: int|
                0 <= h < res.len() ==> (#[trigger] res[h]).len() == self@.subheaders[h].len(),
            forall|h: int, k: int|
                0 <= h < res.len() && 0 <= k < res[h].len() ==> #[trigger] res[h][k] as int == last_index(
                    self@.names(),
                    self@.subheaders[h][k],
                ) && res[h][k] < self@.names().len(),
    {
        proof {
            use_type_invariant(self);
        }
        let mut res: Vec<Vec<usize>> = Vec::new();
        let mut h: usize = 0;
        while h < self.subheaders.len()
            invariant
                self@.well_formed(),
                strs(self.names@) == self@.names(),
                h <= self.subheaders.len(),
                res.len() == h,
                forall|h2: int| 0 <= h2 < h ==> (#[trigger] res[h2]).len() == self@.subheaders[h2].len(),
                forall|h2: int, k: int|
                    0 <= h2 < h && 0 <= k < res[h2].len() ==> #[trigger] res[h2][k] as int
                        == last_index(self@.names(), self@.subheaders[h2][k]) && res[h2][k]
                        < self@.names().len(),
            decreases self.subheaders.len() - h,
        {
            let subs = &self.subheaders[h];
            proof {
                assert forall|k: int| 0 <= k < subs.len() implies self@.names().contains(#[trigger] subs[k]@) by {
                    assert(strs(subs@)[k] == self@.subheaders[h as int][k]);
                    lemma_concat_all_index(self@.subheaders, h as int, k);
                }
            }
            let p = self.positions_of(subs);
            proof {
                assert forall|k: int| 0 <= k < p.len() implies #[trigger] p[k] as int == last_index(
                    self@.names(),
                    self@.subheaders[h as int][k],
                ) by {
                    assert(strs(subs@)[k] == self@.subheaders[h as int][k]);
                }
            }
            res.push(p);
            h = h + 1;
        }
        res
    }

    /// For matrix positions `xs` and `ys` and each pair (x, y) of them (row by
    /// row): the diagonal entries at x and at y, and the entry in row x and
    /// column y.
    pub fn counts_at(&self, xs: &Vec<usize>, ys: &Vec<usize>) -> (res: Vec<Vec<(isize, isize, isize)>>)
        requires
            forall|i: int| 0 <= i < xs.len() ==> #[trigger] xs[i] < self@.names().len(),
            forall|j: int| 0 <= j < ys.len() ==> #[trigger] ys[j] < self@.names().len(),
        ensures
            res.len() == xs.len(),
            forall|i: int| 0 <= i < xs.len() ==> (#[trigger] res[i]).len() == ys.len(),
            forall|i: int, j: int|
                0 <= i < xs.len() && 0 <= j < ys.len() ==> ((#[trigger] res[i][j]).0 as int,
                res[i][j].1 as int, res[i][j].2 as int) == (
                    self@.matrix[xs[i] as int][xs[i] as int],
                    self@.matrix[ys[j] as int][ys[j] as int],
                    self@.matrix[ys[j] as int][xs[i] as int],
                ),
    {
        proof {
            use_type_invariant(self);
        }
        let ghost m = self@;
        let mut res: Vec<Vec<(isize, isize, isize)>> = Vec::new();
        let mut i: usize = 0;
        while i < xs.len()
            invariant
                m == self@,
                m.well_formed(),
                forall|k: int| 0 <= k < xs.len() ==> #[trigger] xs[k] < m.names().len(),
                forall|k: int| 0 <= k < ys.len() ==> #[trigger] ys[k] < m.names().len(),
                i <= xs.len(),
                res.len() == i,
                forall|k: int| 0 <= k < i ==> (#[trigger] res[k]).len() == ys.len(),
                forall|k: int, j: int|
                    0 <= k < i && 0 <= j < ys.len() ==> ((#[trigger] res[k][j]).0 as int,
                    res[k][j].1 as int, res[k][j].2 as int) == (
                        m.matrix[xs[k] as int][xs[k] as int],
                        m.matrix[ys[j] as int][ys[j] as int],
                        m.matrix[ys[j] as int][xs[k] as int],
                    ),
            decreases xs.len() - i,
        {
            let mut row: Vec<(isize, isize, isize)> = Vec::new();
            let mut j: usize = 0;
            while j < ys.len()
                invariant
                    m == self@,
                    m.well_formed(),
                    forall|k: int| 0 <= k < xs.len() ==> #[trigger] xs[k] < m.names().len(),
                    forall|k: int| 0 <= k < ys.len() ==> #[trigger] ys[k] < m.names().len(),
                    i < xs.len(),
                    j <= ys.len(),
                    row.len() == j,
                    forall|k: int|
                        0 <= k < j ==> ((#[trigger] row[k]).0 as int, row[k].1 as int, row[k].2 as int)
                            == (
                            m.matrix[xs[i as int] as int][xs[i as int] as int],
                            m.matrix[ys[k] as int][ys[k] as int],
                            m.matrix[ys[k] as int][xs[i as int] as int],
                        ),
                decreases ys.len() - j,
            {
                let x = xs[i];
                let y = ys[j];
                proof {
                    assert(m.matrix == matrix_view(self.matrix@));
                    assert(m.matrix[x as int].len() == self.matrix[x as int].len());
                    assert(m.matrix[y as int].len() == self.matrix[y as int].len());
                }
                row.push((self.matrix[x][x], self.matrix[y][y], self.matrix[y][x]));
                j = j + 1;
            }
            res.push(row);
            i = i + 1;
        }
        res
    }

    /// The feature names, in order.
    pub fn get_headers(&self) -> (res: &Vec<String>)
        ensures
            strs(res@) == self@.headers,
    {
        &self.headers
    }

    /// The number of records counted.
    pub fn get_instances(&self) -> (res: usize)
        ensures
            res == self@.instances,
    {
        self.instances
    }

    /// The occurrence matrix, by columns.
    pub fn get_matrix(&self) -> (res: &Vec<Vec<isize>>)
        ensures
            matrix_view(res@) == self@.matrix,
            self@.well_formed(),
    {
        proof {
            use_type_invariant(self);
        }
        &self.matrix
    }

    /// Each feature name once, with its sub-feature names (those of its last
    /// occurrence when a name repeats).
    pub fn get_subheaders(&self) -> (res: Vec<(String, Vec<String>)>)
        ensures
            res@.map_values(|e: (String, Vec<String>)| (e.0@, strs(e.1@))) == self@.subheader_entries(),
    {
        proof {
            use_type_invariant(self);
        }
        let ghost g = |e: (String, Vec<String>)| (e.0@, strs(e.1@));
        let ghost hs = self@.headers;
        let ghost ss = self@.subheaders;
        let mut res: Vec<(String, Vec<String>)> = Vec::new();
        let mut k: usize = 0;
        while k < self.headers.len()
            invariant
                g == (|e: (String, Vec<String>)| (e.0@, strs(e.1@))),
                hs == self@.headers,
                ss == self@.subheaders,
                hs == strs(self.headers@),
                ss == self.subheaders@.map_values(|v: Vec<String>| strs(v@)),
                self.subheaders.len() == self.headers.len(),
                k <= self.headers.len(),
                res@.map_values(g) == header_entries(hs, ss, k as nat),
            decreases self.headers.len() - k,
        {
            let ghost prev = res@;
            let here = last_position(&self.headers, &self.headers[k]);
            if here == Some(k) {
                let h = self.headers[k].clone();
                let subs = clone_strings(&self.subheaders[k]);
                res.push((h, subs));
                proof {
                    assert(res@.map_values(g) =~= prev.map_values(g).push(g(res@[prev.len() as int])));
                }
            }
            k = k + 1;
        }
        res
    }

    /// All sub-feature names, in the order of the matrix rows and columns.
    pub fn get_subheader_names(&self) -> (res: &Vec<String>)
        ensures
            strs(res@) == self@.names(),
            self@.well_formed(),
    {
        proof {
            use_type_invariant(self);
        }
        &self.names
    }

    /// The sub-feature names of the feature named `header`.
    pub fn get_header_values(&self, header: &str) -> (res: Option<&Vec<String>>)
        ensures
            match self@.header_values(header@) {
                Some(v) => res matches Some(r) && strs(r@) == v,
                None => res is None,
            },
    {
        proof {
            use_type_invariant(self);
        }
        let h = String::from_str(header);
        match last_position(&self.headers, &h) {
            Some(i) => {
                proof {
                    lemma_last_index(self@.headers, h@);
                }
                Some(&self.subheaders[i])
            },
            None => None,
        }
    }
}

} // verus!
