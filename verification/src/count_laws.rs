//! Laws on the counts of a dataset: symmetry and bounds, kept by merging.

use vstd::prelude::*;
use crate::dataset::{block_names, cell_block, cells_upto, co_count, distinct_values, subheader_name, takes_cell, last_index, lemma_count_bounds, lemma_last_index, model_of_records, DatasetModel};
use crate::laws::{
    cell_name, headers_distinct, hits, lemma_merge_commutative, lemma_add_contains, lemma_cell_position, lemma_cells_contains,
    lemma_co_count_symmetric, lemma_concat_contains, lemma_hits, lemma_names_of_cells, names_distinct, same_counts,
};
use crate::merge::{merged_model, values_or_empty};
use crate::reading::{csv_header_row, csv_records, line_fields, plain_line, plain_text, read_ok};
use crate::order::{chars_lt, column, lemma_lt_prefix, lemma_sorted_set, lemma_sorted_set_unique, sorted_set, strictly_sorted};

verus! {

/// The matrix equals its transpose.
pub open spec fn matrix_symmetric(m: DatasetModel) -> bool {
    forall|c: int, r: int|
        0 <= c < m.matrix.len() && 0 <= r < m.matrix.len() ==> #[trigger] m.matrix[c][r] == m.matrix[r][c]
}

/// Every count of two sub-features is at most the count of each of them with
/// itself.
pub open spec fn diagonal_bounds(m: DatasetModel) -> bool {
    forall|x: Seq<char>, y: Seq<char>| #[trigger] m.count(x, y) <= m.count(x, x) && m.count(x, y) <= m.count(y, y)
}

/// The entry of a counted table at two known names is the number of records
/// that take both of their pairs (field, value).
proof fn lemma_records_count(headers: Seq<Seq<char>>, table: Seq<Seq<Seq<char>>>, x: Seq<char>, y: Seq<char>)
    ensures
        ({
            let w = model_of_records(headers, table);
            let cw = cells_upto(table, headers.len() as int);
            let px = last_index(w.names(), x);
            let py = last_index(w.names(), y);
            &&& w.names().len() == cw.len()
            &&& w.count(x, y) == if px >= 0 && py >= 0 {
                co_count(table, cw[px], cw[py]) as int
            } else {
                0
            }
        }),
{
    let w = model_of_records(headers, table);
    lemma_names_of_cells(headers, table);
    lemma_last_index(w.names(), x);
    lemma_last_index(w.names(), y);
}

/// The count of a table is symmetric in its two sub-features.
pub proof fn lemma_records_symmetric(headers: Seq<Seq<char>>, table: Seq<Seq<Seq<char>>>)
    ensures
        matrix_symmetric(model_of_records(headers, table)),
{
    let w = model_of_records(headers, table);
    let cw = cells_upto(table, headers.len() as int);
    assert forall|c: int, r: int| 0 <= c < w.matrix.len() && 0 <= r < w.matrix.len() implies #[trigger] w.matrix[c][r]
        == w.matrix[r][c] by {
        lemma_co_count_symmetric(table, cw[r], cw[c]);
    }
}

/// With a symmetric matrix, the intersection of two names does not depend on
/// their order.
pub proof fn lemma_symmetric_intersection(m: DatasetModel, x: Seq<char>, y: Seq<char>)
    requires
        m.well_formed(),
        matrix_symmetric(m),
    ensures
        m.intersection(x, y) == m.intersection(y, x),
        m.count(x, y) == m.count(y, x),
{
    lemma_last_index(m.names(), x);
    lemma_last_index(m.names(), y);
}

/// Merging keeps the matrices symmetric.
pub proof fn lemma_merge_symmetric(a: DatasetModel, b: DatasetModel)
    requires
        a.well_formed(),
        b.well_formed(),
        matrix_symmetric(a),
        matrix_symmetric(b),
    ensures
        matrix_symmetric(merged_model(a, b)),
{
    let m = merged_model(a, b);
    let n = m.names();
    assert forall|c: int, r: int| 0 <= c < m.matrix.len() && 0 <= r < m.matrix.len() implies #[trigger] m.matrix[c][r]
        == m.matrix[r][c] by {
        lemma_symmetric_intersection(a, n[c], n[r]);
        lemma_symmetric_intersection(b, n[c], n[r]);
    }
}

proof fn lemma_co_count_below_diagonal(t: Seq<Seq<Seq<char>>>, x: (int, Seq<char>), y: (int, Seq<char>))
    ensures
        co_count(t, x, y) <= co_count(t, x, x),
        co_count(t, x, y) <= co_count(t, y, y),
    decreases t.len(),
{
    if t.len() > 0 {
        lemma_co_count_below_diagonal(t.drop_last(), x, y);
    }
}

/// In a counted table, no two sub-features hold together in more records than
/// either holds in.
pub proof fn lemma_records_diagonal(headers: Seq<Seq<char>>, table: Seq<Seq<Seq<char>>>)
    ensures
        diagonal_bounds(model_of_records(headers, table)),
{
    let w = model_of_records(headers, table);
    let cw = cells_upto(table, headers.len() as int);
    assert forall|x: Seq<char>, y: Seq<char>| #[trigger] w.count(x, y) <= w.count(x, x) && w.count(x, y) <= w.count(
        y,
        y,
    ) by {
        lemma_records_count(headers, table, x, y);
        lemma_records_count(headers, table, x, x);
        lemma_records_count(headers, table, y, y);
        let px = last_index(w.names(), x);
        let py = last_index(w.names(), y);
        if px >= 0 && py >= 0 {
            lemma_co_count_below_diagonal(table, cw[px], cw[py]);
        }
    }
}

/// Merging keeps every count below the counts of its two sub-features with
/// themselves.
pub proof fn lemma_merge_diagonal(a: DatasetModel, b: DatasetModel)
    requires
        a.well_formed(),
        b.well_formed(),
        diagonal_bounds(a),
        diagonal_bounds(b),
    ensures
        diagonal_bounds(merged_model(a, b)),
{
    let m = merged_model(a, b);
    let n = m.names();
    assert forall|x: Seq<char>, y: Seq<char>| #[trigger] m.count(x, y) <= m.count(x, x) && m.count(x, y) <= m.count(
        y,
        y,
    ) by {
        lemma_last_index(n, x);
        lemma_last_index(n, y);
        lemma_count_bounds(a, x, x);
        lemma_count_bounds(a, y, y);
        lemma_count_bounds(b, x, x);
        lemma_count_bounds(b, y, y);
        assert(a.count(y, x) <= a.count(x, x) && a.count(y, x) <= a.count(y, y));
        assert(b.count(y, x) <= b.count(x, x) && b.count(y, x) <= b.count(y, y));
    }
}

/// A dataset that knows feature names but no sub-features and no records.
pub open spec fn headers_only(e: DatasetModel) -> bool {
    &&& e.instances == 0
    &&& forall|p: int| 0 <= p < e.subheaders.len() ==> (#[trigger] e.subheaders[p]).len() == 0
}

/// Merging a dataset whose feature names occur once, whose sub-feature
/// lists are sorted and whose matrix is symmetric (as those counted from
/// records and their merges are) with one that has only some of its feature
/// names and no records changes nothing that can be asked of it; its features
/// come sorted.
pub proof fn lemma_merge_with_headers_only(m: DatasetModel, e: DatasetModel)
    requires
        m.well_formed(),
        e.subheaders.len() == e.headers.len(),
        headers_distinct(m.headers),
        forall|p: int| 0 <= p < m.subheaders.len() ==> strictly_sorted(#[trigger] m.subheaders[p]),
        matrix_symmetric(m),
        headers_only(e),
        forall|h: Seq<char>| #[trigger] e.headers.contains(h) ==> m.headers.contains(h),
    ensures
        same_counts(merged_model(m, e), m),
        merged_model(m, e).headers == sorted_set(m.headers),
{
    let r = merged_model(m, e);
    let hs = r.headers;
    lemma_sorted_set(m.headers + e.headers);
    lemma_sorted_set(m.headers);
    assert forall|h: Seq<char>| hs.contains(h) <==> m.headers.contains(h) by {
        lemma_add_contains(m.headers, e.headers, h);
    }
    lemma_sorted_set_unique(hs, m.headers);
    // Each merged feature has the sub-features of `m`.
    assert forall|k: int| 0 <= k < hs.len() implies #[trigger] r.subheaders[k] == values_or_empty(m, hs[k]) by {
        let v = values_or_empty(m, hs[k]);
        lemma_last_index(e.headers, hs[k]);
        lemma_last_index(m.headers, hs[k]);
        assert(values_or_empty(e, hs[k]) =~= Seq::<Seq<char>>::empty());
        assert(v + values_or_empty(e, hs[k]) =~= v);
        lemma_sorted_set_unique(v, v);
    }
    assert forall|h: Seq<char>| #[trigger] r.header_values(h) == m.header_values(h) by {
        lemma_last_index(hs, h);
        lemma_last_index(m.headers, h);
    }
    // The merged names are those of `m`.
    assert forall|x: Seq<char>| r.names().contains(x) <==> m.names().contains(x) by {
        lemma_concat_contains(r.subheaders, x);
        lemma_concat_contains(m.subheaders, x);
        if r.names().contains(x) {
            let k = choose|k: int| 0 <= k < r.subheaders.len() && (#[trigger] r.subheaders[k]).contains(x);
            lemma_last_index(m.headers, hs[k]);
            let p = last_index(m.headers, hs[k]);
            assert(m.subheaders[p].contains(x));
        }
        if m.names().contains(x) {
            let p = choose|p: int| 0 <= p < m.subheaders.len() && (#[trigger] m.subheaders[p]).contains(x);
            let h = m.headers[p];
            assert(m.headers.contains(h));
            let k = choose|k: int| 0 <= k < hs.len() && hs[k] == h;
            lemma_last_index(m.headers, h);
            let q = last_index(m.headers, h);
            if q != p {
                if q < p {
                    assert(m.headers[q] != m.headers[p]);
                } else {
                    assert(m.headers[p] != m.headers[q]);
                }
            }
            assert(r.subheaders[k].contains(x));
        }
    }
    assert forall|x: Seq<char>, y: Seq<char>| #[trigger] r.intersection(x, y) == m.intersection(x, y) by {
        lemma_last_index(r.names(), x);
        lemma_last_index(r.names(), y);
        lemma_last_index(m.names(), x);
        lemma_last_index(m.names(), y);
        lemma_symmetric_intersection(m, x, y);
        lemma_concat_contains(e.subheaders, x);
        lemma_last_index(e.names(), x);
        if r.names().contains(x) && r.names().contains(y) {
            assert(!e.names().contains(x));
        }
    }
}

/// The sub-feature lists of a counted table are sorted.
pub proof fn lemma_records_sorted(headers: Seq<Seq<char>>, table: Seq<Seq<Seq<char>>>)
    ensures
        forall|c: int|
            0 <= c < headers.len() ==> strictly_sorted(#[trigger] model_of_records(headers, table).subheaders[c]),
{
    let w = model_of_records(headers, table);
    assert forall|c: int| 0 <= c < headers.len() implies strictly_sorted(#[trigger] w.subheaders[c]) by {
        let u = distinct_values(table, c);
        let s = w.subheaders[c];
        lemma_sorted_set(column(table, c));
        let p = headers[c] + seq!['_'];
        assert forall|i: int, j: int| 0 <= i < j < s.len() implies chars_lt(#[trigger] s[i], #[trigger] s[j]) by {
            assert(s[i] == subheader_name(headers[c], u[i]));
            assert(s[j] == subheader_name(headers[c], u[j]));
            assert(subheader_name(headers[c], u[i]) == p + u[i]);
            assert(subheader_name(headers[c], u[j]) == p + u[j]);
            assert(chars_lt(u[i], u[j]));
            lemma_lt_prefix(p, u[i], u[j]);
        }
    }
}

/// A merge has each feature name once, and sorted sub-feature lists.
pub proof fn lemma_merged_sorted(a: DatasetModel, b: DatasetModel)
    ensures
        headers_distinct(merged_model(a, b).headers),
        forall|k: int|
            0 <= k < merged_model(a, b).subheaders.len() ==> strictly_sorted(
                #[trigger] merged_model(a, b).subheaders[k],
            ),
{
    let r = merged_model(a, b);
    lemma_sorted_set(a.headers + b.headers);
    assert forall|i: int, j: int| 0 <= i < j < r.headers.len() implies #[trigger] r.headers[i]
        != #[trigger] r.headers[j] by {
        crate::order::lemma_lt_irreflexive(r.headers[i]);
    }
    assert forall|k: int| 0 <= k < r.subheaders.len() implies strictly_sorted(#[trigger] r.subheaders[k]) by {
        lemma_sorted_set(values_or_empty(a, r.headers[k]) + values_or_empty(b, r.headers[k]));
    }
}

proof fn lemma_co_count_remove(t: Seq<Seq<Seq<char>>>, i: int, x: (int, Seq<char>), y: (int, Seq<char>))
    requires
        0 <= i < t.len(),
    ensures
        co_count(t, x, y) == co_count(t.remove(i), x, y) + if takes_cell(t[i], x) && takes_cell(t[i], y) {
            1int
        } else {
            0int
        },
    decreases t.len(),
{
    if i == t.len() - 1 {
        assert(t.remove(i) =~= t.drop_last());
    } else {
        lemma_co_count_remove(t.drop_last(), i, x, y);
        assert(t.remove(i).drop_last() =~= t.drop_last().remove(i));
        assert(t.remove(i).last() == t.last());
        assert(t.drop_last()[i] == t[i]);
    }
}

/// Two tables with the same records, each as often, count the same.
proof fn lemma_co_count_permutation(
    t1: Seq<Seq<Seq<char>>>,
    t2: Seq<Seq<Seq<char>>>,
    x: (int, Seq<char>),
    y: (int, Seq<char>),
)
    requires
        t1.to_multiset() == t2.to_multiset(),
    ensures
        co_count(t1, x, y) == co_count(t2, x, y),
    decreases t1.len(),
{
    broadcast use vstd::seq_lib::group_to_multiset_ensures, vstd::multiset::group_multiset_axioms;

    if t1.len() == 0 {
        assert(t2.to_multiset().len() == 0);
        assert(t2.len() == 0);
    } else {
        let r = t1.last();
        let d = t1.drop_last();
        assert(t1 =~= d.push(r));
        assert(d.push(r).to_multiset() =~= d.to_multiset().insert(r));
        assert(t1.to_multiset().count(r) > 0);
        assert(t2.contains(r));
        let i = choose|i: int| 0 <= i < t2.len() && t2[i] == r;
        assert(t2.remove(i).to_multiset() =~= t2.to_multiset().remove(r));
        assert(d.to_multiset() =~= t2.remove(i).to_multiset());
        lemma_co_count_permutation(d, t2.remove(i), x, y);
        lemma_co_count_remove(t2, i, x, y);
    }
}

/// Two tables with the same records, each as often, have the same values in
/// every field.
proof fn lemma_column_permutation(t1: Seq<Seq<Seq<char>>>, t2: Seq<Seq<Seq<char>>>, c: int, v: Seq<char>)
    requires
        t1.to_multiset() == t2.to_multiset(),
    ensures
        column(t1, c).contains(v) ==> column(t2, c).contains(v),
{
    broadcast use vstd::seq_lib::group_to_multiset_ensures;

    if column(t1, c).contains(v) {
        let k = choose|k: int| 0 <= k < column(t1, c).len() && column(t1, c)[k] == v;
        let r = t1[k];
        assert(t1.contains(r));
        assert(t1.to_multiset().count(r) > 0);
        assert(t2.contains(r));
        let j = choose|j: int| 0 <= j < t2.len() && t2[j] == r;
        assert(column(t2, c)[j] == v);
    }
}

/// The order of the records does not matter: two tables with the same
/// records, each as often, are counted into the same dataset.
pub proof fn lemma_record_order(headers: Seq<Seq<char>>, t1: Seq<Seq<Seq<char>>>, t2: Seq<Seq<Seq<char>>>)
    requires
        t1.to_multiset() == t2.to_multiset(),
    ensures
        model_of_records(headers, t1) == model_of_records(headers, t2),
{
    broadcast use vstd::seq_lib::group_to_multiset_ensures;

    vstd::seq_lib::to_multiset_len(t1);
    vstd::seq_lib::to_multiset_len(t2);
    assert forall|c: int| #[trigger] distinct_values(t1, c) == distinct_values(t2, c) by {
        lemma_sorted_set(column(t1, c));
        assert forall|v: Seq<char>| column(t1, c).contains(v) <==> column(t2, c).contains(v) by {
            lemma_column_permutation(t1, t2, c, v);
            lemma_column_permutation(t2, t1, c, v);
        }
        lemma_sorted_set_unique(sorted_set(column(t1, c)), column(t2, c));
    }
    let nf = headers.len() as int;
    assert(Seq::new(nf as nat, |c: int| cell_block(t1, c)) =~= Seq::new(nf as nat, |c: int| cell_block(t2, c)));
    let cells = cells_upto(t1, nf);
    assert(cells == cells_upto(t2, nf));
    let w1 = model_of_records(headers, t1);
    let w2 = model_of_records(headers, t2);
    assert(w1.subheaders =~= w2.subheaders);
    assert forall|c: int| 0 <= c < cells.len() implies #[trigger] w1.matrix[c] =~= w2.matrix[c] by {
        assert forall|r: int| 0 <= r < cells.len() implies w1.matrix[c][r] == w2.matrix[c][r] by {
            lemma_co_count_permutation(t1, t2, cells[r], cells[c]);
        }
    }
    assert(w1.matrix =~= w2.matrix);
}

/// The counts of `x` with each name of `u`, summed.
pub open spec fn row_sum(m: DatasetModel, x: Seq<char>, u: Seq<Seq<char>>) -> int
    decreases u.len(),
{
    if u.len() == 0 {
        0
    } else {
        row_sum(m, x, u.drop_last()) + m.count(x, u.last())
    }
}

/// The number of records that take `x` and each value of `u` in field `c`,
/// summed.
spec fn cell_row_sum(table: Seq<Seq<Seq<char>>>, x: (int, Seq<char>), c: int, u: Seq<Seq<char>>) -> int
    decreases u.len(),
{
    if u.len() == 0 {
        0
    } else {
        cell_row_sum(table, x, c, u.drop_last()) + co_count(table, x, (c, u.last()))
    }
}

proof fn lemma_cell_row_step(table: Seq<Seq<Seq<char>>>, x: (int, Seq<char>), c: int, u: Seq<Seq<char>>)
    requires
        table.len() > 0,
    ensures
        cell_row_sum(table, x, c, u) == cell_row_sum(table.drop_last(), x, c, u) + if takes_cell(table.last(), x) {
            hits(u, table.last()[c])
        } else {
            0
        },
    decreases u.len(),
{
    if u.len() > 0 {
        lemma_cell_row_step(table, x, c, u.drop_last());
    }
}

proof fn lemma_cell_row_zero(table: Seq<Seq<Seq<char>>>, x: (int, Seq<char>), c: int, u: Seq<Seq<char>>)
    requires
        table.len() == 0,
    ensures
        cell_row_sum(table, x, c, u) == 0,
    decreases u.len(),
{
    if u.len() > 0 {
        lemma_cell_row_zero(table, x, c, u.drop_last());
    }
}

/// Over a list of distinct values that holds every value of field `c`, the
/// records that take `x` and each value add up to those that take `x`.
proof fn lemma_cell_row_sum(table: Seq<Seq<Seq<char>>>, x: (int, Seq<char>), c: int, u: Seq<Seq<char>>)
    requires
        strictly_sorted(u),
        forall|v: Seq<char>| #[trigger] column(table, c).contains(v) ==> u.contains(v),
    ensures
        cell_row_sum(table, x, c, u) == co_count(table, x, x),
    decreases table.len(),
{
    if table.len() == 0 {
        lemma_cell_row_zero(table, x, c, u);
    } else {
        let d = table.drop_last();
        assert forall|v: Seq<char>| #[trigger] column(d, c).contains(v) implies u.contains(v) by {
            let k = choose|k: int| 0 <= k < column(d, c).len() && column(d, c)[k] == v;
            assert(column(table, c)[k] == v);
            assert(column(table, c).contains(v));
        }
        lemma_cell_row_sum(d, x, c, u);
        lemma_cell_row_step(table, x, c, u);
        let w = column(table, c)[table.len() - 1];
        assert(column(table, c).contains(w));
        lemma_hits(u, w);
    }
}

proof fn lemma_row_sum_zero(m: DatasetModel, x: Seq<char>, u: Seq<Seq<char>>)
    requires
        last_index(m.names(), x) == -1,
    ensures
        row_sum(m, x, u) == 0,
    decreases u.len(),
{
    if u.len() > 0 {
        lemma_row_sum_zero(m, x, u.drop_last());
    }
}

/// In a counted table with distinct sub-feature names, the sub-feature at
/// place `i` of field `c` sits at the last position of its name.
proof fn lemma_block_position(headers: Seq<Seq<char>>, table: Seq<Seq<Seq<char>>>, c: int, i: int)
    requires
        0 <= c < headers.len(),
        names_distinct(model_of_records(headers, table)),
        0 <= i < distinct_values(table, c).len(),
    ensures
        model_of_records(headers, table).subheaders[c] == block_names(headers, table, c),
        block_names(headers, table, c)[i] == cell_name(headers, (c, distinct_values(table, c)[i])),
        column(table, c).contains(distinct_values(table, c)[i]),
        0 <= last_index(model_of_records(headers, table).names(), block_names(headers, table, c)[i]),
        cells_upto(table, headers.len() as int)[last_index(
            model_of_records(headers, table).names(),
            block_names(headers, table, c)[i],
        )] == (c, distinct_values(table, c)[i]),
{
    let u = distinct_values(table, c);
    let cell = (c, u[i]);
    lemma_sorted_set(column(table, c));
    assert(u.contains(u[i]));
    lemma_cells_contains(table, headers.len() as int, cell);
    lemma_cell_position(headers, table, cell);
    assert(model_of_records(headers, table).subheaders[c] =~= block_names(headers, table, c));
}

/// For a counted table with distinct sub-feature names, and any name `x`,
/// the counts of `x` with the sub-features of one feature add up to the
/// count of `x` with itself: each record takes exactly one value of the
/// feature.
pub proof fn lemma_feature_rows(headers: Seq<Seq<char>>, table: Seq<Seq<Seq<char>>>, c: int, x: Seq<char>)
    requires
        0 <= c < headers.len(),
        names_distinct(model_of_records(headers, table)),
    ensures
        row_sum(model_of_records(headers, table), x, model_of_records(headers, table).subheaders[c])
            == model_of_records(headers, table).count(x, x),
{
    let w = model_of_records(headers, table);
    let cw = cells_upto(table, headers.len() as int);
    let u = distinct_values(table, c);
    let bn = block_names(headers, table, c);
    lemma_sorted_set(column(table, c));
    assert(w.subheaders[c] =~= bn);
    lemma_last_index(w.names(), x);
    lemma_records_count(headers, table, x, x);
    let px = last_index(w.names(), x);
    if px < 0 {
        lemma_row_sum_zero(w, x, bn);
    } else {
        let cx = cw[px];
        lemma_cell_row_sum(table, cx, c, u);
        lemma_feature_rows_upto(headers, table, c, x, u.len() as int);
        assert(bn.take(u.len() as int) =~= bn);
        assert(u.take(u.len() as int) =~= u);
    }
}

proof fn lemma_feature_rows_upto(headers: Seq<Seq<char>>, table: Seq<Seq<Seq<char>>>, c: int, x: Seq<char>, k: int)
    requires
        0 <= c < headers.len(),
        names_distinct(model_of_records(headers, table)),
        0 <= last_index(model_of_records(headers, table).names(), x),
        0 <= k <= distinct_values(table, c).len(),
    ensures
        row_sum(model_of_records(headers, table), x, block_names(headers, table, c).take(k)) == cell_row_sum(
            table,
            cells_upto(table, headers.len() as int)[last_index(model_of_records(headers, table).names(), x)],
            c,
            distinct_values(table, c).take(k),
        ),
    decreases k,
{
    let w = model_of_records(headers, table);
    let cw = cells_upto(table, headers.len() as int);
    let u = distinct_values(table, c);
    let bn = block_names(headers, table, c);
    let px = last_index(w.names(), x);
    if k > 0 {
        lemma_feature_rows_upto(headers, table, c, x, k - 1);
        assert(bn.take(k).drop_last() =~= bn.take(k - 1));
        assert(u.take(k).drop_last() =~= u.take(k - 1));
        lemma_block_position(headers, table, c, k - 1);
        lemma_records_count(headers, table, x, bn[k - 1]);
        lemma_last_index(w.names(), x);
    } else {
        assert(bn.take(0) =~= Seq::<Seq<char>>::empty());
        assert(u.take(0) =~= Seq::<Seq<char>>::empty());
    }
}

proof fn lemma_co_count_present(t: Seq<Seq<Seq<char>>>, x: (int, Seq<char>))
    requires
        column(t, x.0).contains(x.1),
    ensures
        co_count(t, x, x) >= 1,
    decreases t.len(),
{
    if !takes_cell(t.last(), x) {
        let k = choose|k: int| 0 <= k < column(t, x.0).len() && column(t, x.0)[k] == x.1;
        assert(column(t.drop_last(), x.0)[k] == x.1);
        lemma_co_count_present(t.drop_last(), x);
    }
}

proof fn lemma_co_count_exclusive(t: Seq<Seq<Seq<char>>>, c: int, v: Seq<char>, v2: Seq<char>)
    requires
        v != v2,
    ensures
        co_count(t, (c, v), (c, v2)) == 0,
    decreases t.len(),
{
    if t.len() > 0 {
        lemma_co_count_exclusive(t.drop_last(), c, v, v2);
    }
}

/// In a counted table with distinct sub-feature names, every sub-feature
/// holds in some record, and two different sub-features of one feature never
/// hold together.
pub proof fn lemma_feature_cells(headers: Seq<Seq<char>>, table: Seq<Seq<Seq<char>>>, c: int, i: int, j: int)
    requires
        0 <= c < headers.len(),
        names_distinct(model_of_records(headers, table)),
        0 <= i < model_of_records(headers, table).subheaders[c].len(),
        0 <= j < model_of_records(headers, table).subheaders[c].len(),
    ensures
        model_of_records(headers, table).count(
            model_of_records(headers, table).subheaders[c][i],
            model_of_records(headers, table).subheaders[c][i],
        ) >= 1,
        i != j ==> model_of_records(headers, table).count(
            model_of_records(headers, table).subheaders[c][i],
            model_of_records(headers, table).subheaders[c][j],
        ) == 0,
{
    let w = model_of_records(headers, table);
    let u = distinct_values(table, c);
    let bn = block_names(headers, table, c);
    lemma_sorted_set(column(table, c));
    assert(w.subheaders[c] =~= bn);
    lemma_block_position(headers, table, c, i);
    lemma_block_position(headers, table, c, j);
    lemma_records_count(headers, table, bn[i], bn[i]);
    lemma_records_count(headers, table, bn[i], bn[j]);
    lemma_co_count_present(table, (c, u[i]));
    if i != j {
        if i < j {
            assert(chars_lt(u[i], u[j]));
            crate::order::lemma_lt_irreflexive(u[i]);
        } else {
            assert(chars_lt(u[j], u[i]));
            crate::order::lemma_lt_irreflexive(u[j]);
        }
        lemma_co_count_exclusive(table, c, u[i], u[j]);
    }
}

/// The sub-feature names of a feature in a merge are those it has in either
/// dataset.
proof fn lemma_merged_values(a: DatasetModel, b: DatasetModel, h: Seq<char>, x: Seq<char>)
    ensures
        values_or_empty(merged_model(a, b), h).contains(x) <==> (values_or_empty(a, h).contains(x)
            || values_or_empty(b, h).contains(x)),
{
    let m = merged_model(a, b);
    let hs = m.headers;
    lemma_sorted_set(a.headers + b.headers);
    lemma_add_contains(a.headers, b.headers, h);
    lemma_last_index(hs, h);
    lemma_last_index(a.headers, h);
    lemma_last_index(b.headers, h);
    let k = last_index(hs, h);
    if k >= 0 {
        lemma_sorted_set(values_or_empty(a, h) + values_or_empty(b, h));
        lemma_add_contains(values_or_empty(a, h), values_or_empty(b, h), x);
    }
}

/// When each feature name occurs once, every sub-feature name of a dataset
/// is a sub-feature name of its merges.
proof fn lemma_names_in_merge(a: DatasetModel, b: DatasetModel, x: Seq<char>)
    requires
        a.subheaders.len() == a.headers.len(),
        headers_distinct(a.headers),
        a.names().contains(x),
    ensures
        merged_model(a, b).names().contains(x),
{
    let m = merged_model(a, b);
    let hs = m.headers;
    lemma_concat_contains(a.subheaders, x);
    lemma_concat_contains(m.subheaders, x);
    let p = choose|p: int| 0 <= p < a.subheaders.len() && (#[trigger] a.subheaders[p]).contains(x);
    let h = a.headers[p];
    lemma_last_index(a.headers, h);
    let q = last_index(a.headers, h);
    if q != p {
        if q < p {
            assert(a.headers[q] != a.headers[p]);
        } else {
            assert(a.headers[p] != a.headers[q]);
        }
    }
    lemma_merged_values(a, b, h, x);
    lemma_sorted_set(a.headers + b.headers);
    lemma_add_contains(a.headers, b.headers, h);
    assert(a.headers.contains(h));
    lemma_last_index(hs, h);
    let k = last_index(hs, h);
    assert(m.subheaders[k].contains(x));
}

/// When each feature name occurs once in both datasets, a count in the merge
/// is the sum of the counts in both, with the two names in turn.
proof fn lemma_merged_count(a: DatasetModel, b: DatasetModel, x: Seq<char>, y: Seq<char>)
    requires
        a.subheaders.len() == a.headers.len(),
        b.subheaders.len() == b.headers.len(),
        headers_distinct(a.headers),
        headers_distinct(b.headers),
    ensures
        merged_model(a, b).count(x, y) == a.count(y, x) + b.count(y, x),
{
    let m = merged_model(a, b);
    lemma_last_index(m.names(), x);
    lemma_last_index(m.names(), y);
    lemma_last_index(a.names(), x);
    lemma_last_index(a.names(), y);
    lemma_last_index(b.names(), x);
    lemma_last_index(b.names(), y);
    if a.names().contains(x) {
        lemma_names_in_merge(a, b, x);
    }
    if a.names().contains(y) {
        lemma_names_in_merge(a, b, y);
    }
    lemma_merge_commutative(a, b);
    if b.names().contains(x) {
        lemma_names_in_merge(b, a, x);
    }
    if b.names().contains(y) {
        lemma_names_in_merge(b, a, y);
    }
}

/// Merging is associative for datasets whose feature names occur once and
/// whose outer two matrices are symmetric (as for those counted from records
/// and their merges).
pub proof fn lemma_merge_associative(a: DatasetModel, b: DatasetModel, c: DatasetModel)
    requires
        a.well_formed(),
        b.subheaders.len() == b.headers.len(),
        c.well_formed(),
        headers_distinct(a.headers),
        headers_distinct(b.headers),
        headers_distinct(c.headers),
        matrix_symmetric(a),
        matrix_symmetric(c),
    ensures
        merged_model(merged_model(a, b), c) == merged_model(a, merged_model(b, c)),
{
    let ab = merged_model(a, b);
    let bc = merged_model(b, c);
    let l = merged_model(ab, c);
    let r = merged_model(a, bc);
    lemma_sorted_set(a.headers + b.headers);
    lemma_sorted_set(b.headers + c.headers);
    lemma_sorted_set(ab.headers + c.headers);
    lemma_sorted_set(a.headers + bc.headers);
    assert forall|h: Seq<char>| (ab.headers + c.headers).contains(h) <==> (a.headers + bc.headers).contains(h) by {
        lemma_add_contains(a.headers, b.headers, h);
        lemma_add_contains(b.headers, c.headers, h);
        lemma_add_contains(ab.headers, c.headers, h);
        lemma_add_contains(a.headers, bc.headers, h);
    }
    lemma_sorted_set_unique(l.headers, a.headers + bc.headers);
    let hs = l.headers;
    assert forall|k: int| 0 <= k < hs.len() implies #[trigger] l.subheaders[k] == r.subheaders[k] by {
        let h = hs[k];
        let lv = values_or_empty(ab, h) + values_or_empty(c, h);
        let rv = values_or_empty(a, h) + values_or_empty(bc, h);
        lemma_sorted_set(lv);
        assert forall|x: Seq<char>| lv.contains(x) <==> rv.contains(x) by {
            lemma_add_contains(values_or_empty(ab, h), values_or_empty(c, h), x);
            lemma_add_contains(values_or_empty(a, h), values_or_empty(bc, h), x);
            lemma_merged_values(a, b, h, x);
            lemma_merged_values(b, c, h, x);
        }
        lemma_sorted_set_unique(sorted_set(lv), rv);
    }
    assert(l.subheaders =~= r.subheaders);
    let n = l.names();
    lemma_merged_sorted(a, b);
    lemma_merged_sorted(b, c);
    assert forall|col: int| 0 <= col < n.len() implies #[trigger] l.matrix[col] =~= r.matrix[col] by {
        assert forall|row: int| 0 <= row < n.len() implies l.matrix[col][row] == r.matrix[col][row] by {
            lemma_merged_count(a, b, n[col], n[row]);
            lemma_merged_count(b, c, n[col], n[row]);
            lemma_symmetric_intersection(a, n[col], n[row]);
            lemma_symmetric_intersection(c, n[col], n[row]);
        }
    }
    assert(l.matrix =~= r.matrix);
}

/// When no sub-feature name occurs twice, the intersection of the names at
/// positions `p` and `q` is the matrix entry in row `p` and column `q`.
pub proof fn lemma_intersection_at_positions(m: DatasetModel, p: int, q: int)
    requires
        names_distinct(m),
        0 <= p < m.names().len(),
        0 <= q < m.names().len(),
    ensures
        m.intersection(m.names()[p], m.names()[q]) == Some(m.matrix[q][p]),
{
    let n = m.names();
    lemma_last_index(n, n[p]);
    lemma_last_index(n, n[q]);
    if last_index(n, n[p]) != p {
        assert(n[p] != n[last_index(n, n[p])]);
    }
    if last_index(n, n[q]) != q {
        assert(n[q] != n[last_index(n, n[q])]);
    }
}

/// Every line read is counted, each time it occurs. Take plain CSV text
/// with a header row of `h` and a plain line with as many fields as `h`, and
/// read both as `Dataset::new` states (`csv_records` of the longer text is
/// that of the shorter one with the line's fields pushed): the dataset of the
/// longer text has one more instance, and the count of two pairs (field,
/// value) grows by one exactly when the line takes both, also when the line
/// repeats an earlier record.
pub proof fn lemma_appended_line(
    text: Seq<u8>,
    line: Seq<u8>,
    h: Seq<Seq<char>>,
    x: (int, Seq<char>),
    y: (int, Seq<char>),
)
    requires
        plain_text(text),
        plain_line(line),
        csv_header_row(text) == Some(h),
        line_fields(line).len() == h.len(),
        csv_header_row(text + line) == csv_header_row(text),
        csv_records(text + line) == csv_records(text).push(Some(line_fields(line))),
    ensures
        read_ok(csv_records(text + line)) == read_ok(csv_records(text)).push(line_fields(line)),
        model_of_records(h, read_ok(csv_records(text + line))).instances == model_of_records(
            h,
            read_ok(csv_records(text)),
        ).instances + 1,
        co_count(read_ok(csv_records(text + line)), x, y) == co_count(read_ok(csv_records(text)), x, y) + if takes_cell(
            line_fields(line),
            x,
        ) && takes_cell(line_fields(line), y) {
            1int
        } else {
            0int
        },
{
    let items = csv_records(text + line);
    assert(items.drop_last() =~= csv_records(text));
    let t2 = read_ok(items);
    let t1 = read_ok(csv_records(text));
    assert(t2 == t1.push(line_fields(line)));
    assert(t2.drop_last() =~= t1);
    assert(t2.last() == line_fields(line));
}

} // verus!
