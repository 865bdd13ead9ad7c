//! What holds of the datasets as a whole.

use vstd::prelude::*;
use crate::dataset::{
    block_names, cell_block, cells_upto, co_count, concat_all, distinct_values, header_entries, last_index,
    lemma_last_index, takes_cell, model_of_records, subheader_name, DatasetModel,
};
use crate::merge::{merged_model, merged_subheaders, values_or_empty};
use crate::order::{
    chars_lt, column, is_sorted_set_of, lemma_lt_prefix, lemma_sorted_set, lemma_sorted_set_unique, sorted_set,
    strictly_sorted,
};

verus! {

pub(crate) proof fn lemma_add_contains<A>(x: Seq<A>, y: Seq<A>, e: A)
    ensures
        (x + y).contains(e) <==> (x.contains(e) || y.contains(e)),
{
    if (x + y).contains(e) {
        let k = choose|k: int| 0 <= k < (x + y).len() && (x + y)[k] == e;
        if k < x.len() {
            assert(x[k] == e);
        } else {
            assert(y[k - x.len()] == e);
        }
    }
    if x.contains(e) {
        let k = choose|k: int| 0 <= k < x.len() && x[k] == e;
        assert((x + y)[k] == e);
    }
    if y.contains(e) {
        let k = choose|k: int| 0 <= k < y.len() && y[k] == e;
        assert((x + y)[k + x.len()] == e);
    }
}

pub(crate) proof fn lemma_concat_contains<A>(s: Seq<Seq<A>>, e: A)
    ensures
        concat_all(s).contains(e) <==> exists|i: int| 0 <= i < s.len() && (#[trigger] s[i]).contains(e),
    decreases s.len(),
{
    if s.len() > 0 {
        lemma_concat_contains(s.drop_last(), e);
        lemma_add_contains(concat_all(s.drop_last()), s.last(), e);
        if exists|i: int| 0 <= i < s.len() && (#[trigger] s[i]).contains(e) {
            let i = choose|i: int| 0 <= i < s.len() && (#[trigger] s[i]).contains(e);
            if i < s.len() - 1 {
                assert(s.drop_last()[i] == s[i]);
            }
        }
        if exists|i: int| 0 <= i < s.drop_last().len() && (#[trigger] s.drop_last()[i]).contains(e) {
            let i = choose|i: int| 0 <= i < s.drop_last().len() && (#[trigger] s.drop_last()[i]).contains(e);
            assert(s[i] == s.drop_last()[i]);
        }
    }
}

proof fn lemma_concat_map<A, B>(s: Seq<Seq<A>>, g: spec_fn(A) -> B)
    ensures
        concat_all(s.map_values(|x: Seq<A>| x.map_values(g))) == concat_all(s).map_values(g),
    decreases s.len(),
{
    let f = |x: Seq<A>| x.map_values(g);
    if s.len() > 0 {
        lemma_concat_map(s.drop_last(), g);
        assert(s.map_values(f).drop_last() =~= s.drop_last().map_values(f));
        assert((concat_all(s.drop_last()) + s.last()).map_values(g) =~= concat_all(
            s.drop_last(),
        ).map_values(g) + s.last().map_values(g));
    } else {
        assert(concat_all(s.map_values(f)) =~= concat_all(s).map_values(g));
    }
}

proof fn lemma_map_contains<A, B>(u: Seq<A>, f: spec_fn(A) -> B, y: B)
    ensures
        u.map_values(f).contains(y) <==> exists|v: A| u.contains(v) && #[trigger] f(v) == y,
{
    if u.map_values(f).contains(y) {
        let k = choose|k: int| 0 <= k < u.map_values(f).len() && u.map_values(f)[k] == y;
        assert(u.contains(u[k]) && f(u[k]) == y);
    }
    if exists|v: A| u.contains(v) && #[trigger] f(v) == y {
        let v = choose|v: A| u.contains(v) && #[trigger] f(v) == y;
        let k = choose|k: int| 0 <= k < u.len() && u[k] == v;
        assert(u.map_values(f)[k] == y);
    }
}

pub(crate) proof fn lemma_column_append(t1: Seq<Seq<Seq<char>>>, t2: Seq<Seq<Seq<char>>>, c: int)
    ensures
        column(t1 + t2, c) == column(t1, c) + column(t2, c),
{
    assert(column(t1 + t2, c) =~= column(t1, c) + column(t2, c));
}

pub(crate) proof fn lemma_co_count_append(
    t1: Seq<Seq<Seq<char>>>,
    t2: Seq<Seq<Seq<char>>>,
    x: (int, Seq<char>),
    y: (int, Seq<char>),
)
    ensures
        co_count(t1 + t2, x, y) == co_count(t1, x, y) + co_count(t2, x, y),
    decreases t2.len(),
{
    if t2.len() == 0 {
        assert(t1 + t2 =~= t1);
    } else {
        lemma_co_count_append(t1, t2.drop_last(), x, y);
        assert((t1 + t2).drop_last() =~= t1 + t2.drop_last());
        assert((t1 + t2).last() == t2.last());
    }
}

pub(crate) proof fn lemma_co_count_symmetric(t: Seq<Seq<Seq<char>>>, x: (int, Seq<char>), y: (int, Seq<char>))
    ensures
        co_count(t, x, y) == co_count(t, y, x),
    decreases t.len(),
{
    if t.len() > 0 {
        lemma_co_count_symmetric(t.drop_last(), x, y);
    }
}

pub(crate) proof fn lemma_co_count_absent(t: Seq<Seq<Seq<char>>>, x: (int, Seq<char>), y: (int, Seq<char>))
    requires
        !column(t, x.0).contains(x.1),
    ensures
        co_count(t, x, y) == 0,
    decreases t.len(),
{
    if t.len() > 0 {
        assert(!takes_cell(t.last(), x)) by {
            if takes_cell(t.last(), x) {
                assert(column(t, x.0)[t.len() - 1] == x.1);
            }
        }
        assert forall|k: int| 0 <= k < column(t.drop_last(), x.0).len() implies column(
            t.drop_last(),
            x.0,
        )[k] != x.1 by {
            assert(column(t, x.0)[k] == column(t.drop_last(), x.0)[k]);
        }
        lemma_co_count_absent(t.drop_last(), x, y);
    }
}


/// The name of the sub-feature of a pair (field, value), under `headers`.
pub open spec fn cell_name(headers: Seq<Seq<char>>, cell: (int, Seq<char>)) -> Seq<char> {
    subheader_name(headers[cell.0], cell.1)
}

/// The sub-feature names of a counted table are the names of its pairs
/// (field, value), in the same order.
pub(crate) proof fn lemma_names_of_cells(headers: Seq<Seq<char>>, table: Seq<Seq<Seq<char>>>)
    ensures
        model_of_records(headers, table).names() == cells_upto(table, headers.len() as int).map_values(
            |cell: (int, Seq<char>)| cell_name(headers, cell),
        ),
{
    let g = |cell: (int, Seq<char>)| cell_name(headers, cell);
    let blocks = Seq::new(headers.len(), |c: int| cell_block(table, c));
    lemma_concat_map(blocks, g);
    let mapped = blocks.map_values(|x: Seq<(int, Seq<char>)>| x.map_values(g));
    assert forall|c: int| 0 <= c < headers.len() implies #[trigger] mapped[c]
        =~= model_of_records(headers, table).subheaders[c] by {
        assert(blocks[c] == cell_block(table, c));
    }
    assert(blocks.map_values(|x: Seq<(int, Seq<char>)>| x.map_values(g)) =~= model_of_records(
        headers,
        table,
    ).subheaders);
}

/// The pairs (field, value) of a table are those of a field below `nf` and a
/// value that field takes.
pub(crate) proof fn lemma_cells_contains(table: Seq<Seq<Seq<char>>>, nf: int, cell: (int, Seq<char>))
    requires
        0 <= nf,
    ensures
        cells_upto(table, nf).contains(cell) <==> (0 <= cell.0 < nf && column(table, cell.0).contains(
            cell.1,
        )),
{
    let blocks = Seq::new(nf as nat, |c: int| cell_block(table, c));
    lemma_concat_contains(blocks, cell);
    if cells_upto(table, nf).contains(cell) {
        let i = choose|i: int| 0 <= i < blocks.len() && (#[trigger] blocks[i]).contains(cell);
        lemma_sorted_set(column(table, i));
        let k = choose|k: int| 0 <= k < blocks[i].len() && blocks[i][k] == cell;
        assert(distinct_values(table, i).contains(cell.1));
    }
    if 0 <= cell.0 < nf && column(table, cell.0).contains(cell.1) {
        lemma_sorted_set(column(table, cell.0));
        assert(distinct_values(table, cell.0).contains(cell.1));
        let k = choose|k: int|
            0 <= k < distinct_values(table, cell.0).len() && distinct_values(table, cell.0)[k] == cell.1;
        assert(blocks[cell.0][k] == cell);
        assert(blocks[cell.0].contains(cell));
    }
}

/// No sub-feature name occurs twice.
pub open spec fn names_distinct(m: DatasetModel) -> bool {
    forall|i: int, j: int|
        0 <= i < j < m.names().len() ==> #[trigger] m.names()[i] != #[trigger] m.names()[j]
}

/// In a counted table with distinct names, a pair (field, value) of the table
/// sits at the last position of its name.
pub(crate) proof fn lemma_cell_position(headers: Seq<Seq<char>>, table: Seq<Seq<Seq<char>>>, cell: (int, Seq<char>))
    requires
        names_distinct(model_of_records(headers, table)),
        cells_upto(table, headers.len() as int).contains(cell),
    ensures
        0 <= last_index(model_of_records(headers, table).names(), cell_name(headers, cell)),
        cells_upto(table, headers.len() as int)[last_index(
            model_of_records(headers, table).names(),
            cell_name(headers, cell),
        )] == cell,
{
    let m = model_of_records(headers, table);
    let cells = cells_upto(table, headers.len() as int);
    lemma_names_of_cells(headers, table);
    let j = choose|j: int| 0 <= j < cells.len() && cells[j] == cell;
    assert(m.names()[j] == cell_name(headers, cell));
    lemma_last_index(m.names(), cell_name(headers, cell));
    let li = last_index(m.names(), cell_name(headers, cell));
    if li != j {
        if li < j {
            assert(m.names()[li] != m.names()[j]);
        } else {
            assert(m.names()[j] != m.names()[li]);
        }
    }
}


/// The sub-feature names of field `c` over two tables, merged, are those over
/// both tables together.
proof fn lemma_block_names_union(
    headers: Seq<Seq<char>>,
    t1: Seq<Seq<Seq<char>>>,
    t2: Seq<Seq<Seq<char>>>,
    c: int,
)
    ensures
        sorted_set(block_names(headers, t1, c) + block_names(headers, t2, c)) == block_names(
            headers,
            t1 + t2,
            c,
        ),
{
    let t = t1 + t2;
    let f = |v: Seq<char>| subheader_name(headers[c], v);
    let p = headers[c] + seq!['_'];
    let u = distinct_values(t, c);
    lemma_sorted_set(column(t, c));
    lemma_sorted_set(column(t1, c));
    lemma_sorted_set(column(t2, c));
    let bn = block_names(headers, t, c);
    let b1 = block_names(headers, t1, c);
    let b2 = block_names(headers, t2, c);
    assert(bn == u.map_values(f));
    assert forall|i: int, j: int| 0 <= i < j < bn.len() implies chars_lt(#[trigger] bn[i], #[trigger] bn[j]) by {
        lemma_lt_prefix(p, u[i], u[j]);
        assert(bn[i] == p + u[i]);
        assert(bn[j] == p + u[j]);
    }
    lemma_column_append(t1, t2, c);
    assert forall|y: Seq<char>| bn.contains(y) <==> (b1 + b2).contains(y) by {
        lemma_add_contains(b1, b2, y);
        lemma_map_contains(u, f, y);
        lemma_map_contains(distinct_values(t1, c), f, y);
        lemma_map_contains(distinct_values(t2, c), f, y);
        if bn.contains(y) {
            let v = choose|v: Seq<char>| u.contains(v) && #[trigger] f(v) == y;
            lemma_add_contains(column(t1, c), column(t2, c), v);
            if column(t1, c).contains(v) {
                assert(distinct_values(t1, c).contains(v) && f(v) == y);
            } else {
                assert(distinct_values(t2, c).contains(v) && f(v) == y);
            }
        }
        if b1.contains(y) {
            let v = choose|v: Seq<char>| distinct_values(t1, c).contains(v) && #[trigger] f(v) == y;
            lemma_add_contains(column(t1, c), column(t2, c), v);
            assert(u.contains(v) && f(v) == y);
        }
        if b2.contains(y) {
            let v = choose|v: Seq<char>| distinct_values(t2, c).contains(v) && #[trigger] f(v) == y;
            lemma_add_contains(column(t1, c), column(t2, c), v);
            assert(u.contains(v) && f(v) == y);
        }
    }
    lemma_sorted_set_unique(bn, b1 + b2);
}


/// In the merge of two counted tables with the same headers, the feature
/// named `h` has the sub-features it has in both tables together, and its
/// position in the merged headers holds `h`.
proof fn lemma_merged_feature(
    headers: Seq<Seq<char>>,
    t1: Seq<Seq<Seq<char>>>,
    t2: Seq<Seq<Seq<char>>>,
    k: int,
)
    requires
        0 <= k < sorted_set(headers + headers).len(),
    ensures
        0 <= last_index(headers, sorted_set(headers + headers)[k]) < headers.len(),
        merged_model(model_of_records(headers, t1), model_of_records(headers, t2)).subheaders[k]
            == model_of_records(headers, t1 + t2).subheaders[last_index(
            headers,
            sorted_set(headers + headers)[k],
        )],
{
    let a = model_of_records(headers, t1);
    let b = model_of_records(headers, t2);
    let mh = sorted_set(headers + headers);
    let h = mh[k];
    lemma_sorted_set(headers + headers);
    assert(mh.contains(h));
    lemma_add_contains(headers, headers, h);
    lemma_last_index(headers, h);
    let i = last_index(headers, h);
    assert(values_or_empty(a, h) == block_names(headers, t1, i));
    assert(values_or_empty(b, h) == block_names(headers, t2, i));
    lemma_block_names_union(headers, t1, t2, i);
}

/// Merging two counted tables with the same headers gives, for every feature
/// name, the sub-features of both tables together.
proof fn lemma_merged_header_values(
    headers: Seq<Seq<char>>,
    t1: Seq<Seq<Seq<char>>>,
    t2: Seq<Seq<Seq<char>>>,
    h: Seq<char>,
)
    ensures
        merged_model(model_of_records(headers, t1), model_of_records(headers, t2)).header_values(h)
            == model_of_records(headers, t1 + t2).header_values(h),
{
    let mh = sorted_set(headers + headers);
    lemma_sorted_set(headers + headers);
    lemma_add_contains(headers, headers, h);
    lemma_last_index(mh, h);
    lemma_last_index(headers, h);
    let k = last_index(mh, h);
    if k >= 0 {
        lemma_merged_feature(headers, t1, t2, k);
    }
}

/// The count of `x` with `y` in the dataset of a part `tp` of the table `t`
/// is the number of records of `tp` that take the pairs (field, value) of
/// `x` and `y` in the dataset of `t`.
proof fn lemma_part_count(
    headers: Seq<Seq<char>>,
    tp: Seq<Seq<Seq<char>>>,
    t: Seq<Seq<Seq<char>>>,
    x: Seq<char>,
    y: Seq<char>,
)
    requires
        names_distinct(model_of_records(headers, t)),
        forall|c: int, v: Seq<char>| #[trigger] column(tp, c).contains(v) ==> column(t, c).contains(v),
        last_index(model_of_records(headers, t).names(), x) >= 0,
        last_index(model_of_records(headers, t).names(), y) >= 0,
    ensures
        model_of_records(headers, tp).count(x, y) == co_count(
            tp,
            cells_upto(t, headers.len() as int)[last_index(model_of_records(headers, t).names(), x)],
            cells_upto(t, headers.len() as int)[last_index(model_of_records(headers, t).names(), y)],
        ),
{
    let w = model_of_records(headers, t);
    let a = model_of_records(headers, tp);
    let nf = headers.len() as int;
    let cw = cells_upto(t, nf);
    let ca = cells_upto(tp, nf);
    let px = last_index(w.names(), x);
    let py = last_index(w.names(), y);
    lemma_names_of_cells(headers, t);
    lemma_names_of_cells(headers, tp);
    lemma_last_index(w.names(), x);
    lemma_last_index(w.names(), y);
    lemma_last_index(a.names(), x);
    lemma_last_index(a.names(), y);
    let cx = cw[px];
    let cy = cw[py];
    assert(cell_name(headers, cx) == x);
    assert(cell_name(headers, cy) == y);
    lemma_cells_contains(t, nf, cx);
    lemma_cells_contains(t, nf, cy);
    lemma_cells_contains(tp, nf, cx);
    lemma_cells_contains(tp, nf, cy);
    // a pair of the part that is named z is the pair of the whole named z
    assert forall|z: Seq<char>| #![trigger last_index(a.names(), z)]
        last_index(a.names(), z) >= 0 implies cw[last_index(w.names(), z)] == ca[last_index(a.names(), z)]
        && cell_name(headers, ca[last_index(a.names(), z)]) == z by {
        lemma_last_index(a.names(), z);
        let cell = ca[last_index(a.names(), z)];
        lemma_cells_contains(tp, nf, cell);
        lemma_cells_contains(t, nf, cell);
        lemma_cell_position(headers, t, cell);
    }
    if a.names().contains(x) && a.names().contains(y) {
        assert(a.intersection(x, y) == Some(a.matrix[last_index(a.names(), y)][last_index(a.names(), x)]));
    } else if !a.names().contains(x) {
        if column(tp, cx.0).contains(cx.1) {
            assert(ca.contains(cx));
            let j = choose|j: int| 0 <= j < ca.len() && ca[j] == cx;
            assert(a.names()[j] == x);
        }
        lemma_co_count_absent(tp, cx, cy);
    } else {
        if column(tp, cy.0).contains(cy.1) {
            assert(ca.contains(cy));
            let j = choose|j: int| 0 <= j < ca.len() && ca[j] == cy;
            assert(a.names()[j] == y);
        }
        lemma_co_count_absent(tp, cy, cx);
        lemma_co_count_symmetric(tp, cx, cy);
    }
}


/// No feature name occurs twice.
pub open spec fn headers_distinct(headers: Seq<Seq<char>>) -> bool {
    forall|i: int, j: int| 0 <= i < j < headers.len() ==> #[trigger] headers[i] != #[trigger] headers[j]
}

/// The merge of two counted tables with the same distinct headers knows the
/// same sub-feature names as the count of both tables together.
proof fn lemma_merged_names(
    headers: Seq<Seq<char>>,
    t1: Seq<Seq<Seq<char>>>,
    t2: Seq<Seq<Seq<char>>>,
    x: Seq<char>,
)
    requires
        headers_distinct(headers),
    ensures
        merged_model(model_of_records(headers, t1), model_of_records(headers, t2)).names().contains(x)
            <==> model_of_records(headers, t1 + t2).names().contains(x),
{
    let m = merged_model(model_of_records(headers, t1), model_of_records(headers, t2));
    let w = model_of_records(headers, t1 + t2);
    let mh = sorted_set(headers + headers);
    lemma_sorted_set(headers + headers);
    lemma_concat_contains(m.subheaders, x);
    lemma_concat_contains(w.subheaders, x);
    if m.names().contains(x) {
        let k = choose|k: int| 0 <= k < m.subheaders.len() && (#[trigger] m.subheaders[k]).contains(x);
        lemma_merged_feature(headers, t1, t2, k);
        let i = last_index(headers, mh[k]);
        assert(w.subheaders[i].contains(x));
    }
    if w.names().contains(x) {
        let c = choose|c: int| 0 <= c < w.subheaders.len() && (#[trigger] w.subheaders[c]).contains(x);
        let h = headers[c];
        assert(headers.contains(h));
        lemma_add_contains(headers, headers, h);
        assert(mh.contains(h));
        let k = choose|k: int| 0 <= k < mh.len() && mh[k] == h;
        lemma_merged_feature(headers, t1, t2, k);
        lemma_last_index(headers, h);
        let i = last_index(headers, h);
        if i != c {
            if i < c {
                assert(headers[i] != headers[c]);
            } else {
                assert(headers[c] != headers[i]);
            }
        }
        assert(m.subheaders[k].contains(x));
    }
}

/// Merging the datasets counted over two sets of records, with the same
/// distinct feature names, gives the dataset counted over all the records:
/// the same number of instances, the same sub-features for every feature,
/// and the same count for every pair of sub-feature names. (The features of
/// the merge come sorted, so their order may differ.) The sub-feature names
/// of the whole are taken to be distinct.
pub proof fn lemma_merge_of_parts(headers: Seq<Seq<char>>, t1: Seq<Seq<Seq<char>>>, t2: Seq<Seq<Seq<char>>>)
    requires
        headers_distinct(headers),
        names_distinct(model_of_records(headers, t1 + t2)),
    ensures
        merged_model(model_of_records(headers, t1), model_of_records(headers, t2)).instances
            == model_of_records(headers, t1 + t2).instances,
        forall|h: Seq<char>|
            #[trigger] merged_model(model_of_records(headers, t1), model_of_records(headers, t2)).header_values(h)
                == model_of_records(headers, t1 + t2).header_values(h),
        forall|x: Seq<char>, y: Seq<char>|
            #[trigger] merged_model(model_of_records(headers, t1), model_of_records(headers, t2)).intersection(x, y)
                == model_of_records(headers, t1 + t2).intersection(x, y),
{
    let t = t1 + t2;
    let a = model_of_records(headers, t1);
    let b = model_of_records(headers, t2);
    let m = merged_model(a, b);
    let w = model_of_records(headers, t);
    let cw = cells_upto(t, headers.len() as int);
    assert forall|h: Seq<char>| #[trigger] m.header_values(h) == w.header_values(h) by {
        lemma_merged_header_values(headers, t1, t2, h);
    }
    assert forall|c: int, v: Seq<char>| #[trigger] column(t1, c).contains(v) implies column(t, c).contains(v) by {
        lemma_column_append(t1, t2, c);
        lemma_add_contains(column(t1, c), column(t2, c), v);
    }
    assert forall|c: int, v: Seq<char>| #[trigger] column(t2, c).contains(v) implies column(t, c).contains(v) by {
        lemma_column_append(t1, t2, c);
        lemma_add_contains(column(t1, c), column(t2, c), v);
    }
    assert forall|x: Seq<char>, y: Seq<char>| #[trigger] m.intersection(x, y) == w.intersection(x, y) by {
        lemma_merged_names(headers, t1, t2, x);
        lemma_merged_names(headers, t1, t2, y);
        lemma_last_index(m.names(), x);
        lemma_last_index(m.names(), y);
        lemma_last_index(w.names(), x);
        lemma_last_index(w.names(), y);
        if w.names().contains(x) && w.names().contains(y) {
            let qx = last_index(m.names(), x);
            let qy = last_index(m.names(), y);
            let px = last_index(w.names(), x);
            let py = last_index(w.names(), y);
            lemma_names_of_cells(headers, t);
            assert(m.matrix[qy][qx] == a.count(y, x) + b.count(y, x));
            assert(w.matrix[py][px] == co_count(t, cw[px], cw[py]));
            lemma_part_count(headers, t1, t, y, x);
            lemma_part_count(headers, t2, t, y, x);
            lemma_co_count_append(t1, t2, cw[py], cw[px]);
            lemma_co_count_symmetric(t, cw[py], cw[px]);
        }
    }
}


/// The count of two sub-features does not depend on their order.
pub proof fn lemma_intersection_symmetric(
    headers: Seq<Seq<char>>,
    table: Seq<Seq<Seq<char>>>,
    x: Seq<char>,
    y: Seq<char>,
)
    ensures
        model_of_records(headers, table).intersection(x, y) == model_of_records(headers, table).intersection(
            y,
            x,
        ),
{
    let w = model_of_records(headers, table);
    let cw = cells_upto(table, headers.len() as int);
    lemma_names_of_cells(headers, table);
    lemma_last_index(w.names(), x);
    lemma_last_index(w.names(), y);
    let px = last_index(w.names(), x);
    let py = last_index(w.names(), y);
    if px >= 0 && py >= 0 {
        lemma_co_count_symmetric(table, cw[px], cw[py]);
    }
}

/// Merging does not depend on the order of the two datasets.
pub proof fn lemma_merge_commutative(a: DatasetModel, b: DatasetModel)
    ensures
        merged_model(a, b) == merged_model(b, a),
{
    lemma_sorted_set(a.headers + b.headers);
    lemma_sorted_set(b.headers + a.headers);
    assert forall|x: Seq<char>| (a.headers + b.headers).contains(x) <==> (b.headers + a.headers).contains(x) by {
        lemma_add_contains(a.headers, b.headers, x);
        lemma_add_contains(b.headers, a.headers, x);
    }
    let hs = sorted_set(a.headers + b.headers);
    lemma_sorted_set_unique(hs, b.headers + a.headers);
    assert forall|h: int| 0 <= h < hs.len() implies #[trigger] merged_subheaders(a, b, hs)[h]
        == merged_subheaders(b, a, hs)[h] by {
        let va = values_or_empty(a, hs[h]);
        let vb = values_or_empty(b, hs[h]);
        lemma_sorted_set(va + vb);
        assert forall|x: Seq<char>| (va + vb).contains(x) <==> (vb + va).contains(x) by {
            lemma_add_contains(va, vb, x);
            lemma_add_contains(vb, va, x);
        }
        lemma_sorted_set_unique(sorted_set(va + vb), vb + va);
    }
    assert(merged_subheaders(a, b, hs) =~= merged_subheaders(b, a, hs));
    let m1 = merged_model(a, b);
    let m2 = merged_model(b, a);
    assert(m1.headers == m2.headers);
    assert(m1.subheaders == m2.subheaders);
    assert(m1.names() == m2.names());
    assert forall|c: int| 0 <= c < m1.matrix.len() implies #[trigger] m1.matrix[c] =~= m2.matrix[c] by {}
    assert(m1.matrix =~= m2.matrix);
}


/// The sum of the counts of each name with itself.
pub open spec fn self_count_sum(m: DatasetModel, names: Seq<Seq<char>>) -> int
    decreases names.len(),
{
    if names.len() == 0 {
        0
    } else {
        self_count_sum(m, names.drop_last()) + m.count(names.last(), names.last())
    }
}

/// The number of records that take each value of `u` in field `c`, summed.
spec fn diagonal_sum(table: Seq<Seq<Seq<char>>>, c: int, u: Seq<Seq<char>>) -> int
    decreases u.len(),
{
    if u.len() == 0 {
        0
    } else {
        diagonal_sum(table, c, u.drop_last()) + co_count(table, (c, u.last()), (c, u.last()))
    }
}

/// How many elements of `u` equal `w`.
pub(crate) open spec fn hits(u: Seq<Seq<char>>, w: Seq<char>) -> int
    decreases u.len(),
{
    if u.len() == 0 {
        0
    } else {
        hits(u.drop_last(), w) + if u.last() == w {
            1int
        } else {
            0int
        }
    }
}

pub(crate) proof fn lemma_hits(u: Seq<Seq<char>>, w: Seq<char>)
    requires
        strictly_sorted(u),
    ensures
        hits(u, w) == if u.contains(w) {
            1int
        } else {
            0int
        },
    decreases u.len(),
{
    if u.len() > 0 {
        let d = u.drop_last();
        assert(strictly_sorted(d)) by {
            assert forall|i: int, j: int| 0 <= i < j < d.len() implies chars_lt(#[trigger] d[i], #[trigger] d[j]) by {
                assert(d[i] == u[i] && d[j] == u[j]);
            }
        }
        lemma_hits(d, w);
        if u.last() == w {
            if d.contains(w) {
                let k = choose|k: int| 0 <= k < d.len() && d[k] == w;
                assert(chars_lt(u[k], u[u.len() - 1]));
                crate::order::lemma_lt_irreflexive(w);
            }
            assert(u[u.len() - 1] == w);
        } else {
            if u.contains(w) {
                let k = choose|k: int| 0 <= k < u.len() && u[k] == w;
                assert(d[k] == w);
            }
            if d.contains(w) {
                let k = choose|k: int| 0 <= k < d.len() && d[k] == w;
                assert(u[k] == w);
            }
        }
    }
}

proof fn lemma_diagonal_step(table: Seq<Seq<Seq<char>>>, c: int, u: Seq<Seq<char>>)
    requires
        table.len() > 0,
    ensures
        diagonal_sum(table, c, u) == diagonal_sum(table.drop_last(), c, u) + hits(u, table.last()[c]),
    decreases u.len(),
{
    if u.len() > 0 {
        lemma_diagonal_step(table, c, u.drop_last());
    }
}

/// Over a list of distinct values that holds every value of field `c`, the
/// counts of the values add up to the number of records.
proof fn lemma_diagonal_sum(table: Seq<Seq<Seq<char>>>, c: int, u: Seq<Seq<char>>)
    requires
        strictly_sorted(u),
        forall|v: Seq<char>| #[trigger] column(table, c).contains(v) ==> u.contains(v),
    ensures
        diagonal_sum(table, c, u) == table.len(),
    decreases table.len(),
{
    if table.len() == 0 {
        lemma_diagonal_zero(table, c, u);
    } else {
        let d = table.drop_last();
        assert forall|v: Seq<char>| #[trigger] column(d, c).contains(v) implies u.contains(v) by {
            let k = choose|k: int| 0 <= k < column(d, c).len() && column(d, c)[k] == v;
            assert(column(table, c)[k] == v);
            assert(column(table, c).contains(v));
        }
        lemma_diagonal_sum(d, c, u);
        lemma_diagonal_step(table, c, u);
        let w = column(table, c)[table.len() - 1];
        assert(column(table, c).contains(w));
        assert(u.contains(w));
        lemma_hits(u, w);
    }
}

proof fn lemma_diagonal_zero(table: Seq<Seq<Seq<char>>>, c: int, u: Seq<Seq<char>>)
    requires
        table.len() == 0,
    ensures
        diagonal_sum(table, c, u) == 0,
    decreases u.len(),
{
    if u.len() > 0 {
        lemma_diagonal_zero(table, c, u.drop_last());
    }
}

/// Each record takes exactly one value of each feature: the counts of the
/// sub-features of a feature with themselves add up to the number of
/// records. The sub-feature names are taken to be distinct.
pub proof fn lemma_feature_partition(headers: Seq<Seq<char>>, table: Seq<Seq<Seq<char>>>, c: int)
    requires
        0 <= c < headers.len(),
        names_distinct(model_of_records(headers, table)),
    ensures
        self_count_sum(
            model_of_records(headers, table),
            model_of_records(headers, table).subheaders[c],
        ) == table.len(),
{
    let w = model_of_records(headers, table);
    let u = distinct_values(table, c);
    lemma_sorted_set(column(table, c));
    lemma_diagonal_sum(table, c, u);
    lemma_self_counts(headers, table, c, u);
    assert(u.take(u.len() as int) =~= u);
    assert(block_names(headers, table, c).take(u.len() as int) =~= w.subheaders[c]);
}

proof fn lemma_self_counts(headers: Seq<Seq<char>>, table: Seq<Seq<Seq<char>>>, c: int, u: Seq<Seq<char>>)
    requires
        0 <= c < headers.len(),
        names_distinct(model_of_records(headers, table)),
        u == distinct_values(table, c),
    ensures
        forall|k: int|
            0 <= k <= u.len() ==> #[trigger] self_count_sum(
                model_of_records(headers, table),
                block_names(headers, table, c).take(k),
            ) == diagonal_sum(table, c, u.take(k)),
{
    let w = model_of_records(headers, table);
    let nf = headers.len() as int;
    let cw = cells_upto(table, nf);
    let bn = block_names(headers, table, c);
    lemma_sorted_set(column(table, c));
    lemma_names_of_cells(headers, table);
    assert forall|k: int| 0 <= k <= u.len() implies #[trigger] self_count_sum(w, bn.take(k))
        == diagonal_sum(table, c, u.take(k)) by {
        lemma_self_counts_upto(headers, table, c, u, k);
    }
}

proof fn lemma_self_counts_upto(
    headers: Seq<Seq<char>>,
    table: Seq<Seq<Seq<char>>>,
    c: int,
    u: Seq<Seq<char>>,
    k: int,
)
    requires
        0 <= c < headers.len(),
        names_distinct(model_of_records(headers, table)),
        u == distinct_values(table, c),
        is_sorted_set_of(u, column(table, c)),
        0 <= k <= u.len(),
    ensures
        self_count_sum(model_of_records(headers, table), block_names(headers, table, c).take(k))
            == diagonal_sum(table, c, u.take(k)),
    decreases k,
{
    let w = model_of_records(headers, table);
    let nf = headers.len() as int;
    let cw = cells_upto(table, nf);
    let bn = block_names(headers, table, c);
    if k > 0 {
        lemma_self_counts_upto(headers, table, c, u, k - 1);
        assert(bn.take(k).drop_last() =~= bn.take(k - 1));
        assert(u.take(k).drop_last() =~= u.take(k - 1));
        let v = u[k - 1];
        let cell = (c, v);
        assert(u.contains(v));
        lemma_cells_contains(table, nf, cell);
        lemma_cell_position(headers, table, cell);
        lemma_names_of_cells(headers, table);
        let x = cell_name(headers, cell);
        assert(bn[k - 1] == x);
        lemma_last_index(w.names(), x);
        let p = last_index(w.names(), x);
        assert(cw[p] == cell);
        assert(w.count(x, x) == co_count(table, cell, cell));
    } else {
        assert(bn.take(0) =~= Seq::<Seq<char>>::empty());
        assert(u.take(0) =~= Seq::<Seq<char>>::empty());
    }
}


/// Two datasets agree on everything that can be asked of them: instances,
/// the sub-features of every feature name, and the count of every pair of
/// sub-feature names.
pub open spec fn same_counts(m1: DatasetModel, m2: DatasetModel) -> bool {
    &&& m1.instances == m2.instances
    &&& forall|h: Seq<char>| #[trigger] m1.header_values(h) == m2.header_values(h)
    &&& forall|x: Seq<char>, y: Seq<char>| #[trigger] m1.intersection(x, y) == m2.intersection(x, y)
}

/// A feature name is a header exactly when it has sub-features.
pub(crate) proof fn lemma_header_values_some(m: DatasetModel, h: Seq<char>)
    ensures
        m.header_values(h) is Some <==> m.headers.contains(h),
{
    lemma_last_index(m.headers, h);
}

/// Merging depends only on what can be asked of the datasets.
pub proof fn lemma_merge_respects_counts(a: DatasetModel, a2: DatasetModel, b: DatasetModel, b2: DatasetModel)
    requires
        same_counts(a, a2),
        same_counts(b, b2),
    ensures
        merged_model(a, b) == merged_model(a2, b2),
{
    assert forall|x: Seq<char>| (a.headers + b.headers).contains(x) <==> (a2.headers + b2.headers).contains(x) by {
        lemma_add_contains(a.headers, b.headers, x);
        lemma_add_contains(a2.headers, b2.headers, x);
        lemma_header_values_some(a, x);
        lemma_header_values_some(a2, x);
        lemma_header_values_some(b, x);
        lemma_header_values_some(b2, x);
        assert(a.header_values(x) == a2.header_values(x));
        assert(b.header_values(x) == b2.header_values(x));
    }
    lemma_sorted_set(a.headers + b.headers);
    let hs = sorted_set(a.headers + b.headers);
    lemma_sorted_set_unique(hs, a2.headers + b2.headers);
    assert forall|h: int| 0 <= h < hs.len() implies #[trigger] merged_subheaders(a, b, hs)[h]
        == merged_subheaders(a2, b2, hs)[h] by {
        assert(a.header_values(hs[h]) == a2.header_values(hs[h]));
        assert(b.header_values(hs[h]) == b2.header_values(hs[h]));
    }
    assert(merged_subheaders(a, b, hs) =~= merged_subheaders(a2, b2, hs));
    let m1 = merged_model(a, b);
    let m2 = merged_model(a2, b2);
    assert(m1.names() == m2.names());
    assert forall|c: int| 0 <= c < m1.matrix.len() implies #[trigger] m1.matrix[c] =~= m2.matrix[c] by {
        assert forall|r: int| 0 <= r < m1.matrix.len() implies m1.matrix[c][r] == m2.matrix[c][r] by {
            let x = m1.names()[c];
            let y = m1.names()[r];
            assert(a.intersection(x, y) == a2.intersection(x, y));
            assert(b.intersection(x, y) == b2.intersection(x, y));
        }
    }
    assert(m1.matrix =~= m2.matrix);
}

/// No element occurs twice.
pub open spec fn no_repeats<A>(s: Seq<A>) -> bool {
    forall|i: int, j: int| 0 <= i < j < s.len() ==> #[trigger] s[i] != #[trigger] s[j]
}

/// No pair (field, value) occurs twice among those of a table.
proof fn lemma_cells_no_repeats(table: Seq<Seq<Seq<char>>>, k: int)
    requires
        0 <= k,
    ensures
        no_repeats(cells_upto(table, k)),
    decreases k,
{
    if k > 0 {
        lemma_cells_no_repeats(table, k - 1);
        crate::dataset::lemma_cells_upto_len(table, k - 1);
        let front = cells_upto(table, k - 1);
        let block = cell_block(table, k - 1);
        let all = cells_upto(table, k);
        assert(all == front + block);
        lemma_sorted_set(column(table, k - 1));
        let u = distinct_values(table, k - 1);
        assert forall|i: int, j: int| 0 <= i < j < all.len() implies #[trigger] all[i] != #[trigger] all[j] by {
            if j < front.len() {
                assert(all[i] == front[i] && all[j] == front[j]);
            } else if i < front.len() {
                assert(front.contains(front[i]));
                lemma_cells_contains(table, k - 1, front[i]);
                assert(all[j] == block[j - front.len()]);
            } else {
                let i2 = i - front.len();
                let j2 = j - front.len();
                assert(chars_lt(u[i2], u[j2]));
                crate::order::lemma_lt_irreflexive(u[i2]);
            }
        }
    }
}

/// Distinct sub-feature names over a table stay distinct over a table whose
/// fields take only values of the first.
proof fn lemma_names_distinct_sub(headers: Seq<Seq<char>>, tp: Seq<Seq<Seq<char>>>, t: Seq<Seq<Seq<char>>>)
    requires
        names_distinct(model_of_records(headers, t)),
        forall|c: int, v: Seq<char>| #[trigger] column(tp, c).contains(v) ==> column(t, c).contains(v),
    ensures
        names_distinct(model_of_records(headers, tp)),
{
    let nf = headers.len() as int;
    let cp = cells_upto(tp, nf);
    let a = model_of_records(headers, tp);
    lemma_names_of_cells(headers, tp);
    lemma_cells_no_repeats(tp, nf);
    assert forall|i: int, j: int| 0 <= i < j < a.names().len() implies #[trigger] a.names()[i]
        != #[trigger] a.names()[j] by {
        let ci = cp[i];
        let cj = cp[j];
        assert(cp.contains(ci));
        assert(cp.contains(cj));
        lemma_cells_contains(tp, nf, ci);
        lemma_cells_contains(tp, nf, cj);
        lemma_cells_contains(t, nf, ci);
        lemma_cells_contains(t, nf, cj);
        lemma_cell_position(headers, t, ci);
        lemma_cell_position(headers, t, cj);
        assert(ci != cj);
    }
}

/// The records of all the tables, one table after the other.
pub open spec fn all_records(parts: Seq<Seq<Seq<Seq<char>>>>) -> Seq<Seq<Seq<char>>> {
    concat_all(parts)
}

/// The datasets counted over each table.
pub open spec fn models_of_tables(headers: Seq<Seq<char>>, parts: Seq<Seq<Seq<Seq<char>>>>) -> Seq<DatasetModel> {
    parts.map_values(|t: Seq<Seq<Seq<char>>>| model_of_records(headers, t))
}

/// Merging, in order, the datasets counted over several sets of records with
/// the same distinct feature names gives a dataset that agrees with the one
/// counted over all the records together. The sub-feature names of the whole
/// are taken to be distinct.
pub proof fn lemma_merge_all_parts(
    headers: Seq<Seq<char>>,
    first: Seq<Seq<Seq<char>>>,
    parts: Seq<Seq<Seq<Seq<char>>>>,
)
    requires
        headers_distinct(headers),
        names_distinct(model_of_records(headers, first + all_records(parts))),
    ensures
        same_counts(
            crate::merge::merge_all(model_of_records(headers, first), models_of_tables(headers, parts)),
            model_of_records(headers, first + all_records(parts)),
        ),
    decreases parts.len(),
{
    let whole = model_of_records(headers, first + all_records(parts));
    if parts.len() == 0 {
        assert(first + all_records(parts) =~= first);
        assert(models_of_tables(headers, parts) =~= Seq::<DatasetModel>::empty());
    } else {
        let rest = parts.drop_last();
        let last = parts.last();
        let front = first + all_records(rest);
        assert(first + all_records(parts) =~= front + last);
        assert forall|c: int, v: Seq<char>| #[trigger] column(front, c).contains(v) implies column(
            front + last,
            c,
        ).contains(v) by {
            lemma_column_append(front, last, c);
            lemma_add_contains(column(front, c), column(last, c), v);
        }
        lemma_names_distinct_sub(headers, front, front + last);
        lemma_merge_all_parts(headers, first, rest);
        assert(models_of_tables(headers, parts).drop_last() =~= models_of_tables(headers, rest));
        let acc = crate::merge::merge_all(model_of_records(headers, first), models_of_tables(headers, rest));
        let b = model_of_records(headers, last);
        lemma_merge_respects_counts(acc, model_of_records(headers, front), b, b);
        lemma_merge_of_parts(headers, front, last);
    }
}

spec fn entry_positions(headers: Seq<Seq<char>>, k: nat) -> Seq<int>
    decreases k,
{
    if k == 0 {
        Seq::empty()
    } else {
        let prev = entry_positions(headers, (k - 1) as nat);
        if last_index(headers, headers[k - 1]) == k - 1 {
            prev.push(k - 1)
        } else {
            prev
        }
    }
}

proof fn lemma_header_entries(headers: Seq<Seq<char>>, subheaders: Seq<Seq<Seq<char>>>, k: nat)
    requires
        k <= headers.len(),
    ensures
        entry_positions(headers, k).len() == header_entries(headers, subheaders, k).len(),
        forall|i: int|
            0 <= i < entry_positions(headers, k).len() ==> {
                let p = #[trigger] entry_positions(headers, k)[i];
                &&& 0 <= p < k
                &&& last_index(headers, headers[p]) == p
                &&& header_entries(headers, subheaders, k)[i] == (headers[p], subheaders[p])
            },
        forall|i: int, j: int|
            0 <= i < j < entry_positions(headers, k).len() ==> #[trigger] entry_positions(headers, k)[i]
                < #[trigger] entry_positions(headers, k)[j],
        forall|p: int|
            0 <= p < k && last_index(headers, #[trigger] headers[p]) == p ==> entry_positions(headers, k).contains(p),
    decreases k,
{
    if k > 0 {
        let pp = entry_positions(headers, (k - 1) as nat);
        let pos = entry_positions(headers, k);
        let prev = header_entries(headers, subheaders, (k - 1) as nat);
        let e = header_entries(headers, subheaders, k);
        lemma_header_entries(headers, subheaders, (k - 1) as nat);
        assert forall|i: int| 0 <= i < pos.len() implies {
            let p = #[trigger] pos[i];
            &&& 0 <= p < k
            &&& last_index(headers, headers[p]) == p
            &&& e[i] == (headers[p], subheaders[p])
        } by {
            if i < pp.len() {
                assert(pos[i] == pp[i]);
                assert(e[i] == prev[i]);
            }
        }
        assert forall|p: int| 0 <= p < k && last_index(headers, #[trigger] headers[p]) == p implies pos.contains(p) by {
            if p < k - 1 {
                let i = choose|i: int| 0 <= i < pp.len() && pp[i] == p;
                assert(pos[i] == pp[i]);
            } else {
                assert(pos[pp.len() as int] == p);
            }
        }
    }
}

/// The entries of `get_subheaders` are the map from feature name to
/// sub-feature names: no name has two entries, each entry holds what
/// `header_values` gives for its name, and every feature name has one.
pub proof fn lemma_subheader_entries(m: DatasetModel)
    requires
        m.subheaders.len() == m.headers.len(),
    ensures
        forall|i: int, j: int|
            0 <= i < j < m.subheader_entries().len() ==> (#[trigger] m.subheader_entries()[i]).0
                != (#[trigger] m.subheader_entries()[j]).0,
        forall|i: int|
            0 <= i < m.subheader_entries().len() ==> m.header_values((#[trigger] m.subheader_entries()[i]).0)
                == Some(m.subheader_entries()[i].1),
        forall|h: Seq<char>|
            (#[trigger] m.header_values(h)) is Some ==> exists|i: int|
                0 <= i < m.subheader_entries().len() && m.subheader_entries()[i].0 == h,
{
    let e = m.subheader_entries();
    let hs = m.headers;
    let pos = entry_positions(hs, hs.len());
    lemma_header_entries(hs, m.subheaders, hs.len());
    assert forall|i: int, j: int|
        0 <= i < j < e.len() implies (#[trigger] e[i]).0 != (#[trigger] e[j]).0 by {
        assert(pos[i] < pos[j]);
        assert(e[i] == (hs[pos[i]], m.subheaders[pos[i]]));
        assert(e[j] == (hs[pos[j]], m.subheaders[pos[j]]));
    }
    assert forall|i: int| 0 <= i < e.len() implies m.header_values((#[trigger] e[i]).0) == Some(e[i].1) by {
        assert(e[i] == (hs[pos[i]], m.subheaders[pos[i]]));
    }
    assert forall|h: Seq<char>| (#[trigger] m.header_values(h)) is Some implies exists|i: int|
        0 <= i < e.len() && e[i].0 == h by {
        lemma_last_index(hs, h);
        let p = last_index(hs, h);
        assert(hs[p] == h);
        assert(last_index(hs, hs[p]) == p);
        let i = choose|i: int| 0 <= i < pos.len() && pos[i] == p;
        assert(e[i] == (hs[pos[i]], m.subheaders[pos[i]]));
    }
}

} // verus!
