//! Merging occurrence matrices counted over different records.

use vstd::prelude::*;
use crate::dataset::{concat_all, last_index, lemma_count_bounds, lemma_last_index, matrix_view, parts_model, Dataset, DatasetModel};
use crate::order::{is_sorted_set_of, lemma_sorted_set_unique, sorted_set, sorted_union, strs};

verus! {

/// The sub-feature names of feature `h` in `m`, or none.
pub open spec fn values_or_empty(m: DatasetModel, h: Seq<char>) -> Seq<Seq<char>> {
    match m.header_values(h) {
        Some(v) => v,
        None => Seq::empty(),
    }
}

/// The sub-feature lists of the merged dataset, for the merged headers.
pub open spec fn merged_subheaders(a: DatasetModel, b: DatasetModel, headers: Seq<Seq<char>>) -> Seq<
    Seq<Seq<char>>,
> {
    Seq::new(
        headers.len(),
        |h: int| sorted_set(values_or_empty(a, headers[h]) + values_or_empty(b, headers[h])),
    )
}

/// The merge of `a` and `b`: the features of both, sorted and without
/// repetition; for each, the sub-features of both, sorted and without
/// repetition; the sum of the instances; and in row `r`, column `c` (for the
/// merged names x = names[c], y = names[r]) the count of x with y in `a`
/// plus that in `b`, 0 where a name is unknown.
pub open spec fn merged_model(a: DatasetModel, b: DatasetModel) -> DatasetModel {
    let headers = sorted_set(a.headers + b.headers);
    let subheaders = merged_subheaders(a, b, headers);
    let names = concat_all(subheaders);
    DatasetModel {
        headers,
        subheaders,
        instances: a.instances + b.instances,
        matrix: Seq::new(
            names.len(),
            |c: int| Seq::new(names.len(), |r: int| a.count(names[c], names[r]) + b.count(names[c], names[r])),
        ),
    }
}

/// Merging one dataset with others.
pub trait Merge<T>: Sized {
    /// Whether `other` can be merged into `self`.
    spec fn merge_fits(&self, other: &T) -> bool;

    /// `self` merged with `other`.
    fn merge(self, other: T) -> (res: Self)
        requires
            self.merge_fits(&other),
    ;
}

/// The matrix position of every name, in `d` (None where unknown).
fn positions_in(d: &Dataset, names: &Vec<String>) -> (res: Vec<Option<usize>>)
    ensures
        d@.well_formed(),
        res.len() == names.len(),
        forall|i: int|
            0 <= i < names.len() ==> match #[trigger] res[i] {
                Some(p) => p as int == last_index(d@.names(), names[i]@) && p < d@.names().len(),
                None => last_index(d@.names(), names[i]@) == -1,
            },
{
    let all = d.get_subheader_names();
    let mut res: Vec<Option<usize>> = Vec::new();
    let mut i: usize = 0;
    while i < names.len()
        invariant
            strs(all@) == d@.names(),
            i <= names.len(),
            res.len() == i,
            forall|k: int|
                0 <= k < i ==> match #[trigger] res[k] {
                    Some(p) => p as int == last_index(d@.names(), names[k]@) && p < d@.names().len(),
                    None => last_index(d@.names(), names[k]@) == -1,
                },
        decreases names.len() - i,
    {
        proof {
            lemma_last_index(d@.names(), names[i as int]@);
        }
        res.push(crate::dataset::last_position(all, &names[i]));
        i = i + 1;
    }
    res
}


/// The count of the names at positions `pc` and `pr` in `d`: the entry in
/// the row of the second and the column of the first, 0 when one is unknown.
fn count_at(d: &Dataset, pc: Option<usize>, pr: Option<usize>) -> (res: isize)
    requires
        pc matches Some(p) ==> p < d@.names().len(),
        pr matches Some(p) ==> p < d@.names().len(),
    ensures
        res as int == match (pc, pr) {
            (Some(i), Some(j)) => d@.matrix[j as int][i as int],
            _ => 0,
        },
        0 <= res <= d@.instances,
{
    let m = d.get_matrix();
    match (pc, pr) {
        (Some(i), Some(j)) => {
            proof {
                assert(matrix_view(m@)[j as int][i as int] == m[j as int][i as int] as int);
            }
            m[j][i]
        },
        _ => 0,
    }
}

impl Merge<Dataset> for Dataset {
    /// The merged number of instances fits the matrix entries.
    open spec fn merge_fits(&self, other: &Dataset) -> bool {
        self@.instances + other@.instances <= isize::MAX
    }

    /// Merges the counts of `other` into those of `self` (see `merged_model`).
    fn merge(self, other: Dataset) -> (res: Dataset)
        ensures
            res@ == merged_model(self@, other@),
    {
        let ghost a = self@;
        let ghost b = other@;
        let headers = sorted_union(self.get_headers(), other.get_headers());
        proof {
            lemma_sorted_set_unique(strs(headers@), a.headers + b.headers);
        }
        let ghost hs = strs(headers@);
        let empty: Vec<String> = Vec::new();
        let mut subheaders: Vec<Vec<String>> = Vec::new();
        let mut h: usize = 0;
        while h < headers.len()
            invariant
                a == self@,
                b == other@,
                hs == strs(headers@),
                hs == sorted_set(a.headers + b.headers),
                empty@.len() == 0,
                h <= headers.len(),
                subheaders.len() == h,
                forall|k: int|
                    0 <= k < h ==> strs((#[trigger] subheaders[k])@) == merged_subheaders(a, b, hs)[k],
            decreases headers.len() - h,
        {
            let va = match self.get_header_values(headers[h].as_str()) {
                Some(v) => v,
                None => &empty,
            };
            let vb = match other.get_header_values(headers[h].as_str()) {
                Some(v) => v,
                None => &empty,
            };
            proof {
                assert(strs(va@) == values_or_empty(a, hs[h as int]));
                assert(strs(vb@) == values_or_empty(b, hs[h as int]));
            }
            let u = sorted_union(va, vb);
            proof {
                lemma_sorted_set_unique(strs(u@), strs(va@) + strs(vb@));
            }
            subheaders.push(u);
            h = h + 1;
        }
        let ghost subs = merged_subheaders(a, b, hs);
        proof {
            assert(subheaders@.map_values(|v: Vec<String>| strs(v@)) =~= subs);
        }
        let names = crate::dataset::concat_strings(&subheaders);
        let ghost ns = concat_all(subs);
        let pa = positions_in(&self, &names);
        let pb = positions_in(&other, &names);
        let n = names.len();
        let mut matrix: Vec<Vec<isize>> = Vec::new();
        let mut c: usize = 0;
        while c < n
            invariant
                a == self@,
                b == other@,
                a.well_formed(),
                b.well_formed(),
                a.instances + b.instances <= isize::MAX,
                ns == strs(names@),
                n == names.len(),
                pa.len() == n,
                pb.len() == n,
                forall|i: int|
                    0 <= i < n ==> match #[trigger] pa[i] {
                        Some(p) => p as int == last_index(a.names(), names[i]@) && p < a.names().len(),
                        None => last_index(a.names(), names[i]@) == -1,
                    },
                forall|i: int|
                    0 <= i < n ==> match #[trigger] pb[i] {
                        Some(p) => p as int == last_index(b.names(), names[i]@) && p < b.names().len(),
                        None => last_index(b.names(), names[i]@) == -1,
                    },
                c <= n,
                matrix.len() == c,
                forall|k: int| 0 <= k < c ==> (#[trigger] matrix[k]).len() == n,
                forall|k: int, r: int|
                    0 <= k < c && 0 <= r < n ==> #[trigger] matrix[k][r] as int == a.count(ns[k], ns[r])
                        + b.count(ns[k], ns[r]),
            decreases n - c,
        {
            let mut col: Vec<isize> = Vec::new();
            let mut r: usize = 0;
            while r < n
                invariant
                    a == self@,
                    b == other@,
                    a.well_formed(),
                    b.well_formed(),
                    a.instances + b.instances <= isize::MAX,
                    ns == strs(names@),
                    n == names.len(),
                    pa.len() == n,
                    pb.len() == n,
                    forall|i: int|
                        0 <= i < n ==> match #[trigger] pa[i] {
                            Some(p) => p as int == last_index(a.names(), names[i]@) && p < a.names().len(),
                            None => last_index(a.names(), names[i]@) == -1,
                        },
                    forall|i: int|
                        0 <= i < n ==> match #[trigger] pb[i] {
                            Some(p) => p as int == last_index(b.names(), names[i]@) && p < b.names().len(),
                            None => last_index(b.names(), names[i]@) == -1,
                        },
                    c < n,
                    r <= n,
                    col.len() == r,
                    forall|r2: int|
                        0 <= r2 < r ==> #[trigger] col[r2] as int == a.count(ns[c as int], ns[r2])
                            + b.count(ns[c as int], ns[r2]),
                decreases n - r,
            {
                let x = count_at(&self, pa[c], pa[r]);
                let y = count_at(&other, pb[c], pb[r]);
                proof {
                    assert(ns[c as int] == names[c as int]@);
                    assert(ns[r as int] == names[r as int]@);
                }
                col.push(x + y);
                r = r + 1;
            }
            matrix.push(col);
            c = c + 1;
        }
        let ghost res_model = merged_model(a, b);
        proof {
            let mv = matrix_view(matrix@);
            assert forall|k: int| 0 <= k < n implies #[trigger] mv[k] =~= res_model.matrix[k] by {
                assert forall|r: int| 0 <= r < n implies mv[k][r] == res_model.matrix[k][r] by {
                    assert(matrix[k][r] as int == a.count(ns[k], ns[r]) + b.count(ns[k], ns[r]));
                }
            }
            assert(mv =~= res_model.matrix);
            assert forall|k: int, r: int| 0 <= k < n && 0 <= r < n implies 0 <= #[trigger] mv[k][r]
                <= a.instances + b.instances by {
                lemma_count_bounds(a, ns[k], ns[r]);
                lemma_count_bounds(b, ns[k], ns[r]);
            }
        }
        let instances = self.get_instances() + other.get_instances();
        proof {
            assert(parts_model(headers@, subheaders@, instances, matrix@).subheaders =~= res_model.subheaders);
            assert(parts_model(headers@, subheaders@, instances, matrix@) == res_model);
        }
        Dataset::assemble(headers, subheaders, names, instances, matrix)
    }
}


/// `acc` merged with each of `rest` in turn.
pub open spec fn merge_all(acc: DatasetModel, rest: Seq<DatasetModel>) -> DatasetModel
    decreases rest.len(),
{
    if rest.len() == 0 {
        acc
    } else {
        merged_model(merge_all(acc, rest.drop_last()), rest.last())
    }
}

/// What each dataset holds.
pub open spec fn models(v: Seq<Dataset>) -> Seq<DatasetModel> {
    v.map_values(|d: Dataset| d@)
}

/// The instances of all the datasets together.
pub open spec fn total_instances(v: Seq<DatasetModel>) -> nat
    decreases v.len(),
{
    if v.len() == 0 {
        0
    } else {
        total_instances(v.drop_last()) + v.last().instances
    }
}

/// Merging adds up the instances.
pub proof fn lemma_merge_all_instances(acc: DatasetModel, rest: Seq<DatasetModel>)
    ensures
        merge_all(acc, rest).instances == acc.instances + total_instances(rest),
    decreases rest.len(),
{
    if rest.len() > 0 {
        lemma_merge_all_instances(acc, rest.drop_last());
    }
}

/// The instances of a prefix are at most those of the whole.
pub proof fn lemma_total_instances_prefix(v: Seq<DatasetModel>, i: int)
    requires
        0 <= i <= v.len(),
    ensures
        total_instances(v.take(i)) <= total_instances(v),
    decreases v.len() - i,
{
    if i < v.len() {
        lemma_total_instances_prefix(v.drop_last(), i);
        assert(v.drop_last().take(i) =~= v.take(i));
        if i == v.len() - 1 {
            assert(v.take(i) =~= v.drop_last());
        }
    } else {
        assert(v.take(i) =~= v);
    }
}

impl Merge<Vec<Dataset>> for Dataset {
    /// The instances of all the datasets together fit the matrix entries.
    open spec fn merge_fits(&self, other: &Vec<Dataset>) -> bool {
        self@.instances + total_instances(models(other@)) <= isize::MAX
    }

    /// Merges each dataset of `other` into `self`, in order.
    fn merge(self, other: Vec<Dataset>) -> (res: Dataset)
        ensures
            res@ == merge_all(self@, models(other@)),
    {
        let ghost start = self@;
        let ghost all = models(other@);
        let n = other.len();
        let mut rest = other;
        let mut result = self;
        let mut i: usize = 0;
        proof {
            assert(all.take(0) =~= Seq::<DatasetModel>::empty());
            assert(rest@ =~= other@.subrange(0, n as int));
        }
        while i < n
            invariant
                all == models(other@),
                n == other.len(),
                i <= n,
                rest@ == other@.subrange(i as int, n as int),
                result@ == merge_all(start, all.take(i as int)),
                start.instances + total_instances(all) <= isize::MAX,
            decreases n - i,
        {
            let item = rest.remove(0);
            proof {
                assert(item == other@[i as int]);
                assert(rest@ =~= other@.subrange(i + 1, n as int));
                assert(all.take(i + 1).drop_last() =~= all.take(i as int));
                lemma_merge_all_instances(start, all.take(i as int));
                lemma_total_instances_prefix(all, i + 1);
                assert(total_instances(all.take(i + 1)) == total_instances(all.take(i as int))
                    + item@.instances);
            }
            result = result.merge(item);
            i = i + 1;
        }
        proof {
            assert(all.take(n as int) =~= all);
        }
        result
    }
}

} // verus!
