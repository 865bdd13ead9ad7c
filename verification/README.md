# fed_mrmr

Occurrence matrices for federated mRMR feature selection, verified with Verus.

A discretised dataset is read as CSV text. Each pair (feature, value) is a
sub-feature named `feature_value`; the dataset keeps, for every pair of
sub-features, the number of records in which both hold. Matrices counted over
different sets of records can be merged; the mutual information of features,
and the mRMR ranking built on it, are computed from these counts.

Layout:

- `src/order.rs`: character order on strings, sorted lists of distinct strings.
- `src/sparse.rs`: CSC matrices and the product `Aᵀ·A`, computed by `nalgebra_sparse`.
- `src/reading.rs`: reading CSV text with the `csv` crate.
- `src/dataset.rs`: the `Dataset` type, its model, construction and queries.
- `src/merge.rs`: the `Merge` trait and merging of datasets.
- `src/laws.rs`: proved properties of counting and merging (merging parts
  gives the whole, commutativity, the map of feature names).
- `src/count_laws.rs`: proved properties of the counts (symmetry, bounds by
  the diagonal, one value per feature and record, record order, associativity
  of merging, merging with a dataset that has no records).
- `src/ranking.rs`: how many features a ranking selects.
- `app/main.rs`: the command line tool (`matrix`, `merge`, `mrmr`, `show`):
  files, JSON storage, and the floating-point mutual information and ranking.
