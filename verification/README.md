# plato_correlate

Cross-correlation and dependency detection between named time series.

`src/` is the verified core, checked with Verus:

- `graph`: the dependency graph (`DependencyGraph`, `DependencyEdge`), with the
  strength of an edge held as the bit pattern of its coefficient.
- `paths`: `strongest_paths`, the depth-first enumeration of walks, with the
  proof that it reports exactly the maximal walks of at most the requested
  depth (edge strength plays no part).
- `delay`: `propagation_delay`, with the proof that it reports the smallest
  total lag over the simple chains of edges from the source to the target
  (saturated at the largest `usize`), and `None` exactly when the two are the
  same series or no chain exists.
- `order`: the byte order of names and a sort of name lists.
- `assemble`: building the graph from the outcome of the pairwise comparisons.
- `stats`: the integer side of the statistics: lag windows of a
  cross-correlation (at lag k, `x[t]` against `y[t + k]` over the values both
  series hold), averaged ranks of tied values, histogram counts.

`app/` holds the floating-point statistics (Pearson, Spearman, cross- and
autocorrelation, Granger causality, mutual information, partial correlation),
`DependencyGraph::from_correlations`, and the serde forms of the types.
