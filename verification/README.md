# fces

FC-ES (face clustering by early stopping). A feature matrix is turned into a
k-nearest-neighbour graph, the similarities into second-order (NEP)
distances; each node is linked to its neighbours, most similar first, until
the first one below the threshold; communities of the link graph (Infomap,
or the Leiden algorithm as a fallback) and the isolated nodes make the
clusters.

- `src/` — the verified library (Verus): the early-stopping scan
  (`clustering::get_links`), the cluster assembly (`clustering::run`) and its
  laws, the index bookkeeping of the NEP distance (`nep`), the Infomap `.tree`
  format (`infomap::parse_tree_file`), the search for the Infomap executable
  and the choice between Infomap and Leiden (`community`), the node indexing
  and labelling around the Leiden call, and the shape of the KNN graph (`knn`).
- `app/` — the pipeline around it: feature matrices (`ndarray`), the vector
  index (`usearch`), the floating-point stages, the Infomap process and the
  Leiden call (`graphrs`).
- `tests/` — tests of the library.
