# duckdb_ml

Machine learning inside DuckDB, with the decisions proved.

The library under `src/` is verified with Verus. It holds

- the models and their bookkeeping: linear, logistic, lasso, polynomial and neural
  models, trees and forests, nearest neighbours, naive Bayes, clusters, survival
  curves, projections, XGBoost files, and what is kept of each as bytes;
- the model registry: a cache that lets go of what was not used for the longest time,
  deployments with rollback, data snapshots;
- the SQL functions as functions on plain values: predictions, comparisons of
  algorithms, deployments, snapshots, loading, metrics, cross validation,
  association rules, similarity search;
- the statements that the storage layer sends.

Doubles stand in the library as bit patterns. Comparing, sorting and storing them is
the library's work and is proved; adding and multiplying them is the caller's, handed
in as functions. Contracts say which numbers such a function is given and what is
done with its answer.

`app/` is the DuckDB extension around the library: argument handling, Arrow columns,
SQL, files, ONNX sessions and floating point arithmetic. Training algorithms are
installed there through the `Trainer` trait.

`tests/` runs the library.
