# shard_query

Point selection for one shard of a vector collection, verified with Verus.

* `src/aggregator.rs` collects scored points into groups by a payload key,
  with a bound on the number of groups and on their size. `src/groups.rs` holds
  the collections behind it, `src/grouping_laws.rs` what holds of the groups
  whatever points are given.
* `src/scroll.rs` pages through the points of a shard by id, by the value of a
  field, or at random. A `Scroll` says what it waits for; `Scroll::resume` takes
  what came of it and goes on. `src/order.rs`, `src/random.rs` and
  `src/records.rs` compute the pages; `src/page_laws.rs`, `src/draw_laws.rs` and
  `src/scroll_laws.rs` state what holds of them.
* `app/` reads the segments, tosses the coins and watches the clock.

Scores, vectors and floating point numbers are held by their bit patterns.
Sorting, merging and the removal of repeats are done by `itertools`; what is
relied on is stated at the functions in `src/order.rs` that call it.
