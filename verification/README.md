# hummock_version

The version of an LSM store, verified with Verus: the levels of each compaction group, the deltas
that commits and compactions produce, and the splits and merges of groups. Beside it stand the rules
by which batch tasks are run for a caller and the telemetry of a meta node.

## Layout

- `src/` is the verified library.
  - `buf`, `key`, `key_range`, `sstable_info`, `level`: byte strings, keys, SSTs and levels.
  - `seqs`, `maps`, `text`: sequences, walks over hash maps, and text.
  - `sub_level`, `compact`, `split`, `parent_group`, `merge`, `initial`: what happens to the levels of
    a group.
  - `group_deltas`, `version`, `table_state`, `table_watermark`, `change_log`, `apply`: deltas, and
    what they make of a version.
  - `queries`, `groups`, `branched`, `split_count`, `sst_delta`, `safe_epoch`, `validate`: what is
    asked of a version.
  - `apart_laws`, `apply_laws`, `count_laws`, `delta_laws`, `division_laws`, `object_laws`,
    `sst_laws`, `sub_level_laws`: what holds of several of these together.
  - `batch_task`, `telemetry`: the running of tasks, and reports.
- `app/` holds the services around the library: the gRPC service and the reporting of telemetry.
- `tests/` run the library.

## Reading the contracts

Every type has a view, a value of mathematical sequences, sets and maps. A change is a spec function
on views that gives an `Option`: `None` where the change cannot be made, as when sizes do not fit or
SSTs would overlap. The executable function requires that there is a result and ensures that it is
what the change leaves behind.

A hash map may be walked in any order. Functions that walk one come twice: under a name that ends in
`_in_order` they take the order and have an exact contract; without it they say that the result is
the one for some order.

Byte strings are those of the `bytes` crate. The contracts of its functions, in `buf` and `text`, are
trusted.
