# periphery

The core of an agent that runs next to a Docker daemon: a file manager with
journalled undo, usage metrics of networks, images and volumes, and backup and
restore of stacks and volumes.

The library in `src/` decides. It is written in Verus: each function states what
it returns or changes, and the laws that hold across functions stand next to them
as public proof functions. Reading, writing and waiting are left to the callers,
who hand in what they found and carry out what they are told.

- `src/path.rs`, `src/text.rs`, `src/order.rs`, `src/registry.rs`: paths below a
  root, texts, names that are bytes, and maps from texts to values.
- `src/file_manager/`: planning, conflicts, journals, undo and redo, archives,
  transfers, managed saves, and what a restart finds.
- `src/docker/`: traffic and disk usage.
- `src/backup/`: sources, receipts, previews, publication, finalization, recovery,
  and the steps of backups and restores.
- `src/outside.rs`, `src/backup/yaml.rs`: the calls into other crates, and what is
  believed of them.
- `tests/`: the library on concrete values.
- `app/`: the agent around the library. It does the work of the file manager, the
  measurements, and the receipts, publication, finalization and recovery of
  restores. Discovery, previews and the runs of backups and restores also need the
  repositories that hold the snapshots; the program that has them drives those
  steps.
