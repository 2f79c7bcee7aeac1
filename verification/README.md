# ferro

The verified core of FERRO, an active-inference organism: the data
structures, decisions and text rules that its runtime drives, each with a
contract proved by Verus.

- `src/` is the library. `cortex` holds the node arena; `cerebrum` the sparse
  connection matrix, its wake/sleep cycle and rebuild, and the cgroup memory
  figures; `storage` the sharded JSON key/value store, cluster file placement
  and the phases of the move to redb; `midbrain`, `cerebellum`, `brainstem`,
  `heartbeat`, `organs` and `body` the organism's decisions; `text` the
  character-level rules they share. Laws that relate several calls stand as
  public proof functions beside the code they speak of.
- `app/` is the runtime around it: the async actors, file and database I/O,
  and the floating-point dynamics of the cortex and cerebrum.
- `tests/` runs the library on concrete values.
