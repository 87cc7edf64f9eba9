# exclusion_set

A set of values that grants exclusive hold of a value to one caller at a
time, with a stack of waiters per value.

- `src/set.rs`: `ExclusionSet`, its model (`entries`, in order of
  first insertion, and `state_of`), the relations each operation satisfies, and the verified
  operations `new`, `try_insert`, `wait_to_insert`, `remove`,
  `remove_or_hand_off` and `is_waiting`.
- `src/equivalence.rs`: what the `Eq` bound is taken to promise.
- `src/laws.rs`: properties that relate several operations, proved.
- `app/lib.rs`: a thread-shared `Set` that runs the verified operations
  under a lock and puts queued callers to sleep until they are served.
