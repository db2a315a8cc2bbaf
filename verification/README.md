# patina-guest

The workload, the service fakes and the invariant checks of a
deterministic-simulation driver for exo's task scheduler, adapter outbox and
event log, verified with Verus.

- `src/` is the library. Every decision that a run takes is drawn from one seed
  (`prng`, `workload`, `scenario`, the append rounds of `eventlog`); the service
  that the scheduler talks to lives in memory (`service`, `script`, `fakes`,
  `message`, `clock`); what a run leaves behind is judged by `scheduler`,
  `outbox`, `litter`, `service::check_wakeup_lock` and `eventlog`, which report
  `findings`; `outcome` closes the run. `text`, `schedule`, `filename` and `json`
  are the notations these read and write.
- `tests/` runs the library on concrete values.
- `app/` is the driver: it performs the I/O, cuts the power where the library
  says so, and hands what it reads to the library. It needs the `executor`,
  `exoharness`, `lingua` and `patina_dst` crates of an exo checkout.

Each check comes with a law that says exactly when it reports a breach
(`law_scheduler_check_is_exact`, `law_outbox_check_is_conservation`,
`law_eventlog_check_is_exact`, `law_high_water_mark_is_exact`,
`law_finished_walk_counts_everything`), and the closing digest does not depend on
the order in which wakeups arrive (`law_digest_is_order_invariant`).
