# payment_routing

A verified library for routing synthetic USD payments over a network of
institutions and rails, written in Verus.

- `src/network.rs`, `src/routing.rs`: networks, their validation, and the
  cheapest static route for one payment.
- `src/batch.rs`, `src/scheduling*`: exact batch and schedule optimisation over
  supplied departures.
- `src/scalable*`: the bounded label-setting search over a residual calendar,
  reservations, and allocation of many payments.
- `src/simulation*`: a deterministic, seeded, minute-by-minute simulator with
  scheduled and staged rail disruptions, transactional ticks and an accounting
  audit.
- `src/operations.rs`, `src/console*`: the paired static/reserved session behind
  the terminal console, and the console's keyboard controls as a function from
  settings and key to new settings and the action to perform.
- `src/evaluation*`: the paired evaluation driver, its aggregates and CSV reports,
  whose configuration cells write strategies and scenarios out field by field.

`app/` holds the terminal console and the command line, which use `ratatui` and
standard I/O. `tests/` exercises the library on concrete inputs.
