# wp-log

Logging configuration for a platform with six log domains (`ctrl`, `data`,
`rule`, `dfx`, `mtrc`, `kdb`), verified with Verus.

- `src/` is the verified library:
  - `text.rs`: the character-level model (Unicode whitespace, trimming,
    ASCII case folding, splitting on a separator) with its lemmas;
  - `level.rs`: level names and the level specification
    `"warn,ctrl=info,data=debug"`, with the laws of its reading;
  - `conf.rs`: `LogConf`, `Output`, `FileLogConf`, their defaults,
    accessors and text form;
  - `plan.rs`: the log file path and the plan that `log_init` carries out,
    with the structured `levels` applied as per-target overrides of the
    level specification (`global` sets the root level; entries with an
    unknown level name are skipped).
- `app/` holds what Verus does not see: the logging macros, the serde form
  of the configuration, and `log_init`, which installs `log4rs` from the
  verified plan.
- `tests/` runs the library on concrete values.
