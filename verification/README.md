# arcanum

An ObjectiveAI plugin that lists the skills (`SKILL.md` folders) in an agent's
laboratories, loads one, and keeps it re-injected into the agent's context as
its token usage grows.

- `src/` is the verified library (Verus): parsing of `find` output into skill
  items, shell quoting of the `SKILL.md` lookup, request headers and the
  `token-repeat` argument, the checks on a loaded skill, the monitor loop's
  decisions, and the env-driven configuration. Each public function carries a
  contract; the laws the library keeps stand as public proof functions next to
  the functions they speak of.
- `app/` is the runtime around it: environment reading, Postgres, the plugin
  executor, the streamable-HTTP MCP server and the per-agent monitor tasks.
- `tests/` runs the library on concrete values.

`sqlx`, which `app/db.rs` uses for Postgres, is not among the dependencies:
with it the dependency lock exceeds the package limit of the environment this
crate is built in, so `app/` does not type-check there.
