# bgp_analyzer

Network-contact signals from BGP routing tables: who touched whose network on the public
internet. Consecutive daily RIB snapshots are compared, networks are attributed to organizations,
and what is contact between two organizations becomes a signal. A second path checks routes
against RPKI authorizations and against the valley-free rule.

`src/` is the library, verified with Verus. `app/` is the command line around it: arguments,
archives, HTTP, SQLite and JSON.

| Module | Role |
|--------|------|
| `text`, `order`, `textmap`, `time` | Text, ranking, ordered maps, calendar |
| `prefix`, `rib` | Prefixes, the routing table and its interned attributes |
| `rpki`, `detect` | Origin validation, valley-free checks, alerts |
| `ingest` | Archive files, and what their elements do to a table |
| `glue`, `orgs`, `peeringdb` | Glue networks, organizations, and their registry |
| `snapshot`, `events`, `diff` | Origins at a point in time, and what changed between two |
| `features`, `clean`, `signal` | Features of pairs, which of them are contact, signals |
| `suffixes` | The suffixes under which registries hand out domains |
| `eval`, `backtest` | Known cases against events and features, many days at once |
| `daily` | The daily job |
| `sync`, `store` | What the work database holds, and which of its rows change |

Each public function states what it returns for every input. Theorems that relate functions stand
beside them as public proof functions. Calls into other crates go through small wrappers whose
contracts are taken on trust; the comment above each says what is claimed of the call.
