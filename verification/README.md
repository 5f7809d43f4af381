# dns-ligase

A small DNS filtering forwarder. It listens for DNS queries on UDP and TCP, checks
the requested domain against blocklists and allowlists, answers `NXDOMAIN` for what
is blocked, and forwards everything else to an upstream resolver.

The library under `src/` computes and decides, and is verified with Verus: every
function states what it returns, and the proof functions named `law_..` state what
holds across functions. The program under `app/` does the rest: sockets, files,
HTTP, signals and the clock. Linux is the only system it is meant for.

| Module | Responsibility |
| --- | --- |
| `dns`, `wire` | The DNS wire format; what is read back of what was written. |
| `blocklist`, `pattern`, `filtering` | Rules, how lists are read into them, matching; what matching promises. |
| `upstream`, `forwarding`, `resolve` | From a query to its answer; what clients and upstream can rely on. |
| `fetch`, `cache` | Fetching lists step by step, and what is remembered of them. |
| `config`, `reload` | The configuration, the rules it stands for, and how two configurations differ. |
| `journald`, `stats`, `report`, `calendar` | Journal entries for queries, and statistics over them. |
| `cli` | Command-line arguments. |
| `text`, `number` | Text and numbers. |

What the library takes on trust is marked in the source: the contracts of
`str::to_lowercase`, `str::from_utf8`, `String::push` and `Path::parent`, and those of
the `regex` and `url` functions that it calls.
