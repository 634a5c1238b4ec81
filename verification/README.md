# dotnet_toolchain

The logic of a [moon](https://moonrepo.dev) toolchain plugin for .NET, written and
proved in Verus.

- `src/` is the verified library. Every function states in `ensures` what it returns,
  over spec functions on sequences, maps and options of characters; the promises that
  span several functions are the public `law_*` proof functions.
- `app/` is the plugin around it: the functions that moon calls, the file system, the
  host's processes, and the types that carry serde and schematic derives.
- `tests/` runs the library on concrete values, with the outside crates linked.

| Module | What it decides |
|---|---|
| `text`, `str_map` | Strings as character sequences; a map ordered by key |
| `json` | JSON documents, as `serde_json` reads and writes them |
| `config` | The settings, and which tasks they select |
| `discovery` | Project, lock, config and solution files; the walk up to the workspace root |
| `msbuild` | What is asked of MSBuild, one project or a batch at a time, and what the answers mean |
| `infer_tasks` | `build`, `test`, `run` and `publish` from an evaluation |
| `project_graph` | Dependencies, aliases and tasks of all projects of a workspace |
| `eval_cache` | The on-disk cache of evaluated package sets |
| `nuget` | Lock files and declared packages |
| `global_json` | Which SDK and which test runner govern a project |
| `tier1`, `tier2`, `tier3` | Registration; dependency and tool restores, task hashing and pruning; SDK installs and task environments |

What is taken on trust is small: the parsers of `serde_json`, `moon_config` and
`moon_target`, letter case in `std`, and `String::push`. Each stands behind one item
whose doc comment says what is believed of it.

`Cargo.toml` holds two crates at a release that nothing here names: `moon_common`, whose
types come by way of `moon_pdk_api`, and `system_env`, whose later releases the plugin
crates do not build with.
