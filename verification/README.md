# agent-guard

A deterministic guard for the tool calls of a coding agent, written and proved in Verus.

Before the agent runs a tool, it announces the call as JSON. The guard answers with a
line of JSON that denies the call, or with nothing if the call is allowed.

- Commands are cut at `&&`, `||`, `;` and `|`. Each segment is held against the patterns
  of a configuration: a regular expression, and an optional validator for each of them.
- While `AGENT_ALLOWED_PATHS` is set, file tools are kept inside the directories that it
  lists. Symlinks and `..` are resolved first. Paths and the list are those of
  Unix, and the program is built for Unix only.

```
echo '{"tool_input":{"command":"git push --force"}}' | agent guard
```

## Layout

| module      | what it holds                                                          |
|-------------|------------------------------------------------------------------------|
| `text`      | trimming, cutting into fields, searching and comparing                  |
| `split`     | the segments of a compound command                                      |
| `config`    | the types of a configuration, and the defaults of their fields          |
| `builtin`   | the built-in configuration, and which configuration is in force         |
| `validator` | what the validators of a pattern say of a segment                       |
| `pattern`   | compiling patterns, and evaluating segments and commands                |
| `path`      | the components and the normal form of a path                            |
| `resolve`   | resolving a path, for every answer that the disk may give               |
| `sandbox`   | checking a path against the allowed directories                         |
| `hook`      | from an announcement to a verdict                                       |
| `json`      | how JSON strings are written, and how strings and objects are read      |
| `denial`    | the line of JSON that denies a call                                     |

Functions whose names begin with `law_` state what holds across several functions. The
regular expressions themselves come from the `regex` crate and the quoting of JSON
strings from `serde_json`; what is relied on of them is stated in `pattern` and `json`.

`app/` is the command-line program around the library: it reads the input, the list of
allowed paths and the configuration files, and prints the answer.

## Configuration

The `agent-guard.toml` of the project is in force, or else the one of the user, or else
the built-in configuration. The first two are looked for in a directory below the project
and below the home directory, whose name is given by `agent guard --config-dir NAME`.

```toml
schema_version = "1.0"

[[patterns]]
id = "custom.my_pattern"
priority = 100
enabled = true
matcher = { type = "regex", pattern = 'dangerous-command' }
validator = { type = "not_contains", value = "--dry-run" }
message = "This command is blocked because..."
```

Validators are `not_contains`, `flags_present`, `args_match_any`, `all_of`, `any_of` and
`not`. Patterns with a higher `priority` are checked first.
