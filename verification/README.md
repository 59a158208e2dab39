# permiter

Rules for the tool calls of a coding agent, in the manner of a packet filter, verified
with Verus. Every tool call is matched against tables of rules. A shell command line is
first taken apart into the commands that it runs; each command is decided by itself, and
the strictest decision counts: deny, then force passthrough, then passthrough, then allow.

## Layout

| Directory | What it holds |
|-----------|---------------|
| `src/`    | the library: parsers, configuration, evaluation; verified, but for the calls under "What is trusted" |
| `app/`    | the program around it: command line, files, standard input and output, JSON and TOML |
| `tests/`  | tests of the library |

In `src/`, the modules whose names end in `_grammar` and `_model` say what texts mean and
what is decided, as spec functions. The executable modules are verified against them. The
modules whose names end in `_properties` state, as public proof functions, what holds of
the whole: that the strictest command decides, that separators split command lines, that
quoted text is literal, that a checked configuration always decides, that project rules
replace nothing but a passthrough and allow only what they allow throughout, and more.

## Command lines

A command line is taken apart at `;`, `&&`, `||`, `|`, `&` and line breaks, outside quotes.
Substitutions are taken apart too. The body of a here-document is inert; the line that
opens it is read to its end. `cd` is followed. Behind it, commands see the new directory,
and arguments that are written as paths come out resolved against it: those with a `/` or a
`.` and no character that does not belong in a path, but for flags, numbers, version numbers,
ranges such as `a..b` and scripts such as `s/a/b/`. So do those of command lines that a
wrapper command such as `sh -c` runs there. Patterns for arguments see an argument both
resolved and as written; patterns for whole commands see the command as written. Paths are
resolved on their text alone.

## The world outside

The library does no input or output. Environment and home directory come in as plain
values. What is known of the file system comes in as a set of facts; where evaluation
needs one that is missing, it stops with an error that names the path, the program looks,
adds the answer and evaluates again. Entries for the audit log come back as a list.

## What is trusted

- `src/patterns.rs`: `Regex::new`, `Regex::as_str`, `Regex::is_match`, `Regex::clone` and
  `regex::escape` of the `regex` crate. Whether a pattern compiles and whether it matches
  a text are names without a definition.
- `src/text.rs`: equality of `str`, `String::push`, `String::push_str`,
  `char::is_alphabetic` and `char::is_alphanumeric` of std.
- `src/message.rs`: the `Debug` form of `str`.
