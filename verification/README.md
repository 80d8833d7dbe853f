# ErisHarness

An agent harness for running thousands of agents on one Linux machine. An agent is its
transcript on disk; mail is the only way to make it act. What the harness decides is a library
whose behaviour is stated in contracts and proved with Verus. What reads, sends and waits is
ordinary Rust around it.

## Layout

- `src/` is the library.
  - `agent`, `store`, `harness`: items and transcripts, recovery of a torn log, delivery of mail,
    and the steps of a turn.
  - `tools`: what `read`, `bash`, `edit`, `write` and `send_message` answer, down to the wording;
    truncation, line endings, edits and paths.
  - `provider`: request bodies and streamed answers of the Responses API, server-sent events,
    retries, and the pacing of one account's calls.
  - `machine`, `sandbox`, `cgroup`, `bootstrap`, `rootfs`: sandbox specs, how a root filesystem is
    built, what init does about each request, syscall filters, messages over the control socket,
    and what keeps a sandbox live.
  - `strings`, `paths`, `json`: text, paths and JSON values, each stated over sequences.
- `tests/` runs the library.
- `app/` runs agents: files, processes, namespaces, SQLite, HTTP and tasks.

## Reading the contracts

Each executable function says in `ensures` what it returns, over spec functions that stand next to
it. Functions named `law_...` state what holds of several of them together, such as that every
tool call gets a result, that mail is delivered once, and that events do not depend on how a
stream was cut into chunks.

Calls into other crates stand in small functions marked `external_body`, each with a comment that
says what is taken from the crate without proof: Unicode normalization, diffs, JSON parsing,
base64, syscall filter compilation, error texts, the clock and fresh ids.
