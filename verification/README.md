# conflux

A background file-sync daemon that keeps local directories in step with a remote:
a WebDAV server, a Git repository, or another directory. The logic is a library
written in Verus; a thin program around it does the input and output.

## Layout

- `src/` is the library. Every function states what it computes, and Verus proves
  it.
  - `relpath`, `table`, `text`, `model`, `error`, `span`, `bytesize`, `timefmt`,
    `hash`: the values that everything else is made of.
  - `config`, `matcher`, `paths`: the configuration, its globs, and where things
    are.
  - `decide`, `engine`, `session`, `plan`, `dirs`, `conflict`, `index`, `report`,
    `group`: the three-way reconciliation. `group::sync_group` turns both sides and
    the baseline into a `Session`, which hands out one command at a time and takes
    back what came of it.
  - `run`: a whole sync, step by step: both sides are looked at, then come the files,
    then the empty directories, and at last the backend finalizes.
  - `settle`: what holds of a whole sync against well-behaved stores: it ends, both
    sides agree afterwards, nothing that diverged is lost, and the next sync has
    nothing to do.
  - `backend`, `git`, `ssh`, `webdav`: the decisions of the backends.
  - `daemon`, `ipc`, `control`: which groups run and when, the messages between the
    CLI and the daemon, and what the CLI shows.
- `tests/` runs the library.
- `app/` is the program: arguments, files, sockets, HTTP, libgit2, timers and
  watchers.

Functions marked `external_body` call other crates; their contracts are taken on
trust. Properties that speak of several functions are proof functions whose names
start with `law_`.
