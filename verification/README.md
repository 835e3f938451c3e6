# git-full-send

Keeps a development machine and a worker in step over plain git. The client
writes the state of a working tree as two commits, one for the code and one for
chosen files that git ignores, and pushes them to the worker; the worker receives
them under a namespace of their own and checks them out when it is asked to.

* `src/` is the library: the protocol, the selection of files, the trees and
  commits that are built, the order of a sync, of a connection and of a checkout,
  the checks of a repository, and the texts that are shown. Every function is
  verified with Verus against its contract.
* `tests/` runs the library on given values.
* `app/` is the program: its command line, files, sockets and children. It hands
  the library what it reads and does what the library decides.

Modules that belong together:

| modules | what they hold |
| --- | --- |
| `protocol`, `stream`, `auth`, `pktline` | stream ids, refs, the shared secret, framing on the wire |
| `patterns`, `select`, `encode`, `push`, `sync`, `probe` | the sending side |
| `listen`, `connection`, `server`, `worktree`, `checkout`, `streams` | the receiving side |
| `doctor`, `metrics`, `trace2`, `report`, `display` | examining and reporting |
| `text`, `bytes`, `numbers`, `table`, `json` | what the others build on |
