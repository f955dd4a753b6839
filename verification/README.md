# app_registry

Registers a Windows application with the registry of the current user: as a default
program, for URL protocols, for file extensions, and in the list of installed programs.

The library in `src/` is verified with Verus. It never touches the registry. Each
operation takes a `Locator`, which holds what is known of the application, and returns a
`Plan`: the requests to the registry, with how to go on after each reply. A `Session`
walks through a plan, names one request at a time, takes the reply, and gives the outcome
in the end.

- `plan`, `session`: plans and how they are walked through
- `locator`, `keys`, `text`, `changes`, `clock`: what the operations share
- `default_program`, `custom_protocols`, `file_associations`, `uninstall`: the operations
- `run`, `compose`, `order`, `confine`: what a plan does under any sequence of replies
- `contents`: what the registry holds, and what requests that succeed do to it
- `protocol_laws`, `association_laws`, `content_laws`: what holds of the protocols, of the
  extensions, and of what the operations leave in the registry

The contract of an operation gives its plan exactly. The laws follow what such a plan does
to the registry, whatever the registry replies: in which order, below which keys, and when
the operation fails; what is the same after doing it twice; and what undoing it restores.
A request that fails is taken to change nothing.

Trusted is one call, `clock::local_today`, which asks `chrono` for the local date. The size
of the installation is found out by the caller.

`app/` performs the requests of a plan with `winsafe`.
