# horde

The core of a terminal multiplexer for fleets of coding agents, written and proved in Verus.

A daemon keeps a session of spaces, tabs and panes, a board of tasks that agents pull work from,
rules that act while nobody is watching, an index of linked notes, and the small protocols by which
one daemon hands everything to the next. All of that is in `src/`, as functions from state and
event to the next state and what is to be done. Contracts say what comes out; where a result is the
clock's, or is put together by whoever calls, they say what holds of it and the item's comment says
what is left open. What must always hold is stated beside it, as proof functions whose names begin
with `law_`.

- `src/` — the library, every item of it verified.
- `tests/` — the library as callers see it, on concrete values.
- `app/` — the daemon around it: terminals, processes, files, sockets and the clock. Not verified.

What the library takes on trust is little, and each piece says so where it stands: what std's
character tables, its quoting and its lower-casing answer, what the clock says, and the events that
`pulldown-cmark` reads from a note.
