# ais-tracing

Follow one value, a correlation id or an order reference, through every
container of an Azure Cosmos DB account, and see where it got to.

The containers are sampled, the field that links documents together is worked
out from the values it holds, and each step is drawn on a timeline. Empty rows
matter as much as full ones: they show where the data hasn't arrived.

## Layout

- `src/` is the library: everything that is decided or computed, written in
  Verus. Every function states what it returns for its arguments, and every
  statement is proved. Of the machine's clock nothing is claimed: what asks it
  says what it makes of whatever the clock shows.
- `tests/` runs the library on concrete values.
- `app/` is the desktop application around it: the Azure command line, the
  document store, files, and the screens.

## The library

| Module | What it holds |
| --- | --- |
| `text`, `text_set`, `text_map`, `order` | texts, sets and maps of them, and a stable sort |
| `float`, `single` | binary floating point on integers |
| `value` | documents |
| `services::paths` | dotted field paths, and that they can be taken apart again |
| `services::cosmos`, `services::sampling` | failures, bounded answers, what a sample shows |
| `services::nodes`, `services::grouping`, `services::keys`, `services::discover` | which fields are one identifier, and how candidates rank |
| `services::document`, `services::time` | reading values and times out of documents |
| `services::blocks`, `services::trace`, `services::relane` | queries, cards, lanes, and other axes |
| `services::az`, `services::cache`, `services::env`, `services::history` | signing in, the last scan, the search path, what is remembered |
| `update_check` | versions and builds |
| `screens` | what the screens decide |

What is believed rather than proved is little: `String::push`,
`str::to_lowercase`, and the calls into `chrono` that read, write and take the
time. Each stands behind a declaration whose comment says what is claimed.

## First run

There is no login of its own: the Azure CLI session is used (`az login`). If a
scan fails with 403, the account can be seen but not its data; the application
offers to grant the Built-in Data Reader role.
