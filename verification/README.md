# ptcgp_data

Data pipeline for Pokémon TCG Pocket card data: it scrapes card pages from
Limitless TCG, reads RaenonX's master data and pack pages and PokéAPI's
species list, writes the JSON data tree, and builds an SQLite database from it.

The library (`src/`) holds the pipeline's logic, verified with Verus:

- `text`, `json`, `decimal`, `lists` — strings, JSON values, decimals and
  small collections, with their specifications;
- `limitless`, `html`, `pages` — reading Limitless card, set and index pages;
- `raenonx`, `rsc`, `rates`, `derive` — reading the master data and the pull
  rates embedded in pack pages, as exact fractions;
- `catalog`, `groups`, `plan` — building card versions and abstract cards,
  grouping versions, marking reprints, and deciding what to fetch;
- `species` — reading PokéAPI species data;
- `paths` — where files and images live and where they come from;
- `db` — the database build's rules and the integer arithmetic of pull-rate
  fractions.

`app/` is the command line around it (HTTP, files, SQLite); `tests/` runs the
library on concrete inputs.
