# nimby_graph

The verified core of a railway timetable and infrastructure editor, written in
Verus. Each executable function in `src/` states its behaviour in a contract
that Verus proves, except the few that stand for outside code (the `csv`
reader, `chrono`'s clock arithmetic, random ids, and some `char`/`str`
queries of std): those are marked `#[verifier::external_body]`, and their
doc comments say what is assumed of them.

## Layout

- `src/` — the library:
  - `days_of_week`, `track`, `station`, `junction`, `line`, `route`, `project`:
    the data model (day sets, track directions, platforms, junction routing
    rules, route segments and their edits);
  - `keyboard_shortcuts`, `user_settings`: the shortcut registry and its laws
    (a `get` after a `set`, merging with the defaults, conflicts, every
    default shortcut finding its own action);
  - `routing`, `line_graph`, `view`: the track network as routing reads it
    (shortest routes that obey track directions and junction rules, junction
    checks, node orders), a line's routes read against it (station paths,
    track repair, adding stations), and views of the network (paths shown,
    the longest chain as the default main line);
  - `migrations`: chains of project-format migrations;
  - `project_file`: the project file framing (format version header) and the
    export file name;
  - `csv_import`, `jtraingraph`, `jtraingraph_network`, `nimby`, `nimby_runs`,
    `geojson`: the importers' logic (CSV column detection and station rows,
    jTrainGraph stop patterns, line plans, stations, segments and route
    segments, NIMBY line summaries, run classification and frequency
    detection);
  - `text`, `parsing`, `order`: character, number, time and ordering helpers.
- `tests/` — tests of the library on concrete values.
- `app/` — a command-line front end: file I/O, the serde types of the file
  formats, floating-point colour helpers and the project-format migration.

## Not here

Building a line's routes and the network from a CSV file (the library reads
the file's station rows and places a manual departure on a route), the NIMBY
line import (distances and time splits in floating point), the GeoJSON import
(coordinates in floating point) and the serialisation of projects are not part
of the library; the front end analyses and plans those imports.
