# berlin-core

The substrate core of FSBerlin, a file-hierarchy project-management
substrate: cards are folders, waypoints are overlays, agents are users.

The library (`src/`) is verified with Verus. It holds the substrate's own
logic, each public function with a contract over a mathematical model:

- `frontmatter`: extracting the first `---`-fenced YAML block of a file.
- `walk`: which listed directory entries form the project layout, never
  an opaque (tool-owned) directory, in slug order.
- `links`: resolving relations by slug, and the structural problems
  (dangling references, duplicate slugs, waypoints among criteria).
- `validate`: the findings of a project from the outcomes of loading it.
- `index`: the rows of the SQLite index mirror.
- `query`: compiling `field:value AND/OR ...` into a parameterised clause.
- `render`: every decision of a waypoint projection (base plus overlay).
- `init`: scaffolding texts, the refusal to clobber, and the calendar
  arithmetic behind the `created` date.
- `watch`: when a filesystem event triggers an index rebuild.
- `model`, `text`: the card models and character-level helpers.

The program (`app/`) is the `berlin` command line: it reads and writes the
filesystem, deserialises YAML into the models, runs SQLite and the
filesystem notifier, and asks the library for every decision.
