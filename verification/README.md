# hdfs-bridge

A bridge between HDFS and a blocking caller, with its logic verified in Verus.

`src/` is the verified library. It decides; it does no IO.

- Glob patterns (`*`, `?`, `[abc]`, `[a-b]`, `[!abc]`, `\` escapes, `**` as a
  whole component for zero or more levels, `{a,b}` alternation) are compiled to a
  plan: a literal root to start from, and a small NFA over directory levels.
- A walk schedules directory listings, with a bounded number in flight. It is a
  state machine: it is told what happened, and says what to do next. What is
  proved of its results is proved of a tree that does not change while it is
  walked and in which no directory is below itself. Whatever the order in which
  listings end, a walk that ends without an error, and whose consumer did not
  leave, has handed out exactly what the pattern selects (or what lies below the
  listed directory). The directory that a glob starts from is handed out only if
  an alternative of the pattern spells it out, though a `**` right after it may
  match zero levels. If, besides, the paths of the tree are made up of names,
  and listing a directory gives its children, each of them once, then no
  directory is listed twice, nothing is handed out twice, and no two entries
  have the same path; for a listing, the listed path has to be made up of names
  too.
- A stream drains what a walk hands out in batches, losing and reordering
  nothing: the entries, then the error (if there is one) once, then empty
  batches.
- Errors fall into categories, so that a caller can react to the kind of a
  failure without parsing messages.

`app/` is the rest: the async client of `hdfs-native`, the Tokio runtime that
drives it, and the C interface. It carries out what the library decides.

`tests/` runs the library on concrete values.
