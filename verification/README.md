# anime

Approximate Network Matching, Integration, and Enrichment.

Two sets of line strings that describe the same network, a source and a target, are matched line by
line. Two lines match where their directions differ by less than an angle tolerance, they lie beside
each other in part, and they are not farther apart than a distance tolerance. The length that they
share is the weight with which attributes move from a source to a target.

## Layout

- `src/` is the library, verified with Verus.
  - `rounding` and `double`: IEEE 754 double precision numbers as bit patterns, with correctly
    rounded arithmetic.
  - `geometry` and `overlap`: points, lines and line strings, and the part of a line that faces
    another one.
  - `tree`: R* trees over the boxes of lines, with the crate `rstar`.
  - `matches` and `anime`: the search for matches and its result.
  - `py_anime` and `lines_array`: the table of matches, interpolated columns, and the steps that
    turn an Arrow array into line strings.
  - `laws`, `search_laws` and `direction_laws`: what holds of the library as a whole.
- `tests/` runs the library.
- `app/` binds the library to Python and Arrow, and measures lengths, angles and distances with the
  crate `geo`.

## Measures

The library takes the measures of the plane from its caller: the length of a line string and the
angles of its lines come with the line string, and the distance of two lines and that of two points
are functions that the search calls.
