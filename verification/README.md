# beecrab

Summaries of weather-station readings for the one billion row challenge:
a measurements file holds lines `station;temperature` (temperatures from
`-99.9` to `99.9`, one fractional digit), and the program prints, for each
station in byte-wise order, its lowest, mean and highest reading as
`{station=min/mean/max, ...}`.

The library under `src/` is verified with Verus:

- `temperature`, `core_metrics::parse_temperature`, `metrics::parse_temperature`:
  readings as whole numbers of tenths of a degree.
- `lines`: the line structure of a measurements file, `memchr`: byte search.
- `metrics`: per-station summaries (`Aggregate`), the `Metrics` reader over a
  `hashbrown` map (`station_table`), merging of partial results and the report.
- `summary_laws`: that summaries are the lowest, highest, sum and count of each
  station's readings, and that pieces of a file cut at line boundaries can be
  computed apart and merged.
- `chunks`: newline-aligned split of a file for parallel reading.
- `table`: an open-addressing table with linear probing.
- `report`: rendering of numbers and of the sorted report.

`app/` holds the program: the memory map of the input file, the threads and the
output.
