# merlion-node-exporter-rs

A Prometheus exporter for the hardware and OS metrics of a Linux host, written
in Verus: what the exporter reads out of `/proc` and `/sys`, and the text that
it answers a scrape with, is stated in contracts and proved.

```text
--web.listen-address <ADDR>           Default :9100 (env MNE_LISTEN_ADDRESS)
--web.telemetry-path <PATH>           Default /metrics (env MNE_TELEMETRY_PATH)
--path.procfs <DIR>                   Default /proc (env MNE_PROCFS)
--path.sysfs <DIR>                    Default /sys  (env MNE_SYSFS)
--path.rootfs <DIR>                   Default /     (env MNE_ROOTFS)
--collector.textfile.directory <DIR>  (env MNE_TEXTFILE_DIRECTORY)
--no-collector <NAME>                 Disable a collector. Repeatable.
--collector.only <NAME>               Enable only the named collectors. Repeatable.
```

Metric names and flags follow upstream `node_exporter`.

## Layout

- `src/` is the verified library.
  - `text`, `number`, `order` and `rows` hold what the parsers share: lines and
    words, number grammars, sorting, files read row by row.
  - `metric` is the metric model, `source` what came of reading a file or a
    directory, `config` where to read.
  - `collectors` has one module for each source. A collector says which files it
    reads and turns what came of reading them into metric families.
  - `registry` runs collectors and puts a scrape together; `encoding` writes it
    in the text exposition format; `server` says what is answered.
  - `double` says which decimal text reads as which double.
  - `round_trip` proves that what `encoding` writes is what the textfile
    collector reads back.
- `app/` is the program around it: command line, files, system calls, floating
  point, HTTP.
- `tests/` runs the library.

## Numbers

A sample's value is kept as it was read, with the one conversion that turns it
into the sample's unit (`metric::Value`). Only the program evaluates it to a
double, and hands the encoder the double's bits and its shortest decimal text.

## What is taken on trust

Each trusted item says in its doc comment what it claims: `String::push`,
`String::push_str` and the `{:?}` form of text (`text`), a search by the `regex`
crate (`collectors::diskstats`), and the clock that times the collectors
(`registry`). A `Collector` from outside the library is trusted to keep its name.
