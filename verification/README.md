# rust_log_lab

A command-line tool that analyses `key=value` service logs: it counts log
levels, requests per service and slow requests, keeps samples of slow and
error records, and renders a report as text, Markdown, JSON or CSV.

The library under `src/` is verified with Verus:

- `text.rs`, `strmap.rs`: characters, trimming, case folding, decimal
  conversion, and a string-keyed map kept in key order.
- `model.rs`, `parser.rs`: levels, records, filters, formats, and the
  `key=value` line parser.
- `analyzer.rs`: statistics over records, merging of partial outcomes, the
  ranking of services, and the analysis of a run of lines.
- `report.rs`: the four report formats and the integer part of the health
  assessment.
- `cli.rs`, `export.rs`: command-line arguments and the format an output file
  name asks for.
- `laws.rs`: properties that span these functions.

`app/` holds the program around it: reading files, worker threads, writing the
report, and the floating-point ratios of the health assessment.
