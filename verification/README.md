# audit_core

A forensic ledger audit library, verified with Verus, and the
`ledger-sentinel` command line around it.

The library (`src/`) holds the audit rules and their contracts:

- `schema`: mapping of CSV headers to transaction fields, parsing of rows
  and of decimal amounts (with an optional exponent) into integer cents;
- `sod`: entries created and approved by the same (human) user;
- `structuring`: repeated payments to one vendor just below an approval
  limit;
- `duplicates`: payments of the same amount to the same vendor under
  invoice references that match after normalisation or differ by one edit;
- `round_sums`: large entries in exact thousands;
- `benford`: first- and second-digit tallies and the eligibility gate of
  the Benford test, and the findings it raises;
- `report`: ranking of findings, totals and summaries;
- `grouping`, `text`, `models`: shared helpers and data types.

All amounts are integers in cents. The floating-point statistics of the
Benford test (expected proportions, z-scores, mean absolute deviation) are
computed in `app/benford_stats.rs` from the verified tallies, and the
findings they raise are handed to `run_full_audit`.

`app/` holds the command line: CSV reading, the statistics above, the
titles and descriptions shown to auditors, tables and JSON output.
