# duckdb-qvd

A DuckDB extension that reads and writes Qlik QVD files, in Rust, with its logic verified
by [Verus](https://github.com/verus-lang/verus).

```sql
SELECT * FROM read_qvd('data/sales_*.qvd');
COPY (SELECT id, amount FROM sales) TO 'out.qvd' (FORMAT qvd, FIELD_NAMES (id, amount));
COPY sales FROM 'out.qvd' (FORMAT qvd);
```

## Layout

| Path | What it holds |
|---|---|
| `src/` | the verified library: no input or output |
| `app/` | the extension itself: DuckDB's C API and the file system around the library |
| `tests/` | tests of the library, with real files in memory |

The modules of the library:

| Module | What it holds |
|---|---|
| `rounding`, `double` | the arithmetic of doubles, on their bits |
| `text` | numbers as text |
| `kind` | Qlik tags and the DuckDB types that follow from them |
| `convert` | symbols of a file as values of DuckDB types |
| `scan` | scanning files batch by batch, column by column |
| `column` | batches as the buffers that DuckDB takes |
| `copy` | binding columns and gathering rows to be written |
| `encode` | the bytes of the file that holds gathered rows |
| `files` | the files that a pattern stands for |
| `drain` | what holds of whole scans |
| `round_trip`, `timestamps`, `intervals` | what is read back of what was written |
| `accuracy` | bounds on rounding errors, for the above |

## Doubles

A QVD stores numbers as IEEE 754 doubles, and Qlik counts dates as days since 1899-12-30 in
such doubles. The library carries doubles as the `u64` of their bits and computes on them
in whole numbers, rounding as the standard says, so that what happens to a date or a time
on its way through a file can be proved.

## What is trusted

Some outside functions are used as their documentation and source describe them. Each is
declared once, with what is claimed of it, in `text`, `encode` and `files`:

- `str::trim`, `str::parse` for a double, `String::from_utf8_lossy` and `sort` on strings,
  of the standard library;
- `QvdSymbol::to_string_repr` of the crate `qvd`, for the text of a double;
- `WriteTable::to_bytes` of the crate `openqvd`, for the bytes of a file.
