# TarLens

Tar archive analysis — list, inspect, verify, diff and summarize tar archives
(V7, USTAR, PAX and GNU) without extracting them. The format is read from raw
bytes, and the library is verified with Verus: every public function states what
it returns in its contract, and the properties that span several functions are
proved as lemmas.

## Layout

```
src/
├── lib.rs       — module list
├── header.rs    — the 512-byte header: fields, checksum, formats, PAX records
├── reader.rs    — reading an archive's entries and raw header blocks from its bytes
├── verify.rs    — integrity and security checks
├── diff.rs      — comparing two archives entry by entry
├── stats.rs     — counts, sizes, formats and the largest files
├── output.rs    — the text and JSON reports of every command
├── inspect.rs   — the field-by-field breakdown and hex dump of a header
├── filter.rs    — selecting entries by type
├── calendar.rs  — civil dates from day counts
└── text.rs      — UTF-8 text buffers, digits and fixed-point decimals
app/main.rs      — the command line: arguments, files, standard output
tests/           — tests of the library
```

The library works on bytes in memory and writes its reports into byte buffers;
the command line reads the files and prints what the library wrote. Sizes and
averages that a double would hold are computed with integers, rounded as a
double rounds them.
