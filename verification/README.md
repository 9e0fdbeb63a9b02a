# freqangel

A tool for doing things with SDRangel frequency tables (`.csv`): sorting them by
frequency, merging duplicate stations, merging several tables into one, and fetching the
current Perseus user list and merging it into a table.

```
freqangel sort am_frequencies.csv
freqangel dedup am_frequencies.csv
freqangel merge alternate_frequency_list.csv take temporary_frequency_list.csv into am_frequencies.csv
freqangel fetch into userlist1.csv
```

Lists given after `take` are deleted once merged; the list after `into` receives. A fetch
overwrites an existing file only where `into` is given.

## Layout

- `src/` is the library, verified with Verus: the text formats (`sdrangel`, `perseus`,
  `text`, `schedule`), the entries and their order (`freq`, `level`), the lists (`freqs`),
  the command line (`cli`) and the search for the user list's address (`fetch`). Levels in
  decibels are carried as the bit patterns of `f64`; the arithmetic on them is handed in by
  the caller.
- `app/` is the program around it: files, the network, and the `f64` arithmetic.
- `tests/` exercises the library.
