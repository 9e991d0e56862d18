# dupfinder

Finds files with the same content and helps to choose which copies to remove.

The library in `src/` is written in Verus: every function states what it returns or changes, and
the statements are proved. It does no input or output.

| Module | What it holds |
|--------|---------------|
| `glob`, `text`, `size`, `path`, `path_set` | patterns, texts, sizes in words, paths, sets of paths |
| `order`, `sequence`, `grouping` | stable sorting, filtering, classes of equal keys |
| `record`, `tree`, `tree_laws`, `places`, `row_laws` | files, the tree of duplicates, what holds of every tree and of its rows |
| `groups`, `report` | groups of duplicates: sorting, totals, reports |
| `hash`, `scanner`, `scan_laws`, `resume_laws` | what of a file is hashed, the scan step by step, what it finds, also when it is taken up again |
| `location`, `cache` | where states and results are stored, what is stored |
| `app`, `selection`, `outline`, `deletion`, `keys` | the state of the interface and what changes it |
| `app_laws` | what holds whatever is pressed |
| `view`, `prompt`, `progress` | what is shown and what is asked |

A scan is a step function: `scanner::scan_duplicates` takes what was learned and says what is
needed next. Deletions work in the same way. The program in `app/` does what is asked for: it reads
the disk, moves and removes files, keeps states and results in `~/.dupfinder/`, and draws.

## Usage

```
dupfinder <path>... [--ro] [-e <pattern>] [--min-size <size>] [--fast [N]] [--dry-run]
```

| Option | Meaning |
|--------|---------|
| `--ro` | delete nothing |
| `-e`, `--exclude` | leave out directories whose names match a pattern with `*` and `?` |
| `--min-size` | leave out smaller files, as in `1MB`, `500KB` or `1024` |
| `--fast [N]` | compare `N` samples of 4 KB from the middle instead of whole files |
| `--dry-run` | print a report instead of opening the interface |

While stored results are looked through, Escape takes the rest of them as they are.
