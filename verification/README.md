# cdg_archive

Tools for preparing rips of CD+G discs for an archive: looking over a folder, renaming its files
after a title, splitting a disc in a single file into one file per track, packing the result into a
zip file and sending it off.

`src/` is the library. It is written in Verus: every function has a contract, and the contracts are
proved. It does no input or output of its own. What a task needs from the disk is handed in as plain
values, and what it does to the disk comes out as a list of steps.

| Module | What it is about |
| --- | --- |
| `text`, `decimal`, `bytes`, `casing`, `order` | texts, numbers, bytes, upper and lower case, sorting |
| `msf` | positions on a disc |
| `names`, `files` | what the names of files tell |
| `cue`, `sheet` | reading CUE sheets |
| `scan`, `layout` | looking over a folder |
| `split` | splitting a disc |
| `rename`, `rename_plan`, `rename_laws` | renaming files and keeping the sheet in step |
| `archive` | packing and sending |
| `round_trip` | that written sheets read back |

The public proof functions whose names begin with `law_` state what holds of several functions
together: that a split keeps every byte, that a written sheet reads back for every title that holds
no quotation mark and no line feed, that a rename does what its preview shows and that a second one
changes nothing. Each law says in its `requires` which titles it leaves out.

The library rests on three functions of the standard library that are not proved here:
`str::to_uppercase`, `str::to_lowercase` and `String::push`.

`app/` is the desktop application around the library. `tests/` runs the library.
