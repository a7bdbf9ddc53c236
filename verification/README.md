# snap

A minimal snapshot tool for project directories: `snap -s "note"` stores the work tree
as a new version, `snap -c <id>` switches to one, `snap -t`, `-l`, `-v`, `-d` and `-g`
show status, list, show, diff and clean up. Short flag, first letter and full name are
interchangeable (`snap -s`, `snap s`, `snap save`).

On disk:

    .snap/HEAD                    current version id (12 hex digits, or empty)
    .snap/versions/<id>.json      a version {parents, tree, message, time, seq}
    .snap/seq                     counter that orders versions saved in the same second
    .snap/index                   size and times of each file, to skip re-hashing
    .snap/objects/<2>/<38>        contents, named by their SHA-1: one zlib stream, or for
                                  files of 8 MiB and more a container of 4 MiB chunks

## Layout

`src/` is the library, verified with Verus: the formats, rules and reports of the tool are
functions there with contracts, and the properties that span calls are proof functions.
Paths are modelled for Unix and, with the `windows` flag, for Windows ("\" separates too,
drive prefixes, names compared without case).

- `text`, `paths`, `json`, `tree`: strings, paths, JSON values and path-keyed maps
- `ignore`: `.snapignore` rules and their matching, with the laws of `*`, `**` and
  directory rules
- `store`, `digest`: version records, version ids (SHA-1 of a fixed JSON payload), the
  repository layout, HEAD and the counter
- `index`: the stat cache and its trust rule
- `scan`, `object`, `chunk`: walking the work tree, choosing a compression level, and
  the chunk container format
- `docs`, `cli`: the command table, help texts and the command line
- `report`, `checkout`: what each command computes and prints, and checkout's plan,
  checks and gates

`app/` is the program around it: argument and file I/O, threads, the clock and the
console. `tests/` exercises the library on concrete values.
