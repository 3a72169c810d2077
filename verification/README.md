# screens

Contact sheets for a tree of video files: for every video one JPEG with frames
sampled across its duration, in a grid under a four-line header. The input tree
is mirrored into an output tree beside it:

```
ROOT/a/b/video.mkv   ->   ROOT/Screens/a/b/video.mkv.jpg
```

`src/` is the library, written in Rust and verified with Verus. It holds
everything that decides or computes:

| module    | what it holds                                                        |
|-----------|----------------------------------------------------------------------|
| `path`    | file paths as lists of components                                    |
| `paths`   | where sheets and kept frames go, and which source they belong to     |
| `scan`    | which files are videos, and the report on all others                 |
| `orphans` | generated files that have outlived their source, and their removal   |
| `probe`   | reading a probe's report, and the cache of results                   |
| `frames`  | the choice of a grid, sample points, thumbnail sizes, extraction     |
| `picture` | pictures, pasting, and image files                                   |
| `text`    | the header font, and breaking lines into rows                        |
| `sheet`   | the header text, the layout of a sheet, and putting it together      |
| `stats`   | the statistics at the end of a run                                   |
| `worker`  | what to do with each video, and the count of what has been done      |
| `cli`     | flags, the font, the course of a run, and exit codes                 |
| `order`, `sort`, `assoc`, `tally`, `strings` | orders, sorting, maps, counts and text |

The functions named `law_...` state what holds of the library as a whole: that a
sheet leads back to its source, that no two sources share a sheet, that a sheet
whose source is there is never removed, that every frame appears whole in its
cell, that every table of the statistics adds up, and so on.

What the library takes from outside crates stands behind small functions whose
contracts are believed, each with a comment that says what is believed of it.

`app/` is the program around the library: arguments, files, processes, threads,
and the few formulas that are floating-point arithmetic. It needs `ffmpeg` and
`ffprobe` on the `PATH`, a monospace font, and `fc-match` where the font is
given by its family name.

`tests/` runs the library.
