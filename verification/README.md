# psf_guard

Tools for grading astronomical exposures recorded by the N.I.N.A. Target
Scheduler: FITS header reading, star-structure detection steps, image
statistics, and the database statements behind listing, regrading and
filtering rejected frames.

## Layout

- `src/` is the library, verified with Verus. Every function carries a
  `requires`/`ensures` contract over spec models (`Seq`, `Map`, integers);
  laws that relate several functions are public proof functions (`law_*`).
  - `grid`, `flood`, `union_find`, `labeling`: pixel grids, connectivity,
    connected-component labelling.
  - `accord_imaging`, `opencv_morphology`, `image_analysis`,
    `nina_star_detection`, `hocus_focus_star_detection`: the integer image
    steps (Canny edges, SIS threshold, dilation, median filter, blob
    detection, hot-pixel filter, star-candidate scan).
  - `sample_statistics`: medians, median absolute deviation, sums and
    ranges of 16-bit samples.
  - `fits`, `header_map`, `commands::read_fits`: FITS header parsing, the
    metadata summary and its CSV listings.
  - `db`, `models`, `grading`, `commands::*`, `server::*`: database
    statements with their bound parameters, grading states, sequence
    grouping, the decisions of the command-line commands, and the request
    decisions, response shapes and cache paths of the web API (the HTTP
    server itself is not part of this crate, so `server::handlers` has no
    caller here).
  - `text`, `utils`: strings, decimal numbers, splitting, trimming.
- `tests/`: tests of the library.
- `app/`: the command-line program around the library: argument parsing,
  files, the SQLite database, PNG output and the floating-point image code.
