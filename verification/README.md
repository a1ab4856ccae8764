# yt_fetcher

Fetching files over HTTP, with the decisions verified by [Verus](https://github.com/verus-lang/verus).

- `src/` is the library. It plans requests and reads their answers (`fetcher::request`,
  `fetcher::headers`), cuts a file into segments and resumes an interrupted download
  (`fetcher::segments`, `fetcher::parts`), drives one segment through its attempts
  (`fetcher::segment_task`, `fetcher::retry`), gathers a download in one piece
  (`fetcher::simple`), runs the priority queue of a download manager
  (`fetcher::download_manager`), and knows which ffmpeg build fits a machine
  (`fetcher::deps::ffmpeg`). Proof functions named `law_*` state what holds of several
  functions together.
- `app/` opens the connections and files, and does what the library says.
- `tests/` runs the library on concrete values.

What the library relies on without proof are the functions of `reqwest::header` and
`reqwest::StatusCode` that `src/fetcher/headers.rs` wraps.
