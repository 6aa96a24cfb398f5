# qomicex-downloader

A download core for launchers and desktop applications, written in Rust and verified with
Verus. Files are fetched in segments side by side, retried, moved to mirrors, resumed from
partial files, checked against a SHA-256 digest and moved to their destination in one step.

## Layout

- `src/` holds every decision, on plain values, with contracts that Verus proves.
  - `segment`, `ranged`: how a file is cut, which segments run, when one is cut again, and
    when the segments are complete or given up for one stream.
  - `transfer`, `retry`: one attempt at a segment or a stream, its watchdog, and what
    follows a failed attempt.
  - `plan`, `run`: what a server says of a file, and the run of a download from the first
    request to the finished file.
  - `digest`, `hex`: checking a file and moving it to its destination.
  - `headers`, `hosts`, `client`: what goes into requests and what is read off answers.
  - `manager`, `scheduling`, `task`, `error`: the queue, the tasks and their states, the
    settings, the events and the errors.
  - `bridge`: the JSON texts for callers in other languages.
  - `text`, `keys`: numbers, white space and ordered keys.
- `app/` performs the requests, writes the files and keeps the time. It reports what
  happened to the library and does what it is told.
- `tests/` runs the library.

## What is trusted

The library calls `rand` for the random part of pauses, `reqwest` for URLs and header maps,
`sha2` for digests and `serde_json` for strings and lists of pairs. What is taken for granted
of each call stands in the contract of the small function that makes it.

## Laws

Besides the contracts of the functions, public proof functions named `law_...` state what
holds of the library as a whole. Among them: a download succeeds only with a file that was
complete, checked, written through to the disk and then renamed; segments cover the file
without gap or overlap, whatever has been cut; a download that is
resumed goes on exactly where it was stopped, and counts no byte as written that was not; a
segment is complete with exactly the bytes that were asked for; retries and mirrors run out; no more tasks and segments run at once than
may; waiting tasks are served in order; and no id is given twice.
