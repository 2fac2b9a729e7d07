# kichi

The rules of a PikPak cloud-drive client for Linux, as a library verified
with Verus, and a small command-line front end around it.

## Layout

- `src/` — the library. Every function carries a `requires`/`ensures`
  contract that Verus proves.
  - `text`, `json`, `paths` — character-level text helpers, a plain JSON value,
    and Unix paths compared by component (as `std::path::Path` compares them).
  - `types`, `download`, `upload`, `requests`, `walk` — drive records, reading
    download links and media qualities out of file details, the resume rules of
    a download, upload sizing, the gcid content hash, OSS multipart request
    pieces and signatures, request bodies, what the client does with an answer
    (renewing an expired session or captcha once, or which error it gives), and
    the breadth-first folder walk of a whole-folder download.
  - `filetypes`, `format`, `helpers`, `share_link` — file classification, the
    texts the interface shows, subtitle matching, the mpv command line, and
    reading share links.
  - `thumbs`, `cache` — the in-memory thumbnail texture LRU and the disk cache
    sweep, both with soft caps.
  - `dircache`, `browse`, `pages` — the folder-listing cache of the file
    browser (late answers never overwrite newer ones, least recently used
    folders leave first), the rows it shows (filter, hidden items, stable column
    order), copy / cut / paste, and the paged lists and search of the other
    pages (an answer to an older request is dropped), the folder pickers,
    and the trash page's rows.
  - `shares`, `save_share`, `tasks`, `preview`, `selection` — the user's own
    shares and how they are made; saving someone else's share (the dialog,
    finding the server's folder for saved shares, and moving the new files on
    after polling); the offline-download task lists (the worker's periodic
    refresh and the interface's merge of it); the file preview in progress and
    the quality choices of media; and selecting transfer jobs (plain, ctrl and
    shift clicks, "select all", bulk actions).
  - `settings`, `jobs`, `table`, `reports`, `transfer`, `logrotate`, `msg` —
    the transfer history lists, download and upload jobs and their tables
    (restored from history, listed, rolled up, removed, retried), what the
    worker's progress reports do to them, local target paths and names,
    transfer slots, retry back-off, log rotation, and the worker's command set.
- `tests/` — tests of the library on concrete values.
- `app/` — the program: files, clock, processes and serde live here and call
  the library for every decision.

Each module states its laws as public proof functions (for example
`thumbs::lemma_evict_soft_cap`, `transfer::lemma_join_stays_inside`,
`upload::lemma_chunk_bounds`, `settings::lemma_download_append_then_remove`,
`dircache::lemma_evict_lru`, `browse::lemma_listed_before`,
`cache::lemma_pass_deletes`, `cache::lemma_run_totals`, `thumbs::lemma_evict_law`,
`tasks::lemma_unrefreshed_phase_kept`,
`upload::lemma_first_etag_round_trip`) or in the contracts of the functions
they are about.
