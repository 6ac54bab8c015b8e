# wget

A small downloader: single files, lists of URLs, and mirrors of whole websites, with a limit on
the rate and with links rewritten for offline viewing.

- `src/` is the library, verified with Verus: the options (`cli`), names, places and pace of
  single downloads (`downloader`), sizes and progress as text (`logger`, `progress`), URLs
  (`weburl`), paths (`paths`, `relative`), the links of pages and style sheets (`links`), the
  crawl (`mirror`, `mirror_laws`), and the rewriting of links (`convert`,
  `rewrite_laws`). `text` and `decimal`
  hold what these need of strings and numbers.
  A mirror writes what a URL denotes to the file that the URL's path names, below a directory
  named after the host, and rewritten links lead to these files.
- `app/` is the program: arguments, requests, files, the clock and the terminal.
- `tests/` runs the library.

The crates `url`, `scraper`, `regex`, `pathdiff` and `indicatif` are called through a few small
functions whose contracts are taken on trust; the comment above each says what is claimed.
Paths are written with `/`.
