# Pythia

A distributed web crawler and semantic search engine built from actors. The
decisions of every service are a verified library (`src/`, proved with Verus);
the services themselves (`app/`) run that library inside `ractor` actors and do
the network, disk and model work around it.

## Library (`src/`)

- `manager` — one crawl manager shard: URL deduplication through a bloom
  filter, the static and rendering frontiers, per-domain politeness
  (`robots.txt` rules, crawl delay, exponential back-off after 429s), and the
  message handler that says what to dispatch and store. Its laws state that no
  URL is taken in twice, that every offered URL is reported as seen
  afterwards, that queued URLs stay recorded, that fetches of a domain keep
  its crawl delay across messages and respect its back-off, and that a
  success undoes a 429.
- `robots` — the per-domain rules and the `robots.txt` reader.
- `processor` — whitespace cleaning, sentence splitting and sentence-aware
  chunking with overlap, with laws on coverage, word budget and idempotence.
- `query`, `snippet` — query parsing (site filters, stop words, stemming),
  request defaults, paging and highlighted snippets.
- `content`, `worker` — reading HTML, XML and PDF documents and classifying
  fetches.
- `shard`, `urls`, `config`, `indexer`, `text` — routing by domain, URL parts,
  seed lists, index filters and string helpers.

Calls into outside crates (`url`, `scraper`, `quick-xml`, `bloomfilter`,
`stop-words`, `rust-stemmers`) go through small trusted wrappers whose
contracts are stated next to them. PDF text and metadata are read in `app/`
(`pdf-extract`, `lopdf`), where a panic on a malformed document is caught;
the library takes what they read.

## Services (`app/`)

`app/main.rs` starts one service, picked by the first argument: `crawler`,
`processor`, `indexer`, `query` or `download-models`. Embeddings and reranking
use FastEmbed, vectors are stored in LanceDB, and the search API is served
with axum.
