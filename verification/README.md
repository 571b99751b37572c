# warehouse

Controller for a small automated warehouse: a shelf of 4 × 6 cells holding
coloured blocks, an order server that hands out orders, and a robot that
fetches and sorts blocks.

The verified library (`src/`, checked with Verus):

- `text` — character-sequence helpers with exact specifications: substring
  search, Unicode trimming, `lines`/comma splitting, UTF-8 byte offsets and
  decimal parsing; the one trusted item, `to_lowercase`, wraps
  `str::to_lowercase`.
- `server` — colours, the shelf (`Grid`) and its scans (free counts,
  picking the cells of an order, clearing and storing cells, the first free
  cell), and the reader of order texts; `server::internal` reads the stock
  listing and the order poll reply, and frames the requests sent to the
  order server.
- `control` — the order workflow state (`Thing`): the waiting queue, the
  current order, finished orders and history, and the answers to robot
  reports.
- `graphic` — what the panel's "Submit" button decides.
- `order` — per-colour totals of a product list.

`app/` is the program around it: TCP to the order server and the robot,
JSON (serde), the log file (chrono) and the egui control panel.

The panel (`app/graphic.rs`) is written against `eframe`/`egui` 0.27. They
are left out of `Cargo.toml` because of the size of their dependency tree
(over 600 MiB of sources, window-system crates for every platform included,
even with default features off), so `app/` does not type-check without them;
everything in it but the panel does.
