# bangdream_optimize

The verified core of a BanG Dream team optimizer, written in Verus. Every
function in `src/` carries a contract that Verus proves.

## Layout

- `src/event_pt.rs`: event point formulas for solo, cooperative, versus,
  festival, medley and challenge plays.
- `src/items.rs`, `src/item_search.rs`: the song inputs a calculation accepts, the area item
  combinations it tries, the pruning of dominated combinations, and the
  search that keeps the best result over them.
- `src/disjoint_bound.rs`, `src/ranking.rs`, `src/candidate.rs`,
  `src/raw_candidate.rs`, `src/seed.rs`: medley candidates, their card masks,
  the (unique) ranking of candidates on a song, upper bounds on three
  disjoint teams, the pool-by-pool build of raw candidates, and the seed
  search.
- `src/prune_signature.rs`, `src/capacity.rs`, `src/flat_groups.rs`,
  `src/pools.rs`: team signatures, card groups by character, the number of
  teams a pool allows, and the order pools are searched in.
- `src/protobuf.rs`, `src/cipher.rs`, `src/credentials.rs`,
  `src/user_rows.rs`, `src/account.rs`, `src/request_hint.rs`: the game
  client's wire format, AES framing, login signing, the retry decision of
  the suite request, and the import of a player's cards and area items.
- `src/login.rs`, `src/import_flow.rs`: the encrypted password of the SDK
  login (PEM body, base64, RSA PKCS#1 v1.5 through the `base64` and `rsa`
  crates), and the decisions of a credential import, one answer at a time.
- `src/suite_import.rs`: reading a player's suite section by section into
  cards, area items and the character sections the caller converts.
- `src/manifest.rs`, `src/remote_apk.rs`: reading the client version from the
  official APK's manifest and engine header, the HTTP range window, and the
  hosts the APK may be downloaded from.
- `src/feedback.rs`: feedback validation, the e-mail text, and the rate
  limiter.
- `src/sync_cli.rs`, `src/sync_config.rs`, `src/event_songs.rs`: the game-data
  sync command line, its configuration merge, and event song lists.
- `app/`: the command-line program around the library (argument and file
  handling, environment, process launch).
- `tests/`: tests of the library on concrete values.
