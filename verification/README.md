# earthquake_alert

A push service for earthquake early warnings: users subscribe a Bark key
with up to three places and intensity bands; the service watches an
early-warning WebSocket feed and pushes alerts to the subscriptions whose
places lie in or around the alert's GeoHash cell.

The crate is written in Verus.

- `src/` is the verified library:
  - `geohash`: hash spelling of grid cells, the four neighbours and the
    3 x 3 block of a cell, with their laws (reciprocity, symmetry,
    diagonals as two steps);
  - `text`, `civil_time`: text helpers and the reading of origin times as
    epoch seconds;
  - `subscription`: the checks of a subscribe or unsubscribe request
    (Bark key, Bark server, places, bands) and their messages;
  - `store`, `store_plan`, `lookup`: the store handle, the key layout, the
    writes of each store transaction with their effect on a model of the
    store, and the bookkeeping of lookups by cell;
  - `monitor`: the monitor's settings, reconnection back-off, message
    types, alert keys, skip decisions and the memory of pushed alerts;
  - `record_cipher`: sealing records with AES-256-GCM.
- `tests/` runs the library on concrete values.
- `app/` is the service around it: configuration, HTTP handlers, the sled
  store, the feed loop, and the floating-point geometry.
