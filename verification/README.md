# pack_encode

An encoder for Git pack files, with its behaviour stated in contracts and proved
by Verus.

Object entries go in; the byte stream of a `.pack` file and the index entries that
point into it come out. With a window, entries are grouped by kind, brought into an
order that puts similar objects side by side, and stored as deltas against earlier
objects where that pays off. Without a window every object is stored whole.

- `src/` is the verified library.
  - `format`, `packed`, `hash`, `digest`: the bytes of headers, objects and names.
  - `path`, `order`, `names`, `tree`, `infer`: where blobs stand in the trees that
    are packed with them, and the order in which objects are packed.
  - `codec`, `similarity`, `window`, `placement`, `delta`, `blobs`: the choice of
    bases and the layout of deltas. The delta algorithms themselves are handed in.
  - `stream`, `encoder`, `parallel`, `windowed`, `files`: the encoder.
  - `laws`, `decode`, `routes`, `rebuild`: what holds of packs, paths and deltas as a
    whole; above all, that a pack gives back the entries that went into it.
- `app/` puts channels, files, threads and time around it.
- `tests/` runs the library against the crates that it calls.
