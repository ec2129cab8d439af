# atelier_loader

Loads assets and tracks their lifetimes, with the loader's behaviour stated in contracts and proved
by Verus.

A `Loader` counts the references to each asset. An asset that is referenced gets loaded: the loader
asks a `LoaderIO` for its metadata, loads what it depends on, asks for its data, and hands the data to
an `AssetStorage`. An asset that nothing refers to any more is unloaded, and releases what it depends
on. Assets that change are reloaded, and all that changed together come into use together. A change of
an asset that nothing refers to is seen to once something refers to it again, and holds up no other.
Assets can also be referenced by identifiers, which an `IndirectionResolver` binds to assets.

All work is done in passes: each call of `Loader::process` takes in what has come from the storage and
from the source of the assets, and takes every load one step further. What failed and is tried again is
listed by `Loader::failures`.

What changes a loader takes it by a mutable reference, so threads that share a loader take turns. A
storage on another thread can keep an `IndirectionTable`, which stays up to date.

## Layout

- `src/ids.rs`, `src/metadata.rs`, `src/error.rs`, `src/messages.rs`: plain data.
- `src/storage.rs`, `src/io.rs`: what users of the library implement. The contracts keep a record of
  the calls that the loader makes.
- `src/load.rs`, `src/indirect.rs`: one asset and its versions; one indirect reference.
- `src/model.rs`: the mathematical model of the loader's state, `LoaderView`.
- `src/state.rs`: the state itself, and the references to assets.
- `src/links.rs`: what a loader is tied to: its allocator, its channels and its table.
- `src/asset_changes.rs`, `src/load_ops.rs`, `src/load_states.rs`, `src/metadata_requests.rs`,
  `src/resolve_requests.rs`, `src/data_requests.rs`: the stages of a pass, each with the steps that it
  takes on the model.
- `src/pass.rs`, `src/loader.rs`: a whole pass, and the `Loader`.
- `src/laws.rs` and `src/laws/`: what holds of the loader as a whole: of handles and references, of the
  versions of an asset, of dependencies and reloads, and of whole passes.
- `src/maps.rs`, `src/channels.rs`: the concurrent maps and the channels that the loader is built on,
  with the claims about them that are taken on trust.
- `app/`: what surrounds the library: errors that end the program, and the context for reading handles.
