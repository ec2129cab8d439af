//! Loads assets and tracks their lifetimes.
//!
//! A [`Loader`](loader::Loader) counts the references to each asset, asks for the metadata and the
//! data of the assets that are referenced, hands the data to an
//! [`AssetStorage`](storage::AssetStorage), and unloads what is no longer referenced. The state it
//! keeps is a [`LoaderState`](state::LoaderState), whose mathematical model is a
//! [`LoaderView`](model::LoaderView).

pub mod error;
pub mod ids;
pub mod metadata;
pub mod load;
pub mod storage;
pub mod indirect;
pub mod maps;
pub mod channels;
pub mod messages;
pub mod model;
pub mod links;
pub mod io;
pub mod state;
pub mod load_states;
pub mod metadata_requests;
pub mod data_requests;
pub mod load_ops;
pub mod asset_changes;
pub mod resolve_requests;
pub mod pass;
pub mod loader;
pub mod laws;
