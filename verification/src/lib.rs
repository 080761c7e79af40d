//! Verified core of the BanG Dream team optimizer: event point formulas,
//! medley candidate filtering and bounds, seed search helpers, the client's
//! protobuf and ISO 10126 framing, APK manifest reading, feedback validation
//! and the game-data sync command line.
use vstd::prelude::*;

pub mod bits;
pub mod model;
pub mod text;
pub mod event_pt;
pub mod disjoint_bound;
pub mod ranking;
pub mod candidate;
pub mod raw_candidate;
pub mod protobuf;
pub mod cipher;
pub mod request_hint;
pub mod feedback;
pub mod account;
pub mod sync_cli;
pub mod sync_config;
pub mod manifest;
pub mod credentials;
pub mod user_rows;
pub mod seed;
pub mod items;
pub mod capacity;
pub mod prune_signature;
pub mod flat_groups;
pub mod event_songs;
pub mod pools;
pub mod remote_apk;
pub mod item_search;
pub mod login;
pub mod import_flow;
pub mod suite_import;

verus! {

} // verus!
