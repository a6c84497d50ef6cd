//! The decision-making core of a file synchronisation server: which requests bring a client and
//! the server in step, what to do with a client's answers, and who may connect at all.

pub mod auth_utils;
pub mod block_size;
pub mod channel;
pub mod files;
pub mod listing;
pub mod lists;
pub mod order;
pub mod path;
pub mod plan;
pub mod requests;
pub mod rsync;
pub mod sync_utils;
pub mod text;
