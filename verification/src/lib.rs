pub mod auth;
pub mod digits;
pub mod index;
pub mod pass;
pub mod reconcile;
pub mod store;
pub mod urls;

pub use crate::auth::{make_auth_url, make_password_digest};
pub use crate::index::{FileIndex, FileRecord};
pub use crate::pass::decide_persist;
pub use crate::store::ParseError;
pub use crate::urls::{make_getzip_url, make_listfolder_url, EndPoint};

use vstd::prelude::*;

verus! {

/// Configuration assembled once at process startup and passed by reference to
/// every component that needs it; no component reads ambient process state.
#[derive(Debug)]
pub struct Config {
    /// Path of the persisted index file.
    pub index_file: String,
    /// Directory the photo files are materialized into.
    pub photo_dir: String,
    pub pcloud_username: String,
    pub pcloud_password: String,
    pub pcloud_oath_token: String,
}

} // verus!
