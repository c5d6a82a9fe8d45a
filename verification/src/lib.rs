//! Verified parsers for Blizzard CASC metadata: TVFS file manifests and the
//! product selection rules for the local Battle.net `.product.db`.

pub mod error;
pub mod bytes;
pub mod header;
pub mod text;
pub mod keys;
pub mod generic;
pub mod manifest;
pub mod product_db;

pub use error::{PathNodeIssue, Region, TvfsError};
pub use header::TvfsManifestHeader;
pub use keys::{ContentKey, EncodingKey};
pub use generic::{parse_wow_generic_path, WowGenericPath};
pub use manifest::{TvfsManifest, TvfsManifestEntry};
pub use product_db::{
    is_hash, select_installed_product, BaseProductState, CachedProductState, Database,
    InstalledProduct, ProductField, ProductInstall, SelectionError, MAX_DATABASE_BYTES,
};
