//! The manifests: edits that track durable files, and the page-layout
//! manifest with its checksummed byte form.
pub mod edit;
pub mod page;
pub mod store;

pub use edit::{ManifestEdit, ManifestEditKind, ManifestTrackedFile};
pub use page::{PageLayoutManifest, PageManifestStore};
pub use store::ManifestStore;
