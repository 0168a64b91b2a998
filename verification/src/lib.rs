//! Keeps CI workflow action pins current: extracts `owner/name[/sub]@version`
//! references from workflow text, decides per reference whether a newer
//! published version exists (at the granularity of the existing pin), and
//! rewrites the stale pins in the text.

pub mod reference;
pub mod resolve;
pub mod rewrite;
pub mod scan;
pub mod token;
pub mod version;
