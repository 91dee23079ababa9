//! Discover which fonts a set of (A)SSA subtitle documents needs, locate
//! matching font files through a persistent font index, and plan their
//! temporary registration with the platform font stack.
//!
//! The crate holds the decision logic: font-file introspection over raw
//! bytes, the persistent name-to-file index with its lookup fallback, the
//! subtitle font-usage extractor, the display-name resolver, and the
//! install scope's bookkeeping. Reading files, walking directories and the
//! platform's font-stack calls are its callers' work; they hand plain
//! values in and take plain values back.

pub mod font;
pub mod introspect;
pub mod ssa;
pub mod system;
pub mod utils;

pub use font::FontFile;
pub use font::FontIndexError;
pub use font::FontProviders;
pub use ssa::EventEntry;
pub use ssa::SsaFonts;
pub use ssa::StyleEntry;
pub use system::Finder;
pub use system::Loader;
