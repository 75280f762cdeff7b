//! Landfill
//!
//! A set of datastructures for dealing with persistent, on-disk data.
//!
//! Every structure in this crate is a view over memory-mapped files that
//! only ever grow. Data is written once and never moves, so an offset handed
//! out by a structure stays valid for as long as the landfill exists.

pub mod appendonly;
pub mod bytes;
pub mod content;
pub mod contentid;
pub mod entropy;
pub mod errors;
pub mod helpers;
pub mod index;
pub mod journal;
pub mod landfill;
pub mod lanes;
pub mod mapped;
pub mod oncemap;
pub mod randomaccess;
pub mod smash;
pub mod store;

pub use appendonly::AppendOnly;
pub use bytes::DiskBytes;
pub use content::Content;
pub use contentid::ContentId;
pub use entropy::{CheckSummer, Entropy, StaticHeader, Tag};
pub use errors::FillError;
pub use index::TreeSlot;
pub use journal::Journal;
pub use landfill::{join_names, GuardedLandfill, Landfill, Substructure};
pub use mapped::MappedFile;
pub use oncemap::OnceMap;
pub use randomaccess::RandomAccess;
pub use smash::{Search, SearchNext, SearchPattern, SmashMap};
