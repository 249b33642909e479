//! A falling-sand pixel world: a bounded grid of materials, a granular
//! update rule, connectivity analysis that finds floating regions, and the
//! bookkeeping that turns those regions into free rigid chunks, splits them
//! when they are cut apart, and derives flat ground colliders.

pub mod chunk;
pub mod connect;
pub mod detect;
pub mod granular;
pub mod grid;
pub mod material;
pub mod probe;
pub mod random;
pub mod schedule;
pub mod service;
pub mod surface;
pub mod tools;

pub use chunk::{detect_split_chunks, ChunkFate, ChunkSpawn, SplitPiece, WoodChunk};
pub use detect::MIN_CHUNK_CELLS;
pub use grid::{PixelWorld, DIRTY_CHUNK_SIZE};
pub use material::Material;
pub use schedule::{update_pixels, RateLimiter};
pub use service::{WorldService, WORLD_PIXEL_HEIGHT, WORLD_PIXEL_WIDTH};
pub use surface::{surface_spans, SurfaceSpan};
pub use tools::{BreakRule, Tool};
