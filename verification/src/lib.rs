//! Decoder for sprite-sheet frame metadata: a document maps frame names to
//! pixel rectangles, and the decoder exposes those rectangles in the stable
//! order of their names (shorter names first, then byte-wise lexicographic).

pub mod decode;
pub mod frame_map;
pub mod json;
pub mod order;

pub use frame_map::AsepriteData;
pub use frame_map::Frame;
pub use frame_map::MalformedDocument;
pub use frame_map::Rect;
