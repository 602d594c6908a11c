//! Selectively renders a leading fraction of certain words of a text in bold,
//! using either rich-text (`<b>`/`</b>`) or lightweight-markup (`**`) markers.
//!
//! The transform is pure and total: Unicode-aware word segmentation, word
//! selection by a fixed stride, grapheme-level partial bolding, and
//! output-format rendering, with validation of the bold fraction.

pub mod laws;
pub mod model;
pub mod output;
pub mod segment;
pub mod strip;
pub mod transform;

pub use output::NotBrError;
pub use output::OutputType;
pub use transform::process;
pub use transform::process_bytes;
pub use transform::process_text;
