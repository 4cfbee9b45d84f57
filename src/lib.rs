//! Layered sentence-boundary segmentation.
//!
//! Rule layers run in a fixed order and each proposes candidate break spans.
//! A layer keeps a candidate only when its `(start, end)` key was neither
//! accepted by the layer just before it nor already kept earlier in the same
//! layer. The spans kept by the terminal layers are then resolved into one
//! strictly increasing sequence of boundary offsets.

mod util;
pub mod span;
pub mod filter;
pub mod boundary;
pub mod pipeline;
pub mod laws;

pub use boundary::{resolve_boundaries, BoundaryPolicy, BoundaryRule};
pub use filter::{filter_keys, filter_previous_rule_same_span, fresh_flags, kept_count};
pub use pipeline::{LayerAccumulator, LayerDef, Segmenter};
pub use span::{span_keys, Layer, Segmentation, Span, SpanKey};
