//! Detection and rewriting of personally identifiable information in text.
//!
//! A [`PatternRegistry`] holds one compiled matcher per [`PiiField`]. The
//! matches it reports are byte spans of the scanned text; they are put in
//! descending order of their start and replaced one by one, as the chosen
//! [`PrivacyPolicy`] says, while a record is kept of every substitution.

pub mod engine;
pub mod kinds;
pub mod laws;
pub mod matching;
pub mod ordering;
pub mod replace;
pub mod text;

pub use engine::{
    apply_spans, detect_and_transform, process_pii, root, PiiRequest, PiiResponse,
};
pub use kinds::{PiiError, PiiField, PrivacyPolicy};
pub use matching::{PatternRegistry, Span};
pub use ordering::order_spans;
