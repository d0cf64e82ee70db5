//! Demangler for compiler-generated mangled symbol names.
//!
//! The crate decodes one mangled token (`_ZN...E` or `ZN...E`) into a
//! qualified name, renders it with or without its trailing hash segment,
//! and scans arbitrary lines of text, replacing every embedded token while
//! leaving all surrounding bytes untouched.

#![verifier::loop_isolation(false)]

mod bytes;
mod decode;
mod escape;
mod laws;
mod paths;
mod render;
mod scan;
mod stream;

pub use decode::DecodedName;
pub use decode::decode;
pub use render::render;
pub use scan::demangle_line;
pub use stream::demangle_stream;
pub use stream::demangle_names;
pub use paths::InputType;
pub use paths::OutputType;
pub use paths::PathError;
pub use paths::PathState;
pub use laws::candidate_at;
pub use laws::no_candidate_pair;
pub use laws::lemma_passthrough;
pub use laws::lemma_scan_splits_at_delimiter;
pub use laws::lemma_length_overrun_unchanged;
pub use laws::lemma_escape_marker_substitutes;
pub use laws::lemma_escape_unknown_marker_verbatim;
pub use laws::lemma_hash_toggle;
pub use laws::lemma_no_pair_passthrough;
pub use laws::lemma_join_no_pair;
pub use laws::lemma_hash_seg_no_pair;
pub use laws::lemma_rescan_stable;
pub use laws::lemma_stream_single_chunk;
