//! A verified codec for Standard MIDI File (SMF) containers: a header chunk
//! plus an ordered list of track chunks, each track a running-status
//! compressed stream of time-stamped events.
//!
//! Parsing and encoding are specified against one mathematical grammar over
//! byte sequences; a strict/lenient policy, chosen per call, decides whether
//! structural violations are fatal or tolerated through defined degradations.
//! When enough undecoded bytes are at stake, the independent per-track
//! decodes run on a worker pool, with the decoded output proven identical to
//! the sequential path's.

pub mod error;
pub mod num;
pub mod vlq;
pub mod event;
pub mod track;
pub mod chunk;
pub mod smf;

pub use error::{ErrorKind, MidiError};
pub use event::Event;
pub use track::{EventIter, EventBytemapIter};
pub use chunk::{Format, Header, Timing};
pub use smf::{
    parse, validate_smf, tracks_well_formed, bytemap_tracks_well_formed, Smf, SmfBytemap,
    TrackIter, PARALLEL_ENABLE_THRESHOLD,
};
