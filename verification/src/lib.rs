//! The line grammar, the hash chain, the RDF vocabulary and the graph of the ikigai log.
//!
//! A log entry is one line:
//!
//! ```text
//! 2026-08-23T09:14:22.031Z log:Resolution urn:calendar:today worker=ikigai-sched-2 span=7 dur=12
//! ```
//!
//! `<ISO-8601 Z> <class CURIE> <subject IRI> key=value…`, greppable three ways, by class, by
//! subject and by time prefix, and turned mechanically into a PROV-O-aligned graph: each
//! line becomes a `urn:log:{segment}:{seq}` typed by its class, with `prov:startedAtTime`
//! and one predicate per key.
//!
//! ## Why the mapping is data
//!
//! A purely positional mapping (`key` → `log:{key}`, value → string literal) cannot work:
//! `urn:calendar:today` has to become an IRI and `parent=3` has to become a graph edge, or
//! no entry joins to any other entry. So a term table is needed, and it lives in
//! [`VOCABULARY_TTL`]: `log:keyName` binds the column, `rdfs:range` types the value,
//! `log:minLevel` sets the verbosity threshold per class. A module extends all three with
//! `rdfs:subClassOf` and touches no code here.
//!
//! ## Tamper-evidence: four layers, or none
//!
//! 1. **A per-entry hash chain**, in memory: h₀ over the canonical header, then
//!    hᵢ = sha256(hᵢ₋₁ ‖ "\n" ‖ the line). [`chain_law::law_chain_commits`] says what that
//!    commits to.
//! 2. **Signed checkpoints** every N entries or T milliseconds ([`SealPolicy`]), written as
//!    `#seal` lines that read as comments to anything else.
//! 3. **The chain spans rotations.** `@prev` carries the predecessor's final seal.
//! 4. **Rotation is verify + seal + validate.** A rotation that cannot verify its
//!    predecessor lands a `log:ChainBroken` entry, not an exception.
//!
//! What the writer puts down, verification finds in order: see [`writer_law`] and
//! [`verify_law`].
//!
//! ## Opening is a host's decision
//!
//! Nothing is logged until a host opens a [`Writer`]. Files, locks, clocks and processes are
//! the host's: a writer hands its lines to a [`LineSink`].
#![allow(unused_imports)]

pub mod answer_law;
pub mod calendar;
pub mod chain;
pub mod chain_law;
pub mod config;
pub mod entry;
pub mod error;
pub mod evidence_law;
pub mod fact_law;
pub mod finding;
pub mod format_law;
pub mod graph;
pub mod graph_law;
pub mod handle;
pub mod header;
pub mod header_law;
pub mod layer;
pub mod layer_law;
pub mod line;
pub mod line_law;
pub mod lineage;
pub mod lineage_law;
pub mod load;
pub mod number;
pub mod rdf;
pub mod request;
pub mod request_law;
pub mod rotation;
pub mod segment_law;
pub mod segments;
pub mod segments_law;
pub mod serving_law;
pub mod table;
pub mod text;
pub mod text_law;
pub mod time;
pub mod token;
pub mod tracer;
pub mod tracer_law;
pub mod triple;
pub mod turtle_law;
pub mod verify;
pub mod verify_law;
pub mod vocabulary;
pub mod vocabulary_law;
pub mod vocabulary_source;
pub mod window;
pub mod window_law;
pub mod writer;
pub mod writer_law;

pub use chain::{
    split_signature, tagged, Chain, RotationPolicy, SealPolicy, SealSigner, HASH_ALGORITHM,
};
pub use config::{
    instance_iri, level_iri, Bound, ConfigError, Destination, DEFAULT_INSTANCE_NAME,
    DEFAULT_LEVEL, INSTANCE_NS, STEM,
};
pub use entry::{parse_fields, Entry};
pub use error::{ParseError, RenderError};
pub use finding::{ChainReport, Finding, SegmentReport};
pub use graph::{
    to_triples, to_turtle, LOG_MEDIA_TYPE, SIG_NS, TURTLE_MEDIA_TYPE,
};
pub use handle::{LogHandle, CONFIG_IRI};
pub use header::{Header, Prev, FORMAT_VERSION};
pub use layer::{LogConfig, Patch};
pub use line::{Line, Seal};
pub use request::{CAP_CONFIG, CAP_READ, CAP_WRITE, WRITE_IRI};
pub use segments::{
    TransreptEndpoint, SEGMENTS_IRI, SEGMENT_TEMPLATE, TRANSREPT_IRI, VERIFY_IRI,
};
pub use table::{Prefixes, Table};
pub use time::Timestamp;
pub use token::is_iri;
pub use triple::{Term, Triple};
pub use verify::{head_of, verify_chain, verify_segment};
pub use vocabulary::{
    ClassDef, KeyDef, VocabError, Vocabulary, CAPABILITY_DENIED_CLASS, CHAIN_BROKEN_CLASS,
    CONFIG_CHANGE_CLASS, DEFAULT_MIN_LEVEL, ENTRY_CLASS, ERROR_CLASS, LEVEL_CHANGE_CLASS,
    LEVEL_CHANGE_REJECTED_CLASS, LOG_NS, MESSAGE_CLASS, PROCESS_START_CLASS, PROCESS_STOP_CLASS,
    PROV_NS, ROTATION_CLASS, WARNING_CLASS,
};
pub use vocabulary_source::VOCABULARY_TTL;
pub use window::{GraphError, Options};
pub use writer::{BufferSink, Closed, LineSink, WriteError, Writer, WriterOptions};
