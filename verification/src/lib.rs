//! Profiling and devirtualization of indirect calls in WebAssembly modules.
//!
//! A module is instrumented so that a run of it records, call site by call
//! site, the table slots through which it calls indirectly; with the
//! profile of such a run the module is optimized: a site that always
//! called the same few functions calls them directly. The passes work on a
//! plain-data model of the module, [`ir::Module`].

pub mod calltypes;
pub mod error;
pub mod fastcalls;
pub mod grow;
pub mod idmap;
pub mod instrument;
pub mod ir;
pub mod laws;
pub mod lookup;
pub mod names;
pub mod pipeline;
pub mod profilemap;
pub mod rewrite;
pub mod scan;
pub mod sitepass;
pub mod sites;
pub mod slowcalls;
pub mod typing;
pub mod valid;
pub mod verdicts;
pub mod walk;
pub mod wiring;
pub mod wrap;

pub use error::Error;
pub use fastcalls::FastCallScan;
pub use instrument::generate_stubs;
pub use ir::Module;
pub use pipeline::{instrument, optimize};
pub use profilemap::{process_map, MapValue, Profile};
pub use slowcalls::compute_slowcalls;
pub use wrap::generate_slowcall_stubs;
