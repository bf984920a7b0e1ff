//! Encoding inference and repair for mojibake: codecs, evidence, bounded
//! repair steps and the checks around sampled files and streaming export.
pub mod codec;
pub mod hexfmt;
pub mod strings;
pub mod whatwg;
pub mod utf8check;
pub mod chardet;
pub mod scripts;
pub mod textclass;
pub mod evidence;
pub mod models;
pub mod search;
pub mod streaming;
pub mod digest;
pub mod files;
pub mod recovery;
pub mod beam;
pub mod report;
pub mod cases;
pub mod analysis;
