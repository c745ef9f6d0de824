//! Parsing of the kernel command line into the options that decide how the
//! root filesystem is mounted and which program is started first.

pub mod flags;
pub mod text;
pub mod options;
pub mod tokenizer;
pub mod nfsroot;
pub mod parser;
