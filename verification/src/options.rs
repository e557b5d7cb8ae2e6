//! The option records the command-line front ends fill in. The library holds
//! them as plain values; parsing arguments and walking directories happen
//! outside.

use vstd::prelude::*;

verus! {

/// Options for packing a directory of region files into one archive stream.
pub struct PackOptions {
    /// Directory of region files to archive.
    pub input_dir: String,
    /// Path for the archive file; absent means a standard-output pipe.
    pub output_file: Option<String>,
    /// Whether chunks are stripped of derived tags before archiving.
    pub strip: bool,
    /// Threads used for reading region files.
    pub threads: Option<u32>,
    /// Whether binary output to a terminal is tolerated.
    pub ignore_tty: bool,
}

/// Options for unpacking an archive stream into a directory of region files.
pub struct UnpackOptions {
    /// Path of the archive to unpack; absent means a standard-input pipe.
    pub input_file: Option<String>,
    /// Directory where the unpacked region files land.
    pub output_dir: String,
    /// Whether binary input from a terminal is tolerated.
    pub ignore_tty: bool,
}

/// Options for stripping a directory of region files in place of a copy.
pub struct Options {
    /// Directory of region files to strip.
    pub input_dir: String,
    /// Directory where the stripped region files land.
    pub output_dir: String,
}

} // verus!
