//! The command-line data model: what a user asked the tool to do.
//!
//! These are plain values.  Reading them from the actual command line, with
//! help text and completion, is the front end's business; the library only
//! computes from them.

use vstd::prelude::*;

verus! {

/// One invocation of the tool: global options and the chosen command.
pub struct Cli {
    /// Verbosity level: `0` warnings only, each step up says more.
    pub verbose: u8,
    /// The command to run.
    pub command: Command,
}

/// The commands the tool offers.
pub enum Command {
    /// Render scene file(s).
    Render(Render),
    /// Dump a scene file as a stream.
    Cat(Cat),
    /// Watch folder(s) and render what appears in them.
    Watch(Watch),
    /// Display version information.
    Version,
    /// Generate a completion script for the named shell.
    GenerateCompletions { shell: String },
}

/// Options of the render command.
pub struct Render {
    /// The scene file(s) to render; `@`-placeholders name frame sequences.
    pub file: Vec<String>,
    /// Render through the given collective.
    pub collective: Option<String>,
    /// Render in the cloud instead.
    pub cloud: bool,
    /// Print rendering progress at each bucket.
    pub progress: bool,
    /// Statistics level: embed in image, and print with a second step.
    pub statistics: u8,
    /// Render with this many threads.
    pub threads: Option<usize>,
    /// Do not render; only say what would be done.
    pub dry_run: bool,
    /// Add a render command to the stream.
    pub force_render: bool,
    /// The frame-sequence expression naming the frames to render.
    pub frames: Option<String>,
}

/// Options of the cat command.
pub struct Cat {
    /// Encode the stream in binary form.
    pub binary: bool,
    /// Compress the stream.
    pub gzip: bool,
    /// Expand archives and procedurals into the stream.
    pub expand: bool,
    /// The scene file to dump.
    pub file: Option<String>,
    /// Write the stream here instead of standard output.
    pub output: Option<String>,
}

/// Options of the watch command.
pub struct Watch {
    /// The folder(s) to watch for new scene files.
    pub folder: Vec<String>,
    /// Render through the given collective.
    pub collective: Option<String>,
    /// Render in the cloud instead.
    pub cloud: bool,
    /// Also watch everything below the given folder(s).
    pub recursive: bool,
}

} // verus!
