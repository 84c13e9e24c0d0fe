use vstd::prelude::*;

verus! {

/// What the command line asks for.
#[derive(Debug)]
pub enum Commands {
    /// Hides `message` in a new chunk of type `chunk_type` at the end of the file.
    Encode { filepath: String, chunk_type: String, message: String },
    /// Shows the text of the first chunk of type `chunk_type`.
    Decode { filepath: String, chunk_type: String },
    /// Takes the first chunk of type `chunk_type` out of the file.
    Remove { filepath: String, chunk_type: String },
    /// Lists the chunks of the file.
    Print { filepath: String },
}

/// The parsed command line.
#[derive(Debug)]
pub struct Args {
    pub command: Commands,
}

} // verus!
