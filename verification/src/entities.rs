//! The two wire entities and the error taxonomy of the client.

use vstd::prelude::*;

verus! {

/// Mathematical model of a file-content envelope: the file's name as a
/// sequence of characters and its payload as a sequence of bytes.
#[verifier::ext_equal]
pub struct EnvelopeModel {
    pub name: Seq<char>,
    pub content: Seq<u8>,
}

/// Mathematical model of one listing entry: the server-side identifier
/// and the file name.
#[verifier::ext_equal]
pub struct EntryModel {
    pub id: int,
    pub name: Seq<char>,
}

/// A file's full payload plus its name, used both when downloading
/// (server to client) and uploading (client to server).
pub struct FileContent {
    pub name: String,
    pub content: Vec<u8>,
}

impl View for FileContent {
    type V = EnvelopeModel;

    open spec fn view(&self) -> EnvelopeModel {
        EnvelopeModel { name: self.name@, content: self.content@ }
    }
}

impl FileContent {
    pub fn new(name: String, content: Vec<u8>) -> (r: Self)
        ensures
            r@ == (EnvelopeModel { name: name@, content: content@ }),
    {
        FileContent { name, content }
    }
}

/// One file known to the server, as returned by the listing operation.
pub struct FileEntity {
    pub id: i32,
    pub name: String,
}

impl View for FileEntity {
    type V = EntryModel;

    open spec fn view(&self) -> EntryModel {
        EntryModel { id: self.id as int, name: self.name@ }
    }
}

impl FileEntity {
    pub fn new(id: i32, name: String) -> (r: Self)
        ensures
            r@ == (EntryModel { id: id as int, name: name@ }),
    {
        FileEntity { id, name }
    }
}

/// A server response that is not well-formed wire text for the
/// requested shape, or is missing a required field.
#[derive(Clone, Copy, PartialEq, Eq, Structural, Debug)]
pub struct DecodeError;

/// The three failure kinds a single operation can hit.
#[derive(Clone, Copy, PartialEq, Eq, Structural, Debug)]
pub enum OpError {
    /// Network or connection failure while talking to the server.
    Transport,
    /// Malformed or incomplete server response.
    Decode,
    /// File read, write or create failure on the client side.
    LocalIo,
}

pub open spec fn spec_exit_code(e: OpError) -> int {
    match e {
        OpError::Transport => 2,
        OpError::Decode => 3,
        OpError::LocalIo => 4,
    }
}

impl OpError {
    /// The process exit code for this failure kind; each kind maps to a
    /// distinct non-zero code, so callers can tell failures apart.
    pub fn exit_code(&self) -> (r: i32)
        ensures
            r as int == spec_exit_code(*self),
            r != 0,
    {
        match self {
            OpError::Transport => 2,
            OpError::Decode => 3,
            OpError::LocalIo => 4,
        }
    }
}

} // verus!
