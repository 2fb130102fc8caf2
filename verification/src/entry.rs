//! Log entries and the size of their encoding.

use std::sync::Arc;
use vstd::prelude::*;

verus! {

/// A position in the log. The first entry has index 1; index 0 stands for a fake entry of term 0.
pub type LogIndex = u64;

/// The id that a client gives to a proposal: the client's id and a sequence number.
#[derive(Clone, Copy, Debug, PartialEq, Eq, Hash, Structural)]
pub struct ProposeId(pub u64, pub u64);

impl ProposeId {
    /// Both halves of the id in one number, the client's id in the upper half.
    pub open spec fn as_key(self) -> u128 {
        (self.0 * 0x1_0000_0000_0000_0000 + self.1) as u128
    }

    /// Both halves of the id in one number, which tells any two ids apart.
    pub fn key(&self) -> (key: u128)
        ensures
            key == self.as_key(),
    {
        self.0 as u128 * 0x1_0000_0000_0000_0000u128 + self.1 as u128
    }
}

/// A command that the log replicates, with the bytes that it is encoded as.
///
/// The log hands commands on without a look at them. What it needs to know is how many bytes one
/// takes: an entry's size, by which the log is cut into batches, is the size of its encoding.
#[derive(Debug)]
pub struct Command<C> {
    /// The command
    pub command: C,
    /// Its encoding, or why it has none
    pub encoded: Result<Vec<u8>, Arc<bincode::ErrorKind>>,
}

impl<C> Command<C> {
    /// Joins a command with its encoding.
    pub fn new(command: C, encoded: Result<Vec<u8>, Arc<bincode::ErrorKind>>) -> (joined: Self)
        ensures
            joined == (Command { command, encoded }),
    {
        Command { command, encoded }
    }
}

/// Why an entry has no size.
#[derive(Debug)]
pub enum EncodeError {
    /// Its command could not be encoded, for the reason that the encoder gave
    Encoder(Arc<bincode::ErrorKind>),
    /// Its encoding would be longer than a `u64` can tell, which no body that fits into memory
    /// makes it
    TooLong,
}

/// What an entry carries. A membership change and a node's published state are carried in
/// encoded form. In the encoding of an entry the bytes of these and of a command follow the header
/// as they are.
#[derive(Debug)]
pub enum EntryData<C> {
    /// Nothing: the entry that a new leader starts its term with
    Empty,
    /// A command
    Command(Arc<Command<C>>),
    /// A membership change
    ConfChange(Arc<Vec<u8>>),
    /// The request to shut the cluster down
    Shutdown,
    /// The state that a node publishes of itself
    SetNodeState(Arc<Vec<u8>>),
}

impl<C> EntryData<C> {
    /// Whether this is a membership change.
    pub open spec fn spec_is_conf_change(&self) -> bool {
        *self is ConfChange
    }

    /// Whether this is a membership change.
    pub fn is_conf_change(&self) -> (b: bool)
        ensures
            b == self.spec_is_conf_change(),
    {
        match self {
            EntryData::ConfChange(_) => true,
            _ => false,
        }
    }

    /// The size of the encoding of an entry that carries this, or why there is none.
    pub open spec fn size(&self) -> Result<nat, EncodeError> {
        match self {
            EntryData::Empty => frame_size(0),
            EntryData::Command(command) => match command.encoded {
                Ok(bytes) => frame_size(bytes@.len()),
                Err(cause) => Err(EncodeError::Encoder(cause)),
            },
            EntryData::ConfChange(bytes) => frame_size(bytes@.len()),
            EntryData::Shutdown => frame_size(0),
            EntryData::SetNodeState(bytes) => frame_size(bytes@.len()),
        }
    }
}

impl<C> Clone for EntryData<C> {
    fn clone(&self) -> (copy: Self)
        ensures
            copy == *self,
    {
        match self {
            EntryData::Empty => EntryData::Empty,
            EntryData::Command(command) => EntryData::Command(Arc::clone(command)),
            EntryData::ConfChange(bytes) => EntryData::ConfChange(Arc::clone(bytes)),
            EntryData::Shutdown => EntryData::Shutdown,
            EntryData::SetNodeState(bytes) => EntryData::SetNodeState(Arc::clone(bytes)),
        }
    }
}

impl<C> From<Arc<Command<C>>> for EntryData<C> {
    fn from(command: Arc<Command<C>>) -> (data: Self) {
        EntryData::Command(command)
    }
}

impl<C> vstd::std_specs::convert::FromSpecImpl<Arc<Command<C>>> for EntryData<C> {
    open spec fn obeys_from_spec() -> bool {
        true
    }

    open spec fn from_spec(command: Arc<Command<C>>) -> Self {
        EntryData::Command(command)
    }
}

/// An entry of the log.
#[derive(Debug)]
pub struct LogEntry<C> {
    /// The term in which the entry was proposed
    pub term: u64,
    /// The entry's position in the log
    pub index: LogIndex,
    /// The id of the proposal
    pub propose_id: ProposeId,
    /// What the entry carries
    pub entry_data: EntryData<C>,
}

impl<C> Clone for LogEntry<C> {
    fn clone(&self) -> (copy: Self)
        ensures
            copy == *self,
    {
        LogEntry {
            term: self.term,
            index: self.index,
            propose_id: self.propose_id,
            entry_data: self.entry_data.clone(),
        }
    }
}

impl<C> LogEntry<C> {
    /// Creates an entry.
    pub fn new(
        index: LogIndex,
        term: u64,
        propose_id: ProposeId,
        entry_data: EntryData<C>,
    ) -> (entry: Self)
        ensures
            entry == (LogEntry { term, index, propose_id, entry_data }),
    {
        LogEntry { term, index, propose_id, entry_data }
    }

    /// The same entry at another position.
    pub open spec fn at(self, index: LogIndex) -> Self {
        LogEntry { index, ..self }
    }
}

/// The size of what precedes the body in an encoded entry: the term, the index and the two halves
/// of the proposal's id take 8 bytes each, and the number that tells what the body is takes 4.
pub open spec fn header_size() -> nat {
    36
}

/// The size of an encoded entry whose body takes `body_len` bytes.
pub open spec fn frame_size(body_len: nat) -> Result<nat, EncodeError> {
    if header_size() + body_len <= u64::MAX {
        Ok(header_size() + body_len)
    } else {
        Err(EncodeError::TooLong)
    }
}

impl<C> LogEntry<C> {
    /// The size of the entry's encoding, or why there is none.
    pub open spec fn size(&self) -> Result<nat, EncodeError> {
        self.entry_data.size()
    }

    /// Computes the size of the entry's encoding.
    pub fn serialized_size(&self) -> (size: Result<u64, EncodeError>)
        ensures
            match size {
                Ok(n) => self.size() == Ok::<nat, EncodeError>(n as nat),
                Err(error) => self.size() == Err::<nat, EncodeError>(error),
            },
    {
        match &self.entry_data {
            EntryData::Empty => self.framed_size(0, 0),
            EntryData::Command(command) => match &command.encoded {
                Ok(bytes) => self.framed_size(1, bytes.len()),
                Err(cause) => Err(EncodeError::Encoder(Arc::clone(cause))),
            },
            EntryData::ConfChange(bytes) => self.framed_size(2, bytes.len()),
            EntryData::Shutdown => self.framed_size(3, 0),
            EntryData::SetNodeState(bytes) => self.framed_size(4, bytes.len()),
        }
    }

    /// The size of this entry's encoding with a body of the given number and length.
    fn framed_size(&self, variant: u32, body_len: usize) -> (size: Result<u64, EncodeError>)
        ensures
            match size {
                Ok(n) => frame_size(body_len as nat) == Ok::<nat, EncodeError>(n as nat),
                Err(error) => frame_size(body_len as nat) == Err::<nat, EncodeError>(error),
            },
    {
        let header = header_serialized_size(
            self.term,
            self.index,
            self.propose_id.0,
            self.propose_id.1,
            variant,
        );
        match header {
            Ok(n) => match n.checked_add(body_len as u64) {
                Some(sum) => Ok(sum),
                None => Err(EncodeError::TooLong),
            },
            Err(cause) => Err(EncodeError::Encoder(Arc::new(*cause))),
        }
    }
}

/// The error of `bincode`, carried through without a look inside.
#[verifier::external_type_specification]
#[verifier::external_body]
pub struct ExErrorKind(bincode::ErrorKind);

/// Calls `bincode::serialized_size` on what precedes the body of an entry: the term, the index,
/// the two halves of the proposal's id, and the number that tells what the body is.
///
/// Trusted of `bincode`: its default configuration sets no limit and writes integers at their
/// fixed width, so four `u64`s take 8 bytes each and a `u32` takes 4, whatever their values, and a
/// tuple adds nothing to its parts. Counting these cannot fail.
#[verifier::external_body]
fn header_serialized_size(
    term: u64,
    index: u64,
    client: u64,
    seq_num: u64,
    variant: u32,
) -> (size: Result<u64, Box<bincode::ErrorKind>>)
    ensures
        size is Ok,
        size->Ok_0 == header_size(),
{
    bincode::serialized_size(&(term, index, (client, seq_num), variant))
}

} // verus!
