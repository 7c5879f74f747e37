//! The frames that travel between clients, owners and replicas.
use vstd::prelude::*;

verus! {

/// A client operation on one key.
#[derive(Debug, Clone)]
pub enum Command {
    Put { key: String, value: String },
    Delete { key: String },
    Get { key: String },
}

/// The mathematical value of a [`Command`]: its strings as character sequences.
pub enum CommandView {
    Put { key: Seq<char>, value: Seq<char> },
    Delete { key: Seq<char> },
    Get { key: Seq<char> },
}

impl CommandView {
    /// The key the operation is about.
    pub open spec fn key(self) -> Seq<char> {
        match self {
            CommandView::Put { key, .. } => key,
            CommandView::Delete { key } => key,
            CommandView::Get { key } => key,
        }
    }

    /// Whether the operation changes the store (and so is logged and replicated).
    pub open spec fn is_mutation(self) -> bool {
        !(self is Get)
    }
}

impl View for Command {
    type V = CommandView;

    open spec fn view(&self) -> CommandView {
        match self {
            Command::Put { key, value } => CommandView::Put { key: key@, value: value@ },
            Command::Delete { key } => CommandView::Delete { key: key@ },
            Command::Get { key } => CommandView::Get { key: key@ },
        }
    }
}

impl Command {
    /// Whether the command changes the store.
    pub fn is_mutation(&self) -> (r: bool)
        ensures
            r == self@.is_mutation(),
    {
        match self {
            Command::Get { .. } => false,
            _ => true,
        }
    }
}

/// The handshake a replica sends to the owner it follows.
#[derive(Debug)]
pub struct Connect {
    pub from: String,
}

/// The owner's answer to [`Connect`]: every key and value it holds.
#[derive(Debug, Clone)]
pub struct ConnectOk {
    pub map: Vec<(String, String)>,
}

/// One mutation streamed from an owner to a replica, with the owner's sequence number.
#[derive(Debug)]
pub struct ReplicationCommand {
    pub command: Command,
    pub sequence: usize,
}

/// A decoded frame of the wire protocol.
#[derive(Debug)]
pub enum Message {
    Command(Command),
    ReplicationCommand(ReplicationCommand),
    Connect(Connect),
    ConnectOk(ConnectOk),
}

/// A storage node as the coordination service knows it.
#[derive(Debug)]
pub struct Node {
    pub node_id: u8,
    pub address: String,
}

} // verus!
