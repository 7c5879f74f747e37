//! The connection protocol: the role a connection takes with its first
//! frame, and what each later frame asks the node to do.
use vstd::prelude::*;

use crate::codec::{is_storable, storable};
use crate::message::{Command, CommandView, Message};
use crate::store::KV;

verus! {

/// The role of one connection.
#[derive(Debug, Clone, Copy, PartialEq, Eq, Structural)]
pub enum Session {
    /// No frame other than a ping has arrived yet.
    Unidentified,
    /// A client issuing commands.
    Client,
    /// A replica that completed the handshake; the owner only writes to it.
    ReplicaSink,
    /// This node's own connection to the owner it replicates.
    Upstream,
    /// The connection broke the protocol and is to be closed.
    Closed,
}

/// One inbound frame: the literal `PING` line, or a decoded message.
#[derive(Debug)]
pub enum Frame {
    Ping,
    Message(Message),
}

/// What the node does with a frame.
#[derive(Debug, Clone, Copy, PartialEq, Eq, Structural)]
pub enum Reaction {
    /// Answer `PONG`; nothing else changes.
    Pong,
    /// Answer with the value of the command's key, or the absent marker.
    Lookup,
    /// Log the command under a new sequence number, apply it, and fan it out.
    Mutate,
    /// Log the replicated command under the owner's sequence number and apply it.
    ApplyReplicated,
    /// Register the sender as a replica and answer with a snapshot.
    AcceptReplica,
    /// Install the owner's snapshot.
    LoadSnapshot,
    /// Close the connection.
    Close,
}

/// The role after `frame` and what the node does with it.
pub open spec fn reaction_spec(session: Session, frame: &Frame) -> (Session, Reaction) {
    match frame {
        Frame::Ping => if session == Session::Closed {
            (Session::Closed, Reaction::Close)
        } else {
            (session, Reaction::Pong)
        },
        Frame::Message(message) => match (session, message) {
            (Session::Unidentified, Message::Command(c)) | (Session::Client, Message::Command(c)) => {
                if c@ is Get {
                    (Session::Client, Reaction::Lookup)
                } else if storable(c@) {
                    (Session::Client, Reaction::Mutate)
                } else {
                    (Session::Closed, Reaction::Close)
                }
            },
            (Session::Unidentified, Message::Connect(_)) => (
                Session::ReplicaSink,
                Reaction::AcceptReplica,
            ),
            (Session::Upstream, Message::ConnectOk(_)) => (Session::Upstream, Reaction::LoadSnapshot),
            (Session::Upstream, Message::ReplicationCommand(r)) => if storable(r.command@) {
                (Session::Upstream, Reaction::ApplyReplicated)
            } else {
                (Session::Closed, Reaction::Close)
            },
            _ => (Session::Closed, Reaction::Close),
        },
    }
}

/// Decides the next role of a connection and the node's reaction to one
/// frame. The first frame other than a ping fixes the role: a command makes
/// a client session, a `Connect` a replica session; a handshake frame after
/// that, a frame that does not belong to the role, a replicated `Get`, or a
/// mutation the log cannot hold closes the connection.
pub fn react(session: Session, frame: &Frame) -> (r: (Session, Reaction))
    ensures
        r == reaction_spec(session, frame),
{
    match frame {
        Frame::Ping => if session == Session::Closed {
            (Session::Closed, Reaction::Close)
        } else {
            (session, Reaction::Pong)
        },
        Frame::Message(message) => match (session, message) {
            (Session::Unidentified, Message::Command(c)) | (Session::Client, Message::Command(c)) => {
                if !c.is_mutation() {
                    (Session::Client, Reaction::Lookup)
                } else if is_storable(c) {
                    (Session::Client, Reaction::Mutate)
                } else {
                    (Session::Closed, Reaction::Close)
                }
            },
            (Session::Unidentified, Message::Connect(_)) => (
                Session::ReplicaSink,
                Reaction::AcceptReplica,
            ),
            (Session::Upstream, Message::ConnectOk(_)) => (Session::Upstream, Reaction::LoadSnapshot),
            (Session::Upstream, Message::ReplicationCommand(r)) => if is_storable(&r.command) {
                (Session::Upstream, Reaction::ApplyReplicated)
            } else {
                (Session::Closed, Reaction::Close)
            },
            _ => (Session::Closed, Reaction::Close),
        },
    }
}

/// The marker a `Get` of an absent key answers with.
pub open spec fn absent_marker() -> Seq<char> {
    seq!['_', '_', 'n', 'o', 'n', 'e', '_', '_']
}

/// The answer to a `Get` of `key`: its value, or the absent marker.
pub fn get_reply(kv: &KV, key: &String) -> (r: String)
    requires
        kv.wf(),
    ensures
        r@ == (if kv@.contains_key(key@) {
            kv@[key@]
        } else {
            absent_marker()
        }),
{
    match kv.get(key) {
        Some(value) => value.clone(),
        None => {
            proof {
                reveal_strlit("__none__");
            }
            let marker = String::from_str("__none__");
            proof {
                assert(marker@ =~= absent_marker());
            }
            marker
        },
    }
}

/// The key a command reads or writes.
pub fn command_key(command: &Command) -> (r: &String)
    ensures
        r@ == command@.key(),
{
    match command {
        Command::Put { key, .. } => key,
        Command::Delete { key } => key,
        Command::Get { key } => key,
    }
}

} // verus!
