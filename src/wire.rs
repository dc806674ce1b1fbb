use vstd::prelude::*;

use crate::client_message::{Command, Message};

verus! {

/// Envelope sent by a client: the topic it addresses and the command.
#[derive(Clone, Debug, PartialEq, Eq)]
pub struct ClientMessage {
    pub topic: String,
    pub message: Option<Message>,
}

/// Envelope sent to a client: a message published on a topic, stamped with
/// the topic's sequence number.
#[derive(Clone, Debug, PartialEq, Eq)]
pub struct ServerMessage {
    pub topic: String,
    pub sequence: u64,
    pub message: Option<String>,
}

/// Mathematical model of a client envelope.
pub struct ClientEnvelope {
    pub topic: Seq<char>,
    pub command: Option<Command>,
}

/// Mathematical model of a server envelope.
pub struct ServerEnvelope {
    pub topic: Seq<char>,
    pub sequence: nat,
    pub message: Option<Seq<char>>,
}

impl View for ClientMessage {
    type V = ClientEnvelope;

    open spec fn view(&self) -> ClientEnvelope {
        ClientEnvelope {
            topic: self.topic@,
            command: match self.message {
                Some(m) => Some(m@),
                None => None,
            },
        }
    }
}

impl View for ServerMessage {
    type V = ServerEnvelope;

    open spec fn view(&self) -> ServerEnvelope {
        ServerEnvelope {
            topic: self.topic@,
            sequence: self.sequence as nat,
            message: match self.message {
                Some(m) => Some(m@),
                None => None,
            },
        }
    }
}

impl ClientMessage {
    /// The text of a `SendMessage` command, if that is what this envelope carries.
    pub fn get_message_string(&self) -> (r: Option<String>)
        ensures
            match self@.command {
                Some(Command::SendMessage(t)) => r is Some && r->Some_0@ == t,
                _ => r is None,
            },
    {
        if let Some(Message::SendMessage(msg)) = &self.message {
            return Some(msg.clone());
        }
        None
    }
}

} // verus!
