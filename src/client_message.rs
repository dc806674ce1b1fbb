use vstd::prelude::*;

verus! {

/// Login request: the name that the session takes from now on.
#[derive(Clone, Debug, PartialEq, Eq)]
pub struct Login {
    pub name: String,
}

/// Join a topic (room flavour).
#[derive(Clone, Debug, PartialEq, Eq)]
pub struct JoinRoom {}

/// Join a topic (direct-user flavour).
#[derive(Clone, Debug, PartialEq, Eq)]
pub struct JoinUser {}

/// Create a topic; behaves as a join.
#[derive(Clone, Debug, PartialEq, Eq)]
pub struct CreateRoom {}

/// Leave a topic (room flavour).
#[derive(Clone, Debug, PartialEq, Eq)]
pub struct LeaveRoom {}

/// Leave a topic (direct-user flavour).
#[derive(Clone, Debug, PartialEq, Eq)]
pub struct LeaveUser {}

/// The command carried by a client envelope.
#[derive(Clone, Debug, PartialEq, Eq)]
pub enum Message {
    Login(Login),
    JoinRoom(JoinRoom),
    JoinUser(JoinUser),
    CreateRoom(CreateRoom),
    LeaveRoom(LeaveRoom),
    LeaveUser(LeaveUser),
    SendMessage(String),
}

/// Mathematical model of a command.
pub enum Command {
    Login(Seq<char>),
    JoinRoom,
    JoinUser,
    CreateRoom,
    LeaveRoom,
    LeaveUser,
    SendMessage(Seq<char>),
}

impl View for Message {
    type V = Command;

    open spec fn view(&self) -> Command {
        match self {
            Message::Login(l) => Command::Login(l.name@),
            Message::JoinRoom(_) => Command::JoinRoom,
            Message::JoinUser(_) => Command::JoinUser,
            Message::CreateRoom(_) => Command::CreateRoom,
            Message::LeaveRoom(_) => Command::LeaveRoom,
            Message::LeaveUser(_) => Command::LeaveUser,
            Message::SendMessage(t) => Command::SendMessage(t@),
        }
    }
}

} // verus!
