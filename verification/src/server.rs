//! The text commands of the line-based transport.

use vstd::prelude::*;
use vstd::string::StringExecFns;

verus! {

/// A command for the broker, as the line-based transport reads it.
#[derive(Debug)]
pub enum Command {
    Produce { key: String },
    Consume { key: String },
    Topic { key: String },
    Invalid { key: String },
}

/// Reads a command from one message of the transport: the words `produce`,
/// `consume` and `topic`, each followed by a line feed, name the three
/// commands; any other message is invalid. The key of a command is its word.
pub fn parse_mesage(websocket_message: &str) -> (command: Command)
    ensures
        match command {
            Command::Produce { key } => websocket_message@ == "produce\n"@ && key@ == "produce"@,
            Command::Consume { key } => websocket_message@ == "consume\n"@ && key@ == "consume"@,
            Command::Topic { key } => websocket_message@ == "topic\n"@ && key@ == "topic"@,
            Command::Invalid { key } => {
                &&& websocket_message@ != "produce\n"@
                &&& websocket_message@ != "consume\n"@
                &&& websocket_message@ != "topic\n"@
                &&& key@ == "invalid"@
            },
        },
{
    let message = String::from_str(websocket_message);
    if message == String::from_str("produce\n") {
        Command::Produce { key: String::from_str("produce") }
    } else if message == String::from_str("consume\n") {
        Command::Consume { key: String::from_str("consume") }
    } else if message == String::from_str("topic\n") {
        Command::Topic { key: String::from_str("topic") }
    } else {
        Command::Invalid { key: String::from_str("invalid") }
    }
}

} // verus!
