//! The messages that a conversation is sent, as far as a wakeup reads them.

use vstd::prelude::*;

verus! {

/// What a user message holds.
pub enum UserContent {
    /// Plain text.
    Text(String),
    /// Anything else, as its debug rendering.
    Other(String),
}

/// A message of a conversation.
pub enum Message {
    /// A message from the user.
    User(UserContent),
    /// A message from anyone else, as its debug rendering.
    Other(String),
}

impl Message {
    /// The text that a wakeup shows of the message.
    pub open spec fn rendered(self) -> Seq<char> {
        match self {
            Message::User(UserContent::Text(text)) => text@,
            Message::User(UserContent::Other(rendering)) => rendering@,
            Message::Other(rendering) => rendering@,
        }
    }
}

/// The texts that a wakeup shows of a list of messages.
pub open spec fn rendered_all(s: Seq<Message>) -> Seq<Seq<char>> {
    s.map_values(|m: Message| m.rendered())
}

/// The text that a wakeup shows of a message.
pub fn render_message_text(message: &Message) -> (r: String)
    ensures
        r@ == message.rendered(),
{
    match message {
        Message::User(content) => match content {
            UserContent::Text(text) => text.clone(),
            UserContent::Other(rendering) => rendering.clone(),
        },
        Message::Other(rendering) => rendering.clone(),
    }
}

/// A wakeup shows of each message, in turn, the text of a user's plain text and
/// the rendering of anything else.
pub proof fn law_messages_are_shown_in_turn(s: Seq<Message>)
    ensures
        rendered_all(s).len() == s.len(),
        forall|i: int|
            0 <= i < s.len() ==> #[trigger] rendered_all(s)[i] == (match s[i] {
                Message::User(UserContent::Text(text)) => text@,
                Message::User(UserContent::Other(rendering)) => rendering@,
                Message::Other(rendering) => rendering@,
            }),
{
}

} // verus!
