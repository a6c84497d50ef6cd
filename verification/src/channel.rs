//! The two message channels: what to answer to whatever arrives on them.

use vstd::prelude::*;
use vstd::string::StringExecFns;
use vstd::utf8::{decode_utf8, valid_utf8};

verus! {

/// A message from a channel.
#[derive(Debug)]
pub enum ChannelMessage {
    Text(String),
    Binary(Vec<u8>),
    Ping(Vec<u8>),
    Pong(Vec<u8>),
    /// The end of the conversation, with a code and a reason where the other side gives them.
    Close(Option<(u16, String)>),
}

/// What happens on a channel.
#[derive(Debug)]
pub enum ChannelEvent {
    /// A message has arrived.
    Received(ChannelMessage),
    /// Receiving has failed.
    Failed,
    /// There will be no more messages.
    Ended,
}

/// What to do about it.
#[derive(Debug)]
pub enum ChannelAction {
    /// Send this text and go on.
    Reply(String),
    /// Report the failure and go on.
    ReportError,
    /// Leave the channel.
    Finish,
}

#[verifier::external_type_specification]
#[verifier::external_body]
pub struct ExChannelError(rocket_ws::result::Error);

/// The text in a message, if what it carries is text.
pub open spec fn message_text(message: ChannelMessage) -> Option<Seq<char>> {
    match message {
        ChannelMessage::Text(text) => Some(text@),
        ChannelMessage::Binary(bytes) | ChannelMessage::Ping(bytes) | ChannelMessage::Pong(bytes) =>
            if valid_utf8(bytes@) {
                Some(decode_utf8(bytes@))
            } else {
                None
            },
        ChannelMessage::Close(None) => Some(Seq::empty()),
        ChannelMessage::Close(Some(close)) => Some(close.1@),
    }
}

/// Calls `rocket_ws::Message::into_text`. Claimed: text comes out as it is, bytes come out decoded
/// where they are UTF-8 and are refused where they are not, and the end of a conversation comes out
/// as its reason, or as nothing.
#[verifier::external_body]
fn into_text(message: ChannelMessage) -> (text: Result<String, rocket_ws::result::Error>)
    ensures
        text is Ok <==> message_text(message) is Some,
        text matches Ok(content) ==> content@ == message_text(message)->0,
{
    let outside = match message {
        ChannelMessage::Text(text) => rocket_ws::Message::Text(text),
        ChannelMessage::Binary(bytes) => rocket_ws::Message::Binary(bytes),
        ChannelMessage::Ping(bytes) => rocket_ws::Message::Ping(bytes),
        ChannelMessage::Pong(bytes) => rocket_ws::Message::Pong(bytes),
        ChannelMessage::Close(None) => rocket_ws::Message::Close(None),
        ChannelMessage::Close(Some((code, reason))) => rocket_ws::Message::Close(
            Some(rocket_ws::frame::CloseFrame { code: code.into(), reason: reason.into() }),
        ),
    };
    outside.into_text()
}

/// The action that an event calls for: an answer repeats the text after `prefix`.
pub open spec fn action_matches(action: ChannelAction, event: ChannelEvent, prefix: Seq<char>) -> bool {
    match event {
        ChannelEvent::Received(message) => action is Reply && action->Reply_0@ == prefix
            + message_text(message)->0,
        ChannelEvent::Failed => action is ReportError,
        ChannelEvent::Ended => action is Finish,
    }
}

/// The event is not a message without text in it.
pub open spec fn has_answer(event: ChannelEvent) -> bool {
    event matches ChannelEvent::Received(message) ==> message_text(message) is Some
}

/// What a channel that answers with `prefix` does about an event; nothing where a message holds no
/// text.
fn next_action(event: ChannelEvent, prefix: &str) -> (action: Option<ChannelAction>)
    ensures
        action is Some <==> has_answer(event),
        action matches Some(taken) ==> action_matches(taken, event, prefix@),
{
    match event {
        ChannelEvent::Received(message) => match into_text(message) {
            Ok(text) => Some(ChannelAction::Reply(prefix.to_owned().concat(text.as_str()))),
            Err(_) => None,
        },
        ChannelEvent::Failed => Some(ChannelAction::ReportError),
        ChannelEvent::Ended => Some(ChannelAction::Finish),
    }
}

/// What the loro channel does about an event: it echoes the text of a message. `None` stands for
/// a message that holds no text.
pub fn loro_channel(event: ChannelEvent) -> (action: Option<ChannelAction>)
    ensures
        action is Some <==> has_answer(event),
        action matches Some(taken) ==> action_matches(taken, event, "Your loro message was: "@),
{
    next_action(event, "Your loro message was: ")
}

/// What the sync channel does about an event: it echoes the text of a message. `None` stands for
/// a message that holds no text.
pub fn sync_channel(event: ChannelEvent) -> (action: Option<ChannelAction>)
    ensures
        action is Some <==> has_answer(event),
        action matches Some(taken) ==> action_matches(taken, event, "Your sync message was: "@),
{
    next_action(event, "Your sync message was: ")
}

/// A message is answered with its text behind the words of the channel, and left without an answer
/// exactly if it is of bytes that are not text. Of a farewell the reason is the text. A failure is
/// reported, and the end is the end.
pub open spec fn echoes(event: ChannelEvent, action: Option<ChannelAction>, words: Seq<char>) -> bool {
    match event {
        ChannelEvent::Received(ChannelMessage::Text(text)) => action matches Some(
            ChannelAction::Reply(reply),
        ) && reply@ == words + text@,
        ChannelEvent::Received(ChannelMessage::Binary(bytes))
        | ChannelEvent::Received(ChannelMessage::Ping(bytes))
        | ChannelEvent::Received(ChannelMessage::Pong(bytes)) => if valid_utf8(bytes@) {
            action matches Some(ChannelAction::Reply(reply)) && reply@ == words + decode_utf8(
                bytes@,
            )
        } else {
            action is None
        },
        ChannelEvent::Received(ChannelMessage::Close(None)) => action matches Some(
            ChannelAction::Reply(reply),
        ) && reply@ == words,
        ChannelEvent::Received(ChannelMessage::Close(Some((_, reason)))) => action matches Some(
            ChannelAction::Reply(reply),
        ) && reply@ == words + reason@,
        ChannelEvent::Failed => action matches Some(ChannelAction::ReportError),
        ChannelEvent::Ended => action matches Some(ChannelAction::Finish),
    }
}

/// The loro channel echoes what it receives.
pub proof fn law_loro_channel_echoes(event: ChannelEvent, action: Option<ChannelAction>)
    requires
        call_ensures(loro_channel, (event,), action),
    ensures
        echoes(event, action, "Your loro message was: "@),
{
    let words = "Your loro message was: "@;
    assert(words + Seq::empty() =~= words);
}

/// The sync channel echoes what it receives.
pub proof fn law_sync_channel_echoes(event: ChannelEvent, action: Option<ChannelAction>)
    requires
        call_ensures(sync_channel, (event,), action),
    ensures
        echoes(event, action, "Your sync message was: "@),
{
    let words = "Your sync message was: "@;
    assert(words + Seq::empty() =~= words);
}

} // verus!
