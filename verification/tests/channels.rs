use idirfein_server::channel::{
    loro_channel, sync_channel, ChannelAction, ChannelEvent, ChannelMessage,
};

fn reply(action: Option<ChannelAction>) -> Option<String> {
    match action {
        Some(ChannelAction::Reply(text)) => Some(text),
        _ => None,
    }
}

fn received(message: ChannelMessage) -> ChannelEvent {
    ChannelEvent::Received(message)
}

#[test]
fn loro_messages_are_echoed() {
    let event = received(ChannelMessage::Text("héllo".to_string()));
    assert_eq!(reply(loro_channel(event)).as_deref(), Some("Your loro message was: héllo"));
}

#[test]
fn sync_messages_are_echoed() {
    let event = received(ChannelMessage::Text("hello".to_string()));
    assert_eq!(reply(sync_channel(event)).as_deref(), Some("Your sync message was: hello"));
}

#[test]
fn bytes_are_echoed_as_text() {
    let bytes = "héllo".as_bytes().to_vec();
    for message in [
        ChannelMessage::Binary(bytes.clone()),
        ChannelMessage::Ping(bytes.clone()),
        ChannelMessage::Pong(bytes.clone()),
    ] {
        assert_eq!(
            reply(sync_channel(received(message))).as_deref(),
            Some("Your sync message was: héllo")
        );
    }
    let event = received(ChannelMessage::Binary(Vec::new()));
    assert_eq!(reply(loro_channel(event)).as_deref(), Some("Your loro message was: "));
}

#[test]
fn the_reason_for_closing_is_echoed() {
    let event = received(ChannelMessage::Close(Some((1000, "bye".to_string()))));
    assert_eq!(reply(loro_channel(event)).as_deref(), Some("Your loro message was: bye"));
    let event = received(ChannelMessage::Close(None));
    assert_eq!(reply(loro_channel(event)).as_deref(), Some("Your loro message was: "));
}

#[test]
fn bytes_that_are_no_text_have_no_answer() {
    for bytes in [vec![0xff], vec![0xc3], vec![0xed, 0xa0, 0x80], vec![b'a', 0x80]] {
        assert!(sync_channel(received(ChannelMessage::Binary(bytes.clone()))).is_none());
        assert!(loro_channel(received(ChannelMessage::Pong(bytes))).is_none());
    }
}

#[test]
fn failures_are_reported_and_the_end_is_the_end() {
    assert!(matches!(loro_channel(ChannelEvent::Failed), Some(ChannelAction::ReportError)));
    assert!(matches!(sync_channel(ChannelEvent::Failed), Some(ChannelAction::ReportError)));
    assert!(matches!(loro_channel(ChannelEvent::Ended), Some(ChannelAction::Finish)));
    assert!(matches!(sync_channel(ChannelEvent::Ended), Some(ChannelAction::Finish)));
}
