//! What travels from the acquisition side to the presentation side, and
//! what the acquisition side puts on the channel for each thing that
//! happens on the link.

use vstd::prelude::*;
use crate::message::CartainMessage;

verus! {

/// One item of the telemetry channel: a decoded message, or the news that
/// the link to the device has failed.
#[derive(Debug, PartialEq, Eq)]
pub enum Message {
    /// A message that was decoded from the stream.
    Data(CartainMessage),
    /// The link has failed; the text says how.
    SerialError(String),
}

/// What can happen on the link.
#[derive(Debug, PartialEq, Eq)]
pub enum LinkEvent {
    /// The device could not be opened; the text says why.
    OpenFailed(String),
    /// The device was opened but could not be set up; the text says why.
    SetupFailed(String),
    /// The decoder has produced a message.
    Decoded(CartainMessage),
    /// Reading from the device failed; the text says why.
    ReadFailed(String),
    /// The transport reported the end of the stream.
    Ended,
}

/// What the acquisition side does about a link event.
#[derive(Debug, PartialEq, Eq)]
pub struct Reaction {
    /// What to put on the telemetry channel, if anything.
    pub send: Option<Message>,
    /// Whether acquisition stops here.
    pub stop: bool,
}

/// Decides what the acquisition side does about `event`. Every failure of
/// the link is reported on the channel, and every message is passed on.
/// Acquisition stops only where the device could not be opened: there is
/// nothing to read from.
pub fn react(event: LinkEvent) -> (reaction: Reaction)
    ensures
        reaction == match event {
            LinkEvent::OpenFailed(e) => Reaction {
                send: Some(Message::SerialError(e)),
                stop: true,
            },
            LinkEvent::SetupFailed(e) => Reaction {
                send: Some(Message::SerialError(e)),
                stop: false,
            },
            LinkEvent::Decoded(m) => Reaction { send: Some(Message::Data(m)), stop: false },
            LinkEvent::ReadFailed(e) => Reaction {
                send: Some(Message::SerialError(e)),
                stop: false,
            },
            LinkEvent::Ended => Reaction { send: None, stop: false },
        },
{
    match event {
        LinkEvent::OpenFailed(e) => Reaction { send: Some(Message::SerialError(e)), stop: true },
        LinkEvent::SetupFailed(e) => Reaction { send: Some(Message::SerialError(e)), stop: false },
        LinkEvent::Decoded(m) => Reaction { send: Some(Message::Data(m)), stop: false },
        LinkEvent::ReadFailed(e) => Reaction { send: Some(Message::SerialError(e)), stop: false },
        LinkEvent::Ended => Reaction { send: None, stop: false },
    }
}

} // verus!
