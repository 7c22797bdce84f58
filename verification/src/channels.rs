//! Trusted boundary to tokio's broadcast and watch channels, the transport of
//! the core's signals. Delivery depends on the subscribers, so nothing is
//! promised of the outcomes.

use vstd::prelude::*;

verus! {

#[verifier::external_type_specification]
#[verifier::external_body]
#[verifier::reject_recursive_types(T)]
pub struct ExBroadcastSender<T>(tokio::sync::broadcast::Sender<T>);

#[verifier::external_type_specification]
#[verifier::external_body]
#[verifier::reject_recursive_types(T)]
pub struct ExBroadcastReceiver<T>(tokio::sync::broadcast::Receiver<T>);

#[verifier::external_type_specification]
#[verifier::external_body]
#[verifier::reject_recursive_types(T)]
pub struct ExWatchSender<T>(tokio::sync::watch::Sender<T>);

#[verifier::external_type_specification]
#[verifier::external_body]
#[verifier::reject_recursive_types(T)]
pub struct ExWatchReceiver<T>(tokio::sync::watch::Receiver<T>);

/// Relies on tokio's broadcast::channel; it panics on a capacity of zero or
/// above `usize::MAX / 2`.
#[verifier::external_body]
pub fn broadcast_channel<T: Clone>(capacity: usize) -> (r: (
    tokio::sync::broadcast::Sender<T>,
    tokio::sync::broadcast::Receiver<T>,
))
    requires
        1 <= capacity <= usize::MAX / 2,
{
    tokio::sync::broadcast::channel(capacity)
}

/// Relies on tokio's broadcast::Sender::send: whether any receiver could be
/// reached depends on the subscribers.
#[verifier::external_body]
pub fn broadcast_send_ok<T>(s: &tokio::sync::broadcast::Sender<T>, value: T) -> (r: bool) {
    s.send(value).is_ok()
}

/// Relies on tokio's broadcast::Sender::subscribe.
#[verifier::external_body]
pub fn broadcast_subscribe<T>(s: &tokio::sync::broadcast::Sender<T>) -> (r:
    tokio::sync::broadcast::Receiver<T>) {
    s.subscribe()
}

/// Relies on tokio's broadcast::Sender::clone.
#[verifier::external_body]
pub fn broadcast_sender_clone<T>(s: &tokio::sync::broadcast::Sender<T>) -> (r:
    tokio::sync::broadcast::Sender<T>) {
    s.clone()
}

/// Relies on tokio's watch::channel.
#[verifier::external_body]
pub fn watch_channel<T>(init: T) -> (r: (
    tokio::sync::watch::Sender<T>,
    tokio::sync::watch::Receiver<T>,
)) {
    tokio::sync::watch::channel(init)
}

/// Relies on tokio's watch::Sender::send_replace: stores the latest value.
#[verifier::external_body]
pub fn watch_send_replace<T>(s: &tokio::sync::watch::Sender<T>, value: T) {
    let _ = s.send_replace(value);
}

/// Relies on tokio's watch::Sender::send: fails only when every receiver is
/// gone, which depends on the subscribers.
#[verifier::external_body]
pub fn watch_send<T>(s: &tokio::sync::watch::Sender<T>, value: T) -> (r: Result<(), ()>) {
    match s.send(value) {
        Ok(()) => Ok(()),
        Err(_) => Err(()),
    }
}

/// Relies on tokio's watch::Receiver::clone.
#[verifier::external_body]
pub fn watch_receiver_clone<T>(r0: &tokio::sync::watch::Receiver<T>) -> (r:
    tokio::sync::watch::Receiver<T>) {
    r0.clone()
}

} // verus!
