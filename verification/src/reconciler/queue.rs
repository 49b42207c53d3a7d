//! The queue of deferred state changes, and the handles through which
//! components append to it.
use crate::flat_tree::NodeKey;
use std::sync::mpsc::{Receiver, Sender};
use vstd::prelude::*;

verus! {

/// A change of a component's state, asked for now and applied at the next
/// flush.
pub trait StateChange<S>: Send {
    /// What `apply` gives.
    closed spec fn spec_apply(&self, state: S) -> S {
        arbitrary()
    }

    /// The state that follows `state`.
    fn apply(&self, state: S) -> (next: S)
        ensures
            next == self.spec_apply(state),
    ;
}

/// A state change on its way to the node it is meant for.
#[verifier::reject_recursive_types(S)]
pub struct QueuedUpdate<S> {
    pub node: NodeKey,
    pub change: Box<dyn StateChange<S>>,
}

/// `std::sync::mpsc::Sender`. Nothing is stated of what a channel holds.
#[verifier::external_type_specification]
#[verifier::external_body]
#[verifier::reject_recursive_types(T)]
pub struct ExSender<T>(Sender<T>);

/// `std::sync::mpsc::Receiver`. Nothing is stated of what a channel holds.
#[verifier::external_type_specification]
#[verifier::external_body]
#[verifier::reject_recursive_types(T)]
pub struct ExReceiver<T>(Receiver<T>);

/// `std::sync::mpsc::channel`: the two ends of a new channel.
#[verifier::external_body]
fn channel<T>() -> (ends: (Sender<T>, Receiver<T>)) {
    std::sync::mpsc::channel()
}

/// `Sender::clone`: another sender on the same channel.
#[verifier::external_body]
fn clone_sender<T>(sender: &Sender<T>) -> (other: Sender<T>)
    ensures
        other == *sender,
{
    sender.clone()
}

/// `Sender::send`: hands `message` to the channel, behind what was sent
/// before. The result tells whether a receiver is still there to take it.
#[verifier::external_body]
fn send<T>(sender: &Sender<T>, message: T) -> (taken: bool) {
    sender.send(message).is_ok()
}

/// `Receiver::try_recv`: the message that has waited longest, if one
/// waits. Nothing is stated of the result: it is up to the senders.
#[verifier::external_body]
fn try_recv<T>(receiver: &Receiver<T>) -> (message: Option<T>) {
    receiver.try_recv().ok()
}

/// The sending end of the ordered queue of state changes of a tree. Every
/// handle made from a tree appends to the queue of that tree; only the tree
/// drains it.
#[verifier::reject_recursive_types(S)]
pub struct UpdateQueue<S> {
    sender: Sender<QueuedUpdate<S>>,
}

/// The receiving end of the queue of a tree.
#[verifier::reject_recursive_types(S)]
pub struct UpdateInbox<S> {
    receiver: Receiver<QueuedUpdate<S>>,
}

impl<S> UpdateQueue<S> {
    /// A queue that nothing shares yet, with its two ends.
    pub(crate) fn new() -> (ends: (UpdateQueue<S>, UpdateInbox<S>)) {
        let (sender, receiver) = channel();
        (UpdateQueue { sender }, UpdateInbox { receiver })
    }

    /// Another handle to the same queue.
    pub(crate) fn share(&self) -> (queue: UpdateQueue<S>)
        ensures
            queue == *self,
    {
        UpdateQueue { sender: clone_sender(&self.sender) }
    }

    /// Appends `update` to the queue. The result tells whether the tree of
    /// the queue is still there to apply it; where it is not, the update
    /// is dropped.
    pub fn push(&self, update: QueuedUpdate<S>) -> (taken: bool) {
        send(&self.sender, update)
    }
}

impl<S> UpdateInbox<S> {
    /// Takes out of the queue what waits in it, in the order in which it
    /// was appended. What that is, is up to the handles: whatever they
    /// have appended since the queue was last drained.
    pub(crate) fn take_all(&self) -> (updates: Vec<QueuedUpdate<S>>) {
        let mut updates: Vec<QueuedUpdate<S>> = Vec::new();
        while updates.len() < usize::MAX
            invariant
                updates.len() <= usize::MAX,
            decreases usize::MAX - updates.len(),
        {
            match try_recv(&self.receiver) {
                Some(update) => updates.push(update),
                None => {
                    break ;
                },
            }
        }
        updates
    }
}

/// The handle of a node on the queue of its tree, before it is bound to
/// the node's component.
#[verifier::reject_recursive_types(S)]
pub struct GenericStateUpdater<S> {
    pub queue: UpdateQueue<S>,
    pub node: NodeKey,
}

/// The handle through which a component asks for a change of its own
/// state. It holds the key of its node, never the node.
#[verifier::reject_recursive_types(S)]
pub struct StateUpdater<S> {
    pub queue: UpdateQueue<S>,
    pub node: NodeKey,
}

impl<S> Clone for UpdateQueue<S> {
    /// Another handle to the same queue.
    fn clone(&self) -> (queue: Self)
        ensures
            queue == *self,
    {
        self.share()
    }
}

impl<S> Clone for GenericStateUpdater<S> {
    fn clone(&self) -> (updater: Self)
        ensures
            updater == *self,
    {
        GenericStateUpdater { queue: self.queue.share(), node: self.node }
    }
}

impl<S> Clone for StateUpdater<S> {
    fn clone(&self) -> (updater: Self)
        ensures
            updater == *self,
    {
        StateUpdater { queue: self.queue.share(), node: self.node }
    }
}

impl<S> GenericStateUpdater<S> {
    /// The handle that a component sees for this one.
    pub open spec fn typed(self) -> StateUpdater<S> {
        StateUpdater { queue: self.queue, node: self.node }
    }

    /// The handle of the node at `key` on `queue`.
    pub(crate) fn new(queue: &UpdateQueue<S>, key: NodeKey) -> (updater: GenericStateUpdater<S>)
        ensures
            updater == (GenericStateUpdater { queue: *queue, node: key }),
    {
        GenericStateUpdater { queue: queue.share(), node: key }
    }

    /// The handle for the component of the node.
    pub fn specialize(&self) -> (updater: StateUpdater<S>)
        ensures
            updater == self.typed(),
    {
        StateUpdater { queue: self.queue.share(), node: self.node }
    }
}

impl<S> StateUpdater<S> {
    /// The handle without its binding to the component.
    pub fn unspecialize(&self) -> (updater: GenericStateUpdater<S>)
        ensures
            updater.typed() == *self,
    {
        GenericStateUpdater { queue: self.queue.share(), node: self.node }
    }

    /// Asks for `change` to be applied to the state of the node at the next
    /// flush. Nothing changes before that.
    pub fn set_state(&self, change: Box<dyn StateChange<S>>) {
        let _ = self.queue.push(QueuedUpdate { node: self.node, change });
    }
}

} // verus!
