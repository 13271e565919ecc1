//! An unbounded queue shared by any number of senders and receivers.

use std::collections::VecDeque;
use std::sync::{Arc, Mutex, MutexGuard};
use vstd::prelude::*;

verus! {

/// `std::sync::Mutex`, which vstd does not specify. Nothing is claimed of
/// what a mutex holds: other threads may change it between any two calls.
#[verifier::external_type_specification]
#[verifier::external_body]
#[verifier::reject_recursive_types(T)]
pub struct ExMutex<T: ?Sized>(Mutex<T>);

/// `std::sync::MutexGuard`: the right to use what a locked mutex holds.
#[verifier::external_type_specification]
#[verifier::external_body]
#[verifier::reject_recursive_types(T)]
pub struct ExMutexGuard<'a, T: ?Sized + 'a>(MutexGuard<'a, T>);

/// Puts `queue` behind a mutex with `Mutex::new`.
#[verifier::external_body]
fn guarded<T>(queue: VecDeque<T>) -> Mutex<VecDeque<T>> {
    Mutex::new(queue)
}

/// Locks the queue with `Mutex::lock`. Where another thread panicked while
/// it held the lock, the queue is taken over as that thread left it.
#[verifier::external_body]
fn lock<'a, T>(queue: &'a Mutex<VecDeque<T>>) -> MutexGuard<'a, VecDeque<T>> {
    queue.lock().unwrap_or_else(|poisoned| poisoned.into_inner())
}

/// Appends `item` to the locked queue with `VecDeque::push_back`, reached
/// through the guard.
#[verifier::external_body]
fn push_held<T>(guard: &mut MutexGuard<'_, VecDeque<T>>, item: T) {
    guard.push_back(item)
}

/// Takes the first item out of the locked queue with `VecDeque::pop_front`,
/// reached through the guard.
#[verifier::external_body]
fn pop_held<T>(guard: &mut MutexGuard<'_, VecDeque<T>>) -> Option<T> {
    guard.pop_front()
}

/// The sending half of a queue.
#[verifier::reject_recursive_types(T)]
pub struct Sender<T> {
    tx: Arc<Mutex<VecDeque<T>>>,
}

/// The receiving half of a queue.
#[verifier::reject_recursive_types(T)]
pub struct Receiver<T> {
    rx: Arc<Mutex<VecDeque<T>>>,
}

impl<T> Sender<T> {
    /// The queue that this half sends to.
    pub closed spec fn queue(self) -> Mutex<VecDeque<T>> {
        *self.tx
    }

    /// Appends `t` to the queue. Never waits for room: the queue has no
    /// bound.
    pub fn send(&self, t: T) {
        let mut guard = lock(&*self.tx);
        push_held(&mut guard, t)
    }
}

impl<T> Receiver<T> {
    /// The queue that this half receives from.
    pub closed spec fn queue(self) -> Mutex<VecDeque<T>> {
        *self.rx
    }

    /// Takes the oldest item out of the queue; `None` where the queue is
    /// empty at that moment.
    pub fn receive(&self) -> Option<T> {
        let mut guard = lock(&*self.rx);
        pop_held(&mut guard)
    }
}

impl<T> Clone for Sender<T> {
    fn clone(&self) -> Self {
        Sender { tx: self.tx.clone() }
    }
}

impl<T> Clone for Receiver<T> {
    fn clone(&self) -> Self {
        Receiver { rx: self.rx.clone() }
    }
}

/// A new empty queue, as its two halves: what the sender sends goes to the
/// queue that the receiver receives from.
pub fn channel<T>() -> (halves: (Sender<T>, Receiver<T>))
    ensures
        halves.0.queue() == halves.1.queue(),
{
    let queue = Arc::new(guarded(VecDeque::new()));
    (Sender { tx: queue.clone() }, Receiver { rx: queue })
}

} // verus!
