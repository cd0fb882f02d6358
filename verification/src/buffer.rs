//! The bounded sample window: a sequence that forgets its oldest element when
//! it is full.

use vstd::prelude::*;

verus! {

/// What a window holding `window` becomes when `element` arrives and at most
/// `capacity` elements may be kept: with a capacity of zero the arrival is
/// dropped and the window stays as it is; a window that holds `capacity`
/// elements or more gives up its oldest element first.
pub open spec fn lossy_push<T>(window: Seq<T>, element: T, capacity: nat) -> Seq<T> {
    if capacity == 0 {
        window
    } else if window.len() >= capacity {
        window.drop_first().push(element)
    } else {
        window.push(element)
    }
}

/// The window that results from pushing every element of `arrivals`, in
/// order, into an empty window of the given capacity.
pub open spec fn pushed_all<T>(arrivals: Seq<T>, capacity: nat) -> Seq<T>
    decreases arrivals.len(),
{
    if arrivals.len() == 0 {
        Seq::empty()
    } else {
        lossy_push(pushed_all(arrivals.drop_last(), capacity), arrivals.last(), capacity)
    }
}

/// The number of elements a window of the given capacity holds after `pushes`
/// arrivals.
pub open spec fn retained(pushes: nat, capacity: nat) -> nat {
    if pushes <= capacity {
        pushes
    } else {
        capacity
    }
}

/// A window never grows past its capacity: pushing into a window that
/// respects the capacity yields one that respects it too.
pub proof fn lemma_push_keeps_bound<T>(window: Seq<T>, element: T, capacity: nat)
    requires
        window.len() <= capacity,
    ensures
        lossy_push(window, element, capacity).len() <= capacity,
        lossy_push(window, element, capacity).len() == retained(window.len() + 1, capacity),
{
}

/// After any run of pushes into an empty window, the window holds exactly the
/// most recent arrivals, as many as fit, in arrival order.
pub proof fn lemma_window_is_recent_suffix<T>(arrivals: Seq<T>, capacity: nat)
    ensures
        pushed_all(arrivals, capacity).len() == retained(arrivals.len(), capacity),
        pushed_all(arrivals, capacity).len() <= capacity,
        pushed_all(arrivals, capacity) == arrivals.subrange(
            arrivals.len() - retained(arrivals.len(), capacity),
            arrivals.len() as int,
        ),
    decreases arrivals.len(),
{
    let kept = retained(arrivals.len(), capacity);
    let suffix = arrivals.subrange(arrivals.len() - kept, arrivals.len() as int);
    if arrivals.len() == 0 {
        assert(pushed_all(arrivals, capacity) =~= suffix);
    } else {
        let earlier = arrivals.drop_last();
        lemma_window_is_recent_suffix(earlier, capacity);
        assert(pushed_all(arrivals, capacity) =~= suffix);
    }
}

/// Arrivals that all carry one value leave a window of that value alone, as
/// long as the number of arrivals or the capacity, whichever is smaller.
pub proof fn lemma_uniform_arrivals<T>(arrivals: Seq<T>, capacity: nat, value: T)
    requires
        forall|i: int| 0 <= i < arrivals.len() ==> arrivals[i] == value,
    ensures
        pushed_all(arrivals, capacity) == Seq::new(
            retained(arrivals.len(), capacity),
            |i: int| value,
        ),
{
    lemma_window_is_recent_suffix(arrivals, capacity);
    assert(pushed_all(arrivals, capacity) =~= Seq::new(
        retained(arrivals.len(), capacity),
        |i: int| value,
    ));
}

/// Bounded insertion for sequence-like containers.
pub trait PushLossy<T> {
    /// The elements held, oldest first.
    spec fn samples(&self) -> Seq<T>;

    /// Appends `element`, evicting the oldest element first when
    /// `window_size` elements or more are already held; with a `window_size`
    /// of zero the element is dropped and nothing else changes.
    fn push_lossy(&mut self, element: T, window_size: usize)
        ensures
            final(self).samples() == lossy_push(old(self).samples(), element, window_size as nat),
    ;
}

impl<T> PushLossy<T> for Vec<T> {
    open spec fn samples(&self) -> Seq<T> {
        self@
    }

    fn push_lossy(&mut self, element: T, window_size: usize) {
        if window_size == 0 {
            return ;
        }
        if self.len() >= window_size {
            self.remove(0);
        }
        self.push(element);
        proof {
            assert(final(self)@ =~= lossy_push(old(self)@, element, window_size as nat));
        }
    }
}

} // verus!
