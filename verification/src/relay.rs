//! Event relay: the in-process fan-out between the connection and its
//! consumers.
//!
//! A single producer publishes every inbound frame to the bus; any number
//! of consumers subscribe and each receives every frame published after
//! its subscription, in exact publish order, with no coalescing and no
//! dropping.  There is no replay buffer: a consumer that subscribes late
//! has irrevocably missed earlier frames — its queue starts empty.
//! Consumers poll their pending frames with `drain`.

use vstd::prelude::*;

use crate::codec;
use crate::codec::bytes_seq_view;

verus! {

/// One registered consumer: its handle and its pending frames.
#[derive(Debug)]
struct Subscriber {
    id: usize,
    queue: Vec<Vec<u8>>,
}

/// The position of a handle among the current handles, if subscribed.
pub open spec fn handle_index(hs: Seq<int>, h: int) -> Option<int>
    decreases hs.len(),
{
    if hs.len() == 0 {
        None
    } else if hs[0] == h {
        Some(0)
    } else {
        match handle_index(hs.drop_first(), h) {
            Some(i) => Some(1 + i),
            None => None,
        }
    }
}

/// A handle sitting first unmatched among distinct handles is found at
/// its position.
proof fn lemma_handle_index_found(hs: Seq<int>, h: int, k: int)
    requires
        0 <= k < hs.len(),
        forall|j: int| 0 <= j < k ==> hs[j] != h,
        hs[k] == h,
    ensures
        handle_index(hs, h) == Some(k),
    decreases k,
{
    if k == 0 {
    } else {
        assert(hs[0] != h);
        assert(forall|j: int| 0 <= j < k - 1 ==> hs.drop_first()[j] == hs[j + 1]);
        assert(hs.drop_first()[k - 1] == hs[k]);
        lemma_handle_index_found(hs.drop_first(), h, k - 1);
    }
}

/// A handle matching no current handle is not found.
proof fn lemma_handle_index_none(hs: Seq<int>, h: int)
    requires
        forall|j: int| 0 <= j < hs.len() ==> hs[j] != h,
    ensures
        handle_index(hs, h) is None,
    decreases hs.len(),
{
    if hs.len() > 0 {
        assert(forall|j: int| 0 <= j < hs.len() - 1 ==> hs.drop_first()[j] == hs[j + 1]);
        lemma_handle_index_none(hs.drop_first(), h);
    }
}

/// The fan-out bus.
#[derive(Debug)]
pub struct EventBus {
    subs: Vec<Subscriber>,
    next_id: usize,
}

impl EventBus {
    /// The handles of the current subscribers, in subscription order.
    pub closed spec fn handles(&self) -> Seq<int> {
        self.subs@.map_values(|s: Subscriber| s.id as int)
    }

    /// The pending frames of each subscriber, oldest first, indexed as
    /// `handles` is.
    pub closed spec fn queues(&self) -> Seq<Seq<Seq<u8>>> {
        self.subs@.map_values(|s: Subscriber| bytes_seq_view(s.queue@))
    }

    /// Whether one more fresh handle can still be handed out.
    pub closed spec fn can_subscribe(&self) -> bool {
        self.next_id < usize::MAX
    }

    /// Well-formedness: handles grow strictly, so no two subscribers
    /// share one, and all sit below the next handle to hand out.
    pub closed spec fn wf(&self) -> bool {
        &&& forall|i: int, j: int|
            0 <= i < j < self.handles().len() ==> self.handles()[i] < self.handles()[j]
        &&& forall|i: int| 0 <= i < self.handles().len() ==> self.handles()[i] < self.next_id
    }

    /// A bus with no subscribers.
    pub fn new() -> (r: EventBus)
        ensures
            r.wf(),
            r.can_subscribe(),
            r.handles() == Seq::<int>::empty(),
            r.queues() == Seq::<Seq<Seq<u8>>>::empty(),
    {
        let r = EventBus { subs: Vec::new(), next_id: 0 };
        proof {
            assert(r.handles() =~= Seq::<int>::empty());
            assert(r.queues() =~= Seq::<Seq<Seq<u8>>>::empty());
        }
        r
    }

    /// Registers a consumer: a fresh handle, never held by any current
    /// subscriber, with an empty queue — frames published before the
    /// subscription are never delivered to it.  Handles count up, so a
    /// bus can hand out at most `usize::MAX` of them over its lifetime;
    /// `can_subscribe` says one is still left.
    pub fn subscribe(&mut self) -> (h: usize)
        requires
            old(self).wf(),
            old(self).can_subscribe(),
        ensures
            final(self).wf(),
            final(self).handles() == old(self).handles().push(h as int),
            final(self).queues() == old(self).queues().push(Seq::<Seq<u8>>::empty()),
            forall|i: int|
                0 <= i < old(self).handles().len() ==> old(self).handles()[i] != h as int,
    {
        let h = self.next_id;
        self.next_id = self.next_id + 1;
        self.subs.push(Subscriber { id: h, queue: Vec::new() });
        proof {
            assert(self.subs@.last().queue@ =~= Seq::<Vec<u8>>::empty());
            assert(bytes_seq_view(self.subs@.last().queue@) =~= Seq::<Seq<u8>>::empty());
            assert(self.handles() =~= old(self).handles().push(h as int));
            assert(self.queues() =~= old(self).queues().push(Seq::<Seq<u8>>::empty()));
            let hs = self.handles();
            let n = old(self).handles().len() as int;
            assert forall|i: int, j: int| 0 <= i < j < hs.len() implies hs[i] < hs[j] by {
                if j == n {
                    assert(hs[i] == old(self).handles()[i]);
                    assert(old(self).handles()[i] < h as int);
                } else {
                    assert(hs[i] == old(self).handles()[i]);
                    assert(hs[j] == old(self).handles()[j]);
                }
            }
            assert forall|i: int| 0 <= i < hs.len() implies hs[i] < self.next_id by {
                if i < n {
                    assert(hs[i] == old(self).handles()[i]);
                }
            }
        }
        h
    }

    /// Publishes one frame: it is appended to the pending queue of every
    /// current subscriber, in publish order; subscribers and handles are
    /// untouched.  With no subscribers the frame is simply gone.
    #[verifier::loop_isolation(false)]
    pub fn publish(&mut self, frame: &Vec<u8>)
        requires
            old(self).wf(),
        ensures
            final(self).wf(),
            final(self).can_subscribe() == old(self).can_subscribe(),
            final(self).handles() == old(self).handles(),
            final(self).queues().len() == old(self).queues().len(),
            forall|i: int|
                0 <= i < old(self).queues().len() ==> final(self).queues()[i] == old(
                    self,
                ).queues()[i].push(frame@),
    {
        let ghost subs0: Seq<Subscriber> = self.subs@;
        let mut updated: Vec<Subscriber> = Vec::new();
        proof {
            assert(self.subs@ =~= subs0.skip(0));
        }
        while self.subs.len() > 0
            invariant
                self.next_id == old(self).next_id,
                updated@.len() + self.subs@.len() == subs0.len(),
                self.subs@ == subs0.skip(updated@.len() as int),
                forall|i: int|
                    0 <= i < updated@.len() ==> updated@[i].id == subs0[i].id && bytes_seq_view(
                        updated@[i].queue@,
                    ) == bytes_seq_view(subs0[i].queue@).push(frame@),
            decreases self.subs@.len(),
        {
            let ghost k: int = updated@.len() as int;
            let mut s = self.subs.remove(0);
            proof {
                assert(s == subs0.skip(k)[0]);
                assert(subs0.skip(k)[0] == subs0[k]);
                assert(subs0.skip(k).remove(0) =~= subs0.skip(k + 1));
            }
            let ghost q0: Seq<Vec<u8>> = s.queue@;
            let c = codec::clone_bytes(frame);
            s.queue.push(c);
            updated.push(s);
            proof {
                assert(bytes_seq_view(q0.push(c)) =~= bytes_seq_view(q0).push(c@));
            }
        }
        self.subs = updated;
        proof {
            assert(subs0.skip(updated@.len() as int).len() == 0);
            assert(updated@.len() == subs0.len());
            assert(self.handles() =~= old(self).handles());
            assert(self.queues().len() == old(self).queues().len());
            assert forall|i: int| 0 <= i < old(self).queues().len() implies self.queues()[i]
                == old(self).queues()[i].push(frame@) by {
                assert(self.queues()[i] == bytes_seq_view(updated@[i].queue@));
                assert(old(self).queues()[i] == bytes_seq_view(subs0[i].queue@));
            }
            let hs = self.handles();
            assert forall|i: int, j: int| 0 <= i < j < hs.len() implies hs[i] < hs[j] by {
                assert(old(self).handles()[i] < old(self).handles()[j]);
            }
            assert forall|i: int| 0 <= i < hs.len() implies hs[i] < self.next_id by {
                assert(old(self).handles()[i] < old(self).next_id);
            }
        }
    }

    /// Takes the pending frames of a subscriber, oldest first, leaving
    /// its queue empty; `None` for a handle that is not subscribed.
    #[verifier::loop_isolation(false)]
    pub fn drain(&mut self, h: usize) -> (r: Option<Vec<Vec<u8>>>)
        requires
            old(self).wf(),
        ensures
            final(self).wf(),
            final(self).can_subscribe() == old(self).can_subscribe(),
            final(self).handles() == old(self).handles(),
            match handle_index(old(self).handles(), h as int) {
                Some(ix) => {
                    &&& match r {
                        Some(q) => bytes_seq_view(q@) == old(self).queues()[ix],
                        None => false,
                    }
                    &&& final(self).queues() == old(self).queues().update(
                        ix,
                        Seq::<Seq<u8>>::empty(),
                    )
                },
                None => r is None && final(self).queues() == old(self).queues(),
            },
    {
        let ghost hs: Seq<int> = self.handles();
        let mut k: usize = 0;
        while k < self.subs.len()
            invariant
                k <= self.subs@.len(),
                hs == self.handles(),
                hs.len() == self.subs@.len(),
                *self == *old(self),
                forall|j: int| 0 <= j < k ==> hs[j] != h as int,
            decreases self.subs@.len() - k,
        {
            let hit = self.subs[k].id == h;
            proof {
                assert(hs[k as int] == self.subs@[k as int].id as int);
            }
            if hit {
                proof {
                    lemma_handle_index_found(hs, h as int, k as int);
                }
                let mut s = self.subs.remove(k);
                let q = s.queue;
                s.queue = Vec::new();
                let ghost s2: Subscriber = s;
                self.subs.insert(k, s);
                proof {
                    assert(s2.queue@ =~= Seq::<Vec<u8>>::empty());
                    assert(bytes_seq_view(s2.queue@) =~= Seq::<Seq<u8>>::empty());
                    assert(self.subs@ =~= old(self).subs@.update(k as int, s2));
                    assert(self.handles() =~= old(self).handles());
                    assert(self.queues() =~= old(self).queues().update(
                        k as int,
                        Seq::<Seq<u8>>::empty(),
                    ));
                    let nhs = self.handles();
                    assert forall|i: int, j: int| 0 <= i < j < nhs.len() implies nhs[i]
                        < nhs[j] by {
                        assert(old(self).handles()[i] < old(self).handles()[j]);
                    }
                    assert forall|i: int| 0 <= i < nhs.len() implies nhs[i] < self.next_id by {
                        assert(old(self).handles()[i] < old(self).next_id);
                    }
                }
                return Some(q);
            }
            k = k + 1;
        }
        proof {
            lemma_handle_index_none(hs, h as int);
        }
        None
    }

    /// Removes a subscription at teardown: later frames are no longer
    /// delivered to it, and its pending frames are discarded.  Returns
    /// whether the handle was subscribed.
    #[verifier::loop_isolation(false)]
    pub fn unsubscribe(&mut self, h: usize) -> (r: bool)
        requires
            old(self).wf(),
        ensures
            final(self).wf(),
            final(self).can_subscribe() == old(self).can_subscribe(),
            match handle_index(old(self).handles(), h as int) {
                Some(ix) => {
                    &&& r
                    &&& final(self).handles() == old(self).handles().remove(ix)
                    &&& final(self).queues() == old(self).queues().remove(ix)
                },
                None => {
                    &&& !r
                    &&& final(self).handles() == old(self).handles()
                    &&& final(self).queues() == old(self).queues()
                },
            },
    {
        let ghost hs: Seq<int> = self.handles();
        let mut k: usize = 0;
        while k < self.subs.len()
            invariant
                k <= self.subs@.len(),
                hs == self.handles(),
                hs.len() == self.subs@.len(),
                *self == *old(self),
                forall|j: int| 0 <= j < k ==> hs[j] != h as int,
            decreases self.subs@.len() - k,
        {
            let hit = self.subs[k].id == h;
            proof {
                assert(hs[k as int] == self.subs@[k as int].id as int);
            }
            if hit {
                proof {
                    lemma_handle_index_found(hs, h as int, k as int);
                }
                let _removed = self.subs.remove(k);
                proof {
                    assert(self.handles() =~= old(self).handles().remove(k as int));
                    assert(self.queues() =~= old(self).queues().remove(k as int));
                    let nhs = self.handles();
                    assert forall|i: int, j: int| 0 <= i < j < nhs.len() implies nhs[i]
                        < nhs[j] by {
                        let i0: int = if i < k { i } else { i + 1 };
                        let j0: int = if j < k { j } else { j + 1 };
                        assert(nhs[i] == old(self).handles()[i0]);
                        assert(nhs[j] == old(self).handles()[j0]);
                        assert(old(self).handles()[i0] < old(self).handles()[j0]);
                    }
                    assert forall|i: int| 0 <= i < nhs.len() implies nhs[i] < self.next_id by {
                        let i0: int = if i < k { i } else { i + 1 };
                        assert(nhs[i] == old(self).handles()[i0]);
                        assert(old(self).handles()[i0] < old(self).next_id);
                    }
                }
                return true;
            }
            k = k + 1;
        }
        proof {
            lemma_handle_index_none(hs, h as int);
        }
        false
    }
}

} // verus!
