use vstd::prelude::*;
use crate::token::Packet;

verus! {

/// The reorder buffer in mathematical form: the position wanted next, and
/// the tokens that arrived ahead of it, by position.
pub struct ReorderModel<T> {
    pub next: nat,
    pub pending: Map<nat, Option<T>>,
}

/// What the ordered iterator makes of its buffer.
pub enum Polled<T> {
    /// The result for the wanted position.
    Ready(T),
    /// The worker for the wanted position failed: a fatal signal.
    Failed(usize),
    /// The wanted position has not arrived yet: another token is needed.
    Wait,
}

/// Taking the wanted position out of the buffer, if it is there. A failure
/// at the wanted position is final: it stays where it is, with the counter,
/// so every later poll reports it again and nothing after it comes out.
pub open spec fn poll_spec<T>(m: ReorderModel<T>) -> (ReorderModel<T>, Polled<T>) {
    if m.pending.contains_key(m.next) {
        match m.pending[m.next] {
            Some(v) => (
                ReorderModel { next: m.next + 1, pending: m.pending.remove(m.next) },
                Polled::Ready(v),
            ),
            None => (m, Polled::Failed(m.next as usize)),
        }
    } else {
        (m, Polled::Wait)
    }
}

/// Buffering one received token.
pub open spec fn push_spec<T>(m: ReorderModel<T>, p: Packet<T>) -> ReorderModel<T> {
    ReorderModel { next: m.next, pending: m.pending.insert(p.idx as nat, p.data) }
}

/// No buffered position lies below the one wanted next.
pub open spec fn pending_above<T>(m: ReorderModel<T>) -> bool {
    forall|i: nat| #[trigger] m.pending.contains_key(i) ==> m.next <= i
}

/// Whether some token in `q` is for position `i`.
pub open spec fn holds<T>(q: Seq<Packet<T>>, i: nat) -> bool {
    exists|j: int| 0 <= j < q.len() && q[j].idx == i
}

pub open spec fn distinct_indices<T>(q: Seq<Packet<T>>) -> bool {
    forall|a: int, b: int|
        0 <= a < q.len() && 0 <= b < q.len() && a != b ==> q[a].idx != q[b].idx
}

/// The tokens of `q` by position.
pub open spec fn pending_of<T>(q: Seq<Packet<T>>) -> Map<nat, Option<T>> {
    Map::new(
        |i: nat| holds(q, i),
        |i: nat| q[choose|j: int| 0 <= j < q.len() && q[j].idx == i].data,
    )
}

proof fn lemma_pending_push<T>(q: Seq<Packet<T>>, p: Packet<T>)
    requires
        distinct_indices(q),
        !holds(q, p.idx as nat),
    ensures
        distinct_indices(q.push(p)),
        pending_of(q.push(p)) == pending_of(q).insert(p.idx as nat, p.data),
{
    let q2 = q.push(p);
    assert(distinct_indices(q2)) by {
        assert forall|a: int, b: int|
            0 <= a < q2.len() && 0 <= b < q2.len() && a != b implies q2[a].idx != q2[b].idx by {
            if a == q.len() {
                assert(q[b].idx == q2[b].idx);
            } else if b == q.len() {
                assert(q[a].idx == q2[a].idx);
            }
        }
    }
    assert forall|i: nat| #[trigger] holds(q2, i) == (holds(q, i) || i == p.idx) by {
        if holds(q, i) {
            let j = choose|j: int| 0 <= j < q.len() && q[j].idx == i;
            assert(q2[j].idx == i);
        }
        if i == p.idx {
            assert(q2[q.len() as int].idx == i);
        }
        if holds(q2, i) && i != p.idx {
            let j = choose|j: int| 0 <= j < q2.len() && q2[j].idx == i;
            assert(q[j].idx == i);
        }
    }
    assert forall|i: nat| #[trigger] pending_of(q2).contains_key(i)
        implies pending_of(q2)[i] == pending_of(q).insert(p.idx as nat, p.data)[i] by {
        let j2 = choose|j: int| 0 <= j < q2.len() && q2[j].idx == i;
        if i == p.idx {
            assert(q2[q.len() as int].idx == i);
        } else {
            let j = choose|j: int| 0 <= j < q.len() && q[j].idx == i;
            assert(q2[j].idx == i);
        }
    }
    assert(pending_of(q2) =~= pending_of(q).insert(p.idx as nat, p.data));
}

proof fn lemma_pending_remove<T>(q: Seq<Packet<T>>, r: int)
    requires
        distinct_indices(q),
        0 <= r < q.len(),
    ensures
        distinct_indices(q.remove(r)),
        pending_of(q).contains_key(q[r].idx as nat),
        pending_of(q)[q[r].idx as nat] == q[r].data,
        pending_of(q.remove(r)) == pending_of(q).remove(q[r].idx as nat),
{
    let q2 = q.remove(r);
    let k = q[r].idx as nat;
    assert(holds(q, k));
    assert(distinct_indices(q2)) by {
        assert forall|a: int, b: int|
            0 <= a < q2.len() && 0 <= b < q2.len() && a != b implies q2[a].idx != q2[b].idx by {
            let a1 = if a < r { a } else { a + 1 };
            let b1 = if b < r { b } else { b + 1 };
            assert(q2[a] == q[a1] && q2[b] == q[b1]);
        }
    }
    assert forall|i: nat| #[trigger] holds(q2, i) == (holds(q, i) && i != k) by {
        if holds(q, i) && i != k {
            let j = choose|j: int| 0 <= j < q.len() && q[j].idx == i;
            let j2 = if j < r { j } else { j - 1 };
            assert(q2[j2] == q[j]);
        }
        if holds(q2, i) {
            let j2 = choose|j: int| 0 <= j < q2.len() && q2[j].idx == i;
            let j = if j2 < r { j2 } else { j2 + 1 };
            assert(q2[j2] == q[j]);
        }
    }
    assert forall|i: nat| #[trigger] pending_of(q2).contains_key(i)
        implies pending_of(q2)[i] == pending_of(q)[i] by {
        let j2 = choose|j: int| 0 <= j < q2.len() && q2[j].idx == i;
        let j = if j2 < r { j2 } else { j2 + 1 };
        assert(q2[j2] == q[j]);
    }
    assert(pending_of(q2) =~= pending_of(q).remove(k));
}

/// The reorder buffer of the ordered iterator: the position wanted next and
/// the tokens that arrived ahead of it.
pub struct Reorder<T> {
    looking_for: usize,
    queue: Vec<Packet<T>>,
}

impl<T> View for Reorder<T> {
    type V = ReorderModel<T>;

    closed spec fn view(&self) -> ReorderModel<T> {
        ReorderModel { next: self.looking_for as nat, pending: pending_of(self.queue@) }
    }
}

impl<T> Reorder<T> {
    /// Each buffered position is unique, not yet released, and leaves room
    /// for the counter to move past it.
    pub closed spec fn wf(&self) -> bool {
        &&& distinct_indices(self.queue@)
        &&& forall|j: int|
            0 <= j < self.queue@.len() ==> self.looking_for <= #[trigger] self.queue@[j].idx
                < usize::MAX
    }

    /// An empty buffer that wants position zero.
    pub fn new() -> (r: Reorder<T>)
        ensures
            r.wf(),
            r@.next == 0,
            r@.pending == Map::<nat, Option<T>>::empty(),
            pending_above(r@),
    {
        let r = Reorder { looking_for: 0, queue: Vec::new() };
        assert(pending_of(r.queue@) =~= Map::<nat, Option<T>>::empty());
        proof {
            r.lemma_above();
        }
        r
    }

    /// The position wanted next.
    pub fn looking_for(&self) -> (r: usize)
        ensures
            r == self@.next,
    {
        self.looking_for
    }

    /// How many tokens wait in the buffer.
    pub fn buffered(&self) -> (r: usize)
        requires
            self.wf(),
        ensures
            r == self@.pending.len(),
    {
        proof {
            self.lemma_len();
        }
        self.queue.len()
    }

    proof fn lemma_len(&self)
        requires
            self.wf(),
        ensures
            self@.pending.dom().finite(),
            self@.pending.len() == self.queue@.len(),
    {
        let q = self.queue@;
        let s = q.map_values(|p: Packet<T>| p.idx as nat);
        assert forall|i: nat| #[trigger] s.to_set().contains(i) == self@.pending.dom().contains(i) by {
            if holds(q, i) {
                let j = choose|j: int| 0 <= j < q.len() && q[j].idx == i;
                assert(s[j] == i);
            }
            if s.contains(i) {
                let j = choose|j: int| 0 <= j < s.len() && s[j] == i;
                assert(q[j].idx == i);
            }
        }
        assert(self@.pending.dom() =~= s.to_set());
        assert forall|a: int, b: int| 0 <= a < s.len() && 0 <= b < s.len() && a != b
            implies s[a] != s[b] by {
            assert(q[a].idx != q[b].idx);
        }
        assert(s.no_duplicates());
        s.unique_seq_to_set();
    }

    /// Whether a token for `idx` may be buffered: its position has not been
    /// released or buffered yet, and the counter can move past it.
    pub fn accepts(&self, idx: usize) -> (r: bool)
        requires
            self.wf(),
        ensures
            r == (self@.next <= idx < usize::MAX && !self@.pending.contains_key(idx as nat)),
    {
        if idx < self.looking_for || idx == usize::MAX {
            return false;
        }
        let mut i: usize = 0;
        while i < self.queue.len()
            invariant
                0 <= i <= self.queue@.len(),
                forall|j: int| 0 <= j < i ==> self.queue@[j].idx != idx,
            decreases self.queue@.len() - i,
        {
            if self.queue[i].idx == idx {
                assert(holds(self.queue@, idx as nat));
                return false;
            }
            i += 1;
        }
        true
    }

    /// Buffers a received token.
    pub fn push(&mut self, p: Packet<T>)
        requires
            old(self).wf(),
            old(self)@.next <= p.idx < usize::MAX,
            !old(self)@.pending.contains_key(p.idx as nat),
        ensures
            final(self).wf(),
            final(self)@ == push_spec(old(self)@, p),
            pending_above(final(self)@),
    {
        proof {
            lemma_pending_push(self.queue@, p);
        }
        self.queue.push(p);
        proof {
            self.lemma_above();
        }
    }

    /// Releases the wanted position if its token is buffered, and moves the
    /// counter past it; reports the failure if its token is a failure one,
    /// leaving buffer and counter as they are, so that every later call
    /// reports it again; asks for another token otherwise.
    pub fn poll(&mut self) -> (r: Polled<T>)
        requires
            old(self).wf(),
        ensures
            final(self).wf(),
            (final(self)@, r) == poll_spec(old(self)@),
            pending_above(final(self)@),
    {
        proof {
            self.lemma_above();
        }
        let mut i: usize = 0;
        while i < self.queue.len()
            invariant
                self.wf(),
                self@ == old(self)@,
                pending_above(self@),
                0 <= i <= self.queue@.len(),
                forall|j: int| 0 <= j < i ==> self.queue@[j].idx != self.looking_for,
            decreases self.queue@.len() - i,
        {
            if self.queue[i].idx == self.looking_for {
                proof {
                    lemma_pending_remove(self.queue@, i as int);
                }
                if self.queue[i].data.is_none() {
                    return Polled::Failed(self.looking_for);
                }
                let p = self.queue.remove(i);
                self.looking_for = self.looking_for + 1;
                proof {
                    self.lemma_above();
                }
                return match p.data {
                    Some(v) => Polled::Ready(v),
                    None => Polled::Failed(p.idx),
                };
            }
            i += 1;
        }
        Polled::Wait
    }

    proof fn lemma_above(&self)
        requires
            self.wf(),
        ensures
            pending_above(self@),
    {
        assert forall|i: nat| #[trigger] self@.pending.contains_key(i) implies self@.next <= i by {
            let j = choose|j: int| 0 <= j < self.queue@.len() && self.queue@[j].idx == i;
            assert(self.looking_for <= self.queue@[j].idx);
        }
    }
}

} // verus!
