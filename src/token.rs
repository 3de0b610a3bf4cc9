use vstd::prelude::*;

verus! {

/// A sequencer token: the position of the input element a worker was given,
/// and the worker's result, absent when the worker did not finish normally.
pub struct Packet<T> {
    pub idx: usize,
    pub data: Option<T>,
}

impl<T> Packet<T> {
    /// The token a worker sends after computing `value` for element `idx`.
    pub fn success(idx: usize, value: T) -> (r: Packet<T>)
        ensures
            r.idx == idx,
            r.data == Some(value),
    {
        Packet { idx, data: Some(value) }
    }

    /// The token that stands for a worker that terminated abnormally.
    pub fn failure(idx: usize) -> (r: Packet<T>)
        ensures
            r.idx == idx,
            r.data.is_none(),
    {
        Packet { idx, data: None }
    }

    pub fn is_failure(&self) -> (r: bool)
        ensures
            r == self.data.is_none(),
    {
        self.data.is_none()
    }
}

/// What the unordered iterator makes of one receive from the fan-in channel.
pub enum Received<T> {
    /// A worker's result, with the position of its input element.
    Item(usize, T),
    /// The worker for this position failed: a fatal signal, not the end.
    Failed(usize),
    /// The channel closed: every token has been consumed.
    Closed,
}

pub open spec fn received_of<T>(recv: Option<Packet<T>>) -> Received<T> {
    match recv {
        Some(p) => match p.data {
            Some(v) => Received::Item(p.idx, v),
            None => Received::Failed(p.idx),
        },
        None => Received::Closed,
    }
}

/// One step of the unordered iterator: `recv` is what the channel handed
/// over, `None` once it has closed.
pub fn unordered_step<T>(recv: Option<Packet<T>>) -> (r: Received<T>)
    ensures
        r == received_of(recv),
{
    match recv {
        Some(p) => match p.data {
            Some(v) => Received::Item(p.idx, v),
            None => Received::Failed(p.idx),
        },
        None => Received::Closed,
    }
}

/// The completion guard of one worker. It is created before the mapped
/// function runs; `finish` marks it done and gives the success token, and
/// `on_exit`, run on every exit path, gives the failure token exactly when
/// `finish` was never reached.
pub struct Completion {
    pub idx: usize,
    pub all_ok: bool,
}

impl Completion {
    pub fn new(idx: usize) -> (r: Completion)
        ensures
            r.idx == idx,
            !r.all_ok,
    {
        Completion { idx, all_ok: false }
    }

    /// Marks the worker as done and builds its success token.
    pub fn finish<T>(&mut self, value: T) -> (r: Packet<T>)
        ensures
            final(self).idx == old(self).idx,
            final(self).all_ok,
            r.idx == old(self).idx,
            r.data == Some(value),
    {
        self.all_ok = true;
        Packet::success(self.idx, value)
    }

    /// The token to send when the worker exits: none after `finish`, the
    /// failure token for this worker's position otherwise.
    pub fn on_exit<T>(&self) -> (r: Option<Packet<T>>)
        ensures
            self.all_ok ==> r.is_none(),
            !self.all_ok ==> r.is_some() && r->Some_0.idx == self.idx && r->Some_0.data.is_none(),
    {
        if self.all_ok {
            None
        } else {
            Some(Packet::failure(self.idx))
        }
    }
}

} // verus!
