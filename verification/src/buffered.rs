//! A channel that carries values in batches: a sender gathers values until
//! its buffer holds `max_buffer_size` of them and then hands the whole
//! buffer over at once; a receiver takes the batches apart and gives the
//! values out one by one, first in, first out. The channel itself (its
//! queue and its waiting) is the caller's: these types decide what is sent
//! and what is given out.
use vstd::prelude::*;

verus! {

/// The sending side: the values gathered since the last batch.
pub struct BufferedSender<T> {
    pub buffer: Vec<T>,
    pub max_buffer_size: usize,
}

/// The receiving side: the values of the batches received and not yet
/// given out.
pub struct BufferedReceiver<T> {
    pub buffer: Vec<T>,
}

/// A batch, or nothing to send.
pub open spec fn batch_seq<T>(batch: Option<Vec<T>>) -> Seq<T> {
    match batch {
        Some(b) => b@,
        None => Seq::empty(),
    }
}

/// One value sent to a sender holding `buffer`: the batch handed out, if
/// the buffer is full, and what stays buffered.
pub open spec fn send_step<T>(buffer: Seq<T>, max_buffer_size: usize, value: T) -> (Option<Seq<T>>, Seq<T>) {
    let b = buffer.push(value);
    if b.len() >= max_buffer_size {
        (Some(b), Seq::empty())
    } else {
        (None, b)
    }
}

/// One receive by a receiver holding `buffer`, once `batch` arrived: the
/// value given out, if any, and what stays buffered.
pub open spec fn recv_step<T>(buffer: Seq<T>, batch: Seq<T>) -> (Option<T>, Seq<T>) {
    let all = buffer + batch;
    if all.len() == 0 {
        (None, all)
    } else {
        (Some(all[0]), all.drop_first())
    }
}

/// The batch handed out, if any, as a sequence.
pub open spec fn batch_view<T>(batch: Option<Vec<T>>) -> Option<Seq<T>> {
    match batch {
        Some(b) => Some(b@),
        None => None,
    }
}

/// A fresh sender with room for `max_buffer_size` values, sent `values`
/// one by one: the batches it handed out, in order, and what it still
/// buffers.
pub open spec fn sender_after<T>(max_buffer_size: usize, values: Seq<T>) -> (Seq<Seq<T>>, Seq<T>)
    decreases values.len(),
{
    if values.len() == 0 {
        (Seq::empty(), Seq::empty())
    } else {
        let (batches, buffer) = sender_after(max_buffer_size, values.drop_last());
        match send_step(buffer, max_buffer_size, values.last()).0 {
            Some(b) => (batches.push(b), send_step(buffer, max_buffer_size, values.last()).1),
            None => (batches, send_step(buffer, max_buffer_size, values.last()).1),
        }
    }
}

/// A fresh receiver, given `batches` one per receive: the values it gave
/// out, in order, and what it still buffers.
pub open spec fn receiver_after<T>(batches: Seq<Seq<T>>) -> (Seq<T>, Seq<T>)
    decreases batches.len(),
{
    if batches.len() == 0 {
        (Seq::empty(), Seq::empty())
    } else {
        let (outs, buffer) = receiver_after(batches.drop_last());
        match recv_step(buffer, batches.last()).0 {
            Some(v) => (outs.push(v), recv_step(buffer, batches.last()).1),
            None => (outs, recv_step(buffer, batches.last()).1),
        }
    }
}

/// A sender loses no value and changes no order: the batches it handed
/// out, then what it still buffers, are the values sent.
pub proof fn law_sender_keeps_order<T>(max_buffer_size: usize, values: Seq<T>)
    ensures
        sender_after(max_buffer_size, values).0.flatten() + sender_after(max_buffer_size, values).1 == values,
    decreases values.len(),
{
    if values.len() > 0 {
        let prefix = values.drop_last();
        law_sender_keeps_order(max_buffer_size, prefix);
        let (batches, buffer) = sender_after(max_buffer_size, prefix);
        let v = values.last();
        assert(prefix.push(v) =~= values);
        match send_step(buffer, max_buffer_size, v).0 {
            Some(b) => {
                batches.lemma_flatten_push(b);
                assert(batches.push(b).flatten() + Seq::<T>::empty() =~= values);
            },
            None => {
                assert(batches.flatten() + buffer.push(v) =~= (batches.flatten() + buffer).push(v));
            },
        }
    }
}

/// A receiver loses no value and changes no order: the values it gave out,
/// then what it still buffers, are the batches it was given, joined.
pub proof fn law_receiver_keeps_order<T>(batches: Seq<Seq<T>>)
    ensures
        receiver_after(batches).0 + receiver_after(batches).1 == batches.flatten(),
    decreases batches.len(),
{
    if batches.len() > 0 {
        let prefix = batches.drop_last();
        law_receiver_keeps_order(prefix);
        let (outs, buffer) = receiver_after(prefix);
        let b = batches.last();
        assert(prefix.push(b) =~= batches);
        prefix.lemma_flatten_push(b);
        let all = buffer + b;
        if all.len() > 0 {
            assert(outs.push(all[0]) + all.drop_first() =~= outs + all);
        }
        assert(outs + all =~= (outs + buffer) + b);
    }
}

/// Through a buffered channel, values come out in the order they were
/// sent and none is lost: when the receiver is given the sender's batches
/// in order, what it gave out, then what it still buffers, then what the
/// sender still buffers, are the values sent.
pub proof fn law_channel_keeps_order<T>(max_buffer_size: usize, values: Seq<T>)
    ensures
        receiver_after(sender_after(max_buffer_size, values).0).0 + receiver_after(
            sender_after(max_buffer_size, values).0,
        ).1 + sender_after(max_buffer_size, values).1 == values,
{
    law_sender_keeps_order(max_buffer_size, values);
    law_receiver_keeps_order(sender_after(max_buffer_size, values).0);
}

impl<T> BufferedSender<T> {
    pub fn new(max_buffer_size: usize) -> (s: BufferedSender<T>)
        ensures
            s.buffer@ == Seq::<T>::empty(),
            s.max_buffer_size == max_buffer_size,
    {
        BufferedSender { buffer: Vec::new(), max_buffer_size }
    }

    /// Another sender on the same channel: the same batch size, a buffer of
    /// its own.
    pub fn new_handle(&self) -> (s: BufferedSender<T>)
        ensures
            s.buffer@ == Seq::<T>::empty(),
            s.max_buffer_size == self.max_buffer_size,
    {
        BufferedSender::new(self.max_buffer_size)
    }

    /// Takes the buffer, leaving an empty one.
    fn take_buffer(&mut self) -> (b: Vec<T>)
        ensures
            b@ == old(self).buffer@,
            final(self).buffer@ == Seq::<T>::empty(),
            final(self).max_buffer_size == old(self).max_buffer_size,
    {
        let mut b: Vec<T> = Vec::new();
        std::mem::swap(&mut b, &mut self.buffer);
        b
    }

    /// Adds `value` to the buffer. Once the buffer holds `max_buffer_size`
    /// values or more, the whole of it is handed out as a batch to send and
    /// the buffer starts empty. Nothing is lost or reordered: the batch
    /// followed by what stays buffered is what was buffered, then `value`.
    pub fn send(&mut self, value: T) -> (batch: Option<Vec<T>>)
        requires
            old(self).buffer@.len() < usize::MAX,
        ensures
            final(self).max_buffer_size == old(self).max_buffer_size,
            (batch_view(batch), final(self).buffer@) == send_step(old(self).buffer@, old(self).max_buffer_size, value),
            batch is Some <==> old(self).buffer@.len() + 1 >= old(self).max_buffer_size,
            batch is Some ==> final(self).buffer@ == Seq::<T>::empty(),
            batch_seq(batch) + final(self).buffer@ == old(self).buffer@.push(value),
    {
        self.buffer.push(value);
        if self.buffer.len() >= self.max_buffer_size {
            let b = self.take_buffer();
            proof {
                assert(b@ + Seq::<T>::empty() =~= b@);
            }
            Some(b)
        } else {
            proof {
                assert(Seq::<T>::empty() + self.buffer@ =~= self.buffer@);
            }
            None
        }
    }

    /// Hands out whatever is buffered as a batch, possibly empty.
    pub fn flush(&mut self) -> (batch: Vec<T>)
        ensures
            batch@ == old(self).buffer@,
            final(self).buffer@ == Seq::<T>::empty(),
            final(self).max_buffer_size == old(self).max_buffer_size,
    {
        self.take_buffer()
    }
}

impl<T> BufferedReceiver<T> {
    pub fn new() -> (r: BufferedReceiver<T>)
        ensures
            r.buffer@ == Seq::<T>::empty(),
    {
        BufferedReceiver { buffer: Vec::new() }
    }

    /// What a receive gives out once the channel answered with `batch`
    /// (`None` when every sender is gone): the batch joins the end of the
    /// buffer and the first buffered value comes out; `None` when nothing
    /// is buffered.
    pub fn recv(&mut self, batch: Option<Vec<T>>) -> (r: Option<T>)
        ensures
            (r, final(self).buffer@) == recv_step(old(self).buffer@, batch_seq(batch)),
            (old(self).buffer@ + batch_seq(batch)).len() == 0 ==> {
                &&& r is None
                &&& final(self).buffer@ == Seq::<T>::empty()
            },
            (old(self).buffer@ + batch_seq(batch)).len() > 0 ==> {
                &&& r == Some((old(self).buffer@ + batch_seq(batch))[0])
                &&& final(self).buffer@ == (old(self).buffer@ + batch_seq(batch)).drop_first()
            },
    {
        let ghost all = old(self).buffer@ + batch_seq(batch);
        match batch {
            Some(b) => {
                let mut b = b;
                self.buffer.append(&mut b);
            },
            None => {},
        }
        proof {
            assert(self.buffer@ =~= all);
        }
        if self.buffer.len() == 0 {
            None
        } else {
            let v = self.buffer.remove(0);
            proof {
                assert(self.buffer@ =~= all.drop_first());
            }
            Some(v)
        }
    }
}

/// A sender and a receiver for batches of at most `max_buffer_size` values.
pub fn buffered_channel<T>(max_buffer_size: usize) -> (c: (BufferedSender<T>, BufferedReceiver<T>))
    ensures
        c.0.buffer@ == Seq::<T>::empty(),
        c.0.max_buffer_size == max_buffer_size,
        c.1.buffer@ == Seq::<T>::empty(),
{
    (BufferedSender::new(max_buffer_size), BufferedReceiver::new())
}

} // verus!
