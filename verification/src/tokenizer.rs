use vstd::prelude::*;

verus! {

/// The tokens of the tokenizer.
#[derive(Debug, Copy, Clone, PartialEq, Eq, Structural)]
pub enum Token {
    Eof,
}

/// A chunk did not fit in the buffer: what the buffer held is handed back.
#[derive(Debug)]
pub struct BufferCapacityExceededError {
    pub unprocessed_buffer: Vec<u8>,
}

/// Buffers the input up to a fixed capacity.
#[derive(Debug)]
pub struct Tokenizer {
    buffer: Vec<u8>,
    buffer_capacity: usize,
    buffer_watermark: usize,
}

impl Tokenizer {
    /// The bytes buffered.
    pub closed spec fn buffered(&self) -> Seq<u8> {
        self.buffer@.take(self.buffer_watermark as int)
    }

    /// The capacity of the buffer.
    pub closed spec fn capacity(&self) -> usize {
        self.buffer_capacity
    }

    /// The buffer holds exactly the bytes written, within the capacity.
    pub closed spec fn inv(&self) -> bool {
        &&& self.buffer_watermark == self.buffer@.len()
        &&& self.buffer_watermark <= self.buffer_capacity
    }

    /// A tokenizer whose buffer holds at most `buffer_capacity` bytes.
    pub fn new(buffer_capacity: usize) -> (r: Tokenizer)
        ensures
            r.inv(),
            r.buffered() == Seq::<u8>::empty(),
            r.capacity() == buffer_capacity,
    {
        let r = Tokenizer { buffer: Vec::new(), buffer_capacity, buffer_watermark: 0 };
        proof {
            assert(r.buffered() =~= Seq::<u8>::empty());
        }
        r
    }

    /// Adds a chunk to the buffer where it fits; otherwise fails, handing back what
    /// the buffer holds, and keeps the buffer as it was.
    pub fn write(&mut self, chunk: Vec<u8>) -> (r: Result<(), BufferCapacityExceededError>)
        requires
            old(self).inv(),
        ensures
            final(self).inv(),
            final(self).capacity() == old(self).capacity(),
            match r {
                Ok(()) => old(self).buffered().len() + chunk@.len() <= old(self).capacity() && final(self).buffered()
                    == old(self).buffered() + chunk@,
                Err(e) => old(self).buffered().len() + chunk@.len() > old(self).capacity() && e.unprocessed_buffer@
                    == old(self).buffered() && final(self).buffered() == old(self).buffered(),
            },
    {
        let chunk_len = chunk.len();
        proof {
            assert(self.buffer@.take(self.buffer_watermark as int) =~= self.buffer@);
        }
        if chunk_len > self.buffer_capacity - self.buffer_watermark {
            return Err(
                BufferCapacityExceededError {
                    unprocessed_buffer: vstd::slice::slice_to_vec(
                        vstd::slice::slice_subrange(self.buffer.as_slice(), 0, self.buffer_watermark),
                    ),
                },
            );
        }
        let new_watermark = self.buffer_watermark + chunk_len;
        let mut chunk = chunk;
        self.buffer.append(&mut chunk);
        self.buffer_watermark = new_watermark;
        proof {
            assert(self.buffer@.take(self.buffer_watermark as int) =~= self.buffer@);
        }
        Ok(())
    }

    /// The data state, the tokenizer's starting state; it reads nothing yet.
    pub fn data_state(&mut self)
        ensures
            *final(self) == *old(self),
    {
    }
}

} // verus!
