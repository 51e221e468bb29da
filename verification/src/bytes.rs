use vstd::prelude::*;

verus! {

/// Error raised by an input byte queue when fewer bytes remain than requested.
#[derive(Copy, Clone, Debug, PartialEq, Eq, Structural)]
pub enum InputByteQueueError {
    NoBytes,
}

/// An ordered, consumable source of bytes. Bytes are taken strictly in order,
/// front to back; the view is the sequence of bytes that remain.
pub struct InputByteQueue {
    buf: Vec<u8>,
    pos: usize,
}

impl View for InputByteQueue {
    type V = Seq<u8>;

    closed spec fn view(&self) -> Seq<u8> {
        self.buf@.skip(self.pos as int)
    }
}

impl InputByteQueue {
    #[verifier::type_invariant]
    closed spec fn inv(&self) -> bool {
        self.pos <= self.buf@.len()
    }

    /// A queue holding exactly the given bytes.
    pub fn new(bytes: Vec<u8>) -> (q: InputByteQueue)
        ensures
            q@ == bytes@,
    {
        let q = InputByteQueue { buf: bytes, pos: 0 };
        proof {
            assert(q@ =~= q.buf@);
        }
        q
    }

    /// How many bytes remain.
    pub fn available(&self) -> (n: usize)
        ensures
            n == self@.len(),
    {
        proof {
            use_type_invariant(&*self);
        }
        self.buf.len() - self.pos
    }

    /// Whether at least `n` bytes remain.
    pub fn is_available(&self, n: usize) -> (b: bool)
        ensures
            b == (self@.len() >= n),
    {
        self.available() >= n
    }

    /// Take the next byte, failing if none remains.
    pub fn take_byte(&mut self) -> (r: Result<u8, InputByteQueueError>)
        ensures
            old(self)@.len() == 0 ==> r == Err::<u8, InputByteQueueError>(
                InputByteQueueError::NoBytes,
            ) && final(self)@ == old(self)@,
            old(self)@.len() > 0 ==> r == Ok::<u8, InputByteQueueError>(old(self)@[0])
                && final(self)@ == old(self)@.skip(1),
    {
        proof {
            use_type_invariant(&*self);
        }
        if self.pos < self.buf.len() {
            let b = self.buf[self.pos];
            self.pos = self.pos + 1;
            proof {
                assert(self@ =~= old(self)@.skip(1));
            }
            Ok(b)
        } else {
            Err(InputByteQueueError::NoBytes)
        }
    }

    /// Take exactly `n` bytes, failing (and consuming nothing) if fewer remain.
    pub fn take_bytes(&mut self, n: usize) -> (r: Result<Vec<u8>, InputByteQueueError>)
        ensures
            old(self)@.len() >= n ==> (r matches Ok(v) && v@ == old(self)@.take(n as int))
                && final(self)@ == old(self)@.skip(n as int),
            old(self)@.len() < n ==> r == Err::<Vec<u8>, InputByteQueueError>(
                InputByteQueueError::NoBytes,
            ) && final(self)@ == old(self)@,
    {
        proof {
            use_type_invariant(&*self);
        }
        if n <= self.buf.len() - self.pos {
            let mut out: Vec<u8> = Vec::new();
            let mut i: usize = 0;
            while i < n
                invariant
                    i <= n,
                    self == old(self),
                    self.pos + n <= self.buf@.len(),
                    self.pos + n <= usize::MAX,
                    out@ =~= self.buf@.subrange(self.pos as int, self.pos + i),
                decreases n - i,
            {
                let b = self.buf[self.pos + i];
                out.push(b);
                i = i + 1;
            }
            self.pos = self.pos + n;
            proof {
                assert(out@ =~= old(self)@.take(n as int));
                assert(self@ =~= old(self)@.skip(n as int));
            }
            Ok(out)
        } else {
            Err(InputByteQueueError::NoBytes)
        }
    }
}

/// A growable output byte queue; the view is everything appended so far.
pub struct OutputByteQueue {
    buf: Vec<u8>,
}

impl View for OutputByteQueue {
    type V = Seq<u8>;

    closed spec fn view(&self) -> Seq<u8> {
        self.buf@
    }
}

impl OutputByteQueue {
    /// An empty output queue.
    pub fn new() -> (q: OutputByteQueue)
        ensures
            q@ == Seq::<u8>::empty(),
    {
        OutputByteQueue { buf: Vec::new() }
    }

    /// Append one byte.
    pub fn put_byte(&mut self, b: u8)
        ensures
            final(self)@ == old(self)@ + seq![b],
    {
        self.buf.push(b);
        proof {
            assert(self@ =~= old(self)@ + seq![b]);
        }
    }

    /// Append a run of bytes.
    pub fn put_bytes(&mut self, bytes: &[u8])
        ensures
            final(self)@ == old(self)@ + bytes@,
    {
        let n = bytes.len();
        let mut i: usize = 0;
        while i < n
            invariant
                i <= n,
                n == bytes@.len(),
                self@ =~= old(self)@ + bytes@.take(i as int),
            decreases n - i,
        {
            proof {
                assert(bytes@.take(i + 1) =~= bytes@.take(i as int).push(bytes@[i as int]));
            }
            self.buf.push(bytes[i]);
            i = i + 1;
        }
        proof {
            assert(bytes@.take(n as int) =~= bytes@);
        }
    }

    /// The bytes appended so far, yielded in order.
    pub fn get_bytes(self) -> (v: Vec<u8>)
        ensures
            v@ == self@,
    {
        self.buf
    }
}

} // verus!
