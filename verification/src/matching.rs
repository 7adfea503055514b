//! A string that was found: up to eight bytes and their number.

use vstd::prelude::*;

verus! {

/// A byte string of length at most 8.
///
/// The view is the string itself.
#[derive(Debug, Clone, Copy)]
pub struct Match {
    bytes: [u8; 8],
    len: usize,
}

impl View for Match {
    type V = Seq<u8>;

    closed spec fn view(&self) -> Seq<u8> {
        self.bytes@.take(self.len as int)
    }
}

impl Match {
    /// The length is at most 8 and the buffer holds zeros behind the string.
    pub closed spec fn wf(&self) -> bool {
        &&& self.len <= 8
        &&& forall|i: int| self.len <= i < 8 ==> self.bytes@[i] == 0
    }

    /// A well-formed match is no longer than 8 bytes.
    pub proof fn lemma_wf_len(self)
        requires
            self.wf(),
        ensures
            self@.len() <= 8,
    {
    }

    /// The empty string.
    pub fn empty() -> (m: Self)
        ensures
            m.wf(),
            m@ == Seq::<u8>::empty(),
    {
        Match { bytes: [0u8; 8], len: 0 }
    }

    /// This string with `byte` appended at its end.
    pub fn push(self, byte: u8) -> (m: Self)
        requires
            self.wf(),
            self@.len() < 8,
        ensures
            m.wf(),
            m@ == self@.push(byte),
    {
        let mut bytes = self.bytes;
        bytes[self.len] = byte;
        let m = Match { bytes, len: self.len + 1 };
        assert(m@ == self@.push(byte));
        m
    }

    /// This string with the bytes of `tail` appended at its end.
    pub fn append(self, tail: &Match) -> (whole: Self)
        requires
            self.wf(),
            tail.wf(),
            self@.len() + tail@.len() <= 8,
        ensures
            whole.wf(),
            whole@ == self@ + tail@,
    {
        let mut whole = self;
        let mut i: usize = 0;
        while i < tail.len
            invariant
                i <= tail.len,
                self.wf(),
                tail.wf(),
                self@.len() + tail@.len() <= 8,
                whole.wf(),
                whole@ == self@ + tail@.take(i as int),
            decreases tail.len - i,
        {
            proof {
                assert(tail@.take(i + 1) == tail@.take(i as int).push(tail.bytes@[i as int]));
                assert(self@ + tail@.take(i as int).push(tail.bytes@[i as int]) == (self@
                    + tail@.take(i as int)).push(tail.bytes@[i as int]));
            }
            whole = whole.push(tail.bytes[i]);
            i += 1;
        }
        proof {
            assert(tail@.take(tail.len as int) == tail@);
        }
        whole
    }

    /// The number of bytes of the string.
    pub fn len(&self) -> (n: usize)
        requires
            self.wf(),
        ensures
            n == self@.len(),
            n <= 8,
    {
        self.len
    }

    /// The string at the start of an array of eight bytes, zeros behind it.
    pub fn bytes(&self) -> (bytes: [u8; 8])
        requires
            self.wf(),
        ensures
            bytes@.take(self@.len() as int) == self@,
            forall|i: int| self@.len() <= i < 8 ==> bytes@[i] == 0,
    {
        self.bytes
    }
}

} // verus!
