//! A byte stream over bytes that have already arrived. The caller appends
//! what it reads from the outside; every read either takes exactly what was
//! asked for or leaves the stream untouched, and a byte can be looked at
//! before it is taken.

use vstd::prelude::*;

verus! {

/// The position of the first `byte` in `s`, if there is one.
pub open spec fn first_index_of(s: Seq<u8>, byte: u8) -> Option<int>
    decreases s.len(),
{
    if s.len() == 0 {
        None
    } else if s[0] == byte {
        Some(0int)
    } else {
        match first_index_of(s.skip(1), byte) {
            Some(i) => Some(i + 1),
            None => None,
        }
    }
}

/// `first_index_of` finds a position that holds `byte` and has none before it;
/// it finds nothing exactly when `byte` does not occur.
pub proof fn lemma_first_index_of(s: Seq<u8>, byte: u8)
    ensures
        match first_index_of(s, byte) {
            Some(i) => 0 <= i < s.len() && s[i] == byte && forall|j: int|
                0 <= j < i ==> s[j] != byte,
            None => forall|j: int| 0 <= j < s.len() ==> s[j] != byte,
        },
    decreases s.len(),
{
    if s.len() > 0 && s[0] != byte {
        lemma_first_index_of(s.skip(1), byte);
        match first_index_of(s.skip(1), byte) {
            Some(i) => {
                assert forall|j: int| 0 <= j < i + 1 implies s[j] != byte by {
                    if j > 0 {
                        assert(s.skip(1)[j - 1] == s[j]);
                    }
                }
            },
            None => {
                assert forall|j: int| 0 <= j < s.len() implies s[j] != byte by {
                    if j > 0 {
                        assert(s.skip(1)[j - 1] == s[j]);
                    }
                }
            },
        }
    }
}

/// A position that holds `byte` with none before it is what `first_index_of` finds.
pub proof fn lemma_first_index_of_is(s: Seq<u8>, byte: u8, i: int)
    requires
        0 <= i < s.len(),
        s[i] == byte,
        forall|j: int| 0 <= j < i ==> s[j] != byte,
    ensures
        first_index_of(s, byte) == Some(i),
{
    lemma_first_index_of(s, byte);
}

/// Whether `rest` is what is left of `whole` when some bytes, or none, are
/// taken from its front.
pub open spec fn is_tail(rest: Seq<u8>, whole: Seq<u8>) -> bool {
    rest.len() <= whole.len() && rest == whole.skip(whole.len() - rest.len())
}

/// What is left when bytes are taken from the front is a tail.
pub proof fn lemma_skip_is_tail(whole: Seq<u8>, taken: int)
    requires
        0 <= taken <= whole.len(),
    ensures
        is_tail(whole.skip(taken), whole),
        is_tail(whole, whole),
{
    assert(whole.skip(0) =~= whole);
}

/// A tail of a tail is a tail.
pub proof fn lemma_tail_of_tail(rest: Seq<u8>, middle: Seq<u8>, whole: Seq<u8>)
    requires
        is_tail(rest, middle),
        is_tail(middle, whole),
    ensures
        is_tail(rest, whole),
{
    assert(whole.skip(whole.len() - middle.len()).skip(middle.len() - rest.len()) =~= whole.skip(
        whole.len() - rest.len(),
    ));
}

/// A queue of bytes: `new` and `extend` put bytes in at the back, the reads
/// take them from the front.
pub struct BufferedStream {
    source: Vec<u8>,
    position: usize,
}

impl View for BufferedStream {
    type V = Seq<u8>;

    /// The bytes that have not been read yet, in order.
    closed spec fn view(&self) -> Seq<u8> {
        self.source@.skip(self.position as int)
    }
}

impl BufferedStream {
    #[verifier::type_invariant]
    spec fn in_bounds(self) -> bool {
        self.position <= self.source@.len()
    }

    /// A stream that will hand out `source` from its first byte on.
    pub fn new(source: Vec<u8>) -> (stream: BufferedStream)
        ensures
            stream@ == source@,
    {
        BufferedStream { source, position: 0 }
    }

    /// Appends bytes that arrived after the stream was made. The bytes that
    /// were read before are let go of.
    pub fn extend(&mut self, bytes: &[u8])
        ensures
            final(self)@ == old(self)@ + bytes@,
    {
        proof {
            use_type_invariant(&*self);
        }
        let mut waiting: Vec<u8> = Vec::new();
        let mut i: usize = self.position;
        while i < self.source.len()
            invariant
                self.position <= i <= self.source@.len(),
                *self == *old(self),
                waiting@ == self.source@.subrange(self.position as int, i as int),
            decreases self.source@.len() - i,
        {
            waiting.push(self.source[i]);
            i += 1;
            assert(waiting@ =~= self.source@.subrange(self.position as int, i as int));
        }
        assert(waiting@ =~= old(self)@);
        let mut j: usize = 0;
        while j < bytes.len()
            invariant
                j <= bytes@.len(),
                waiting@ == old(self)@ + bytes@.take(j as int),
            decreases bytes@.len() - j,
        {
            waiting.push(bytes[j]);
            j += 1;
            assert(waiting@ =~= old(self)@ + bytes@.take(j as int));
        }
        assert(bytes@.take(bytes@.len() as int) =~= bytes@);
        self.position = 0;
        core::mem::swap(&mut self.source, &mut waiting);
        assert(self@ =~= old(self)@ + bytes@);
    }

    /// How many bytes are waiting to be read.
    pub fn remaining(&self) -> (n: usize)
        ensures
            n == self@.len(),
    {
        proof {
            use_type_invariant(self);
        }
        self.source.len() - self.position
    }

    /// Takes exactly `n` bytes, or none at all when fewer than `n` are waiting.
    pub fn read_n_bytes(&mut self, n: usize) -> (bytes: Option<Vec<u8>>)
        ensures
            n <= old(self)@.len() ==> (bytes matches Some(taken) && taken@ == old(self)@.take(
                n as int,
            ) && final(self)@ == old(self)@.skip(n as int)),
            n > old(self)@.len() ==> bytes is None && final(self)@ == old(self)@,
    {
        proof {
            use_type_invariant(&*self);
        }
        if n > self.source.len() - self.position {
            return None;
        }
        let mut taken: Vec<u8> = Vec::new();
        let start: usize = self.position;
        let mut i: usize = 0;
        while i < n
            invariant
                i <= n,
                start + n <= self.source.len(),
                taken@ == self.source@.subrange(start as int, start + i),
            decreases n - i,
        {
            taken.push(self.source[start + i]);
            i += 1;
            assert(taken@ =~= self.source@.subrange(start as int, start + i));
        }
        self.position = start + n;
        assert(taken@ =~= old(self)@.take(n as int));
        assert(self@ =~= old(self)@.skip(n as int));
        Some(taken)
    }

    /// Looks at the next `n` bytes without taking them.
    pub fn peek_n_bytes(&self, n: usize) -> (bytes: Option<Vec<u8>>)
        ensures
            n <= self@.len() ==> (bytes matches Some(seen) && seen@ == self@.take(n as int)),
            n > self@.len() ==> bytes is None,
    {
        proof {
            use_type_invariant(self);
        }
        if n > self.source.len() - self.position {
            return None;
        }
        let mut seen: Vec<u8> = Vec::new();
        let start: usize = self.position;
        let mut i: usize = 0;
        while i < n
            invariant
                i <= n,
                start + n <= self.source.len(),
                seen@ == self.source@.subrange(start as int, start + i),
            decreases n - i,
        {
            seen.push(self.source[start + i]);
            i += 1;
            assert(seen@ =~= self.source@.subrange(start as int, start + i));
        }
        assert(seen@ =~= self@.take(n as int));
        Some(seen)
    }

    /// Takes the next byte, if one is waiting.
    pub fn read_byte(&mut self) -> (byte: Option<u8>)
        ensures
            old(self)@.len() > 0 ==> byte == Some(old(self)@[0]) && final(self)@ == old(
                self,
            )@.skip(1),
            old(self)@.len() == 0 ==> byte is None && final(self)@ == old(self)@,
    {
        proof {
            use_type_invariant(&*self);
        }
        if self.position >= self.source.len() {
            return None;
        }
        let byte = self.source[self.position];
        self.position = self.position + 1;
        assert(self@ =~= old(self)@.skip(1));
        Some(byte)
    }

    /// Looks at the next byte without taking it.
    pub fn peek_byte(&self) -> (byte: Option<u8>)
        ensures
            self@.len() > 0 ==> byte == Some(self@[0]),
            self@.len() == 0 ==> byte is None,
    {
        proof {
            use_type_invariant(self);
        }
        if self.position >= self.source.len() {
            return None;
        }
        Some(self.source[self.position])
    }

    /// Takes the bytes in front of the first `byte_match` and drops that byte.
    /// Without a `byte_match` among the waiting bytes nothing is taken.
    pub fn read_until(&mut self, byte_match: u8) -> (bytes: Option<Vec<u8>>)
        ensures
            match first_index_of(old(self)@, byte_match) {
                Some(at) => bytes matches Some(taken) && taken@ == old(self)@.take(at)
                    && final(self)@ == old(self)@.skip(at + 1),
                None => bytes is None && final(self)@ == old(self)@,
            },
    {
        proof {
            use_type_invariant(&*self);
        }
        let start: usize = self.position;
        let len: usize = self.source.len();
        let mut taken: Vec<u8> = Vec::new();
        let mut i: usize = start;
        while i < len
            invariant
                start <= i <= len,
                len == self.source@.len(),
                start == self.position,
                *self == *old(self),
                taken@ == self.source@.subrange(start as int, i as int),
                forall|j: int| start <= j < i ==> self.source@[j] != byte_match,
            decreases len - i,
        {
            let byte = self.source[i];
            if byte == byte_match {
                proof {
                    lemma_first_index_of_is(old(self)@, byte_match, i - start);
                    assert(taken@ =~= old(self)@.take(i - start));
                }
                self.position = i + 1;
                assert(self@ =~= old(self)@.skip(i - start + 1));
                return Some(taken);
            }
            taken.push(byte);
            i += 1;
            assert(taken@ =~= self.source@.subrange(start as int, i as int));
        }
        proof {
            lemma_first_index_of(old(self)@, byte_match);
        }
        None
    }
}

} // verus!
