use vstd::prelude::*;

verus! {

/// The record terminator.
pub const NEWLINE: u8 = 10;

pub open spec fn has_no(s: Seq<u8>, b: u8) -> bool {
    forall|j: int| 0 <= j < s.len() ==> s[j] != b
}

/// `i` is the position of the last `b` in `s`.
pub open spec fn is_last(s: Seq<u8>, b: u8, i: int) -> bool {
    &&& 0 <= i < s.len()
    &&& s[i] == b
    &&& has_no(s.subrange(i + 1, s.len() as int), b)
}

/// Position of the last newline in `bytes`, if there is one.
pub fn find_new_line_pos(bytes: &[u8]) -> (r: Option<usize>)
    ensures
        r is None <==> has_no(bytes@, NEWLINE),
        r is Some ==> is_last(bytes@, NEWLINE, r.unwrap() as int),
{
    let mut i: usize = bytes.len();
    while i > 0
        invariant
            i <= bytes@.len(),
            has_no(bytes@.subrange(i as int, bytes@.len() as int), NEWLINE),
        decreases i,
    {
        if bytes[i - 1] == NEWLINE {
            return Some(i - 1);
        }
        assert forall|j: int| i - 1 <= j < bytes@.len() implies bytes@[j] != NEWLINE by {
            if j >= i {
                assert(bytes@.subrange(i as int, bytes@.len() as int)[j - i] == bytes@[j]);
            }
        }
        i = i - 1;
    }
    assert(bytes@.subrange(0, bytes@.len() as int) =~= bytes@);
    None
}

/// Why the byte stream could not be cut into chunks.
#[derive(Debug, Clone, Copy, PartialEq, Eq, Structural)]
pub enum SplitError {
    /// A whole buffer was filled without a newline: some record is longer
    /// than the buffer.
    RecordTooLong,
    /// The stream ended with bytes after its last newline.
    MissingFinalNewline,
}

/// Cuts a byte stream, fed in pieces, into chunks of whole records.
///
/// Bytes after the last newline seen so far wait in `pending`, and go in
/// front of the next chunk.
pub struct Splitter {
    pending: Vec<u8>,
    capacity: usize,
    consumed: Ghost<Seq<u8>>,
    emitted: Ghost<Seq<u8>>,
}

impl Splitter {
    /// Everything fed so far.
    pub closed spec fn consumed(&self) -> Seq<u8> {
        self.consumed@
    }

    /// All chunks handed out so far, one after another.
    pub closed spec fn emitted(&self) -> Seq<u8> {
        self.emitted@
    }

    /// Bytes waiting for their newline.
    pub closed spec fn pending(&self) -> Seq<u8> {
        self.pending@
    }

    /// The size of the read buffer this splitter stands for.
    pub closed spec fn capacity(&self) -> nat {
        self.capacity as nat
    }

    pub closed spec fn wf(&self) -> bool {
        &&& 0 < self.capacity
        &&& self.pending@.len() < self.capacity
        &&& self.emitted@ + self.pending@ == self.consumed@
        &&& has_no(self.pending@, NEWLINE)
        &&& (self.emitted@.len() == 0 || self.emitted@.last() == NEWLINE)
    }

    pub fn new(capacity: usize) -> (r: Splitter)
        requires
            capacity > 0,
        ensures
            r.wf(),
            r.capacity() == capacity,
            r.consumed() == Seq::<u8>::empty(),
            r.emitted() == Seq::<u8>::empty(),
            r.pending() == Seq::<u8>::empty(),
    {
        let r = Splitter {
            pending: Vec::new(),
            capacity,
            consumed: Ghost(Seq::empty()),
            emitted: Ghost(Seq::empty()),
        };
        assert(r.emitted@ + r.pending@ =~= r.consumed@);
        r
    }

    /// How many bytes the next `feed` may take.
    pub fn space(&self) -> (r: usize)
        requires
            self.wf(),
        ensures
            r == self.capacity() - self.pending().len(),
            r > 0,
    {
        self.capacity - self.pending.len()
    }

    /// Takes the next bytes of the stream. Where they hold a newline, returns
    /// the waiting bytes and these up to the last newline, as one chunk.
    pub fn feed(&mut self, data: &[u8]) -> (r: Result<Option<Vec<u8>>, SplitError>)
        requires
            old(self).wf(),
            data@.len() <= old(self).capacity() - old(self).pending().len(),
        ensures
            final(self).wf(),
            final(self).capacity() == old(self).capacity(),
            r is Ok ==> final(self).consumed() == old(self).consumed() + data@,
            r is Err ==> *final(self) == *old(self),
            !has_no(data@, NEWLINE) <==> (r is Ok && r.unwrap() is Some),
            r == Err::<Option<Vec<u8>>, SplitError>(SplitError::RecordTooLong) <==> (has_no(
                data@,
                NEWLINE,
            ) && old(self).pending().len() + data@.len() == old(self).capacity()),
            r is Ok ==> match r.unwrap() {
                Some(c) => {
                    &&& c@ + final(self).pending() == old(self).pending() + data@
                    &&& c@.last() == NEWLINE
                    &&& final(self).emitted() == old(self).emitted() + c@
                },
                None => {
                    &&& final(self).pending() == old(self).pending() + data@
                    &&& final(self).emitted() == old(self).emitted()
                },
            },
    {
        let pos = find_new_line_pos(data);
        match pos {
            None => {
                if self.pending.len() + data.len() == self.capacity {
                    return Err(SplitError::RecordTooLong);
                }
                let ghost old_pending = self.pending@;
                self.pending.extend_from_slice(data);
                proof {
                    self.consumed@ = self.consumed@ + data@;
                    assert(self.emitted@ + self.pending@ =~= self.consumed@);
                    assert forall|j: int| 0 <= j < self.pending@.len() implies self.pending@[j]
                        != NEWLINE by {
                        if j >= old_pending.len() {
                            assert(data@[j - old_pending.len()] == self.pending@[j]);
                        }
                    }
                }
                Ok(None)
            },
            Some(p) => {
                let mut chunk = Vec::new();
                std::mem::swap(&mut chunk, &mut self.pending);
                let ghost old_pending = chunk@;
                chunk.extend_from_slice(vstd::slice::slice_subrange(data, 0, p + 1));
                self.pending.extend_from_slice(vstd::slice::slice_subrange(data, p + 1, data.len()));
                proof {
                    let head = data@.subrange(0, p + 1);
                    let tail = data@.subrange(p + 1, data@.len() as int);
                    assert(head + tail =~= data@);
                    assert(chunk@ =~= old_pending + head);
                    assert(self.pending@ =~= tail);
                    assert(chunk@ + self.pending@ =~= old_pending + data@);
                    self.consumed@ = self.consumed@ + data@;
                    self.emitted@ = self.emitted@ + chunk@;
                    assert(self.emitted@ + self.pending@ =~= self.consumed@);
                    assert(chunk@.last() == data@[p as int]);
                    assert(self.emitted@.last() == chunk@.last());
                    assert(data@[p as int] == NEWLINE);
                }
                Ok(Some(chunk))
            },
        }
    }

    /// Ends the stream: succeeds only where no bytes wait for a newline,
    /// and then every byte fed has been handed out, in order.
    pub fn finish(&self) -> (r: Result<(), SplitError>)
        requires
            self.wf(),
        ensures
            r is Ok <==> self.pending().len() == 0,
            r is Err ==> r == Err::<(), SplitError>(SplitError::MissingFinalNewline),
            r is Ok ==> self.emitted() == self.consumed(),
            r is Ok ==> (self.emitted().len() == 0 || self.emitted().last() == NEWLINE),
    {
        if self.pending.len() == 0 {
            assert(self.emitted@ + self.pending@ =~= self.emitted@);
            Ok(())
        } else {
            Err(SplitError::MissingFinalNewline)
        }
    }
}

} // verus!
