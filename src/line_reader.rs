//! The buffered reader: a fixed buffer, three offsets into it, and the source.

use vstd::prelude::*;
use crate::bytes::{
    concat, ends_with, find_first, find_last, lacks, lemma_concat_push, lemma_concat_split,
    lemma_span_length, only_at_end,
};
use crate::source::read_into;

verus! {

/// The default delimiter, `\n`.
pub const NEWLINE: u8 = 10;

/// The default capacity, 64 KiB.
pub const DEFAULT_CAPACITY: usize = 65536;

/// Adds buffered, byte-delimited (default: `\n`) reading to any `std::io::Read`.
///
/// The buffer holds, in order: bytes already handed out (`[0, pos)`), complete
/// records not yet handed out (`[pos, end_of_complete)`), and a trailing
/// fragment that holds no delimiter (`[end_of_complete, end_of_buffer)`).
pub struct LineReader<R> {
    inner: R,
    delimiter: u8,
    buf: Vec<u8>,
    pos: usize,
    end_of_complete: usize,
    end_of_buffer: usize,
    /// The source has reported its end; it is not read again until `reset`.
    exhausted: bool,
    /// Every byte the source has produced since creation or the last `reset`.
    consumed: Ghost<Seq<u8>>,
    /// Every slice handed out since creation or the last `reset`, in order.
    pieces: Ghost<Seq<Seq<u8>>>,
    /// The count each successful read of the source reported since creation
    /// or the last `reset`, in order; `0` is the source's end.
    reads: Ghost<Seq<nat>>,
}

/// `p` may be the `i`-th of `n` slices handed out by a reader whose delimiter
/// is `d` and whose buffer holds `cap` bytes; `done` says that the reader has
/// handed out everything its source produced.
///
/// A slice ends with the delimiter, or it holds none and is either exactly
/// `cap` bytes long (a record split at the buffer's size) or the source's
/// final bytes.
pub open spec fn piece_shape(p: Seq<u8>, d: u8, cap: nat, i: int, n: int, done: bool) -> bool {
    &&& 0 < p.len() <= cap
    &&& ends_with(p, d) || (lacks(p, d) && (p.len() == cap || (i == n - 1 && done)))
}

/// Every one of `ps` has the shape of a slice handed out (see `piece_shape`).
pub open spec fn pieces_shaped(ps: Seq<Seq<u8>>, d: u8, cap: nat, done: bool) -> bool {
    forall|i: int| 0 <= i < ps.len() ==> #[trigger] piece_shape(ps[i], d, cap, i, ps.len() as int, done)
}

/// `rec` is a record as `next_line` hands it out: the delimiter occurs only as
/// its last byte, and if it does not end with the delimiter it is exactly
/// `cap` bytes long or the source's final bytes (`done`).
pub open spec fn record_shape(rec: Seq<u8>, d: u8, cap: nat, done: bool) -> bool {
    &&& 0 < rec.len() <= cap
    &&& only_at_end(rec, d)
    &&& ends_with(rec, d) || rec.len() == cap || done
}

/// The bytes a pull handed out: the record or batch, or nothing.
pub open spec fn handed_out(r: Option<Result<&[u8], std::io::Error>>) -> Seq<u8> {
    match r {
        Some(Ok(rec)) => rec@,
        _ => Seq::empty(),
    }
}

/// `rec` is a batch as `next_batch` hands it out: it ends with the
/// delimiter, or it holds none and is exactly `cap` bytes long or the
/// source's final bytes (`done`).
pub open spec fn batch_shape(rec: Seq<u8>, d: u8, cap: nat, done: bool) -> bool {
    &&& 0 < rec.len() <= cap
    &&& ends_with(rec, d) || (lacks(rec, d) && (rec.len() == cap || done))
}

/// Reading stopped at the first read that brought the delimiter `d`: of
/// `stream`, only the last `n` bytes, brought by the last read, may hold it.
pub open spec fn read_no_further(stream: Seq<u8>, n: nat, d: u8) -> bool {
    n <= stream.len() && lacks(stream.subrange(0, stream.len() - n), d)
}

/// `f`, called on a slice holding `line`, may return `out`.
pub open spec fn callback_gave<F: FnMut(&[u8]) -> Result<bool, std::io::Error>>(
    f: F,
    line: Seq<u8>,
    out: Result<bool, std::io::Error>,
) -> bool {
    exists|l: &[u8]| l@ == line && call_ensures(f, (l,), out)
}

/// No slice was added to `before`, or `f` accepted the last one added with
/// `Ok(true)`.
pub open spec fn accepted_last<F: FnMut(&[u8]) -> Result<bool, std::io::Error>>(
    f: F,
    before: Seq<Seq<u8>>,
    after: Seq<Seq<u8>>,
) -> bool {
    after.len() == before.len() || callback_gave(f, after.last(), Ok(true))
}

impl<R> LineReader<R> {
    /// The delimiter byte.
    pub closed spec fn delimiter(&self) -> u8 {
        self.delimiter
    }

    /// The size of the buffer, which bounds every slice handed out.
    pub closed spec fn capacity(&self) -> nat {
        self.buf@.len()
    }

    /// The underlying source.
    pub closed spec fn source(&self) -> R {
        self.inner
    }

    /// The bytes read from the source and not yet handed out.
    pub closed spec fn buffered(&self) -> Seq<u8> {
        self.buf@.subrange(self.pos as int, self.end_of_buffer as int)
    }

    /// Every byte the source has produced since creation or the last `reset`.
    pub closed spec fn consumed(&self) -> Seq<u8> {
        self.consumed@
    }

    /// Every slice handed out since creation or the last `reset`, in order.
    pub closed spec fn pieces(&self) -> Seq<Seq<u8>> {
        self.pieces@
    }

    /// The count each successful read of the source reported since creation
    /// or the last `reset`, in order. A count of `0` on a non-empty buffer is
    /// how a source reports its end.
    pub closed spec fn reads(&self) -> Seq<nat> {
        self.reads@
    }

    /// The source has reported its end: its last read gave `0` bytes.
    pub open spec fn end_reported(&self) -> bool {
        self.reads().len() > 0 && self.reads().last() == 0
    }

    /// The last refill read no more than it needed: every read of it before
    /// the last brought no delimiter, and it stopped because the source
    /// ended, the buffer filled, or the last read brought a delimiter.
    spec fn stopped_early(&self) -> bool {
        let b = self.buffered();
        let n = self.reads@.last();
        &&& self.reads@.len() > 0
        &&& read_no_further(b, n, self.delimiter)
        &&& n == 0 || b.len() == self.buf@.len() || !lacks(
            b.subrange(b.len() - n, b.len() as int),
            self.delimiter,
        )
    }

    /// A complete record is buffered: the next pull needs no read.
    pub closed spec fn has_complete(&self) -> bool {
        self.pos < self.end_of_complete
    }

    /// The source has reported its end and every byte it produced has been
    /// handed out.
    pub closed spec fn is_exhausted(&self) -> bool {
        self.exhausted && self.pos == self.end_of_buffer
    }

    /// The reader's invariant.
    pub closed spec fn wf(&self) -> bool {
        let d = self.delimiter;
        let b = self.buf@;
        &&& b.len() > 0
        &&& self.pos <= self.end_of_complete <= self.end_of_buffer <= b.len()
        &&& self.end_of_buffer - self.end_of_complete < b.len()
        &&& self.exhausted == (self.reads@.len() > 0 && self.reads@.last() == 0)
        &&& forall|i: int| 0 <= i < self.reads@.len() - 1 ==> self.reads@[i] > 0
        &&& concat(self.pieces@) + self.buffered() == self.consumed@
        &&& lacks(b.subrange(self.end_of_complete as int, self.end_of_buffer as int), d)
        &&& self.exhausted ==> {
            &&& self.end_of_complete == self.end_of_buffer
            &&& lacks(self.buffered(), d)
        }
        &&& (self.pos < self.end_of_complete && b[self.end_of_complete - 1] != d
            && !self.exhausted) ==> {
            &&& self.pos == 0
            &&& self.end_of_complete == b.len()
            &&& lacks(b.subrange(0, self.end_of_complete as int), d)
        }
        &&& pieces_shaped(self.pieces@, d, b.len(), self.is_exhausted())
    }
}

impl<R: std::io::Read> LineReader<R> {
    /// Creates a reader around `inner` with a buffer of 64 KiB and the
    /// delimiter `\n`.
    pub fn new(inner: R) -> (r: Self)
        ensures
            r.wf(),
            r.delimiter() == NEWLINE,
            r.capacity() == DEFAULT_CAPACITY,
            r.source() == inner,
            r.buffered().len() == 0,
            r.consumed().len() == 0,
            r.pieces().len() == 0,
            !r.is_exhausted(),
    {
        Self::with_delimiter_and_capacity(NEWLINE, DEFAULT_CAPACITY, inner)
    }

    /// Creates a reader around `inner` with a buffer of `capacity` bytes and
    /// the delimiter `\n`.
    pub fn with_capacity(capacity: usize, inner: R) -> (r: Self)
        requires
            capacity > 0,
        ensures
            r.wf(),
            r.delimiter() == NEWLINE,
            r.capacity() == capacity,
            r.source() == inner,
            r.buffered().len() == 0,
            r.consumed().len() == 0,
            r.pieces().len() == 0,
            !r.is_exhausted(),
    {
        Self::with_delimiter_and_capacity(NEWLINE, capacity, inner)
    }

    /// Creates a reader around `inner` with a buffer of 64 KiB and the given
    /// delimiter.
    pub fn with_delimiter(delimiter: u8, inner: R) -> (r: Self)
        ensures
            r.wf(),
            r.delimiter() == delimiter,
            r.capacity() == DEFAULT_CAPACITY,
            r.source() == inner,
            r.buffered().len() == 0,
            r.consumed().len() == 0,
            r.pieces().len() == 0,
            !r.is_exhausted(),
    {
        Self::with_delimiter_and_capacity(delimiter, DEFAULT_CAPACITY, inner)
    }

    /// Creates a reader around `inner` with a buffer of `capacity` bytes and
    /// the given delimiter. No reading happens here.
    pub fn with_delimiter_and_capacity(delimiter: u8, capacity: usize, inner: R) -> (r: Self)
        requires
            capacity > 0,
        ensures
            r.wf(),
            r.delimiter() == delimiter,
            r.capacity() == capacity,
            r.source() == inner,
            r.buffered().len() == 0,
            r.consumed().len() == 0,
            r.pieces().len() == 0,
            !r.is_exhausted(),
    {
        let r = LineReader {
            inner,
            delimiter,
            buf: vec![0u8; capacity],
            pos: 0,
            end_of_complete: 0,
            end_of_buffer: 0,
            exhausted: false,
            consumed: Ghost(Seq::empty()),
            pieces: Ghost(Seq::empty()),
            reads: Ghost(Seq::empty()),
        };
        assert(r.buffered() =~= Seq::<u8>::empty());
        assert(concat(Seq::<Seq<u8>>::empty()) + r.buffered() =~= Seq::<u8>::empty());
        r
    }

    /// Hands out `buf[pos..next]`: moves the read position and records the
    /// piece.
    fn hand_out(&mut self, next: usize)
        requires
            old(self).wf(),
            !old(self).is_exhausted(),
            old(self).pos < next <= old(self).end_of_complete,
            next < old(self).end_of_complete ==> old(self).buf@[next - 1] == old(self).delimiter,
            piece_shape(
                old(self).buf@.subrange(old(self).pos as int, next as int),
                old(self).delimiter,
                old(self).buf@.len(),
                old(self).pieces@.len() as int,
                old(self).pieces@.len() + 1 as int,
                old(self).exhausted && next == old(self).end_of_buffer,
            ),
        ensures
            final(self).wf(),
            final(self).pieces@ == old(self).pieces@.push(
                old(self).buf@.subrange(old(self).pos as int, next as int),
            ),
            final(self).pos == next,
            final(self).buf == old(self).buf,
            final(self).end_of_complete == old(self).end_of_complete,
            final(self).end_of_buffer == old(self).end_of_buffer,
            final(self).exhausted == old(self).exhausted,
            final(self).consumed == old(self).consumed,
            final(self).reads == old(self).reads,
            final(self).delimiter == old(self).delimiter,
            final(self).inner == old(self).inner,
    {
        let ghost start = self.pos as int;
        let ghost b = self.buf@;
        let ghost rec = b.subrange(start, next as int);
        let ghost n = self.pieces@.len();
        let ghost d = self.delimiter;
        proof {
            lemma_concat_push(self.pieces@, rec);
            let rest = b.subrange(next as int, self.end_of_buffer as int);
            assert(self.buffered() =~= rec + rest);
            assert(concat(self.pieces@) + (rec + rest) =~= (concat(self.pieces@) + rec) + rest);
            if self.exhausted {
                assert forall|k: int| 0 <= k < rest.len() implies rest[k] != d by {
                    assert(rest[k] == self.buffered()[k + rec.len()]);
                }
            }
            if next < self.end_of_complete && b[self.end_of_complete - 1] != d && !self.exhausted {
                assert(b.subrange(0, self.end_of_complete as int)[next - 1] == d);
            }
        }
        self.pos = next;
        self.pieces = Ghost(self.pieces@.push(rec));
        proof {
            assert forall|i: int| 0 <= i < self.pieces@.len() implies #[trigger] piece_shape(
                self.pieces@[i],
                d,
                b.len(),
                i,
                self.pieces@.len() as int,
                self.is_exhausted(),
            ) by {
                if i < n {
                    assert(self.pieces@[i] == old(self).pieces@[i]);
                    assert(piece_shape(
                        old(self).pieces@[i],
                        d,
                        b.len(),
                        i,
                        n as int,
                        old(self).is_exhausted(),
                    ));
                }
            }
        }
    }

    /// Reads from the source if no complete record is buffered. `Ok(true)`:
    /// one is buffered now; `Ok(false)`: the reader is exhausted.
    fn fill_if_needed(&mut self) -> (r: Result<bool, std::io::Error>)
        requires
            old(self).wf(),
        ensures
            final(self).wf(),
            final(self).delimiter() == old(self).delimiter(),
            final(self).capacity() == old(self).capacity(),
            final(self).pieces() == old(self).pieces(),
            old(self).consumed().len() <= final(self).consumed().len(),
            final(self).consumed().subrange(0, old(self).consumed().len() as int)
                == old(self).consumed(),
            old(self).buffered() + final(self).consumed().subrange(
                old(self).consumed().len() as int,
                final(self).consumed().len() as int,
            ) == final(self).buffered(),
            old(self).reads().len() <= final(self).reads().len(),
            final(self).reads().subrange(0, old(self).reads().len() as int) == old(self).reads(),
            r matches Ok(true) ==> final(self).has_complete(),
            (r matches Ok(true)) && old(self).reads().len() < final(self).reads().len()
                ==> read_no_further(
                final(self).buffered(),
                final(self).reads().last(),
                final(self).delimiter(),
            ),
            r matches Ok(false) ==> {
                &&& final(self).is_exhausted()
                &&& final(self).end_reported()
                &&& final(self).consumed() == old(self).consumed()
                &&& old(self).buffered().len() == 0
            },
            r is Err ==> !old(self).has_complete() && !old(self).is_exhausted(),
            old(self).has_complete() ==> (r matches Ok(true)) && *final(self) == *old(self),
            old(self).is_exhausted() ==> (r matches Ok(false)) && *final(self) == *old(self),
    {
        let ghost before_buffered = self.buffered();
        let ghost before_consumed = self.consumed@;
        if self.pos >= self.end_of_complete {
            if self.exhausted {
                assert(self.reads@.subrange(0, self.reads@.len() as int) =~= self.reads@);
                return Ok(false);
            }
            let res = self.refill();
            proof {
                let grown = self.buffered().subrange(
                    before_buffered.len() as int,
                    self.buffered().len() as int,
                );
                assert(self.consumed@.subrange(0, before_consumed.len() as int) =~= before_consumed);
                assert(self.consumed@.subrange(
                    before_consumed.len() as int,
                    self.consumed@.len() as int,
                ) =~= grown);
                assert(before_buffered + grown =~= self.buffered());
            }
            match res {
                Ok(()) => {},
                Err(e) => {
                    return Err(e);
                },
            }
            if self.pos >= self.end_of_complete {
                assert(self.buffered() =~= Seq::<u8>::empty());
                return Ok(false);
            }
        } else {
            assert(self.reads@.subrange(0, self.reads@.len() as int) =~= self.reads@);
            assert(self.consumed@.subrange(0, before_consumed.len() as int) =~= before_consumed);
            assert(before_buffered + self.consumed@.subrange(
                before_consumed.len() as int,
                self.consumed@.len() as int,
            ) =~= self.buffered());
        }
        Ok(true)
    }

    /// Takes in the `n` bytes that a read of the source has just written at
    /// `buf[last..]`, and says whether to read again: it is worth it while no
    /// delimiter has come, the source has not ended and the buffer has room.
    fn take_read(&mut self, last: usize, n: usize) -> (more: bool)
        requires
            old(self).wf(),
            old(self).pos == 0,
            old(self).end_of_complete == 0,
            !old(self).exhausted,
            old(self).end_of_buffer == last,
            n <= old(self).buf@.len() - last,
        ensures
            final(self).wf(),
            final(self).buf == old(self).buf,
            final(self).pos == 0,
            final(self).delimiter == old(self).delimiter,
            final(self).inner == old(self).inner,
            final(self).pieces == old(self).pieces,
            final(self).reads@ == old(self).reads@.push(n as nat),
            n == 0 ==> {
                &&& final(self).exhausted
                &&& final(self).end_of_complete == last
                &&& final(self).end_of_buffer == last
                &&& final(self).consumed == old(self).consumed
            },
            n > 0 ==> {
                &&& !final(self).exhausted
                &&& final(self).end_of_buffer == last + n
                &&& final(self).consumed@ == old(self).consumed@ + old(self).buf@.subrange(
                    last as int,
                    last + n,
                )
            },
            ({
                let added = old(self).buf@.subrange(last as int, last + n);
                let d = old(self).delimiter;
                let eoc = final(self).end_of_complete as int;
                &&& !lacks(added, d) ==> {
                    &&& last < eoc
                    &&& old(self).buf@[eoc - 1] == d
                    &&& lacks(old(self).buf@.subrange(eoc, last + n), d)
                }
                &&& (n > 0 && lacks(added, d)) ==> eoc == (if last + n == old(self).buf@.len() {
                    last + n
                } else {
                    0
                })
                &&& more == (n > 0 && lacks(added, d) && last + n < old(self).buf@.len())
            }),
    {
        let ghost d = self.delimiter;
        let ghost b = self.buf@;
        let ghost cap = b.len();
        let ghost added = b.subrange(last as int, last + n);
        proof {
            let rs = self.reads@;
            assert forall|i: int| 0 <= i < rs.push(n as nat).len() - 1 implies rs.push(
                n as nat,
            )[i] > 0 by {
                if i < rs.len() - 1 {
                } else {
                    assert(rs.push(n as nat)[i] == rs.last());
                }
            }
        }
        if n == 0 {
            self.end_of_complete = last;
            self.exhausted = true;
            self.reads = Ghost(self.reads@.push(0));
            proof {
                assert(self.buffered() =~= b.subrange(0, last as int));
                assert(b.subrange(0, last as int) =~= b.subrange(0, last as int).subrange(
                    0,
                    last as int,
                ));
                assert forall|i: int| 0 <= i < self.pieces@.len() implies #[trigger] piece_shape(
                    self.pieces@[i],
                    d,
                    cap,
                    i,
                    self.pieces@.len() as int,
                    self.is_exhausted(),
                ) by {
                    assert(piece_shape(
                        self.pieces@[i],
                        d,
                        cap,
                        i,
                        self.pieces@.len() as int,
                        false,
                    ));
                }
            }
            return false;
        }
        let cap_now = self.buf.len();
        assert(n <= cap_now - last);
        let end = last + n;
        self.end_of_buffer = end;
        proof {
            let done = concat(self.pieces@);
            let prefix = b.subrange(0, last as int);
            assert(self.buffered() =~= prefix + added);
            assert(done + (prefix + added) =~= (done + prefix) + added);
            self.consumed@ = self.consumed@ + added;
            self.reads@ = self.reads@.push(n as nat);
        }
        match find_last(self.delimiter, &self.buf[last..end]) {
            Some(k) => {
                self.end_of_complete = last + k + 1;
                assert(self.buf@.subrange(self.end_of_complete as int, end as int) =~= added.subrange(
                    k + 1,
                    added.len() as int,
                ));
                assert(self.buf@[self.end_of_complete - 1] == added[k as int]);
                false
            },
            None => {
                assert(self.buf@.subrange(0, end as int) =~= b.subrange(0, last as int) + added);
                if end == self.buf.len() {
                    self.end_of_complete = end;
                    false
                } else {
                    true
                }
            },
        }
    }

    /// Moves the trailing fragment to the front of the buffer and reads from
    /// the source until a read brings a delimiter, the buffer is full, or the
    /// source reports its end.
    fn refill(&mut self) -> (r: Result<(), std::io::Error>)
        requires
            old(self).wf(),
            !old(self).has_complete(),
            !old(self).exhausted,
        ensures
            final(self).wf(),
            final(self).delimiter() == old(self).delimiter(),
            final(self).capacity() == old(self).capacity(),
            final(self).pieces() == old(self).pieces(),
            final(self).consumed() == old(self).consumed() + final(self).buffered().subrange(
                old(self).buffered().len() as int,
                final(self).buffered().len() as int,
            ),
            old(self).buffered().len() <= final(self).buffered().len(),
            final(self).buffered().subrange(0, old(self).buffered().len() as int)
                == old(self).buffered(),
            old(self).reads().len() <= final(self).reads().len(),
            final(self).reads().subrange(0, old(self).reads().len() as int) == old(self).reads(),
            r is Ok ==> {
                &&& old(self).reads().len() < final(self).reads().len()
                &&& final(self).has_complete() || final(self).is_exhausted()
                &&& final(self).stopped_early()
            },
    {
        let ghost old_buffered = self.buffered();
        let ghost old_consumed = self.consumed@;
        let cap = self.buf.len();
        let fragment_len = self.end_of_buffer - self.end_of_complete;
        let start = self.end_of_complete;
        let mut i: usize = 0;
        while i < fragment_len
            invariant
                self.buf@.len() == cap,
                start + fragment_len <= cap,
                i <= fragment_len,
                forall|k: int| 0 <= k < i ==> self.buf@[k] == old(self).buf@[start + k],
                forall|k: int| i <= k < cap ==> self.buf@[k] == old(self).buf@[k],
                self.delimiter == old(self).delimiter,
                self.pieces == old(self).pieces,
                self.consumed == old(self).consumed,
                self.reads == old(self).reads,
                self.exhausted == old(self).exhausted,
            decreases fragment_len - i,
        {
            let b = self.buf[start + i];
            self.buf.set(i, b);
            i = i + 1;
        }
        self.pos = 0;
        self.end_of_complete = 0;
        self.end_of_buffer = fragment_len;
        assert(self.buffered() =~= old_buffered);
        assert(self.buf@.subrange(0, fragment_len as int) =~= old(self).buf@.subrange(
            start as int,
            start + fragment_len,
        ));
        assert forall|i: int| 0 <= i < self.pieces@.len() implies #[trigger] piece_shape(
            self.pieces@[i],
            self.delimiter,
            cap as nat,
            i,
            self.pieces@.len() as int,
            self.is_exhausted(),
        ) by {
            assert(piece_shape(
                old(self).pieces@[i],
                old(self).delimiter,
                old(self).buf@.len(),
                i,
                old(self).pieces@.len() as int,
                old(self).is_exhausted(),
            ));
        }
        assert(self.reads@.subrange(0, self.reads@.len() as int) =~= self.reads@);
        let mut more = true;
        while more
            invariant
                self.wf(),
                self.buf@.len() == cap,
                cap == old(self).buf@.len(),
                old_buffered == old(self).buffered(),
                old_consumed == old(self).consumed@,
                self.delimiter == old(self).delimiter,
                self.pieces@ == old(self).pieces@,
                old(self).reads@.len() <= self.reads@.len(),
                self.reads@.subrange(0, old(self).reads@.len() as int) == old(self).reads@,
                old_buffered.len() <= self.buffered().len(),
                self.buffered().subrange(0, old_buffered.len() as int) == old_buffered,
                self.consumed@ == old_consumed + self.buffered().subrange(
                    old_buffered.len() as int,
                    self.buffered().len() as int,
                ),
                more ==> {
                    &&& self.pos == 0
                    &&& self.end_of_complete == 0
                    &&& !self.exhausted
                    &&& lacks(self.buf@.subrange(0, self.end_of_buffer as int), self.delimiter)
                },
                !more ==> {
                    &&& old(self).reads@.len() < self.reads@.len()
                    &&& self.has_complete() || self.is_exhausted()
                    &&& self.stopped_early()
                },
            decreases cap - self.end_of_buffer + (if more {
                1int
            } else {
                0int
            }),
        {
            let last = self.end_of_buffer;
            let ghost before = self.buf@;
            let ghost before_consumed = self.consumed@;
            let ghost before_buffered = self.buffered();
            match read_into(&mut self.inner, &mut self.buf, last) {
                Ok(n) => {
                    assert(self.buf@.subrange(0, last as int) =~= before.subrange(0, last as int));
                    assert(self.buffered() =~= before_buffered);
                    more = self.take_read(last, n);
                    proof {
                        let prefix = before.subrange(0, last as int);
                        let fresh = self.buf@.subrange(last as int, self.end_of_buffer as int);
                        assert(self.buffered() =~= prefix + fresh);
                        let grown = prefix.subrange(old_buffered.len() as int, prefix.len() as int);
                        assert(self.buffered().subrange(0, old_buffered.len() as int)
                            =~= prefix.subrange(0, old_buffered.len() as int));
                        assert(self.buffered().subrange(
                            old_buffered.len() as int,
                            self.buffered().len() as int,
                        ) =~= grown + fresh);
                        assert((old_consumed + grown) + fresh =~= old_consumed + (grown + fresh));
                        assert(self.reads@.subrange(0, old(self).reads@.len() as int)
                            =~= old(self).reads@);
                        if !more {
                            let bb = self.buf@.subrange(0, self.end_of_buffer as int);
                            assert(bb.subrange(0, bb.len() - n) =~= prefix);
                            assert(bb.subrange(bb.len() - n, bb.len() as int) =~= fresh);
                        }
                    }
                },
                Err(e) => {
                    assert(self.buf@.subrange(0, last as int) =~= before.subrange(0, last as int));
                    assert(self.buffered() =~= before_buffered);
                    return Err(e);
                },
            }
        }
        Ok(())
    }
}

impl<R: std::io::Read> LineReader<R> {
    /// Hands out the next record, an I/O error of the source, or `None` once
    /// the source has reported its end and every byte has been handed out.
    ///
    /// The delimiter is kept at the end of the record. A record longer than
    /// the buffer comes out in pieces of exactly the buffer's size; the
    /// source's final bytes come out even without a delimiter.
    pub fn next_line(&mut self) -> (r: Option<Result<&[u8], std::io::Error>>)
        requires
            old(self).wf(),
        ensures
            final(self).wf(),
            final(self).delimiter() == old(self).delimiter(),
            final(self).capacity() == old(self).capacity(),
            old(self).consumed().len() <= final(self).consumed().len(),
            final(self).consumed().subrange(0, old(self).consumed().len() as int)
                == old(self).consumed(),
            old(self).buffered() + final(self).consumed().subrange(
                old(self).consumed().len() as int,
                final(self).consumed().len() as int,
            ) == handed_out(r) + final(self).buffered(),
            match r {
                Some(Ok(rec)) => {
                    &&& final(self).pieces() == old(self).pieces().push(rec@)
                    &&& record_shape(
                        rec@,
                        old(self).delimiter(),
                        old(self).capacity(),
                        final(self).is_exhausted(),
                    )
                },
                Some(Err(_)) => {
                    &&& final(self).pieces() == old(self).pieces()
                    &&& !old(self).has_complete()
                    &&& !old(self).is_exhausted()
                },
                None => {
                    &&& final(self).pieces() == old(self).pieces()
                    &&& final(self).is_exhausted()
                    &&& final(self).end_reported()
                    &&& final(self).consumed() == old(self).consumed()
                    &&& old(self).buffered().len() == 0
                },
            },
            old(self).reads().len() <= final(self).reads().len(),
            final(self).reads().subrange(0, old(self).reads().len() as int) == old(self).reads(),
            (r matches Some(Ok(_))) && old(self).reads().len() < final(self).reads().len()
                ==> read_no_further(
                handed_out(r) + final(self).buffered(),
                final(self).reads().last(),
                old(self).delimiter(),
            ),
            old(self).has_complete() ==> {
                &&& r matches Some(Ok(_))
                &&& final(self).consumed() == old(self).consumed()
                &&& final(self).reads() == old(self).reads()
                &&& final(self).source() == old(self).source()
            },
            old(self).is_exhausted() ==> r is None && *final(self) == *old(self),
    {
        let ghost before_buffered = self.buffered();
        match self.fill_if_needed() {
            Err(e) => {
                return Some(Err(e));
            },
            Ok(false) => {
                return None;
            },
            Ok(true) => {},
        }
        let ghost mid_buffered = self.buffered();
        assert(!self.is_exhausted());
        let start = self.pos;
        let end = self.end_of_complete;
        let ghost b = self.buf@;
        let ghost d = self.delimiter;
        let next = match find_first(self.delimiter, &self.buf[start..end]) {
            Some(i) => start + i + 1,
            None => end,
        };
        proof {
            let rec = b.subrange(start as int, next as int);
            let hay = b.subrange(start as int, end as int);
            assert(rec.subrange(0, rec.len() - 1) =~= hay.subrange(0, rec.len() - 1));
            assert(only_at_end(rec, d)) by {
                assert forall|k: int| 0 <= k < rec.len() - 1 implies rec[k] != d by {
                    assert(rec[k] == rec.subrange(0, rec.len() - 1)[k]);
                }
            }
            if next < end {
                assert(rec[rec.len() - 1] == hay[next - 1 - start]);
            }
            if next == end && !ends_with(rec, d) {
                assert(rec =~= hay);
                assert(lacks(rec, d)) by {
                    assert forall|k: int| 0 <= k < rec.len() implies rec[k] != d by {
                        if k < rec.len() - 1 {
                        } else {
                            assert(rec[k] == rec.last());
                        }
                    }
                }
                assert(b[end - 1] == rec.last());
            }
            assert(mid_buffered =~= rec + b.subrange(next as int, self.end_of_buffer as int));
        }
        self.hand_out(next);
        Some(Ok(&self.buf[start..next]))
    }
}

impl<R: std::io::Read> LineReader<R> {
    /// Hands out every complete record that is buffered, joined, reading from
    /// the source first if there is none; or an I/O error of the source; or
    /// `None` once the source has reported its end and every byte has been
    /// handed out.
    ///
    /// This is `next_line` up to the *last* delimiter in the buffer instead of
    /// the first: what stays buffered holds no delimiter.
    pub fn next_batch(&mut self) -> (r: Option<Result<&[u8], std::io::Error>>)
        requires
            old(self).wf(),
        ensures
            final(self).wf(),
            final(self).delimiter() == old(self).delimiter(),
            final(self).capacity() == old(self).capacity(),
            old(self).consumed().len() <= final(self).consumed().len(),
            final(self).consumed().subrange(0, old(self).consumed().len() as int)
                == old(self).consumed(),
            old(self).buffered() + final(self).consumed().subrange(
                old(self).consumed().len() as int,
                final(self).consumed().len() as int,
            ) == handed_out(r) + final(self).buffered(),
            match r {
                Some(Ok(rec)) => {
                    &&& final(self).pieces() == old(self).pieces().push(rec@)
                    &&& batch_shape(
                        rec@,
                        old(self).delimiter(),
                        old(self).capacity(),
                        final(self).is_exhausted(),
                    )
                    &&& lacks(final(self).buffered(), old(self).delimiter())
                    &&& !final(self).has_complete()
                },
                Some(Err(_)) => {
                    &&& final(self).pieces() == old(self).pieces()
                    &&& !old(self).has_complete()
                    &&& !old(self).is_exhausted()
                },
                None => {
                    &&& final(self).pieces() == old(self).pieces()
                    &&& final(self).is_exhausted()
                    &&& final(self).end_reported()
                    &&& final(self).consumed() == old(self).consumed()
                    &&& old(self).buffered().len() == 0
                },
            },
            old(self).reads().len() <= final(self).reads().len(),
            final(self).reads().subrange(0, old(self).reads().len() as int) == old(self).reads(),
            (r matches Some(Ok(_))) && old(self).reads().len() < final(self).reads().len()
                ==> read_no_further(
                handed_out(r) + final(self).buffered(),
                final(self).reads().last(),
                old(self).delimiter(),
            ),
            old(self).has_complete() ==> {
                &&& r matches Some(Ok(_))
                &&& final(self).consumed() == old(self).consumed()
                &&& final(self).reads() == old(self).reads()
                &&& final(self).source() == old(self).source()
            },
            old(self).is_exhausted() ==> r is None && *final(self) == *old(self),
    {
        match self.fill_if_needed() {
            Err(e) => {
                return Some(Err(e));
            },
            Ok(false) => {
                return None;
            },
            Ok(true) => {},
        }
        let ghost mid_buffered = self.buffered();
        let start = self.pos;
        let end = self.end_of_complete;
        proof {
            let b = self.buf@;
            let d = self.delimiter;
            let rec = b.subrange(start as int, end as int);
            if b[end - 1] != d {
                if self.exhausted {
                    assert forall|k: int| 0 <= k < rec.len() implies rec[k] != d by {
                        assert(rec[k] == self.buffered()[k]);
                    }
                } else {
                    assert forall|k: int| 0 <= k < rec.len() implies rec[k] != d by {
                        assert(rec[k] == b.subrange(0, end as int)[k]);
                    }
                }
            } else {
                assert(rec.last() == b[end - 1]);
            }
            assert(mid_buffered =~= rec + b.subrange(end as int, self.end_of_buffer as int));
        }
        self.hand_out(end);
        Some(Ok(&self.buf[start..end]))
    }
}

impl<R: std::io::Read> LineReader<R> {
    /// Calls `f` on each record in turn for as long as it returns `Ok(true)`.
    ///
    /// Stops at the end of the source, at the first error of the source or of
    /// `f`, which it returns, when `f` returns `Ok(false)`, or after
    /// `usize::MAX` records.
    pub fn for_each<F: FnMut(&[u8]) -> Result<bool, std::io::Error>>(&mut self, f: F) -> (r:
        Result<(), std::io::Error>)
        requires
            old(self).wf(),
            forall|line: &[u8]| f.requires((line,)),
        ensures
            final(self).wf(),
            final(self).delimiter() == old(self).delimiter(),
            final(self).capacity() == old(self).capacity(),
            old(self).pieces().len() <= final(self).pieces().len(),
            final(self).pieces().subrange(0, old(self).pieces().len() as int) == old(self).pieces(),
            forall|i: int|
                old(self).pieces().len() <= i < final(self).pieces().len() ==> only_at_end(
                    #[trigger] final(self).pieces()[i],
                    old(self).delimiter(),
                ),
            old(self).consumed().len() <= final(self).consumed().len(),
            final(self).consumed().subrange(0, old(self).consumed().len() as int)
                == old(self).consumed(),
            old(self).buffered() + final(self).consumed().subrange(
                old(self).consumed().len() as int,
                final(self).consumed().len() as int,
            ) == concat(
                final(self).pieces().subrange(
                    old(self).pieces().len() as int,
                    final(self).pieces().len() as int,
                ),
            ) + final(self).buffered(),
            // Each record handed out went to `f`, in order, and every one but
            // the last was accepted with `Ok(true)`.
            forall|i: int|
                old(self).pieces().len() <= i < final(self).pieces().len() - 1 ==> callback_gave(
                    f,
                    #[trigger] final(self).pieces()[i],
                    Ok(true),
                ),
            final(self).pieces().len() > old(self).pieces().len() ==> exists|
                out: Result<bool, std::io::Error>,
            | callback_gave(f, final(self).pieces().last(), out),
            r is Ok ==> {
                ||| final(self).is_exhausted() && final(self).end_reported() && accepted_last(
                    f,
                    old(self).pieces(),
                    final(self).pieces(),
                )
                ||| final(self).pieces().len() > old(self).pieces().len() && callback_gave(
                    f,
                    final(self).pieces().last(),
                    Ok(false),
                )
                ||| final(self).pieces().len() - old(self).pieces().len() == usize::MAX
                    && accepted_last(f, old(self).pieces(), final(self).pieces())
            },
            r matches Err(e) ==> {
                ||| final(self).pieces().len() > old(self).pieces().len() && callback_gave(
                    f,
                    final(self).pieces().last(),
                    Err(e),
                )
                ||| !old(self).is_exhausted() && accepted_last(
                    f,
                    old(self).pieces(),
                    final(self).pieces(),
                )
            },
            old(self).is_exhausted() ==> r is Ok && *final(self) == *old(self),
    {
        broadcast use vstd::function::group_function_axioms;

        let ghost start = *self;
        let mut g = f;
        let mut seen: usize = 0;
        while seen < usize::MAX
            invariant
                start == *old(self),
                g == f,
                forall|line: &[u8]| f.requires((line,)),
                self.wf(),
                self.delimiter() == start.delimiter(),
                self.capacity() == start.capacity(),
                start.pieces().len() + seen == self.pieces().len(),
                self.pieces().subrange(0, start.pieces().len() as int) == start.pieces(),
                forall|i: int|
                    start.pieces().len() <= i < self.pieces().len() ==> only_at_end(
                        #[trigger] self.pieces()[i],
                        start.delimiter(),
                    ),
                forall|i: int|
                    start.pieces().len() <= i < self.pieces().len() ==> callback_gave(
                        f,
                        #[trigger] self.pieces()[i],
                        Ok(true),
                    ),
                start.consumed().len() <= self.consumed().len(),
                self.consumed().subrange(0, start.consumed().len() as int) == start.consumed(),
                start.buffered() + self.consumed().subrange(
                    start.consumed().len() as int,
                    self.consumed().len() as int,
                ) == concat(
                    self.pieces().subrange(
                        start.pieces().len() as int,
                        self.pieces().len() as int,
                    ),
                ) + self.buffered(),
                start.is_exhausted() ==> *self == start,
            decreases usize::MAX - seen,
        {
            let ghost before = *self;
            match self.next_line() {
                None => {
                    proof {
                        Self::lemma_stream_step(start, before, *self, Seq::empty());
                        assert(self.pieces() == before.pieces());
                        assert forall|i: int|
                            start.pieces().len() <= i < self.pieces().len() implies callback_gave(
                            f,
                            #[trigger] self.pieces()[i],
                            Ok(true),
                        ) by {
                            assert(self.pieces()[i] == before.pieces()[i]);
                        }
                        if self.pieces().len() > start.pieces().len() {
                            let k = self.pieces().len() - 1;
                            assert(callback_gave(f, self.pieces()[k], Ok(true)));
                        }
                    }
                    return Ok(());
                },
                Some(Err(e)) => {
                    proof {
                        Self::lemma_stream_step(start, before, *self, Seq::empty());
                        assert(self.pieces() == before.pieces());
                        assert forall|i: int|
                            start.pieces().len() <= i < self.pieces().len() implies callback_gave(
                            f,
                            #[trigger] self.pieces()[i],
                            Ok(true),
                        ) by {
                            assert(self.pieces()[i] == before.pieces()[i]);
                        }
                        if self.pieces().len() > start.pieces().len() {
                            let k = self.pieces().len() - 1;
                            assert(callback_gave(f, self.pieces()[k], Ok(true)));
                        }
                    }
                    return Err(e);
                },
                Some(Ok(line)) => {
                    let ghost rec = line@;
                    seen = seen + 1;
                    let go = g(line);
                    assert(callback_gave(g, rec, go));
                    assert(g == f);
                    proof {
                        assert(seq![rec] =~= Seq::<Seq<u8>>::empty().push(rec));
                        lemma_concat_push(Seq::<Seq<u8>>::empty(), rec);
                        assert(concat(Seq::<Seq<u8>>::empty()) + rec =~= rec);
                        assert(self.pieces() =~= before.pieces() + seq![rec]);
                        Self::lemma_stream_step(start, before, *self, seq![rec]);
                        assert forall|i: int|
                            start.pieces().len() <= i < self.pieces().len() implies only_at_end(
                            #[trigger] self.pieces()[i],
                            start.delimiter(),
                        ) by {
                            if i < before.pieces().len() {
                                assert(self.pieces()[i] == before.pieces()[i]);
                            }
                        }
                        assert forall|i: int|
                            start.pieces().len() <= i < self.pieces().len() - 1 implies callback_gave(
                            f,
                            #[trigger] self.pieces()[i],
                            Ok(true),
                        ) by {
                            assert(self.pieces()[i] == before.pieces()[i]);
                        }
                        assert(self.pieces().last() == rec);
                    }
                    match go {
                        Ok(true) => {},
                        Ok(false) => {
                            return Ok(());
                        },
                        Err(e) => {
                            return Err(e);
                        },
                    }
                },
            }
        }
        Ok(())
    }

    /// One pull keeps the account of `for_each`: what was buffered at the
    /// start, followed by everything read since, is everything handed out
    /// since, followed by what is buffered now.
    proof fn lemma_stream_step(start: Self, before: Self, after: Self, handed: Seq<Seq<u8>>)
        requires
            handed.len() <= 1,
            start.pieces().len() <= before.pieces().len(),
            before.pieces().subrange(0, start.pieces().len() as int) == start.pieces(),
            start.consumed().len() <= before.consumed().len(),
            before.consumed().subrange(0, start.consumed().len() as int) == start.consumed(),
            start.buffered() + before.consumed().subrange(
                start.consumed().len() as int,
                before.consumed().len() as int,
            ) == concat(
                before.pieces().subrange(
                    start.pieces().len() as int,
                    before.pieces().len() as int,
                ),
            ) + before.buffered(),
            before.consumed().len() <= after.consumed().len(),
            after.consumed().subrange(0, before.consumed().len() as int) == before.consumed(),
            before.buffered() + after.consumed().subrange(
                before.consumed().len() as int,
                after.consumed().len() as int,
            ) == concat(handed) + after.buffered(),
            after.pieces() == before.pieces() + handed,
        ensures
            start.pieces().len() <= after.pieces().len(),
            after.pieces().subrange(0, start.pieces().len() as int) == start.pieces(),
            start.consumed().len() <= after.consumed().len(),
            after.consumed().subrange(0, start.consumed().len() as int) == start.consumed(),
            start.buffered() + after.consumed().subrange(
                start.consumed().len() as int,
                after.consumed().len() as int,
            ) == concat(
                after.pieces().subrange(
                    start.pieces().len() as int,
                    after.pieces().len() as int,
                ),
            ) + after.buffered(),
    {
        let sp = start.pieces().len() as int;
        let sc = start.consumed().len() as int;
        let bc = before.consumed().len() as int;
        let ac = after.consumed().len() as int;
        let earlier = before.pieces().subrange(sp, before.pieces().len() as int);
        let later = after.pieces().subrange(sp, after.pieces().len() as int);
        let x = before.consumed().subrange(sc, bc);
        let fresh = after.consumed().subrange(bc, ac);
        assert(after.pieces().subrange(0, sp) =~= before.pieces().subrange(0, sp));
        assert(after.consumed().subrange(0, sc) =~= before.consumed().subrange(0, sc));
        assert(after.consumed().subrange(sc, ac) =~= x + fresh);
        assert(later =~= earlier + handed);
        if handed.len() == 0 {
            assert(earlier + handed =~= earlier);
            assert(concat(handed) =~= Seq::<u8>::empty());
        } else {
            assert(earlier + handed =~= earlier.push(handed[0]));
            lemma_concat_push(earlier, handed[0]);
            assert(handed =~= Seq::<Seq<u8>>::empty().push(handed[0]));
            lemma_concat_push(Seq::<Seq<u8>>::empty(), handed[0]);
            assert(concat(Seq::<Seq<u8>>::empty()) + handed[0] =~= handed[0]);
        }
        assert(start.buffered() + (x + fresh) =~= (start.buffered() + x) + fresh);
        assert((concat(earlier) + before.buffered()) + fresh =~= concat(earlier) + (
        before.buffered() + fresh));
        assert(concat(earlier) + (concat(handed) + after.buffered()) =~= (concat(earlier)
            + concat(handed)) + after.buffered());
    }

    /// Forgets every buffered byte. Later pulls read from wherever the
    /// source stands now, and may read again after it reported its end.
    pub fn reset(&mut self)
        requires
            old(self).wf(),
        ensures
            final(self).wf(),
            final(self).delimiter() == old(self).delimiter(),
            final(self).capacity() == old(self).capacity(),
            final(self).source() == old(self).source(),
            final(self).buffered().len() == 0,
            final(self).consumed().len() == 0,
            final(self).pieces().len() == 0,
            !final(self).is_exhausted(),
            !final(self).has_complete(),
    {
        self.pos = 0;
        self.end_of_buffer = 0;
        self.end_of_complete = 0;
        self.exhausted = false;
        self.consumed = Ghost(Seq::empty());
        self.pieces = Ghost(Seq::empty());
        self.reads = Ghost(Seq::empty());
        assert(self.buffered() =~= Seq::<u8>::empty());
        assert(concat(Seq::<Seq<u8>>::empty()) + self.buffered() =~= Seq::<u8>::empty());
    }

    /// The source.
    pub fn get_ref(&self) -> (r: &R)
        ensures
            *r == self.source(),
    {
        &self.inner
    }

    /// The source, to be changed in place; the buffer is left as it is.
    pub fn get_mut(&mut self) -> (r: &mut R)
        requires
            old(self).wf(),
        ensures
            *r == old(self).source(),
            final(self).source() == *final(r),
            final(self).wf(),
            final(self).delimiter() == old(self).delimiter(),
            final(self).capacity() == old(self).capacity(),
            final(self).buffered() == old(self).buffered(),
            final(self).consumed() == old(self).consumed(),
            final(self).pieces() == old(self).pieces(),
            final(self).is_exhausted() == old(self).is_exhausted(),
            final(self).has_complete() == old(self).has_complete(),
    {
        &mut self.inner
    }

    /// Gives the source back, dropping whatever is still buffered.
    pub fn into_inner(self) -> (r: R)
        ensures
            r == self.source(),
    {
        self.inner
    }
}

impl<R> LineReader<R> {
    /// Once the reader is exhausted, the slices it handed out, joined in
    /// order, are exactly the bytes its source produced (since creation or
    /// the last `reset`), whatever the buffer's size and wherever the
    /// delimiters stood.
    pub proof fn lemma_round_trip(&self)
        requires
            self.wf(),
            self.is_exhausted(),
        ensures
            self.end_reported(),
            concat(self.pieces()) == self.consumed(),
    {
        assert(self.buffered() =~= Seq::<u8>::empty());
        assert(concat(self.pieces()) + Seq::<u8>::empty() =~= concat(self.pieces()));
    }

    /// What a reader's state always satisfies: at most a buffer's worth is
    /// buffered; when no complete record is buffered, what is holds no
    /// delimiter; an exhausted reader has nothing buffered and its source has
    /// reported its end; and once the source has reported its end, either a
    /// complete record is buffered or the reader is exhausted.
    pub proof fn lemma_state(&self)
        requires
            self.wf(),
        ensures
            self.buffered().len() <= self.capacity(),
            self.has_complete() ==> self.buffered().len() > 0,
            !self.has_complete() ==> lacks(self.buffered(), self.delimiter()),
            self.is_exhausted() ==> {
                &&& self.buffered().len() == 0
                &&& !self.has_complete()
                &&& self.end_reported()
            },
            self.end_reported() ==> self.is_exhausted() || self.has_complete(),
    {
    }

    /// Where the `i`-th slice handed out starts in the bytes the source
    /// produced.
    pub open spec fn piece_start(&self, i: int) -> int {
        concat(self.pieces().subrange(0, i)).len() as int
    }

    /// The `i`-th slice handed out is the source's bytes at its place. When it
    /// is a record (the delimiter occurs only as its last byte, as `next_line`
    /// hands them out), it ends with the delimiter exactly when the source
    /// holds the delimiter at its last byte; one that does not is exactly as
    /// long as the buffer, or the last one, handed out once the reader is
    /// exhausted.
    pub proof fn lemma_delimiters_kept(&self, i: int)
        requires
            self.wf(),
            0 <= i < self.pieces().len(),
            only_at_end(self.pieces()[i], self.delimiter()),
        ensures
            ({
                let p = self.pieces()[i];
                let start = self.piece_start(i);
                let end = start + p.len();
                let src = self.consumed();
                let d = self.delimiter();
                &&& 0 <= start < end <= src.len()
                &&& p == src.subrange(start, end)
                &&& forall|k: int| start <= k < end - 1 ==> src[k] != d
                &&& ends_with(p, d) <==> src[end - 1] == d
                &&& !ends_with(p, d) ==> p.len() == self.capacity() || (i == self.pieces().len()
                    - 1 && self.is_exhausted())
            }),
    {
        let ps = self.pieces();
        let p = ps[i];
        let before = ps.subrange(0, i);
        let upto = ps.subrange(0, i + 1);
        let start = self.piece_start(i);
        lemma_concat_split(ps, i + 1);
        assert(upto =~= before.push(p));
        lemma_concat_push(before, p);
        assert(piece_shape(p, self.delimiter(), self.capacity(), i, ps.len() as int, self.is_exhausted()));
        let whole = concat(ps) + self.buffered();
        assert(whole =~= concat(before) + p + (concat(ps.subrange(i + 1, ps.len() as int))
            + self.buffered()));
        assert(whole.subrange(start, start + p.len()) =~= p);
        assert forall|k: int| start <= k < start + p.len() - 1 implies self.consumed()[k]
            != self.delimiter() by {
            assert(self.consumed()[k] == p[k - start]);
        }
    }

    /// A record longer than the buffer is handed out in pieces: between a
    /// slice that ends with the delimiter (or the start) and the next one
    /// that does, every slice is exactly as long as the buffer, so the span
    /// of `n` bytes they cover comes out in `ceil(n / capacity)` pieces, and
    /// only the last of them ends with the delimiter.
    pub proof fn lemma_long_records_split(&self, i: int, j: int)
        requires
            self.wf(),
            0 <= i <= j < self.pieces().len(),
            i > 0 ==> ends_with(self.pieces()[i - 1], self.delimiter()),
            ends_with(self.pieces()[j], self.delimiter()),
            forall|k: int| i <= k < j ==> !ends_with(#[trigger] self.pieces()[k], self.delimiter()),
        ensures
            forall|k: int| i <= k < j ==> (#[trigger] self.pieces()[k]).len() == self.capacity(),
            ({
                let span = concat(self.pieces().subrange(i, j + 1)).len();
                let cap = self.capacity();
                &&& (j - i) * cap < span <= (j - i + 1) * cap
                &&& concat(self.pieces().subrange(i, j + 1)) == self.consumed().subrange(
                    self.piece_start(i),
                    self.piece_start(i) + span,
                )
            }),
        decreases j - i,
    {
        let ps = self.pieces();
        let cap = self.capacity();
        let d = self.delimiter();
        assert forall|k: int| i <= k < j implies (#[trigger] ps[k]).len() == cap by {
            assert(piece_shape(ps[k], d, cap, k, ps.len() as int, self.is_exhausted()));
        }
        assert(piece_shape(ps[j], d, cap, j, ps.len() as int, self.is_exhausted()));
        lemma_span_length(ps, cap, i, j);
        // The span is where it stands in the source.
        let span = concat(ps.subrange(i, j + 1));
        lemma_concat_split(ps, i);
        lemma_concat_split(ps.subrange(i, ps.len() as int), j + 1 - i);
        assert(ps.subrange(i, ps.len() as int).subrange(0, j + 1 - i) =~= ps.subrange(i, j + 1));
        let whole = concat(ps) + self.buffered();
        let head = concat(ps.subrange(0, i));
        let tail = concat(ps.subrange(i, ps.len() as int).subrange(j + 1 - i, ps.len() - i));
        assert(whole =~= head + span + (tail + self.buffered()));
        assert(whole.subrange(head.len() as int, head.len() + span.len() as int) =~= span);
    }
}

/// Pulling by batches or by records hands out the same bytes: two exhausted
/// readers whose sources produced the same bytes handed out the same bytes,
/// however each was pulled.
pub proof fn lemma_batches_match_records<R, S>(by_batch: &LineReader<R>, by_record: &LineReader<S>)
    requires
        by_batch.wf(),
        by_record.wf(),
        by_batch.is_exhausted(),
        by_record.is_exhausted(),
        by_batch.consumed() == by_record.consumed(),
    ensures
        concat(by_batch.pieces()) == concat(by_record.pieces()),
{
    by_batch.lemma_round_trip();
    by_record.lemma_round_trip();
}

} // verus!
