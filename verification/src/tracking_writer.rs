//! A writer that remembers everything written, so that earlier output can be
//! copied again (the LZ77 back-references of DEFLATE).

use vstd::prelude::*;
use std::collections::VecDeque;
use crate::gzip::{crc32_checksum, crc32_iso_hdlc};

verus! {

pub const HISTORY_SIZE: usize = 32768;

/// Failures of a back-reference copy.
#[derive(Clone, Copy, Debug, PartialEq, Eq, Structural)]
pub enum WriteError {
    /// The distance reaches before the start of the history.
    DistanceTooLarge,
    /// The destination took fewer bytes than asked.
    NoSpace,
}

/// Writes into an in-memory destination that takes at most `capacity` bytes,
/// and keeps the history of what was written.
pub struct TrackingWriter {
    inner: Vec<u8>,
    capacity: usize,
    buf_: VecDeque<u8>,
    bytes_written_: usize,
}

/// The history after a back-reference of length `len` at distance `dist`:
/// each new byte repeats the one `dist` bytes before it.
pub open spec fn lz_copy(h: Seq<u8>, dist: int, len: int) -> Seq<u8>
    decreases len,
{
    if len <= 0 {
        h
    } else {
        let prev = lz_copy(h, dist, len - 1);
        prev.push(prev[prev.len() - dist])
    }
}

impl TrackingWriter {
    /// The bytes that reached the destination.
    pub closed spec fn output(&self) -> Seq<u8> {
        self.inner@
    }

    /// How many bytes the destination can take in all.
    pub closed spec fn capacity(&self) -> nat {
        self.capacity as nat
    }

    /// The history: every byte counted as written, in order.
    pub closed spec fn history(&self) -> Seq<u8> {
        self.buf_@
    }

    /// The count of bytes written.
    pub closed spec fn count(&self) -> nat {
        self.bytes_written_ as nat
    }

    pub closed spec fn wf(&self) -> bool {
        &&& self.inner@.len() <= self.capacity
        &&& self.buf_@.len() == self.bytes_written_
    }

    /// What well-formedness gives: the count is the history's length, and
    /// the destination holds no more than it takes.
    pub proof fn lemma_wf(&self)
        requires
            self.wf(),
        ensures
            self.count() == self.history().len(),
            self.output().len() <= self.capacity(),
    {
    }

    /// A writer whose destination takes at most `capacity` bytes.
    pub fn new(capacity: usize) -> (r: Self)
        ensures
            r.wf(),
            r.output() == Seq::<u8>::empty(),
            r.capacity() == capacity,
            r.history() == Seq::<u8>::empty(),
            r.count() == 0,
    {
        Self { inner: Vec::new(), capacity: capacity, buf_: VecDeque::new(), bytes_written_: 0 }
    }

    /// The bytes that reached the destination.
    pub fn inner(&self) -> (r: &Vec<u8>)
        ensures
            r@ == self.output(),
    {
        &self.inner
    }

    /// Writes as much of `buf` as the destination takes; the bytes written
    /// join the history. Returns their number.
    pub fn write(&mut self, buf: &[u8]) -> (r: usize)
        requires
            old(self).wf(),
            old(self).count() + buf@.len() <= usize::MAX,
        ensures
            final(self).wf(),
            r == if buf@.len() <= old(self).capacity() - old(self).output().len() {
                buf@.len() as int
            } else {
                old(self).capacity() - old(self).output().len()
            },
            final(self).output() == old(self).output() + buf@.take(r as int),
            final(self).history() == old(self).history() + buf@.take(r as int),
            final(self).count() == old(self).count() + r,
            final(self).capacity() == old(self).capacity(),
    {
        let room = self.capacity - self.inner.len();
        let n = if buf.len() <= room {
            buf.len()
        } else {
            room
        };
        let mut i: usize = 0;
        while i < n
            invariant
                n <= buf@.len(),
                i <= n,
                n <= old(self).capacity - old(self).inner@.len(),
                self.capacity == old(self).capacity,
                self.inner@ == old(self).inner@ + buf@.take(i as int),
                self.buf_@ == old(self).buf_@ + buf@.take(i as int),
                self.bytes_written_ == old(self).bytes_written_,
            decreases n - i,
        {
            self.inner.push(buf[i]);
            self.buf_.push_back(buf[i]);
            i += 1;
            proof {
                assert(buf@.take(i as int) =~= buf@.take(i - 1).push(buf@[i - 1]));
            }
        }
        self.bytes_written_ += n;
        n
    }

    /// Writes again the `len` bytes that start `dist` bytes back in the
    /// history. When they reach past the end of the history, the last `dist`
    /// bytes are repeated, the last time in part; the destination takes as
    /// many of them as it has room for, and all of them count as written. Otherwise the bytes
    /// the destination took are written and the copy fails with `NoSpace`
    /// when it took fewer than `len`.
    pub fn write_previous(&mut self, dist: usize, len: usize) -> (r: Result<(), WriteError>)
        requires
            old(self).wf(),
            dist > 0 || len == 0,
            old(self).count() + len <= usize::MAX,
        ensures
            final(self).wf(),
            final(self).capacity() == old(self).capacity(),
            old(self).history().len() < dist ==> r == Err::<(), WriteError>(
                WriteError::DistanceTooLarge,
            ) && *final(self) == *old(self),
            old(self).history().len() >= dist && len > dist ==> {
                let room = old(self).capacity() - old(self).output().len();
                &&& r is Ok
                &&& final(self).history() == lz_copy(old(self).history(), dist as int, len as int)
                &&& final(self).count() == old(self).count() + len
                &&& final(self).output() == old(self).output() + final(self).history().skip(
                    old(self).history().len() as int,
                ).take(min_int(len as int, room))
            },
            old(self).history().len() >= dist && len <= dist ==> {
                let h = old(self).history();
                let room = old(self).capacity() - old(self).output().len();
                let n = if len <= room { len as int } else { room };
                let copied = h.subrange(h.len() - dist, h.len() - dist + n);
                &&& final(self).output() == old(self).output() + copied
                &&& final(self).history() == h + copied
                &&& final(self).count() == old(self).count() + n
                &&& (r is Ok <==> n == len)
                &&& r is Err ==> r == Err::<(), WriteError>(WriteError::NoSpace)
            },
    {
        let buf_len = self.buf_.len();
        if buf_len < dist {
            return Err(WriteError::DistanceTooLarge);
        }
        let buf_start_idx = buf_len - dist;
        if len > dist {
            // The copy overlaps its own output: repeat the last `dist` bytes.
            let pattern = deque_copy(&self.buf_, buf_start_idx, buf_len);
            let ghost h0 = self.buf_@;
            let times = len / dist;
            let bytes_reminder = len % dist;
            proof {
                assert(times * dist + bytes_reminder == len && times * dist <= len) by (nonlinear_arith)
                    requires
                        times == len / dist,
                        bytes_reminder == len % dist,
                        dist > 0,
                ;
                lemma_lz_copy_pattern(h0, dist as int, 0);
            }
            let mut t: usize = 0;
            while t < times
                invariant
                    times * dist <= len,
                    dist > 0,
                    pattern@ == h0.subrange(h0.len() - dist, h0.len() as int),
                    h0.len() >= dist,
                    t <= times,
                    self.wf(),
                    self.capacity == old(self).capacity,
                    self.buf_@ == lz_copy(h0, dist as int, t * dist),
                    self.bytes_written_ == old(self).bytes_written_ + t * dist,
                    old(self).bytes_written_ + len <= usize::MAX,
                    h0 == old(self).buf_@,
                    self.inner@ == old(self).inner@ + self.buf_@.skip(h0.len() as int).take(
                        min_int(t * dist, old(self).capacity - old(self).inner@.len()),
                    ),
                decreases times - t,
            {
                proof {
                    assert(t * dist + dist <= times * dist) by (nonlinear_arith)
                        requires
                            t < times,
                    ;
                }
                let ghost b0 = self.buf_@;
                proof {
                    lemma_lz_copy_len(h0, dist as int, t * dist);
                    lemma_take_concat(
                        b0.skip(h0.len() as int),
                        pattern@,
                        old(self).capacity - old(self).inner@.len(),
                    );
                }
                self.write_unlimited_history(pattern.as_slice(), pattern.len());
                proof {
                    assert(self.buf_@.skip(h0.len() as int) =~= b0.skip(h0.len() as int)
                        + pattern@.take(dist as int));
                    assert((t * dist) % (dist as int) == 0) by (nonlinear_arith)
                        requires
                            dist > 0,
                    ;
                    assert(pattern@.take(dist as int) =~= pattern@);
                    lemma_lz_copy_append(h0, dist as int, t * dist, dist as int);
                }
                t += 1;
                proof {
                    assert(t * dist == (t - 1) * dist + dist) by (nonlinear_arith);
                }
            }
            if bytes_reminder > 0 {
                let ghost b0 = self.buf_@;
                proof {
                    lemma_lz_copy_len(h0, dist as int, times * dist);
                    lemma_take_concat(
                        b0.skip(h0.len() as int),
                        pattern@.take(bytes_reminder as int),
                        old(self).capacity - old(self).inner@.len(),
                    );
                }
                self.write_unlimited_history(pattern.as_slice(), bytes_reminder);
                proof {
                    assert(self.buf_@.skip(h0.len() as int) =~= b0.skip(h0.len() as int)
                        + pattern@.take(bytes_reminder as int));
                    assert((times * dist) % (dist as int) == 0) by (nonlinear_arith)
                        requires
                            dist > 0,
                    ;
                    lemma_lz_copy_append(h0, dist as int, times * dist, bytes_reminder as int);
                }
            }
            return Ok(());
        }
        let range = deque_copy(&self.buf_, buf_start_idx, buf_start_idx + len);
        let written = self.write(range.as_slice());
        if written < len {
            return Err(WriteError::NoSpace);
        }
        Ok(())
    }

    /// Writes the first `n` bytes of `pattern` to the destination, as far as
    /// it takes them, and adds all `n` of them to the history.
    fn write_unlimited_history(&mut self, pattern: &[u8], n: usize)
        requires
            old(self).wf(),
            n <= pattern@.len(),
            old(self).bytes_written_ + n <= usize::MAX,
        ensures
            final(self).wf(),
            final(self).capacity == old(self).capacity,
            final(self).buf_@ == old(self).buf_@ + pattern@.take(n as int),
            final(self).bytes_written_ == old(self).bytes_written_ + n,
            final(self).inner@ == old(self).inner@ + pattern@.take(
                min_int(n as int, old(self).capacity - old(self).inner@.len()),
            ),
    {
        let room = self.capacity - self.inner.len();
        let k = if n <= room {
            n
        } else {
            room
        };
        let mut i: usize = 0;
        while i < n
            invariant
                n <= pattern@.len(),
                k <= n,
                i <= n,
                k <= old(self).capacity - old(self).inner@.len(),
                self.capacity == old(self).capacity,
                self.inner@ == old(self).inner@ + pattern@.take(if i < k { i as int } else { k as int }),
                self.buf_@ == old(self).buf_@ + pattern@.take(i as int),
                self.bytes_written_ == old(self).bytes_written_,
            decreases n - i,
        {
            if i < k {
                self.inner.push(pattern[i]);
            }
            self.buf_.push_back(pattern[i]);
            i += 1;
            proof {
                assert(pattern@.take(i as int) =~= pattern@.take(i - 1).push(pattern@[i - 1]));
                if i <= k {
                    assert(old(self).inner@ + pattern@.take(i as int) =~= old(self).inner@
                        + pattern@.take(i - 1) + seq![pattern@[i - 1]]);
                }
            }
        }
        self.bytes_written_ += n;
    }

    /// The count of bytes written.
    pub fn byte_count(&self) -> (r: usize)
        ensures
            r == self.count(),
    {
        self.bytes_written_
    }

    /// The CRC-32 of the history.
    pub fn crc32(self) -> (r: u32)
        ensures
            r == crc32_iso_hdlc(self.history()),
    {
        let n = self.buf_.len();
        let all = deque_copy(&self.buf_, 0, n);
        proof {
            assert(all@ =~= self.buf_@);
        }
        crc32_checksum(all.as_slice())
    }
}

fn deque_copy(d: &VecDeque<u8>, from: usize, to: usize) -> (r: Vec<u8>)
    requires
        from <= to <= d@.len(),
    ensures
        r@ == d@.subrange(from as int, to as int),
{
    let mut r: Vec<u8> = Vec::new();
    let mut i: usize = from;
    while i < to
        invariant
            from <= i <= to,
            to <= d@.len(),
            r@ == d@.subrange(from as int, i as int),
        decreases to - i,
    {
        r.push(d[i]);
        i += 1;
        proof {
            assert(r@ =~= d@.subrange(from as int, i as int));
        }
    }
    r
}

/// The smaller of two integers.
pub open spec fn min_int(a: int, b: int) -> int {
    if a <= b {
        a
    } else {
        b
    }
}

/// Taking at most `r` items of `a + p` takes at most `r` of `a`, then what
/// is left of `r` from `p`.
proof fn lemma_take_concat(a: Seq<u8>, p: Seq<u8>, r: int)
    requires
        r >= 0,
    ensures
        (a + p).take(min_int((a.len() + p.len()) as int, r)) == a.take(min_int(a.len() as int, r)) + p.take(
            min_int(p.len() as int, r - min_int(a.len() as int, r)),
        ),
{
    assert((a + p).take(min_int((a.len() + p.len()) as int, r)) =~= a.take(min_int(a.len() as int, r)) + p.take(
        min_int(p.len() as int, r - min_int(a.len() as int, r)),
    ));
}

pub proof fn lemma_lz_copy_len(h: Seq<u8>, dist: int, len: int)
    ensures
        lz_copy(h, dist, len).len() == h.len() + (if len < 0 { 0 } else { len }),
        len >= 0 ==> lz_copy(h, dist, len).take(h.len() as int) == h,
    decreases len,
{
    if len > 0 {
        lemma_lz_copy_len(h, dist, len - 1);
        assert(lz_copy(h, dist, len).take(h.len() as int) =~= lz_copy(h, dist, len - 1).take(h.len() as int));
    } else {
        assert(h.take(h.len() as int) =~= h);
    }
}

/// The bytes that a back-reference adds repeat the last `dist` bytes of
/// the history: byte `i` of the copy is byte `i mod dist` of them.
proof fn lemma_lz_copy_pattern(h: Seq<u8>, dist: int, len: int)
    requires
        0 < dist <= h.len(),
        len >= 0,
    ensures
        lz_copy(h, dist, len).len() == h.len() + len,
        forall|i: int|
            0 <= i < len ==> #[trigger] lz_copy(h, dist, len)[h.len() + i] == h[h.len() - dist + i
                % dist],
        lz_copy(h, dist, len).take(h.len() as int) == h,
    decreases len,
{
    lemma_lz_copy_len(h, dist, len);
    if len > 0 {
        lemma_lz_copy_pattern(h, dist, len - 1);
        let prev = lz_copy(h, dist, len - 1);
        let cur = lz_copy(h, dist, len);
        assert forall|i: int| 0 <= i < len implies #[trigger] cur[h.len() + i] == h[h.len() - dist + i
            % dist] by {
            if i < len - 1 {
                assert(cur[h.len() + i] == prev[h.len() + i]);
            } else {
                // the new byte repeats the one dist before it
                let j = h.len() + i - dist;
                if i < dist {
                    assert(i % dist == i) by (nonlinear_arith)
                        requires
                            0 <= i < dist,
                    ;
                    assert(prev[j] == h[j]);
                } else {
                    assert((i - dist) % dist == i % dist) by (nonlinear_arith)
                        requires
                            dist <= i,
                            dist > 0,
                    ;
                    assert(prev[j] == prev[h.len() + (i - dist)]);
                }
            }
        }
    }
}

/// Appending `k` bytes of the repeated pattern continues the copy.
proof fn lemma_lz_copy_append(h: Seq<u8>, dist: int, done: int, k: int)
    requires
        0 < dist <= h.len(),
        done >= 0,
        0 <= k <= dist,
        done % dist == 0,
    ensures
        lz_copy(h, dist, done) + h.subrange(h.len() - dist, h.len() as int).take(k) == lz_copy(
            h,
            dist,
            done + k,
        ),
{
    lemma_lz_copy_pattern(h, dist, done);
    lemma_lz_copy_pattern(h, dist, done + k);
    let a = lz_copy(h, dist, done) + h.subrange(h.len() - dist, h.len() as int).take(k);
    let b = lz_copy(h, dist, done + k);
    assert forall|i: int| 0 <= i < a.len() implies a[i] == b[i] by {
        if i < h.len() {
            assert(b.take(h.len() as int)[i] == h[i]);
            if done > 0 {
                assert(lz_copy(h, dist, done).take(h.len() as int)[i] == h[i]);
            }
        } else if i < h.len() + done {
            let j = i - h.len();
            assert(a[i] == lz_copy(h, dist, done)[h.len() + j]);
            assert(b[h.len() + j] == h[h.len() - dist + j % dist]);
        } else {
            let j = i - h.len();
            let m = j - done;
            assert(a[i] == h[h.len() - dist + m]);
            assert((done + m) % dist == m) by (nonlinear_arith)
                requires
                    done % dist == 0,
                    0 <= m < dist,
                    done >= 0,
                    dist > 0,
            ;
            assert(b[h.len() + j] == h[h.len() - dist + j % dist]);
        }
    }
    assert(a =~= b);
}

/// A back-reference copy of `len` bytes from `dist` back keeps the history
/// at its front and appends `len` bytes, each equal to the byte `dist`
/// positions before it, so that a copy longer than its distance repeats
/// the copied bytes.
pub proof fn law_lz_copy(h: Seq<u8>, dist: int, len: int)
    requires
        0 < dist <= h.len(),
        len >= 0,
    ensures
        ({
            let r = lz_copy(h, dist, len);
            &&& r.len() == h.len() + len
            &&& r.take(h.len() as int) == h
            &&& forall|i: int| h.len() <= i < r.len() ==> #[trigger] r[i] == r[i - dist]
        }),
    decreases len,
{
    lemma_lz_copy_len(h, dist, len);
    if len > 0 {
        law_lz_copy(h, dist, len - 1);
        let prev = lz_copy(h, dist, len - 1);
        let r = lz_copy(h, dist, len);
        assert forall|i: int| h.len() <= i < r.len() implies #[trigger] r[i] == r[i - dist] by {
            if i < prev.len() {
                assert(r[i] == prev[i]);
                assert(r[i - dist] == prev[i - dist]);
            } else {
                assert(r[i - dist] == prev[i - dist]);
            }
        }
    }
}

} // verus!
