//! The numeric contract fed to a progress display: cumulative positions
//! are monotone, never exceed the total, and reach exactly the total at
//! completion. A per-file callback inside a larger merge reports through
//! a cursor that offsets positions by the bytes already processed.

use vstd::prelude::*;

verus! {

/// A saturating sum, the value a progress position may not exceed.
pub open spec fn sat_add(a: u64, b: u64) -> u64 {
    if a + b <= u64::MAX {
        (a + b) as u64
    } else {
        u64::MAX
    }
}

/// A per-file progress callback nested inside a per-merge offset: the
/// position reported for `copied` bytes of the current file is the bytes
/// already processed before it plus `copied`.
pub struct ProgressCursor {
    pub base: u64,
}

impl ProgressCursor {
    /// The absolute position to report when `copied` bytes of the
    /// current file have been copied.
    pub fn position(&self, copied: u64) -> (r: u64)
        ensures
            r == sat_add(self.base, copied),
    {
        if copied <= u64::MAX - self.base {
            self.base + copied
        } else {
            u64::MAX
        }
    }

    /// The cursor for the next file, advanced by the finished file's
    /// size.
    pub fn advanced(&self, size: u64) -> (r: ProgressCursor)
        ensures
            r.base == sat_add(self.base, size),
    {
        ProgressCursor { base: self.position(size) }
    }
}

/// The position after `i + 1` chunks of a file of `len` bytes.
pub open spec fn chunk_position(len: u64, chunk: u64, i: int) -> u64 {
    if (i + 1) * chunk <= len {
        ((i + 1) * chunk) as u64
    } else {
        len
    }
}

/// The cumulative positions a buffered fallback copy reports: one after
/// every chunk, strictly increasing, never beyond the file's byte
/// length, and ending exactly at it.
pub fn chunk_positions(len: u64, chunk: u64) -> (r: Vec<u64>)
    requires
        chunk > 0,
    ensures
        r@.len() > 0,
        r@[r@.len() - 1] == len,
        forall|i: int| 0 <= i < r@.len() ==> #[trigger] r@[i] == chunk_position(len, chunk, i),
        forall|i: int| 0 <= i < r@.len() ==> #[trigger] r@[i] <= len,
        forall|i: int| 0 <= i < r@.len() - 1 ==> #[trigger] r@[i] < r@[i + 1],
{
    let mut r: Vec<u64> = Vec::new();
    let mut pos: u64 = 0;
    proof {
        assert(chunk * r@.len() == 0) by (nonlinear_arith)
            requires
                r@.len() == 0,
        ;
    }
    loop
        invariant
            chunk > 0,
            pos == chunk * r@.len(),
            pos < len || (pos == len && len == 0),
            r@.len() <= len,
            forall|i: int| 0 <= i < r@.len() ==> #[trigger] r@[i] == chunk_position(len, chunk, i),
            forall|i: int| 0 <= i < r@.len() ==> #[trigger] r@[i] <= len,
        decreases len - pos,
    {
        let step: u64 = if len - pos < chunk {
            len - pos
        } else {
            chunk
        };
        let next = pos + step;
        r.push(next);
        proof {
            let n = r@.len() - 1;
            assert(r@[n] == next);
            assert(next == chunk_position(len, chunk, n)) by (nonlinear_arith)
                requires
                    chunk > 0,
                    pos == chunk * n,
                    next == pos + chunk || (next == len && len <= pos + chunk),
                    next <= len,
                    pos <= len,
                    chunk_position(len, chunk, n) == (if (n + 1) * chunk <= len {
                        ((n + 1) * chunk) as u64
                    } else {
                        len
                    }),
            ;
        }
        if next == len {
            proof {
                assert forall|i: int| 0 <= i < r@.len() - 1 implies #[trigger] r@[i] < r@[i
                    + 1] by {
                    assert(r@[i] == chunk_position(len, chunk, i));
                    assert(r@[i + 1] == chunk_position(len, chunk, i + 1));
                    assert(chunk_position(len, chunk, i) < chunk_position(len, chunk, i + 1))
                        by (nonlinear_arith)
                        requires
                            chunk > 0,
                            0 <= i,
                            i + 2 <= r@.len(),
                            pos == chunk * (r@.len() - 1),
                            pos < len || (pos == len && len == 0),
                            len > 0,
                            chunk_position(len, chunk, i) == (if (i + 1) * chunk <= len {
                                ((i + 1) * chunk) as u64
                            } else {
                                len
                            }),
                            chunk_position(len, chunk, i + 1) == (if (i + 2) * chunk <= len {
                                ((i + 2) * chunk) as u64
                            } else {
                                len
                            }),
                    ;
                }
            }
            return r;
        }
        pos = next;
        proof {
            assert(pos == chunk * r@.len()) by (nonlinear_arith)
                requires
                    pos == chunk * (r@.len() - 1) + chunk,
            ;
            assert(r@.len() <= len) by (nonlinear_arith)
                requires
                    chunk > 0,
                    pos == chunk * r@.len(),
                    pos < len,
            ;
        }
    }
}

} // verus!
