//! Fixed-length recent-sample window feeding a sparkline: pushes append at
//! the tail, and once the window is full the oldest sample falls off the
//! front.

use vstd::prelude::*;

verus! {

/// The number of samples a sparkline window retains.
pub const SPARK_WINDOW: usize = 400;

/// A bounded queue of recent samples, oldest first.
pub struct SparklineData {
    data: Vec<u64>,
    max_len: usize,
}

impl SparklineData {
    /// The retained samples, oldest first.
    pub closed spec fn samples(self) -> Seq<u64> {
        self.data@
    }

    /// The window bound.
    pub closed spec fn max_len_spec(self) -> int {
        self.max_len as int
    }

    /// The window never overflows its bound.
    pub open spec fn wf(self) -> bool {
        &&& self.max_len_spec() >= 1
        &&& self.samples().len() <= self.max_len_spec()
    }

    /// An empty window with the standard bound.
    pub fn new() -> (r: SparklineData)
        ensures
            r.wf(),
            r.samples() == Seq::<u64>::empty(),
            r.max_len_spec() == SPARK_WINDOW as int,
    {
        let max_len = SPARK_WINDOW;
        SparklineData { data: Vec::with_capacity(max_len), max_len }
    }

    /// Append one sample; once the window is full, the oldest sample is
    /// dropped to make room.
    pub fn push(&mut self, val: u64)
        requires
            old(self).wf(),
        ensures
            final(self).wf(),
            final(self).max_len_spec() == old(self).max_len_spec(),
            final(self).samples() == if old(self).samples().len()
                < old(self).max_len_spec() {
                old(self).samples().push(val)
            } else {
                old(self).samples().drop_first().push(val)
            },
    {
        self.data.push(val);
        if self.data.len() > self.max_len {
            self.data.remove(0);
            proof {
                assert(self.data@ =~= old(self).samples().drop_first().push(val));
            }
        }
    }

    /// The retained samples, oldest first.
    pub fn as_slice(&self) -> (r: &[u64])
        ensures
            r@ == self.samples(),
    {
        self.data.as_slice()
    }
}

} // verus!
