//! The sample matrix for one chunk, and the shape rule of the raw stream.

use vstd::prelude::*;

verus! {

use crate::events::DetectError;
use vstd::arithmetic::div_mod::{
    lemma_basic_div,
    lemma_div_nonincreasing,
    lemma_fundamental_div_mod,
    lemma_small_mod,
};

/// A dense, row-major sample matrix: `sample_count()` rows of
/// `channel_count()` channels each, immutable during one engine
/// invocation. Viewed as a sequence of rows of integer sample values.
pub struct Signal {
    data: Vec<i64>,
    channels: usize,
}

impl View for Signal {
    type V = Seq<Seq<int>>;

    closed spec fn view(&self) -> Seq<Seq<int>> {
        Seq::new(
            self.spec_rows() as nat,
            |t: int|
                Seq::new(
                    self.channels as nat,
                    |j: int| self.data@[t * (self.channels as int) + j] as int,
                ),
        )
    }
}

impl Signal {
    /// Number of rows the flat buffer holds.
    pub closed spec fn spec_rows(&self) -> int {
        if self.channels == 0 {
            0
        } else {
            (self.data@.len() as int) / (self.channels as int)
        }
    }

    pub closed spec fn spec_channels(&self) -> int {
        self.channels as int
    }

    /// The flat buffer divides evenly into rows of a positive width.
    pub closed spec fn wf(&self) -> bool {
        &&& self.channels >= 1
        &&& (self.data@.len() as int) % (self.channels as int) == 0
    }

    /// Builds a matrix from a row-major flat buffer. A zero channel count
    /// is an `InvalidArgument`; a buffer length that is not a multiple of
    /// the channel count is a `DataShapeMismatch`, never a silent
    /// truncation.
    pub fn from_flat(values: Vec<i64>, channel_count: usize) -> (r: Result<Signal, DetectError>)
        ensures
            channel_count == 0 ==> r == Err::<Signal, DetectError>(DetectError::InvalidArgument),
            channel_count >= 1 && (values@.len() as int) % (channel_count as int) != 0 ==> r
                == Err::<Signal, DetectError>(DetectError::DataShapeMismatch),
            channel_count >= 1 && (values@.len() as int) % (channel_count as int) == 0 ==> {
                &&& r matches Ok(s)
                &&& s.wf()
                &&& s.spec_channels() == channel_count
                &&& s@.len() == (values@.len() as int) / (channel_count as int)
                &&& forall|t: int, j: int|
                    0 <= t < s@.len() && 0 <= j < channel_count ==> #[trigger] s@[t][j]
                        == values@[t * (channel_count as int) + j]
            },
    {
        if channel_count == 0 {
            Err(DetectError::InvalidArgument)
        } else if values.len() % channel_count != 0 {
            Err(DetectError::DataShapeMismatch)
        } else {
            Ok(Signal { data: values, channels: channel_count })
        }
    }

    pub fn channel_count(&self) -> (c: usize)
        ensures
            c == self.spec_channels(),
    {
        self.channels
    }

    pub fn sample_count(&self) -> (t: usize)
        requires
            self.wf(),
        ensures
            t == self@.len(),
    {
        self.data.len() / self.channels
    }

    /// The sample at row `t`, channel `j`.
    pub fn get(&self, t: usize, j: usize) -> (v: i64)
        requires
            self.wf(),
            t < self@.len(),
            j < self.spec_channels(),
        ensures
            v as int == self@[t as int][j as int],
    {
        proof {
            self.lemma_flat_index(t as int, j as int);
            assert(self.data.len() == self.data@.len());
        }
        self.data[t * self.channels + j]
    }

    /// The view of a well-formed matrix has `spec_channels()` columns in
    /// every row.
    pub proof fn lemma_view_shape(&self)
        requires
            self.wf(),
        ensures
            crate::model::signal_wf(self@, self.spec_channels() as nat),
            self@.len() == self.spec_rows(),
            self@.len() <= usize::MAX,
    {
        assert forall|t: int| 0 <= t < self@.len() implies (#[trigger] self@[t]).len()
            == self.spec_channels() as nat by {
        }
        lemma_div_nonincreasing(self.data@.len() as int, self.channels as int);
        assert(self.data.len() == self.data@.len());
    }

    /// Row-major indexing stays inside the flat buffer.
    proof fn lemma_flat_index(&self, t: int, j: int)
        requires
            self.wf(),
            0 <= t < self@.len(),
            0 <= j < self.spec_channels(),
        ensures
            0 <= t * (self.channels as int) + j < self.data@.len(),
            self@[t][j] == self.data@[t * (self.channels as int) + j] as int,
    {
        let c = self.channels as int;
        let len = self.data@.len() as int;
        let rows = len / c;
        lemma_fundamental_div_mod(len, c);
        assert(len == c * rows);
        assert(t * c + j >= 0) by (nonlinear_arith)
            requires
                t >= 0,
                j >= 0,
                c > 0,
        ;
        assert(t * c + j < len) by (nonlinear_arith)
            requires
                t < rows,
                0 <= j < c,
                len == c * rows,
        ;
    }
}

/// The row count of a raw-stream chunk: `bytes_read / (4 * channel_count)`
/// little-endian 4-byte samples interleaved per channel. A zero channel
/// count is an `InvalidArgument`; a trailing byte count that is not a
/// multiple of the per-sample stride is a `DataShapeMismatch` that must be
/// signaled, not silently truncated.
pub fn chunk_rows(bytes_read: usize, channel_count: usize) -> (r: Result<usize, DetectError>)
    ensures
        channel_count == 0 ==> r == Err::<usize, DetectError>(DetectError::InvalidArgument),
        channel_count >= 1 && (bytes_read as int) % (4 * (channel_count as int)) == 0 ==> {
            &&& r matches Ok(rows)
            &&& rows == (bytes_read as int) / (4 * (channel_count as int))
        },
        channel_count >= 1 && (bytes_read as int) % (4 * (channel_count as int)) != 0 ==> r
            == Err::<usize, DetectError>(DetectError::DataShapeMismatch),
{
    if channel_count == 0 {
        Err(DetectError::InvalidArgument)
    } else if channel_count <= usize::MAX / 4 {
        let stride = 4 * channel_count;
        if bytes_read % stride == 0 {
            Ok(bytes_read / stride)
        } else {
            Err(DetectError::DataShapeMismatch)
        }
    } else {
        let ghost stride = 4 * (channel_count as int);
        proof {
            lemma_fundamental_div_mod(usize::MAX as int, 4);
            assert(stride > usize::MAX);
            lemma_small_mod(bytes_read as nat, stride as nat);
            lemma_basic_div(bytes_read as int, stride);
        }
        if bytes_read == 0 {
            Ok(0)
        } else {
            Err(DetectError::DataShapeMismatch)
        }
    }
}

} // verus!
