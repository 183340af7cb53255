use vstd::prelude::*;
use crate::error::DecimateError;

verus! {

/// One point of a curve: when it was taken and where it lies.
#[derive(Clone, Copy, Debug, PartialEq, Eq)]
pub struct Sample {
    pub timestamp: u64,
    pub x: u64,
    pub y: u64,
}

/// An ordered series of samples, held as three index-aligned columns.
#[derive(Clone, Debug)]
pub struct Curve {
    timestamps: Vec<u64>,
    x: Vec<u64>,
    y: Vec<u64>,
}

/// The series that three aligned columns spell out, as long as the first.
pub open spec fn zip3(timestamps: Seq<u64>, x: Seq<u64>, y: Seq<u64>) -> Seq<Sample> {
    Seq::new(timestamps.len(), |i: int| Sample { timestamp: timestamps[i], x: x[i], y: y[i] })
}

/// The samples of `source` at the positions `indices`, in that order.
pub open spec fn picked(source: Seq<Sample>, indices: Seq<usize>) -> Seq<Sample> {
    Seq::new(indices.len(), |k: int| source[indices[k] as int])
}

/// Every index points into a series of `n` samples.
pub open spec fn all_below(indices: Seq<usize>, n: nat) -> bool {
    forall|k: int| 0 <= k < indices.len() ==> (#[trigger] indices[k]) < n
}

impl View for Curve {
    type V = Seq<Sample>;

    closed spec fn view(&self) -> Seq<Sample> {
        zip3(self.timestamps@, self.x@, self.y@)
    }
}

impl Curve {
    /// The three columns are equally long. Every series that this library
    /// hands out is aligned.
    pub closed spec fn aligned(&self) -> bool {
        self.timestamps.len() == self.x.len() && self.timestamps.len() == self.y.len()
    }

    /// The empty series.
    pub fn new() -> (c: Curve)
        ensures
            c.aligned(),
            c@ == Seq::<Sample>::empty(),
    {
        let c = Curve { timestamps: Vec::new(), x: Vec::new(), y: Vec::new() };
        assert(c@ =~= Seq::<Sample>::empty());
        c
    }

    /// The series whose columns are the three vectors.
    pub fn from_vectors(timestamps: Vec<u64>, x: Vec<u64>, y: Vec<u64>) -> (c: Curve)
        requires
            timestamps.len() == x.len(),
            timestamps.len() == y.len(),
        ensures
            c.aligned(),
            c@ == zip3(timestamps@, x@, y@),
    {
        Curve { timestamps, x, y }
    }

    /// Number of samples.
    pub fn len(&self) -> (n: usize)
        ensures
            n == self@.len(),
    {
        self.timestamps.len()
    }

    /// Whether the series holds no sample.
    pub fn is_empty(&self) -> (b: bool)
        ensures
            b == (self@.len() == 0),
    {
        self.timestamps.len() == 0
    }

    /// Puts a sample at position `index`; what stood there and behind it moves
    /// one place to the right.
    pub fn insert(&mut self, index: usize, timestamp: u64, x: u64, y: u64)
        requires
            old(self).aligned(),
            index <= old(self)@.len(),
        ensures
            final(self).aligned(),
            final(self)@ == old(self)@.insert(index as int, Sample { timestamp, x, y }),
    {
        self.timestamps.insert(index, timestamp);
        self.x.insert(index, x);
        self.y.insert(index, y);
        assert(self@ =~= old(self)@.insert(index as int, Sample { timestamp, x, y }));
    }

    /// The sample at position `index`.
    pub fn get(&self, index: usize) -> (s: Sample)
        requires
            self.aligned(),
            index < self@.len(),
        ensures
            s == self@[index as int],
    {
        Sample { timestamp: self.timestamps[index], x: self.x[index], y: self.y[index] }
    }

    /// The samples from left to right, each with its three values together.
    pub fn get_iters(&self) -> (all: Vec<Sample>)
        requires
            self.aligned(),
        ensures
            all@ == self@,
    {
        let n: usize = self.timestamps.len();
        let mut all: Vec<Sample> = Vec::new();
        let mut i: usize = 0;
        while i < n
            invariant
                n == self.timestamps.len(),
                n == self.x.len(),
                n == self.y.len(),
                i <= n,
                all@ == self@.take(i as int),
            decreases n - i,
        {
            all.push(Sample { timestamp: self.timestamps[i], x: self.x[i], y: self.y[i] });
            i += 1;
            assert(all@ =~= self@.take(i as int));
        }
        assert(all@ =~= self@);
        all
    }

    /// The column of timestamps.
    pub fn get_timestamps(&self) -> (column: &Vec<u64>)
        ensures
            column@.len() == self@.len(),
            forall|i: int| 0 <= i < self@.len() ==> column@[i] == (#[trigger] self@[i]).timestamp,
    {
        &self.timestamps
    }

    /// The column of x values.
    pub fn get_x(&self) -> (column: &Vec<u64>)
        requires
            self.aligned(),
        ensures
            column@.len() == self@.len(),
            forall|i: int| 0 <= i < self@.len() ==> column@[i] == (#[trigger] self@[i]).x,
    {
        &self.x
    }

    /// The column of y values.
    pub fn get_y(&self) -> (column: &Vec<u64>)
        requires
            self.aligned(),
        ensures
            column@.len() == self@.len(),
            forall|i: int| 0 <= i < self@.len() ==> column@[i] == (#[trigger] self@[i]).y,
    {
        &self.y
    }

    /// The samples of three aligned columns at the given positions.
    ///
    /// Refuses columns of different lengths first, then a position that lies
    /// outside them.
    pub fn select(
        timestamps: &Vec<u64>,
        x: &Vec<u64>,
        y: &Vec<u64>,
        indices: &Vec<usize>,
    ) -> (r: Result<Curve, DecimateError>)
        ensures
            (timestamps.len() != x.len() || timestamps.len() != y.len()) <==> r
                == Err::<Curve, DecimateError>(DecimateError::LengthMismatch),
            (timestamps.len() == x.len() && timestamps.len() == y.len() && !all_below(
                indices@,
                timestamps.len() as nat,
            )) <==> r == Err::<Curve, DecimateError>(DecimateError::IndexOutOfRange),
            (timestamps.len() == x.len() && timestamps.len() == y.len() && all_below(
                indices@,
                timestamps.len() as nat,
            )) <==> r is Ok,
            r is Ok ==> r->Ok_0.aligned() && r->Ok_0@ == picked(
                zip3(timestamps@, x@, y@),
                indices@,
            ),
    {
        let n: usize = timestamps.len();
        if n != x.len() || n != y.len() {
            return Err(DecimateError::LengthMismatch);
        }
        let mut out = Curve::new();
        let mut k: usize = 0;
        while k < indices.len()
            invariant
                n == timestamps.len(),
                n == x.len(),
                n == y.len(),
                k <= indices.len(),
                all_below(indices@.take(k as int), n as nat),
                out.aligned(),
                out@ == picked(zip3(timestamps@, x@, y@), indices@.take(k as int)),
            decreases indices.len() - k,
        {
            let i: usize = indices[k];
            if i >= n {
                assert(!all_below(indices@, n as nat));
                return Err(DecimateError::IndexOutOfRange);
            }
            let at: usize = out.len();
            out.insert(at, timestamps[i], x[i], y[i]);
            k += 1;
            assert(indices@.take(k as int) =~= indices@.take(k - 1).push(i));
            assert(out@ =~= picked(zip3(timestamps@, x@, y@), indices@.take(k as int)));
        }
        assert(indices@.take(k as int) =~= indices@);
        Ok(out)
    }
}

} // verus!
