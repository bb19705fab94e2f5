//! A line of samples of fixed length: what goes in comes out that many frames later.

use vstd::prelude::*;

use crate::float;
use crate::float::Single;

verus! {

/// A ring: the oldest sample at `at`.
pub struct Line {
    data: Vec<Single>,
    at: usize,
}

/// Where the sample `k` places behind the oldest lies in the ring.
pub open spec fn slot(at: int, k: int, len: int) -> int {
    if at + k < len {
        at + k
    } else {
        at + k - len
    }
}

impl Line {
    pub closed spec fn wf(&self) -> bool {
        self.at < self.data@.len()
    }

    /// The samples, the oldest first.
    pub closed spec fn view(&self) -> Seq<Single> {
        Seq::new(
            self.data@.len(),
            |k: int| self.data@[slot(self.at as int, k, self.data@.len() as int)],
        )
    }

    /// A silent line of `len` samples.
    pub fn new(len: usize) -> (line: Self)
        requires
            len > 0,
        ensures
            line.wf(),
            line@ == Seq::new(len as nat, |k: int| float::silence()),
    {
        let mut data: Vec<Single> = Vec::new();
        let mut i: usize = 0;
        while i < len
            invariant
                i <= len,
                data@ == Seq::new(i as nat, |k: int| float::silence()),
            decreases len - i,
        {
            data.push(Single { bits: 0 });
            i = i + 1;
        }
        let line = Line { data, at: 0 };
        assert(line@ =~= Seq::new(len as nat, |k: int| float::silence()));
        line
    }

    pub fn len(&self) -> (n: usize)
        ensures
            n == self@.len(),
    {
        self.data.len()
    }

    /// One sample in, the oldest out.
    pub fn shift(&mut self, x: Single) -> (oldest: Single)
        requires
            old(self).wf(),
        ensures
            final(self).wf(),
            oldest == old(self)@[0],
            final(self)@ == old(self)@.drop_first().push(x),
    {
        let oldest: Single = self.data[self.at];
        self.data[self.at] = x;
        let n: usize = self.data.len();
        self.at = if self.at + 1 < n {
            self.at + 1
        } else {
            0
        };
        assert(self@ =~= old(self)@.drop_first().push(x));
        oldest
    }

    /// The sample that came in `ago` samples before the newest.
    pub fn before(&self, ago: usize) -> (x: Single)
        requires
            self.wf(),
            ago < self@.len(),
        ensures
            x == self@[self@.len() - 1 - ago],
    {
        let n: usize = self.data.len();
        let k: usize = n - 1 - ago;
        let i: usize = if k < n - self.at {
            self.at + k
        } else {
            k - (n - self.at)
        };
        self.data[i]
    }

    /// Sum a sample onto the one that comes out after `ahead` more.
    pub fn sum<F: Fn(Single, Single) -> Single>(&mut self, ahead: usize, x: Single, mix: &F)
        requires
            old(self).wf(),
            ahead < old(self)@.len(),
            call_requires(*mix, (old(self)@[ahead as int], x)),
        ensures
            final(self).wf(),
            exists|y: Single|
                call_ensures(*mix, (old(self)@[ahead as int], x), y) && final(self)@ == #[trigger] old(self)@.update(
                    ahead as int,
                    y,
                ),
    {
        let n: usize = self.data.len();
        let i: usize = if ahead < n - self.at {
            self.at + ahead
        } else {
            ahead - (n - self.at)
        };
        let y: Single = mix(self.data[i], x);
        self.data[i] = y;
        assert(self@ =~= old(self)@.update(ahead as int, y));
    }
}

/// A line once samples went in, one after the other.
pub open spec fn fed(line: Seq<Single>, xs: Seq<Single>) -> Seq<Single> {
    (line + xs).skip(xs.len() as int)
}

/// A line delays by its length: what comes out next is what went in as many samples ago as the line is
/// long, and before that what the line held.
pub proof fn law_a_line_delays_by_its_length(line: Seq<Single>, xs: Seq<Single>, x: Single)
    requires
        line.len() > 0,
    ensures
        fed(line, xs).drop_first().push(x) == fed(line, xs.push(x)),
        fed(line, xs)[0] == (if xs.len() < line.len() {
            line[xs.len() as int]
        } else {
            xs[xs.len() - line.len()]
        }),
{
    assert(fed(line, xs).drop_first().push(x) =~= fed(line, xs.push(x)));
}

} // verus!
