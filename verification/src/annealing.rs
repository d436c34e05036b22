use vstd::prelude::*;

verus! {

/// One step of the xorshift64 generator.
pub open spec fn xorshift_step(s: u64) -> u64 {
    let a = s ^ (s << 13u64);
    let b = a ^ (a >> 7u64);
    b ^ (b << 17u64)
}

/// The deterministic pseudo-random generator that drives the annealing.
pub struct Rng {
    state: u64,
}

impl View for Rng {
    type V = u64;

    closed spec fn view(&self) -> u64 {
        self.state
    }
}

impl Rng {
    pub fn new(seed: u64) -> (r: Self)
        ensures
            r@ == seed,
    {
        Rng { state: seed }
    }

    /// Advances the state by one xorshift step and returns the new state.
    pub fn next_u64(&mut self) -> (r: u64)
        ensures
            final(self)@ == xorshift_step(old(self)@),
            r == final(self)@,
    {
        self.state = self.state ^ (self.state << 13u64);
        self.state = self.state ^ (self.state >> 7u64);
        self.state = self.state ^ (self.state << 17u64);
        self.state
    }

    /// A value below `n`: the next output reduced modulo `n`.
    pub fn next_usize(&mut self, n: usize) -> (r: usize)
        requires
            n > 0,
        ensures
            final(self)@ == xorshift_step(old(self)@),
            r as int == xorshift_step(old(self)@) as int % n as int,
            r < n,
    {
        let x = self.next_u64();
        (x % (n as u64)) as usize
    }

    /// Two distinct indices below `n` for a swap: the first uniformly from
    /// the next output, the second from the one after among the `n - 1`
    /// others (skipping the first).
    pub fn pick_pair(&mut self, n: usize) -> (r: (usize, usize))
        requires
            n >= 2,
        ensures
            final(self)@ == xorshift_step(xorshift_step(old(self)@)),
            r.0 as int == xorshift_step(old(self)@) as int % n as int,
            r.1 as int == skip_index(
                xorshift_step(xorshift_step(old(self)@)) as int % (n - 1) as int,
                r.0 as int,
            ),
            r.0 < n,
            r.1 < n,
            r.0 != r.1,
    {
        let i = self.next_usize(n);
        let mut j = self.next_usize(n - 1);
        if j >= i {
            j += 1;
        }
        (i, j)
    }

    /// A run of consecutive stations of a line of `len` stations, as the
    /// half-open range `start..end`: the start from the next output, and a
    /// length from 1 to 4 from the one after, cut at the end of the line.
    pub fn pick_segment(&mut self, len: usize) -> (r: (usize, usize))
        requires
            len >= 1,
        ensures
            final(self)@ == xorshift_step(xorshift_step(old(self)@)),
            r.0 as int == xorshift_step(old(self)@) as int % len as int,
            r.1 as int == segment_end(
                r.0 as int,
                xorshift_step(xorshift_step(old(self)@)) as int,
                len as int,
            ),
            r.0 < r.1 <= len,
            r.1 - r.0 <= 4,
    {
        let start = self.next_usize(len);
        let rest = len - start;
        let span = if rest < 4 { rest } else { 4 };
        let extra = self.next_usize(span);
        let end = start + 1 + extra;
        let end = if end < len { end } else { len };
        (start, end)
    }

    /// An interior position of a line of `len` stations, one that has a
    /// neighbour on either side: `1 + (next output mod (len - 2))`.
    pub fn pick_interior(&mut self, len: usize) -> (r: usize)
        requires
            len >= 3,
        ensures
            final(self)@ == xorshift_step(old(self)@),
            r as int == 1 + xorshift_step(old(self)@) as int % (len - 2) as int,
            1 <= r <= len - 2,
    {
        1 + self.next_usize(len - 2)
    }
}

/// The index among `n` items that the `j`-th of the items other than the
/// `i`-th one has.
pub open spec fn skip_index(j: int, i: int) -> int {
    if j >= i {
        j + 1
    } else {
        j
    }
}

/// The end of a segment that starts at `start` on a line of `len` stations,
/// when the generator's output is `x`: `start + 1 + x mod min(len - start, 4)`,
/// but no further than the end of the line.
pub open spec fn segment_end(start: int, x: int, len: int) -> int {
    let span = if len - start < 4 {
        len - start
    } else {
        4
    };
    let end = start + 1 + x % span;
    if end < len {
        end
    } else {
        len
    }
}

} // verus!
