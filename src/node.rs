use vstd::prelude::*;

verus! {

/// The largest sample value; mixing saturates here.
pub const SAMPLE_MAX: i64 = 0x7fff_ffff_ffff_ffff;

/// The smallest sample value; mixing saturates here.
pub const SAMPLE_MIN: i64 = -0x8000_0000_0000_0000;

/// A processing unit of the graph. Every variant offers the single
/// operation `process`, which receives the mixed sum of its inputs.
#[derive(Clone, Copy, Debug, PartialEq, Eq, Structural)]
pub enum Node {
    /// A generator that ignores its input and writes one value to every sample.
    Constant(i64),
    /// Leaves the mixed input unchanged.
    PassThrough,
    /// Leaves the mixed input unchanged and counts how often it was processed.
    Counter(u64),
}

/// Sample-wise mixing of two signals: the sum, held within the sample range.
pub open spec fn mix_sample(a: i64, b: i64) -> i64 {
    let s = a as int + b as int;
    if s > SAMPLE_MAX as int {
        SAMPLE_MAX
    } else if s < SAMPLE_MIN as int {
        SAMPLE_MIN
    } else {
        s as i64
    }
}

/// Mixing of two buffers of equal length, sample by sample.
pub open spec fn mix(a: Seq<i64>, b: Seq<i64>) -> Seq<i64> {
    Seq::new(a.len(), |k: int| mix_sample(a[k], b[k]))
}

/// A buffer of `len` samples of silence.
pub open spec fn silence(len: nat) -> Seq<i64> {
    Seq::new(len, |k: int| 0i64)
}

impl Node {
    /// What `process` writes, given the buffer it receives.
    pub open spec fn output(self, input: Seq<i64>) -> Seq<i64> {
        match self {
            Node::Constant(v) => Seq::new(input.len(), |k: int| v),
            Node::PassThrough => input,
            Node::Counter(_) => input,
        }
    }

    /// The node's state after one call of `process`.
    pub open spec fn stepped(self) -> Node {
        match self {
            Node::Counter(c) => Node::Counter(if c < u64::MAX { (c + 1) as u64 } else { c }),
            _ => self,
        }
    }

    /// Processes one buffer in place: the buffer keeps its length and is
    /// fully written; the node's own state advances by one step.
    pub fn process(&mut self, buffer: &mut Vec<i64>, sample_rate: u32)
        ensures
            final(buffer)@ == old(self).output(old(buffer)@),
            *final(self) == old(self).stepped(),
    {
        match self {
            Node::Constant(v) => {
                let v = *v;
                let n = buffer.len();
                let mut k: usize = 0;
                while k < n
                    invariant
                        buffer@.len() == n,
                        n == old(buffer)@.len(),
                        0 <= k <= n,
                        forall|i: int| 0 <= i < k ==> buffer@[i] == v,
                    decreases n - k,
                {
                    buffer.set(k, v);
                    k = k + 1;
                }
                assert(buffer@ =~= old(self).output(old(buffer)@));
            },
            Node::PassThrough => {},
            Node::Counter(c) => {
                if *c < u64::MAX {
                    *c = *c + 1;
                }
            },
        }
    }
}

/// Mixes `src` into `dst`, sample by sample, with saturation.
pub fn mix_into(dst: &mut Vec<i64>, src: &Vec<i64>)
    requires
        old(dst)@.len() == src@.len(),
    ensures
        final(dst)@ == mix(old(dst)@, src@),
{
    let n = dst.len();
    let mut k: usize = 0;
    while k < n
        invariant
            dst@.len() == n,
            src@.len() == n,
            n == old(dst)@.len(),
            0 <= k <= n,
            forall|i: int| 0 <= i < k ==> dst@[i] == mix_sample(old(dst)@[i], src@[i]),
            forall|i: int| k <= i < n ==> dst@[i] == old(dst)@[i],
        decreases n - k,
    {
        let a = dst[k];
        let b = src[k];
        let s: i128 = a as i128 + b as i128;
        let m: i64 = if s > SAMPLE_MAX as i128 {
            SAMPLE_MAX
        } else if s < SAMPLE_MIN as i128 {
            SAMPLE_MIN
        } else {
            s as i64
        };
        dst.set(k, m);
        k = k + 1;
    }
    assert(dst@ =~= mix(old(dst)@, src@));
}

/// A new buffer of `len` samples of silence.
pub fn silent_buffer(len: usize) -> (r: Vec<i64>)
    ensures
        r@ == silence(len as nat),
{
    let mut r: Vec<i64> = Vec::new();
    let mut k: usize = 0;
    while k < len
        invariant
            0 <= k <= len,
            r@ == silence(k as nat),
        decreases len - k,
    {
        r.push(0);
        k = k + 1;
        assert(r@ =~= silence(k as nat));
    }
    r
}

} // verus!
