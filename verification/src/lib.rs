//! A rolling buffer with a fixed-size window over values reconstructed from
//! a stream of raw bytes.
//!
//! Raw bytes arrive in arbitrarily sized chunks; a pluggable decoding scheme
//! (see [`ConverterFromRaw`]) turns each group of `width` bytes into one
//! value, bytes left over at a chunk boundary are retained for the next
//! chunk, and the most recently decoded values are kept in a window of fixed
//! capacity. The integer aggregates needed for the window's statistics
//! (sum, divisors, contents) are exposed as queries.

use partial_data_buffer::PartialDataBuffer;
use vstd::prelude::*;
use vstd::slice::slice_subrange;

pub mod chunking;
pub mod partial_data_buffer;
pub mod raw;
pub mod reconstructor;

pub use raw::BigEndian;
pub use raw::ConverterFromRaw;
pub use raw::LittleEndian;
pub use raw::RawConversionError;

verus! {

/// The sum of a sequence of window values, as a mathematical integer.
pub open spec fn sum_of(s: Seq<i32>) -> int
    decreases s.len(),
{
    if s.len() == 0 {
        0
    } else {
        sum_of(s.drop_last()) + s.last()
    }
}

/// The sum of `s` is bounded in magnitude by its length times `0x8000_0000`.
pub proof fn lemma_sum_of_bounds(s: Seq<i32>)
    ensures
        -((s.len() as int) * 0x8000_0000) <= sum_of(s) <= (s.len() as int) * 0x8000_0000,
    decreases s.len(),
{
    if s.len() > 0 {
        lemma_sum_of_bounds(s.drop_last());
    }
}

/// Splitting a write into two chunks leaves the facade in the same state
/// as writing the concatenation at once: starting from a window `window`
/// and retained bytes `retained`, writing `a` and then `b` yields the same
/// window of capacity `capacity` and the same retained bytes as writing
/// `a + b`. The terms below are the ones `RollingStats::write` ensures.
pub proof fn lemma_write_split_equivalent<T, E: ConverterFromRaw<T>>(
    window: Seq<T>,
    retained: Seq<u8>,
    a: Seq<u8>,
    b: Seq<u8>,
    capacity: nat,
)
    ensures
        chunking::last_n(
            chunking::last_n(window + chunking::groups_of::<T, E>(retained + a), capacity)
                + chunking::groups_of::<T, E>(
                chunking::leftover_of(retained + a, E::spec_width()) + b,
            ),
            capacity,
        ) == chunking::last_n(window + chunking::groups_of::<T, E>(retained + (a + b)), capacity),
        chunking::leftover_of(
            chunking::leftover_of(retained + a, E::spec_width()) + b,
            E::spec_width(),
        ) == chunking::leftover_of(retained + (a + b), E::spec_width()),
{
    chunking::lemma_chunking_associative::<T, E>(retained + a, b);
    assert((retained + a) + b =~= retained + (a + b));
    let first = chunking::groups_of::<T, E>(retained + a);
    let second = chunking::groups_of::<T, E>(
        chunking::leftover_of(retained + a, E::spec_width()) + b,
    );
    chunking::lemma_last_n_compose(window + first, second, capacity);
    assert((window + first) + second =~= window + (first + second));
    assert(window + chunking::groups_of::<T, E>(retained + (a + b)) =~= window + (first + second));
}

/// A rolling buffer specified by a fixed size window, feeding the
/// significant statistical values of its contents.
///
/// Raw data are written to the `RollingStats` in arbitrarily sized chunks;
/// every completed group of bytes becomes one value of the window, and the
/// oldest values are evicted once the window is full. The byte accounting
/// across chunk boundaries is delegated to a [`PartialDataBuffer`].
///
/// # Type parameters
/// * `T` - the type to be reconstructed from raw data.
/// * `E` - denotes a way to convert the raw data into the specified type.
pub struct RollingStats<T, E, const WINDOW_SIZE: usize> {
    intermediate_buffer: PartialDataBuffer<T, E>,
    buffer: Vec<T>,
}

impl<T, E: ConverterFromRaw<T>, const WINDOW_SIZE: usize> RollingStats<T, E, WINDOW_SIZE> {
    /// The values currently held by the window, oldest first.
    pub closed spec fn window(&self) -> Seq<T> {
        self.buffer@
    }

    /// The bytes retained from a trailing partial value.
    pub closed spec fn leftover(&self) -> Seq<u8> {
        self.intermediate_buffer.leftover()
    }

    /// Well-formed: the retained bytes are shorter than one value, and the
    /// window never exceeds its capacity.
    pub closed spec fn wf(&self) -> bool {
        &&& self.intermediate_buffer.wf()
        &&& self.buffer@.len() <= WINDOW_SIZE
    }

    /// Returns the number of items currently stored in the `RollingStats`
    /// struct. The maximal value returned is `WINDOW_SIZE`.
    pub fn len(&self) -> (n: usize)
        ensures
            n == self.window().len(),
            self.wf() ==> n <= WINDOW_SIZE,
    {
        self.buffer.len()
    }

    /// The window never exceeds its capacity, and the bytes retained from
    /// a trailing partial value are always fewer than one value's width.
    pub proof fn lemma_wf_bounds(&self)
        requires
            self.wf(),
        ensures
            self.window().len() <= WINDOW_SIZE,
            self.leftover().len() < E::spec_width(),
    {
        self.intermediate_buffer.lemma_leftover_bound();
    }

    /// Creates a new instance of the `RollingStats` with empty buffer.
    pub fn new() -> (result: Self)
        ensures
            result.wf(),
            result.window() == Seq::<T>::empty(),
            result.leftover() == Seq::<u8>::empty(),
    {
        Self { intermediate_buffer: Default::default(), buffer: Vec::new() }
    }

    /// The divisor of the window mean: the lesser of the window capacity
    /// and the current length, with a floor of one so that the mean of an
    /// empty window is defined.
    pub fn mean_divisor(&self) -> (divisor: usize)
        ensures
            divisor == vstd::math::max(
                vstd::math::min(WINDOW_SIZE as int, self.window().len() as int),
                1,
            ),
    {
        let len = self.buffer.len();
        let lesser = if WINDOW_SIZE < len {
            WINDOW_SIZE
        } else {
            len
        };
        if lesser == 0 {
            1
        } else {
            lesser
        }
    }

    /// The divisor of the sample standard deviation, with Bessel's
    /// correction: one less than the count of values averaged, where that
    /// count is floored at two so that fewer than two values still yield a
    /// defined result.
    pub fn std_dev_divisor(&self) -> (divisor: usize)
        ensures
            divisor == vstd::math::max(
                vstd::math::min(WINDOW_SIZE as int, self.window().len() as int),
                2,
            ) - 1,
    {
        let len = self.buffer.len();
        let lesser = if WINDOW_SIZE < len {
            WINDOW_SIZE
        } else {
            len
        };
        let floored = if lesser < 2 {
            2
        } else {
            lesser
        };
        floored - 1
    }
}

impl<T: Copy, E: ConverterFromRaw<T>, const WINDOW_SIZE: usize> RollingStats<T, E, WINDOW_SIZE> {
    /// Writes a chunk of raw bytes.
    ///
    /// The bytes retained from earlier writes followed by the chunk are
    /// decoded as one stream; every completed value is appended to the
    /// window's tail, the oldest values are evicted from the head until the
    /// window is back within its capacity, and the trailing partial value's
    /// bytes are retained. Returns the number of bytes accepted, which is
    /// always the whole chunk.
    pub fn write(&mut self, buf: &[u8]) -> (result: Result<usize, RawConversionError>)
        requires
            old(self).wf(),
        ensures
            final(self).wf(),
            result == Ok::<usize, RawConversionError>(buf@.len() as usize),
            final(self).window() == chunking::last_n(
                old(self).window() + chunking::groups_of::<T, E>(old(self).leftover() + buf@),
                WINDOW_SIZE as nat,
            ),
            final(self).leftover() == chunking::leftover_of(
                old(self).leftover() + buf@,
                E::spec_width(),
            ),
    {
        let ghost produced = chunking::groups_of::<T, E>(old(self).leftover() + buf@);
        let w = E::width();
        proof {
            E::lemma_width_positive();
        }

        let (reconstructed, rest) = self.intermediate_buffer.consume(buf);
        if let Some(value) = reconstructed {
            self.buffer.push(value);
        }
        proof {
            assert(self.buffer@ =~= old(self).buffer@ + chunking::seq_of_opt(reconstructed));
        }
        let ghost partial = self.intermediate_buffer;
        let ghost mid_groups = chunking::groups_of::<T, E>(rest@);

        let rest_len = rest.len();
        let n = rest_len / w;
        proof {
            vstd::arithmetic::div_mod::lemma_fundamental_div_mod(rest_len as int, w as int);
            vstd::arithmetic::mul::lemma_mul_is_commutative(
                w as int,
                (rest_len as int) / (w as int),
            );
            assert((n as int) * (w as int) <= rest_len as int);
        }
        let mut i: usize = 0;
        while i < n
            invariant
                i <= n,
                w == E::spec_width(),
                w >= 1,
                rest_len == rest@.len(),
                n == rest@.len() / E::spec_width(),
                (n as int) * (w as int) <= rest_len as int,
                self.intermediate_buffer == partial,
                mid_groups == chunking::groups_of::<T, E>(rest@),
                self.buffer@ == old(self).buffer@ + chunking::seq_of_opt(reconstructed)
                    + mid_groups.take(i as int),
            decreases n - i,
        {
            proof {
                vstd::arithmetic::mul::lemma_mul_nonnegative(i as int, w as int);
                vstd::arithmetic::mul::lemma_mul_inequality(i as int + 1, n as int, w as int);
                vstd::arithmetic::mul::lemma_mul_is_distributive_add_other_way(
                    w as int,
                    i as int,
                    1,
                );
            }
            let off = i * w;
            let group = slice_subrange(rest, off, off + w);
            let value = match E::from_raw(group) {
                Ok(value) => value,
                Err(error) => {
                    proof {
                        assert(false);
                    }
                    return Err(error);
                },
            };
            proof {
                assert(group@.take(E::spec_width() as int) =~= group@);
                assert(mid_groups[i as int] == E::spec_decode(group@));
            }
            self.buffer.push(value);
            proof {
                assert(old(self).buffer@ + chunking::seq_of_opt(reconstructed) + mid_groups.take(i
                    + 1 as int) =~= (old(self).buffer@ + chunking::seq_of_opt(reconstructed)
                    + mid_groups.take(i as int)).push(mid_groups[i as int]));
            }
            i = i + 1;
        }
        let ghost window_all = old(self).buffer@ + produced;
        proof {
            assert(mid_groups.take(n as int) =~= mid_groups);
            assert(old(self).buffer@ + chunking::seq_of_opt(reconstructed) + mid_groups
                =~= window_all);
        }

        while self.buffer.len() > WINDOW_SIZE
            invariant
                self.intermediate_buffer == partial,
                self.buffer@.len() <= window_all.len(),
                self.buffer@ == window_all.skip(window_all.len() - self.buffer@.len()),
                self.buffer@.len() >= WINDOW_SIZE || self.buffer@.len() == window_all.len(),
            decreases self.buffer@.len(),
        {
            self.buffer.remove(0);
            proof {
                assert(self.buffer@ =~= window_all.skip(
                    window_all.len() - self.buffer@.len(),
                ));
            }
        }
        proof {
            assert(self.buffer@ =~= chunking::last_n(window_all, WINDOW_SIZE as nat));
        }
        Ok(buf.len())
    }

    /// Flushing has no effect: written bytes are processed eagerly.
    pub fn flush(&mut self)
        ensures
            *final(self) == *old(self),
    {
    }

    /// The values currently held by the window, copied out in order,
    /// oldest first.
    pub fn values(&self) -> (values: Vec<T>)
        ensures
            values@ == self.window(),
    {
        vstd::slice::slice_to_vec(self.buffer.as_slice())
    }
}

impl<E: ConverterFromRaw<i32>, const WINDOW_SIZE: usize> RollingStats<i32, E, WINDOW_SIZE> {
    /// The sum of the values currently in the window, carried out without
    /// loss in a wide integer.
    pub fn window_sum(&self) -> (sum: i128)
        ensures
            sum == sum_of(self.window()),
    {
        let mut acc: i128 = 0;
        let mut i: usize = 0;
        while i < self.buffer.len()
            invariant
                i <= self.buffer@.len(),
                acc == sum_of(self.buffer@.take(i as int)),
            decreases self.buffer@.len() - i,
        {
            let value = self.buffer[i];
            proof {
                lemma_sum_of_bounds(self.buffer@.take(i as int));
                assert(self.buffer@.take((i + 1) as int).drop_last() =~= self.buffer@.take(
                    i as int,
                ));
                assert(self.buffer@.take((i + 1) as int).last() == self.buffer@[i as int]);
            }
            acc = acc + (value as i128);
            i = i + 1;
        }
        proof {
            assert(self.buffer@.take(self.buffer@.len() as int) =~= self.buffer@);
        }
        acc
    }
}

impl<T, E: ConverterFromRaw<T>, const WINDOW_SIZE: usize> Default for RollingStats<
    T,
    E,
    WINDOW_SIZE,
> {
    /// Creates a new instance of the `RollingStats` with empty buffer.
    fn default() -> (result: Self)
        ensures
            result.wf(),
            result.window() == Seq::<T>::empty(),
            result.leftover() == Seq::<u8>::empty(),
    {
        Self::new()
    }
}

/// Appends the bytes of `src` to `dst`.
pub(crate) fn extend_from_bytes(dst: &mut Vec<u8>, src: &[u8])
    ensures
        final(dst)@ == old(dst)@ + src@,
{
    let mut i: usize = 0;
    while i < src.len()
        invariant
            i <= src@.len(),
            dst@ == old(dst)@ + src@.take(i as int),
        decreases src@.len() - i,
    {
        let b = *vstd::slice::slice_index_get(src, i);
        dst.push(b);
        proof {
            assert(old(dst)@ + src@.take((i + 1) as int) =~= (old(dst)@ + src@.take(i as int)).push(
                src@[i as int],
            ));
        }
        i = i + 1;
    }
    proof {
        assert(src@.take(src@.len() as int) =~= src@);
    }
}

} // verus!
