//! Reconstruction of typed values from a stream of raw byte chunks.
//!
//! [`Reconstructor`] accumulates incoming bytes, decodes every completed
//! `width`-byte group into a value, and keeps the decoded values until they
//! are collected and the queue is flushed. Bytes of a trailing partial value
//! are retained for the next write.

use crate::chunking::groups_of;
use crate::chunking::leftover_of;
use crate::chunking::lemma_groups_small;
use crate::chunking::lemma_leftover_len;
use crate::extend_from_bytes;
use crate::raw::ConverterFromRaw;
use crate::raw::RawConversionError;
use core::marker::PhantomData;
use vstd::arithmetic::div_mod::lemma_fundamental_div_mod;
use vstd::arithmetic::mul::lemma_mul_inequality;
use vstd::arithmetic::mul::lemma_mul_is_commutative;
use vstd::arithmetic::mul::lemma_mul_is_distributive_add_other_way;
use vstd::arithmetic::mul::lemma_mul_nonnegative;
use vstd::prelude::*;
use vstd::slice::slice_subrange;

verus! {

/// Reconstructs typed values from raw byte chunks, queueing the decoded
/// values until the queue is flushed.
///
/// # Type parameters
/// * `T` - the type that is reconstructed from the raw data
/// * `E` - the raw data conversion scheme
pub struct Reconstructor<T, E> {
    _e: PhantomData<E>,
    intermediate_buffer: Vec<u8>,
    buffer: Vec<T>,
}

impl<T, E: ConverterFromRaw<T>> Reconstructor<T, E> {
    /// The bytes retained from a trailing partial value.
    pub closed spec fn leftover(&self) -> Seq<u8> {
        self.intermediate_buffer@
    }

    /// The values decoded so far and not yet flushed, oldest first.
    pub closed spec fn values(&self) -> Seq<T> {
        self.buffer@
    }

    /// At rest, strictly fewer bytes are retained than one value occupies.
    pub closed spec fn wf(&self) -> bool {
        self.intermediate_buffer@.len() < E::spec_width()
    }

    /// Creates an empty reconstructor.
    pub fn new() -> (result: Self)
        ensures
            result.wf(),
            result.leftover() == Seq::<u8>::empty(),
            result.values() == Seq::<T>::empty(),
    {
        proof {
            E::lemma_width_positive();
        }
        Self { _e: PhantomData, intermediate_buffer: Vec::new(), buffer: Vec::new() }
    }

    /// The queued decoded values, as a slice, oldest first.
    pub fn raw_data(&self) -> (values: &[T])
        ensures
            values@ == self.values(),
    {
        self.buffer.as_slice()
    }

    /// The number of retained bytes awaiting the completion of a value.
    pub fn leftover_len(&self) -> (n: usize)
        ensures
            n == self.leftover().len(),
    {
        self.intermediate_buffer.len()
    }

    /// Consumes a chunk of raw bytes, decoding every value it completes.
    ///
    /// The retained bytes followed by the chunk are decoded as one stream:
    /// each full `width`-byte group yields one value, appended to the queue
    /// in order, and the trailing partial group is retained for the next
    /// call. Returns the number of bytes accepted, which is always the whole
    /// chunk.
    pub fn write(&mut self, buf: &[u8]) -> (result: Result<usize, RawConversionError>)
        requires
            old(self).wf(),
        ensures
            final(self).wf(),
            result == Ok::<usize, RawConversionError>(buf@.len() as usize),
            final(self).values() == old(self).values() + groups_of::<T, E>(
                old(self).leftover() + buf@,
            ),
            final(self).leftover() == leftover_of(old(self).leftover() + buf@, E::spec_width()),
    {
        let w = E::width();
        proof {
            E::lemma_width_positive();
        }
        let ghost s = old(self).intermediate_buffer@ + buf@;

        if buf.len() < w - self.intermediate_buffer.len() {
            extend_from_bytes(&mut self.intermediate_buffer, buf);
            proof {
                lemma_groups_small::<T, E>(s);
                assert(self.intermediate_buffer@ =~= s);
                assert(old(self).buffer@ + groups_of::<T, E>(s) =~= old(self).buffer@);
            }
            return Ok(buf.len());
        }

        extend_from_bytes(&mut self.intermediate_buffer, buf);
        proof {
            assert(self.intermediate_buffer@ =~= s);
        }
        let total = self.intermediate_buffer.len();
        let n = total / w;
        proof {
            lemma_fundamental_div_mod(total as int, w as int);
            lemma_mul_is_commutative(w as int, (total as int) / (w as int));
            assert((n as int) * (w as int) <= total as int);
        }
        let full = n * w;

        let mut i: usize = 0;
        while i < n
            invariant
                i <= n,
                w == E::spec_width(),
                w >= 1,
                self.intermediate_buffer@ == s,
                total == s.len(),
                n == s.len() / E::spec_width(),
                (n as int) * (w as int) <= total as int,
                self.buffer@ == old(self).buffer@ + groups_of::<T, E>(s).take(i as int),
            decreases n - i,
        {
            proof {
                lemma_mul_nonnegative(i as int, w as int);
                lemma_mul_inequality(i as int + 1, n as int, w as int);
                lemma_mul_is_distributive_add_other_way(w as int, i as int, 1);
            }
            let off = i * w;
            let group = slice_subrange(self.intermediate_buffer.as_slice(), off, off + w);
            let value = match E::from_raw(group) {
                Ok(value) => value,
                Err(error) => {
                    proof {
                        assert(false);
                    }
                    return Err(error);
                },
            };
            proof {
                assert(group@.take(E::spec_width() as int) =~= group@);
                assert(groups_of::<T, E>(s)[i as int] == E::spec_decode(group@));
            }
            self.buffer.push(value);
            proof {
                assert(old(self).buffer@ + groups_of::<T, E>(s).take(i + 1 as int) =~= (old(
                    self,
                ).buffer@ + groups_of::<T, E>(s).take(i as int)).push(
                    groups_of::<T, E>(s)[i as int],
                ));
            }
            i = i + 1;
        }
        proof {
            assert(groups_of::<T, E>(s).take(n as int) =~= groups_of::<T, E>(s));
        }

        let tail = slice_subrange(self.intermediate_buffer.as_slice(), full, total);
        let mut retained: Vec<u8> = Vec::new();
        extend_from_bytes(&mut retained, tail);
        self.intermediate_buffer = retained;
        proof {
            assert(Seq::<u8>::empty() + s.skip(full as int) =~= s.skip(full as int));
            assert(self.intermediate_buffer@ =~= leftover_of(s, E::spec_width()));
            lemma_leftover_len(s, E::spec_width());
        }
        Ok(buf.len())
    }

    /// At rest the reconstructor always retains strictly fewer bytes than
    /// one value occupies: a completed value is never left undecoded.
    pub proof fn lemma_leftover_bound(&self)
        requires
            self.wf(),
        ensures
            self.leftover().len() < E::spec_width(),
    {
    }

    /// Discards the queued decoded values; bytes retained from a trailing
    /// partial value are kept.
    pub fn flush(&mut self)
        requires
            old(self).wf(),
        ensures
            final(self).wf(),
            final(self).values() == Seq::<T>::empty(),
            final(self).leftover() == old(self).leftover(),
    {
        self.buffer.clear();
    }
}

impl<T: Copy, E: ConverterFromRaw<T>> Reconstructor<T, E> {
    /// The queued decoded values, copied out in order, oldest first.
    pub fn data(&self) -> (values: Vec<T>)
        ensures
            values@ == self.values(),
    {
        vstd::slice::slice_to_vec(self.buffer.as_slice())
    }
}

} // verus!
