//! Handling of incomplete raw data in a stream.
//!
//! [`PartialDataBuffer`] consumes a slice of newly received bytes. Bytes that
//! complete a previously retained partial value are decoded and returned;
//! the middle of the slice is handed back for further processing, stripped
//! of both the leading bytes that belonged to the previous value and the
//! trailing bytes of a new partial value, which are retained for the next
//! call. The returned slice therefore holds a whole number of encoded
//! values.
//!
//! As opposed to the [`Reconstructor`](crate::reconstructor::Reconstructor),
//! this solution avoids copying the bytes of complete values.

use crate::chunking::groups_of;
use crate::chunking::lemma_groups_peel;
use crate::chunking::lemma_groups_small;
use crate::chunking::lemma_groups_truncate;
use crate::chunking::lemma_leftover_len;
use crate::chunking::leftover_of;
use crate::chunking::seq_of_opt;
use crate::extend_from_bytes;
use crate::raw::ConverterFromRaw;
use core::marker::PhantomData;
use vstd::arithmetic::div_mod::lemma_div_pos_is_pos;
use vstd::arithmetic::div_mod::lemma_fundamental_div_mod;
use vstd::arithmetic::div_mod::lemma_mod_multiples_basic;
use vstd::arithmetic::mul::lemma_mul_nonnegative;
use vstd::prelude::*;
use vstd::slice::slice_subrange;

verus! {

/// A buffer retaining the bytes of a value split across chunk boundaries.
///
/// # Type parameters
/// * `T` - the type that is reconstructed from the raw data
/// * `E` - the raw data conversion scheme
pub struct PartialDataBuffer<T, E> {
    _e: PhantomData<E>,
    _t: PhantomData<T>,
    buffer: Vec<u8>,
}

impl<T, E: ConverterFromRaw<T>> PartialDataBuffer<T, E> {
    /// The bytes currently retained from a trailing partial value.
    pub closed spec fn leftover(&self) -> Seq<u8> {
        self.buffer@
    }

    /// At rest, strictly fewer bytes are retained than one value occupies.
    pub closed spec fn wf(&self) -> bool {
        self.buffer@.len() < E::spec_width()
    }

    /// The number of retained bytes awaiting the completion of a value.
    pub fn leftover_len(&self) -> (n: usize)
        ensures
            n == self.leftover().len(),
    {
        self.buffer.len()
    }

    /// Consumes a slice of raw data. If the bytes retained earlier are now
    /// completed by the slice's head, the completed value is decoded and
    /// returned. The returned slice is the input stripped of both the
    /// leading bytes used for that completion and the trailing bytes of a
    /// new partial value; it holds a whole number of encoded values, and
    /// together with the returned value it accounts for every full value
    /// group of the stream, while the new partial tail is retained.
    pub fn consume<'a>(&mut self, raw: &'a [u8]) -> (result: (Option<T>, &'a [u8]))
        requires
            old(self).wf(),
        ensures
            final(self).wf(),
            old(self).leftover().len() + raw@.len() < E::spec_width() ==> ({
                &&& result.0 is None
                &&& result.1@ == Seq::<u8>::empty()
                &&& final(self).leftover() == old(self).leftover() + raw@
            }),
            old(self).leftover().len() + raw@.len() >= E::spec_width() ==> ({
                let w = E::spec_width() as int;
                let offset = if old(self).leftover().len() > 0 {
                    w - old(self).leftover().len()
                } else {
                    0
                };
                let rem = (raw@.len() - offset) % w;
                &&& (offset > 0 ==> result.0 == Some(
                    E::spec_decode(old(self).leftover() + raw@.take(offset)),
                ))
                &&& (offset == 0 ==> result.0 is None)
                &&& result.1@ == raw@.subrange(offset, raw@.len() - rem)
                &&& final(self).leftover() == raw@.skip(raw@.len() - rem)
            }),
            seq_of_opt(result.0) + groups_of::<T, E>(result.1@) == groups_of::<T, E>(
                old(self).leftover() + raw@,
            ),
            final(self).leftover() == leftover_of(old(self).leftover() + raw@, E::spec_width()),
            (result.1@.len() as int) % (E::spec_width() as int) == 0,
    {
        let w = E::width();
        proof {
            E::lemma_width_positive();
        }
        let ghost l = self.buffer@;
        let ghost c = raw@;
        let ghost s = l + c;

        if raw.len() < w - self.buffer.len() {
            extend_from_bytes(&mut self.buffer, raw);
            let empty = slice_subrange(raw, 0, 0);
            proof {
                lemma_groups_small::<T, E>(s);
                lemma_groups_small::<T, E>(empty@);
                assert(empty@ =~= Seq::<u8>::empty());
                assert(self.buffer@ =~= s);
                assert(seq_of_opt(Option::<T>::None) + groups_of::<T, E>(empty@) =~= groups_of::<
                    T,
                    E,
                >(s));
            }
            return (None, empty);
        }

        let offset: usize = if self.buffer.len() > 0 {
            w - self.buffer.len()
        } else {
            0
        };

        let reconstructed: Option<T> = if offset > 0 {
            let head = slice_subrange(raw, 0, offset);
            extend_from_bytes(&mut self.buffer, head);
            proof {
                assert(self.buffer@ =~= l + c.take(offset as int));
            }
            let decoded = E::from_raw(self.buffer.as_slice());
            self.clear();
            proof {
                assert((l + c.take(offset as int)).take(E::spec_width() as int) =~= l + c.take(
                    offset as int,
                ));
            }
            match decoded {
                Ok(value) => Some(value),
                Err(_) => {
                    proof {
                        assert(false);
                    }
                    None
                },
            }
        } else {
            None
        };

        proof {
            lemma_div_pos_is_pos((c.len() - offset) as int, E::spec_width() as int);
            lemma_mul_nonnegative(
                ((c.len() - offset) as int) / (E::spec_width() as int),
                E::spec_width() as int,
            );
            lemma_fundamental_div_mod((c.len() - offset) as int, E::spec_width() as int);
        }
        let rem: usize = (raw.len() - offset) % w;
        if rem > 0 {
            let tail = slice_subrange(raw, raw.len() - rem, raw.len());
            extend_from_bytes(&mut self.buffer, tail);
        }
        let mid = slice_subrange(raw, offset, raw.len() - rem);

        proof {
            let wi = E::spec_width() as int;
            let rest = c.skip(offset as int);
            if l.len() > 0 {
                lemma_groups_peel::<T, E>(s);
                assert(s.take(wi) =~= l + c.take(offset as int));
                assert(s.skip(wi) =~= rest);
            } else {
                assert(s =~= rest);
            }
            lemma_groups_truncate::<T, E>(rest);
            lemma_leftover_len(rest, E::spec_width());
            lemma_fundamental_div_mod(rest.len() as int, wi);
            let full = ((rest.len() / E::spec_width()) * E::spec_width()) as int;
            assert(full == rest.len() - rem);
            assert(mid@ =~= rest.take(full));
            lemma_mod_multiples_basic((rest.len() / E::spec_width()) as int, wi);
            assert((mid@.len() as int) % wi == 0);
            assert(self.buffer@ =~= rest.skip(full));
            assert(self.buffer@ =~= c.skip(c.len() - rem));
            assert(seq_of_opt(reconstructed) + groups_of::<T, E>(mid@) =~= groups_of::<T, E>(s));
        }
        (reconstructed, mid)
    }

    /// At rest the buffer always retains strictly fewer bytes than one
    /// value occupies: a completed value is never left sitting in it.
    pub proof fn lemma_leftover_bound(&self)
        requires
            self.wf(),
        ensures
            self.leftover().len() < E::spec_width(),
    {
    }

    /// Clears the inner buffer, discarding the contained data.
    pub fn clear(&mut self)
        ensures
            final(self).wf(),
            final(self).leftover() == Seq::<u8>::empty(),
    {
        proof {
            E::lemma_width_positive();
        }
        self.buffer.clear();
    }

    /// Returns the size in bytes of the type meant to be reconstructed from
    /// the raw data.
    pub fn type_size(&self) -> (size: usize)
        ensures
            size == E::spec_width(),
    {
        E::width()
    }
}

impl<T, E: ConverterFromRaw<T>> Default for PartialDataBuffer<T, E> {
    /// Creates an empty buffer.
    fn default() -> (result: Self)
        ensures
            result.wf(),
            result.leftover() == Seq::<u8>::empty(),
    {
        proof {
            E::lemma_width_positive();
        }
        Self { _e: PhantomData, _t: PhantomData, buffer: Vec::new() }
    }
}

} // verus!
