//! The mathematical model of the byte stream.
//!
//! A stream of bytes `s` decoded under a scheme of width `w` yields the
//! values of its consecutive full `w`-byte groups ([`groups_of`]) and keeps
//! the trailing partial group as leftover bytes ([`leftover_of`]). The lemmas
//! here relate these two functions across chunk boundaries; in particular,
//! [`lemma_chunking_associative`] states that splitting a stream into chunks
//! in any way produces the same values and the same leftover as decoding the
//! whole stream at once.

use crate::raw::ConverterFromRaw;
use vstd::arithmetic::div_mod::lemma_fundamental_div_mod;
use vstd::arithmetic::div_mod::lemma_fundamental_div_mod_converse;
use vstd::arithmetic::mul::lemma_mul_inequality;
use vstd::arithmetic::mul::lemma_mul_is_commutative;
use vstd::arithmetic::mul::lemma_mul_nonnegative;
use vstd::arithmetic::mul::lemma_mul_is_distributive_add_other_way;
use vstd::prelude::*;

verus! {

/// The values encoded by the consecutive full `width`-byte groups of `s`, in
/// order. Bytes past the last full group contribute nothing.
pub open spec fn groups_of<T, E: ConverterFromRaw<T>>(s: Seq<u8>) -> Seq<T> {
    Seq::new(
        s.len() / E::spec_width(),
        |i: int|
            E::spec_decode(
                s.subrange(i * (E::spec_width() as int), (i + 1) * (E::spec_width() as int)),
            ),
    )
}

/// The bytes of `s` past its last full `w`-byte group: what a decoder must
/// retain after consuming `s`.
pub open spec fn leftover_of(s: Seq<u8>, w: nat) -> Seq<u8> {
    s.skip(((s.len() / w) * w) as int)
}

/// The last `n` elements of `s`, or all of `s` if it is shorter than `n`.
pub open spec fn last_n<T>(s: Seq<T>, n: nat) -> Seq<T> {
    if s.len() <= n {
        s
    } else {
        s.skip(s.len() - n)
    }
}

/// The elements of `o`, as a sequence of length zero or one.
pub open spec fn seq_of_opt<T>(o: Option<T>) -> Seq<T> {
    match o {
        Option::Some(v) => seq![v],
        Option::None => Seq::empty(),
    }
}

/// The leftover of a stream is its trailing partial group: it is shorter
/// than the group width, and the full groups cover the rest.
pub proof fn lemma_leftover_len(s: Seq<u8>, w: nat)
    requires
        w >= 1,
    ensures
        ((s.len() / w) * w) <= s.len(),
        leftover_of(s, w).len() == s.len() % w,
        leftover_of(s, w).len() < w,
{
    lemma_fundamental_div_mod(s.len() as int, w as int);
    lemma_mul_is_commutative(w as int, (s.len() as int) / (w as int));
}

/// A stream shorter than the group width yields no values and is retained
/// whole as leftover.
pub proof fn lemma_groups_small<T, E: ConverterFromRaw<T>>(s: Seq<u8>)
    requires
        s.len() < E::spec_width(),
    ensures
        groups_of::<T, E>(s) == Seq::<T>::empty(),
        leftover_of(s, E::spec_width()) == s,
{
    E::lemma_width_positive();
    let w = E::spec_width() as int;
    lemma_fundamental_div_mod_converse(s.len() as int, w, 0, s.len() as int);
    assert(s.len() / E::spec_width() == 0);
    assert(groups_of::<T, E>(s) =~= Seq::<T>::empty());
    assert(leftover_of(s, E::spec_width()) =~= s);
}

/// Peeling one full group off the front of a stream: the first value is
/// decoded from the first `width` bytes, and the remaining values and the
/// leftover come from the rest.
pub proof fn lemma_groups_peel<T, E: ConverterFromRaw<T>>(s: Seq<u8>)
    requires
        s.len() >= E::spec_width(),
    ensures
        groups_of::<T, E>(s) == seq![E::spec_decode(s.take(E::spec_width() as int))]
            + groups_of::<T, E>(s.skip(E::spec_width() as int)),
        leftover_of(s, E::spec_width()) == leftover_of(
            s.skip(E::spec_width() as int),
            E::spec_width(),
        ),
{
    E::lemma_width_positive();
    let w = E::spec_width() as int;
    let rest = s.skip(w);
    let m = (rest.len() / E::spec_width()) as int;
    let r = (rest.len() % E::spec_width()) as int;
    lemma_fundamental_div_mod(rest.len() as int, w);
    lemma_mul_is_commutative(w, m);
    assert(s.len() == w + m * w + r);
    lemma_mul_is_distributive_add_other_way(w, m, 1);
    assert(s.len() == (m + 1) * w + r);
    lemma_fundamental_div_mod_converse(s.len() as int, w, m + 1, r);
    let n = (s.len() / E::spec_width()) as int;
    assert(n == m + 1);
    assert(n * w <= s.len());

    let peeled = seq![E::spec_decode(s.take(w))] + groups_of::<T, E>(rest);
    assert forall|i: int| 0 <= i < n implies groups_of::<T, E>(s)[i] == peeled[i] by {
        lemma_mul_inequality(i + 1, n, w);
        assert((i + 1) * w <= n * w);
        if i == 0 {
            assert(s.subrange(0, w) =~= s.take(w));
        } else {
            lemma_mul_nonnegative(i - 1, w);
            lemma_mul_inequality(i - 1, i, w);
            lemma_mul_is_distributive_add_other_way(w, i - 1, 1);
            lemma_mul_is_distributive_add_other_way(w, i, 1);
            assert(rest.subrange((i - 1) * w, i * w) =~= s.subrange(i * w, (i + 1) * w));
            assert(peeled[i] == E::spec_decode(rest.subrange((i - 1) * w, i * w)));
        }
    }
    assert(groups_of::<T, E>(s) =~= peeled);

    lemma_mul_is_distributive_add_other_way(w, m, 1);
    assert(n * w == m * w + w);
    assert(rest.skip(m * w) =~= s.skip(n * w));
}

/// Cutting a stream back to its full groups changes neither the values nor
/// which bytes are left over.
pub proof fn lemma_groups_truncate<T, E: ConverterFromRaw<T>>(s: Seq<u8>)
    ensures
        groups_of::<T, E>(s.take(((s.len() / E::spec_width()) * E::spec_width()) as int))
            == groups_of::<T, E>(s),
        leftover_of(s, E::spec_width()) == s.skip(
            ((s.len() / E::spec_width()) * E::spec_width()) as int,
        ),
{
    E::lemma_width_positive();
    let w = E::spec_width() as int;
    let n = (s.len() / E::spec_width()) as int;
    lemma_fundamental_div_mod(s.len() as int, w);
    lemma_mul_is_commutative(w, n);
    assert(n * w <= s.len());
    let p = s.take(n * w);
    lemma_fundamental_div_mod_converse(p.len() as int, w, n, 0);
    assert(p.len() / E::spec_width() == n);
    assert forall|i: int| 0 <= i < n implies groups_of::<T, E>(p)[i] == groups_of::<T, E>(s)[i] by {
        lemma_mul_inequality(i + 1, n, w);
        assert((i + 1) * w <= n * w);
        lemma_mul_nonnegative(i, w);
        lemma_mul_inequality(i, i + 1, w);
        assert(p.subrange(i * w, (i + 1) * w) =~= s.subrange(i * w, (i + 1) * w));
    }
    assert(groups_of::<T, E>(p) =~= groups_of::<T, E>(s));
}

/// Keeping only the last `n` values after each batch of appends retains
/// the same values as keeping the last `n` once at the end.
pub proof fn lemma_last_n_compose<T>(s: Seq<T>, t: Seq<T>, n: nat)
    ensures
        last_n(last_n(s, n) + t, n) == last_n(s + t, n),
{
    let u = last_n(s, n);
    assert(last_n(u + t, n) =~= last_n(s + t, n));
}

/// Chunking is associative: feeding a stream `s` and then a stream `t`
/// produces the same values, and leaves the same bytes over, as feeding
/// `s + t` at once. The second feed starts from the leftover of the first.
pub proof fn lemma_chunking_associative<T, E: ConverterFromRaw<T>>(s: Seq<u8>, t: Seq<u8>)
    ensures
        groups_of::<T, E>(s + t) == groups_of::<T, E>(s) + groups_of::<T, E>(
            leftover_of(s, E::spec_width()) + t,
        ),
        leftover_of(s + t, E::spec_width()) == leftover_of(
            leftover_of(s, E::spec_width()) + t,
            E::spec_width(),
        ),
    decreases s.len(),
{
    E::lemma_width_positive();
    let w = E::spec_width() as int;
    if s.len() < E::spec_width() {
        lemma_groups_small::<T, E>(s);
        assert(s + t =~= leftover_of(s, E::spec_width()) + t);
        assert(groups_of::<T, E>(s) + groups_of::<T, E>(leftover_of(s, E::spec_width()) + t)
            =~= groups_of::<T, E>(s + t));
    } else {
        lemma_groups_peel::<T, E>(s);
        lemma_groups_peel::<T, E>(s + t);
        assert((s + t).take(w) =~= s.take(w));
        assert((s + t).skip(w) =~= s.skip(w) + t);
        lemma_chunking_associative::<T, E>(s.skip(w), t);
        assert(groups_of::<T, E>(s + t) =~= groups_of::<T, E>(s) + groups_of::<T, E>(
            leftover_of(s, E::spec_width()) + t,
        ));
    }
}

} // verus!
