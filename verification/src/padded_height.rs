//! What a proof says about the height of the trace it was made for.

use vstd::arithmetic::power2::lemma2_to64;
use vstd::arithmetic::power2::lemma_pow2_strictly_increases;
use vstd::arithmetic::power2::lemma_pow2_unfold;
use vstd::arithmetic::power2::pow2;
use vstd::layout::unsigned_int_max_values;
use vstd::prelude::*;

verus! {

/// Why a proof has no padded height.
#[derive(Clone, Copy, Debug, PartialEq, Eq, Structural)]
pub enum PaddedHeightError {
    /// No item of the proof gives the logarithm of the padded height.
    Missing,
    /// More than one item of the proof gives one.
    Multiple,
}

/// Number of items that give a logarithm.
pub open spec fn count_given(items: Seq<Option<u32>>) -> nat
    decreases items.len(),
{
    if items.len() == 0 {
        0
    } else {
        let here: nat = if items.last().is_some() {
            1
        } else {
            0
        };
        count_given(items.drop_last()) + here
    }
}

/// The logarithm that the first item that gives one gives.
pub open spec fn first_given(items: Seq<Option<u32>>) -> u32
    decreases items.len(),
{
    if items.len() == 0 {
        0
    } else if count_given(items.drop_last()) > 0 {
        first_given(items.drop_last())
    } else {
        match items.last() {
            Some(h) => h,
            None => 0,
        }
    }
}

/// Two to the power of `e`, for an exponent below the width of the machine
/// word.
pub fn power_of_two(e: u32) -> (r: usize)
    requires
        e < usize::BITS,
    ensures
        r == pow2(e as nat),
{
    let mut r: usize = 1;
    let mut i: u32 = 0;
    proof {
        lemma2_to64();
    }
    while i < e
        invariant
            i <= e < usize::BITS,
            r == pow2(i as nat),
        decreases e - i,
    {
        proof {
            lemma_fits_the_word((i + 1) as nat);
            lemma_pow2_unfold((i + 1) as nat);
        }
        r = r * 2;
        i = i + 1;
    }
    r
}

/// Two to a power below the width of the machine word fits the word.
pub proof fn lemma_fits_the_word(e: nat)
    requires
        e < usize::BITS,
    ensures
        pow2(e) <= usize::MAX,
{
    unsigned_int_max_values();
    lemma_pow2_strictly_increases(e, usize::BITS as nat);
}

/// The padded height of the trace behind a proof, from the proof's items:
/// for each item the logarithm of the padded height that it gives, if it
/// gives one. A proof must give exactly one.
pub fn padded_height(items: &Vec<Option<u32>>) -> (r: Result<usize, PaddedHeightError>)
    requires
        forall|i: int| 0 <= i < items@.len() && (#[trigger] items@[i]).is_some() ==> items@[i].unwrap() < usize::BITS,
    ensures
        count_given(items@) == 0 ==> r == Err::<usize, PaddedHeightError>(PaddedHeightError::Missing),
        count_given(items@) > 1 ==> r == Err::<usize, PaddedHeightError>(PaddedHeightError::Multiple),
        count_given(items@) == 1 ==> r == Ok::<usize, PaddedHeightError>(
            pow2(first_given(items@) as nat) as usize,
        ),
{
    let mut padded_height: Option<usize> = None;
    let mut i: usize = 0;
    while i < items.len()
        invariant
            i <= items@.len(),
            forall|i: int|
                0 <= i < items@.len() && (#[trigger] items@[i]).is_some() ==> items@[i].unwrap() < usize::BITS,
            count_given(items@.take(i as int)) <= 1,
            padded_height.is_some() == (count_given(items@.take(i as int)) == 1),
            padded_height.is_some() ==> padded_height.unwrap() == pow2(
                first_given(items@.take(i as int)) as nat,
            ),
        decreases items@.len() - i,
    {
        proof {
            assert(items@.take(i + 1).drop_last() =~= items@.take(i as int));
        }
        match items[i] {
            Some(log_2_padded_height) => {
                if padded_height.is_some() {
                    proof {
                        lemma_count_given_grows(items@, i + 1);
                    }
                    return Err(PaddedHeightError::Multiple);
                }
                padded_height = Some(power_of_two(log_2_padded_height));
            },
            None => {},
        }
        i = i + 1;
    }
    proof {
        assert(items@.take(i as int) =~= items@);
    }
    match padded_height {
        Some(height) => Ok(height),
        None => Err(PaddedHeightError::Missing),
    }
}

/// More items give no fewer logarithms.
pub proof fn lemma_count_given_grows(items: Seq<Option<u32>>, i: int)
    requires
        0 <= i <= items.len(),
    ensures
        count_given(items.take(i)) <= count_given(items),
    decreases items.len() - i,
{
    if i < items.len() {
        lemma_count_given_grows(items, i + 1);
        assert(items.take(i + 1).drop_last() =~= items.take(i));
    } else {
        assert(items.take(i) =~= items);
    }
}

} // verus!
