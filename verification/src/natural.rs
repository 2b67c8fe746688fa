//! The natural lexical order of keys.
//!
//! Keys are ordered by the `lexical_sort` crate: letters compare without
//! regard to case or accents, and a run of digits compares as the number it
//! denotes. The crate computes such a number in 64 bits, so only keys
//! whose runs of digits fit in 64 bits can be ordered.

use vstd::prelude::*;
use lexical_sort::StringSort;
use crate::decimal::{all_digits, decimal_value, is_digit, lemma_decimal_value_widens};

verus! {

/// The characters that stand for `key` when keys are compared: what
/// `lexical_sort::iter::iterate_lexical` yields for it.
pub uninterp spec fn lexical_text(key: Seq<char>) -> Seq<char>;

/// Whether `left` comes strictly before `right` in the natural lexical
/// order: whether `lexical_sort::natural_lexical_cmp` returns `Less` for them.
pub uninterp spec fn natural_less(left: Seq<char>, right: Seq<char>) -> bool;

/// The keys in natural lexical order: what
/// `lexical_sort::StringSort::string_sort_unstable` makes of them when it is
/// given `lexical_sort::natural_lexical_cmp`.
pub uninterp spec fn natural_sorted(keys: Seq<Seq<char>>) -> Seq<Seq<char>>;

/// Whether every run of decimal digits in `text` denotes a number that fits in 64 bits.
pub open spec fn digit_runs_fit(text: Seq<char>) -> bool {
    forall|from: int, to: int|
        0 <= from <= to <= text.len() && all_digits(#[trigger] text.subrange(from, to))
            ==> decimal_value(text.subrange(from, to)) <= u64::MAX
}

/// Whether `key` can be ordered: whether the runs of digits in the
/// characters that stand for it fit in 64 bits.
pub open spec fn orderable(key: Seq<char>) -> bool {
    digit_runs_fit(lexical_text(key))
}

/// Whether all of `keys` can be ordered.
pub open spec fn all_orderable(keys: Seq<Seq<char>>) -> bool {
    forall|i: int| 0 <= i < keys.len() ==> orderable(#[trigger] keys[i])
}

/// Whether `keys` stand in natural lexical order: each key strictly before
/// every later key that differs from it.
pub open spec fn naturally_ordered(keys: Seq<Seq<char>>) -> bool {
    forall|i: int, j: int|
        0 <= i < j < keys.len() ==> #[trigger] keys[i] == #[trigger] keys[j] || natural_less(
            keys[i],
            keys[j],
        )
}

/// Trusted: calls `lexical_sort::iter::iterate_lexical` and collects what it
/// yields. The contract only names the result.
#[verifier::external_body]
pub(crate) fn transliterate(key: &str) -> (text: Vec<char>)
    ensures
        text@ == lexical_text(key@),
{
    lexical_sort::iter::iterate_lexical(key).collect()
}

/// Trusted: calls `lexical_sort::StringSort::string_sort_unstable` with
/// `lexical_sort::natural_lexical_cmp`, which sorts the slice in place with
/// std's `sort_unstable_by`.
///
/// The contract claims that the call rearranges the strings and leaves them
/// in ascending order of the comparison, and that two strings compare as
/// equal only when they are the same string. The comparison accumulates each
/// run of digits in a `u64` without a check, which is why the keys have to be
/// orderable.
#[verifier::external_body]
pub(crate) fn sort_naturally(keys: &mut Vec<String>)
    requires
        all_orderable(old(keys).deep_view()),
    ensures
        final(keys).deep_view() == natural_sorted(old(keys).deep_view()),
        final(keys).deep_view().to_multiset() == old(keys).deep_view().to_multiset(),
        forall|i: int, j: int|
            0 <= i < j < final(keys)@.len() ==> final(keys)@[i]@ == final(keys)@[j]@
                || #[trigger] natural_less(final(keys)@[i]@, final(keys)@[j]@),
{
    keys.string_sort_unstable(lexical_sort::natural_lexical_cmp);
}

/// Whether every run of decimal digits in `text` denotes a number that fits in 64 bits.
pub fn runs_fit(text: &Vec<char>) -> (fit: bool)
    ensures
        fit == digit_runs_fit(text@),
{
    let mut i: usize = 0;
    let mut start: usize = 0;
    let mut value: u64 = 0;
    while i < text.len()
        invariant
            start <= i <= text.len(),
            all_digits(text@.subrange(start as int, i as int)),
            start > 0 ==> !is_digit(text@[start - 1]),
            value == decimal_value(text@.subrange(start as int, i as int)),
            forall|from: int, to: int|
                0 <= from <= to <= i && all_digits(#[trigger] text@.subrange(from, to))
                    ==> decimal_value(text@.subrange(from, to)) <= u64::MAX,
        decreases text.len() - i,
    {
        let c = text[i];
        let ghost run = text@.subrange(start as int, i + 1);
        if '0' <= c && c <= '9' {
            let digit: u64 = (c as u64) - ('0' as u64);
            proof {
                assert(run.drop_last() =~= text@.subrange(start as int, i as int));
                assert(all_digits(run));
                assert(decimal_value(run) == value * 10 + digit);
            }
            if value > (u64::MAX - digit) / 10 {
                return false;
            }
            value = value * 10 + digit;
            proof {
                assert forall|from: int, to: int|
                    0 <= from <= to <= i + 1 && all_digits(
                        #[trigger] text@.subrange(from, to),
                    ) implies decimal_value(text@.subrange(from, to)) <= u64::MAX by {
                    if to == i + 1 {
                        if from < start {
                            assert(text@.subrange(from, to)[start - 1 - from] == text@[start - 1]);
                        } else {
                            lemma_decimal_value_widens(text@, start as int, from, to);
                        }
                    }
                }
            }
        } else {
            proof {
                assert forall|from: int, to: int|
                    0 <= from <= to <= i + 1 && all_digits(
                        #[trigger] text@.subrange(from, to),
                    ) implies decimal_value(text@.subrange(from, to)) <= u64::MAX by {
                    if to == i + 1 {
                        if from < to {
                            assert(text@.subrange(from, to)[i - from] == text@[i as int]);
                        } else {
                            assert(text@.subrange(from, to) =~= Seq::<char>::empty());
                        }
                    }
                }
            }
            start = i + 1;
            value = 0;
        }
        i += 1;
    }
    true
}

/// Whether `key` can be ordered.
pub fn is_orderable(key: &str) -> (yes: bool)
    ensures
        yes == orderable(key@),
{
    let text = transliterate(key);
    runs_fit(&text)
}

} // verus!
