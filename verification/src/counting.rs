//! Counting the flags that are set in a sequence.

use vstd::prelude::*;

verus! {

/// The number of set flags among the first `count`.
pub open spec fn count_true(flags: Seq<bool>, count: int) -> int
    decreases count,
{
    if count <= 0 {
        0
    } else {
        count_true(flags, count - 1) + if flags[count - 1] {
            1int
        } else {
            0int
        }
    }
}

/// The number of set flags lies between zero and the number of flags
/// counted.
pub proof fn lemma_count_true_bounds(flags: Seq<bool>, count: int)
    requires
        0 <= count,
    ensures
        0 <= count_true(flags, count) <= count,
    decreases count,
{
    if count > 0 {
        lemma_count_true_bounds(flags, count - 1);
    }
}

/// Sequences that agree on the flags counted have the same count.
pub proof fn lemma_count_true_agree(a: Seq<bool>, b: Seq<bool>, count: int)
    requires
        0 <= count,
        forall|i: int| 0 <= i < count ==> a[i] == b[i],
    ensures
        count_true(a, count) == count_true(b, count),
    decreases count,
{
    if count > 0 {
        lemma_count_true_agree(a, b, count - 1);
    }
}

/// Where every flag counted is set, the count is full; where none is, it
/// is zero.
pub proof fn lemma_count_true_uniform(flags: Seq<bool>, count: int, value: bool)
    requires
        0 <= count,
        forall|i: int| 0 <= i < count ==> flags[i] == value,
    ensures
        count_true(flags, count) == if value {
            count
        } else {
            0
        },
    decreases count,
{
    if count > 0 {
        lemma_count_true_uniform(flags, count - 1, value);
    }
}

/// Changing one flag changes the count by the change of that flag.
pub proof fn lemma_count_true_update(flags: Seq<bool>, at: int, value: bool, count: int)
    requires
        0 <= at < flags.len(),
        0 <= count <= flags.len(),
    ensures
        count_true(flags.update(at, value), count) == count_true(flags, count) + if at < count {
            (if value {
                1int
            } else {
                0int
            }) - (if flags[at] {
                1int
            } else {
                0int
            })
        } else {
            0int
        },
    decreases count,
{
    if count > 0 {
        lemma_count_true_update(flags, at, value, count - 1);
    }
}

/// Where exactly one flag is set, the count is one.
pub proof fn lemma_count_true_single(flags: Seq<bool>, at: int)
    requires
        0 <= at < flags.len(),
        forall|i: int| 0 <= i < flags.len() ==> flags[i] == (i == at),
    ensures
        count_true(flags, flags.len() as int) == 1,
{
    let cleared = flags.update(at, false);
    lemma_count_true_uniform(cleared, flags.len() as int, false);
    lemma_count_true_update(cleared, at, true, flags.len() as int);
    assert(cleared.update(at, true) =~= flags);
}

} // verus!
