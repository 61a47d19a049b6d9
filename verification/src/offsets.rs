//! Lists of offsets.

use vstd::prelude::*;

verus! {

/// Every offset of `offsets` moved by `by`.
pub open spec fn shifted(offsets: Seq<int>, by: int) -> Seq<int> {
    offsets.map_values(|o: int| o + by)
}

/// Machine offsets as integers.
pub open spec fn as_ints(offsets: Seq<usize>) -> Seq<int> {
    offsets.map_values(|o: usize| o as int)
}

/// As integers, machine offsets are the same numbers in the same order.
pub proof fn machine_offsets_are_integers(offsets: Seq<usize>)
    ensures
        as_ints(offsets).len() == offsets.len(),
        forall|i: int| 0 <= i < offsets.len() ==> #[trigger] as_ints(offsets)[i] == offsets[i],
{
}

/// `offsets` without those past `from` up to `to`, and with those past `to` moved back by the
/// distance between the two.
pub open spec fn remaining(offsets: Seq<int>, from: int, to: int) -> Seq<int>
    decreases offsets.len(),
{
    if offsets.len() == 0 {
        seq![]
    } else {
        let init = remaining(offsets.drop_last(), from, to);
        if offsets.last() <= from {
            init.push(offsets.last())
        } else if offsets.last() > to {
            init.push(offsets.last() - (to - from))
        } else {
            init
        }
    }
}

/// What remains of offsets in three parts: before the cut, in it, and past it.
pub(crate) proof fn lemma_remaining(a: Seq<int>, b: Seq<int>, c: Seq<int>, from: int, to: int)
    requires
        from <= to,
        forall|i: int| 0 <= i < a.len() ==> #[trigger] a[i] <= from,
        forall|i: int| 0 <= i < b.len() ==> from < #[trigger] b[i] <= to,
        forall|i: int| 0 <= i < c.len() ==> #[trigger] c[i] > to,
    ensures
        remaining(a + b + c, from, to) == a + shifted(c, from - to),
    decreases a.len() + b.len() + c.len(),
{
    let all = a + b + c;
    if c.len() > 0 {
        lemma_remaining(a, b, c.drop_last(), from, to);
        assert(all.drop_last() == a + b + c.drop_last());
        assert(remaining(all, from, to) == a + shifted(c, from - to));
    } else if b.len() > 0 {
        lemma_remaining(a, b.drop_last(), c, from, to);
        assert(all.drop_last() == a + b.drop_last() + c);
    } else if a.len() > 0 {
        lemma_remaining(a.drop_last(), b, c, from, to);
        assert(all.drop_last() == a.drop_last() + b + c);
        assert(all.last() == a.last());
        assert(remaining(all, from, to) == a + shifted(c, from - to));
    } else {
        assert(remaining(all, from, to) == a + shifted(c, from - to));
    }
}

/// Where `offset` stands among the increasing `offsets`: at the index given by `Ok`, or, being
/// absent, before that given by `Err`.
pub(crate) fn search(offsets: &Vec<usize>, offset: usize) -> (found: Result<usize, usize>)
    requires
        forall|i: int, j: int| 0 <= i < j < offsets@.len() ==> offsets@[i] < offsets@[j],
    ensures
        match found {
            Ok(i) => i < offsets@.len() && offsets@[i as int] == offset,
            Err(i) => {
                &&& i <= offsets@.len()
                &&& forall|j: int| 0 <= j < i ==> offsets@[j] < offset
                &&& forall|j: int| i <= j < offsets@.len() ==> offset < offsets@[j]
            },
        },
{
    let mut low: usize = 0;
    let mut high: usize = offsets.len();
    while low < high
        invariant
            low <= high <= offsets@.len(),
            forall|i: int, j: int| 0 <= i < j < offsets@.len() ==> offsets@[i] < offsets@[j],
            forall|j: int| 0 <= j < low ==> offsets@[j] < offset,
            forall|j: int| high <= j < offsets@.len() ==> offset < offsets@[j],
        decreases high - low,
    {
        let mid: usize = low + (high - low) / 2;
        if offsets[mid] == offset {
            return Ok(mid);
        }
        if offsets[mid] < offset {
            low = mid + 1;
        } else {
            high = mid;
        }
    }
    Err(low)
}

/// Adds `by` to every offset past `after`.
pub(crate) fn shift_after(offsets: &mut Vec<usize>, after: usize, by: usize)
    requires
        forall|j: int|
            0 <= j < old(offsets)@.len() ==> #[trigger] old(offsets)@[j] + by <= usize::MAX,
    ensures
        final(offsets)@.len() == old(offsets)@.len(),
        forall|j: int|
            0 <= j < final(offsets)@.len() ==> #[trigger] final(offsets)@[j] == if old(offsets)@[j]
                > after {
                old(offsets)@[j] + by
            } else {
                old(offsets)@[j] as int
            },
{
    let mut i: usize = 0;
    while i < offsets.len()
        invariant
            i <= offsets@.len(),
            offsets@.len() == old(offsets)@.len(),
            forall|j: int|
                0 <= j < old(offsets)@.len() ==> #[trigger] old(offsets)@[j] + by <= usize::MAX,
            forall|j: int| i <= j < offsets@.len() ==> #[trigger] offsets@[j] == old(offsets)@[j],
            forall|j: int|
                0 <= j < i ==> #[trigger] offsets@[j] == if old(offsets)@[j] > after {
                    old(offsets)@[j] + by
                } else {
                    old(offsets)@[j] as int
                },
        decreases offsets@.len() - i,
    {
        let off: usize = offsets[i];
        assert(off == old(offsets)@[i as int]);
        if off > after {
            offsets.set(i, off + by);
        }
        i += 1;
    }
}

/// Takes `by` off every offset from `from` on.
pub(crate) fn shift_back(offsets: &mut Vec<usize>, from: usize, by: usize)
    requires
        by <= from,
    ensures
        final(offsets)@.len() == old(offsets)@.len(),
        forall|j: int|
            0 <= j < final(offsets)@.len() ==> #[trigger] final(offsets)@[j] == if old(offsets)@[j]
                >= from {
                old(offsets)@[j] - by
            } else {
                old(offsets)@[j] as int
            },
{
    let mut i: usize = 0;
    while i < offsets.len()
        invariant
            i <= offsets@.len(),
            by <= from,
            offsets@.len() == old(offsets)@.len(),
            forall|j: int| i <= j < offsets@.len() ==> #[trigger] offsets@[j] == old(offsets)@[j],
            forall|j: int|
                0 <= j < i ==> #[trigger] offsets@[j] == if old(offsets)@[j] >= from {
                    old(offsets)@[j] - by
                } else {
                    old(offsets)@[j] as int
                },
        decreases offsets@.len() - i,
    {
        let off: usize = offsets[i];
        assert(off == old(offsets)@[i as int]);
        if off >= from {
            offsets.set(i, off - by);
        }
        i += 1;
    }
}

/// Puts `run` in among the increasing `offsets`, before the first that is greater.
pub(crate) fn splice(offsets: &mut Vec<usize>, run: Vec<usize>, Ghost(at): Ghost<int>)
    requires
        forall|i: int, j: int|
            0 <= i < j < old(offsets)@.len() ==> old(offsets)@[i] < old(offsets)@[j],
        run@.len() > 0,
        0 <= at <= old(offsets)@.len(),
        forall|j: int| 0 <= j < at ==> old(offsets)@[j] < run@[0],
        forall|j: int| at <= j < old(offsets)@.len() ==> run@[0] < old(offsets)@[j],
    ensures
        final(offsets)@ == old(offsets)@.take(at) + run@ + old(offsets)@.skip(at),
{
    let split_idx: usize = match search(offsets, run[0]) {
        Ok(i) => i,
        Err(i) => i,
    };
    assert(split_idx <= at) by {
        if split_idx > at {
            assert(offsets@[at] > run@[0]);
        }
    }
    assert(split_idx >= at) by {
        if split_idx < at {
            assert(offsets@[split_idx as int] < run@[0]);
        }
    }
    let mut run = run;
    let mut later = offsets.split_off(split_idx);
    offsets.append(&mut run);
    offsets.append(&mut later);
}

/// Takes out every offset past `from` up to `to`, and moves those past `to` back by the distance
/// between the two.
pub(crate) fn cut_out(offsets: &Vec<usize>, from: usize, to: usize) -> (rest: Vec<usize>)
    requires
        from <= to,
    ensures
        as_ints(rest@) == remaining(as_ints(offsets@), from as int, to as int),
{
    let del_size: usize = to - from;
    let mut rest: Vec<usize> = Vec::new();
    let mut i: usize = 0;
    while i < offsets.len()
        invariant
            i <= offsets@.len(),
            from <= to,
            del_size == to - from,
            as_ints(rest@) == remaining(as_ints(offsets@).take(i as int), from as int, to as int),
        decreases offsets@.len() - i,
    {
        let off: usize = offsets[i];
        let ghost seen = as_ints(offsets@).take(i + 1);
        assert(seen.drop_last() == as_ints(offsets@).take(i as int));
        assert(seen.last() == off);
        let ghost before = rest@;
        if off <= from {
            rest.push(off);
            assert(as_ints(rest@) == as_ints(before).push(off as int));
        } else if off > to {
            rest.push(off - del_size);
            assert(as_ints(rest@) == as_ints(before).push(off - del_size));
        }
        i += 1;
    }
    assert(as_ints(offsets@).take(i as int) == as_ints(offsets@));
    rest
}

} // verus!
