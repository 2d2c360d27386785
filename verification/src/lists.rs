use vstd::prelude::*;

verus! {

/// The sum of the integers in the sequence.
pub open spec fn seq_sum(s: Seq<i32>) -> int
    decreases s.len(),
{
    if s.len() == 0 {
        0
    } else {
        seq_sum(s.drop_last()) + s.last()
    }
}

/// Computes the sum of all elements in the input i32 slice named
/// `slice`. Every prefix sum must stay within the i32 range.
pub fn sum(slice: &[i32]) -> (total: i32)
    requires
        forall|k: int|
            0 <= k <= slice@.len() ==> i32::MIN <= #[trigger] seq_sum(slice@.take(k)) <= i32::MAX,
    ensures
        total == seq_sum(slice@),
{
    let mut total: i32 = 0;
    let mut idx: usize = 0;
    while idx < slice.len()
        invariant
            0 <= idx <= slice@.len(),
            total == seq_sum(slice@.take(idx as int)),
            forall|k: int|
                0 <= k <= slice@.len() ==> i32::MIN <= #[trigger] seq_sum(slice@.take(k))
                    <= i32::MAX,
        decreases slice@.len() - idx,
    {
        proof {
            assert(slice@.take(idx as int + 1).drop_last() =~= slice@.take(idx as int));
            assert(slice@.take(idx as int + 1).last() == slice@[idx as int]);
            assert(seq_sum(slice@.take(idx as int + 1)) == seq_sum(slice@.take(idx as int))
                + slice@[idx as int]);
            assert(i32::MIN <= seq_sum(slice@.take(idx as int + 1)) <= i32::MAX);
        }
        total = total + slice[idx];
        idx += 1;
    }
    proof {
        assert(slice@.take(slice@.len() as int) =~= slice@);
    }
    total
}

/// The first occurrence of each distinct element, kept in the order of
/// first appearance.
pub open spec fn dedup_spec(s: Seq<i32>) -> Seq<i32>
    decreases s.len(),
{
    if s.len() == 0 {
        Seq::empty()
    } else {
        let rest = dedup_spec(s.drop_last());
        if rest.contains(s.last()) {
            rest
        } else {
            rest.push(s.last())
        }
    }
}

/// Whether the vector holds the value.
fn contains_i32(v: &Vec<i32>, x: i32) -> (r: bool)
    ensures
        r == v@.contains(x),
{
    let mut idx: usize = 0;
    while idx < v.len()
        invariant
            0 <= idx <= v@.len(),
            forall|t: int| 0 <= t < idx ==> v@[t] != x,
        decreases v@.len() - idx,
    {
        if v[idx] == x {
            proof {
                assert(v@.contains(x));
            }
            return true;
        }
        idx += 1;
    }
    false
}

/// Deduplicates items in the input vector `vs`. Produces a vector
/// containing the first instance of each distinct element of `vs`,
/// preserving the original order.
pub fn dedup(vs: &Vec<i32>) -> (result: Vec<i32>)
    ensures
        result@ == dedup_spec(vs@),
{
    let mut result: Vec<i32> = Vec::new();
    let mut idx: usize = 0;
    while idx < vs.len()
        invariant
            0 <= idx <= vs@.len(),
            result@ == dedup_spec(vs@.take(idx as int)),
        decreases vs@.len() - idx,
    {
        proof {
            assert(vs@.take(idx as int + 1).drop_last() =~= vs@.take(idx as int));
            assert(vs@.take(idx as int + 1).last() == vs@[idx as int]);
        }
        let orig = vs[idx];
        if !contains_i32(&result, orig) {
            result.push(orig);
        }
        idx += 1;
    }
    proof {
        assert(vs@.take(vs@.len() as int) =~= vs@);
    }
    result
}

/// The elements picked out by the mask, in order: the element stays
/// exactly where its mask entry is true.
pub open spec fn mask(s: Seq<i32>, keep: Seq<bool>) -> Seq<i32>
    decreases s.len(),
{
    if s.len() == 0 || s.len() != keep.len() {
        Seq::empty()
    } else {
        let rest = mask(s.drop_last(), keep.drop_last());
        if keep.last() {
            rest.push(s.last())
        } else {
            rest
        }
    }
}

/// Filters a vector `vs` using a predicate `pred` (a function from
/// `i32` to `bool`). Returns a new vector containing only elements that
/// satisfy `pred`: there is a mask recording the predicate's answer on
/// each element, and the result keeps exactly the elements the mask
/// keeps.
pub fn filter<F: Fn(i32) -> bool>(vs: &Vec<i32>, pred: &F) -> (result: Vec<i32>)
    requires
        forall|x: i32| pred.requires((x,)),
    ensures
        exists|keep: Seq<bool>|
            keep.len() == vs@.len() && (forall|i: int|
                0 <= i < vs@.len() ==> pred.ensures((vs@[i],), #[trigger] keep[i])) && result@
                == mask(vs@, keep),
{
    let mut result: Vec<i32> = Vec::new();
    let ghost mut keep: Seq<bool> = Seq::empty();
    let mut idx: usize = 0;
    while idx < vs.len()
        invariant
            0 <= idx <= vs@.len(),
            keep.len() == idx,
            forall|x: i32| pred.requires((x,)),
            forall|i: int| 0 <= i < idx ==> pred.ensures((vs@[i],), #[trigger] keep[i]),
            result@ == mask(vs@.take(idx as int), keep),
        decreases vs@.len() - idx,
    {
        proof {
            assert(vs@.take(idx as int + 1).drop_last() =~= vs@.take(idx as int));
            assert(vs@.take(idx as int + 1).last() == vs@[idx as int]);
        }
        let orig = vs[idx];
        let b = pred(orig);
        let ghost prev_keep = keep;
        proof {
            keep = keep.push(b);
            assert(keep.drop_last() =~= prev_keep);
        }
        if b {
            result.push(orig);
        }
        idx += 1;
    }
    proof {
        assert(vs@.take(vs@.len() as int) =~= vs@);
    }
    result
}

/// The sum of `n` times each element of the sequence.
pub open spec fn scaled_sum(s: Seq<i32>, n: int) -> int
    decreases s.len(),
{
    if s.len() == 0 {
        0
    } else {
        scaled_sum(s.drop_last(), n) + n * s.last()
    }
}

/// Multiplies each element of `a` by `n` and sums the products. Every
/// product and every prefix of the sum must stay within the i32 range.
pub fn vec_mult(a: &Vec<i32>, n: i32) -> (res: i32)
    requires
        forall|i: int| 0 <= i < a@.len() ==> i32::MIN <= (n as int) * #[trigger] a@[i] <= i32::MAX,
        forall|k: int|
            0 <= k <= a@.len() ==> i32::MIN <= #[trigger] scaled_sum(a@.take(k), n as int)
                <= i32::MAX,
    ensures
        res == scaled_sum(a@, n as int),
{
    let mut res: i32 = 0;
    let mut idx: usize = 0;
    while idx < a.len()
        invariant
            0 <= idx <= a@.len(),
            res == scaled_sum(a@.take(idx as int), n as int),
            forall|i: int| 0 <= i < a@.len() ==> i32::MIN <= (n as int) * #[trigger] a@[i] <= i32::MAX,
            forall|k: int|
                0 <= k <= a@.len() ==> i32::MIN <= #[trigger] scaled_sum(a@.take(k), n as int)
                    <= i32::MAX,
        decreases a@.len() - idx,
    {
        proof {
            assert(a@.take(idx as int + 1).drop_last() =~= a@.take(idx as int));
            assert(a@.take(idx as int + 1).last() == a@[idx as int]);
            assert(i32::MIN <= (n as int) * a@[idx as int] <= i32::MAX);
            assert(scaled_sum(a@.take(idx as int + 1), n as int) == scaled_sum(
                a@.take(idx as int),
                n as int,
            ) + (n as int) * a@[idx as int]);
            assert(i32::MIN <= scaled_sum(a@.take(idx as int + 1), n as int) <= i32::MAX);
        }
        let elem = a[idx];
        res = res + n * elem;
        idx += 1;
    }
    proof {
        assert(a@.take(a@.len() as int) =~= a@);
    }
    res
}

} // verus!
