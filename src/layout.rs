//! Reshaping a flat, row-major sequence into lists and rows.
use std::collections::VecDeque;

use vstd::prelude::*;

verus! {

pub open spec fn min(a: int, b: int) -> int {
    if a < b {
        a
    } else {
        b
    }
}

/// The values of `vector` as a list, in order.
pub fn vec_to_list<T: Copy>(vector: &Vec<T>) -> (r: VecDeque<T>)
    ensures
        r@ == vector@,
{
    let mut list: VecDeque<T> = VecDeque::new();
    let mut i: usize = 0;
    while i < vector.len()
        invariant
            i <= vector@.len(),
            list@ == vector@.subrange(0, i as int),
        decreases vector@.len() - i,
    {
        list.push_back(vector[i]);
        i = i + 1;
        assert(list@ =~= vector@.subrange(0, i as int));
    }
    assert(vector@.subrange(0, i as int) =~= vector@);
    list
}

/// Row `k` of `v` cut into rows of `cols` values; the last row may be shorter.
pub open spec fn row_of<T>(v: Seq<T>, cols: nat, k: int) -> Seq<T> {
    v.subrange(k * cols, min((k + 1) * cols, v.len() as int))
}

/// Cuts `vector` into rows of `cols` values, the last one possibly shorter.
pub fn vec_to_2d_list<T: Copy>(vector: &Vec<T>, cols: usize) -> (r: Vec<Vec<T>>)
    requires
        cols > 0 || vector@.len() == 0,
    ensures
        r@.len() * cols >= vector@.len(),
        r@.len() == 0 || (r@.len() - 1) * cols < vector@.len(),
        forall|k: int| 0 <= k < r@.len() ==> (#[trigger] r@[k])@ == row_of(vector@, cols as nat, k),
{
    let len: usize = vector.len();
    let mut r: Vec<Vec<T>> = Vec::new();
    let mut start: usize = 0;
    assert(r@.len() * cols == 0);
    while start < len
        invariant
            len == vector@.len(),
            cols > 0 || len == 0,
            start <= len,
            start == min(r@.len() * cols, len as int),
            r@.len() == 0 || (r@.len() - 1) * cols < len,
            forall|k: int| 0 <= k < r@.len() ==> (#[trigger] r@[k])@ == row_of(vector@, cols as nat, k),
        decreases len - start,
    {
        let end: usize = if len - start < cols {
            len
        } else {
            start + cols
        };
        let mut row: Vec<T> = Vec::with_capacity(end - start);
        let mut i: usize = start;
        while i < end
            invariant
                start <= i <= end <= len == vector@.len(),
                row@ == vector@.subrange(start as int, i as int),
            decreases end - i,
        {
            row.push(vector[i]);
            i = i + 1;
            assert(row@ =~= vector@.subrange(start as int, i as int));
        }
        proof {
            let k = r@.len() as int;
            assert((k + 1) * cols == k * cols + cols) by (nonlinear_arith);
        }
        r.push(row);
        start = end;
    }
    r
}

} // verus!
