//! The parts of a message: the tree of its MIME structure, and the numbers
//! under which a listing offers the parts for selection.

use vstd::prelude::*;

verus! {

/// A part of a message, with the parts it holds.
#[derive(Debug, PartialEq, Eq)]
pub struct Part {
    pub mimetype: String,
    pub subparts: Vec<Part>,
}

/// The parts below `p`, each followed by the parts below it.
pub open spec fn below(p: Part) -> Seq<Part>
    decreases p,
{
    below_each(p.subparts@, p.subparts@.len() as int)
}

/// The first `n` of `parts`, each followed by the parts below it.
pub open spec fn below_each(parts: Seq<Part>, n: int) -> Seq<Part>
    decreases parts, n,
{
    if n <= 0 || n > parts.len() {
        seq![]
    } else {
        below_each(parts, n - 1) + seq![parts[n - 1]] + below(parts[n - 1])
    }
}

/// The part that a listing offers under the number `target`, where the parts
/// below `p` are numbered from `start` on.
pub open spec fn numbered(p: Part, start: usize, target: usize) -> Option<Part> {
    if start <= target && target - start < below(p).len() {
        Some(below(p)[target - start])
    } else {
        None
    }
}

/// The parts below the first `n` of `parts` are the first of the parts below
/// more of them.
proof fn lemma_below_each_grows(parts: Seq<Part>, n: int, m: int)
    requires
        0 <= n <= m <= parts.len(),
    ensures
        below_each(parts, n).len() <= below_each(parts, m).len(),
        below_each(parts, m).take(below_each(parts, n).len() as int) == below_each(parts, n),
    decreases m - n,
{
    if n < m {
        lemma_below_each_grows(parts, n, m - 1);
        let a = below_each(parts, m - 1);
        let b = below_each(parts, m);
        assert(b == a + seq![parts[m - 1]] + below(parts[m - 1]));
        assert(b.take(below_each(parts, n).len() as int) =~= a.take(
            below_each(parts, n).len() as int,
        ));
    } else {
        assert(below_each(parts, m).take(below_each(parts, n).len() as int) =~= below_each(
            parts,
            n,
        ));
    }
}

impl Part {
    /// Looks for the part numbered `target`, where the parts below this one
    /// are numbered from `*counter` on in the order of a listing. Where it is
    /// not among them, `*counter` is moved past their numbers, as far as they
    /// are no greater than `target`.
    pub fn get_tree_part(&self, counter: &mut usize, target: usize) -> (r: Option<&Part>)
        ensures
            match r {
                Some(part) => {
                    &&& numbered(*self, *old(counter), target) == Some(*part)
                    &&& *final(counter) == target
                },
                None => {
                    &&& numbered(*self, *old(counter), target) is None
                    &&& *old(counter) <= target ==> *final(counter) == *old(counter) + below(
                        *self,
                    ).len()
                    &&& *old(counter) > target ==> *final(counter) == *old(counter)
                },
            },
        decreases self,
    {
        if *counter > target {
            return None;
        }
        let n = self.subparts.len();
        let ghost start = *counter;
        let ghost parts = self.subparts@;
        for i in 0..n
            invariant
                n == self.subparts@.len(),
                parts == self.subparts@,
                start == *old(counter),
                start <= target,
                *counter == start + below_each(parts, i as int).len(),
                *counter <= target,
        {
            proof {
                lemma_below_each_grows(parts, i as int, i + 1);
                lemma_below_each_grows(parts, i + 1, n as int);
            }
            let ghost done = below_each(parts, i as int);
            let ghost next = below_each(parts, i + 1);
            let ghost all = below(*self);
            assert(next == done + seq![parts[i as int]] + below(parts[i as int]));
            assert(all == below_each(parts, n as int));
            if *counter == target {
                proof {
                    let k = done.len() as int;
                    assert(next[k] == parts[i as int]);
                    assert(all.take(next.len() as int)[k] == all[k]);
                }
                return Some(&self.subparts[i]);
            }
            *counter += 1;
            match self.subparts[i].get_tree_part(counter, target) {
                Some(part) => {
                    proof {
                        let k = target - start;
                        let sub = below(parts[i as int]);
                        assert(next[k] == sub[k - done.len() - 1]);
                        assert(all.take(next.len() as int)[k] == all[k]);
                    }
                    return Some(part);
                },
                None => {},
            }
        }
        None
    }
}

} // verus!
