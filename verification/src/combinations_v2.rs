//! The combinations of the elements of a slice, by one loop that keeps its
//! own stack of places.

use vstd::prelude::*;
use crate::combinations::{combinations_of, pick, picked, rows, selections};

verus! {

/// What the loop has yet to give when it stands at place `i` of `buf` with
/// `j` as the next place to try: the selections that go on from there, and
/// then those that come after a step back.
spec fn pending(arr: Seq<i32>, buf: Seq<usize>, i: nat, j: nat) -> Seq<Seq<i32>>
    decreases i,
{
    selections(arr, buf.take(i as int), j, (buf.len() - i) as nat) + if i == 0 {
        Seq::empty()
    } else {
        pending(arr, buf, (i - 1) as nat, (buf[i - 1] + 1) as nat)
    }
}

/// What is pending at place `i` depends on the places before `i` alone.
proof fn lemma_pending_prefix(arr: Seq<i32>, a: Seq<usize>, b: Seq<usize>, i: nat, j: nat)
    requires
        a.len() == b.len(),
        i <= a.len(),
        a.take(i as int) == b.take(i as int),
    ensures
        pending(arr, a, i, j) == pending(arr, b, i, j),
    decreases i,
{
    if i > 0 {
        assert(a[i - 1] == a.take(i as int)[i - 1]);
        assert(b[i - 1] == b.take(i as int)[i - 1]);
        assert(a.take(i - 1) =~= a.take(i as int).take(i - 1));
        assert(b.take(i - 1) =~= b.take(i as int).take(i - 1));
        lemma_pending_prefix(arr, a, b, (i - 1) as nat, (a[i - 1] + 1) as nat);
    }
}

/// Taking the place `j` at `i` and going on to the next place leaves what is
/// pending as it was.
proof fn lemma_pending_fill(arr: Seq<i32>, buf: Seq<usize>, i: nat, j: nat)
    requires
        i < buf.len(),
        j + (buf.len() - i) <= arr.len() <= usize::MAX,
    ensures
        pending(arr, buf.update(i as int, j as usize), i + 1, j + 1) == pending(arr, buf, i, j),
{
    let next = buf.update(i as int, j as usize);
    let pre = buf.take(i as int);
    assert(next.take(i as int) =~= pre);
    assert(next.take(i as int + 1) =~= pre.push(j as usize));
    lemma_pending_prefix(arr, next, buf, i, j + 1);
    let took = selections(arr, pre.push(j as usize), j + 1, (buf.len() - i - 1) as nat);
    let passed = selections(arr, pre, j + 1, (buf.len() - i) as nat);
    let lower: Seq<Seq<i32>> = if i == 0 {
        Seq::empty()
    } else {
        pending(arr, buf, (i - 1) as nat, (buf[i - 1] + 1) as nat)
    };
    assert(pending(arr, buf, i, j) == (took + passed) + lower);
    assert(pending(arr, next, i, j + 1) == pending(arr, buf, i, j + 1));
    assert(pending(arr, buf, i, j + 1) == passed + lower);
    assert(pending(arr, next, i + 1, j + 1) == took + pending(arr, next, i, j + 1));
    assert((took + passed) + lower =~= took + (passed + lower));
}

/// What is pending once the loop has gone as far as it can: the selection
/// that `buf` holds if it is full, and then what comes after a step back.
proof fn lemma_pending_end(arr: Seq<i32>, buf: Seq<usize>, i: nat, j: nat)
    requires
        i <= buf.len(),
        i < buf.len() ==> j + (buf.len() - i) > arr.len(),
    ensures
        pending(arr, buf, i, j) == if i == buf.len() {
            seq![picked(arr, buf)]
        } else {
            Seq::empty()
        } + if i == 0 {
            Seq::empty()
        } else {
            pending(arr, buf, (i - 1) as nat, (buf[i - 1] + 1) as nat)
        },
{
    if i == buf.len() {
        assert(buf.take(i as int) =~= buf);
    }
}

/// The combinations of `k` elements of `arr`.
pub fn combinations(arr: &[i32], k: usize) -> (res: Vec<Vec<i32>>)
    ensures
        rows(res@) == combinations_of(arr@, k as nat),
{
    let mut res: Vec<Vec<i32>> = Vec::new();

    if k <= arr.len() {
        let mut buf: Vec<usize> = vec![0; k];
        let mut i: usize = 0;
        let mut j: usize = 0;
        let n: usize = arr.len() - k;
        let ghost all = combinations_of(arr@, k as nat);
        proof {
            assert(buf@.take(0) =~= Seq::<usize>::empty());
            assert(rows(res@) =~= Seq::<Seq<i32>>::empty());
            assert(rows(res@) + pending(arr@, buf@, 0, 0) =~= all);
        }

        loop
            invariant_except_break
                rows(res@) + pending(arr@, buf@, i as nat, j as nat) == all,
            invariant
                buf@.len() == k,
                k <= arr@.len() <= usize::MAX,
                n == arr@.len() - k,
                i <= k,
                j <= n + i + 1,
                forall|m: int| 0 <= m < i ==> buf@[m] <= n + m,
            ensures
                rows(res@) == all,
            decreases pending(arr@, buf@, i as nat, j as nat).len(), i,
        {
            let ghost i0 = i;
            let ghost j0 = j;
            let ghost waiting = pending(arr@, buf@, i as nat, j as nat);
            while i < buf.len() && j <= n + i
                invariant
                    buf@.len() == k,
                    k <= arr@.len() <= usize::MAX,
                    n == arr@.len() - k,
                    i0 <= i <= k,
                    j - i == j0 - i0,
                    i > i0 ==> j0 <= n + i0,
                    forall|m: int| 0 <= m < i ==> buf@[m] <= n + m,
                    pending(arr@, buf@, i as nat, j as nat) == waiting,
                decreases k - i,
            {
                proof {
                    lemma_pending_fill(arr@, buf@, i as nat, j as nat);
                }
                let ghost held = buf@;
                buf[i] = j;
                proof {
                    assert forall|m: int| 0 <= m < i + 1 implies buf@[m] <= n + m by {
                        if m < i {
                            assert(buf@[m] == held[m]);
                        }
                    }
                }
                j += 1;
                i += 1;
            }
            proof {
                lemma_pending_end(arr@, buf@, i as nat, j as nat);
            }
            let ghost so_far = rows(res@);
            if i == buf.len() {
                res.push(pick(arr, &buf));
                proof {
                    assert(rows(res@) =~= so_far + seq![picked(arr@, buf@)]);
                }
            }
            let ghost lower: Seq<Seq<i32>> = if i == 0 {
                Seq::empty()
            } else {
                pending(arr@, buf@, (i - 1) as nat, (buf@[i - 1] + 1) as nat)
            };
            proof {
                if i == k {
                    assert((so_far + seq![picked(arr@, buf@)]) + lower =~= so_far + (seq![
                        picked(arr@, buf@),
                    ] + lower));
                } else {
                    assert(so_far + (Seq::<Seq<i32>>::empty() + lower) =~= so_far + lower);
                    assert(Seq::<Seq<i32>>::empty() + lower =~= lower);
                }
                assert(rows(res@) + lower == all);
                if i == 0 {
                    assert(rows(res@) + lower =~= rows(res@));
                }
            }
            if i == 0 {
                break ;
            }
            i -= 1;
            j = buf[i] + 1;
        }
    } else {
        assert(rows(res@) =~= combinations_of(arr@, k as nat));
    }

    res
}

} // verus!
