//! The combinations of the elements of a slice, by recursive descent.

use vstd::prelude::*;

verus! {

/// The elements of `arr` at the places `run`, in the order of `run`.
pub open spec fn picked(arr: Seq<i32>, run: Seq<usize>) -> Seq<i32> {
    Seq::new(run.len(), |m: int| arr[run[m] as int])
}

/// The selections of `arr` that start with the elements at the places `pre`
/// and go on with `k` more elements at ascending places from `j` on: first
/// those that take the element at `j`, then those that pass it over.
pub open spec fn selections(arr: Seq<i32>, pre: Seq<usize>, j: nat, k: nat) -> Seq<Seq<i32>>
    decreases k, arr.len() - j,
{
    if k == 0 {
        seq![picked(arr, pre)]
    } else if j + k > arr.len() {
        Seq::empty()
    } else {
        selections(arr, pre.push(j as usize), j + 1, (k - 1) as nat) + selections(
            arr,
            pre,
            j + 1,
            k,
        )
    }
}

/// The combinations of `k` elements of `arr`: each in the order of `arr`,
/// and all of them in the lexicographic order of their places.
pub open spec fn combinations_of(arr: Seq<i32>, k: nat) -> Seq<Seq<i32>> {
    selections(arr, Seq::empty(), 0, k)
}

/// The sequences that the vectors of `res` hold.
pub open spec fn rows(res: Seq<Vec<i32>>) -> Seq<Seq<i32>> {
    Seq::new(res.len(), |m: int| res[m]@)
}

/// The elements of `arr` at the places that `buf` holds.
pub fn pick(arr: &[i32], buf: &Vec<usize>) -> (out: Vec<i32>)
    requires
        forall|m: int| 0 <= m < buf@.len() ==> buf@[m] < arr@.len(),
    ensures
        out@ == picked(arr@, buf@),
{
    let mut out: Vec<i32> = Vec::new();
    for m in 0..buf.len()
        invariant
            forall|m: int| 0 <= m < buf@.len() ==> buf@[m] < arr@.len(),
            out@.len() == m,
            forall|t: int| 0 <= t < m ==> out@[t] == arr@[buf@[t] as int],
    {
        out.push(arr[buf[m]]);
    }
    assert(out@ =~= picked(arr@, buf@));
    out
}

/// The combinations of `k` elements of `arr`.
pub fn combinations(arr: &[i32], k: usize) -> (res: Vec<Vec<i32>>)
    ensures
        rows(res@) == combinations_of(arr@, k as nat),
{
    let mut res: Vec<Vec<i32>> = Vec::new();

    if k <= arr.len() {
        let mut buf: Vec<usize> = vec![0; k];
        proof {
            assert(buf@.take(0) =~= Seq::<usize>::empty());
            assert(rows(res@) =~= Seq::<Seq<i32>>::empty());
        }
        dfs(arr, &mut buf, &mut res, 0, 0, arr.len() - k);
        assert(rows(res@) =~= combinations_of(arr@, k as nat));
    } else {
        assert(rows(res@) =~= combinations_of(arr@, k as nat));
    }

    res
}

/// Adds to `res` the selections that start with the first `i` places of
/// `buf` and go on with places from `start` on.
fn dfs(
    arr: &[i32],
    buf: &mut Vec<usize>,
    res: &mut Vec<Vec<i32>>,
    i: usize,
    start: usize,
    end: usize,
)
    requires
        i <= old(buf)@.len() <= arr@.len(),
        end == arr@.len() - old(buf)@.len() + i,
        start <= end + 1,
        forall|m: int| 0 <= m < i ==> old(buf)@[m] < arr@.len(),
    ensures
        final(buf)@.len() == old(buf)@.len(),
        final(buf)@.take(i as int) == old(buf)@.take(i as int),
        rows(final(res)@) == rows(old(res)@) + selections(
            arr@,
            old(buf)@.take(i as int),
            start as nat,
            (old(buf)@.len() - i) as nat,
        ),
    decreases old(buf)@.len() - i,
{
    let ghost pre = buf@.take(i as int);
    let ghost k = buf@.len();
    let ghost before = rows(res@);
    proof {
        assert(arr.len() == arr@.len());
    }
    if i == buf.len() {
        proof {
            assert(buf@.take(i as int) =~= buf@);
        }
        res.push(pick(arr, buf));
        proof {
            assert(rows(res@) =~= before + seq![picked(arr@, pre)]);
        }
        return ;
    }
    let mut j: usize = start;
    while j <= end
        invariant
            i < k,
            buf@.len() == k,
            old(buf)@.len() == k,
            k <= arr@.len() <= usize::MAX,
            end == arr@.len() - k + i,
            start <= j <= end + 1,
            buf@.take(i as int) == pre,
            forall|m: int| 0 <= m < i ==> buf@[m] < arr@.len(),
            rows(res@) + selections(arr@, pre, j as nat, (k - i) as nat) == before + selections(
                arr@,
                pre,
                start as nat,
                (k - i) as nat,
            ),
        decreases end + 1 - j,
    {
        let ghost so_far = rows(res@);
        let ghost held = buf@;
        buf[i] = j;
        proof {
            assert(buf@.take(i as int) =~= pre);
            assert(buf@.take(i + 1) =~= pre.push(j));
            assert forall|m: int| 0 <= m < i + 1 implies buf@[m] < arr@.len() by {
                if m < i {
                    assert(buf@[m] == held[m]);
                }
            }
        }
        let ghost set = buf@;
        dfs(arr, buf, res, i + 1, j + 1, end + 1);
        proof {
            assert(buf@.take(i as int) =~= buf@.take(i + 1).take(i as int));
            assert(set.take(i as int) =~= set.take(i + 1).take(i as int));
            assert forall|m: int| 0 <= m < i implies buf@[m] < arr@.len() by {
                assert(buf@[m] == buf@.take(i + 1)[m]);
                assert(set[m] == set.take(i + 1)[m]);
            }
            let took = selections(arr@, pre.push(j), (j + 1) as nat, (k - i - 1) as nat);
            let passed = selections(arr@, pre, (j + 1) as nat, (k - i) as nat);
            assert((so_far + took) + passed =~= so_far + (took + passed));
        }
        j += 1;
    }
    proof {
        assert(rows(res@) + Seq::<Seq<i32>>::empty() =~= rows(res@));
    }
}

} // verus!
