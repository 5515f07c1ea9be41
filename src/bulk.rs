use vstd::prelude::*;

use crate::error::Error;

verus! {

/// Tags are distinct and each input position `0..n` has one.
pub open spec fn tags_cover(tags: Seq<usize>, n: nat) -> bool {
    &&& tags.len() == n
    &&& forall|j: int| 0 <= j < tags.len() ==> (#[trigger] tags[j]) < n
    &&& forall|j1: int, j2: int|
        0 <= j1 < tags.len() && 0 <= j2 < tags.len() && j1 != j2 ==> tags[j1] != tags[j2]
    &&& forall|i: int| 0 <= i < n ==> #[trigger] has_tag(tags, i)
}

/// Some entry carries tag `i`.
pub open spec fn has_tag(tags: Seq<usize>, i: int) -> bool {
    exists|j: int| 0 <= j < tags.len() && tags[j] == i
}

pub open spec fn tags_of<T>(done: Seq<(usize, Result<T, Error>)>) -> Seq<usize> {
    Seq::new(done.len(), |j: int| done[j].0)
}

/// `j` is the first failed result in completion order.
pub open spec fn first_error_at<T>(done: Seq<(usize, Result<T, Error>)>, j: int) -> bool {
    &&& 0 <= j < done.len()
    &&& done[j].1 is Err
    &&& forall|q: int| 0 <= q < j ==> (#[trigger] done[q]).1 is Ok
}

/// Puts per-input results, tagged with their input position and listed in the order
/// they completed, back into input order. When any failed, the first failure in
/// completion order is returned instead.
pub fn collect_in_order<T>(done: Vec<(usize, Result<T, Error>)>) -> (r: Result<Vec<T>, Error>)
    requires
        tags_cover(tags_of(done@), done@.len()),
    ensures
        r is Err <==> exists|j: int| 0 <= j < done@.len() && (#[trigger] done@[j]).1 is Err,
        r is Err ==> exists|j: int|
            first_error_at(done@, j) && done@[j].1 == Err::<T, Error>(r->Err_0),
        r is Ok ==> r->Ok_0@.len() == done@.len() && forall|j: int|
            0 <= j < done@.len() ==> done@[j].1 == Ok::<T, Error>(
                #[trigger] r->Ok_0@[done@[j].0 as int],
            ),
{
    let n = done.len();
    let ghost d = done@;
    let mut slots: Vec<Option<T>> = Vec::new();
    let mut k: usize = 0;
    while k < n
        invariant
            k <= n,
            slots@.len() == k,
            forall|i: int| 0 <= i < k ==> (#[trigger] slots@[i]) is None,
        decreases n - k,
    {
        slots.push(None);
        k = k + 1;
    }
    let mut rest = done;
    let mut first_err: Option<Error> = None;
    let mut j: usize = 0;
    while j < n
        invariant
            n == d.len(),
            tags_cover(tags_of(d), d.len()),
            j <= n,
            rest@ == d.skip(j as int),
            slots@.len() == n,
            first_err is None <==> forall|q: int| 0 <= q < j ==> (#[trigger] d[q]).1 is Ok,
            first_err is Some ==> exists|q: int|
                #![trigger d[q]]
                q < j && first_error_at(d, q) && d[q].1 == Err::<T, Error>(first_err->Some_0),
            forall|i: int|
                #![trigger slots@[i]]
                0 <= i < n ==> (slots@[i] is Some <==> exists|q: int|
                    0 <= q < j && (#[trigger] d[q]).0 == i && d[q].1 is Ok),
            forall|q: int|
                #![trigger d[q]]
                0 <= q < j && d[q].1 is Ok ==> slots@[d[q].0 as int] == Some(d[q].1->Ok_0),
        decreases n - j,
    {
        let ghost before = slots@;
        let (i, res) = rest.remove(0);
        proof {
            assert(d.skip(j as int)[0] == d[j as int]);
            assert(d.skip(j as int).drop_first() =~= d.skip(j + 1));
            assert(tags_of(d)[j as int] == i);
            assert(i < n);
        }
        match res {
            Ok(v) => {
                slots.set(i, Some(v));
                proof {
                    assert(slots@ == before.update(i as int, Some(v)));
                    assert forall|q: int| 0 <= q < j && (#[trigger] d[q]).1 is Ok implies d[q].0 != i by {
                        assert(tags_of(d)[q] == d[q].0);
                    }
                    assert forall|q: int|
                        #![trigger d[q]]
                        0 <= q < j + 1 && d[q].1 is Ok implies slots@[d[q].0 as int] == Some(
                        d[q].1->Ok_0,
                    ) by {
                        assert(tags_of(d)[q] == d[q].0);
                        if q < j {
                            assert(d[q].0 != i);
                        }
                    }
                    assert forall|ii: int|
                        #![trigger slots@[ii]]
                        0 <= ii < n implies (slots@[ii] is Some <==> exists|q: int|
                            0 <= q < j + 1 && (#[trigger] d[q]).0 == ii && d[q].1 is Ok) by {
                        if ii == i {
                            assert(d[j as int].0 == ii);
                        } else {
                            if slots@[ii] is Some {
                                let q = choose|q: int|
                                    0 <= q < j && (#[trigger] d[q]).0 == ii && d[q].1 is Ok;
                                assert(0 <= q < j + 1);
                            }
                        }
                    }
                }
            },
            Err(e) => {
                proof {
                    assert forall|ii: int|
                        #![trigger slots@[ii]]
                        0 <= ii < n implies (slots@[ii] is Some <==> exists|q: int|
                            0 <= q < j + 1 && (#[trigger] d[q]).0 == ii && d[q].1 is Ok) by {
                        if slots@[ii] is Some {
                            let q = choose|q: int|
                                0 <= q < j && (#[trigger] d[q]).0 == ii && d[q].1 is Ok;
                            assert(0 <= q < j + 1);
                        }
                    }
                }
                if first_err.is_none() {
                    proof {
                        assert(first_error_at(d, j as int));
                    }
                    first_err = Some(e);
                }
            },
        }
        j = j + 1;
    }
    if let Some(e) = first_err {
        return Err(e);
    }
    let mut out: Vec<T> = Vec::new();
    let mut i: usize = 0;
    let mut slots = slots;
    while i < n
        invariant
            n == d.len(),
            tags_cover(tags_of(d), d.len()),
            forall|q: int| 0 <= q < n ==> (#[trigger] d[q]).1 is Ok,
            i <= n,
            out@.len() == i,
            slots@.len() == n - i,
            forall|q: int|
                #![trigger d[q]]
                0 <= q < n ==> (d[q].0 < i ==> out@[d[q].0 as int] == d[q].1->Ok_0) && (d[q].0
                    >= i ==> slots@[d[q].0 - i] == Some(d[q].1->Ok_0)),
        decreases n - i,
    {
        let ghost s0 = slots@;
        let slot = slots.remove(0);
        proof {
            assert(has_tag(tags_of(d), i as int));
            let q = choose|q: int| 0 <= q < d.len() && tags_of(d)[q] == i;
            assert(d[q].0 == i);
            assert(slot == Some(d[q].1->Ok_0));
        }
        match slot {
            Some(v) => {
                out.push(v);
            },
            None => {
                proof {
                    assert(false);
                }
            },
        }
        proof {
            assert forall|q: int| 0 <= q < n && #[trigger] d[q].0 >= i + 1 implies slots@[d[q].0
                - (i + 1)] == Some(d[q].1->Ok_0) by {
                assert(tags_of(d)[q] == d[q].0);
                assert(slots@ == s0.remove(0));
                assert(slots@[d[q].0 - (i + 1)] == s0[d[q].0 - i]);
            }
        }
        i = i + 1;
    }
    proof {
        assert forall|q: int| 0 <= q < d.len() implies d[q].1 == Ok::<T, Error>(
            #[trigger] out@[d[q].0 as int],
        ) by {
            assert(tags_of(d)[q] == d[q].0);
        }
    }
    Ok(out)
}

} // verus!
