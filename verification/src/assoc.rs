use vstd::prelude::*;

verus! {

/// Association rows keyed by a string, compared by character content.
pub open spec fn srows_has<V>(rows: Seq<(String, V)>, k: Seq<char>) -> bool {
    exists|i: int| 0 <= i < rows.len() && rows[i].0@ == k
}

pub open spec fn srows_idx<V>(rows: Seq<(String, V)>, k: Seq<char>) -> int {
    choose|i: int| 0 <= i < rows.len() && rows[i].0@ == k
}

pub open spec fn srows_at<V>(rows: Seq<(String, V)>, k: Seq<char>) -> V {
    rows[srows_idx(rows, k)].1
}

pub open spec fn srows_unique<V>(rows: Seq<(String, V)>) -> bool {
    forall|i: int, j: int| 0 <= i < j < rows.len() ==> rows[i].0@ != rows[j].0@
}

/// With unique keys, any index holding `k` is the chosen one.
pub proof fn lemma_srows_unique<V>(rows: Seq<(String, V)>, k: Seq<char>, i: int)
    requires
        srows_unique(rows),
        0 <= i < rows.len(),
        rows[i].0@ == k,
    ensures
        srows_has(rows, k),
        srows_idx(rows, k) == i,
        srows_at(rows, k) == rows[i].1,
{
    assert(srows_has(rows, k));
    let j = srows_idx::<V>(rows, k);
    if i < j {
        assert(rows[i].0@ != rows[j].0@);
    } else if j < i {
        assert(rows[j].0@ != rows[i].0@);
    }
}

pub fn srows_find<V>(rows: &Vec<(String, V)>, key: &String) -> (r: Option<usize>)
    ensures
        match r {
            Some(i) => i < rows@.len() && rows@[i as int].0@ == key@ && srows_has(rows@, key@),
            None => !srows_has(rows@, key@),
        },
{
    let n = rows.len();
    for i in 0..n
        invariant
            n == rows@.len(),
            forall|m: int| 0 <= m < i ==> rows@[m].0@ != key@,
    {
        if rows[i].0.eq(key) {
            return Some(i);
        }
    }
    None
}

/// A row list trivially descends from itself.
pub proof fn lemma_rows_from_refl<V>(rows: Seq<(String, V)>)
    ensures
        rows_from(rows, rows),
{
    assert forall|i: int| 0 <= i < rows.len() implies rows.contains(#[trigger] rows[i]) by {
        assert(rows[i] == rows[i]);
    }
}

/// Growing the source list preserves descent.
pub proof fn lemma_rows_from_grow<V>(
    post: Seq<(String, V)>,
    pre: Seq<(String, V)>,
    pre2: Seq<(String, V)>,
)
    requires
        rows_from(post, pre),
        pre2.len() >= pre.len(),
        forall|i: int| 0 <= i < pre.len() ==> pre2[i] == pre[i],
    ensures
        rows_from(post, pre2),
{
    assert forall|i: int| 0 <= i < post.len() implies pre2.contains(#[trigger] post[i]) by {
        assert(pre.contains(post[i]));
        let w = choose|w: int| 0 <= w < pre.len() && pre[w] == post[i];
        assert(pre2[w] == post[i]);
    }
}

/// Appending a row that stands in the source preserves descent.
pub proof fn lemma_rows_from_push<V>(post: Seq<(String, V)>, pre: Seq<(String, V)>, x: (String, V))
    requires
        rows_from(post, pre),
        pre.contains(x),
    ensures
        rows_from(post.push(x), pre),
{
    assert forall|i: int| 0 <= i < post.push(x).len() implies pre.contains(
        #[trigger] post.push(x)[i],
    ) by {
        if i < post.len() {
            assert(post.push(x)[i] == post[i]);
        } else {
            assert(post.push(x)[i] == x);
        }
    }
}

/// Every row of `post` already stood in `pre`.
pub open spec fn rows_from<V>(post: Seq<(String, V)>, pre: Seq<(String, V)>) -> bool {
    forall|i: int| 0 <= i < post.len() ==> pre.contains(#[trigger] post[i])
}

/// Bind `key` to `v`, replacing any earlier binding.
pub fn srows_set<V>(rows: &mut Vec<(String, V)>, key: String, v: V)
    requires
        srows_unique(old(rows)@),
    ensures
        srows_unique(final(rows)@),
        srows_has(final(rows)@, key@),
        srows_at(final(rows)@, key@) == v,
        forall|k2: Seq<char>|
            k2 != key@ ==> ((srows_has(final(rows)@, k2) <==> srows_has(old(rows)@, k2))
                && (srows_has(old(rows)@, k2) ==> srows_at(final(rows)@, k2) == srows_at(
                old(rows)@,
                k2,
            ))),
        forall|i: int|
            0 <= i < final(rows)@.len() ==> (#[trigger] final(rows)@[i]).1 == v || exists|j: int|
                0 <= j < old(rows)@.len() && final(rows)@[i] == #[trigger] old(rows)@[j],
{
    let ghost rows0 = rows@;
    let found = srows_find(rows, &key);
    match found {
        Some(i) => {
            proof {
                lemma_srows_unique(rows0, key@, i as int);
            }
            let _ = rows.swap_remove(i);
            let ghost rows1 = rows@;
            rows.push((key, v));
            proof {
                let rows2 = rows@;
                let n0 = rows0.len() as int;
                let n1 = rows1.len() as int;
                assert forall|u: int| 0 <= u < n1 implies ((rows1[u] == rows0[u] && u != i as int)
                    || (u == i as int && rows1[u] == rows0[n0 - 1] && i as int != n0 - 1)) by {
                    if u == i as int {
                        assert(rows1[u] == rows0[n0 - 1]);
                    }
                }
                lemma_set_shape(rows0, rows1, rows2, key@, v, i as int);
                assert forall|u: int| 0 <= u < rows2.len() implies (#[trigger] rows2[u]).1 == v
                    || exists|j: int| 0 <= j < rows0.len() && rows2[u] == #[trigger] rows0[j] by {
                    if u < n1 {
                        let ou = if u == i as int {
                            n0 - 1
                        } else {
                            u
                        };
                        assert(rows2[u] == rows1[u]);
                        assert(rows2[u] == rows0[ou]);
                    }
                }
            }
        },
        None => {
            rows.push((key, v));
            proof {
                let rows2 = rows@;
                let n0 = rows0.len() as int;
                assert forall|u: int, w: int| 0 <= u < w < rows2.len() implies rows2[u].0@
                    != rows2[w].0@ by {
                    if w < n0 {
                        assert(rows2[u] == rows0[u] && rows2[w] == rows0[w]);
                    } else {
                        assert(rows2[u] == rows0[u]);
                        assert(rows2[w].0@ == key@);
                    }
                }
                lemma_srows_unique(rows2, key@, n0);
                assert forall|u: int| 0 <= u < rows2.len() implies (#[trigger] rows2[u]).1 == v
                    || exists|j: int| 0 <= j < rows0.len() && rows2[u] == #[trigger] rows0[j] by {
                    if u < n0 {
                        assert(rows2[u] == rows0[u]);
                    }
                }
                assert forall|k2: Seq<char>| k2 != key@ implies ((srows_has(rows2, k2)
                    <==> srows_has(rows0, k2)) && (srows_has(rows0, k2) ==> srows_at(rows2, k2)
                    == srows_at(rows0, k2))) by {
                    if srows_has(rows0, k2) {
                        let u = srows_idx::<V>(rows0, k2);
                        assert(rows0[u].0@ == k2);
                        lemma_srows_unique(rows0, k2, u);
                        assert(rows2[u] == rows0[u]);
                        lemma_srows_unique(rows2, k2, u);
                    } else {
                        if srows_has(rows2, k2) {
                            let u = srows_idx::<V>(rows2, k2);
                            assert(0 <= u < n0);
                            assert(rows0[u].0@ == k2);
                            assert(false);
                        }
                    }
                }
            }
        },
    }
}

/// The replaced-slot bookkeeping shared by `srows_set` and `srows_remove`:
/// after a swap-removal of slot `i` and a push of the new binding, lookups
/// behave as a single-key update.
proof fn lemma_set_shape<V>(
    rows0: Seq<(String, V)>,
    rows1: Seq<(String, V)>,
    rows2: Seq<(String, V)>,
    k: Seq<char>,
    v: V,
    i: int,
)
    requires
        srows_unique(rows0),
        0 <= i < rows0.len(),
        rows0[i].0@ == k,
        rows1.len() == rows0.len() - 1,
        forall|u: int|
            0 <= u < rows1.len() ==> ((#[trigger] rows1[u] == rows0[u] && u != i) || (u == i
                && rows1[u] == rows0[rows0.len() - 1] && i != rows0.len() - 1)),
        rows2 == rows1.push((rows2.last().0, v)),
        rows2.last().0@ == k,
        rows2.last().1 == v,
    ensures
        srows_unique(rows2),
        srows_has(rows2, k),
        srows_at(rows2, k) == v,
        forall|k2: Seq<char>|
            k2 != k ==> ((srows_has(rows2, k2) <==> srows_has(rows0, k2)) && (srows_has(rows0, k2)
                ==> srows_at(rows2, k2) == srows_at(rows0, k2))),
{
    let n0 = rows0.len() as int;
    let n1 = rows1.len() as int;
    assert forall|u: int| 0 <= u < n1 implies rows1[u].0@ != k by {
        if u == i {
            assert(rows1[u] == rows0[n0 - 1]);
            assert(rows0[i].0@ != rows0[n0 - 1].0@);
        } else {
            assert(rows1[u] == rows0[u]);
            if u != i {
                if u < i {
                    assert(rows0[u].0@ != rows0[i].0@);
                } else {
                    assert(rows0[i].0@ != rows0[u].0@);
                }
            }
        }
    }
    assert forall|u: int, w: int| 0 <= u < w < rows2.len() implies rows2[u].0@ != rows2[w].0@ by {
        if w < n1 {
            let ou = if u == i {
                n0 - 1
            } else {
                u
            };
            let ow = if w == i {
                n0 - 1
            } else {
                w
            };
            assert(rows2[u] == rows0[ou] && rows2[w] == rows0[ow]);
            assert(ou != ow);
        } else {
            assert(rows2[w].0@ == k);
            assert(rows2[u] == rows1[u]);
        }
    }
    lemma_srows_unique(rows2, k, n1);
    assert forall|k2: Seq<char>| k2 != k implies ((srows_has(rows2, k2) <==> srows_has(rows0, k2))
        && (srows_has(rows0, k2) ==> srows_at(rows2, k2) == srows_at(rows0, k2))) by {
        if srows_has(rows0, k2) {
            let u = srows_idx::<V>(rows0, k2);
            assert(rows0[u].0@ == k2);
            lemma_srows_unique(rows0, k2, u);
            assert(u != i);
            if u == n0 - 1 {
                assert(i < n0 - 1);
                assert(rows1[i] == rows0[u]);
                assert(rows2[i] == rows0[u]);
                lemma_srows_unique(rows2, k2, i);
            } else {
                assert(rows1[u] == rows0[u]);
                assert(rows2[u] == rows0[u]);
                lemma_srows_unique(rows2, k2, u);
            }
        } else {
            if srows_has(rows2, k2) {
                let u = srows_idx::<V>(rows2, k2);
                assert(0 <= u < n1);
                let ou = if u == i {
                    n0 - 1
                } else {
                    u
                };
                assert(rows2[u] == rows0[ou]);
                assert(rows0[ou].0@ == k2);
                assert(false);
            }
        }
    }
}

/// Drop the binding of `key`, handing it back if it was there.
pub fn srows_remove<V>(rows: &mut Vec<(String, V)>, key: &String) -> (r: Option<V>)
    requires
        srows_unique(old(rows)@),
    ensures
        srows_unique(final(rows)@),
        !srows_has(final(rows)@, key@),
        match r {
            Some(v) => srows_has(old(rows)@, key@) && v == srows_at(old(rows)@, key@),
            None => !srows_has(old(rows)@, key@),
        },
        forall|k2: Seq<char>|
            k2 != key@ ==> ((srows_has(final(rows)@, k2) <==> srows_has(old(rows)@, k2))
                && (srows_has(old(rows)@, k2) ==> srows_at(final(rows)@, k2) == srows_at(
                old(rows)@,
                k2,
            ))),
        r is None ==> *final(rows) == *old(rows),
        rows_from(final(rows)@, old(rows)@),
{
    let ghost rows0 = rows@;
    match srows_find(rows, key) {
        Some(i) => {
            proof {
                lemma_srows_unique(rows0, key@, i as int);
            }
            let pair = rows.swap_remove(i);
            proof {
                let rows1 = rows@;
                let n0 = rows0.len() as int;
                let n1 = rows1.len() as int;
                assert forall|u: int| 0 <= u < n1 implies ((rows1[u] == rows0[u] && u != i as int)
                    || (u == i as int && rows1[u] == rows0[n0 - 1] && i as int != n0 - 1)) by {
                    if u == i as int {
                        assert(rows1[u] == rows0[n0 - 1]);
                    }
                }
                assert forall|u: int, w: int| 0 <= u < w < n1 implies rows1[u].0@
                    != rows1[w].0@ by {
                    let ou = if u == i as int {
                        n0 - 1
                    } else {
                        u
                    };
                    let ow = if w == i as int {
                        n0 - 1
                    } else {
                        w
                    };
                    assert(rows1[u] == rows0[ou] && rows1[w] == rows0[ow]);
                    assert(ou != ow);
                }
                assert forall|u: int| 0 <= u < n1 implies rows1[u].0@ != key@ by {
                    let ou = if u == i as int {
                        n0 - 1
                    } else {
                        u
                    };
                    assert(rows1[u] == rows0[ou]);
                    assert(ou != i as int);
                    if ou < i as int {
                        assert(rows0[ou].0@ != rows0[i as int].0@);
                    } else {
                        assert(rows0[i as int].0@ != rows0[ou].0@);
                    }
                }
                assert forall|k2: Seq<char>| k2 != key@ implies ((srows_has(rows1, k2)
                    <==> srows_has(rows0, k2)) && (srows_has(rows0, k2) ==> srows_at(rows1, k2)
                    == srows_at(rows0, k2))) by {
                    if srows_has(rows0, k2) {
                        let u = srows_idx::<V>(rows0, k2);
                        assert(rows0[u].0@ == k2);
                        lemma_srows_unique(rows0, k2, u);
                        assert(u != i as int);
                        if u == n0 - 1 {
                            assert((i as int) < n0 - 1);
                            assert(rows1[i as int] == rows0[u]);
                            lemma_srows_unique(rows1, k2, i as int);
                        } else {
                            assert(rows1[u] == rows0[u]);
                            lemma_srows_unique(rows1, k2, u);
                        }
                    } else {
                        if srows_has(rows1, k2) {
                            let u = srows_idx::<V>(rows1, k2);
                            assert(0 <= u < n1);
                            let ou = if u == i as int {
                                n0 - 1
                            } else {
                                u
                            };
                            assert(rows1[u] == rows0[ou]);
                            assert(rows0[ou].0@ == k2);
                            assert(false);
                        }
                    }
                }
                assert forall|u: int| #![trigger rows1[u]] 0 <= u < rows1.len() implies exists|
                    j: int,
                |
                    0 <= j < rows0.len() && rows1[u] == #[trigger] rows0[j] by {
                    let ou = if u == i as int {
                        n0 - 1
                    } else {
                        u
                    };
                    assert(rows1[u] == rows0[ou]);
                }
            }
            proof {
                assert(rows_from(rows@, rows0)) by {
                    assert forall|u: int| 0 <= u < rows@.len() implies rows0.contains(
                        #[trigger] rows@[u],
                    ) by {
                        let ou = if u == i as int {
                            rows0.len() as int - 1
                        } else {
                            u
                        };
                        assert(rows@[u] == rows0[ou]);
                    }
                }
            }
            Some(pair.1)
        },
        None => {
            proof {
                lemma_rows_from_refl(rows0);
                assert(rows@ == rows0);
            }
            None
        },
    }
}

} // verus!
