//! Sequence vocabulary shared by the specifications: finding the first
//! match, keeping the present values of a sequence of options, and
//! truncation.

use vstd::prelude::*;

verus! {

/// Index of the first element of `s` that satisfies `p`, if any.
pub open spec fn first_index<A>(s: Seq<A>, p: spec_fn(A) -> bool) -> Option<int>
    decreases s.len(),
{
    if s.len() == 0 {
        None
    } else {
        match first_index(s.drop_last(), p) {
            Some(i) => Some(i),
            None => if p(s.last()) {
                Some(s.len() - 1)
            } else {
                None
            },
        }
    }
}

/// `first_index` is the least index that satisfies the predicate.
pub proof fn lemma_first_index<A>(s: Seq<A>, p: spec_fn(A) -> bool)
    ensures
        match first_index(s, p) {
            Some(i) => 0 <= i < s.len() && p(s[i]) && forall|j: int| 0 <= j < i ==> !p(#[trigger] s[j]),
            None => forall|j: int| 0 <= j < s.len() ==> !p(#[trigger] s[j]),
        },
    decreases s.len(),
{
    if s.len() > 0 {
        lemma_first_index(s.drop_last(), p);
        assert forall|j: int| 0 <= j < s.len() - 1 implies s.drop_last()[j] == s[j] by {}
    }
}

/// Where `p` first holds at `i`, `first_index` is `i`.
pub proof fn lemma_first_index_is<A>(s: Seq<A>, p: spec_fn(A) -> bool, i: int)
    requires
        0 <= i < s.len(),
        p(s[i]),
        forall|j: int| 0 <= j < i ==> !p(#[trigger] s[j]),
    ensures
        first_index(s, p) == Some(i),
{
    lemma_first_index(s, p);
    match first_index(s, p) {
        Some(k) => {
            if k < i {
                assert(!p(s[k]));
            } else if k > i {
                assert(!p(s[i]));
            }
        },
        None => {
            assert(!p(s[i]));
        },
    }
}

/// Where `p` holds nowhere, `first_index` is `None`.
pub proof fn lemma_first_index_none<A>(s: Seq<A>, p: spec_fn(A) -> bool)
    requires
        forall|j: int| 0 <= j < s.len() ==> !p(#[trigger] s[j]),
    ensures
        first_index(s, p) is None,
{
    lemma_first_index(s, p);
    if let Some(k) = first_index(s, p) {
        assert(p(s[k]));
    }
}

/// The first `n` elements of `s`, or all of `s` where it is shorter.
pub open spec fn trunc<A>(s: Seq<A>, n: nat) -> Seq<A> {
    if n < s.len() {
        s.take(n as int)
    } else {
        s
    }
}

/// The present values of `s`, in order.
pub open spec fn somes<A>(s: Seq<Option<A>>) -> Seq<A>
    decreases s.len(),
{
    if s.len() == 0 {
        Seq::empty()
    } else {
        match s.last() {
            Some(x) => somes(s.drop_last()).push(x),
            None => somes(s.drop_last()),
        }
    }
}

/// One more element of `s` adds its value, if present, at the end.
pub proof fn lemma_somes_step<A>(s: Seq<Option<A>>, i: int)
    requires
        0 <= i < s.len(),
    ensures
        somes(s.take(i + 1)) == match s[i] {
            Some(x) => somes(s.take(i)).push(x),
            None => somes(s.take(i)),
        },
{
    assert(s.take(i + 1).drop_last() =~= s.take(i));
}

/// The values of a prefix of `s` are a prefix of the values of `s`.
pub proof fn lemma_somes_prefix<A>(s: Seq<Option<A>>, i: int)
    requires
        0 <= i <= s.len(),
    ensures
        somes(s.take(i)).len() <= somes(s).len(),
        somes(s).take(somes(s.take(i)).len() as int) =~= somes(s.take(i)),
    decreases s.len() - i,
{
    if i < s.len() {
        lemma_somes_prefix(s, i + 1);
        lemma_somes_step(s, i);
        assert(s.take(s.len() as int) =~= s);
    } else {
        assert(s.take(i) =~= s);
    }
}

/// The number of values is at most the number of options.
pub proof fn lemma_somes_len<A>(s: Seq<Option<A>>)
    ensures
        somes(s).len() <= s.len(),
    decreases s.len(),
{
    if s.len() > 0 {
        lemma_somes_len(s.drop_last());
    }
}

/// Every value of `somes(s)` stands in `s`, at an index no smaller than its own.
pub proof fn lemma_somes_origin<A>(s: Seq<Option<A>>, k: int)
    requires
        0 <= k < somes(s).len(),
    ensures
        exists|j: int| k <= j < s.len() && s[j] == Some(somes(s)[k]),
    decreases s.len(),
{
    let r = somes(s.drop_last());
    lemma_somes_len(s.drop_last());
    if k < r.len() {
        lemma_somes_origin(s.drop_last(), k);
        let j = choose|j: int| k <= j < s.drop_last().len() && s.drop_last()[j] == Some(r[k]);
        assert(s[j] == Some(somes(s)[k]));
    } else {
        assert(s[s.len() - 1] == Some(somes(s)[k]));
    }
}

/// Two values of `somes(s)` stand in `s` in the same order.
pub proof fn lemma_somes_origin_ordered<A>(s: Seq<Option<A>>, k1: int, k2: int)
    requires
        0 <= k1 < k2 < somes(s).len(),
    ensures
        exists|j1: int, j2: int|
            0 <= j1 < j2 < s.len() && s[j1] == Some(somes(s)[k1]) && s[j2] == Some(somes(s)[k2]),
    decreases s.len(),
{
    let init = s.drop_last();
    let r = somes(init);
    lemma_somes_len(init);
    if k2 < r.len() {
        lemma_somes_origin_ordered(init, k1, k2);
        let (j1, j2) = choose|j1: int, j2: int|
            0 <= j1 < j2 < init.len() && init[j1] == Some(r[k1]) && init[j2] == Some(r[k2]);
        assert(s[j1] == init[j1] && s[j2] == init[j2]);
        assert(s[j1] == Some(somes(s)[k1]) && s[j2] == Some(somes(s)[k2]));
    } else {
        lemma_somes_origin(init, k1);
        let j1 = choose|j: int| k1 <= j < init.len() && init[j] == Some(r[k1]);
        assert(s[j1] == init[j1]);
        assert(s[s.len() - 1] == Some(somes(s)[k2]));
        assert(s[j1] == Some(somes(s)[k1]));
    }
}

/// `f` applied to each present option.
pub open spec fn map_options<A, B>(s: Seq<Option<A>>, f: spec_fn(A) -> B) -> Seq<Option<B>> {
    Seq::new(
        s.len(),
        |i: int|
            match s[i] {
                Some(x) => Some(f(x)),
                None => None,
            },
    )
}

/// The values of mapped options are the mapped values.
pub proof fn lemma_somes_map<A, B>(s: Seq<Option<A>>, f: spec_fn(A) -> B)
    ensures
        somes(map_options(s, f)) =~= Seq::new(somes(s).len(), |k: int| f(somes(s)[k])),
    decreases s.len(),
{
    if s.len() > 0 {
        let init = s.drop_last();
        lemma_somes_map(init, f);
        assert(map_options(s, f).drop_last() =~= map_options(init, f));
    }
}

} // verus!
