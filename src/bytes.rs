//! Facts about byte sequences and the delimiter searches the reader relies on.

use vstd::prelude::*;

verus! {

/// `b` occurs nowhere in `s`.
pub open spec fn lacks(s: Seq<u8>, b: u8) -> bool {
    forall|k: int| 0 <= k < s.len() ==> s[k] != b
}

/// `s` is non-empty and ends with `b`.
pub open spec fn ends_with(s: Seq<u8>, b: u8) -> bool {
    s.len() > 0 && s.last() == b
}

/// `b` occurs in `s` only as its last byte, if at all.
pub open spec fn only_at_end(s: Seq<u8>, b: u8) -> bool {
    forall|k: int| 0 <= k < s.len() - 1 ==> s[k] != b
}

/// The pieces of `s`, joined in order.
pub open spec fn concat(s: Seq<Seq<u8>>) -> Seq<u8>
    decreases s.len(),
{
    if s.len() == 0 {
        Seq::empty()
    } else {
        concat(s.drop_last()) + s.last()
    }
}

pub proof fn lemma_concat_push(s: Seq<Seq<u8>>, x: Seq<u8>)
    ensures
        concat(s.push(x)) == concat(s) + x,
{
    assert(s.push(x).drop_last() =~= s);
}

/// Joining the first `k` pieces, then the rest, is joining them all.
pub proof fn lemma_concat_split(s: Seq<Seq<u8>>, k: int)
    requires
        0 <= k <= s.len(),
    ensures
        concat(s) == concat(s.subrange(0, k)) + concat(s.subrange(k, s.len() as int)),
    decreases s.len(),
{
    if k == s.len() {
        assert(s.subrange(0, k) =~= s);
        assert(s.subrange(k, s.len() as int) =~= Seq::<Seq<u8>>::empty());
        assert(concat(s) + Seq::<u8>::empty() =~= concat(s));
    } else {
        let t = s.drop_last();
        lemma_concat_split(t, k);
        assert(t.subrange(0, k) =~= s.subrange(0, k));
        assert(s.subrange(k, s.len() as int) =~= t.subrange(k, t.len() as int).push(s.last()));
        lemma_concat_push(t.subrange(k, t.len() as int), s.last());
        assert(concat(s.subrange(0, k)) + (concat(t.subrange(k, t.len() as int)) + s.last())
            =~= (concat(s.subrange(0, k)) + concat(t.subrange(k, t.len() as int))) + s.last());
    }
}

/// Pieces `i..=j` of `ps`, all but the last exactly `cap` long, join to
/// `(j - i) * cap` bytes and then the last one's.
pub proof fn lemma_span_length(ps: Seq<Seq<u8>>, cap: nat, i: int, j: int)
    requires
        0 <= i <= j < ps.len(),
        forall|k: int| i <= k < j ==> (#[trigger] ps[k]).len() == cap,
        0 < ps[j].len() <= cap,
    ensures
        concat(ps.subrange(i, j + 1)).len() == (j - i) * cap + ps[j].len(),
        (j - i) * cap < concat(ps.subrange(i, j + 1)).len() <= (j - i + 1) * cap,
    decreases j - i,
{
    let one = Seq::<Seq<u8>>::empty();
    if i == j {
        assert(ps.subrange(i, j + 1) =~= one.push(ps[j]));
        lemma_concat_push(one, ps[j]);
        assert(concat(one) =~= Seq::<u8>::empty());
        let c = cap as int;
        assert((j - i) * c == 0 && (j - i + 1) * c == c) by (nonlinear_arith)
            requires
                i == j,
        ;
    } else {
        lemma_span_length(ps, cap, i + 1, j);
        let whole = ps.subrange(i, j + 1);
        let rest = ps.subrange(i + 1, j + 1);
        lemma_concat_split(whole, 1);
        assert(whole.subrange(0, 1) =~= one.push(ps[i]));
        lemma_concat_push(one, ps[i]);
        assert(concat(one) =~= Seq::<u8>::empty());
        assert(whole.subrange(1, whole.len() as int) =~= rest);
        assert(concat(whole).len() == ps[i].len() + concat(rest).len());
        let c = cap as int;
        assert((j - i) * c == c + (j - (i + 1)) * c) by (nonlinear_arith);
        assert((j - i + 1) * c == c + (j - (i + 1) + 1) * c) by (nonlinear_arith);
    }
}

/// Relies on `memchr::memchr`: the index of the first byte of `haystack` equal
/// to `needle`, or `None` when there is none.
#[verifier::external_body]
pub(crate) fn find_first(needle: u8, haystack: &[u8]) -> (r: Option<usize>)
    ensures
        match r {
            Some(i) => {
                &&& i < haystack@.len()
                &&& haystack@[i as int] == needle
                &&& lacks(haystack@.subrange(0, i as int), needle)
            },
            None => lacks(haystack@, needle),
        },
{
    memchr::memchr(needle, haystack)
}

/// Relies on `memchr::memrchr`: the index of the last byte of `haystack` equal
/// to `needle`, or `None` when there is none.
#[verifier::external_body]
pub(crate) fn find_last(needle: u8, haystack: &[u8]) -> (r: Option<usize>)
    ensures
        match r {
            Some(i) => {
                &&& i < haystack@.len()
                &&& haystack@[i as int] == needle
                &&& lacks(haystack@.subrange(i + 1, haystack@.len() as int), needle)
            },
            None => lacks(haystack@, needle),
        },
{
    memchr::memrchr(needle, haystack)
}

} // verus!
