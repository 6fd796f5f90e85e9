//! An order-N transition-table learner and weighted sequence generator.
//!
//! A `MarkovChain` maps fixed-length symbol windows (`Word`) to frequency
//! distributions over the symbols observed to follow them
//! (`ValueFrequency`), and samples new sequences from those statistics.
use vstd::prelude::*;

verus! {

// ---------------------------------------------------------------------------
// Specification model of a frequency distribution: a sequence of
// (symbol, count) entries.
// ---------------------------------------------------------------------------
/// Whether some entry of the distribution carries the symbol `c`.
pub open spec fn dist_has(d: Seq<(char, usize)>, c: char) -> bool {
    exists|i: int| 0 <= i < d.len() && d[i].0 == c
}

/// Number of entries of the distribution carrying the symbol `c`.
pub open spec fn letter_occs(d: Seq<(char, usize)>, c: char) -> nat
    decreases d.len(),
{
    if d.len() == 0 {
        0
    } else {
        letter_occs(d.drop_last(), c) + if d.last().0 == c {
            1nat
        } else {
            0nat
        }
    }
}

/// Total count recorded for the symbol `c` (summed over all entries).
pub open spec fn dist_count(d: Seq<(char, usize)>, c: char) -> nat
    decreases d.len(),
{
    if d.len() == 0 {
        0
    } else {
        dist_count(d.drop_last(), c) + if d.last().0 == c {
            d.last().1 as nat
        } else {
            0nat
        }
    }
}

/// Sum of all counts of the distribution.
pub open spec fn dist_total(d: Seq<(char, usize)>) -> nat
    decreases d.len(),
{
    if d.len() == 0 {
        0
    } else {
        dist_total(d.drop_last()) + d.last().1 as nat
    }
}

/// A well-formed distribution: at most one entry per symbol, counts >= 1.
pub open spec fn dist_wf(d: Seq<(char, usize)>) -> bool {
    &&& forall|c: char| letter_occs(d, c) <= 1
    &&& forall|i: int| 0 <= i < d.len() ==> (#[trigger] d[i]).1 >= 1
}

/// Every entry whose symbol is `c`, incremented by one.
pub open spec fn bump_matching(d: Seq<(char, usize)>, c: char) -> Seq<(char, usize)> {
    d.map(
        |i: int, e: (char, usize)|
            if e.0 == c {
                (e.0, (e.1 + 1) as usize)
            } else {
                e
            },
    )
}

/// The effect of observing the symbol `c` once: increment its entry, or
/// append a fresh entry with count 1.
pub open spec fn dist_observe(d: Seq<(char, usize)>, c: char) -> Seq<(char, usize)> {
    if dist_has(d, c) {
        bump_matching(d, c)
    } else {
        d.push((c, 1usize))
    }
}

/// Entries are non-increasing in count.
pub open spec fn sorted_desc(d: Seq<(char, usize)>) -> bool {
    forall|i: int, j: int| 0 <= i <= j < d.len() ==> (#[trigger] d[i]).1 >= (#[trigger] d[j]).1
}

/// Insert an entry into a descending-sorted sequence, after every entry with
/// a count at least as large (so equal counts keep their earlier position).
pub open spec fn insert_desc(e: (char, usize), d: Seq<(char, usize)>) -> Seq<(char, usize)>
    decreases d.len(),
{
    if d.len() == 0 {
        seq![e]
    } else if d[0].1 >= e.1 {
        seq![d[0]] + insert_desc(e, d.drop_first())
    } else {
        seq![e] + d
    }
}

/// Stable sort by descending count: entries of equal count keep their
/// original relative order.
pub open spec fn sort_desc(d: Seq<(char, usize)>) -> Seq<(char, usize)>
    decreases d.len(),
{
    if d.len() == 0 {
        Seq::empty()
    } else {
        insert_desc(d.last(), sort_desc(d.drop_last()))
    }
}

/// The predicate selecting the entries whose count is exactly `k`.
pub open spec fn count_is(k: usize) -> spec_fn((char, usize)) -> bool {
    |e: (char, usize)| e.1 == k
}

// ---------------------------------------------------------------------------
// Lemmas: the three additive measures distribute over concatenation.
// ---------------------------------------------------------------------------
proof fn lemma_singleton(e: (char, usize), c: char)
    ensures
        letter_occs(seq![e], c) == if e.0 == c {
            1nat
        } else {
            0nat
        },
        dist_count(seq![e], c) == if e.0 == c {
            e.1 as nat
        } else {
            0nat
        },
        dist_total(seq![e]) == e.1 as nat,
{
    assert(seq![e].drop_last() =~= Seq::<(char, usize)>::empty());
    assert(seq![e].last() == e);
    assert(letter_occs(Seq::<(char, usize)>::empty(), c) == 0);
    assert(dist_count(Seq::<(char, usize)>::empty(), c) == 0);
    assert(dist_total(Seq::<(char, usize)>::empty()) == 0);
}

proof fn lemma_filter_singleton(e: (char, usize), k: usize)
    ensures
        seq![e].filter(count_is(k)) == if e.1 == k {
            seq![e]
        } else {
            Seq::<(char, usize)>::empty()
        },
{
    reveal(Seq::filter);
    let p = count_is(k);
    assert(seq![e].drop_last() =~= Seq::<(char, usize)>::empty());
    assert(seq![e].last() == e);
    assert(Seq::<(char, usize)>::empty().filter(p) =~= Seq::<(char, usize)>::empty());
    if e.1 == k {
        assert(seq![e].filter(p) =~= Seq::<(char, usize)>::empty().filter(p).push(e));
        assert(Seq::<(char, usize)>::empty().filter(p).push(e) =~= seq![e]);
    }
}

proof fn lemma_occs_concat(a: Seq<(char, usize)>, b: Seq<(char, usize)>, c: char)
    ensures
        letter_occs(a + b, c) == letter_occs(a, c) + letter_occs(b, c),
    decreases b.len(),
{
    if b.len() == 0 {
        assert(a + b =~= a);
    } else {
        assert((a + b).drop_last() =~= a + b.drop_last());
        lemma_occs_concat(a, b.drop_last(), c);
        assert((a + b).last() == b.last());
    }
}

proof fn lemma_count_concat(a: Seq<(char, usize)>, b: Seq<(char, usize)>, c: char)
    ensures
        dist_count(a + b, c) == dist_count(a, c) + dist_count(b, c),
    decreases b.len(),
{
    if b.len() == 0 {
        assert(a + b =~= a);
    } else {
        assert((a + b).drop_last() =~= a + b.drop_last());
        lemma_count_concat(a, b.drop_last(), c);
        assert((a + b).last() == b.last());
    }
}

proof fn lemma_total_concat(a: Seq<(char, usize)>, b: Seq<(char, usize)>)
    ensures
        dist_total(a + b) == dist_total(a) + dist_total(b),
    decreases b.len(),
{
    if b.len() == 0 {
        assert(a + b =~= a);
    } else {
        assert((a + b).drop_last() =~= a + b.drop_last());
        lemma_total_concat(a, b.drop_last());
        assert((a + b).last() == b.last());
    }
}

// ---------------------------------------------------------------------------
// Lemmas about stable descending insertion.
// ---------------------------------------------------------------------------
proof fn lemma_insert_desc_len(e: (char, usize), d: Seq<(char, usize)>)
    ensures
        insert_desc(e, d).len() == d.len() + 1,
    decreases d.len(),
{
    if d.len() != 0 && d[0].1 >= e.1 {
        lemma_insert_desc_len(e, d.drop_first());
    }
}

/// Every entry of the insertion result is `e` or an entry of `d`.
proof fn lemma_insert_desc_elems(e: (char, usize), d: Seq<(char, usize)>)
    ensures
        forall|i: int|
            0 <= i < insert_desc(e, d).len() ==> (#[trigger] insert_desc(e, d)[i]) == e || exists|
                j: int,
            | 0 <= j < d.len() && insert_desc(e, d)[i] == d[j],
    decreases d.len(),
{
    if d.len() != 0 && d[0].1 >= e.1 {
        lemma_insert_desc_elems(e, d.drop_first());
        let r = insert_desc(e, d);
        let rr = insert_desc(e, d.drop_first());
        assert forall|i: int| 0 <= i < r.len() implies (#[trigger] r[i]) == e || exists|j: int|
            0 <= j < d.len() && r[i] == d[j] by {
            if i == 0 {
                assert(r[i] == d[0]);
            } else {
                assert(r[i] == rr[i - 1]);
                if rr[i - 1] != e {
                    let j = choose|j: int| 0 <= j < d.drop_first().len() && rr[i - 1]
                        == d.drop_first()[j];
                    assert(r[i] == d[j + 1]);
                }
            }
        }
    }
}

proof fn lemma_insert_desc_occs(e: (char, usize), d: Seq<(char, usize)>, c: char)
    ensures
        letter_occs(insert_desc(e, d), c) == letter_occs(d, c) + if e.0 == c {
            1nat
        } else {
            0nat
        },
    decreases d.len(),
{
    lemma_singleton(e, c);
    if d.len() == 0 {
    } else if d[0].1 >= e.1 {
        lemma_insert_desc_occs(e, d.drop_first(), c);
        lemma_occs_concat(seq![d[0]], insert_desc(e, d.drop_first()), c);
        assert(d =~= seq![d[0]] + d.drop_first());
        lemma_occs_concat(seq![d[0]], d.drop_first(), c);
    } else {
        lemma_occs_concat(seq![e], d, c);
    }
}

proof fn lemma_insert_desc_count(e: (char, usize), d: Seq<(char, usize)>, c: char)
    ensures
        dist_count(insert_desc(e, d), c) == dist_count(d, c) + if e.0 == c {
            e.1 as nat
        } else {
            0nat
        },
    decreases d.len(),
{
    lemma_singleton(e, c);
    if d.len() == 0 {
    } else if d[0].1 >= e.1 {
        lemma_insert_desc_count(e, d.drop_first(), c);
        lemma_count_concat(seq![d[0]], insert_desc(e, d.drop_first()), c);
        assert(d =~= seq![d[0]] + d.drop_first());
        lemma_count_concat(seq![d[0]], d.drop_first(), c);
    } else {
        lemma_count_concat(seq![e], d, c);
    }
}

proof fn lemma_insert_desc_total(e: (char, usize), d: Seq<(char, usize)>)
    ensures
        dist_total(insert_desc(e, d)) == dist_total(d) + e.1 as nat,
    decreases d.len(),
{
    lemma_singleton(e, e.0);
    if d.len() == 0 {
    } else if d[0].1 >= e.1 {
        lemma_insert_desc_total(e, d.drop_first());
        lemma_total_concat(seq![d[0]], insert_desc(e, d.drop_first()));
        assert(d =~= seq![d[0]] + d.drop_first());
        lemma_total_concat(seq![d[0]], d.drop_first());
    } else {
        lemma_total_concat(seq![e], d);
    }
}

proof fn lemma_insert_desc_sorted(e: (char, usize), d: Seq<(char, usize)>)
    requires
        sorted_desc(d),
    ensures
        sorted_desc(insert_desc(e, d)),
    decreases d.len(),
{
    if d.len() == 0 {
    } else if d[0].1 >= e.1 {
        assert(sorted_desc(d.drop_first()));
        lemma_insert_desc_sorted(e, d.drop_first());
        lemma_insert_desc_elems(e, d.drop_first());
        let r = insert_desc(e, d);
        let rr = insert_desc(e, d.drop_first());
        assert forall|i: int, j: int| 0 <= i <= j < r.len() implies (#[trigger] r[i]).1
            >= (#[trigger] r[j]).1 by {
            if i == 0 && j > 0 {
                assert(r[j] == rr[j - 1]);
                assert(rr[j - 1] == e || exists|q: int|
                    0 <= q < d.drop_first().len() && rr[j - 1] == d.drop_first()[q]);
                if rr[j - 1] != e {
                    let q = choose|q: int|
                        0 <= q < d.drop_first().len() && rr[j - 1] == d.drop_first()[q];
                    assert(d[0].1 >= d[q + 1].1);
                }
            } else if i > 0 {
                assert(r[i] == rr[i - 1] && r[j] == rr[j - 1]);
            }
        }
    }
}

/// Insertion keeps the entries of every count class in order: the class of
/// `e`'s count gains `e` at its end, every other class is unchanged.
proof fn lemma_insert_desc_filter(e: (char, usize), d: Seq<(char, usize)>, k: usize)
    requires
        sorted_desc(d),
    ensures
        insert_desc(e, d).filter(count_is(k)) == if e.1 == k {
            d.filter(count_is(k)).push(e)
        } else {
            d.filter(count_is(k))
        },
    decreases d.len(),
{
    reveal(Seq::filter);
    let p = count_is(k);
    lemma_filter_singleton(e, k);
    if d.len() == 0 {
        assert(Seq::<(char, usize)>::empty().filter(p) =~= Seq::<(char, usize)>::empty());
        if e.1 == k {
            assert(Seq::<(char, usize)>::empty().filter(p).push(e) =~= seq![e]);
        }
    } else if d[0].1 >= e.1 {
        assert(sorted_desc(d.drop_first()));
        lemma_insert_desc_filter(e, d.drop_first(), k);
        Seq::filter_distributes_over_add(seq![d[0]], insert_desc(e, d.drop_first()), p);
        assert(seq![d[0]] + insert_desc(e, d.drop_first()) == insert_desc(e, d));
        assert(d =~= seq![d[0]] + d.drop_first());
        Seq::filter_distributes_over_add(seq![d[0]], d.drop_first(), p);
        if e.1 == k {
            assert(seq![d[0]].filter(p) + d.drop_first().filter(p).push(e) =~= (seq![d[0]].filter(
                p,
            ) + d.drop_first().filter(p)).push(e));
        }
    } else {
        // every count in `d` is below e.1, so if e.1 == k the class of k in
        // `d` is empty and e alone forms it.
        Seq::filter_distributes_over_add(seq![e], d, p);
        assert(seq![e] + d == insert_desc(e, d));
        if e.1 == k {
            assert(forall|i: int| 0 <= i < d.len() ==> (#[trigger] d[i]).1 <= d[0].1);
            lemma_filter_none_below(d, k);
            assert(seq![e].filter(p) + d.filter(p) =~= d.filter(p).push(e));
        } else {
            assert(seq![e].filter(p) + d.filter(p) =~= d.filter(p));
        }
    }
}

/// If no entry of `d` has count `k`, the class of `k` is empty.
proof fn lemma_filter_none_below(d: Seq<(char, usize)>, k: usize)
    requires
        forall|i: int| 0 <= i < d.len() ==> (#[trigger] d[i]).1 != k,
    ensures
        d.filter(count_is(k)) == Seq::<(char, usize)>::empty(),
    decreases d.len(),
{
    reveal(Seq::filter);
    if d.len() > 0 {
        lemma_filter_none_below(d.drop_last(), k);
    }
}

// ---------------------------------------------------------------------------
// Lemmas about the stable descending sort.
// ---------------------------------------------------------------------------
proof fn lemma_sort_desc_len(d: Seq<(char, usize)>)
    ensures
        sort_desc(d).len() == d.len(),
    decreases d.len(),
{
    if d.len() > 0 {
        lemma_sort_desc_len(d.drop_last());
        lemma_insert_desc_len(d.last(), sort_desc(d.drop_last()));
    }
}

/// The sorted distribution is non-increasing in count.
pub proof fn lemma_sort_desc_sorted(d: Seq<(char, usize)>)
    ensures
        sorted_desc(sort_desc(d)),
    decreases d.len(),
{
    if d.len() > 0 {
        lemma_sort_desc_sorted(d.drop_last());
        lemma_insert_desc_sorted(d.last(), sort_desc(d.drop_last()));
    }
}

/// Sorting keeps, for every count value, the entries of that count in their
/// original relative order (the stable tie-break).
pub proof fn lemma_sort_desc_stable(d: Seq<(char, usize)>, k: usize)
    ensures
        sort_desc(d).filter(count_is(k)) == d.filter(count_is(k)),
    decreases d.len(),
{
    reveal(Seq::filter);
    if d.len() > 0 {
        lemma_sort_desc_stable(d.drop_last(), k);
        lemma_sort_desc_sorted(d.drop_last());
        lemma_insert_desc_filter(d.last(), sort_desc(d.drop_last()), k);
    }
}

proof fn lemma_sort_desc_occs(d: Seq<(char, usize)>, c: char)
    ensures
        letter_occs(sort_desc(d), c) == letter_occs(d, c),
    decreases d.len(),
{
    if d.len() > 0 {
        lemma_sort_desc_occs(d.drop_last(), c);
        lemma_insert_desc_occs(d.last(), sort_desc(d.drop_last()), c);
    }
}

/// Sorting does not change any symbol's recorded count.
proof fn lemma_sort_desc_count(d: Seq<(char, usize)>, c: char)
    ensures
        dist_count(sort_desc(d), c) == dist_count(d, c),
    decreases d.len(),
{
    if d.len() > 0 {
        lemma_sort_desc_count(d.drop_last(), c);
        lemma_insert_desc_count(d.last(), sort_desc(d.drop_last()), c);
    }
}

/// Sorting does not change the distribution's total weight.
proof fn lemma_sort_desc_total(d: Seq<(char, usize)>)
    ensures
        dist_total(sort_desc(d)) == dist_total(d),
    decreases d.len(),
{
    if d.len() > 0 {
        lemma_sort_desc_total(d.drop_last());
        lemma_insert_desc_total(d.last(), sort_desc(d.drop_last()));
    }
}

proof fn lemma_insert_desc_min(e: (char, usize), d: Seq<(char, usize)>)
    requires
        e.1 >= 1,
        forall|i: int| 0 <= i < d.len() ==> (#[trigger] d[i]).1 >= 1,
    ensures
        forall|i: int| 0 <= i < insert_desc(e, d).len() ==> (#[trigger] insert_desc(e, d)[i]).1 >= 1,
{
    lemma_insert_desc_elems(e, d);
}

/// Sorting preserves well-formedness.
proof fn lemma_sort_desc_wf(d: Seq<(char, usize)>)
    requires
        dist_wf(d),
    ensures
        dist_wf(sort_desc(d)),
{
    assert forall|c: char| letter_occs(sort_desc(d), c) <= 1 by {
        lemma_sort_desc_occs(d, c);
    }
    lemma_sort_min(d);
}

proof fn lemma_sort_min(d: Seq<(char, usize)>)
    requires
        forall|i: int| 0 <= i < d.len() ==> (#[trigger] d[i]).1 >= 1,
    ensures
        forall|i: int| 0 <= i < sort_desc(d).len() ==> (#[trigger] sort_desc(d)[i]).1 >= 1,
    decreases d.len(),
{
    if d.len() > 0 {
        assert(forall|i: int|
            0 <= i < d.drop_last().len() ==> (#[trigger] d.drop_last()[i]).1 >= 1);
        lemma_sort_min(d.drop_last());
        lemma_insert_desc_min(d.last(), sort_desc(d.drop_last()));
    }
}

/// Where stable insertion lands: after the entries with a count at least as
/// large, before the rest.
proof fn lemma_insert_desc_at(e: (char, usize), s: Seq<(char, usize)>, p: int)
    requires
        0 <= p <= s.len(),
        forall|j: int| 0 <= j < p ==> (#[trigger] s[j]).1 >= e.1,
        p < s.len() ==> s[p].1 < e.1,
    ensures
        insert_desc(e, s) == s.subrange(0, p) + seq![e] + s.subrange(p, s.len() as int),
    decreases p,
{
    if p == 0 {
        if s.len() == 0 {
            assert(insert_desc(e, s) =~= s.subrange(0, 0) + seq![e] + s.subrange(0, 0));
        } else {
            assert(insert_desc(e, s) =~= s.subrange(0, 0) + seq![e] + s.subrange(
                0,
                s.len() as int,
            ));
        }
    } else {
        let d = s.drop_first();
        assert(forall|j: int| 0 <= j < p - 1 ==> (#[trigger] d[j]).1 >= e.1) by {
            assert(forall|j: int| 0 <= j < p - 1 ==> d[j] == s[j + 1]);
        }
        lemma_insert_desc_at(e, d, p - 1);
        assert(insert_desc(e, s) == seq![s[0]] + insert_desc(e, d));
        assert(seq![s[0]] + (d.subrange(0, p - 1) + seq![e] + d.subrange(p - 1, d.len() as int))
            =~= s.subrange(0, p) + seq![e] + s.subrange(p, s.len() as int));
    }
}

// ---------------------------------------------------------------------------
// The weighted result is a struct containing all the possible values of a
// word mapping with their respective count.
// ---------------------------------------------------------------------------
#[derive(Debug, PartialEq, Eq)]
pub struct ValueFrequency {
    data: Vec<(char, usize)>,
}

impl View for ValueFrequency {
    type V = Seq<(char, usize)>;

    closed spec fn view(&self) -> Seq<(char, usize)> {
        self.data@
    }
}

impl ValueFrequency {
    pub fn new() -> (r: Self)
        ensures
            r@ == Seq::<(char, usize)>::empty(),
    {
        Self { data: Vec::new() }
    }

    /// Record one more observation of `new_letter`.
    pub fn insert(&mut self, new_letter: char)
        requires
            forall|i: int|
                0 <= i < old(self)@.len() && (#[trigger] old(self)@[i]).0 == new_letter ==> old(
                    self,
                )@[i].1 < usize::MAX,
        ensures
            final(self)@ == dist_observe(old(self)@, new_letter),
    {
        let ghost pre = self@;
        let mut found = false;
        let mut i: usize = 0;
        while i < self.data.len()
            invariant
                i <= self.data.len(),
                self.data@.len() == pre.len(),
                forall|j: int|
                    0 <= j < pre.len() && (#[trigger] pre[j]).0 == new_letter ==> pre[j].1
                        < usize::MAX,
                forall|j: int|
                    0 <= j < i ==> #[trigger] self.data@[j] == (if pre[j].0 == new_letter {
                        (pre[j].0, (pre[j].1 + 1) as usize)
                    } else {
                        pre[j]
                    }),
                forall|j: int| i <= j < pre.len() ==> #[trigger] self.data@[j] == pre[j],
                found <==> exists|j: int| 0 <= j < i && (#[trigger] pre[j]).0 == new_letter,
            decreases self.data.len() - i,
        {
            let (letter, count) = self.data[i];
            if letter == new_letter {
                self.data[i] = (letter, count + 1);
                found = true;
            }
            i += 1;
        }
        if !found {
            self.data.push((new_letter, 1));
            proof {
                assert(!dist_has(pre, new_letter));
                assert(self.data@ =~= pre.push((new_letter, 1usize)));
            }
        } else {
            proof {
                assert(dist_has(pre, new_letter));
                assert(self.data@ =~= bump_matching(pre, new_letter));
            }
        }
    }

    /// Re-sort the entries by descending count; entries of equal count keep
    /// their current relative order.
    pub fn sort(&mut self)
        ensures
            final(self)@ == sort_desc(old(self)@),
    {
        let ghost pre = self.data@;
        let mut out: Vec<(char, usize)> = Vec::new();
        let mut i: usize = 0;
        while i < self.data.len()
            invariant
                i <= self.data@.len(),
                self.data@ == pre,
                out@ == sort_desc(pre.subrange(0, i as int)),
            decreases self.data@.len() - i,
        {
            let e = self.data[i];
            let mut pos: usize = 0;
            while pos < out.len() && out[pos].1 >= e.1
                invariant
                    pos <= out@.len(),
                    forall|j: int| 0 <= j < pos ==> (#[trigger] out@[j]).1 >= e.1,
                decreases out@.len() - pos,
            {
                pos += 1;
            }
            proof {
                lemma_insert_desc_at(e, out@, pos as int);
            }
            out.insert(pos, e);
            proof {
                assert(out@ =~= sort_desc(pre.subrange(0, i as int)).subrange(0, pos as int)
                    + seq![e] + sort_desc(pre.subrange(0, i as int)).subrange(
                    pos as int,
                    sort_desc(pre.subrange(0, i as int)).len() as int,
                ));
                assert(pre.subrange(0, i + 1).drop_last() =~= pre.subrange(0, i as int));
                assert(pre.subrange(0, i + 1).last() == pre[i as int]);
            }
            i += 1;
        }
        proof {
            assert(pre.subrange(0, pre.len() as int) =~= pre);
        }
        self.data = out;
    }

    /// The counts, in entry order.
    pub fn get_weights(&self) -> (r: Vec<usize>)
        ensures
            r@.len() == self@.len(),
            forall|i: int| 0 <= i < r@.len() ==> r@[i] == (#[trigger] self@[i]).1,
    {
        let mut r: Vec<usize> = Vec::new();
        let mut i: usize = 0;
        while i < self.data.len()
            invariant
                i <= self.data@.len(),
                r@.len() == i,
                forall|j: int| 0 <= j < i ==> r@[j] == (#[trigger] self.data@[j]).1,
            decreases self.data@.len() - i,
        {
            r.push(self.data[i].1);
            i += 1;
        }
        r
    }

    /// The symbols, in entry order.
    pub fn get_letters(&self) -> (r: Vec<char>)
        ensures
            r@.len() == self@.len(),
            forall|i: int| 0 <= i < r@.len() ==> r@[i] == (#[trigger] self@[i]).0,
    {
        let mut r: Vec<char> = Vec::new();
        let mut i: usize = 0;
        while i < self.data.len()
            invariant
                i <= self.data@.len(),
                r@.len() == i,
                forall|j: int| 0 <= j < i ==> r@[j] == (#[trigger] self.data@[j]).0,
            decreases self.data@.len() - i,
        {
            r.push(self.data[i].0);
            i += 1;
        }
        r
    }
}

// ---------------------------------------------------------------------------
// Specification model of the transition table: a sequence of
// (window, distribution) pairs with unique windows.
// ---------------------------------------------------------------------------
/// Number of entries of the table keyed by `q`.
pub open spec fn key_occs(t: Seq<(Seq<char>, Seq<(char, usize)>)>, q: Seq<char>) -> nat
    decreases t.len(),
{
    if t.len() == 0 {
        0
    } else {
        (if t[0].0 == q {
            1nat
        } else {
            0nat
        }) + key_occs(t.drop_first(), q)
    }
}

pub open spec fn table_has_key(t: Seq<(Seq<char>, Seq<(char, usize)>)>, q: Seq<char>) -> bool {
    exists|i: int| 0 <= i < t.len() && (#[trigger] t[i]).0 == q
}

/// The distribution stored under the first entry keyed by `q` (empty when
/// the key is absent).
pub open spec fn table_dist(t: Seq<(Seq<char>, Seq<(char, usize)>)>, q: Seq<char>) -> Seq<
    (char, usize),
>
    decreases t.len(),
{
    if t.len() == 0 {
        Seq::empty()
    } else if t[0].0 == q {
        t[0].1
    } else {
        table_dist(t.drop_first(), q)
    }
}

/// Count recorded in the table for the successor `c` of the window `q`.
pub open spec fn table_count(t: Seq<(Seq<char>, Seq<(char, usize)>)>, q: Seq<char>, c: char) -> nat {
    dist_count(table_dist(t, q), c)
}

/// Total weight of the distribution of the window `q`.
pub open spec fn table_key_total(t: Seq<(Seq<char>, Seq<(char, usize)>)>, q: Seq<char>) -> nat {
    dist_total(table_dist(t, q))
}

/// Sum of all counts in the table.
pub open spec fn grand_total(t: Seq<(Seq<char>, Seq<(char, usize)>)>) -> nat
    decreases t.len(),
{
    if t.len() == 0 {
        0
    } else {
        dist_total(t[0].1) + grand_total(t.drop_first())
    }
}

/// The effect of observing `c` after the window `key` once: the first entry
/// keyed by `key` records the observation, or a fresh entry is appended.
pub open spec fn table_observe(
    t: Seq<(Seq<char>, Seq<(char, usize)>)>,
    key: Seq<char>,
    c: char,
) -> Seq<(Seq<char>, Seq<(char, usize)>)>
    decreases t.len(),
{
    if t.len() == 0 {
        seq![(key, seq![(c, 1usize)])]
    } else if t[0].0 == key {
        seq![(t[0].0, dist_observe(t[0].1, c))] + t.drop_first()
    } else {
        seq![t[0]] + table_observe(t.drop_first(), key, c)
    }
}

/// Number of sliding windows of length `n + 1` in the text.
pub open spec fn window_count(text: Seq<char>, n: nat) -> int {
    if text.len() > n {
        text.len() - n
    } else {
        0
    }
}

/// The table after recording the first `m` windows of the text, in order.
pub open spec fn table_replay(
    t: Seq<(Seq<char>, Seq<(char, usize)>)>,
    text: Seq<char>,
    n: nat,
    m: int,
) -> Seq<(Seq<char>, Seq<(char, usize)>)>
    decreases m,
{
    if m <= 0 {
        t
    } else {
        table_observe(
            table_replay(t, text, n, m - 1),
            text.subrange(m - 1, m - 1 + n),
            text[m - 1 + n],
        )
    }
}

/// Every distribution of the table, stably re-sorted by descending count.
pub open spec fn table_sorted(t: Seq<(Seq<char>, Seq<(char, usize)>)>) -> Seq<
    (Seq<char>, Seq<(char, usize)>),
> {
    t.map(|i: int, e: (Seq<char>, Seq<(char, usize)>)| (e.0, sort_desc(e.1)))
}

/// The table after one full training call on `text`.
pub open spec fn spec_feed(
    t: Seq<(Seq<char>, Seq<(char, usize)>)>,
    text: Seq<char>,
    n: nat,
) -> Seq<(Seq<char>, Seq<(char, usize)>)> {
    table_sorted(table_replay(t, text, n, window_count(text, n)))
}

/// A well-formed table of order `n`: unique windows of length `n`, every
/// distribution well-formed and non-empty.
pub open spec fn table_wf(t: Seq<(Seq<char>, Seq<(char, usize)>)>, n: nat) -> bool {
    &&& forall|q: Seq<char>| key_occs(t, q) <= 1
    &&& forall|i: int| 0 <= i < t.len() ==> (#[trigger] t[i]).0.len() == n
    &&& forall|i: int| 0 <= i < t.len() ==> dist_wf((#[trigger] t[i]).1) && t[i].1.len() >= 1
}

// ---------------------------------------------------------------------------
// Occurrence counts of windows in a training text.
// ---------------------------------------------------------------------------
/// How often, among the first `m` windows, the window equals `key` and is
/// followed by `c`.
pub open spec fn occ_pair_upto(text: Seq<char>, n: nat, key: Seq<char>, c: char, m: int) -> nat
    decreases m,
{
    if m <= 0 {
        0
    } else {
        occ_pair_upto(text, n, key, c, m - 1) + if text.subrange(m - 1, m - 1 + n) == key && text[m
            - 1 + n] == c {
            1nat
        } else {
            0nat
        }
    }
}

/// How often the window `key` is followed by `c` anywhere in the text.
pub open spec fn occ_pair(text: Seq<char>, n: nat, key: Seq<char>, c: char) -> nat {
    occ_pair_upto(text, n, key, c, window_count(text, n))
}

/// How often, among the first `m` windows, the window equals `key`.
pub open spec fn occ_key_upto(text: Seq<char>, n: nat, key: Seq<char>, m: int) -> nat
    decreases m,
{
    if m <= 0 {
        0
    } else {
        occ_key_upto(text, n, key, m - 1) + if text.subrange(m - 1, m - 1 + n) == key {
            1nat
        } else {
            0nat
        }
    }
}

/// How often the window `key` occurs as a prefix of a window in the text.
pub open spec fn occ_key(text: Seq<char>, n: nat, key: Seq<char>) -> nat {
    occ_key_upto(text, n, key, window_count(text, n))
}

// ---------------------------------------------------------------------------
// Lemmas about a single observation.
// ---------------------------------------------------------------------------
proof fn lemma_occs_has(d: Seq<(char, usize)>, c: char)
    ensures
        letter_occs(d, c) > 0 <==> dist_has(d, c),
    decreases d.len(),
{
    if d.len() > 0 {
        lemma_occs_has(d.drop_last(), c);
        if dist_has(d.drop_last(), c) {
            let i = choose|i: int| 0 <= i < d.drop_last().len() && d.drop_last()[i].0 == c;
            assert(d[i].0 == c);
        }
        if dist_has(d, c) && d.last().0 != c {
            let i = choose|i: int| 0 <= i < d.len() && d[i].0 == c;
            assert(d.drop_last()[i].0 == c);
        }
    }
}

/// Every count of the distribution is at most its total.
proof fn lemma_entries_le_total(d: Seq<(char, usize)>)
    ensures
        forall|i: int| 0 <= i < d.len() ==> (#[trigger] d[i]).1 <= dist_total(d),
    decreases d.len(),
{
    if d.len() > 0 {
        lemma_entries_le_total(d.drop_last());
        assert forall|i: int| 0 <= i < d.len() implies (#[trigger] d[i]).1 <= dist_total(d) by {
            if i < d.len() - 1 {
                assert(d.drop_last()[i] == d[i]);
            }
        }
    }
}

proof fn lemma_bump_measures(d: Seq<(char, usize)>, c: char, q: char)
    requires
        forall|i: int| 0 <= i < d.len() && (#[trigger] d[i]).0 == c ==> d[i].1 < usize::MAX,
    ensures
        bump_matching(d, c).len() == d.len(),
        dist_count(bump_matching(d, c), q) == dist_count(d, q) + if q == c {
            letter_occs(d, c)
        } else {
            0nat
        },
        dist_total(bump_matching(d, c)) == dist_total(d) + letter_occs(d, c),
        letter_occs(bump_matching(d, c), q) == letter_occs(d, q),
    decreases d.len(),
{
    if d.len() > 0 {
        assert(bump_matching(d, c).drop_last() =~= bump_matching(d.drop_last(), c));
        assert(forall|i: int|
            0 <= i < d.len() - 1 && (#[trigger] d.drop_last()[i]).0 == c ==> d.drop_last()[i].1
                < usize::MAX);
        lemma_bump_measures(d.drop_last(), c, q);
        assert(bump_matching(d, c).last() == (if d.last().0 == c {
            (d.last().0, (d.last().1 + 1) as usize)
        } else {
            d.last()
        }));
    }
}

/// The effect of one observation on the distribution's measures.
proof fn lemma_dist_observe_measures(d: Seq<(char, usize)>, c: char, q: char)
    requires
        dist_wf(d),
        forall|i: int| 0 <= i < d.len() ==> (#[trigger] d[i]).1 < usize::MAX,
    ensures
        dist_wf(dist_observe(d, c)),
        dist_observe(d, c).len() >= 1,
        dist_count(dist_observe(d, c), q) == dist_count(d, q) + if q == c {
            1nat
        } else {
            0nat
        },
        dist_total(dist_observe(d, c)) == dist_total(d) + 1,
        letter_occs(dist_observe(d, c), q) == letter_occs(d, q) + if q == c && !dist_has(d, c) {
            1nat
        } else {
            0nat
        },
{
    lemma_occs_has(d, c);
    lemma_occs_has(d, q);
    if dist_has(d, c) {
        lemma_bump_measures(d, c, q);
        assert(forall|i: int|
            0 <= i < d.len() ==> (#[trigger] bump_matching(d, c)[i]).1 >= 1 && bump_matching(d, c)[i].0 == d[i].0);
        assert forall|x: char| letter_occs(bump_matching(d, c), x) <= 1 by {
            lemma_bump_measures(d, c, x);
        }
    } else {
        let r = d.push((c, 1usize));
        assert(r.drop_last() =~= d);
        assert(forall|i: int| 0 <= i < d.len() ==> r[i] == (#[trigger] d[i]));
        assert forall|x: char| letter_occs(r, x) <= 1 by {
            assert(letter_occs(r, x) == letter_occs(d, x) + if x == c {
                1nat
            } else {
                0nat
            });
            lemma_occs_has(d, x);
        }
    }
}

// ---------------------------------------------------------------------------
// Lemmas about one observation at the table level.
// ---------------------------------------------------------------------------
proof fn lemma_key_occs_has(t: Seq<(Seq<char>, Seq<(char, usize)>)>, q: Seq<char>)
    ensures
        key_occs(t, q) > 0 <==> table_has_key(t, q),
    decreases t.len(),
{
    if t.len() > 0 {
        lemma_key_occs_has(t.drop_first(), q);
        if table_has_key(t.drop_first(), q) {
            let i = choose|i: int| 0 <= i < t.drop_first().len() && t.drop_first()[i].0 == q;
            assert(t[i + 1].0 == q);
        }
        if table_has_key(t, q) && t[0].0 != q {
            let i = choose|i: int| 0 <= i < t.len() && t[i].0 == q;
            assert(t.drop_first()[i - 1].0 == q);
        }
    }
}

/// Every distribution's total is at most the table's grand total.
proof fn lemma_dist_le_grand(t: Seq<(Seq<char>, Seq<(char, usize)>)>, i: int)
    requires
        0 <= i < t.len(),
    ensures
        dist_total(t[i].1) <= grand_total(t),
    decreases t.len(),
{
    if i > 0 {
        lemma_dist_le_grand(t.drop_first(), i - 1);
        assert(t.drop_first()[i - 1] == t[i]);
    }
}

/// The effect of one observation on the table's contents.
proof fn lemma_table_observe_props(
    t: Seq<(Seq<char>, Seq<(char, usize)>)>,
    key: Seq<char>,
    c: char,
    q: Seq<char>,
)
    requires
        forall|i: int| 0 <= i < t.len() ==> dist_wf((#[trigger] t[i]).1),
        grand_total(t) < usize::MAX,
    ensures
        table_dist(table_observe(t, key, c), q) == (if q == key {
            dist_observe(table_dist(t, key), c)
        } else {
            table_dist(t, q)
        }),
        key_occs(table_observe(t, key, c), q) == key_occs(t, q) + if q == key && !table_has_key(
            t,
            key,
        ) {
            1nat
        } else {
            0nat
        },
        grand_total(table_observe(t, key, c)) == grand_total(t) + 1,
        table_observe(t, key, c).len() == t.len() + if table_has_key(t, key) {
            0int
        } else {
            1int
        },
        forall|i: int|
            0 <= i < table_observe(t, key, c).len() ==> (#[trigger] table_observe(t, key, c)[i]).0
                == (if i < t.len() {
                t[i].0
            } else {
                key
            }),
        forall|i: int|
            0 <= i < table_observe(t, key, c).len() ==> dist_wf(
                (#[trigger] table_observe(t, key, c)[i]).1,
            ) && (if i < t.len() {
                table_observe(t, key, c)[i].1.len() >= t[i].1.len()
            } else {
                table_observe(t, key, c)[i].1.len() >= 1
            }),
    decreases t.len(),
{
    let r = table_observe(t, key, c);
    lemma_key_occs_has(t, key);
    if t.len() == 0 {
        assert(r == seq![(key, seq![(c, 1usize)])]);
        assert(r.drop_first() =~= Seq::<(Seq<char>, Seq<(char, usize)>)>::empty());
        assert(dist_total(seq![(c, 1usize)]) == 1) by {
            lemma_singleton((c, 1usize), c);
        }
        assert(dist_wf(seq![(c, 1usize)])) by {
            assert forall|x: char| letter_occs(seq![(c, 1usize)], x) <= 1 by {
                lemma_singleton((c, 1usize), x);
            }
        }
        assert(grand_total(Seq::<(Seq<char>, Seq<(char, usize)>)>::empty()) == 0);
        assert(key_occs(Seq::<(Seq<char>, Seq<(char, usize)>)>::empty(), q) == 0);
        assert(table_dist(Seq::<(Seq<char>, Seq<(char, usize)>)>::empty(), q) == Seq::<
            (char, usize),
        >::empty());
        assert(grand_total(r) == dist_total(r[0].1) + grand_total(r.drop_first()));
        assert(key_occs(r, q) == (if r[0].0 == q {
            1nat
        } else {
            0nat
        }) + key_occs(r.drop_first(), q));
        assert(!dist_has(Seq::<(char, usize)>::empty(), c));
        assert(dist_observe(Seq::<(char, usize)>::empty(), c) =~= seq![(c, 1usize)]);
        if q == key {
            assert(table_dist(r, q) == r[0].1);
        } else {
            assert(table_dist(r, q) == table_dist(r.drop_first(), q));
        }
    } else if t[0].0 == key {
        let d0 = t[0].1;
        assert(dist_total(d0) <= grand_total(t)) by {
            lemma_dist_le_grand(t, 0);
        }
        lemma_entries_le_total(d0);
        lemma_dist_observe_measures(d0, c, c);
        assert(r == seq![(t[0].0, dist_observe(d0, c))] + t.drop_first());
        assert(r.drop_first() =~= t.drop_first());
        assert(r[0] == (t[0].0, dist_observe(d0, c)));
        assert(grand_total(r) == dist_total(dist_observe(d0, c)) + grand_total(r.drop_first()));
        assert(grand_total(t) == dist_total(d0) + grand_total(t.drop_first()));
        assert(key_occs(r, q) == (if r[0].0 == q {
            1nat
        } else {
            0nat
        }) + key_occs(r.drop_first(), q));
        assert(key_occs(t, q) == (if t[0].0 == q {
            1nat
        } else {
            0nat
        }) + key_occs(t.drop_first(), q));
        assert(table_has_key(t, key)) by {
            assert(t[0].0 == key);
        }
        assert(table_dist(t, key) == d0);
        if q == key {
            assert(table_dist(r, q) == r[0].1);
        } else {
            assert(table_dist(r, q) == table_dist(r.drop_first(), q));
            assert(table_dist(t, q) == table_dist(t.drop_first(), q));
        }
        assert forall|i: int| 0 <= i < r.len() implies (#[trigger] r[i]).0 == t[i].0 by {
            if i >= 1 {
                assert(r[i] == t.drop_first()[i - 1]);
                assert(t.drop_first()[i - 1] == t[i]);
            }
        }
        assert forall|i: int|
            0 <= i < r.len() implies dist_wf((#[trigger] r[i]).1) && r[i].1.len()
            >= t[i].1.len() by {
            if i >= 1 {
                assert(r[i] == t.drop_first()[i - 1]);
                assert(t.drop_first()[i - 1] == t[i]);
            }
        }
    } else {
        let rr = table_observe(t.drop_first(), key, c);
        assert(grand_total(t) == dist_total(t[0].1) + grand_total(t.drop_first()));
        assert(forall|i: int|
            0 <= i < t.drop_first().len() ==> dist_wf((#[trigger] t.drop_first()[i]).1));
        lemma_table_observe_props(t.drop_first(), key, c, q);
        lemma_key_occs_has(t.drop_first(), key);
        assert(r == seq![t[0]] + rr);
        assert(r.drop_first() =~= rr);
        assert(r[0] == t[0]);
        assert(table_has_key(t, key) <==> table_has_key(t.drop_first(), key)) by {
            if table_has_key(t.drop_first(), key) {
                let i = choose|i: int|
                    0 <= i < t.drop_first().len() && (#[trigger] t.drop_first()[i]).0 == key;
                assert(t[i + 1].0 == key);
            }
            if table_has_key(t, key) {
                let i = choose|i: int| 0 <= i < t.len() && (#[trigger] t[i]).0 == key;
                assert(t.drop_first()[i - 1].0 == key);
            }
        }
        assert(grand_total(r) == dist_total(r[0].1) + grand_total(r.drop_first()));
        assert(key_occs(r, q) == (if r[0].0 == q {
            1nat
        } else {
            0nat
        }) + key_occs(r.drop_first(), q));
        assert(key_occs(t, q) == (if t[0].0 == q {
            1nat
        } else {
            0nat
        }) + key_occs(t.drop_first(), q));
        if q == key {
            assert(table_dist(r, q) == table_dist(rr, q));
            assert(table_dist(t, key) == table_dist(t.drop_first(), key));
        } else {
            if t[0].0 == q {
                assert(table_dist(r, q) == r[0].1);
                assert(table_dist(t, q) == t[0].1);
            } else {
                assert(table_dist(r, q) == table_dist(rr, q));
                assert(table_dist(t, q) == table_dist(t.drop_first(), q));
            }
        }
        assert forall|i: int| 0 <= i < r.len() implies (#[trigger] r[i]).0 == (if i < t.len() {
            t[i].0
        } else {
            key
        }) by {
            if i >= 1 {
                assert(r[i] == rr[i - 1]);
                if i < t.len() {
                    assert(rr[i - 1].0 == t.drop_first()[i - 1].0);
                    assert(t.drop_first()[i - 1] == t[i]);
                }
            }
        }
        assert forall|i: int| 0 <= i < r.len() implies dist_wf((#[trigger] r[i]).1) && (if i
            < t.len() {
            r[i].1.len() >= t[i].1.len()
        } else {
            r[i].1.len() >= 1
        }) by {
            if i >= 1 {
                assert(r[i] == rr[i - 1]);
                if i < t.len() {
                    assert(t.drop_first()[i - 1] == t[i]);
                }
            }
        }
    }
}

/// Exec update at the first matching index realizes `table_observe`.
proof fn lemma_table_observe_found(
    t: Seq<(Seq<char>, Seq<(char, usize)>)>,
    key: Seq<char>,
    c: char,
    i: int,
)
    requires
        0 <= i < t.len(),
        t[i].0 == key,
        forall|j: int| 0 <= j < i ==> (#[trigger] t[j]).0 != key,
    ensures
        table_observe(t, key, c) == t.update(i, (t[i].0, dist_observe(t[i].1, c))),
    decreases i,
{
    if i == 0 {
        assert(table_observe(t, key, c) =~= t.update(0, (t[0].0, dist_observe(t[0].1, c))));
    } else {
        assert(forall|j: int|
            0 <= j < i - 1 ==> (#[trigger] t.drop_first()[j]).0 == t[j + 1].0 && t[j + 1].0 != key);
        assert(t.drop_first()[i - 1] == t[i]);
        lemma_table_observe_found(t.drop_first(), key, c, i - 1);
        assert(table_observe(t, key, c) == seq![t[0]] + table_observe(t.drop_first(), key, c));
        assert(seq![t[0]] + t.drop_first().update(
            i - 1,
            (t[i].0, dist_observe(t[i].1, c)),
        ) =~= t.update(i, (t[i].0, dist_observe(t[i].1, c))));
    }
}

/// Exec append when no entry matches realizes `table_observe`.
proof fn lemma_table_observe_absent(
    t: Seq<(Seq<char>, Seq<(char, usize)>)>,
    key: Seq<char>,
    c: char,
)
    requires
        forall|j: int| 0 <= j < t.len() ==> (#[trigger] t[j]).0 != key,
    ensures
        table_observe(t, key, c) == t.push((key, seq![(c, 1usize)])),
    decreases t.len(),
{
    if t.len() == 0 {
        assert(table_observe(t, key, c) =~= t.push((key, seq![(c, 1usize)])));
    } else {
        assert(forall|j: int|
            0 <= j < t.drop_first().len() ==> (#[trigger] t.drop_first()[j]).0 == t[j + 1].0 && t[j
                + 1].0 != key);
        lemma_table_observe_absent(t.drop_first(), key, c);
        assert(seq![t[0]] + t.drop_first().push((key, seq![(c, 1usize)])) =~= t.push(
            (key, seq![(c, 1usize)]),
        ));
    }
}

// ---------------------------------------------------------------------------
// The word is a fixed-length window of symbols, used as a lookup key.
// ---------------------------------------------------------------------------
#[derive(Debug, PartialEq, Eq, Hash)]
pub struct Word {
    pub data: Vec<char>,
}

impl View for Word {
    type V = Seq<char>;

    open spec fn view(&self) -> Seq<char> {
        self.data@
    }
}

impl Word {
    pub fn from_char_slice(slice: &[char]) -> (r: Self)
        ensures
            r@ == slice@,
    {
        Self { data: vstd::slice::slice_to_vec(slice) }
    }

    pub fn from_str(text: &str) -> (r: Self)
        ensures
            r@ == text@,
    {
        Self { data: str_chars(text) }
    }
}

/// The characters of a string slice, as a vector.
pub fn str_chars(text: &str) -> (r: Vec<char>)
    ensures
        r@ == text@,
{
    let n = text.unicode_len();
    let mut r: Vec<char> = Vec::new();
    let mut i: usize = 0;
    while i < n
        invariant
            i <= n,
            n == text@.len(),
            r@ == text@.subrange(0, i as int),
        decreases n - i,
    {
        r.push(text.get_char(i));
        proof {
            assert(r@ =~= text@.subrange(0, i + 1));
        }
        i += 1;
    }
    proof {
        assert(text@.subrange(0, text@.len() as int) =~= text@);
    }
    r
}

/// Compare two words element-wise.
fn word_eq(a: &Word, b: &Word) -> (r: bool)
    ensures
        r == (a@ == b@),
{
    if a.data.len() != b.data.len() {
        return false;
    }
    let mut i: usize = 0;
    while i < a.data.len()
        invariant
            i <= a.data@.len(),
            a.data@.len() == b.data@.len(),
            forall|j: int| 0 <= j < i ==> a.data@[j] == b.data@[j],
        decreases a.data@.len() - i,
    {
        if a.data[i] != b.data[i] {
            return false;
        }
        i += 1;
    }
    proof {
        assert(a@ =~= b@);
    }
    true
}

// ---------------------------------------------------------------------------
// Capitalization and the trusted boundary to the random number generator.
// ---------------------------------------------------------------------------
/// Ascii upper-casing of one character: 'a' to 'z' shift down by 32.
pub open spec fn spec_upper(c: char) -> char {
    if 97 <= c as u32 && c as u32 <= 122 {
        ((c as u32) - 32) as char
    } else {
        c
    }
}

/// Ascii lower-casing of one character: 'A' to 'Z' shift up by 32.
pub open spec fn spec_lower(c: char) -> char {
    if 65 <= c as u32 && c as u32 <= 90 {
        ((c as u32) + 32) as char
    } else {
        c
    }
}

/// The string with its first character ascii-upper-cased and the rest kept.
pub open spec fn cap_first(s: Seq<char>) -> Seq<char> {
    if s.len() == 0 {
        s
    } else {
        seq![spec_upper(s[0])] + s.drop_first()
    }
}

/// Relies on char::to_ascii_uppercase: 'a' to 'z' map to 'A' to 'Z', every
/// other character is returned unchanged.
#[verifier::external_body]
pub(crate) fn to_upper(c: char) -> (r: char)
    ensures
        r == spec_upper(c),
{
    c.to_ascii_uppercase()
}

/// Relies on String::push: appends one character at the end.
#[verifier::external_body]
pub(crate) fn push_char(s: &mut String, c: char)
    ensures
        final(s)@ == old(s)@.push(c),
{
    s.push(c);
}

/// Relies on rand::random_range over `0..n`: a random index below `n`.
/// It panics on an empty range, so `n` must be positive.
#[verifier::external_body]
fn random_below(n: usize) -> (r: usize)
    requires
        n >= 1,
    ensures
        r < n,
{
    rand::random_range(0..n)
}

/// Sum of a weight vector.
pub open spec fn sum_weights(w: Seq<usize>) -> nat
    decreases w.len(),
{
    if w.len() == 0 {
        0
    } else {
        sum_weights(w.drop_last()) + w.last() as nat
    }
}

/// Relies on rand::distr::weighted::WeightedIndex: `new` accepts a non-empty
/// list of positive weights whose sum fits in usize, and `sample` returns an
/// index below the number of weights, each index drawn with probability
/// proportional to its weight.
#[verifier::external_body]
fn sample_weighted(weights: &Vec<usize>) -> (r: usize)
    requires
        weights@.len() >= 1,
        forall|i: int| 0 <= i < weights@.len() ==> weights@[i] >= 1,
        sum_weights(weights@) <= usize::MAX,
    ensures
        r < weights@.len(),
{
    let dist = rand::distr::weighted::WeightedIndex::new(weights).unwrap();
    rand::distr::Distribution::sample(&dist, &mut rand::rng())
}

/// A weight vector read off a distribution entry-wise sums to its total.
proof fn lemma_sum_weights_eq(w: Seq<usize>, d: Seq<(char, usize)>)
    requires
        w.len() == d.len(),
        forall|i: int| 0 <= i < w.len() ==> w[i] == (#[trigger] d[i]).1,
    ensures
        sum_weights(w) == dist_total(d),
    decreases w.len(),
{
    if w.len() > 0 {
        assert(forall|i: int|
            0 <= i < w.len() - 1 ==> w.drop_last()[i] == (#[trigger] d.drop_last()[i]).1 && d[i]
                == d.drop_last()[i] && w[i] == w.drop_last()[i]);
        lemma_sum_weights_eq(w.drop_last(), d.drop_last());
    }
}

/// An entry's symbol has at least the entry's count recorded.
proof fn lemma_count_at_least(d: Seq<(char, usize)>, i: int)
    requires
        0 <= i < d.len(),
    ensures
        dist_count(d, d[i].0) >= d[i].1,
    decreases d.len(),
{
    if i < d.len() - 1 {
        assert(d.drop_last()[i] == d[i]);
        lemma_count_at_least(d.drop_last(), i);
    }
}

/// The first entry keyed by `q` holds the distribution the table reads.
proof fn lemma_table_dist_at(t: Seq<(Seq<char>, Seq<(char, usize)>)>, q: Seq<char>, i: int)
    requires
        0 <= i < t.len(),
        t[i].0 == q,
        forall|j: int| 0 <= j < i ==> (#[trigger] t[j]).0 != q,
    ensures
        table_dist(t, q) == t[i].1,
    decreases i,
{
    if i > 0 {
        assert(forall|j: int|
            0 <= j < i - 1 ==> (#[trigger] t.drop_first()[j]).0 == t[j + 1].0 && t[j + 1].0 != q);
        assert(t.drop_first()[i - 1] == t[i]);
        lemma_table_dist_at(t.drop_first(), q, i - 1);
    }
}

/// Build a string out of a character vector.
pub(crate) fn chars_to_string(v: &Vec<char>) -> (r: String)
    ensures
        r@ == v@,
{
    let mut r = String::new();
    let mut i: usize = 0;
    while i < v.len()
        invariant
            i <= v@.len(),
            r@ == v@.subrange(0, i as int),
        decreases v@.len() - i,
    {
        push_char(&mut r, v[i]);
        proof {
            assert(r@ =~= v@.subrange(0, i + 1));
        }
        i += 1;
    }
    proof {
        assert(v@.subrange(0, v@.len() as int) =~= v@);
    }
    r
}

// ---------------------------------------------------------------------------
// The MarkovChain of order N maps each N-length window of symbols to the
// frequency distribution of the symbols observed to follow it.
// ---------------------------------------------------------------------------
#[derive(Debug, PartialEq, Eq)]
pub struct MarkovChain {
    order: usize,
    transitions: Vec<(Word, ValueFrequency)>,
}

impl MarkovChain {
    /// The chain's order: the window length used as a key.
    pub closed spec fn spec_order(&self) -> nat {
        self.order as nat
    }

    /// The mathematical model of the transition table.
    pub closed spec fn table(&self) -> Seq<(Seq<char>, Seq<(char, usize)>)> {
        self.transitions@.map(|i: int, e: (Word, ValueFrequency)| (e.0@, e.1@))
    }

    pub open spec fn wf(&self) -> bool {
        &&& self.spec_order() >= 1
        &&& table_wf(self.table(), self.spec_order())
        &&& grand_total(self.table()) <= usize::MAX
    }

    /// A new, empty chain of the given order. An order of zero is invalid.
    pub fn new(order: usize) -> (r: Self)
        requires
            order >= 1,
        ensures
            r.wf(),
            r.spec_order() == order as nat,
            r.table() == Seq::<(Seq<char>, Seq<(char, usize)>)>::empty(),
    {
        let r = Self { order, transitions: Vec::new() };
        proof {
            assert(r.table() =~= Seq::<(Seq<char>, Seq<(char, usize)>)>::empty());
            assert(forall|q: Seq<char>| key_occs(r.table(), q) == 0);
        }
        r
    }

    /// Record one observation: `succ` was seen right after the window `key`.
    fn observe(&mut self, key: Word, succ: char)
        requires
            table_wf(old(self).table(), old(self).spec_order()),
            key@.len() == old(self).spec_order(),
            grand_total(old(self).table()) < usize::MAX,
        ensures
            final(self).spec_order() == old(self).spec_order(),
            final(self).table() == table_observe(old(self).table(), key@, succ),
    {
        let ghost t0 = self.table();
        let mut i: usize = 0;
        let mut found: bool = false;
        while i < self.transitions.len() && !found
            invariant
                i <= self.transitions@.len(),
                self.table() == t0,
                self.transitions@.map(
                    |k: int, e: (Word, ValueFrequency)| (e.0@, e.1@),
                ) == t0,
                found ==> i >= 1 && t0[i - 1].0 == key@,
                forall|j: int| 0 <= j < i && !(found && j == i - 1) ==> (#[trigger] t0[j]).0 != key@,
            decreases self.transitions@.len() - i + (if found {
                0int
            } else {
                1int
            }),
        {
            if word_eq(&self.transitions[i].0, &key) {
                found = true;
                proof {
                    assert(t0[i as int].0 == self.transitions@[i as int].0@);
                }
            }
            i += 1;
        }
        if found {
            let idx = i - 1;
            proof {
                assert(t0[idx as int].0 == key@);
                lemma_dist_le_grand(t0, idx as int);
                lemma_entries_le_total(t0[idx as int].1);
                lemma_table_observe_found(t0, key@, succ, idx as int);
                assert(self.transitions@[idx as int].1@ == t0[idx as int].1);
            }
            let entry = &mut self.transitions[idx];
            entry.1.insert(succ);
            proof {
                assert(self.table() =~= table_observe(t0, key@, succ));
            }
        } else {
            let mut vf = ValueFrequency::new();
            vf.insert(succ);
            proof {
                assert(!dist_has(Seq::<(char, usize)>::empty(), succ));
                assert(vf@ =~= seq![(succ, 1usize)]);
                lemma_table_observe_absent(t0, key@, succ);
            }
            self.transitions.push((key, vf));
            proof {
                assert(self.table() =~= table_observe(t0, key@, succ));
            }
        }
    }

    /// Train the chain on `text`: every sliding window of length order + 1
    /// records its last symbol as a successor of its first `order` symbols,
    /// and every distribution is then re-sorted by descending count.
    ///
    /// Shorter texts contribute no windows; repeated calls accumulate.
    pub fn feed_str(&mut self, text: &str)
        requires
            old(self).wf(),
            grand_total(old(self).table()) + text@.len() <= usize::MAX,
        ensures
            final(self).wf(),
            final(self).spec_order() == old(self).spec_order(),
            final(self).table() == spec_feed(
                old(self).table(),
                text@,
                old(self).spec_order(),
            ),
    {
        let chars = str_chars(text);
        let n = self.order;
        let ghost t0 = self.table();
        let ghost txt = text@;
        let ghost ord = self.spec_order();
        if chars.len() > n {
            let mut i: usize = 0;
            while i + n < chars.len()
                invariant
                    n >= 1,
                    self.spec_order() == n as nat,
                    chars@ == txt,
                    n < txt.len(),
                    0 <= i as int <= window_count(txt, n as nat),
                    grand_total(t0) + txt.len() <= usize::MAX,
                    table_wf(t0, n as nat),
                    self.table() == table_replay(t0, txt, n as nat, i as int),
                    table_wf(self.table(), n as nat),
                    grand_total(self.table()) == grand_total(t0) + i,
                decreases chars@.len() - n - i,
            {
                let mut kv: Vec<char> = Vec::new();
                let mut j: usize = 0;
                while j < n
                    invariant
                        j <= n,
                        i + n < chars@.len(),
                        chars@.len() <= usize::MAX,
                        kv@ == chars@.subrange(i as int, i + j),
                    decreases n - j,
                {
                    kv.push(chars[i + j]);
                    proof {
                        assert(kv@ =~= chars@.subrange(i as int, i + j + 1));
                    }
                    j += 1;
                }
                let key = Word { data: kv };
                let succ = chars[i + n];
                proof {
                    assert(grand_total(self.table()) < usize::MAX);
                }
                let ghost tcur = self.table();
                self.observe(key, succ);
                proof {
                    assert forall|q: Seq<char>| key_occs(self.table(), q) <= 1 by {
                        lemma_table_observe_props(tcur, key@, succ, q);
                        lemma_key_occs_has(tcur, key@);
                    }
                    lemma_table_observe_props(tcur, key@, succ, key@);
                    assert(table_wf(self.table(), n as nat));
                    assert(self.table() == table_replay(t0, txt, n as nat, i + 1));
                }
                i += 1;
            }
        }
        // Re-sort every distribution by descending count.
        let ghost mid = self.table();
        proof {
            if txt.len() <= n {
                assert(window_count(txt, n as nat) == 0);
                assert(mid == table_replay(t0, txt, n as nat, 0));
            }
        }
        let ghost pre_vec = self.transitions@;
        let mut sorted: Vec<(Word, ValueFrequency)> = Vec::new();
        while self.transitions.len() > 0
            invariant
                self.spec_order() == ord,
                pre_vec.map(|k: int, e: (Word, ValueFrequency)| (e.0@, e.1@)) == mid,
                sorted@.len() + self.transitions@.len() == pre_vec.len(),
                self.transitions@ == pre_vec.subrange(sorted@.len() as int, pre_vec.len() as int),
                forall|k: int|
                    0 <= k < sorted@.len() ==> (#[trigger] sorted@[k]).0@ == pre_vec[k].0@
                        && sorted@[k].1@ == sort_desc(pre_vec[k].1@),
            decreases self.transitions@.len(),
        {
            let (w, mut vf) = self.transitions.remove(0);
            proof {
                assert(pre_vec[sorted@.len() as int].0@ == w@ && pre_vec[sorted@.len() as int].1@
                    == vf@);
                assert(self.transitions@ =~= pre_vec.subrange(
                    sorted@.len() as int + 1,
                    pre_vec.len() as int,
                ));
            }
            vf.sort();
            sorted.push((w, vf));
        }
        self.transitions = sorted;
        proof {
            assert(self.table() =~= table_sorted(mid));
            let fin = self.table();
            assert forall|q: Seq<char>| key_occs(fin, q) <= 1 by {
                lemma_table_sorted_key_occs(mid, q);
            }
            assert forall|k: int| 0 <= k < fin.len() implies dist_wf((#[trigger] fin[k]).1)
                && fin[k].1.len() >= 1 && fin[k].0.len() == ord by {
                assert(fin[k] == (mid[k].0, sort_desc(mid[k].1)));
                lemma_sort_desc_wf(mid[k].1);
                lemma_sort_desc_len(mid[k].1);
            }
            lemma_table_sorted_grand(mid);
        }
    }

    /// The table rendered as text, one block per window: the window's
    /// symbols, ": ", a newline, then per entry a tab, the symbol, " => ",
    /// its count and a newline, then a blank line.
    pub fn display_string(&self) -> (r: String)
        ensures
            r@ == table_display(self.table()),
    {
        let ghost t = self.table();
        proof {
            assert(t.skip(0) =~= t);
        }
        let mut out = String::new();
        let mut i: usize = 0;
        while i < self.transitions.len()
            invariant
                i <= self.transitions@.len(),
                self.transitions@.map(|k: int, e: (Word, ValueFrequency)| (e.0@, e.1@)) == t,
                table_display(t) == out@ + table_display(t.skip(i as int)),
            decreases self.transitions@.len() - i,
        {
            let ghost rest = t.skip(i as int);
            proof {
                assert(rest[0] == t[i as int]);
                assert(rest.drop_first() =~= t.skip(i + 1));
            }
            let ghost before = out@;
            let entry = &self.transitions[i];
            proof {
                assert(entry.0@ == t[i as int].0 && entry.1@ == t[i as int].1);
            }
            append_chars(&mut out, &entry.0.data);
            push_char(&mut out, ':');
            push_char(&mut out, ' ');
            push_char(&mut out, '\n');
            proof {
                assert(out@ =~= before + (t[i as int].0 + seq![':', ' ', '\n']));
            }
            append_dist(&mut out, &entry.1);
            push_char(&mut out, '\n');
            proof {
                assert(out@ =~= before + (t[i as int].0 + seq![':', ' ', '\n'] + dist_display(
                    t[i as int].1,
                ) + seq!['\n']));
                assert(before + (t[i as int].0 + seq![':', ' ', '\n'] + dist_display(t[i as int].1)
                    + seq!['\n']) + table_display(t.skip(i + 1)) =~= before + table_display(rest));
            }
            i += 1;
        }
        proof {
            assert(t.skip(t.len() as int) =~= Seq::<(Seq<char>, Seq<(char, usize)>)>::empty());
            assert(out@ + Seq::<char>::empty() =~= out@);
        }
        out
    }

    /// Index of the first entry keyed by `key`, if the table has one.
    fn find_key(&self, key: &Word) -> (r: Option<usize>)
        ensures
            match r {
                Some(i) => i < self.table().len() && self.table()[i as int].0 == key@ && table_dist(
                    self.table(),
                    key@,
                ) == self.table()[i as int].1 && table_has_key(self.table(), key@),
                None => !table_has_key(self.table(), key@),
            },
    {
        let ghost t = self.table();
        let mut i: usize = 0;
        while i < self.transitions.len()
            invariant
                i <= self.transitions@.len(),
                self.transitions@.map(|k: int, e: (Word, ValueFrequency)| (e.0@, e.1@)) == t,
                forall|j: int| 0 <= j < i ==> (#[trigger] t[j]).0 != key@,
            decreases self.transitions@.len() - i,
        {
            if word_eq(&self.transitions[i].0, &key) {
                proof {
                    assert(t[i as int].0 == key@);
                    lemma_table_dist_at(t, key@, i as int);
                }
                return Some(i);
            }
            i += 1;
        }
        None
    }

    /// One of the table's windows, chosen uniformly at random.
    pub fn pick_random_word(&self) -> (r: String)
        requires
            self.table().len() >= 1,
        ensures
            exists|i: int| 0 <= i < self.table().len() && r@ == (#[trigger] self.table()[i]).0,
    {
        let idx = random_below(self.transitions.len());
        let r = chars_to_string(&self.transitions[idx].0.data);
        proof {
            assert(r@ == self.table()[idx as int].0);
        }
        r
    }

    /// A sampling trace: `s` starts at some window of the table and every
    /// further symbol was recorded as a successor of the window just before
    /// it. The trace stops at `size` symbols, or earlier only at a window
    /// the table does not know (a dead end); it is never shorter than the
    /// seed window.
    pub open spec fn valid_generation(&self, s: Seq<char>, size: int) -> bool {
        let n = self.spec_order() as int;
        &&& s.len() >= n
        &&& table_has_key(self.table(), s.subrange(0, n))
        &&& forall|j: int|
            n <= j < s.len() ==> table_count(self.table(), s.subrange(j - n, j), s[j]) > 0
        &&& (if size <= n {
            s.len() == n
        } else {
            s.len() <= size
        })
        &&& s.len() < size ==> !table_has_key(
            self.table(),
            s.subrange(s.len() - n, s.len() as int),
        )
    }

    /// Generate a new sequence of at most `size` symbols (at least the seed
    /// window when the table is non-empty; empty when the table is empty),
    /// with its first character upper-cased.
    pub fn generate_str(&self, size: usize) -> (r: String)
        requires
            self.wf(),
        ensures
            self.table().len() == 0 ==> r@ == Seq::<char>::empty(),
            self.table().len() >= 1 ==> exists|s: Seq<char>|
                self.valid_generation(s, size as int) && r@ == cap_first(s),
            self.table().len() >= 1 ==> r@.len() >= self.spec_order(),
            self.table().len() >= 1 && self.spec_order() <= size ==> r@.len() <= size,
    {
        let ghost t = self.table();
        let n = self.order;
        if self.transitions.len() == 0 {
            proof {
                assert(self.table().len() == 0);
            }
            return String::new();
        }
        let seed = self.pick_random_word();
        let mut name: Vec<char> = str_chars(seed.as_str());
        proof {
            let i = choose|i: int| 0 <= i < t.len() && seed@ == (#[trigger] t[i]).0;
            assert(t[i].0.len() == self.spec_order());
            assert(name@.subrange(0, n as int) =~= name@);
            assert(table_has_key(t, name@.subrange(0, n as int)));
        }
        while name.len() < size
            invariant
                self.wf(),
                self.table() == t,
                n == self.order,
                name@.len() >= n,
                name@.len() <= if size <= n {
                    n as int
                } else {
                    size as int
                },
                table_has_key(t, name@.subrange(0, n as int)),
                forall|j: int|
                    n <= j < name@.len() ==> table_count(t, name@.subrange(j - n, j), name@[j]) > 0,
            ensures
                name@.len() >= size || !table_has_key(
                    t,
                    name@.subrange(name@.len() - n, name@.len() as int),
                ),
            decreases size - name@.len(),
        {
            let start = name.len() - n;
            let mut kv: Vec<char> = Vec::new();
            let mut j: usize = 0;
            while j < n
                invariant
                    j <= n,
                    start + n == name@.len(),
                    name@.len() <= usize::MAX,
                    kv@ == name@.subrange(start as int, start + j),
                decreases n - j,
            {
                kv.push(name[start + j]);
                proof {
                    assert(kv@ =~= name@.subrange(start as int, start + j + 1));
                }
                j += 1;
            }
            let word = Word { data: kv };
            proof {
                assert(word@ == name@.subrange(name@.len() - n, name@.len() as int));
            }
            match self.find_key(&word) {
                Some(ti) => {
                    let ghost d = t[ti as int].1;
                    proof {
                        assert(dist_wf(d) && d.len() >= 1);
                        lemma_dist_le_grand(t, ti as int);
                    }
                    let entry = &self.transitions[ti];
                    let weights = entry.1.get_weights();
                    let letters = entry.1.get_letters();
                    proof {
                        assert(entry.1@ == d);
                        lemma_sum_weights_eq(weights@, d);
                        assert forall|k: int| 0 <= k < weights@.len() implies weights@[k] >= 1 by {
                            assert(weights@[k] == d[k].1);
                        }
                    }
                    let di = sample_weighted(&weights);
                    let c = letters[di];
                    proof {
                        assert(c == d[di as int].0);
                        lemma_count_at_least(d, di as int);
                        assert(table_dist(t, word@) == d);
                        assert(table_count(t, word@, c) > 0);
                    }
                    let ghost pre = name@;
                    name.push(c);
                    proof {
                        assert(name@ == pre.push(c));
                        assert(name@.subrange(0, n as int) =~= pre.subrange(0, n as int));
                        assert forall|j2: int|
                            n <= j2 < name@.len() implies table_count(
                            t,
                            name@.subrange(j2 - n, j2),
                            name@[j2],
                        ) > 0 by {
                            if j2 < pre.len() {
                                assert(name@.subrange(j2 - n, j2) =~= pre.subrange(j2 - n, j2));
                                assert(name@[j2] == pre[j2]);
                            } else {
                                assert(name@.subrange(j2 - n, j2) =~= word@);
                                assert(name@[j2] == c);
                            }
                        }
                    }
                }
                None => {
                    break ;
                },
            }
        }
        let first = name[0];
        let mut out = String::new();
        push_char(&mut out, to_upper(first));
        let mut i: usize = 1;
        while i < name.len()
            invariant
                1 <= i <= name@.len(),
                name@.len() >= 1,
                out@ == cap_first(name@).subrange(0, i as int),
            decreases name@.len() - i,
        {
            proof {
                assert(cap_first(name@).len() == name@.len());
                assert(cap_first(name@)[i as int] == name@[i as int]);
            }
            push_char(&mut out, name[i]);
            proof {
                assert(out@ =~= cap_first(name@).subrange(0, i + 1));
            }
            i += 1;
        }
        proof {
            assert(out@ =~= cap_first(name@));
            assert(self.valid_generation(name@, size as int));
            assert(cap_first(name@).len() == name@.len());
        }
        out
    }
}

// ---------------------------------------------------------------------------
// A printable rendering of the table (the chain has no `Display`; tests and
// callers read this string instead).
// ---------------------------------------------------------------------------
/// The decimal digit character for `d` (< 10).
pub open spec fn digit_char(d: nat) -> char {
    if d == 0 {
        '0'
    } else if d == 1 {
        '1'
    } else if d == 2 {
        '2'
    } else if d == 3 {
        '3'
    } else if d == 4 {
        '4'
    } else if d == 5 {
        '5'
    } else if d == 6 {
        '6'
    } else if d == 7 {
        '7'
    } else if d == 8 {
        '8'
    } else {
        '9'
    }
}

/// The decimal rendering of `x`, most significant digit first.
pub open spec fn dec_chars(x: nat) -> Seq<char>
    decreases x,
{
    if x < 10 {
        seq![digit_char(x)]
    } else {
        dec_chars(x / 10).push(digit_char(x % 10))
    }
}

/// One distribution, one line per entry: tab, symbol, " => ", count, newline.
pub open spec fn dist_display(d: Seq<(char, usize)>) -> Seq<char>
    decreases d.len(),
{
    if d.len() == 0 {
        Seq::empty()
    } else {
        seq!['\t', d[0].0, ' ', '=', '>', ' '] + dec_chars(d[0].1 as nat) + seq!['\n']
            + dist_display(d.drop_first())
    }
}

/// The whole table: per window its symbols, ": ", a newline, its
/// distribution's lines, and a blank line.
pub open spec fn table_display(t: Seq<(Seq<char>, Seq<(char, usize)>)>) -> Seq<char>
    decreases t.len(),
{
    if t.len() == 0 {
        Seq::empty()
    } else {
        t[0].0 + seq![':', ' ', '\n'] + dist_display(t[0].1) + seq!['\n'] + table_display(
            t.drop_first(),
        )
    }
}

fn digit_to_char(d: usize) -> (r: char)
    requires
        d < 10,
    ensures
        r == digit_char(d as nat),
{
    if d == 0 {
        '0'
    } else if d == 1 {
        '1'
    } else if d == 2 {
        '2'
    } else if d == 3 {
        '3'
    } else if d == 4 {
        '4'
    } else if d == 5 {
        '5'
    } else if d == 6 {
        '6'
    } else if d == 7 {
        '7'
    } else if d == 8 {
        '8'
    } else {
        '9'
    }
}

fn append_usize(out: &mut String, x: usize)
    ensures
        final(out)@ == old(out)@ + dec_chars(x as nat),
    decreases x,
{
    if x < 10 {
        push_char(out, digit_to_char(x));
        proof {
            assert(out@ =~= old(out)@ + seq![digit_char(x as nat)]);
        }
    } else {
        append_usize(out, x / 10);
        push_char(out, digit_to_char(x % 10));
        proof {
            assert(out@ =~= old(out)@ + dec_chars(x as nat / 10).push(digit_char(x as nat % 10)));
        }
    }
}

fn append_chars(out: &mut String, v: &Vec<char>)
    ensures
        final(out)@ == old(out)@ + v@,
{
    let mut i: usize = 0;
    while i < v.len()
        invariant
            i <= v@.len(),
            out@ == old(out)@ + v@.subrange(0, i as int),
        decreases v@.len() - i,
    {
        push_char(out, v[i]);
        proof {
            assert(out@ =~= old(out)@ + v@.subrange(0, i + 1));
        }
        i += 1;
    }
    proof {
        assert(old(out)@ + v@.subrange(0, v@.len() as int) =~= old(out)@ + v@);
    }
}

fn append_dist(out: &mut String, vf: &ValueFrequency)
    ensures
        final(out)@ == old(out)@ + dist_display(vf@),
{
    let ghost d = vf@;
    proof {
        assert(d.skip(0) =~= d);
    }
    let mut i: usize = 0;
    while i < vf.data.len()
        invariant
            i <= d.len(),
            vf@ == d,
            old(out)@ + dist_display(d) == out@ + dist_display(d.skip(i as int)),
        decreases d.len() - i,
    {
        let ghost rest = d.skip(i as int);
        let (letter, count) = vf.data[i];
        proof {
            assert(rest[0] == d[i as int]);
            assert(rest.drop_first() =~= d.skip(i + 1));
        }
        let ghost before = out@;
        push_char(out, '\t');
        push_char(out, letter);
        push_char(out, ' ');
        push_char(out, '=');
        push_char(out, '>');
        push_char(out, ' ');
        proof {
            assert(out@ =~= before + seq!['\t', d[i as int].0, ' ', '=', '>', ' ']);
        }
        append_usize(out, count);
        push_char(out, '\n');
        proof {
            assert(out@ =~= before + (seq!['\t', d[i as int].0, ' ', '=', '>', ' '] + dec_chars(
                d[i as int].1 as nat,
            ) + seq!['\n']));
            assert(before + (seq!['\t', d[i as int].0, ' ', '=', '>', ' '] + dec_chars(
                d[i as int].1 as nat,
            ) + seq!['\n']) + dist_display(d.skip(i + 1)) =~= before + dist_display(rest));
        }
        i += 1;
    }
    proof {
        assert(d.skip(d.len() as int) =~= Seq::<(char, usize)>::empty());
        assert(out@ + Seq::<char>::empty() =~= out@);
        assert(old(out)@ + dist_display(d) + Seq::<char>::empty() =~= old(out)@ + dist_display(d));
    }
}

// ---------------------------------------------------------------------------
// Laws of training: what one `feed_str` call does to the recorded counts.
// ---------------------------------------------------------------------------
proof fn lemma_table_dist_wf_le(t: Seq<(Seq<char>, Seq<(char, usize)>)>, q: Seq<char>)
    requires
        forall|i: int| 0 <= i < t.len() ==> dist_wf((#[trigger] t[i]).1),
    ensures
        dist_wf(table_dist(t, q)),
        dist_total(table_dist(t, q)) <= grand_total(t),
    decreases t.len(),
{
    if t.len() == 0 {
        assert(forall|c: char| letter_occs(Seq::<(char, usize)>::empty(), c) == 0);
    } else if t[0].0 == q {
    } else {
        assert(forall|i: int|
            0 <= i < t.drop_first().len() ==> dist_wf((#[trigger] t.drop_first()[i]).1));
        lemma_table_dist_wf_le(t.drop_first(), q);
    }
}

/// The counts after recording the first `m` windows of the text: each
/// (window, successor) pair gains one count per occurrence, each window's
/// total gains one per occurrence as a prefix, and a window is present
/// exactly when it was present before or occurs in the text.
proof fn lemma_replay_props(
    t: Seq<(Seq<char>, Seq<(char, usize)>)>,
    text: Seq<char>,
    n: nat,
    key: Seq<char>,
    c: char,
    m: int,
)
    requires
        n >= 1,
        table_wf(t, n),
        grand_total(t) + window_count(text, n) <= usize::MAX,
        0 <= m <= window_count(text, n),
    ensures
        table_wf(table_replay(t, text, n, m), n),
        grand_total(table_replay(t, text, n, m)) == grand_total(t) + m,
        table_count(table_replay(t, text, n, m), key, c) == table_count(t, key, c) + occ_pair_upto(
            text,
            n,
            key,
            c,
            m,
        ),
        table_key_total(table_replay(t, text, n, m), key) == table_key_total(t, key)
            + occ_key_upto(text, n, key, m),
        table_has_key(table_replay(t, text, n, m), key) <==> (table_has_key(t, key)
            || occ_key_upto(text, n, key, m) > 0),
    decreases m,
{
    if m > 0 {
        lemma_replay_props(t, text, n, key, c, m - 1);
        let u = table_replay(t, text, n, m - 1);
        let w = text.subrange(m - 1, m - 1 + n);
        let s = text[m - 1 + n];
        let r = table_observe(u, w, s);
        assert(w.len() == n);
        assert(grand_total(u) < usize::MAX);
        assert forall|q: Seq<char>| key_occs(r, q) <= 1 by {
            lemma_table_observe_props(u, w, s, q);
            lemma_key_occs_has(u, w);
        }
        lemma_table_observe_props(u, w, s, key);
        lemma_table_observe_props(u, w, s, w);
        lemma_key_occs_has(u, key);
        lemma_key_occs_has(r, key);
        lemma_key_occs_has(u, w);
        assert forall|i: int|
            0 <= i < r.len() implies (#[trigger] r[i]).0.len() == n && dist_wf(r[i].1)
            && r[i].1.len() >= 1 by {
            lemma_table_observe_props(u, w, s, key);
        }
        let dw = table_dist(u, w);
        lemma_table_dist_wf_le(u, w);
        lemma_entries_le_total(dw);
        lemma_dist_observe_measures(dw, s, c);
        if key == w {
            assert(table_dist(r, key) == dist_observe(dw, s));
        } else {
            assert(table_dist(r, key) == table_dist(u, key));
        }
        assert(occ_pair_upto(text, n, key, c, m) == occ_pair_upto(text, n, key, c, m - 1) + if w
            == key && s == c {
            1nat
        } else {
            0nat
        });
        assert(occ_key_upto(text, n, key, m) == occ_key_upto(text, n, key, m - 1) + if w == key {
            1nat
        } else {
            0nat
        });
    } else {
        assert(table_replay(t, text, n, 0) == t);
    }
}

/// After the training call's final re-sort, each window reads the sorted
/// image of its distribution; the window set is unchanged.
proof fn lemma_table_sorted_read(u: Seq<(Seq<char>, Seq<(char, usize)>)>, q: Seq<char>)
    ensures
        table_dist(table_sorted(u), q) == sort_desc(table_dist(u, q)),
        table_has_key(table_sorted(u), q) <==> table_has_key(u, q),
    decreases u.len(),
{
    let r = table_sorted(u);
    if u.len() == 0 {
        assert(r =~= Seq::<(Seq<char>, Seq<(char, usize)>)>::empty());
        assert(sort_desc(Seq::<(char, usize)>::empty()) == Seq::<(char, usize)>::empty());
    } else {
        assert(r[0] == (u[0].0, sort_desc(u[0].1)));
        assert(r.drop_first() =~= table_sorted(u.drop_first()));
        lemma_table_sorted_read(u.drop_first(), q);
        if u[0].0 != q {
            assert(table_dist(r, q) == table_dist(r.drop_first(), q));
            assert(table_dist(u, q) == table_dist(u.drop_first(), q));
        }
        assert(table_has_key(r, q) <==> table_has_key(u, q)) by {
            if table_has_key(u, q) {
                let i = choose|i: int| 0 <= i < u.len() && (#[trigger] u[i]).0 == q;
                assert(r[i].0 == q);
            }
            if table_has_key(r, q) {
                let i = choose|i: int| 0 <= i < r.len() && (#[trigger] r[i]).0 == q;
                assert(u[i].0 == q);
            }
        }
    }
}

/// Law of weight determinism: one training call adds, for every window and
/// successor, exactly one count per occurrence of that pair in the text; a
/// window's total weight grows by the number of times the window occurs as a
/// prefix. Across repeated calls from an empty table these deltas accumulate,
/// so every total equals the number of observations of its window.
pub proof fn lemma_feed_counts(
    t: Seq<(Seq<char>, Seq<(char, usize)>)>,
    text: Seq<char>,
    n: nat,
    key: Seq<char>,
    c: char,
)
    requires
        n >= 1,
        table_wf(t, n),
        grand_total(t) + text.len() <= usize::MAX,
    ensures
        table_count(spec_feed(t, text, n), key, c) == table_count(t, key, c) + occ_pair(
            text,
            n,
            key,
            c,
        ),
        table_key_total(spec_feed(t, text, n), key) == table_key_total(t, key) + occ_key(
            text,
            n,
            key,
        ),
        table_has_key(spec_feed(t, text, n), key) <==> (table_has_key(t, key) || occ_key(
            text,
            n,
            key,
        ) > 0),
        table_wf(spec_feed(t, text, n), n),
        grand_total(spec_feed(t, text, n)) == grand_total(t) + window_count(text, n),
{
    let wc = window_count(text, n);
    lemma_replay_props(t, text, n, key, c, wc);
    let u = table_replay(t, text, n, wc);
    lemma_table_sorted_read(u, key);
    lemma_sort_desc_count(table_dist(u, key), c);
    lemma_sort_desc_total(table_dist(u, key));
    assert forall|q: Seq<char>| key_occs(table_sorted(u), q) <= 1 by {
        lemma_table_sorted_key_occs(u, q);
    }
    assert forall|i: int|
        0 <= i < table_sorted(u).len() implies (#[trigger] table_sorted(u)[i]).0.len() == n
        && dist_wf(table_sorted(u)[i].1) && table_sorted(u)[i].1.len() >= 1 by {
        assert(table_sorted(u)[i] == (u[i].0, sort_desc(u[i].1)));
        lemma_sort_desc_wf(u[i].1);
        lemma_sort_desc_len(u[i].1);
    }
    lemma_table_sorted_grand(u);
}

/// Consecutive training calls accumulate: after two calls every count is
/// the old count plus both texts' occurrence counts, so by induction a
/// window's total weight always equals the number of times it was observed
/// as a prefix since the table was empty.
pub proof fn lemma_feed_counts_accumulate(
    t: Seq<(Seq<char>, Seq<(char, usize)>)>,
    text1: Seq<char>,
    text2: Seq<char>,
    n: nat,
    key: Seq<char>,
    c: char,
)
    requires
        n >= 1,
        table_wf(t, n),
        grand_total(t) + text1.len() + text2.len() <= usize::MAX,
    ensures
        table_count(spec_feed(spec_feed(t, text1, n), text2, n), key, c) == table_count(t, key, c)
            + occ_pair(text1, n, key, c) + occ_pair(text2, n, key, c),
        table_key_total(spec_feed(spec_feed(t, text1, n), text2, n), key) == table_key_total(
            t,
            key,
        ) + occ_key(text1, n, key) + occ_key(text2, n, key),
{
    lemma_feed_counts(t, text1, n, key, c);
    lemma_feed_counts(spec_feed(t, text1, n), text2, n, key, c);
}

/// Law of the sort invariant: after a training call every distribution is
/// non-increasing in count, and entries of equal count keep the relative
/// order they had just before the final re-sort (the stable tie-break).
pub proof fn lemma_feed_sorted(t: Seq<(Seq<char>, Seq<(char, usize)>)>, text: Seq<char>, n: nat)
    ensures
        forall|i: int|
            0 <= i < spec_feed(t, text, n).len() ==> sorted_desc(
                (#[trigger] spec_feed(t, text, n)[i]).1,
            ),
        forall|i: int, k: usize|
            0 <= i < spec_feed(t, text, n).len() ==> (#[trigger] spec_feed(t, text, n)[i].1.filter(
                count_is(k),
            )) == table_replay(t, text, n, window_count(text, n))[i].1.filter(count_is(k)),
{
    let u = table_replay(t, text, n, window_count(text, n));
    assert forall|i: int| 0 <= i < spec_feed(t, text, n).len() implies sorted_desc(
        (#[trigger] spec_feed(t, text, n)[i]).1,
    ) by {
        assert(spec_feed(t, text, n)[i] == (u[i].0, sort_desc(u[i].1)));
        lemma_sort_desc_sorted(u[i].1);
    }
    assert forall|i: int, k: usize| 0 <= i < spec_feed(t, text, n).len() implies (
    #[trigger] spec_feed(t, text, n)[i].1.filter(count_is(k))) == u[i].1.filter(count_is(k)) by {
        assert(spec_feed(t, text, n)[i] == (u[i].0, sort_desc(u[i].1)));
        lemma_sort_desc_stable(u[i].1, k);
    }
}

/// Law of seed containment: where the seed window is untouched by ascii
/// lower-casing (the designed corpus is lowercase), lower-casing the first
/// `order` characters of a generated string gives back a window of the
/// table. (A window that itself holds an ascii capital is changed by the
/// lower-casing and is left out.)
pub proof fn lemma_seed_containment(c: &MarkovChain, s: Seq<char>, size: int)
    requires
        c.spec_order() >= 1,
        c.valid_generation(s, size),
        forall|j: int| 0 <= j < c.spec_order() ==> spec_lower(#[trigger] s[j]) == s[j],
    ensures
        table_has_key(
            c.table(),
            cap_first(s).subrange(0, c.spec_order() as int).map_values(|ch: char| spec_lower(ch)),
        ),
{
    let n = c.spec_order() as int;
    let key = s.subrange(0, n);
    let lowered = cap_first(s).subrange(0, n).map_values(|ch: char| spec_lower(ch));
    assert(spec_lower(s[0]) == s[0]);
    assert(spec_lower(spec_upper(s[0])) == s[0]) by {
        let u = s[0] as u32;
        if 97 <= u && u <= 122 {
            lemma_upper_codepoint(s[0]);
            vstd::utf8::char_u32_cast(s[0], u);
        }
    }
    assert forall|j: int| 0 <= j < n implies lowered[j] == key[j] by {
        if j == 0 {
            assert(cap_first(s)[0] == spec_upper(s[0]));
        } else {
            assert(cap_first(s)[j] == s[j]);
        }
    }
    assert(lowered =~= key);
}

/// For a lower-case ascii letter, the shifted code point reads back as the
/// matching capital.
proof fn lemma_upper_codepoint(c: char)
    requires
        97 <= c as u32 <= 122,
    ensures
        spec_upper(c) as u32 == c as u32 - 32,
{
    broadcast use vstd::utf8::char_is_scalar;

}

/// Re-sorting every distribution keeps the windows in place.
proof fn lemma_table_sorted_key_occs(t: Seq<(Seq<char>, Seq<(char, usize)>)>, q: Seq<char>)
    ensures
        key_occs(table_sorted(t), q) == key_occs(t, q),
    decreases t.len(),
{
    if t.len() > 0 {
        lemma_table_sorted_key_occs(t.drop_first(), q);
        assert(table_sorted(t).drop_first() =~= table_sorted(t.drop_first()));
        assert(table_sorted(t)[0].0 == t[0].0);
    }
}

/// Re-sorting every distribution keeps the grand total.
proof fn lemma_table_sorted_grand(t: Seq<(Seq<char>, Seq<(char, usize)>)>)
    ensures
        grand_total(table_sorted(t)) == grand_total(t),
    decreases t.len(),
{
    if t.len() > 0 {
        lemma_table_sorted_grand(t.drop_first());
        assert(table_sorted(t).drop_first() =~= table_sorted(t.drop_first()));
        assert(table_sorted(t)[0].1 == sort_desc(t[0].1));
        lemma_sort_desc_total(t[0].1);
    }
}

} // verus!
