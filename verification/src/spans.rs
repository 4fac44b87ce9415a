//! Spans and their deterministic ordering.
//!
//! A span is a `(start, end, label)` triple marking a character range of a
//! document attributed to an entity label.  The engine resolves duplicates
//! and ordering by sorting spans ascending by `(start, end, label)` and
//! removing exact duplicate triples; this module holds that machinery and
//! the proof that the result is canonical: any two sorted, duplicate-free
//! span lists with the same elements are equal, so the step is idempotent
//! and the engine's output is deterministic.

use vstd::prelude::*;

verus! {

broadcast use vstd::seq::Seq::lemma_push_to_set_commute;

/// A span: start character offset, end character offset, entity label.
pub type Span = (usize, usize, String);

/// The mathematical value of a span.
pub open spec fn span_view(s: Span) -> (int, int, Seq<char>) {
    (s.0 as int, s.1 as int, s.2@)
}

/// The mathematical value of a span list.
pub open spec fn spans_view(v: Seq<Span>) -> Seq<(int, int, Seq<char>)> {
    v.map_values(|s: Span| span_view(s))
}

/// Lexicographic order on character sequences, by Unicode scalar value.
pub open spec fn lex_le(a: Seq<char>, b: Seq<char>) -> bool
    decreases a.len(),
{
    if a.len() == 0 {
        true
    } else if b.len() == 0 {
        false
    } else if (a[0] as u32) < (b[0] as u32) {
        true
    } else if a[0] == b[0] {
        lex_le(a.drop_first(), b.drop_first())
    } else {
        false
    }
}

/// The span order: ascending by start, then end, then label.
pub open spec fn sp_le(a: (int, int, Seq<char>), b: (int, int, Seq<char>)) -> bool {
    ||| a.0 < b.0
    ||| (a.0 == b.0 && a.1 < b.1)
    ||| (a.0 == b.0 && a.1 == b.1 && lex_le(a.2, b.2))
}

/// Strict span order.
pub open spec fn sp_lt(a: (int, int, Seq<char>), b: (int, int, Seq<char>)) -> bool {
    sp_le(a, b) && a != b
}

/// Whether a viewed span list is sorted.
pub open spec fn sorted_le(v: Seq<(int, int, Seq<char>)>) -> bool {
    forall|i: int, j: int| 0 <= i < j < v.len() ==> sp_le(#[trigger] v[i], #[trigger] v[j])
}

/// Whether a viewed span list is sorted and free of duplicates.
pub open spec fn sorted_unique(v: Seq<(int, int, Seq<char>)>) -> bool {
    forall|i: int, j: int| 0 <= i < j < v.len() ==> sp_lt(#[trigger] v[i], #[trigger] v[j])
}

/// The lexicographic order is total.
pub proof fn lemma_lex_le_total(a: Seq<char>, b: Seq<char>)
    ensures
        lex_le(a, b) || lex_le(b, a),
    decreases a.len(),
{
    if a.len() != 0 && b.len() != 0 {
        vstd::utf8::char_u32_cast(a[0], a[0] as u32);
        vstd::utf8::char_u32_cast(b[0], b[0] as u32);
        if a[0] == b[0] {
            lemma_lex_le_total(a.drop_first(), b.drop_first());
        }
    }
}

/// The lexicographic order is antisymmetric.
pub proof fn lemma_lex_le_antisym(a: Seq<char>, b: Seq<char>)
    requires
        lex_le(a, b),
        lex_le(b, a),
    ensures
        a == b,
    decreases a.len(),
{
    if a.len() == 0 {
        assert(b.len() == 0);
        assert(a =~= b);
    } else {
        assert(a[0] == b[0]);
        lemma_lex_le_antisym(a.drop_first(), b.drop_first());
        assert(a =~= seq![a[0]] + a.drop_first());
        assert(b =~= seq![b[0]] + b.drop_first());
    }
}

/// The lexicographic order is transitive.
pub proof fn lemma_lex_le_trans(a: Seq<char>, b: Seq<char>, c: Seq<char>)
    requires
        lex_le(a, b),
        lex_le(b, c),
    ensures
        lex_le(a, c),
    decreases a.len(),
{
    if a.len() != 0 {
        if a[0] == b[0] && b[0] == c[0] {
            lemma_lex_le_trans(a.drop_first(), b.drop_first(), c.drop_first());
        }
    }
}

/// The span order is total.
pub proof fn lemma_sp_le_total(a: (int, int, Seq<char>), b: (int, int, Seq<char>))
    ensures
        sp_le(a, b) || sp_le(b, a),
{
    lemma_lex_le_total(a.2, b.2);
}

/// The span order is reflexive.
pub proof fn lemma_sp_le_refl(a: (int, int, Seq<char>))
    ensures
        sp_le(a, a),
{
    lemma_lex_le_total(a.2, a.2);
}

/// The span order is antisymmetric.
pub proof fn lemma_sp_le_antisym(a: (int, int, Seq<char>), b: (int, int, Seq<char>))
    requires
        sp_le(a, b),
        sp_le(b, a),
    ensures
        a == b,
{
    lemma_lex_le_antisym(a.2, b.2);
}

/// The span order is transitive.
pub proof fn lemma_sp_le_trans(
    a: (int, int, Seq<char>),
    b: (int, int, Seq<char>),
    c: (int, int, Seq<char>),
)
    requires
        sp_le(a, b),
        sp_le(b, c),
    ensures
        sp_le(a, c),
{
    if a.0 == b.0 && a.1 == b.1 && b.0 == c.0 && b.1 == c.1 {
        lemma_lex_le_trans(a.2, b.2, c.2);
    }
}

/// Two sorted, duplicate-free span lists with the same element set are equal.
pub proof fn lemma_sorted_unique_canonical(
    a: Seq<(int, int, Seq<char>)>,
    b: Seq<(int, int, Seq<char>)>,
)
    requires
        sorted_unique(a),
        sorted_unique(b),
        a.to_set() == b.to_set(),
    ensures
        a == b,
    decreases a.len(),
{
    if a.len() == 0 {
        if b.len() > 0 {
            assert(b.to_set().contains(b[0]));
            assert(a.contains(b[0]));
        }
        assert(a =~= b);
    } else {
        assert(a.to_set().contains(a[0]));
        assert(b.contains(a[0]));
        let kb = choose|kb: int| 0 <= kb < b.len() && b[kb] == a[0];
        assert(b.to_set().contains(b[0]));
        assert(a.contains(b[0]));
        let ka = choose|ka: int| 0 <= ka < a.len() && a[ka] == b[0];
        // Both heads are minimal, so they are equal.
        if kb > 0 {
            assert(sp_lt(b[0], b[kb]));
        }
        if ka > 0 {
            assert(sp_lt(a[0], a[ka]));
        }
        assert(sp_le(b[0], a[0]) || b[0] == a[0]);
        assert(sp_le(a[0], b[0]) || a[0] == b[0]);
        if a[0] != b[0] {
            lemma_sp_le_antisym(a[0], b[0]);
        }
        assert(a[0] == b[0]);
        // The tails have the same element set.
        let at = a.drop_first();
        let bt = b.drop_first();
        assert forall|x: (int, int, Seq<char>)| at.contains(x) implies bt.contains(x) by {
            let i = choose|i: int| 0 <= i < at.len() && at[i] == x;
            assert(at[i] == a[i + 1]);
            assert(sp_lt(a[0], a[i + 1]));
            assert(a.contains(x));
            assert(a.to_set().contains(x));
            assert(b.to_set().contains(x));
            assert(b.contains(x));
            let j = choose|j: int| 0 <= j < b.len() && b[j] == x;
            assert(j != 0);
            assert(bt[j - 1] == x);
        }
        assert forall|x: (int, int, Seq<char>)| bt.contains(x) implies at.contains(x) by {
            let i = choose|i: int| 0 <= i < bt.len() && bt[i] == x;
            assert(bt[i] == b[i + 1]);
            assert(sp_lt(b[0], b[i + 1]));
            assert(b.contains(x));
            assert(b.to_set().contains(x));
            assert(a.to_set().contains(x));
            assert(a.contains(x));
            let j = choose|j: int| 0 <= j < a.len() && a[j] == x;
            assert(j != 0);
            assert(at[j - 1] == x);
        }
        assert(at.to_set() =~= bt.to_set());
        assert(sorted_unique(at)) by {
            assert(forall|i: int, j: int|
                0 <= i < j < at.len() ==> sp_lt(#[trigger] at[i], #[trigger] at[j]));
        }
        assert(sorted_unique(bt)) by {
            assert(forall|i: int, j: int|
                0 <= i < j < bt.len() ==> sp_lt(#[trigger] bt[i], #[trigger] bt[j]));
        }
        lemma_sorted_unique_canonical(at, bt);
        assert(a =~= seq![a[0]] + at);
        assert(b =~= seq![b[0]] + bt);
    }
}

/// Decides [`lex_le`] on string slices.
pub fn str_le(a: &str, b: &str) -> (r: bool)
    ensures
        r == lex_le(a@, b@),
{
    let na = crate::text::s_len(a);
    let nb = crate::text::s_len(b);
    let mut i: usize = 0;
    proof {
        assert(a@.skip(0) =~= a@);
        assert(b@.skip(0) =~= b@);
    }
    loop
        invariant_except_break
            i <= na,
            i <= nb,
            na == a@.len(),
            nb == b@.len(),
            lex_le(a@, b@) == lex_le(a@.skip(i as int), b@.skip(i as int)),
        ensures
            lex_le(a@, b@) == lex_le(a@.skip(i as int), b@.skip(i as int)),
            i <= na && i <= nb,
            i == na || i == nb || a@[i as int] != b@[i as int],
        decreases na - i,
    {
        if i == na || i == nb {
            break ;
        }
        let ca = a.get_char(i);
        let cb = b.get_char(i);
        if ca != cb {
            break ;
        }
        proof {
            assert(a@.skip(i as int).drop_first() =~= a@.skip(i + 1));
            assert(b@.skip(i as int).drop_first() =~= b@.skip(i + 1));
            assert(a@.skip(i as int)[0] == a@[i as int]);
            assert(b@.skip(i as int)[0] == b@[i as int]);
        }
        i = i + 1;
    }
    proof {
        assert(a@.skip(i as int).len() == na - i);
        assert(b@.skip(i as int).len() == nb - i);
        if i < na && i < nb {
            assert(a@.skip(i as int)[0] == a@[i as int]);
            assert(b@.skip(i as int)[0] == b@[i as int]);
        }
    }
    if i == na {
        true
    } else if i == nb {
        false
    } else {
        let ca = a.get_char(i);
        let cb = b.get_char(i);
        (ca as u32) < (cb as u32)
    }
}

/// Decides [`sp_le`] on spans.
pub fn span_le(a: &Span, b: &Span) -> (r: bool)
    ensures
        r == sp_le(span_view(*a), span_view(*b)),
{
    if a.0 < b.0 {
        true
    } else if a.0 == b.0 && a.1 < b.1 {
        true
    } else if a.0 == b.0 && a.1 == b.1 {
        str_le(a.2.as_str(), b.2.as_str())
    } else {
        false
    }
}

/// Decides equality of span values.
pub fn span_eq(a: &Span, b: &Span) -> (r: bool)
    ensures
        r == (span_view(*a) == span_view(*b)),
{
    let r = a.0 == b.0 && a.1 == b.1 && a.2 == b.2;
    proof {
        if a.0 == b.0 && a.1 == b.1 && a.2@ == b.2@ {
            assert(span_view(*a) == span_view(*b));
        }
        if span_view(*a) == span_view(*b) {
            assert(a.2@ == b.2@);
        }
    }
    r
}

/// Sorts a span list ascending by `(start, end, label)`.
pub fn sort_spans(v: &mut Vec<Span>)
    ensures
        sorted_le(spans_view(final (v)@)),
        spans_view(final (v)@).to_set() == spans_view(old(v)@).to_set(),
        final (v)@.len() == old(v)@.len(),
{
    let n = v.len();
    let ghost orig = spans_view(v@);
    if n <= 1 {
        return ;
    }
    for i in 1..n
        invariant
            n == v@.len(),
            spans_view(v@).to_set() == orig.to_set(),
            forall|a: int, b: int|
                0 <= a < b < i ==> sp_le(
                    #[trigger] spans_view(v@)[a],
                    #[trigger] spans_view(v@)[b],
                ),
    {
        let mut j: usize = i;
        while j > 0 && !span_le(&v[j - 1], &v[j])
            invariant
                0 < i < n,
                n == v@.len(),
                j <= i,
                spans_view(v@).to_set() == orig.to_set(),
                forall|a: int, b: int|
                    0 <= a < b <= i && b != j ==> sp_le(
                        #[trigger] spans_view(v@)[a],
                        #[trigger] spans_view(v@)[b],
                    ),
            decreases j,
        {
            let ghost pre = v@;
            proof {
                lemma_sp_le_total(spans_view(pre)[j - 1], spans_view(pre)[j as int]);
            }
            let moved = v.remove(j - 1);
            v.insert(j, moved);
            proof {
                assert(v@ =~= pre.update(j - 1, pre[j as int]).update(j as int, pre[j - 1]));
                assert(spans_view(v@) =~= spans_view(pre).update(
                    j - 1,
                    spans_view(pre)[j as int],
                ).update(j as int, spans_view(pre)[j - 1]));
                assert forall|x: (int, int, Seq<char>)|
                    spans_view(v@).contains(x) == spans_view(pre).contains(x) by {
                    let vw = spans_view(v@);
                    let pw = spans_view(pre);
                    if vw.contains(x) {
                        let k = choose|k: int| 0 <= k < vw.len() && vw[k] == x;
                        if k == j - 1 {
                            assert(pw[j as int] == x);
                        } else if k == j {
                            assert(pw[j - 1] == x);
                        } else {
                            assert(pw[k] == x);
                        }
                    }
                    if pw.contains(x) {
                        let k = choose|k: int| 0 <= k < pw.len() && pw[k] == x;
                        if k == j - 1 {
                            assert(vw[j as int] == x);
                        } else if k == j {
                            assert(vw[j - 1] == x);
                        } else {
                            assert(vw[k] == x);
                        }
                    }
                }
                assert(spans_view(v@).to_set() =~= spans_view(pre).to_set());
            }
            j = j - 1;
        }
        proof {
            let vw = spans_view(v@);
            assert forall|a: int, b: int| 0 <= a < b <= i implies sp_le(
                #[trigger] vw[a],
                #[trigger] vw[b],
            ) by {
                if b == j {
                    if j > 0 {
                        assert(sp_le(vw[j - 1], vw[j as int]));
                        if a < j - 1 {
                            assert(sp_le(vw[a], vw[j - 1]));
                            lemma_sp_le_trans(vw[a], vw[j - 1], vw[j as int]);
                        }
                    }
                }
            }
        }
    }
}

/// Removes exact duplicate triples from a sorted span list, keeping one
/// representative of each; on an already duplicate-free list this returns
/// the list unchanged, so the sort-plus-dedup step is idempotent.
pub fn dedup_spans(v: &Vec<Span>) -> (r: Vec<Span>)
    requires
        sorted_le(spans_view(v@)),
    ensures
        sorted_unique(spans_view(r@)),
        spans_view(r@).to_set() == spans_view(v@).to_set(),
        sorted_unique(spans_view(v@)) ==> spans_view(r@) == spans_view(v@),
{
    let n = v.len();
    let mut r: Vec<Span> = Vec::new();
    for i in 0..n
        invariant
            n == v@.len(),
            sorted_le(spans_view(v@)),
            sorted_unique(spans_view(r@)),
            spans_view(r@).to_set() == spans_view(v@.take(i as int)).to_set(),
            i > 0 ==> r@.len() > 0 && span_view(r@.last()) == spans_view(v@)[i - 1],
            i == 0 ==> r@.len() == 0,
            sorted_unique(spans_view(v@)) ==> spans_view(r@) == spans_view(v@).take(i as int),
    {
        let keep = if r.len() == 0 {
            true
        } else {
            !span_eq(&r[r.len() - 1], &v[i])
        };
        let ghost pre_r = spans_view(r@);
        let ghost vw = spans_view(v@);
        if keep {
            r.push((v[i].0, v[i].1, v[i].2.clone()));
            proof {
                assert(spans_view(r@) =~= pre_r.push(vw[i as int]));
                // Strict order against everything already kept.
                assert forall|k: int| 0 <= k < pre_r.len() implies sp_lt(
                    pre_r[k],
                    vw[i as int],
                ) by {
                    assert(pre_r.to_set().contains(pre_r[k]));
                    assert(spans_view(v@.take(i as int)).contains(pre_r[k]));
                    let m = choose|m: int|
                        0 <= m < i && #[trigger] spans_view(v@.take(i as int))[m] == pre_r[k];
                    assert(spans_view(v@.take(i as int))[m] == vw[m]);
                    assert(sp_le(vw[m], vw[i as int]));
                    if k < pre_r.len() - 1 {
                        assert(sp_lt(pre_r[k], pre_r[pre_r.len() - 1]));
                    } else {
                        lemma_sp_le_refl(pre_r[k]);
                    }
                    assert(sp_le(pre_r[k], pre_r[pre_r.len() - 1]));
                    assert(pre_r[pre_r.len() - 1] == vw[i - 1]);
                    assert(sp_le(vw[i - 1], vw[i as int]));
                    lemma_sp_le_trans(pre_r[k], vw[i - 1], vw[i as int]);
                    if pre_r[k] == vw[i as int] {
                        assert(sp_le(vw[i as int], vw[i - 1]));
                        lemma_sp_le_antisym(vw[i - 1], vw[i as int]);
                        assert(pre_r[pre_r.len() - 1] == vw[i as int]);
                        assert(false);
                    }
                }
                assert(spans_view(v@.take(i + 1)) =~= spans_view(v@.take(i as int)).push(
                    vw[i as int],
                ));
                assert(spans_view(r@).to_set() =~= spans_view(v@.take(i + 1)).to_set());
                if sorted_unique(vw) {
                    assert(spans_view(r@) =~= vw.take(i + 1));
                }
            }
        } else {
            proof {
                assert(span_view(r@.last()) == vw[i as int]);
                assert(spans_view(v@.take(i + 1)) =~= spans_view(v@.take(i as int)).push(
                    vw[i as int],
                ));
                assert(pre_r.to_set().contains(pre_r[pre_r.len() - 1]));
                assert(pre_r[pre_r.len() - 1] == vw[i as int]);
                assert(spans_view(r@).to_set() =~= spans_view(v@.take(i + 1)).to_set());
                if sorted_unique(vw) {
                    // A duplicate-free input never reaches the skip branch.
                    assert(pre_r == vw.take(i as int));
                    assert(pre_r[i - 1] == vw[i - 1]);
                    assert(sp_lt(vw[i - 1], vw[i as int]));
                    assert(false);
                }
            }
        }
    }
    proof {
        assert(v@.take(n as int) =~= v@);
        if sorted_unique(spans_view(v@)) {
            assert(spans_view(v@).take(n as int) =~= spans_view(v@));
        }
    }
    r
}

} // verus!
