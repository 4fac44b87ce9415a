//! The pattern matcher.
//!
//! The catalog's entity names are compiled once per annotation run into a
//! multi-pattern Aho-Corasick automaton; an overlapping search then reports
//! every occurrence of every pattern in a document, as byte offsets into
//! the document's UTF-8 encoding.  The automaton and its search are the
//! only outside calls of the library: everything around them is verified,
//! including the carry-over from byte offsets to character offsets and the
//! boundary filtering, so that [`find_spans`] returns exactly the sorted,
//! duplicate-free list of boundary-correct occurrences.

use vstd::prelude::*;
use vstd::utf8::{encode_utf8, encode_utf8_decode_utf8};
use aho_corasick::AhoCorasick;
use crate::boundary::{boundary_ok, check_boundary};
use crate::encoding::{
    byte_len, byte_offset, lemma_byte_match_to_char_match, lemma_char_match_to_byte_match,
    lemma_byte_offset_strictly_increasing, lemma_byte_offset_total, char_starts,
    byte_to_char_index,
};
use crate::entity::{Entity, ents_view, dedup_keep_first, lemma_dedup_keep_first_props};
use crate::spans::{Span, spans_view, sorted_unique, sort_spans, dedup_spans};
use crate::text::chars_of;

verus! {

broadcast use vstd::seq::Seq::lemma_push_to_set_commute;

#[verifier::external_type_specification]
#[verifier::external_body]
pub struct ExAhoCorasick(AhoCorasick);

/// The pattern list a compiled automaton was built from, as byte strings.
/// The automaton is opaque; this name ties its behaviour to its patterns.
pub uninterp spec fn ac_patterns(ac: AhoCorasick) -> Seq<Seq<u8>>;

/// Whether the automaton was built with the default standard match
/// semantics, which is what overlapping search requires.
pub uninterp spec fn ac_standard(ac: AhoCorasick) -> bool;

/// Whether the automaton builder accepts this pattern list.  Building
/// fails only on the builder's own fixed size limits (too many patterns,
/// a pattern too long, or a state-identifier overflow), so success is a
/// function of the patterns alone.
pub uninterp spec fn ac_buildable(pats: Seq<Seq<u8>>) -> bool;

/// The mathematical value of a pattern list.
pub open spec fn names_view(v: Seq<String>) -> Seq<Seq<char>> {
    v.map_values(|s: String| s@)
}

/// The UTF-8 encodings of a list of character sequences.
pub open spec fn patterns_of(nv: Seq<Seq<char>>) -> Seq<Seq<u8>> {
    nv.map_values(|s: Seq<char>| encode_utf8(s))
}

/// Relies on `aho_corasick::AhoCorasick::new`: builds an automaton over
/// exactly the given patterns, with the default `MatchKind::Standard`
/// semantics.  Building fails exactly when the patterns exceed the
/// builder's fixed size limits, which depend on the patterns alone; that
/// outcome is [`ac_buildable`].
#[verifier::external_body]
pub fn ac_new(patterns: &Vec<String>) -> (r: Option<AhoCorasick>)
    ensures
        (r is Some) == ac_buildable(patterns_of(names_view(patterns@))),
        r matches Some(ac) ==> ac_patterns(ac) == patterns_of(names_view(patterns@)),
        r matches Some(ac) ==> ac_standard(ac),
{
    AhoCorasick::new(patterns.iter().map(|p| p.as_str())).ok()
}

/// Relies on `aho_corasick::AhoCorasick::find_overlapping_iter`: reports
/// all possible matches of every pattern at every position of the haystack,
/// each as its starting byte offset and pattern index.  With the standard
/// match semantics the search cannot fail.  The contract speaks of the
/// distinct, non-empty patterns the automaton was built from: every
/// reported pair is a real occurrence, and every occurrence is reported.
#[verifier::external_body]
pub fn ac_find_overlapping(ac: &AhoCorasick, text: &str) -> (r: Vec<(usize, usize)>)
    requires
        ac_standard(*ac),
        forall|i: int, j: int|
            0 <= i < j < ac_patterns(*ac).len() ==> ac_patterns(*ac)[i] != ac_patterns(*ac)[j],
        forall|i: int| 0 <= i < ac_patterns(*ac).len() ==> ac_patterns(*ac)[i].len() > 0,
    ensures
        forall|k: int|
            0 <= k < r@.len() ==> {
                let (s, p) = #[trigger] r@[k];
                &&& (p as int) < ac_patterns(*ac).len()
                &&& s + ac_patterns(*ac)[p as int].len() <= encode_utf8(text@).len()
                &&& encode_utf8(text@).subrange(
                    s as int,
                    s + ac_patterns(*ac)[p as int].len(),
                ) == ac_patterns(*ac)[p as int]
            },
        forall|s: int, p: int|
            0 <= p < ac_patterns(*ac).len() && 0 <= s && s + ac_patterns(*ac)[p].len()
                <= encode_utf8(text@).len() && #[trigger] encode_utf8(text@).subrange(
                s,
                s + ac_patterns(*ac)[p].len(),
            ) == ac_patterns(*ac)[p] ==> exists|k: int|
                0 <= k < r@.len() && #[trigger] r@[k] == (s as usize, p as usize),
{
    ac.find_overlapping_iter(text).map(|m| (m.start(), m.pattern().as_usize())).collect()
}

/// The names of an entity list, in order, with repeats.
pub open spec fn name_seq(ents: Seq<(Seq<char>, Seq<char>)>) -> Seq<Seq<char>> {
    ents.map_values(|e: (Seq<char>, Seq<char>)| e.0)
}

/// The distinct entity names, in first-seen order, as pattern strings.
pub fn unique_names(entities: &Vec<Entity>) -> (r: Vec<String>)
    ensures
        names_view(r@) == dedup_keep_first(name_seq(ents_view(entities@))),
{
    let n = entities.len();
    let mut r: Vec<String> = Vec::new();
    proof {
        assert(name_seq(ents_view(entities@.take(0))) =~= Seq::<Seq<char>>::empty());
        assert(names_view(r@) =~= dedup_keep_first(name_seq(ents_view(entities@.take(0)))));
    }
    for i in 0..n
        invariant
            n == entities@.len(),
            names_view(r@) == dedup_keep_first(name_seq(ents_view(entities@.take(i as int)))),
    {
        let ghost prev = name_seq(ents_view(entities@.take(i as int)));
        proof {
            lemma_dedup_keep_first_props(prev);
            assert(name_seq(ents_view(entities@.take(i + 1))) =~= prev.push(
                entities@[i as int].name@,
            ));
            assert(name_seq(ents_view(entities@.take(i + 1))).drop_last() =~= prev);
        }
        let mut seen = false;
        let rn = r.len();
        for j in 0..rn
            invariant
                rn == r@.len(),
                i < n,
                n == entities@.len(),
                seen == exists|k: int| 0 <= k < j && names_view(r@)[k] == entities@[i as int].name@,
        {
            if r[j] == entities[i].name {
                proof {
                    assert(names_view(r@)[j as int] == entities@[i as int].name@);
                }
                seen = true;
            }
            proof {
                assert(names_view(r@)[j as int] == r@[j as int]@);
            }
        }
        proof {
            assert(seen == names_view(r@).contains(entities@[i as int].name@));
        }
        if !seen {
            r.push(entities[i].name.clone());
            proof {
                assert(names_view(r@) =~= dedup_keep_first(prev).push(entities@[i as int].name@));
            }
        }
    }
    proof {
        assert(entities@.take(n as int) =~= entities@);
    }
    r
}

/// The occurrences the engine accepts in a text for a given catalog: every
/// boundary-correct character range where some entity's name occurs, as a
/// span carrying that entity's label.
pub open spec fn accepted_spans(t: Seq<char>, ents: Seq<(Seq<char>, Seq<char>)>) -> Set<
    (int, int, Seq<char>),
> {
    Set::new(
        |sp: (int, int, Seq<char>)|
            exists|k: int, ci: int|
                0 <= k < ents.len() && 0 <= ci && ci + ents[k].0.len() <= t.len() && sp == (
                    ci,
                    ci + ents[k].0.len() as int,
                    ents[k].1,
                ) && #[trigger] t.subrange(ci, ci + ents[k].0.len() as int) == ents[k].0
                && boundary_ok(
                    t,
                    ci,
                    ci + ents[k].0.len() as int,
                ),
    )
}

/// What a processed match must have contributed to the found span set: for
/// the unique character offset at the match's byte offset, if the pattern
/// occurs there within bounds and the boundary rule holds, a span for every
/// entity whose name is that pattern.
pub open spec fn match_covered(
    t: Seq<char>,
    ents: Seq<(Seq<char>, Seq<char>)>,
    nv: Seq<Seq<char>>,
    mt: (usize, usize),
    fs: Set<(int, int, Seq<char>)>,
) -> bool {
    forall|ci: int, k: int|
        {
            &&& 0 <= k < ents.len()
            &&& 0 <= ci
            &&& ci + nv[mt.1 as int].len() <= t.len()
            &&& byte_offset(t, ci) == mt.0
            &&& ents[k].0 == nv[mt.1 as int]
            &&& t.subrange(ci, ci + nv[mt.1 as int].len() as int) == nv[mt.1 as int]
            &&& boundary_ok(t, ci, ci + nv[mt.1 as int].len() as int)
        } ==> fs.contains((ci, ci + nv[mt.1 as int].len() as int, ents[k].1))
}

/// A non-empty character sequence has a non-empty UTF-8 encoding.
proof fn lemma_encode_nonempty(s: Seq<char>)
    requires
        s.len() > 0,
    ensures
        encode_utf8(s).len() > 0,
{
    crate::encoding::lemma_byte_offset_step(s, 0);
    crate::encoding::lemma_byte_offset_total(s);
    if s.len() > 1 {
        lemma_byte_offset_strictly_increasing(s, 1, s.len() as int);
    }
    assert(s.take(0) =~= Seq::<char>::empty());
}

/// The distinct-name list produced by [`unique_names`] satisfies what
/// [`find_spans`] asks of it, provided every catalog name is non-empty.
pub proof fn lemma_names_facts(folded: Seq<Entity>, names: Seq<String>)
    requires
        names_view(names) == dedup_keep_first(name_seq(ents_view(folded))),
        forall|k: int| 0 <= k < folded.len() ==> (#[trigger] ents_view(folded)[k]).0.len() > 0,
    ensures
        forall|i: int, j: int|
            0 <= i < j < names.len() ==> #[trigger] names_view(names)[i]
                != #[trigger] names_view(names)[j],
        forall|i: int| 0 <= i < names.len() ==> (#[trigger] names_view(names)[i]).len() > 0,
        forall|k: int|
            0 <= k < folded.len() ==> names_view(names).contains(
                (#[trigger] ents_view(folded)[k]).0,
            ),
{
    let ns = name_seq(ents_view(folded));
    let d = dedup_keep_first(ns);
    lemma_dedup_keep_first_props(ns);
    assert forall|i: int, j: int| 0 <= i < j < names.len() implies #[trigger] names_view(names)[i]
        != #[trigger] names_view(names)[j] by {
        assert(names_view(names)[i] == d[i]);
        assert(names_view(names)[j] == d[j]);
    }
    assert forall|i: int| 0 <= i < names.len() implies (#[trigger] names_view(names)[i]).len()
        > 0 by {
        assert(d.contains(d[i]));
        assert(ns.contains(d[i]));
        let k = choose|k: int| 0 <= k < ns.len() && #[trigger] ns[k] == d[i];
        assert(ents_view(folded)[k].0 == d[i]);
        assert(ents_view(folded)[k].0.len() > 0);
    }
    assert forall|k: int| 0 <= k < folded.len() implies names_view(names).contains(
        (#[trigger] ents_view(folded)[k]).0,
    ) by {
        assert(ns[k] == ents_view(folded)[k].0);
        assert(ns.contains(ents_view(folded)[k].0));
        assert(d.contains(ents_view(folded)[k].0));
    }
}

/// Coverage by a found span set is preserved when the set grows.
proof fn lemma_match_covered_mono(
    t: Seq<char>,
    ents: Seq<(Seq<char>, Seq<char>)>,
    nv: Seq<Seq<char>>,
    mt: (usize, usize),
    fs1: Set<(int, int, Seq<char>)>,
    fs2: Set<(int, int, Seq<char>)>,
)
    requires
        match_covered(t, ents, nv, mt, fs1),
        forall|x: (int, int, Seq<char>)| fs1.contains(x) ==> fs2.contains(x),
    ensures
        match_covered(t, ents, nv, mt, fs2),
{
    assert forall|ci: int, k: int|
        {
            &&& 0 <= k < ents.len()
            &&& 0 <= ci
            &&& ci + nv[mt.1 as int].len() <= t.len()
            &&& byte_offset(t, ci) == mt.0
            &&& ents[k].0 == nv[mt.1 as int]
            &&& t.subrange(ci, ci + nv[mt.1 as int].len() as int) == nv[mt.1 as int]
            &&& boundary_ok(t, ci, ci + nv[mt.1 as int].len() as int)
        } implies fs2.contains((ci, ci + nv[mt.1 as int].len() as int, ents[k].1)) by {
        assert(fs1.contains((ci, ci + nv[mt.1 as int].len() as int, ents[k].1)));
    }
}

/// Locates every accepted occurrence of the catalog's entities in the
/// text, sorted ascending by `(start, end, label)` with exact duplicates
/// removed.  `names` must be the distinct entity names and `ac` an
/// automaton compiled from them.
pub fn find_spans(text: &str, entities: &Vec<Entity>, names: &Vec<String>, ac: &AhoCorasick) -> (r:
    Vec<Span>)
    requires
        forall|i: int, j: int|
            0 <= i < j < names@.len() ==> #[trigger] names_view(names@)[i]
                != #[trigger] names_view(names@)[j],
        forall|i: int| 0 <= i < names@.len() ==> (#[trigger] names_view(names@)[i]).len() > 0,
        forall|k: int|
            0 <= k < entities@.len() ==> names_view(names@).contains(
                (#[trigger] ents_view(entities@)[k]).0,
            ),
        ac_patterns(*ac) == patterns_of(names_view(names@)),
        ac_standard(*ac),
    ensures
        sorted_unique(spans_view(r@)),
        spans_view(r@).to_set() == accepted_spans(text@, ents_view(entities@)),
{
    let ghost t = text@;
    let ghost ents = ents_view(entities@);
    let ghost nv = names_view(names@);
    let ghost pats = patterns_of(nv);
    proof {
        // Distinct names have distinct encodings, and non-empty names have
        // non-empty encodings, as the search wrapper requires.
        assert forall|i: int, j: int| 0 <= i < j < pats.len() implies pats[i] != pats[j] by {
            if pats[i] == pats[j] {
                encode_utf8_decode_utf8(nv[i]);
                encode_utf8_decode_utf8(nv[j]);
                assert(nv[i] == nv[j]);
            }
        }
        assert forall|i: int| 0 <= i < pats.len() implies pats[i].len() > 0 by {
            lemma_encode_nonempty(nv[i]);
        }
    }
    let tc = chars_of(text);
    let tn = tc.len();
    let st = char_starts(text);
    let matches = ac_find_overlapping(ac, text);
    let ghost ms = matches@;
    let mut found: Vec<Span> = Vec::new();
    let nm = matches.len();
    for m in 0..nm
        invariant
            nm == ms.len(),
            ms == matches@,
            t == text@,
            ents == ents_view(entities@),
            nv == names_view(names@),
            pats == patterns_of(nv),
            tc@ == t,
            tn == t.len(),
            st@.len() == t.len() + 1,
            forall|i: int| 0 <= i <= t.len() ==> #[trigger] st@[i] == byte_offset(t, i),
            names@.len() == nv.len(),
            entities@.len() == ents.len(),
            forall|i: int| 0 <= i < nv.len() ==> (#[trigger] nv[i]).len() > 0,
            forall|k: int|
                0 <= k < ms.len() ==> {
                    let (s, p) = #[trigger] ms[k];
                    &&& (p as int) < pats.len()
                    &&& s + pats[p as int].len() <= encode_utf8(t).len()
                    &&& encode_utf8(t).subrange(s as int, s + pats[p as int].len())
                        == pats[p as int]
                },
            forall|x: (int, int, Seq<char>)|
                spans_view(found@).to_set().contains(x) ==> accepted_spans(t, ents).contains(x),
            forall|mi: int|
                0 <= mi < m ==> match_covered(t, ents, nv, #[trigger] ms[mi], spans_view(
                    found@,
                ).to_set()),
    {
        let (bs, p) = matches[m];
        proof {
            assert(ms[m as int] == (bs, p));
            assert(ms[m as int].1 == p && ms[m as int].0 == bs);
            assert(pats.len() == nv.len() && nv.len() == names@.len());
            assert((p as int) < pats.len());
        }
        let nlen = crate::text::s_len(names[p].as_str());
        proof {
            assert(nv[p as int] == names@[p as int]@);
            assert(nlen == nv[p as int].len());
            assert(byte_len(nv[p as int]) == pats[p as int].len());
            lemma_byte_match_to_char_match(t, nv[p as int], bs as int);
        }
        let ghost ci_g = choose|ci: int|
            0 <= ci && ci + nv[p as int].len() <= t.len() && #[trigger] byte_offset(t, ci)
                == bs as int && t.subrange(ci, ci + nv[p as int].len() as int) == nv[p as int];
        let ci_opt = byte_to_char_index(&st, bs);
        proof {
            assert(st@[ci_g] == bs);
            assert(ci_opt is Some);
        }
        let ci = ci_opt.unwrap();
        proof {
            // The byte offset pins the character offset uniquely.
            assert(byte_offset(t, ci as int) == bs as int);
            if (ci as int) < ci_g {
                lemma_byte_offset_strictly_increasing(t, ci as int, ci_g);
            } else if ci_g < (ci as int) {
                lemma_byte_offset_strictly_increasing(t, ci_g, ci as int);
            }
            assert(ci as int == ci_g);
            assert(ci + nlen <= t.len());
        }
        let cj = ci + nlen;
        let ok = check_boundary(&tc, ci, cj);
        if ok {
            let ghost found_before_match = spans_view(found@).to_set();
            let ne = entities.len();
            for k in 0..ne
                invariant
                    ne == entities@.len(),
                    t == text@,
                    ents == ents_view(entities@),
                    nv == names_view(names@),
                    names@.len() == nv.len(),
                    (p as int) < nv.len(),
                    ci + nlen == cj,
                    cj <= t.len(),
                    nlen == nv[p as int].len(),
                    byte_offset(t, ci as int) == bs as int,
                    t.subrange(ci as int, cj as int) == nv[p as int],
                    boundary_ok(t, ci as int, cj as int),
                    forall|x: (int, int, Seq<char>)|
                        found_before_match.contains(x) ==> spans_view(found@).to_set().contains(x),
                    forall|x: (int, int, Seq<char>)|
                        spans_view(found@).to_set().contains(x) ==> accepted_spans(
                            t,
                            ents,
                        ).contains(x),
                    forall|mi: int|
                        0 <= mi < m ==> match_covered(t, ents, nv, #[trigger] ms[mi], spans_view(
                            found@,
                        ).to_set()),
                    forall|kk: int|
                        0 <= kk < k && (#[trigger] ents[kk]).0 == nv[p as int] ==> spans_view(
                            found@,
                        ).to_set().contains((ci as int, cj as int, ents[kk].1)),
            {
                if entities[k].name == names[p] {
                    proof {
                        assert(ents[k as int].0 == nv[p as int]);
                    }
                    let lab = entities[k].label.clone();
                    let ghost fs_before = spans_view(found@);
                    let ghost fs_old = spans_view(found@).to_set();
                    found.push((ci, cj, lab));
                    proof {
                        assert(spans_view(found@) =~= fs_before.push(
                            (ci as int, cj as int, ents[k as int].1),
                        ));
                        assert(spans_view(found@).to_set() =~= fs_old.insert(
                            (ci as int, cj as int, ents[k as int].1),
                        ));
                        assert forall|mi: int| 0 <= mi < m implies match_covered(
                            t,
                            ents,
                            nv,
                            #[trigger] ms[mi],
                            spans_view(found@).to_set(),
                        ) by {
                            lemma_match_covered_mono(
                                t,
                                ents,
                                nv,
                                ms[mi],
                                fs_old,
                                spans_view(found@).to_set(),
                            );
                        }
                        assert(accepted_spans(t, ents).contains(
                            (ci as int, cj as int, ents[k as int].1),
                        )) by {
                            assert(0 <= (k as int) < ents.len() && 0 <= (ci as int) && (ci as int)
                                + ents[k as int].0.len() <= t.len() && ((ci as int), (cj as int), ents[k as int].1) == (
                                (ci as int),
                                (ci as int) + ents[k as int].0.len() as int,
                                ents[k as int].1,
                            ) && t.subrange(
                                ci as int,
                                (ci as int) + ents[k as int].0.len() as int,
                            ) == ents[k as int].0 && boundary_ok(
                                t,
                                ci as int,
                                (ci as int) + ents[k as int].0.len() as int,
                            ));
                        }
                    }
                } else {
                    proof {
                        assert(ents[k as int].0 != nv[p as int]);
                    }
                }
            }
            proof {
                assert(match_covered(t, ents, nv, ms[m as int], spans_view(found@).to_set())) by {
                    assert forall|cix: int, k: int|
                        {
                            &&& 0 <= k < ents.len()
                            &&& 0 <= cix
                            &&& cix + nv[p as int].len() <= t.len()
                            &&& byte_offset(t, cix) == bs
                            &&& ents[k].0 == nv[p as int]
                            &&& t.subrange(cix, cix + nv[p as int].len() as int) == nv[p as int]
                            &&& boundary_ok(t, cix, cix + nv[p as int].len() as int)
                        } implies spans_view(found@).to_set().contains(
                        (cix, cix + nv[p as int].len() as int, ents[k].1),
                    ) by {
                        if cix < ci as int {
                            lemma_byte_offset_strictly_increasing(t, cix, ci as int);
                        } else if (ci as int) < cix {
                            lemma_byte_offset_strictly_increasing(t, ci as int, cix);
                        }
                        assert(cix == ci as int);
                    }
                }
            }
        } else {
            proof {
                assert(match_covered(t, ents, nv, ms[m as int], spans_view(found@).to_set())) by {
                    assert forall|cix: int, k: int|
                        {
                            &&& 0 <= k < ents.len()
                            &&& 0 <= cix
                            &&& cix + nv[p as int].len() <= t.len()
                            &&& byte_offset(t, cix) == bs
                            &&& ents[k].0 == nv[p as int]
                            &&& t.subrange(cix, cix + nv[p as int].len() as int) == nv[p as int]
                            &&& boundary_ok(t, cix, cix + nv[p as int].len() as int)
                        } implies spans_view(found@).to_set().contains(
                        (cix, cix + nv[p as int].len() as int, ents[k].1),
                    ) by {
                        if cix < ci as int {
                            lemma_byte_offset_strictly_increasing(t, cix, ci as int);
                        } else if (ci as int) < cix {
                            lemma_byte_offset_strictly_increasing(t, ci as int, cix);
                        }
                        assert(cix == ci as int);
                        assert(!boundary_ok(t, ci as int, cj as int));
                        assert(false);
                    }
                }
            }
        }
    }
    proof {
        // Everything found is accepted, and everything accepted was found.
        let fs = spans_view(found@).to_set();
        assert forall|x: (int, int, Seq<char>)| accepted_spans(t, ents).contains(x) implies
            fs.contains(x) by {
            let (k, ci): (int, int) = choose|k: int, ci: int|
                0 <= k < ents.len() && 0 <= ci && ci + ents[k].0.len() <= t.len() && x == (
                    ci,
                    ci + ents[k].0.len() as int,
                    ents[k].1,
                ) && #[trigger] t.subrange(ci, ci + ents[k].0.len() as int) == ents[k].0
                && boundary_ok(t, ci, ci + ents[k].0.len() as int);
            let q = ents[k].0;
            assert(nv.contains(q));
            let p = choose|p: int| 0 <= p < nv.len() && nv[p] == q;
            lemma_char_match_to_byte_match(t, q, ci);
            let bs = byte_offset(t, ci);
            lemma_byte_offset_total(t);
            assert(st@[t.len() as int] == byte_len(t));
            assert(byte_len(t) <= usize::MAX);
            assert(0 <= bs <= byte_len(t));
            assert(bs == (bs as usize) as int);
            assert(pats[p] == encode_utf8(q));
            assert(encode_utf8(t).subrange(bs, bs + pats[p].len()) == pats[p]);
            assert(names@.len() <= usize::MAX) by {
                vstd::std_specs::vec::axiom_spec_len(names);
            }
            assert(p == (p as usize) as int);
            let mi = choose|mi: int| 0 <= mi < ms.len() && ms[mi] == (bs as usize, p as usize);
            assert(match_covered(t, ents, nv, ms[mi], fs));
            assert(ms[mi].0 == bs as usize && ms[mi].1 == p as usize);
            assert(nv[ms[mi].1 as int] == q);
            assert(byte_offset(t, ci) == ms[mi].0);
            assert(0 <= k < ents.len());
            assert(ci + nv[ms[mi].1 as int].len() <= t.len());
            assert(ents[k].0 == nv[ms[mi].1 as int]);
            assert(t.subrange(ci, ci + nv[ms[mi].1 as int].len() as int) == nv[ms[mi].1 as int]);
            assert(boundary_ok(t, ci, ci + nv[ms[mi].1 as int].len() as int));
            assert(fs.contains((ci, ci + nv[ms[mi].1 as int].len() as int, ents[k].1)));
            assert(x == (ci, ci + nv[ms[mi].1 as int].len() as int, ents[k].1));
        }
        assert(spans_view(found@).to_set() =~= accepted_spans(t, ents));
    }
    sort_spans(&mut found);
    let r = dedup_spans(&found);
    r
}

/// A boundary-correct occurrence of `name` at character offset `ci` of `t`.
pub open spec fn valid_occurrence_at(t: Seq<char>, name: Seq<char>, ci: int) -> bool {
    &&& 0 <= ci
    &&& ci + name.len() <= t.len()
    &&& t.subrange(ci, ci + name.len() as int) == name
    &&& boundary_ok(t, ci, ci + name.len() as int)
}

/// The spans one entity contributes from its occurrences before character
/// offset `c`.
spec fn occurrences_upto(t: Seq<char>, name: Seq<char>, lab: Seq<char>, c: int) -> Set<
    (int, int, Seq<char>),
> {
    Set::new(
        |sp: (int, int, Seq<char>)|
            exists|c2: int|
                0 <= c2 < c && #[trigger] valid_occurrence_at(t, name, c2) && sp == (
                    c2,
                    c2 + name.len() as int,
                    lab,
                ),
    )
}

/// Whether `name_c` occurs at character offset `ci` of `tc`.
fn match_at(tc: &Vec<char>, name_c: &Vec<char>, ci: usize) -> (r: bool)
    requires
        ci + name_c@.len() <= tc@.len(),
    ensures
        r == (tc@.subrange(ci as int, ci + name_c@.len() as int) == name_c@),
{
    let n = name_c.len();
    let tl = tc.len();
    for j in 0..n
        invariant
            n == name_c@.len(),
            tl == tc@.len(),
            ci + n <= tc@.len(),
            forall|x: int| 0 <= x < j ==> tc@[ci + x] == name_c@[x],
    {
        if tc[ci + j] != name_c[j] {
            proof {
                assert(tc@.subrange(ci as int, ci + name_c@.len() as int)[j as int] != name_c@[
                j as int]);
            }
            return false;
        }
    }
    proof {
        assert(tc@.subrange(ci as int, ci + name_c@.len() as int) =~= name_c@);
    }
    true
}

/// Scans the text for each entity's name without the compiled automaton
/// and returns every boundary-correct occurrence of every entity, sorted
/// ascending by `(start, end, label)` with exact duplicates removed, or
/// nothing when no entity occurs at all.
pub fn find_index(text: &str, entities: &Vec<Entity>) -> (r: Option<Vec<Span>>)
    requires
        forall|k: int|
            0 <= k < entities@.len() ==> (#[trigger] ents_view(entities@)[k]).0.len() > 0,
    ensures
        match r {
            Some(v) => v@.len() > 0 && sorted_unique(spans_view(v@)) && spans_view(v@).to_set()
                == accepted_spans(text@, ents_view(entities@)),
            None => accepted_spans(text@, ents_view(entities@)) =~= Set::<
                (int, int, Seq<char>),
            >::empty(),
        },
{
    let ghost t = text@;
    let ghost ents = ents_view(entities@);
    let tc = chars_of(text);
    let tn = tc.len();
    let mut found: Vec<Span> = Vec::new();
    let ne = entities.len();
    proof {
        assert forall|sp: (int, int, Seq<char>)|
            !accepted_spans(t, ents.take(0)).contains(sp) by {
            if accepted_spans(t, ents.take(0)).contains(sp) {
                let (k, ci): (int, int) = choose|k: int, ci: int|
                    0 <= k < ents.take(0).len() && 0 <= ci && ci + ents.take(0)[k].0.len()
                        <= t.len() && sp == (
                        ci,
                        ci + ents.take(0)[k].0.len() as int,
                        ents.take(0)[k].1,
                    ) && #[trigger] t.subrange(ci, ci + ents.take(0)[k].0.len() as int)
                        == ents.take(0)[k].0 && boundary_ok(
                        t,
                        ci,
                        ci + ents.take(0)[k].0.len() as int,
                    );
                assert(false);
            }
        }
        assert(spans_view(found@).to_set() =~= accepted_spans(t, ents.take(0)));
    }
    for k in 0..ne
        invariant
            ne == entities@.len(),
            t == text@,
            ents == ents_view(entities@),
            tc@ == t,
            tn == t.len(),
            forall|x: int| 0 <= x < ne ==> (#[trigger] ents[x]).0.len() > 0,
            spans_view(found@).to_set() == accepted_spans(t, ents.take(k as int)),
    {
        let name_c = chars_of(entities[k].name.as_str());
        let nlen = name_c.len();
        proof {
            assert(ents[k as int] == crate::entity::ent_view(entities@[k as int]));
            assert(name_c@ == ents[k as int].0);
            assert(nlen > 0);
        }
        let ghost lab = ents[k as int].1;
        let ghost base = spans_view(found@).to_set();
        if nlen <= tn {
            let mut ci: usize = 0;
            proof {
                assert forall|sp: (int, int, Seq<char>)|
                    !occurrences_upto(t, name_c@, lab, 0).contains(sp) by {
                    if occurrences_upto(t, name_c@, lab, 0).contains(sp) {
                        let c2 = choose|c2: int|
                            0 <= c2 < 0 && #[trigger] valid_occurrence_at(t, name_c@, c2);
                        assert(false);
                    }
                }
                assert(spans_view(found@).to_set() =~= base + occurrences_upto(
                    t,
                    name_c@,
                    lab,
                    0,
                ));
            }
            while ci <= tn - nlen
                invariant
                    nlen == name_c@.len(),
                    0 < nlen <= tn,
                    tn == t.len(),
                    tc@ == t,
                    ci <= tn - nlen + 1,
                    k < ne,
                    ne == entities@.len(),
                    ents == ents_view(entities@),
                    ents[k as int] == crate::entity::ent_view(entities@[k as int]),
                    name_c@ == ents[k as int].0,
                    lab == ents[k as int].1,
                    spans_view(found@).to_set() == base + occurrences_upto(
                        t,
                        name_c@,
                        lab,
                        ci as int,
                    ),
                decreases tn - nlen - ci + 1,
            {
                let matched = match_at(&tc, &name_c, ci);
                let ok = matched && check_boundary(&tc, ci, ci + nlen);
                let ghost occ_pre = occurrences_upto(t, name_c@, lab, ci as int);
                let ghost occ_post = occurrences_upto(t, name_c@, lab, ci + 1);
                if ok {
                    proof {
                        assert(valid_occurrence_at(t, name_c@, ci as int));
                    }
                    let ghost pre = spans_view(found@);
                    found.push((ci, ci + nlen, entities[k].label.clone()));
                    proof {
                        let newsp = (ci as int, (ci + nlen) as int, lab);
                        assert(spans_view(found@) =~= pre.push(newsp));
                        assert(spans_view(found@).to_set() =~= pre.to_set().insert(newsp));
                        assert forall|sp: (int, int, Seq<char>)| #[trigger] occ_post.contains(sp)
                            == (occ_pre.contains(sp) || sp == newsp) by {
                            if occ_post.contains(sp) {
                                let c2 = choose|c2: int|
                                    0 <= c2 < ci + 1 && #[trigger] valid_occurrence_at(
                                        t,
                                        name_c@,
                                        c2,
                                    ) && sp == (c2, c2 + name_c@.len() as int, lab);
                                if c2 < ci {
                                    assert(occ_pre.contains(sp));
                                }
                            }
                            if occ_pre.contains(sp) {
                                let c2 = choose|c2: int|
                                    0 <= c2 < ci && #[trigger] valid_occurrence_at(
                                        t,
                                        name_c@,
                                        c2,
                                    ) && sp == (c2, c2 + name_c@.len() as int, lab);
                                assert(occ_post.contains(sp));
                            }
                            if sp == newsp {
                                assert(valid_occurrence_at(t, name_c@, ci as int));
                                assert(occ_post.contains(sp));
                            }
                        }
                        assert(spans_view(found@).to_set() =~= base + occ_post);
                    }
                } else {
                    proof {
                        assert(!valid_occurrence_at(t, name_c@, ci as int));
                        assert forall|sp: (int, int, Seq<char>)| #[trigger] occ_post.contains(sp)
                            == occ_pre.contains(sp) by {
                            if occ_post.contains(sp) {
                                let c2 = choose|c2: int|
                                    0 <= c2 < ci + 1 && #[trigger] valid_occurrence_at(
                                        t,
                                        name_c@,
                                        c2,
                                    ) && sp == (c2, c2 + name_c@.len() as int, lab);
                                assert(c2 < ci);
                                assert(occ_pre.contains(sp));
                            }
                            if occ_pre.contains(sp) {
                                let c2 = choose|c2: int|
                                    0 <= c2 < ci && #[trigger] valid_occurrence_at(
                                        t,
                                        name_c@,
                                        c2,
                                    ) && sp == (c2, c2 + name_c@.len() as int, lab);
                                assert(occ_post.contains(sp));
                            }
                        }
                        assert(spans_view(found@).to_set() =~= base + occ_post);
                    }
                }
                ci = ci + 1;
            }
            proof {
                let full = occurrences_upto(t, name_c@, lab, (tn - nlen + 1) as int);
                assert forall|sp: (int, int, Seq<char>)| #[trigger] accepted_spans(
                    t,
                    ents.take(k + 1),
                ).contains(sp) == (accepted_spans(t, ents.take(k as int)).contains(sp)
                    || full.contains(sp)) by {
                    assert(ents.take(k + 1)[k as int] == ents[k as int]);
                    if accepted_spans(t, ents.take(k + 1)).contains(sp) {
                        let (kk, ci): (int, int) = choose|kk: int, ci: int|
                            0 <= kk < ents.take(k + 1).len() && 0 <= ci && ci + ents.take(
                                k + 1,
                            )[kk].0.len() <= t.len() && sp == (
                                ci,
                                ci + ents.take(k + 1)[kk].0.len() as int,
                                ents.take(k + 1)[kk].1,
                            ) && #[trigger] t.subrange(
                                ci,
                                ci + ents.take(k + 1)[kk].0.len() as int,
                            ) == ents.take(k + 1)[kk].0 && boundary_ok(
                                t,
                                ci,
                                ci + ents.take(k + 1)[kk].0.len() as int,
                            );
                        if kk < k {
                            assert(ents.take(k as int)[kk] == ents.take(k + 1)[kk]);
                            assert(accepted_spans(t, ents.take(k as int)).contains(sp));
                        } else {
                            assert(valid_occurrence_at(t, name_c@, ci));
                            assert(ci <= tn - nlen);
                            assert(full.contains(sp));
                        }
                    }
                    if accepted_spans(t, ents.take(k as int)).contains(sp) {
                        let (kk, ci): (int, int) = choose|kk: int, ci: int|
                            0 <= kk < ents.take(k as int).len() && 0 <= ci && ci + ents.take(
                                k as int,
                            )[kk].0.len() <= t.len() && sp == (
                                ci,
                                ci + ents.take(k as int)[kk].0.len() as int,
                                ents.take(k as int)[kk].1,
                            ) && #[trigger] t.subrange(
                                ci,
                                ci + ents.take(k as int)[kk].0.len() as int,
                            ) == ents.take(k as int)[kk].0 && boundary_ok(
                                t,
                                ci,
                                ci + ents.take(k as int)[kk].0.len() as int,
                            );
                        assert(ents.take(k + 1)[kk] == ents.take(k as int)[kk]);
                        assert(accepted_spans(t, ents.take(k + 1)).contains(sp));
                    }
                    if full.contains(sp) {
                        let c2 = choose|c2: int|
                            0 <= c2 < tn - nlen + 1 && #[trigger] valid_occurrence_at(
                                t,
                                name_c@,
                                c2,
                            ) && sp == (c2, c2 + name_c@.len() as int, lab);
                        assert(t.subrange(c2, c2 + ents.take(k + 1)[k as int].0.len() as int)
                            == ents.take(k + 1)[k as int].0);
                        assert(accepted_spans(t, ents.take(k + 1)).contains(sp));
                    }
                }
                assert(spans_view(found@).to_set() =~= accepted_spans(t, ents.take(k + 1)));
            }
        } else {
            proof {
                assert forall|sp: (int, int, Seq<char>)| #[trigger] accepted_spans(
                    t,
                    ents.take(k + 1),
                ).contains(sp) == accepted_spans(t, ents.take(k as int)).contains(sp) by {
                    if accepted_spans(t, ents.take(k + 1)).contains(sp) {
                        let (kk, ci): (int, int) = choose|kk: int, ci: int|
                            0 <= kk < ents.take(k + 1).len() && 0 <= ci && ci + ents.take(
                                k + 1,
                            )[kk].0.len() <= t.len() && sp == (
                                ci,
                                ci + ents.take(k + 1)[kk].0.len() as int,
                                ents.take(k + 1)[kk].1,
                            ) && #[trigger] t.subrange(
                                ci,
                                ci + ents.take(k + 1)[kk].0.len() as int,
                            ) == ents.take(k + 1)[kk].0 && boundary_ok(
                                t,
                                ci,
                                ci + ents.take(k + 1)[kk].0.len() as int,
                            );
                        if kk < k {
                            assert(ents.take(k as int)[kk] == ents.take(k + 1)[kk]);
                            assert(accepted_spans(t, ents.take(k as int)).contains(sp));
                        } else {
                            assert(ents.take(k + 1)[kk] == ents[k as int]);
                            assert(ci + nlen <= tn);
                            assert(false);
                        }
                    }
                    if accepted_spans(t, ents.take(k as int)).contains(sp) {
                        let (kk, ci): (int, int) = choose|kk: int, ci: int|
                            0 <= kk < ents.take(k as int).len() && 0 <= ci && ci + ents.take(
                                k as int,
                            )[kk].0.len() <= t.len() && sp == (
                                ci,
                                ci + ents.take(k as int)[kk].0.len() as int,
                                ents.take(k as int)[kk].1,
                            ) && #[trigger] t.subrange(
                                ci,
                                ci + ents.take(k as int)[kk].0.len() as int,
                            ) == ents.take(k as int)[kk].0 && boundary_ok(
                                t,
                                ci,
                                ci + ents.take(k as int)[kk].0.len() as int,
                            );
                        assert(ents.take(k + 1)[kk] == ents.take(k as int)[kk]);
                        assert(accepted_spans(t, ents.take(k + 1)).contains(sp));
                    }
                }
                assert(spans_view(found@).to_set() =~= accepted_spans(t, ents.take(k + 1)));
            }
        }
    }
    proof {
        assert(ents.take(ne as int) =~= ents);
    }
    let is_empty = found.len() == 0;
    let ghost found_set = spans_view(found@).to_set();
    sort_spans(&mut found);
    let deduped = dedup_spans(&found);
    if is_empty {
        proof {
            assert(found_set =~= accepted_spans(t, ents));
        }
        None
    } else {
        proof {
            assert(deduped@.len() > 0) by {
                if deduped@.len() == 0 {
                    assert(found_set.contains(spans_view(found@)[0])) by {
                        assert(spans_view(found@).contains(spans_view(found@)[0]));
                    }
                    assert(spans_view(deduped@).to_set().contains(spans_view(found@)[0]));
                    let j = choose|j: int|
                        0 <= j < spans_view(deduped@).len() && spans_view(deduped@)[j]
                            == spans_view(found@)[0];
                    assert(false);
                }
            }
        }
        Some(deduped)
    }
}

} // verus!
