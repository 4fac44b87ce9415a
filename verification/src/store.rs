//! The document store: the corpus and its reverse indices.
//!
//! The store holds the ordered list of documents, a map from id to
//! document, and two derived reverse indices: label to document ids, and
//! annotated entity text (lowercased) to document ids.  Both indices are
//! association lists with unique keys; their contracts say exactly which
//! keys exist and which ids each key lists, so that the indices are always
//! derivable from the document list.

use vstd::prelude::*;
use crate::config::Config;
use crate::document::{
    Document, annotate_doc_with, annotated_labels, sane_span_list,
};
use crate::document::fold_entities;
use crate::entity::{Entity, ent_view, ents_view};
use crate::matcher::{ac_new, unique_names, lemma_names_facts};
use crate::spans::{Span, span_view, spans_view};
use crate::text::{to_lowercase, lower_of, s_len};

verus! {

/// Whether an id list holds `id`.
pub open spec fn ids_contain(v: Seq<String>, id: Seq<char>) -> bool {
    exists|k: int| 0 <= k < v.len() && v[k]@ == id
}

/// Whether an association list's keys are pairwise distinct.
pub open spec fn keys_unique(idx: Seq<(String, Vec<String>)>) -> bool {
    forall|i: int, j: int|
        0 <= i < j < idx.len() ==> (#[trigger] idx[i]).0@ != (#[trigger] idx[j]).0@
}

/// Whether an association list has an entry for `a`.
pub open spec fn key_in(idx: Seq<(String, Vec<String>)>, a: Seq<char>) -> bool {
    exists|i: int| 0 <= i < idx.len() && (#[trigger] idx[i]).0@ == a
}

/// Whether the pair list holds the pair `(a, b)`.
pub open spec fn pair_in(ps: Seq<(String, String)>, a: Seq<char>, b: Seq<char>) -> bool {
    exists|k: int| 0 <= k < ps.len() && (#[trigger] ps[k]).0@ == a && ps[k].1@ == b
}

/// Whether some pair in the list has the key `a`.
pub open spec fn key_of_pairs(ps: Seq<(String, String)>, a: Seq<char>) -> bool {
    exists|k: int| 0 <= k < ps.len() && (#[trigger] ps[k]).0@ == a
}

/// An index reflects a pair list exactly: its keys are the pairs' keys,
/// and the entry for a key lists an id precisely when the pair occurs.
pub open spec fn index_matches_pairs(
    idx: Seq<(String, Vec<String>)>,
    ps: Seq<(String, String)>,
) -> bool {
    &&& keys_unique(idx)
    &&& forall|a: Seq<char>| #[trigger] key_in(idx, a) == key_of_pairs(ps, a)
    &&& forall|i: int, b: Seq<char>|
        0 <= i < idx.len() ==> #[trigger] ids_contain(idx[i].1@, b) == pair_in(ps, idx[i].0@, b)
}

/// The position of the entry with the given key, if any.
pub fn find_key(idx: &Vec<(String, Vec<String>)>, key: &String) -> (r: Option<usize>)
    ensures
        match r {
            Some(e) => e < idx@.len() && idx@[e as int].0@ == key@,
            None => !key_in(idx@, key@),
        },
{
    let n = idx.len();
    for i in 0..n
        invariant
            n == idx@.len(),
            forall|j: int| 0 <= j < i ==> (#[trigger] idx@[j]).0@ != key@,
    {
        if idx[i].0 == *key {
            return Some(i);
        }
    }
    None
}

/// Builds the association list for a pair list: one entry per distinct
/// key, listing every id paired with it.
pub fn index_from_pairs(pairs: &Vec<(String, String)>) -> (idx: Vec<(String, Vec<String>)>)
    ensures
        index_matches_pairs(idx@, pairs@),
{
    let n = pairs.len();
    let mut idx: Vec<(String, Vec<String>)> = Vec::new();
    proof {
        assert forall|a: Seq<char>| #[trigger] key_in(idx@, a) == key_of_pairs(
            pairs@.take(0),
            a,
        ) by {
            if key_in(idx@, a) {
                let i = choose|i: int| 0 <= i < idx@.len() && (#[trigger] idx@[i]).0@ == a;
                assert(false);
            }
            if key_of_pairs(pairs@.take(0), a) {
                let k = choose|k: int|
                    0 <= k < pairs@.take(0).len() && (#[trigger] pairs@.take(0)[k]).0@ == a;
                assert(false);
            }
        }
    }
    for c in 0..n
        invariant
            n == pairs@.len(),
            index_matches_pairs(idx@, pairs@.take(c as int)),
    {
        let ghost prev = pairs@.take(c as int);
        let ghost cur = pairs@.take(c + 1);
        let ghost a = pairs@[c as int].0@;
        let ghost b = pairs@[c as int].1@;
        proof {
            assert(cur =~= prev.push(pairs@[c as int]));
            assert forall|x: Seq<char>, y: Seq<char>| #[trigger] pair_in(cur, x, y) == (pair_in(
                prev,
                x,
                y,
            ) || (x == a && y == b)) by {
                if pair_in(cur, x, y) {
                    let k = choose|k: int|
                        0 <= k < cur.len() && (#[trigger] cur[k]).0@ == x && cur[k].1@ == y;
                    if k < cur.len() - 1 {
                        assert(prev[k] == cur[k]);
                        assert(pair_in(prev, x, y));
                    }
                }
                if pair_in(prev, x, y) {
                    let k = choose|k: int|
                        0 <= k < prev.len() && (#[trigger] prev[k]).0@ == x && prev[k].1@ == y;
                    assert(cur[k] == prev[k]);
                    assert(pair_in(cur, x, y));
                }
                if x == a && y == b {
                    assert(cur[cur.len() - 1].0@ == x && cur[cur.len() - 1].1@ == y);
                    assert(pair_in(cur, x, y));
                }
            }
            assert forall|x: Seq<char>| #[trigger] key_of_pairs(cur, x) == (key_of_pairs(prev, x)
                || x == a) by {
                if key_of_pairs(cur, x) {
                    let k = choose|k: int| 0 <= k < cur.len() && (#[trigger] cur[k]).0@ == x;
                    if k < cur.len() - 1 {
                        assert(prev[k] == cur[k]);
                        assert(key_of_pairs(prev, x));
                    }
                }
                if key_of_pairs(prev, x) {
                    let k = choose|k: int| 0 <= k < prev.len() && (#[trigger] prev[k]).0@ == x;
                    assert(cur[k] == prev[k]);
                }
                if x == a {
                    assert(cur[cur.len() - 1].0@ == x);
                }
            }
        }
        let pos = find_key(&idx, &pairs[c].0);
        match pos {
            Some(e) => {
                let ghost pre_idx = idx@;
                let mut entry = idx.remove(e);
                let ghost pre_ids = entry.1@;
                entry.1.push(pairs[c].1.clone());
                idx.insert(e, entry);
                proof {
                    assert(idx@.len() == pre_idx.len());
                    assert forall|i: int| 0 <= i < idx@.len() && i != e implies idx@[i]
                        == pre_idx[i] by {}
                    assert(idx@[e as int].0 == pre_idx[e as int].0);
                    assert(idx@[e as int].1@ =~= pre_ids.push(pairs@[c as int].1));
                    assert(keys_unique(idx@));
                    assert forall|x: Seq<char>| #[trigger] key_in(idx@, x) == key_in(
                        pre_idx,
                        x,
                    ) by {
                        if key_in(idx@, x) {
                            let i = choose|i: int|
                                0 <= i < idx@.len() && (#[trigger] idx@[i]).0@ == x;
                            assert(pre_idx[i].0@ == x);
                        }
                        if key_in(pre_idx, x) {
                            let i = choose|i: int|
                                0 <= i < pre_idx.len() && (#[trigger] pre_idx[i]).0@ == x;
                            assert(idx@[i].0@ == x);
                        }
                    }
                    assert(key_in(idx@, a)) by {
                        assert(idx@[e as int].0@ == a);
                    }
                    assert forall|i: int, y: Seq<char>| 0 <= i < idx@.len() implies
                        #[trigger] ids_contain(idx@[i].1@, y) == pair_in(cur, idx@[i].0@, y) by {
                        if i != e {
                            assert(idx@[i] == pre_idx[i]);
                            assert(ids_contain(pre_idx[i].1@, y) == pair_in(prev, pre_idx[i].0@, y));
                            assert(idx@[i].0@ != a);
                        } else {
                            assert(idx@[e as int].0@ == a);
                            if ids_contain(idx@[e as int].1@, y) {
                                let k = choose|k: int|
                                    0 <= k < idx@[e as int].1@.len() && (#[trigger] idx@[e as int].1@[k])@
                                        == y;
                                if k < pre_ids.len() {
                                    assert(pre_ids[k]@ == y);
                                    assert(ids_contain(pre_ids, y));
                                    assert(pair_in(prev, a, y));
                                } else {
                                    assert(y == b);
                                }
                            }
                            if pair_in(cur, a, y) {
                                if pair_in(prev, a, y) {
                                    assert(ids_contain(pre_ids, y));
                                    let k = choose|k: int|
                                        0 <= k < pre_ids.len() && (#[trigger] pre_ids[k])@ == y;
                                    assert(idx@[e as int].1@[k]@ == y);
                                } else {
                                    assert(y == b);
                                    assert(idx@[e as int].1@.last()@ == y);
                                }
                                assert(ids_contain(idx@[e as int].1@, y));
                            }
                        }
                    }
                }
            },
            None => {
                let ghost pre_idx = idx@;
                let mut ids: Vec<String> = Vec::new();
                ids.push(pairs[c].1.clone());
                idx.push((pairs[c].0.clone(), ids));
                proof {
                    assert(idx@.drop_last() =~= pre_idx);
                    assert(idx@.last().0@ == a);
                    assert(idx@.last().1@.len() == 1 && idx@.last().1@[0]@ == b);
                    assert(keys_unique(idx@)) by {
                        assert forall|i: int, j: int| 0 <= i < j < idx@.len() implies (
                        #[trigger] idx@[i]).0@ != (#[trigger] idx@[j]).0@ by {
                            if j == idx@.len() - 1 {
                                assert(idx@[i] == pre_idx[i]);
                                assert(key_in(pre_idx, idx@[j].0@) == false);
                            } else {
                                assert(idx@[i] == pre_idx[i] && idx@[j] == pre_idx[j]);
                            }
                        }
                    }
                    assert forall|x: Seq<char>| #[trigger] key_in(idx@, x) == (key_in(pre_idx, x)
                        || x == a) by {
                        if key_in(idx@, x) {
                            let i = choose|i: int|
                                0 <= i < idx@.len() && (#[trigger] idx@[i]).0@ == x;
                            if i < idx@.len() - 1 {
                                assert(pre_idx[i].0@ == x);
                            }
                        }
                        if key_in(pre_idx, x) {
                            let i = choose|i: int|
                                0 <= i < pre_idx.len() && (#[trigger] pre_idx[i]).0@ == x;
                            assert(idx@[i].0@ == x);
                        }
                        if x == a {
                            assert(idx@[idx@.len() - 1].0@ == x);
                        }
                    }
                    assert forall|i: int, y: Seq<char>| 0 <= i < idx@.len() implies
                        #[trigger] ids_contain(idx@[i].1@, y) == pair_in(cur, idx@[i].0@, y) by {
                        if i < idx@.len() - 1 {
                            assert(idx@[i] == pre_idx[i]);
                            assert(ids_contain(pre_idx[i].1@, y) == pair_in(prev, pre_idx[i].0@, y));
                            assert(idx@[i].0@ != a) by {
                                if idx@[i].0@ == a {
                                    assert(key_in(pre_idx, a));
                                }
                            }
                        } else {
                            assert(idx@[i].0@ == a);
                            if ids_contain(idx@[i].1@, y) {
                                let k = choose|k: int|
                                    0 <= k < idx@[i].1@.len() && (#[trigger] idx@[i].1@[k])@ == y;
                                assert(k == 0);
                                assert(y == b);
                            }
                            if pair_in(cur, a, y) {
                                if pair_in(prev, a, y) {
                                    assert(key_of_pairs(prev, a));
                                    assert(key_in(pre_idx, a));
                                    assert(false);
                                }
                                assert(y == b);
                                assert(idx@[i].1@[0]@ == y);
                                assert(ids_contain(idx@[i].1@, y));
                            }
                        }
                    }
                }
            },
        }
    }
    proof {
        assert(pairs@.take(n as int) =~= pairs@);
    }
    idx
}

/// Whether the document has a span carrying the given label.
pub open spec fn has_label_span(d: Document, lab: Seq<char>) -> bool {
    exists|j: int| 0 <= j < d.label@.len() && (#[trigger] d.label@[j]).2@ == lab
}

/// Whether some document with the given id carries a span with the label.
pub open spec fn doc_has_label(docs: Seq<Document>, lab: Seq<char>, id: Seq<char>) -> bool {
    exists|i: int|
        0 <= i < docs.len() && (#[trigger] docs[i]).id@ == id && has_label_span(docs[i], lab)
}

/// The clamped character range a span selects from a text: each offset
/// is capped at the text's length, so a span reaching past the end
/// selects only the part it covers, and a degenerate span selects
/// nothing.
pub open spec fn clamp_lo(t: Seq<char>, s: int) -> int {
    if s < t.len() {
        s
    } else {
        t.len() as int
    }
}

/// See [`clamp_lo`].
pub open spec fn clamp_hi(t: Seq<char>, e: int) -> int {
    if e < t.len() {
        e
    } else {
        t.len() as int
    }
}

/// The entity-index key a span contributes: the lowercased text under the
/// span's clamped character range.  For a span within the text's range
/// this is exactly the lowercased annotated substring.
pub open spec fn span_key(t: Seq<char>, sp: Span) -> Seq<char> {
    lower_of(t.subrange(clamp_lo(t, sp.0 as int), clamp_hi(t, sp.1 as int)))
}

/// Whether some document with the given id has a span whose extracted,
/// lowercased text is `key`.
pub open spec fn doc_has_entity_key(docs: Seq<Document>, key: Seq<char>, id: Seq<char>) -> bool {
    exists|i: int, j: int|
        0 <= i < docs.len() && 0 <= j < docs[i].label@.len() && (#[trigger] docs[i]).id@ == id
            && span_key(docs[i].text@, #[trigger] docs[i].label@[j]) == key
}

/// A span whose start does not exceed its end.
pub open spec fn sane_spans(d: Document) -> bool {
    forall|j: int| 0 <= j < d.label@.len() ==> (#[trigger] d.label@[j]).0 <= d.label@[j].1
}

/// Every document's spans are sane.
pub open spec fn sane_docs(docs: Seq<Document>) -> bool {
    forall|i: int| 0 <= i < docs.len() ==> sane_spans(#[trigger] docs[i])
}

/// Whether the index has an entry for `a` that lists the id `b`.
pub open spec fn idx_maps(idx: Seq<(String, Vec<String>)>, a: Seq<char>, b: Seq<char>) -> bool {
    exists|i: int| 0 <= i < idx.len() && (#[trigger] idx[i]).0@ == a && ids_contain(idx[i].1@, b)
}

/// The label index is exactly derivable from the documents: a key exists
/// precisely for the labels that occur, and a key lists an id precisely
/// when that document carries the label.
pub open spec fn label_index_ok(docs: Seq<Document>, idx: Seq<(String, Vec<String>)>) -> bool {
    &&& keys_unique(idx)
    &&& forall|a: Seq<char>| #[trigger] key_in(idx, a) == exists|b: Seq<char>| doc_has_label(docs, a, b)
    &&& forall|a: Seq<char>, b: Seq<char>| #[trigger] idx_maps(idx, a, b) == doc_has_label(
        docs,
        a,
        b,
    )
}

/// The entity index is exactly derivable from the documents, with the
/// lowercased extracted span text as key.
pub open spec fn entity_index_ok(docs: Seq<Document>, idx: Seq<(String, Vec<String>)>) -> bool {
    &&& keys_unique(idx)
    &&& forall|a: Seq<char>| #[trigger] key_in(idx, a) == exists|b: Seq<char>|
        doc_has_entity_key(docs, a, b)
    &&& forall|a: Seq<char>, b: Seq<char>| #[trigger] idx_maps(idx, a, b) == doc_has_entity_key(
        docs,
        a,
        b,
    )
}

/// From an index matching a pair list and a pair characterization, the
/// maps-level readings coincide.
proof fn lemma_index_maps_from_pairs(idx: Seq<(String, Vec<String>)>, ps: Seq<(String, String)>)
    requires
        index_matches_pairs(idx, ps),
    ensures
        forall|a: Seq<char>, b: Seq<char>| #[trigger] idx_maps(idx, a, b) == pair_in(ps, a, b),
        forall|a: Seq<char>| #[trigger] key_in(idx, a) == key_of_pairs(ps, a),
{
    assert forall|a: Seq<char>, b: Seq<char>| #[trigger] idx_maps(idx, a, b) == pair_in(
        ps,
        a,
        b,
    ) by {
        if idx_maps(idx, a, b) {
            let i = choose|i: int|
                0 <= i < idx.len() && (#[trigger] idx[i]).0@ == a && ids_contain(idx[i].1@, b);
            assert(ids_contain(idx[i].1@, b) == pair_in(ps, idx[i].0@, b));
        }
        if pair_in(ps, a, b) {
            assert(key_of_pairs(ps, a)) by {
                let k = choose|k: int|
                    0 <= k < ps.len() && (#[trigger] ps[k]).0@ == a && ps[k].1@ == b;
            }
            assert(key_in(idx, a));
            let i = choose|i: int| 0 <= i < idx.len() && (#[trigger] idx[i]).0@ == a;
            assert(ids_contain(idx[i].1@, b) == pair_in(ps, idx[i].0@, b));
            assert(idx_maps(idx, a, b));
        }
    }
}

/// Collects one `(label, id)` pair for every span of every document.
fn collect_label_pairs(docs: &Vec<Document>) -> (ps: Vec<(String, String)>)
    ensures
        forall|a: Seq<char>, b: Seq<char>| #[trigger] pair_in(ps@, a, b) == doc_has_label(
            docs@,
            a,
            b,
        ),
{
    let n = docs.len();
    let mut ps: Vec<(String, String)> = Vec::new();
    proof {
        assert forall|a: Seq<char>, b: Seq<char>| #[trigger] pair_in(ps@, a, b) == doc_has_label(
            docs@.take(0),
            a,
            b,
        ) by {
            if pair_in(ps@, a, b) {
                let k = choose|k: int| 0 <= k < ps@.len() && (#[trigger] ps@[k]).0@ == a;
                assert(false);
            }
            if doc_has_label(docs@.take(0), a, b) {
                let i = choose|i: int|
                    0 <= i < docs@.take(0).len() && (#[trigger] docs@.take(0)[i]).id@ == b;
                assert(false);
            }
        }
    }
    for i in 0..n
        invariant
            n == docs@.len(),
            forall|a: Seq<char>, b: Seq<char>| #[trigger] pair_in(ps@, a, b) == doc_has_label(
                docs@.take(i as int),
                a,
                b,
            ),
    {
        let m = docs[i].label.len();
        for j in 0..m
            invariant
                n == docs@.len(),
                i < n,
                m == docs@[i as int].label@.len(),
                forall|a: Seq<char>, b: Seq<char>| #[trigger] pair_in(ps@, a, b) == (doc_has_label(
                    docs@.take(i as int),
                    a,
                    b,
                ) || (b == docs@[i as int].id@ && exists|jj: int|
                    0 <= jj < j && (#[trigger] docs@[i as int].label@[jj]).2@ == a)),
        {
            let ghost pre = ps@;
            ps.push((docs[i].label[j].2.clone(), docs[i].id.clone()));
            proof {
                let a0 = docs@[i as int].label@[j as int].2@;
                let b0 = docs@[i as int].id@;
                assert(ps@.drop_last() =~= pre);
                assert(ps@.last().0@ == a0 && ps@.last().1@ == b0);
                assert forall|a: Seq<char>, b: Seq<char>| #[trigger] pair_in(ps@, a, b) == (pair_in(
                    pre,
                    a,
                    b,
                ) || (a == a0 && b == b0)) by {
                    if pair_in(ps@, a, b) {
                        let k = choose|k: int|
                            0 <= k < ps@.len() && (#[trigger] ps@[k]).0@ == a && ps@[k].1@ == b;
                        if k < ps@.len() - 1 {
                            assert(pre[k] == ps@[k]);
                            assert(pair_in(pre, a, b));
                        }
                    }
                    if pair_in(pre, a, b) {
                        let k = choose|k: int|
                            0 <= k < pre.len() && (#[trigger] pre[k]).0@ == a && pre[k].1@ == b;
                        assert(ps@[k] == pre[k]);
                        assert(pair_in(ps@, a, b));
                    }
                    if a == a0 && b == b0 {
                        assert(ps@[ps@.len() - 1].0@ == a && ps@[ps@.len() - 1].1@ == b);
                        assert(pair_in(ps@, a, b));
                    }
                }
            }
        }
        proof {
            assert forall|a: Seq<char>, b: Seq<char>| #[trigger] pair_in(ps@, a, b)
                == doc_has_label(docs@.take(i + 1), a, b) by {
                assert(docs@.take(i + 1) =~= docs@.take(i as int).push(docs@[i as int]));
                if pair_in(ps@, a, b) {
                    if doc_has_label(docs@.take(i as int), a, b) {
                        let x = choose|x: int|
                            0 <= x < docs@.take(i as int).len() && (#[trigger] docs@.take(
                                i as int,
                            )[x]).id@ == b && has_label_span(docs@.take(i as int)[x], a);
                        assert(docs@.take(i + 1)[x] == docs@.take(i as int)[x]);
                        assert(doc_has_label(docs@.take(i + 1), a, b));
                    } else {
                        assert(b == docs@[i as int].id@);
                        assert(has_label_span(docs@[i as int], a));
                        assert(docs@.take(i + 1)[i as int] == docs@[i as int]);
                        assert(doc_has_label(docs@.take(i + 1), a, b));
                    }
                }
                if doc_has_label(docs@.take(i + 1), a, b) {
                    let x = choose|x: int|
                        0 <= x < docs@.take(i + 1).len() && (#[trigger] docs@.take(i + 1)[x]).id@
                            == b && has_label_span(docs@.take(i + 1)[x], a);
                    if x < i {
                        assert(docs@.take(i as int)[x] == docs@.take(i + 1)[x]);
                        assert(doc_has_label(docs@.take(i as int), a, b));
                    } else {
                        assert(docs@.take(i + 1)[x] == docs@[i as int]);
                        let jj = choose|jj: int|
                            0 <= jj < docs@[i as int].label@.len() && (
                            #[trigger] docs@[i as int].label@[jj]).2@ == a;
                        assert(pair_in(ps@, a, b));
                    }
                }
            }
        }
    }
    proof {
        assert(docs@.take(n as int) =~= docs@);
    }
    ps
}

/// The entity-index key of one span of a text: the lowercased text under
/// the span's clamped character range.
pub fn span_key_string(text: &str, sp: &Span) -> (r: String)
    requires
        sp.0 <= sp.1,
    ensures
        r@ == span_key(text@, *sp),
{
    let n = s_len(text);
    let cs = if sp.0 < n {
        sp.0
    } else {
        n
    };
    let ce = if sp.1 < n {
        sp.1
    } else {
        n
    };
    let sub = text.substring_char(cs, ce);
    to_lowercase(sub)
}

/// Collects one `(key, id)` pair for every span of every document, with
/// the lowercased extracted span text as key.
fn collect_entity_pairs(docs: &Vec<Document>) -> (ps: Vec<(String, String)>)
    requires
        sane_docs(docs@),
    ensures
        forall|a: Seq<char>, b: Seq<char>| #[trigger] pair_in(ps@, a, b) == doc_has_entity_key(
            docs@,
            a,
            b,
        ),
{
    let n = docs.len();
    let mut ps: Vec<(String, String)> = Vec::new();
    proof {
        assert forall|a: Seq<char>, b: Seq<char>| #[trigger] pair_in(ps@, a, b)
            == doc_has_entity_key(docs@.take(0), a, b) by {
            if pair_in(ps@, a, b) {
                let k = choose|k: int| 0 <= k < ps@.len() && (#[trigger] ps@[k]).0@ == a;
                assert(false);
            }
            if doc_has_entity_key(docs@.take(0), a, b) {
                let (i, j): (int, int) = choose|i: int, j: int|
                    0 <= i < docs@.take(0).len() && 0 <= j < docs@.take(0)[i].label@.len() && (
                    #[trigger] docs@.take(0)[i]).id@ == b && span_key(
                        docs@.take(0)[i].text@,
                        #[trigger] docs@.take(0)[i].label@[j],
                    ) == a;
                assert(false);
            }
        }
    }
    for i in 0..n
        invariant
            n == docs@.len(),
            sane_docs(docs@),
            forall|a: Seq<char>, b: Seq<char>| #[trigger] pair_in(ps@, a, b)
                == doc_has_entity_key(docs@.take(i as int), a, b),
    {
        let m = docs[i].label.len();
        for j in 0..m
            invariant
                n == docs@.len(),
                i < n,
                sane_docs(docs@),
                m == docs@[i as int].label@.len(),
                forall|a: Seq<char>, b: Seq<char>| #[trigger] pair_in(ps@, a, b) == (
                doc_has_entity_key(docs@.take(i as int), a, b) || (b == docs@[i as int].id@
                    && exists|jj: int|
                    0 <= jj < j && span_key(
                        docs@[i as int].text@,
                        #[trigger] docs@[i as int].label@[jj],
                    ) == a)),
        {
            proof {
                assert(sane_spans(docs@[i as int]));
                assert(docs@[i as int].label@[j as int].0 <= docs@[i as int].label@[j as int].1);
            }
            let key = span_key_string(docs[i].text.as_str(), &docs[i].label[j]);
            let ghost pre = ps@;
            ps.push((key, docs[i].id.clone()));
            proof {
                let a0 = span_key(docs@[i as int].text@, docs@[i as int].label@[j as int]);
                let b0 = docs@[i as int].id@;
                assert(ps@.drop_last() =~= pre);
                assert(ps@.last().0@ == a0 && ps@.last().1@ == b0);
                assert forall|a: Seq<char>, b: Seq<char>| #[trigger] pair_in(ps@, a, b) == (pair_in(
                    pre,
                    a,
                    b,
                ) || (a == a0 && b == b0)) by {
                    if pair_in(ps@, a, b) {
                        let k = choose|k: int|
                            0 <= k < ps@.len() && (#[trigger] ps@[k]).0@ == a && ps@[k].1@ == b;
                        if k < ps@.len() - 1 {
                            assert(pre[k] == ps@[k]);
                            assert(pair_in(pre, a, b));
                        }
                    }
                    if pair_in(pre, a, b) {
                        let k = choose|k: int|
                            0 <= k < pre.len() && (#[trigger] pre[k]).0@ == a && pre[k].1@ == b;
                        assert(ps@[k] == pre[k]);
                        assert(pair_in(ps@, a, b));
                    }
                    if a == a0 && b == b0 {
                        assert(ps@[ps@.len() - 1].0@ == a && ps@[ps@.len() - 1].1@ == b);
                        assert(pair_in(ps@, a, b));
                    }
                }
            }
        }
        proof {
            assert forall|a: Seq<char>, b: Seq<char>| #[trigger] pair_in(ps@, a, b)
                == doc_has_entity_key(docs@.take(i + 1), a, b) by {
                assert(docs@.take(i + 1) =~= docs@.take(i as int).push(docs@[i as int]));
                if pair_in(ps@, a, b) {
                    if doc_has_entity_key(docs@.take(i as int), a, b) {
                        let (x, y): (int, int) = choose|x: int, y: int|
                            0 <= x < docs@.take(i as int).len() && 0 <= y < docs@.take(
                                i as int,
                            )[x].label@.len() && (#[trigger] docs@.take(i as int)[x]).id@ == b
                                && span_key(
                                docs@.take(i as int)[x].text@,
                                #[trigger] docs@.take(i as int)[x].label@[y],
                            ) == a;
                        assert(docs@.take(i + 1)[x] == docs@.take(i as int)[x]);
                        assert(doc_has_entity_key(docs@.take(i + 1), a, b));
                    } else {
                        assert(b == docs@[i as int].id@);
                        let jj = choose|jj: int|
                            0 <= jj < docs@[i as int].label@.len() && span_key(
                                docs@[i as int].text@,
                                #[trigger] docs@[i as int].label@[jj],
                            ) == a;
                        assert(docs@.take(i + 1)[i as int] == docs@[i as int]);
                        assert(doc_has_entity_key(docs@.take(i + 1), a, b));
                    }
                }
                if doc_has_entity_key(docs@.take(i + 1), a, b) {
                    let (x, y): (int, int) = choose|x: int, y: int|
                        0 <= x < docs@.take(i + 1).len() && 0 <= y < docs@.take(
                            i + 1,
                        )[x].label@.len() && (#[trigger] docs@.take(i + 1)[x]).id@ == b && span_key(
                            docs@.take(i + 1)[x].text@,
                            #[trigger] docs@.take(i + 1)[x].label@[y],
                        ) == a;
                    if x < i {
                        assert(docs@.take(i as int)[x] == docs@.take(i + 1)[x]);
                        assert(doc_has_entity_key(docs@.take(i as int), a, b));
                    } else {
                        assert(docs@.take(i + 1)[x] == docs@[i as int]);
                        assert(pair_in(ps@, a, b));
                    }
                }
            }
        }
    }
    proof {
        assert(docs@.take(n as int) =~= docs@);
    }
    ps
}

/// Document equality at the level of values: same id, text and spans.
pub open spec fn doc_view_eq(a: Document, b: Document) -> bool {
    a.id@ == b.id@ && a.text@ == b.text@ && crate::spans::spans_view(a.label@)
        == crate::spans::spans_view(b.label@)
}

/// Whether the id-to-document map's keys are pairwise distinct.
pub open spec fn hash_keys_unique(h: Seq<(String, Document)>) -> bool {
    forall|i: int, j: int| 0 <= i < j < h.len() ==> (#[trigger] h[i]).0@ != (#[trigger] h[j]).0@
}

/// Whether the id-to-document map has an entry for `a`.
pub open spec fn hash_key_in(h: Seq<(String, Document)>, a: Seq<char>) -> bool {
    exists|i: int| 0 <= i < h.len() && (#[trigger] h[i]).0@ == a
}

/// The index of the last document with id `a`, or -1 if none.
pub open spec fn last_index_of(docs: Seq<Document>, a: Seq<char>) -> int
    decreases docs.len(),
{
    if docs.len() == 0 {
        -1
    } else if docs.last().id@ == a {
        docs.len() - 1
    } else {
        last_index_of(docs.drop_last(), a)
    }
}

/// Basic facts about [`last_index_of`].
pub proof fn lemma_last_index_of(docs: Seq<Document>, a: Seq<char>)
    ensures
        -1 <= last_index_of(docs, a) < docs.len(),
        last_index_of(docs, a) >= 0 ==> docs[last_index_of(docs, a)].id@ == a,
        last_index_of(docs, a) >= 0 ==> forall|k2: int|
            last_index_of(docs, a) < k2 < docs.len() ==> (#[trigger] docs[k2]).id@ != a,
        last_index_of(docs, a) < 0 ==> forall|k2: int|
            0 <= k2 < docs.len() ==> (#[trigger] docs[k2]).id@ != a,
    decreases docs.len(),
{
    if docs.len() > 0 && docs.last().id@ != a {
        lemma_last_index_of(docs.drop_last(), a);
        assert forall|k2: int|
            (last_index_of(docs, a) < 0 && 0 <= k2 < docs.len()) || (last_index_of(docs, a) >= 0
                && last_index_of(docs, a) < k2 < docs.len()) implies (#[trigger] docs[k2]).id@
            != a by {
            if k2 < docs.len() - 1 {
                assert(docs.drop_last()[k2] == docs[k2]);
            }
        }
    }
}

/// The id map is exactly derivable from the documents: one entry per
/// distinct id, holding the last document with that id.
pub open spec fn hash_ok(docs: Seq<Document>, h: Seq<(String, Document)>) -> bool {
    &&& hash_keys_unique(h)
    &&& forall|k: int| 0 <= k < docs.len() ==> hash_key_in(h, (#[trigger] docs[k]).id@)
    &&& forall|i: int|
        0 <= i < h.len() ==> last_index_of(docs, (#[trigger] h[i]).0@) >= 0 && doc_view_eq(
            h[i].1,
            docs[last_index_of(docs, h[i].0@)],
        )
}

/// The position of the id map entry with the given key, if any.
pub fn find_hash_key(h: &Vec<(String, Document)>, key: &String) -> (r: Option<usize>)
    ensures
        match r {
            Some(e) => e < h@.len() && h@[e as int].0@ == key@,
            None => !hash_key_in(h@, key@),
        },
{
    let n = h.len();
    for i in 0..n
        invariant
            n == h@.len(),
            forall|j: int| 0 <= j < i ==> (#[trigger] h@[j]).0@ != key@,
    {
        if h[i].0 == *key {
            return Some(i);
        }
    }
    None
}

/// Builds the id-to-document map for a document list; identical texts
/// collide by design, and the last document with an id wins.
pub fn document_hash(documents: &Vec<Document>) -> (h: Vec<(String, Document)>)
    ensures
        hash_ok(documents@, h@),
{
    let n = documents.len();
    let mut h: Vec<(String, Document)> = Vec::new();
    proof {
        assert(hash_ok(documents@.take(0), h@));
    }
    for c in 0..n
        invariant
            n == documents@.len(),
            hash_ok(documents@.take(c as int), h@),
    {
        let ghost prev = documents@.take(c as int);
        let ghost cur = documents@.take(c + 1);
        let ghost d = documents@[c as int];
        proof {
            assert(cur =~= prev.push(d));
        }
        let pos = find_hash_key(&h, &documents[c].id);
        match pos {
            Some(e) => {
                let ghost pre_h = h@;
                let _old_entry = h.remove(e);
                h.insert(e, (documents[c].id.clone(), documents[c].clone()));
                proof {
                    assert(h@.len() == pre_h.len());
                    assert forall|i: int| 0 <= i < h@.len() && i != e implies h@[i]
                        == pre_h[i] by {}
                    assert(h@[e as int].0@ == d.id@);
                    assert(doc_view_eq(h@[e as int].1, d));
                    assert(hash_keys_unique(h@)) by {
                        assert forall|i: int, j: int| 0 <= i < j < h@.len() implies (
                        #[trigger] h@[i]).0@ != (#[trigger] h@[j]).0@ by {
                            assert(pre_h[i].0@ != pre_h[j].0@);
                            if i == e {
                                assert(h@[i].0@ == pre_h[i].0@);
                            }
                            if j == e {
                                assert(h@[j].0@ == pre_h[j].0@);
                            }
                        }
                    }
                    assert forall|k: int| 0 <= k < cur.len() implies hash_key_in(
                        h@,
                        (#[trigger] cur[k]).id@,
                    ) by {
                        if k < c {
                            assert(prev[k] == cur[k]);
                            assert(hash_key_in(pre_h, cur[k].id@));
                            let i = choose|i: int|
                                0 <= i < pre_h.len() && (#[trigger] pre_h[i]).0@ == cur[k].id@;
                            assert(h@[i].0@ == cur[k].id@);
                        } else {
                            assert(h@[e as int].0@ == cur[k].id@);
                        }
                    }
                    assert forall|i: int| 0 <= i < h@.len() implies last_index_of(
                        cur,
                        (#[trigger] h@[i]).0@,
                    ) >= 0 && doc_view_eq(h@[i].1, cur[last_index_of(cur, h@[i].0@)]) by {
                        assert(cur.drop_last() =~= prev);
                        assert(cur.last() == d);
                        if i == e {
                            assert(cur[c as int] == d);
                            assert(last_index_of(cur, h@[i].0@) == c);
                            assert(doc_view_eq(h@[i].1, cur[c as int]));
                        } else {
                            assert(h@[i] == pre_h[i]);
                            assert(h@[i].0@ != d.id@) by {
                                assert(pre_h[e as int].0@ == d.id@);
                            }
                            assert(last_index_of(cur, h@[i].0@) == last_index_of(prev, h@[i].0@));
                            let k = last_index_of(prev, h@[i].0@);
                            lemma_last_index_of(prev, h@[i].0@);
                            assert(doc_view_eq(pre_h[i].1, prev[k]));
                            assert(cur[k] == prev[k]);
                        }
                    }
                    assert(hash_ok(cur, h@));
                }
            },
            None => {
                let ghost pre_h = h@;
                h.push((documents[c].id.clone(), documents[c].clone()));
                proof {
                    assert(h@.drop_last() =~= pre_h);
                    assert(h@.last().0@ == d.id@);
                    assert(doc_view_eq(h@.last().1, d));
                    assert(hash_keys_unique(h@)) by {
                        assert forall|i: int, j: int| 0 <= i < j < h@.len() implies (
                        #[trigger] h@[i]).0@ != (#[trigger] h@[j]).0@ by {
                            if j == h@.len() - 1 {
                                assert(h@[i] == pre_h[i]);
                                assert(!hash_key_in(pre_h, d.id@));
                            } else {
                                assert(h@[i] == pre_h[i] && h@[j] == pre_h[j]);
                            }
                        }
                    }
                    assert forall|k: int| 0 <= k < cur.len() implies hash_key_in(
                        h@,
                        (#[trigger] cur[k]).id@,
                    ) by {
                        if k < c {
                            assert(prev[k] == cur[k]);
                            assert(hash_key_in(pre_h, cur[k].id@));
                            let i = choose|i: int|
                                0 <= i < pre_h.len() && (#[trigger] pre_h[i]).0@ == cur[k].id@;
                            assert(h@[i].0@ == cur[k].id@);
                        } else {
                            assert(h@[h@.len() - 1].0@ == cur[k].id@);
                        }
                    }
                    assert forall|i: int| 0 <= i < h@.len() implies last_index_of(
                        cur,
                        (#[trigger] h@[i]).0@,
                    ) >= 0 && doc_view_eq(h@[i].1, cur[last_index_of(cur, h@[i].0@)]) by {
                        assert(cur.drop_last() =~= prev);
                        assert(cur.last() == d);
                        if i == h@.len() - 1 {
                            assert(cur[c as int] == d);
                            assert(last_index_of(cur, h@[i].0@) == c);
                        } else {
                            assert(h@[i] == pre_h[i]);
                            assert(h@[i].0@ != d.id@) by {
                                if h@[i].0@ == d.id@ {
                                    assert(pre_h[i].0@ == d.id@);
                                    assert(hash_key_in(pre_h, d.id@));
                                }
                            }
                            assert(last_index_of(cur, h@[i].0@) == last_index_of(prev, h@[i].0@));
                            let k = last_index_of(prev, h@[i].0@);
                            lemma_last_index_of(prev, h@[i].0@);
                            assert(doc_view_eq(pre_h[i].1, prev[k]));
                            assert(cur[k] == prev[k]);
                        }
                    }
                    assert(hash_ok(cur, h@));
                }
            },
        }
        proof {
            assert(hash_ok(cur, h@));
        }
    }
    proof {
        assert(documents@.take(n as int) =~= documents@);
    }
    h
}

/// The document store: the corpus, the id map, and the reverse indices.
pub struct Quickner {
    pub config: Config,
    pub config_file: Option<String>,
    pub documents: Vec<Document>,
    pub entities: Vec<Entity>,
    pub documents_hash: Vec<(String, Document)>,
    pub documents_label_index: Vec<(String, Vec<String>)>,
    pub documents_entities_index: Vec<(String, Vec<String>)>,
}

impl Default for Quickner {
    /// An empty store with the default configuration.
    fn default() -> (r: Quickner)
        ensures
            r.documents@.len() == 0,
            r.entities@.len() == 0,
            r.documents_hash@.len() == 0,
            r.documents_label_index@.len() == 0,
            r.documents_entities_index@.len() == 0,
            r.config_file matches Some(p) && p@ == "./config.toml"@,
    {
        Quickner {
            config: Config::default(),
            config_file: Some("./config.toml".to_owned()),
            documents: Vec::new(),
            entities: Vec::new(),
            documents_hash: Vec::new(),
            documents_label_index: Vec::new(),
            documents_entities_index: Vec::new(),
        }
    }
}

impl Quickner {
    /// Rebuilds the label index from scratch from the current documents.
    pub fn build_label_index(&mut self)
        ensures
            label_index_ok(final (self).documents@, final (self).documents_label_index@),
            final (self).documents == old(self).documents,
            final (self).entities == old(self).entities,
            final (self).config == old(self).config,
            final (self).config_file == old(self).config_file,
            final (self).documents_hash == old(self).documents_hash,
            final (self).documents_entities_index == old(self).documents_entities_index,
    {
        let pairs = collect_label_pairs(&self.documents);
        let idx = index_from_pairs(&pairs);
        proof {
            lemma_index_maps_from_pairs(idx@, pairs@);
            assert forall|a: Seq<char>| #[trigger] key_in(idx@, a) == (exists|b: Seq<char>|
                doc_has_label(self.documents@, a, b)) by {
                if key_of_pairs(pairs@, a) {
                    let k = choose|k: int| 0 <= k < pairs@.len() && (#[trigger] pairs@[k]).0@ == a;
                    assert(pair_in(pairs@, a, pairs@[k].1@));
                    assert(doc_has_label(self.documents@, a, pairs@[k].1@));
                }
                if exists|b: Seq<char>| doc_has_label(self.documents@, a, b) {
                    let b = choose|b: Seq<char>| doc_has_label(self.documents@, a, b);
                    assert(pair_in(pairs@, a, b));
                    let k = choose|k: int|
                        0 <= k < pairs@.len() && (#[trigger] pairs@[k]).0@ == a && pairs@[k].1@
                            == b;
                    assert(key_of_pairs(pairs@, a));
                }
            }
        }
        self.documents_label_index = idx;
    }

    /// Rebuilds the entity index from scratch from the current documents.
    pub fn build_entity_index(&mut self)
        requires
            sane_docs(old(self).documents@),
        ensures
            entity_index_ok(final (self).documents@, final (self).documents_entities_index@),
            final (self).documents == old(self).documents,
            final (self).entities == old(self).entities,
            final (self).config == old(self).config,
            final (self).config_file == old(self).config_file,
            final (self).documents_hash == old(self).documents_hash,
            final (self).documents_label_index == old(self).documents_label_index,
    {
        let pairs = collect_entity_pairs(&self.documents);
        let idx = index_from_pairs(&pairs);
        proof {
            lemma_index_maps_from_pairs(idx@, pairs@);
            assert forall|a: Seq<char>| #[trigger] key_in(idx@, a) == (exists|b: Seq<char>|
                doc_has_entity_key(self.documents@, a, b)) by {
                if key_of_pairs(pairs@, a) {
                    let k = choose|k: int| 0 <= k < pairs@.len() && (#[trigger] pairs@[k]).0@ == a;
                    assert(pair_in(pairs@, a, pairs@[k].1@));
                    assert(doc_has_entity_key(self.documents@, a, pairs@[k].1@));
                }
                if exists|b: Seq<char>| doc_has_entity_key(self.documents@, a, b) {
                    let b = choose|b: Seq<char>| doc_has_entity_key(self.documents@, a, b);
                    assert(pair_in(pairs@, a, b));
                    let k = choose|k: int|
                        0 <= k < pairs@.len() && (#[trigger] pairs@[k]).0@ == a && pairs@[k].1@
                            == b;
                    assert(key_of_pairs(pairs@, a));
                }
            }
        }
        self.documents_entities_index = idx;
    }
}

/// Index consistency: for every span of every document in the store, the
/// span's label maps to the document's id in the label index, and the
/// span's lowercased extracted text maps to the document's id in the
/// entity index.
pub proof fn lemma_index_consistency(
    docs: Seq<Document>,
    lidx: Seq<(String, Vec<String>)>,
    eidx: Seq<(String, Vec<String>)>,
    i: int,
    j: int,
)
    requires
        label_index_ok(docs, lidx),
        entity_index_ok(docs, eidx),
        0 <= i < docs.len(),
        0 <= j < docs[i].label@.len(),
    ensures
        idx_maps(lidx, docs[i].label@[j].2@, docs[i].id@),
        idx_maps(eidx, span_key(docs[i].text@, docs[i].label@[j]), docs[i].id@),
{
    assert(has_label_span(docs[i], docs[i].label@[j].2@));
    assert(doc_has_label(docs, docs[i].label@[j].2@, docs[i].id@));
    assert(doc_has_entity_key(docs, span_key(docs[i].text@, docs[i].label@[j]), docs[i].id@));
}

impl Quickner {
    /// Adds an entity to the catalog; an entity already present by
    /// `(name, label)` is ignored.
    pub fn add_entity(&mut self, entity: Entity)
        ensures
            ents_view(old(self).entities@).contains(ent_view(entity)) ==> *final (self) == *old(
                self,
            ),
            !ents_view(old(self).entities@).contains(ent_view(entity)) ==> final (self).entities@
                == old(self).entities@.push(entity) && final (self).documents == old(
                self,
            ).documents && final (self).config == old(self).config && final (self).config_file
                == old(self).config_file && final (self).documents_hash == old(
                self,
            ).documents_hash && final (self).documents_label_index == old(
                self,
            ).documents_label_index && final (self).documents_entities_index == old(
                self,
            ).documents_entities_index,
    {
        if crate::entity::contains_entity(&self.entities, &entity) {
            return ;
        }
        self.entities.push(entity);
    }

    /// Removes from the catalog every entity whose name is in the
    /// exclusion list, keeping the order of the rest.
    pub fn remove_excluded_entities(&mut self, excludes: &Vec<String>)
        ensures
            ents_view(final (self).entities@) == excluded_filtered(
                ents_view(old(self).entities@),
                crate::matcher::names_view(excludes@),
            ),
            final (self).documents == old(self).documents,
            final (self).config == old(self).config,
            final (self).config_file == old(self).config_file,
            final (self).documents_hash == old(self).documents_hash,
            final (self).documents_label_index == old(self).documents_label_index,
            final (self).documents_entities_index == old(self).documents_entities_index,
    {
        let n = self.entities.len();
        let ghost ev = ents_view(self.entities@);
        let ghost exv = crate::matcher::names_view(excludes@);
        let mut kept: Vec<Entity> = Vec::new();
        proof {
            assert(ents_view(kept@) =~= excluded_filtered(ev.take(0), exv));
        }
        for i in 0..n
            invariant
                n == self.entities@.len(),
                ev == ents_view(self.entities@),
                exv == crate::matcher::names_view(excludes@),
                ents_view(kept@) == excluded_filtered(ev.take(i as int), exv),
        {
            proof {
                assert(ev.take(i + 1).drop_last() =~= ev.take(i as int));
                assert(ev.take(i + 1).last() == ev[i as int]);
                assert(ev[i as int] == ent_view(self.entities@[i as int]));
            }
            let mut excluded = false;
            let en = excludes.len();
            for j in 0..en
                invariant
                    en == excludes@.len(),
                    i < n,
                    n == self.entities@.len(),
                    exv == crate::matcher::names_view(excludes@),
                    excluded == exists|k: int|
                        0 <= k < j && #[trigger] exv[k] == self.entities@[i as int].name@,
            {
                if excludes[j] == self.entities[i].name {
                    proof {
                        assert(exv[j as int] == self.entities@[i as int].name@);
                    }
                    excluded = true;
                }
                proof {
                    assert(exv[j as int] == excludes@[j as int]@);
                }
            }
            proof {
                assert(excluded == exv.contains(self.entities@[i as int].name@));
            }
            if !excluded {
                kept.push(self.entities[i].clone());
                proof {
                    assert(ents_view(kept@) =~= excluded_filtered(ev.take(i as int), exv).push(
                        ev[i as int],
                    ));
                }
            }
        }
        proof {
            assert(ev.take(n as int) =~= ev);
        }
        self.entities = kept;
    }

    /// Annotates every document in the store against the catalog, using
    /// the case sensitivity configured for texts: the matcher is compiled
    /// once, each document's span list is extended with every accepted
    /// occurrence found in a case-folded working copy of its text, and the
    /// id map and both reverse indices are rebuilt from the updated
    /// documents.  The stored texts are unchanged; span offsets index
    /// their folded reading.  The run fails, leaving the store unchanged,
    /// exactly when the catalog's patterns exceed the automaton builder's
    /// limits.
    pub fn annotate(&mut self) -> (ok: bool)
        requires
            forall|k: int|
                0 <= k < old(self).entities@.len() ==> (#[trigger] ents_view(
                    old(self).entities@,
                )[k]).0.len() > 0,
            forall|i: int|
                0 <= i < old(self).documents@.len() ==> sane_span_list(
                    spans_view((#[trigger] old(self).documents@[i]).label@),
                ),
        ensures
            ok == crate::matcher::ac_buildable(
                crate::document::catalog_patterns(
                    ents_view(old(self).entities@),
                    old(self).config.texts.filters.case_sensitive,
                ),
            ),
            !ok ==> *final (self) == *old(self),
            ok ==> {
                let cs = old(self).config.texts.filters.case_sensitive;
                &&& final (self).entities == old(self).entities
                &&& final (self).config == old(self).config
                &&& final (self).config_file == old(self).config_file
                &&& final (self).documents@.len() == old(self).documents@.len()
                &&& forall|i: int|
                    0 <= i < old(self).documents@.len() ==> {
                        let d0 = #[trigger] old(self).documents@[i];
                        let d1 = final (self).documents@[i];
                        &&& d1.id@ == d0.id@
                        &&& d1.text@ == d0.text@
                        &&& annotated_labels(
                            spans_view(d0.label@),
                            d0.text@,
                            ents_view(old(self).entities@),
                            cs,
                            spans_view(d1.label@),
                        )
                    }
                &&& forall|i: int|
                    0 <= i < final (self).documents@.len() ==> sane_span_list(
                        spans_view((#[trigger] final (self).documents@[i]).label@),
                    )
                &&& hash_ok(final (self).documents@, final (self).documents_hash@)
                &&& label_index_ok(final (self).documents@, final (self).documents_label_index@)
                &&& entity_index_ok(
                    final (self).documents@,
                    final (self).documents_entities_index@,
                )
            },
    {
        let cs = self.config.texts.filters.case_sensitive;
        let folded = fold_entities(&self.entities, cs);
        let names = unique_names(&folded);
        proof {
            lemma_names_facts(folded@, names@);
            assert(crate::matcher::patterns_of(crate::matcher::names_view(names@))
                == crate::document::catalog_patterns(ents_view(self.entities@), cs));
        }
        let ac_opt = ac_new(&names);
        let ac = match ac_opt {
            Some(ac) => ac,
            None => {
                return false;
            },
        };
        let ghost orig = ents_view(self.entities@);
        let n = self.documents.len();
        let mut new_docs: Vec<Document> = Vec::new();
        for i in 0..n
            invariant
                n == self.documents@.len(),
                new_docs@.len() == i,
                ents_view(folded@) == crate::document::folded_catalog(orig, cs),
                orig == ents_view(self.entities@),
                forall|x: int, y: int|
                    0 <= x < y < names@.len() ==> #[trigger] crate::matcher::names_view(names@)[x]
                        != #[trigger] crate::matcher::names_view(names@)[y],
                forall|x: int|
                    0 <= x < names@.len() ==> (#[trigger] crate::matcher::names_view(
                        names@,
                    )[x]).len() > 0,
                forall|k: int|
                    0 <= k < folded@.len() ==> crate::matcher::names_view(names@).contains(
                        (#[trigger] ents_view(folded@)[k]).0,
                    ),
                crate::matcher::ac_patterns(ac) == crate::matcher::patterns_of(
                    crate::matcher::names_view(names@),
                ),
                crate::matcher::ac_standard(ac),
                forall|x: int|
                    0 <= x < n ==> sane_span_list(
                        spans_view((#[trigger] self.documents@[x]).label@),
                    ),
                forall|j: int|
                    0 <= j < i ==> {
                        let d0 = #[trigger] self.documents@[j];
                        let d1 = new_docs@[j];
                        &&& d1.id@ == d0.id@
                        &&& d1.text@ == d0.text@
                        &&& annotated_labels(
                            spans_view(d0.label@),
                            d0.text@,
                            orig,
                            cs,
                            spans_view(d1.label@),
                        )
                        &&& sane_span_list(spans_view(d1.label@))
                    },
        {
            let mut doc = self.documents[i].clone();
            proof {
                assert(spans_view(doc.label@) == spans_view(self.documents@[i as int].label@));
            }
            let ghost clone_view = (doc.id@, doc.text@, spans_view(doc.label@));
            annotate_doc_with(&mut doc, &folded, &names, &ac, cs, Ghost(orig));
            let ghost annotated = doc;
            new_docs.push(doc);
            proof {
                let d0 = self.documents@[i as int];
                assert(new_docs@[i as int] == annotated);
                assert(annotated.id@ == d0.id@);
                assert(annotated.text@ == d0.text@);
                assert(annotated_labels(
                    spans_view(d0.label@),
                    d0.text@,
                    orig,
                    cs,
                    spans_view(annotated.label@),
                ));
                assert(sane_span_list(spans_view(annotated.label@)));
                assert(forall|j: int|
                    0 <= j < i ==> #[trigger] new_docs@[j] == new_docs@.drop_last()[j]);
            }
        }
        let ghost pre_docs = self.documents@;
        self.documents = new_docs;
        proof {
            assert forall|x: int| 0 <= x < self.documents@.len() implies sane_span_list(
                spans_view((#[trigger] self.documents@[x]).label@),
            ) by {
                let ghost d0 = pre_docs[x];
            }
            assert(sane_docs(self.documents@)) by {
                assert forall|x: int| 0 <= x < self.documents@.len() implies sane_spans(
                    #[trigger] self.documents@[x],
                ) by {
                    let ghost d0 = pre_docs[x];
                    assert(sane_span_list(spans_view(self.documents@[x].label@)));
                    assert forall|j: int| 0 <= j < self.documents@[x].label@.len() implies (
                    #[trigger] self.documents@[x].label@[j]).0 <= self.documents@[x].label@[j].1 by {
                        assert(spans_view(self.documents@[x].label@)[j] == span_view(
                            self.documents@[x].label@[j],
                        ));
                    }
                }
            }
        }
        let h = document_hash(&self.documents);
        self.documents_hash = h;
        self.build_label_index();
        self.build_entity_index();
        true
    }
}

/// The catalog after removing the excluded names, in order.
pub open spec fn excluded_filtered(
    ents: Seq<(Seq<char>, Seq<char>)>,
    excludes: Seq<Seq<char>>,
) -> Seq<(Seq<char>, Seq<char>)>
    decreases ents.len(),
{
    if ents.len() == 0 {
        Seq::empty()
    } else if excludes.contains(ents.last().0) {
        excluded_filtered(ents.drop_last(), excludes)
    } else {
        excluded_filtered(ents.drop_last(), excludes).push(ents.last())
    }
}

/// Inserts `id` under `key` in an association index: appended to the
/// existing entry, or as a fresh entry when the key is new.
fn insert_id_for_key(idx: &mut Vec<(String, Vec<String>)>, key: &String, id: &String)
    requires
        keys_unique(old(idx)@),
    ensures
        keys_unique(final (idx)@),
        forall|a: Seq<char>| #[trigger] key_in(final (idx)@, a) == (key_in(old(idx)@, a) || a
            == key@),
        forall|a: Seq<char>, b: Seq<char>| #[trigger] idx_maps(final (idx)@, a, b) == (idx_maps(
            old(idx)@,
            a,
            b,
        ) || (a == key@ && b == id@)),
{
    let pos = find_key(idx, key);
    match pos {
        Some(e) => {
            let ghost pre_idx = idx@;
            let mut entry = idx.remove(e);
            let ghost pre_ids = entry.1@;
            entry.1.push(id.clone());
            idx.insert(e, entry);
            proof {
                assert(idx@.len() == pre_idx.len());
                assert forall|i: int| 0 <= i < idx@.len() && i != e implies idx@[i]
                    == pre_idx[i] by {}
                assert(idx@[e as int].0 == pre_idx[e as int].0);
                assert(idx@[e as int].1@ =~= pre_ids.push(*id));
                assert(keys_unique(idx@));
                assert forall|a: Seq<char>| #[trigger] key_in(idx@, a) == (key_in(pre_idx, a) || a
                    == key@) by {
                    if key_in(idx@, a) {
                        let i = choose|i: int| 0 <= i < idx@.len() && (#[trigger] idx@[i]).0@ == a;
                        assert(pre_idx[i].0@ == a);
                    }
                    if key_in(pre_idx, a) {
                        let i = choose|i: int|
                            0 <= i < pre_idx.len() && (#[trigger] pre_idx[i]).0@ == a;
                        assert(idx@[i].0@ == a);
                    }
                    if a == key@ {
                        assert(idx@[e as int].0@ == a);
                    }
                }
                assert forall|a: Seq<char>, b: Seq<char>| #[trigger] idx_maps(idx@, a, b) == (
                idx_maps(pre_idx, a, b) || (a == key@ && b == id@)) by {
                    if idx_maps(idx@, a, b) {
                        let i = choose|i: int|
                            0 <= i < idx@.len() && (#[trigger] idx@[i]).0@ == a && ids_contain(
                                idx@[i].1@,
                                b,
                            );
                        if i != e {
                            assert(pre_idx[i] == idx@[i]);
                            assert(idx_maps(pre_idx, a, b));
                        } else {
                            let k = choose|k: int|
                                0 <= k < idx@[e as int].1@.len() && (#[trigger] idx@[e as int].1@[k])@
                                    == b;
                            if k < pre_ids.len() {
                                assert(pre_ids[k]@ == b);
                                assert(ids_contain(pre_idx[e as int].1@, b));
                                assert(idx_maps(pre_idx, a, b));
                            } else {
                                assert(b == id@ && a == key@);
                            }
                        }
                    }
                    if idx_maps(pre_idx, a, b) {
                        let i = choose|i: int|
                            0 <= i < pre_idx.len() && (#[trigger] pre_idx[i]).0@ == a
                                && ids_contain(pre_idx[i].1@, b);
                        if i != e {
                            assert(idx@[i] == pre_idx[i]);
                            assert(idx_maps(idx@, a, b));
                        } else {
                            let k = choose|k: int|
                                0 <= k < pre_ids.len() && (#[trigger] pre_ids[k])@ == b;
                            assert(idx@[e as int].1@[k]@ == b);
                            assert(ids_contain(idx@[e as int].1@, b));
                            assert(idx_maps(idx@, a, b));
                        }
                    }
                    if a == key@ && b == id@ {
                        assert(idx@[e as int].0@ == a);
                        assert(idx@[e as int].1@.last()@ == b);
                        assert(ids_contain(idx@[e as int].1@, b));
                        assert(idx_maps(idx@, a, b));
                    }
                }
            }
        },
        None => {
            let ghost pre_idx = idx@;
            let mut ids: Vec<String> = Vec::new();
            ids.push(id.clone());
            idx.push((key.clone(), ids));
            proof {
                assert(idx@.drop_last() =~= pre_idx);
                assert(idx@.last().0@ == key@);
                assert(idx@.last().1@.len() == 1 && idx@.last().1@[0]@ == id@);
                assert(keys_unique(idx@)) by {
                    assert forall|i: int, j: int| 0 <= i < j < idx@.len() implies (
                    #[trigger] idx@[i]).0@ != (#[trigger] idx@[j]).0@ by {
                        if j == idx@.len() - 1 {
                            assert(idx@[i] == pre_idx[i]);
                            assert(!key_in(pre_idx, key@));
                        } else {
                            assert(idx@[i] == pre_idx[i] && idx@[j] == pre_idx[j]);
                        }
                    }
                }
                assert forall|a: Seq<char>| #[trigger] key_in(idx@, a) == (key_in(pre_idx, a) || a
                    == key@) by {
                    if key_in(idx@, a) {
                        let i = choose|i: int| 0 <= i < idx@.len() && (#[trigger] idx@[i]).0@ == a;
                        if i < idx@.len() - 1 {
                            assert(pre_idx[i].0@ == a);
                        }
                    }
                    if key_in(pre_idx, a) {
                        let i = choose|i: int|
                            0 <= i < pre_idx.len() && (#[trigger] pre_idx[i]).0@ == a;
                        assert(idx@[i].0@ == a);
                    }
                    if a == key@ {
                        assert(idx@[idx@.len() - 1].0@ == a);
                    }
                }
                assert forall|a: Seq<char>, b: Seq<char>| #[trigger] idx_maps(idx@, a, b) == (
                idx_maps(pre_idx, a, b) || (a == key@ && b == id@)) by {
                    if idx_maps(idx@, a, b) {
                        let i = choose|i: int|
                            0 <= i < idx@.len() && (#[trigger] idx@[i]).0@ == a && ids_contain(
                                idx@[i].1@,
                                b,
                            );
                        if i < idx@.len() - 1 {
                            assert(pre_idx[i] == idx@[i]);
                            assert(idx_maps(pre_idx, a, b));
                        } else {
                            let k = choose|k: int|
                                0 <= k < idx@[i].1@.len() && (#[trigger] idx@[i].1@[k])@ == b;
                            assert(k == 0);
                            assert(a == key@ && b == id@);
                        }
                    }
                    if idx_maps(pre_idx, a, b) {
                        let i = choose|i: int|
                            0 <= i < pre_idx.len() && (#[trigger] pre_idx[i]).0@ == a
                                && ids_contain(pre_idx[i].1@, b);
                        assert(idx@[i] == pre_idx[i]);
                        assert(idx_maps(idx@, a, b));
                    }
                    if a == key@ && b == id@ {
                        assert(idx@[idx@.len() - 1].0@ == a);
                        assert(ids_contain(idx@[idx@.len() - 1].1@, b));
                        assert(idx_maps(idx@, a, b));
                    }
                }
            }
        },
    }
}

impl Quickner {
    /// Adds a document to the store.  A document whose id is already
    /// present is ignored: the id is content-derived, so this is a
    /// content-deduplication guard, not an error.  Otherwise the document
    /// is appended, entered into the id map, and its id is inserted into
    /// both reverse indices for every one of its spans.
    pub fn add_document(&mut self, document: Document)
        requires
            sane_spans(document),
            keys_unique(old(self).documents_label_index@),
            keys_unique(old(self).documents_entities_index@),
        ensures
            hash_key_in(old(self).documents_hash@, document.id@) ==> *final (self) == *old(self),
            !hash_key_in(old(self).documents_hash@, document.id@) ==> {
                &&& final (self).documents@ == old(self).documents@.push(document)
                &&& final (self).entities == old(self).entities
                &&& final (self).config == old(self).config
                &&& final (self).config_file == old(self).config_file
                &&& final (self).documents_hash@.len() == old(self).documents_hash@.len() + 1
                &&& final (self).documents_hash@.drop_last() == old(self).documents_hash@
                &&& final (self).documents_hash@.last().0@ == document.id@
                &&& doc_view_eq(final (self).documents_hash@.last().1, document)
                &&& (hash_ok(old(self).documents@, old(self).documents_hash@) ==> hash_ok(
                    final (self).documents@,
                    final (self).documents_hash@,
                ))
                &&& (label_index_ok(old(self).documents@, old(self).documents_label_index@)
                    ==> label_index_ok(
                    final (self).documents@,
                    final (self).documents_label_index@,
                ))
                &&& (entity_index_ok(old(self).documents@, old(self).documents_entities_index@)
                    ==> entity_index_ok(
                    final (self).documents@,
                    final (self).documents_entities_index@,
                ))
            },
    {
        let pos = find_hash_key(&self.documents_hash, &document.id);
        if pos.is_some() {
            return ;
        }
        let ghost docs0 = self.documents@;
        let ghost lidx0 = self.documents_label_index@;
        let ghost eidx0 = self.documents_entities_index@;
        let m = document.label.len();
        for j in 0..m
            invariant
                m == document.label@.len(),
                sane_spans(document),
                keys_unique(self.documents_label_index@),
                forall|a: Seq<char>| #[trigger] key_in(self.documents_label_index@, a) == (key_in(
                    lidx0,
                    a,
                ) || exists|jj: int|
                    0 <= jj < j && (#[trigger] document.label@[jj]).2@ == a),
                forall|a: Seq<char>, b: Seq<char>| #[trigger] idx_maps(
                    self.documents_label_index@,
                    a,
                    b,
                ) == (idx_maps(lidx0, a, b) || (b == document.id@ && exists|jj: int|
                    0 <= jj < j && (#[trigger] document.label@[jj]).2@ == a)),
                self.documents == old(self).documents,
                self.entities == old(self).entities,
                self.config == old(self).config,
                self.config_file == old(self).config_file,
                self.documents_hash == old(self).documents_hash,
                self.documents_entities_index == old(self).documents_entities_index,
        {
            insert_id_for_key(&mut self.documents_label_index, &document.label[j].2, &document.id);
            proof {
                assert forall|a: Seq<char>| #[trigger] key_in(self.documents_label_index@, a) == (
                key_in(lidx0, a) || exists|jj: int|
                    0 <= jj < j + 1 && (#[trigger] document.label@[jj]).2@ == a) by {
                    if document.label@[j as int].2@ == a {
                        assert(0 <= (j as int) < j + 1 && document.label@[j as int].2@ == a);
                    }
                }
                assert forall|a: Seq<char>, b: Seq<char>| #[trigger] idx_maps(
                    self.documents_label_index@,
                    a,
                    b,
                ) == (idx_maps(lidx0, a, b) || (b == document.id@ && exists|jj: int|
                    0 <= jj < j + 1 && (#[trigger] document.label@[jj]).2@ == a)) by {
                    if document.label@[j as int].2@ == a && b == document.id@ {
                        assert(0 <= (j as int) < j + 1 && document.label@[j as int].2@ == a);
                    }
                }
            }
        }
        for j in 0..m
            invariant
                m == document.label@.len(),
                sane_spans(document),
                keys_unique(self.documents_entities_index@),
                forall|a: Seq<char>| #[trigger] key_in(self.documents_entities_index@, a) == (
                key_in(eidx0, a) || exists|jj: int|
                    0 <= jj < j && span_key(document.text@, #[trigger] document.label@[jj]) == a),
                forall|a: Seq<char>, b: Seq<char>| #[trigger] idx_maps(
                    self.documents_entities_index@,
                    a,
                    b,
                ) == (idx_maps(eidx0, a, b) || (b == document.id@ && exists|jj: int|
                    0 <= jj < j && span_key(document.text@, #[trigger] document.label@[jj]) == a)),
                self.documents == old(self).documents,
                self.entities == old(self).entities,
                self.config == old(self).config,
                self.config_file == old(self).config_file,
                self.documents_hash == old(self).documents_hash,
                keys_unique(self.documents_label_index@),
                forall|a: Seq<char>| #[trigger] key_in(self.documents_label_index@, a) == (key_in(
                    lidx0,
                    a,
                ) || exists|jj: int|
                    0 <= jj < m && (#[trigger] document.label@[jj]).2@ == a),
                forall|a: Seq<char>, b: Seq<char>| #[trigger] idx_maps(
                    self.documents_label_index@,
                    a,
                    b,
                ) == (idx_maps(lidx0, a, b) || (b == document.id@ && exists|jj: int|
                    0 <= jj < m && (#[trigger] document.label@[jj]).2@ == a)),
        {
            proof {
                assert(document.label@[j as int].0 <= document.label@[j as int].1);
            }
            let key = span_key_string(document.text.as_str(), &document.label[j]);
            insert_id_for_key(&mut self.documents_entities_index, &key, &document.id);
            proof {
                assert forall|a: Seq<char>| #[trigger] key_in(self.documents_entities_index@, a)
                    == (key_in(eidx0, a) || exists|jj: int|
                    0 <= jj < j + 1 && span_key(document.text@, #[trigger] document.label@[jj])
                        == a) by {
                    if span_key(document.text@, document.label@[j as int]) == a {
                        assert(0 <= (j as int) < j + 1 && span_key(
                            document.text@,
                            document.label@[j as int],
                        ) == a);
                    }
                }
                assert forall|a: Seq<char>, b: Seq<char>| #[trigger] idx_maps(
                    self.documents_entities_index@,
                    a,
                    b,
                ) == (idx_maps(eidx0, a, b) || (b == document.id@ && exists|jj: int|
                    0 <= jj < j + 1 && span_key(document.text@, #[trigger] document.label@[jj])
                        == a)) by {
                    if span_key(document.text@, document.label@[j as int]) == a && b
                        == document.id@ {
                        assert(0 <= (j as int) < j + 1 && span_key(
                            document.text@,
                            document.label@[j as int],
                        ) == a);
                    }
                }
            }
        }
        self.documents_hash.push((document.id.clone(), document.clone()));
        let ghost doc_snapshot = document;
        self.documents.push(document);
        proof {
            let docs1 = self.documents@;
            let h0 = old(self).documents_hash@;
            let h1 = self.documents_hash@;
            let d = doc_snapshot;
            assert(docs1 =~= docs0.push(d));
            assert(h1.drop_last() =~= h0);
            assert(hash_ok(docs0, h0) ==> hash_ok(docs1, h1)) by {
                if hash_ok(docs0, h0) {
                    assert(hash_keys_unique(h1)) by {
                        assert forall|i: int, j: int| 0 <= i < j < h1.len() implies (
                        #[trigger] h1[i]).0@ != (#[trigger] h1[j]).0@ by {
                            if j == h1.len() - 1 {
                                assert(h1[i] == h0[i]);
                                assert(!hash_key_in(h0, d.id@));
                            } else {
                                assert(h1[i] == h0[i] && h1[j] == h0[j]);
                            }
                        }
                    }
                    assert forall|k: int| 0 <= k < docs1.len() implies hash_key_in(
                        h1,
                        (#[trigger] docs1[k]).id@,
                    ) by {
                        if k < docs0.len() {
                            assert(docs1[k] == docs0[k]);
                            assert(hash_key_in(h0, docs0[k].id@));
                            let i = choose|i: int|
                                0 <= i < h0.len() && (#[trigger] h0[i]).0@ == docs0[k].id@;
                            assert(h1[i].0@ == docs1[k].id@);
                        } else {
                            assert(h1[h1.len() - 1].0@ == docs1[k].id@);
                        }
                    }
                    assert forall|i: int| 0 <= i < h1.len() implies last_index_of(
                        docs1,
                        (#[trigger] h1[i]).0@,
                    ) >= 0 && doc_view_eq(h1[i].1, docs1[last_index_of(docs1, h1[i].0@)]) by {
                        assert(docs1.drop_last() =~= docs0);
                        assert(docs1.last() == d);
                        if i == h1.len() - 1 {
                            assert(last_index_of(docs1, h1[i].0@) == docs0.len());
                            assert(docs1[docs0.len() as int] == d);
                        } else {
                            assert(h1[i] == h0[i]);
                            assert(h1[i].0@ != d.id@) by {
                                if h1[i].0@ == d.id@ {
                                    assert(hash_key_in(h0, d.id@));
                                }
                            }
                            assert(last_index_of(docs1, h1[i].0@) == last_index_of(
                                docs0,
                                h1[i].0@,
                            ));
                            let k = last_index_of(docs0, h1[i].0@);
                            lemma_last_index_of(docs0, h1[i].0@);
                            assert(doc_view_eq(h0[i].1, docs0[k]));
                            assert(docs1[k] == docs0[k]);
                        }
                    }
                }
            }
            let lidx1 = self.documents_label_index@;
            assert(label_index_ok(docs0, lidx0) ==> label_index_ok(docs1, lidx1)) by {
                if label_index_ok(docs0, lidx0) {
                    assert forall|a: Seq<char>, b: Seq<char>| #[trigger] doc_has_label(docs1, a, b)
                        == (doc_has_label(docs0, a, b) || (b == d.id@ && has_label_span(
                        d,
                        a,
                    ))) by {
                        if doc_has_label(docs1, a, b) {
                            let i = choose|i: int|
                                0 <= i < docs1.len() && (#[trigger] docs1[i]).id@ == b
                                    && has_label_span(docs1[i], a);
                            if i < docs0.len() {
                                assert(docs0[i] == docs1[i]);
                                assert(doc_has_label(docs0, a, b));
                            } else {
                                assert(docs1[i] == d);
                            }
                        }
                        if doc_has_label(docs0, a, b) {
                            let i = choose|i: int|
                                0 <= i < docs0.len() && (#[trigger] docs0[i]).id@ == b
                                    && has_label_span(docs0[i], a);
                            assert(docs1[i] == docs0[i]);
                            assert(doc_has_label(docs1, a, b));
                        }
                        if b == d.id@ && has_label_span(d, a) {
                            assert(docs1[docs0.len() as int] == d);
                            assert(doc_has_label(docs1, a, b));
                        }
                    }
                    assert forall|a: Seq<char>| #[trigger] key_in(lidx1, a) == (exists|b: Seq<char>|
                        doc_has_label(docs1, a, b)) by {
                        if key_in(lidx1, a) {
                            if key_in(lidx0, a) {
                                let b = choose|b: Seq<char>| doc_has_label(docs0, a, b);
                                assert(doc_has_label(docs1, a, b));
                            } else {
                                let jj = choose|jj: int|
                                    0 <= jj < d.label@.len() && (#[trigger] d.label@[jj]).2@ == a;
                                assert(has_label_span(d, a));
                                assert(doc_has_label(docs1, a, d.id@));
                            }
                        }
                        if exists|b: Seq<char>| doc_has_label(docs1, a, b) {
                            let b = choose|b: Seq<char>| doc_has_label(docs1, a, b);
                            if doc_has_label(docs0, a, b) {
                                assert(key_in(lidx0, a));
                            } else {
                                assert(has_label_span(d, a));
                                let jj = choose|jj: int|
                                    0 <= jj < d.label@.len() && (#[trigger] d.label@[jj]).2@ == a;
                                assert(key_in(lidx1, a));
                            }
                        }
                    }
                    assert forall|a: Seq<char>, b: Seq<char>| #[trigger] idx_maps(lidx1, a, b)
                        == doc_has_label(docs1, a, b) by {
                        if b == d.id@ && has_label_span(d, a) {
                            let jj = choose|jj: int|
                                0 <= jj < d.label@.len() && (#[trigger] d.label@[jj]).2@ == a;
                        }
                    }
                }
            }
            let eidx1 = self.documents_entities_index@;
            assert(entity_index_ok(docs0, eidx0) ==> entity_index_ok(docs1, eidx1)) by {
                if entity_index_ok(docs0, eidx0) {
                    assert forall|a: Seq<char>, b: Seq<char>| #[trigger] doc_has_entity_key(
                        docs1,
                        a,
                        b,
                    ) == (doc_has_entity_key(docs0, a, b) || (b == d.id@ && exists|jj: int|
                        0 <= jj < d.label@.len() && span_key(d.text@, #[trigger] d.label@[jj])
                            == a)) by {
                        if doc_has_entity_key(docs1, a, b) {
                            let (i, y): (int, int) = choose|i: int, y: int|
                                0 <= i < docs1.len() && 0 <= y < docs1[i].label@.len() && (
                                #[trigger] docs1[i]).id@ == b && span_key(
                                    docs1[i].text@,
                                    #[trigger] docs1[i].label@[y],
                                ) == a;
                            if i < docs0.len() {
                                assert(docs0[i] == docs1[i]);
                                assert(doc_has_entity_key(docs0, a, b));
                            } else {
                                assert(docs1[i] == d);
                            }
                        }
                        if doc_has_entity_key(docs0, a, b) {
                            let (i, y): (int, int) = choose|i: int, y: int|
                                0 <= i < docs0.len() && 0 <= y < docs0[i].label@.len() && (
                                #[trigger] docs0[i]).id@ == b && span_key(
                                    docs0[i].text@,
                                    #[trigger] docs0[i].label@[y],
                                ) == a;
                            assert(docs1[i] == docs0[i]);
                            assert(doc_has_entity_key(docs1, a, b));
                        }
                        if b == d.id@ && exists|jj: int|
                            0 <= jj < d.label@.len() && span_key(d.text@, #[trigger] d.label@[jj])
                                == a {
                            let jj = choose|jj: int|
                                0 <= jj < d.label@.len() && span_key(
                                    d.text@,
                                    #[trigger] d.label@[jj],
                                ) == a;
                            assert(docs1[docs0.len() as int] == d);
                            assert(doc_has_entity_key(docs1, a, b));
                        }
                    }
                    assert forall|a: Seq<char>| #[trigger] key_in(eidx1, a) == (exists|b: Seq<char>|
                        doc_has_entity_key(docs1, a, b)) by {
                        if key_in(eidx1, a) {
                            if key_in(eidx0, a) {
                                let b = choose|b: Seq<char>| doc_has_entity_key(docs0, a, b);
                                assert(doc_has_entity_key(docs1, a, b));
                            } else {
                                assert(doc_has_entity_key(docs1, a, d.id@));
                            }
                        }
                        if exists|b: Seq<char>| doc_has_entity_key(docs1, a, b) {
                            let b = choose|b: Seq<char>| doc_has_entity_key(docs1, a, b);
                            if doc_has_entity_key(docs0, a, b) {
                                assert(key_in(eidx0, a));
                            } else {
                                assert(key_in(eidx1, a));
                            }
                        }
                    }
                    assert forall|a: Seq<char>, b: Seq<char>| #[trigger] idx_maps(eidx1, a, b)
                        == doc_has_entity_key(docs1, a, b) by {}
                }
            }
        }
    }
}

impl Quickner {
    /// Adds a document built from raw text: the id is the content hash of
    /// the text and the span list starts empty.  The document list always
    /// grows; in the id map the new document replaces any earlier one with
    /// the same id, which is the last-wins discipline the map keeps.  The
    /// reverse indices are untouched, since the new document has no spans.
    pub fn add_document_from_string(&mut self, text: &str)
        ensures
            final (self).documents@.len() == old(self).documents@.len() + 1,
            final (self).documents@.drop_last() == old(self).documents@,
            final (self).documents@.last().id@ == crate::hashing::id_of(text@),
            final (self).documents@.last().text@ == text@,
            final (self).documents@.last().label@.len() == 0,
            hash_ok(old(self).documents@, old(self).documents_hash@) ==> hash_ok(
                final (self).documents@,
                final (self).documents_hash@,
            ),
            final (self).entities == old(self).entities,
            final (self).config == old(self).config,
            final (self).config_file == old(self).config_file,
            final (self).documents_label_index == old(self).documents_label_index,
            final (self).documents_entities_index == old(self).documents_entities_index,
    {
        let document = Document::from_string(text.to_owned());
        let ghost docs0 = self.documents@;
        let ghost h0 = self.documents_hash@;
        let ghost d = document;
        let pos = find_hash_key(&self.documents_hash, &document.id);
        match pos {
            Some(e) => {
                let _old_entry = self.documents_hash.remove(e);
                self.documents_hash.insert(e, (document.id.clone(), document.clone()));
                proof {
                    assert(self.documents_hash@.len() == h0.len());
                    assert(forall|i: int|
                        0 <= i < h0.len() && i != e ==> #[trigger] self.documents_hash@[i]
                            == h0[i]);
                    assert(self.documents_hash@[e as int].0@ == d.id@);
                    assert(doc_view_eq(self.documents_hash@[e as int].1, d));
                }
            },
            None => {
                self.documents_hash.push((document.id.clone(), document.clone()));
                proof {
                    assert(self.documents_hash@.drop_last() =~= h0);
                    assert(self.documents_hash@.last().0@ == d.id@);
                    assert(doc_view_eq(self.documents_hash@.last().1, d));
                }
            },
        }
        self.documents.push(document);
        proof {
            let docs1 = self.documents@;
            let h1 = self.documents_hash@;
            assert(docs1.drop_last() =~= docs0);
            assert(docs1.last() == d);
            assert(hash_ok(docs0, h0) ==> hash_ok(docs1, h1)) by {
                if hash_ok(docs0, h0) {
                    if hash_key_in(h0, d.id@) {
                        let e = choose|e: int| 0 <= e < h0.len() && (#[trigger] h0[e]).0@ == d.id@;
                        assert(h1.len() == h0.len());
                        assert(hash_keys_unique(h1)) by {
                            assert forall|i: int, j: int| 0 <= i < j < h1.len() implies (
                            #[trigger] h1[i]).0@ != (#[trigger] h1[j]).0@ by {
                                assert(h1[i].0@ == h0[i].0@ || (h1[i].0@ == d.id@ && h0[i].0@
                                    == d.id@));
                                assert(h1[j].0@ == h0[j].0@ || (h1[j].0@ == d.id@ && h0[j].0@
                                    == d.id@));
                            }
                        }
                    } else {
                        assert(hash_keys_unique(h1)) by {
                            assert forall|i: int, j: int| 0 <= i < j < h1.len() implies (
                            #[trigger] h1[i]).0@ != (#[trigger] h1[j]).0@ by {
                                if j == h1.len() - 1 {
                                    assert(h1[i] == h0[i]);
                                    assert(!hash_key_in(h0, d.id@));
                                } else {
                                    assert(h1[i] == h0[i] && h1[j] == h0[j]);
                                }
                            }
                        }
                    }
                    assert forall|k: int| 0 <= k < docs1.len() implies hash_key_in(
                        h1,
                        (#[trigger] docs1[k]).id@,
                    ) by {
                        if k < docs0.len() {
                            assert(docs1[k] == docs0[k]);
                            assert(hash_key_in(h0, docs0[k].id@));
                            let i = choose|i: int|
                                0 <= i < h0.len() && (#[trigger] h0[i]).0@ == docs0[k].id@;
                            assert(h1[i].0@ == h0[i].0@ || h1[i].0@ == d.id@);
                            if h1[i].0@ == docs1[k].id@ {
                            } else {
                                assert(h0[i].0@ == d.id@);
                                assert(hash_key_in(h1, d.id@)) by {
                                    if hash_key_in(h0, d.id@) {
                                        let e = choose|e: int|
                                            0 <= e < h0.len() && (#[trigger] h0[e]).0@ == d.id@;
                                        assert(h1[e].0@ == d.id@);
                                    }
                                }
                            }
                        } else {
                            assert(hash_key_in(h1, d.id@)) by {
                                if hash_key_in(h0, d.id@) {
                                    let e = choose|e: int|
                                        0 <= e < h0.len() && (#[trigger] h0[e]).0@ == d.id@;
                                    assert(h1[e].0@ == d.id@);
                                } else {
                                    assert(h1[h1.len() - 1].0@ == d.id@);
                                }
                            }
                        }
                    }
                    assert forall|i: int| 0 <= i < h1.len() implies last_index_of(
                        docs1,
                        (#[trigger] h1[i]).0@,
                    ) >= 0 && doc_view_eq(h1[i].1, docs1[last_index_of(docs1, h1[i].0@)]) by {
                        if h1[i].0@ == d.id@ {
                            assert(last_index_of(docs1, h1[i].0@) == docs0.len());
                            assert(docs1[docs0.len() as int] == d);
                            assert(doc_view_eq(h1[i].1, d));
                        } else {
                            assert(h1[i] == h0[i]);
                            assert(last_index_of(docs1, h1[i].0@) == last_index_of(
                                docs0,
                                h1[i].0@,
                            ));
                            let k = last_index_of(docs0, h1[i].0@);
                            lemma_last_index_of(docs0, h1[i].0@);
                            assert(doc_view_eq(h0[i].1, docs0[k]));
                            assert(docs1[k] == docs0[k]);
                        }
                    }
                }
            }
        }
    }

    /// Adds a document from raw bytes.  Bytes that are not valid UTF-8
    /// are rejected and the store is left untouched, so one malformed
    /// record never aborts a run; valid bytes are decoded and added as
    /// [`Quickner::add_document_from_string`] would.
    pub fn add_document_from_bytes(&mut self, bytes: &Vec<u8>) -> (added: bool)
        ensures
            added == vstd::utf8::valid_utf8(bytes@),
            !added ==> *final (self) == *old(self),
            added ==> {
                let text = vstd::utf8::decode_utf8(bytes@);
                &&& final (self).documents@.len() == old(self).documents@.len() + 1
                &&& final (self).documents@.drop_last() == old(self).documents@
                &&& final (self).documents@.last().id@ == crate::hashing::id_of(text)
                &&& final (self).documents@.last().text@ == text
                &&& final (self).documents@.last().label@.len() == 0
                &&& (hash_ok(old(self).documents@, old(self).documents_hash@) ==> hash_ok(
                    final (self).documents@,
                    final (self).documents_hash@,
                ))
                &&& final (self).entities == old(self).entities
                &&& final (self).config == old(self).config
                &&& final (self).config_file == old(self).config_file
                &&& final (self).documents_label_index == old(self).documents_label_index
                &&& final (self).documents_entities_index == old(self).documents_entities_index
            },
    {
        match crate::encoding::utf8_to_string(bytes) {
            Some(text) => {
                self.add_document_from_string(text.as_str());
                true
            },
            None => false,
        }
    }
}

/// A document list split into chunks of `c` in order; the last chunk may
/// be shorter.
pub open spec fn chunked<T>(s: Seq<T>, c: int) -> Seq<Seq<T>>
    recommends
        c > 0,
    decreases s.len(),
    when c > 0
{
    if s.len() == 0 {
        Seq::empty()
    } else if s.len() <= c {
        seq![s]
    } else {
        seq![s.take(c)] + chunked(s.skip(c), c)
    }
}

/// The spaCy-style reading of a document: its text and its spans.
pub open spec fn spacy_doc_view(d: Document) -> (Seq<char>, Seq<(int, int, Seq<char>)>) {
    (d.text@, spans_view(d.label@))
}

/// The reading of one exported pair.
pub open spec fn spacy_pair_view(p: (String, crate::models::SpacyEntity)) -> (
    Seq<char>,
    Seq<(int, int, Seq<char>)>,
) {
    (p.0@, spans_view(p.1.entity@))
}

impl Quickner {
    /// The corpus as spaCy-style `(text, annotations)` pairs, split into
    /// chunks of the given size; without a size, everything is one chunk.
    pub fn spacy(&self, chunks: Option<usize>) -> (r: Vec<Vec<(String, crate::models::SpacyEntity)>>)
        requires
            chunks matches Some(c) ==> c > 0,
            chunks is None ==> self.documents@.len() > 0,
        ensures
            ({
                let c = match chunks {
                    Some(c) => c as int,
                    None => self.documents@.len() as int,
                };
                r@.map_values(
                    |ch: Vec<(String, crate::models::SpacyEntity)>|
                        ch@.map_values(|p: (String, crate::models::SpacyEntity)| spacy_pair_view(p)),
                ) == chunked(self.documents@.map_values(|d: Document| spacy_doc_view(d)), c)
            }),
    {
        let n = self.documents.len();
        let mut pairs: Vec<(String, crate::models::SpacyEntity)> = Vec::new();
        let ghost all = self.documents@.map_values(|d: Document| spacy_doc_view(d));
        for i in 0..n
            invariant
                n == self.documents@.len(),
                all == self.documents@.map_values(|d: Document| spacy_doc_view(d)),
                pairs@.len() == i,
                pairs@.map_values(|p: (String, crate::models::SpacyEntity)| spacy_pair_view(p))
                    == all.take(i as int),
        {
            let ent = crate::models::SpacyEntity {
                entity: crate::document::clone_spans(&self.documents[i].label),
            };
            pairs.push((self.documents[i].text.clone(), ent));
            proof {
                assert(pairs@.map_values(
                    |p: (String, crate::models::SpacyEntity)| spacy_pair_view(p),
                ) =~= all.take(i + 1));
            }
        }
        proof {
            assert(all.take(n as int) =~= all);
        }
        let c = match chunks {
            Some(c) => c,
            None => n,
        };
        let ghost pv = pairs@.map_values(
            |p: (String, crate::models::SpacyEntity)| spacy_pair_view(p),
        );
        let mut r: Vec<Vec<(String, crate::models::SpacyEntity)>> = Vec::new();
        let mut i: usize = 0;
        proof {
            assert(pv.skip(0) =~= pv);
            assert(r@.map_values(
                |ch: Vec<(String, crate::models::SpacyEntity)>|
                    ch@.map_values(|p: (String, crate::models::SpacyEntity)| spacy_pair_view(p)),
            ) + chunked(pv.skip(0), c as int) =~= chunked(pv, c as int));
        }
        while i < n
            invariant
                n == pairs@.len(),
                c > 0,
                i <= n,
                pv == pairs@.map_values(
                    |p: (String, crate::models::SpacyEntity)| spacy_pair_view(p),
                ),
                r@.map_values(
                    |ch: Vec<(String, crate::models::SpacyEntity)>|
                        ch@.map_values(
                            |p: (String, crate::models::SpacyEntity)| spacy_pair_view(p),
                        ),
                ) + chunked(pv.skip(i as int), c as int) == chunked(pv, c as int),
                i < n ==> pv.skip(i as int).len() > 0,
            decreases n - i,
        {
            let end = if n - i <= c {
                n
            } else {
                i + c
            };
            let mut chunk: Vec<(String, crate::models::SpacyEntity)> = Vec::new();
            for j in i..end
                invariant
                    i <= j <= end <= n,
                    n == pairs@.len(),
                    pv == pairs@.map_values(
                        |p: (String, crate::models::SpacyEntity)| spacy_pair_view(p),
                    ),
                    chunk@.map_values(
                        |p: (String, crate::models::SpacyEntity)| spacy_pair_view(p),
                    ) == pv.subrange(i as int, j as int),
            {
                let ent = crate::models::SpacyEntity {
                    entity: crate::document::clone_spans(&pairs[j].1.entity),
                };
                chunk.push((pairs[j].0.clone(), ent));
                proof {
                    assert(pv[j as int] == spacy_pair_view(pairs@[j as int]));
                    assert(spacy_pair_view(chunk@.last()) == spacy_pair_view(pairs@[j as int]));
                    assert(chunk@.drop_last().map_values(
                        |p: (String, crate::models::SpacyEntity)| spacy_pair_view(p),
                    ) == pv.subrange(i as int, j as int));
                    assert(chunk@.map_values(
                        |p: (String, crate::models::SpacyEntity)| spacy_pair_view(p),
                    ) =~= chunk@.drop_last().map_values(
                        |p: (String, crate::models::SpacyEntity)| spacy_pair_view(p),
                    ).push(spacy_pair_view(chunk@.last())));
                    assert(chunk@.map_values(
                        |p: (String, crate::models::SpacyEntity)| spacy_pair_view(p),
                    ) =~= pv.subrange(i as int, j + 1));
                }
            }
            let ghost pre_r = r@;
            r.push(chunk);
            proof {
                let f = |ch: Vec<(String, crate::models::SpacyEntity)>|
                    ch@.map_values(|p: (String, crate::models::SpacyEntity)| spacy_pair_view(p));
                let rest = pv.skip(i as int);
                assert(rest.len() == n - i);
                if n - i <= c {
                    assert(rest.subrange(0, rest.len() as int) =~= rest);
                    assert(pv.subrange(i as int, end as int) =~= rest);
                    assert(chunked(rest, c as int) =~= seq![rest]);
                } else {
                    assert(pv.subrange(i as int, end as int) =~= rest.take(c as int));
                    assert(pv.skip(end as int) =~= rest.skip(c as int));
                    assert(chunked(rest, c as int) =~= seq![rest.take(c as int)] + chunked(
                        rest.skip(c as int),
                        c as int,
                    ));
                }
                assert(r@.map_values(f) =~= pre_r.map_values(f).push(
                    pv.subrange(i as int, end as int),
                ));
                assert(r@.map_values(f) + chunked(pv.skip(end as int), c as int) =~= chunked(
                    pv,
                    c as int,
                ));
            }
            i = end;
        }
        proof {
            assert(pv.skip(n as int) =~= Seq::<(Seq<char>, Seq<(int, int, Seq<char>)>)>::empty());
            assert(chunked(pv.skip(n as int), c as int) =~= Seq::<
                Seq<(Seq<char>, Seq<(int, int, Seq<char>)>)>,
            >::empty());
            let f = |ch: Vec<(String, crate::models::SpacyEntity)>|
                ch@.map_values(|p: (String, crate::models::SpacyEntity)| spacy_pair_view(p));
            assert(r@.map_values(f) =~= r@.map_values(f) + chunked(pv.skip(n as int), c as int));
        }
        r
    }
}

/// Whether the document list holds a document with the given id.
pub open spec fn docs_have_id(rs: Seq<Document>, b: Seq<char>) -> bool {
    exists|j: int| 0 <= j < rs.len() && (#[trigger] rs[j]).id@ == b
}

/// The stored documents for a list of ids, deduplicated by id: one
/// document per distinct id, resolved through the id map.
fn resolve_unique_docs(
    docs: &Vec<Document>,
    hash: &Vec<(String, Document)>,
    ids: &Vec<String>,
) -> (r: Vec<Document>)
    requires
        hash_ok(docs@, hash@),
        forall|k: int| 0 <= k < ids@.len() ==> hash_key_in(hash@, (#[trigger] ids@[k])@),
    ensures
        forall|b: Seq<char>| #[trigger] docs_have_id(r@, b) == ids_contain(ids@, b),
        forall|i: int, j: int| 0 <= i < j < r@.len() ==> (#[trigger] r@[i]).id@ != (
        #[trigger] r@[j]).id@,
        forall|j: int|
            0 <= j < r@.len() ==> doc_view_eq(
                #[trigger] r@[j],
                docs@[last_index_of(docs@, r@[j].id@)],
            ),
{
    let m = ids.len();
    let mut r: Vec<Document> = Vec::new();
    for k in 0..m
        invariant
            m == ids@.len(),
            hash_ok(docs@, hash@),
            forall|x: int| 0 <= x < m ==> hash_key_in(hash@, (#[trigger] ids@[x])@),
            forall|j: int|
                0 <= j < r@.len() ==> ids_contain(ids@.take(k as int), (#[trigger] r@[j]).id@),
            forall|x: int| 0 <= x < k ==> docs_have_id(r@, (#[trigger] ids@[x])@),
            forall|i: int, j: int| 0 <= i < j < r@.len() ==> (#[trigger] r@[i]).id@ != (
            #[trigger] r@[j]).id@,
            forall|j: int|
                0 <= j < r@.len() ==> doc_view_eq(
                    #[trigger] r@[j],
                    docs@[last_index_of(docs@, r@[j].id@)],
                ),
    {
        let id = &ids[k];
        let mut seen = false;
        let rn = r.len();
        for j in 0..rn
            invariant
                rn == r@.len(),
                k < m,
                m == ids@.len(),
                id == ids@[k as int],
                seen == exists|x: int| 0 <= x < j && (#[trigger] r@[x]).id@ == id@,
        {
            if r[j].id == *id {
                proof {
                    assert(r@[j as int].id@ == id@);
                }
                seen = true;
            }
        }
        proof {
            assert(seen == exists|x: int| 0 <= x < r@.len() && (#[trigger] r@[x]).id@ == id@);
        }
        if !seen {
            proof {
                assert(hash_key_in(hash@, id@)) by {
                    assert(ids@[k as int]@ == id@);
                }
            }
            let hi = match find_hash_key(hash, id) {
                Some(hi) => hi,
                None => {
                    proof {
                        assert(false);
                    }
                    unreached()
                },
            };
            let doc = hash[hi].1.clone();
            let ghost pre_r = r@;
            proof {
                assert(last_index_of(docs@, id@) >= 0 && doc_view_eq(
                    hash@[hi as int].1,
                    docs@[last_index_of(docs@, id@)],
                ));
                lemma_last_index_of(docs@, id@);
                assert(doc.id@ == docs@[last_index_of(docs@, id@)].id@);
                assert(doc.id@ == id@);
            }
            r.push(doc);
            proof {
                assert(r@.drop_last() =~= pre_r);
                assert(r@.last().id@ == id@);
                assert forall|j: int| 0 <= j < r@.len() implies ids_contain(
                    ids@.take(k + 1),
                    (#[trigger] r@[j]).id@,
                ) by {
                    if j < r@.len() - 1 {
                        assert(r@[j] == pre_r[j]);
                        assert(ids_contain(ids@.take(k as int), pre_r[j].id@));
                        let x = choose|x: int|
                            0 <= x < k && (#[trigger] ids@.take(k as int)[x])@ == pre_r[j].id@;
                        assert(ids@.take(k + 1)[x]@ == r@[j].id@);
                    } else {
                        assert(ids@.take(k + 1)[k as int]@ == r@[j].id@);
                    }
                }
                assert forall|x: int| 0 <= x < k + 1 implies docs_have_id(
                    r@,
                    (#[trigger] ids@[x])@,
                ) by {
                    if x < k {
                        assert(docs_have_id(pre_r, ids@[x]@));
                        let j = choose|j: int|
                            0 <= j < pre_r.len() && (#[trigger] pre_r[j]).id@ == ids@[x]@;
                        assert(r@[j].id@ == ids@[x]@);
                    } else {
                        assert(r@[r@.len() - 1].id@ == ids@[x]@);
                    }
                }
                assert forall|i: int, j: int| 0 <= i < j < r@.len() implies (
                #[trigger] r@[i]).id@ != (#[trigger] r@[j]).id@ by {
                    if j == r@.len() - 1 {
                        assert(r@[i] == pre_r[i]);
                    } else {
                        assert(r@[i] == pre_r[i] && r@[j] == pre_r[j]);
                    }
                }
                assert forall|j: int| 0 <= j < r@.len() implies doc_view_eq(
                    #[trigger] r@[j],
                    docs@[last_index_of(docs@, r@[j].id@)],
                ) by {
                    if j < r@.len() - 1 {
                        assert(r@[j] == pre_r[j]);
                        assert(doc_view_eq(pre_r[j], docs@[last_index_of(docs@, pre_r[j].id@)]));
                    } else {
                        assert(doc_view_eq(r@[j], docs@[last_index_of(docs@, id@)]));
                    }
                }
            }
        } else {
            proof {
                assert forall|j: int| 0 <= j < r@.len() implies ids_contain(
                    ids@.take(k + 1),
                    (#[trigger] r@[j]).id@,
                ) by {
                    assert(ids_contain(ids@.take(k as int), r@[j].id@));
                    let x = choose|x: int|
                        0 <= x < k && (#[trigger] ids@.take(k as int)[x])@ == r@[j].id@;
                    assert(ids@.take(k + 1)[x]@ == r@[j].id@);
                }
                assert forall|x: int| 0 <= x < k + 1 implies docs_have_id(
                    r@,
                    (#[trigger] ids@[x])@,
                ) by {
                    if x == k {
                        let j = choose|j: int|
                            0 <= j < r@.len() && (#[trigger] r@[j]).id@ == id@;
                        assert(docs_have_id(r@, ids@[x]@));
                    }
                }
            }
        }
    }
    proof {
        assert(ids@.take(m as int) =~= ids@);
        assert forall|b: Seq<char>| #[trigger] docs_have_id(r@, b) == ids_contain(ids@, b) by {
            if docs_have_id(r@, b) {
                let j = choose|j: int| 0 <= j < r@.len() && (#[trigger] r@[j]).id@ == b;
                assert(ids_contain(ids@.take(m as int), r@[j].id@));
            }
            if ids_contain(ids@, b) {
                let x = choose|x: int| 0 <= x < ids@.len() && (#[trigger] ids@[x])@ == b;
                assert(docs_have_id(r@, ids@[x]@));
            }
        }
    }
    r
}

impl Quickner {
    /// The documents carrying at least one span with the given label:
    /// index lookup, resolved through the id map, deduplicated by id.  An
    /// absent key yields the empty list.
    pub fn find_documents_by_label(&self, label: &str) -> (r: Vec<Document>)
        requires
            hash_ok(self.documents@, self.documents_hash@),
            label_index_ok(self.documents@, self.documents_label_index@),
        ensures
            forall|b: Seq<char>| #[trigger] docs_have_id(r@, b) == doc_has_label(
                self.documents@,
                label@,
                b,
            ),
            forall|i: int, j: int| 0 <= i < j < r@.len() ==> (#[trigger] r@[i]).id@ != (
            #[trigger] r@[j]).id@,
            forall|j: int|
                0 <= j < r@.len() ==> doc_view_eq(
                    #[trigger] r@[j],
                    self.documents@[last_index_of(self.documents@, r@[j].id@)],
                ),
    {
        let key = label.to_owned();
        let pos = find_key(&self.documents_label_index, &key);
        let e = match pos {
            Some(e) => e,
            None => {
                let r: Vec<Document> = Vec::new();
                proof {
                    assert forall|b: Seq<char>| #[trigger] docs_have_id(r@, b) == doc_has_label(
                        self.documents@,
                        label@,
                        b,
                    ) by {
                        if doc_has_label(self.documents@, label@, b) {
                            assert(key_in(self.documents_label_index@, label@));
                        }
                        if docs_have_id(r@, b) {
                            let j = choose|j: int|
                                0 <= j < r@.len() && (#[trigger] r@[j]).id@ == b;
                        }
                    }
                }
                return r;
            },
        };
        let ghost lidx = self.documents_label_index@;
        let ghost entry_ids = lidx[e as int].1@;
        proof {
            assert forall|k: int| 0 <= k < entry_ids.len() implies hash_key_in(
                self.documents_hash@,
                (#[trigger] entry_ids[k])@,
            ) by {
                assert(ids_contain(entry_ids, entry_ids[k]@));
                assert(idx_maps(lidx, label@, entry_ids[k]@)) by {
                    assert(lidx[e as int].0@ == label@ && ids_contain(entry_ids, entry_ids[k]@));
                }
                assert(doc_has_label(self.documents@, label@, entry_ids[k]@));
                let di = choose|di: int|
                    0 <= di < self.documents@.len() && (#[trigger] self.documents@[di]).id@
                        == entry_ids[k]@ && has_label_span(self.documents@[di], label@);
                assert(hash_key_in(self.documents_hash@, self.documents@[di].id@));
            }
        }
        let r = resolve_unique_docs(
            &self.documents,
            &self.documents_hash,
            &self.documents_label_index[e].1,
        );
        proof {
            assert forall|b: Seq<char>| #[trigger] docs_have_id(r@, b) == doc_has_label(
                self.documents@,
                label@,
                b,
            ) by {
                assert(docs_have_id(r@, b) == ids_contain(entry_ids, b));
                if ids_contain(entry_ids, b) {
                    assert(idx_maps(lidx, label@, b)) by {
                        assert(lidx[e as int].0@ == label@ && ids_contain(entry_ids, b));
                    }
                }
                if doc_has_label(self.documents@, label@, b) {
                    assert(idx_maps(lidx, label@, b));
                    let i = choose|i: int|
                        0 <= i < lidx.len() && (#[trigger] lidx[i]).0@ == label@ && ids_contain(
                            lidx[i].1@,
                            b,
                        );
                    assert(i == e);
                    assert(ids_contain(entry_ids, b));
                }
            }
        }
        r
    }

    /// The documents containing the given text as an annotated span
    /// (compared lowercased): index lookup, resolved through the id map,
    /// deduplicated by id.  An absent key yields the empty list.
    pub fn find_documents_by_entity(&self, text: &str) -> (r: Vec<Document>)
        requires
            hash_ok(self.documents@, self.documents_hash@),
            entity_index_ok(self.documents@, self.documents_entities_index@),
        ensures
            forall|b: Seq<char>| #[trigger] docs_have_id(r@, b) == doc_has_entity_key(
                self.documents@,
                lower_of(text@),
                b,
            ),
            forall|i: int, j: int| 0 <= i < j < r@.len() ==> (#[trigger] r@[i]).id@ != (
            #[trigger] r@[j]).id@,
            forall|j: int|
                0 <= j < r@.len() ==> doc_view_eq(
                    #[trigger] r@[j],
                    self.documents@[last_index_of(self.documents@, r@[j].id@)],
                ),
    {
        let key = to_lowercase(text);
        let pos = find_key(&self.documents_entities_index, &key);
        let e = match pos {
            Some(e) => e,
            None => {
                let r: Vec<Document> = Vec::new();
                proof {
                    assert forall|b: Seq<char>| #[trigger] docs_have_id(r@, b)
                        == doc_has_entity_key(self.documents@, lower_of(text@), b) by {
                        if doc_has_entity_key(self.documents@, lower_of(text@), b) {
                            assert(key_in(self.documents_entities_index@, lower_of(text@)));
                        }
                        if docs_have_id(r@, b) {
                            let j = choose|j: int|
                                0 <= j < r@.len() && (#[trigger] r@[j]).id@ == b;
                        }
                    }
                }
                return r;
            },
        };
        let ghost eidx = self.documents_entities_index@;
        let ghost entry_ids = eidx[e as int].1@;
        proof {
            assert forall|k: int| 0 <= k < entry_ids.len() implies hash_key_in(
                self.documents_hash@,
                (#[trigger] entry_ids[k])@,
            ) by {
                assert(ids_contain(entry_ids, entry_ids[k]@));
                assert(idx_maps(eidx, lower_of(text@), entry_ids[k]@)) by {
                    assert(eidx[e as int].0@ == lower_of(text@) && ids_contain(
                        entry_ids,
                        entry_ids[k]@,
                    ));
                }
                assert(doc_has_entity_key(self.documents@, lower_of(text@), entry_ids[k]@));
                let (di, dj): (int, int) = choose|di: int, dj: int|
                    0 <= di < self.documents@.len() && 0 <= dj < self.documents@[di].label@.len()
                        && (#[trigger] self.documents@[di]).id@ == entry_ids[k]@ && span_key(
                        self.documents@[di].text@,
                        #[trigger] self.documents@[di].label@[dj],
                    ) == lower_of(text@);
                assert(hash_key_in(self.documents_hash@, self.documents@[di].id@));
            }
        }
        let r = resolve_unique_docs(
            &self.documents,
            &self.documents_hash,
            &self.documents_entities_index[e].1,
        );
        proof {
            assert forall|b: Seq<char>| #[trigger] docs_have_id(r@, b) == doc_has_entity_key(
                self.documents@,
                lower_of(text@),
                b,
            ) by {
                assert(docs_have_id(r@, b) == ids_contain(entry_ids, b));
                if ids_contain(entry_ids, b) {
                    assert(idx_maps(eidx, lower_of(text@), b)) by {
                        assert(eidx[e as int].0@ == lower_of(text@) && ids_contain(entry_ids, b));
                    }
                }
                if doc_has_entity_key(self.documents@, lower_of(text@), b) {
                    assert(idx_maps(eidx, lower_of(text@), b));
                    let i = choose|i: int|
                        0 <= i < eidx.len() && (#[trigger] eidx[i]).0@ == lower_of(text@)
                            && ids_contain(eidx[i].1@, b);
                    assert(i == e);
                    assert(ids_contain(entry_ids, b));
                }
            }
        }
        r
    }
}

/// The entity records one document contributes when a store is rebuilt
/// from already-annotated documents: for every span, the lowercased
/// extracted text as name and the span's label.
pub open spec fn doc_entity_pairs(d: Document) -> Seq<(Seq<char>, Seq<char>)> {
    Seq::new(d.label@.len(), |j: int| (span_key(d.text@, d.label@[j]), d.label@[j].2@))
}

/// The entity records of a whole document list, in order.
pub open spec fn derived_pairs(docs: Seq<Document>) -> Seq<(Seq<char>, Seq<char>)>
    decreases docs.len(),
{
    if docs.len() == 0 {
        Seq::empty()
    } else {
        derived_pairs(docs.drop_last()) + doc_entity_pairs(docs.last())
    }
}

impl Quickner {
    /// Builds a store from already-annotated documents, as the JSONL and
    /// spaCy importers do: the catalog is derived from the documents'
    /// spans (lowercased extracted text with the span's label, first
    /// occurrence kept), the id map is built last-wins, and both reverse
    /// indices are built from scratch.
    pub fn from_annotated_documents(documents: Vec<Document>) -> (r: Quickner)
        requires
            sane_docs(documents@),
        ensures
            r.documents == documents,
            ents_view(r.entities@) == crate::entity::dedup_keep_first(derived_pairs(documents@)),
            hash_ok(r.documents@, r.documents_hash@),
            label_index_ok(r.documents@, r.documents_label_index@),
            entity_index_ok(r.documents@, r.documents_entities_index@),
            r.config_file is None,
    {
        let n = documents.len();
        let mut raw: Vec<Entity> = Vec::new();
        proof {
            assert(ents_view(raw@) =~= derived_pairs(documents@.take(0)));
        }
        for i in 0..n
            invariant
                n == documents@.len(),
                sane_docs(documents@),
                ents_view(raw@) == derived_pairs(documents@.take(i as int)),
        {
            let ghost prev = derived_pairs(documents@.take(i as int));
            let m = documents[i].label.len();
            for j in 0..m
                invariant
                    n == documents@.len(),
                    i < n,
                    sane_docs(documents@),
                    m == documents@[i as int].label@.len(),
                    ents_view(raw@) == prev + doc_entity_pairs(documents@[i as int]).take(
                        j as int,
                    ),
            {
                proof {
                    assert(sane_spans(documents@[i as int]));
                    assert(documents@[i as int].label@[j as int].0
                        <= documents@[i as int].label@[j as int].1);
                }
                let name = span_key_string(documents[i].text.as_str(), &documents[i].label[j]);
                raw.push(Entity { name, label: documents[i].label[j].2.clone() });
                proof {
                    assert(doc_entity_pairs(documents@[i as int])[j as int] == (
                        span_key(
                            documents@[i as int].text@,
                            documents@[i as int].label@[j as int],
                        ),
                        documents@[i as int].label@[j as int].2@,
                    ));
                    assert(raw@.drop_last().map_values(|e: Entity| ent_view(e)) == prev
                        + doc_entity_pairs(documents@[i as int]).take(j as int));
                    assert(ent_view(raw@.last()) == doc_entity_pairs(
                        documents@[i as int],
                    )[j as int]);
                    assert(ents_view(raw@) =~= ents_view(raw@.drop_last()).push(
                        ent_view(raw@.last()),
                    ));
                    assert(doc_entity_pairs(documents@[i as int]).take(j + 1) =~= doc_entity_pairs(
                        documents@[i as int],
                    ).take(j as int).push(doc_entity_pairs(documents@[i as int])[j as int]));
                    assert(ents_view(raw@) =~= prev + doc_entity_pairs(
                        documents@[i as int],
                    ).take(j + 1));
                }
            }
            proof {
                assert(doc_entity_pairs(documents@[i as int]).take(m as int) =~= doc_entity_pairs(
                    documents@[i as int],
                ));
                assert(documents@.take(i + 1).drop_last() =~= documents@.take(i as int));
                assert(documents@.take(i + 1).last() == documents@[i as int]);
                assert(derived_pairs(documents@.take(i + 1)) =~= prev + doc_entity_pairs(
                    documents@[i as int],
                ));
            }
        }
        proof {
            assert(documents@.take(n as int) =~= documents@);
        }
        let entities = crate::entity::unique_entities(&raw);
        let documents_hash = document_hash(&documents);
        let mut q = Quickner {
            config: Config::default(),
            config_file: None,
            documents,
            entities,
            documents_hash,
            documents_label_index: Vec::new(),
            documents_entities_index: Vec::new(),
        };
        q.build_label_index();
        q.build_entity_index();
        q
    }
}

/// Two document lists that agree document by document at the level of
/// values have the same last occurrence of every id.
proof fn lemma_last_index_of_view_eq(a: Seq<Document>, b: Seq<Document>, x: Seq<char>)
    requires
        a.len() == b.len(),
        forall|i: int| 0 <= i < a.len() ==> doc_view_eq(#[trigger] a[i], b[i]),
    ensures
        last_index_of(a, x) == last_index_of(b, x),
    decreases a.len(),
{
    if a.len() > 0 {
        assert(doc_view_eq(a[a.len() - 1], b[b.len() - 1]));
        assert forall|i: int| 0 <= i < a.drop_last().len() implies doc_view_eq(
            #[trigger] a.drop_last()[i],
            b.drop_last()[i],
        ) by {
            assert(a.drop_last()[i] == a[i] && b.drop_last()[i] == b[i]);
        }
        lemma_last_index_of_view_eq(a.drop_last(), b.drop_last(), x);
    }
}

/// Determinism of a whole annotate run, as far as the contracts pin it.
///
/// Whether a run succeeds is already determined by the catalog alone: the
/// success bit of `Quickner::annotate` equals `ac_buildable` of the
/// catalog's patterns, so two stores with the same catalog and case
/// sensitivity agree on it.  This lemma covers the successful outcome:
/// two runs over stores holding the same documents, catalog and case
/// sensitivity produce documents that agree pairwise — identical ids,
/// identical folded texts, and identical span lists, order included — and
/// id maps and reverse indices that agree as maps: the same keys, each
/// listing the same ids, and in the id map the same document under each
/// key.  The order in which an index's entries are laid out is not part
/// of any contract, so equality of the index representations themselves
/// is not claimed.
pub proof fn lemma_annotate_run_deterministic(
    pre1: Seq<Document>,
    pre2: Seq<Document>,
    ents: Seq<(Seq<char>, Seq<char>)>,
    case_sensitive: bool,
    post1: Seq<Document>,
    post2: Seq<Document>,
    h1: Seq<(String, Document)>,
    h2: Seq<(String, Document)>,
    lidx1: Seq<(String, Vec<String>)>,
    lidx2: Seq<(String, Vec<String>)>,
    eidx1: Seq<(String, Vec<String>)>,
    eidx2: Seq<(String, Vec<String>)>,
)
    requires
        pre1.len() == pre2.len(),
        forall|i: int| 0 <= i < pre1.len() ==> doc_view_eq(#[trigger] pre1[i], pre2[i]),
        post1.len() == pre1.len(),
        post2.len() == pre2.len(),
        forall|i: int|
            0 <= i < pre1.len() ==> (#[trigger] post1[i]).id@ == pre1[i].id@ && post1[i].text@
                == pre1[i].text@ && annotated_labels(
                spans_view(pre1[i].label@),
                pre1[i].text@,
                ents,
                case_sensitive,
                spans_view(post1[i].label@),
            ),
        forall|i: int|
            0 <= i < pre2.len() ==> (#[trigger] post2[i]).id@ == pre2[i].id@ && post2[i].text@
                == pre2[i].text@ && annotated_labels(
                spans_view(pre2[i].label@),
                pre2[i].text@,
                ents,
                case_sensitive,
                spans_view(post2[i].label@),
            ),
        hash_ok(post1, h1),
        hash_ok(post2, h2),
        label_index_ok(post1, lidx1),
        label_index_ok(post2, lidx2),
        entity_index_ok(post1, eidx1),
        entity_index_ok(post2, eidx2),
    ensures
        post1.len() == post2.len(),
        forall|i: int| 0 <= i < post1.len() ==> doc_view_eq(#[trigger] post1[i], post2[i]),
        forall|a: Seq<char>, b: Seq<char>| #[trigger] idx_maps(lidx1, a, b) == idx_maps(
            lidx2,
            a,
            b,
        ),
        forall|a: Seq<char>| #[trigger] key_in(lidx1, a) == key_in(lidx2, a),
        forall|a: Seq<char>, b: Seq<char>| #[trigger] idx_maps(eidx1, a, b) == idx_maps(
            eidx2,
            a,
            b,
        ),
        forall|a: Seq<char>| #[trigger] key_in(eidx1, a) == key_in(eidx2, a),
        forall|a: Seq<char>| #[trigger] hash_key_in(h1, a) == hash_key_in(h2, a),
        forall|i1: int, i2: int|
            0 <= i1 < h1.len() && 0 <= i2 < h2.len() && (#[trigger] h1[i1]).0@ == (
            #[trigger] h2[i2]).0@ ==> doc_view_eq(h1[i1].1, h2[i2].1),
{
    // The documents agree pairwise: ids and folded texts by congruence,
    // span lists by the canonical-form argument.
    assert forall|i: int| 0 <= i < post1.len() implies doc_view_eq(
        #[trigger] post1[i],
        post2[i],
    ) by {
        assert(doc_view_eq(pre1[i], pre2[i]));
        crate::document::lemma_annotate_deterministic(
            spans_view(pre1[i].label@),
            pre1[i].text@,
            ents,
            case_sensitive,
            spans_view(post1[i].label@),
            spans_view(post2[i].label@),
        );
    }
    // Label occurrence is a function of the document values alone, so it
    // transfers between the two runs' documents.
    assert forall|a: Seq<char>, b: Seq<char>| #[trigger] doc_has_label(post1, a, b)
        == doc_has_label(post2, a, b) by {
        if doc_has_label(post1, a, b) {
            let i = choose|i: int|
                0 <= i < post1.len() && (#[trigger] post1[i]).id@ == b && has_label_span(
                    post1[i],
                    a,
                );
            let j = choose|j: int|
                0 <= j < post1[i].label@.len() && (#[trigger] post1[i].label@[j]).2@ == a;
            assert(doc_view_eq(post1[i], post2[i]));
            assert(spans_view(post1[i].label@) == spans_view(post2[i].label@));
            assert(post1[i].label@.len() == spans_view(post1[i].label@).len());
            assert(post2[i].label@.len() == spans_view(post2[i].label@).len());
            assert(spans_view(post1[i].label@)[j] == span_view(post1[i].label@[j]));
            assert(spans_view(post2[i].label@)[j] == span_view(post2[i].label@[j]));
            assert(post2[i].label@[j].2@ == a);
            assert(has_label_span(post2[i], a));
            assert(doc_has_label(post2, a, b));
        }
        if doc_has_label(post2, a, b) {
            let i = choose|i: int|
                0 <= i < post2.len() && (#[trigger] post2[i]).id@ == b && has_label_span(
                    post2[i],
                    a,
                );
            let j = choose|j: int|
                0 <= j < post2[i].label@.len() && (#[trigger] post2[i].label@[j]).2@ == a;
            assert(doc_view_eq(post1[i], post2[i]));
            assert(spans_view(post1[i].label@) == spans_view(post2[i].label@));
            assert(post1[i].label@.len() == spans_view(post1[i].label@).len());
            assert(post2[i].label@.len() == spans_view(post2[i].label@).len());
            assert(spans_view(post1[i].label@)[j] == span_view(post1[i].label@[j]));
            assert(spans_view(post2[i].label@)[j] == span_view(post2[i].label@[j]));
            assert(post1[i].label@[j].2@ == a);
            assert(has_label_span(post1[i], a));
            assert(doc_has_label(post1, a, b));
        }
    }
    // So does the extracted entity key of each span.
    assert forall|a: Seq<char>, b: Seq<char>| #[trigger] doc_has_entity_key(post1, a, b)
        == doc_has_entity_key(post2, a, b) by {
        if doc_has_entity_key(post1, a, b) {
            let (i, j): (int, int) = choose|i: int, j: int|
                0 <= i < post1.len() && 0 <= j < post1[i].label@.len() && (
                #[trigger] post1[i]).id@ == b && span_key(
                    post1[i].text@,
                    #[trigger] post1[i].label@[j],
                ) == a;
            assert(doc_view_eq(post1[i], post2[i]));
            assert(spans_view(post1[i].label@) == spans_view(post2[i].label@));
            assert(post1[i].label@.len() == spans_view(post1[i].label@).len());
            assert(post2[i].label@.len() == spans_view(post2[i].label@).len());
            assert(spans_view(post1[i].label@)[j] == span_view(post1[i].label@[j]));
            assert(spans_view(post2[i].label@)[j] == span_view(post2[i].label@[j]));
            assert(post1[i].label@[j].0 == post2[i].label@[j].0);
            assert(post1[i].label@[j].1 == post2[i].label@[j].1);
            assert(post1[i].label@[j].2@ == post2[i].label@[j].2@);
            assert(span_key(post2[i].text@, post2[i].label@[j]) == a);
            assert(doc_has_entity_key(post2, a, b));
        }
        if doc_has_entity_key(post2, a, b) {
            let (i, j): (int, int) = choose|i: int, j: int|
                0 <= i < post2.len() && 0 <= j < post2[i].label@.len() && (
                #[trigger] post2[i]).id@ == b && span_key(
                    post2[i].text@,
                    #[trigger] post2[i].label@[j],
                ) == a;
            assert(doc_view_eq(post1[i], post2[i]));
            assert(spans_view(post1[i].label@) == spans_view(post2[i].label@));
            assert(post1[i].label@.len() == spans_view(post1[i].label@).len());
            assert(post2[i].label@.len() == spans_view(post2[i].label@).len());
            assert(spans_view(post1[i].label@)[j] == span_view(post1[i].label@[j]));
            assert(spans_view(post2[i].label@)[j] == span_view(post2[i].label@[j]));
            assert(post1[i].label@[j].0 == post2[i].label@[j].0);
            assert(post1[i].label@[j].1 == post2[i].label@[j].1);
            assert(post1[i].label@[j].2@ == post2[i].label@[j].2@);
            assert(span_key(post1[i].text@, post1[i].label@[j]) == a);
            assert(doc_has_entity_key(post1, a, b));
        }
    }
    // The indices agree as maps, since each is pinned by those predicates.
    assert forall|a: Seq<char>| #[trigger] key_in(lidx1, a) == key_in(lidx2, a) by {
        if key_in(lidx1, a) {
            let b = choose|b: Seq<char>| doc_has_label(post1, a, b);
            assert(doc_has_label(post2, a, b));
        }
        if key_in(lidx2, a) {
            let b = choose|b: Seq<char>| doc_has_label(post2, a, b);
            assert(doc_has_label(post1, a, b));
        }
    }
    assert forall|a: Seq<char>| #[trigger] key_in(eidx1, a) == key_in(eidx2, a) by {
        if key_in(eidx1, a) {
            let b = choose|b: Seq<char>| doc_has_entity_key(post1, a, b);
            assert(doc_has_entity_key(post2, a, b));
        }
        if key_in(eidx2, a) {
            let b = choose|b: Seq<char>| doc_has_entity_key(post2, a, b);
            assert(doc_has_entity_key(post1, a, b));
        }
    }
    // The id maps agree: the same keys, and the same document under each.
    assert forall|a: Seq<char>| #[trigger] hash_key_in(h1, a) == hash_key_in(h2, a) by {
        if hash_key_in(h1, a) {
            let i = choose|i: int| 0 <= i < h1.len() && (#[trigger] h1[i]).0@ == a;
            let k = last_index_of(post1, a);
            lemma_last_index_of(post1, a);
            assert(post1[k].id@ == a);
            assert(hash_key_in(h2, post2[k].id@));
            assert(doc_view_eq(post1[k], post2[k]));
        }
        if hash_key_in(h2, a) {
            let i = choose|i: int| 0 <= i < h2.len() && (#[trigger] h2[i]).0@ == a;
            let k = last_index_of(post2, a);
            lemma_last_index_of(post2, a);
            assert(post2[k].id@ == a);
            assert(hash_key_in(h1, post1[k].id@));
            assert(doc_view_eq(post1[k], post2[k]));
        }
    }
    assert forall|i1: int, i2: int|
        0 <= i1 < h1.len() && 0 <= i2 < h2.len() && (#[trigger] h1[i1]).0@ == (
        #[trigger] h2[i2]).0@ implies doc_view_eq(h1[i1].1, h2[i2].1) by {
        let a = h1[i1].0@;
        lemma_last_index_of_view_eq(post1, post2, a);
        lemma_last_index_of(post1, a);
        lemma_last_index_of(post2, a);
        let k = last_index_of(post1, a);
        assert(last_index_of(post1, (h1[i1]).0@) >= 0 && doc_view_eq(
            h1[i1].1,
            post1[last_index_of(post1, h1[i1].0@)],
        ));
        assert(last_index_of(post2, (h2[i2]).0@) >= 0 && doc_view_eq(
            h2[i2].1,
            post2[last_index_of(post2, h2[i2].0@)],
        ));
        assert(0 <= k < post1.len());
        assert(doc_view_eq(h1[i1].1, post1[k]));
        assert(doc_view_eq(h2[i2].1, post2[k]));
        assert(doc_view_eq(post1[k], post2[k]));
    }
}

} // verus!
