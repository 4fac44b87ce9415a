//! Documents and per-document annotation.
//!
//! A document is a text with a content-derived id and an ordered list of
//! spans.  Annotating a document locates every boundary-correct occurrence
//! of the catalog's entities in its text and extends the span list with
//! them: the spans found are appended to whatever is already there, and the
//! whole list is then sorted and cleared of exact duplicate triples, so a
//! repeated run adds nothing new.

use vstd::prelude::*;
use crate::entity::{Entity, ents_view, fold_names, dedup_keep_first, lemma_dedup_keep_first_props};
use crate::hashing::{hash_string, id_of};
use crate::matcher::{accepted_spans, ac_new, find_spans, unique_names, names_view, lemma_names_facts};
use aho_corasick::AhoCorasick;
use crate::spans::{
    Span, span_view, spans_view, sorted_unique, sort_spans, dedup_spans, span_eq,
};
use crate::text::{to_lowercase, lower_of};

verus! {

/// A text with its content-derived id and its annotated spans.  Span
/// offsets are character offsets into the text as the matcher saw it:
/// the text itself when matching case-sensitively, its lowercased
/// working copy otherwise.
pub struct Document {
    pub id: String,
    pub text: String,
    pub label: Vec<Span>,
}

/// An exact copy of a span list.
pub fn clone_spans(v: &Vec<Span>) -> (r: Vec<Span>)
    ensures
        r@ == v@,
{
    let n = v.len();
    let mut r: Vec<Span> = Vec::new();
    for i in 0..n
        invariant
            n == v@.len(),
            r@ == v@.take(i as int),
    {
        r.push((v[i].0, v[i].1, v[i].2.clone()));
        proof {
            assert(r@ =~= v@.take(i + 1));
        }
    }
    proof {
        assert(v@.take(n as int) =~= v@);
    }
    r
}

impl Clone for Document {
    /// An exact copy: same id, same text, same spans.
    fn clone(&self) -> (d: Document)
        ensures
            d.id == self.id,
            d.text == self.text,
            d.label@ == self.label@,
    {
        Document { id: self.id.clone(), text: self.text.clone(), label: clone_spans(&self.label) }
    }
}

impl PartialEq for Document {
    fn eq(&self, other: &Document) -> (r: bool) {
        if !(self.id == other.id && self.text == other.text) {
            return false;
        }
        if self.label.len() != other.label.len() {
            proof {
                assert(spans_view(self.label@).len() != spans_view(other.label@).len());
            }
            return false;
        }
        let n = self.label.len();
        for i in 0..n
            invariant
                n == self.label@.len(),
                n == other.label@.len(),
                forall|j: int|
                    0 <= j < i ==> #[trigger] spans_view(self.label@)[j] == spans_view(
                        other.label@,
                    )[j],
        {
            if !span_eq(&self.label[i], &other.label[i]) {
                proof {
                    assert(spans_view(self.label@)[i as int] != spans_view(other.label@)[i as int]);
                }
                return false;
            }
            proof {
                assert(spans_view(self.label@)[i as int] == span_view(self.label@[i as int]));
                assert(spans_view(other.label@)[i as int] == span_view(other.label@[i as int]));
            }
        }
        proof {
            assert(spans_view(self.label@) =~= spans_view(other.label@));
        }
        true
    }
}

impl vstd::std_specs::cmp::PartialEqSpecImpl for Document {
    open spec fn obeys_eq_spec() -> bool {
        true
    }

    open spec fn eq_spec(&self, other: &Document) -> bool {
        self.id@ == other.id@ && self.text@ == other.text@ && spans_view(self.label@)
            == spans_view(other.label@)
    }
}

/// The catalog as the matcher sees it: names lowercased when matching is
/// case-insensitive, labels verbatim.
pub open spec fn folded_catalog(ents: Seq<(Seq<char>, Seq<char>)>, case_sensitive: bool) -> Seq<
    (Seq<char>, Seq<char>),
> {
    if case_sensitive {
        ents
    } else {
        fold_names(ents)
    }
}

/// The text as the matcher sees it: lowercased when matching is
/// case-insensitive.  The stored text itself is never changed; span
/// offsets are character offsets into this folded reading of it.
pub open spec fn folded_text(t: Seq<char>, case_sensitive: bool) -> Seq<char> {
    if case_sensitive {
        t
    } else {
        lower_of(t)
    }
}

/// What one annotation pass leaves in a document's span list, given the
/// list it started from: the old spans together with every accepted
/// occurrence, sorted, with exact duplicates removed.
pub open spec fn annotated_labels(
    old_spans: Seq<(int, int, Seq<char>)>,
    t: Seq<char>,
    ents: Seq<(Seq<char>, Seq<char>)>,
    case_sensitive: bool,
    new_spans: Seq<(int, int, Seq<char>)>,
) -> bool {
    &&& sorted_unique(new_spans)
    &&& new_spans.to_set() == old_spans.to_set() + accepted_spans(
        folded_text(t, case_sensitive),
        folded_catalog(ents, case_sensitive),
    )
}

/// Determinism of annotation: for a fixed starting span list, text and
/// catalog, any two results of one annotation pass are identical span
/// lists, order included.
pub proof fn lemma_annotate_deterministic(
    old_spans: Seq<(int, int, Seq<char>)>,
    t: Seq<char>,
    ents: Seq<(Seq<char>, Seq<char>)>,
    case_sensitive: bool,
    s1: Seq<(int, int, Seq<char>)>,
    s2: Seq<(int, int, Seq<char>)>,
)
    requires
        annotated_labels(old_spans, t, ents, case_sensitive, s1),
        annotated_labels(old_spans, t, ents, case_sensitive, s2),
    ensures
        s1 == s2,
{
    crate::spans::lemma_sorted_unique_canonical(s1, s2);
}

/// The byte patterns the engine compiles for a catalog: the distinct
/// names of the case-folded catalog, in first-seen order, UTF-8 encoded.
pub open spec fn catalog_patterns(
    ents: Seq<(Seq<char>, Seq<char>)>,
    case_sensitive: bool,
) -> Seq<Seq<u8>> {
    crate::matcher::patterns_of(
        crate::entity::dedup_keep_first(
            crate::matcher::name_seq(folded_catalog(ents, case_sensitive)),
        ),
    )
}

/// Every span's start is at most its end.
pub open spec fn sane_span_list(vs: Seq<(int, int, Seq<char>)>) -> bool {
    forall|j: int| 0 <= j < vs.len() ==> (#[trigger] vs[j]).0 <= vs[j].1
}

/// One annotation pass over a document, against an already folded catalog
/// and its compiled automaton.
pub(crate) fn annotate_doc_with(
    doc: &mut Document,
    folded: &Vec<Entity>,
    names: &Vec<String>,
    ac: &AhoCorasick,
    case_sensitive: bool,
    Ghost(orig): Ghost<Seq<(Seq<char>, Seq<char>)>>,
)
    requires
        ents_view(folded@) == folded_catalog(orig, case_sensitive),
        forall|i: int, j: int|
            0 <= i < j < names@.len() ==> #[trigger] names_view(names@)[i]
                != #[trigger] names_view(names@)[j],
        forall|i: int| 0 <= i < names@.len() ==> (#[trigger] names_view(names@)[i]).len() > 0,
        forall|k: int|
            0 <= k < folded@.len() ==> names_view(names@).contains(
                (#[trigger] ents_view(folded@)[k]).0,
            ),
        crate::matcher::ac_patterns(*ac) == crate::matcher::patterns_of(names_view(names@)),
        crate::matcher::ac_standard(*ac),
        sane_span_list(spans_view(old(doc).label@)),
    ensures
        final (doc).id == old(doc).id,
        final (doc).text == old(doc).text,
        annotated_labels(
            spans_view(old(doc).label@),
            old(doc).text@,
            orig,
            case_sensitive,
            spans_view(final (doc).label@),
        ),
        sane_span_list(spans_view(final (doc).label@)),
{
    let work_text = if case_sensitive {
        doc.text.clone()
    } else {
        to_lowercase(doc.text.as_str())
    };
    let found = find_spans(work_text.as_str(), folded, names, ac);
    let mut all = clone_spans(&doc.label);
    let ghost old_view = spans_view(doc.label@);
    let fn_count = found.len();
    for i in 0..fn_count
        invariant
            fn_count == found@.len(),
            spans_view(all@) == old_view + spans_view(found@.take(i as int)),
    {
        let ghost pre = all@;
        all.push((found[i].0, found[i].1, found[i].2.clone()));
        proof {
            assert(spans_view(all@) =~= spans_view(pre).push(span_view(found@[i as int])));
            assert(found@.take(i + 1) =~= found@.take(i as int).push(found@[i as int]));
            assert(spans_view(found@.take(i + 1)) =~= spans_view(found@.take(i as int)).push(
                span_view(found@[i as int]),
            ));
            assert(spans_view(all@) =~= old_view + spans_view(found@.take(i + 1)));
        }
    }
    proof {
        assert(found@.take(fn_count as int) =~= found@);
    }
    let ghost pre_sort = spans_view(all@);
    sort_spans(&mut all);
    let deduped = dedup_spans(&all);
    proof {
        vstd::seq_lib::seq_to_set_distributes_over_add(old_view, spans_view(found@));
        assert(pre_sort.to_set() =~= old_view.to_set() + spans_view(found@).to_set());
        assert(work_text@ == folded_text(doc.text@, case_sensitive));
        let acc = accepted_spans(
            folded_text(doc.text@, case_sensitive),
            folded_catalog(orig, case_sensitive),
        );
        assert(spans_view(deduped@).to_set() =~= old_view.to_set() + acc);
        assert forall|j: int| 0 <= j < spans_view(deduped@).len() implies (
        #[trigger] spans_view(deduped@)[j]).0 <= spans_view(deduped@)[j].1 by {
            let x = spans_view(deduped@)[j];
            assert(spans_view(deduped@).contains(x));
            assert(spans_view(deduped@).to_set().contains(x));
            if old_view.to_set().contains(x) {
                let k = choose|k: int| 0 <= k < old_view.len() && #[trigger] old_view[k] == x;
            } else {
                assert(acc.contains(x));
            }
        }
    }
    doc.label = deduped;
}

impl Document {
    /// A document over the given text with no spans; the id is the content
    /// hash of the text.
    pub fn from_string(text: String) -> (d: Document)
        ensures
            d.id@ == id_of(text@),
            d.text == text,
            d.label@.len() == 0,
    {
        let id = hash_string(text.as_str());
        Document { id, text, label: Vec::new() }
    }

    /// A document over the given text and spans; the id is the content hash
    /// of the text.
    pub fn new(text: String, label: Vec<Span>) -> (d: Document)
        ensures
            d.id@ == id_of(text@),
            d.text == text,
            d.label == label,
    {
        let id = hash_string(text.as_str());
        Document { id, text, label }
    }

    /// Annotates this document against a catalog.  When matching is
    /// case-insensitive the search runs over a lowercased working copy of
    /// the text and over lowercased entity names; the stored text is
    /// unchanged, and the stored spans are character offsets into that
    /// folded reading of it.  The pass fails, leaving the document
    /// unchanged, exactly when the catalog's patterns exceed the automaton
    /// builder's limits.
    pub fn annotate(&mut self, entities: &Vec<Entity>, case_sensitive: bool) -> (ok: bool)
        requires
            forall|k: int|
                0 <= k < entities@.len() ==> (#[trigger] ents_view(entities@)[k]).0.len() > 0,
            sane_span_list(spans_view(old(self).label@)),
        ensures
            ok == crate::matcher::ac_buildable(
                catalog_patterns(ents_view(entities@), case_sensitive),
            ),
            !ok ==> *final (self) == *old(self),
            ok ==> final (self).id == old(self).id,
            ok ==> final (self).text == old(self).text,
            ok ==> annotated_labels(
                spans_view(old(self).label@),
                old(self).text@,
                ents_view(entities@),
                case_sensitive,
                spans_view(final (self).label@),
            ),
            ok ==> sane_span_list(spans_view(final (self).label@)),
    {
        let folded = fold_entities(entities, case_sensitive);
        let names = unique_names(&folded);
        proof {
            lemma_names_facts(folded@, names@);
            assert(crate::matcher::patterns_of(names_view(names@)) == catalog_patterns(
                ents_view(entities@),
                case_sensitive,
            ));
        }
        let ac_opt = ac_new(&names);
        let ac = match ac_opt {
            Some(ac) => ac,
            None => {
                return false;
            },
        };
        annotate_doc_with(
            self,
            &folded,
            &names,
            &ac,
            case_sensitive,
            Ghost(ents_view(entities@)),
        );
        true
    }

    /// Removes duplicate span triples, keeping the first occurrence of
    /// each in order.
    pub fn set_unique_labels(&mut self)
        ensures
            final (self).id == old(self).id,
            final (self).text == old(self).text,
            spans_view(final (self).label@) == dedup_keep_first(spans_view(old(self).label@)),
    {
        let n = self.label.len();
        let mut kept: Vec<Span> = Vec::new();
        proof {
            assert(spans_view(self.label@.take(0)) =~= Seq::<(int, int, Seq<char>)>::empty());
            assert(spans_view(kept@) =~= dedup_keep_first(spans_view(self.label@.take(0))));
        }
        for i in 0..n
            invariant
                n == self.label@.len(),
                spans_view(kept@) == dedup_keep_first(spans_view(self.label@.take(i as int))),
        {
            let ghost prev = spans_view(self.label@.take(i as int));
            proof {
                lemma_dedup_keep_first_props(prev);
                assert(spans_view(self.label@.take(i + 1)) =~= prev.push(
                    span_view(self.label@[i as int]),
                ));
                assert(spans_view(self.label@.take(i + 1)).drop_last() =~= prev);
            }
            let mut seen = false;
            let kn = kept.len();
            for j in 0..kn
                invariant
                    kn == kept@.len(),
                    i < n,
                    n == self.label@.len(),
                    seen == exists|k: int|
                        0 <= k < j && #[trigger] spans_view(kept@)[k] == span_view(
                            self.label@[i as int],
                        ),
            {
                if span_eq(&kept[j], &self.label[i]) {
                    proof {
                        assert(spans_view(kept@)[j as int] == span_view(self.label@[i as int]));
                    }
                    seen = true;
                }
                proof {
                    assert(spans_view(kept@)[j as int] == span_view(kept@[j as int]));
                }
            }
            proof {
                assert(seen == spans_view(kept@).contains(span_view(self.label@[i as int])));
            }
            if !seen {
                kept.push((self.label[i].0, self.label[i].1, self.label[i].2.clone()));
                proof {
                    assert(spans_view(kept@) =~= dedup_keep_first(prev).push(
                        span_view(self.label@[i as int]),
                    ));
                }
            }
        }
        proof {
            assert(self.label@.take(n as int) =~= self.label@);
        }
        self.label = kept;
    }
}

/// The catalog with names lowercased when matching is case-insensitive.
pub fn fold_entities(entities: &Vec<Entity>, case_sensitive: bool) -> (r: Vec<Entity>)
    ensures
        ents_view(r@) == folded_catalog(ents_view(entities@), case_sensitive),
        r@.len() == entities@.len(),
        forall|i: int|
            0 <= i < entities@.len() && (#[trigger] ents_view(entities@)[i]).0.len() > 0 ==> (
            #[trigger] ents_view(r@)[i]).0.len() > 0,
{
    let n = entities.len();
    let mut r: Vec<Entity> = Vec::new();
    for i in 0..n
        invariant
            n == entities@.len(),
            r@.len() == i,
            ents_view(r@) == folded_catalog(ents_view(entities@), case_sensitive).take(i as int),
            forall|j: int|
                0 <= j < i && (#[trigger] ents_view(entities@)[j]).0.len() > 0 ==> (
                #[trigger] ents_view(r@)[j]).0.len() > 0,
    {
        proof {
            assert(ents_view(entities@)[i as int] == crate::entity::ent_view(entities@[i as int]));
        }
        let name = if case_sensitive {
            entities[i].name.clone()
        } else {
            to_lowercase(entities[i].name.as_str())
        };
        r.push(Entity { name, label: entities[i].label.clone() });
        proof {
            assert(ents_view(r@) =~= folded_catalog(ents_view(entities@), case_sensitive).take(
                i + 1,
            ));
            assert(ents_view(r@)[i as int].0 == name@);
        }
    }
    proof {
        assert(folded_catalog(ents_view(entities@), case_sensitive).take(n as int)
            =~= folded_catalog(ents_view(entities@), case_sensitive));
    }
    r
}

} // verus!
