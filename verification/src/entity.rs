//! The entity catalog.
//!
//! An entity is a name to search for together with a label; two entities
//! are the same exactly when both name and label agree.  Normalization
//! turns a raw entity list into the deduplicated catalog that drives
//! pattern compilation: names are lowercased first when matching is
//! case-insensitive, duplicates collapse to their first occurrence in
//! input order (the documented tie-break), and an empty entity name is
//! rejected outright.

use vstd::prelude::*;
use crate::text::{to_lowercase, lower_of};

verus! {

/// An entity: a name to locate in text, and the label to attribute to it.
pub struct Entity {
    pub name: String,
    pub label: String,
}

/// Rejection of a raw entity record.
#[derive(Debug, PartialEq, Eq, Structural)]
pub enum ValidationError {
    EmptyEntityName,
}

/// The mathematical value of an entity: its name and label.
pub open spec fn ent_view(e: Entity) -> (Seq<char>, Seq<char>) {
    (e.name@, e.label@)
}

/// The mathematical value of an entity list.
pub open spec fn ents_view(v: Seq<Entity>) -> Seq<(Seq<char>, Seq<char>)> {
    v.map_values(|e: Entity| ent_view(e))
}

/// Case folding applied to a catalog when matching is case-insensitive:
/// names are lowercased, labels are preserved verbatim.
pub open spec fn fold_names(v: Seq<(Seq<char>, Seq<char>)>) -> Seq<(Seq<char>, Seq<char>)> {
    v.map_values(|e: (Seq<char>, Seq<char>)| (lower_of(e.0), e.1))
}

/// First-seen deduplication: an element is kept exactly when it did not
/// occur earlier, so the position of the first occurrence decides the order.
pub open spec fn dedup_keep_first<T>(s: Seq<T>) -> Seq<T>
    decreases s.len(),
{
    if s.len() == 0 {
        Seq::empty()
    } else if s.drop_last().contains(s.last()) {
        dedup_keep_first(s.drop_last())
    } else {
        dedup_keep_first(s.drop_last()).push(s.last())
    }
}

/// First-seen deduplication keeps exactly the elements of its input, each
/// exactly once.
pub proof fn lemma_dedup_keep_first_props<T>(s: Seq<T>)
    ensures
        forall|x: T| #[trigger] dedup_keep_first(s).contains(x) == s.contains(x),
        forall|i: int, j: int|
            0 <= i < j < dedup_keep_first(s).len() ==> dedup_keep_first(s)[i]
                != dedup_keep_first(s)[j],
    decreases s.len(),
{
    if s.len() > 0 {
        lemma_dedup_keep_first_props(s.drop_last());
        let d = dedup_keep_first(s);
        let dp = dedup_keep_first(s.drop_last());
        assert forall|x: T| #[trigger] d.contains(x) == s.contains(x) by {
            if d.contains(x) {
                if dp.contains(x) {
                    assert(s.drop_last().contains(x));
                    let i = choose|i: int| 0 <= i < s.drop_last().len() && s.drop_last()[i] == x;
                    assert(s[i] == x);
                } else {
                    assert(x == s.last());
                    assert(s[s.len() - 1] == x);
                }
            }
            if s.contains(x) {
                let i = choose|i: int| 0 <= i < s.len() && s[i] == x;
                if i < s.len() - 1 {
                    assert(s.drop_last()[i] == x);
                    assert(dp.contains(x));
                    if !s.drop_last().contains(s.last()) {
                        let k = choose|k: int| 0 <= k < dp.len() && dp[k] == x;
                        assert(d[k] == x);
                    }
                } else {
                    if s.drop_last().contains(s.last()) {
                        assert(dp.contains(x));
                    } else {
                        assert(d[d.len() - 1] == x);
                    }
                }
            }
        }
        if !s.drop_last().contains(s.last()) {
            assert forall|i: int, j: int| 0 <= i < j < d.len() implies d[i] != d[j] by {
                if j < d.len() - 1 {
                    assert(dp[i] == d[i] && dp[j] == d[j]);
                } else {
                    assert(d[j] == s.last());
                    assert(dp[i] == d[i]);
                    assert(dp.contains(dp[i]));
                    assert(s.drop_last().contains(d[i]));
                }
            }
        }
    }
}

impl Entity {
    /// A fresh entity with the given name and label.
    pub fn new(name: String, label: String) -> (e: Entity)
        ensures
            e.name == name,
            e.label == label,
    {
        Entity { name, label }
    }
}

impl Clone for Entity {
    /// An exact copy.
    fn clone(&self) -> (e: Entity)
        ensures
            e == *self,
    {
        Entity { name: self.name.clone(), label: self.label.clone() }
    }
}

impl PartialEq for Entity {
    fn eq(&self, other: &Entity) -> (r: bool) {
        self.name == other.name && self.label == other.label
    }
}

impl vstd::std_specs::cmp::PartialEqSpecImpl for Entity {
    open spec fn obeys_eq_spec() -> bool {
        true
    }

    open spec fn eq_spec(&self, other: &Entity) -> bool {
        self.name@ == other.name@ && self.label@ == other.label@
    }
}

/// Whether the list already holds an entity with this name and label.
pub fn contains_entity(v: &Vec<Entity>, e: &Entity) -> (r: bool)
    ensures
        r == ents_view(v@).contains(ent_view(*e)),
{
    let n = v.len();
    for i in 0..n
        invariant
            n == v@.len(),
            forall|j: int| 0 <= j < i ==> ents_view(v@)[j] != ent_view(*e),
    {
        if v[i].name == e.name && v[i].label == e.label {
            proof {
                assert(ents_view(v@)[i as int] == ent_view(*e));
            }
            return true;
        }
        proof {
            assert(ents_view(v@)[i as int] == ent_view(v@[i as int]));
        }
    }
    false
}

/// Deduplicates an entity list, keeping the first occurrence of each
/// `(name, label)` pair in input order.
pub fn unique_entities(entities: &Vec<Entity>) -> (r: Vec<Entity>)
    ensures
        ents_view(r@) == dedup_keep_first(ents_view(entities@)),
{
    let n = entities.len();
    let mut r: Vec<Entity> = Vec::new();
    proof {
        assert(ents_view(entities@.take(0)) =~= Seq::<(Seq<char>, Seq<char>)>::empty());
        assert(ents_view(r@) =~= dedup_keep_first(ents_view(entities@.take(0))));
    }
    for i in 0..n
        invariant
            n == entities@.len(),
            ents_view(r@) == dedup_keep_first(ents_view(entities@.take(i as int))),
    {
        let ghost prev = ents_view(entities@.take(i as int));
        proof {
            lemma_dedup_keep_first_props(prev);
            assert(ents_view(entities@.take(i + 1)) =~= prev.push(ent_view(entities@[i as int])));
            assert(ents_view(entities@.take(i + 1)).drop_last() =~= prev);
        }
        if !contains_entity(&r, &entities[i]) {
            r.push(entities[i].clone());
            proof {
                assert(ents_view(r@) =~= dedup_keep_first(prev).push(ent_view(entities@[i as int])));
            }
        }
    }
    proof {
        assert(entities@.take(n as int) =~= entities@);
    }
    r
}

/// Normalizes a raw entity list into the catalog: rejects any empty entity
/// name, lowercases names when matching is case-insensitive, and collapses
/// duplicate `(name, label)` pairs to their first occurrence in input order.
pub fn normalize_entities(entities: &Vec<Entity>, case_sensitive: bool) -> (r: Result<
    Vec<Entity>,
    ValidationError,
>)
    ensures
        (r is Err) == (exists|i: int|
            0 <= i < entities@.len() && (#[trigger] ents_view(entities@)[i]).0.len() == 0),
        r matches Ok(out) ==> ents_view(out@) == dedup_keep_first(
            if case_sensitive {
                ents_view(entities@)
            } else {
                fold_names(ents_view(entities@))
            },
        ),
        r matches Ok(out) ==> forall|i: int|
            0 <= i < out@.len() ==> (#[trigger] ents_view(out@)[i]).0.len() > 0,
{
    let n = entities.len();
    for i in 0..n
        invariant
            n == entities@.len(),
            forall|j: int| 0 <= j < i ==> (#[trigger] ents_view(entities@)[j]).0.len() > 0,
    {
        if entities[i].name.as_str().is_empty() {
            proof {
                assert(ents_view(entities@)[i as int].0.len() == 0);
            }
            return Err(ValidationError::EmptyEntityName);
        }
        proof {
            assert(ents_view(entities@)[i as int] == ent_view(entities@[i as int]));
        }
    }
    let ghost folded_view = if case_sensitive {
        ents_view(entities@)
    } else {
        fold_names(ents_view(entities@))
    };
    let mut folded: Vec<Entity> = Vec::new();
    for i in 0..n
        invariant
            n == entities@.len(),
            folded@.len() == i,
            ents_view(folded@) == folded_view.take(i as int),
            forall|j: int| 0 <= j < n ==> (#[trigger] ents_view(entities@)[j]).0.len() > 0,
            forall|j: int| 0 <= j < i ==> (#[trigger] ents_view(folded@)[j]).0.len() > 0,
            folded_view == if case_sensitive {
                ents_view(entities@)
            } else {
                fold_names(ents_view(entities@))
            },
    {
        proof {
            assert(ents_view(entities@)[i as int] == ent_view(entities@[i as int]));
        }
        let name = if case_sensitive {
            entities[i].name.clone()
        } else {
            to_lowercase(entities[i].name.as_str())
        };
        folded.push(Entity { name, label: entities[i].label.clone() });
        proof {
            assert(folded_view[i as int] == (if case_sensitive {
                ent_view(entities@[i as int])
            } else {
                (lower_of(entities@[i as int].name@), entities@[i as int].label@)
            }));
            assert(ents_view(folded@) =~= folded_view.take(i + 1));
        }
    }
    proof {
        assert(folded_view.take(n as int) =~= folded_view);
    }
    let out = unique_entities(&folded);
    proof {
        lemma_dedup_keep_first_props(folded_view);
        assert forall|i: int| 0 <= i < out@.len() implies (#[trigger] ents_view(out@)[i]).0.len()
            > 0 by {
            assert(ents_view(out@).contains(ents_view(out@)[i]));
            assert(folded_view.contains(ents_view(out@)[i]));
            let j = choose|j: int| 0 <= j < folded_view.len() && folded_view[j] == ents_view(out@)[i];
            assert(ents_view(folded@)[j] == folded_view[j]);
        }
    }
    Ok(out)
}

} // verus!
