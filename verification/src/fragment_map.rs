//! The map from fragment names to the fragment definitions of a document.
use vstd::prelude::*;
use crate::ast::{opt_ref_is, ExecutableDefinition, FragmentDefinition, OperationDocument};

verus! {

/// The fragment definitions of a document, in document order.
pub open spec fn fragments_of(defs: Seq<ExecutableDefinition>) -> Seq<FragmentDefinition>
    decreases defs.len(),
{
    if defs.len() == 0 {
        seq![]
    } else {
        let rest = fragments_of(defs.drop_last());
        match defs.last() {
            ExecutableDefinition::FragmentDefinition(f) => rest.push(f),
            ExecutableDefinition::OperationDefinition(_) => rest,
        }
    }
}

/// The map that inserting the fragments in order gives: each name maps to the
/// last fragment with that name.
pub open spec fn map_of_fragments(frags: Seq<FragmentDefinition>) -> Map<Seq<char>, FragmentDefinition>
    decreases frags.len(),
{
    if frags.len() == 0 {
        Map::empty()
    } else {
        map_of_fragments(frags.drop_last()).insert(frags.last().name.name@, frags.last())
    }
}

/// The map from fragment names to fragment definitions of the document.
pub open spec fn fragment_map_of(defs: Seq<ExecutableDefinition>) -> Map<Seq<char>, FragmentDefinition> {
    map_of_fragments(fragments_of(defs))
}

/// The fragments of a document, looked up by name. Where two fragments share a
/// name, the later one is found.
pub struct FragmentMap<'a> {
    fragments: Vec<&'a FragmentDefinition>,
}

impl<'a> View for FragmentMap<'a> {
    type V = Map<Seq<char>, FragmentDefinition>;

    open spec fn view(&self) -> Map<Seq<char>, FragmentDefinition> {
        map_of_fragments(self.spec_fragments())
    }
}

impl<'a> FragmentMap<'a> {
    /// The fragments that the map was built from, in document order.
    pub closed spec fn spec_fragments(&self) -> Seq<FragmentDefinition> {
        self.fragments@.map_values(|f: &FragmentDefinition| *f)
    }

    /// The fragment named `name`, if there is one.
    pub fn get(&self, name: &String) -> (r: Option<&'a FragmentDefinition>)
        ensures
            opt_ref_is(
                r,
                if self@.dom().contains(name@) {
                    Some(self@[name@])
                } else {
                    None
                },
            ),
    {
        let ghost frags = self.spec_fragments();
        let mut i: usize = self.fragments.len();
        assert(frags.take(i as int) =~= frags);
        while i > 0
            invariant
                i <= self.fragments@.len(),
                frags == self.spec_fragments(),
                frags.len() == self.fragments@.len(),
                map_of_fragments(frags).dom().contains(name@) == map_of_fragments(
                    frags.take(i as int),
                ).dom().contains(name@),
                map_of_fragments(frags).dom().contains(name@) ==> map_of_fragments(frags)[name@]
                    == map_of_fragments(frags.take(i as int))[name@],
            decreases i,
        {
            let f = self.fragments[i - 1];
            assert(frags[i - 1] == *f);
            assert(frags.take(i as int).drop_last() =~= frags.take(i - 1));
            if f.name.name == *name {
                return Some(f);
            }
            i = i - 1;
        }
        assert(frags.take(0) =~= Seq::<FragmentDefinition>::empty());
        None
    }
}

/// Every map of fragments has finitely many names.
pub proof fn lemma_map_of_fragments_finite(frags: Seq<FragmentDefinition>)
    ensures
        map_of_fragments(frags).dom().finite(),
    decreases frags.len(),
{
    if frags.len() > 0 {
        lemma_map_of_fragments_finite(frags.drop_last());
    }
}

/// A name is in the map exactly when some fragment has it, and it maps to the
/// last fragment with that name.
pub proof fn lemma_map_of_fragments_lookup(frags: Seq<FragmentDefinition>, name: Seq<char>)
    ensures
        map_of_fragments(frags).dom().contains(name) <==> exists|i: int|
            0 <= i < frags.len() && #[trigger] frags[i].name.name@ == name,
        map_of_fragments(frags).dom().contains(name) ==> exists|i: int|
            0 <= i < frags.len() && #[trigger] frags[i].name.name@ == name && map_of_fragments(frags)[name]
                == frags[i] && forall|j: int| i < j < frags.len() ==> #[trigger] frags[j].name.name@ != name,
    decreases frags.len(),
{
    if frags.len() > 0 {
        let d = frags.drop_last();
        lemma_map_of_fragments_lookup(d, name);
        let last = frags.len() - 1;
        if frags[last].name.name@ == name {
            assert(frags[last].name.name@ == name);
        } else {
            if map_of_fragments(frags).dom().contains(name) {
                let i = choose|i: int|
                    0 <= i < d.len() && #[trigger] d[i].name.name@ == name && map_of_fragments(d)[name]
                        == d[i] && forall|j: int| i < j < d.len() ==> #[trigger] d[j].name.name@ != name;
                assert(frags[i] == d[i]);
                assert forall|j: int| i < j < frags.len() implies #[trigger] frags[j].name.name@ != name by {
                    if j < last {
                        assert(frags[j] == d[j]);
                    }
                }
            }
            assert forall|i: int| 0 <= i < frags.len() && #[trigger] frags[i].name.name@ == name implies
                map_of_fragments(frags).dom().contains(name) by {
                assert(i < last);
                assert(d[i] == frags[i]);
            }
        }
    }
}

/// Collects the fragments of a document into a map from names to definitions.
pub fn generate_fragment_map<'a>(document: &'a OperationDocument) -> (r: FragmentMap<'a>)
    ensures
        r.spec_fragments() == fragments_of(document.definitions@),
        r@ == fragment_map_of(document.definitions@),
{
    let mut fragments: Vec<&'a FragmentDefinition> = Vec::new();
    let mut i: usize = 0;
    let ghost defs = document.definitions@;
    assert(defs.take(0) =~= Seq::<ExecutableDefinition>::empty());
    assert(fragments@.map_values(|f: &FragmentDefinition| *f) =~= Seq::<FragmentDefinition>::empty());
    while i < document.definitions.len()
        invariant
            i <= defs.len(),
            defs == document.definitions@,
            fragments@.map_values(|f: &FragmentDefinition| *f) == fragments_of(defs.take(i as int)),
        decreases defs.len() - i,
    {
        let ghost before = fragments@;
        if let ExecutableDefinition::FragmentDefinition(fr) = &document.definitions[i] {
            fragments.push(fr);
            assert(fragments@.map_values(|f: &FragmentDefinition| *f) =~= before.map_values(
                |f: &FragmentDefinition| *f,
            ).push(*fr));
        }
        assert(defs.take(i + 1).drop_last() =~= defs.take(i as int));
        i = i + 1;
    }
    assert(defs.take(i as int) =~= defs);
    FragmentMap { fragments }
}

/// Position `i` of the definitions holds a fragment named `name`.
pub open spec fn is_fragment_named(defs: Seq<ExecutableDefinition>, i: int, name: Seq<char>) -> bool {
    match defs[i] {
        ExecutableDefinition::FragmentDefinition(f) => f.name.name@ == name,
        _ => false,
    }
}

/// The fragment map of a document has exactly the names of its fragments, and
/// each name maps to the last fragment of the document with that name.
pub proof fn lemma_fragment_map_of_document(defs: Seq<ExecutableDefinition>, name: Seq<char>)
    ensures
        fragment_map_of(defs).dom().contains(name) <==> exists|i: int|
            0 <= i < defs.len() && #[trigger] is_fragment_named(defs, i, name),
        fragment_map_of(defs).dom().contains(name) ==> exists|i: int|
            0 <= i < defs.len() && #[trigger] is_fragment_named(defs, i, name) && defs[i]
                == ExecutableDefinition::FragmentDefinition(fragment_map_of(defs)[name]) && forall|k: int|
                i < k < defs.len() ==> !#[trigger] is_fragment_named(defs, k, name),
    decreases defs.len(),
{
    if defs.len() > 0 {
        let d = defs.drop_last();
        let last = defs.len() - 1;
        lemma_fragment_map_of_document(d, name);
        assert forall|i: int| 0 <= i < d.len() implies #[trigger] is_fragment_named(defs, i, name)
            == is_fragment_named(d, i, name) by {
            assert(defs[i] == d[i]);
        }
        match defs[last] {
            ExecutableDefinition::FragmentDefinition(f) => {
                assert(fragments_of(defs) == fragments_of(d).push(f));
                assert(fragments_of(defs).drop_last() =~= fragments_of(d));
                assert(fragment_map_of(defs) == fragment_map_of(d).insert(f.name.name@, f));
                if f.name.name@ == name {
                    assert(is_fragment_named(defs, last, name));
                } else {
                    if fragment_map_of(defs).dom().contains(name) {
                        let i = choose|i: int|
                            0 <= i < d.len() && #[trigger] is_fragment_named(d, i, name) && d[i]
                                == ExecutableDefinition::FragmentDefinition(fragment_map_of(d)[name])
                                && forall|k: int| i < k < d.len() ==> !#[trigger] is_fragment_named(d, k, name);
                        assert(is_fragment_named(defs, i, name));
                        assert(defs[i] == d[i]);
                        assert forall|k: int| i < k < defs.len() implies !#[trigger] is_fragment_named(defs, k, name) by {
                            if k < last {
                                assert(is_fragment_named(defs, k, name) == is_fragment_named(d, k, name));
                            }
                        }
                    }
                    assert(!is_fragment_named(defs, last, name));
                }
            },
            ExecutableDefinition::OperationDefinition(_) => {
                assert(fragments_of(defs) == fragments_of(d));
                assert(!is_fragment_named(defs, last, name));
                if fragment_map_of(defs).dom().contains(name) {
                    let i = choose|i: int|
                        0 <= i < d.len() && #[trigger] is_fragment_named(d, i, name) && d[i]
                            == ExecutableDefinition::FragmentDefinition(fragment_map_of(d)[name])
                            && forall|k: int| i < k < d.len() ==> !#[trigger] is_fragment_named(d, k, name);
                    assert(is_fragment_named(defs, i, name));
                    assert(defs[i] == d[i]);
                    assert forall|k: int| i < k < defs.len() implies !#[trigger] is_fragment_named(defs, k, name) by {
                        if k < last {
                            assert(is_fragment_named(defs, k, name) == is_fragment_named(d, k, name));
                        }
                    }
                }
            },
        }
    }
}

} // verus!
