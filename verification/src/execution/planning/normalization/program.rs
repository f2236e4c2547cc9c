//! This module defines [NormalizedProgram].

use vstd::prelude::*;

use crate::rule_model::components::tag::{Tag, TagIndexSet};

use super::atom::{GroundAtom, HeadAtom};
use super::global_annotation::NormalizedGlobalAnnotation;
use super::rule::{add_body_predicates, add_head_predicates, body_predicates, head_predicates, NormalizedRule};
use super::termination_annotation::NormalizedTerminationAnnotation;

verus! {

/// The names of a sequence of tags.
pub open spec fn tag_views(tags: Seq<Tag>) -> Seq<Seq<char>> {
    tags.map_values(|t: Tag| t@)
}

/// Return true if a tag of the same name occurs in `tags`.
pub fn contains_tag(tags: &Vec<Tag>, tag: &Tag) -> (r: bool)
    ensures
        r == tag_views(tags@).contains(tag@),
{
    let n = tags.len();
    let mut i: usize = 0;
    while i < n
        invariant
            n == tags@.len(),
            0 <= i <= n,
            forall|j: int| 0 <= j < i ==> tags@[j]@ != tag@,
        decreases n - i,
    {
        if tags[i] == *tag {
            assert(tag_views(tags@)[i as int] == tag@);
            return true;
        }
        i = i + 1;
    }
    proof {
        if tag_views(tags@).contains(tag@) {
            let k = choose|k: int| 0 <= k < tag_views(tags@).len() && tag_views(tags@)[k] == tag@;
            assert(tags@[k]@ == tag@);
        }
    }
    false
}

/// The predicates of a sequence of head atoms.
pub open spec fn head_atom_tags(head: Seq<HeadAtom>) -> Set<Seq<char>>
    decreases head.len(),
{
    if head.len() == 0 {
        Set::empty()
    } else {
        head_atom_tags(head.drop_last()).insert(head.last().predicate@)
    }
}

/// The predicates of the heads of a sequence of rules.
pub open spec fn rules_head_predicates(rules: Seq<NormalizedRule>) -> Set<Seq<char>>
    decreases rules.len(),
{
    if rules.len() == 0 {
        Set::empty()
    } else {
        rules_head_predicates(rules.drop_last()).union(head_atom_tags(rules.last().head@))
    }
}

/// The predicates with their arities of a sequence of rules.
pub open spec fn rules_predicates(rules: Seq<NormalizedRule>) -> Set<(Seq<char>, usize)>
    decreases rules.len(),
{
    if rules.len() == 0 {
        Set::empty()
    } else {
        let r = rules.last();
        rules_predicates(rules.drop_last()).union(head_predicates(r.head@)).union(
            body_predicates(r.positive@)).union(body_predicates(r.negative@))
    }
}

/// The predicates with their arities of a sequence of facts.
pub open spec fn facts_predicates(facts: Seq<GroundAtom>) -> Set<(Seq<char>, usize)>
    decreases facts.len(),
{
    if facts.len() == 0 {
        Set::empty()
    } else {
        facts_predicates(facts.drop_last()).insert((facts.last().predicate@, facts.last().terms@.len() as usize))
    }
}

/// A normalized program with its annotations.
#[derive(Debug)]
pub struct NormalizedProgram {
    /// The rules of the program
    pub rules: Vec<NormalizedRule>,
    /// The facts of the program
    pub facts: Vec<GroundAtom>,
    /// The global annotations of the program
    pub global_annotations: Vec<NormalizedGlobalAnnotation>,
    /// The termination annotations of the program
    pub termination_annotations: Vec<NormalizedTerminationAnnotation>,
    /// The output predicates of the program
    pub output_predicates: Vec<Tag>,
}

impl NormalizedProgram {
    /// Whether every rule has a head.
    pub open spec fn rules_have_heads(&self) -> bool {
        forall|i: int| 0 <= i < self.rules@.len() ==> (#[trigger] self.rules@[i]).has_head()
    }

    /// The global annotations whose head has the predicate `tag`.
    pub open spec fn spec_global_annotations_for(&self, tag: Seq<char>) -> Seq<NormalizedGlobalAnnotation> {
        self.global_annotations@.filter(|a: NormalizedGlobalAnnotation| a.head.predicate@ == tag)
    }

    /// The termination annotations whose head has the predicate `tag`.
    pub open spec fn spec_termination_annotations_for(&self, tag: Seq<char>) -> Seq<NormalizedTerminationAnnotation> {
        self.termination_annotations@.filter(|a: NormalizedTerminationAnnotation| a.head.predicate@ == tag)
    }

    /// Create a new [NormalizedProgram].
    pub fn new(
        rules: Vec<NormalizedRule>,
        facts: Vec<GroundAtom>,
        global_annotations: Vec<NormalizedGlobalAnnotation>,
        termination_annotations: Vec<NormalizedTerminationAnnotation>,
        output_predicates: Vec<Tag>,
    ) -> (program: Self)
        ensures
            program.rules == rules,
            program.facts == facts,
            program.global_annotations == global_annotations,
            program.termination_annotations == termination_annotations,
            program.output_predicates == output_predicates,
    {
        NormalizedProgram { rules, facts, global_annotations, termination_annotations, output_predicates }
    }

    /// Return the rules of the program
    pub fn rules(&self) -> (rules: &Vec<NormalizedRule>)
        ensures
            rules == &self.rules,
    {
        &self.rules
    }

    /// Return the facts of the program
    pub fn facts(&self) -> (facts: &Vec<GroundAtom>)
        ensures
            facts == &self.facts,
    {
        &self.facts
    }

    /// Return the global annotations of the program
    pub fn global_annotations(&self) -> (annotations: &Vec<NormalizedGlobalAnnotation>)
        ensures
            annotations == &self.global_annotations,
    {
        &self.global_annotations
    }

    /// Return the termination annotations of the program
    pub fn termination_annotations(&self) -> (annotations: &Vec<NormalizedTerminationAnnotation>)
        ensures
            annotations == &self.termination_annotations,
    {
        &self.termination_annotations
    }

    /// Return the output predicates of the program
    pub fn output_predicates(&self) -> (outputs: &Vec<Tag>)
        ensures
            outputs == &self.output_predicates,
    {
        &self.output_predicates
    }

    /// Return the distinct predicates occurring in the head of some rule
    pub fn derived_predicates(&self) -> (derived: Vec<Tag>)
        ensures
            tag_views(derived@).no_duplicates(),
            tag_views(derived@).to_set() == rules_head_predicates(self.rules@),
    {
        let mut derived: Vec<Tag> = Vec::new();
        let n = self.rules.len();
        let mut i: usize = 0;
        assert(tag_views(derived@).to_set() =~= rules_head_predicates(self.rules@.take(0)));
        while i < n
            invariant
                n == self.rules@.len(),
                0 <= i <= n,
                tag_views(derived@).no_duplicates(),
                tag_views(derived@).to_set() == rules_head_predicates(self.rules@.take(i as int)),
            decreases n - i,
        {
            let head = &self.rules[i].head;
            let m = head.len();
            let mut k: usize = 0;
            let ghost start = tag_views(derived@).to_set();
            assert(start =~= start.union(head_atom_tags(head@.take(0))));
            while k < m
                invariant
                    m == head@.len(),
                    0 <= k <= m,
                    tag_views(derived@).no_duplicates(),
                    tag_views(derived@).to_set() == start.union(head_atom_tags(head@.take(k as int))),
                decreases m - k,
            {
                let ghost before = derived@;
                let tag = head[k].predicate();
                if !contains_tag(&derived, &tag) {
                    derived.push(tag);
                    proof {
                        assert(tag_views(derived@) =~= tag_views(before).push(tag@));
                        broadcast use vstd::seq_lib::group_seq_properties;
                        assert(tag_views(derived@).to_set() =~= tag_views(before).to_set().insert(tag@));
                    }
                } else {
                    assert(tag_views(derived@).to_set() =~= tag_views(before).to_set().insert(tag@));
                }
                assert(head@.take(k + 1).drop_last() =~= head@.take(k as int));
                assert(head@.take(k + 1).last() == head@[k as int]);
                assert(tag_views(derived@).contains(tag@)) by {
                    if tag_views(before).contains(tag@) {
                        let w = choose|w: int| 0 <= w < tag_views(before).len() && tag_views(before)[w] == tag@;
                        assert(tag_views(derived@)[w] == tag@);
                    } else {
                        assert(tag_views(derived@)[tag_views(derived@).len() - 1] == tag@);
                    }
                }
                k = k + 1;
                assert(tag_views(derived@).to_set() =~= start.union(head_atom_tags(head@.take(k as int))));
            }
            assert(head@.take(m as int) =~= head@);
            assert(self.rules@.take(i + 1).drop_last() =~= self.rules@.take(i as int));
            assert(self.rules@.take(i + 1).last() == self.rules@[i as int]);
            i = i + 1;
            assert(tag_views(derived@).to_set() =~= rules_head_predicates(self.rules@.take(i as int)));
        }
        assert(self.rules@.take(n as int) =~= self.rules@);
        derived
    }

    /// Return the predicates with their arities occurring in the rules and facts
    pub fn predicates(&self) -> (preds: TagIndexSet)
        ensures
            preds@ == rules_predicates(self.rules@).union(facts_predicates(self.facts@)),
    {
        let mut preds = TagIndexSet::new();
        let n = self.rules.len();
        let mut i: usize = 0;
        assert(preds@ =~= rules_predicates(self.rules@.take(0)));
        while i < n
            invariant
                n == self.rules@.len(),
                0 <= i <= n,
                preds@ == rules_predicates(self.rules@.take(i as int)),
            decreases n - i,
        {
            add_head_predicates(&self.rules[i].head, &mut preds);
            add_body_predicates(&self.rules[i].positive, &mut preds);
            add_body_predicates(&self.rules[i].negative, &mut preds);
            assert(self.rules@.take(i + 1).drop_last() =~= self.rules@.take(i as int));
            i = i + 1;
            assert(preds@ =~= rules_predicates(self.rules@.take(i as int)));
        }
        assert(self.rules@.take(n as int) =~= self.rules@);
        let m = self.facts.len();
        let mut j: usize = 0;
        let ghost start = preds@;
        assert(preds@ =~= start.union(facts_predicates(self.facts@.take(0))));
        while j < m
            invariant
                m == self.facts@.len(),
                0 <= j <= m,
                preds@ == start.union(facts_predicates(self.facts@.take(j as int))),
            decreases m - j,
        {
            preds.insert(self.facts[j].predicate(), self.facts[j].arity());
            assert(self.facts@.take(j + 1).drop_last() =~= self.facts@.take(j as int));
            j = j + 1;
            assert(preds@ =~= start.union(facts_predicates(self.facts@.take(j as int))));
        }
        assert(self.facts@.take(m as int) =~= self.facts@);
        preds
    }

    /// Return the global annotations of the predicate `tag`
    pub fn predicate_to_global_annotation(&self, tag: &Tag) -> (annotations: Vec<&NormalizedGlobalAnnotation>)
        ensures
            annotations@.map_values(|a: &NormalizedGlobalAnnotation| *a) == self.spec_global_annotations_for(tag@),
    {
        let mut result: Vec<&NormalizedGlobalAnnotation> = Vec::new();
        let n = self.global_annotations.len();
        let mut i: usize = 0;
        while i < n
            invariant
                n == self.global_annotations@.len(),
                0 <= i <= n,
                result@.map_values(|a: &NormalizedGlobalAnnotation| *a) == self.global_annotations@.take(i as int).filter(|a: NormalizedGlobalAnnotation| a.head.predicate@ == tag@),
            decreases n - i,
        {
            proof { reveal_with_fuel(Seq::<_>::filter, 1); }
            assert(self.global_annotations@.take(i + 1).drop_last() =~= self.global_annotations@.take(i as int));
            let ghost before = result@;
            if self.global_annotations[i].head.predicate == *tag {
                result.push(&self.global_annotations[i]);
                assert(result@.map_values(|a: &NormalizedGlobalAnnotation| *a) =~= before.map_values(|a: &NormalizedGlobalAnnotation| *a).push(self.global_annotations@[i as int]));
            }
            i = i + 1;
        }
        assert(self.global_annotations@.take(n as int) =~= self.global_annotations@);
        result
    }

    /// Return the termination annotations of the predicate `tag`
    pub fn predicate_to_termination_annotation(&self, tag: &Tag) -> (annotations: Vec<&NormalizedTerminationAnnotation>)
        ensures
            annotations@.map_values(|a: &NormalizedTerminationAnnotation| *a) == self.spec_termination_annotations_for(tag@),
            forall|i: int| 0 <= i < annotations@.len() ==> (#[trigger] annotations@[i]).head.predicate@ == tag@,
    {
        let mut result: Vec<&NormalizedTerminationAnnotation> = Vec::new();
        let n = self.termination_annotations.len();
        let mut i: usize = 0;
        while i < n
            invariant
                n == self.termination_annotations@.len(),
                0 <= i <= n,
                result@.map_values(|a: &NormalizedTerminationAnnotation| *a) == self.termination_annotations@.take(i as int).filter(|a: NormalizedTerminationAnnotation| a.head.predicate@ == tag@),
                forall|k: int| 0 <= k < result@.len() ==> (#[trigger] result@[k]).head.predicate@ == tag@,
            decreases n - i,
        {
            proof { reveal_with_fuel(Seq::<_>::filter, 1); }
            assert(self.termination_annotations@.take(i + 1).drop_last() =~= self.termination_annotations@.take(i as int));
            let ghost before = result@;
            if self.termination_annotations[i].head.predicate == *tag {
                result.push(&self.termination_annotations[i]);
                assert(result@.map_values(|a: &NormalizedTerminationAnnotation| *a) =~= before.map_values(|a: &NormalizedTerminationAnnotation| *a).push(self.termination_annotations@[i as int]));
            }
            i = i + 1;
        }
        assert(self.termination_annotations@.take(n as int) =~= self.termination_annotations@);
        result
    }

    /// Returns true if the predicate `tag` has a termination annotation
    pub fn predicate_has_termination_annotation(&self, tag: &Tag) -> (r: bool)
        ensures
            r == exists|i: int| 0 <= i < self.termination_annotations@.len()
                && (#[trigger] self.termination_annotations@[i]).head.predicate@ == tag@,
    {
        let n = self.termination_annotations.len();
        let mut i: usize = 0;
        while i < n
            invariant
                n == self.termination_annotations@.len(),
                0 <= i <= n,
                forall|j: int| 0 <= j < i ==> (#[trigger] self.termination_annotations@[j]).head.predicate@ != tag@,
            decreases n - i,
        {
            if self.termination_annotations[i].head.predicate == *tag {
                return true;
            }
            i = i + 1;
        }
        false
    }

    /// Return the indices of the rules whose first head atom has the predicate `tag`
    pub fn rules_with_head_predicate(&self, tag: &Tag) -> (indices: Vec<usize>)
        requires
            self.rules_have_heads(),
        ensures
            forall|j: int| 0 <= j < indices@.len() ==> indices@[j] < self.rules@.len()
                && self.rules@[indices@[j] as int].head@[0].predicate@ == tag@,
            forall|i: int| 0 <= i < self.rules@.len() && (#[trigger] self.rules@[i]).head@[0].predicate@ == tag@
                ==> indices@.contains(i as usize),
            forall|a: int, b: int| 0 <= a < b < indices@.len() ==> indices@[a] < indices@[b],
    {
        let mut indices: Vec<usize> = Vec::new();
        let n = self.rules.len();
        let mut i: usize = 0;
        while i < n
            invariant
                n == self.rules@.len(),
                0 <= i <= n,
                self.rules_have_heads(),
                forall|j: int| 0 <= j < indices@.len() ==> indices@[j] < i
                    && self.rules@[indices@[j] as int].head@[0].predicate@ == tag@,
                forall|k: int| 0 <= k < i && (#[trigger] self.rules@[k]).head@[0].predicate@ == tag@
                    ==> indices@.contains(k as usize),
                forall|a: int, b: int| 0 <= a < b < indices@.len() ==> indices@[a] < indices@[b],
            decreases n - i,
        {
            assert(self.rules@[i as int].has_head());
            let ghost before = indices@;
            if self.rules[i].head[0].predicate == *tag {
                indices.push(i);
                assert(indices@[indices@.len() - 1] == i);
            }
            assert forall|k: int| 0 <= k < i + 1 && (#[trigger] self.rules@[k]).head@[0].predicate@ == tag@
                implies indices@.contains(k as usize) by {
                if k < i {
                    let w = choose|w: int| 0 <= w < before.len() && before[w] == k as usize;
                    assert(indices@[w] == before[w]);
                } else {
                    assert(indices@[indices@.len() - 1] == i);
                }
            }
            i = i + 1;
        }
        indices
    }
}

} // verus!
