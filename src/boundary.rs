use vstd::prelude::*;

use crate::span::{all_well_formed, layers_view, Layer, LayerView, Span};

verus! {

/// Which offsets of an accepted span become boundaries.
#[derive(Clone, Copy, Debug, PartialEq, Eq, Structural)]
pub enum BoundaryRule {
    End,
    Start,
    StartAndEnd,
}

pub open spec fn rule_offsets(rule: BoundaryRule, s: Span) -> Set<usize> {
    match rule {
        BoundaryRule::End => set![s.end],
        BoundaryRule::Start => set![s.start],
        BoundaryRule::StartAndEnd => set![s.start, s.end],
    }
}

/// Maps a span's `split_type` to the rule that turns it into boundaries: the
/// first entry of `by_split_type` whose tag matches, else `default_rule`.
#[derive(Clone, Debug)]
pub struct BoundaryPolicy {
    pub default_rule: BoundaryRule,
    pub by_split_type: Vec<(u8, BoundaryRule)>,
}

pub open spec fn rule_in(table: Seq<(u8, BoundaryRule)>, tag: u8, default: BoundaryRule) -> BoundaryRule
    decreases table.len(),
{
    if table.len() == 0 {
        default
    } else if table[0].0 == tag {
        table[0].1
    } else {
        rule_in(table.drop_first(), tag, default)
    }
}

impl BoundaryPolicy {
    pub open spec fn rule_for(&self, split_type: Option<u8>) -> BoundaryRule {
        match split_type {
            None => self.default_rule,
            Some(tag) => rule_in(self.by_split_type@, tag, self.default_rule),
        }
    }

    /// The rule for spans of the given `split_type`.
    pub fn rule_of(&self, split_type: Option<u8>) -> (r: BoundaryRule)
        ensures
            r == self.rule_for(split_type),
    {
        match split_type {
            None => self.default_rule,
            Some(tag) => {
                let table = &self.by_split_type;
                let mut i: usize = 0;
                assert(table@.skip(0) =~= table@);
                while i < table.len()
                    invariant
                        split_type == Some(tag),
                        table == &self.by_split_type,
                        i <= table@.len(),
                        rule_in(table@, tag, self.default_rule) == rule_in(
                            table@.skip(i as int),
                            tag,
                            self.default_rule,
                        ),
                    decreases table@.len() - i,
                {
                    let entry = table[i];
                    assert(table@.skip(i as int).len() > 0);
                    assert(table@.skip(i as int)[0] == entry);
                    assert(table@.skip(i as int).drop_first() =~= table@.skip(i + 1));
                    if entry.0 == tag {
                        return entry.1;
                    }
                    i = i + 1;
                }
                assert(table@.skip(i as int).len() == 0);
                self.default_rule
            },
        }
    }
}

/// Offset `o` comes from span `j` of layer `i`, a terminal layer.
pub open spec fn contributes(
    policy: BoundaryPolicy,
    terminal: Seq<bool>,
    layers: Seq<LayerView>,
    i: int,
    j: int,
    o: usize,
) -> bool {
    &&& 0 <= i < layers.len()
    &&& i < terminal.len()
    &&& terminal[i]
    &&& 0 <= j < layers[i].spans.len()
    &&& rule_offsets(policy.rule_for(layers[i].spans[j].split_type), layers[i].spans[j]).contains(o)
}

/// Every offset that some span of a terminal layer contributes.
pub open spec fn boundary_set(policy: BoundaryPolicy, terminal: Seq<bool>, layers: Seq<LayerView>) -> Set<usize> {
    Set::new(|o: usize| exists|i: int, j: int| #[trigger] contributes(policy, terminal, layers, i, j, o))
}

/// The members of `offsets` below `n`, in increasing order.
pub open spec fn offsets_below(offsets: Set<usize>, n: nat) -> Seq<usize>
    decreases n,
{
    if n == 0 {
        Seq::empty()
    } else {
        let rest = offsets_below(offsets, (n - 1) as nat);
        if offsets.contains((n - 1) as usize) {
            rest.push((n - 1) as usize)
        } else {
            rest
        }
    }
}

/// Every layer's spans are well formed for a text of `text_len` offsets.
pub open spec fn layers_well_formed(layers: Seq<LayerView>, text_len: int) -> bool {
    forall|i: int| 0 <= i < layers.len() ==> all_well_formed(#[trigger] layers[i].spans, text_len)
}

/// Turns the spans of the terminal layers into boundary offsets, sorted and
/// without repeats. `terminal[i]` says whether layer `i` is terminal.
pub fn resolve_boundaries(
    policy: &BoundaryPolicy,
    terminal: &Vec<bool>,
    layers: &Vec<Layer>,
    text_len: usize,
) -> (r: Vec<usize>)
    requires
        text_len < usize::MAX,
        layers_well_formed(layers_view(layers@), text_len as int),
    ensures
        r@ == offsets_below(
            boundary_set(*policy, terminal@, layers_view(layers@)),
            (text_len + 1) as nat,
        ),
{
    let ghost lv = layers_view(layers@);
    let ghost bset = boundary_set(*policy, terminal@, lv);
    let mut marks: Vec<bool> = Vec::with_capacity(text_len + 1);
    let mut o: usize = 0;
    while o <= text_len
        invariant
            o <= text_len + 1,
            text_len < usize::MAX,
            marks@.len() == o,
            forall|p: int| 0 <= p < o ==> !#[trigger] marks@[p],
        decreases text_len + 1 - o,
    {
        marks.push(false);
        o = o + 1;
    }
    let mut i: usize = 0;
    while i < layers.len()
        invariant
            i <= layers@.len(),
            lv == layers_view(layers@),
            lv.len() == layers@.len(),
            layers_well_formed(lv, text_len as int),
            marks@.len() == text_len + 1,
            forall|p: usize| 0 <= p <= text_len ==> #[trigger] marks@[p as int] == exists|a: int, b: int|
                0 <= a < i && #[trigger] contributes(*policy, terminal@, lv, a, b, p),
        decreases layers@.len() - i,
    {
        if i < terminal.len() && terminal[i] {
            let spans = &layers[i].spans;
            assert(spans@ == lv[i as int].spans);
            let mut j: usize = 0;
            while j < spans.len()
                invariant
                    i < layers@.len(),
                    lv.len() == layers@.len(),
                    i < terminal@.len() && terminal@[i as int],
                    j <= spans@.len(),
                    spans@ == lv[i as int].spans,
                    all_well_formed(spans@, text_len as int),
                    marks@.len() == text_len + 1,
                    forall|p: usize| 0 <= p <= text_len ==> #[trigger] marks@[p as int] == (
                        (exists|a: int, b: int| 0 <= a < i && #[trigger] contributes(*policy, terminal@, lv, a, b, p))
                        || (exists|b: int| 0 <= b < j && #[trigger] contributes(*policy, terminal@, lv, i as int, b, p))),
                decreases spans@.len() - j,
            {
                let s = &spans[j];
                let rule = policy.rule_of(s.split_type);
                let ghost old_marks = marks@;
                assert(s.well_formed(text_len as int));
                assert(*s == lv[i as int].spans[j as int]);
                match rule {
                    BoundaryRule::End => {
                        marks.set(s.end, true);
                    },
                    BoundaryRule::Start => {
                        marks.set(s.start, true);
                    },
                    BoundaryRule::StartAndEnd => {
                        marks.set(s.start, true);
                        marks.set(s.end, true);
                    },
                }
                assert forall|p: usize| 0 <= p <= text_len implies #[trigger] marks@[p as int] == (
                    (exists|a: int, b: int| 0 <= a < i && #[trigger] contributes(*policy, terminal@, lv, a, b, p))
                    || (exists|b: int| 0 <= b < j + 1 && #[trigger] contributes(*policy, terminal@, lv, i as int, b, p))) by {
                    if contributes(*policy, terminal@, lv, i as int, j as int, p) {
                        assert(marks@[p as int]);
                    } else {
                        assert(marks@[p as int] == old_marks[p as int]);
                    }
                }
                j = j + 1;
            }
            assert forall|p: usize| 0 <= p <= text_len implies #[trigger] marks@[p as int] == exists|a: int, b: int|
                0 <= a < i + 1 && #[trigger] contributes(*policy, terminal@, lv, a, b, p) by {
                if exists|a: int, b: int| 0 <= a < i + 1 && #[trigger] contributes(*policy, terminal@, lv, a, b, p) {
                    let (a, b) = choose|a: int, b: int| 0 <= a < i + 1 && #[trigger] contributes(*policy, terminal@, lv, a, b, p);
                    if a == i {
                        assert(exists|b: int| 0 <= b < j && #[trigger] contributes(*policy, terminal@, lv, i as int, b, p));
                    }
                }
            }
        } else {
            assert forall|p: usize| 0 <= p <= text_len implies #[trigger] marks@[p as int] == exists|a: int, b: int|
                0 <= a < i + 1 && #[trigger] contributes(*policy, terminal@, lv, a, b, p) by {
                if exists|a: int, b: int| 0 <= a < i + 1 && #[trigger] contributes(*policy, terminal@, lv, a, b, p) {
                    let (a, b) = choose|a: int, b: int| 0 <= a < i + 1 && #[trigger] contributes(*policy, terminal@, lv, a, b, p);
                    assert(a != i);
                }
            }
        }
        i = i + 1;
    }
    let mut r: Vec<usize> = Vec::new();
    let mut o: usize = 0;
    while o <= text_len
        invariant
            o <= text_len + 1,
            text_len < usize::MAX,
            marks@.len() == text_len + 1,
            forall|p: usize| 0 <= p <= text_len ==> #[trigger] marks@[p as int] == bset.contains(p),
            r@ == offsets_below(bset, o as nat),
        decreases text_len + 1 - o,
    {
        if marks[o] {
            r.push(o);
        }
        o = o + 1;
    }
    r
}

} // verus!
