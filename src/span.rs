use vstd::prelude::*;

verus! {

/// The identity of a break for de-duplication: its `(start, end)` offsets.
pub type SpanKey = (usize, usize);

/// A candidate or accepted break region over the half-open range `start..end`.
#[derive(Clone, Debug, PartialEq, Eq)]
pub struct Span {
    /// The rule that proposed the span.
    pub rule_name: String,
    pub start: usize,
    pub end: usize,
    /// A sub-kind of break within the rule, when the rule tells them apart.
    pub split_type: Option<u8>,
    /// A text tied to the break, such as the delimiter that was matched.
    pub split_value: Option<String>,
}

impl Span {
    pub open spec fn key(self) -> SpanKey {
        (self.start, self.end)
    }

    /// The span covers a non-empty range inside a text of `text_len` offsets.
    pub open spec fn well_formed(self, text_len: int) -> bool {
        self.start < self.end <= text_len
    }

    pub fn span_key(&self) -> (r: SpanKey)
        ensures
            r == self.key(),
    {
        (self.start, self.end)
    }
}

pub open spec fn keys_of(spans: Seq<Span>) -> Seq<SpanKey> {
    spans.map_values(|s: Span| s.key())
}

/// Every span of `spans` is well formed for a text of `text_len` offsets.
pub open spec fn all_well_formed(spans: Seq<Span>, text_len: int) -> bool {
    forall|j: int| 0 <= j < spans.len() ==> (#[trigger] spans[j]).well_formed(text_len)
}

/// Collects the keys of `spans`, in order.
pub fn span_keys(spans: &Vec<Span>) -> (r: Vec<SpanKey>)
    ensures
        r@ == keys_of(spans@),
{
    let mut r: Vec<SpanKey> = Vec::with_capacity(spans.len());
    let mut i: usize = 0;
    while i < spans.len()
        invariant
            i <= spans@.len(),
            r@ == keys_of(spans@.take(i as int)),
        decreases spans@.len() - i,
    {
        r.push(spans[i].span_key());
        assert(spans@.take(i + 1) =~= spans@.take(i as int).push(spans@[i as int]));
        assert(keys_of(spans@.take(i + 1)) =~= keys_of(spans@.take(i as int)).push(
            spans@[i as int].key(),
        ));
        i = i + 1;
    }
    assert(spans@.take(i as int) =~= spans@);
    r
}

/// One stage of the pipeline: its name and the spans it accepted, in the
/// order in which they were first accepted.
#[derive(Clone, Debug, PartialEq, Eq)]
pub struct Layer {
    pub name: String,
    pub spans: Vec<Span>,
}

pub struct LayerView {
    pub name: Seq<char>,
    pub spans: Seq<Span>,
}

impl View for Layer {
    type V = LayerView;

    open spec fn view(&self) -> LayerView {
        LayerView { name: self.name@, spans: self.spans@ }
    }
}

/// The full result: every layer in pipeline order, and the final boundaries.
#[derive(Clone, Debug, PartialEq, Eq)]
pub struct Segmentation {
    pub layers: Vec<Layer>,
    pub final_boundaries: Vec<usize>,
}

pub struct SegmentationView {
    pub layers: Seq<LayerView>,
    pub final_boundaries: Seq<usize>,
}

pub open spec fn layers_view(layers: Seq<Layer>) -> Seq<LayerView> {
    layers.map_values(|l: Layer| l@)
}

impl View for Segmentation {
    type V = SegmentationView;

    open spec fn view(&self) -> SegmentationView {
        SegmentationView {
            layers: layers_view(self.layers@),
            final_boundaries: self.final_boundaries@,
        }
    }
}

} // verus!
