use vstd::prelude::*;

use crate::boundary::{
    boundary_set, contributes, layers_well_formed, offsets_below, resolve_boundaries, BoundaryPolicy,
};
use crate::filter::{filter_previous_rule_same_span, filter_spans, fresh_positions};
use crate::span::{
    all_well_formed, keys_of, layers_view, span_keys, Layer, LayerView, Segmentation,
    SegmentationView, Span, SpanKey,
};
use crate::util::reversed;

verus! {

/// The keys that the next layer is filtered against: those of the last layer
/// so far, or none before the first layer.
pub open spec fn previous_keys(layers: Seq<LayerView>) -> Seq<SpanKey> {
    if layers.len() == 0 {
        Seq::empty()
    } else {
        keys_of(layers.last().spans)
    }
}

/// The layers that come out of running the raw candidates `raw` through the
/// pipeline, layer `i` named `names[i]`.
pub open spec fn accumulate(names: Seq<Seq<char>>, raw: Seq<Seq<Span>>) -> Seq<LayerView>
    decreases raw.len(),
{
    if raw.len() == 0 {
        Seq::empty()
    } else {
        let n = raw.len() - 1;
        let before = accumulate(names, raw.take(n));
        before.push(LayerView { name: names[n], spans: filter_spans(previous_keys(before), raw[n]) })
    }
}

proof fn lemma_accumulate_step(names: Seq<Seq<char>>, raw: Seq<Seq<Span>>, i: int)
    requires
        0 <= i < raw.len(),
    ensures
        accumulate(names, raw.take(i + 1)) == accumulate(names, raw.take(i)).push(
            LayerView {
                name: names[i],
                spans: filter_spans(previous_keys(accumulate(names, raw.take(i))), raw[i]),
            },
        ),
{
    let t = raw.take(i + 1);
    assert(t.take(i) =~= raw.take(i));
}

proof fn lemma_fresh_positions_in_range(previous: Seq<SpanKey>, keys: Seq<SpanKey>)
    ensures
        forall|m: int| 0 <= m < fresh_positions(previous, keys).len() ==>
            0 <= #[trigger] fresh_positions(previous, keys)[m] < keys.len(),
    decreases keys.len(),
{
    if keys.len() > 0 {
        let n = keys.len() - 1;
        lemma_fresh_positions_in_range(previous, keys.take(n));
        let rest = fresh_positions(previous, keys.take(n));
        let all = fresh_positions(previous, keys);
        assert forall|m: int| 0 <= m < all.len() implies 0 <= #[trigger] all[m] < keys.len() by {
            if m < rest.len() {
                assert(all[m] == rest[m]);
            }
        }
    }
}

/// Every accepted span is one of the candidates.
pub proof fn lemma_filter_spans_from_current(previous: Seq<SpanKey>, current: Seq<Span>)
    ensures
        forall|m: int| 0 <= m < filter_spans(previous, current).len() ==>
            current.contains(#[trigger] filter_spans(previous, current)[m]),
{
    lemma_fresh_positions_in_range(previous, keys_of(current));
    let pos = fresh_positions(previous, keys_of(current));
    assert forall|m: int| 0 <= m < filter_spans(previous, current).len() implies
        current.contains(#[trigger] filter_spans(previous, current)[m]) by {
        assert(0 <= pos[m] < current.len());
        assert(filter_spans(previous, current)[m] == current[pos[m]]);
    }
}

proof fn lemma_filter_spans_well_formed(previous: Seq<SpanKey>, current: Seq<Span>, text_len: int)
    requires
        all_well_formed(current, text_len),
    ensures
        all_well_formed(filter_spans(previous, current), text_len),
{
    lemma_filter_spans_from_current(previous, current);
    assert forall|m: int| 0 <= m < filter_spans(previous, current).len() implies
        (#[trigger] filter_spans(previous, current)[m]).well_formed(text_len) by {
        let s = filter_spans(previous, current)[m];
        assert(current.contains(s));
    }
}

/// Candidates that are well formed give layers that are well formed.
pub proof fn lemma_accumulate_well_formed(names: Seq<Seq<char>>, raw: Seq<Seq<Span>>, text_len: int)
    requires
        forall|i: int| 0 <= i < raw.len() ==> all_well_formed(#[trigger] raw[i], text_len),
    ensures
        accumulate(names, raw).len() == raw.len(),
        layers_well_formed(accumulate(names, raw), text_len),
    decreases raw.len(),
{
    if raw.len() > 0 {
        let n = raw.len() - 1;
        let t = raw.take(n);
        assert forall|i: int| 0 <= i < t.len() implies all_well_formed(#[trigger] t[i], text_len) by {
            assert(t[i] == raw[i]);
        }
        lemma_accumulate_well_formed(names, t, text_len);
        let before = accumulate(names, t);
        lemma_filter_spans_well_formed(previous_keys(before), raw[n], text_len);
    }
}

/// Runs layers one at a time: each call hands in one layer's raw candidates,
/// which are filtered against the layer accepted just before.
pub struct LayerAccumulator {
    layers: Vec<Layer>,
    previous: Vec<SpanKey>,
}

impl View for LayerAccumulator {
    type V = Seq<LayerView>;

    closed spec fn view(&self) -> Seq<LayerView> {
        layers_view(self.layers@)
    }
}

impl LayerAccumulator {
    pub closed spec fn wf(&self) -> bool {
        self.previous@ == previous_keys(self@)
    }

    pub fn new() -> (r: LayerAccumulator)
        ensures
            r.wf(),
            r@ == Seq::<LayerView>::empty(),
    {
        let r = LayerAccumulator { layers: Vec::new(), previous: Vec::new() };
        assert(r@ =~= Seq::<LayerView>::empty());
        r
    }

    /// Adds a layer called `name` that holds the spans of `raw` that survive
    /// filtering against the last layer.
    pub fn push_layer(&mut self, name: String, raw: Vec<Span>)
        requires
            old(self).wf(),
        ensures
            final(self).wf(),
            final(self)@ == old(self)@.push(
                LayerView { name: name@, spans: filter_spans(previous_keys(old(self)@), raw@) },
            ),
    {
        let spans = filter_previous_rule_same_span(&self.previous, raw);
        let keys = span_keys(&spans);
        self.layers.push(Layer { name, spans });
        self.previous = keys;
        assert(self@ =~= old(self)@.push(
            LayerView { name: name@, spans: filter_spans(previous_keys(old(self)@), raw@) },
        ));
    }

    /// The layers accepted so far, in pipeline order.
    pub fn layers(&self) -> (r: &Vec<Layer>)
        ensures
            layers_view(r@) == self@,
    {
        &self.layers
    }

    pub fn into_layers(self) -> (r: Vec<Layer>)
        ensures
            layers_view(r@) == self@,
    {
        self.layers
    }
}

/// One configured rule layer: its name, and whether its spans are turned into
/// final boundaries.
#[derive(Clone, Debug)]
pub struct LayerDef {
    pub name: String,
    pub terminal: bool,
}

/// The ordered rule layers and the policy that resolves boundaries.
#[derive(Clone, Debug)]
pub struct Segmenter {
    pub layers: Vec<LayerDef>,
    pub policy: BoundaryPolicy,
}

pub open spec fn layer_names(defs: Seq<LayerDef>) -> Seq<Seq<char>> {
    defs.map_values(|d: LayerDef| d.name@)
}

pub open spec fn terminal_flags(defs: Seq<LayerDef>) -> Seq<bool> {
    defs.map_values(|d: LayerDef| d.terminal)
}

pub open spec fn candidates_view(candidates: Seq<Vec<Span>>) -> Seq<Seq<Span>> {
    candidates.map_values(|v: Vec<Span>| v@)
}

impl Segmenter {
    /// One list of raw candidates per configured layer, each span well formed
    /// for a text of `text_len` offsets.
    pub open spec fn valid_candidates(&self, text_len: int, raw: Seq<Seq<Span>>) -> bool {
        &&& raw.len() == self.layers@.len()
        &&& forall|i: int| 0 <= i < raw.len() ==> all_well_formed(#[trigger] raw[i], text_len)
    }

    /// The boundaries that the terminal layers of `layers` give.
    pub open spec fn boundaries_of(&self, text_len: nat, layers: Seq<LayerView>) -> Seq<usize> {
        offsets_below(boundary_set(self.policy, terminal_flags(self.layers@), layers), text_len + 1)
    }

    /// What segmenting a text of `text_len` offsets yields from the raw
    /// candidates `raw`.
    pub open spec fn segment_spec(&self, text_len: nat, raw: Seq<Seq<Span>>) -> SegmentationView {
        let layers = accumulate(layer_names(self.layers@), raw);
        SegmentationView { layers, final_boundaries: self.boundaries_of(text_len, layers) }
    }

    /// Runs every layer over its raw candidates, in order, then resolves the
    /// final boundaries. Offsets count bytes of `text`.
    pub fn segment(&self, text: &str, candidates: Vec<Vec<Span>>) -> (r: Segmentation)
        requires
            text.len() < usize::MAX,
            self.valid_candidates(text.len() as int, candidates_view(candidates@)),
        ensures
            r@ == self.segment_spec(text.len() as nat, candidates_view(candidates@)),
    {
        let ghost raw = candidates_view(candidates@);
        let ghost names = layer_names(self.layers@);
        let text_len = text.len();
        let n = candidates.len();
        let mut rev = reversed(candidates);
        let mut acc = LayerAccumulator::new();
        let mut i: usize = 0;
        assert(raw.take(0) =~= Seq::<Seq<Span>>::empty());
        while i < n
            invariant
                n == raw.len(),
                n == self.layers@.len(),
                i <= n,
                names == layer_names(self.layers@),
                rev@.len() == n - i,
                forall|k: int| 0 <= k < rev@.len() ==> #[trigger] rev@[k]@ == raw[n - 1 - k],
                acc.wf(),
                acc@ == accumulate(names, raw.take(i as int)),
            decreases n - i,
        {
            let ghost before = rev@;
            let spans = rev.pop();
            assert(rev@ =~= before.drop_last());
            proof {
                lemma_accumulate_step(names, raw, i as int);
            }
            match spans {
                Some(spans) => {
                    assert(spans@ == raw[i as int]);
                    let name = self.layers[i].name.clone();
                    acc.push_layer(name, spans);
                },
                None => {},
            }
            i = i + 1;
        }
        assert(raw.take(n as int) =~= raw);
        let layers = acc.into_layers();
        let mut terminal: Vec<bool> = Vec::with_capacity(n);
        let mut k: usize = 0;
        while k < self.layers.len()
            invariant
                k <= self.layers@.len(),
                terminal@ == terminal_flags(self.layers@.take(k as int)),
            decreases self.layers@.len() - k,
        {
            terminal.push(self.layers[k].terminal);
            assert(self.layers@.take(k + 1) =~= self.layers@.take(k as int).push(self.layers@[k as int]));
            assert(terminal@ =~= terminal_flags(self.layers@.take(k + 1)));
            k = k + 1;
        }
        assert(self.layers@.take(k as int) =~= self.layers@);
        proof {
            lemma_accumulate_well_formed(names, raw, text_len as int);
        }
        let final_boundaries = resolve_boundaries(&self.policy, &terminal, &layers, text_len);
        Segmentation { layers, final_boundaries }
    }

    /// The final boundaries alone, as `segment` gives them. The spans of
    /// layers that are not terminal are dropped as soon as the next layer
    /// has been filtered against them.
    pub fn segment_boundaries(&self, text: &str, candidates: Vec<Vec<Span>>) -> (r: Vec<usize>)
        requires
            text.len() < usize::MAX,
            self.valid_candidates(text.len() as int, candidates_view(candidates@)),
        ensures
            r@ == self.segment_spec(text.len() as nat, candidates_view(candidates@)).final_boundaries,
    {
        let ghost raw = candidates_view(candidates@);
        let ghost names = layer_names(self.layers@);
        let ghost flags = terminal_flags(self.layers@);
        let text_len = text.len();
        let n = candidates.len();
        let mut rev = reversed(candidates);
        let mut previous: Vec<SpanKey> = Vec::new();
        let mut kept: Vec<Layer> = Vec::with_capacity(n);
        let mut terminal: Vec<bool> = Vec::with_capacity(n);
        let mut i: usize = 0;
        assert(raw.take(0) =~= Seq::<Seq<Span>>::empty());
        assert(layers_view(kept@) =~= terminal_only(flags, accumulate(names, raw.take(0))));
        while i < n
            invariant
                n == raw.len(),
                n == self.layers@.len(),
                i <= n,
                names == layer_names(self.layers@),
                flags == terminal_flags(self.layers@),
                rev@.len() == n - i,
                forall|k: int| 0 <= k < rev@.len() ==> #[trigger] rev@[k]@ == raw[n - 1 - k],
                previous@ == previous_keys(accumulate(names, raw.take(i as int))),
                terminal@ == flags.take(i as int),
                layers_view(kept@) == terminal_only(flags, accumulate(names, raw.take(i as int))),
            decreases n - i,
        {
            let ghost before = rev@;
            let ghost acc = accumulate(names, raw.take(i as int));
            let spans = rev.pop();
            assert(rev@ =~= before.drop_last());
            proof {
                lemma_accumulate_step(names, raw, i as int);
                lemma_accumulate_len(names, raw.take(i as int));
            }
            let ghost next = accumulate(names, raw.take(i + 1));
            let is_terminal = self.layers[i].terminal;
            match spans {
                Some(spans) => {
                    assert(spans@ == raw[i as int]);
                    let accepted = filter_previous_rule_same_span(&previous, spans);
                    previous = span_keys(&accepted);
                    if is_terminal {
                        kept.push(Layer { name: String::new(), spans: accepted });
                    } else {
                        kept.push(Layer { name: String::new(), spans: Vec::new() });
                    }
                },
                None => {},
            }
            terminal.push(is_terminal);
            assert(terminal@ =~= flags.take(i + 1));
            proof {
                let lv = layers_view(kept@);
                let want = terminal_only(flags, next);
                assert(acc.len() == i);
                assert(terminal_only(flags, acc).len() == i);
                assert(kept@.len() == i + 1);
                assert(next.len() == i + 1);
                assert(is_terminal == flags[i as int]);
                assert(lv.len() == want.len());
                assert forall|k: int| 0 <= k < lv.len() implies lv[k] == want[k] by {
                    if k < i {
                        assert(next[k] == acc[k]);
                        assert(lv[k] == terminal_only(flags, acc)[k]);
                    } else {
                        assert(next[k].spans == filter_spans(previous_keys(acc), raw[i as int]));
                        assert(lv[k].name == Seq::<char>::empty());
                        assert(lv[k].spans == want[k].spans);
                    }
                }
                assert(lv =~= want);
            }
            i = i + 1;
        }
        assert(raw.take(n as int) =~= raw);
        assert(flags.take(n as int) =~= flags);
        proof {
            let layers = accumulate(names, raw);
            lemma_accumulate_well_formed(names, raw, text_len as int);
            lemma_terminal_only(self.policy, flags, layers, text_len as int);
        }
        resolve_boundaries(&self.policy, &terminal, &kept, text_len)
    }
}

/// `layers` with the spans of every layer that is not terminal left out, and
/// every name left out.
pub open spec fn terminal_only(terminal: Seq<bool>, layers: Seq<LayerView>) -> Seq<LayerView> {
    Seq::new(
        layers.len(),
        |i: int|
            LayerView {
                name: Seq::empty(),
                spans: if terminal[i] {
                    layers[i].spans
                } else {
                    Seq::empty()
                },
            },
    )
}

pub proof fn lemma_accumulate_len(names: Seq<Seq<char>>, raw: Seq<Seq<Span>>)
    ensures
        accumulate(names, raw).len() == raw.len(),
    decreases raw.len(),
{
    if raw.len() > 0 {
        lemma_accumulate_len(names, raw.take(raw.len() - 1));
    }
}

/// Leaving out what only layers that are not terminal hold changes no
/// boundary.
pub proof fn lemma_terminal_only(policy: BoundaryPolicy, terminal: Seq<bool>, layers: Seq<LayerView>, text_len: int)
    requires
        terminal.len() == layers.len(),
        layers_well_formed(layers, text_len),
    ensures
        layers_well_formed(terminal_only(terminal, layers), text_len),
        boundary_set(policy, terminal, terminal_only(terminal, layers)) == boundary_set(policy, terminal, layers),
{
    let stripped = terminal_only(terminal, layers);
    assert forall|i: int| 0 <= i < stripped.len() implies all_well_formed(#[trigger] stripped[i].spans, text_len) by {
        assert(all_well_formed(layers[i].spans, text_len));
    }
    assert forall|o: usize| boundary_set(policy, terminal, stripped).contains(o) <==> boundary_set(policy, terminal, layers).contains(o) by {
        if boundary_set(policy, terminal, stripped).contains(o) {
            let (i, j) = choose|i: int, j: int| #[trigger] contributes(policy, terminal, stripped, i, j, o);
            assert(contributes(policy, terminal, layers, i, j, o));
        }
        if boundary_set(policy, terminal, layers).contains(o) {
            let (i, j) = choose|i: int, j: int| #[trigger] contributes(policy, terminal, layers, i, j, o);
            assert(contributes(policy, terminal, stripped, i, j, o));
        }
    }
    assert(boundary_set(policy, terminal, stripped) =~= boundary_set(policy, terminal, layers));
}

} // verus!
