use vstd::prelude::*;

use crate::boundary::{boundary_set, contributes, offsets_below, BoundaryPolicy};
use crate::filter::{filter_spans, fresh_positions, is_fresh, select};
use crate::pipeline::{
    accumulate, layer_names, lemma_accumulate_len, lemma_accumulate_well_formed, lemma_terminal_only,
    previous_keys, terminal_flags, terminal_only, Segmenter,
};
use crate::span::{keys_of, LayerView, Span, SpanKey};

verus! {

broadcast use vstd::seq_lib::group_seq_properties;

/// The members of `s` rise strictly from each position to the next.
pub open spec fn strictly_increasing(s: Seq<usize>) -> bool {
    forall|a: int, b: int| 0 <= a < b < s.len() ==> s[a] < s[b]
}

proof fn lemma_take_take<T>(s: Seq<T>, n: int, p: int)
    requires
        0 <= p <= n <= s.len(),
    ensures
        s.take(n).take(p) == s.take(p),
{
    assert(s.take(n).take(p) =~= s.take(p));
}

/// The kept positions rise strictly, and a position is kept exactly when it
/// is fresh.
pub proof fn lemma_fresh_positions_characterized(previous: Seq<SpanKey>, keys: Seq<SpanKey>)
    ensures
        forall|a: int, b: int| 0 <= a < b < fresh_positions(previous, keys).len() ==>
            fresh_positions(previous, keys)[a] < fresh_positions(previous, keys)[b],
        forall|m: int| 0 <= m < fresh_positions(previous, keys).len() ==> {
            let p = #[trigger] fresh_positions(previous, keys)[m];
            0 <= p < keys.len() && is_fresh(previous, keys, p)
        },
        forall|p: int| 0 <= p < keys.len() && is_fresh(previous, keys, p) ==>
            #[trigger] fresh_positions(previous, keys).contains(p),
    decreases keys.len(),
{
    if keys.len() > 0 {
        let n = keys.len() - 1;
        let t = keys.take(n);
        lemma_fresh_positions_characterized(previous, t);
        let rest = fresh_positions(previous, t);
        let all = fresh_positions(previous, keys);
        assert forall|p: int| 0 <= p < n implies is_fresh(previous, t, p) == is_fresh(previous, keys, p) by {
            lemma_take_take(keys, n, p);
        }
        assert forall|m: int| 0 <= m < all.len() implies {
            let p = #[trigger] all[m];
            0 <= p < keys.len() && is_fresh(previous, keys, p)
        } by {
            if m < rest.len() {
                assert(all[m] == rest[m]);
            }
        }
        assert forall|p: int| 0 <= p < keys.len() && is_fresh(previous, keys, p) implies #[trigger] all.contains(p) by {
            if p < n {
                assert(rest.contains(p));
                let m = choose|m: int| 0 <= m < rest.len() && rest[m] == p;
                assert(all[m] == p);
            } else {
                assert(all[all.len() - 1] == p);
            }
        }
    }
}

proof fn lemma_first_occurrence(keys: Seq<SpanKey>, k: SpanKey)
    requires
        keys.contains(k),
    ensures
        exists|p: int| 0 <= p < keys.len() && keys[p] == k && !#[trigger] keys.take(p).contains(k),
    decreases keys.len(),
{
    let n = keys.len() - 1;
    let t = keys.take(n);
    if t.contains(k) {
        lemma_first_occurrence(t, k);
        let p = choose|p: int| 0 <= p < t.len() && t[p] == k && !#[trigger] t.take(p).contains(k);
        lemma_take_take(keys, n, p);
        assert(keys[p] == k);
    } else {
        let j = choose|j: int| 0 <= j < keys.len() && keys[j] == k;
        if j < n {
            assert(t[j] == k);
        }
        assert(keys.take(n) == t);
    }
}

/// The keys that a layer accepts are distinct and none of them was accepted
/// by the layer before it.
pub proof fn lemma_filter_keys_unique(previous: Seq<SpanKey>, current: Seq<Span>)
    ensures
        keys_of(filter_spans(previous, current)).no_duplicates(),
        forall|m: int| 0 <= m < filter_spans(previous, current).len() ==>
            !previous.contains(#[trigger] filter_spans(previous, current)[m].key()),
{
    let keys = keys_of(current);
    let pos = fresh_positions(previous, keys);
    lemma_fresh_positions_characterized(previous, keys);
    let out = filter_spans(previous, current);
    let ko = keys_of(out);
    assert forall|a: int, b: int| 0 <= a < ko.len() && 0 <= b < ko.len() && a != b implies ko[a] != ko[b] by {
        let (x, y) = if a < b { (a, b) } else { (b, a) };
        let (px, py) = (pos[x], pos[y]);
        assert(px < py);
        assert(is_fresh(previous, keys, py));
        assert(keys.take(py)[px] == keys[px]);
        assert(ko[x] == keys[px]);
        assert(ko[y] == keys[py]);
    }
    assert forall|m: int| 0 <= m < out.len() implies !previous.contains(#[trigger] out[m].key()) by {
        assert(is_fresh(previous, keys, pos[m]));
        assert(out[m].key() == keys[pos[m]]);
    }
}

/// Filtering keeps one span for each distinct candidate key that the layer
/// before did not accept, so the two layers together hold `previous.len()`
/// plus that many spans.
pub proof fn lemma_kept_count(previous: Seq<SpanKey>, current: Seq<SpanKey>)
    ensures
        fresh_positions(previous, current).len() == current.to_set().difference(previous.to_set()).len(),
{
    let pos = fresh_positions(previous, current);
    lemma_fresh_positions_characterized(previous, current);
    let kept = select(current, pos);
    assert forall|a: int, b: int| 0 <= a < kept.len() && 0 <= b < kept.len() && a != b implies kept[a] != kept[b] by {
        let (x, y) = if a < b { (a, b) } else { (b, a) };
        assert(pos[x] < pos[y]);
        assert(is_fresh(previous, current, pos[y]));
        assert(current.take(pos[y])[pos[x]] == current[pos[x]]);
    }
    let target = current.to_set().difference(previous.to_set());
    assert forall|k: SpanKey| kept.to_set().contains(k) <==> target.contains(k) by {
        if kept.to_set().contains(k) {
            let m = choose|m: int| 0 <= m < kept.len() && kept[m] == k;
            assert(is_fresh(previous, current, pos[m]));
            assert(current.contains(k));
        }
        if target.contains(k) {
            lemma_first_occurrence(current, k);
            let p = choose|p: int| 0 <= p < current.len() && current[p] == k && !#[trigger] current.take(p).contains(k);
            assert(is_fresh(previous, current, p));
            assert(pos.contains(p));
            let m = choose|m: int| 0 <= m < pos.len() && pos[m] == p;
            assert(kept[m] == k);
        }
    }
    assert(kept.to_set() =~= target);
    kept.unique_seq_to_set();
}

proof fn lemma_offsets_below(offsets: Set<usize>, n: nat)
    requires
        n <= usize::MAX + 1,
    ensures
        strictly_increasing(offsets_below(offsets, n)),
        forall|o: usize| #[trigger] offsets_below(offsets, n).contains(o) <==> (o < n && offsets.contains(o)),
    decreases n,
{
    if n > 0 {
        lemma_offsets_below(offsets, (n - 1) as nat);
        let rest = offsets_below(offsets, (n - 1) as nat);
        assert forall|m: int| 0 <= m < rest.len() implies rest[m] < n - 1 by {
            assert(rest.contains(rest[m]));
        }
        let all = offsets_below(offsets, n);
        assert forall|a: int, b: int| 0 <= a < b < all.len() implies all[a] < all[b] by {
            if b < rest.len() {
                assert(all[a] == rest[a] && all[b] == rest[b]);
            } else {
                assert(offsets.contains((n - 1) as usize));
                assert(all == rest.push((n - 1) as usize));
                assert(all[a] == rest[a]);
                assert(rest[a] < n - 1);
            }
        }
    }
}

/// The final boundaries rise strictly (so hold no repeats), each lies in
/// `0..=text_len`, and they are exactly the offsets that the terminal layers
/// contribute.
pub proof fn lemma_final_boundaries_well_formed(seg: Segmenter, text_len: nat, raw: Seq<Seq<Span>>)
    requires
        text_len <= usize::MAX,
        seg.valid_candidates(text_len as int, raw),
    ensures
        strictly_increasing(seg.segment_spec(text_len, raw).final_boundaries),
        forall|k: int| 0 <= k < seg.segment_spec(text_len, raw).final_boundaries.len() ==>
            #[trigger] seg.segment_spec(text_len, raw).final_boundaries[k] <= text_len,
        forall|o: usize| #[trigger] seg.segment_spec(text_len, raw).final_boundaries.contains(o) <==> boundary_set(
            seg.policy,
            terminal_flags(seg.layers@),
            seg.segment_spec(text_len, raw).layers,
        ).contains(o),
{
    let layers = accumulate(layer_names(seg.layers@), raw);
    let bset = boundary_set(seg.policy, terminal_flags(seg.layers@), layers);
    let fb = seg.segment_spec(text_len, raw).final_boundaries;
    lemma_offsets_below(bset, text_len + 1);
    lemma_accumulate_well_formed(layer_names(seg.layers@), raw, text_len as int);
    assert forall|k: int| 0 <= k < fb.len() implies #[trigger] fb[k] <= text_len by {
        assert(fb.contains(fb[k]));
    }
    assert forall|o: usize| bset.contains(o) implies o <= text_len by {
        let (i, j) = choose|i: int, j: int| #[trigger] contributes(seg.policy, terminal_flags(seg.layers@), layers, i, j, o);
        assert(layers[i].spans[j].well_formed(text_len as int));
    }
}

/// Each layer holds no two spans with the same key, and none of its keys was
/// accepted by the layer just before it.
pub proof fn lemma_layers_unique(seg: Segmenter, text_len: nat, raw: Seq<Seq<Span>>, i: int)
    requires
        seg.valid_candidates(text_len as int, raw),
        0 <= i < raw.len(),
    ensures
        keys_of(seg.segment_spec(text_len, raw).layers[i].spans).no_duplicates(),
        i > 0 ==> forall|m: int| 0 <= m < seg.segment_spec(text_len, raw).layers[i].spans.len() ==>
            !keys_of(seg.segment_spec(text_len, raw).layers[i - 1].spans).contains(
                #[trigger] seg.segment_spec(text_len, raw).layers[i].spans[m].key(),
            ),
{
    let names = layer_names(seg.layers@);
    let layers = accumulate(names, raw);
    lemma_accumulate_prefix(names, raw, i);
    let before = accumulate(names, raw.take(i));
    lemma_filter_keys_unique(previous_keys(before), raw[i]);
    if i > 0 {
        lemma_accumulate_prefix(names, raw, i - 1);
        assert(raw.take(i).take(i - 1) =~= raw.take(i - 1));
        assert(before.last() == layers[i - 1]);
    }
}

/// Layer `i` of the whole run is layer `i` of the run over the first `i + 1`
/// candidate lists, and filtered against the layer before it.
proof fn lemma_accumulate_prefix(names: Seq<Seq<char>>, raw: Seq<Seq<Span>>, i: int)
    requires
        0 <= i < raw.len(),
    ensures
        accumulate(names, raw).len() == raw.len(),
        accumulate(names, raw.take(i)).len() == i,
        accumulate(names, raw)[i] == (LayerView {
            name: names[i],
            spans: filter_spans(previous_keys(accumulate(names, raw.take(i))), raw[i]),
        }),
        forall|k: int| 0 <= k < i ==> accumulate(names, raw)[k] == #[trigger] accumulate(names, raw.take(i))[k],
    decreases raw.len(),
{
    lemma_accumulate_len(names, raw);
    lemma_accumulate_len(names, raw.take(i));
    let n = raw.len() - 1;
    if i < n {
        let t = raw.take(n);
        lemma_accumulate_prefix(names, t, i);
        assert(t.take(i) =~= raw.take(i));
        assert(t[i] == raw[i]);
    }
}

/// There is one layer per configured layer, named as configured, whatever
/// the candidates hold.
pub proof fn lemma_layer_count(seg: Segmenter, text_len: nat, raw: Seq<Seq<Span>>)
    requires
        seg.valid_candidates(text_len as int, raw),
    ensures
        seg.segment_spec(text_len, raw).layers.len() == seg.layers@.len(),
        forall|i: int| 0 <= i < seg.layers@.len() ==>
            #[trigger] seg.segment_spec(text_len, raw).layers[i].name == seg.layers@[i].name@,
{
    let names = layer_names(seg.layers@);
    lemma_accumulate_len(names, raw);
    assert forall|i: int| 0 <= i < seg.layers@.len() implies
        #[trigger] seg.segment_spec(text_len, raw).layers[i].name == seg.layers@[i].name@ by {
        lemma_accumulate_prefix(names, raw, i);
    }
}

/// An empty text gives every configured layer, each empty, and no boundaries.
pub proof fn lemma_empty_text(seg: Segmenter, raw: Seq<Seq<Span>>)
    requires
        seg.valid_candidates(0, raw),
    ensures
        seg.segment_spec(0, raw).layers.len() == seg.layers@.len(),
        forall|i: int| 0 <= i < seg.layers@.len() ==> (#[trigger] seg.segment_spec(0, raw).layers[i]).spans.len() == 0,
        seg.segment_spec(0, raw).final_boundaries.len() == 0,
{
    lemma_layer_count(seg, 0, raw);
    lemma_accumulate_well_formed(layer_names(seg.layers@), raw, 0);
    let layers = seg.segment_spec(0, raw).layers;
    assert forall|i: int| 0 <= i < seg.layers@.len() implies (#[trigger] layers[i]).spans.len() == 0 by {
        if layers[i].spans.len() > 0 {
            assert(layers[i].spans[0].well_formed(0));
        }
    }
    lemma_final_boundaries_well_formed(seg, 0, raw);
    let fb = seg.segment_spec(0, raw).final_boundaries;
    if fb.len() > 0 {
        let o = fb[0];
        assert(fb.contains(o));
        let bset = boundary_set(seg.policy, terminal_flags(seg.layers@), layers);
        let (i, j) = choose|i: int, j: int| #[trigger] contributes(seg.policy, terminal_flags(seg.layers@), layers, i, j, o);
    }
}

/// Two segmenters with the same layer names, terminal flags and policy give
/// the same result on the same text length and candidates.
pub proof fn lemma_segment_deterministic(a: Segmenter, b: Segmenter, text_len: nat, raw: Seq<Seq<Span>>)
    requires
        layer_names(a.layers@) == layer_names(b.layers@),
        terminal_flags(a.layers@) == terminal_flags(b.layers@),
        a.policy == b.policy,
    ensures
        a.segment_spec(text_len, raw) == b.segment_spec(text_len, raw),
{
}

/// Two strictly rising sequences with the same members are equal: the final
/// boundaries are fixed by the set of offsets alone.
pub proof fn lemma_sorted_unique(s: Seq<usize>, t: Seq<usize>)
    requires
        strictly_increasing(s),
        strictly_increasing(t),
        forall|o: usize| s.contains(o) <==> t.contains(o),
    ensures
        s == t,
    decreases s.len() + t.len(),
{
    if s.len() > 0 && t.len() > 0 {
        let (ls, lt) = (s.last(), t.last());
        assert(s.contains(ls) && t.contains(lt));
        let i = choose|i: int| 0 <= i < s.len() && s[i] == lt;
        let j = choose|j: int| 0 <= j < t.len() && t[j] == ls;
        assert(ls == lt) by {
            if i < s.len() - 1 { assert(s[i] < ls); }
            if j < t.len() - 1 { assert(t[j] < lt); }
        }
        let (sd, td) = (s.drop_last(), t.drop_last());
        assert forall|o: usize| sd.contains(o) <==> td.contains(o) by {
            if sd.contains(o) {
                let k = choose|k: int| 0 <= k < sd.len() && sd[k] == o;
                assert(s[k] < ls);
                assert(t.contains(o));
                let q = choose|q: int| 0 <= q < t.len() && t[q] == o;
                assert(q != t.len() - 1);
                assert(td[q] == o);
            }
            if td.contains(o) {
                let k = choose|k: int| 0 <= k < td.len() && td[k] == o;
                assert(t[k] < lt);
                assert(s.contains(o));
                let q = choose|q: int| 0 <= q < s.len() && s[q] == o;
                assert(q != s.len() - 1);
                assert(sd[q] == o);
            }
        }
        lemma_sorted_unique(sd, td);
        assert(s =~= sd.push(ls));
        assert(t =~= td.push(lt));
    } else if s.len() > 0 {
        assert(s.contains(s[0]));
    } else if t.len() > 0 {
        assert(t.contains(t[0]));
    } else {
        assert(s =~= t);
    }
}

/// The final boundaries of a full segmentation are those of its terminal
/// layers alone, which is all that `segment_boundaries` keeps.
pub proof fn lemma_boundaries_consistent(seg: Segmenter, text_len: nat, raw: Seq<Seq<Span>>)
    requires
        seg.valid_candidates(text_len as int, raw),
    ensures
        seg.segment_spec(text_len, raw).final_boundaries == seg.boundaries_of(
            text_len,
            terminal_only(terminal_flags(seg.layers@), seg.segment_spec(text_len, raw).layers),
        ),
{
    let layers = accumulate(layer_names(seg.layers@), raw);
    lemma_accumulate_well_formed(layer_names(seg.layers@), raw, text_len as int);
    lemma_terminal_only(seg.policy, terminal_flags(seg.layers@), layers, text_len as int);
}

/// The boundaries depend only on which spans each terminal layer holds, not
/// on their order or on repeats.
pub proof fn lemma_boundaries_order_independent(
    policy: BoundaryPolicy,
    terminal: Seq<bool>,
    a: Seq<LayerView>,
    b: Seq<LayerView>,
)
    requires
        a.len() == b.len(),
        forall|i: int| 0 <= i < a.len() && i < terminal.len() && terminal[i] ==>
            (#[trigger] a[i]).spans.to_set() == b[i].spans.to_set(),
    ensures
        boundary_set(policy, terminal, a) == boundary_set(policy, terminal, b),
{
    assert forall|o: usize| boundary_set(policy, terminal, a).contains(o) implies boundary_set(policy, terminal, b).contains(o) by {
        let (i, j) = choose|i: int, j: int| #[trigger] contributes(policy, terminal, a, i, j, o);
        let s = a[i].spans[j];
        assert(a[i].spans.to_set().contains(s));
        assert(b[i].spans.to_set().contains(s));
        let k = choose|k: int| 0 <= k < b[i].spans.len() && b[i].spans[k] == s;
        assert(contributes(policy, terminal, b, i, k, o));
    }
    assert forall|o: usize| boundary_set(policy, terminal, b).contains(o) implies boundary_set(policy, terminal, a).contains(o) by {
        let (i, j) = choose|i: int, j: int| #[trigger] contributes(policy, terminal, b, i, j, o);
        let s = b[i].spans[j];
        assert(b[i].spans.to_set().contains(s));
        assert(a[i].spans.to_set().contains(s));
        let k = choose|k: int| 0 <= k < a[i].spans.len() && a[i].spans[k] == s;
        assert(contributes(policy, terminal, a, i, k, o));
    }
    assert(boundary_set(policy, terminal, a) =~= boundary_set(policy, terminal, b));
}

} // verus!
