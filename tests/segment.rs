use fast_bunkai::{
    resolve_boundaries, BoundaryPolicy, BoundaryRule, Layer, LayerAccumulator, LayerDef, Segmenter, Span,
    SpanKey,
};

fn span(rule: &str, start: usize, end: usize) -> Span {
    Span {
        rule_name: rule.to_string(),
        start,
        end,
        split_type: None,
        split_value: None,
    }
}

fn typed(start: usize, end: usize, split_type: u8, value: &str) -> Span {
    Span {
        rule_name: "typed".to_string(),
        start,
        end,
        split_type: Some(split_type),
        split_value: Some(value.to_string()),
    }
}

fn keys(spans: &[Span]) -> Vec<SpanKey> {
    spans.iter().map(|s| (s.start, s.end)).collect()
}

fn def(name: &str, terminal: bool) -> LayerDef {
    LayerDef { name: name.to_string(), terminal }
}

fn three_layers(rule: BoundaryRule) -> Segmenter {
    Segmenter {
        layers: vec![def("basic", false), def("emoji", false), def("linebreak", true)],
        policy: BoundaryPolicy { default_rule: rule, by_split_type: Vec::new() },
    }
}

#[test]
fn empty_text_gives_every_layer_empty() {
    let seg = three_layers(BoundaryRule::End);
    let out = seg.segment("", vec![Vec::new(), Vec::new(), Vec::new()]);
    assert_eq!(out.layers.len(), 3);
    let names: Vec<&str> = out.layers.iter().map(|l| l.name.as_str()).collect();
    assert_eq!(names, vec!["basic", "emoji", "linebreak"]);
    assert!(out.layers.iter().all(|l| l.spans.is_empty()));
    assert!(out.final_boundaries.is_empty());
}

#[test]
fn layer_count_matches_configuration() {
    let seg = three_layers(BoundaryRule::End);
    let text = "one. two. three.";
    let out = seg.segment(text, vec![vec![span("dot", 3, 4)], Vec::new(), Vec::new()]);
    assert_eq!(out.layers.len(), 3);
    assert_eq!(keys(&out.layers[0].spans), vec![(3, 4)]);
    assert!(out.layers[1].spans.is_empty());
    assert!(out.layers[2].spans.is_empty());
    assert!(out.final_boundaries.is_empty());
}

#[test]
fn filtering_looks_only_at_the_layer_just_before() {
    let seg = three_layers(BoundaryRule::End);
    let text = "abcdefghijklmnop";
    let out = seg.segment(
        text,
        vec![
            vec![span("a", 0, 1), span("a", 4, 5)],
            vec![span("b", 0, 1), span("b", 8, 9), span("b", 8, 9), span("b", 12, 13)],
            vec![span("c", 0, 1), span("c", 8, 9), span("c", 15, 16)],
        ],
    );
    assert_eq!(keys(&out.layers[0].spans), vec![(0, 1), (4, 5)]);
    assert_eq!(keys(&out.layers[1].spans), vec![(8, 9), (12, 13)]);
    assert_eq!(keys(&out.layers[2].spans), vec![(0, 1), (15, 16)]);
    assert_eq!(out.final_boundaries, vec![1, 16]);
}

#[test]
fn boundaries_are_sorted_and_unique() {
    let seg = Segmenter {
        layers: vec![def("first", true), def("second", true)],
        policy: BoundaryPolicy { default_rule: BoundaryRule::StartAndEnd, by_split_type: Vec::new() },
    };
    let text = "0123456789";
    let out = seg.segment(
        text,
        vec![vec![span("x", 6, 9), span("x", 2, 4)], vec![span("y", 4, 6), span("y", 0, 10)]],
    );
    assert_eq!(out.final_boundaries, vec![0, 2, 4, 6, 9, 10]);
    for w in out.final_boundaries.windows(2) {
        assert!(w[0] < w[1]);
    }
    assert!(out.final_boundaries.iter().all(|&b| b <= text.len()));
}

#[test]
fn start_rule_takes_the_start_offset() {
    let seg = three_layers(BoundaryRule::Start);
    let out = seg.segment("abcdef", vec![Vec::new(), Vec::new(), vec![span("s", 2, 3), span("s", 5, 6)]]);
    assert_eq!(out.final_boundaries, vec![2, 5]);
}

#[test]
fn non_terminal_layers_give_no_boundaries() {
    let seg = three_layers(BoundaryRule::End);
    let out = seg.segment("abcdef", vec![vec![span("a", 0, 2)], vec![span("b", 2, 4)], Vec::new()]);
    assert!(out.final_boundaries.is_empty());
}

#[test]
fn split_type_picks_the_rule() {
    let policy = BoundaryPolicy {
        default_rule: BoundaryRule::End,
        by_split_type: vec![(1, BoundaryRule::Start), (2, BoundaryRule::StartAndEnd), (1, BoundaryRule::End)],
    };
    assert_eq!(policy.rule_of(None), BoundaryRule::End);
    assert_eq!(policy.rule_of(Some(1)), BoundaryRule::Start);
    assert_eq!(policy.rule_of(Some(2)), BoundaryRule::StartAndEnd);
    assert_eq!(policy.rule_of(Some(9)), BoundaryRule::End);
    let seg = Segmenter { layers: vec![def("only", true)], policy };
    let out = seg.segment(
        "abcdefghij",
        vec![vec![typed(1, 2, 1, "."), typed(4, 6, 2, "!"), typed(7, 8, 9, "?"), span("plain", 8, 10)]],
    );
    assert_eq!(out.final_boundaries, vec![1, 4, 6, 8, 10]);
    assert_eq!(out.layers[0].spans[0].split_value.as_deref(), Some("."));
}

#[test]
fn repeated_calls_agree() {
    let seg = three_layers(BoundaryRule::End);
    let text = "Hello. World! Bye.";
    let candidates = vec![
        vec![span("p", 5, 6), span("p", 12, 13)],
        vec![span("q", 12, 13), span("q", 17, 18)],
        vec![span("r", 5, 6), span("r", 17, 18), span("r", 5, 6)],
    ];
    let a = seg.segment(text, candidates.clone());
    let b = seg.segment(text, candidates);
    assert_eq!(a, b);
    assert_eq!(a.final_boundaries, vec![6]);
}

#[test]
fn boundaries_alone_match_full_segmentation() {
    let seg = three_layers(BoundaryRule::StartAndEnd);
    let text = "Hello. World! Bye.";
    let candidates = vec![
        vec![span("p", 5, 6)],
        vec![span("q", 12, 13), span("q", 5, 6)],
        vec![span("r", 12, 13), span("r", 17, 18)],
    ];
    let full = seg.segment(text, candidates.clone());
    let only = seg.segment_boundaries(text, candidates);
    assert_eq!(only, full.final_boundaries);
    assert_eq!(only, vec![17, 18]);
}

#[test]
fn offsets_count_bytes() {
    let seg = Segmenter {
        layers: vec![def("only", true)],
        policy: BoundaryPolicy { default_rule: BoundaryRule::End, by_split_type: Vec::new() },
    };
    let text = "文。次。";
    assert_eq!(text.len(), 12);
    let out = seg.segment_boundaries(text, vec![vec![span("maru", 3, 6), span("maru", 9, 12)]]);
    assert_eq!(out, vec![6, 12]);
}

#[test]
fn accumulator_runs_layers_one_at_a_time() {
    let mut acc = LayerAccumulator::new();
    acc.push_layer("first".to_string(), vec![span("a", 0, 1), span("a", 4, 5)]);
    acc.push_layer(
        "second".to_string(),
        vec![span("b", 0, 1), span("b", 8, 9), span("b", 8, 9), span("b", 12, 13)],
    );
    let layers: &Vec<Layer> = acc.layers();
    assert_eq!(layers.len(), 2);
    assert_eq!(keys(&layers[1].spans), vec![(8, 9), (12, 13)]);
    let layers = acc.into_layers();
    let policy = BoundaryPolicy { default_rule: BoundaryRule::End, by_split_type: Vec::new() };
    assert_eq!(resolve_boundaries(&policy, &vec![false, true], &layers, 13), vec![9, 13]);
    assert_eq!(resolve_boundaries(&policy, &vec![true, true], &layers, 13), vec![1, 5, 9, 13]);
}

#[test]
fn span_key_is_start_and_end() {
    let s = typed(3, 7, 0, "x");
    assert_eq!(s.span_key(), (3, 7));
    assert_eq!(fast_bunkai::span_keys(&vec![s, span("a", 1, 2)]), vec![(3, 7), (1, 2)]);
}

#[test]
fn boundaries_ignore_span_order() {
    let seg = Segmenter {
        layers: vec![def("only", true)],
        policy: BoundaryPolicy { default_rule: BoundaryRule::End, by_split_type: Vec::new() },
    };
    let text = "a. b. c.";
    let forward = seg.segment_boundaries(text, vec![vec![span("d", 1, 2), span("d", 4, 5), span("d", 7, 8)]]);
    let backward = seg.segment_boundaries(text, vec![vec![span("d", 7, 8), span("d", 4, 5), span("d", 1, 2)]]);
    assert_eq!(forward, vec![2, 5, 8]);
    assert_eq!(forward, backward);
}
