use std::collections::HashSet;
use vstd::prelude::*;

use crate::span::{keys_of, span_keys, Span, SpanKey};
use crate::util::reversed;

verus! {

broadcast use vstd::std_specs::hash::group_hash_axioms;

/// A key packed into one integer: the start in the high half, the end in the
/// low half.
pub open spec fn key_code(k: SpanKey) -> int {
    k.0 as int * 0x1_0000_0000_0000_0000 + k.1 as int
}

proof fn lemma_key_code_injective(a: SpanKey, b: SpanKey)
    requires
        key_code(a) == key_code(b),
    ensures
        a == b,
{
    let (a0, a1, b0, b1) = (a.0 as int, a.1 as int, b.0 as int, b.1 as int);
    assert(a0 == b0) by (nonlinear_arith)
        requires
            a0 * 0x1_0000_0000_0000_0000 + a1 == b0 * 0x1_0000_0000_0000_0000 + b1,
            0 <= a1 < 0x1_0000_0000_0000_0000,
            0 <= b1 < 0x1_0000_0000_0000_0000,
            0 <= a0,
            0 <= b0,
    ;
}

fn pack_key(k: SpanKey) -> (r: u128)
    ensures
        r as int == key_code(k),
{
    let (s, e) = k;
    assert(s as int * 0x1_0000_0000_0000_0000 + e as int <= u128::MAX) by (nonlinear_arith)
        requires
            0 <= s < 0x1_0000_0000_0000_0000,
            0 <= e < 0x1_0000_0000_0000_0000,
    ;
    (s as u128) * 0x1_0000_0000_0000_0000u128 + (e as u128)
}

/// Position `i` of `keys` is kept: its key was not accepted by the previous
/// layer and does not occur earlier in `keys`.
pub open spec fn is_fresh(previous: Seq<SpanKey>, keys: Seq<SpanKey>, i: int) -> bool {
    &&& !previous.contains(keys[i])
    &&& !keys.take(i).contains(keys[i])
}

/// The kept positions of `keys`, in increasing order.
pub open spec fn fresh_positions(previous: Seq<SpanKey>, keys: Seq<SpanKey>) -> Seq<int>
    decreases keys.len(),
{
    if keys.len() == 0 {
        Seq::empty()
    } else {
        let n = keys.len() - 1;
        let rest = fresh_positions(previous, keys.take(n));
        if is_fresh(previous, keys, n) {
            rest.push(n)
        } else {
            rest
        }
    }
}

/// The items of `items` at `positions`, in the order of `positions`.
pub open spec fn select<T>(items: Seq<T>, positions: Seq<int>) -> Seq<T> {
    positions.map_values(|p: int| items[p])
}

/// The spans of `current` that a layer accepts after the layer whose keys
/// are `previous`.
pub open spec fn filter_spans(previous: Seq<SpanKey>, current: Seq<Span>) -> Seq<Span> {
    select(current, fresh_positions(previous, keys_of(current)))
}

proof fn lemma_fresh_positions_step(previous: Seq<SpanKey>, keys: Seq<SpanKey>, i: int)
    requires
        0 <= i < keys.len(),
    ensures
        fresh_positions(previous, keys.take(i + 1)) == if is_fresh(previous, keys, i) {
            fresh_positions(previous, keys.take(i)).push(i)
        } else {
            fresh_positions(previous, keys.take(i))
        },
{
    let t = keys.take(i + 1);
    assert(t.take(i) =~= keys.take(i));
    assert(t[i] == keys[i]);
}

/// For each key of `current`, whether the layer keeps it: one pass over
/// `current` with two hash sets, one of the previous layer's keys and one of
/// the keys seen so far.
pub fn fresh_flags(previous: &Vec<SpanKey>, current: &Vec<SpanKey>) -> (r: Vec<bool>)
    ensures
        r@.len() == current@.len(),
        forall|i: int| 0 <= i < current@.len() ==> #[trigger] r@[i] == is_fresh(previous@, current@, i),
{
    let mut prev: HashSet<u128> = HashSet::with_capacity(previous.len());
    let mut j: usize = 0;
    while j < previous.len()
        invariant
            j <= previous@.len(),
            forall|c: u128| #[trigger] prev@.contains(c) <==> exists|k: int| 0 <= k < j && key_code(#[trigger] previous@[k]) == c,
        decreases previous@.len() - j,
    {
        let c = pack_key(previous[j]);
        prev.insert(c);
        assert forall|c2: u128| #[trigger] prev@.contains(c2) <==> exists|k: int| 0 <= k < j + 1 && key_code(#[trigger] previous@[k]) == c2 by {
            if c2 == c {
                assert(key_code(previous@[j as int]) == c2);
            }
        }
        j = j + 1;
    }
    let mut seen: HashSet<u128> = HashSet::with_capacity(current.len());
    let mut r: Vec<bool> = Vec::with_capacity(current.len());
    let mut i: usize = 0;
    while i < current.len()
        invariant
            i <= current@.len(),
            r@.len() == i,
            forall|c: u128| #[trigger] prev@.contains(c) <==> exists|k: int| 0 <= k < previous@.len() && key_code(#[trigger] previous@[k]) == c,
            forall|c: u128| #[trigger] seen@.contains(c) <==> !prev@.contains(c) && exists|k: int| 0 <= k < i && key_code(#[trigger] current@[k]) == c,
            forall|m: int| 0 <= m < i ==> #[trigger] r@[m] == is_fresh(previous@, current@, m),
        decreases current@.len() - i,
    {
        let key = current[i];
        let c = pack_key(key);
        let in_prev = prev.contains(&c);
        let fresh = if in_prev {
            false
        } else {
            seen.insert(c)
        };
        proof {
            let ii = i as int;
            assert(in_prev == previous@.contains(key)) by {
                if in_prev {
                    let k = choose|k: int| 0 <= k < previous@.len() && key_code(previous@[k]) == c;
                    lemma_key_code_injective(previous@[k], key);
                    assert(previous@[k] == key);
                }
                if previous@.contains(key) {
                    let k = choose|k: int| 0 <= k < previous@.len() && previous@[k] == key;
                    assert(key_code(previous@[k]) == c);
                }
            }
            if !in_prev {
                let before = current@.take(ii);
                let was_seen = exists|k: int| 0 <= k < ii && key_code(#[trigger] current@[k]) == c;
                assert(was_seen == before.contains(key)) by {
                    if was_seen {
                        let k = choose|k: int| 0 <= k < ii && key_code(#[trigger] current@[k]) == c;
                        lemma_key_code_injective(current@[k], key);
                        assert(before[k] == key);
                    }
                    if before.contains(key) {
                        let k = choose|k: int| 0 <= k < before.len() && before[k] == key;
                        assert(key_code(current@[k]) == c);
                    }
                }
            }
            assert forall|c2: u128| #[trigger] seen@.contains(c2) <==> !prev@.contains(c2) && exists|k: int| 0 <= k < ii + 1 && key_code(#[trigger] current@[k]) == c2 by {
                if c2 == c {
                    assert(key_code(current@[ii]) == c2);
                }
            }
        }
        r.push(fresh);
        i = i + 1;
    }
    r
}

/// The positions of `current` that a layer keeps after a layer that accepted
/// `previous`, in increasing order.
pub fn filter_keys(previous: &Vec<SpanKey>, current: &Vec<SpanKey>) -> (r: Vec<usize>)
    ensures
        r@.map_values(|p: usize| p as int) == fresh_positions(previous@, current@),
{
    let flags = fresh_flags(previous, current);
    let mut r: Vec<usize> = Vec::new();
    let mut i: usize = 0;
    while i < current.len()
        invariant
            i <= current@.len(),
            flags@.len() == current@.len(),
            forall|m: int| 0 <= m < current@.len() ==> #[trigger] flags@[m] == is_fresh(previous@, current@, m),
            r@.map_values(|p: usize| p as int) == fresh_positions(previous@, current@.take(i as int)),
        decreases current@.len() - i,
    {
        proof {
            lemma_fresh_positions_step(previous@, current@, i as int);
        }
        if flags[i] {
            r.push(i);
            assert(r@.map_values(|p: usize| p as int) =~= fresh_positions(previous@, current@.take(i as int)).push(i as int));
        }
        i = i + 1;
    }
    assert(current@.take(i as int) =~= current@);
    r
}

/// How many spans the two layers hold together once `current` has been
/// filtered against `previous`.
pub fn kept_count(previous: &Vec<SpanKey>, current: &Vec<SpanKey>) -> (r: usize)
    requires
        previous@.len() + current@.len() <= usize::MAX,
    ensures
        r == previous@.len() + fresh_positions(previous@, current@).len(),
{
    let flags = fresh_flags(previous, current);
    let mut n: usize = 0;
    let mut i: usize = 0;
    while i < current.len()
        invariant
            i <= current@.len(),
            previous@.len() + current@.len() <= usize::MAX,
            flags@.len() == current@.len(),
            forall|m: int| 0 <= m < current@.len() ==> #[trigger] flags@[m] == is_fresh(previous@, current@, m),
            n == fresh_positions(previous@, current@.take(i as int)).len(),
            n <= i,
        decreases current@.len() - i,
    {
        proof {
            lemma_fresh_positions_step(previous@, current@, i as int);
        }
        if flags[i] {
            n = n + 1;
        }
        i = i + 1;
    }
    assert(current@.take(i as int) =~= current@);
    previous.len() + n
}

/// Keeps the spans of `current` whose key was not accepted by the previous
/// layer and that are the first of their key in `current`, in their order.
pub fn filter_previous_rule_same_span(previous: &Vec<SpanKey>, current: Vec<Span>) -> (r: Vec<Span>)
    ensures
        r@ == filter_spans(previous@, current@),
{
    let ghost orig = current@;
    let ghost keys = keys_of(orig);
    let key_vec = span_keys(&current);
    let flags = fresh_flags(previous, &key_vec);
    let n = current.len();
    let mut rev = reversed(current);
    let mut r: Vec<Span> = Vec::new();
    let mut i: usize = 0;
    while i < n
        invariant
            n == orig.len(),
            i <= n,
            keys == keys_of(orig),
            flags@.len() == n,
            forall|m: int| 0 <= m < n ==> #[trigger] flags@[m] == is_fresh(previous@, keys, m),
            rev@.len() == n - i,
            forall|k: int| 0 <= k < rev@.len() ==> #[trigger] rev@[k] == orig[n - 1 - k],
            r@ == select(orig, fresh_positions(previous@, keys.take(i as int))),
        decreases n - i,
    {
        let ghost before = rev@;
        let s = rev.pop();
        assert(rev@ =~= before.drop_last());
        proof {
            lemma_fresh_positions_step(previous@, keys, i as int);
        }
        match s {
            Some(s) => {
                assert(s == orig[i as int]);
                if flags[i] {
                    r.push(s);
                    assert(r@ =~= select(orig, fresh_positions(previous@, keys.take(i as int)).push(i as int)));
                }
            },
            None => {},
        }
        i = i + 1;
    }
    assert(keys.take(n as int) =~= keys);
    r
}

} // verus!
