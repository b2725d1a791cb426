//! The window baseline: which embedding each input comes from.

use vstd::prelude::*;

use crate::window::Window;

verus! {

/// The place in the embedding table that an input comes from: slot by slot the
/// tokens of the window, and nothing where there is no token yet.
pub open spec fn cell_of(history: Seq<u32>, d: int, k: int) -> Option<int> {
    if k / d < history.len() {
        Some(history[k / d] * d + k % d)
    } else {
        None
    }
}

/// The place in the embedding table that an input comes from, and to which its
/// gradient goes.
pub fn input_cell(history: &Window<u32>, d: usize, vocab: usize, k: usize) -> (c: Option<usize>)
    requires
        history.wf(),
        d >= 1,
        vocab * d <= usize::MAX,
        forall|i: int| 0 <= i < history@.len() ==> (#[trigger] history@[i]) < vocab,
    ensures
        c is Some <==> cell_of(history@, d as int, k as int) is Some,
        c is Some ==> c->0 == cell_of(history@, d as int, k as int)->0 && c->0 < vocab * d,
{
    let slot: usize = k / d;
    if slot < history.len() {
        let t: usize = *history.get(slot) as usize;
        proof {
            assert(history@[slot as int] < vocab);
            assert(0 <= t * d && t * d + d <= vocab * d) by (nonlinear_arith)
                requires
                    0 <= t < vocab,
                    d >= 1,
            ;
        }
        Some(t * d + k % d)
    } else {
        None
    }
}

/// Two inputs come from the same place only where they are the same part of the
/// same token.
pub proof fn law_inputs_come_from_their_token(history: Seq<u32>, d: int, j: int, k: int)
    requires
        d >= 1,
        0 <= j,
        0 <= k,
        cell_of(history, d, j) is Some,
        cell_of(history, d, k) is Some,
        cell_of(history, d, j) == cell_of(history, d, k),
    ensures
        history[j / d] == history[k / d],
        j % d == k % d,
{
    let a = history[j / d] as int;
    let b = history[k / d] as int;
    vstd::arithmetic::div_mod::lemma_mod_pos_bound(j, d);
    vstd::arithmetic::div_mod::lemma_mod_pos_bound(k, d);
    vstd::arithmetic::div_mod::lemma_fundamental_div_mod_converse(a * d + j % d, d, a, j % d);
    vstd::arithmetic::div_mod::lemma_fundamental_div_mod_converse(b * d + k % d, d, b, k % d);
}

/// The weights of the baseline: an embedding for each token, and the head's.
pub fn parameters(vocab: usize, d_model: usize, head: usize) -> (n: usize)
    requires
        vocab * d_model + head <= usize::MAX,
    ensures
        n == size_of(vocab as int, d_model as int, head as int),
{
    proof {
        assert(vocab * d_model >= 0) by (nonlinear_arith);
    }
    vocab * d_model + head
}

/// How many tokens the last tenth of a stream counts for, at least one.
pub fn tail_count(n: usize) -> (m: usize)
    ensures
        m == tail_of(n as int),
{
    let m: usize = n / 10;
    if m < 1 {
        1
    } else {
        m
    }
}

/// Slot by slot the inputs are the embeddings of the tokens of the window, oldest
/// first, one part after the other; where there is no token yet, nothing.
pub proof fn law_slots_hold_embeddings(history: Seq<u32>, d: int, slot: int, part: int)
    requires
        d >= 1,
        0 <= slot,
        0 <= part < d,
    ensures
        slot < history.len() ==> cell_of(history, d, slot * d + part) == Some(
            history[slot] * d + part,
        ),
        slot >= history.len() ==> cell_of(history, d, slot * d + part) is None,
{
    vstd::arithmetic::div_mod::lemma_fundamental_div_mod_converse(slot * d + part, d, slot, part);
}

/// The weights of the baseline: an embedding for each token, and the head's.
pub open spec fn size_of(vocab: int, d_model: int, head: int) -> int {
    vocab * d_model + head
}

/// One more token takes one more embedding, and without tokens there is the head
/// alone.
pub proof fn law_tokens_have_embeddings(vocab: int, d_model: int, head: int)
    ensures
        size_of(0, d_model, head) == head,
        size_of(vocab + 1, d_model, head) == size_of(vocab, d_model, head) + d_model,
{
    assert(0 * d_model == 0 && (vocab + 1) * d_model == vocab * d_model + d_model)
        by (nonlinear_arith);
}

/// How many tokens the last tenth of a stream counts for, at least one.
pub open spec fn tail_of(n: int) -> int {
    if n / 10 < 1 {
        1
    } else {
        n / 10
    }
}

/// The last tenth is a tenth, rounded down, but never nothing.
pub proof fn law_tails_are_a_tenth(n: int)
    requires
        0 <= n,
    ensures
        tail_of(n) >= 1,
        n >= 10 ==> 10 * tail_of(n) <= n,
        n < 10 * tail_of(n) + 10,
        n < 10 ==> tail_of(n) == 1,
{
}

} // verus!
