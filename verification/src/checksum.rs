//! The state checksum: a 64-bit digest of a tick and the entities alive at it.
//!
//! The digest runs over a stream of words: the tick, then for every snapshot,
//! in digest order, the nine bit patterns of its position, velocity and size.
//! Each word is folded in by an exclusive or and a multiplication by an odd
//! constant, both of which can be undone, so two streams that differ in a
//! single word never share a digest.

use vstd::prelude::*;
use vstd::relations::{sorted_by, total_ordering};
use vstd::seq_lib::{
    lemma_sorted_unique, to_multiset_build, to_multiset_contains, to_multiset_insert,
    to_multiset_remove, to_multiset_update,
};
use vstd::arithmetic::div_mod::{
    lemma_mod_multiples_vanish, lemma_mul_mod_noop_left, lemma_small_mod,
};
use crate::entity_map::ids_increasing;
use crate::snapshot::{
    lemma_snapshot_order_total, snapshot_before, snapshot_le, snapshot_order, EntitySnapshot, Vec3,
};

verus! {

/// A 64-bit digest of a simulation state.
pub type Checksum = u64;

/// The value the digest starts from.
pub const DIGEST_SEED: u64 = 0xcbf2_9ce4_8422_2325;

/// The odd multiplier applied after each word.
pub const DIGEST_PRIME: u64 = 0x0000_0100_0000_01b3;

/// The inverse of `DIGEST_PRIME` modulo 2^64.
pub const DIGEST_PRIME_INVERSE: u64 = 0xce96_5057_aff6_957b;

/// Folds one word into a running digest.
#[verifier::opaque]
pub open spec fn mix(h: u64, word: u64) -> u64 {
    (h ^ word).wrapping_mul(DIGEST_PRIME)
}

/// Folds a stream of words into a running digest, left to right.
pub open spec fn mix_all(h: u64, words: Seq<u64>) -> u64
    decreases words.len(),
{
    if words.len() == 0 {
        h
    } else {
        mix(mix_all(h, words.drop_last()), words.last())
    }
}

/// The three words of a vector.
pub open spec fn vec3_words(v: Vec3) -> Seq<u64> {
    seq![v.x as u64, v.y as u64, v.z as u64]
}

/// The nine words of a snapshot: position, velocity, size.
pub open spec fn snapshot_words(e: EntitySnapshot) -> Seq<u64> {
    vec3_words(e.pos) + vec3_words(e.vel) + vec3_words(e.size)
}

/// The words of a run of snapshots, in the order given.
pub open spec fn entity_words(s: Seq<EntitySnapshot>) -> Seq<u64>
    decreases s.len(),
{
    if s.len() == 0 {
        Seq::<u64>::empty()
    } else {
        entity_words(s.drop_last()) + snapshot_words(s.last())
    }
}

/// The whole stream for a state whose snapshots are already in digest order.
pub open spec fn state_words(tick: u64, ordered: Seq<EntitySnapshot>) -> Seq<u64> {
    seq![tick] + entity_words(ordered)
}

/// The digest of a state whose snapshots are given in digest order.
pub open spec fn digest_ordered(tick: u64, ordered: Seq<EntitySnapshot>) -> Checksum {
    mix_all(DIGEST_SEED, state_words(tick, ordered))
}

/// The snapshots of `s` put into digest order.
pub open spec fn in_digest_order(s: Seq<EntitySnapshot>) -> Seq<EntitySnapshot> {
    s.sort_by(snapshot_order())
}

/// The checksum of a state: the digest of its snapshots in digest order.
pub open spec fn state_checksum(tick: u64, s: Seq<EntitySnapshot>) -> Checksum {
    digest_ordered(tick, in_digest_order(s))
}

/// Folding in `a + b` is folding in `a`, then `b`.
pub proof fn lemma_mix_all_concat(h: u64, a: Seq<u64>, b: Seq<u64>)
    ensures
        mix_all(h, a + b) == mix_all(mix_all(h, a), b),
    decreases b.len(),
{
    if b.len() == 0 {
        assert(a + b =~= a);
    } else {
        assert((a + b).drop_last() =~= a + b.drop_last());
        assert((a + b).last() == b.last());
        lemma_mix_all_concat(h, a, b.drop_last());
    }
}

/// Folding in one more word at the end is one more `mix`.
pub proof fn lemma_mix_all_push(h: u64, words: Seq<u64>, word: u64)
    ensures
        mix_all(h, words.push(word)) == mix(mix_all(h, words), word),
{
    assert(words.push(word).drop_last() =~= words);
    assert(words.push(word).last() == word);
}

/// Folding in the empty stream changes nothing.
pub proof fn lemma_mix_all_empty(h: u64)
    ensures
        mix_all(h, Seq::<u64>::empty()) == h,
{
}

/// Multiplying by the inverse undoes the multiplication by the prime.
proof fn lemma_prime_undone(x: u64)
    ensures
        x.wrapping_mul(DIGEST_PRIME).wrapping_mul(DIGEST_PRIME_INVERSE) == x,
{
    let m: int = 0x1_0000_0000_0000_0000;
    let p: int = DIGEST_PRIME as int;
    let q: int = DIGEST_PRIME_INVERSE as int;
    let k: int = 887285111055;
    assert(p * q == 1 + k * m) by (nonlinear_arith)
        requires
            p == 0x0000_0100_0000_01b3,
            q == 0xce96_5057_aff6_957b,
            k == 887285111055,
            m == 0x1_0000_0000_0000_0000,
    ;
    let xi: int = x as int;
    let y: int = (xi * p) % m;
    assert(x.wrapping_mul(DIGEST_PRIME) as int == y);
    lemma_mul_mod_noop_left(xi * p, q, m);
    assert((y * q) % m == ((xi * p) * q) % m);
    assert((xi * p) * q == xi + (xi * k) * m) by (nonlinear_arith)
        requires
            p * q == 1 + k * m,
    ;
    lemma_mod_multiples_vanish(xi * k, xi, m);
    lemma_small_mod(x as nat, m as nat);
    assert((y * q) % m == xi);
}

/// Folding a word in loses nothing of the running digest.
pub proof fn lemma_mix_keeps_digest(h1: u64, h2: u64, word: u64)
    requires
        h1 != h2,
    ensures
        mix(h1, word) != mix(h2, word),
{
    reveal(mix);
    assert((h1 ^ word) != (h2 ^ word)) by (bit_vector)
        requires
            h1 != h2,
    ;
    lemma_prime_undone(h1 ^ word);
    lemma_prime_undone(h2 ^ word);
}

/// Folding a word in loses nothing of the word.
pub proof fn lemma_mix_keeps_word(h: u64, w1: u64, w2: u64)
    requires
        w1 != w2,
    ensures
        mix(h, w1) != mix(h, w2),
{
    reveal(mix);
    assert((h ^ w1) != (h ^ w2)) by (bit_vector)
        requires
            w1 != w2,
    ;
    lemma_prime_undone(h ^ w1);
    lemma_prime_undone(h ^ w2);
}

/// Different running digests stay different under the same words.
pub proof fn lemma_mix_all_keeps_digest(h1: u64, h2: u64, words: Seq<u64>)
    requires
        h1 != h2,
    ensures
        mix_all(h1, words) != mix_all(h2, words),
    decreases words.len(),
{
    if words.len() > 0 {
        lemma_mix_all_keeps_digest(h1, h2, words.drop_last());
        lemma_mix_keeps_digest(
            mix_all(h1, words.drop_last()),
            mix_all(h2, words.drop_last()),
            words.last(),
        );
    }
}

/// Two word streams of one length that differ in exactly one place have
/// different digests.
pub proof fn lemma_one_word_changes_digest(h: u64, a: Seq<u64>, b: Seq<u64>, at: int)
    requires
        a.len() == b.len(),
        0 <= at < a.len(),
        a[at] != b[at],
        forall|i: int| 0 <= i < a.len() && i != at ==> a[i] == b[i],
    ensures
        mix_all(h, a) != mix_all(h, b),
    decreases a.len(),
{
    let a0 = a.drop_last();
    let b0 = b.drop_last();
    if at == a.len() - 1 {
        assert(a0 =~= b0);
        lemma_mix_keeps_word(mix_all(h, a0), a.last(), b.last());
    } else {
        lemma_one_word_changes_digest(h, a0, b0, at);
        assert(a.last() == b.last());
        lemma_mix_keeps_digest(mix_all(h, a0), mix_all(h, b0), a.last());
    }
}

/// A listing in strictly increasing id order is in digest order already.
pub proof fn lemma_id_order_is_digest_order(s: Seq<EntitySnapshot>)
    requires
        ids_increasing(s),
    ensures
        in_digest_order(s) == s,
{
    lemma_snapshot_order_total();
    s.lemma_sort_by_ensures(snapshot_order());
    assert(sorted_by(s, snapshot_order())) by {
        assert forall|i: int, j: int| 0 <= i < j < s.len() implies #[trigger] snapshot_order()(
            s[i],
            s[j],
        ) by {
            assert(s[i].id < s[j].id);
            assert(snapshot_le(s[i], s[j]));
        }
    }
    lemma_sorted_unique(in_digest_order(s), s, snapshot_order());
}

/// The checksum does not depend on the order in which the snapshots are given.
pub proof fn lemma_checksum_ignores_order(
    tick: u64,
    a: Seq<EntitySnapshot>,
    b: Seq<EntitySnapshot>,
)
    requires
        a.to_multiset() == b.to_multiset(),
    ensures
        state_checksum(tick, a) == state_checksum(tick, b),
{
    lemma_snapshot_order_total();
    a.lemma_sort_by_ensures(snapshot_order());
    b.lemma_sort_by_ensures(snapshot_order());
    lemma_sorted_unique(in_digest_order(a), in_digest_order(b), snapshot_order());
}

/// `a` and `b` carry the same id and differ in exactly one of their nine words.
pub open spec fn differ_in_one_word(a: EntitySnapshot, b: EntitySnapshot) -> bool {
    &&& a.id == b.id
    &&& exists|at: int|
        0 <= at < 9 && snapshot_words(a)[at] != snapshot_words(b)[at] && forall|i: int|
            0 <= i < 9 && i != at ==> snapshot_words(a)[i] == snapshot_words(b)[i]
}

/// Folding in two snapshots that differ in one word gives different digests.
pub proof fn lemma_snapshot_change_changes_digest(h: u64, a: EntitySnapshot, b: EntitySnapshot)
    requires
        differ_in_one_word(a, b),
    ensures
        mix_all(h, snapshot_words(a)) != mix_all(h, snapshot_words(b)),
{
    let at = choose|at: int|
        0 <= at < 9 && snapshot_words(a)[at] != snapshot_words(b)[at] && forall|i: int|
            0 <= i < 9 && i != at ==> snapshot_words(a)[i] == snapshot_words(b)[i];
    lemma_one_word_changes_digest(h, snapshot_words(a), snapshot_words(b), at);
}

/// Replacing one snapshot of a run by one that differs from it in a single
/// word changes the digest of the run.
pub proof fn lemma_run_change_changes_digest(
    h: u64,
    s: Seq<EntitySnapshot>,
    i: int,
    e: EntitySnapshot,
)
    requires
        0 <= i < s.len(),
        differ_in_one_word(s[i], e),
    ensures
        mix_all(h, entity_words(s)) != mix_all(h, entity_words(s.update(i, e))),
    decreases s.len(),
{
    let t = s.update(i, e);
    let s0 = s.drop_last();
    let t0 = t.drop_last();
    lemma_mix_all_concat(h, entity_words(s0), snapshot_words(s.last()));
    lemma_mix_all_concat(h, entity_words(t0), snapshot_words(t.last()));
    if i == s.len() - 1 {
        assert(s0 =~= t0);
        lemma_snapshot_change_changes_digest(mix_all(h, entity_words(s0)), s.last(), e);
    } else {
        assert(t0 =~= s0.update(i, e));
        lemma_run_change_changes_digest(h, s0, i, e);
        assert(t.last() == s.last());
        lemma_mix_all_keeps_digest(
            mix_all(h, entity_words(s0)),
            mix_all(h, entity_words(t0)),
            snapshot_words(s.last()),
        );
    }
}

/// Changing a single word of a single entity of an id-ordered state changes
/// the checksum.
pub proof fn lemma_checksum_detects_change(
    tick: u64,
    s: Seq<EntitySnapshot>,
    i: int,
    e: EntitySnapshot,
)
    requires
        ids_increasing(s),
        0 <= i < s.len(),
        differ_in_one_word(s[i], e),
    ensures
        state_checksum(tick, s) != state_checksum(tick, s.update(i, e)),
{
    let t = s.update(i, e);
    assert(ids_increasing(t)) by {
        assert forall|a: int, b: int| 0 <= a < b < t.len() implies t[a].id < t[b].id by {
            assert(s[a].id < s[b].id);
        }
    }
    lemma_id_order_is_digest_order(s);
    lemma_id_order_is_digest_order(t);
    lemma_mix_all_concat(DIGEST_SEED, seq![tick], entity_words(s));
    lemma_mix_all_concat(DIGEST_SEED, seq![tick], entity_words(t));
    lemma_run_change_changes_digest(mix_all(DIGEST_SEED, seq![tick]), s, i, e);
}

/// No two snapshots of the run carry the same id.
pub open spec fn ids_distinct(s: Seq<EntitySnapshot>) -> bool {
    forall|i: int, j: int| 0 <= i < j < s.len() ==> s[i].id != s[j].id
}

/// A run with distinct ids, put into digest order, is in strictly increasing
/// id order.
pub proof fn lemma_distinct_ids_order_by_id(s: Seq<EntitySnapshot>)
    requires
        ids_distinct(s),
    ensures
        ids_increasing(in_digest_order(s)),
{
    let ss = in_digest_order(s);
    lemma_snapshot_order_total();
    s.lemma_sort_by_ensures(snapshot_order());
    assert forall|a: int, b: int| 0 <= a < b < ss.len() implies ss[a].id < ss[b].id by {
        assert(snapshot_order()(ss[a], ss[b]));
        assert(snapshot_le(ss[a], ss[b]));
        if ss[a].id == ss[b].id {
            let x = ss[a];
            to_multiset_contains(ss, x);
            to_multiset_contains(s, x);
            assert(ss.contains(x));
            let p = choose|p: int| 0 <= p < s.len() && s[p] == x;
            let y = ss[b];
            to_multiset_contains(ss, y);
            to_multiset_contains(s, y);
            assert(ss.contains(y));
            let q = choose|q: int| 0 <= q < s.len() && s[q] == y;
            assert(p == q) by {
                if p < q {
                    assert(s[p].id != s[q].id);
                }
                if q < p {
                    assert(s[q].id != s[p].id);
                }
            }
            assert(x == y);
            to_multiset_remove(ss, a);
            to_multiset_remove(s, p);
            let rest = ss.remove(a);
            assert(rest[b - 1] == x);
            assert(rest.contains(x));
            to_multiset_contains(rest, x);
            to_multiset_contains(s.remove(p), x);
            assert(s.remove(p).contains(x));
            let r = choose|r: int| 0 <= r < s.remove(p).len() && s.remove(p)[r] == x;
            let back = if r < p {
                r
            } else {
                r + 1
            };
            assert(s[back] == x);
            if back < p {
                assert(s[back].id != s[p].id);
            } else {
                assert(s[p].id != s[back].id);
            }
        }
    }
}

/// Changing a single word of a single entity of a state with distinct ids
/// changes the checksum, in whatever order the entities are given.
pub proof fn lemma_checksum_detects_change_in_any_order(
    tick: u64,
    s: Seq<EntitySnapshot>,
    i: int,
    e: EntitySnapshot,
)
    requires
        ids_distinct(s),
        0 <= i < s.len(),
        differ_in_one_word(s[i], e),
    ensures
        state_checksum(tick, s) != state_checksum(tick, s.update(i, e)),
{
    let t = s.update(i, e);
    let ss = in_digest_order(s);
    lemma_snapshot_order_total();
    s.lemma_sort_by_ensures(snapshot_order());
    t.lemma_sort_by_ensures(snapshot_order());
    lemma_distinct_ids_order_by_id(s);
    assert(s.contains(s[i]));
    to_multiset_contains(s, s[i]);
    to_multiset_contains(ss, s[i]);
    let k = choose|k: int| 0 <= k < ss.len() && ss[k] == s[i];
    let ts = ss.update(k, e);
    assert(ids_increasing(ts)) by {
        assert forall|a: int, b: int| 0 <= a < b < ts.len() implies ts[a].id < ts[b].id by {
            assert(ss[a].id < ss[b].id);
        }
    }
    to_multiset_update(s, i, e);
    to_multiset_update(ss, k, e);
    assert(ts.to_multiset() =~= t.to_multiset());
    lemma_id_order_is_digest_order(ts);
    ts.lemma_sort_by_ensures(snapshot_order());
    lemma_sorted_unique(in_digest_order(t), in_digest_order(ts), snapshot_order());
    lemma_id_order_is_digest_order(ss);
    lemma_checksum_detects_change(tick, ss, k, e);
}

/// Folds one word into a running digest.
pub fn mix_word(h: u64, word: u64) -> (r: u64)
    ensures
        r == mix(h, word),
{
    proof {
        reveal(mix);
    }
    (h ^ word).wrapping_mul(DIGEST_PRIME)
}

/// Folds the three words of a vector into a running digest.
fn mix_vec3(h: u64, v: &Vec3) -> (r: u64)
    ensures
        r == mix_all(h, vec3_words(*v)),
{
    let h1 = mix_word(h, v.x as u64);
    let h2 = mix_word(h1, v.y as u64);
    let h3 = mix_word(h2, v.z as u64);
    proof {
        let none = Seq::<u64>::empty();
        lemma_mix_all_empty(h);
        lemma_mix_all_push(h, none, v.x as u64);
        lemma_mix_all_push(h, none.push(v.x as u64), v.y as u64);
        lemma_mix_all_push(h, none.push(v.x as u64).push(v.y as u64), v.z as u64);
        assert(vec3_words(*v) =~= none.push(v.x as u64).push(v.y as u64).push(v.z as u64));
    }
    h3
}

/// Folds the nine words of a snapshot into a running digest.
fn mix_snapshot(h: u64, e: &EntitySnapshot) -> (r: u64)
    ensures
        r == mix_all(h, snapshot_words(*e)),
{
    let h1 = mix_vec3(h, &e.pos);
    let h2 = mix_vec3(h1, &e.vel);
    let h3 = mix_vec3(h2, &e.size);
    proof {
        lemma_mix_all_concat(h, vec3_words(e.pos), vec3_words(e.vel));
        lemma_mix_all_concat(h, vec3_words(e.pos) + vec3_words(e.vel), vec3_words(e.size));
    }
    h3
}

/// The digest of a state whose snapshots are given in digest order.
pub fn digest_listing(tick: u64, ordered: &[EntitySnapshot]) -> (c: Checksum)
    ensures
        c == digest_ordered(tick, ordered@),
{
    let mut h = mix_word(DIGEST_SEED, tick);
    proof {
        lemma_mix_all_empty(DIGEST_SEED);
        lemma_mix_all_push(DIGEST_SEED, Seq::<u64>::empty(), tick);
        assert(Seq::<u64>::empty().push(tick) =~= seq![tick]);
        assert(state_words(tick, ordered@.take(0)) =~= seq![tick]);
    }
    let mut i: usize = 0;
    while i < ordered.len()
        invariant
            i <= ordered.len(),
            h == mix_all(DIGEST_SEED, state_words(tick, ordered@.take(i as int))),
        decreases ordered.len() - i,
    {
        let ghost before = ordered@.take(i as int);
        let ghost after = ordered@.take(i + 1);
        h = mix_snapshot(h, &ordered[i]);
        proof {
            assert(after.drop_last() =~= before);
            assert(after.last() == ordered@[i as int]);
            assert(state_words(tick, after) =~= state_words(tick, before) + snapshot_words(
                ordered@[i as int],
            ));
            lemma_mix_all_concat(
                DIGEST_SEED,
                state_words(tick, before),
                snapshot_words(ordered@[i as int]),
            );
        }
        i += 1;
    }
    proof {
        assert(ordered@.take(i as int) =~= ordered@);
    }
    h
}

/// A copy of `entities` in digest order.
pub fn sort_for_digest(entities: &[EntitySnapshot]) -> (v: Vec<EntitySnapshot>)
    ensures
        v@ == in_digest_order(entities@),
{
    let mut out: Vec<EntitySnapshot> = Vec::new();
    let mut i: usize = 0;
    proof {
        lemma_snapshot_order_total();
        assert(entities@.take(0) =~= out@);
    }
    while i < entities.len()
        invariant
            i <= entities.len(),
            total_ordering(snapshot_order()),
            sorted_by(out@, snapshot_order()),
            out@.to_multiset() == entities@.take(i as int).to_multiset(),
        decreases entities.len() - i,
    {
        let e = entities[i];
        let mut j: usize = out.len();
        while j > 0 && e.precedes(&out[j - 1])
            invariant
                j <= out.len(),
                sorted_by(out@, snapshot_order()),
                forall|k: int| j <= k < out.len() ==> snapshot_before(e, out@[k]),
            decreases j,
        {
            j -= 1;
        }
        proof {
            let r = snapshot_order();
            let t = out@.insert(j as int, e);
            assert forall|a: int, b: int| 0 <= a < b < t.len() implies #[trigger] r(
                t[a],
                t[b],
            ) by {
                if b < j {
                    assert(r(out@[a], out@[b]));
                } else if b == j {
                    assert(!snapshot_before(e, out@[j - 1]));
                    assert(r(out@[j - 1], e) || r(e, out@[j - 1]));
                    assert(snapshot_le(out@[j - 1], e));
                    if a < j - 1 {
                        assert(r(out@[a], out@[j - 1]));
                        assert(r(out@[j - 1], e));
                        assert(r(out@[a], e));
                    }
                } else if a == j {
                    assert(snapshot_before(e, out@[b - 1]));
                    assert(snapshot_le(e, out@[b - 1]));
                } else if a < j {
                    if a < b - 1 {
                        assert(r(out@[a], out@[b - 1]));
                    }
                } else {
                    assert(r(out@[a - 1], out@[b - 1]));
                }
            }
            to_multiset_insert(out@, j as int, e);
            assert(entities@.take(i + 1) =~= entities@.take(i as int).push(e));
            to_multiset_build(entities@.take(i as int), e);
        }
        out.insert(j, e);
        i += 1;
    }
    proof {
        assert(entities@.take(i as int) =~= entities@);
        entities@.lemma_sort_by_ensures(snapshot_order());
        lemma_sorted_unique(out@, in_digest_order(entities@), snapshot_order());
    }
    out
}

/// The checksum of the state at `tick` with the given entities, whatever order
/// they come in.
pub fn checksum_for_state(tick: u64, entities: &[EntitySnapshot]) -> (c: Checksum)
    ensures
        c == state_checksum(tick, entities@),
{
    let ordered = sort_for_digest(entities);
    digest_listing(tick, ordered.as_slice())
}

} // verus!
