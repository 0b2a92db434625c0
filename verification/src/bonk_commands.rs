//! In-room chat commands, and the fuzzy name resolver the pick command
//! uses.
//!
//! The resolver scores a query against each key as the best partial
//! alignment of the query's bytes into the key's bytes, in order: a
//! match continuing directly after the previous one is worth 10 points,
//! any other match 9, so contiguous runs win. Each key is scored twice,
//! case-sensitively and lowercased, and the best keys are returned.

use vstd::prelude::*;
use vstd::string::StringSliceAdditionalSpecFns;
use crate::bonk_room::{
    Action, BonkRoom, GamePlayers, GamePlayersV, Player, PlayerV, QueueEntry, RoomState,
    TimerArm, first_with_id, first_with_name, lemma_first_with_id, lemma_first_with_name,
    first_strike_idx, strikes_of, lemma_first_strike_idx, is_chat, is_arm, valid_step,
    count_false, plv,
};
use crate::room_maker::{Mode, Queue};
use crate::events::{
    start_map_selection, in_game_players, queue_ready, ready_in, football_picker_team,
    football_other_team, has_chat, has_arm, has_change_team, lemma_count_false_update, ready_count,
    selection_entered, has_action,
};
use crate::random::random_below;
use crate::text::{dec_digits, u64_string};

verus! {

/// ASCII lowercase of one byte.
pub open spec fn lower_byte(b: u8) -> u8 {
    if 65 <= b && b <= 90 {
        (b + 32) as u8
    } else {
        b
    }
}

/// ASCII lowercase of a byte string.
pub open spec fn lower_bytes(s: Seq<u8>) -> Seq<u8> {
    s.map_values(|b: u8| lower_byte(b))
}

/// Best alignment score of `q[qi..]` into `k[ki..]`, where a match at
/// the very start of the window scores 10 (it continues the previous
/// match) and any later match scores 9.
pub open spec fn spec_score(q: Seq<u8>, k: Seq<u8>, qi: int, ki: int) -> nat
    decreases q.len() - qi, k.len() - ki, 1int,
    when 0 <= qi && 0 <= ki
{
    if qi >= q.len() || ki >= k.len() {
        0
    } else {
        score_from(q, k, qi, ki, ki)
    }
}

/// Best score over alignments that match `q[qi]` at some position at or
/// after `i` (with `ki` the start of the window, deciding the bonus).
pub open spec fn score_from(q: Seq<u8>, k: Seq<u8>, qi: int, ki: int, i: int) -> nat
    decreases q.len() - qi, k.len() - i, 0int,
    when 0 <= qi < q.len() && 0 <= ki <= i
{
    if i >= k.len() {
        0
    } else {
        let rest = score_from(q, k, qi, ki, i + 1);
        if k[i] == q[qi] {
            let bonus: nat = if i == ki {
                10
            } else {
                9
            };
            let v = spec_score(q, k, qi + 1, i + 1) + bonus;
            if v >= rest {
                v
            } else {
                rest
            }
        } else {
            rest
        }
    }
}

/// A score never exceeds 10 points per unmatched query byte.
pub proof fn lemma_score_bound(q: Seq<u8>, k: Seq<u8>, qi: int, ki: int)
    requires
        0 <= qi,
        0 <= ki,
    ensures
        qi < q.len() ==> spec_score(q, k, qi, ki) <= 10 * (q.len() - qi),
        qi >= q.len() ==> spec_score(q, k, qi, ki) == 0,
    decreases q.len() - qi, k.len() - ki, 1int,
{
    if qi < q.len() && ki < k.len() {
        lemma_score_from_bound(q, k, qi, ki, ki);
    }
}

proof fn lemma_score_from_bound(q: Seq<u8>, k: Seq<u8>, qi: int, ki: int, i: int)
    requires
        0 <= qi < q.len(),
        0 <= ki <= i,
    ensures
        score_from(q, k, qi, ki, i) <= 10 * (q.len() - qi),
    decreases q.len() - qi, k.len() - i, 0int,
{
    if i < k.len() {
        lemma_score_from_bound(q, k, qi, ki, i + 1);
        if k[i] == q[qi] {
            lemma_score_bound(q, k, qi + 1, i + 1);
        }
    }
}

/// Best alignment score of `query[query_index..]` into
/// `key[key_index..]`.
pub(crate) fn fuzzy_score(query: &[u8], key: &[u8], query_index: usize, key_index: usize) -> (s:
    u64)
    requires
        10 * query@.len() <= u64::MAX,
    ensures
        s == spec_score(query@, key@, query_index as int, key_index as int),
    decreases query@.len() - query_index,
{
    if query_index >= query.len() || key_index >= key.len() {
        return 0;
    }
    let mut best: u64 = 0;
    let mut i: usize = key_index;
    while i < key.len()
        invariant
            10 * query@.len() <= u64::MAX,
            query_index < query@.len(),
            key_index <= i <= key@.len(),
            best <= 10 * (query@.len() - query_index),
            spec_score(query@, key@, query_index as int, key_index as int) == ({
                let rest = score_from(
                    query@,
                    key@,
                    query_index as int,
                    key_index as int,
                    i as int,
                );
                if best >= rest {
                    best as nat
                } else {
                    rest
                }
            }),
        decreases key@.len() - i,
    {
        if key[i] == query[query_index] {
            let sub = fuzzy_score(query, key, query_index + 1, i + 1);
            proof {
                lemma_score_bound(query@, key@, query_index + 1, i + 1);
            }
            let bonus: u64 = if i == key_index {
                10
            } else {
                9
            };
            let v = sub + bonus;
            if v > best {
                best = v;
            }
        }
        i += 1;
    }
    best
}

/// The UTF-8 bytes of a key, which the scorer works on.
pub open spec fn kb(kv: Seq<char>) -> Seq<u8> {
    vstd::utf8::encode_utf8(kv)
}

/// Lowercased score of a key against the query bytes.
pub open spec fn low_of(qb: Seq<u8>, kv: Seq<char>) -> nat {
    spec_score(lower_bytes(qb), lower_bytes(kb(kv)), 0, 0)
}

/// Case-sensitive score of a key against the query bytes.
pub open spec fn raw_of(qb: Seq<u8>, kv: Seq<char>) -> nat {
    spec_score(qb, kb(kv), 0, 0)
}

/// Strict ranking between two keys: higher lowercased score first, then
/// higher case-sensitive score, then fewer bytes.
pub open spec fn beats(qb: Seq<u8>, a: Seq<char>, b: Seq<char>) -> bool {
    ||| low_of(qb, a) > low_of(qb, b)
    ||| (low_of(qb, a) == low_of(qb, b) && raw_of(qb, a) > raw_of(qb, b))
    ||| (low_of(qb, a) == low_of(qb, b) && raw_of(qb, a) == raw_of(qb, b) && kb(a).len() < kb(
        b,
    ).len())
}

/// A key wins among the first `t` keys when its lowercased score is
/// positive and none of those keys ranks strictly above it.
pub open spec fn is_winner_upto(qb: Seq<u8>, kviews: Seq<Seq<char>>, t: int, kv: Seq<char>) -> bool {
    &&& low_of(qb, kv) > 0
    &&& forall|m: int| 0 <= m < t ==> !beats(qb, kviews[m], kv)
}

/// The winning prefix keys, in key order.
pub open spec fn winners_upto(qb: Seq<u8>, kviews: Seq<Seq<char>>, t: int) -> Seq<Seq<char>> {
    kviews.take(t).filter(|kv: Seq<char>| is_winner_upto(qb, kviews, t, kv))
}

/// The keys the resolver returns: those with a positive lowercased
/// score that no key ranks strictly above, in key order.
pub open spec fn winners(qb: Seq<u8>, kviews: Seq<Seq<char>>) -> Seq<Seq<char>> {
    winners_upto(qb, kviews, kviews.len() as int)
}

/// The character views of a list of keys.
pub open spec fn views_of(keys: Seq<String>) -> Seq<Seq<char>> {
    keys.map_values(|k: String| k@)
}

proof fn lemma_filter_congruence<A>(s: Seq<A>, p1: spec_fn(A) -> bool, p2: spec_fn(A) -> bool)
    requires
        forall|x: int| 0 <= x < s.len() ==> p1(s[x]) == p2(s[x]),
    ensures
        s.filter(p1) == s.filter(p2),
    decreases s.len(),
{
    reveal(Seq::filter);
    if s.len() > 0 {
        lemma_filter_congruence(s.drop_last(), p1, p2);
        assert(p1(s.last()) == p2(s.last()));
    }
}

proof fn lemma_filter_push<A>(s: Seq<A>, p: spec_fn(A) -> bool, e: A)
    ensures
        s.push(e).filter(p) == if p(e) {
            s.filter(p).push(e)
        } else {
            s.filter(p)
        },
{
    reveal(Seq::filter);
    assert(s.push(e).drop_last() =~= s);
    assert(s.push(e).last() == e);
}

proof fn lemma_filter_all_false<A>(s: Seq<A>, p: spec_fn(A) -> bool)
    requires
        forall|x: int| 0 <= x < s.len() ==> !p(s[x]),
    ensures
        s.filter(p) == Seq::<A>::empty(),
    decreases s.len(),
{
    reveal(Seq::filter);
    if s.len() > 0 {
        lemma_filter_all_false(s.drop_last(), p);
    }
    assert(s.filter(p) =~= Seq::<A>::empty());
}

/// ASCII lowercase of a byte string.
fn to_lower_vec(b: &[u8]) -> (r: Vec<u8>)
    ensures
        r@ == lower_bytes(b@),
{
    let mut r: Vec<u8> = Vec::new();
    let n = b.len();
    let mut i: usize = 0;
    while i < n
        invariant
            i <= n,
            n == b@.len(),
            r@ == lower_bytes(b@.take(i as int)),
        decreases n - i,
    {
        let c = b[i];
        if 65 <= c && c <= 90 {
            r.push(c + 32);
        } else {
            r.push(c);
        }
        proof {
            assert(r@ =~= lower_bytes(b@.take(i + 1)));
        }
        i += 1;
    }
    proof {
        assert(b@.take(n as int) == b@);
    }
    r
}

/// Resolve a free-form query against a list of keys: every key gets a
/// lowercased and a case-sensitive alignment score, and the keys that
/// no other key outranks are returned, in key order. A query that
/// matches nothing (lowercased score zero everywhere) returns nothing.
pub fn fuzzy_finder(query: &str, keys: &[String]) -> (res: Vec<String>)
    requires
        10 * query.spec_bytes().len() <= u64::MAX,
    ensures
        views_of(res@) == winners(query.spec_bytes(), views_of(keys@)),
{
    let qb_raw: &[u8] = query.as_bytes();
    let qb_low: Vec<u8> = to_lower_vec(qb_raw);
    let ghost qb = query.spec_bytes();
    let ghost kviews = views_of(keys@);

    let mut bests: Vec<String> = Vec::new();
    let mut best_low: u64 = 0;
    let mut best_raw: u64 = 0;
    let mut best_len: usize = 0;

    let n = keys.len();
    let mut i: usize = 0;
    proof {
        assert(kviews.take(0) =~= Seq::<Seq<char>>::empty());
        lemma_filter_all_false(
            kviews.take(0),
            |kv: Seq<char>| is_winner_upto(qb, kviews, 0, kv),
        );
        assert(views_of(bests@) =~= winners_upto(qb, kviews, 0));
    }
    while i < n
        invariant
            i <= n,
            n == keys@.len(),
            qb == query.spec_bytes(),
            kviews == views_of(keys@),
            10 * qb.len() <= u64::MAX,
            qb_raw@ == qb,
            qb_low@ == lower_bytes(qb),
            views_of(bests@) == winners_upto(qb, kviews, i as int),
            bests@.len() > 0 ==> {
                &&& best_low > 0
                &&& best_low == low_of(qb, bests@[0]@)
                &&& best_raw == raw_of(qb, bests@[0]@)
                &&& best_len == kb(bests@[0]@).len()
                &&& forall|x: int|
                    0 <= x < bests@.len() ==> low_of(qb, (#[trigger] bests@[x])@) == best_low
                        && raw_of(qb, bests@[x]@) == best_raw && kb(bests@[x]@).len()
                        == best_len
                &&& exists|jb: int| 0 <= jb < i && kviews[jb] == bests@[0]@
                &&& forall|m: int| 0 <= m < i ==> !beats(qb, #[trigger] kviews[m], bests@[0]@)
            },
            bests@.len() == 0 ==> forall|m: int|
                0 <= m < i ==> low_of(qb, #[trigger] kviews[m]) == 0,
        decreases n - i,
    {
        let key: &String = &keys[i];
        let key_bytes: &[u8] = key.as_str().as_bytes();
        let key_low: Vec<u8> = to_lower_vec(key_bytes);
        let raw: u64 = fuzzy_score(qb_raw, key_bytes, 0, 0);
        let low: u64 = fuzzy_score(qb_low.as_slice(), key_low.as_slice(), 0, 0);
        let klen: usize = key_bytes.len();
        proof {
            assert(lower_bytes(qb).len() == qb.len());
            assert(key_bytes@ == kb(kviews[i as int]));
            assert(raw == raw_of(qb, kviews[i as int]));
            assert(low == low_of(qb, kviews[i as int]));
        }
        let ghost t = i as int;
        let ghost p_t = |kv: Seq<char>| is_winner_upto(qb, kviews, t, kv);
        let ghost p_t1 = |kv: Seq<char>| is_winner_upto(qb, kviews, t + 1, kv);
        proof {
            assert(kviews.take(t + 1) =~= kviews.take(t).push(kviews[t]));
            lemma_filter_push(kviews.take(t), p_t1, kviews[t]);
        }

        if bests.len() == 0 {
            if low != 0 {
                bests.push(key.clone());
                best_low = low;
                best_raw = raw;
                best_len = klen;
                proof {
                    assert forall|x: int| 0 <= x < kviews.take(t).len() implies !p_t1(
                        kviews.take(t)[x],
                    ) by {
                        assert(low_of(qb, kviews[x]) == 0);
                    }
                    lemma_filter_all_false(kviews.take(t), p_t1);
                    assert(p_t1(kviews[t]));
                    assert(views_of(bests@) =~= winners_upto(qb, kviews, t + 1));
                }
            } else {
                proof {
                    assert forall|x: int| 0 <= x < kviews.take(t).len() implies !p_t1(
                        kviews.take(t)[x],
                    ) by {
                        assert(low_of(qb, kviews[x]) == 0);
                    }
                    lemma_filter_all_false(kviews.take(t), p_t1);
                    assert(!p_t1(kviews[t]));
                    assert(views_of(bests@) =~= winners_upto(qb, kviews, t + 1));
                }
            }
        } else {
            let ghost b0 = bests@[0]@;
            proof {
                // every current winner in the prefix carries the best triple
                assert forall|x: int|
                    0 <= x < kviews.take(t).len() && p_t(
                        kviews.take(t)[x],
                    ) implies low_of(qb, kviews[x]) == best_low && raw_of(qb, kviews[x])
                    == best_raw && kb(kviews[x]).len() == best_len by {
                    let kv = kviews[x];
                    let jb = choose|jb: int| 0 <= jb < t && kviews[jb] == b0;
                    assert(!beats(qb, kviews[x], b0));
                    assert(!beats(qb, kviews[jb], kv));
                }
            }
            if low > best_low || (low == best_low && raw > best_raw) || (low == best_low && raw
                == best_raw && klen < best_len) {
                // strictly better: a new best class starts here
                let mut nb: Vec<String> = Vec::new();
                nb.push(key.clone());
                bests = nb;
                best_low = low;
                best_raw = raw;
                best_len = klen;
                proof {
                    assert(beats(qb, kviews[t], b0));
                    assert forall|x: int| 0 <= x < kviews.take(t).len() implies !p_t1(
                        kviews.take(t)[x],
                    ) by {
                        let kv = kviews.take(t)[x];
                        if p_t(kv) {
                            assert(beats(qb, kviews[t], kv));
                        }
                    }
                    lemma_filter_all_false(kviews.take(t), p_t1);
                    assert(p_t1(kviews[t])) by {
                        assert(low_of(qb, kviews[t]) > 0);
                        assert forall|m: int| 0 <= m < t + 1 implies !beats(
                            qb,
                            kviews[m],
                            kviews[t],
                        ) by {
                            if m < t && beats(qb, kviews[m], kviews[t]) {
                                assert(beats(qb, kviews[m], b0));
                            }
                        }
                    }
                    assert(views_of(bests@) =~= winners_upto(qb, kviews, t + 1));
                }
            } else if low == best_low && raw == best_raw && klen == best_len {
                // same triple: joins the best class
                bests.push(key.clone());
                proof {
                    assert forall|x: int| 0 <= x < kviews.take(t).len() implies p_t1(
                        kviews.take(t)[x],
                    ) == p_t(kviews.take(t)[x]) by {
                        let kv = kviews.take(t)[x];
                        if p_t(kv) {
                            assert(!beats(qb, kviews[t], kv));
                        }
                    }
                    lemma_filter_congruence(kviews.take(t), p_t1, p_t);
                    assert(p_t1(kviews[t])) by {
                        assert forall|m: int| 0 <= m < t + 1 implies !beats(
                            qb,
                            kviews[m],
                            kviews[t],
                        ) by {
                            if m < t && beats(qb, kviews[m], kviews[t]) {
                                assert(beats(qb, kviews[m], b0));
                            }
                        }
                    }
                    assert(views_of(bests@) =~= winners_upto(qb, kviews, t + 1));
                }
            } else {
                // strictly worse: nothing changes
                proof {
                    let jb = choose|jb: int| 0 <= jb < t && kviews[jb] == b0;
                    assert(beats(qb, b0, kviews[t]));
                    assert forall|x: int| 0 <= x < kviews.take(t).len() implies p_t1(
                        kviews.take(t)[x],
                    ) == p_t(kviews.take(t)[x]) by {
                        let kv = kviews.take(t)[x];
                        if p_t(kv) {
                            assert(!beats(qb, kviews[t], kv));
                        }
                    }
                    lemma_filter_congruence(kviews.take(t), p_t1, p_t);
                    assert(!p_t1(kviews[t])) by {
                        assert(beats(qb, kviews[jb], kviews[t]));
                    }
                    assert(views_of(bests@) =~= winners_upto(qb, kviews, t + 1));
                }
            }
        }
        i += 1;
    }
    proof {
        assert(kviews.take(n as int) == kviews);
    }
    bests
}

proof fn lemma_score_prefix(q: Seq<u8>, k: Seq<u8>, qi: int, ki: int)
    requires
        0 <= qi < q.len(),
        0 <= ki,
        q.len() - qi <= k.len() - ki,
        forall|d: int| 0 <= d < q.len() - qi ==> k[ki + d] == #[trigger] q[qi + d],
    ensures
        spec_score(q, k, qi, ki) >= 10 * (q.len() - qi),
    decreases q.len() - qi,
{
    assert(k[ki] == q[qi]) by {
        assert(k[ki + 0] == q[qi + 0]);
    }
    if qi + 1 < q.len() {
        assert forall|d: int| 0 <= d < q.len() - (qi + 1) implies k[ki + 1 + d]
            == #[trigger] q[qi + 1 + d] by {
            assert(k[ki + (d + 1)] == q[qi + (d + 1)]);
        }
        lemma_score_prefix(q, k, qi + 1, ki + 1);
    }
}

proof fn lemma_score_from_later(q: Seq<u8>, k: Seq<u8>, qi: int, ki: int, i: int)
    requires
        0 <= qi < q.len(),
        0 <= ki < i,
    ensures
        score_from(q, k, qi, ki, i) <= 9 + 10 * (q.len() - qi - 1),
    decreases k.len() - i,
{
    if i < k.len() {
        lemma_score_from_later(q, k, qi, ki, i + 1);
        if k[i] == q[qi] {
            lemma_score_bound(q, k, qi + 1, i + 1);
        }
    }
}

/// A full score of 10 per query byte is reached only when the query is
/// a prefix of the key window.
proof fn lemma_score_max_prefix(q: Seq<u8>, k: Seq<u8>, qi: int, ki: int)
    requires
        0 <= qi < q.len(),
        0 <= ki,
        spec_score(q, k, qi, ki) == 10 * (q.len() - qi),
    ensures
        q.len() - qi <= k.len() - ki,
        forall|d: int| 0 <= d < q.len() - qi ==> k[ki + d] == #[trigger] q[qi + d],
    decreases q.len() - qi,
{
    if ki >= k.len() {
        assert(spec_score(q, k, qi, ki) == 0);
        assert(false);
    }
    lemma_score_from_later(q, k, qi, ki, ki + 1);
    if k[ki] != q[qi] {
        assert(score_from(q, k, qi, ki, ki) == score_from(q, k, qi, ki, ki + 1));
        assert(false);
    }
    let v = spec_score(q, k, qi + 1, ki + 1) + 10;
    assert(score_from(q, k, qi, ki, ki) == if v >= score_from(q, k, qi, ki, ki + 1) {
        v
    } else {
        score_from(q, k, qi, ki, ki + 1)
    });
    assert(v == 10 * (q.len() - qi));
    if qi + 1 < q.len() {
        lemma_score_max_prefix(q, k, qi + 1, ki + 1);
        assert forall|d: int| 0 <= d < q.len() - qi implies k[ki + d] == #[trigger] q[qi
            + d] by {
            if d > 0 {
                assert(k[(ki + 1) + (d - 1)] == q[(qi + 1) + (d - 1)]);
            }
        }
    } else {
        lemma_score_bound(q, k, qi + 1, ki + 1);
        assert forall|d: int| 0 <= d < q.len() - qi implies k[ki + d] == #[trigger] q[qi
            + d] by {
            assert(d == 0);
        }
    }
}

proof fn lemma_filter_single<A>(s: Seq<A>, p: spec_fn(A) -> bool, j: int)
    requires
        0 <= j < s.len(),
        p(s[j]),
        forall|x: int| 0 <= x < s.len() && x != j ==> !p(s[x]),
    ensures
        s.filter(p) == seq![s[j]],
    decreases s.len(),
{
    reveal(Seq::filter);
    if j == s.len() - 1 {
        lemma_filter_all_false(s.drop_last(), p);
        assert(s.filter(p) =~= seq![s[j]]);
    } else {
        lemma_filter_single(s.drop_last(), p, j);
        assert(!p(s.last()));
        assert(s.filter(p) =~= seq![s[j]]);
    }
}

proof fn lemma_filter_counts<A>(s: Seq<A>, p: spec_fn(A) -> bool, a: A)
    ensures
        s.filter(p).to_multiset().count(a) <= s.to_multiset().count(a),
    decreases s.len(),
{
    broadcast use vstd::seq_lib::group_to_multiset_ensures;

    reveal(Seq::filter);
    if s.len() > 0 {
        lemma_filter_counts(s.drop_last(), p, a);
        assert(s =~= s.drop_last().push(s.last()));
        assert(s.to_multiset() == s.drop_last().push(s.last()).to_multiset());
    }
}

/// The resolver's results are a permutation of a subset of the keys: no
/// result appears more often than the key it names.
pub proof fn lemma_fuzzy_permutation_of_subset(qb: Seq<u8>, kviews: Seq<Seq<char>>)
    ensures
        forall|a: Seq<char>|
            #[trigger] winners(qb, kviews).to_multiset().count(a)
                <= kviews.to_multiset().count(a),
{
    assert forall|a: Seq<char>| #[trigger] winners(qb, kviews).to_multiset().count(a)
        <= kviews.to_multiset().count(a) by {
        assert(kviews.take(kviews.len() as int) == kviews);
        lemma_filter_counts(
            kviews,
            |kv: Seq<char>| is_winner_upto(qb, kviews, kviews.len() as int, kv),
            a,
        );
    }
}

/// A query that is, byte for byte, exactly one of the keys resolves to
/// that key alone. (With only case-insensitive equality this can fail:
/// a differently-cased key loses its case-sensitive score and a longer
/// key that extends the query can outrank it.)
pub proof fn lemma_fuzzy_exact_match(qb: Seq<u8>, kviews: Seq<Seq<char>>, j: int)
    requires
        0 <= j < kviews.len(),
        qb.len() > 0,
        kb(kviews[j]) == qb,
        forall|m: int| 0 <= m < kviews.len() && m != j ==> kb(#[trigger] kviews[m]) != qb,
    ensures
        winners(qb, kviews) == seq![kviews[j]],
{
    let len = kviews.len() as int;
    let ll = qb.len() as int;
    let qlow = lower_bytes(qb);
    assert(qlow.len() == ll);

    // the exact key scores the maximum on both scales
    assert(low_of(qb, kviews[j]) == 10 * ll) by {
        lemma_score_prefix(qlow, qlow, 0, 0);
        lemma_score_bound(qlow, qlow, 0, 0);
    }
    assert(raw_of(qb, kviews[j]) == 10 * ll) by {
        lemma_score_prefix(qb, qb, 0, 0);
        lemma_score_bound(qb, qb, 0, 0);
    }

    // nothing outranks it, and it outranks every other key
    assert forall|m: int| 0 <= m < len && m != j implies !beats(qb, kviews[m], kviews[j])
        && beats(qb, kviews[j], kviews[m]) by {
        let mb = kb(kviews[m]);
        assert(lower_bytes(mb).len() == mb.len());
        assert(low_of(qb, kviews[m]) <= 10 * ll) by {
            lemma_score_bound(qlow, lower_bytes(mb), 0, 0);
        }
        assert(raw_of(qb, kviews[m]) <= 10 * ll) by {
            lemma_score_bound(qb, mb, 0, 0);
        }
        if raw_of(qb, kviews[m]) == 10 * ll {
            lemma_score_max_prefix(qb, mb, 0, 0);
            assert(mb.len() >= ll);
            if mb.len() == ll {
                assert forall|x: int| 0 <= x < ll implies mb[x] == qb[x] by {
                    assert(mb[0 + x] == qb[0 + x]);
                }
                assert(mb =~= qb);
                assert(false);
            }
            assert(kb(kviews[j]).len() < mb.len());
        }
    }

    let p = |kv: Seq<char>| is_winner_upto(qb, kviews, len, kv);
    assert(p(kviews[j])) by {
        assert forall|m: int| 0 <= m < len implies !beats(qb, kviews[m], kviews[j]) by {}
    }
    assert forall|x: int| 0 <= x < len && x != j implies !p(kviews[x]) by {
        assert(beats(qb, kviews[j], kviews[x]));
    }
    lemma_filter_single(kviews, p, j);
    assert(kviews.take(len) == kviews);
}

/// The names the pick command resolves against: queued, present,
/// spectating players, in queue order.
pub open spec fn pick_key_views(q: Seq<QueueEntry>) -> Seq<Seq<char>> {
    q.filter(|e: QueueEntry| e.player.in_room && e.player.team == 0).map_values(
        |e: QueueEntry| e.player.name@,
    )
}

/// The captain currently picking: the singles captain, or the head of
/// the picking team, with their id.
pub open spec fn current_picker(gp: GamePlayersV) -> Option<PlayerV> {
    match gp {
        GamePlayersV::Singles { picker, picked: _ } => picker,
        GamePlayersV::Teams { teams, picker_idx } => if 0 <= picker_idx < teams.len()
            && teams[picker_idx].len() > 0 {
            Some(teams[picker_idx][0])
        } else {
            None
        },
        GamePlayersV::FFA { in_game: _ } => None,
    }
}

/// The team a picked player is sent to: the picker's side in singles
/// and teams play, the side opposite the picker under Football.
pub open spec fn picked_team(mode: Mode, gp: GamePlayersV, flip: bool) -> i32 {
    match gp {
        GamePlayersV::Singles { picker: _, picked: _ } => if mode == Mode::Football {
            football_other_team(flip)
        } else {
            1
        },
        GamePlayersV::Teams { teams: _, picker_idx } => if mode == Mode::Football {
            if picker_idx == 0 {
                football_other_team(flip)
            } else {
                football_picker_team(flip)
            }
        } else {
            (2 + picker_idx) as i32
        },
        GamePlayersV::FFA { in_game: _ } => 0,
    }
}

/// Handle a pick command: only the current captain, in the picking
/// phase, may pick; the free-form name is resolved with the fuzzy
/// finder and must match exactly one spectating queued player, who is
/// then assigned to the proper team. Singles start map selection at
/// once; teams continue until every team is full, passing the turn to
/// the next captain whose team has room.
/// What a pick command leaves behind: precise rebuffs out of phase,
/// for the wrong issuer, a missing argument or an ambiguous name; and
/// on a unique match the resolved player joins the proper team, a
/// singles room starts map selection, a teams room fills the picking
/// team and passes the turn to a captain with room.
pub open spec fn pick_post(
    pre: BonkRoom,
    post: BonkRoom,
    id: i32,
    name_text: Seq<char>,
    acts: Seq<Action>,
) -> bool {
    &&& post.wf()
    &&& valid_step(pre.state, post.state)
    &&& pre.state != RoomState::Pick ==> post == pre && acts.len() == 1 && is_chat(
        acts[0],
        "You can't pick an opponent right now."@,
    )
    &&& pre.state == RoomState::Pick ==> match current_picker(pre.game_players@) {
        None => post == pre && acts.len() == 1 && is_chat(
            acts[0],
            "You can't pick an opponent right now."@,
        ),
        Some(pk) => {
            &&& pk.id != id ==> post == pre && acts.len() == 1 && is_chat(
                acts[0],
                "It's "@ + pk.name + "'s turn to pick."@,
            )
            &&& pk.id == id ==> {
                let qb = vstd::utf8::encode_utf8(name_text);
                let keys = pick_key_views(pre.queue@);
                let ms = winners(qb, keys);
                &&& name_text.len() == 0 ==> post == pre && acts.len() == 1 && is_chat(
                    acts[0],
                    "Error: Player argument missing. Please specify a player to pick."@,
                )
                &&& (name_text.len() > 0 && qb.len() <= 100000000 && ms.len() != 1) ==> post
                    == pre && acts.len() == 1 && is_chat(
                    acts[0],
                    "I couldn't find a match."@,
                )
                &&& (name_text.len() > 0 && qb.len() <= 100000000 && ms.len() == 1
                    && first_with_name(pre.queue@, ms[0]) != -1) ==> {
                    let fi = first_with_name(pre.queue@, ms[0]);
                    let pid = pre.queue@[fi].player.id;
                    let t = picked_team(
                        pre.room_parameters.mode,
                        pre.game_players@,
                        pre.team_flip,
                    );
                    &&& has_change_team(acts, pid, t)
                    &&& pre.game_players@ matches GamePlayersV::Singles {
                        picker: _,
                        picked: _,
                    } ==> (post.game_players@ matches GamePlayersV::Singles {
                        picker: _,
                        picked: Some(pd),
                    } && pd.name == ms[0] && pd.id == pid) && (post.state
                        == RoomState::MapSelection || post.state == RoomState::Ready)
                        && selection_entered(pre.room_parameters, post, acts)
                    &&& pre.game_players@ matches GamePlayersV::Teams {
                        teams: _,
                        picker_idx: _,
                    } ==> (post.state == RoomState::Pick || post.state
                        == RoomState::MapSelection || post.state == RoomState::Ready) && (
                    post.game_players@ matches GamePlayersV::Teams {
                        teams: nt,
                        picker_idx: npi,
                    } && {
                        let teams0 = pre.game_players@->Teams_teams;
                        let pi = pre.game_players@->Teams_picker_idx;
                        &&& nt.len() == teams0.len()
                        &&& nt[pi] == teams0[pi].push(
                            PlayerV { team: t, ..pre.queue@[fi].player@ },
                        )
                        &&& forall|x: int|
                            0 <= x < nt.len() && x != pi ==> #[trigger] nt[x] == teams0[x]
                        &&& post.state == RoomState::Pick ==> {
                            &&& 0 <= npi < nt.len()
                            &&& nt[npi].len() < pre.room_parameters.team_size
                            &&& has_arm(acts, TimerArm::Secs(pre.room_parameters.pick_time))
                            &&& nt[npi].len() >= 1 ==> has_chat(
                                acts,
                                nt[npi][0].name
                                    + ", pick a teammate with !p <abbreviation>"@,
                            )
                        }
                        &&& post.state != RoomState::Pick ==> selection_entered(
                            pre.room_parameters,
                            post,
                            acts,
                        )
                    })
                }
            }
        }
    }
}

#[verifier::rlimit(100)]
pub fn pick(room: &mut BonkRoom, id: i32, name_text: &String) -> (acts: Vec<Action>)
    requires
        old(room).wf(),
    ensures
        pick_post(*old(room), *final(room), id, name_text@, acts@),
{
    let mut acts: Vec<Action> = Vec::new();
    proof {
        reveal_strlit("You can't pick an opponent right now.");
        reveal_strlit("It's ");
        reveal_strlit("'s turn to pick.");
        reveal_strlit("Error: Player argument missing. Please specify a player to pick.");
        reveal_strlit("I couldn't find a match.");
    }
    if !matches!(room.state, RoomState::Pick) {
        acts.push(
            Action::Chat {
                message: String::from_str("You can't pick an opponent right now."),
            },
        );
        return acts;
    }
    let picker: Option<Player> = match &room.game_players {
        GamePlayers::Singles { picker, picked: _ } => match picker {
            Some(p) => Some(p.duplicate()),
            None => None,
        },
        GamePlayers::Teams { teams, picker_idx } => {
            if *picker_idx < teams.len() {
                let t = &teams[*picker_idx];
                if t.len() > 0 {
                    Some(t[0].duplicate())
                } else {
                    None
                }
            } else {
                None
            }
        },
        GamePlayers::FFA { in_game: _ } => None,
    };
    let picker = match picker {
        Some(p) => p,
        None => {
            acts.push(
                Action::Chat {
                    message: String::from_str("You can't pick an opponent right now."),
                },
            );
            return acts;
        },
    };
    if picker.id != id {
        let mut m = String::from_str("It's ");
        m.append(picker.name.as_str());
        m.append("'s turn to pick.");
        acts.push(Action::Chat { message: m });
        return acts;
    }
    if name_text.as_str().unicode_len() == 0 {
        acts.push(
            Action::Chat {
                message: String::from_str(
                    "Error: Player argument missing. Please specify a player to pick.",
                ),
            },
        );
        return acts;
    }
    if name_text.as_str().as_bytes().len() > 100000000 {
        acts.push(Action::Chat { message: String::from_str("I couldn't find a match.") });
        return acts;
    }
    let ghost q0 = room.queue@;
    let mut keys: Vec<String> = Vec::new();
    let n = room.queue.len();
    let mut i: usize = 0;
    proof {
        reveal(Seq::filter);
        assert(q0.take(0) =~= Seq::<QueueEntry>::empty());
        assert(views_of(keys@) =~= pick_key_views(q0.take(0)));
    }
    while i < n
        invariant
            i <= n,
            n == q0.len(),
            room.queue@ == q0,
            views_of(keys@) == pick_key_views(q0.take(i as int)),
        decreases n - i,
    {
        let ghost t1 = q0.take(i + 1);
        let ghost t0 = q0.take(i as int);
        proof {
            reveal(Seq::filter);
            assert(t1.drop_last() =~= t0);
            assert(t1.last() == q0[i as int]);
        }
        if room.queue[i].player.in_room && room.queue[i].player.team == 0 {
            let ghost kprev = keys@;
            keys.push(room.queue[i].player.name.clone());
            proof {
                assert(t1.filter(|e: QueueEntry| e.player.in_room && e.player.team == 0)
                    == t0.filter(
                    |e: QueueEntry| e.player.in_room && e.player.team == 0,
                ).push(q0[i as int]));
                assert(views_of(keys@) =~= views_of(kprev).push(q0[i as int].player.name@));
                assert(pick_key_views(t1) =~= pick_key_views(t0).push(
                    q0[i as int].player.name@,
                ));
                assert(views_of(keys@) =~= pick_key_views(t1));
            }
        } else {
            proof {
                assert(t1.filter(|e: QueueEntry| e.player.in_room && e.player.team == 0)
                    == t0.filter(|e: QueueEntry| e.player.in_room && e.player.team == 0));
            }
        }
        i += 1;
    }
    proof {
        assert(q0.take(n as int) == q0);
    }
    let matches = fuzzy_finder(name_text.as_str(), keys.as_slice());
    if matches.len() != 1 {
        acts.push(Action::Chat { message: String::from_str("I couldn't find a match.") });
        return acts;
    }
    let mname: &String = &matches[0];
    proof {
        assert(views_of(matches@)[0] == mname@);
    }
    let fi = find_queue_index_by_name(room, mname);
    if fi >= room.queue.len() {
        proof {
            let qb = vstd::utf8::encode_utf8(name_text@);
            let keys2 = pick_key_views(old(room).queue@);
            let ms = winners(qb, keys2);
            assert(views_of(keys@) == keys2);
            assert(views_of(matches@) == ms);
            assert(ms.len() == 1);
            assert(ms[0] == mname@);
            lemma_first_with_name(old(room).queue@, mname@);
            assert(first_with_name(old(room).queue@, ms[0]) == -1);
        }
        acts.push(Action::Chat { message: String::from_str("I couldn't find a match.") });
        return acts;
    }
    proof {
        lemma_first_with_name(old(room).queue@, mname@);
    }
    let pid = room.queue[fi].player.id;
    let football = room.room_parameters.mode == Mode::Football;
    let flip = room.team_flip;
    let mut picked = room.queue[fi].player.duplicate();
    let is_singles = match &room.game_players {
        GamePlayers::Singles { picker: _, picked: _ } => true,
        _ => false,
    };
    if is_singles {
        let t: i32 = if football {
            if flip {
                3
            } else {
                2
            }
        } else {
            1
        };
        picked.team = t;
        acts.push(Action::ChangeTeam { id: pid, team: t });
        room.set_queue_team(pid, t);
        let old_picker = match &room.game_players {
            GamePlayers::Singles { picker, picked: _ } => match picker {
                Some(p) => Some(p.duplicate()),
                None => None,
            },
            _ => None,
        };
        room.game_players = GamePlayers::Singles { picker: old_picker, picked: Some(picked) };
        let ghost abase = acts@.len() as int;
        let mut more = start_map_selection(room);
        let ghost mg = more@;
        acts.append(&mut more);
        proof {
            assert(acts@[0] == (Action::ChangeTeam {
                id: pid,
                team: picked_team(
                    old(room).room_parameters.mode,
                    old(room).game_players@,
                    old(room).team_flip,
                ),
            }));
            lemma_selection_witnesses(old(room).room_parameters, *room, mg, acts@, abase);
        }
        return acts;
    }
    let (pi, tn): (usize, usize) = match &room.game_players {
        GamePlayers::Teams { teams, picker_idx } => (*picker_idx, teams.len()),
        _ => {
            acts.push(
                Action::Chat { message: String::from_str("I couldn't find a match.") },
            );
            return acts;
        },
    };
    if pi >= tn {
        acts.push(Action::Chat { message: String::from_str("I couldn't find a match.") });
        return acts;
    }
    let t: i32 = if football {
        if pi == 0 {
            if flip {
                3
            } else {
                2
            }
        } else {
            if flip {
                2
            } else {
                3
            }
        }
    } else {
        (2 + pi) as i32
    };
    picked.team = t;
    let ghost pickedv = picked@;
    acts.push(Action::ChangeTeam { id: pid, team: t });
    room.set_queue_team(pid, t);
    let team_size = room.room_parameters.team_size;
    let ghost gv0 = room.game_players@;
    match &mut room.game_players {
        GamePlayers::Teams { teams, picker_idx: _ } => {
            let ghost tv0 = teams@;
            let mut team = teams.remove(pi);
            team.push(picked);
            teams.insert(pi, team);
            proof {
                assert forall|x: int|
                    0 <= x < tv0.len() && x != pi as int implies #[trigger] teams@[x]
                    == tv0[x] by {
                    assert(teams@[x] == tv0.remove(pi as int).insert(
                        pi as int,
                        teams@[pi as int],
                    )[x]);
                }
                assert(teams@[pi as int]@ =~= tv0[pi as int]@.push(
                    teams@[pi as int]@.last(),
                ));
            }
        },
        _ => {},
    }
    proof {
        let t0 = gv0->Teams_teams;
        let nt = room.game_players@->Teams_teams;
        assert forall|x: int| 0 <= x < nt.len() && x != pi as int implies #[trigger] nt[x]
            == t0[x] by {}
        assert(nt[pi as int] =~= t0[pi as int].push(pickedv));
    }
    // is every team full now?
    let mut all_full: bool = true;
    let mut nf: usize = 0;
    let mut found_nf: bool = false;
    match &room.game_players {
        GamePlayers::Teams { teams, picker_idx: _ } => {
            let mut x: usize = 0;
            while x < teams.len()
                invariant
                    x <= teams@.len(),
                decreases teams@.len() - x,
            {
                if teams[x].len() < team_size {
                    all_full = false;
                }
                x += 1;
            }
        },
        _ => {},
    }
    if all_full {
        let ghost abase = acts@.len() as int;
        let mut more = start_map_selection(room);
        let ghost mg = more@;
        acts.append(&mut more);
        proof {
            assert(acts@[0] == (Action::ChangeTeam { id: pid, team: t }));
            lemma_selection_witnesses(old(room).room_parameters, *room, mg, acts@, abase);
        }
        return acts;
    }
    // pass the turn to the next captain whose team has room
    match &room.game_players {
        GamePlayers::Teams { teams, picker_idx: _ } => {
            let mut idx: usize = pi + 1;
            while idx < tn
                invariant
                    tn == teams@.len(),
                    found_nf ==> nf < tn && teams@[nf as int]@.len() < team_size,
                decreases tn - idx,
            {
                if !found_nf && teams[idx].len() < team_size {
                    nf = idx;
                    found_nf = true;
                }
                idx += 1;
            }
            let mut idx2: usize = 0;
            while idx2 < tn
                invariant
                    tn == teams@.len(),
                    found_nf ==> nf < tn && teams@[nf as int]@.len() < team_size,
                decreases tn - idx2,
            {
                if !found_nf && teams[idx2].len() < team_size {
                    nf = idx2;
                    found_nf = true;
                }
                idx2 += 1;
            }
        },
        _ => {},
    }
    if !found_nf {
        let ghost abase = acts@.len() as int;
        let mut more = start_map_selection(room);
        let ghost mg = more@;
        acts.append(&mut more);
        proof {
            assert(acts@[0] == (Action::ChangeTeam { id: pid, team: t }));
            lemma_selection_witnesses(old(room).room_parameters, *room, mg, acts@, abase);
        }
        return acts;
    }
    match &mut room.game_players {
        GamePlayers::Teams { teams: _, picker_idx } => {
            *picker_idx = nf;
        },
        _ => {},
    }
    room.warning_step = 0;
    acts.push(Action::ArmTimer { timer: TimerArm::Secs(room.room_parameters.pick_time) });
    proof {
        assert(is_arm(acts@[acts@.len() - 1], TimerArm::Secs(
            old(room).room_parameters.pick_time,
        )));
    }
    let ghost act_arm = acts@;
    let mut cap_name: Option<String> = None;
    match &room.game_players {
        GamePlayers::Teams { teams, picker_idx } => {
            if *picker_idx < teams.len() && teams[*picker_idx].len() > 0 {
                let nm0 = teams[*picker_idx][0].name.clone();
                proof {
                    let tv = room.game_players@->Teams_teams;
                    assert(tv[*picker_idx as int] == teams@[*picker_idx as int]@.map_values(
                        |p: Player| p@,
                    ));
                    assert(tv[*picker_idx as int][0] == teams@[*picker_idx as int]@[0]@);
                    assert(nm0@ == tv[*picker_idx as int][0].name);
                }
                cap_name = Some(nm0);
            }
        },
        _ => {},
    }
    if let Some(nm) = cap_name {
        proof {
            reveal_strlit(", pick a teammate with !p <abbreviation>");
        }
        let mut m = nm;
        m.append(", pick a teammate with !p <abbreviation>");
        let ghost mv = m@;
        acts.push(Action::Chat { message: m });
        proof {
            crate::events::lemma_actions_extend(act_arm, acts@);
            assert(is_chat(acts@[acts@.len() - 1], mv));
        }
    }
    proof {
        assert(acts@[0] == (Action::ChangeTeam { id: pid, team: t }));
    }
    acts
}

/// The map-selection actions appended by a launch stand at `base` in
/// the combined action list; this carries `selection_entered` across
/// the append.
pub proof fn lemma_selection_witnesses(
    p: crate::room_maker::RoomParameters,
    post: BonkRoom,
    mg: Seq<Action>,
    acts: Seq<Action>,
    base: int,
)
    requires
        0 <= base,
        acts.len() == base + mg.len(),
        forall|k: int| 0 <= k < mg.len() ==> acts[base + k] == mg[k],
        selection_entered(p, post, mg),
    ensures
        selection_entered(p, post, acts),
{
    if p.mode == crate::room_maker::Mode::Football {
        let ka = choose|ka: int| 0 <= ka < mg.len() && is_arm(mg[ka], TimerArm::Secs(p.ready_time));
        assert(is_arm(acts[base + ka], TimerArm::Secs(p.ready_time)));
        let kc = choose|kc: int| 0 <= kc < mg.len() && is_chat(mg[kc], "Use !r to start."@);
        assert(is_chat(acts[base + kc], "Use !r to start."@));
    } else {
        let skip = p.strike_num == 0 || p.maps@.len() < 2;
        let mi = choose|mi: int|
            0 <= mi < post.map_strikes@.len() && post.map_strikes@[mi] && has_action(
                mg,
                Action::LoadMap { map_index: mi as usize },
            );
        let kl = choose|kl: int|
            0 <= kl < mg.len() && mg[kl] == (Action::LoadMap { map_index: mi as usize });
        assert(acts[base + kl] == (Action::LoadMap { map_index: mi as usize }));
        let kr = choose|kr: int| 0 <= kr < mg.len() && mg[kr] == Action::AllReadyReset;
        assert(acts[base + kr] == Action::AllReadyReset);
        let ka = choose|ka: int|
            0 <= ka < mg.len() && is_arm(mg[ka], TimerArm::Secs(if skip {
                p.ready_time
            } else {
                p.strike_time
            }));
        assert(is_arm(acts[base + ka], TimerArm::Secs(if skip {
            p.ready_time
        } else {
            p.strike_time
        })));
        let kc = choose|kc: int|
            0 <= kc < mg.len() && is_chat(mg[kc], if skip {
                "Use !r to start."@
            } else {
                "Use !s to roll another map or use !r to start."@
            });
        assert(is_chat(acts[base + kc], if skip {
            "Use !r to start."@
        } else {
            "Use !s to roll another map or use !r to start."@
        }));
    }
}

/// The queue index of the first spot with this name, or the queue
/// length when the name is not queued.
pub fn find_queue_index_by_name(room: &BonkRoom, name: &String) -> (r: usize)
    ensures
        ({
            let fw = first_with_name(room.queue@, name@);
            if fw == -1 {
                r == room.queue@.len()
            } else {
                r == fw
            }
        }),
{
    proof {
        lemma_first_with_name(room.queue@, name@);
    }
    let n = room.queue.len();
    let mut i: usize = 0;
    while i < n
        invariant
            i <= n,
            n == room.queue@.len(),
            forall|j: int| 0 <= j < i ==> room.queue@[j].player.name@ != name@,
        decreases n - i,
    {
        if room.queue[i].player.name.eq(name) {
            proof {
                lemma_first_with_name(room.queue@, name@);
            }
            return i;
        }
        i += 1;
    }
    proof {
        lemma_first_with_name(room.queue@, name@);
    }
    n
}

/// Whether every game player has used all of their strikes.
pub open spec fn all_strikes_used(ps: Seq<PlayerV>, strikes: Seq<(i32, u32)>, num: u32) -> bool {
    forall|x: int| 0 <= x < ps.len() ==> strikes_of(strikes, (#[trigger] ps[x]).id) >= num
}

/// Handle a strike command: valid only during map selection and
/// outside the two-second guard right after a re-roll; the issuer must
/// be in the game and under their strike allowance. An accepted strike
/// resets readiness, strikes and loads a fresh map rolled uniformly
/// from the unstruck ones, and either passes to the ready phase (all
/// strikes spent, or fewer than two maps left) or re-arms the strike
/// timer with the guard margin.
/// What a strike command leaves behind: silent rejection out of map
/// selection, inside the two-second guard or from a spectator; the
/// cap message past the allowance; and on acceptance one fresh
/// unstruck map struck and loaded, readiness reset, and either the
/// ready phase or a re-armed strike timer with the announcement.
pub open spec fn strike_post(
    pre: BonkRoom,
    post: BonkRoom,
    id: i32,
    remaining: u64,
    acts: Seq<Action>,
) -> bool {
    &&& post.wf()
    &&& valid_step(pre.state, post.state)
    &&& pre.state != RoomState::MapSelection ==> post == pre && acts.len() == 0
    &&& pre.state == RoomState::MapSelection ==> {
        &&& remaining > pre.room_parameters.strike_time ==> post == pre && acts.len() == 0
        &&& remaining <= pre.room_parameters.strike_time ==> {
            let ps = pre.game_players@.players_seq();
            let used = strikes_of(pre.player_strikes@, id);
            &&& !(exists|x: int| 0 <= x < ps.len() && (#[trigger] ps[x]).id == id) ==> post
                == pre && acts.len() == 0
            &&& ((exists|x: int| 0 <= x < ps.len() && (#[trigger] ps[x]).id == id) && used
                >= pre.room_parameters.strike_num) ==> post == pre && acts.len() == 1
                && is_chat(acts[0], "You've used all of you're strikes"@)
            &&& ((exists|x: int| 0 <= x < ps.len() && (#[trigger] ps[x]).id == id) && used
                < pre.room_parameters.strike_num) ==> {
                &&& strikes_of(post.player_strikes@, id) == used + 1
                &&& exists|ni: int|
                    0 <= ni < pre.map_strikes@.len() && !pre.map_strikes@[ni]
                        && post.map_strikes@ == pre.map_strikes@.update(ni, true)
                        && acts[1] == (Action::LoadMap { map_index: ni as usize })
                &&& acts[0] == Action::AllReadyReset
                // everyone's command-readiness is cleared; the queue
                // otherwise stands as it was
                &&& post.queue@.len() == pre.queue@.len()
                &&& forall|i: int|
                    0 <= i < pre.queue@.len() ==> (#[trigger] post.queue@[i]).player@
                        == (PlayerV { ready_cmd: false, ..pre.queue@[i].player@ })
                        && post.queue@[i].last_seen == pre.queue@[i].last_seen
                &&& post == (BonkRoom {
                    state: post.state,
                    warning_step: post.warning_step,
                    queue: post.queue,
                    map_strikes: post.map_strikes,
                    player_strikes: post.player_strikes,
                    ..pre
                })
                &&& ({
                    let done = all_strikes_used(
                        ps,
                        post.player_strikes@,
                        pre.room_parameters.strike_num,
                    ) || count_false(post.map_strikes@) < 2;
                    if done {
                        &&& post.state == RoomState::Ready
                        &&& acts.len() == 3
                        &&& is_arm(acts[2], TimerArm::Secs(pre.room_parameters.ready_time))
                    } else {
                        &&& post.state == RoomState::MapSelection
                        &&& acts.len() == 4
                        &&& is_arm(acts[2], TimerArm::Secs(
                            (pre.room_parameters.strike_time + 2) as u64,
                        ))
                        &&& exists|x: int|
                            0 <= x < ps.len() && ps[x].id == id && is_chat(
                                acts[3],
                                ps[x].name + " struck a map. They have "@ + dec_digits(
                                    (pre.room_parameters.strike_num - (used + 1)) as nat,
                                ) + " strike(s) remaining."@,
                            )
                    }
                })
            }
        }
    }
}

pub fn strike(room: &mut BonkRoom, id: i32, remaining: u64) -> (acts: Vec<Action>)
    requires
        old(room).wf(),
    ensures
        strike_post(*old(room), *final(room), id, remaining, acts@),
{
    let mut acts: Vec<Action> = Vec::new();
    if room.state != RoomState::MapSelection {
        return acts;
    }
    if remaining > room.room_parameters.strike_time {
        return acts;
    }
    let ps = in_game_players(room);
    let ghost psv = old(room).game_players@.players_seq();
    let mut issuer: Option<Player> = None;
    let n = ps.len();
    let mut x: usize = 0;
    while x < n
        invariant
            x <= n,
            n == ps@.len(),
            plv(ps@) == psv,
            *room == *old(room),
            match issuer {
                Some(p) => exists|y: int| 0 <= y < psv.len() && psv[y] == p@ && p@.id == id,
                None => forall|y: int| 0 <= y < x ==> (#[trigger] psv[y]).id != id,
            },
        decreases n - x,
    {
        if issuer.is_none() && ps[x].id == id {
            issuer = Some(ps[x].duplicate());
            proof {
                assert(psv[x as int] == ps@[x as int]@);
            }
        }
        x += 1;
    }
    let issuer = match issuer {
        Some(p) => p,
        None => {
            return acts;
        },
    };
    proof {
        lemma_first_strike_idx(room.player_strikes@, id);
    }
    let used = strike_count(room, id);
    if used >= room.room_parameters.strike_num {
        proof {
            reveal_strlit("You've used all of you're strikes");
        }
        acts.push(
            Action::Chat { message: String::from_str("You've used all of you're strikes") },
        );
        return acts;
    }
    bump_strike_count(room, id);
    room.clear_ready_cmds();
    acts.push(Action::AllReadyReset);
    // roll a fresh map among the unstruck ones
    let mut unstruck: Vec<usize> = Vec::new();
    let mlen = room.map_strikes.len();
    let mut j: usize = 0;
    while j < mlen
        invariant
            j <= mlen,
            mlen == room.map_strikes@.len(),
            unstruck@.len() == count_false(room.map_strikes@.take(j as int)),
            forall|y: int|
                0 <= y < unstruck@.len() ==> (#[trigger] unstruck@[y]) < j
                    && !room.map_strikes@[unstruck@[y] as int],
        decreases mlen - j,
    {
        proof {
            assert(room.map_strikes@.take(j + 1).drop_last() =~= room.map_strikes@.take(
                j as int,
            ));
        }
        if !room.map_strikes[j] {
            unstruck.push(j);
        }
        j += 1;
    }
    proof {
        assert(room.map_strikes@.take(mlen as int) == room.map_strikes@);
    }
    if unstruck.len() == 0 {
        // map selection always leaves at least one unstruck map
        proof {
            assert(count_false(room.map_strikes@) >= 1);
        }
        return acts;
    }
    let pickx = crate::random::random_below(unstruck.len());
    let ni = unstruck[pickx];
    let ghost ms0 = room.map_strikes@;
    let mut nms: Vec<bool> = Vec::new();
    let mut k: usize = 0;
    while k < mlen
        invariant
            k <= mlen,
            ni < mlen,
            mlen == ms0.len(),
            room.map_strikes@ == ms0,
            nms@.len() == k,
            forall|y: int|
                0 <= y < k ==> (#[trigger] nms@[y]) == if y == ni as int {
                    true
                } else {
                    ms0[y]
                },
        decreases mlen - k,
    {
        if k == ni {
            nms.push(true);
        } else {
            nms.push(room.map_strikes[k]);
        }
        k += 1;
    }
    proof {
        assert(nms@ =~= ms0.update(ni as int, true));
        lemma_count_false_update(ms0, ni as int);
    }
    room.map_strikes = nms;
    acts.push(Action::LoadMap { map_index: ni });
    // decide whether striking continues
    let num = room.room_parameters.strike_num;
    let mut all_used: bool = true;
    let m2 = ps.len();
    let mut z: usize = 0;
    let ghost table = room.player_strikes@;
    while z < m2
        invariant
            z <= m2,
            m2 == ps@.len(),
            plv(ps@) == psv,
            room.player_strikes@ == table,
            all_used == (forall|y: int|
                0 <= y < z ==> strikes_of(table, (#[trigger] psv[y]).id) >= num),
        decreases m2 - z,
    {
        proof {
            assert(psv[z as int] == ps@[z as int]@);
        }
        if strike_count(room, ps[z].id) < num {
            all_used = false;
        }
        z += 1;
    }
    let done = all_used || unstruck.len() < 3;
    proof {
        assert(count_false(room.map_strikes@) == unstruck@.len() - 1);
    }
    if done {
        room.state = RoomState::Ready;
        room.warning_step = 0;
        acts.push(
            Action::ArmTimer { timer: TimerArm::Secs(room.room_parameters.ready_time) },
        );
    } else {
        acts.push(
            Action::ArmTimer {
                timer: TimerArm::Secs(room.room_parameters.strike_time + 2),
            },
        );
        proof {
            reveal_strlit(" struck a map. They have ");
            reveal_strlit(" strike(s) remaining.");
        }
        let mut m = issuer.name.clone();
        m.append(" struck a map. They have ");
        let digits = u64_string((num - (used + 1)) as u64);
        m.append(digits.as_str());
        m.append(" strike(s) remaining.");
        acts.push(Action::Chat { message: m });
    }
    acts
}

/// Strikes this player has used so far.
pub fn strike_count(room: &BonkRoom, id: i32) -> (c: u32)
    ensures
        c == strikes_of(room.player_strikes@, id),
{
    proof {
        lemma_first_strike_idx(room.player_strikes@, id);
    }
    let n = room.player_strikes.len();
    let mut i: usize = 0;
    while i < n
        invariant
            i <= n,
            n == room.player_strikes@.len(),
            forall|j: int| 0 <= j < i ==> room.player_strikes@[j].0 != id,
        decreases n - i,
    {
        if room.player_strikes[i].0 == id {
            proof {
                lemma_first_strike_idx(room.player_strikes@, id);
                assert(first_strike_idx(room.player_strikes@, id) == i as int);
            }
            return room.player_strikes[i].1;
        }
        i += 1;
    }
    proof {
        lemma_first_strike_idx(room.player_strikes@, id);
    }
    0
}

/// Record one more strike for this player.
fn bump_strike_count(room: &mut BonkRoom, id: i32)
    requires
        old(room).wf(),
        strikes_of(old(room).player_strikes@, id) < old(room).room_parameters.strike_num,
    ensures
        final(room).wf(),
        strikes_of(final(room).player_strikes@, id) == strikes_of(
            old(room).player_strikes@,
            id,
        ) + 1,
        *final(room) == (BonkRoom { player_strikes: final(room).player_strikes, ..*old(room) }),
{
    proof {
        lemma_first_strike_idx(room.player_strikes@, id);
    }
    let ghost s0 = *room;
    let n = room.player_strikes.len();
    let mut i: usize = 0;
    while i < n
        invariant
            i <= n,
            s0.wf(),
            s0 == *old(room),
            *room == s0,
            n == s0.player_strikes@.len(),
            strikes_of(s0.player_strikes@, id) < s0.room_parameters.strike_num,
            forall|j: int| 0 <= j < i ==> s0.player_strikes@[j].0 != id,
        decreases n - i,
    {
        if room.player_strikes[i].0 == id {
            proof {
                lemma_first_strike_idx(s0.player_strikes@, id);
                assert(first_strike_idx(s0.player_strikes@, id) == i as int);
            }
            let e = room.player_strikes.remove(i);
            let c = e.1;
            room.player_strikes.insert(i, (id, c + 1));
            proof {
                let t0 = s0.player_strikes@;
                let t1 = room.player_strikes@;
                assert forall|j: int| 0 <= j < t0.len() && j != i as int implies #[trigger]
                    t1[j] == t0[j] by {
                    assert(t1[j] == t0.remove(i as int).insert(i as int, t1[i as int])[j]);
                }
                assert forall|j: int| 0 <= j < i implies t1[j].0 != id by {}
                assert(t1[i as int] == (id, (c + 1) as u32));
                lemma_first_strike_idx(t1, id);
                if first_strike_idx(t1, id) == -1 {
                    assert(t1[i as int].0 != id);
                }
                assert(first_strike_idx(t1, id) == i as int);
            }
            return;
        }
        i += 1;
    }
    proof {
        lemma_first_strike_idx(s0.player_strikes@, id);
    }
    room.player_strikes.push((id, 1));
    proof {
        let t0 = s0.player_strikes@;
        let t1 = room.player_strikes@;
        lemma_first_strike_idx(t1, id);
        assert(t1[t0.len() as int].0 == id);
        assert(first_strike_idx(t1, id) != -1);
        assert(first_strike_idx(t1, id) == t0.len() as int);
    }
}

/// How many game players are ready, and how many there are.
pub fn ready_counts(room: &BonkRoom) -> (rc: (usize, usize))
    ensures
        rc.0 == ready_count(room.queue@, room.game_players@.players_seq()),
        rc.1 == room.game_players@.players_seq().len(),
{
    let ps = in_game_players(room);
    let ghost psv = room.game_players@.players_seq();
    let n = ps.len();
    let mut r: usize = 0;
    let mut x: usize = 0;
    proof {
        assert(psv.take(0) =~= Seq::<PlayerV>::empty());
    }
    while x < n
        invariant
            x <= n,
            r <= x,
            n == ps@.len(),
            plv(ps@) == psv,
            psv.len() == n,
            r == ready_count(room.queue@, psv.take(x as int)),
        decreases n - x,
    {
        proof {
            assert(psv.take(x + 1).drop_last() =~= psv.take(x as int));
            assert(psv.take(x + 1).last() == psv[x as int]);
            assert(psv[x as int] == ps@[x as int]@);
        }
        if queue_ready(room, ps[x].id) {
            r += 1;
        }
        x += 1;
    }
    proof {
        assert(psv.take(n as int) == psv);
    }
    (r, n)
}

/// Start the game when every game player is ready.
pub fn check_ready_start(room: &mut BonkRoom) -> (acts: Vec<Action>)
    requires
        old(room).wf(),
        old(room).state == RoomState::MapSelection || old(room).state == RoomState::Ready,
    ensures
        final(room).wf(),
        valid_step(old(room).state, final(room).state),
        ({
            let rc = ready_count(old(room).queue@, old(room).game_players@.players_seq());
            let tot = old(room).game_players@.players_seq().len();
            if rc >= tot {
                &&& final(room).state == RoomState::GameStarting
                &&& acts@.len() == 2
                &&& acts@[0] == Action::StartGame
                &&& is_arm(acts@[1], TimerArm::Max)
                &&& *final(room) == (BonkRoom {
                    state: RoomState::GameStarting,
                    warning_step: 0,
                    ..*old(room)
                })
            } else {
                &&& *final(room) == *old(room)
                &&& acts@.len() == 0
            }
        }),
{
    let mut acts: Vec<Action> = Vec::new();
    let (r, t) = ready_counts(room);
    if r >= t {
        acts.push(Action::StartGame);
        acts.push(Action::ArmTimer { timer: TimerArm::Max });
        room.state = RoomState::GameStarting;
        room.warning_step = 0;
    }
    acts
}

/// Handle a ready command: valid while a map is being chosen or
/// awaited; marks the issuer ready, starts the game once everyone is,
/// and otherwise reports the count when the chat lane is free.
/// What a ready command leaves behind: a no-op outside selection and
/// the ready wait; otherwise the issuer's spot is flagged, the game
/// starts once every game player reads ready, and a shortfall is
/// reported when the chat lane is free.
pub open spec fn ready_post(
    pre: BonkRoom,
    post: BonkRoom,
    id: i32,
    chat_idle: bool,
    acts: Seq<Action>,
) -> bool {
    &&& post.wf()
    &&& valid_step(pre.state, post.state)
    &&& !(pre.state == RoomState::MapSelection || pre.state == RoomState::Ready) ==> post
        == pre && acts.len() == 0
    &&& (pre.state == RoomState::MapSelection || pre.state == RoomState::Ready) ==> {
        let rc = ready_count(post.queue@, pre.game_players@.players_seq());
        let tot = pre.game_players@.players_seq().len();
        &&& ({
            let r = first_with_id(pre.queue@, id);
            r != -1 ==> post.queue@[r].player@ == (PlayerV {
                ready_cmd: true,
                ..pre.queue@[r].player@
            })
        })
        &&& rc >= tot ==> post.state == RoomState::GameStarting && acts.len() == 2
            && acts[0] == Action::StartGame && is_arm(acts[1], TimerArm::Max)
        &&& (rc < tot && chat_idle) ==> post.state == pre.state && acts.len() == 1
            && is_chat(
            acts[0],
            dec_digits(rc as nat) + "/"@ + dec_digits(tot as nat) + " players ready."@,
        )
        &&& (rc < tot && !chat_idle) ==> post.state == pre.state && acts.len() == 0
    }
}

pub fn ready(room: &mut BonkRoom, id: i32, chat_idle: bool) -> (acts: Vec<Action>)
    requires
        old(room).wf(),
    ensures
        ready_post(*old(room), *final(room), id, chat_idle, acts@),
{
    let mut acts: Vec<Action> = Vec::new();
    if !(room.state == RoomState::MapSelection || room.state == RoomState::Ready) {
        return acts;
    }
    room.set_queue_ready_cmd(id);
    let (r, t) = ready_counts(room);
    if r >= t {
        acts.push(Action::StartGame);
        acts.push(Action::ArmTimer { timer: TimerArm::Max });
        room.state = RoomState::GameStarting;
        room.warning_step = 0;
        return acts;
    }
    if chat_idle {
        proof {
            reveal_strlit("/");
            reveal_strlit(" players ready.");
        }
        let mut m = u64_string(r as u64);
        m.append("/");
        let td = u64_string(t as u64);
        m.append(td.as_str());
        m.append(" players ready.");
        acts.push(Action::Chat { message: m });
    }
    acts
}

/// What a reset vote leaves behind: out of a running game or from an
/// outsider or repeat voter nothing changes; a fresh vote is recorded;
/// a majority of the game players replays the start and clears the
/// votes.
pub open spec fn vote_reset_post(pre: BonkRoom, post: BonkRoom, id: i32, acts: Seq<Action>) -> bool {
    let ps = pre.game_players@.players_seq();
    let in_game = exists|x: int| 0 <= x < ps.len() && (#[trigger] ps[x]).id == id;
    let votes = pre.reset_votes@.push(id);
    &&& post.wf()
    &&& valid_step(pre.state, post.state)
    &&& !(pre.state == RoomState::GameStarting || pre.state == RoomState::InGame) ==> post
        == pre && acts.len() == 0
    &&& (pre.state == RoomState::GameStarting || pre.state == RoomState::InGame) ==> {
        &&& !in_game ==> post == pre && acts.len() == 0
        &&& (in_game && pre.reset_votes@.contains(id)) ==> post == pre && acts.len() == 0
        &&& (in_game && !pre.reset_votes@.contains(id)) ==> {
            &&& votes.len() > ps.len() / 2 ==> post.reset_votes@ == Seq::<i32>::empty()
                && acts =~= seq![Action::StartGame] && post == (BonkRoom {
                reset_votes: post.reset_votes,
                ..pre
            })
            &&& votes.len() <= ps.len() / 2 ==> post.reset_votes@ == votes && acts.len()
                == 0 && post == (BonkRoom { reset_votes: post.reset_votes, ..pre })
        }
    }
}

/// Record a vote to restart the current game; on a majority of the
/// game players the start is replayed and the votes are cleared.
pub fn vote_reset(room: &mut BonkRoom, id: i32) -> (acts: Vec<Action>)
    requires
        old(room).wf(),
    ensures
        vote_reset_post(*old(room), *final(room), id, acts@),
{
    let mut acts: Vec<Action> = Vec::new();
    if !(room.state == RoomState::GameStarting || room.state == RoomState::InGame) {
        return acts;
    }
    if !in_game_id(room, id) {
        return acts;
    }
    if vec_contains_i32(&room.reset_votes, id) {
        return acts;
    }
    room.reset_votes.push(id);
    let ps = in_game_players(room);
    if room.reset_votes.len() > ps.len() / 2 {
        room.reset_votes = Vec::new();
        acts.push(Action::StartGame);
        proof {
            assert(acts@ =~= seq![Action::StartGame]);
        }
    }
    acts
}

/// What a cancel vote leaves behind: the same bookkeeping as a reset
/// vote, but a majority resets the room to idle.
pub open spec fn vote_cancel_post(pre: BonkRoom, post: BonkRoom, id: i32, acts: Seq<Action>) -> bool {
    let ps = pre.game_players@.players_seq();
    let in_game = exists|x: int| 0 <= x < ps.len() && (#[trigger] ps[x]).id == id;
    let votes = pre.cancel_votes@.push(id);
    &&& post.wf()
    &&& valid_step(pre.state, post.state)
    &&& !(pre.state == RoomState::GameStarting || pre.state == RoomState::InGame) ==> post
        == pre && acts.len() == 0
    &&& (pre.state == RoomState::GameStarting || pre.state == RoomState::InGame) ==> {
        &&& !in_game ==> post == pre && acts.len() == 0
        &&& (in_game && pre.cancel_votes@.contains(id)) ==> post == pre && acts.len() == 0
        &&& (in_game && !pre.cancel_votes@.contains(id)) ==> {
            &&& votes.len() > ps.len() / 2 ==> post.cancel_votes@ == Seq::<i32>::empty()
                && (post.state == RoomState::Idle || pre.closing)
                && crate::bonk_room::names_seq(post.queue@) == crate::bonk_room::names_seq(
                pre.queue@,
            )
            &&& votes.len() <= ps.len() / 2 ==> post.cancel_votes@ == votes && acts.len()
                == 0 && post == (BonkRoom { cancel_votes: post.cancel_votes, ..pre })
        }
    }
}

/// Record a vote to cancel the current game; on a majority of the
/// game players the room resets to idle.
pub fn vote_cancel(room: &mut BonkRoom, id: i32) -> (acts: Vec<Action>)
    requires
        old(room).wf(),
    ensures
        vote_cancel_post(*old(room), *final(room), id, acts@),
{
    let mut acts: Vec<Action> = Vec::new();
    if !(room.state == RoomState::GameStarting || room.state == RoomState::InGame) {
        return acts;
    }
    if !in_game_id(room, id) {
        return acts;
    }
    if vec_contains_i32(&room.cancel_votes, id) {
        return acts;
    }
    room.cancel_votes.push(id);
    let ps = in_game_players(room);
    if room.cancel_votes.len() > ps.len() / 2 {
        let mut more = crate::events::reset(room);
        acts.append(&mut more);
    }
    acts
}

/// Whether this id belongs to a game player.
fn in_game_id(room: &BonkRoom, id: i32) -> (b: bool)
    ensures
        b == exists|x: int|
            0 <= x < room.game_players@.players_seq().len()
                && (#[trigger] room.game_players@.players_seq()[x]).id == id,
{
    let ps = in_game_players(room);
    let ghost psv = room.game_players@.players_seq();
    let n = ps.len();
    let mut x: usize = 0;
    while x < n
        invariant
            x <= n,
            n == ps@.len(),
            plv(ps@) == psv,
            psv == room.game_players@.players_seq(),
            forall|y: int| 0 <= y < x ==> (#[trigger] psv[y]).id != id,
        decreases n - x,
    {
        if ps[x].id == id {
            proof {
                assert(plv(ps@)[x as int] == ps@[x as int]@);
                assert(psv[x as int] == plv(ps@)[x as int]);
                assert(room.game_players@.players_seq()[x as int].id == id);
            }
            return true;
        }
        proof {
            assert(plv(ps@)[x as int] == ps@[x as int]@);
            assert(psv[x as int] == plv(ps@)[x as int]);
        }
        x += 1;
    }
    false
}

fn vec_contains_i32(v: &Vec<i32>, id: i32) -> (b: bool)
    ensures
        b == v@.contains(id),
{
    let n = v.len();
    let mut x: usize = 0;
    while x < n
        invariant
            x <= n,
            n == v@.len(),
            forall|y: int| 0 <= y < x ==> v@[y] != id,
        decreases n - x,
    {
        if v[x] == id {
            return true;
        }
        x += 1;
    }
    proof {
        assert(!v@.contains(id));
    }
    false
}

} // verus!