use vstd::prelude::*;

use crate::weighted_action::WeightedAction;
use crate::UNIT;

verus! {

/// `i` is the position of the last candidate whose weight is the greatest:
/// no candidate weighs more, and every later one weighs strictly less.
pub open spec fn is_last_max<T>(s: Seq<WeightedAction<T>>, i: int) -> bool {
    &&& 0 <= i < s.len()
    &&& forall|j: int| 0 <= j < s.len() ==> #[trigger] s[j].weight <= s[i].weight
    &&& forall|j: int| i < j < s.len() ==> #[trigger] s[j].weight < s[i].weight
}

/// Returns the action of the candidate with the highest weight; among several
/// candidates sharing that weight, the last one in input order. `None` when
/// there are no candidates.
pub fn choose_action<T>(weighted_actions: Vec<WeightedAction<T>>) -> (r: Option<T>)
    ensures
        weighted_actions@.len() == 0 ==> r is None,
        weighted_actions@.len() > 0 ==> exists|i: int|
            is_last_max(weighted_actions@, i) && r == Some(#[trigger] weighted_actions@[i].action),
{
    let mut weighted_actions = weighted_actions;
    let n = weighted_actions.len();
    if n == 0 {
        return None;
    }
    let ghost s = weighted_actions@;
    let mut best: usize = 0;
    let mut k: usize = 1;
    while k < n
        invariant
            weighted_actions@ == s,
            n == s.len(),
            1 <= k <= n,
            best < k,
            forall|j: int| 0 <= j < k ==> #[trigger] s[j].weight <= s[best as int].weight,
            forall|j: int| best < j < k ==> #[trigger] s[j].weight < s[best as int].weight,
        decreases n - k,
    {
        if weighted_actions[k].weight >= weighted_actions[best].weight {
            best = k;
        }
        k = k + 1;
    }
    let chosen = weighted_actions.swap_remove(best);
    assert(is_last_max(s, best as int));
    Some(chosen.action)
}

/// Inserts `x` into a sequence ranked by descending weight, ahead of the first
/// candidate that does not outweigh it.
pub open spec fn insert_ranked<T>(x: WeightedAction<T>, s: Seq<WeightedAction<T>>) -> Seq<
    WeightedAction<T>,
>
    decreases s.len(),
{
    if s.len() == 0 {
        seq![x]
    } else if s[0].weight <= x.weight {
        seq![x] + s
    } else {
        seq![s[0]] + insert_ranked(x, s.drop_first())
    }
}

/// The candidates by descending weight; candidates of equal weight keep their
/// input order.
pub open spec fn ranked<T>(s: Seq<WeightedAction<T>>) -> Seq<WeightedAction<T>>
    decreases s.len(),
{
    if s.len() == 0 {
        Seq::empty()
    } else {
        insert_ranked(s[0], ranked(s.drop_first()))
    }
}

/// The sum of the weights of a sequence of candidates.
pub open spec fn weight_sum<T>(s: Seq<WeightedAction<T>>) -> int
    decreases s.len(),
{
    if s.len() == 0 {
        0
    } else {
        weight_sum(s.drop_last()) + s.last().weight
    }
}

/// Scanning a ranked sequence from position `j`, the position of the first
/// candidate that lies more than `fuzziness` below the first candidate's
/// weight, or the length when there is none.
pub open spec fn near_len<T>(r: Seq<WeightedAction<T>>, fuzziness: u32, j: int) -> int
    decreases r.len() - j,
{
    if j >= r.len() {
        r.len() as int
    } else if r[0].weight - r[j].weight > fuzziness {
        j
    } else {
        near_len(r, fuzziness, j + 1)
    }
}

/// The candidates eligible for fuzzy selection, heaviest first: the greatest
/// one and those that follow it within `fuzziness` of its weight.
pub open spec fn eligible<T>(s: Seq<WeightedAction<T>>, fuzziness: u32) -> Seq<WeightedAction<T>> {
    let r = ranked(s);
    r.take(near_len(r, fuzziness, 1))
}

/// The share of the first `k + 1` candidates of `e` in `total` reaches
/// `choice_offset / UNIT` (never, when `total` is zero).
pub open spec fn share_reached<T>(
    e: Seq<WeightedAction<T>>,
    total: int,
    choice_offset: u32,
    k: int,
) -> bool {
    total > 0 && choice_offset * total <= weight_sum(e.take(k + 1)) * UNIT
}

/// From position `k` on, the action of the first candidate of `e` whose
/// cumulative share reaches the offset.
pub open spec fn pick_from<T>(e: Seq<WeightedAction<T>>, total: int, choice_offset: u32, k: int) -> Option<T>
    decreases e.len() - k,
{
    if k < 0 || k >= e.len() {
        None
    } else if share_reached(e, total, choice_offset, k) {
        Some(e[k].action)
    } else {
        pick_from(e, total, choice_offset, k + 1)
    }
}

/// The outcome of fuzzy selection: inverse-CDF sampling by weight over the
/// eligible candidates, walked heaviest first.
pub open spec fn fuzzy_choice<T>(s: Seq<WeightedAction<T>>, fuzziness: u32, choice_offset: u32) -> Option<T> {
    let e = eligible(s, fuzziness);
    pick_from(e, weight_sum(e), choice_offset, 0)
}

proof fn lemma_insert_at<T>(x: WeightedAction<T>, s: Seq<WeightedAction<T>>, p: int)
    requires
        0 <= p <= s.len(),
        forall|j: int| 0 <= j < p ==> #[trigger] s[j].weight > x.weight,
        p == s.len() || s[p].weight <= x.weight,
    ensures
        insert_ranked(x, s) == s.insert(p, x),
    decreases p,
{
    if p == 0 {
        assert(insert_ranked(x, s) =~= s.insert(p, x));
    } else {
        let t = s.drop_first();
        lemma_insert_at(x, t, p - 1);
        assert(insert_ranked(x, s) =~= s.insert(p, x));
    }
}

proof fn lemma_weight_sum_bound<T>(s: Seq<WeightedAction<T>>)
    ensures
        0 <= weight_sum(s) <= s.len() * (u32::MAX as int),
    decreases s.len(),
{
    if s.len() > 0 {
        lemma_weight_sum_bound(s.drop_last());
    }
}

proof fn lemma_weight_sum_step<T>(s: Seq<WeightedAction<T>>, k: int)
    requires
        0 <= k < s.len(),
    ensures
        weight_sum(s.take(k + 1)) == weight_sum(s.take(k)) + s[k].weight,
{
    assert(s.take(k + 1).drop_last() =~= s.take(k));
}

proof fn lemma_prefix_sum_le<T>(s: Seq<WeightedAction<T>>, k: int)
    requires
        0 <= k <= s.len(),
    ensures
        weight_sum(s.take(k)) <= weight_sum(s),
    decreases s.len() - k,
{
    if k < s.len() {
        lemma_weight_sum_step(s, k);
        lemma_prefix_sum_le(s, k + 1);
    } else {
        assert(s.take(k) =~= s);
    }
}

proof fn lemma_insert_bound<T>(x: WeightedAction<T>, s: Seq<WeightedAction<T>>, b: int)
    requires
        x.weight < b,
        forall|j: int| 0 <= j < s.len() ==> #[trigger] s[j].weight < b,
    ensures
        insert_ranked(x, s).len() == s.len() + 1,
        forall|j: int| 0 <= j < insert_ranked(x, s).len() ==> #[trigger] insert_ranked(x, s)[j].weight < b,
    decreases s.len(),
{
    if s.len() > 0 && s[0].weight > x.weight {
        lemma_insert_bound(x, s.drop_first(), b);
        let t = insert_ranked(x, s.drop_first());
        assert forall|j: int| 0 <= j < insert_ranked(x, s).len() implies #[trigger] insert_ranked(
            x,
            s,
        )[j].weight < b by {
            if j > 0 {
                assert(insert_ranked(x, s)[j] == t[j - 1]);
            }
        }
    }
}

proof fn lemma_ranked_bound<T>(s: Seq<WeightedAction<T>>, b: int)
    requires
        forall|j: int| 0 <= j < s.len() ==> #[trigger] s[j].weight < b,
    ensures
        ranked(s).len() == s.len(),
        forall|j: int| 0 <= j < ranked(s).len() ==> #[trigger] ranked(s)[j].weight < b,
    decreases s.len(),
{
    if s.len() > 0 {
        let t = s.drop_first();
        assert forall|j: int| 0 <= j < t.len() implies #[trigger] t[j].weight < b by {
            assert(t[j] == s[j + 1]);
        }
        lemma_ranked_bound(t, b);
        lemma_insert_bound(s[0], ranked(t), b);
    }
}

proof fn lemma_ranked_strict_max<T>(s: Seq<WeightedAction<T>>, i: int)
    requires
        0 <= i < s.len(),
        forall|j: int| 0 <= j < s.len() && j != i ==> #[trigger] s[j].weight < s[i].weight,
    ensures
        ranked(s).len() == s.len(),
        ranked(s)[0] == s[i],
        forall|k: int| 1 <= k < ranked(s).len() ==> #[trigger] ranked(s)[k].weight < s[i].weight,
    decreases s.len(),
{
    let t = s.drop_first();
    let x = s[0];
    let m = s[i].weight as int;
    if i == 0 {
        assert forall|j: int| 0 <= j < t.len() implies #[trigger] t[j].weight < m by {
            assert(t[j] == s[j + 1]);
        }
        lemma_ranked_bound(t, m);
        let rt = ranked(t);
        if rt.len() == 0 {
            assert(ranked(s) =~= seq![x]);
        } else {
            assert(ranked(s) =~= seq![x] + rt);
            assert forall|k: int| 1 <= k < ranked(s).len() implies #[trigger] ranked(s)[k].weight
                < m by {
                assert(ranked(s)[k] == rt[k - 1]);
            }
        }
    } else {
        assert forall|j: int| 0 <= j < t.len() && j != i - 1 implies #[trigger] t[j].weight
            < t[i - 1].weight by {
            assert(t[j] == s[j + 1]);
        }
        lemma_ranked_strict_max(t, i - 1);
        let rt = ranked(t);
        let rest = rt.drop_first();
        assert forall|j: int| 0 <= j < rest.len() implies #[trigger] rest[j].weight < m by {
            assert(rest[j] == rt[j + 1]);
        }
        lemma_insert_bound(x, rest, m);
        let u = insert_ranked(x, rest);
        assert(ranked(s) =~= seq![rt[0]] + u);
        assert forall|k: int| 1 <= k < ranked(s).len() implies #[trigger] ranked(s)[k].weight
            < m by {
            assert(ranked(s)[k] == u[k - 1]);
        }
    }
}

/// When one candidate outweighs all others and its weight is positive, fuzzy
/// selection with no tolerance returns that candidate's action for an offset
/// at either end of its range, zero or `UNIT`.
pub proof fn lemma_fuzzy_strict_maximum<T>(s: Seq<WeightedAction<T>>, i: int, choice_offset: u32)
    requires
        0 <= i < s.len(),
        forall|j: int| 0 <= j < s.len() && j != i ==> #[trigger] s[j].weight < s[i].weight,
        s[i].weight > 0,
        choice_offset == 0 || choice_offset == UNIT,
    ensures
        fuzzy_choice(s, 0, choice_offset) == Some(s[i].action),
{
    lemma_ranked_strict_max(s, i);
    let r = ranked(s);
    assert(near_len(r, 0, 1) == 1);
    let e = r.take(1);
    assert(e.take(1) =~= e);
    assert(e.drop_last() =~= Seq::<WeightedAction<T>>::empty());
    assert(weight_sum(e.drop_last()) == 0);
    assert(e.last() == s[i]);
    assert(weight_sum(e) == s[i].weight);
    assert(share_reached(e, weight_sum(e), choice_offset, 0));
}

proof fn lemma_pick_skips<T>(e: Seq<WeightedAction<T>>, total: int, choice_offset: u32, j: int, k: int)
    requires
        0 <= j <= k < e.len(),
        forall|i: int| j <= i < k ==> !#[trigger] share_reached(e, total, choice_offset, i),
    ensures
        pick_from(e, total, choice_offset, j) == pick_from(e, total, choice_offset, k),
    decreases k - j,
{
    if j < k {
        assert(!share_reached(e, total, choice_offset, j));
        lemma_pick_skips(e, total, choice_offset, j + 1, k);
    }
}

/// Fuzzy selection partitions the offsets among the eligible candidates in
/// proportion to weight: the `k`-th eligible candidate (heaviest first) is
/// chosen exactly for the offsets above the share of those before it and up
/// to the share that includes it.
pub proof fn lemma_fuzzy_partition<T>(
    s: Seq<WeightedAction<T>>,
    fuzziness: u32,
    choice_offset: u32,
    k: int,
)
    requires
        0 <= k < eligible(s, fuzziness).len(),
        weight_sum(eligible(s, fuzziness).take(k)) * UNIT < choice_offset * weight_sum(
            eligible(s, fuzziness),
        ),
        choice_offset * weight_sum(eligible(s, fuzziness)) <= weight_sum(
            eligible(s, fuzziness).take(k + 1),
        ) * UNIT,
    ensures
        fuzzy_choice(s, fuzziness, choice_offset) == Some(eligible(s, fuzziness)[k].action),
{
    let e = eligible(s, fuzziness);
    let total = weight_sum(e);
    assert forall|i: int| 0 <= i < k implies !#[trigger] share_reached(e, total, choice_offset, i) by {
        let p = e.take(k);
        lemma_prefix_sum_le(p, i + 1);
        assert(p.take(i + 1) =~= e.take(i + 1));
        assert(weight_sum(e.take(i + 1)) * UNIT <= weight_sum(e.take(k)) * UNIT) by (nonlinear_arith)
            requires
                weight_sum(e.take(i + 1)) <= weight_sum(e.take(k)),
        ;
    }
    lemma_pick_skips(e, total, choice_offset, 0, k);
    lemma_weight_sum_bound(e.take(k));
    assert(total > 0) by (nonlinear_arith)
        requires
            0 <= weight_sum(e.take(k)),
            weight_sum(e.take(k)) * UNIT < choice_offset * total,
            choice_offset >= 0,
    ;
    assert(share_reached(e, total, choice_offset, k));
}

/// The candidates are in descending order of weight.
pub open spec fn is_descending<T>(s: Seq<WeightedAction<T>>) -> bool {
    forall|a: int, b: int| 0 <= a < b < s.len() ==> #[trigger] s[a].weight >= #[trigger] s[b].weight
}

proof fn lemma_insert_position<T>(x: WeightedAction<T>, t: Seq<WeightedAction<T>>) -> (p: int)
    ensures
        0 <= p <= t.len(),
        insert_ranked(x, t) == t.insert(p, x),
        forall|j: int| 0 <= j < p ==> #[trigger] t[j].weight > x.weight,
        p < t.len() ==> t[p].weight <= x.weight,
    decreases t.len(),
{
    if t.len() == 0 || t[0].weight <= x.weight {
        assert(insert_ranked(x, t) =~= t.insert(0, x));
        0
    } else {
        let q = lemma_insert_position(x, t.drop_first());
        assert(insert_ranked(x, t) =~= t.insert(q + 1, x));
        assert forall|j: int| 0 <= j < q + 1 implies #[trigger] t[j].weight > x.weight by {
            if j > 0 {
                assert(t[j] == t.drop_first()[j - 1]);
            }
        }
        q + 1
    }
}

proof fn lemma_insert_descending<T>(x: WeightedAction<T>, t: Seq<WeightedAction<T>>)
    requires
        is_descending(t),
    ensures
        is_descending(insert_ranked(x, t)),
        insert_ranked(x, t).to_multiset() == t.to_multiset().insert(x),
{
    let p = lemma_insert_position(x, t);
    let u = t.insert(p, x);
    t.insert_ensures(p, x);
    vstd::seq_lib::to_multiset_insert(t, p, x);
    assert forall|a: int, b: int| 0 <= a < b < u.len() implies #[trigger] u[a].weight
        >= #[trigger] u[b].weight by {
        if b < p {
        } else if b == p {
        } else if a < p {
            assert(u[b] == t[b - 1]);
            assert(t[a].weight >= t[b - 1].weight || a == b - 1);
        } else if a == p {
            assert(u[b] == t[b - 1]);
            assert(t[p].weight >= t[b - 1].weight || p == b - 1);
        } else {
            assert(u[a] == t[a - 1]);
            assert(u[b] == t[b - 1]);
        }
    }
}

/// Ranking keeps every candidate, and only those, and puts them in descending
/// order of weight.
pub proof fn lemma_ranked_is_descending_permutation<T>(s: Seq<WeightedAction<T>>)
    ensures
        ranked(s).to_multiset() == s.to_multiset(),
        is_descending(ranked(s)),
    decreases s.len(),
{
    if s.len() == 0 {
        assert(ranked(s) =~= s);
    } else {
        let t = s.drop_first();
        lemma_ranked_is_descending_permutation(t);
        lemma_insert_descending(s[0], ranked(t));
        assert(s =~= t.insert(0, s[0]));
        vstd::seq_lib::to_multiset_insert(t, 0, s[0]);
    }
}

proof fn lemma_near_len<T>(r: Seq<WeightedAction<T>>, fuzziness: u32, j: int)
    requires
        1 <= j <= r.len(),
        forall|i: int| 1 <= i < j ==> #[trigger] r[i].weight >= r[0].weight - fuzziness,
    ensures
        j <= near_len(r, fuzziness, j) <= r.len(),
        forall|i: int|
            1 <= i < near_len(r, fuzziness, j) ==> #[trigger] r[i].weight >= r[0].weight - fuzziness,
        near_len(r, fuzziness, j) < r.len() ==> r[near_len(r, fuzziness, j)].weight < r[0].weight
            - fuzziness,
    decreases r.len() - j,
{
    if j < r.len() && r[0].weight - r[j].weight <= fuzziness {
        lemma_near_len(r, fuzziness, j + 1);
    }
}

/// Fuzzy selection draws from exactly the candidates whose weight lies within
/// `fuzziness` of the greatest weight: the eligible ones lead the ranking and
/// every candidate after them lies farther below the maximum.
pub proof fn lemma_eligible_is_near_band<T>(s: Seq<WeightedAction<T>>, fuzziness: u32)
    requires
        s.len() > 0,
    ensures
        ({
            let r = ranked(s);
            let e = eligible(s, fuzziness);
            &&& r.len() == s.len()
            &&& 1 <= e.len() <= r.len()
            &&& e == r.take(e.len() as int)
            &&& forall|j: int| 0 <= j < s.len() ==> #[trigger] s[j].weight <= r[0].weight
            &&& forall|j: int| 0 <= j < e.len() ==> #[trigger] e[j].weight >= r[0].weight - fuzziness
            &&& forall|j: int| e.len() <= j < r.len() ==> #[trigger] r[j].weight < r[0].weight - fuzziness
        }),
{
    let r = ranked(s);
    lemma_ranked_is_descending_permutation(s);
    s.to_multiset_ensures();
    r.to_multiset_ensures();
    lemma_near_len(r, fuzziness, 1);
    let n = near_len(r, fuzziness, 1);
    assert forall|j: int| 0 <= j < s.len() implies #[trigger] s[j].weight <= r[0].weight by {
        assert(s.to_multiset().count(s[j]) > 0);
        assert(r.contains(s[j]));
        let k = choose|k: int| 0 <= k < r.len() && r[k] == s[j];
        if k > 0 {
            assert(r[0].weight >= r[k].weight);
        }
    }
    assert forall|j: int| n <= j < r.len() implies #[trigger] r[j].weight < r[0].weight
        - fuzziness by {
        if j > n {
            assert(r[n].weight >= r[j].weight);
        }
    }
}

/// Sorts the candidates by descending weight, keeping the input order among
/// equal weights.
fn rank<T>(weighted_actions: Vec<WeightedAction<T>>) -> (r: Vec<WeightedAction<T>>)
    ensures
        r@ == ranked(weighted_actions@),
{
    let ghost s = weighted_actions@;
    let mut rest = weighted_actions;
    let mut out: Vec<WeightedAction<T>> = Vec::new();
    assert(s.skip(s.len() as int) =~= Seq::<WeightedAction<T>>::empty());
    while rest.len() > 0
        invariant
            rest.len() <= s.len(),
            rest@ == s.take(rest.len() as int),
            out@ == ranked(s.skip(rest.len() as int)),
        decreases rest.len(),
    {
        let ghost k = rest.len() as int;
        let x = match rest.pop() {
            Some(x) => x,
            None => {
                return out;
            },
        };
        assert(x == s[k - 1]);
        assert(rest@ =~= s.take(k - 1));
        let mut p: usize = 0;
        while p < out.len() && out[p].weight > x.weight
            invariant
                p <= out.len(),
                forall|j: int| 0 <= j < p ==> #[trigger] out@[j].weight > x.weight,
            decreases out.len() - p,
        {
            p = p + 1;
        }
        proof {
            lemma_insert_at(x, out@, p as int);
            assert(s.skip(k - 1).drop_first() =~= s.skip(k));
        }
        out.insert(p, x);
    }
    assert(s.skip(0) =~= s);
    out
}

/// Picks among the candidates whose weight lies within `fuzziness` of the
/// greatest weight, with probability proportional to weight: walking them
/// heaviest first, returns the first whose cumulative share of their total
/// weight reaches `choice_offset / UNIT`. `None` when there are no candidates,
/// when the eligible weights sum to zero, or when the offset exceeds `UNIT`.
pub fn choose_action_fuzzy<T>(
    weighted_actions: Vec<WeightedAction<T>>,
    fuzziness: u32,
    choice_offset: u32,
) -> (r: Option<T>)
    ensures
        r == fuzzy_choice(weighted_actions@, fuzziness, choice_offset),
        weighted_actions@.len() == 0 ==> r is None,
{
    let ghost s = weighted_actions@;
    let mut ranked_actions = rank(weighted_actions);
    let ghost rs = ranked_actions@;
    let n = ranked_actions.len();
    if n == 0 {
        return None;
    }
    let greatest = ranked_actions[0].weight;
    let mut m: usize = 1;
    let mut total: u128 = greatest as u128;
    proof {
        lemma_weight_sum_step(rs, 0);
        assert(rs.take(0) =~= Seq::<WeightedAction<T>>::empty());
    }
    while m < n
        invariant
            ranked_actions@ == rs,
            rs == ranked(s),
            n == rs.len(),
            1 <= m <= n,
            greatest == rs[0].weight,
            near_len(rs, fuzziness, 1) == near_len(rs, fuzziness, m as int),
            total == weight_sum(rs.take(m as int)),
        ensures
            1 <= m <= n,
            near_len(rs, fuzziness, 1) == m,
            total == weight_sum(rs.take(m as int)),
        decreases n - m,
    {
        if greatest as u64 > ranked_actions[m].weight as u64 + fuzziness as u64 {
            break;
        }
        proof {
            lemma_weight_sum_step(rs, m as int);
            lemma_weight_sum_bound(rs.take(m as int + 1));
            assert((m as int + 1) * (u32::MAX as int) <= 0xFFFF_FFFF_FFFF_FFFF * 0xFFFF_FFFF)
                by (nonlinear_arith)
                requires
                    m < n <= usize::MAX,
            ;
        }
        total = total + ranked_actions[m].weight as u128;
        m = m + 1;
    }
    let ghost e = rs.take(m as int);
    assert(e == eligible(s, fuzziness));
    proof {
        lemma_weight_sum_bound(e);
        assert(m as int * (u32::MAX as int) <= 0xFFFF_FFFF_FFFF_FFFF * 0xFFFF_FFFF)
            by (nonlinear_arith)
            requires
                m <= usize::MAX,
        ;
    }
    assert(s.len() > 0);
    let mut k: usize = 0;
    let mut cumulative: u128 = 0;
    assert(e.take(0) =~= Seq::<WeightedAction<T>>::empty());
    while k < m
        invariant
            ranked_actions@ == rs,
            s == weighted_actions@,
            s.len() > 0,
            e == eligible(s, fuzziness),
            e == rs.take(m as int),
            m <= n == rs.len(),
            k <= m,
            total == weight_sum(e),
            total <= 0xFFFF_FFFF_FFFF_FFFF * 0xFFFF_FFFF,
            cumulative == weight_sum(e.take(k as int)),
            pick_from(e, total as int, choice_offset, 0) == pick_from(
                e,
                total as int,
                choice_offset,
                k as int,
            ),
        decreases m - k,
    {
        proof {
            lemma_weight_sum_step(e, k as int);
            lemma_weight_sum_bound(e.take(k as int + 1));
            assert((k as int + 1) * (u32::MAX as int) <= m * (u32::MAX as int)) by (nonlinear_arith)
                requires
                    k < m,
            ;
        }
        cumulative = cumulative + ranked_actions[k].weight as u128;
        proof {
            lemma_prefix_sum_le(e, k as int + 1);
            assert(choice_offset as int * total as int <= 0xFFFF_FFFF * (
            0xFFFF_FFFF_FFFF_FFFF * 0xFFFF_FFFF)) by (nonlinear_arith)
                requires
                    choice_offset <= u32::MAX,
                    total <= 0xFFFF_FFFF_FFFF_FFFF * 0xFFFF_FFFF,
            ;
            assert(cumulative as int * UNIT as int <= (0xFFFF_FFFF_FFFF_FFFF * 0xFFFF_FFFF)
                * 1_000_000) by (nonlinear_arith)
                requires
                    cumulative <= total,
                    total <= 0xFFFF_FFFF_FFFF_FFFF * 0xFFFF_FFFF,
            ;
        }
        if total > 0 && choice_offset as u128 * total <= cumulative * UNIT as u128 {
            let chosen = ranked_actions.swap_remove(k);
            return Some(chosen.action);
        }
        k = k + 1;
    }
    None
}

} // verus!
