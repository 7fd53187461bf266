use vstd::prelude::*;

use vstd::arithmetic::div_mod::lemma_mul_mod_noop_left;
use vstd::string::StringExecFns;
use vstd::utf8::encode_utf8;

verus! {

/// A text given in two languages.
#[derive(Debug, PartialEq)]
pub struct LanguageContent {
    pub mn: String,
    pub en: String,
}

/// What the ranking reads of a profile.
#[derive(Debug)]
pub struct PartialMonk {
    pub id: String,
    pub name: LanguageContent,
    pub title: LanguageContent,
    pub video: Option<String>,
}

/// A ranked profile, with its positional label and its score.
#[derive(Debug)]
pub struct MonkOutput {
    pub id: String,
    pub arcana: String,
    pub name: LanguageContent,
    pub title: LanguageContent,
    pub video: String,
    pub score: u32,
}

/// How many profiles the ranking hands back at most.
pub const TOP_COUNT: usize = 3;

/// How many labels the cycle of labels holds.
pub const RUNE_COUNT: usize = 8;

/// The label of position `k` in the cycle of labels.
pub open spec fn rune(k: int) -> Seq<char> {
    if k == 0 {
        "ᚠ"@
    } else if k == 1 {
        "ᚢ"@
    } else if k == 2 {
        "ᚦ"@
    } else if k == 3 {
        "ᚨ"@
    } else if k == 4 {
        "ᚱ"@
    } else if k == 5 {
        "ᚲ"@
    } else if k == 6 {
        "ᚷ"@
    } else {
        "ᚹ"@
    }
}

/// The video path used for a profile that has none.
pub open spec fn default_video() -> Seq<char> {
    "/num1.mp4"@
}

/// The score of a profile whose English name is `name`: seven times the
/// name's length in UTF-8 bytes, modulo one hundred.
pub open spec fn score_of(name: Seq<char>) -> int {
    (encode_utf8(name).len() as int * 7) % 100
}

/// The scores of the profiles, in input order.
pub open spec fn scores_of(monks: Seq<PartialMonk>) -> Seq<int> {
    monks.map_values(|m: PartialMonk| score_of(m.name.en@))
}

/// Whether `o` is what the ranking makes of profile `m`, found at input index `i`.
pub open spec fn output_of(o: MonkOutput, m: PartialMonk, i: int) -> bool {
    &&& o.id == m.id
    &&& o.arcana@ == rune(i % (RUNE_COUNT as int))
    &&& o.name == m.name
    &&& o.title == m.title
    &&& o.video@ == (match m.video {
        Some(v) => v@,
        None => default_video(),
    })
    &&& o.score as int == score_of(m.name.en@)
}

/// Whether the profile at input index `i` is ranked before the one at `j`:
/// a higher score goes first, and of equal scores the earlier input.
pub open spec fn ranks_before(scores: Seq<int>, i: int, j: int) -> bool {
    scores[i] > scores[j] || (scores[i] == scores[j] && i < j)
}

/// How many of the first entries of `order` have a score of at least `v`.
pub open spec fn leading_at_least(order: Seq<int>, scores: Seq<int>, v: int) -> int
    decreases order.len(),
{
    if order.len() == 0 {
        0
    } else if scores[order[0]] >= v {
        1 + leading_at_least(order.drop_first(), scores, v)
    } else {
        0
    }
}

/// The input indices of the first `n` profiles in ranked order: each profile
/// is placed after those before it in the input that score at least as high.
pub open spec fn rank_order(scores: Seq<int>, n: nat) -> Seq<int>
    decreases n,
{
    if n == 0 {
        Seq::empty()
    } else {
        let prev = rank_order(scores, (n - 1) as nat);
        prev.insert(leading_at_least(prev, scores, scores[n - 1]), n - 1)
    }
}

/// `leading_at_least` is the position before which every score is at least
/// `v` and at which, if it is inside `order`, the score is below `v`.
proof fn lemma_leading_at_least(order: Seq<int>, scores: Seq<int>, v: int, p: int)
    requires
        0 <= p <= order.len(),
        forall|j: int| 0 <= j < p ==> scores[#[trigger] order[j]] >= v,
        p < order.len() ==> scores[order[p]] < v,
    ensures
        leading_at_least(order, scores, v) == p,
    decreases order.len(),
{
    if order.len() > 0 && p > 0 {
        let rest = order.drop_first();
        assert forall|j: int| 0 <= j < p - 1 implies scores[#[trigger] rest[j]] >= v by {
            assert(rest[j] == order[j + 1]);
        }
        lemma_leading_at_least(rest, scores, v, p - 1);
    }
}

/// The ranking of the first `n` profiles holds each of their indices once,
/// and every index in it is ranked before those that follow it.
pub proof fn lemma_rank_order(scores: Seq<int>, n: nat)
    requires
        n <= scores.len(),
    ensures
        rank_order(scores, n).len() == n,
        forall|k: int| 0 <= k < n ==> 0 <= #[trigger] rank_order(scores, n)[k] < n,
        forall|a: int, b: int|
            0 <= a < b < n ==> ranks_before(
                scores,
                #[trigger] rank_order(scores, n)[a],
                #[trigger] rank_order(scores, n)[b],
            ),
        forall|i: int| 0 <= i < n ==> #[trigger] rank_order(scores, n).contains(i),
    decreases n,
{
    if n > 0 {
        let k = n - 1;
        let prev = rank_order(scores, k as nat);
        lemma_rank_order(scores, k as nat);
        let v = scores[k];
        let p = leading_at_least(prev, scores, v);
        lemma_leading_bounds(prev, scores, v);
        let order = prev.insert(p, k);
        prev.insert_ensures(p, k);
        assert(order == rank_order(scores, n));
        assert forall|a: int, b: int| 0 <= a < b < n implies ranks_before(
            scores,
            #[trigger] order[a],
            #[trigger] order[b],
        ) by {
            if b < p {
            } else if b == p {
                assert(scores[prev[a]] >= v);
            } else if a < p {
                assert(order[b] == prev[b - 1]);
            } else if a == p {
                assert(order[b] == prev[b - 1]);
                if b - 1 > p {
                    assert(ranks_before(scores, prev[p], prev[b - 1]));
                }
            } else {
                assert(order[a] == prev[a - 1]);
                assert(order[b] == prev[b - 1]);
            }
        }
        assert forall|i: int| 0 <= i < n implies #[trigger] order.contains(i) by {
            if i == k {
                assert(order[p] == i);
            } else {
                assert(prev.contains(i));
                let j = choose|j: int| 0 <= j < prev.len() && prev[j] == i;
                if j < p {
                    assert(order[j] == i);
                } else {
                    assert(order[j + 1] == i);
                }
            }
        }
        assert forall|x: int| 0 <= x < n implies 0 <= #[trigger] order[x] < n by {
            if x > p {
                assert(order[x] == prev[x - 1]);
            }
        }
    }
}

/// Bounds and defining facts of `leading_at_least`.
proof fn lemma_leading_bounds(order: Seq<int>, scores: Seq<int>, v: int)
    ensures
        0 <= leading_at_least(order, scores, v) <= order.len(),
        forall|j: int|
            0 <= j < leading_at_least(order, scores, v) ==> scores[#[trigger] order[j]] >= v,
        leading_at_least(order, scores, v) < order.len() ==> scores[order[leading_at_least(
            order,
            scores,
            v,
        )]] < v,
    decreases order.len(),
{
    if order.len() > 0 {
        let rest = order.drop_first();
        lemma_leading_bounds(rest, scores, v);
        assert forall|j: int|
            0 <= j < leading_at_least(order, scores, v) implies scores[#[trigger] order[j]] >= v by {
            if j > 0 {
                assert(order[j] == rest[j - 1]);
            }
        }
    }
}

/// In the ranking, scores never rise from one profile to the next, and
/// profiles of equal score keep their input order.
pub proof fn lemma_ranking_sorted_and_stable(monks: Seq<PartialMonk>)
    ensures
        forall|a: int, b: int|
            0 <= a < b < monks.len() ==> scores_of(monks)[#[trigger] rank_order(
                scores_of(monks),
                monks.len(),
            )[a]] >= scores_of(monks)[#[trigger] rank_order(scores_of(monks), monks.len())[b]],
        forall|a: int, b: int|
            0 <= a < b < monks.len() && scores_of(monks)[#[trigger] rank_order(
                scores_of(monks),
                monks.len(),
            )[a]] == scores_of(monks)[#[trigger] rank_order(scores_of(monks), monks.len())[b]]
                ==> rank_order(scores_of(monks), monks.len())[a] < rank_order(
                scores_of(monks),
                monks.len(),
            )[b],
{
    lemma_rank_order(scores_of(monks), monks.len());
}

/// The label of position `k` in the cycle of labels.
pub fn rune_at(k: usize) -> (r: String)
    requires
        k < RUNE_COUNT,
    ensures
        r@ == rune(k as int),
{
    let label = if k == 0 {
        "ᚠ"
    } else if k == 1 {
        "ᚢ"
    } else if k == 2 {
        "ᚦ"
    } else if k == 3 {
        "ᚨ"
    } else if k == 4 {
        "ᚱ"
    } else if k == 5 {
        "ᚲ"
    } else if k == 6 {
        "ᚷ"
    } else {
        "ᚹ"
    };
    String::from_str(label)
}

/// The score of a profile whose English name is `name`.
pub fn score_for(name: &str) -> (r: u32)
    ensures
        r as int == score_of(name@),
        r < 100,
{
    let len = name.as_bytes().len();
    proof {
        lemma_mul_mod_noop_left(len as int, 7, 100);
    }
    (((len % 100) * 7) % 100) as u32
}

/// What the ranking makes of profile `m`, found at input index `i`.
fn ranked_entry(m: PartialMonk, i: usize) -> (o: MonkOutput)
    ensures
        output_of(o, m, i as int),
{
    let score = score_for(m.name.en.as_str());
    let arcana = rune_at(i % RUNE_COUNT);
    let video = match m.video {
        Some(v) => v,
        None => String::from_str("/num1.mp4"),
    };
    MonkOutput { id: m.id, arcana, name: m.name, title: m.title, video, score }
}

/// Scores the profiles, sorts them by score from high to low (profiles of
/// equal score keep their input order) and hands back the first three. Each
/// carries the label of its input index in the cycle of labels.
pub fn process_monks(monks: Vec<PartialMonk>) -> (r: Vec<MonkOutput>)
    ensures
        r.len() == if monks.len() <= TOP_COUNT {
            monks.len() as int
        } else {
            TOP_COUNT as int
        },
        forall|k: int|
            0 <= k < r.len() ==> output_of(
                #[trigger] r@[k],
                monks@[rank_order(scores_of(monks@), monks.len() as nat)[k]],
                rank_order(scores_of(monks@), monks.len() as nat)[k],
            ),
{
    let n = monks.len();
    let ghost all = monks@;
    let ghost scores = scores_of(all);
    let mut rest = monks;
    let mut ranked: Vec<MonkOutput> = Vec::new();
    let ghost mut order: Seq<int> = Seq::empty();
    let mut i: usize = 0;
    while rest.len() > 0
        invariant
            i <= all.len(),
            all.len() == n,
            rest@ == all.subrange(i as int, all.len() as int),
            scores == scores_of(all),
            order == rank_order(scores, i as nat),
            ranked.len() == i,
            forall|k: int|
                0 <= k < i ==> output_of(#[trigger] ranked@[k], all[order[k]], order[k]),
        decreases rest.len(),
    {
        let ghost before = rest@;
        let m = rest.remove(0);
        assert(m == all[i as int]) by {
            assert(before[0] == all[i as int]);
        }
        let o = ranked_entry(m, i);
        proof {
            lemma_rank_order(scores, i as nat);
        }
        let mut p: usize = 0;
        while p < ranked.len() && ranked[p].score >= o.score
            invariant
                p <= ranked.len(),
                ranked.len() == i,
                i < all.len(),
                all.len() == n,
                scores == scores_of(all),
                order == rank_order(scores, i as nat),
                order.len() == i,
                forall|x: int| 0 <= x < i ==> 0 <= #[trigger] order[x] < i,
                forall|k: int|
                    0 <= k < i ==> output_of(#[trigger] ranked@[k], all[order[k]], order[k]),
                o.score as int == scores[i as int],
                forall|j: int| 0 <= j < p ==> scores[#[trigger] order[j]] >= scores[i as int],
            decreases ranked.len() - p,
        {
            assert(ranked@[p as int].score as int == scores[order[p as int]]);
            p = p + 1;
        }
        let ghost prev_ranked = ranked@;
        let ghost prev_order = order;
        proof {
            if p < i {
                assert(ranked@[p as int].score as int == scores[order[p as int]]);
            }
            lemma_leading_at_least(order, scores, scores[i as int], p as int);
            order.insert_ensures(p as int, i as int);
            ranked@.insert_ensures(p as int, o);
            order = order.insert(p as int, i as int);
        }
        ranked.insert(p, o);
        proof {
            assert forall|k: int|
                0 <= k < i + 1 implies output_of(#[trigger] ranked@[k], all[order[k]], order[k]) by {
                if k > p {
                    assert(ranked@[k] == prev_ranked[k - 1]);
                    assert(order[k] == prev_order[k - 1]);
                } else if k < p {
                    assert(ranked@[k] == prev_ranked[k]);
                    assert(order[k] == prev_order[k]);
                }
            }
        }
        i = i + 1;
    }
    assert(all.subrange(i as int, all.len() as int).len() == 0);
    ranked.truncate(TOP_COUNT);
    ranked
}

} // verus!
