//! Ranker: deterministic total order over readings, descending by the
//! configured sort key, with ties broken by original position (a stable
//! sort), truncated to the top N entries.
//!
//! The order is specified through `rank_order`: the permutation of original
//! positions that a stable descending insertion sort produces. `rank_spec`
//! is the reference result of ranking; `rank` computes it.

use vstd::prelude::*;

use crate::MemoryReading;

verus! {

/// Which memory quantity readings are ranked by.
#[derive(Clone, Copy, PartialEq, Eq, Structural, Debug)]
pub enum SortKey {
    Rss,
    Pss,
    Uss,
}

/// Ranking policy: the sort key and the maximum number of entries kept.
pub struct RankingPolicy {
    pub sort_key: SortKey,
    pub top_n: usize,
}

/// The quantity of `m` selected by `k`.
pub open spec fn key_of(m: MemoryReading, k: SortKey) -> u64 {
    match k {
        SortKey::Rss => m.rss,
        SortKey::Pss => m.pss,
        SortKey::Uss => m.uss,
    }
}

pub fn key_of_exec(m: &MemoryReading, k: SortKey) -> (r: u64)
    ensures
        r == key_of(*m, k),
{
    match k {
        SortKey::Rss => m.rss,
        SortKey::Pss => m.pss,
        SortKey::Uss => m.uss,
    }
}

/// Position `x` of `s` ranks strictly before position `y`: a strictly larger
/// key, or an equal key at an earlier original position.
pub open spec fn lex_before(s: Seq<MemoryReading>, k: SortKey, x: int, y: int) -> bool {
    ||| key_of(s[x], k) > key_of(s[y], k)
    ||| (key_of(s[x], k) == key_of(s[y], k) && x < y)
}

/// `ord` lists positions of `s` in strictly descending rank order.
pub open spec fn sorted_lex(s: Seq<MemoryReading>, k: SortKey, ord: Seq<int>) -> bool {
    forall|a: int, b: int| 0 <= a < b < ord.len() ==> lex_before(s, k, ord[a], ord[b])
}

/// Inserts position `j` into `ord` before the first position holding a
/// strictly smaller key — hence after every position with an equal key.
pub open spec fn insert_pos(s: Seq<MemoryReading>, k: SortKey, ord: Seq<int>, j: int) -> Seq<int>
    decreases ord.len(),
{
    if ord.len() == 0 {
        seq![j]
    } else if key_of(s[j], k) > key_of(s[ord[0]], k) {
        seq![j] + ord
    } else {
        seq![ord[0]] + insert_pos(s, k, ord.drop_first(), j)
    }
}

/// The rank order of the first `n` positions of `s`, built by stable
/// insertion in position order.
pub open spec fn rank_order_upto(s: Seq<MemoryReading>, k: SortKey, n: int) -> Seq<int>
    decreases n,
{
    if n <= 0 {
        Seq::empty()
    } else {
        insert_pos(s, k, rank_order_upto(s, k, n - 1), n - 1)
    }
}

/// The rank order of all of `s`: the stable descending permutation of its
/// positions.
pub open spec fn rank_order(s: Seq<MemoryReading>, k: SortKey) -> Seq<int> {
    rank_order_upto(s, k, s.len() as int)
}

/// The reference ranking result: `s` reordered by `rank_order` and
/// truncated to the first `n` entries.
pub open spec fn rank_spec(s: Seq<MemoryReading>, k: SortKey, n: int) -> Seq<MemoryReading> {
    let m = if n < 0 {
        0
    } else if n <= s.len() {
        n
    } else {
        s.len() as int
    };
    Seq::new(m as nat, |i: int| s[rank_order(s, k)[i]])
}

proof fn lemma_insert_pos(s: Seq<MemoryReading>, k: SortKey, ord: Seq<int>, j: int)
    requires
        0 <= j,
        sorted_lex(s, k, ord),
        forall|t: int| 0 <= t < ord.len() ==> 0 <= #[trigger] ord[t] < j,
    ensures
        insert_pos(s, k, ord, j).len() == ord.len() + 1,
        sorted_lex(s, k, insert_pos(s, k, ord, j)),
        forall|t: int|
            0 <= t < ord.len() + 1 ==> 0 <= #[trigger] insert_pos(s, k, ord, j)[t] <= j,
        forall|t: int|
            0 <= t < ord.len() + 1 ==> (#[trigger] insert_pos(s, k, ord, j)[t] == j
                || ord.contains(insert_pos(s, k, ord, j)[t])),
    decreases ord.len(),
{
    let r = insert_pos(s, k, ord, j);
    if ord.len() == 0 {
        assert(r =~= seq![j]);
    } else if key_of(s[j], k) > key_of(s[ord[0]], k) {
        assert(r =~= seq![j] + ord);
        assert forall|a: int, b: int| 0 <= a < b < r.len() implies lex_before(s, k, r[a], r[b]) by {
            if a == 0 {
                if b > 1 {
                    assert(lex_before(s, k, ord[0], ord[b - 1]));
                }
                assert(key_of(s[ord[0]], k) >= key_of(s[ord[b - 1]], k));
            } else {
                assert(lex_before(s, k, ord[a - 1], ord[b - 1]));
            }
        }
        assert forall|t: int| 0 <= t < r.len() implies (r[t] == j || ord.contains(r[t])) by {
            if t > 0 {
                assert(r[t] == ord[t - 1]);
            }
        }
        assert forall|t: int| 0 <= t < r.len() implies 0 <= #[trigger] r[t] <= j by {
            if t > 0 {
                assert(r[t] == ord[t - 1]);
            }
        }
    } else {
        let tail = ord.drop_first();
        assert forall|a: int, b: int| 0 <= a < b < tail.len() implies lex_before(
            s,
            k,
            tail[a],
            tail[b],
        ) by {
            assert(lex_before(s, k, ord[a + 1], ord[b + 1]));
        }
        lemma_insert_pos(s, k, tail, j);
        let rec = insert_pos(s, k, tail, j);
        assert(r =~= seq![ord[0]] + rec);
        assert forall|a: int, b: int| 0 <= a < b < r.len() implies lex_before(s, k, r[a], r[b]) by {
            if a == 0 {
                let x = rec[b - 1];
                if x == j {
                    assert(key_of(s[ord[0]], k) >= key_of(s[j], k));
                    assert(ord[0] < j);
                    assert(lex_before(s, k, ord[0], j));
                } else {
                    assert(tail.contains(x));
                    let w = choose|w: int| 0 <= w < tail.len() && tail[w] == x;
                    assert(lex_before(s, k, ord[0], ord[w + 1]));
                }
            } else {
                assert(lex_before(s, k, rec[a - 1], rec[b - 1]));
            }
        }
        assert forall|t: int| 0 <= t < r.len() implies (r[t] == j || ord.contains(r[t])) by {
            if t == 0 {
                assert(ord[0] == ord[0]);
                assert(ord.contains(ord[0]));
            } else {
                let x = rec[t - 1];
                if x != j {
                    assert(tail.contains(x));
                    let w = choose|w: int| 0 <= w < tail.len() && tail[w] == x;
                    assert(ord[w + 1] == x);
                    assert(ord.contains(x));
                }
            }
        }
        assert forall|t: int| 0 <= t < r.len() implies 0 <= #[trigger] r[t] <= j by {
            if t > 0 {
                assert(0 <= rec[t - 1] <= j);
            }
        }
    }
}

proof fn lemma_rank_order_upto(s: Seq<MemoryReading>, k: SortKey, n: int)
    requires
        0 <= n <= s.len(),
    ensures
        rank_order_upto(s, k, n).len() == n,
        sorted_lex(s, k, rank_order_upto(s, k, n)),
        forall|t: int| 0 <= t < n ==> 0 <= #[trigger] rank_order_upto(s, k, n)[t] < n,
    decreases n,
{
    if n > 0 {
        lemma_rank_order_upto(s, k, n - 1);
        lemma_insert_pos(s, k, rank_order_upto(s, k, n - 1), n - 1);
    }
}

/// The rank order of `s` is a stable descending ranking of its positions:
/// a permutation (each position once), sorted so that an earlier entry has a
/// strictly larger key or an equal key at an earlier original position.
pub proof fn lemma_rank_order_valid(s: Seq<MemoryReading>, k: SortKey)
    ensures
        rank_order(s, k).len() == s.len(),
        forall|t: int| 0 <= t < s.len() ==> 0 <= #[trigger] rank_order(s, k)[t] < s.len(),
        rank_order(s, k).no_duplicates(),
        sorted_lex(s, k, rank_order(s, k)),
{
    lemma_rank_order_upto(s, k, s.len() as int);
    let ord = rank_order(s, k);
    assert forall|a: int, b: int| 0 <= a < ord.len() && 0 <= b < ord.len() && a != b implies ord[a]
        != ord[b] by {
        if a < b {
            assert(lex_before(s, k, ord[a], ord[b]));
        } else {
            assert(lex_before(s, k, ord[b], ord[a]));
        }
    }
}

/// The ranked result keeps `min(len, n)` entries; entry `i` is the reading
/// at original position `rank_order(s, k)[i]`; keys descend; and equal keys
/// appear in their original relative order.
pub proof fn lemma_rank_spec_properties(s: Seq<MemoryReading>, k: SortKey, n: int)
    requires
        n >= 0,
    ensures
        rank_spec(s, k, n).len() == if n <= s.len() {
            n
        } else {
            s.len() as int
        },
        forall|i: int|
            0 <= i < rank_spec(s, k, n).len() ==> #[trigger] rank_spec(s, k, n)[i] == s[rank_order(
                s,
                k,
            )[i]],
        forall|i: int, j: int|
            0 <= i < j < rank_spec(s, k, n).len() ==> key_of(#[trigger] rank_spec(s, k, n)[i], k)
                >= key_of(#[trigger] rank_spec(s, k, n)[j], k),
        forall|i: int, j: int|
            0 <= i < j < rank_spec(s, k, n).len() && key_of(rank_spec(s, k, n)[i], k) == key_of(
                rank_spec(s, k, n)[j],
                k,
            ) ==> rank_order(s, k)[i] < rank_order(s, k)[j],
{
    lemma_rank_order_valid(s, k);
    let ord = rank_order(s, k);
    let r = rank_spec(s, k, n);
    assert forall|i: int, j: int| 0 <= i < j < r.len() implies key_of(#[trigger] r[i], k) >= key_of(
        #[trigger] r[j],
        k,
    ) && (key_of(r[i], k) == key_of(r[j], k) ==> ord[i] < ord[j]) by {
        assert(lex_before(s, k, ord[i], ord[j]));
    }
}

struct Ranked {
    key: u64,
    idx: usize,
    reading: MemoryReading,
}

fn key_at(v: &Vec<Ranked>, i: usize) -> (r: u64)
    requires
        i < v@.len(),
    ensures
        r == v@[i as int].key,
{
    let p = &v[i];
    p.key
}

proof fn lemma_insert_pos_at(s: Seq<MemoryReading>, k: SortKey, ord: Seq<int>, j: int, pos: int)
    requires
        0 <= pos <= ord.len(),
        forall|t: int| 0 <= t < pos ==> key_of(s[j], k) <= key_of(s[#[trigger] ord[t]], k),
        pos == ord.len() || key_of(s[j], k) > key_of(s[ord[pos]], k),
    ensures
        insert_pos(s, k, ord, j) == ord.insert(pos, j),
    decreases pos,
{
    if pos == 0 {
        if ord.len() == 0 {
            assert(insert_pos(s, k, ord, j) =~= ord.insert(0, j));
        } else {
            assert(key_of(s[j], k) > key_of(s[ord[0]], k));
            assert(seq![j] + ord =~= ord.insert(0, j));
        }
    } else {
        assert(key_of(s[j], k) <= key_of(s[ord[0]], k));
        let tail = ord.drop_first();
        assert forall|t: int| 0 <= t < pos - 1 implies key_of(s[j], k) <= key_of(
            s[#[trigger] tail[t]],
            k,
        ) by {
            assert(tail[t] == ord[t + 1]);
        }
        assert(pos - 1 == tail.len() || key_of(s[j], k) > key_of(s[tail[pos - 1]], k));
        lemma_insert_pos_at(s, k, tail, j, pos - 1);
        assert(seq![ord[0]] + tail.insert(pos - 1, j) =~= ord.insert(pos, j));
    }
}

/// Sorts `readings` into descending order of the key selected by `k`,
/// stably (ties keep their original relative order), and truncates the
/// result to the first `top_n` entries.
pub fn rank(readings: Vec<MemoryReading>, k: SortKey, top_n: usize) -> (r: Vec<MemoryReading>)
    ensures
        r@ == rank_spec(readings@, k, top_n as int),
{
    let ghost s = readings@;
    let total = readings.len();
    let mut rest = readings;
    let mut pairs: Vec<Ranked> = Vec::new();
    proof {
        assert(rest@ =~= s.skip(0));
    }
    while rest.len() > 0
        invariant
            total == s.len(),
            pairs@.len() + rest@.len() == total,
            rest@ == s.skip(pairs@.len() as int),
            forall|t: int|
                0 <= t < pairs@.len() ==> (#[trigger] pairs@[t]).idx == t && pairs@[t].reading
                    == s[t] && pairs@[t].key == key_of(s[t], k),
        decreases rest@.len(),
    {
        let i = pairs.len();
        let m = rest.remove(0);
        let key = key_of_exec(&m, k);
        pairs.push(Ranked { key, idx: i, reading: m });
        proof {
            assert(rest@ =~= s.skip(pairs@.len() as int));
        }
    }

    let mut sorted: Vec<Ranked> = Vec::new();
    let mut rest_p = pairs;
    while rest_p.len() > 0
        invariant
            total == s.len(),
            sorted@.len() + rest_p@.len() == total,
            forall|t: int|
                0 <= t < rest_p@.len() ==> (#[trigger] rest_p@[t]).idx == t + sorted@.len()
                    && rest_p@[t].reading == s[t + sorted@.len()] && rest_p@[t].key == key_of(
                    s[t + sorted@.len()],
                    k,
                ),
            forall|t: int|
                0 <= t < sorted@.len() ==> (#[trigger] sorted@[t]).idx == rank_order_upto(
                    s,
                    k,
                    sorted@.len() as int,
                )[t] && sorted@[t].reading == s[rank_order_upto(s, k, sorted@.len() as int)[t]]
                    && sorted@[t].key == key_of(s[rank_order_upto(s, k, sorted@.len() as int)[t]], k),
        decreases rest_p@.len(),
    {
        let ghost done = sorted@.len() as int;
        let ghost ordd = rank_order_upto(s, k, done);
        proof {
            lemma_rank_order_upto(s, k, done);
        }
        let x = rest_p.remove(0);
        proof {
            assert(x.idx == done);
            assert(x.reading == s[done]);
            assert(x.key == key_of(s[done], k));
        }
        let mut j: usize = 0;
        loop
            invariant
                total == s.len(),
                sorted@.len() == done,
                j <= sorted@.len(),
                x.key == key_of(s[done], k),
                ordd == rank_order_upto(s, k, done),
                forall|t: int|
                    0 <= t < sorted@.len() ==> (#[trigger] sorted@[t]).key == key_of(
                        s[ordd[t]],
                        k,
                    ),
                forall|t: int| 0 <= t < j ==> (#[trigger] sorted@[t]).key >= x.key,
            ensures
                j <= sorted@.len(),
                forall|t: int| 0 <= t < j ==> (#[trigger] sorted@[t]).key >= x.key,
                j == sorted@.len() || sorted@[j as int].key < x.key,
            decreases sorted@.len() - j,
        {
            if j == sorted.len() {
                break;
            }
            if key_at(&sorted, j) < x.key {
                break;
            }
            j = j + 1;
        }
        proof {
            assert forall|t: int| 0 <= t < j implies key_of(s[done], k) <= key_of(
                s[#[trigger] ordd[t]],
                k,
            ) by {
                assert(sorted@[t].key >= x.key);
                assert(sorted@[t].key == key_of(s[ordd[t]], k));
            }
            assert(j as int == ordd.len() || key_of(s[done], k) > key_of(s[ordd[j as int]], k));
            lemma_insert_pos_at(s, k, ordd, done, j as int);
        }
        let ghost before = sorted@;
        sorted.insert(j, x);
        proof {
            let ord2 = rank_order_upto(s, k, done + 1);
            assert(ord2 == ordd.insert(j as int, done));
            ordd.insert_ensures(j as int, done);
            before.insert_ensures(j as int, x);
            assert(sorted@ == before.insert(j as int, x));
            assert forall|t: int|
                0 <= t < sorted@.len() implies (#[trigger] sorted@[t]).idx == ord2[t]
                && sorted@[t].reading == s[ord2[t]] && sorted@[t].key == key_of(s[ord2[t]], k) by {
                if t < j {
                    assert(sorted@[t] == before[t]);
                    assert(ord2[t] == ordd[t]);
                } else if t == j {
                    assert(sorted@[t] == x);
                    assert(ord2[t] == done);
                } else {
                    assert(sorted@[t] == before[t - 1]);
                    assert(ord2[t] == ordd[t - 1]);
                }
            }
        }
    }

    if sorted.len() > top_n {
        sorted.truncate(top_n);
    }
    let ghost m = sorted@.len() as int;
    proof {
        lemma_rank_order_upto(s, k, total as int);
    }
    let mut out: Vec<MemoryReading> = Vec::new();
    while sorted.len() > 0
        invariant
            out@.len() + sorted@.len() == m,
            0 <= m <= total,
            total == s.len(),
            forall|t: int|
                0 <= t < sorted@.len() ==> (#[trigger] sorted@[t]).reading == s[rank_order(s, k)[t
                    + out@.len()]],
            forall|t: int| 0 <= t < m ==> 0 <= #[trigger] rank_order(s, k)[t] < s.len(),
            forall|t: int| 0 <= t < out@.len() ==> #[trigger] out@[t] == s[rank_order(s, k)[t]],
        decreases sorted@.len(),
    {
        let x = sorted.remove(0);
        out.push(x.reading);
    }
    proof {
        assert(out@ =~= rank_spec(s, k, top_n as int));
    }
    out
}

} // verus!
