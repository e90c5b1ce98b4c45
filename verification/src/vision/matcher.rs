//! Matching a hash against the known artwork.
//!
//! Brute force over every hash, and deliberately so. Fifty thousand entries at 32 bytes each is
//! small enough to sit in cache, and a Hamming distance is a handful of XOR and popcount
//! instructions. An approximate nearest-neighbour index would be more code, more memory and
//! another failure mode, in exchange for microseconds nobody would notice.

use vstd::prelude::*;

use crate::text::{chars_of, str_eq, string_of};
use crate::vision::hash::{hamming, ArtHash, HASH_BITS};

verus! {

/// Bits of difference still counted as the same artwork.
///
/// Same painting through a phone camera lands within roughly a dozen bits; different paintings
/// land near 128, which is what chance gives.
pub const DEFAULT_MAX_DISTANCE: u32 = 28;

/// How much closer the best match must be than the nearest different card.
///
/// Two printings of the same artwork are genuinely indistinguishable here, and that is the
/// point: they are the same picture. But two unrelated cards landing equally close means the
/// frame was bad, and returning either would be a guess.
pub const DEFAULT_MARGIN: u32 = 8;

/// One artwork in the database.
#[derive(Debug, Clone, PartialEq, Eq)]
pub struct ArtEntry {
    pub hash: ArtHash,
    /// Scryfall printing id, which identifies the exact printing this art belongs to.
    pub printing_id: String,
    /// Oracle id, so a match lands straight in a deck or collection.
    pub oracle_id: String,
    pub name: String,
}

/// What a lookup found.
#[derive(Debug, Clone, PartialEq, Eq)]
pub struct Match {
    pub printing_id: String,
    pub oracle_id: String,
    pub name: String,
    /// Bits of difference. Lower is better; zero is identical.
    pub distance: u32,
    /// How much worse the next-best different card was. Larger means more certain.
    pub margin: u32,
}

/// The artwork database.
#[derive(Debug, Clone)]
pub struct ArtDatabase {
    entries: Vec<ArtEntry>,
}

/// Bits between a hash and an entry's.
pub open spec fn dist(h: ArtHash, e: ArtEntry) -> nat {
    hamming(h.0@, e.hash.0@)
}

/// Position of the first entry, among the first `n`, at the least distance from `h`.
pub open spec fn nearest(es: Seq<ArtEntry>, h: ArtHash, n: int) -> int
    decreases n,
{
    if n <= 1 {
        0
    } else {
        let p = nearest(es, h, n - 1);
        if dist(h, es[n - 1]) < dist(h, es[p]) {
            n - 1
        } else {
            p
        }
    }
}

/// Least distance from `h` to an entry, among the first `n`, of a card other than `oracle`.
pub open spec fn rival(es: Seq<ArtEntry>, h: ArtHash, oracle: Seq<char>, n: int) -> Option<nat>
    decreases n,
{
    if n <= 0 {
        None
    } else {
        let r = rival(es, h, oracle, n - 1);
        if es[n - 1].oracle_id@ == oracle {
            r
        } else {
            let d = dist(h, es[n - 1]);
            match r {
                None => Some(d),
                Some(m) => Some(if d < m { d } else { m }),
            }
        }
    }
}

/// What a lookup finds, as (position of the entry, distance, margin): nothing when the
/// database is empty, when the nearest entry is further than `max_distance`, or when a
/// different card is within `margin` of it. With no different card at all, the margin is the
/// whole width of a hash.
pub open spec fn verdict(es: Seq<ArtEntry>, h: ArtHash, max_distance: u32, margin: u32) -> Option<(int, nat, nat)> {
    if es.len() == 0 {
        None
    } else {
        let i = nearest(es, h, es.len() as int);
        let d = dist(h, es[i]);
        if d > max_distance {
            None
        } else {
            match rival(es, h, es[i].oracle_id@, es.len() as int) {
                None => Some((i, d, HASH_BITS as nat)),
                Some(m) => {
                    let gap: nat = if m > d { (m - d) as nat } else { 0 };
                    if gap < margin {
                        None
                    } else {
                        Some((i, d, gap))
                    }
                },
            }
        }
    }
}

proof fn lemma_nearest_in_range(es: Seq<ArtEntry>, h: ArtHash, n: int)
    requires
        1 <= n,
    ensures
        0 <= nearest(es, h, n) < n,
    decreases n,
{
    if n > 1 {
        lemma_nearest_in_range(es, h, n - 1);
    }
}

fn copy_text(s: &String) -> (r: String)
    ensures
        r@ == s@,
{
    string_of(chars_of(s.as_str()).as_slice())
}

impl ArtDatabase {
    pub closed spec fn entries_view(&self) -> Seq<ArtEntry> {
        self.entries@
    }

    pub fn new(entries: Vec<ArtEntry>) -> (r: ArtDatabase)
        ensures
            r.entries_view() == entries@,
    {
        ArtDatabase { entries }
    }

    pub fn len(&self) -> (r: usize)
        ensures
            r == self.entries_view().len(),
    {
        self.entries.len()
    }

    pub fn is_empty(&self) -> (r: bool)
        ensures
            r == (self.entries_view().len() == 0),
    {
        self.entries.len() == 0
    }

    pub fn entries(&self) -> (r: &[ArtEntry])
        ensures
            r@ == self.entries_view(),
    {
        self.entries.as_slice()
    }

    /// Finds the artwork a hash belongs to, or nothing if the answer is not clear, with the
    /// default thresholds.
    pub fn best_match(&self, hash: &ArtHash) -> (r: Option<Match>)
        ensures
            found(r, self.entries_view(), *hash, DEFAULT_MAX_DISTANCE, DEFAULT_MARGIN),
    {
        self.best_match_with(hash, DEFAULT_MAX_DISTANCE, DEFAULT_MARGIN)
    }

    /// Finds the artwork a hash belongs to, or nothing if the answer is not clear.
    ///
    /// Nothing rather than a best guess when the closest entry is too far away, or when a
    /// different card is nearly as close: a wrong card added silently to a collection is worse
    /// than a card the scanner declines to name. Only a different card counts as a rival; two
    /// printings of the same artwork sit at the same distance by definition.
    pub fn best_match_with(&self, hash: &ArtHash, max_distance: u32, margin: u32) -> (r: Option<Match>)
        ensures
            found(r, self.entries_view(), *hash, max_distance, margin),
    {
        let es = &self.entries;
        if es.len() == 0 {
            return None;
        }
        let mut best: usize = 0;
        let mut best_distance = hash.distance(&es[0].hash);
        let mut i: usize = 1;
        while i < es.len()
            invariant
                1 <= i <= es@.len(),
                best == nearest(es@, *hash, i as int),
                best_distance == dist(*hash, es@[best as int]),
            decreases es@.len() - i,
        {
            proof {
                lemma_nearest_in_range(es@, *hash, i as int);
            }
            let d = hash.distance(&es[i].hash);
            if d < best_distance {
                best = i;
                best_distance = d;
            }
            i = i + 1;
        }
        proof {
            lemma_nearest_in_range(es@, *hash, es@.len() as int);
        }
        if best_distance > max_distance {
            return None;
        }
        let entry = &es[best];
        let mut runner_up: Option<u32> = None;
        let mut k: usize = 0;
        while k < es.len()
            invariant
                k <= es@.len(),
                best < es@.len(),
                entry == es@[best as int],
                runner_up matches Some(m) ==> rival(es@, *hash, entry.oracle_id@, k as int) == Some(m as nat),
                runner_up is None ==> rival(es@, *hash, entry.oracle_id@, k as int) is None,
            decreases es@.len() - k,
        {
            if !str_eq(es[k].oracle_id.as_str(), entry.oracle_id.as_str()) {
                let d = hash.distance(&es[k].hash);
                runner_up = match runner_up {
                    None => Some(d),
                    Some(m) => Some(if d < m { d } else { m }),
                };
            }
            k = k + 1;
        }
        let gap = match runner_up {
            Some(rival_distance) => {
                let gap = if rival_distance > best_distance { rival_distance - best_distance } else { 0 };
                if gap < margin {
                    return None;
                }
                gap
            },
            None => HASH_BITS as u32,
        };
        Some(
            Match {
                printing_id: copy_text(&entry.printing_id),
                oracle_id: copy_text(&entry.oracle_id),
                name: copy_text(&entry.name),
                distance: best_distance,
                margin: gap,
            },
        )
    }

    /// Every printing of a card, in database order.
    ///
    /// A reprint shares its painting with the original, so the hash cannot tell them apart,
    /// by design: they are the same picture. This is what lets the caller offer the choice
    /// rather than picking a printing the user never saw.
    pub fn printings_of(&self, oracle_id: &str) -> (r: Vec<&ArtEntry>)
        ensures
            r@.len() == printings(self.entries_view(), oracle_id@).len(),
            forall|k: int| 0 <= k < r@.len() ==> *r@[k] == printings(self.entries_view(), oracle_id@)[k],
    {
        let mut out: Vec<&ArtEntry> = Vec::new();
        let mut i: usize = 0;
        while i < self.entries.len()
            invariant
                i <= self.entries@.len(),
                out@.len() == printings(self.entries@.take(i as int), oracle_id@).len(),
                forall|k: int|
                    0 <= k < out@.len() ==> *out@[k] == printings(self.entries@.take(i as int), oracle_id@)[k],
            decreases self.entries@.len() - i,
        {
            assert(self.entries@.take(i + 1).drop_last() =~= self.entries@.take(i as int));
            reveal_with_fuel(Seq::filter, 1);
            if str_eq(self.entries[i].oracle_id.as_str(), oracle_id) {
                out.push(&self.entries[i]);
            }
            i = i + 1;
        }
        assert(self.entries@.take(self.entries@.len() as int) =~= self.entries@);
        out
    }
}

impl Default for ArtDatabase {
    /// The database before any artwork hashes have been downloaded.
    fn default() -> (r: ArtDatabase)
        ensures
            r.entries_view().len() == 0,
    {
        ArtDatabase { entries: Vec::new() }
    }
}

/// The entries of a card, in order.
pub open spec fn printings(es: Seq<ArtEntry>, oracle: Seq<char>) -> Seq<ArtEntry> {
    es.filter(|e: ArtEntry| e.oracle_id@ == oracle)
}

/// A lookup's result is the verdict, with the entry's texts.
pub open spec fn found(r: Option<Match>, es: Seq<ArtEntry>, h: ArtHash, max_distance: u32, margin: u32) -> bool {
    match verdict(es, h, max_distance, margin) {
        None => r is None,
        Some((i, d, g)) => r matches Some(m) && m.printing_id@ == es[i].printing_id@ && m.oracle_id@
            == es[i].oracle_id@ && m.name@ == es[i].name@ && m.distance == d && m.margin == g,
    }
}


/// The nearest entry among the first `n` is as near as any of them.
proof fn lemma_nearest_is_least(es: Seq<ArtEntry>, h: ArtHash, n: int)
    requires
        1 <= n <= es.len(),
    ensures
        0 <= nearest(es, h, n) < n,
        forall|k: int| 0 <= k < n ==> dist(h, es[nearest(es, h, n)]) <= #[trigger] dist(h, es[k]),
    decreases n,
{
    lemma_nearest_in_range(es, h, n);
    if n > 1 {
        lemma_nearest_is_least(es, h, n - 1);
    }
}

/// What the nearest different card is, among the first `n` entries: nothing exactly when every
/// one of them is a printing of `oracle`, and otherwise a distance some different card is at
/// and none is nearer than.
proof fn lemma_rival_is_least(es: Seq<ArtEntry>, h: ArtHash, oracle: Seq<char>, n: int)
    requires
        0 <= n <= es.len(),
    ensures
        rival(es, h, oracle, n) is None <==> forall|k: int| 0 <= k < n ==> (#[trigger] es[k]).oracle_id@ == oracle,
        rival(es, h, oracle, n) matches Some(m) ==> {
            &&& exists|k: int| 0 <= k < n && (#[trigger] es[k]).oracle_id@ != oracle && dist(h, es[k]) == m
            &&& forall|k: int| 0 <= k < n && (#[trigger] es[k]).oracle_id@ != oracle ==> m <= dist(h, es[k])
        },
    decreases n,
{
    if n > 0 {
        lemma_rival_is_least(es, h, oracle, n - 1);
        if rival(es, h, oracle, n - 1) is None && es[n - 1].oracle_id@ == oracle {
            assert forall|k: int| 0 <= k < n implies (#[trigger] es[k]).oracle_id@ == oracle by {}
        }
        if let Some(m) = rival(es, h, oracle, n) {
            if es[n - 1].oracle_id@ != oracle && (rival(es, h, oracle, n - 1) is None || dist(h, es[n - 1]) < rival(es, h, oracle, n - 1)->0) {
                assert(es[n - 1].oracle_id@ != oracle && dist(h, es[n - 1]) == m);
            } else {
                let k = choose|k: int| 0 <= k < n - 1 && (#[trigger] es[k]).oracle_id@ != oracle && dist(h, es[k]) == rival(es, h, oracle, n - 1)->0;
                assert(es[k].oracle_id@ != oracle && dist(h, es[k]) == m);
            }
        }
    }
}

/// Two databases holding the same entries, in any order: each entry of one is in the other.
proof fn lemma_same_entries(es1: Seq<ArtEntry>, es2: Seq<ArtEntry>, k: int)
    requires
        es1.to_multiset() == es2.to_multiset(),
        0 <= k < es1.len(),
    ensures
        exists|j: int| 0 <= j < es2.len() && #[trigger] es2[j] == es1[k],
{
    assert(es1.contains(es1[k]));
    vstd::seq_lib::to_multiset_contains(es1, es1[k]);
    vstd::seq_lib::to_multiset_contains(es2, es1[k]);
    assert(es2.contains(es1[k]));
}

/// The verdict does not depend on the order of the database: the same entries in any order
/// name the same card, at the same distance and with the same margin, or decline alike.
///
/// This holds whenever a margin is asked for. With no margin at all, two different cards at
/// the same least distance are not a refusal, and which of them is named depends on which
/// comes first.
pub proof fn law_verdict_ignores_order(es1: Seq<ArtEntry>, es2: Seq<ArtEntry>, h: ArtHash, max_distance: u32, margin: u32)
    requires
        es1.to_multiset() == es2.to_multiset(),
        margin > 0,
    ensures
        verdict(es1, h, max_distance, margin) is None <==> verdict(es2, h, max_distance, margin) is None,
        verdict(es1, h, max_distance, margin) matches Some((i, d, g)) ==> (verdict(es2, h, max_distance, margin) matches Some((j, d2, g2))
            && es1[i].oracle_id@ == es2[j].oracle_id@ && d == d2 && g == g2),
{
    assert(es1.len() == es2.len()) by {
        vstd::seq_lib::to_multiset_len(es1);
        vstd::seq_lib::to_multiset_len(es2);
    }
    if es1.len() > 0 {
        lemma_law_one_way(es1, es2, h, max_distance, margin);
        lemma_law_one_way(es2, es1, h, max_distance, margin);
    }
}

/// One direction of the order law: a card named by the first ordering is named, alike, by the
/// second.
proof fn lemma_law_one_way(es1: Seq<ArtEntry>, es2: Seq<ArtEntry>, h: ArtHash, max_distance: u32, margin: u32)
    requires
        es1.to_multiset() == es2.to_multiset(),
        es1.len() == es2.len(),
        es1.len() > 0,
        margin > 0,
    ensures
        verdict(es1, h, max_distance, margin) matches Some((i, d, g)) ==> (verdict(es2, h, max_distance, margin) matches Some((j, d2, g2))
            && es1[i].oracle_id@ == es2[j].oracle_id@ && d == d2 && g == g2),
{
    let n = es1.len() as int;
    let i = nearest(es1, h, n);
    let j = nearest(es2, h, n);
    lemma_nearest_is_least(es1, h, n);
    lemma_nearest_is_least(es2, h, n);
    // The least distance is a property of the entries, not of their order.
    lemma_same_entries(es1, es2, i);
    lemma_same_entries(es2, es1, j);
    let d = dist(h, es1[i]);
    assert(dist(h, es2[j]) == d) by {
        let a = choose|a: int| 0 <= a < es2.len() && #[trigger] es2[a] == es1[i];
        let b = choose|b: int| 0 <= b < es1.len() && #[trigger] es1[b] == es2[j];
        assert(dist(h, es2[j]) <= dist(h, es2[a]));
        assert(dist(h, es1[i]) <= dist(h, es1[b]));
    }
    if let Some((vi, vd, vg)) = verdict(es1, h, max_distance, margin) {
        let o = es1[i].oracle_id@;
        lemma_rival_is_least(es1, h, o, n);
        lemma_rival_is_least(es2, h, o, n);
        // The second ordering's nearest entry is a printing of the same card: a different card
        // at the least distance would have left no margin in the first.
        if es2[j].oracle_id@ != o {
            let b = choose|b: int| 0 <= b < es1.len() && #[trigger] es1[b] == es2[j];
            assert(es1[b].oracle_id@ != o);
            assert(rival(es1, h, o, n) is Some);
            assert(rival(es1, h, o, n)->0 <= d);
            assert(false);
        }
        // Both orderings see the same nearest different card.
        match rival(es1, h, o, n) {
            None => {
                assert forall|k: int| 0 <= k < n implies (#[trigger] es2[k]).oracle_id@ == o by {
                    lemma_same_entries(es2, es1, k);
                    let b = choose|b: int| 0 <= b < es1.len() && #[trigger] es1[b] == es2[k];
                }
            },
            Some(m) => {
                let k1 = choose|k: int| 0 <= k < n && (#[trigger] es1[k]).oracle_id@ != o && dist(h, es1[k]) == m;
                lemma_same_entries(es1, es2, k1);
                let a = choose|a: int| 0 <= a < es2.len() && #[trigger] es2[a] == es1[k1];
                assert(rival(es2, h, o, n) is Some);
                let m2 = rival(es2, h, o, n)->0;
                let k2 = choose|k: int| 0 <= k < n && (#[trigger] es2[k]).oracle_id@ != o && dist(h, es2[k]) == m2;
                lemma_same_entries(es2, es1, k2);
                let b = choose|b: int| 0 <= b < es1.len() && #[trigger] es1[b] == es2[k2];
                assert(m <= dist(h, es1[b]));
                assert(m2 <= dist(h, es2[a]));
                assert(m2 == m);
            },
        }
    }
}
} // verus!
