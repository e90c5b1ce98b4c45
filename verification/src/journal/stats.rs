//! Counting a log: how many games were won, lost and drawn, either side of a date and against
//! each kind of opponent.
//!
//! Draws are counted apart from wins and losses: a draw settles nothing about which deck is
//! better. A game against several opponents counts against every one of them, since a win at a
//! table of four is a win against all three. The rates read off these counts, and the intervals
//! around them, are floating point and are computed by the application.

use vstd::prelude::*;

use crate::journal::game::{Game, Opponent, Result_};
use crate::text::{chars_eq, chars_of, lemma_lex_total, lex_less, lex_less_exec, string_of, trim, trim_chars};

verus! {

/// Wins, losses and draws.
#[derive(Debug, Clone, Copy, PartialEq, Eq, Structural)]
pub struct Tally {
    pub wins: u32,
    pub losses: u32,
    pub draws: u32,
}

impl Tally {
    /// The count kept for one kind of result.
    pub open spec fn of_result(self, r: Result_) -> nat {
        match r {
            Result_::Win => self.wins as nat,
            Result_::Loss => self.losses as nat,
            Result_::Draw => self.draws as nat,
        }
    }

    /// Every game counted, draws included.
    pub fn games(self) -> (r: u64)
        ensures
            r == self.wins + self.losses + self.draws,
    {
        self.wins as u64 + self.losses as u64 + self.draws as u64
    }

    /// Games that were won or lost: the denominator of a win rate.
    pub fn decided(self) -> (r: u64)
        ensures
            r == self.wins + self.losses,
    {
        self.wins as u64 + self.losses as u64
    }
}

/// How many of `results` are `r`.
pub open spec fn count(results: Seq<Result_>, r: Result_) -> nat
    decreases results.len(),
{
    if results.len() == 0 {
        0
    } else {
        count(results.drop_last(), r) + if results.last() == r {
            1nat
        } else {
            0nat
        }
    }
}

/// `t` holds the counts of `results`.
pub open spec fn counts(t: Tally, results: Seq<Result_>) -> bool {
    &&& t.wins == count(results, Result_::Win)
    &&& t.losses == count(results, Result_::Loss)
    &&& t.draws == count(results, Result_::Draw)
}

/// Counts each kind of result.
pub fn tally(results: &[Result_]) -> (t: Tally)
    requires
        results@.len() <= u32::MAX,
    ensures
        counts(t, results@),
{
    let mut t = Tally { wins: 0, losses: 0, draws: 0 };
    let mut i: usize = 0;
    while i < results.len()
        invariant
            i <= results@.len() <= u32::MAX,
            counts(t, results@.take(i as int)),
            t.wins + t.losses + t.draws == i,
        decreases results@.len() - i,
    {
        assert(results@.take(i + 1).drop_last() =~= results@.take(i as int));
        match results[i] {
            Result_::Win => t.wins = t.wins + 1,
            Result_::Loss => t.losses = t.losses + 1,
            Result_::Draw => t.draws = t.draws + 1,
        }
        i = i + 1;
    }
    assert(results@.take(i as int) =~= results@);
    t
}

/// The results of the games played before `since` (`before` true), or on or after it.
///
/// Dates are compared as text, which is their order when written `YYYY-MM-DD`.
pub open spec fn dated(games: Seq<Game>, since: Seq<char>, before: bool) -> Seq<Result_>
    decreases games.len(),
{
    if games.len() == 0 {
        Seq::empty()
    } else {
        let rest = dated(games.drop_last(), since, before);
        if lex_less(games.last().played_at@, since) == before {
            rest.push(games.last().result)
        } else {
            rest
        }
    }
}

proof fn lemma_dated_len(games: Seq<Game>, since: Seq<char>, before: bool)
    ensures
        dated(games, since, before).len() <= games.len(),
    decreases games.len(),
{
    if games.len() > 0 {
        lemma_dated_len(games.drop_last(), since, before);
    }
}

/// The results of every game in the log, in order.
pub open spec fn results_of(games: Seq<Game>) -> Seq<Result_> {
    games.map_values(|g: Game| g.result)
}

/// Splitting a log at a date loses no game and counts none twice: for every kind of result,
/// the games before the date and those on or after it add up to the whole log.
pub proof fn law_split_partitions_the_log(games: Seq<Game>, since: Seq<char>, r: Result_)
    ensures
        count(dated(games, since, true), r) + count(dated(games, since, false), r) == count(results_of(games), r),
    decreases games.len(),
{
    if games.len() > 0 {
        law_split_partitions_the_log(games.drop_last(), since, r);
        assert(results_of(games).drop_last() =~= results_of(games.drop_last()));
        let g = games.last();
        let t = dated(games.drop_last(), since, true);
        let f = dated(games.drop_last(), since, false);
        assert(t.push(g.result).drop_last() =~= t);
        assert(f.push(g.result).drop_last() =~= f);
    }
}

/// Splits the games either side of a date: the counts of those played before it, and of those
/// played on it or after. The date itself belongs to the "after".
pub fn split_by_date(games: &[Game], since: &str) -> (r: (Tally, Tally))
    requires
        games@.len() <= u32::MAX,
    ensures
        counts(r.0, dated(games@, since@, true)),
        counts(r.1, dated(games@, since@, false)),
{
    let key = chars_of(since);
    let mut before: Vec<Result_> = Vec::new();
    let mut after: Vec<Result_> = Vec::new();
    let mut i: usize = 0;
    while i < games.len()
        invariant
            i <= games@.len() <= u32::MAX,
            key@ == since@,
            before@ == dated(games@.take(i as int), since@, true),
            after@ == dated(games@.take(i as int), since@, false),
        decreases games@.len() - i,
    {
        assert(games@.take(i + 1).drop_last() =~= games@.take(i as int));
        let game = &games[i];
        if lex_less_exec(chars_of(game.played_at.as_str()).as_slice(), key.as_slice()) {
            before.push(game.result);
        } else {
            after.push(game.result);
        }
        i = i + 1;
    }
    assert(games@.take(i as int) =~= games@);
    proof {
        lemma_dated_len(games@, since@, true);
        lemma_dated_len(games@, since@, false);
    }
    (tally(before.as_slice()), tally(after.as_slice()))
}

/// What a game says of the opponents at its table: each one's trimmed label with the game's
/// result, leaving out opponents recorded without a label.
pub open spec fn seen_at(opponents: Seq<Opponent>, result: Result_) -> Seq<(Seq<char>, Result_)>
    decreases opponents.len(),
{
    if opponents.len() == 0 {
        Seq::empty()
    } else {
        let rest = seen_at(opponents.drop_last(), result);
        let label = trim(opponents.last().archetype@);
        if label.len() == 0 {
            rest
        } else {
            rest.push((label, result))
        }
    }
}

/// Every labelled opponent of every game, in the order of the log.
pub open spec fn sightings(games: Seq<Game>) -> Seq<(Seq<char>, Result_)>
    decreases games.len(),
{
    if games.len() == 0 {
        Seq::empty()
    } else {
        sightings(games.drop_last()) + seen_at(games.last().opponents@, games.last().result)
    }
}

/// How many sightings are of this label with this result.
pub open spec fn count_seen(s: Seq<(Seq<char>, Result_)>, label: Seq<char>, r: Result_) -> nat
    decreases s.len(),
{
    if s.len() == 0 {
        0
    } else {
        count_seen(s.drop_last(), label, r) + if s.last() == (label, r) {
            1nat
        } else {
            0nat
        }
    }
}

/// Labels strictly ascend.
pub open spec fn labels_ascend(v: Seq<(String, Tally)>) -> bool {
    forall|k: int| 0 <= k < v.len() - 1 ==> lex_less((#[trigger] v[k]).0@, v[k + 1].0@)
}

/// `v` is the table of `s`: one row per label seen, in ascending order of label, each with the
/// counts of its results.
pub open spec fn table_of(v: Seq<(String, Tally)>, s: Seq<(Seq<char>, Result_)>) -> bool {
    &&& labels_ascend(v)
    &&& forall|k: int| 0 <= k < v.len() ==> {
        &&& (#[trigger] v[k]).1.wins == count_seen(s, v[k].0@, Result_::Win)
        &&& v[k].1.losses == count_seen(s, v[k].0@, Result_::Loss)
        &&& v[k].1.draws == count_seen(s, v[k].0@, Result_::Draw)
        &&& exists|i: int| 0 <= i < s.len() && (#[trigger] s[i]).0 == v[k].0@
    }
    &&& forall|i: int| 0 <= i < s.len() ==> exists|k: int| 0 <= k < v.len() && (#[trigger] v[k]).0@ == (#[trigger] s[i]).0
}

proof fn lemma_count_seen_bound(s: Seq<(Seq<char>, Result_)>, label: Seq<char>, r: Result_)
    ensures
        count_seen(s, label, r) <= s.len(),
    decreases s.len(),
{
    if s.len() > 0 {
        lemma_count_seen_bound(s.drop_last(), label, r);
    }
}

proof fn lemma_unseen(s: Seq<(Seq<char>, Result_)>, label: Seq<char>, r: Result_)
    requires
        forall|i: int| 0 <= i < s.len() ==> (#[trigger] s[i]).0 != label,
    ensures
        count_seen(s, label, r) == 0,
    decreases s.len(),
{
    if s.len() > 0 {
        assert(s.last() == s[s.len() - 1]);
        assert forall|i: int| 0 <= i < s.drop_last().len() implies (#[trigger] s.drop_last()[i]).0 != label by {
            assert(s.drop_last()[i] == s[i]);
        }
        lemma_unseen(s.drop_last(), label, r);
    }
}

proof fn lemma_seen_push(s: Seq<(Seq<char>, Result_)>, x: (Seq<char>, Result_), label: Seq<char>, r: Result_)
    ensures
        count_seen(s.push(x), label, r) == count_seen(s, label, r) + if x == (label, r) {
            1nat
        } else {
            0nat
        },
{
    assert(s.push(x).drop_last() =~= s);
}

proof fn lemma_labels_ordered(v: Seq<(String, Tally)>, i: int, j: int)
    requires
        labels_ascend(v),
        0 <= i < j < v.len(),
    ensures
        lex_less(v[i].0@, v[j].0@),
    decreases j - i,
{
    if j > i + 1 {
        lemma_labels_ordered(v, i, j - 1);
        assert(lex_less(v[j - 1].0@, v[j].0@));
        crate::optimizer::search::lemma_lex_trans(v[i].0@, v[j - 1].0@, v[j].0@);
    }
}

proof fn lemma_labels_distinct(v: Seq<(String, Tally)>, i: int, j: int)
    requires
        labels_ascend(v),
        0 <= i < v.len(),
        0 <= j < v.len(),
        i != j,
    ensures
        v[i].0@ != v[j].0@,
{
    if i < j {
        lemma_labels_ordered(v, i, j);
        lemma_lex_total(v[i].0@, v[i].0@);
    } else {
        lemma_labels_ordered(v, j, i);
        lemma_lex_total(v[j].0@, v[j].0@);
    }
}

/// The count for `r` grows by one when `r` is the result recorded.
pub open spec fn bump(old_count: nat, r: Result_, result: Result_) -> nat {
    old_count + if r == result {
        1nat
    } else {
        0nat
    }
}

/// A row already held the label: after its count grows, the table is that of one more sighting.
proof fn lemma_bumped(
    before: Seq<(String, Tally)>,
    v: Seq<(String, Tally)>,
    seen: Seq<(Seq<char>, Result_)>,
    label: Seq<char>,
    result: Result_,
    p: int,
)
    requires
        table_of(before, seen),
        0 <= p < before.len(),
        before[p].0@ == label,
        v.len() == before.len(),
        forall|k: int| 0 <= k < v.len() && k != p ==> #[trigger] v[k] == before[k],
        v[p].0 == before[p].0,
        v[p].1.wins == bump(before[p].1.wins as nat, Result_::Win, result),
        v[p].1.losses == bump(before[p].1.losses as nat, Result_::Loss, result),
        v[p].1.draws == bump(before[p].1.draws as nat, Result_::Draw, result),
    ensures
        table_of(v, seen.push((label, result))),
{
    let x = (label, result);
    let after_seen = seen.push(x);
    assert(after_seen[seen.len() as int] == x);
    assert forall|k: int| 0 <= k < v.len() - 1 implies lex_less((#[trigger] v[k]).0@, v[k + 1].0@) by {
        assert(v[k].0 == before[k].0 && v[k + 1].0 == before[k + 1].0);
        assert(lex_less(before[k].0@, before[k + 1].0@));
    }
    assert forall|k: int| 0 <= k < v.len() implies {
        &&& (#[trigger] v[k]).1.wins == count_seen(after_seen, v[k].0@, Result_::Win)
        &&& v[k].1.losses == count_seen(after_seen, v[k].0@, Result_::Loss)
        &&& v[k].1.draws == count_seen(after_seen, v[k].0@, Result_::Draw)
        &&& exists|i: int| 0 <= i < after_seen.len() && (#[trigger] after_seen[i]).0 == v[k].0@
    } by {
        lemma_seen_push(seen, x, v[k].0@, Result_::Win);
        lemma_seen_push(seen, x, v[k].0@, Result_::Loss);
        lemma_seen_push(seen, x, v[k].0@, Result_::Draw);
        assert(v[k].0 == before[k].0);
        if k != p {
            lemma_labels_distinct(before, k, p);
            assert(v[k] == before[k]);
        }
        let i = choose|i: int| 0 <= i < seen.len() && (#[trigger] seen[i]).0 == before[k].0@;
        assert(after_seen[i] == seen[i]);
    }
    assert forall|i: int| 0 <= i < after_seen.len() implies exists|k: int| 0 <= k < v.len() && (#[trigger] v[k]).0@ == (#[trigger] after_seen[i]).0 by {
        if i < seen.len() {
            assert(after_seen[i] == seen[i]);
            let k = choose|k: int| 0 <= k < before.len() && (#[trigger] before[k]).0@ == seen[i].0;
            if k != p {
                assert(v[k] == before[k]);
            }
        } else {
            assert(v[p].0@ == after_seen[i].0);
        }
    }
}

/// A label that falls strictly between the rows is none of them, and was never seen.
proof fn lemma_new_label(before: Seq<(String, Tally)>, seen: Seq<(Seq<char>, Result_)>, label: Seq<char>, p: int)
    requires
        table_of(before, seen),
        0 <= p <= before.len(),
        forall|k: int| 0 <= k < p ==> lex_less((#[trigger] before[k]).0@, label),
        p < before.len() ==> lex_less(label, before[p].0@),
    ensures
        forall|k: int| 0 <= k < before.len() ==> (#[trigger] before[k]).0@ != label,
        count_seen(seen, label, Result_::Win) == 0,
        count_seen(seen, label, Result_::Loss) == 0,
        count_seen(seen, label, Result_::Draw) == 0,
{
    lemma_lex_total(label, label);
    assert forall|k: int| 0 <= k < before.len() implies (#[trigger] before[k]).0@ != label by {
        if k > p {
            lemma_labels_ordered(before, p, k);
            crate::optimizer::search::lemma_lex_trans(label, before[p].0@, before[k].0@);
        }
    }
    assert forall|i: int| 0 <= i < seen.len() implies (#[trigger] seen[i]).0 != label by {
        let k = choose|k: int| 0 <= k < before.len() && (#[trigger] before[k]).0@ == seen[i].0;
    }
    lemma_unseen(seen, label, Result_::Win);
    lemma_unseen(seen, label, Result_::Loss);
    lemma_unseen(seen, label, Result_::Draw);
}

/// Placing a label between the rows it falls between keeps the rows in order.
proof fn lemma_inserted_ascend(before: Seq<(String, Tally)>, v: Seq<(String, Tally)>, label: Seq<char>, p: int)
    requires
        labels_ascend(before),
        0 <= p <= before.len(),
        v == before.insert(p, v[p]),
        v[p].0@ == label,
        forall|k: int| 0 <= k < p ==> lex_less((#[trigger] before[k]).0@, label),
        p < before.len() ==> lex_less(label, before[p].0@),
    ensures
        labels_ascend(v),
{
    assert forall|k: int| 0 <= k < v.len() - 1 implies lex_less((#[trigger] v[k]).0@, v[k + 1].0@) by {
        if k + 1 < p {
            assert(v[k] == before[k] && v[k + 1] == before[k + 1]);
            assert(lex_less(before[k].0@, before[k + 1].0@));
        } else if k + 1 == p {
            assert(v[k] == before[k]);
        } else if k == p {
            assert(v[k + 1] == before[k]);
        } else {
            assert(v[k] == before[k - 1] && v[k + 1] == before[k]);
            assert(lex_less(before[k - 1].0@, before[k].0@));
        }
    }
}

/// A label not held yet: after a row for it is placed in order, with one result counted, the
/// table is that of one more sighting.
proof fn lemma_inserted(
    before: Seq<(String, Tally)>,
    v: Seq<(String, Tally)>,
    seen: Seq<(Seq<char>, Result_)>,
    label: Seq<char>,
    result: Result_,
    p: int,
)
    requires
        table_of(before, seen),
        0 <= p <= before.len(),
        v == before.insert(p, v[p]),
        v[p].0@ == label,
        forall|k: int| 0 <= k < p ==> lex_less((#[trigger] before[k]).0@, label),
        p < before.len() ==> lex_less(label, before[p].0@),
        v[p].1.wins == bump(0, Result_::Win, result),
        v[p].1.losses == bump(0, Result_::Loss, result),
        v[p].1.draws == bump(0, Result_::Draw, result),
    ensures
        table_of(v, seen.push((label, result))),
{
    let x = (label, result);
    let after_seen = seen.push(x);
    assert(after_seen[seen.len() as int] == x);
    lemma_new_label(before, seen, label, p);
    lemma_inserted_ascend(before, v, label, p);
    assert forall|k: int| 0 <= k < v.len() implies {
        &&& (#[trigger] v[k]).1.wins == count_seen(after_seen, v[k].0@, Result_::Win)
        &&& v[k].1.losses == count_seen(after_seen, v[k].0@, Result_::Loss)
        &&& v[k].1.draws == count_seen(after_seen, v[k].0@, Result_::Draw)
        &&& exists|i: int| 0 <= i < after_seen.len() && (#[trigger] after_seen[i]).0 == v[k].0@
    } by {
        lemma_seen_push(seen, x, v[k].0@, Result_::Win);
        lemma_seen_push(seen, x, v[k].0@, Result_::Loss);
        lemma_seen_push(seen, x, v[k].0@, Result_::Draw);
        if k == p {
            assert(after_seen[seen.len() as int].0 == v[k].0@);
        } else {
            let j = if k < p { k } else { k - 1 };
            assert(v[k] == before[j]);
            assert(before[j].0@ != label);
            let i = choose|i: int| 0 <= i < seen.len() && (#[trigger] seen[i]).0 == before[j].0@;
            assert(after_seen[i] == seen[i]);
        }
    }
    assert forall|i: int| 0 <= i < after_seen.len() implies exists|k: int| 0 <= k < v.len() && (#[trigger] v[k]).0@ == (#[trigger] after_seen[i]).0 by {
        if i < seen.len() {
            assert(after_seen[i] == seen[i]);
            let k = choose|k: int| 0 <= k < before.len() && (#[trigger] before[k]).0@ == seen[i].0;
            if k < p {
                assert(v[k] == before[k]);
            } else {
                assert(v[k + 1] == before[k]);
            }
        } else {
            assert(v[p].0@ == after_seen[i].0);
        }
    }
}

/// One more sighting, counted into the table.
fn record(out: &mut Vec<(String, Tally)>, label: &[char], result: Result_, Ghost(seen): Ghost<Seq<(Seq<char>, Result_)>>)
    requires
        table_of(old(out)@, seen),
        seen.len() < u32::MAX,
    ensures
        table_of(final(out)@, seen.push((label@, result))),
{
    let ghost before = out@;
    let mut p: usize = 0;
    while p < out.len() && lex_less_exec(chars_of(out[p].0.as_str()).as_slice(), label)
        invariant
            out@ == before,
            p <= out@.len(),
            forall|k: int| 0 <= k < p ==> lex_less((#[trigger] out@[k]).0@, label@),
        decreases out@.len() - p,
    {
        p = p + 1;
    }
    if p < out.len() && chars_eq(chars_of(out[p].0.as_str()).as_slice(), label) {
        let mut t = out[p].1;
        proof {
            lemma_count_seen_bound(seen, label@, result);
        }
        match result {
            Result_::Win => t.wins = t.wins + 1,
            Result_::Loss => t.losses = t.losses + 1,
            Result_::Draw => t.draws = t.draws + 1,
        }
        out[p].1 = t;
        proof {
            lemma_bumped(before, out@, seen, label@, result, p as int);
        }
    } else {
        proof {
            if p < out@.len() {
                lemma_lex_total(out@[p as int].0@, label@);
            }
        }
        let t = match result {
            Result_::Win => Tally { wins: 1, losses: 0, draws: 0 },
            Result_::Loss => Tally { wins: 0, losses: 1, draws: 0 },
            Result_::Draw => Tally { wins: 0, losses: 0, draws: 1 },
        };
        out.insert(p, (string_of(label), t));
        proof {
            lemma_inserted(before, out@, seen, label@, result, p as int);
        }
    }
}

proof fn lemma_seen_at_grows(opponents: Seq<Opponent>, result: Result_, j: int)
    requires
        0 <= j <= opponents.len(),
    ensures
        seen_at(opponents.take(j), result).len() <= seen_at(opponents, result).len(),
    decreases opponents.len() - j,
{
    if j < opponents.len() {
        lemma_seen_at_grows(opponents, result, j + 1);
        assert(opponents.take(j + 1).drop_last() =~= opponents.take(j));
    } else {
        assert(opponents.take(j) =~= opponents);
    }
}

proof fn lemma_sightings_grow(games: Seq<Game>, i: int)
    requires
        0 <= i <= games.len(),
    ensures
        sightings(games.take(i)).len() <= sightings(games).len(),
    decreases games.len() - i,
{
    if i < games.len() {
        lemma_sightings_grow(games, i + 1);
        assert(games.take(i + 1).drop_last() =~= games.take(i));
    } else {
        assert(games.take(i) =~= games);
    }
}

/// Counts the results against each kind of opponent, one row per label in ascending order.
///
/// Every opponent at a table counts, each under its label with surrounding space trimmed; an
/// opponent recorded without a label is left out rather than grouped under nothing.
pub fn tally_by_archetype(games: &[Game]) -> (r: Vec<(String, Tally)>)
    requires
        sightings(games@).len() <= u32::MAX,
    ensures
        table_of(r@, sightings(games@)),
{
    let mut out: Vec<(String, Tally)> = Vec::new();
    let ghost mut seen: Seq<(Seq<char>, Result_)> = Seq::empty();
    let mut i: usize = 0;
    assert(games@.take(0) =~= Seq::<Game>::empty());
    while i < games.len()
        invariant
            i <= games@.len(),
            sightings(games@).len() <= u32::MAX,
            seen == sightings(games@.take(i as int)),
            table_of(out@, seen),
        decreases games@.len() - i,
    {
        let game = &games[i];
        let ghost opponents = game.opponents@;
        let ghost start = seen;
        proof {
            assert(games@.take(i + 1).drop_last() =~= games@.take(i as int));
            assert(games@.take(i + 1).last() == games@[i as int]);
            lemma_sightings_grow(games@, i + 1);
        }
        let mut j: usize = 0;
        assert(opponents.take(0) =~= Seq::<Opponent>::empty());
        assert(start + seen_at(opponents.take(0), game.result) =~= start);
        while j < game.opponents.len()
            invariant
                game == &games@[i as int],
                opponents == game.opponents@,
                j <= opponents.len(),
                start == sightings(games@.take(i as int)),
                start.len() + seen_at(opponents, game.result).len() <= u32::MAX,
                seen == start + seen_at(opponents.take(j as int), game.result),
                table_of(out@, seen),
            decreases opponents.len() - j,
        {
            let label = trim_chars(chars_of(game.opponents[j].archetype.as_str()).as_slice());
            proof {
                assert(opponents.take(j + 1).drop_last() =~= opponents.take(j as int));
                assert(opponents.take(j + 1).last() == opponents[j as int]);
                lemma_seen_at_grows(opponents, game.result, j + 1);
            }
            if label.len() > 0 {
                assert(seen_at(opponents.take(j + 1), game.result) =~= seen_at(opponents.take(j as int), game.result).push((label@, game.result)));
                assert(seen.len() < u32::MAX);
                record(&mut out, label.as_slice(), game.result, Ghost(seen));
                proof {
                    assert(start + seen_at(opponents.take(j + 1), game.result) =~= seen.push((label@, game.result)));
                    seen = seen.push((label@, game.result));
                }
            } else {
                assert(start + seen_at(opponents.take(j + 1), game.result) =~= seen);
            }
            j = j + 1;
        }
        proof {
            assert(opponents.take(j as int) =~= opponents);
        }
        i = i + 1;
    }
    assert(games@.take(i as int) =~= games@);
    out
}

} // verus!
