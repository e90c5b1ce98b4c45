//! The order the game log is read in, and what can go wrong keeping it. The log itself lives
//! in an embedded database that the application opens; each game is stored as JSON under its
//! id.

use vstd::prelude::*;

use crate::journal::game::Game;
use crate::text::{chars_of, decimal, lemma_lex_total, lex_less, lex_less_exec, push_decimal, push_str, str_eq};

verus! {

/// Something went wrong reading or writing the game log.
#[derive(Debug)]
pub enum JournalError {
    /// A failure from the database, flattened to a message.
    Database(String),
    /// No game has this id.
    NotFound(u64),
    /// A stored game could not be read back.
    Corrupt(String),
}

impl JournalError {
    pub open spec fn message(&self) -> Seq<char> {
        match self {
            JournalError::Database(m) => "the game log could not be opened: "@ + m@,
            JournalError::NotFound(id) => "no game with id "@ + decimal(*id as nat),
            JournalError::Corrupt(m) => "a stored game could not be read: "@ + m@,
        }
    }

    pub fn to_string(&self) -> (r: String)
        ensures
            r@ == self.message(),
    {
        let mut out = String::new();
        match self {
            JournalError::Database(m) => {
                push_str(&mut out, "the game log could not be opened: ");
                push_str(&mut out, m.as_str());
            },
            JournalError::NotFound(id) => {
                push_str(&mut out, "no game with id ");
                push_decimal(&mut out, *id);
            },
            JournalError::Corrupt(m) => {
                push_str(&mut out, "a stored game could not be read: ");
                push_str(&mut out, m.as_str());
            },
        }
        assert(out@ =~= self.message());
        out
    }
}


/// `a` was played after `b`: on a later date, or on the same date and recorded later.
///
/// Dates are `YYYY-MM-DD`, so their text order is their calendar order.
pub open spec fn newer(a: Game, b: Game) -> bool {
    lex_less(b.played_at@, a.played_at@) || (a.played_at@ == b.played_at@ && a.id.0 > b.id.0)
}

/// No game comes after one newer than it.
pub open spec fn newest_first(s: Seq<Game>) -> bool {
    forall|i: int, j: int| 0 <= i < j < s.len() ==> !newer(#[trigger] s[j], #[trigger] s[i])
}

proof fn lemma_not_newer_trans(a: Game, b: Game, c: Game)
    requires
        !newer(a, b),
        !newer(b, c),
    ensures
        !newer(a, c),
{
    lemma_lex_total(a.played_at@, b.played_at@);
    lemma_lex_total(b.played_at@, c.played_at@);
    lemma_lex_total(a.played_at@, c.played_at@);
    if lex_less(c.played_at@, a.played_at@) {
        if lex_less(a.played_at@, b.played_at@) {
            crate::optimizer::search::lemma_lex_trans(c.played_at@, a.played_at@, b.played_at@);
        }
        if lex_less(b.played_at@, c.played_at@) {
            crate::optimizer::search::lemma_lex_trans(b.played_at@, c.played_at@, a.played_at@);
        }
    }
}

fn is_newer(a: &Game, b: &Game) -> (r: bool)
    ensures
        r == newer(*a, *b),
{
    let da = chars_of(a.played_at.as_str());
    let db = chars_of(b.played_at.as_str());
    lex_less_exec(db.as_slice(), da.as_slice()) || (str_eq(a.played_at.as_str(), b.played_at.as_str()) && a.id.0 > b.id.0)
}

/// Every game, most recent first: by the date it was played and, on one date, by id.
///
/// Sorted on the date rather than the id, because games are often entered days after they were
/// played and a log ordered by when it was typed is not a history of anything.
pub fn most_recent_first(games: Vec<Game>) -> (r: Vec<Game>)
    ensures
        r@.to_multiset() == games@.to_multiset(),
        newest_first(r@),
{
    broadcast use vstd::seq_lib::group_to_multiset_ensures;
    let mut rest = games;
    let mut out: Vec<Game> = Vec::new();
    while rest.len() > 0
        invariant
            out@.to_multiset().add(rest@.to_multiset()) == games@.to_multiset(),
            newest_first(out@),
        decreases rest@.len(),
    {
        let ghost before_rest = rest@;
        let ghost before_out = out@;
        let game = rest.pop().unwrap();
        proof {
            assert(before_rest == rest@.push(game));
        }
        let mut p: usize = 0;
        while p < out.len() && is_newer(&out[p], &game)
            invariant
                out@ == before_out,
                p <= out@.len(),
                forall|k: int| 0 <= k < p ==> newer(#[trigger] out@[k], game),
            decreases out@.len() - p,
        {
            p = p + 1;
        }
        out.insert(p, game);
        proof {
            let v = out@;
            assert(v == before_out.insert(p as int, game));
            assert forall|i: int, j: int| 0 <= i < j < v.len() implies !newer(#[trigger] v[j], #[trigger] v[i]) by {
                if j < p {
                    assert(v[i] == before_out[i] && v[j] == before_out[j]);
                } else if j == p {
                    assert(v[i] == before_out[i]);
                    assert(newer(before_out[i], game));
                    lemma_lex_total(before_out[i].played_at@, game.played_at@);
                } else if i < p {
                    assert(v[i] == before_out[i] && v[j] == before_out[j - 1]);
                    assert(newer(before_out[i], game));
                    assert(!newer(before_out[p as int], game));
                    if j - 1 > p {
                        assert(!newer(before_out[j - 1], before_out[p as int]));
                        lemma_not_newer_trans(before_out[j - 1], before_out[p as int], game);
                    }
                    lemma_lex_total(before_out[i].played_at@, game.played_at@);
                    if newer(before_out[j - 1], before_out[i]) {
                        // game would be newer than itself by way of the two.
                        lemma_lex_total(game.played_at@, game.played_at@);
                        lemma_lex_total(before_out[j - 1].played_at@, before_out[i].played_at@);
                        if lex_less(game.played_at@, before_out[i].played_at@) && lex_less(before_out[i].played_at@, before_out[j - 1].played_at@) {
                            crate::optimizer::search::lemma_lex_trans(game.played_at@, before_out[i].played_at@, before_out[j - 1].played_at@);
                        }
                    }
                } else if i == p {
                    assert(v[j] == before_out[j - 1]);
                    if j - 1 > p {
                        lemma_not_newer_trans(before_out[j - 1], before_out[p as int], game);
                    }
                } else {
                    assert(v[i] == before_out[i - 1] && v[j] == before_out[j - 1]);
                }
            }
            vstd::seq_lib::to_multiset_insert(before_out, p as int, game);
            vstd::seq_lib::to_multiset_build(rest@, game);
            assert(out@.to_multiset().add(rest@.to_multiset()) =~= before_out.to_multiset().add(before_rest.to_multiset()));
        }
    }
    proof {
        assert(rest@ =~= Seq::<Game>::empty());
        assert(rest@.to_multiset() =~= vstd::multiset::Multiset::empty());
        assert(out@.to_multiset().add(rest@.to_multiset()) =~= out@.to_multiset());
    }
    out
}

/// The games of `games` played with one deck, in order.
pub open spec fn of_deck(games: Seq<Game>, deck_id: u64) -> Seq<Game>
    decreases games.len(),
{
    if games.len() == 0 {
        Seq::empty()
    } else {
        let rest = of_deck(games.drop_last(), deck_id);
        if games.last().deck_id == deck_id {
            rest.push(games.last())
        } else {
            rest
        }
    }
}

/// Every game played with one deck, keeping the order they came in.
pub fn games_of_deck(games: Vec<Game>, deck_id: u64) -> (r: Vec<Game>)
    ensures
        r@ == of_deck(games@, deck_id),
{
    let ghost all = games@;
    let total = games.len();
    let mut rest = games;
    let mut kept: Vec<Game> = Vec::new();
    let mut i: usize = 0;
    while rest.len() > 0
        invariant
            i <= all.len(),
            all.len() == total,
            rest@ == all.skip(i as int),
            kept@ == of_deck(all.take(i as int), deck_id),
        decreases rest@.len(),
    {
        let game = rest.remove(0);
        proof {
            assert(all.take(i + 1).drop_last() =~= all.take(i as int));
            assert(all.take(i + 1).last() == all[i as int]);
            assert(all.skip(i as int)[0] == all[i as int]);
            assert(rest@ =~= all.skip(i + 1));
        }
        if game.deck_id == deck_id {
            kept.push(game);
        }
        i = i + 1;
    }
    assert(all.take(i as int) =~= all);
    kept
}

} // verus!
