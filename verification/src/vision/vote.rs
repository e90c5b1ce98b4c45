//! Turning a stream of per-frame guesses into a decision.
//!
//! A single frame is not evidence. Focus drifts, a hand crosses the lens, the card catches a
//! reflection: any one frame can match the wrong card, and a wrong card added silently to a
//! collection is the failure people would actually notice. Requiring the same answer from
//! several recent frames costs a fraction of a second and removes nearly all of that.
//!
//! The second job here is not re-emitting. Holding a card in front of a camera for two seconds
//! is thirty frames; the scanner should add it once and then wait for the next card.

use vstd::prelude::*;

use crate::text::{chars_of, str_eq, string_of};
use crate::vision::matcher::Match;

verus! {

/// How many recent frames are remembered.
pub const DEFAULT_WINDOW: usize = 12;

/// How many of them must agree before a card is confirmed: five out of twelve, so a card can
/// be confirmed in five frames when recognition is clean, and still be confirmed when a third
/// of the frames are unusable.
pub const DEFAULT_NEEDED: usize = 5;

/// Frames without any match that mean the card has left: long enough to survive a blink of
/// blur, short enough that scanning a stack is not tedious.
pub const DEFAULT_CLEAR_AFTER: usize = 6;

#[derive(Debug, Clone, Copy, PartialEq, Eq, Structural)]
pub struct VoteSettings {
    pub window: usize,
    pub needed: usize,
    pub clear_after: usize,
}

impl Default for VoteSettings {
    fn default() -> (r: VoteSettings)
        ensures
            r == (VoteSettings { window: DEFAULT_WINDOW, needed: DEFAULT_NEEDED, clear_after: DEFAULT_CLEAR_AFTER }),
    {
        VoteSettings { window: DEFAULT_WINDOW, needed: DEFAULT_NEEDED, clear_after: DEFAULT_CLEAR_AFTER }
    }
}

/// What the scanner has to say about a frame.
#[derive(Debug, Clone, PartialEq, Eq)]
pub enum Outcome {
    /// Nothing recognisable. Show the viewfinder guide.
    Searching,
    /// A card is matching but has not convinced enough frames yet: worth showing as progress,
    /// since it tells the user to hold still rather than move on.
    Tracking { card: Box<Match>, votes: usize, needed: usize },
    /// Confirmed. Emitted exactly once per card presented: act on this.
    Confirmed(Box<Match>),
    /// The card just confirmed is still in view. Nothing to do.
    Holding,
}

/// What a voter remembers: the cards of the recent frames, oldest first, the card already
/// reported, and how many frames in a row have matched nothing.
pub struct Tally {
    pub recent: Seq<Option<Seq<char>>>,
    pub settled: Option<Seq<char>>,
    pub misses: nat,
}

/// The card a frame matched, by oracle id.
pub open spec fn card_of(found: Option<Match>) -> Option<Seq<char>> {
    match found {
        Some(m) => Some(m.oracle_id@),
        None => None,
    }
}

/// Frames among `recent` that matched the card `oracle`.
pub open spec fn votes_for(recent: Seq<Option<Seq<char>>>, oracle: Seq<char>) -> nat
    decreases recent.len(),
{
    if recent.len() == 0 {
        0
    } else {
        votes_for(recent.drop_last(), oracle) + (if recent.last() == Some(oracle) { 1nat } else { 0nat })
    }
}

/// The last `keep` frames of a list, or all of it if it is shorter.
pub open spec fn last_frames(recent: Seq<Option<Seq<char>>>, keep: nat) -> Seq<Option<Seq<char>>> {
    if recent.len() > keep {
        recent.skip(recent.len() - keep)
    } else {
        recent
    }
}

/// What one frame does: the voter's new memory, and what it answers.
///
/// A frame with no match counts towards the card having left; once it has been gone for
/// `clear_after` frames, the card already reported stops blocking the next one, including
/// another copy of the same card. The frame joins the window, which keeps its last `window`
/// frames (at least one). A card already reported is held; any other card is confirmed once
/// `needed` frames of the window agree on it, which clears the window so the next card starts
/// from nothing.
pub open spec fn step(settings: VoteSettings, t: Tally, found: Option<Match>) -> (Tally, Outcome) {
    let misses: nat = if found is None {
        if t.misses >= usize::MAX { t.misses } else { t.misses + 1 }
    } else {
        0
    };
    let cleared = t.settled is Some && misses >= settings.clear_after;
    let settled = if cleared { None } else { t.settled };
    let before = if cleared { Seq::empty() } else { t.recent };
    let keep: nat = if settings.window > 1 { settings.window as nat } else { 1 };
    let recent = last_frames(before.push(card_of(found)), keep);
    match found {
        None => (Tally { recent, settled, misses }, if settled is Some { Outcome::Holding } else { Outcome::Searching }),
        Some(card) => if settled == Some(card.oracle_id@) {
            (Tally { recent, settled, misses }, Outcome::Holding)
        } else {
            let votes = votes_for(recent, card.oracle_id@);
            if votes >= settings.needed {
                (Tally { recent: Seq::empty(), settled: Some(card.oracle_id@), misses }, Outcome::Confirmed(Box::new(card)))
            } else {
                (Tally { recent, settled, misses }, Outcome::Tracking { card: Box::new(card), votes: votes as usize, needed: settings.needed })
            }
        },
    }
}

/// Accumulates per-frame matches into confirmations.
#[derive(Debug)]
pub struct Voter {
    settings: VoteSettings,
    /// The oracle id each recent frame matched, oldest first.
    recent: Vec<Option<String>>,
    /// The card already reported, held until it leaves so it is not counted twice.
    settled: Option<String>,
    misses: usize,
}

pub open spec fn text_of(s: Option<String>) -> Option<Seq<char>> {
    match s {
        Some(t) => Some(t@),
        None => None,
    }
}

/// The card each of a list of frames matched.
pub open spec fn seen_view(v: Seq<Option<String>>) -> Seq<Option<Seq<char>>> {
    v.map_values(|f: Option<String>| text_of(f))
}

fn copy_text(s: &str) -> (r: String)
    ensures
        r@ == s@,
{
    string_of(chars_of(s).as_slice())
}

fn copy_seen(s: &Option<String>) -> (r: Option<String>)
    ensures
        text_of(r) == text_of(*s),
{
    match s {
        Some(t) => Some(copy_text(t.as_str())),
        None => None,
    }
}

impl Voter {
    pub closed spec fn settings(&self) -> VoteSettings {
        self.settings
    }

    pub closed spec fn tally(&self) -> Tally {
        Tally {
            recent: seen_view(self.recent@),
            settled: text_of(self.settled),
            misses: self.misses as nat,
        }
    }

    pub fn new(settings: VoteSettings) -> (r: Voter)
        ensures
            r.settings() == settings,
            r.tally().recent.len() == 0,
            r.tally().settled is None,
            r.tally().misses == 0,
    {
        Voter { settings, recent: Vec::new(), settled: None, misses: 0 }
    }

    /// Forgets everything, as when the camera restarts or the user changes destination.
    pub fn reset(&mut self)
        ensures
            final(self).settings() == old(self).settings(),
            final(self).tally().recent.len() == 0,
            final(self).tally().settled is None,
            final(self).tally().misses == 0,
    {
        self.recent = Vec::new();
        self.settled = None;
        self.misses = 0;
    }

    fn count_votes(&self, oracle_id: &str) -> (r: usize)
        ensures
            r == votes_for(self.tally().recent, oracle_id@),
    {
        let ghost view = self.tally().recent;
        let mut count: usize = 0;
        let mut i: usize = 0;
        while i < self.recent.len()
            invariant
                view == seen_view(self.recent@),
                i <= self.recent@.len(),
                count == votes_for(view.take(i as int), oracle_id@),
                count <= i,
            decreases self.recent@.len() - i,
        {
            assert(view.take(i + 1).drop_last() =~= view.take(i as int));
            let hit = match &self.recent[i] {
                Some(seen) => str_eq(seen.as_str(), oracle_id),
                None => false,
            };
            if hit {
                count = count + 1;
            }
            i = i + 1;
        }
        assert(view.take(view.len() as int) =~= view);
        count
    }

    /// Feeds one frame's result and asks what to do about it.
    pub fn observe(&mut self, found: Option<Match>) -> (r: Outcome)
        ensures
            final(self).settings() == old(self).settings(),
            (final(self).tally(), r) == step(old(self).settings(), old(self).tally(), found),
    {
        let ghost t = self.tally();
        let ghost s = self.settings;
        match &found {
            None => {
                if self.misses < usize::MAX {
                    self.misses = self.misses + 1;
                }
            },
            Some(_) => {
                self.misses = 0;
            },
        }
        if self.settled.is_some() && self.misses >= self.settings.clear_after {
            self.settled = None;
            self.recent = Vec::new();
        }
        let seen = match &found {
            Some(card) => Some(copy_text(card.oracle_id.as_str())),
            None => None,
        };
        let ghost before = self.tally().recent;
        self.recent.push(seen);
        let keep = if self.settings.window > 1 { self.settings.window } else { 1 };
        assert(self.tally().recent =~= before.push(card_of(found)));
        if self.recent.len() > keep {
            let drop = self.recent.len() - keep;
            let mut kept: Vec<Option<String>> = Vec::new();
            let ghost all = self.tally().recent;
            let mut i: usize = drop;
            while i < self.recent.len()
                invariant
                    drop <= i <= self.recent@.len(),
                    all == seen_view(self.recent@),
                    all.len() == self.recent@.len(),
                    kept@.len() == i - drop,
                    seen_view(kept@) == all.subrange(drop as int, i as int),
                decreases self.recent@.len() - i,
            {
                let item = copy_seen(&self.recent[i]);
                assert(text_of(item) == all[i as int]);
                let ghost prior = kept@;
                kept.push(item);
                assert forall|k: int| 0 <= k < kept@.len() implies #[trigger] seen_view(kept@)[k]
                    == all.subrange(drop as int, i + 1)[k] by {
                    if k < prior.len() {
                        assert(kept@[k] == prior[k]);
                        assert(seen_view(prior)[k] == all.subrange(drop as int, i as int)[k]);
                        assert(seen_view(prior)[k] == text_of(prior[k]));
                    } else {
                        assert(kept@[k] == item);
                    }
                    assert(seen_view(kept@)[k] == text_of(kept@[k]));
                }
                assert(seen_view(kept@) =~= all.subrange(drop as int, i + 1));
                i = i + 1;
            }
            self.recent = kept;
            assert(self.tally().recent =~= last_frames(all, keep as nat));
        }
        assert(self.tally().recent == last_frames(before.push(card_of(found)), keep as nat));
        proof {
            let keep_n: nat = if s.window > 1 { s.window as nat } else { 1 };
            assert(keep_n == keep as nat);
            let misses: nat = if found is None {
                if t.misses >= usize::MAX { t.misses } else { t.misses + 1 }
            } else {
                0
            };
            assert(self.tally().misses == misses);
            let cleared = t.settled is Some && misses >= s.clear_after;
            assert(self.tally().settled == (if cleared { None } else { t.settled }));
            let b = if cleared { Seq::empty() } else { t.recent };
            assert(before == b);
            assert(self.tally().recent == last_frames(b.push(card_of(found)), keep_n));
        }
        match found {
            None => {
                if self.settled.is_some() {
                    Outcome::Holding
                } else {
                    Outcome::Searching
                }
            },
            Some(card) => {
                let already = match &self.settled {
                    Some(s) => str_eq(s.as_str(), card.oracle_id.as_str()),
                    None => false,
                };
                if already {
                    return Outcome::Holding;
                }
                let votes = self.count_votes(card.oracle_id.as_str());
                if votes >= self.settings.needed {
                    self.settled = Some(copy_text(card.oracle_id.as_str()));
                    self.recent = Vec::new();
                    assert(self.tally().recent =~= Seq::empty());
                    return Outcome::Confirmed(Box::new(card));
                }
                Outcome::Tracking { card: Box::new(card), votes, needed: self.settings.needed }
            },
        }
    }
}

impl Default for Voter {
    fn default() -> (r: Voter)
        ensures
            r.settings() == (VoteSettings { window: DEFAULT_WINDOW, needed: DEFAULT_NEEDED, clear_after: DEFAULT_CLEAR_AFTER }),
            r.tally().recent.len() == 0,
            r.tally().settled is None,
            r.tally().misses == 0,
    {
        Voter::new(VoteSettings { window: DEFAULT_WINDOW, needed: DEFAULT_NEEDED, clear_after: DEFAULT_CLEAR_AFTER })
    }
}

/// A card already confirmed is not confirmed again while it stays in view: a frame showing it
/// is answered with `Holding`, and the card stays reported (unless the settings clear a card
/// after no missed frames at all).
pub proof fn law_a_held_card_is_reported_once(settings: VoteSettings, t: Tally, card: Match)
    requires
        settings.clear_after > 0,
        t.settled == Some(card.oracle_id@),
    ensures
        step(settings, t, Some(card)).1 == Outcome::Holding,
        step(settings, t, Some(card)).0.settled == Some(card.oracle_id@),
{
}

/// Frames that match nothing never confirm anything.
pub proof fn law_an_empty_frame_confirms_nothing(settings: VoteSettings, t: Tally)
    ensures
        step(settings, t, None).1 == Outcome::Searching || step(settings, t, None).1 == Outcome::Holding,
{
}

/// A single frame is not evidence: from a fresh start, when more than one frame must agree,
/// the first match is only tracked, with one vote.
pub proof fn law_one_frame_is_not_enough(settings: VoteSettings, card: Match)
    requires
        settings.needed > 1,
    ensures
        step(settings, Tally { recent: Seq::empty(), settled: None, misses: 0 }, Some(card)).1 == (Outcome::Tracking {
            card: Box::new(card),
            votes: 1,
            needed: settings.needed,
        }),
{
    let seen: Seq<Option<Seq<char>>> = Seq::<Option<Seq<char>>>::empty().push(Some(card.oracle_id@));
    assert(seen.drop_last() =~= Seq::<Option<Seq<char>>>::empty());
    assert(votes_for(seen.drop_last(), card.oracle_id@) == 0);
    assert(seen.last() == Some(card.oracle_id@));
    assert(votes_for(seen, card.oracle_id@) == 1);
    assert(last_frames(seen, if settings.window > 1 { settings.window as nat } else { 1 }) == seen);
}

/// A confirmation clears the window, so the next card starts from nothing rather than
/// inheriting this one's tally.
pub proof fn law_a_confirmation_clears_the_window(settings: VoteSettings, t: Tally, found: Option<Match>)
    ensures
        step(settings, t, found).1 is Confirmed ==> step(settings, t, found).0.recent.len() == 0,
{
}

} // verus!
