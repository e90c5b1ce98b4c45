# mtg

Deck building and collection management for Magic: The Gathering, with the rules, parsers and
recognisers stated as contracts and proved with Verus.

## Layout

- `src/`: the verified library.
  - `color`, `mana`, `format`, `tag`: the card vocabulary (colour sets, mana costs, formats and
    legalities, functional tags).
  - `data`: the card catalog held in memory, name resolution and catalog search.
  - `deck`: decks, format rules, legality checking, statistics, decklist import and export.
  - `collection`: holdings, the merge rules for interchangeable copies, and the in-memory store.
  - `combo`: combo detection and Commander bracket estimation.
  - `optimizer`: deck profiles, the seeded generator, goldfish simulation counts, the land-drop
    horizon and spell curve, and the candidate filtering, swap proposals and net changes the
    search is made of.
  - `journal`: recorded games, the order the log is read in, and the counts win rates are
    read off.
  - `vision`: artwork hashes and their archive format, matching, voting over frames, cropping,
    and the whole-pixel stages of finding a card in a frame.
- `app/`: what stands around the library: the rkyv artifacts, the redb stores, the serde
  forms of the library's types, and everything computed in floating point (probabilities,
  scores, the annealing search, win rates, perspective geometry).
- `tests/`: the library's tests.
