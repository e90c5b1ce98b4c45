//! Reading and writing decklists as text.
//!
//! There is no decklist standard, only conventions, and every site exports a slightly
//! different one. Rather than ask which tool a list came from, the parser accepts all of them
//! at once; they do not actually conflict:
//!
//! ```text
//! Deck                              Arena and Moxfield use section headers
//! 4 Lightning Bolt (M21) 137        with an optional printing
//! 20 Mountain
//!
//! Sideboard
//! 2 Pyroblast
//!
//! SB: 2 Pyroblast                   MTGO marks the sideboard per line instead
//! 4x Lightning Bolt                 plain text often writes "4x"
//! // a comment                      and .dec comments start with //
//! ```
//!
//! Anything it cannot make sense of is reported rather than dropped, because a decklist that
//! silently imports 58 of 60 cards is worse than one that refuses.

use vstd::prelude::*;

use crate::data::card::ArchivedCard;
use crate::data::catalog::{resolution, Catalog, Resolution, Resolved};
use crate::deck::deck::{entry_views, merged_with, of_zone, slot_in, zone_total, Deck, DeckEntry, EntryView, Zone};
use crate::format::Format;
use crate::text::{
    ascii_alnum, ascii_lower, chars_of, count_leading_digits, count_leading_space, decimal,
    digits_to_u32, digits_value, find, find_char, is_space, leading_digits, lowered, push_decimal,
    push_str, rfind, rfind_char, slice_chars, str_eq, string_of, to_ascii_lower, to_lowercase,
    to_uppercase, trim, trim_chars, text_lines, lines_of, views, debug_quoted, quoted, trim_end, trim_end_chars, trim_end_matches,
    trim_end_matches_chars, trim_start, trim_start_chars, uppered, lower_cased, upper_cased, all_ascii, ascii_upper, char_is_space, ends_with,
};

verus! {

/// The zone a cleaned-up, lower-cased section heading names.
pub open spec fn heading_zone(s: Seq<char>) -> Option<Zone> {
    if s == "deck"@ || s == "main"@ || s == "maindeck"@ || s == "mainboard"@ || s
        == "main deck"@ {
        Some(Zone::Main)
    } else if s == "sideboard"@ || s == "side"@ || s == "companion"@ {
        // Companions live in the sideboard, which is where every exporter puts them.
        Some(Zone::Sideboard)
    } else if s == "commander"@ || s == "commanders"@ || s == "command zone"@ || s
        == "oathbreaker"@ {
        Some(Zone::Command)
    } else {
        None
    }
}

/// The zone a line names as a section heading: trimmed, trailing colons dropped, trimmed
/// again and lower-cased.
pub open spec fn section_spec(text: Seq<char>) -> Option<Zone> {
    heading_zone(lower_cased(trim(trim_end_matches(trim(text), seq![':']))))
}

fn section_of(text: &[char]) -> (r: Option<Zone>)
    ensures
        r == section_spec(text@),
{
    let a = trim_chars(text);
    let colon: Vec<char> = vec![':'];
    assert(colon@ =~= seq![':']);
    let b = trim_end_matches_chars(a.as_slice(), colon.as_slice());
    let c = trim_chars(b.as_slice());
    let cleaned = to_lowercase(string_of(c.as_slice()).as_str());
    let t = cleaned.as_str();
    if str_eq(t, "deck") || str_eq(t, "main") || str_eq(t, "maindeck") || str_eq(t, "mainboard")
        || str_eq(t, "main deck") {
        Some(Zone::Main)
    } else if str_eq(t, "sideboard") || str_eq(t, "side") || str_eq(t, "companion") {
        Some(Zone::Sideboard)
    } else if str_eq(t, "commander") || str_eq(t, "commanders") || str_eq(t, "command zone")
        || str_eq(t, "oathbreaker") {
        Some(Zone::Command)
    } else {
        None
    }
}

/// How a trailing printing splits off a card name: the name, the lower-cased set code and the
/// collector number. Only a last parenthesised group of two to six ASCII letters and digits
/// counts as a set code; card names really do contain parentheses (`Erase (Not the Urza's
/// Legacy One)` is a printed card) and eating those would corrupt the name.
pub open spec fn printing_of(text: Seq<char>) -> (Seq<char>, Seq<char>, Seq<char>) {
    let bare = (trim_end(text), Seq::<char>::empty(), Seq::<char>::empty());
    match rfind(text, '(') {
        None => bare,
        Some(open) => match find(text.skip(open), ')') {
            None => bare,
            Some(d) => {
                let close = open + d;
                let inside = text.subrange(open + 1, close);
                if 2 <= inside.len() <= 6 && (forall|i: int|
                    0 <= i < inside.len() ==> ascii_alnum(#[trigger] inside[i])) {
                    (
                        trim_end(text.take(open)),
                        inside.map_values(|c: char| ascii_lower(c)),
                        trim(text.skip(close + 1)),
                    )
                } else {
                    bare
                }
            },
        },
    }
}

fn split_printing_chars(text: &[char]) -> (r: (Vec<char>, Vec<char>, Vec<char>))
    ensures
        (r.0@, r.1@, r.2@) == printing_of(text@),
{
    let open = match rfind_char(text, '(') {
        Some(i) => i,
        None => {
            return (trim_end_chars(text), Vec::new(), Vec::new());
        },
    };
    let tail = slice_chars(text, open, text.len());
    assert(tail@ =~= text@.skip(open as int));
    proof {
        crate::text::lemma_find(tail@, ')');
    }
    let d = match find_char(tail.as_slice(), ')') {
        Some(d) => d,
        None => {
            return (trim_end_chars(text), Vec::new(), Vec::new());
        },
    };
    assert(tail@[0] == '(');
    assert(d < tail@.len() && tail@[d as int] == ')');
    let close = open + d;
    let inside = slice_chars(text, open + 1, close);
    let mut looks = 2 <= inside.len() && inside.len() <= 6;
    let mut i: usize = 0;
    while i < inside.len()
        invariant
            i <= inside@.len(),
            looks ==> 2 <= inside@.len() <= 6,
            looks ==> forall|k: int| 0 <= k < i ==> ascii_alnum(#[trigger] inside@[k]),
            !looks ==> !(2 <= inside@.len() <= 6 && (forall|k: int|
                0 <= k < inside@.len() ==> ascii_alnum(#[trigger] inside@[k]))),
        decreases inside@.len() - i,
    {
        let c = inside[i];
        if !(('0' <= c && c <= '9') || ('a' <= c && c <= 'z') || ('A' <= c && c <= 'Z')) {
            looks = false;
        }
        i = i + 1;
    }
    if !looks {
        return (trim_end_chars(text), Vec::new(), Vec::new());
    }
    let mut set_code: Vec<char> = Vec::new();
    let mut k: usize = 0;
    while k < inside.len()
        invariant
            k <= inside@.len(),
            set_code@ == inside@.take(k as int).map_values(|c: char| ascii_lower(c)),
        decreases inside@.len() - k,
    {
        set_code.push(to_ascii_lower(inside[k]));
        k = k + 1;
        assert(set_code@ =~= inside@.take(k as int).map_values(|c: char| ascii_lower(c)));
    }
    assert(inside@.take(inside@.len() as int) =~= inside@);
    let head = slice_chars(text, 0, open);
    let rest = slice_chars(text, close + 1, text.len());
    assert(head@ =~= text@.take(open as int));
    assert(rest@ =~= text@.skip(close + 1));
    assert(inside@ =~= text@.subrange(open + 1, close as int));
    assert(find(text@.skip(open as int), ')') == Some(d as int));
    (trim_end_chars(head.as_slice()), set_code, trim_chars(rest.as_slice()))
}

/// Splits a trailing `(SET) 137` off a card name.
///
/// Deliberately conservative: see [`printing_of`].
pub fn split_printing(text: &str) -> (r: (String, String, String))
    ensures
        (r.0@, r.1@, r.2@) == printing_of(text@),
{
    let cs = chars_of(text);
    let (name, set_code, number) = split_printing_chars(cs.as_slice());
    (string_of(name.as_slice()), string_of(set_code.as_slice()), string_of(number.as_slice()))
}

/// A parsed entry line, before any catalog lookup.
pub struct Parsed {
    pub quantity: u32,
    pub name: Seq<char>,
    pub set_code: Seq<char>,
    pub collector_number: Seq<char>,
    /// Set when the line marked its own zone, as MTGO's `SB:` does.
    pub zone: Option<Zone>,
}

/// What a line is, before any catalog lookup.
pub enum LineKind {
    Blank,
    Section(Zone),
    Entry(Parsed),
    Unrecognized(Seq<char>),
}

struct ParsedEntry {
    quantity: u32,
    name: String,
    set_code: String,
    collector_number: String,
    zone: Option<Zone>,
}

impl View for ParsedEntry {
    type V = Parsed;

    closed spec fn view(&self) -> Parsed {
        Parsed {
            quantity: self.quantity,
            name: self.name@,
            set_code: self.set_code@,
            collector_number: self.collector_number@,
            zone: self.zone,
        }
    }
}

enum Line {
    Blank,
    Section(Zone),
    Entry(ParsedEntry),
    Unrecognized(String),
}

impl View for Line {
    type V = LineKind;

    closed spec fn view(&self) -> LineKind {
        match self {
            Line::Blank => LineKind::Blank,
            Line::Section(z) => LineKind::Section(*z),
            Line::Entry(e) => LineKind::Entry(e@),
            Line::Unrecognized(t) => LineKind::Unrecognized(t@),
        }
    }
}

/// Foil and etched markers, which Deckbox and Moxfield append, removed from the end.
pub open spec fn unmark(s: Seq<char>) -> Seq<char> {
    let a = trim_end_matches(trim_end(s), "*F*"@);
    let b = trim_end_matches(trim_end(a), "*E*"@);
    let c = trim_end_matches(trim_end(b), "*f*"@);
    trim_end_matches(trim_end(c), "*e*"@)
}

/// What follows the quantity: an `x` right after it, as in "4x Lightning Bolt", goes when a
/// space follows it.
pub open spec fn after_quantity(rest: Seq<char>) -> Seq<char> {
    if rest.len() > 1 && (rest[0] == 'x' || rest[0] == 'X') && is_space(rest[1]) {
        trim_start(rest.drop_first())
    } else {
        rest
    }
}

/// What `4 Lightning Bolt (M21) 137 *F*` parses to, if it is an entry at all.
pub open spec fn entry_of(line: Seq<char>) -> Option<Parsed> {
    let n = leading_digits(line);
    let digits = line.take(n as int);
    if n == 0 || digits_value(digits) > u32::MAX {
        None
    } else {
        let rest = after_quantity(trim_start(line.skip(n as int)));
        if rest.len() == 0 {
            None
        } else {
            let split = printing_of(trim_end(unmark(rest)));
            if split.0.len() == 0 {
                None
            } else {
                Some(
                    Parsed {
                        quantity: digits_value(digits) as u32,
                        name: split.0,
                        set_code: split.1,
                        collector_number: split.2,
                        zone: None,
                    },
                )
            }
        }
    }
}

fn strip_marker(s: Vec<char>, marker: &str) -> (r: Vec<char>)
    requires
        marker@.len() > 0,
    ensures
        r@ == trim_end_matches(trim_end(s@), marker@),
{
    let t = trim_end_chars(s.as_slice());
    let m = chars_of(marker);
    trim_end_matches_chars(t.as_slice(), m.as_slice())
}

fn parse_entry(line: &[char]) -> (r: Option<ParsedEntry>)
    ensures
        r matches Some(e) ==> entry_of(line@) == Some(e@),
        r is None ==> entry_of(line@) is None,
{
    let n = count_leading_digits(line);
    if n == 0 {
        return None;
    }
    let digits = slice_chars(line, 0, n);
    assert(digits@ =~= line@.take(n as int));
    let quantity = match digits_to_u32(digits.as_slice()) {
        Some(q) => q,
        None => {
            return None;
        },
    };
    let after = slice_chars(line, n, line.len());
    assert(after@ =~= line@.skip(n as int));
    let mut rest = trim_start_chars(after.as_slice());
    if rest.len() > 1 && (rest[0] == 'x' || rest[0] == 'X') && char_is_space(rest[1]) {
        let stripped = slice_chars(rest.as_slice(), 1, rest.len());
        assert(stripped@ =~= rest@.drop_first());
        rest = trim_start_chars(stripped.as_slice());
    }
    if rest.len() == 0 {
        return None;
    }
    proof {
        reveal_strlit("*F*");
        reveal_strlit("*E*");
        reveal_strlit("*f*");
        reveal_strlit("*e*");
    }
    let name = strip_marker(rest, "*F*");
    let name = strip_marker(name, "*E*");
    let name = strip_marker(name, "*f*");
    let name = strip_marker(name, "*e*");
    let trimmed = trim_end_chars(name.as_slice());
    let (name, set_code, collector_number) = split_printing_chars(trimmed.as_slice());
    if name.len() == 0 {
        return None;
    }
    Some(
        ParsedEntry {
            quantity,
            name: string_of(name.as_slice()),
            set_code: string_of(set_code.as_slice()),
            collector_number: string_of(collector_number.as_slice()),
            zone: None,
        },
    )
}

/// True when a trimmed line opens with MTGO's `SB:` marker, in any case.
pub open spec fn sb_marked(line: Seq<char>) -> bool {
    line.len() >= 3 && ascii_lower(line[0]) == 's' && ascii_lower(line[1]) == 'b' && line[2] == ':'
}

/// How a raw line of a decklist reads.
pub open spec fn kind_of(raw: Seq<char>) -> LineKind {
    let line = trim(raw);
    if line.len() == 0 {
        LineKind::Blank
    } else if line.len() >= 2 && line[0] == '/' && line[1] == '/' {
        // `//` starts a comment in .dec files. It is also the separator inside a card name,
        // but a name never starts with it. Exporters often write the section as a comment.
        match section_spec(trim(line.skip(2))) {
            Some(zone) => LineKind::Section(zone),
            None => LineKind::Blank,
        }
    } else if line[0] == '#' {
        match section_spec(trim(line.skip(1))) {
            Some(zone) => LineKind::Section(zone),
            None => LineKind::Blank,
        }
    } else {
        let marked = sb_marked(line);
        let body = if marked {
            trim_start(line.skip(3))
        } else {
            line
        };
        match entry_of(body) {
            Some(p) => LineKind::Entry(
                Parsed {
                    zone: if marked {
                        Some(Zone::Sideboard)
                    } else {
                        None
                    },
                    ..p
                },
            ),
            // A line with no quantity is either a section header or something unusable.
            None => match section_spec(body) {
                Some(zone) => LineKind::Section(zone),
                None => LineKind::Unrecognized(body),
            },
        }
    }
}

fn classify(raw: &[char]) -> (r: Line)
    ensures
        r@ == kind_of(raw@),
{
    let line = trim_chars(raw);
    if line.len() == 0 {
        return Line::Blank;
    }
    if line.len() >= 2 && line[0] == '/' && line[1] == '/' {
        let rest = slice_chars(line.as_slice(), 2, line.len());
        assert(rest@ =~= line@.skip(2));
        let rest = trim_chars(rest.as_slice());
        return match section_of(rest.as_slice()) {
            Some(zone) => Line::Section(zone),
            None => Line::Blank,
        };
    }
    if line[0] == '#' {
        let rest = slice_chars(line.as_slice(), 1, line.len());
        assert(rest@ =~= line@.skip(1));
        let rest = trim_chars(rest.as_slice());
        return match section_of(rest.as_slice()) {
            Some(zone) => Line::Section(zone),
            None => Line::Blank,
        };
    }
    let marked = line.len() >= 3 && to_ascii_lower(line[0]) == 's' && to_ascii_lower(line[1])
        == 'b' && line[2] == ':';
    let body = if marked {
        let rest = slice_chars(line.as_slice(), 3, line.len());
        assert(rest@ =~= line@.skip(3));
        trim_start_chars(rest.as_slice())
    } else {
        line
    };
    match parse_entry(body.as_slice()) {
        Some(mut entry) => {
            entry.zone = if marked {
                Some(Zone::Sideboard)
            } else {
                None
            };
            Line::Entry(entry)
        },
        None => match section_of(body.as_slice()) {
            Some(zone) => Line::Section(zone),
            None => Line::Unrecognized(string_of(body.as_slice())),
        },
    }
}

/// How to write a decklist out.
#[derive(Debug, Clone, Copy, PartialEq, Eq, Structural)]
pub enum ExportStyle {
    /// Section headers and bare names. What most sites accept on paste.
    Plain,
    /// Section headers with the printing, as Arena expects.
    Arena,
    /// Flat, with `SB:` prefixes, as MTGO `.dec` expects.
    Mtgo,
}

/// One entry written out: `4 Lightning Bolt`, and in the Arena style the printing as well
/// when one is recorded (`4 Lightning Bolt (M21) 137`).
pub open spec fn entry_line(e: DeckEntry, style: ExportStyle) -> Seq<char> {
    if style == ExportStyle::Arena && e.set_code@.len() > 0 {
        decimal(e.quantity as nat) + " "@ + e.name@ + " ("@ + upper_cased(e.set_code@) + ") "@
            + e.collector_number@ + "\n"@
    } else {
        decimal(e.quantity as nat) + " "@ + e.name@ + "\n"@
    }
}

/// Entries written out one per line, MTGO's sideboard marker in front when `sb` holds.
pub open spec fn entry_lines(es: Seq<DeckEntry>, style: ExportStyle, sb: bool) -> Seq<char>
    decreases es.len(),
{
    if es.len() == 0 {
        Seq::empty()
    } else {
        entry_lines(es.drop_last(), style, sb) + (if sb {
            "SB: "@ + entry_line(es.last(), style)
        } else {
            entry_line(es.last(), style)
        })
    }
}

/// One zone under its heading, a blank line before it when another section came first; an
/// empty zone is left out altogether.
pub open spec fn section_block(entries: Seq<DeckEntry>, zone: Zone, style: ExportStyle, after_another: bool) -> Seq<char> {
    let es = of_zone(entries, zone);
    if es.len() == 0 {
        Seq::empty()
    } else {
        (if after_another {
            "\n"@
        } else {
            Seq::empty()
        }) + zone.heading() + "\n"@ + entry_lines(es, style, false)
    }
}

/// A deck as text. MTGO has no headers and no command zone; commanders go in the main deck,
/// which is the closest the format can represent.
pub open spec fn exported(entries: Seq<DeckEntry>, style: ExportStyle) -> Seq<char> {
    let has_command = of_zone(entries, Zone::Command).len() > 0;
    let has_main = of_zone(entries, Zone::Main).len() > 0;
    if style == ExportStyle::Mtgo {
        entry_lines(of_zone(entries, Zone::Command), ExportStyle::Plain, false) + entry_lines(
            of_zone(entries, Zone::Main),
            ExportStyle::Plain,
            false,
        ) + entry_lines(of_zone(entries, Zone::Sideboard), ExportStyle::Plain, true)
    } else {
        section_block(entries, Zone::Command, style, false) + section_block(
            entries,
            Zone::Main,
            style,
            has_command,
        ) + section_block(entries, Zone::Sideboard, style, has_command || has_main)
    }
}

fn write_entry(out: &mut String, e: &DeckEntry, style: ExportStyle, sb: bool)
    ensures
        final(out)@ == old(out)@ + (if sb {
            "SB: "@ + entry_line(*e, style)
        } else {
            entry_line(*e, style)
        }),
{
    let ghost before = out@;
    if sb {
        push_str(out, "SB: ");
    }
    push_decimal(out, e.quantity as u64);
    push_str(out, " ");
    push_str(out, e.name.as_str());
    if style == ExportStyle::Arena && chars_of(e.set_code.as_str()).len() > 0 {
        push_str(out, " (");
        let upper = to_uppercase(e.set_code.as_str());
        push_str(out, upper.as_str());
        push_str(out, ") ");
        push_str(out, e.collector_number.as_str());
    }
    push_str(out, "\n");
    proof {
        if sb {
            assert(out@ =~= before + ("SB: "@ + entry_line(*e, style)));
        } else {
            assert(out@ =~= before + entry_line(*e, style));
        }
    }
}

fn write_zone(out: &mut String, deck: &Deck, zone: Zone, style: ExportStyle, sb: bool)
    ensures
        final(out)@ == old(out)@ + entry_lines(of_zone(deck.entries@, zone), style, sb),
{
    let es = deck.entries_in(zone);
    let ghost z = of_zone(deck.entries@, zone);
    let mut i: usize = 0;
    while i < es.len()
        invariant
            z == of_zone(deck.entries@, zone),
            es@.len() == z.len(),
            forall|k: int| 0 <= k < es@.len() ==> *es@[k] == z[k],
            i <= es@.len(),
            out@ == old(out)@ + entry_lines(z.take(i as int), style, sb),
        decreases es@.len() - i,
    {
        let e = es[i];
        let ghost before = out@;
        write_entry(out, e, style, sb);
        proof {
            assert(z.take(i + 1).drop_last() =~= z.take(i as int));
            assert(*e == z[i as int]);
        }
        i = i + 1;
    }
    assert(z.take(z.len() as int) =~= z);
}

fn write_block(out: &mut String, deck: &Deck, zone: Zone, style: ExportStyle, after_another: bool) -> (wrote: bool)
    ensures
        final(out)@ == old(out)@ + section_block(deck.entries@, zone, style, after_another),
        wrote == (of_zone(deck.entries@, zone).len() > 0),
{
    let es = deck.entries_in(zone);
    if es.len() == 0 {
        assert(old(out)@ + Seq::<char>::empty() =~= old(out)@);
        return false;
    }
    let ghost start = out@;
    if after_another {
        push_str(out, "\n");
    }
    push_str(out, zone.label());
    push_str(out, "\n");
    let ghost head = out@;
    write_zone(out, deck, zone, style, false);
    assert(out@ =~= start + section_block(deck.entries@, zone, style, after_another));
    true
}

/// Writes a deck as text.
pub fn export(deck: &Deck, style: ExportStyle) -> (r: String)
    ensures
        r@ == exported(deck.entries@, style),
{
    let mut out = String::new();
    if style == ExportStyle::Mtgo {
        write_zone(&mut out, deck, Zone::Command, ExportStyle::Plain, false);
        write_zone(&mut out, deck, Zone::Main, ExportStyle::Plain, false);
        write_zone(&mut out, deck, Zone::Sideboard, ExportStyle::Plain, true);
        assert(out@ =~= exported(deck.entries@, style));
        return out;
    }
    let has_command = write_block(&mut out, deck, Zone::Command, style, false);
    let has_main = write_block(&mut out, deck, Zone::Main, style, has_command);
    write_block(&mut out, deck, Zone::Sideboard, style, has_command || has_main);
    assert(out@ =~= exported(deck.entries@, style));
    out
}

/// Something the importer could not do.
#[derive(Debug, Clone, PartialEq, Eq)]
pub enum ImportProblem {
    /// The line is not blank, not a comment, and not `<quantity> <name>`.
    UnrecognizedLine { line: usize, text: String },
    /// No card of that name is in the catalog.
    UnknownCard { line: usize, name: String },
    /// The name is a face shared by several cards, so the importer will not guess.
    AmbiguousCard { line: usize, name: String, candidates: Vec<String> },
}

/// An import problem with its text as character sequences.
pub enum Problem {
    UnrecognizedLine { line: nat, text: Seq<char> },
    UnknownCard { line: nat, name: Seq<char> },
    AmbiguousCard { line: nat, name: Seq<char>, candidates: Seq<Seq<char>> },
}

impl View for ImportProblem {
    type V = Problem;

    open spec fn view(&self) -> Problem {
        match self {
            ImportProblem::UnrecognizedLine { line, text } => Problem::UnrecognizedLine {
                line: *line as nat,
                text: text@,
            },
            ImportProblem::UnknownCard { line, name } => Problem::UnknownCard {
                line: *line as nat,
                name: name@,
            },
            ImportProblem::AmbiguousCard { line, name, candidates } => Problem::AmbiguousCard {
                line: *line as nat,
                name: name@,
                candidates: candidates@.map_values(|c: String| c@),
            },
        }
    }
}

/// The problems of a list, in order.
pub open spec fn problem_views(v: Seq<ImportProblem>) -> Seq<Problem> {
    v.map_values(|p: ImportProblem| p@)
}

/// Strings joined with a separator between them.
pub open spec fn joined(parts: Seq<Seq<char>>, sep: Seq<char>) -> Seq<char>
    decreases parts.len(),
{
    if parts.len() == 0 {
        Seq::empty()
    } else if parts.len() == 1 {
        parts[0]
    } else {
        joined(parts.drop_last(), sep) + sep + parts.last()
    }
}

/// How a problem reads.
pub open spec fn problem_text(p: Problem) -> Seq<char> {
    match p {
        Problem::UnrecognizedLine { line, text } => "line "@ + decimal(line) + ": could not read "@
            + debug_quoted(text),
        Problem::UnknownCard { line, name } => "line "@ + decimal(line) + ": no card named "@
            + debug_quoted(name),
        Problem::AmbiguousCard { line, name, candidates } => "line "@ + decimal(line) + ": "@
            + debug_quoted(name) + " could be "@ + joined(candidates, " or "@)
            + " \u{2014} write the full name"@,
    }
}

impl ImportProblem {
    /// The problem as a message.
    pub fn to_string(&self) -> (r: String)
        ensures
            r@ == problem_text(self@),
    {
        let mut out = String::new();
        match self {
            ImportProblem::UnrecognizedLine { line, text } => {
                push_str(&mut out, "line ");
                push_decimal(&mut out, *line as u64);
                push_str(&mut out, ": could not read ");
                push_str(&mut out, quoted(text.as_str()).as_str());
            },
            ImportProblem::UnknownCard { line, name } => {
                push_str(&mut out, "line ");
                push_decimal(&mut out, *line as u64);
                push_str(&mut out, ": no card named ");
                push_str(&mut out, quoted(name.as_str()).as_str());
            },
            ImportProblem::AmbiguousCard { line, name, candidates } => {
                push_str(&mut out, "line ");
                push_decimal(&mut out, *line as u64);
                push_str(&mut out, ": ");
                push_str(&mut out, quoted(name.as_str()).as_str());
                push_str(&mut out, " could be ");
                let ghost head = out@;
                let ghost cs = candidates@.map_values(|c: String| c@);
                let mut i: usize = 0;
                while i < candidates.len()
                    invariant
                        i <= candidates@.len(),
                        cs == candidates@.map_values(|c: String| c@),
                        out@ == head + joined(cs.take(i as int), " or "@),
                    decreases candidates@.len() - i,
                {
                    let ghost before = out@;
                    if i > 0 {
                        push_str(&mut out, " or ");
                    }
                    push_str(&mut out, candidates[i].as_str());
                    proof {
                        assert(cs.take(i + 1).drop_last() =~= cs.take(i as int));
                        if i == 0 {
                            assert(joined(cs.take(1), " or "@) == cs[0]);
                        }
                        assert(out@ =~= head + joined(cs.take(i + 1), " or "@));
                    }
                    i = i + 1;
                }
                assert(cs.take(candidates@.len() as int) =~= cs);
                push_str(&mut out, " \u{2014} write the full name");
            },
        }
        proof {
            assert(out@ =~= problem_text(self@));
        }
        out
    }
}

/// The outcome of importing a decklist.
#[derive(Debug, Clone)]
pub struct ImportResult {
    pub deck: Deck,
    /// Empty when everything was understood. Never silently discarded.
    pub problems: Vec<ImportProblem>,
}

impl ImportResult {
    pub fn is_complete(&self) -> (r: bool)
        ensures
            r == (self.problems@.len() == 0),
    {
        self.problems.len() == 0
    }
}

/// Where an import stands after some lines: the zone unmarked lines go to, the entries so
/// far and the problems so far.
pub struct ImportState {
    pub zone: Zone,
    pub entries: Seq<EntryView>,
    pub problems: Seq<Problem>,
}

/// What one line, numbered from one, does to an import.
pub open spec fn import_step(st: ImportState, raw: Seq<char>, number: nat, cards: Seq<ArchivedCard>) -> ImportState {
    match kind_of(raw) {
        LineKind::Blank => st,
        LineKind::Section(zone) => ImportState { zone, ..st },
        LineKind::Unrecognized(text) => ImportState {
            problems: st.problems.push(Problem::UnrecognizedLine { line: number, text }),
            ..st
        },
        LineKind::Entry(p) => {
            let target = match p.zone {
                Some(z) => z,
                None => st.zone,
            };
            match resolution(cards, p.name) {
                Resolved::Found(i) => ImportState {
                    entries: merged_with(
                        st.entries,
                        EntryView {
                            oracle_id: cards[i].oracle_id@,
                            name: cards[i].name@,
                            quantity: p.quantity,
                            zone: target,
                            set_code: p.set_code,
                            collector_number: p.collector_number,
                        },
                    ),
                    ..st
                },
                Resolved::Ambiguous(ids) => ImportState {
                    problems: st.problems.push(
                        Problem::AmbiguousCard {
                            line: number,
                            name: p.name,
                            candidates: ids.map_values(|i: int| cards[i].name@),
                        },
                    ),
                    ..st
                },
                Resolved::NotFound => ImportState {
                    problems: st.problems.push(Problem::UnknownCard { line: number, name: p.name }),
                    ..st
                },
            }
        },
    }
}

/// An import after its first `n` lines. Lists that open straight into cards are main deck;
/// a header changes where unmarked lines go from there on.
pub open spec fn import_upto(lines: Seq<Seq<char>>, cards: Seq<ArchivedCard>, n: nat) -> ImportState
    decreases n,
{
    if n == 0 {
        ImportState { zone: Zone::Main, entries: Seq::empty(), problems: Seq::empty() }
    } else {
        import_step(import_upto(lines, cards, (n - 1) as nat), lines[n - 1], n, cards)
    }
}

/// Parses a decklist and resolves it against the catalog.
pub fn import(text: &str, name: &str, format: Format, catalog: &Catalog) -> (r: ImportResult)
    requires
        catalog.wf(),
    ensures
        r.deck.name@ == name@,
        r.deck.format == format,
        r.deck.notes@.len() == 0,
        entry_views(r.deck.entries@) == import_upto(
            text_lines(text@),
            catalog.cards_view(),
            text_lines(text@).len(),
        ).entries,
        problem_views(r.problems@) == import_upto(
            text_lines(text@),
            catalog.cards_view(),
            text_lines(text@).len(),
        ).problems,
{
    let mut deck = Deck::new(name, format);
    let mut problems: Vec<ImportProblem> = Vec::new();
    let mut zone = Zone::Main;
    let lines = lines_of(text);
    let ghost ls = text_lines(text@);
    let ghost cards = catalog.cards_view();
    let mut index: usize = 0;
    assert(entry_views(deck.entries@) =~= Seq::<EntryView>::empty());
    assert(problem_views(problems@) =~= Seq::<Problem>::empty());
    while index < lines.len()
        invariant
            catalog.wf(),
            cards == catalog.cards_view(),
            views(lines@) == ls,
            index <= lines@.len(),
            deck.name@ == name@,
            deck.format == format,
            deck.notes@.len() == 0,
            import_upto(ls, cards, index as nat).zone == zone,
            import_upto(ls, cards, index as nat).entries == entry_views(deck.entries@),
            import_upto(ls, cards, index as nat).problems == problem_views(problems@),
        decreases lines@.len() - index,
    {
        let line_number = index + 1;
        assert(ls[index as int] == lines@[index as int]@);
        let ghost before_problems = problems@;
        match classify(lines[index].as_slice()) {
            Line::Blank => {},
            Line::Section(z) => {
                zone = z;
            },
            Line::Unrecognized(t) => {
                problems.push(ImportProblem::UnrecognizedLine { line: line_number, text: t });
                assert(problem_views(problems@) =~= problem_views(before_problems).push(problems@.last()@));
            },
            Line::Entry(entry) => {
                let target = match entry.zone {
                    Some(z) => z,
                    None => zone,
                };
                match catalog.resolve(entry.name.as_str()) {
                    Resolution::Found(_, card) => {
                        let e = DeckEntry::new(card.oracle_id(), card.name(), entry.quantity).in_zone(
                            target,
                        ).printed_as(entry.set_code.as_str(), entry.collector_number.as_str());
                        deck.add(e);
                    },
                    Resolution::Ambiguous(candidates) => {
                        let mut names: Vec<String> = Vec::new();
                        let mut k: usize = 0;
                        while k < candidates.len()
                            invariant
                                k <= candidates@.len(),
                                names@.len() == k,
                                forall|j: int| 0 <= j < k ==> (#[trigger] names@[j])@ == candidates@[j].1.name@,
                            decreases candidates@.len() - k,
                        {
                            names.push(string_of(chars_of(candidates[k].1.name()).as_slice()));
                            k = k + 1;
                        }
                        let ghost ids = match resolution(cards, entry.name@) {
                            Resolved::Ambiguous(ids) => ids,
                            _ => Seq::empty(),
                        };
                        assert(names@.map_values(|c: String| c@) =~= ids.map_values(|i: int| cards[i].name@));
                        problems.push(
                            ImportProblem::AmbiguousCard {
                                line: line_number,
                                name: entry.name,
                                candidates: names,
                            },
                        );
                        assert(problem_views(problems@) =~= problem_views(before_problems).push(problems@.last()@));
                    },
                    Resolution::NotFound => {
                        problems.push(ImportProblem::UnknownCard { line: line_number, name: entry.name });
                        assert(problem_views(problems@) =~= problem_views(before_problems).push(problems@.last()@));
                    },
                }
            },
        }
        index = index + 1;
    }
    ImportResult { deck, problems }
}


/// A card name an exported line reads back unchanged: not empty, without surrounding space or
/// line breaks, not opening with an `x` and a space (which reads as part of a quantity like
/// `4x`), not ending in a foil or etched marker, and without a parenthesis (which could read as
/// a printing).
pub open spec fn plain_name(name: Seq<char>) -> bool {
    &&& name.len() > 0
    &&& !is_space(name[0])
    &&& !is_space(name.last())
    &&& !(name.len() > 1 && (name[0] == 'x' || name[0] == 'X') && is_space(name[1]))
    &&& !ends_with(name, "*F*"@) && !ends_with(name, "*E*"@) && !ends_with(name, "*f*"@) && !ends_with(name, "*e*"@)
    &&& forall|i: int| 0 <= i < name.len() ==> #[trigger] name[i] != '(' && name[i] != '\n'
}

proof fn lemma_trim_end_stays(s: Seq<char>)
    requires
        s.len() > 0,
        !is_space(s.last()),
    ensures
        trim_end(s) == s,
{
    assert(crate::text::trailing_space(s) == 0);
    assert(s.take(s.len() as int) =~= s);
}

proof fn lemma_unmarked_stays(s: Seq<char>, marker: Seq<char>)
    requires
        s.len() > 0,
        !is_space(s.last()),
        marker.len() > 0,
        !ends_with(s, marker),
    ensures
        trim_end_matches(trim_end(s), marker) == s,
{
    lemma_trim_end_stays(s);
}

proof fn lemma_no_open_paren(s: Seq<char>)
    requires
        forall|i: int| 0 <= i < s.len() ==> #[trigger] s[i] != '(',
    ensures
        rfind(s, '(') is None,
    decreases s.len(),
{
    if s.len() > 0 {
        assert(s.last() == s[s.len() - 1]);
        assert forall|i: int| 0 <= i < s.drop_last().len() implies #[trigger] s.drop_last()[i] != '(' by {
            assert(s.drop_last()[i] == s[i]);
        }
        lemma_no_open_paren(s.drop_last());
    }
}

/// The line an entry is written as, without its line break, in the styles that write no
/// printing: the quantity, a space and the name.
pub open spec fn plain_line(quantity: u32, name: Seq<char>) -> Seq<char> {
    decimal(quantity as nat) + " "@ + name
}

proof fn lemma_plain_line_entry(quantity: u32, name: Seq<char>)
    requires
        plain_name(name),
    ensures
        trim(plain_line(quantity, name)) == plain_line(quantity, name),
        plain_line(quantity, name)[0] != '/' && plain_line(quantity, name)[0] != '#',
        '0' <= plain_line(quantity, name)[0] <= '9',
        entry_of(plain_line(quantity, name)) == Some(
            Parsed { quantity, name, set_code: Seq::empty(), collector_number: Seq::empty(), zone: None },
        ),
{
    reveal_strlit(" ");
    reveal_strlit("*F*");
    reveal_strlit("*E*");
    reveal_strlit("*f*");
    reveal_strlit("*e*");
    let d = decimal(quantity as nat);
    let line = plain_line(quantity, name);
    crate::text::lemma_decimal_digits(quantity as nat);
    let n = d.len();
    assert(line[0] == d[0]);
    assert(line.last() == name.last());
    // Trimming changes nothing: a digit opens the line and the name closes it.
    assert(crate::text::leading_space(line) == 0);
    assert(crate::text::trailing_space(line) == 0);
    assert(line.skip(0) =~= line);
    assert(line.take(line.len() as int) =~= line);
    // The quantity is the run of digits before the space.
    assert(line[n as int] == ' ');
    crate::text::lemma_leading_digits_is_first(line, n as int);
    assert(line.take(n as int) =~= d);
    // What follows the quantity is the name.
    let after = line.skip(n as int);
    assert(after =~= " "@ + name);
    assert(after.drop_first() =~= name);
    assert(after[0] == ' ');
    assert(crate::text::leading_space(name) == 0);
    assert(crate::text::leading_space(after) == 1);
    assert(trim_start(after) =~= name);
    // No marker, no printing: the name comes through whole.
    lemma_unmarked_stays(name, "*F*"@);
    lemma_unmarked_stays(name, "*E*"@);
    lemma_unmarked_stays(name, "*f*"@);
    lemma_unmarked_stays(name, "*e*"@);
    assert(unmark(name) == name);
    lemma_trim_end_stays(name);
    lemma_no_open_paren(name);
}

/// A printing a line carries unchanged behind `name`: a set code of two to six ASCII letters
/// and digits, and a collector number of ASCII letters and digits. A name of a lone `x` would
/// read as the `x` of a quantity like `4x` once a printing follows it.
pub open spec fn plain_printing(name: Seq<char>, set_code: Seq<char>, collector_number: Seq<char>) -> bool {
    &&& !(name.len() == 1 && (name[0] == 'x' || name[0] == 'X'))
    &&& 2 <= set_code.len() <= 6
    &&& (forall|i: int| 0 <= i < set_code.len() ==> ascii_alnum(#[trigger] set_code[i]))
    &&& collector_number.len() > 0
    &&& (forall|i: int| 0 <= i < collector_number.len() ==> ascii_alnum(#[trigger] collector_number[i]))
}

/// The line an entry is written as in Arena's style when it records a printing, without its
/// line break.
pub open spec fn printed_line(quantity: u32, name: Seq<char>, set_code: Seq<char>, collector_number: Seq<char>) -> Seq<char> {
    plain_line(quantity, name) + " ("@ + upper_cased(set_code) + ") "@ + collector_number
}

proof fn lemma_upper_alnum(set_code: Seq<char>)
    requires
        forall|i: int| 0 <= i < set_code.len() ==> ascii_alnum(#[trigger] set_code[i]),
    ensures
        upper_cased(set_code).len() == set_code.len(),
        forall|i: int|
            0 <= i < set_code.len() ==> ascii_alnum(#[trigger] upper_cased(set_code)[i]),
{
    assert forall|i: int| 0 <= i < set_code.len() implies (#[trigger] set_code[i] as u32) < 128 by {
        assert(ascii_alnum(set_code[i]));
    }
    assert(all_ascii(set_code));
    assert forall|i: int| 0 <= i < set_code.len() implies ascii_alnum(#[trigger] upper_cased(set_code)[i]) by {
        assert(upper_cased(set_code)[i] == ascii_upper(set_code[i]));
        assert(ascii_alnum(set_code[i]));
    }
}

proof fn lemma_no_marker(rest: Seq<char>, marker: Seq<char>)
    requires
        rest.len() > 0,
        marker.len() > 0,
        marker.last() == '*',
        rest.last() != '*',
    ensures
        !ends_with(rest, marker),
{
    if ends_with(rest, marker) {
        assert(rest.skip(rest.len() - marker.len())[marker.len() - 1] == rest.last());
    }
}

proof fn lemma_printed_unmarked(rest: Seq<char>)
    requires
        rest.len() > 0,
        ascii_alnum(rest.last()),
    ensures
        unmark(rest) == rest,
        trim_end(rest) == rest,
{
    reveal_strlit("*F*");
    reveal_strlit("*E*");
    reveal_strlit("*f*");
    reveal_strlit("*e*");
    assert(!is_space(rest.last()));
    lemma_no_marker(rest, "*F*"@);
    lemma_no_marker(rest, "*E*"@);
    lemma_no_marker(rest, "*f*"@);
    lemma_no_marker(rest, "*e*"@);
    lemma_unmarked_stays(rest, "*F*"@);
    lemma_unmarked_stays(rest, "*E*"@);
    lemma_unmarked_stays(rest, "*f*"@);
    lemma_unmarked_stays(rest, "*e*"@);
    lemma_trim_end_stays(rest);
}

proof fn lemma_printed_split(name: Seq<char>, up: Seq<char>, cn: Seq<char>)
    requires
        plain_name(name),
        2 <= up.len() <= 6,
        forall|i: int| 0 <= i < up.len() ==> ascii_alnum(#[trigger] up[i]),
        forall|i: int| 0 <= i < cn.len() ==> ascii_alnum(#[trigger] cn[i]),
    ensures
        printing_of(name + " ("@ + up + ") "@ + cn).0 == name,
{
    reveal_strlit(" ");
    reveal_strlit(" (");
    reveal_strlit(") ");
    let rest = name + " ("@ + up + ") "@ + cn;
    let nl = name.len() as int;
    let ul = up.len() as int;
    let open = nl + 1;
    assert(rest[open] == '(');
    assert forall|k: int| open + 1 <= k < rest.len() implies #[trigger] rest[k] != '(' by {
        if k < nl + 2 + ul {
            assert(rest[k] == up[k - nl - 2]);
            assert(ascii_alnum(up[k - nl - 2]));
        } else if k >= nl + 4 + ul {
            assert(rest[k] == cn[k - nl - 4 - ul]);
            assert(ascii_alnum(cn[k - nl - 4 - ul]));
        }
    }
    crate::text::lemma_rfind_is_last(rest, '(', open + 1);
    let from = rest.skip(open);
    assert forall|k: int| 0 <= k < ul + 1 implies #[trigger] from[k] != ')' by {
        assert(from[k] == rest[open + k]);
        if k > 0 {
            assert(rest[open + k] == up[k - 1]);
            assert(ascii_alnum(up[k - 1]));
        }
    }
    assert(from[ul + 1] == rest[nl + 2 + ul]);
    crate::text::lemma_find_is_first(from, ')', ul + 1);
    let close = open + ul + 1;
    assert(rest.subrange(open + 1, close) =~= up);
    let t = rest.take(open);
    assert(t =~= name + " "@);
    assert(t.drop_last() =~= name);
    assert(name.last() == name[nl - 1]);
    assert(crate::text::trailing_space(name) == 0);
    assert(crate::text::trailing_space(t) == 1);
    assert(trim_end(t) =~= name);
}

proof fn lemma_printed_rest(name: Seq<char>, up: Seq<char>, cn: Seq<char>)
    requires
        plain_name(name),
        !(name.len() == 1 && (name[0] == 'x' || name[0] == 'X')),
        2 <= up.len() <= 6,
        forall|i: int| 0 <= i < up.len() ==> ascii_alnum(#[trigger] up[i]),
        cn.len() > 0,
        forall|i: int| 0 <= i < cn.len() ==> ascii_alnum(#[trigger] cn[i]),
    ensures
        ({
            let rest = name + " ("@ + up + ") "@ + cn;
            &&& rest.len() > 0
            &&& !is_space(rest[0])
            &&& ascii_alnum(rest.last())
            &&& after_quantity(rest) == rest
            &&& forall|j: int| 0 <= j < rest.len() ==> #[trigger] rest[j] != '\n'
        }),
{
    reveal_strlit(" (");
    reveal_strlit(") ");
    let rest = name + " ("@ + up + ") "@ + cn;
    let nl = name.len() as int;
    let ul = up.len() as int;
    assert(rest.len() == nl + 4 + ul + cn.len());
    assert(rest.last() == cn[cn.len() - 1]);
    assert(rest[0] == name[0]);
    if nl > 1 {
        assert(rest[1] == name[1]);
    }
    assert forall|j: int| 0 <= j < rest.len() implies #[trigger] rest[j] != '\n' by {
        if j < nl {
            assert(rest[j] == name[j]);
        } else if j >= nl + 2 && j < nl + 2 + ul {
            assert(rest[j] == up[j - nl - 2]);
            assert(ascii_alnum(up[j - nl - 2]));
        } else if j >= nl + 4 + ul {
            assert(rest[j] == cn[j - nl - 4 - ul]);
            assert(ascii_alnum(cn[j - nl - 4 - ul]));
        }
    }
}

proof fn lemma_printed_line_entry(quantity: u32, name: Seq<char>, set_code: Seq<char>, collector_number: Seq<char>)
    requires
        plain_name(name),
        plain_printing(name, set_code, collector_number),
    ensures
        kind_of(printed_line(quantity, name, set_code, collector_number)) matches LineKind::Entry(p)
            && p.quantity == quantity && p.name == name && p.zone is None,
        forall|i: int|
            0 <= i < printed_line(quantity, name, set_code, collector_number).len() ==> #[trigger] printed_line(
                quantity,
                name,
                set_code,
                collector_number,
            )[i] != '\n',
{
    reveal_strlit(" ");
    reveal_strlit(" (");
    reveal_strlit(") ");
    let d = decimal(quantity as nat);
    crate::text::lemma_decimal_digits(quantity as nat);
    let cn = collector_number;
    lemma_upper_alnum(set_code);
    let up = upper_cased(set_code);
    lemma_printed_rest(name, up, cn);
    let rest = name + " ("@ + up + ") "@ + cn;
    let line = d + " "@ + rest;
    assert(line =~= printed_line(quantity, name, set_code, collector_number));
    let n = d.len() as int;
    assert forall|i: int| 0 <= i < line.len() implies #[trigger] line[i] != '\n' by {
        if i < n {
            assert(line[i] == d[i]);
        } else if i > n {
            assert(line[i] == rest[i - n - 1]);
        }
    }
    assert(line[0] == d[0]);
    assert(line.last() == rest.last());
    assert(!is_space(rest.last()));
    assert(crate::text::leading_space(line) == 0);
    assert(crate::text::trailing_space(line) == 0);
    assert(line.skip(0) =~= line);
    assert(line.take(line.len() as int) =~= line);
    assert(trim(line) == line);
    assert(!sb_marked(line));
    assert(line[n] == ' ');
    crate::text::lemma_leading_digits_is_first(line, n);
    assert(line.take(n) =~= d);
    let after = line.skip(n);
    assert(after =~= " "@ + rest);
    assert(after.drop_first() =~= rest);
    assert(crate::text::leading_space(rest) == 0);
    assert(crate::text::leading_space(after) == 1);
    assert(trim_start(after) =~= rest);
    lemma_printed_unmarked(rest);
    lemma_printed_split(name, up, cn);
}

/// An exported entry line reads back as the entry: the quantity and the name it was written
/// with, and, behind MTGO's `SB:` marker, the sideboard. This holds of every card name that a
/// line can carry unchanged (see [`plain_name`]).
pub proof fn law_an_exported_line_reads_back(quantity: u32, name: Seq<char>)
    requires
        plain_name(name),
    ensures
        kind_of(plain_line(quantity, name)) == LineKind::Entry(
            Parsed { quantity, name, set_code: Seq::empty(), collector_number: Seq::empty(), zone: None },
        ),
        kind_of("SB: "@ + plain_line(quantity, name)) == LineKind::Entry(
            Parsed { quantity, name, set_code: Seq::empty(), collector_number: Seq::empty(), zone: Some(Zone::Sideboard) },
        ),
{
    reveal_strlit("SB: ");
    reveal_strlit(" ");
    lemma_plain_line_entry(quantity, name);
    let line = plain_line(quantity, name);
    assert(line.len() > 0);
    assert(!sb_marked(line));
    let marked = "SB: "@ + line;
    assert(marked[0] == 'S' && marked[1] == 'B' && marked[2] == ':' && marked[3] == ' ');
    assert(marked.last() == line.last());
    assert(crate::text::leading_space(marked) == 0);
    assert(crate::text::trailing_space(marked) == crate::text::trailing_space(line)) by {
        assert(marked.drop_last() =~= "SB: "@ + line.drop_last());
    }
    assert(trim(marked) =~= marked) by {
        assert(marked.skip(0) =~= marked);
        assert(marked.take(marked.len() as int) =~= marked);
    }
    assert(sb_marked(marked));
    let rest = marked.skip(3);
    assert(rest =~= " "@ + line);
    assert(crate::text::leading_space(rest) == 1) by {
        assert(rest.drop_first() =~= line);
    }
    assert(trim_start(rest) =~= line);
}
/// Copies in one zone of a list of entry views.
pub open spec fn views_total(vs: Seq<EntryView>, zone: Zone) -> nat
    decreases vs.len(),
{
    if vs.len() == 0 {
        0
    } else {
        views_total(vs.drop_last(), zone) + (if vs.last().zone == zone {
            vs.last().quantity as nat
        } else {
            0
        })
    }
}

proof fn lemma_views_total_of(es: Seq<DeckEntry>, zone: Zone)
    ensures
        views_total(entry_views(es), zone) == zone_total(es, zone),
    decreases es.len(),
{
    if es.len() > 0 {
        assert(entry_views(es).drop_last() =~= entry_views(es.drop_last()));
        lemma_views_total_of(es.drop_last(), zone);
    }
}

proof fn lemma_views_total_update(vs: Seq<EntryView>, i: int, v: EntryView, zone: Zone)
    requires
        0 <= i < vs.len(),
        vs[i].zone == v.zone,
    ensures
        views_total(vs.update(i, v), zone) + (if v.zone == zone {
            vs[i].quantity as int
        } else {
            0
        }) == views_total(vs, zone) + (if v.zone == zone {
            v.quantity as int
        } else {
            0
        }),
    decreases vs.len(),
{
    let u = vs.update(i, v);
    if i < vs.len() - 1 {
        assert(u.drop_last() =~= vs.drop_last().update(i, v));
        lemma_views_total_update(vs.drop_last(), i, v, zone);
    } else {
        assert(u.drop_last() =~= vs.drop_last());
    }
}

proof fn lemma_views_total_bounds(vs: Seq<EntryView>, i: int)
    requires
        0 <= i < vs.len(),
    ensures
        vs[i].quantity <= views_total(vs, vs[i].zone),
    decreases vs.len(),
{
    if i < vs.len() - 1 {
        assert(vs.drop_last()[i] == vs[i]);
        lemma_views_total_bounds(vs.drop_last(), i);
    }
}

proof fn lemma_slot_in_zone(vs: Seq<EntryView>, oracle: Seq<char>, zone: Zone)
    ensures
        slot_in(vs, oracle, zone) matches Some(i) ==> 0 <= i < vs.len() && vs[i].zone == zone,
    decreases vs.len(),
{
    if vs.len() > 0 {
        lemma_slot_in_zone(vs.drop_last(), oracle, zone);
        if let Some(i) = slot_in(vs.drop_last(), oracle, zone) {
            assert(vs.drop_last()[i] == vs[i]);
        }
    }
}

/// Adding an entry adds its copies to its zone, so long as the zone's count stays within
/// what a quantity can hold.
proof fn lemma_merged_total(vs: Seq<EntryView>, v: EntryView, zone: Zone)
    requires
        views_total(vs, v.zone) + v.quantity <= u32::MAX,
    ensures
        views_total(merged_with(vs, v), zone) == views_total(vs, zone) + (if v.zone == zone {
            v.quantity as nat
        } else {
            0
        }),
{
    lemma_slot_in_zone(vs, v.oracle_id, v.zone);
    match slot_in(vs, v.oracle_id, v.zone) {
        Some(i) => {
            lemma_views_total_bounds(vs, i);
            let w = EntryView { quantity: vs[i].quantity.saturating_add(v.quantity), ..vs[i] };
            assert(w.quantity == vs[i].quantity + v.quantity);
            lemma_views_total_update(vs, i, w, zone);
        },
        None => {
            assert(vs.push(v).drop_last() =~= vs);
        },
    }
}
/// The line MTGO's export writes for an entry, without its line break: the sideboard behind
/// its `SB:` marker, everything else, commanders included, as a main deck line.
pub open spec fn mtgo_line(e: DeckEntry) -> Seq<char> {
    if e.zone == Zone::Sideboard {
        "SB: "@ + plain_line(e.quantity, e.name@)
    } else {
        plain_line(e.quantity, e.name@)
    }
}

/// The lines MTGO's export writes for a list of entries, in order.
pub open spec fn mtgo_lines(es: Seq<DeckEntry>) -> Seq<Seq<char>> {
    es.map_values(|e: DeckEntry| mtgo_line(e))
}

/// Lines written one after another, each closed by a line break.
pub open spec fn broken(ls: Seq<Seq<char>>) -> Seq<char>
    decreases ls.len(),
{
    if ls.len() == 0 {
        Seq::empty()
    } else {
        broken(ls.drop_last()) + ls.last() + "\n"@
    }
}

proof fn lemma_broken_append(a: Seq<Seq<char>>, b: Seq<Seq<char>>)
    ensures
        broken(a + b) == broken(a) + broken(b),
    decreases b.len(),
{
    if b.len() == 0 {
        assert(a + b =~= a);
        assert(broken(a) + broken(b) =~= broken(a));
    } else {
        assert((a + b).drop_last() =~= a + b.drop_last());
        assert((a + b).last() == b.last());
        lemma_broken_append(a, b.drop_last());
        assert(broken(a + b) =~= broken(a) + broken(b));
    }
}

proof fn lemma_entry_lines_broken(es: Seq<DeckEntry>, sb: bool)
    requires
        forall|i: int| 0 <= i < es.len() ==> ((#[trigger] es[i]).zone == Zone::Sideboard) == sb,
    ensures
        entry_lines(es, ExportStyle::Plain, sb) == broken(mtgo_lines(es)),
    decreases es.len(),
{
    reveal_strlit("SB: ");
    let ls = mtgo_lines(es);
    if es.len() > 0 {
        assert(mtgo_lines(es.drop_last()) =~= ls.drop_last());
        assert forall|i: int| 0 <= i < es.drop_last().len() implies ((
        #[trigger] es.drop_last()[i]).zone == Zone::Sideboard) == sb by {
            assert(es.drop_last()[i] == es[i]);
        }
        lemma_entry_lines_broken(es.drop_last(), sb);
        let e = es.last();
        assert(es[es.len() - 1] == e);
        assert(ls.last() == mtgo_line(e));
        if sb {
            assert(entry_lines(es, ExportStyle::Plain, sb) =~= broken(ls));
        } else {
            assert(entry_lines(es, ExportStyle::Plain, sb) =~= broken(ls));
        }
    }
}

proof fn lemma_text_lines_broken(ls: Seq<Seq<char>>)
    requires
        forall|i: int, k: int| 0 <= i < ls.len() && 0 <= k < ls[i].len() ==> #[trigger] ls[i][k] != '\n',
    ensures
        crate::text::split(broken(ls), '\n') == ls.push(Seq::empty()),
        text_lines(broken(ls)) == ls,
    decreases ls.len(),
{
    reveal_strlit("\n");
    if ls.len() == 0 {
        crate::text::lemma_find_is_first(Seq::<char>::empty(), '\n', 0);
        assert(crate::text::split(Seq::<char>::empty(), '\n') =~= seq![Seq::<char>::empty()]);
        assert(ls.push(Seq::empty()) =~= seq![Seq::<char>::empty()]);
    } else {
        let first = ls[0];
        let rest = ls.drop_first();
        assert(ls =~= seq![first] + rest);
        lemma_broken_append(seq![first], rest);
        assert(seq![first].drop_last() =~= Seq::<Seq<char>>::empty());
        assert(broken(Seq::<Seq<char>>::empty()) == Seq::<char>::empty());
        assert(seq![first].last() == first);
        assert(broken(seq![first]) =~= first + "\n"@);
        let s = broken(ls);
        assert(s == broken(seq![first] + rest));
        assert(s =~= first + "\n"@ + broken(rest));
        assert forall|i: int, k: int| 0 <= i < rest.len() && 0 <= k < rest[i].len() implies #[trigger] rest[i][k] != '\n' by {
            assert(rest[i] == ls[i + 1]);
        }
        lemma_text_lines_broken(rest);
        assert forall|k: int| 0 <= k < first.len() implies #[trigger] s[k] != '\n' by {
            assert(s[k] == ls[0][k]);
        }
        assert(s[first.len() as int] == '\n');
        crate::text::lemma_find_is_first(s, '\n', first.len() as int);
        assert(s.take(first.len() as int) =~= first);
        assert(s.skip(first.len() + 1 as int) =~= broken(rest));
        assert(crate::text::split(s, '\n') =~= ls.push(Seq::empty()));
        assert(ls.push(Seq::empty()).drop_last() =~= ls);
    }
}
/// Where an entry's copies land when an MTGO export is read back: the sideboard stays the
/// sideboard, everything else reads as main deck.
pub open spec fn mtgo_zone(zone: Zone) -> Zone {
    if zone == Zone::Sideboard {
        Zone::Sideboard
    } else {
        Zone::Main
    }
}

/// The entries in the order MTGO's export writes them: commanders, main deck, sideboard.
pub open spec fn mtgo_order(es: Seq<DeckEntry>) -> Seq<DeckEntry> {
    of_zone(es, Zone::Command) + of_zone(es, Zone::Main) + of_zone(es, Zone::Sideboard)
}

/// Copies that land in `zone` when entries are read back from an MTGO export.
pub open spec fn landed_total(es: Seq<DeckEntry>, zone: Zone) -> nat
    decreases es.len(),
{
    if es.len() == 0 {
        0
    } else {
        landed_total(es.drop_last(), zone) + (if mtgo_zone(es.last().zone) == zone {
            es.last().quantity as nat
        } else {
            0
        })
    }
}

/// An entry whose line reads back as itself and whose name the catalog resolves to one card.
pub open spec fn reads_back(e: DeckEntry, cards: Seq<ArchivedCard>) -> bool {
    plain_name(e.name@) && resolution(cards, e.name@) is Found
}

proof fn lemma_landed_append(a: Seq<DeckEntry>, b: Seq<DeckEntry>, zone: Zone)
    ensures
        landed_total(a + b, zone) == landed_total(a, zone) + landed_total(b, zone),
    decreases b.len(),
{
    if b.len() == 0 {
        assert(a + b =~= a);
    } else {
        assert((a + b).drop_last() =~= a + b.drop_last());
        assert((a + b).last() == b.last());
        lemma_landed_append(a, b.drop_last(), zone);
    }
}

proof fn lemma_landed_of_zone(es: Seq<DeckEntry>, z: Zone, zone: Zone)
    ensures
        landed_total(of_zone(es, z), zone) == (if mtgo_zone(z) == zone {
            zone_total(es, z)
        } else {
            0
        }),
    decreases es.len(),
{
    reveal_with_fuel(Seq::filter, 1);
    if es.len() > 0 {
        lemma_landed_of_zone(es.drop_last(), z, zone);
        let rest = of_zone(es.drop_last(), z);
        if es.last().zone == z {
            assert(of_zone(es, z) == rest.push(es.last()));
            assert(rest.push(es.last()).drop_last() =~= rest);
        } else {
            assert(of_zone(es, z) == rest);
        }
    }
}

proof fn lemma_of_zone_reads_back(es: Seq<DeckEntry>, cards: Seq<ArchivedCard>, z: Zone)
    requires
        forall|i: int| 0 <= i < es.len() ==> reads_back(#[trigger] es[i], cards),
    ensures
        forall|i: int|
            0 <= i < of_zone(es, z).len() ==> reads_back(#[trigger] of_zone(es, z)[i], cards)
                && of_zone(es, z)[i].zone == z,
    decreases es.len(),
{
    reveal_with_fuel(Seq::filter, 1);
    if es.len() > 0 {
        assert forall|i: int| 0 <= i < es.drop_last().len() implies reads_back(
            #[trigger] es.drop_last()[i],
            cards,
        ) by {
            assert(es.drop_last()[i] == es[i]);
        }
        lemma_of_zone_reads_back(es.drop_last(), cards, z);
        let rest = of_zone(es.drop_last(), z);
        assert(reads_back(es[es.len() - 1], cards));
        if es.last().zone == z {
            assert(of_zone(es, z) == rest.push(es.last()));
            assert forall|i: int| 0 <= i < of_zone(es, z).len() implies reads_back(
                #[trigger] of_zone(es, z)[i],
                cards,
            ) && of_zone(es, z)[i].zone == z by {
                if i < rest.len() {
                    assert(of_zone(es, z)[i] == rest[i]);
                }
            }
        } else {
            assert(of_zone(es, z) == rest);
        }
    }
}

proof fn lemma_landed_prefix(es: Seq<DeckEntry>, k: int, zone: Zone)
    requires
        0 <= k <= es.len(),
    ensures
        landed_total(es.take(k), zone) <= landed_total(es, zone),
    decreases es.len(),
{
    if k < es.len() {
        assert(es.take(k) =~= es.drop_last().take(k));
        lemma_landed_prefix(es.drop_last(), k, zone);
    } else {
        assert(es.take(k) =~= es);
    }
}

/// Reading back the first `n` lines of an MTGO export of `es`, in the order written.
proof fn lemma_import_mtgo_lines(es: Seq<DeckEntry>, cards: Seq<ArchivedCard>, n: nat)
    requires
        n <= es.len(),
        forall|i: int| 0 <= i < es.len() ==> reads_back(#[trigger] es[i], cards),
        landed_total(es, Zone::Main) <= u32::MAX,
        landed_total(es, Zone::Sideboard) <= u32::MAX,
    ensures
        import_upto(mtgo_lines(es), cards, n).zone == Zone::Main,
        import_upto(mtgo_lines(es), cards, n).problems.len() == 0,
        forall|zone: Zone|
            #[trigger] views_total(
                import_upto(mtgo_lines(es), cards, n).entries,
                zone,
            ) == landed_total(es.take(n as int), zone),
    decreases n,
{
    let ls = mtgo_lines(es);
    if n == 0 {
        assert(es.take(0) =~= Seq::<DeckEntry>::empty());
    } else {
        lemma_import_mtgo_lines(es, cards, (n - 1) as nat);
        let prev = import_upto(ls, cards, (n - 1) as nat);
        let e = es[n - 1];
        assert(reads_back(e, cards));
        assert(ls[n - 1] == mtgo_line(e));
        law_an_exported_line_reads_back(e.quantity, e.name@);
        let target = mtgo_zone(e.zone);
        assert(es.take(n as int).drop_last() =~= es.take(n - 1));
        assert(es.take(n as int).last() == e);
        lemma_landed_prefix(es, n as int, target);
        let st = import_upto(ls, cards, n);
        if let Resolved::Found(i) = resolution(cards, e.name@) {
            let v = EntryView {
                oracle_id: cards[i].oracle_id@,
                name: cards[i].name@,
                quantity: e.quantity,
                zone: target,
                set_code: Seq::empty(),
                collector_number: Seq::empty(),
            };
            assert(st.entries == merged_with(prev.entries, v));
            assert(st.zone == prev.zone);
            assert(st.problems == prev.problems);
            assert forall|zone: Zone| #[trigger] views_total(st.entries, zone) == landed_total(
                es.take(n as int),
                zone,
            ) by {
                assert(views_total(prev.entries, zone) == landed_total(es.take(n - 1), zone));
                assert(views_total(prev.entries, target) == landed_total(es.take(n - 1), target));
                lemma_merged_total(prev.entries, v, zone);
            }
        }
    }
}
/// A deck exported in MTGO's style imports back with every card where MTGO can put it: the
/// sideboard as the sideboard, the main deck and the commanders together as the main deck,
/// and nothing reported. This holds of every deck whose card names a line carries unchanged
/// (see [`plain_name`]) and resolve to one card each, and whose counts fit in a quantity.
pub proof fn law_an_mtgo_export_imports_back(es: Seq<DeckEntry>, cards: Seq<ArchivedCard>)
    requires
        forall|i: int| 0 <= i < es.len() ==> reads_back(#[trigger] es[i], cards),
        zone_total(es, Zone::Command) + zone_total(es, Zone::Main) <= u32::MAX,
        zone_total(es, Zone::Sideboard) <= u32::MAX,
    ensures
        ({
            let lines = text_lines(exported(es, ExportStyle::Mtgo));
            let st = import_upto(lines, cards, lines.len());
            &&& st.problems.len() == 0
            &&& forall|back: Seq<DeckEntry>|
                #[trigger] entry_views(back) == st.entries ==> {
                    &&& zone_total(back, Zone::Main) == zone_total(es, Zone::Command) + zone_total(
                        es,
                        Zone::Main,
                    )
                    &&& zone_total(back, Zone::Sideboard) == zone_total(es, Zone::Sideboard)
                    &&& zone_total(back, Zone::Command) == 0
                }
        }),
{
    let cmd = of_zone(es, Zone::Command);
    let main = of_zone(es, Zone::Main);
    let side = of_zone(es, Zone::Sideboard);
    lemma_of_zone_reads_back(es, cards, Zone::Command);
    lemma_of_zone_reads_back(es, cards, Zone::Main);
    lemma_of_zone_reads_back(es, cards, Zone::Sideboard);
    let order = mtgo_order(es);
    assert forall|i: int| 0 <= i < order.len() implies reads_back(#[trigger] order[i], cards) by {
        if i < cmd.len() {
            assert(order[i] == cmd[i]);
        } else if i < cmd.len() + main.len() {
            assert(order[i] == main[i - cmd.len()]);
        } else {
            assert(order[i] == side[i - cmd.len() - main.len()]);
        }
    }
    // The text is the entries' lines, one after another.
    assert forall|i: int| 0 <= i < cmd.len() implies ((#[trigger] cmd[i]).zone == Zone::Sideboard)
        == false by {}
    assert forall|i: int| 0 <= i < main.len() implies ((#[trigger] main[i]).zone == Zone::Sideboard)
        == false by {}
    assert forall|i: int| 0 <= i < side.len() implies ((#[trigger] side[i]).zone == Zone::Sideboard)
        == true by {}
    lemma_entry_lines_broken(cmd, false);
    lemma_entry_lines_broken(main, false);
    lemma_entry_lines_broken(side, true);
    lemma_broken_append(mtgo_lines(cmd), mtgo_lines(main));
    lemma_broken_append(mtgo_lines(cmd) + mtgo_lines(main), mtgo_lines(side));
    let ls = mtgo_lines(order);
    assert(mtgo_lines(cmd) + mtgo_lines(main) + mtgo_lines(side) =~= ls);
    assert(exported(es, ExportStyle::Mtgo) == broken(ls));
    // No line holds a line break.
    assert forall|i: int, k: int| 0 <= i < ls.len() && 0 <= k < ls[i].len() implies #[trigger] ls[i][k]
        != '\n' by {
        reveal_strlit("SB: ");
        reveal_strlit(" ");
        let e = order[i];
        assert(reads_back(e, cards));
        let line = plain_line(e.quantity, e.name@);
        crate::text::lemma_decimal_digits(e.quantity as nat);
        let d = decimal(e.quantity as nat);
        assert forall|j: int| 0 <= j < line.len() implies #[trigger] line[j] != '\n' by {
            if j < d.len() {
                assert(line[j] == d[j]);
            } else if j > d.len() {
                assert(line[j] == e.name@[j - d.len() - 1]);
            }
        }
        if e.zone == Zone::Sideboard {
            if k >= 4 {
                assert(ls[i][k] == line[k - 4]);
            }
        } else {
            assert(ls[i] == line);
        }
    }
    lemma_text_lines_broken(ls);
    // Reading the lines back lands each entry's copies where MTGO puts them.
    lemma_landed_append(cmd, main, Zone::Main);
    lemma_landed_append(cmd + main, side, Zone::Main);
    lemma_landed_append(cmd, main, Zone::Sideboard);
    lemma_landed_append(cmd + main, side, Zone::Sideboard);
    lemma_landed_append(cmd, main, Zone::Command);
    lemma_landed_append(cmd + main, side, Zone::Command);
    lemma_landed_of_zone(es, Zone::Command, Zone::Main);
    lemma_landed_of_zone(es, Zone::Main, Zone::Main);
    lemma_landed_of_zone(es, Zone::Sideboard, Zone::Main);
    lemma_landed_of_zone(es, Zone::Command, Zone::Sideboard);
    lemma_landed_of_zone(es, Zone::Main, Zone::Sideboard);
    lemma_landed_of_zone(es, Zone::Sideboard, Zone::Sideboard);
    lemma_landed_of_zone(es, Zone::Command, Zone::Command);
    lemma_landed_of_zone(es, Zone::Main, Zone::Command);
    lemma_landed_of_zone(es, Zone::Sideboard, Zone::Command);
    lemma_import_mtgo_lines(order, cards, order.len());
    assert(order.take(order.len() as int) =~= order);
    let st = import_upto(ls, cards, ls.len());
    assert(views_total(st.entries, Zone::Main) == landed_total(order, Zone::Main));
    assert(views_total(st.entries, Zone::Sideboard) == landed_total(order, Zone::Sideboard));
    assert(views_total(st.entries, Zone::Command) == landed_total(order, Zone::Command));
    assert forall|back: Seq<DeckEntry>| #[trigger] entry_views(back) == st.entries implies {
        &&& zone_total(back, Zone::Main) == zone_total(es, Zone::Command) + zone_total(es, Zone::Main)
        &&& zone_total(back, Zone::Sideboard) == zone_total(es, Zone::Sideboard)
        &&& zone_total(back, Zone::Command) == 0
    } by {
        lemma_views_total_of(back, Zone::Main);
        lemma_views_total_of(back, Zone::Sideboard);
        lemma_views_total_of(back, Zone::Command);
    }
}
/// The line an entry is written as in the styles with section headings, without its line
/// break.
pub open spec fn styled_line(e: DeckEntry, style: ExportStyle) -> Seq<char> {
    if style == ExportStyle::Arena && e.set_code@.len() > 0 {
        printed_line(e.quantity, e.name@, e.set_code@, e.collector_number@)
    } else {
        plain_line(e.quantity, e.name@)
    }
}

/// The lines of a list of entries, in order.
pub open spec fn styled_lines(es: Seq<DeckEntry>, style: ExportStyle) -> Seq<Seq<char>> {
    es.map_values(|e: DeckEntry| styled_line(e, style))
}

/// The lines of one section, as [`section_block`] writes them: a blank line when another
/// section came first, the heading, the entries; nothing for an empty zone.
pub open spec fn section_lines(entries: Seq<DeckEntry>, zone: Zone, style: ExportStyle, after_another: bool) -> Seq<Seq<char>> {
    let es = of_zone(entries, zone);
    if es.len() == 0 {
        Seq::empty()
    } else {
        (if after_another {
            seq![Seq::<char>::empty()]
        } else {
            Seq::empty()
        }) + seq![zone.heading()] + styled_lines(es, style)
    }
}

/// An entry whose line in `style` reads back as itself and whose name the catalog resolves
/// to one card: in Arena's style a recorded printing must be one a line carries unchanged
/// (see [`plain_printing`]).
pub open spec fn reads_back_in(e: DeckEntry, cards: Seq<ArchivedCard>, style: ExportStyle) -> bool {
    &&& reads_back(e, cards)
    &&& (style == ExportStyle::Arena && e.set_code@.len() > 0 ==> plain_printing(
        e.name@,
        e.set_code@,
        e.collector_number@,
    ))
}

proof fn lemma_styled_lines_broken(es: Seq<DeckEntry>, style: ExportStyle)
    ensures
        entry_lines(es, style, false) == broken(styled_lines(es, style)),
    decreases es.len(),
{
    reveal_strlit(" ");
    reveal_strlit(" (");
    reveal_strlit(") ");
    let ls = styled_lines(es, style);
    if es.len() > 0 {
        assert(styled_lines(es.drop_last(), style) =~= ls.drop_last());
        lemma_styled_lines_broken(es.drop_last(), style);
        let e = es.last();
        assert(es[es.len() - 1] == e);
        assert(ls.last() == styled_line(e, style));
        assert(entry_line(e, style) =~= styled_line(e, style) + "\n"@);
        assert(entry_lines(es, style, false) =~= broken(ls));
    }
}

proof fn lemma_section_broken(entries: Seq<DeckEntry>, zone: Zone, style: ExportStyle, after_another: bool)
    ensures
        section_block(entries, zone, style, after_another) == broken(
            section_lines(entries, zone, style, after_another),
        ),
{
    reveal_strlit("\n");
    let es = of_zone(entries, zone);
    if es.len() > 0 {
        lemma_styled_lines_broken(es, style);
        let gap: Seq<Seq<char>> = if after_another {
            seq![Seq::<char>::empty()]
        } else {
            Seq::empty()
        };
        let head = seq![zone.heading()];
        lemma_broken_append(gap, head);
        lemma_broken_append(gap + head, styled_lines(es, style));
        assert(broken(Seq::<Seq<char>>::empty()) == Seq::<char>::empty());
        assert(seq![Seq::<char>::empty()].drop_last() =~= Seq::<Seq<char>>::empty());
        assert(head.drop_last() =~= Seq::<Seq<char>>::empty());
        assert(broken(head) =~= zone.heading() + "\n"@);
        if after_another {
            assert(broken(gap) =~= "\n"@);
        } else {
            assert(broken(gap) =~= Seq::<char>::empty());
        }
        assert(section_block(entries, zone, style, after_another) =~= broken(gap) + broken(head)
            + broken(styled_lines(es, style)));
    }
}
proof fn lemma_heading_kind(zone: Zone)
    ensures
        kind_of(zone.heading()) == LineKind::Section(zone),
        forall|i: int| 0 <= i < zone.heading().len() ==> #[trigger] zone.heading()[i] != '\n',
{
    reveal_strlit("Deck");
    reveal_strlit("Sideboard");
    reveal_strlit("Commander");
    reveal_strlit("deck");
    reveal_strlit("sideboard");
    reveal_strlit("commander");
    reveal_strlit("main");
    reveal_strlit("maindeck");
    reveal_strlit("mainboard");
    reveal_strlit("main deck");
    reveal_strlit("side");
    reveal_strlit("companion");
    reveal_strlit("commanders");
    reveal_strlit("command zone");
    reveal_strlit("oathbreaker");
    let h = zone.heading();
    assert(h.len() > 2);
    assert(!is_space(h[0]) && !is_space(h.last()));
    assert(crate::text::leading_space(h) == 0);
    assert(crate::text::trailing_space(h) == 0);
    assert(h.skip(0) =~= h);
    assert(h.take(h.len() as int) =~= h);
    assert(trim(h) == h);
    assert(!sb_marked(h));
    assert(leading_digits(h) == 0);
    assert(!ends_with(h, seq![':'])) by {
        if ends_with(h, seq![':']) {
            assert(h.skip(h.len() - 1)[0] == h.last());
        }
    }
    assert(trim_end_matches(h, seq![':']) == h);
    assert(all_ascii(h));
    let low = lower_cased(h);
    assert(low == h.map_values(|c: char| crate::text::ascii_lower(c)));
    if zone == Zone::Main {
        assert(low =~= "deck"@);
        assert(heading_zone(low) == Some(Zone::Main));
    } else if zone == Zone::Sideboard {
        assert(low =~= "sideboard"@);
        // Headings of the same length differ early on.
        assert(low[0] != "mainboard"@[0] && low[0] != "main deck"@[0] && low[0] != "companion"@[0]
            && low[0] != "commander"@[0]);
        assert(heading_zone(low) == Some(Zone::Sideboard));
    } else {
        assert(low =~= "commander"@);
        assert(low[0] != "mainboard"@[0] && low[0] != "main deck"@[0] && low[0] != "sideboard"@[0]
            && low[3] != "companion"@[3]);
        assert(heading_zone(low) == Some(Zone::Command));
    }
}

proof fn lemma_blank_kind()
    ensures
        kind_of(Seq::<char>::empty()) == LineKind::Blank,
{
    assert(trim(Seq::<char>::empty()).len() == 0);
}

proof fn lemma_styled_line_kind(e: DeckEntry, cards: Seq<ArchivedCard>, style: ExportStyle)
    requires
        reads_back_in(e, cards, style),
    ensures
        kind_of(styled_line(e, style)) matches LineKind::Entry(p) && p.quantity == e.quantity
            && p.name == e.name@ && p.zone is None,
        forall|i: int| 0 <= i < styled_line(e, style).len() ==> #[trigger] styled_line(e, style)[i] != '\n',
{
    if style == ExportStyle::Arena && e.set_code@.len() > 0 {
        lemma_printed_line_entry(e.quantity, e.name@, e.set_code@, e.collector_number@);
    } else {
        reveal_strlit(" ");
        law_an_exported_line_reads_back(e.quantity, e.name@);
        let line = plain_line(e.quantity, e.name@);
        crate::text::lemma_decimal_digits(e.quantity as nat);
        let d = decimal(e.quantity as nat);
        assert forall|j: int| 0 <= j < line.len() implies #[trigger] line[j] != '\n' by {
            if j < d.len() {
                assert(line[j] == d[j]);
            } else if j > d.len() {
                assert(line[j] == e.name@[j - d.len() - 1]);
            }
        }
    }
}
/// An import carried on from `st` over the first `n` of `lines`, which follow `offset`
/// lines already read.
pub open spec fn import_from(st: ImportState, lines: Seq<Seq<char>>, cards: Seq<ArchivedCard>, offset: nat, n: nat) -> ImportState
    decreases n,
{
    if n == 0 {
        st
    } else {
        import_step(import_from(st, lines, cards, offset, (n - 1) as nat), lines[n - 1], offset + n, cards)
    }
}

proof fn lemma_import_upto_from(lines: Seq<Seq<char>>, cards: Seq<ArchivedCard>, n: nat)
    ensures
        import_upto(lines, cards, n) == import_from(
            ImportState { zone: Zone::Main, entries: Seq::empty(), problems: Seq::empty() },
            lines,
            cards,
            0,
            n,
        ),
    decreases n,
{
    if n > 0 {
        lemma_import_upto_from(lines, cards, (n - 1) as nat);
    }
}

proof fn lemma_import_from_prefix(st: ImportState, a: Seq<Seq<char>>, b: Seq<Seq<char>>, cards: Seq<ArchivedCard>, offset: nat, k: nat)
    requires
        k <= a.len(),
    ensures
        import_from(st, a + b, cards, offset, k) == import_from(st, a, cards, offset, k),
    decreases k,
{
    if k > 0 {
        lemma_import_from_prefix(st, a, b, cards, offset, (k - 1) as nat);
        assert((a + b)[k - 1] == a[k - 1]);
    }
}

/// Reading `a + b` is reading `a`, then carrying on over `b`.
proof fn lemma_import_from_append(st: ImportState, a: Seq<Seq<char>>, b: Seq<Seq<char>>, cards: Seq<ArchivedCard>, offset: nat, m: nat)
    requires
        m <= b.len(),
    ensures
        import_from(st, a + b, cards, offset, a.len() + m) == import_from(
            import_from(st, a, cards, offset, a.len()),
            b,
            cards,
            offset + a.len(),
            m,
        ),
    decreases m,
{
    if m == 0 {
        lemma_import_from_prefix(st, a, b, cards, offset, a.len());
    } else {
        lemma_import_from_append(st, a, b, cards, offset, (m - 1) as nat);
        assert((a + b)[a.len() + m - 1] == b[m - 1]);
        assert((a.len() + m - 1) as nat == (a.len() + (m - 1)) as nat);
    }
}

/// Reading the entry lines of one zone, with that zone in effect.
proof fn lemma_import_styled(st: ImportState, es: Seq<DeckEntry>, cards: Seq<ArchivedCard>, style: ExportStyle, zone: Zone, offset: nat, n: nat)
    requires
        n <= es.len(),
        st.zone == zone,
        forall|i: int| 0 <= i < es.len() ==> reads_back_in(#[trigger] es[i], cards, style) && es[i].zone == zone,
        views_total(st.entries, zone) + zone_total(es, zone) <= u32::MAX,
    ensures
        import_from(st, styled_lines(es, style), cards, offset, n).zone == zone,
        import_from(st, styled_lines(es, style), cards, offset, n).problems == st.problems,
        forall|z: Zone|
            #[trigger] views_total(import_from(st, styled_lines(es, style), cards, offset, n).entries, z)
                == views_total(st.entries, z) + (if z == zone {
                zone_total(es.take(n as int), zone)
            } else {
                0
            }),
    decreases n,
{
    let ls = styled_lines(es, style);
    if n == 0 {
        assert(es.take(0) =~= Seq::<DeckEntry>::empty());
    } else {
        lemma_import_styled(st, es, cards, style, zone, offset, (n - 1) as nat);
        let prev = import_from(st, ls, cards, offset, (n - 1) as nat);
        let e = es[n - 1];
        assert(reads_back_in(e, cards, style));
        assert(ls[n - 1] == styled_line(e, style));
        lemma_styled_line_kind(e, cards, style);
        assert(es.take(n as int).drop_last() =~= es.take(n - 1));
        assert(es.take(n as int).last() == e);
        crate::deck::deck::lemma_zone_total_prefix(es, n as int, zone);
        let cur = import_from(st, ls, cards, offset, n);
        if let LineKind::Entry(p) = kind_of(ls[n - 1]) {
            if let Resolved::Found(i) = resolution(cards, e.name@) {
                let v = EntryView {
                    oracle_id: cards[i].oracle_id@,
                    name: cards[i].name@,
                    quantity: e.quantity,
                    zone: zone,
                    set_code: p.set_code,
                    collector_number: p.collector_number,
                };
                assert(cur.entries == merged_with(prev.entries, v));
                assert forall|z: Zone| #[trigger] views_total(cur.entries, z) == views_total(st.entries, z) + (if z == zone {
                    zone_total(es.take(n as int), zone)
                } else {
                    0
                }) by {
                    assert(views_total(prev.entries, z) == views_total(st.entries, z) + (if z == zone {
                        zone_total(es.take(n - 1), zone)
                    } else {
                        0
                    }));
                    assert(views_total(prev.entries, zone) == views_total(st.entries, zone) + zone_total(es.take(n - 1), zone));
                    lemma_merged_total(prev.entries, v, z);
                }
            }
        }
    }
}
proof fn lemma_zone_total_of_zone(es: Seq<DeckEntry>, zone: Zone)
    ensures
        zone_total(of_zone(es, zone), zone) == zone_total(es, zone),
    decreases es.len(),
{
    reveal_with_fuel(Seq::filter, 1);
    if es.len() > 0 {
        lemma_zone_total_of_zone(es.drop_last(), zone);
        let rest = of_zone(es.drop_last(), zone);
        if es.last().zone == zone {
            assert(of_zone(es, zone) == rest.push(es.last()));
            assert(rest.push(es.last()).drop_last() =~= rest);
        } else {
            assert(of_zone(es, zone) == rest);
        }
    }
}

proof fn lemma_of_zone_reads_back_in(es: Seq<DeckEntry>, cards: Seq<ArchivedCard>, style: ExportStyle, z: Zone)
    requires
        forall|i: int| 0 <= i < es.len() ==> reads_back_in(#[trigger] es[i], cards, style),
    ensures
        forall|i: int|
            0 <= i < of_zone(es, z).len() ==> reads_back_in(#[trigger] of_zone(es, z)[i], cards, style)
                && of_zone(es, z)[i].zone == z,
    decreases es.len(),
{
    reveal_with_fuel(Seq::filter, 1);
    if es.len() > 0 {
        assert forall|i: int| 0 <= i < es.drop_last().len() implies reads_back_in(
            #[trigger] es.drop_last()[i],
            cards,
            style,
        ) by {
            assert(es.drop_last()[i] == es[i]);
        }
        lemma_of_zone_reads_back_in(es.drop_last(), cards, style, z);
        let rest = of_zone(es.drop_last(), z);
        assert(reads_back_in(es[es.len() - 1], cards, style));
        if es.last().zone == z {
            assert(of_zone(es, z) == rest.push(es.last()));
            assert forall|i: int| 0 <= i < of_zone(es, z).len() implies reads_back_in(
                #[trigger] of_zone(es, z)[i],
                cards,
                style,
            ) && of_zone(es, z)[i].zone == z by {
                if i < rest.len() {
                    assert(of_zone(es, z)[i] == rest[i]);
                }
            }
        } else {
            assert(of_zone(es, z) == rest);
        }
    }
}

proof fn lemma_gap_and_heading(st: ImportState, cards: Seq<ArchivedCard>, zone: Zone, after_another: bool, offset: nat)
    ensures
        ({
            let gap: Seq<Seq<char>> = if after_another {
                seq![Seq::<char>::empty()]
            } else {
                Seq::empty()
            };
            let s2 = import_from(
                import_from(st, gap, cards, offset, gap.len()),
                seq![zone.heading()],
                cards,
                offset + gap.len(),
                1,
            );
            s2 == ImportState { zone, ..st }
        }),
{
    let gap: Seq<Seq<char>> = if after_another {
        seq![Seq::<char>::empty()]
    } else {
        Seq::empty()
    };
    lemma_blank_kind();
    lemma_heading_kind(zone);
    let s1 = import_from(st, gap, cards, offset, gap.len());
    assert(import_from(st, gap, cards, offset, 0) == st);
    if after_another {
        assert(gap[0] == Seq::<char>::empty());
        assert(s1 == import_step(st, Seq::<char>::empty(), offset + 1, cards));
    }
    assert(s1 == st);
    let head = seq![zone.heading()];
    assert(import_from(s1, head, cards, offset + gap.len(), 0) == s1);
    assert(head[0] == zone.heading());
}

/// Reading one section: the heading puts its zone in effect and the entries land there.
proof fn lemma_import_section(st: ImportState, entries: Seq<DeckEntry>, cards: Seq<ArchivedCard>, style: ExportStyle, zone: Zone, after_another: bool, offset: nat)
    requires
        forall|i: int| 0 <= i < entries.len() ==> reads_back_in(#[trigger] entries[i], cards, style),
        views_total(st.entries, zone) + zone_total(entries, zone) <= u32::MAX,
    ensures
        ({
            let ls = section_lines(entries, zone, style, after_another);
            let r = import_from(st, ls, cards, offset, ls.len());
            &&& r.problems == st.problems
            &&& forall|z: Zone|
                #[trigger] views_total(r.entries, z) == views_total(st.entries, z) + (if z == zone {
                    zone_total(entries, zone)
                } else {
                    0
                })
        }),
{
    let es = of_zone(entries, zone);
    lemma_zone_total_of_zone(entries, zone);
    let ls = section_lines(entries, zone, style, after_another);
    if es.len() == 0 {
        assert(es =~= Seq::<DeckEntry>::empty());
        assert(zone_total(es, zone) == 0);
    } else {
        lemma_of_zone_reads_back_in(entries, cards, style, zone);
        let gap: Seq<Seq<char>> = if after_another {
            seq![Seq::<char>::empty()]
        } else {
            Seq::empty()
        };
        let head = seq![zone.heading()];
        let body = styled_lines(es, style);
        assert(ls == gap + head + body);
        lemma_import_from_append(st, gap + head, body, cards, offset, body.len());
        lemma_import_from_append(st, gap, head, cards, offset, 1);
        lemma_gap_and_heading(st, cards, zone, after_another, offset);
        let s2 = import_from(import_from(st, gap, cards, offset, gap.len()), head, cards, offset + gap.len(), 1);
        assert((gap + head).len() == gap.len() + 1);
        lemma_import_styled(s2, es, cards, style, zone, offset + (gap + head).len(), body.len());
        assert(es.take(es.len() as int) =~= es);
    }
}

proof fn lemma_section_lines_unbroken(es: Seq<DeckEntry>, cards: Seq<ArchivedCard>, style: ExportStyle, zone: Zone, after: bool)
    requires
        forall|i: int| 0 <= i < es.len() ==> reads_back_in(#[trigger] es[i], cards, style),
    ensures
        forall|i: int, k: int|
            0 <= i < section_lines(es, zone, style, after).len() && 0 <= k < section_lines(
                es,
                zone,
                style,
                after,
            )[i].len() ==> #[trigger] section_lines(es, zone, style, after)[i][k] != '\n',
{
    lemma_of_zone_reads_back_in(es, cards, style, zone);
    lemma_heading_kind(zone);
    let part = section_lines(es, zone, style, after);
    let z_es = of_zone(es, zone);
    let gap_len: int = if after { 1 } else { 0 };
    assert forall|j: int, k: int| 0 <= j < part.len() && 0 <= k < part[j].len() implies #[trigger] part[j][k]
        != '\n' by {
        if j >= gap_len + 1 {
            let e = z_es[j - gap_len - 1];
            assert(reads_back_in(e, cards, style));
            lemma_styled_line_kind(e, cards, style);
            assert(part[j] == styled_line(e, style));
        } else if j == gap_len {
            assert(part[j] == zone.heading());
        } else {
            assert(part[j] == Seq::<char>::empty());
        }
    }
}

proof fn lemma_sectioned_text(es: Seq<DeckEntry>, cards: Seq<ArchivedCard>, style: ExportStyle)
    requires
        style != ExportStyle::Mtgo,
        forall|i: int| 0 <= i < es.len() ==> reads_back_in(#[trigger] es[i], cards, style),
    ensures
        ({
            let has_command = of_zone(es, Zone::Command).len() > 0;
            let has_main = of_zone(es, Zone::Main).len() > 0;
            text_lines(exported(es, style)) == section_lines(es, Zone::Command, style, false)
                + section_lines(es, Zone::Main, style, has_command) + section_lines(
                es,
                Zone::Sideboard,
                style,
                has_command || has_main,
            )
        }),
{
    let has_command = of_zone(es, Zone::Command).len() > 0;
    let has_main = of_zone(es, Zone::Main).len() > 0;
    let lc = section_lines(es, Zone::Command, style, false);
    let lm = section_lines(es, Zone::Main, style, has_command);
    let lsb = section_lines(es, Zone::Sideboard, style, has_command || has_main);
    lemma_section_broken(es, Zone::Command, style, false);
    lemma_section_broken(es, Zone::Main, style, has_command);
    lemma_section_broken(es, Zone::Sideboard, style, has_command || has_main);
    lemma_broken_append(lc, lm);
    lemma_broken_append(lc + lm, lsb);
    let all = lc + lm + lsb;
    assert(exported(es, style) == broken(all));
    lemma_section_lines_unbroken(es, cards, style, Zone::Command, false);
    lemma_section_lines_unbroken(es, cards, style, Zone::Main, has_command);
    lemma_section_lines_unbroken(es, cards, style, Zone::Sideboard, has_command || has_main);
    assert forall|i: int, k: int| 0 <= i < all.len() && 0 <= k < all[i].len() implies #[trigger] all[i][k]
        != '\n' by {
        if i < lc.len() {
            assert(all[i] == lc[i]);
        } else if i < lc.len() + lm.len() {
            assert(all[i] == lm[i - lc.len()]);
        } else {
            assert(all[i] == lsb[i - lc.len() - lm.len()]);
        }
    }
    lemma_text_lines_broken(all);
}

/// A deck exported with section headings, plain or in Arena's style, imports back with every
/// card in the zone it came from and nothing reported. This holds of every deck whose card
/// names a line carries unchanged (see [`plain_name`]) and resolve to one card each, whose
/// printings, in Arena's style, a line carries unchanged (see [`plain_printing`]), and whose
/// counts per zone fit in a quantity.
pub proof fn law_a_sectioned_export_imports_back(es: Seq<DeckEntry>, cards: Seq<ArchivedCard>, style: ExportStyle)
    requires
        style != ExportStyle::Mtgo,
        forall|i: int| 0 <= i < es.len() ==> reads_back_in(#[trigger] es[i], cards, style),
        zone_total(es, Zone::Command) <= u32::MAX,
        zone_total(es, Zone::Main) <= u32::MAX,
        zone_total(es, Zone::Sideboard) <= u32::MAX,
    ensures
        ({
            let lines = text_lines(exported(es, style));
            let st = import_upto(lines, cards, lines.len());
            &&& st.problems.len() == 0
            &&& forall|back: Seq<DeckEntry>|
                #[trigger] entry_views(back) == st.entries ==> {
                    &&& zone_total(back, Zone::Main) == zone_total(es, Zone::Main)
                    &&& zone_total(back, Zone::Sideboard) == zone_total(es, Zone::Sideboard)
                    &&& zone_total(back, Zone::Command) == zone_total(es, Zone::Command)
                }
        }),
{
    let has_command = of_zone(es, Zone::Command).len() > 0;
    let has_main = of_zone(es, Zone::Main).len() > 0;
    let lc = section_lines(es, Zone::Command, style, false);
    let lm = section_lines(es, Zone::Main, style, has_command);
    let lsb = section_lines(es, Zone::Sideboard, style, has_command || has_main);
    lemma_sectioned_text(es, cards, style);
    let all = lc + lm + lsb;
    // Reading the sections one after another.
    let init = ImportState { zone: Zone::Main, entries: Seq::empty(), problems: Seq::empty() };
    lemma_import_upto_from(all, cards, all.len());
    lemma_import_from_append(init, lc + lm, lsb, cards, 0, lsb.len());
    lemma_import_from_append(init, lc, lm, cards, 0, lm.len());
    let s1 = import_from(init, lc, cards, 0, lc.len());
    let s2 = import_from(s1, lm, cards, lc.len(), lm.len());
    let s3 = import_from(s2, lsb, cards, (lc + lm).len(), lsb.len());
    assert((lc + lm).len() == lc.len() + lm.len());
    assert(views_total(init.entries, Zone::Command) == 0);
    assert(views_total(init.entries, Zone::Main) == 0);
    assert(views_total(init.entries, Zone::Sideboard) == 0);
    lemma_import_section(init, es, cards, style, Zone::Command, false, 0);
    assert(views_total(s1.entries, Zone::Main) == 0);
    lemma_import_section(s1, es, cards, style, Zone::Main, has_command, lc.len());
    assert(views_total(s2.entries, Zone::Sideboard) == 0);
    lemma_import_section(s2, es, cards, style, Zone::Sideboard, has_command || has_main, (lc + lm).len());
    let st = import_upto(all, cards, all.len());
    assert(st == s3);
    assert(views_total(st.entries, Zone::Command) == zone_total(es, Zone::Command));
    assert(views_total(st.entries, Zone::Main) == zone_total(es, Zone::Main));
    assert(views_total(st.entries, Zone::Sideboard) == zone_total(es, Zone::Sideboard));
    assert forall|back: Seq<DeckEntry>| #[trigger] entry_views(back) == st.entries implies {
        &&& zone_total(back, Zone::Main) == zone_total(es, Zone::Main)
        &&& zone_total(back, Zone::Sideboard) == zone_total(es, Zone::Sideboard)
        &&& zone_total(back, Zone::Command) == zone_total(es, Zone::Command)
    } by {
        lemma_views_total_of(back, Zone::Main);
        lemma_views_total_of(back, Zone::Sideboard);
        lemma_views_total_of(back, Zone::Command);
    }
}
/// True when `s` is `word` in any mix of upper and lower case.
pub open spec fn spelled_as(s: Seq<char>, word: Seq<char>) -> bool {
    s.len() == word.len() && forall|i: int| 0 <= i < s.len() ==> crate::text::ascii_lower(#[trigger] s[i]) == word[i]
}

proof fn lemma_heading_word_deck()
    ensures
        heading_zone("deck"@) == Some(Zone::Main),
{
    reveal_strlit("deck");
    reveal_strlit("main");
    assert("deck"@[0] != "main"@[0]);
    reveal_strlit("maindeck");
    assert("deck"@.len() != "maindeck"@.len());
    reveal_strlit("mainboard");
    assert("deck"@.len() != "mainboard"@.len());
    reveal_strlit("main deck");
    assert("deck"@.len() != "main deck"@.len());
    reveal_strlit("sideboard");
    assert("deck"@.len() != "sideboard"@.len());
    reveal_strlit("side");
    assert("deck"@[0] != "side"@[0]);
    reveal_strlit("companion");
    assert("deck"@.len() != "companion"@.len());
    reveal_strlit("commander");
    assert("deck"@.len() != "commander"@.len());
    reveal_strlit("commanders");
    assert("deck"@.len() != "commanders"@.len());
    reveal_strlit("command zone");
    assert("deck"@.len() != "command zone"@.len());
    reveal_strlit("oathbreaker");
    assert("deck"@.len() != "oathbreaker"@.len());
}

proof fn lemma_heading_word_main()
    ensures
        heading_zone("main"@) == Some(Zone::Main),
{
    reveal_strlit("main");
    reveal_strlit("deck");
    assert("main"@[0] != "deck"@[0]);
    reveal_strlit("maindeck");
    assert("main"@.len() != "maindeck"@.len());
    reveal_strlit("mainboard");
    assert("main"@.len() != "mainboard"@.len());
    reveal_strlit("main deck");
    assert("main"@.len() != "main deck"@.len());
    reveal_strlit("sideboard");
    assert("main"@.len() != "sideboard"@.len());
    reveal_strlit("side");
    assert("main"@[0] != "side"@[0]);
    reveal_strlit("companion");
    assert("main"@.len() != "companion"@.len());
    reveal_strlit("commander");
    assert("main"@.len() != "commander"@.len());
    reveal_strlit("commanders");
    assert("main"@.len() != "commanders"@.len());
    reveal_strlit("command zone");
    assert("main"@.len() != "command zone"@.len());
    reveal_strlit("oathbreaker");
    assert("main"@.len() != "oathbreaker"@.len());
}

proof fn lemma_heading_word_maindeck()
    ensures
        heading_zone("maindeck"@) == Some(Zone::Main),
{
    reveal_strlit("maindeck");
    reveal_strlit("deck");
    assert("maindeck"@.len() != "deck"@.len());
    reveal_strlit("main");
    assert("maindeck"@.len() != "main"@.len());
    reveal_strlit("mainboard");
    assert("maindeck"@.len() != "mainboard"@.len());
    reveal_strlit("main deck");
    assert("maindeck"@.len() != "main deck"@.len());
    reveal_strlit("sideboard");
    assert("maindeck"@.len() != "sideboard"@.len());
    reveal_strlit("side");
    assert("maindeck"@.len() != "side"@.len());
    reveal_strlit("companion");
    assert("maindeck"@.len() != "companion"@.len());
    reveal_strlit("commander");
    assert("maindeck"@.len() != "commander"@.len());
    reveal_strlit("commanders");
    assert("maindeck"@.len() != "commanders"@.len());
    reveal_strlit("command zone");
    assert("maindeck"@.len() != "command zone"@.len());
    reveal_strlit("oathbreaker");
    assert("maindeck"@.len() != "oathbreaker"@.len());
}

proof fn lemma_heading_word_mainboard()
    ensures
        heading_zone("mainboard"@) == Some(Zone::Main),
{
    reveal_strlit("mainboard");
    reveal_strlit("deck");
    assert("mainboard"@.len() != "deck"@.len());
    reveal_strlit("main");
    assert("mainboard"@.len() != "main"@.len());
    reveal_strlit("maindeck");
    assert("mainboard"@.len() != "maindeck"@.len());
    reveal_strlit("main deck");
    assert("mainboard"@[4] != "main deck"@[4]);
    reveal_strlit("sideboard");
    assert("mainboard"@[0] != "sideboard"@[0]);
    reveal_strlit("side");
    assert("mainboard"@.len() != "side"@.len());
    reveal_strlit("companion");
    assert("mainboard"@[0] != "companion"@[0]);
    reveal_strlit("commander");
    assert("mainboard"@[0] != "commander"@[0]);
    reveal_strlit("commanders");
    assert("mainboard"@.len() != "commanders"@.len());
    reveal_strlit("command zone");
    assert("mainboard"@.len() != "command zone"@.len());
    reveal_strlit("oathbreaker");
    assert("mainboard"@.len() != "oathbreaker"@.len());
}

proof fn lemma_heading_word_main_deck()
    ensures
        heading_zone("main deck"@) == Some(Zone::Main),
{
    reveal_strlit("main deck");
    reveal_strlit("deck");
    assert("main deck"@.len() != "deck"@.len());
    reveal_strlit("main");
    assert("main deck"@.len() != "main"@.len());
    reveal_strlit("maindeck");
    assert("main deck"@.len() != "maindeck"@.len());
    reveal_strlit("mainboard");
    assert("main deck"@[4] != "mainboard"@[4]);
    reveal_strlit("sideboard");
    assert("main deck"@[0] != "sideboard"@[0]);
    reveal_strlit("side");
    assert("main deck"@.len() != "side"@.len());
    reveal_strlit("companion");
    assert("main deck"@[0] != "companion"@[0]);
    reveal_strlit("commander");
    assert("main deck"@[0] != "commander"@[0]);
    reveal_strlit("commanders");
    assert("main deck"@.len() != "commanders"@.len());
    reveal_strlit("command zone");
    assert("main deck"@.len() != "command zone"@.len());
    reveal_strlit("oathbreaker");
    assert("main deck"@.len() != "oathbreaker"@.len());
}

proof fn lemma_heading_word_sideboard()
    ensures
        heading_zone("sideboard"@) == Some(Zone::Sideboard),
{
    reveal_strlit("sideboard");
    reveal_strlit("deck");
    assert("sideboard"@.len() != "deck"@.len());
    reveal_strlit("main");
    assert("sideboard"@.len() != "main"@.len());
    reveal_strlit("maindeck");
    assert("sideboard"@.len() != "maindeck"@.len());
    reveal_strlit("mainboard");
    assert("sideboard"@[0] != "mainboard"@[0]);
    reveal_strlit("main deck");
    assert("sideboard"@[0] != "main deck"@[0]);
    reveal_strlit("side");
    assert("sideboard"@.len() != "side"@.len());
    reveal_strlit("companion");
    assert("sideboard"@[0] != "companion"@[0]);
    reveal_strlit("commander");
    assert("sideboard"@[0] != "commander"@[0]);
    reveal_strlit("commanders");
    assert("sideboard"@.len() != "commanders"@.len());
    reveal_strlit("command zone");
    assert("sideboard"@.len() != "command zone"@.len());
    reveal_strlit("oathbreaker");
    assert("sideboard"@.len() != "oathbreaker"@.len());
}

proof fn lemma_heading_word_side()
    ensures
        heading_zone("side"@) == Some(Zone::Sideboard),
{
    reveal_strlit("side");
    reveal_strlit("deck");
    assert("side"@[0] != "deck"@[0]);
    reveal_strlit("main");
    assert("side"@[0] != "main"@[0]);
    reveal_strlit("maindeck");
    assert("side"@.len() != "maindeck"@.len());
    reveal_strlit("mainboard");
    assert("side"@.len() != "mainboard"@.len());
    reveal_strlit("main deck");
    assert("side"@.len() != "main deck"@.len());
    reveal_strlit("sideboard");
    assert("side"@.len() != "sideboard"@.len());
    reveal_strlit("companion");
    assert("side"@.len() != "companion"@.len());
    reveal_strlit("commander");
    assert("side"@.len() != "commander"@.len());
    reveal_strlit("commanders");
    assert("side"@.len() != "commanders"@.len());
    reveal_strlit("command zone");
    assert("side"@.len() != "command zone"@.len());
    reveal_strlit("oathbreaker");
    assert("side"@.len() != "oathbreaker"@.len());
}

proof fn lemma_heading_word_companion()
    ensures
        heading_zone("companion"@) == Some(Zone::Sideboard),
{
    reveal_strlit("companion");
    reveal_strlit("deck");
    assert("companion"@.len() != "deck"@.len());
    reveal_strlit("main");
    assert("companion"@.len() != "main"@.len());
    reveal_strlit("maindeck");
    assert("companion"@.len() != "maindeck"@.len());
    reveal_strlit("mainboard");
    assert("companion"@[0] != "mainboard"@[0]);
    reveal_strlit("main deck");
    assert("companion"@[0] != "main deck"@[0]);
    reveal_strlit("sideboard");
    assert("companion"@[0] != "sideboard"@[0]);
    reveal_strlit("side");
    assert("companion"@.len() != "side"@.len());
    reveal_strlit("commander");
    assert("companion"@[3] != "commander"@[3]);
    reveal_strlit("commanders");
    assert("companion"@.len() != "commanders"@.len());
    reveal_strlit("command zone");
    assert("companion"@.len() != "command zone"@.len());
    reveal_strlit("oathbreaker");
    assert("companion"@.len() != "oathbreaker"@.len());
}

proof fn lemma_heading_word_commander()
    ensures
        heading_zone("commander"@) == Some(Zone::Command),
{
    reveal_strlit("commander");
    reveal_strlit("deck");
    assert("commander"@.len() != "deck"@.len());
    reveal_strlit("main");
    assert("commander"@.len() != "main"@.len());
    reveal_strlit("maindeck");
    assert("commander"@.len() != "maindeck"@.len());
    reveal_strlit("mainboard");
    assert("commander"@[0] != "mainboard"@[0]);
    reveal_strlit("main deck");
    assert("commander"@[0] != "main deck"@[0]);
    reveal_strlit("sideboard");
    assert("commander"@[0] != "sideboard"@[0]);
    reveal_strlit("side");
    assert("commander"@.len() != "side"@.len());
    reveal_strlit("companion");
    assert("commander"@[3] != "companion"@[3]);
    reveal_strlit("commanders");
    assert("commander"@.len() != "commanders"@.len());
    reveal_strlit("command zone");
    assert("commander"@.len() != "command zone"@.len());
    reveal_strlit("oathbreaker");
    assert("commander"@.len() != "oathbreaker"@.len());
}

proof fn lemma_heading_word_commanders()
    ensures
        heading_zone("commanders"@) == Some(Zone::Command),
{
    reveal_strlit("commanders");
    reveal_strlit("deck");
    assert("commanders"@.len() != "deck"@.len());
    reveal_strlit("main");
    assert("commanders"@.len() != "main"@.len());
    reveal_strlit("maindeck");
    assert("commanders"@.len() != "maindeck"@.len());
    reveal_strlit("mainboard");
    assert("commanders"@.len() != "mainboard"@.len());
    reveal_strlit("main deck");
    assert("commanders"@.len() != "main deck"@.len());
    reveal_strlit("sideboard");
    assert("commanders"@.len() != "sideboard"@.len());
    reveal_strlit("side");
    assert("commanders"@.len() != "side"@.len());
    reveal_strlit("companion");
    assert("commanders"@.len() != "companion"@.len());
    reveal_strlit("commander");
    assert("commanders"@.len() != "commander"@.len());
    reveal_strlit("command zone");
    assert("commanders"@.len() != "command zone"@.len());
    reveal_strlit("oathbreaker");
    assert("commanders"@.len() != "oathbreaker"@.len());
}

proof fn lemma_heading_word_command_zone()
    ensures
        heading_zone("command zone"@) == Some(Zone::Command),
{
    reveal_strlit("command zone");
    reveal_strlit("deck");
    assert("command zone"@.len() != "deck"@.len());
    reveal_strlit("main");
    assert("command zone"@.len() != "main"@.len());
    reveal_strlit("maindeck");
    assert("command zone"@.len() != "maindeck"@.len());
    reveal_strlit("mainboard");
    assert("command zone"@.len() != "mainboard"@.len());
    reveal_strlit("main deck");
    assert("command zone"@.len() != "main deck"@.len());
    reveal_strlit("sideboard");
    assert("command zone"@.len() != "sideboard"@.len());
    reveal_strlit("side");
    assert("command zone"@.len() != "side"@.len());
    reveal_strlit("companion");
    assert("command zone"@.len() != "companion"@.len());
    reveal_strlit("commander");
    assert("command zone"@.len() != "commander"@.len());
    reveal_strlit("commanders");
    assert("command zone"@.len() != "commanders"@.len());
    reveal_strlit("oathbreaker");
    assert("command zone"@.len() != "oathbreaker"@.len());
}

proof fn lemma_heading_word_oathbreaker()
    ensures
        heading_zone("oathbreaker"@) == Some(Zone::Command),
{
    reveal_strlit("oathbreaker");
    reveal_strlit("deck");
    assert("oathbreaker"@.len() != "deck"@.len());
    reveal_strlit("main");
    assert("oathbreaker"@.len() != "main"@.len());
    reveal_strlit("maindeck");
    assert("oathbreaker"@.len() != "maindeck"@.len());
    reveal_strlit("mainboard");
    assert("oathbreaker"@.len() != "mainboard"@.len());
    reveal_strlit("main deck");
    assert("oathbreaker"@.len() != "main deck"@.len());
    reveal_strlit("sideboard");
    assert("oathbreaker"@.len() != "sideboard"@.len());
    reveal_strlit("side");
    assert("oathbreaker"@.len() != "side"@.len());
    reveal_strlit("companion");
    assert("oathbreaker"@.len() != "companion"@.len());
    reveal_strlit("commander");
    assert("oathbreaker"@.len() != "commander"@.len());
    reveal_strlit("commanders");
    assert("oathbreaker"@.len() != "commanders"@.len());
    reveal_strlit("command zone");
    assert("oathbreaker"@.len() != "command zone"@.len());
}

proof fn lemma_heading_read(s: Seq<char>, w: Seq<char>)
    requires
        spelled_as(s, w),
        w.len() > 0,
        'a' <= w[0] <= 'z',
        'a' <= w.last() <= 'z',
        forall|i: int| 0 <= i < w.len() ==> ('a' <= #[trigger] w[i] <= 'z') || w[i] == ' ',
    ensures
        section_spec(s) == heading_zone(w),
        section_spec(s + seq![':']) == heading_zone(w),
{
    assert forall|i: int| 0 <= i < s.len() implies (#[trigger] s[i] as u32) < 128 by {
        assert(crate::text::ascii_lower(s[i]) == w[i]);
    }
    assert(all_ascii(s));
    assert(crate::text::ascii_lower(s[0]) == w[0]);
    assert(crate::text::ascii_lower(s.last()) == w.last()) by {
        assert(s.last() == s[s.len() - 1]);
    }
    assert(!is_space(s[0]) && !is_space(s.last()));
    assert(crate::text::leading_space(s) == 0);
    assert(crate::text::trailing_space(s) == 0);
    assert(s.skip(0) =~= s);
    assert(s.take(s.len() as int) =~= s);
    assert(trim(s) == s);
    assert(!ends_with(s, seq![':'])) by {
        if ends_with(s, seq![':']) {
            assert(s.skip(s.len() - 1)[0] == s.last());
        }
    }
    assert(trim_end_matches(s, seq![':']) == s);
    assert(lower_cased(s) =~= w);
    let t = s + seq![':'];
    assert(t[0] == s[0]);
    assert(t.last() == ':');
    assert(crate::text::leading_space(t) == 0);
    assert(crate::text::trailing_space(t) == 0);
    assert(t.skip(0) =~= t);
    assert(t.take(t.len() as int) =~= t);
    assert(trim(t) == t);
    assert(ends_with(t, seq![':'])) by {
        assert(t.skip(t.len() - 1) =~= seq![':']);
    }
    assert(t.take(t.len() - 1) =~= s);
    assert(trim_end_matches(t, seq![':']) == s);
}

/// The section headings a decklist may use, in any case and with or without a trailing
/// colon: "Deck", "Main", "Maindeck", "Mainboard" and "Main deck" start the main deck,
/// "Sideboard", "Side" and "Companion" the sideboard (a companion lives there), and
/// "Commander", "Commanders", "Command zone" and "Oathbreaker" the command zone.
pub proof fn law_section_headings_name_their_zones(s: Seq<char>)
    ensures
        spelled_as(s, "deck"@) || spelled_as(s, "main"@) || spelled_as(s, "maindeck"@) || spelled_as(s, "mainboard"@) || spelled_as(s, "main deck"@) ==> section_spec(s) == Some(Zone::Main) && section_spec(s + seq![':']) == Some(Zone::Main),
        spelled_as(s, "sideboard"@) || spelled_as(s, "side"@) || spelled_as(s, "companion"@) ==> section_spec(s) == Some(Zone::Sideboard) && section_spec(s + seq![':']) == Some(Zone::Sideboard),
        spelled_as(s, "commander"@) || spelled_as(s, "commanders"@) || spelled_as(s, "command zone"@) || spelled_as(s, "oathbreaker"@) ==> section_spec(s) == Some(Zone::Command) && section_spec(s + seq![':']) == Some(Zone::Command),
{
    if spelled_as(s, "deck"@) {
        reveal_strlit("deck");
        lemma_heading_word_deck();
        lemma_heading_read(s, "deck"@);
    }
    if spelled_as(s, "main"@) {
        reveal_strlit("main");
        lemma_heading_word_main();
        lemma_heading_read(s, "main"@);
    }
    if spelled_as(s, "maindeck"@) {
        reveal_strlit("maindeck");
        lemma_heading_word_maindeck();
        lemma_heading_read(s, "maindeck"@);
    }
    if spelled_as(s, "mainboard"@) {
        reveal_strlit("mainboard");
        lemma_heading_word_mainboard();
        lemma_heading_read(s, "mainboard"@);
    }
    if spelled_as(s, "main deck"@) {
        reveal_strlit("main deck");
        lemma_heading_word_main_deck();
        lemma_heading_read(s, "main deck"@);
    }
    if spelled_as(s, "sideboard"@) {
        reveal_strlit("sideboard");
        lemma_heading_word_sideboard();
        lemma_heading_read(s, "sideboard"@);
    }
    if spelled_as(s, "side"@) {
        reveal_strlit("side");
        lemma_heading_word_side();
        lemma_heading_read(s, "side"@);
    }
    if spelled_as(s, "companion"@) {
        reveal_strlit("companion");
        lemma_heading_word_companion();
        lemma_heading_read(s, "companion"@);
    }
    if spelled_as(s, "commander"@) {
        reveal_strlit("commander");
        lemma_heading_word_commander();
        lemma_heading_read(s, "commander"@);
    }
    if spelled_as(s, "commanders"@) {
        reveal_strlit("commanders");
        lemma_heading_word_commanders();
        lemma_heading_read(s, "commanders"@);
    }
    if spelled_as(s, "command zone"@) {
        reveal_strlit("command zone");
        lemma_heading_word_command_zone();
        lemma_heading_read(s, "command zone"@);
    }
    if spelled_as(s, "oathbreaker"@) {
        reveal_strlit("oathbreaker");
        lemma_heading_word_oathbreaker();
        lemma_heading_read(s, "oathbreaker"@);
    }
}
} // verus!
