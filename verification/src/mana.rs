//! Mana costs, parsed from Scryfall's brace notation.
//!
//! Scryfall writes costs as `{2}{W}{U}`, with a long tail of special symbols: hybrid `{W/U}`,
//! monocolored hybrid `{2/W}`, Phyrexian `{W/P}`, snow `{S}`, colorless `{C}`, and variables
//! `{X}`. All of them are modelled rather than collapsed to a number, because the optimizer
//! needs the individual colored pips: land formulas count symbols, not mana value.

use vstd::prelude::*;

use crate::color::{Color, ColorSet};
use crate::text::{
    all_digits, chars_of, digits_value, find, find_char, lemma_find, parse_u8, parse_u8_chars, slice_chars, split,
    split_chars, string_of, trim, trim_chars, views,
};

verus! {

/// A single symbol inside a mana cost.
#[derive(Debug, Clone, Copy, PartialEq, Eq, Hash, Structural)]
pub enum ManaSymbol {
    /// `{3}`: generic mana, payable with anything.
    Generic(u8),
    /// `{X}`, `{Y}`, `{Z}`: contributes 0 to mana value on the stack.
    Variable,
    /// `{W}`: a colored pip.
    Colored(Color),
    /// `{C}`: specifically colorless mana, not "no color requirement".
    Colorless,
    /// `{S}`: snow mana.
    Snow,
    /// `{W/U}`: payable with either color.
    Hybrid(Color, Color),
    /// `{2/W}`: two generic or one colored. Mana value 2.
    MonoHybrid(Color),
    /// `{W/P}`: the color or 2 life.
    Phyrexian(Color),
    /// `{W/U/P}`: either color, or 2 life.
    HybridPhyrexian(Color, Color),
}

impl ManaSymbol {
    /// Contribution of a symbol to mana value.
    pub open spec fn value(self) -> nat {
        match self {
            ManaSymbol::Generic(n) => n as nat,
            ManaSymbol::Variable => 0,
            ManaSymbol::MonoHybrid(_) => 2,
            _ => 1,
        }
    }

    /// Whether the symbol can require color `c`.
    pub open spec fn requires_color(self, c: Color) -> bool {
        match self {
            ManaSymbol::Colored(a) | ManaSymbol::MonoHybrid(a) | ManaSymbol::Phyrexian(a) => a == c,
            ManaSymbol::Hybrid(a, b) | ManaSymbol::HybridPhyrexian(a, b) => a == c || b == c,
            _ => false,
        }
    }

    /// Contribution to mana value (converted mana cost).
    ///
    /// `{X}` counts as 0, which matches the rules everywhere except on the stack.
    pub fn mana_value(self) -> (r: u32)
        ensures
            r == self.value(),
    {
        match self {
            ManaSymbol::Generic(n) => n as u32,
            ManaSymbol::Variable => 0,
            ManaSymbol::MonoHybrid(_) => 2,
            _ => 1,
        }
    }

    /// Colors this symbol can require. Generic, variable, colorless and snow contribute none.
    pub fn colors(self) -> (r: ColorSet)
        ensures
            forall|c: Color| r.has(c) == self.requires_color(c),
    {
        match self {
            ManaSymbol::Colored(c) | ManaSymbol::MonoHybrid(c) | ManaSymbol::Phyrexian(c) => {
                let r = ColorSet::from_colors(&[c]);
                assert forall|x: Color| r.has(x) == self.requires_color(x) by {
                    assert(seq![c].contains(x) ==> seq![c][0] == x);
                    if x == c {
                        assert(seq![c][0] == x);
                    }
                }
                r
            },
            ManaSymbol::Hybrid(a, b) | ManaSymbol::HybridPhyrexian(a, b) => {
                let r = ColorSet::from_colors(&[a, b]);
                assert forall|x: Color| r.has(x) == self.requires_color(x) by {
                    let s = seq![a, b];
                    if s.contains(x) {
                        let k = choose|k: int| 0 <= k < 2 && #[trigger] s[k] == x;
                        assert(k == 0 || k == 1);
                    }
                    if x == a {
                        assert(s[0] == x);
                    }
                    if x == b {
                        assert(s[1] == x);
                    }
                }
                r
            },
            _ => ColorSet::colorless(),
        }
    }
}

/// Why a cost string could not be parsed.
///
/// Scryfall data should never trigger these, but the catalog comes off the network and is
/// treated as untrusted: an error is returned rather than a panic.
#[derive(Debug, Clone, PartialEq, Eq)]
pub enum ManaCostError {
    /// A `{` was opened and never closed.
    UnclosedBrace,
    /// Text appeared outside any `{...}` group.
    StrayText(char),
    /// A group whose contents are not a known symbol, e.g. `{Q}`.
    UnknownSymbol(String),
}

/// What a parse error says, as plain values.
pub enum CostFault {
    UnclosedBrace,
    StrayText(char),
    UnknownSymbol(Seq<char>),
}

impl View for ManaCostError {
    type V = CostFault;

    open spec fn view(&self) -> CostFault {
        match self {
            ManaCostError::UnclosedBrace => CostFault::UnclosedBrace,
            ManaCostError::StrayText(c) => CostFault::StrayText(*c),
            ManaCostError::UnknownSymbol(s) => CostFault::UnknownSymbol(s@),
        }
    }
}

/// The color named by a one-letter group part.
pub open spec fn single_color(s: Seq<char>) -> Option<Color> {
    if s.len() == 1 {
        Color::of_letter(s[0])
    } else {
        None
    }
}

/// The symbol a brace group's contents stand for, or `None` for an unknown group.
pub open spec fn symbol_of(body: Seq<char>) -> Option<ManaSymbol> {
    let parts = split(body, '/');
    if parse_u8(body) is Some {
        Some(ManaSymbol::Generic(parse_u8(body)->0))
    } else if parts.len() == 1 {
        let p = parts[0];
        if p == seq!['X'] || p == seq!['Y'] || p == seq!['Z'] {
            Some(ManaSymbol::Variable)
        } else if p == seq!['C'] {
            Some(ManaSymbol::Colorless)
        } else if p == seq!['S'] {
            Some(ManaSymbol::Snow)
        } else {
            match single_color(p) {
                Some(c) => Some(ManaSymbol::Colored(c)),
                None => None,
            }
        }
    } else if parts.len() == 2 {
        if parts[1] == seq!['P'] {
            match single_color(parts[0]) {
                Some(c) => Some(ManaSymbol::Phyrexian(c)),
                None => None,
            }
        } else if parts[0] == seq!['2'] {
            match single_color(parts[1]) {
                Some(c) => Some(ManaSymbol::MonoHybrid(c)),
                None => None,
            }
        } else {
            match (single_color(parts[0]), single_color(parts[1])) {
                (Some(a), Some(b)) => Some(ManaSymbol::Hybrid(a, b)),
                _ => None,
            }
        }
    } else if parts.len() == 3 && parts[2] == seq!['P'] {
        match (single_color(parts[0]), single_color(parts[1])) {
            (Some(a), Some(b)) => Some(ManaSymbol::HybridPhyrexian(a, b)),
            _ => None,
        }
    } else {
        None
    }
}

/// Parses the (already trimmed) remainder of a cost, one brace group at a time.
pub open spec fn parse_groups(rest: Seq<char>) -> Result<Seq<ManaSymbol>, CostFault>
    decreases rest.len(),
{
    if rest.len() == 0 {
        Ok(Seq::empty())
    } else if find(rest, '{') != Some(0int) {
        Err(CostFault::StrayText(rest[0]))
    } else {
        match find(rest, '}') {
            None => Err(CostFault::UnclosedBrace),
            Some(close) => if 1 <= close < rest.len() {
                let body = rest.subrange(1, close);
                match symbol_of(body) {
                    None => Err(CostFault::UnknownSymbol(body)),
                    Some(sym) => match parse_groups(rest.skip(close + 1)) {
                        Ok(more) => Ok(seq![sym] + more),
                        Err(e) => Err(e),
                    },
                }
            } else {
                Err(CostFault::UnclosedBrace)
            },
        }
    }
}

/// What [`ManaCost::parse`] gives for a string: Scryfall brace notation, surrounding
/// whitespace ignored.
pub open spec fn parse_cost(input: Seq<char>) -> Result<Seq<ManaSymbol>, CostFault> {
    parse_groups(trim(input))
}

/// Total mana value of a list of symbols.
pub open spec fn total_value(symbols: Seq<ManaSymbol>) -> nat
    decreases symbols.len(),
{
    if symbols.len() == 0 {
        0
    } else {
        total_value(symbols.drop_last()) + symbols.last().value()
    }
}

/// How many symbols are exactly a colored pip of `c`.
pub open spec fn pips(symbols: Seq<ManaSymbol>, c: Color) -> nat
    decreases symbols.len(),
{
    if symbols.len() == 0 {
        0
    } else {
        pips(symbols.drop_last(), c) + (if symbols.last() == ManaSymbol::Colored(c) {
            1nat
        } else {
            0nat
        })
    }
}

/// A full mana cost, as an ordered list of symbols.
#[derive(Debug, Clone, PartialEq, Eq, Default)]
pub struct ManaCost {
    symbols: Vec<ManaSymbol>,
}

impl View for ManaCost {
    type V = Seq<ManaSymbol>;

    closed spec fn view(&self) -> Seq<ManaSymbol> {
        self.symbols@
    }
}

/// The body of a brace group as a symbol.
fn parse_symbol(body: &[char]) -> (r: Result<ManaSymbol, ManaCostError>)
    ensures
        r matches Ok(sym) ==> symbol_of(body@) == Some(sym),
        r matches Err(e) ==> symbol_of(body@) is None && e@ == CostFault::UnknownSymbol(body@),
{
    if let Some(n) = parse_u8_chars(body) {
        return Ok(ManaSymbol::Generic(n));
    }
    let parts = split_chars(body, '/');
    let ghost ps = views(parts@);
    assert(ps.len() == parts@.len());
    let unknown = ManaCostError::UnknownSymbol(string_of(body));
    if parts.len() == 1 {
        assert(ps[0] == parts@[0]@);
        let p = parts[0].as_slice();
        if p.len() == 1 && (p[0] == 'X' || p[0] == 'Y' || p[0] == 'Z') {
            assert(p@ =~= seq![p[0]]);
            return Ok(ManaSymbol::Variable);
        }
        if p.len() == 1 && p[0] == 'C' {
            assert(p@ =~= seq!['C']);
            return Ok(ManaSymbol::Colorless);
        }
        if p.len() == 1 && p[0] == 'S' {
            assert(p@ =~= seq!['S']);
            return Ok(ManaSymbol::Snow);
        }
        assert(p@ != seq!['X'] && p@ != seq!['Y'] && p@ != seq!['Z'] && p@ != seq!['C'] && p@
            != seq!['S']) by {
            if p@.len() == 1 {
                assert(seq!['X'][0] == 'X');
            }
        }
        return match single_color_of(p) {
            Some(c) => Ok(ManaSymbol::Colored(c)),
            None => Err(unknown),
        };
    }
    if parts.len() == 2 {
        assert(ps[0] == parts@[0]@ && ps[1] == parts@[1]@);
        let a = parts[0].as_slice();
        let b = parts[1].as_slice();
        if is_letter(b, 'P') {
            return match single_color_of(a) {
                Some(c) => Ok(ManaSymbol::Phyrexian(c)),
                None => Err(unknown),
            };
        }
        if is_letter(a, '2') {
            return match single_color_of(b) {
                Some(c) => Ok(ManaSymbol::MonoHybrid(c)),
                None => Err(unknown),
            };
        }
        return match (single_color_of(a), single_color_of(b)) {
            (Some(x), Some(y)) => Ok(ManaSymbol::Hybrid(x, y)),
            _ => Err(unknown),
        };
    }
    if parts.len() == 3 {
        assert(ps[0] == parts@[0]@ && ps[1] == parts@[1]@ && ps[2] == parts@[2]@);
        if is_letter(parts[2].as_slice(), 'P') {
            return match (single_color_of(parts[0].as_slice()), single_color_of(parts[1].as_slice())) {
                (Some(x), Some(y)) => Ok(ManaSymbol::HybridPhyrexian(x, y)),
                _ => Err(unknown),
            };
        }
    }
    Err(unknown)
}

/// True when `s` is exactly the one character `c`.
fn is_letter(s: &[char], c: char) -> (r: bool)
    ensures
        r == (s@ == seq![c]),
{
    if s.len() == 1 && s[0] == c {
        assert(s@ =~= seq![c]);
        true
    } else {
        assert(s@ != seq![c]) by {
            if s@.len() == 1 {
                assert(seq![c][0] == c);
            }
        }
        false
    }
}

fn single_color_of(s: &[char]) -> (r: Option<Color>)
    ensures
        r == single_color(s@),
{
    if s.len() != 1 {
        return None;
    }
    Color::from_symbol(s[0])
}

impl ManaCost {
    /// The empty cost, used by lands and by the back faces of transforming cards.
    pub fn empty() -> (r: ManaCost)
        ensures
            r@ == Seq::<ManaSymbol>::empty(),
    {
        ManaCost { symbols: Vec::new() }
    }

    pub fn from_symbols(symbols: Vec<ManaSymbol>) -> (r: ManaCost)
        ensures
            r@ == symbols@,
    {
        ManaCost { symbols }
    }

    /// Parses Scryfall brace notation, e.g. `{2}{W}{U}` or `{X}{B/G}{B/G}`.
    ///
    /// An empty string is a valid empty cost; that is how Scryfall represents lands.
    pub fn parse(input: &str) -> (r: Result<ManaCost, ManaCostError>)
        ensures
            r matches Ok(cost) ==> parse_cost(input@) == Ok::<Seq<ManaSymbol>, CostFault>(
                cost@,
            ),
            r matches Err(e) ==> parse_cost(input@) == Err::<Seq<ManaSymbol>, CostFault>(e@),
    {
        let all = chars_of(input);
        let trimmed = trim_chars(all.as_slice());
        let mut symbols: Vec<ManaSymbol> = Vec::new();
        let mut rest = trimmed;
        while rest.len() > 0
            invariant
                parse_cost(input@) == (match parse_groups(rest@) {
                    Ok(more) => Ok(symbols@ + more),
                    Err(e) => Err::<Seq<ManaSymbol>, CostFault>(e),
                }),
            decreases rest@.len(),
        {
            proof {
                lemma_find(rest@, '{');
                lemma_find(rest@, '}');
            }
            match find_char(rest.as_slice(), '{') {
                Some(open) => {
                    if open != 0 {
                        return Err(ManaCostError::StrayText(rest[0]));
                    }
                },
                None => {
                    return Err(ManaCostError::StrayText(rest[0]));
                },
            }
            let close = match find_char(rest.as_slice(), '}') {
                Some(close) => close,
                None => {
                    return Err(ManaCostError::UnclosedBrace);
                },
            };
            assert(rest@[0] == '{');
            assert(1 <= close < rest@.len());
            let body = slice_chars(rest.as_slice(), 1, close);
            let symbol = match parse_symbol(body.as_slice()) {
                Ok(symbol) => symbol,
                Err(e) => {
                    return Err(e);
                },
            };
            let ghost before = symbols@;
            symbols.push(symbol);
            let next = slice_chars(rest.as_slice(), close + 1, rest.len());
            proof {
                assert(next@ =~= rest@.skip(close + 1));
                match parse_groups(next@) {
                    Ok(more) => {
                        assert(before + (seq![symbol] + more) =~= symbols@ + more);
                    },
                    Err(_) => {},
                }
            }
            rest = next;
        }
        assert(symbols@ + Seq::<ManaSymbol>::empty() =~= symbols@);
        Ok(ManaCost { symbols })
    }

    pub fn symbols(&self) -> (r: &[ManaSymbol])
        ensures
            r@ == self@,
    {
        self.symbols.as_slice()
    }

    pub fn is_empty(&self) -> (r: bool)
        ensures
            r == (self@.len() == 0),
    {
        self.symbols.len() == 0
    }

    /// Total mana value (converted mana cost).
    pub fn mana_value(&self) -> (r: u32)
        requires
            total_value(self@) <= u32::MAX,
        ensures
            r == total_value(self@),
    {
        let mut total: u32 = 0;
        let mut i: usize = 0;
        while i < self.symbols.len()
            invariant
                i <= self@.len(),
                self@ == self.symbols@,
                total == total_value(self@.take(i as int)),
                total_value(self@) <= u32::MAX,
            decreases self@.len() - i,
        {
            proof {
                lemma_total_value_prefix(self@, i as int + 1);
                assert(self@.take(i + 1).drop_last() =~= self@.take(i as int));
            }
            total = total + self.symbols[i].mana_value();
            i = i + 1;
        }
        assert(self@.take(i as int) =~= self@);
        total
    }

    /// Every color this cost can require.
    pub fn colors(&self) -> (r: ColorSet)
        ensures
            forall|c: Color|
                r.has(c) <==> exists|i: int|
                    0 <= i < self@.len() && (#[trigger] self@[i]).requires_color(c),
    {
        let mut acc = ColorSet::colorless();
        let mut i: usize = 0;
        while i < self.symbols.len()
            invariant
                i <= self@.len(),
                self@ == self.symbols@,
                forall|c: Color|
                    acc.has(c) <==> exists|k: int|
                        0 <= k < i && (#[trigger] self@[k]).requires_color(c),
            decreases self@.len() - i,
        {
            let sym = self.symbols[i];
            let ghost before = acc;
            acc = acc.union(sym.colors());
            proof {
                assert forall|c: Color|
                    acc.has(c) <==> exists|k: int|
                        0 <= k < i + 1 && (#[trigger] self@[k]).requires_color(c) by {
                    if sym.requires_color(c) {
                        assert(self@[i as int] == sym);
                    }
                    if exists|k: int| 0 <= k < i + 1 && (#[trigger] self@[k]).requires_color(c) {
                        let k = choose|k: int|
                            0 <= k < i + 1 && (#[trigger] self@[k]).requires_color(c);
                        if k < i {
                            assert(before.has(c));
                        }
                    }
                }
            }
            i = i + 1;
        }
        acc
    }

    /// How many symbols require exactly `color` as a plain colored pip, modulo 2^32.
    ///
    /// This is the input to land-count formulas, which care about the number of colored pips
    /// in a cost, not its mana value: `{B}{B}` needs far more black sources than `{2}{B}`.
    pub fn pip_count(&self, color: Color) -> (r: u32)
        ensures
            r as nat == pips(self@, color) % 0x1_0000_0000,
    {
        let mut count: u32 = 0;
        let mut i: usize = 0;
        while i < self.symbols.len()
            invariant
                i <= self@.len(),
                self@ == self.symbols@,
                count as nat == pips(self@.take(i as int), color) % 0x1_0000_0000,
            decreases self@.len() - i,
        {
            assert(self@.take(i + 1).drop_last() =~= self@.take(i as int));
            if self.symbols[i] == ManaSymbol::Colored(color) {
                count = count.wrapping_add(1);
            }
            i = i + 1;
        }
        assert(self@.take(i as int) =~= self@);
        count
    }

    /// True when the cost contains at least one `{X}`.
    pub fn has_variable(&self) -> (r: bool)
        ensures
            r == self@.contains(ManaSymbol::Variable),
    {
        let mut i: usize = 0;
        while i < self.symbols.len()
            invariant
                i <= self@.len(),
                self@ == self.symbols@,
                forall|k: int| 0 <= k < i ==> self@[k] != ManaSymbol::Variable,
            decreases self@.len() - i,
        {
            if self.symbols[i] == ManaSymbol::Variable {
                assert(self@[i as int] == ManaSymbol::Variable);
                return true;
            }
            i = i + 1;
        }
        false
    }
}

proof fn lemma_total_value_prefix(s: Seq<ManaSymbol>, k: int)
    requires
        0 <= k <= s.len(),
    ensures
        total_value(s.take(k)) <= total_value(s),
    decreases s.len() - k,
{
    if k < s.len() {
        lemma_total_value_prefix(s, k + 1);
        assert(s.take(k + 1).drop_last() =~= s.take(k));
    } else {
        assert(s.take(k) =~= s);
    }
}

/// Mana value only counts symbols: a cost's value is the sum over its parts, so joining two
/// costs adds their values.
pub proof fn law_total_value_adds(a: Seq<ManaSymbol>, b: Seq<ManaSymbol>)
    ensures
        total_value(a + b) == total_value(a) + total_value(b),
    decreases b.len(),
{
    if b.len() == 0 {
        assert(a + b =~= a);
    } else {
        law_total_value_adds(a, b.drop_last());
        assert((a + b).drop_last() =~= a + b.drop_last());
    }
}

proof fn lemma_split_plain(s: Seq<char>)
    requires
        forall|i: int| 0 <= i < s.len() ==> #[trigger] s[i] != '/',
    ensures
        split(s, '/') == seq![s],
{
    crate::text::lemma_find_is_first(s, '/', s.len() as int);
}

proof fn lemma_split_at_slash(a: Seq<char>, rest: Seq<char>)
    requires
        forall|i: int| 0 <= i < a.len() ==> #[trigger] a[i] != '/',
    ensures
        split(a + seq!['/'] + rest, '/') == seq![a] + split(rest, '/'),
{
    let s = a + seq!['/'] + rest;
    assert forall|k: int| 0 <= k < a.len() implies #[trigger] s[k] != '/' by {
        assert(s[k] == a[k]);
    }
    assert(s[a.len() as int] == '/');
    crate::text::lemma_find_is_first(s, '/', a.len() as int);
    assert(s.take(a.len() as int) =~= a);
    assert(s.skip(a.len() + 1 as int) =~= rest);
}

/// The letter Scryfall writes for a color.
pub open spec fn mana_letter(c: Color) -> char {
    match c {
        Color::White => 'W',
        Color::Blue => 'U',
        Color::Black => 'B',
        Color::Red => 'R',
        Color::Green => 'G',
    }
}

/// What each brace group of Scryfall's notation stands for: `{W}` a colored pip, `{W/P}` a
/// Phyrexian symbol of that color, `{2/W}` a mono-hybrid one, `{W/U}` a hybrid of the two
/// colors, `{W/U/P}` a Phyrexian hybrid, `{C}` colorless, `{S}` snow, `{X}` (or `Y`, `Z`) a
/// variable amount, and a single digit that much generic mana.
pub proof fn law_brace_groups_read_as_scryfall_writes_them(a: Color, b: Color, d: char)
    ensures
        symbol_of(seq![mana_letter(a)]) == Some(ManaSymbol::Colored(a)),
        symbol_of(seq![mana_letter(a), '/', 'P']) == Some(ManaSymbol::Phyrexian(a)),
        symbol_of(seq!['2', '/', mana_letter(a)]) == Some(ManaSymbol::MonoHybrid(a)),
        symbol_of(seq![mana_letter(a), '/', mana_letter(b)]) == Some(ManaSymbol::Hybrid(a, b)),
        symbol_of(seq![mana_letter(a), '/', mana_letter(b), '/', 'P']) == Some(
            ManaSymbol::HybridPhyrexian(a, b),
        ),
        symbol_of(seq!['C']) == Some(ManaSymbol::Colorless),
        symbol_of(seq!['S']) == Some(ManaSymbol::Snow),
        symbol_of(seq!['X']) == Some(ManaSymbol::Variable),
        symbol_of(seq!['Y']) == Some(ManaSymbol::Variable),
        symbol_of(seq!['Z']) == Some(ManaSymbol::Variable),
        '0' <= d <= '9' ==> symbol_of(seq![d]) == Some(ManaSymbol::Generic((d as u32 - '0' as u32) as u8)),
{
    let la = mana_letter(a);
    let lb = mana_letter(b);
    assert(Color::of_letter(la) == Some(a));
    assert(Color::of_letter(lb) == Some(b));
    let one = seq![la];
    lemma_split_plain(one);
    assert(!all_digits(one));
    lemma_split_plain(seq!['P']);
    lemma_split_plain(seq![lb]);
    lemma_split_plain(seq!['2']);
    lemma_split_at_slash(one, seq!['P']);
    assert(seq![la, '/', 'P'] =~= one + seq!['/'] + seq!['P']);
    assert(!all_digits(seq![la, '/', 'P']));
    lemma_split_at_slash(seq!['2'], one);
    assert(seq!['2', '/', la] =~= seq!['2'] + seq!['/'] + one);
    assert(!all_digits(seq!['2', '/', la])) by {
        assert(!('0' <= seq!['2', '/', la][1] && seq!['2', '/', la][1] <= '9'));
    }
    lemma_split_at_slash(one, seq![lb]);
    assert(seq![la, '/', lb] =~= one + seq!['/'] + seq![lb]);
    assert(!all_digits(seq![la, '/', lb]));
    lemma_split_at_slash(seq![lb], seq!['P']);
    lemma_split_at_slash(one, seq![lb, '/', 'P']);
    assert(seq![lb, '/', 'P'] =~= seq![lb] + seq!['/'] + seq!['P']);
    assert(seq![la, '/', lb, '/', 'P'] =~= one + seq!['/'] + seq![lb, '/', 'P']);
    assert(!all_digits(seq![la, '/', lb, '/', 'P']));
    assert(split(seq![la, '/', lb, '/', 'P'], '/') =~= seq![one, seq![lb], seq!['P']]);
    assert(split(seq![la, '/', lb], '/') =~= seq![one, seq![lb]]);
    assert(split(seq!['2', '/', la], '/') =~= seq![seq!['2'], one]);
    assert(split(seq![la, '/', 'P'], '/') =~= seq![one, seq!['P']]);
    assert(seq!['P'] != seq!['2']) by {
        assert(seq!['P'][0] != seq!['2'][0]);
    }
    assert(one != seq!['2']) by {
        assert(one[0] != seq!['2'][0]);
    }
    assert(seq![lb] != seq!['P']) by {
        assert(seq![lb][0] != seq!['P'][0]);
    }
    assert(one != seq!['X'] && one != seq!['Y'] && one != seq!['Z'] && one != seq!['C'] && one
        != seq!['S']) by {
        assert(one[0] != 'X' && one[0] != 'Y' && one[0] != 'Z' && one[0] != 'C' && one[0] != 'S');
    }
    lemma_split_plain(seq!['C']);
    lemma_split_plain(seq!['S']);
    lemma_split_plain(seq!['X']);
    lemma_split_plain(seq!['Y']);
    lemma_split_plain(seq!['Z']);
    assert(!all_digits(seq!['C']) && !all_digits(seq!['S']) && !all_digits(seq!['X'])
        && !all_digits(seq!['Y']) && !all_digits(seq!['Z']));
    assert(seq!['S'] != seq!['X'] && seq!['S'] != seq!['Y'] && seq!['S'] != seq!['Z'] && seq!['S']
        != seq!['C']) by {
        assert(seq!['S'][0] == 'S');
    }
    assert(seq!['C'] != seq!['X'] && seq!['C'] != seq!['Y'] && seq!['C'] != seq!['Z']) by {
        assert(seq!['C'][0] == 'C');
    }
    if '0' <= d <= '9' {
        let ds = seq![d];
        assert(all_digits(ds));
        assert(ds.drop_last() =~= Seq::<char>::empty());
        assert(ds.last() == d);
        assert(digits_value(Seq::<char>::empty()) == 0);
        assert(digits_value(ds) == digits_value(ds.drop_last()) * 10 + ((d as nat) - ('0' as nat)) as nat);
    }
}
} // verus!
