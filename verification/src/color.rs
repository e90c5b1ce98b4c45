//! Colors and color sets.

use vstd::prelude::*;

use crate::text::{chars_of, push_char};

verus! {

/// One of the five colors of Magic.
///
/// Colorless is deliberately absent: it is the empty set of colors, not a sixth variant.
#[derive(Debug, Clone, Copy, PartialEq, Eq, PartialOrd, Ord, Hash, Structural)]
pub enum Color {
    White,
    Blue,
    Black,
    Red,
    Green,
}

/// Every color, in the canonical WUBRG order used throughout Magic.
pub open spec fn wubrg() -> Seq<Color> {
    seq![Color::White, Color::Blue, Color::Black, Color::Red, Color::Green]
}

impl Color {
    /// Every color, in the canonical WUBRG order used throughout Magic.
    pub const ALL: [Color; 5] = [Color::White, Color::Blue, Color::Black, Color::Red, Color::Green];

    /// The single-letter mana symbol of a color.
    pub open spec fn letter(self) -> char {
        match self {
            Color::White => 'W',
            Color::Blue => 'U',
            Color::Black => 'B',
            Color::Red => 'R',
            Color::Green => 'G',
        }
    }

    /// The color a mana symbol names, if any.
    pub open spec fn of_letter(c: char) -> Option<Color> {
        if c == 'W' {
            Some(Color::White)
        } else if c == 'U' {
            Some(Color::Blue)
        } else if c == 'B' {
            Some(Color::Black)
        } else if c == 'R' {
            Some(Color::Red)
        } else if c == 'G' {
            Some(Color::Green)
        } else {
            None
        }
    }

    /// Position in WUBRG order, used for bit indexing.
    pub open spec fn position(self) -> u8 {
        match self {
            Color::White => 0,
            Color::Blue => 1,
            Color::Black => 2,
            Color::Red => 3,
            Color::Green => 4,
        }
    }

    /// The single-letter symbol for this color, as used in mana costs.
    pub fn symbol(self) -> (r: char)
        ensures
            r == self.letter(),
    {
        match self {
            Color::White => 'W',
            Color::Blue => 'U',
            Color::Black => 'B',
            Color::Red => 'R',
            Color::Green => 'G',
        }
    }

    /// Parses a color from its mana symbol. Case-sensitive, as Scryfall data is.
    pub fn from_symbol(symbol: char) -> (r: Option<Color>)
        ensures
            r == Color::of_letter(symbol),
    {
        match symbol {
            'W' => Some(Color::White),
            'U' => Some(Color::Blue),
            'B' => Some(Color::Black),
            'R' => Some(Color::Red),
            'G' => Some(Color::Green),
            _ => None,
        }
    }

    /// Position in WUBRG order, used for bit indexing.
    pub fn index(self) -> (r: u8)
        ensures
            r == self.position(),
            r < 5,
    {
        match self {
            Color::White => 0,
            Color::Blue => 1,
            Color::Black => 2,
            Color::Red => 3,
            Color::Green => 4,
        }
    }
}

/// Symbol parsing inverts symbol rendering, for every color.
pub proof fn law_symbol_round_trip(c: Color)
    ensures
        Color::of_letter(c.letter()) == Some(c),
{
}

/// Only the five upper-case WUBRG letters name a color, and each names the color that
/// renders as it.
pub proof fn law_from_symbol_only_accepts_symbols(ch: char)
    ensures
        Color::of_letter(ch) matches Some(c) ==> c.letter() == ch,
        Color::of_letter(ch) is None <==> !(ch == 'W' || ch == 'U' || ch == 'B' || ch == 'R'
            || ch == 'G'),
{
}

/// The WUBRG letters of the colors present, in order.
pub open spec fn letters(w: bool, u: bool, b: bool, r: bool, g: bool) -> Seq<char> {
    (if w { seq!['W'] } else { Seq::empty() }) + (if u { seq!['U'] } else { Seq::empty() }) + (
    if b {
        seq!['B']
    } else {
        Seq::empty()
    }) + (if r { seq!['R'] } else { Seq::empty() }) + (if g { seq!['G'] } else { Seq::empty() })
}

/// How a set of colors reads: its WUBRG letters, or `C` when it holds none.
pub open spec fn render(w: bool, u: bool, b: bool, r: bool, g: bool) -> Seq<char> {
    if !(w || u || b || r || g) {
        seq!['C']
    } else {
        letters(w, u, b, r, g)
    }
}

/// True when bit `i` of `bits` is set.
pub open spec fn bit_set(bits: u8, i: u8) -> bool {
    bits & (1u8 << i) != 0
}

/// A set of colors, packed into the low five bits of a byte.
///
/// Used for a card's colors, its color identity, and a Commander deck's allowed identity.
/// [`ColorSet::is_subset_of`] is what enforces the Commander identity rule.
#[derive(Debug, Clone, Copy, PartialEq, Eq, PartialOrd, Ord, Hash, Default, Structural)]
pub struct ColorSet(u8);

/// Facts about single bits of a byte.
proof fn byte_ops(a: u8, b: u8, i: u8, j: u8)
    by (bit_vector)
    requires
        i < 8,
        j < 8,
    ensures
        bit_set(a | b, i) == (bit_set(a, i) || bit_set(b, i)),
        bit_set(a & b, i) == (bit_set(a, i) && bit_set(b, i)),
        bit_set(a | (1u8 << i), i),
        i != j ==> bit_set(a | (1u8 << i), j) == bit_set(a, j),
        !bit_set(0u8, i),
        i < 5 ==> bit_set(31u8, i),
        i < 5 ==> bit_set(a & 31u8, i) == bit_set(a, i),
        (a & 31u8) < 32,
        a < 32 && b < 32 ==> (a | b) < 32,
        a < 32 ==> (a & b) < 32,
        a < 32 && i < 5 ==> (a | (1u8 << i)) < 32,
        a < 32 ==> a & 31u8 == a,
{
}

/// Complementing only the low five bits does not change what a five-bit set excludes.
proof fn not_masked(a: u8, b: u8)
    by (bit_vector)
    requires
        a < 32,
    ensures
        (a & !b == 0) == (a & !(b & 31u8) == 0),
{
}

/// Facts about five-bit sets, one bit per color.
proof fn five_bits(a: u8, b: u8)
    by (bit_vector)
    requires
        a < 32,
        b < 32,
    ensures
        (bit_set(a, 0) == bit_set(b, 0) && bit_set(a, 1) == bit_set(b, 1) && bit_set(a, 2)
            == bit_set(b, 2) && bit_set(a, 3) == bit_set(b, 3) && bit_set(a, 4) == bit_set(b, 4))
            ==> a == b,
        (a & !b == 0) <==> ((bit_set(a, 0) ==> bit_set(b, 0)) && (bit_set(a, 1) ==> bit_set(b, 1))
            && (bit_set(a, 2) ==> bit_set(b, 2)) && (bit_set(a, 3) ==> bit_set(b, 3)) && (
        bit_set(a, 4) ==> bit_set(b, 4))),
        a != 0 ==> (bit_set(a, 0) || bit_set(a, 1) || bit_set(a, 2) || bit_set(a, 3) || bit_set(
            a,
            4,
        )),
{
}

impl ColorSet {
    #[verifier::type_invariant]
    spec fn wf(self) -> bool {
        self.0 < 32
    }

    /// The raw bits of the set.
    pub closed spec fn raw(self) -> u8 {
        self.0
    }

    /// True when the set holds `c`.
    pub open spec fn has(self, c: Color) -> bool {
        bit_set(self.raw(), c.position())
    }

    /// The colors of the set, in WUBRG order.
    pub open spec fn members(self) -> Seq<Color> {
        (if self.has(Color::White) { seq![Color::White] } else { Seq::empty() }) + (if self.has(
            Color::Blue,
        ) {
            seq![Color::Blue]
        } else {
            Seq::empty()
        }) + (if self.has(Color::Black) { seq![Color::Black] } else { Seq::empty() }) + (
        if self.has(Color::Red) {
            seq![Color::Red]
        } else {
            Seq::empty()
        }) + (if self.has(Color::Green) { seq![Color::Green] } else { Seq::empty() })
    }

    /// Number of colors in the set.
    pub open spec fn size(self) -> nat {
        self.members().len()
    }

    /// True when every color of `self` is in `other`.
    pub open spec fn within(self, other: ColorSet) -> bool {
        forall|c: Color| self.has(c) ==> other.has(c)
    }

    /// How the set reads: its WUBRG letters, or `C` when colorless.
    pub open spec fn rendered(self) -> Seq<char> {
        render(
            self.has(Color::White),
            self.has(Color::Blue),
            self.has(Color::Black),
            self.has(Color::Red),
            self.has(Color::Green),
        )
    }

    /// Every set built by this module keeps to the low five bits.
    pub closed spec fn valid(self) -> bool {
        self.0 < 32
    }

    /// Sets are equal exactly when they hold the same colors.
    pub proof fn lemma_ext(self, other: ColorSet)
        requires
            self.valid(),
            other.valid(),
            forall|c: Color| self.has(c) == other.has(c),
        ensures
            self == other,
    {
        assert(self.has(Color::White) == other.has(Color::White));
        assert(self.has(Color::Blue) == other.has(Color::Blue));
        assert(self.has(Color::Black) == other.has(Color::Black));
        assert(self.has(Color::Red) == other.has(Color::Red));
        assert(self.has(Color::Green) == other.has(Color::Green));
        five_bits(self.0, other.0);
    }

    /// No colors. This is what "colorless" means.
    pub fn colorless() -> (r: ColorSet)
        ensures
            forall|c: Color| !r.has(c),
            r.valid(),
    {
        let r = ColorSet(0);
        proof {
            assert forall|c: Color| !r.has(c) by {
                byte_ops(0, 0, c.position(), 0);
            }
        }
        r
    }

    /// All five colors.
    pub fn wubrg() -> (r: ColorSet)
        ensures
            forall|c: Color| r.has(c),
            r.valid(),
    {
        let r = ColorSet(31);
        proof {
            assert forall|c: Color| r.has(c) by {
                byte_ops(0, 0, c.position(), 0);
            }
        }
        r
    }

    /// Builds a set from a list of colors.
    pub fn from_colors(colors: &[Color]) -> (r: ColorSet)
        ensures
            forall|c: Color| r.has(c) <==> colors@.contains(c),
            r.valid(),
    {
        let mut set = ColorSet::colorless();
        let mut i: usize = 0;
        while i < colors.len()
            invariant
                i <= colors@.len(),
                set.valid(),
                forall|c: Color| set.has(c) <==> colors@.take(i as int).contains(c),
            decreases colors@.len() - i,
        {
            let ghost before = set;
            set.insert(colors[i]);
            proof {
                assert forall|c: Color| set.has(c) <==> colors@.take(i + 1).contains(c) by {
                    if colors@.take(i as int).contains(c) {
                        let k = choose|k: int| #![trigger colors@.take(i as int)[k]]
                            0 <= k < i && colors@.take(i as int)[k] == c;
                        assert(colors@.take(i + 1)[k] == c);
                    }
                    if colors@.take(i + 1).contains(c) {
                        let k = choose|k: int| #![trigger colors@.take(i + 1)[k]] 0 <= k < i + 1 && colors@.take(i + 1)[k] == c;
                        if k < i {
                            assert(colors@.take(i as int)[k] == c);
                        }
                    }
                    assert(colors@.take(i + 1)[i as int] == colors@[i as int]);
                }
            }
            i = i + 1;
        }
        assert(colors@.take(colors@.len() as int) =~= colors@);
        set
    }

    /// Builds a set from mana symbols, e.g. `"WU"`. Unknown characters are ignored,
    /// which keeps parsing tolerant of upstream data we do not model.
    pub fn from_symbols(symbols: &str) -> (r: ColorSet)
        ensures
            forall|c: Color| r.has(c) <==> symbols@.contains(c.letter()),
            r.valid(),
    {
        let chars = chars_of(symbols);
        let mut set = ColorSet::colorless();
        let mut i: usize = 0;
        while i < chars.len()
            invariant
                i <= chars@.len(),
                chars@ == symbols@,
                set.valid(),
                forall|c: Color| set.has(c) <==> chars@.take(i as int).contains(c.letter()),
            decreases chars@.len() - i,
        {
            let ch = chars[i];
            match Color::from_symbol(ch) {
                Some(color) => {
                    set.insert(color);
                },
                None => {},
            }
            proof {
                assert forall|c: Color|
                    set.has(c) <==> chars@.take(i + 1).contains(c.letter()) by {
                    if chars@.take(i as int).contains(c.letter()) {
                        let k = choose|k: int| #![trigger chars@.take(i as int)[k]]
                            0 <= k < i && chars@.take(i as int)[k] == c.letter();
                        assert(chars@.take(i + 1)[k] == c.letter());
                    }
                    if chars@.take(i + 1).contains(c.letter()) {
                        let k = choose|k: int| #![trigger chars@.take(i + 1)[k]]
                            0 <= k < i + 1 && chars@.take(i + 1)[k] == c.letter();
                        if k < i {
                            assert(chars@.take(i as int)[k] == c.letter());
                        }
                    }
                    assert(chars@.take(i + 1)[i as int] == ch);
                    law_symbol_round_trip(c);
                    law_from_symbol_only_accepts_symbols(ch);
                }
            }
            i = i + 1;
        }
        assert(chars@.take(chars@.len() as int) =~= chars@);
        set
    }

    /// Adds a color.
    pub fn insert(&mut self, color: Color)
        ensures
            final(self).has(color),
            forall|c: Color| c != color ==> (final(self).has(c) == old(self).has(c)),
            final(self).valid(),
    {
        proof {
            use_type_invariant(&*self);
        }
        let i = color.index();
        let bits = self.0 | (1u8 << i);
        proof {
            let a = self.0;
            byte_ops(a, a, i, 0);
            assert forall|c: Color| c != color implies bit_set(bits, c.position()) == bit_set(
                a,
                c.position(),
            ) by {
                byte_ops(a, a, i, c.position());
            }
        }
        *self = ColorSet(bits);
    }

    /// True when the set holds `color`.
    pub fn contains(self, color: Color) -> (r: bool)
        ensures
            r == self.has(color),
    {
        self.0 & (1u8 << color.index()) != 0
    }

    /// True for the empty set.
    pub fn is_colorless(self) -> (r: bool)
        ensures
            r == (forall|c: Color| !self.has(c)),
    {
        proof {
            use_type_invariant(self);
            if self.0 != 0 {
                five_bits(self.0, 0);
                assert(self.has(Color::White) || self.has(Color::Blue) || self.has(Color::Black)
                    || self.has(Color::Red) || self.has(Color::Green));
            } else {
                assert forall|c: Color| !self.has(c) by {
                    byte_ops(0, 0, c.position(), 0);
                }
            }
        }
        self.0 == 0
    }

    /// Number of colors in the set.
    pub fn len(self) -> (r: u32)
        ensures
            r == self.size(),
    {
        let mut n: u32 = 0;
        if self.contains(Color::White) {
            n = n + 1;
        }
        if self.contains(Color::Blue) {
            n = n + 1;
        }
        if self.contains(Color::Black) {
            n = n + 1;
        }
        if self.contains(Color::Red) {
            n = n + 1;
        }
        if self.contains(Color::Green) {
            n = n + 1;
        }
        n
    }

    /// True for the empty set.
    pub fn is_empty(self) -> (r: bool)
        ensures
            r == (forall|c: Color| !self.has(c)),
    {
        self.is_colorless()
    }

    /// True when every color in `self` is also in `other`.
    ///
    /// This is the Commander color identity rule: a card is legal in a deck when its identity
    /// is a subset of the commander's. The colorless set is a subset of everything.
    pub fn is_subset_of(self, other: ColorSet) -> (r: bool)
        ensures
            r == self.within(other),
    {
        proof {
            use_type_invariant(self);
            byte_ops(other.0, other.0, 0, 0);
            five_bits(self.0, other.0 & 31u8);
            assert forall|i: u8| i < 5 implies bit_set(other.0 & 31u8, i) == bit_set(other.0, i) by {
                byte_ops(other.0, other.0, i, 0);
            }
            not_masked(self.0, other.0);
            if self.0 & !other.0 == 0 {
                assert forall|c: Color| self.has(c) implies other.has(c) by {
                    assert(c.position() < 5);
                }
            } else {
                let i = choose|i: u8| #![trigger bit_set(self.0, i)] i < 5 && bit_set(self.0, i) && !bit_set(other.0, i);
                let c = if i == 0 {
                    Color::White
                } else if i == 1 {
                    Color::Blue
                } else if i == 2 {
                    Color::Black
                } else if i == 3 {
                    Color::Red
                } else {
                    Color::Green
                };
                assert(c.position() == i);
                assert(self.has(c) && !other.has(c));
            }
        }
        self.0 & !other.0 == 0
    }

    /// Every color in either set.
    pub fn union(self, other: ColorSet) -> (r: ColorSet)
        ensures
            forall|c: Color| r.has(c) == (self.has(c) || other.has(c)),
            r.valid(),
    {
        proof {
            use_type_invariant(self);
            use_type_invariant(other);
            let (a, b) = (self.0, other.0);
            byte_ops(a, b, 0, 0);
            assert forall|c: Color| bit_set(a | b, c.position()) == (bit_set(a, c.position())
                || bit_set(b, c.position())) by {
                byte_ops(a, b, c.position(), 0);
            }
        }
        ColorSet(self.0 | other.0)
    }

    /// The colors in both sets.
    pub fn intersection(self, other: ColorSet) -> (r: ColorSet)
        ensures
            forall|c: Color| r.has(c) == (self.has(c) && other.has(c)),
            r.valid(),
    {
        proof {
            use_type_invariant(self);
            let (a, b) = (self.0, other.0);
            byte_ops(a, b, 0, 0);
            assert forall|c: Color| bit_set(a & b, c.position()) == (bit_set(a, c.position())
                && bit_set(b, c.position())) by {
                byte_ops(a, b, c.position(), 0);
            }
        }
        ColorSet(self.0 & other.0)
    }

    /// The colors present, in WUBRG order.
    pub fn iter(self) -> (r: Vec<Color>)
        ensures
            r@ == self.members(),
    {
        let mut out: Vec<Color> = Vec::new();
        if self.contains(Color::White) {
            out.push(Color::White);
        }
        let ghost a = out@;
        if self.contains(Color::Blue) {
            out.push(Color::Blue);
        }
        let ghost b = out@;
        if self.contains(Color::Black) {
            out.push(Color::Black);
        }
        let ghost c = out@;
        if self.contains(Color::Red) {
            out.push(Color::Red);
        }
        let ghost d = out@;
        if self.contains(Color::Green) {
            out.push(Color::Green);
        }
        assert(out@ =~= self.members());
        out
    }

    /// The raw bits, for packing into an archived card.
    pub fn bits(self) -> (r: u8)
        ensures
            r == self.raw(),
            r < 32,
    {
        proof {
            use_type_invariant(self);
        }
        self.0
    }

    /// Rebuilds a set from [`ColorSet::bits`]. Bits outside the low five are discarded.
    pub fn from_bits(bits: u8) -> (r: ColorSet)
        ensures
            r.raw() == bits & 31u8,
            forall|c: Color| r.has(c) == bit_set(bits, c.position()),
            r.valid(),
    {
        proof {
            byte_ops(bits, bits, 0, 0);
            assert forall|c: Color| bit_set(bits & 31u8, c.position()) == bit_set(bits, c.position()) by {
                byte_ops(bits, bits, c.position(), 0);
            }
        }
        ColorSet(bits & 0b1_1111)
    }

    /// Renders as WUBRG letters, or `C` when colorless.
    pub fn to_string(self) -> (r: String)
        ensures
            r@ == self.rendered(),
    {
        let mut out = String::new();
        let members = self.iter();
        if members.len() == 0 {
            assert(!self.has(Color::White) && !self.has(Color::Blue) && !self.has(Color::Black)
                && !self.has(Color::Red) && !self.has(Color::Green));
            push_char(&mut out, 'C');
            assert(out@ =~= seq!['C']);
            return out;
        }
        let mut i: usize = 0;
        while i < members.len()
            invariant
                i <= members@.len(),
                members@ == self.members(),
                out@ == members@.take(i as int).map_values(|c: Color| c.letter()),
            decreases members@.len() - i,
        {
            let ch = members[i].symbol();
            push_char(&mut out, ch);
            i = i + 1;
            assert(out@ =~= members@.take(i as int).map_values(|c: Color| c.letter()));
        }
        assert(members@.take(members@.len() as int) =~= members@);
        assert(self.members().map_values(|c: Color| c.letter()) =~= letters(
            self.has(Color::White),
            self.has(Color::Blue),
            self.has(Color::Black),
            self.has(Color::Red),
            self.has(Color::Green),
        ));
        out
    }
}

/// Rebuilding a set from its bits gives the same set back: a set whose bits are the low
/// five bits of `s` (what [`ColorSet::from_bits`] of [`ColorSet::bits`] gives) is `s`.
pub proof fn law_bits_round_trip(s: ColorSet, t: ColorSet)
    requires
        s.valid(),
        t.raw() == s.raw() & 31u8,
    ensures
        t == s,
{
    reveal_valid(s);
    let a = s.raw();
    byte_ops(a, a, 0, 0);
    lemma_same_bits(s, t);
}

proof fn lemma_same_bits(s: ColorSet, t: ColorSet)
    requires
        s.raw() == t.raw(),
    ensures
        s == t,
{
}

proof fn reveal_valid(s: ColorSet)
    requires
        s.valid(),
    ensures
        s.raw() < 32,
{
}

/// The colorless set is a subset of every set: colorless cards go in any deck.
pub proof fn law_colorless_within_everything(empty: ColorSet, s: ColorSet)
    requires
        forall|c: Color| !empty.has(c),
    ensures
        empty.within(s),
{
}

/// Subset is transitive, so nesting identities compose.
pub proof fn law_within_transitive(a: ColorSet, b: ColorSet, c: ColorSet)
    requires
        a.within(b),
        b.within(c),
    ensures
        a.within(c),
{
}

} // verus!
