//! The store of holdings.
//!
//! Holdings are kept by id, together with one index from merge key to holding id: scanning a
//! binder looks a key up once per card, so that lookup is the one the design needs fast.
//! Persisting the store is the application's business; every decision about what a change
//! does is made here.

use vstd::prelude::*;

use crate::collection::model::{
    CollectionError, Condition, Finish, Holding, HoldingId, NewHolding, Pool, StorageLocation,
};
use crate::text::{
    chars_of, decimal, lemma_lex_total, lex_less, lex_less_exec, push_decimal, push_str, str_eq,
    string_of, trim, trim_chars,
};

verus! {

/// One field of a merge key: its length in characters, a colon, then the field itself, so
/// that no field can run into the next whatever it holds.
pub open spec fn field(s: Seq<char>) -> Seq<char> {
    decimal(s.len()) + ":"@ + s
}

/// An optional field: `-` when absent, `+` and the field when present.
pub open spec fn optional_field(s: Option<Seq<char>>) -> Seq<char> {
    match s {
        Some(t) => "+"@ + field(t),
        None => "-"@,
    }
}

/// The location part of a merge key: `-` for no location; otherwise `+`, the container, and
/// the section and slot each as an optional field.
pub open spec fn location_key(location: Option<StorageLocation>) -> Seq<char> {
    match location {
        Some(l) => "+"@ + field(l.container@) + optional_field(l.section_view()) + optional_field(
            match l.slot {
                Some(n) => Some(decimal(n as nat)),
                None => None,
            },
        ),
        None => "-"@,
    }
}

/// A merge key: the fields that make copies interchangeable, each written as a [`field`],
/// then the location.
pub open spec fn key_text(
    pool: Pool,
    oracle_id: Seq<char>,
    set_code: Seq<char>,
    collector_number: Seq<char>,
    language: Seq<char>,
    finish: Seq<char>,
    condition: Seq<char>,
    location: Option<StorageLocation>,
) -> Seq<char> {
    field(pool.text()) + field(oracle_id) + field(set_code) + field(collector_number) + field(
        language,
    ) + field(finish) + field(condition) + location_key(location)
}

/// The merge key of a holding.
pub open spec fn holding_key(h: Holding) -> Seq<char> {
    key_text(
        h.pool,
        h.oracle_id@,
        h.set_code@,
        h.collector_number@,
        h.language@,
        h.finish.spelled(),
        h.condition.spelled(),
        h.location,
    )
}

/// The merge key of an addition.
pub open spec fn addition_key(n: NewHolding) -> Seq<char> {
    key_text(
        n.pool,
        n.oracle_id@,
        n.set_code@,
        n.collector_number@,
        n.language@,
        n.finish.spelled(),
        n.condition.spelled(),
        n.location,
    )
}

fn push_field(out: &mut String, s: &str)
    ensures
        final(out)@ == old(out)@ + field(s@),
{
    let n = chars_of(s).len();
    push_decimal(out, n as u64);
    push_str(out, ":");
    push_str(out, s);
    assert(final(out)@ =~= old(out)@ + field(s@)) by {
        reveal_strlit(":");
    }
}

fn push_optional_field(out: &mut String, s: Option<&str>)
    ensures
        final(out)@ == old(out)@ + optional_field(
            match s {
                Some(t) => Some(t@),
                None => None,
            },
        ),
{
    match s {
        Some(t) => {
            push_str(out, "+");
            push_field(out, t);
            assert(final(out)@ =~= old(out)@ + ("+"@ + field(t@)));
        },
        None => {
            push_str(out, "-");
        },
    }
}

fn merge_key(
    pool: Pool,
    oracle_id: &str,
    set_code: &str,
    collector_number: &str,
    language: &str,
    finish: &str,
    condition: &str,
    location: Option<&StorageLocation>,
) -> (r: String)
    ensures
        r@ == key_text(
            pool,
            oracle_id@,
            set_code@,
            collector_number@,
            language@,
            finish@,
            condition@,
            match location {
                Some(l) => Some(*l),
                None => None,
            },
        ),
{
    let mut out = String::new();
    push_field(&mut out, pool.as_str());
    push_field(&mut out, oracle_id);
    push_field(&mut out, set_code);
    push_field(&mut out, collector_number);
    push_field(&mut out, language);
    push_field(&mut out, finish);
    push_field(&mut out, condition);
    let ghost before = out@;
    match location {
        Some(l) => {
            push_str(&mut out, "+");
            push_field(&mut out, l.container.as_str());
            match &l.section {
                Some(sec) => push_optional_field(&mut out, Some(sec.as_str())),
                None => push_optional_field(&mut out, None),
            }
            match l.slot {
                Some(n) => {
                    let mut digits = String::new();
                    push_decimal(&mut digits, n as u64);
                    push_optional_field(&mut out, Some(digits.as_str()));
                },
                None => push_optional_field(&mut out, None),
            }
            assert(out@ =~= before + location_key(Some(*l)));
        },
        None => {
            push_str(&mut out, "-");
        },
    }
    assert(out@ =~= key_text(
        pool,
        oracle_id@,
        set_code@,
        collector_number@,
        language@,
        finish@,
        condition@,
        match location {
            Some(l) => Some(*l),
            None => None,
        },
    ));
    out
}

proof fn lemma_field_prefix(a: Seq<char>, b: Seq<char>, r1: Seq<char>, r2: Seq<char>)
    requires
        field(a) + r1 == field(b) + r2,
    ensures
        a == b,
        r1 == r2,
{
    reveal_strlit(":");
    let x = field(a) + r1;
    let da = decimal(a.len()).len() as int;
    let db = decimal(b.len()).len() as int;
    crate::text::lemma_decimal_digits(a.len());
    crate::text::lemma_decimal_digits(b.len());
    assert(x[da] == ':');
    assert(x[db] == ':');
    assert forall|k: int| 0 <= k < da implies '0' <= #[trigger] x[k] && x[k] <= '9' by {
        assert(x[k] == decimal(a.len())[k]);
    }
    assert forall|k: int| 0 <= k < db implies '0' <= #[trigger] x[k] && x[k] <= '9' by {
        assert(x[k] == (field(b) + r2)[k]);
        assert((field(b) + r2)[k] == decimal(b.len())[k]);
    }
    assert(da == db);
    assert(x.take(da) =~= decimal(a.len()));
    assert((field(b) + r2).take(db) =~= decimal(b.len()));
    assert(a.len() == b.len());
    assert(x.subrange(da + 1, da + 1 + a.len()) =~= a);
    assert((field(b) + r2).subrange(db + 1, db + 1 + b.len()) =~= b);
    assert(x.skip(da + 1 + a.len()) =~= r1);
    assert((field(b) + r2).skip(db + 1 + b.len()) =~= r2);
}

proof fn lemma_optional_prefix(a: Option<Seq<char>>, b: Option<Seq<char>>, r1: Seq<char>, r2: Seq<char>)
    requires
        optional_field(a) + r1 == optional_field(b) + r2,
    ensures
        a == b,
        r1 == r2,
{
    reveal_strlit("+");
    reveal_strlit("-");
    let x = optional_field(a) + r1;
    let y = optional_field(b) + r2;
    assert(x[0] == y[0]);
    match (a, b) {
        (Some(s), Some(t)) => {
            assert(x =~= "+"@ + (field(s) + r1));
            assert(y =~= "+"@ + (field(t) + r2));
            assert(x.skip(1) =~= field(s) + r1);
            assert(y.skip(1) =~= field(t) + r2);
            lemma_field_prefix(s, t, r1, r2);
        },
        (None, None) => {
            assert(x.skip(1) =~= r1);
            assert(y.skip(1) =~= r2);
        },
        (Some(s), None) => {
            assert(x[0] == '+');
            assert(y[0] == '-');
        },
        (None, Some(t)) => {
            assert(x[0] == '-');
            assert(y[0] == '+');
        },
    }
}

/// The parts of a location that a merge key records.
pub open spec fn location_parts(location: Option<StorageLocation>) -> Option<(Seq<char>, Option<Seq<char>>, Option<u16>)> {
    match location {
        Some(l) => Some((l.container@, l.section_view(), l.slot)),
        None => None,
    }
}

proof fn lemma_location_key(a: Option<StorageLocation>, b: Option<StorageLocation>)
    requires
        location_key(a) == location_key(b),
    ensures
        location_parts(a) == location_parts(b),
{
    reveal_strlit("+");
    reveal_strlit("-");
    let x = location_key(a);
    assert(x[0] == location_key(b)[0]);
    match (a, b) {
        (Some(l), Some(m)) => {
            let sl = match l.slot {
                Some(n) => Some(decimal(n as nat)),
                None => None,
            };
            let sm = match m.slot {
                Some(n) => Some(decimal(n as nat)),
                None => None,
            };
            let rl = optional_field(l.section_view()) + optional_field(sl);
            let rm = optional_field(m.section_view()) + optional_field(sm);
            assert(x.skip(1) =~= field(l.container@) + rl);
            assert(location_key(b).skip(1) =~= field(m.container@) + rm);
            lemma_field_prefix(l.container@, m.container@, rl, rm);
            lemma_optional_prefix(
                l.section_view(),
                m.section_view(),
                optional_field(sl),
                optional_field(sm),
            );
            assert(optional_field(sl) + Seq::<char>::empty() =~= optional_field(sl));
            assert(optional_field(sm) + Seq::<char>::empty() =~= optional_field(sm));
            lemma_optional_prefix(sl, sm, Seq::empty(), Seq::empty());
            match (l.slot, m.slot) {
                (Some(i), Some(j)) => {
                    crate::text::lemma_decimal_digits(i as nat);
                    crate::text::lemma_decimal_digits(j as nat);
                },
                _ => {},
            }
        },
        (Some(l), None) => {
            assert(x[0] == '+');
        },
        (None, Some(m)) => {
            assert(location_key(b)[0] == '+');
        },
        (None, None) => {},
    }
}

proof fn lemma_spelled_apart(f1: Finish, f2: Finish, k1: Condition, k2: Condition, p1: Pool, p2: Pool)
    ensures
        f1.spelled() == f2.spelled() ==> f1 == f2,
        k1.spelled() == k2.spelled() ==> k1 == k2,
        p1.text() == p2.text() ==> p1 == p2,
{
    reveal_strlit("Nonfoil");
    reveal_strlit("Foil");
    reveal_strlit("Etched");
    reveal_strlit("NearMint");
    reveal_strlit("LightlyPlayed");
    reveal_strlit("ModeratelyPlayed");
    reveal_strlit("HeavilyPlayed");
    reveal_strlit("Damaged");
    reveal_strlit("physical");
    reveal_strlit("digital");
    if f1.spelled() == f2.spelled() && f1 != f2 {
        assert(f1.spelled()[0] == f2.spelled()[0]);
        assert(f1.spelled().len() == f2.spelled().len());
    }
    if k1.spelled() == k2.spelled() && k1 != k2 {
        assert(k1.spelled()[0] == k2.spelled()[0]);
        assert(k1.spelled().len() == k2.spelled().len());
    }
    if p1.text() == p2.text() && p1 != p2 {
        assert(p1.text()[0] == p2.text()[0]);
    }
}

proof fn lemma_key_nested(p: Pool, o: Seq<char>, s: Seq<char>, c: Seq<char>, g: Seq<char>, f: Seq<char>, k: Seq<char>, l: Option<StorageLocation>)
    ensures
        key_text(p, o, s, c, g, f, k, l) == field(p.text()) + (field(o) + (field(s) + (field(c) + (
        field(g) + (field(f) + (field(k) + location_key(l))))))),
{
    assert(key_text(p, o, s, c, g, f, k, l) =~= field(p.text()) + (field(o) + (field(s) + (field(c)
        + (field(g) + (field(f) + (field(k) + location_key(l))))))));
}

proof fn lemma_same_key_same_fields(
    p1: Pool,
    o1: Seq<char>,
    s1: Seq<char>,
    c1: Seq<char>,
    g1: Seq<char>,
    f1: Seq<char>,
    k1: Seq<char>,
    l1: Option<StorageLocation>,
    p2: Pool,
    o2: Seq<char>,
    s2: Seq<char>,
    c2: Seq<char>,
    g2: Seq<char>,
    f2: Seq<char>,
    k2: Seq<char>,
    l2: Option<StorageLocation>,
)
    requires
        key_text(p1, o1, s1, c1, g1, f1, k1, l1) == key_text(p2, o2, s2, c2, g2, f2, k2, l2),
    ensures
        p1.text() == p2.text() && o1 == o2 && s1 == s2 && c1 == c2 && g1 == g2 && f1 == f2 && k1
            == k2 && location_parts(l1) == location_parts(l2),
{
    lemma_key_nested(p1, o1, s1, c1, g1, f1, k1, l1);
    lemma_key_nested(p2, o2, s2, c2, g2, f2, k2, l2);
    let ra7 = field(k1) + location_key(l1);
    let rb7 = field(k2) + location_key(l2);
    let ra6 = field(f1) + ra7;
    let rb6 = field(f2) + rb7;
    let ra5 = field(g1) + ra6;
    let rb5 = field(g2) + rb6;
    let ra4 = field(c1) + ra5;
    let rb4 = field(c2) + rb5;
    let ra3 = field(s1) + ra4;
    let rb3 = field(s2) + rb4;
    let ra2 = field(o1) + ra3;
    let rb2 = field(o2) + rb3;
    lemma_field_prefix(p1.text(), p2.text(), ra2, rb2);
    lemma_field_prefix(o1, o2, ra3, rb3);
    lemma_field_prefix(s1, s2, ra4, rb4);
    lemma_field_prefix(c1, c2, ra5, rb5);
    lemma_field_prefix(g1, g2, ra6, rb6);
    lemma_field_prefix(f1, f2, ra7, rb7);
    lemma_field_prefix(k1, k2, location_key(l1), location_key(l2));
    lemma_location_key(l1, l2);
}

proof fn lemma_same_parts_same_key(a: Option<StorageLocation>, b: Option<StorageLocation>)
    requires
        location_parts(a) == location_parts(b),
    ensures
        location_key(a) == location_key(b),
{
    match (a, b) {
        (Some(l), Some(m)) => {
            assert(l.section_view() == m.section_view());
            assert(l.slot == m.slot);
        },
        _ => {},
    }
}

/// Two additions or holdings share a merge key exactly when every field that makes copies
/// interchangeable agrees: pool, card, printing, language, finish, condition and location
/// (container, section and slot, or no location at all). Whatever the text fields hold,
/// different fields never give the same key.
pub proof fn law_merge_keys_tell_holdings_apart(
    p1: Pool,
    o1: Seq<char>,
    s1: Seq<char>,
    c1: Seq<char>,
    g1: Seq<char>,
    f1: Finish,
    k1: Condition,
    l1: Option<StorageLocation>,
    p2: Pool,
    o2: Seq<char>,
    s2: Seq<char>,
    c2: Seq<char>,
    g2: Seq<char>,
    f2: Finish,
    k2: Condition,
    l2: Option<StorageLocation>,
)
    ensures
        key_text(p1, o1, s1, c1, g1, f1.spelled(), k1.spelled(), l1) == key_text(
            p2,
            o2,
            s2,
            c2,
            g2,
            f2.spelled(),
            k2.spelled(),
            l2,
        ) <==> (p1 == p2 && o1 == o2 && s1 == s2 && c1 == c2 && g1 == g2 && f1 == f2 && k1 == k2
            && location_parts(l1) == location_parts(l2)),
{
    let a = key_text(p1, o1, s1, c1, g1, f1.spelled(), k1.spelled(), l1);
    let b = key_text(p2, o2, s2, c2, g2, f2.spelled(), k2.spelled(), l2);
    if a == b {
        lemma_same_key_same_fields(
            p1,
            o1,
            s1,
            c1,
            g1,
            f1.spelled(),
            k1.spelled(),
            l1,
            p2,
            o2,
            s2,
            c2,
            g2,
            f2.spelled(),
            k2.spelled(),
            l2,
        );
        lemma_spelled_apart(f1, f2, k1, k2, p1, p2);
    }
    if location_parts(l1) == location_parts(l2) {
        lemma_same_parts_same_key(l1, l2);
    }
}

fn key_of(holding: &Holding) -> (r: String)
    ensures
        r@ == holding_key(*holding),
{
    let key = holding.merge_key();
    merge_key(
        key.pool,
        key.oracle_id,
        key.set_code,
        key.collector_number,
        key.language,
        key.finish.name(),
        key.condition.name(),
        key.location,
    )
}

/// Position of the index entry for key `k`.
pub open spec fn key_at(s: Seq<(Seq<char>, u64)>, k: Seq<char>) -> Option<int>
    decreases s.len(),
{
    if s.len() == 0 {
        None
    } else {
        match key_at(s.drop_last(), k) {
            Some(i) => Some(i),
            None => if s.last().0 == k {
                Some(s.len() - 1)
            } else {
                None
            },
        }
    }
}

/// The holding id the index holds for key `k`.
pub open spec fn lookup(s: Seq<(Seq<char>, u64)>, k: Seq<char>) -> Option<u64> {
    match key_at(s, k) {
        Some(i) => Some(s[i].1),
        None => None,
    }
}

/// The index with `k` pointing at `v`.
pub open spec fn with_entry(s: Seq<(Seq<char>, u64)>, k: Seq<char>, v: u64) -> Seq<(Seq<char>, u64)> {
    match key_at(s, k) {
        Some(i) => s.update(i, (k, v)),
        None => s.push((k, v)),
    }
}

/// The index without key `k`.
pub open spec fn without_entry(s: Seq<(Seq<char>, u64)>, k: Seq<char>) -> Seq<(Seq<char>, u64)> {
    match key_at(s, k) {
        Some(i) => s.remove(i),
        None => s,
    }
}

/// True when no key appears twice in the index.
pub open spec fn distinct_keys(s: Seq<(Seq<char>, u64)>) -> bool {
    forall|i: int, j: int| 0 <= i < j < s.len() ==> (#[trigger] s[i]).0 != (#[trigger] s[j]).0
}

/// Position of the holding with id `id`.
pub open spec fn row_of(rows: Seq<Holding>, id: u64) -> Option<int>
    decreases rows.len(),
{
    if rows.len() == 0 {
        None
    } else {
        match row_of(rows.drop_last(), id) {
            Some(i) => Some(i),
            None => if rows.last().id.0 == id {
                Some(rows.len() - 1)
            } else {
                None
            },
        }
    }
}

proof fn lemma_key_at(s: Seq<(Seq<char>, u64)>, k: Seq<char>, i: int)
    requires
        0 <= i <= s.len(),
        forall|j: int| 0 <= j < i ==> (#[trigger] s[j]).0 != k,
        i == s.len() || s[i].0 == k,
    ensures
        key_at(s, k) == (if i == s.len() { None } else { Some(i) }),
    decreases s.len(),
{
    if s.len() > 0 {
        let d = s.drop_last();
        if i < s.len() - 1 {
            assert(d[i] == s[i]);
            lemma_key_at(d, k, i);
        } else {
            assert forall|j: int| 0 <= j < d.len() implies (#[trigger] d[j]).0 != k by {
                assert(d[j] == s[j]);
            }
            lemma_key_at(d, k, d.len() as int);
        }
    }
}

proof fn lemma_row_of(rows: Seq<Holding>, id: u64, i: int)
    requires
        0 <= i <= rows.len(),
        forall|j: int| 0 <= j < i ==> (#[trigger] rows[j]).id.0 != id,
        i == rows.len() || rows[i].id.0 == id,
    ensures
        row_of(rows, id) == (if i == rows.len() { None } else { Some(i) }),
    decreases rows.len(),
{
    if rows.len() > 0 {
        let d = rows.drop_last();
        if i < rows.len() - 1 {
            assert(d[i] == rows[i]);
            lemma_row_of(d, id, i);
        } else {
            assert forall|j: int| 0 <= j < d.len() implies (#[trigger] d[j]).id.0 != id by {
                assert(d[j] == rows[j]);
            }
            lemma_row_of(d, id, d.len() as int);
        }
    }
}

/// The key positions of an index, as found by [`key_at`].
pub proof fn lemma_key_at_found(s: Seq<(Seq<char>, u64)>, k: Seq<char>)
    ensures
        key_at(s, k) matches Some(i) ==> 0 <= i < s.len() && s[i].0 == k,
        key_at(s, k) is None ==> forall|j: int| 0 <= j < s.len() ==> (#[trigger] s[j]).0 != k,
    decreases s.len(),
{
    if s.len() > 0 {
        lemma_key_at_found(s.drop_last(), k);
        assert forall|j: int| 0 <= j < s.len() - 1 implies s.drop_last()[j] == s[j] by {}
    }
}

/// Headline collection numbers.
#[derive(Debug, Clone, Copy, PartialEq, Eq, Structural)]
pub struct Stats {
    /// Number of stacks.
    pub holdings: usize,
    /// Number of different cards.
    pub distinct_cards: usize,
    /// Number of physical cards.
    pub total_copies: u64,
}

/// A collection: its holdings in id order, the merge index, and the next id to hand out.
pub struct CollectionStore {
    holdings: Vec<Holding>,
    index: Vec<(String, u64)>,
    next_id: u64,
}

impl CollectionStore {
    /// Ids ascend, stay below the next id, and the index holds each key once.
    pub closed spec fn wf(&self) -> bool {
        &&& self.next_id >= 1
        &&& forall|i: int| 0 <= i < self.holdings@.len() ==> (#[trigger] self.holdings@[i]).id.0 < self.next_id
        &&& forall|i: int, j: int|
            0 <= i < j < self.holdings@.len() ==> (#[trigger] self.holdings@[i]).id.0 < (
            #[trigger] self.holdings@[j]).id.0
        &&& distinct_keys(self.index_view())
    }

    /// The holdings, in id order.
    pub closed spec fn rows(&self) -> Seq<Holding> {
        self.holdings@
    }

    /// The merge index: key and holding id, one entry per key.
    pub closed spec fn index_view(&self) -> Seq<(Seq<char>, u64)> {
        self.index@.map_values(|p: (String, u64)| (p.0@, p.1))
    }

    /// The id the next new holding gets.
    pub closed spec fn next(&self) -> u64 {
        self.next_id
    }

    /// In a well-formed collection every holding's id is below the next id to hand out, and
    /// the ids ascend in row order.
    pub proof fn lemma_ids_below_next(&self)
        requires
            self.wf(),
        ensures
            forall|i: int| 0 <= i < self.rows().len() ==> (#[trigger] self.rows()[i]).id.0 < self.next(),
            forall|i: int, j: int|
                0 <= i < j < self.rows().len() ==> (#[trigger] self.rows()[i]).id.0 < (
                #[trigger] self.rows()[j]).id.0,
    {
    }

    /// True when adding `new` creates a holding: nothing in the index for its key, or the
    /// index points at a holding that is not there (a damaged store; a fresh row is made
    /// rather than failing).
    pub open spec fn creates(&self, new: NewHolding) -> bool {
        new.quantity > 0 && !(lookup(self.index_view(), addition_key(new)) matches Some(id)
            && row_of(self.rows(), id) is Some)
    }

    /// An empty collection.
    pub fn new() -> (r: CollectionStore)
        ensures
            r.wf(),
            r.rows().len() == 0,
            r.index_view().len() == 0,
            r.next() == 1,
    {
        let r = CollectionStore { holdings: Vec::new(), index: Vec::new(), next_id: 1 };
        assert(r.index_view() =~= Seq::<(Seq<char>, u64)>::empty());
        r
    }

    fn index_position(&self, key: &str) -> (r: Option<usize>)
        ensures
            r matches Some(i) ==> key_at(self.index_view(), key@) == Some(i as int) && i
                < self.index@.len(),
            r is None ==> key_at(self.index_view(), key@) is None,
    {
        let ghost v = self.index_view();
        let mut i: usize = 0;
        while i < self.index.len()
            invariant
                v == self.index_view(),
                v.len() == self.index@.len(),
                i <= v.len(),
                forall|j: int| 0 <= j < i ==> (#[trigger] v[j]).0 != key@,
            decreases v.len() - i,
        {
            assert(v[i as int].0 == self.index@[i as int].0@);
            if str_eq(self.index[i].0.as_str(), key) {
                proof {
                    lemma_key_at(v, key@, i as int);
                }
                return Some(i);
            }
            i = i + 1;
        }
        proof {
            lemma_key_at(v, key@, i as int);
        }
        None
    }

    fn row_position(&self, id: u64) -> (r: Option<usize>)
        ensures
            r matches Some(i) ==> row_of(self.rows(), id) == Some(i as int) && i
                < self.holdings@.len() && self.holdings@[i as int].id.0 == id,
            r is None ==> row_of(self.rows(), id) is None,
    {
        let mut i: usize = 0;
        while i < self.holdings.len()
            invariant
                i <= self.holdings@.len(),
                forall|j: int| 0 <= j < i ==> (#[trigger] self.holdings@[j]).id.0 != id,
            decreases self.holdings@.len() - i,
        {
            if self.holdings[i].id.0 == id {
                proof {
                    lemma_row_of(self.holdings@, id, i as int);
                }
                return Some(i);
            }
            i = i + 1;
        }
        proof {
            lemma_row_of(self.holdings@, id, i as int);
        }
        None
    }

    /// Points `key` at `id` in the index.
    fn index_insert(&mut self, key: String, id: u64)
        requires
            distinct_keys(old(self).index_view()),
        ensures
            final(self).index_view() == with_entry(old(self).index_view(), key@, id),
            distinct_keys(final(self).index_view()),
            final(self).holdings == old(self).holdings,
            final(self).next_id == old(self).next_id,
    {
        let ghost before = self.index_view();
        proof {
            lemma_key_at_found(before, key@);
        }
        match self.index_position(key.as_str()) {
            Some(i) => {
                let ghost k = key@;
                self.index.set(i, (key, id));
                assert(self.index_view() =~= before.update(i as int, (k, id)));
            },
            None => {
                let ghost k = key@;
                self.index.push((key, id));
                assert(self.index_view() =~= before.push((k, id)));
            },
        }
    }

    /// Drops `key` from the index.
    fn index_remove(&mut self, key: &str)
        requires
            distinct_keys(old(self).index_view()),
        ensures
            final(self).index_view() == without_entry(old(self).index_view(), key@),
            distinct_keys(final(self).index_view()),
            final(self).holdings == old(self).holdings,
            final(self).next_id == old(self).next_id,
    {
        let ghost before = self.index_view();
        match self.index_position(key) {
            Some(i) => {
                self.index.remove(i);
                assert(self.index_view() =~= before.remove(i as int));
                assert forall|a: int, b: int|
                    0 <= a < b < self.index_view().len() implies (#[trigger] self.index_view()[a]).0
                    != (#[trigger] self.index_view()[b]).0 by {
                    let a0 = if a < i { a } else { a + 1 };
                    let b0 = if b < i { b } else { b + 1 };
                    assert(self.index_view()[a] == before[a0]);
                    assert(self.index_view()[b] == before[b0]);
                }
            },
            None => {},
        }
    }
}

impl CollectionStore {
    /// Adds copies to the collection.
    ///
    /// If an interchangeable holding already exists (same card, printing, language, finish,
    /// condition and location) its quantity goes up, saturating, instead of a near-duplicate
    /// row being created. That is what keeps a scanned binder from turning into thousands of
    /// rows of one.
    pub fn add(&mut self, new: NewHolding) -> (r: Result<HoldingId, CollectionError>)
        requires
            old(self).wf(),
            old(self).creates(new) ==> old(self).next() < u64::MAX,
        ensures
            final(self).wf(),
            forall|i: int|
                0 <= i < old(self).rows().len() ==> (#[trigger] old(self).rows()[i]).id.0 < old(
                    self,
                ).next(),
            new.quantity == 0 ==> (r matches Err(CollectionError::ZeroQuantity)) && final(self).rows()
                == old(self).rows() && final(self).index_view() == old(self).index_view()
                && final(self).next() == old(self).next(),
            new.quantity > 0 && !old(self).creates(new) ==> (lookup(
                old(self).index_view(),
                addition_key(new),
            ) matches Some(id) && row_of(old(self).rows(), id) matches Some(p) && r == Ok::<
                HoldingId,
                CollectionError,
            >(HoldingId(id)) && final(self).rows() == old(self).rows().update(
                p,
                Holding {
                    quantity: old(self).rows()[p].quantity.saturating_add(new.quantity),
                    ..old(self).rows()[p]
                },
            ) && final(self).index_view() == old(self).index_view() && final(self).next()
                == old(self).next()),
            old(self).creates(new) ==> r == Ok::<HoldingId, CollectionError>(
                HoldingId(old(self).next()),
            ) && final(self).rows() == old(self).rows().push(
                new.as_holding(HoldingId(old(self).next())),
            ) && final(self).index_view() == with_entry(
                old(self).index_view(),
                addition_key(new),
                old(self).next(),
            ) && final(self).next() == old(self).next() + 1,
    {
        if new.quantity == 0 {
            return Err(CollectionError::ZeroQuantity);
        }
        let key = merge_key(
            new.pool,
            new.oracle_id.as_str(),
            new.set_code.as_str(),
            new.collector_number.as_str(),
            new.language.as_str(),
            new.finish.name(),
            new.condition.name(),
            match &new.location {
                Some(l) => Some(l),
                None => None,
            },
        );
        assert(key@ == addition_key(new));
        match self.index_position(key.as_str()) {
            Some(ip) => {
                let existing = self.index[ip].1;
                assert(self.index_view()[ip as int].1 == existing);
                match self.row_position(existing) {
                    Some(p) => {
                        let ghost before = self.holdings@;
                        let q = self.holdings[p].quantity.saturating_add(new.quantity);
                        self.holdings[p].quantity = q;
                        assert(self.holdings@ =~= before.update(
                            p as int,
                            Holding { quantity: q, ..before[p as int] },
                        ));
                        assert forall|i: int, j: int|
                            0 <= i < j < self.holdings@.len() implies (#[trigger] self.holdings@[i]).id.0
                            < (#[trigger] self.holdings@[j]).id.0 by {
                            assert(before[i].id == self.holdings@[i].id);
                            assert(before[j].id == self.holdings@[j].id);
                        }
                        assert forall|i: int| 0 <= i < self.holdings@.len() implies (
                        #[trigger] self.holdings@[i]).id.0 < self.next_id by {
                            assert(before[i].id == self.holdings@[i].id);
                        }
                        return Ok(HoldingId(existing));
                    },
                    None => {},
                }
            },
            None => {},
        }
        let id = self.next_id;
        self.next_id = id + 1;
        let ghost before = self.holdings@;
        let holding = new.into_holding(HoldingId(id));
        self.holdings.push(holding);
        assert(self.holdings@ =~= before.push(new.as_holding(HoldingId(id))));
        assert forall|i: int, j: int|
            0 <= i < j < self.holdings@.len() implies (#[trigger] self.holdings@[i]).id.0 < (
            #[trigger] self.holdings@[j]).id.0 by {
            if j == before.len() {
                assert(self.holdings@[i] == before[i]);
            } else {
                assert(self.holdings@[i] == before[i]);
                assert(self.holdings@[j] == before[j]);
            }
        }
        assert forall|i: int| 0 <= i < self.holdings@.len() implies (
        #[trigger] self.holdings@[i]).id.0 < self.next_id by {
            if i < before.len() {
                assert(self.holdings@[i] == before[i]);
            }
        }
        self.index_insert(key, id);
        Ok(HoldingId(id))
    }

    /// The holding with an id, if there is one.
    pub fn get(&self, id: HoldingId) -> (r: Option<&Holding>)
        ensures
            r == (match row_of(self.rows(), id.0) {
                Some(p) => Some(&self.rows()[p]),
                None => None,
            }),
    {
        match self.row_position(id.0) {
            Some(p) => Some(&self.holdings[p]),
            None => None,
        }
    }

    /// Removes a holding entirely, and its key from the index. Returns whether it existed.
    pub fn remove(&mut self, id: HoldingId) -> (r: bool)
        requires
            old(self).wf(),
        ensures
            final(self).wf(),
            final(self).next() == old(self).next(),
            r == row_of(old(self).rows(), id.0) is Some,
            row_of(old(self).rows(), id.0) matches Some(p) ==> final(self).rows() == old(self).rows().remove(p) && final(self).index_view() == without_entry(
                old(self).index_view(),
                holding_key(old(self).rows()[p]),
            ),
            row_of(old(self).rows(), id.0) is None ==> final(self).rows() == old(self).rows()
                && final(self).index_view() == old(self).index_view(),
    {
        let p = match self.row_position(id.0) {
            Some(p) => p,
            None => {
                return false;
            },
        };
        let ghost before = self.holdings@;
        let key = key_of(&self.holdings[p]);
        self.holdings.remove(p);
        assert(self.holdings@ =~= before.remove(p as int));
        assert forall|i: int, j: int|
            0 <= i < j < self.holdings@.len() implies (#[trigger] self.holdings@[i]).id.0 < (
            #[trigger] self.holdings@[j]).id.0 by {
            let a = if i < p { i } else { i + 1 };
            let b = if j < p { j } else { j + 1 };
            assert(self.holdings@[i] == before[a]);
            assert(self.holdings@[j] == before[b]);
        }
        assert forall|i: int| 0 <= i < self.holdings@.len() implies (
        #[trigger] self.holdings@[i]).id.0 < self.next_id by {
            let a = if i < p { i } else { i + 1 };
            assert(self.holdings@[i] == before[a]);
        }
        self.index_remove(key.as_str());
        true
    }

    /// Overwrites a holding. Editing the fields that make copies interchangeable moves the
    /// holding in the merge index.
    pub fn replace(&mut self, holding: Holding) -> (r: Result<(), CollectionError>)
        requires
            old(self).wf(),
        ensures
            final(self).wf(),
            final(self).next() == old(self).next(),
            row_of(old(self).rows(), holding.id.0) is None ==> (r matches Err(
                CollectionError::NotFound(id),
            ) && id == holding.id) && final(self).rows() == old(self).rows() && final(self).index_view() == old(self).index_view(),
            row_of(old(self).rows(), holding.id.0) matches Some(p) ==> r is Ok && final(self).rows() == old(self).rows().update(p, holding) && final(self).index_view() == (
            if holding_key(old(self).rows()[p]) == holding_key(holding) {
                old(self).index_view()
            } else {
                with_entry(
                    without_entry(old(self).index_view(), holding_key(old(self).rows()[p])),
                    holding_key(holding),
                    holding.id.0,
                )
            }),
    {
        let p = match self.row_position(holding.id.0) {
            Some(p) => p,
            None => {
                return Err(CollectionError::NotFound(holding.id));
            },
        };
        let old_key = key_of(&self.holdings[p]);
        let new_key = key_of(&holding);
        if !str_eq(old_key.as_str(), new_key.as_str()) {
            self.index_remove(old_key.as_str());
            self.index_insert(new_key, holding.id.0);
        }
        let ghost before = self.holdings@;
        let ghost h = holding;
        self.holdings.set(p, holding);
        assert(self.holdings@ =~= before.update(p as int, h));
        assert forall|i: int, j: int|
            0 <= i < j < self.holdings@.len() implies (#[trigger] self.holdings@[i]).id.0 < (
            #[trigger] self.holdings@[j]).id.0 by {
            assert(before[i].id == self.holdings@[i].id);
            assert(before[j].id == self.holdings@[j].id);
        }
        assert forall|i: int| 0 <= i < self.holdings@.len() implies (
        #[trigger] self.holdings@[i]).id.0 < self.next_id by {
            assert(before[i].id == self.holdings@[i].id);
        }
        Ok(())
    }
}

/// True when a holding is in the pool asked for; `None` asks for every pool.
pub open spec fn in_pool(h: Holding, pool: Option<Pool>) -> bool {
    match pool {
        Some(p) => h.pool == p,
        None => true,
    }
}

/// The holdings of a pool, in id order.
pub open spec fn pooled(rows: Seq<Holding>, pool: Option<Pool>) -> Seq<Holding> {
    rows.filter(|h: Holding| in_pool(h, pool))
}

/// The holdings of one card in a pool, in id order.
pub open spec fn of_card(rows: Seq<Holding>, pool: Option<Pool>, oracle_id: Seq<char>) -> Seq<Holding> {
    rows.filter(|h: Holding| in_pool(h, pool) && h.oracle_id@ == oracle_id)
}

/// Total copies held in a list of holdings.
pub open spec fn copies_in(rows: Seq<Holding>) -> nat
    decreases rows.len(),
{
    if rows.len() == 0 {
        0
    } else {
        copies_in(rows.drop_last()) + rows.last().quantity as nat
    }
}

/// The oracle ids of a list of holdings.
pub open spec fn oracles(rows: Seq<Holding>) -> Seq<Seq<char>> {
    rows.map_values(|h: Holding| h.oracle_id@)
}

/// The container of a holding that names a usable one: a physical card with a location whose
/// container is not blank.
pub open spec fn container_of(h: Holding) -> Option<Seq<char>> {
    if h.pool == Pool::Physical && (h.location matches Some(l) && trim(l.container@).len() > 0) {
        Some(h.location.unwrap().container@)
    } else {
        None
    }
}

/// True when one of the first `n` holdings names container `c`.
pub open spec fn names_container(rows: Seq<Holding>, n: int, c: Seq<char>) -> bool {
    exists|j: int| 0 <= j < n && container_of(#[trigger] rows[j]) == Some(c)
}

/// The texts of a list of strings.
pub open spec fn texts(v: Seq<String>) -> Seq<Seq<char>> {
    v.map_values(|x: String| x@)
}

/// Consecutive strings strictly ascend.
pub open spec fn ascending(v: Seq<Seq<char>>) -> bool {
    forall|k: int| 0 <= k < v.len() - 1 ==> lex_less(v[k], #[trigger] v[k + 1])
}

proof fn lemma_insert_ascending(v: Seq<Seq<char>>, p: int, x: Seq<char>)
    requires
        ascending(v),
        0 <= p <= v.len(),
        forall|k: int| 0 <= k < p ==> lex_less(#[trigger] v[k], x),
        p < v.len() ==> lex_less(x, v[p]),
    ensures
        ascending(v.insert(p, x)),
{
    let w = v.insert(p, x);
    v.insert_ensures(p, x);
    assert forall|k: int| 0 <= k < w.len() - 1 implies lex_less(w[k], #[trigger] w[k + 1]) by {
        if k + 1 < p {
            assert(w[k] == v[k] && w[k + 1] == v[k + 1]);
        } else if k + 1 == p {
            assert(w[k] == v[k] && w[k + 1] == x);
        } else if k == p {
            assert(w[k] == x && w[k + 1] == v[k]);
        } else {
            assert(w[k] == v[k - 1] && w[k + 1] == v[k]);
        }
    }
}

proof fn lemma_push_to_set<A>(s: Seq<A>, x: A)
    ensures
        s.push(x).to_set() == s.to_set().insert(x),
{
    Seq::<A>::lemma_to_set_insert_commutes(s, x);
    assert(s + seq![x] =~= s.push(x));
}

fn copy_text(s: &String) -> (r: String)
    ensures
        r@ == s@,
{
    string_of(chars_of(s.as_str()).as_slice())
}

impl CollectionStore {
    /// Sets a holding's quantity. Setting it to zero removes the holding.
    pub fn set_quantity(&mut self, id: HoldingId, quantity: u32) -> (r: Result<(), CollectionError>)
        requires
            old(self).wf(),
        ensures
            final(self).wf(),
            final(self).next() == old(self).next(),
            quantity == 0 ==> r is Ok && (match row_of(old(self).rows(), id.0) {
                Some(p) => final(self).rows() == old(self).rows().remove(p) && final(
                    self).index_view() == without_entry(
                    old(self).index_view(),
                    holding_key(old(self).rows()[p]),
                ),
                None => final(self).rows() == old(self).rows() && final(self).index_view()
                    == old(self).index_view(),
            }),
            quantity > 0 ==> match row_of(old(self).rows(), id.0) {
                Some(p) => r is Ok && final(self).rows() == old(self).rows().update(
                    p,
                    Holding { quantity, ..old(self).rows()[p] },
                ) && final(self).index_view() == old(self).index_view(),
                None => (r matches Err(CollectionError::NotFound(missing)) && missing == id)
                    && final(self).rows() == old(self).rows() && final(self).index_view() == old(
                    self).index_view(),
            },
    {
        if quantity == 0 {
            self.remove(id);
            return Ok(());
        }
        let p = match self.row_position(id.0) {
            Some(p) => p,
            None => {
                return Err(CollectionError::NotFound(id));
            },
        };
        let ghost before = self.holdings@;
        self.holdings[p].quantity = quantity;
        assert(self.holdings@ =~= before.update(p as int, Holding { quantity, ..before[p as int] }));
        assert forall|i: int, j: int|
            0 <= i < j < self.holdings@.len() implies (#[trigger] self.holdings@[i]).id.0 < (
            #[trigger] self.holdings@[j]).id.0 by {
            assert(before[i].id == self.holdings@[i].id);
            assert(before[j].id == self.holdings@[j].id);
        }
        assert forall|i: int| 0 <= i < self.holdings@.len() implies (
        #[trigger] self.holdings@[i]).id.0 < self.next_id by {
            assert(before[i].id == self.holdings@[i].id);
        }
        Ok(())
    }

    /// Every holding, optionally restricted to one pool, ordered by id.
    pub fn list(&self, pool: Option<Pool>) -> (r: Vec<&Holding>)
        ensures
            r@.len() == pooled(self.rows(), pool).len(),
            forall|k: int| 0 <= k < r@.len() ==> *r@[k] == pooled(self.rows(), pool)[k],
    {
        let mut out: Vec<&Holding> = Vec::new();
        let mut i: usize = 0;
        while i < self.holdings.len()
            invariant
                i <= self.holdings@.len(),
                out@.len() == pooled(self.holdings@.take(i as int), pool).len(),
                forall|k: int|
                    0 <= k < out@.len() ==> *out@[k] == pooled(self.holdings@.take(i as int), pool)[k],
            decreases self.holdings@.len() - i,
        {
            assert(self.holdings@.take(i + 1).drop_last() =~= self.holdings@.take(i as int));
            reveal_with_fuel(Seq::filter, 1);
            let keep = match pool {
                Some(p) => self.holdings[i].pool == p,
                None => true,
            };
            if keep {
                out.push(&self.holdings[i]);
            }
            i = i + 1;
        }
        assert(self.holdings@.take(self.holdings@.len() as int) =~= self.holdings@);
        out
    }

    /// Every holding of one card.
    pub fn by_oracle_id(&self, pool: Option<Pool>, oracle_id: &str) -> (r: Vec<&Holding>)
        ensures
            r@.len() == of_card(self.rows(), pool, oracle_id@).len(),
            forall|k: int| 0 <= k < r@.len() ==> *r@[k] == of_card(self.rows(), pool, oracle_id@)[k],
    {
        let mut out: Vec<&Holding> = Vec::new();
        let mut i: usize = 0;
        while i < self.holdings.len()
            invariant
                i <= self.holdings@.len(),
                out@.len() == of_card(self.holdings@.take(i as int), pool, oracle_id@).len(),
                forall|k: int|
                    0 <= k < out@.len() ==> *out@[k] == of_card(
                        self.holdings@.take(i as int),
                        pool,
                        oracle_id@,
                    )[k],
            decreases self.holdings@.len() - i,
        {
            assert(self.holdings@.take(i + 1).drop_last() =~= self.holdings@.take(i as int));
            reveal_with_fuel(Seq::filter, 1);
            let keep = match pool {
                Some(p) => self.holdings[i].pool == p,
                None => true,
            } && str_eq(self.holdings[i].oracle_id.as_str(), oracle_id);
            if keep {
                out.push(&self.holdings[i]);
            }
            i = i + 1;
        }
        assert(self.holdings@.take(self.holdings@.len() as int) =~= self.holdings@);
        out
    }

    /// Total copies owned of one card.
    pub fn owned_quantity(&self, pool: Option<Pool>, oracle_id: &str) -> (r: u32)
        requires
            copies_in(of_card(self.rows(), pool, oracle_id@)) <= u32::MAX,
        ensures
            r == copies_in(of_card(self.rows(), pool, oracle_id@)),
    {
        let rows = self.by_oracle_id(pool, oracle_id);
        let ghost s = of_card(self.rows(), pool, oracle_id@);
        let mut total: u32 = 0;
        let mut i: usize = 0;
        while i < rows.len()
            invariant
                s == of_card(self.rows(), pool, oracle_id@),
                copies_in(s) <= u32::MAX,
                rows@.len() == s.len(),
                forall|k: int| 0 <= k < rows@.len() ==> *rows@[k] == s[k],
                i <= s.len(),
                total == copies_in(s.take(i as int)),
            decreases s.len() - i,
        {
            assert(s.take(i + 1).drop_last() =~= s.take(i as int));
            proof {
                lemma_copies_prefix(s, i + 1);
            }
            total = total + rows[i].quantity;
            i = i + 1;
        }
        assert(s.take(s.len() as int) =~= s);
        total
    }

    /// The distinct oracle ids of a pool, in order of first appearance.
    fn distinct_oracles(&self, pool: Option<Pool>) -> (r: Vec<String>)
        ensures
            r@.map_values(|x: String| x@).no_duplicates(),
            r@.map_values(|x: String| x@).to_set() == oracles(pooled(self.rows(), pool)).to_set(),
    {
        let rows = self.list(pool);
        let ghost s = pooled(self.rows(), pool);
        let mut out: Vec<String> = Vec::new();
        let mut i: usize = 0;
        while i < rows.len()
            invariant
                s == pooled(self.rows(), pool),
                rows@.len() == s.len(),
                forall|k: int| 0 <= k < rows@.len() ==> *rows@[k] == s[k],
                i <= s.len(),
                out@.map_values(|x: String| x@).no_duplicates(),
                out@.map_values(|x: String| x@).to_set() == oracles(s.take(i as int)).to_set(),
            decreases s.len() - i,
        {
            let ghost before = out@.map_values(|x: String| x@);
            let id = rows[i].oracle_id.as_str();
            let mut k: usize = 0;
            let mut present = false;
            while k < out.len()
                invariant
                    k <= out@.len(),
                    before == out@.map_values(|x: String| x@),
                    present ==> before.contains(id@),
                    !present ==> forall|j: int| 0 <= j < k ==> before[j] != id@,
                decreases out@.len() - k,
            {
                if str_eq(out[k].as_str(), id) {
                    assert(before[k as int] == id@);
                    present = true;
                }
                k = k + 1;
            }
            assert(oracles(s.take(i + 1)) =~= oracles(s.take(i as int)).push(id@));
            if !present {
                out.push(copy_text(&rows[i].oracle_id));
                assert(out@.map_values(|x: String| x@) =~= before.push(id@));
                proof {
                    lemma_push_to_set(before, id@);
                    lemma_push_to_set(oracles(s.take(i as int)), id@);
                }
            } else {
                proof {
                    lemma_push_to_set(oracles(s.take(i as int)), id@);
                }
                assert(before.to_set().contains(id@));
                assert(before.to_set().insert(id@) =~= before.to_set());
            }
            i = i + 1;
        }
        assert(s.take(s.len() as int) =~= s);
        out
    }

    /// Headline numbers for one pool: stacks, different cards, physical cards.
    pub fn stats(&self, pool: Option<Pool>) -> (r: Stats)
        requires
            copies_in(pooled(self.rows(), pool)) <= u64::MAX,
        ensures
            r.holdings == pooled(self.rows(), pool).len(),
            r.distinct_cards == oracles(pooled(self.rows(), pool)).to_set().len(),
            r.total_copies == copies_in(pooled(self.rows(), pool)),
    {
        let rows = self.list(pool);
        let ghost s = pooled(self.rows(), pool);
        let mut total: u64 = 0;
        let mut i: usize = 0;
        while i < rows.len()
            invariant
                s == pooled(self.rows(), pool),
                copies_in(s) <= u64::MAX,
                rows@.len() == s.len(),
                forall|k: int| 0 <= k < rows@.len() ==> *rows@[k] == s[k],
                i <= s.len(),
                total == copies_in(s.take(i as int)),
            decreases s.len() - i,
        {
            assert(s.take(i + 1).drop_last() =~= s.take(i as int));
            proof {
                lemma_copies_prefix(s, i + 1);
            }
            total = total + rows[i].quantity as u64;
            i = i + 1;
        }
        assert(s.take(s.len() as int) =~= s);
        let distinct = self.distinct_oracles(pool);
        proof {
            distinct@.map_values(|x: String| x@).unique_seq_to_set();
        }
        Stats { holdings: rows.len(), distinct_cards: distinct.len(), total_copies: total }
    }

    /// Owned quantity for every card at once, one entry per card of the pool.
    pub fn owned_quantities(&self, pool: Option<Pool>) -> (r: Vec<(String, u32)>)
        requires
            forall|o: Seq<char>| copies_in(#[trigger] of_card(self.rows(), pool, o)) <= u32::MAX,
        ensures
            r@.map_values(|x: (String, u32)| x.0@).no_duplicates(),
            r@.map_values(|x: (String, u32)| x.0@).to_set() == oracles(pooled(self.rows(), pool)).to_set(),
            forall|k: int| 0 <= k < r@.len() ==> (#[trigger] r@[k]).1 == copies_in(
                of_card(self.rows(), pool, r@[k].0@),
            ),
    {
        let ids = self.distinct_oracles(pool);
        let ghost names = ids@.map_values(|x: String| x@);
        let mut out: Vec<(String, u32)> = Vec::new();
        let mut i: usize = 0;
        while i < ids.len()
            invariant
                names == ids@.map_values(|x: String| x@),
                forall|o: Seq<char>| copies_in(#[trigger] of_card(self.rows(), pool, o)) <= u32::MAX,
                i <= ids@.len(),
                out@.len() == i,
                forall|k: int| 0 <= k < i ==> (#[trigger] out@[k]).0@ == names[k] && out@[k].1
                    == copies_in(of_card(self.rows(), pool, names[k])),
            decreases ids@.len() - i,
        {
            let ghost before = out@;
            let n = self.owned_quantity(pool, ids[i].as_str());
            out.push((copy_text(&ids[i]), n));
            assert forall|k: int| 0 <= k < i + 1 implies (#[trigger] out@[k]).0@ == names[k]
                && out@[k].1 == copies_in(of_card(self.rows(), pool, names[k])) by {
                if k < i {
                    assert(out@[k] == before[k]);
                }
            }
            i = i + 1;
        }
        assert(out@.map_values(|x: (String, u32)| x.0@) =~= names);
        out
    }

    /// Distinct container names in use, sorted. Feeds the location picker.
    pub fn containers(&self) -> (r: Vec<String>)
        ensures
            ascending(texts(r@)),
            forall|c: Seq<char>| #[trigger] texts(r@).contains(c) <==> names_container(
                self.rows(),
                self.rows().len() as int,
                c,
            ),
    {
        let mut out: Vec<String> = Vec::new();
        let mut i: usize = 0;
        while i < self.holdings.len()
            invariant
                i <= self.holdings@.len(),
                ascending(texts(out@)),
                forall|c: Seq<char>| #[trigger] texts(out@).contains(c) <==> names_container(
                    self.holdings@,
                    i as int,
                    c,
                ),
            decreases self.holdings@.len() - i,
        {
            let h = &self.holdings[i];
            let ghost before = out@;
            let ghost bv = texts(before);
            let usable = match &h.location {
                Some(l) => h.pool == Pool::Physical && trim_chars(chars_of(l.container.as_str()).as_slice()).len() > 0,
                None => false,
            };
            if usable {
                let name = match &h.location {
                    Some(l) => chars_of(l.container.as_str()),
                    None => Vec::new(),
                };
                assert(container_of(self.holdings@[i as int]) == Some(name@));
                let mut p: usize = 0;
                while p < out.len() && lex_less_exec(chars_of(out[p].as_str()).as_slice(), name.as_slice())
                    invariant
                        out@ == before,
                        p <= out@.len(),
                        forall|k: int| 0 <= k < p ==> lex_less(#[trigger] texts(out@)[k], name@),
                    decreases out@.len() - p,
                {
                    p = p + 1;
                }
                proof {
                    if p < out@.len() {
                        lemma_lex_total(out@[p as int]@, name@);
                    }
                }
                let equal = p < out.len() && str_eq(out[p].as_str(), string_of(name.as_slice()).as_str());
                if !equal {
                    proof {
                        if p < bv.len() {
                            assert(bv[p as int] == before[p as int]@);
                        }
                    }
                    out.insert(p, string_of(name.as_slice()));
                    proof {
                        lemma_insert_ascending(bv, p as int, name@);
                    }
                    assert(texts(out@) =~= bv.insert(p as int, name@));
                    assert forall|c: Seq<char>| #[trigger] texts(out@).contains(c) <==> (bv.contains(c) || c == name@) by {
                        if texts(out@).contains(c) {
                            let k = choose|k: int| 0 <= k < out@.len() && texts(out@)[k] == c;
                            if k < p {
                                assert(bv[k] == c);
                            } else if k > p {
                                assert(bv[k - 1] == c);
                            }
                        }
                        if bv.contains(c) {
                            let k = choose|k: int| 0 <= k < bv.len() && bv[k] == c;
                            if k < p {
                                assert(texts(out@)[k] == c);
                            } else {
                                assert(texts(out@)[k + 1] == c);
                            }
                        }
                        if c == name@ {
                            assert(texts(out@)[p as int] == c);
                        }
                    }
                } else {
                    assert(bv[p as int] == name@);
                }
            }
            assert forall|c: Seq<char>| #[trigger] texts(out@).contains(c) <==> names_container(
                self.holdings@,
                i + 1,
                c,
            ) by {
                if names_container(self.holdings@, i + 1, c) {
                    let j = choose|j: int| 0 <= j < i + 1 && container_of(#[trigger] self.holdings@[j]) == Some(c);
                    if j < i {
                        assert(names_container(self.holdings@, i as int, c));
                        assert(bv.contains(c));
                    }
                }
                if texts(out@).contains(c) && !bv.contains(c) {
                    assert(container_of(self.holdings@[i as int]) == Some(c));
                }
                if bv.contains(c) {
                    assert(names_container(self.holdings@, i as int, c));
                }
            }
            i = i + 1;
        }
        out
    }
}

proof fn lemma_copies_prefix(s: Seq<Holding>, k: int)
    requires
        0 <= k <= s.len(),
    ensures
        copies_in(s.take(k)) <= copies_in(s),
    decreases s.len() - k,
{
    if k < s.len() {
        lemma_copies_prefix(s, k + 1);
        assert(s.take(k + 1).drop_last() =~= s.take(k));
    } else {
        assert(s.take(k) =~= s);
    }
}

impl CollectionStore {
    /// True when saved parts make a store: the next id at least one, holding ids ascending and
    /// below it, and each index key once.
    pub open spec fn consistent(holdings: Seq<Holding>, index: Seq<(Seq<char>, u64)>, next_id: u64) -> bool {
        &&& next_id >= 1
        &&& forall|i: int| 0 <= i < holdings.len() ==> (#[trigger] holdings[i]).id.0 < next_id
        &&& forall|i: int, j: int|
            0 <= i < j < holdings.len() ==> (#[trigger] holdings[i]).id.0 < (#[trigger] holdings[j]).id.0
        &&& distinct_keys(index)
    }

    /// Rebuilds a store from saved parts, when they are consistent.
    pub fn restore(holdings: Vec<Holding>, index: Vec<(String, u64)>, next_id: u64) -> (r: Option<CollectionStore>)
        ensures
            r matches Some(st) ==> st.wf() && st.rows() == holdings@ && st.index_view()
                == index@.map_values(|p: (String, u64)| (p.0@, p.1)) && st.next() == next_id,
            r is None ==> !Self::consistent(
                holdings@,
                index@.map_values(|p: (String, u64)| (p.0@, p.1)),
                next_id,
            ),
    {
        let ghost iv = index@.map_values(|p: (String, u64)| (p.0@, p.1));
        if next_id < 1 {
            return None;
        }
        let mut i: usize = 0;
        while i < holdings.len()
            invariant
                i <= holdings@.len(),
                forall|k: int| 0 <= k < i ==> (#[trigger] holdings@[k]).id.0 < next_id,
                forall|a: int, b: int| 0 <= a < b < i ==> (#[trigger] holdings@[a]).id.0 < (#[trigger] holdings@[b]).id.0,
            decreases holdings@.len() - i,
        {
            if holdings[i].id.0 >= next_id {
                return None;
            }
            if i > 0 && holdings[i - 1].id.0 >= holdings[i].id.0 {
                return None;
            }
            assert forall|a: int, b: int| 0 <= a < b < i + 1 implies (#[trigger] holdings@[a]).id.0 < (#[trigger] holdings@[b]).id.0 by {
                if b == i && a < i - 1 {
                    assert(holdings@[a].id.0 < holdings@[i - 1].id.0);
                }
            }
            i = i + 1;
        }
        let mut a: usize = 0;
        while a < index.len()
            invariant
                a <= index@.len(),
                iv == index@.map_values(|p: (String, u64)| (p.0@, p.1)),
                forall|x: int, y: int| 0 <= x < y < index@.len() && x < a ==> (#[trigger] iv[x]).0 != (#[trigger] iv[y]).0,
            decreases index@.len() - a,
        {
            let mut b: usize = a + 1;
            while b < index.len()
                invariant
                    a < index@.len(),
                    a + 1 <= b <= index@.len(),
                    iv == index@.map_values(|p: (String, u64)| (p.0@, p.1)),
                    forall|x: int, y: int| 0 <= x < y < index@.len() && x < a ==> (#[trigger] iv[x]).0 != (#[trigger] iv[y]).0,
                    forall|y: int| a < y < b ==> iv[a as int].0 != (#[trigger] iv[y]).0,
                decreases index@.len() - b,
            {
                if str_eq(index[a].0.as_str(), index[b].0.as_str()) {
                    assert(iv[a as int].0 == iv[b as int].0);
                    return None;
                }
                b = b + 1;
            }
            a = a + 1;
        }
        let st = CollectionStore { holdings, index, next_id };
        assert(st.index_view() =~= iv);
        Some(st)
    }

    /// The holdings, in id order, for saving.
    pub fn holdings(&self) -> (r: &[Holding])
        ensures
            r@ == self.rows(),
    {
        self.holdings.as_slice()
    }

    /// The merge index, for saving.
    pub fn index(&self) -> (r: &[(String, u64)])
        ensures
            r@.map_values(|p: (String, u64)| (p.0@, p.1)) == self.index_view(),
    {
        self.index.as_slice()
    }

    /// The id the next new holding gets, for saving.
    pub fn next_id(&self) -> (r: u64)
        ensures
            r == self.next(),
    {
        self.next_id
    }
}

proof fn lemma_row_of_found(rows: Seq<Holding>, id: u64)
    ensures
        row_of(rows, id) matches Some(p) ==> 0 <= p < rows.len() && rows[p].id.0 == id,
        row_of(rows, id) is None ==> forall|j: int| 0 <= j < rows.len() ==> (#[trigger] rows[j]).id.0 != id,
    decreases rows.len(),
{
    if rows.len() > 0 {
        lemma_row_of_found(rows.drop_last(), id);
        assert forall|j: int| 0 <= j < rows.len() - 1 implies rows.drop_last()[j] == rows[j] by {}
    }
}

/// Identical copies merge: once an addition has made a holding, the same addition again
/// finds it through the index and does not make another.
pub proof fn law_added_copies_merge(rows: Seq<Holding>, index: Seq<(Seq<char>, u64)>, new: NewHolding, id: u64)
    requires
        distinct_keys(index),
    ensures
        lookup(with_entry(index, addition_key(new), id), addition_key(new)) == Some(id),
        row_of(rows.push(new.as_holding(HoldingId(id))), id) is Some,
{
    let k = addition_key(new);
    lemma_key_at_found(index, k);
    let after = with_entry(index, k, id);
    match key_at(index, k) {
        Some(i) => {
            assert forall|j: int| 0 <= j < i implies (#[trigger] after[j]).0 != k by {
                assert(after[j] == index[j]);
                if index[j].0 == k {
                    assert(false);
                }
            }
            lemma_key_at(after, k, i);
        },
        None => {
            assert forall|j: int| 0 <= j < index.len() implies (#[trigger] after[j]).0 != k by {
                assert(after[j] == index[j]);
            }
            lemma_key_at(after, k, index.len() as int);
        },
    }
    let grown = rows.push(new.as_holding(HoldingId(id)));
    lemma_row_of_found(grown, id);
    assert(grown[rows.len() as int].id.0 == id);
}

/// Removing a holding frees its merge key: nothing is left in the index under it, so adding
/// the card again makes a new holding rather than resurrecting the removed one.
pub proof fn law_removed_key_is_free(index: Seq<(Seq<char>, u64)>, k: Seq<char>)
    requires
        distinct_keys(index),
    ensures
        lookup(without_entry(index, k), k) is None,
{
    lemma_key_at_found(index, k);
    let after = without_entry(index, k);
    match key_at(index, k) {
        Some(i) => {
            assert forall|j: int| 0 <= j < after.len() implies (#[trigger] after[j]).0 != k by {
                if j < i {
                    assert(after[j] == index[j]);
                } else {
                    assert(after[j] == index[j + 1]);
                }
            }
        },
        None => {},
    }
    lemma_key_at(after, k, after.len() as int);
}

} // verus!
