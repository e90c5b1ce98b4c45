//! Reading and writing the artwork hash file.
//!
//! # The format
//!
//! ```text
//! "MTGART\0"        7 bytes   magic
//! version           u8        format version
//! count             u32 LE    number of entries
//! then `count` records, each:
//!   hash            32 bytes
//!   printing_id     u8 length, then that many bytes of UTF-8
//!   oracle_id       u8 length, then that many bytes of UTF-8
//!   name            u16 length, then that many bytes of UTF-8
//! ```
//!
//! The file is downloaded, so everything here treats it as untrusted: a truncated download must
//! produce an error, never a panic. The application moves the bytes to and from disk.

use vstd::prelude::*;
use vstd::utf8::{decode_utf8, encode_utf8, valid_utf8};

use crate::text::{chars_of, decimal, push_decimal, push_str, string_of};
use crate::vision::hash::{ArtHash, HASH_BYTES};
use crate::vision::matcher::{ArtDatabase, ArtEntry};

verus! {

/// The bytes every archive starts with: `MTGART` and a zero.
pub const MAGIC: [u8; 7] = [77u8, 84u8, 71u8, 65u8, 82u8, 84u8, 0u8];

/// Bumped whenever the layout or the hashing changes. The hash is part of the contract: a
/// file written by a different hasher would match nothing, silently.
pub const ARCHIVE_VERSION: u8 = 1;

/// A ceiling on the entry count, so a corrupt header cannot ask for a huge allocation.
pub const MAX_ENTRIES: u32 = 1_000_000;

/// Something wrong with an archive.
#[derive(Debug)]
pub enum ArchiveError {
    NotAnArchive,
    UnsupportedVersion { found: u8, supported: u8 },
    ImplausibleCount(u32),
    Truncated(u32),
    InvalidText { index: u32, field: &'static str },
    /// A failure reading or writing the file, with the system's own message.
    Io(String),
}

impl ArchiveError {
    pub open spec fn message(&self) -> Seq<char> {
        match self {
            ArchiveError::NotAnArchive => "not an artwork archive (bad magic)"@,
            ArchiveError::UnsupportedVersion { found, supported } => "archive version "@ + decimal(*found as nat)
                + " is not supported (this build reads "@ + decimal(*supported as nat) + ")"@,
            ArchiveError::ImplausibleCount(n) => "archive claims "@ + decimal(*n as nat) + " entries, which is not plausible"@,
            ArchiveError::Truncated(i) => "archive ends in the middle of entry "@ + decimal(*i as nat)
                + " \u{2014} the download is probably incomplete"@,
            ArchiveError::InvalidText { index, field } => "entry "@ + decimal(*index as nat) + " has invalid UTF-8 in its "@
                + field@,
            ArchiveError::Io(m) => m@,
        }
    }

    pub fn to_string(&self) -> (r: String)
        ensures
            r@ == self.message(),
    {
        let mut out = String::new();
        match self {
            ArchiveError::NotAnArchive => {
                push_str(&mut out, "not an artwork archive (bad magic)");
            },
            ArchiveError::UnsupportedVersion { found, supported } => {
                push_str(&mut out, "archive version ");
                push_decimal(&mut out, *found as u64);
                push_str(&mut out, " is not supported (this build reads ");
                push_decimal(&mut out, *supported as u64);
                push_str(&mut out, ")");
            },
            ArchiveError::ImplausibleCount(n) => {
                push_str(&mut out, "archive claims ");
                push_decimal(&mut out, *n as u64);
                push_str(&mut out, " entries, which is not plausible");
            },
            ArchiveError::Truncated(i) => {
                push_str(&mut out, "archive ends in the middle of entry ");
                push_decimal(&mut out, *i as u64);
                push_str(&mut out, " \u{2014} the download is probably incomplete");
            },
            ArchiveError::InvalidText { index, field } => {
                push_str(&mut out, "entry ");
                push_decimal(&mut out, *index as u64);
                push_str(&mut out, " has invalid UTF-8 in its ");
                push_str(&mut out, field);
            },
            ArchiveError::Io(m) => {
                push_str(&mut out, m.as_str());
            },
        }
        assert(out@ =~= self.message());
        out
    }
}

/// The magic bytes as a sequence.
pub open spec fn magic() -> Seq<u8> {
    seq![77u8, 84u8, 71u8, 65u8, 82u8, 84u8, 0u8]
}

/// A number as four bytes, least significant first.
pub open spec fn le32(n: u32) -> Seq<u8> {
    seq![(n % 256) as u8, (n / 256 % 256) as u8, (n / 65536 % 256) as u8, (n / 16777216) as u8]
}

/// A number as two bytes, least significant first.
pub open spec fn le16(n: nat) -> Seq<u8> {
    seq![(n % 256) as u8, (n / 256 % 256) as u8]
}

/// A text field with a one-byte length: at most 255 bytes of it are kept.
pub open spec fn short_field(b: Seq<u8>) -> Seq<u8> {
    let n: nat = if b.len() > 255 { 255 } else { b.len() };
    seq![n as u8] + b.take(n as int)
}

/// A text field with a two-byte length: at most 65535 bytes of it are kept.
pub open spec fn long_field(b: Seq<u8>) -> Seq<u8> {
    let n: nat = if b.len() > 65535 { 65535 } else { b.len() };
    le16(n) + b.take(n as int)
}

/// One record of the archive.
pub open spec fn record(e: ArtEntry) -> Seq<u8> {
    e.hash.0@ + short_field(encode_utf8(e.printing_id@)) + short_field(encode_utf8(e.oracle_id@)) + long_field(
        encode_utf8(e.name@),
    )
}

/// The records of a list of entries, in order.
pub open spec fn records(es: Seq<ArtEntry>) -> Seq<u8>
    decreases es.len(),
{
    if es.len() == 0 {
        Seq::empty()
    } else {
        record(es[0]) + records(es.drop_first())
    }
}

/// The archive of a list of entries.
pub open spec fn archive_of(es: Seq<ArtEntry>) -> Seq<u8> {
    magic() + seq![ARCHIVE_VERSION] + le32(es.len() as u32) + records(es)
}

/// What an entry reads back as: its hash and its three texts.
pub struct EntryText {
    pub hash: Seq<u8>,
    pub printing_id: Seq<char>,
    pub oracle_id: Seq<char>,
    pub name: Seq<char>,
}

pub open spec fn text_of(e: ArtEntry) -> EntryText {
    EntryText { hash: e.hash.0@, printing_id: e.printing_id@, oracle_id: e.oracle_id@, name: e.name@ }
}

/// What went wrong reading, with the field named as text.
pub enum Fault {
    NotAnArchive,
    UnsupportedVersion(u8),
    ImplausibleCount(u32),
    Truncated(u32),
    InvalidText(u32, Seq<char>),
}

pub open spec fn fault_of(e: ArchiveError) -> Option<Fault> {
    match e {
        ArchiveError::NotAnArchive => Some(Fault::NotAnArchive),
        ArchiveError::UnsupportedVersion { found, supported } => if supported == ARCHIVE_VERSION {
            Some(Fault::UnsupportedVersion(found))
        } else {
            None
        },
        ArchiveError::ImplausibleCount(n) => Some(Fault::ImplausibleCount(n)),
        ArchiveError::Truncated(i) => Some(Fault::Truncated(i)),
        ArchiveError::InvalidText { index, field } => Some(Fault::InvalidText(index, field@)),
        ArchiveError::Io(_) => None,
    }
}

/// A text field at `pos`: its bytes and where the next field starts, or nothing when the file
/// ends first. `wide` fields have a two-byte length.
pub open spec fn field_at(bytes: Seq<u8>, pos: int, wide: bool) -> Option<(Seq<u8>, int)> {
    let head: int = if wide { 2 } else { 1 };
    if pos + head > bytes.len() {
        None
    } else {
        let n: int = if wide { bytes[pos] + 256 * bytes[pos + 1] } else { bytes[pos] as int };
        if pos + head + n > bytes.len() {
            None
        } else {
            Some((bytes.subrange(pos + head, pos + head + n), pos + head + n))
        }
    }
}

/// The entry at `pos`, and where the next one starts.
pub open spec fn entry_at(bytes: Seq<u8>, pos: int, index: u32) -> Result<(EntryText, int), Fault> {
    if pos + HASH_BYTES > bytes.len() {
        Err(Fault::Truncated(index))
    } else {
        let hash = bytes.subrange(pos, pos + HASH_BYTES);
        match field_at(bytes, pos + HASH_BYTES, false) {
            None => Err(Fault::Truncated(index)),
            Some((p, q)) => if !valid_utf8(p) {
                Err(Fault::InvalidText(index, "printing id"@))
            } else {
                match field_at(bytes, q, false) {
                    None => Err(Fault::Truncated(index)),
                    Some((o, q2)) => if !valid_utf8(o) {
                        Err(Fault::InvalidText(index, "oracle id"@))
                    } else {
                        match field_at(bytes, q2, true) {
                            None => Err(Fault::Truncated(index)),
                            Some((n, q3)) => if !valid_utf8(n) {
                                Err(Fault::InvalidText(index, "name"@))
                            } else {
                                Ok(
                                    (
                                        EntryText {
                                            hash,
                                            printing_id: decode_utf8(p),
                                            oracle_id: decode_utf8(o),
                                            name: decode_utf8(n),
                                        },
                                        q3,
                                    ),
                                )
                            },
                        }
                    },
                }
            },
        }
    }
}

/// Entries `index` to `count` read from `pos` on.
pub open spec fn entries_from(bytes: Seq<u8>, pos: int, index: nat, count: nat) -> Result<Seq<EntryText>, Fault>
    decreases count - index,
{
    if index >= count {
        Ok(Seq::empty())
    } else {
        match entry_at(bytes, pos, index as u32) {
            Err(f) => Err(f),
            Ok((e, next)) => match entries_from(bytes, next, index + 1, count) {
                Err(f) => Err(f),
                Ok(rest) => Ok(seq![e] + rest),
            },
        }
    }
}

/// The count a header declares.
pub open spec fn declared(bytes: Seq<u8>) -> nat {
    (bytes[8] + 256 * bytes[9] + 65536 * bytes[10] + 16777216 * bytes[11]) as nat
}

/// What a file reads as.
pub open spec fn decoded(bytes: Seq<u8>) -> Result<Seq<EntryText>, Fault> {
    if bytes.len() < 12 || bytes.take(7) != magic() {
        Err(Fault::NotAnArchive)
    } else if bytes[7] != ARCHIVE_VERSION {
        Err(Fault::UnsupportedVersion(bytes[7]))
    } else if declared(bytes) > MAX_ENTRIES {
        Err(Fault::ImplausibleCount(declared(bytes) as u32))
    } else {
        entries_from(bytes, 12, 0, declared(bytes))
    }
}

/// Reads bytes as UTF-8 text.
///
/// Trusted: calls `std::str::from_utf8`, which the standard library documents as succeeding
/// exactly when the bytes are valid UTF-8, giving the text they encode.
#[verifier::external_body]
fn utf8_str(bytes: &[u8]) -> (r: Option<&str>)
    ensures
        r is Some <==> valid_utf8(bytes@),
        r matches Some(s) ==> s@ == decode_utf8(bytes@),
{
    std::str::from_utf8(bytes).ok()
}

fn push_bytes(out: &mut Vec<u8>, bytes: &[u8], n: usize)
    requires
        n <= bytes@.len(),
    ensures
        final(out)@ == old(out)@ + bytes@.take(n as int),
{
    let mut i: usize = 0;
    while i < n
        invariant
            i <= n,
            n <= bytes@.len(),
            out@ == old(out)@ + bytes@.take(i as int),
        decreases n - i,
    {
        out.push(bytes[i]);
        assert(bytes@.take(i + 1) =~= bytes@.take(i as int).push(bytes@[i as int]));
        assert(old(out)@ + bytes@.take(i + 1) =~= (old(out)@ + bytes@.take(i as int)).push(bytes@[i as int]));
        i = i + 1;
    }
}

fn write_short(out: &mut Vec<u8>, text: &str)
    ensures
        final(out)@ == old(out)@ + short_field(encode_utf8(text@)),
{
    let bytes = text.as_bytes();
    let n: usize = if bytes.len() > 255 { 255 } else { bytes.len() };
    out.push(n as u8);
    push_bytes(out, bytes, n);
    assert(final(out)@ =~= old(out)@ + short_field(encode_utf8(text@)));
}

fn write_long(out: &mut Vec<u8>, text: &str)
    ensures
        final(out)@ == old(out)@ + long_field(encode_utf8(text@)),
{
    let bytes = text.as_bytes();
    let n: usize = if bytes.len() > 65535 { 65535 } else { bytes.len() };
    out.push((n % 256) as u8);
    out.push((n / 256 % 256) as u8);
    push_bytes(out, bytes, n);
    assert(final(out)@ =~= old(out)@ + long_field(encode_utf8(text@)));
}

proof fn lemma_records_push(es: Seq<ArtEntry>, e: ArtEntry)
    ensures
        records(es.push(e)) == records(es) + record(e),
    decreases es.len(),
{
    if es.len() == 0 {
        assert(es.push(e).drop_first() =~= Seq::<ArtEntry>::empty());
        assert(records(Seq::<ArtEntry>::empty()) =~= Seq::<u8>::empty());
        assert(es.push(e)[0] == e);
        assert(records(es.push(e)) =~= record(e));
    } else {
        assert(es.push(e).drop_first() =~= es.drop_first().push(e));
        lemma_records_push(es.drop_first(), e);
        assert(records(es.push(e)) =~= records(es) + record(e));
    }
}

/// Writes a database out.
pub fn write(entries: &[ArtEntry]) -> (r: Vec<u8>)
    ensures
        r@ == archive_of(entries@),
{
    let mut out: Vec<u8> = Vec::new();
    let mut m: usize = 0;
    while m < 7
        invariant
            m <= 7,
            out@ == magic().take(m as int),
        decreases 7 - m,
    {
        out.push(MAGIC[m]);
        assert(magic().take(m + 1) =~= magic().take(m as int).push(magic()[m as int]));
        m = m + 1;
    }
    assert(magic().take(7) =~= magic());
    out.push(ARCHIVE_VERSION);
    let count = entries.len() as u32;
    out.push((count % 256) as u8);
    out.push((count / 256 % 256) as u8);
    out.push((count / 65536 % 256) as u8);
    out.push((count / 16777216) as u8);
    let ghost head = out@;
    assert(head =~= magic() + seq![ARCHIVE_VERSION] + le32(entries@.len() as u32));
    let mut i: usize = 0;
    while i < entries.len()
        invariant
            i <= entries@.len(),
            out@ == head + records(entries@.take(i as int)),
        decreases entries@.len() - i,
    {
        let e = &entries[i];
        let ghost before = out@;
        let mut k: usize = 0;
        while k < HASH_BYTES
            invariant
                k <= HASH_BYTES,
                e.hash.0@.len() == HASH_BYTES,
                out@ == before + e.hash.0@.take(k as int),
            decreases HASH_BYTES - k,
        {
            out.push(e.hash.0[k]);
            assert(before + e.hash.0@.take(k + 1) =~= (before + e.hash.0@.take(k as int)).push(e.hash.0@[k as int]));
            k = k + 1;
        }
        assert(e.hash.0@.take(HASH_BYTES as int) =~= e.hash.0@);
        write_short(&mut out, e.printing_id.as_str());
        write_short(&mut out, e.oracle_id.as_str());
        write_long(&mut out, e.name.as_str());
        proof {
            assert(entries@.take(i + 1) =~= entries@.take(i as int).push(*e));
            lemma_records_push(entries@.take(i as int), *e);
            assert(out@ =~= head + records(entries@.take(i + 1)));
        }
        i = i + 1;
    }
    assert(entries@.take(entries@.len() as int) =~= entries@);
    out
}

/// Where the text of the field at `pos` lies, if the file holds all of it.
fn field_span(bytes: &[u8], pos: usize, wide: bool) -> (r: Option<(usize, usize)>)
    requires
        pos <= bytes@.len(),
    ensures
        r is Some <==> field_at(bytes@, pos as int, wide) is Some,
        r matches Some((a, b)) ==> a <= b <= bytes@.len() && field_at(bytes@, pos as int, wide) == Some(
            (bytes@.subrange(a as int, b as int), b as int),
        ),
{
    let head: usize = if wide { 2 } else { 1 };
    if bytes.len() - pos < head {
        return None;
    }
    let n: usize = if wide { bytes[pos] as usize + 256 * bytes[pos + 1] as usize } else { bytes[pos] as usize };
    if bytes.len() - pos - head < n {
        return None;
    }
    Some((pos + head, pos + head + n))
}

fn copy_span(bytes: &[u8], a: usize, b: usize) -> (r: Vec<u8>)
    requires
        a <= b <= bytes@.len(),
    ensures
        r@ == bytes@.subrange(a as int, b as int),
{
    let mut out: Vec<u8> = Vec::new();
    let mut i = a;
    while i < b
        invariant
            a <= i <= b,
            b <= bytes@.len(),
            out@ == bytes@.subrange(a as int, i as int),
        decreases b - i,
    {
        out.push(bytes[i]);
        assert(bytes@.subrange(a as int, i + 1) =~= bytes@.subrange(a as int, i as int).push(bytes@[i as int]));
        i = i + 1;
    }
    out
}

fn text_in(bytes: &[u8], a: usize, b: usize) -> (r: Option<String>)
    requires
        a <= b <= bytes@.len(),
    ensures
        r is Some <==> valid_utf8(bytes@.subrange(a as int, b as int)),
        r matches Some(s) ==> s@ == decode_utf8(bytes@.subrange(a as int, b as int)),
{
    let piece = copy_span(bytes, a, b);
    match utf8_str(piece.as_slice()) {
        Some(s) => Some(string_of(chars_of(s).as_slice())),
        None => None,
    }
}

fn read_entry(bytes: &[u8], pos: usize, index: u32) -> (r: Result<(ArtEntry, usize), ArchiveError>)
    requires
        pos <= bytes@.len(),
    ensures
        match entry_at(bytes@, pos as int, index) {
            Err(f) => r matches Err(e) && fault_of(e) == Some(f),
            Ok((t, next)) => r matches Ok((e, n)) && text_of(e) == t && n == next && n <= bytes@.len(),
        },
{
    if bytes.len() - pos < HASH_BYTES {
        return Err(ArchiveError::Truncated(index));
    }
    let len = bytes.len();
    let mut hash = [0u8; HASH_BYTES];
    let mut k: usize = 0;
    while k < HASH_BYTES
        invariant
            k <= HASH_BYTES,
            len == bytes@.len(),
            pos + HASH_BYTES <= len,
            hash@.len() == HASH_BYTES,
            forall|j: int| 0 <= j < k ==> hash@[j] == bytes@[pos + j],
        decreases HASH_BYTES - k,
    {
        hash.set(k, bytes[pos + k]);
        k = k + 1;
    }
    assert(hash@ =~= bytes@.subrange(pos as int, pos + HASH_BYTES));
    let (pa, pb) = match field_span(bytes, pos + HASH_BYTES, false) {
        Some(span) => span,
        None => {
            return Err(ArchiveError::Truncated(index));
        },
    };
    let printing_id = match text_in(bytes, pa, pb) {
        Some(t) => t,
        None => {
            return Err(ArchiveError::InvalidText { index, field: "printing id" });
        },
    };
    let (oa, ob) = match field_span(bytes, pb, false) {
        Some(span) => span,
        None => {
            return Err(ArchiveError::Truncated(index));
        },
    };
    let oracle_id = match text_in(bytes, oa, ob) {
        Some(t) => t,
        None => {
            return Err(ArchiveError::InvalidText { index, field: "oracle id" });
        },
    };
    let (na, nb) = match field_span(bytes, ob, true) {
        Some(span) => span,
        None => {
            return Err(ArchiveError::Truncated(index));
        },
    };
    let name = match text_in(bytes, na, nb) {
        Some(t) => t,
        None => {
            return Err(ArchiveError::InvalidText { index, field: "name" });
        },
    };
    Ok((ArtEntry { hash: ArtHash(hash), printing_id, oracle_id, name }, nb))
}

/// Reads a database back.
pub fn read(bytes: &[u8]) -> (r: Result<ArtDatabase, ArchiveError>)
    ensures
        match decoded(bytes@) {
            Ok(ts) => r matches Ok(db) && seq_texts(db.entries_view()) == ts,
            Err(f) => r matches Err(e) && fault_of(e) == Some(f),
        },
{
    if bytes.len() < 12 {
        return Err(ArchiveError::NotAnArchive);
    }
    let mut m: usize = 0;
    while m < 7
        invariant
            m <= 7,
            bytes@.len() >= 12,
            forall|j: int| 0 <= j < m ==> bytes@[j] == magic()[j],
        decreases 7 - m,
    {
        if bytes[m] != MAGIC[m] {
            assert(bytes@.take(7)[m as int] != magic()[m as int]);
            return Err(ArchiveError::NotAnArchive);
        }
        m = m + 1;
    }
    assert(bytes@.take(7) =~= magic());
    let version = bytes[7];
    if version != ARCHIVE_VERSION {
        return Err(ArchiveError::UnsupportedVersion { found: version, supported: ARCHIVE_VERSION });
    }
    let count: u32 = bytes[8] as u32 + 256 * bytes[9] as u32 + 65536 * bytes[10] as u32 + 16777216 * bytes[11] as u32;
    if count > MAX_ENTRIES {
        return Err(ArchiveError::ImplausibleCount(count));
    }
    let ghost all = bytes@;
    let mut entries: Vec<ArtEntry> = Vec::new();
    let mut pos: usize = 12;
    let mut index: u32 = 0;
    assert(seq_texts(entries@) + Seq::<EntryText>::empty() =~= Seq::<EntryText>::empty());
    proof {
        match entries_from(all, 12, 0, count as nat) {
            Ok(rest) => {
                assert(seq_texts(entries@) + rest =~= rest);
            },
            Err(_) => {},
        }
    }
    assert(decoded(all) == entries_from(all, 12, 0, count as nat));
    while index < count
        invariant
            all == bytes@,
            count == declared(all),
            decoded(all) == entries_from(all, 12, 0, count as nat),
            index <= count,
            pos <= bytes@.len(),
            match entries_from(all, pos as int, index as nat, count as nat) {
                Ok(rest) => entries_from(all, 12, 0, count as nat) == Ok::<Seq<EntryText>, Fault>(seq_texts(entries@) + rest),
                Err(f) => entries_from(all, 12, 0, count as nat) == Err::<Seq<EntryText>, Fault>(f),
            },
        decreases count - index,
    {
        proof {
            lemma_entries_step(all, pos as int, index as nat, count as nat);
        }
        match read_entry(bytes, pos, index) {
            Ok((entry, next)) => {
                let ghost seen = entries@;
                entries.push(entry);
                proof {
                    assert(seq_texts(entries@) =~= seq_texts(seen).push(text_of(entry)));
                    match entries_from(all, next as int, index as nat + 1, count as nat) {
                        Ok(rest) => {
                            assert(seq_texts(seen) + (seq![text_of(entry)] + rest) =~= seq_texts(entries@) + rest);
                        },
                        Err(_) => {},
                    }
                }
                pos = next;
            },
            Err(e) => {
                proof {
                    match entry_at(all, pos as int, index) {
                        Err(f) => {
                            assert(entries_from(all, pos as int, index as nat, count as nat) == Err::<Seq<EntryText>, Fault>(f));
                            assert(decoded(all) == entries_from(all, 12, 0, count as nat));
                            assert(decoded(bytes@) == Err::<Seq<EntryText>, Fault>(f));
                            assert(fault_of(e) == Some(f));
                        },
                        Ok(_) => {},
                    }
                }
                return Err(e);
            },
        }
        index = index + 1;
    }
    assert(seq_texts(entries@) + Seq::<EntryText>::empty() =~= seq_texts(entries@));
    Ok(ArtDatabase::new(entries))
}

/// The texts of a list of entries.
pub open spec fn seq_texts(es: Seq<ArtEntry>) -> Seq<EntryText> {
    es.map_values(|e: ArtEntry| text_of(e))
}

proof fn lemma_entries_len(bytes: Seq<u8>, pos: int, index: nat, count: nat)
    ensures
        entries_from(bytes, pos, index, count) matches Ok(ts) ==> ts.len() == if count > index { count - index } else { 0 },
    decreases count - index,
{
    if index < count {
        match entry_at(bytes, pos, index as u32) {
            Ok((e, next)) => lemma_entries_len(bytes, next, index + 1, count),
            Err(_) => {},
        }
    }
}

proof fn lemma_entries_step(bytes: Seq<u8>, pos: int, index: nat, count: nat)
    requires
        index < count,
    ensures
        entry_at(bytes, pos, index as u32) matches Err(f) ==> entries_from(bytes, pos, index, count) == Err::<Seq<EntryText>, Fault>(f),
        entry_at(bytes, pos, index as u32) matches Ok((e, next)) ==> match entries_from(bytes, next, index + 1, count) {
            Err(f) => entries_from(bytes, pos, index, count) == Err::<Seq<EntryText>, Fault>(f),
            Ok(rest) => entries_from(bytes, pos, index, count) == Ok::<Seq<EntryText>, Fault>(seq![e] + rest),
        },
{
}

/// True when every text of an entry fits its length prefix.
pub open spec fn fits(e: ArtEntry) -> bool {
    &&& encode_utf8(e.printing_id@).len() <= 255
    &&& encode_utf8(e.oracle_id@).len() <= 255
    &&& encode_utf8(e.name@).len() <= 65535
}

proof fn lemma_text_round_trip(s: Seq<char>)
    ensures
        valid_utf8(encode_utf8(s)),
        decode_utf8(encode_utf8(s)) == s,
{
    vstd::utf8::encode_utf8_valid_utf8(s);
    vstd::utf8::encode_utf8_decode_utf8(s);
}

proof fn lemma_record_at(bytes: Seq<u8>, pos: int, e: ArtEntry, index: u32)
    requires
        fits(e),
        e.hash.0@.len() == HASH_BYTES,
        0 <= pos,
        pos + record(e).len() <= bytes.len(),
        bytes.subrange(pos, pos + record(e).len()) == record(e),
    ensures
        entry_at(bytes, pos, index) == Ok::<(EntryText, int), Fault>((text_of(e), pos + record(e).len())),
{
    let h = e.hash.0@;
    let p = encode_utf8(e.printing_id@);
    let o = encode_utf8(e.oracle_id@);
    let n = encode_utf8(e.name@);
    let r = record(e);
    assert(p.take(p.len() as int) =~= p);
    assert(o.take(o.len() as int) =~= o);
    assert(n.take(n.len() as int) =~= n);
    let sp = short_field(p);
    let so = short_field(o);
    let ln = long_field(n);
    assert(sp =~= seq![p.len() as u8] + p);
    assert(so =~= seq![o.len() as u8] + o);
    assert(ln =~= le16(n.len()) + n);
    assert(r =~= h + sp + so + ln);
    let a = pos + HASH_BYTES;
    let b = a + 1 + p.len();
    let c = b + 1 + o.len();
    let end = c + 2 + n.len();
    assert(r.len() == HASH_BYTES + 1 + p.len() + 1 + o.len() + 2 + n.len());
    assert forall|i: int| 0 <= i < r.len() implies bytes[pos + i] == #[trigger] r[i] by {
        assert(bytes.subrange(pos, pos + r.len())[i] == bytes[pos + i]);
    }
    assert(bytes.subrange(pos, a) =~= h) by {
        assert forall|i: int| 0 <= i < HASH_BYTES implies bytes.subrange(pos, a)[i] == h[i] by {
            assert(r[i] == h[i]);
        }
    }
    assert(bytes[a] == p.len() as u8) by {
        assert(r[HASH_BYTES as int] == sp[0]);
    }
    assert(bytes.subrange(a + 1, b) =~= p) by {
        assert forall|i: int| 0 <= i < p.len() implies bytes.subrange(a + 1, b)[i] == p[i] by {
            assert(r[HASH_BYTES + 1 + i] == sp[1 + i]);
        }
    }
    assert(bytes[b] == o.len() as u8) by {
        assert(r[HASH_BYTES + sp.len()] == so[0]);
    }
    assert(bytes.subrange(b + 1, c) =~= o) by {
        assert forall|i: int| 0 <= i < o.len() implies bytes.subrange(b + 1, c)[i] == o[i] by {
            assert(r[HASH_BYTES + sp.len() + 1 + i] == so[1 + i]);
        }
    }
    assert(bytes[c] == (n.len() % 256) as u8 && bytes[c + 1] == (n.len() / 256 % 256) as u8) by {
        assert(r[HASH_BYTES + sp.len() + so.len()] == ln[0]);
        assert(r[HASH_BYTES + sp.len() + so.len() + 1] == ln[1]);
    }
    assert(bytes.subrange(c + 2, end) =~= n) by {
        assert forall|i: int| 0 <= i < n.len() implies bytes.subrange(c + 2, end)[i] == n[i] by {
            assert(r[HASH_BYTES + sp.len() + so.len() + 2 + i] == ln[2 + i]);
        }
    }
    assert(bytes[c] + 256 * bytes[c + 1] == n.len()) by {
        let m = n.len();
        assert(m < 65536);
        assert((m % 256) + 256 * (m / 256 % 256) == m) by (nonlinear_arith)
            requires m < 65536;
    }
    lemma_text_round_trip(e.printing_id@);
    lemma_text_round_trip(e.oracle_id@);
    lemma_text_round_trip(e.name@);
    assert(end == pos + r.len());
}

proof fn lemma_records_at(bytes: Seq<u8>, pos: int, rest: Seq<ArtEntry>, index: nat)
    requires
        forall|k: int| 0 <= k < rest.len() ==> fits(#[trigger] rest[k]) && rest[k].hash.0@.len() == HASH_BYTES,
        0 <= pos,
        pos + records(rest).len() <= bytes.len(),
        bytes.subrange(pos, pos + records(rest).len()) == records(rest),
        index + rest.len() <= u32::MAX + 1,
    ensures
        entries_from(bytes, pos, index, index + rest.len()) == Ok::<Seq<EntryText>, Fault>(seq_texts(rest)),
    decreases rest.len(),
{
    if rest.len() == 0 {
        assert(seq_texts(rest) =~= Seq::<EntryText>::empty());
    } else {
        let e = rest[0];
        let tail = rest.drop_first();
        let rl = record(e).len();
        assert(records(rest) == record(e) + records(tail));
        assert(bytes.subrange(pos, pos + rl) =~= record(e)) by {
            assert forall|i: int| 0 <= i < rl implies bytes.subrange(pos, pos + rl)[i] == record(e)[i] by {
                assert(bytes.subrange(pos, pos + records(rest).len())[i] == records(rest)[i]);
            }
        }
        lemma_record_at(bytes, pos, e, index as u32);
        assert(bytes.subrange(pos + rl, pos + rl + records(tail).len()) =~= records(tail)) by {
            assert forall|i: int| 0 <= i < records(tail).len() implies bytes.subrange(pos + rl, pos + rl + records(tail).len())[i]
                == records(tail)[i] by {
                assert(bytes.subrange(pos, pos + records(rest).len())[rl + i] == records(rest)[rl + i]);
            }
        }
        assert forall|k: int| 0 <= k < tail.len() implies fits(#[trigger] tail[k]) && tail[k].hash.0@.len() == HASH_BYTES by {
            assert(tail[k] == rest[k + 1]);
        }
        lemma_records_at(bytes, pos + rl, tail, index + 1);
        assert(index + 1 + tail.len() == index + rest.len());
        assert(seq_texts(rest) =~= seq![text_of(e)] + seq_texts(tail));
    }
}

/// A database written out and read back is the same database, provided it holds no more
/// entries than a reader accepts and every text fits its length prefix.
pub proof fn law_archive_round_trips(es: Seq<ArtEntry>)
    requires
        es.len() <= MAX_ENTRIES,
        forall|k: int| 0 <= k < es.len() ==> fits(#[trigger] es[k]),
    ensures
        decoded(archive_of(es)) == Ok::<Seq<EntryText>, Fault>(seq_texts(es)),
{
    let bytes = archive_of(es);
    let head = magic() + seq![ARCHIVE_VERSION] + le32(es.len() as u32);
    assert(head.len() == 12);
    assert(bytes =~= head + records(es));
    assert(bytes.take(7) =~= magic());
    let n = es.len();
    assert(bytes[8] == (n % 256) as u8 && bytes[9] == (n / 256 % 256) as u8 && bytes[10] == (n / 65536 % 256) as u8
        && bytes[11] == (n / 16777216) as u8);
    assert(declared(bytes) == n) by {
        assert((n % 256) + 256 * (n / 256 % 256) + 65536 * (n / 65536 % 256) + 16777216 * (n / 16777216) == n) by (nonlinear_arith)
            requires n <= 1000000;
    }
    assert(bytes.subrange(12, 12 + records(es).len() as int) =~= records(es));
    assert forall|k: int| 0 <= k < es.len() implies fits(#[trigger] es[k]) && es[k].hash.0@.len() == HASH_BYTES by {
        assert(es[k].hash.0@.len() == HASH_BYTES);
    }
    lemma_records_at(bytes, 12, es, 0);
}

} // verus!
