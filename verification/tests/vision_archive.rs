use mtg::vision::archive;
use mtg::vision::archive::{read, ArchiveError, ARCHIVE_VERSION, MAGIC};
use mtg::vision::hash::{ArtHash, HASH_BYTES};
use mtg::vision::matcher::{ArtDatabase, ArtEntry};

fn entry(name: &str, seed: u8) -> ArtEntry {
    ArtEntry {
        hash: ArtHash([seed; HASH_BYTES]),
        printing_id: format!("{seed:08}-0000-0000-0000-000000000000"),
        oracle_id: format!("{seed:08}-1111-1111-1111-111111111111"),
        name: name.to_owned(),
    }
}

fn round_trip(entries: &[ArtEntry]) -> Result<ArtDatabase, ArchiveError> {
    let buffer = archive::write(entries);
    read(buffer.as_slice())
}

#[test]
fn what_goes_in_comes_back_out() {
    let entries = vec![entry("Sol Ring", 1), entry("Lightning Bolt", 2)];
    let database = round_trip(&entries).expect("read");
    assert_eq!(database.entries(), entries.as_slice());
}

#[test]
fn an_empty_archive_is_valid() {
    let database = round_trip(&[]).expect("read");
    assert!(database.is_empty());
}

#[test]
fn names_with_accents_and_split_cards_survive() {
    let entries = vec![entry("Æther Vial", 3), entry("Lim-Dûl's Vault", 4), entry("Fire // Ice", 5)];
    let database = round_trip(&entries).expect("read");
    assert_eq!(database.entries(), entries.as_slice());
}

#[test]
fn a_file_that_is_not_an_archive_is_refused() {
    let junk = b"<!DOCTYPE html><html>404".as_slice();
    assert!(matches!(read(junk), Err(ArchiveError::NotAnArchive)));
}

#[test]
fn an_empty_file_is_refused_rather_than_read_as_empty() {
    assert!(matches!(read(&[]), Err(ArchiveError::NotAnArchive)));
}

#[test]
fn an_archive_from_a_different_version_is_refused() {
    let mut buffer = archive::write(&[entry("Sol Ring", 1)]);
    buffer[7] = ARCHIVE_VERSION.wrapping_add(1);

    assert!(matches!(read(buffer.as_slice()), Err(ArchiveError::UnsupportedVersion { .. })));
}

#[test]
fn a_truncated_download_is_an_error_not_a_panic() {
    let entries = vec![entry("Sol Ring", 1), entry("Lightning Bolt", 2)];
    let buffer = archive::write(&entries);

    for cut in [13, 20, 60, buffer.len() - 1] {
        assert!(read(&buffer[..cut]).is_err(), "a file cut at {cut} bytes was accepted");
    }
}

#[test]
fn an_absurd_entry_count_is_refused_before_allocating() {
    let mut buffer = Vec::new();
    buffer.extend_from_slice(&MAGIC);
    buffer.push(ARCHIVE_VERSION);
    buffer.extend_from_slice(&u32::MAX.to_le_bytes());

    assert!(matches!(read(buffer.as_slice()), Err(ArchiveError::ImplausibleCount(_))));
}

#[test]
fn invalid_text_is_reported_rather_than_replaced() {
    let mut buffer = archive::write(&[entry("Sol Ring", 1)]);
    buffer[45] = 0xff;

    assert!(matches!(read(buffer.as_slice()), Err(ArchiveError::InvalidText { .. })));
}

#[test]
fn a_realistic_archive_round_trips() {
    let entries: Vec<ArtEntry> =
        (0..500).map(|index| entry(&format!("Card {index}"), (index % 251) as u8)).collect();
    let database = round_trip(&entries).expect("read");
    assert_eq!(database.len(), 500);
    assert_eq!(database.entries(), entries.as_slice());
}

#[test]
fn the_header_is_magic_version_and_count() {
    let buffer = archive::write(&[entry("Sol Ring", 1)]);
    assert_eq!(&buffer[..7], b"MTGART\0");
    assert_eq!(buffer[7], 1);
    assert_eq!(&buffer[8..12], &[1, 0, 0, 0]);
    // Hash, a one-byte length before each id, a two-byte length before the name.
    assert_eq!(buffer.len(), 12 + 32 + 1 + 36 + 1 + 36 + 2 + 8);
}

#[test]
fn where_a_read_fails_is_named() {
    let buffer = archive::write(&[entry("Sol Ring", 1)]);
    assert!(matches!(read(&buffer[..50]), Err(ArchiveError::Truncated(0))));
    let mut bad = buffer.clone();
    bad[45] = 0xff;
    match read(bad.as_slice()) {
        Err(ArchiveError::InvalidText { index, field }) => {
            assert_eq!(index, 0);
            assert_eq!(field, "printing id");
        },
        _ => panic!("expected invalid text"),
    }
    assert_eq!(
        ArchiveError::Truncated(3).to_string(),
        "archive ends in the middle of entry 3 \u{2014} the download is probably incomplete"
    );
}

#[test]
fn bad_text_is_reported_before_a_later_field_runs_out() {
    let mut buffer: Vec<u8> = MAGIC.to_vec();
    buffer.push(ARCHIVE_VERSION);
    buffer.extend_from_slice(&1u32.to_le_bytes());
    buffer.extend_from_slice(&[0u8; HASH_BYTES]);
    buffer.push(1);
    buffer.push(0xff);
    match read(buffer.as_slice()) {
        Err(ArchiveError::InvalidText { index, field }) => {
            assert_eq!(index, 0);
            assert_eq!(field, "printing id");
        }
        other => panic!("expected invalid text, got {:?}", other.is_ok()),
    }
}
