use mtg::tag::{Tag, TagSet};

#[test]
fn every_tag_fits_in_the_bitset() {
    assert!(Tag::ALL.len() <= 64);
    for tag in Tag::ALL {
        assert!((tag as u8) < 64, "{tag:?} does not fit");
    }
}

#[test]
fn discriminants_are_dense_and_in_order() {
    for (index, tag) in Tag::ALL.into_iter().enumerate() {
        assert_eq!(tag as usize, index, "{tag:?} is out of order");
        assert_eq!(tag.index() as usize, index);
    }
}

#[test]
fn scryfall_names_are_unique() {
    let mut names: Vec<&str> = Tag::ALL.iter().map(|tag| tag.scryfall_tag()).collect();
    names.sort_unstable();
    let count = names.len();
    names.dedup();
    assert_eq!(names.len(), count);
}

#[test]
fn a_name_round_trips() {
    for tag in Tag::ALL {
        assert_eq!(Tag::from_scryfall_tag(tag.scryfall_tag()), Some(tag));
    }
}

#[test]
fn an_unknown_name_is_refused_rather_than_guessed() {
    for name in ["wincon", "stax", "token", "pump", "reanimation", ""] {
        assert_eq!(Tag::from_scryfall_tag(name), None, "{name} was accepted");
    }
}

#[test]
fn a_set_holds_what_was_put_in_it() {
    let set = TagSet::from_tags(&[Tag::Removal, Tag::Draw]);
    assert!(set.contains(Tag::Removal));
    assert!(set.contains(Tag::Draw));
    assert!(!set.contains(Tag::Ramp));
    assert_eq!(set.len(), 2);
    assert_eq!(set.iter(), vec![Tag::Draw, Tag::Removal]);
}

#[test]
fn an_empty_set_is_the_normal_case_for_a_vanilla_card() {
    assert!(TagSet::none().is_empty());
    assert_eq!(TagSet::none().len(), 0);
    assert!(TagSet::none().iter().is_empty());
}

#[test]
fn bits_survive_a_round_trip_through_the_catalog_representation() {
    let set = TagSet::from_tags(&[Tag::Evasion, Tag::ExtraCombat, Tag::CardAdvantage]);
    assert_eq!(TagSet::from_bits(set.bits()), set);
}

#[test]
fn a_tag_is_found_again_by_position_and_its_bit_is_its_own() {
    for (index, tag) in Tag::ALL.into_iter().enumerate() {
        assert_eq!(Tag::at(index), tag);
        assert_eq!(tag.bit(), 1u64 << index);
    }
    let mut set = TagSet::none();
    set.insert(Tag::Tutor);
    assert!(set.intersects(TagSet::from_tags(&[Tag::Tutor, Tag::Mill])));
    assert!(!set.intersects(TagSet::from_tags(&[Tag::Mill])));
    assert_eq!(set.union(TagSet::from_tags(&[Tag::Mill])).len(), 2);
}
