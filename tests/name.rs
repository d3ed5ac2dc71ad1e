use gptman::PartitionName;

#[test]
fn name_round_trip_short() {
    for s in ["", "Foo", "A Robot Named Fight!", "ümlaut ß ∑ 漢字", "12345678901234567890123456789012345"] {
        let name = PartitionName::new(s);
        let units = name.to_units();
        assert_eq!(units.len(), 36);
        assert_eq!(PartitionName::from_units(&units).as_str(), s);
    }
}

#[test]
fn name_round_trip_truncates() {
    let s = "abcdefghijklmnopqrstuvwxyz0123456789ABCD";
    assert_eq!(s.chars().count(), 40);
    let units = PartitionName::new(s).to_units();
    assert_eq!(units.len(), 36);
    assert_eq!(PartitionName::from_units(&units).as_str(), &s[..35]);
    assert_eq!(units[35], 0);
}

#[test]
fn name_of_36_characters_keeps_35() {
    let s = "abcdefghijklmnopqrstuvwxyz0123456789";
    let units = PartitionName::new(s).to_units();
    assert_eq!(units[34], '8' as u16);
    assert_eq!(units[35], 0);
    assert_eq!(PartitionName::from_units(&units).as_str(), &s[..35]);
}

#[test]
fn full_field_without_nul_reads_36_characters() {
    let units: Vec<u16> = (0..36).map(|i| 'a' as u16 + (i % 26) as u16).collect();
    assert_eq!(PartitionName::from_units(&units).as_str().chars().count(), 36);
}

#[test]
fn name_units_after_nul_are_ignored() {
    let mut units = vec![0u16; 36];
    units[0] = 'H' as u16;
    units[1] = 'i' as u16;
    units[3] = 'x' as u16;
    assert_eq!(PartitionName::from_units(&units).as_str(), "Hi");
}

#[test]
fn name_invalid_surrogate_is_replaced() {
    let mut units = vec![0u16; 36];
    units[0] = 'a' as u16;
    units[1] = 0xD800;
    units[2] = 'b' as u16;
    assert_eq!(PartitionName::from_units(&units).as_str(), "a\u{FFFD}b");
}

#[test]
fn name_outside_basic_plane_uses_surrogates() {
    let units = PartitionName::new("a😀").to_units();
    assert_eq!(&units[..4], &[0x61, 0xD83D, 0xDE00, 0]);
    assert_eq!(PartitionName::from_units(&units).as_str(), "a😀");
}
