use gptman::gpt::DEFAULT_ALIGN;
use gptman::{GPTPartitionEntry, GPT};

fn entry(start: u64, end: u64, guid: u8) -> GPTPartitionEntry {
    GPTPartitionEntry {
        partition_type_guid: [1; 16],
        unique_partition_guid: [guid; 16],
        starting_lba: start,
        ending_lba: end,
        attribute_bits: 0,
        partition_name: "".into(),
    }
}

#[test]
fn determine_partition_alignment_no_partition() {
    fn test(ss: u64) {
        let mut cur = vec![0u8; ss as usize * DEFAULT_ALIGN as usize * 10];
        let mut gpt = GPT::new_from(&cur, ss, [1; 16]).unwrap();
        assert_eq!(gpt.align, DEFAULT_ALIGN);
        gpt.write_into(&mut cur).unwrap();
        let gpt = GPT::read_from(&cur, ss).unwrap();
        assert_eq!(gpt.align, DEFAULT_ALIGN);
    }

    test(512);
    test(4096);
}

#[test]
fn determine_partition_alignment() {
    fn test(ss: u64, align: u64) {
        let mut cur = vec![0u8; ss as usize * align as usize * 21];
        let mut gpt = GPT::new_from(&cur, ss, [1; 16]).unwrap();
        // start at least at first_usable_lba in smallest case
        gpt.set_partition(1, entry(5 * align, 6 * align, 1));
        gpt.set_partition(2, entry(8 * align, 16 * align, 2));
        gpt.write_into(&mut cur).unwrap();
        let gpt = GPT::read_from(&cur, ss).unwrap();
        assert_eq!(gpt.align, align);
    }

    test(512, 8); // 4096 bytes
    test(512, 2048); // 1MB
    test(512, 2048 * 4); // 4MB
    test(4096, 8);
    test(4096, 2048);
    test(4096, 2048 * 4);
}

#[test]
fn determine_partition_alignment_full_disk() {
    fn test(ss: u64) {
        let mut cur = vec![0u8; ss as usize * 100];
        let mut gpt = GPT::new_from(&cur, ss, [1; 16]).unwrap();
        let (first, last) = (gpt.header.first_usable_lba, gpt.header.last_usable_lba);
        gpt.set_partition(1, entry(first, last, 1));
        gpt.write_into(&mut cur).unwrap();
        let gpt = GPT::read_from(&cur, ss).unwrap();
        assert_eq!(gpt.align, 1);

        let mut gpt = GPT::new_from(&cur, ss, [1; 16]).unwrap();
        let (first, last) = (gpt.header.first_usable_lba, gpt.header.last_usable_lba);
        gpt.set_partition(1, entry(first + 1, last, 1));
        gpt.write_into(&mut cur).unwrap();
        let gpt = GPT::read_from(&cur, ss).unwrap();
        assert_eq!(gpt.align, gpt.header.first_usable_lba + 1);
    }

    test(512);
    test(4096);
}

#[test]
fn alignment_is_common_multiple_of_starts() {
    let mut cur = vec![0u8; 512 * 400];
    let mut gpt = GPT::new_from(&cur, 512, [1; 16]).unwrap();
    gpt.set_partition(1, entry(48, 59, 1));
    gpt.set_partition(3, entry(72, 80, 2));
    gpt.set_partition(5, entry(120, 130, 3));
    gpt.write_into(&mut cur).unwrap();
    let gpt = GPT::read_from(&cur, 512).unwrap();
    assert_eq!(gpt.align, 24);
}

#[test]
fn alignment_bounded_by_largest_start() {
    let mut cur = vec![0u8; 512 * 400];
    let mut gpt = GPT::new_from(&cur, 512, [1; 16]).unwrap();
    // a single partition not at the first usable sector: its start divides itself
    gpt.set_partition(2, entry(100, 110, 1));
    gpt.write_into(&mut cur).unwrap();
    let gpt = GPT::read_from(&cur, 512).unwrap();
    assert_eq!(gpt.align, 100);
}
