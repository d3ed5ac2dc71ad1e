use gptman::GPT;

#[test]
fn writing_protective_mbr() {
    fn test(ss: u64) {
        let mut data = vec![2u8; ss as usize * 100];
        GPT::write_protective_mbr_into(&mut data, ss).unwrap();

        assert_eq!(data[510], 0x55);
        assert_eq!(data[511], 0xaa);
        assert_eq!(data[446 + 4], 0xee);
        for (i, x) in data.iter().enumerate() {
            if i < 446 || i >= 512 {
                assert_eq!(*x, 2);
            }
        }

        let first_lba = u32::from_le_bytes([data[454], data[455], data[456], data[457]]);
        let sectors = u32::from_le_bytes([data[458], data[459], data[460], data[461]]);
        assert_eq!(first_lba, 1);
        assert_eq!(sectors, 99);
    }

    test(512);
    test(4096);
}

#[test]
fn protective_mbr_other_records_are_zero() {
    let mut data = vec![7u8; 512 * 10];
    gptman::mbr::write_protective_mbr_into(&mut data, 512).unwrap();
    assert_eq!(&data[446..450], &[0x00, 0x00, 0x02, 0x00]);
    assert_eq!(&data[451..454], &[0xff, 0xff, 0xff]);
    assert!(data[462..510].iter().all(|x| *x == 0));
    assert_eq!(u32::from_le_bytes([data[458], data[459], data[460], data[461]]), 9);
}

#[test]
fn protective_mbr_on_short_image() {
    let mut data = vec![7u8; 300];
    let r = GPT::write_protective_mbr_into(&mut data, 256);
    assert!(matches!(r, Err(gptman::Error::Io)));
    assert!(data.iter().all(|x| *x == 7));
}
