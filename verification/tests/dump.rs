use esprobe::dump::Dump;

#[test]
fn blocks_cover_a_stretch_without_a_gap() {
    let dump = Dump::new(0x0800_0000, 4 * 2_500, Some(1_000), 1_024, 2).unwrap();
    assert_eq!(dump.count(), 3);
    let spans: Vec<usize> = (0..3).map(|index| dump.words_in(index)).collect();
    assert_eq!(spans, [1_000, 1_000, 500]);
    assert_eq!(dump.request(0), [0, 0, 0, 8, 0xe8, 3]);
    assert_eq!(dump.request(2), [0x40, 0x1f, 0, 8, 0xf4, 1]);
    assert!(dump.is_whole(2, &[0; 2_000]));
    assert!(!dump.is_whole(2, &[0; 1_999]));
}

#[test]
fn requests_are_kept_in_flight() {
    let dump = Dump::new(0, 4 * 50, Some(10), 1_024, 2).unwrap();
    assert_eq!(dump.ahead(), 2);
    let later: Vec<Option<usize>> = (0..5).map(|index| dump.next(index)).collect();
    assert_eq!(later, [Some(2), Some(3), Some(4), None, None]);
    let short = Dump::new(0, 4, None, 1_024, 9).unwrap();
    assert_eq!((short.count(), short.ahead(), short.next(0)), (1, 1, None));
}

#[test]
fn a_block_is_never_larger_than_the_bridge_takes() {
    assert_eq!(Dump::new(0, 4, Some(9_999), 1_024, 1).unwrap().block, 1_024);
    assert_eq!(Dump::new(0, 4, Some(0), 1_024, 0).unwrap().block, 1);
    assert_eq!(Dump::new(0, 4, None, 512, 0).unwrap().block, 512);
    assert_eq!(Dump::new(0, 4, None, 512, 0).unwrap().depth, 1);
    assert_eq!(Dump::new(0, 3, None, 512, 1).unwrap().count(), 0);
}

#[test]
fn a_stretch_past_the_address_space_is_refused() {
    assert!(Dump::new(0xffff_fffc, 4, None, 1_024, 1).is_some());
    assert!(Dump::new(0xffff_fffc, 8, None, 1_024, 1).is_none());
}
