use bittorrent::bitfield::BitField;
use bittorrent::meta_info_file::File;
use bittorrent::torrent::{
    FillOutcome, PiecedContent, PieceIndexOffsetLength, Torrent, FIXED_BLOCK_SIZE,
    MAX_IN_FLIGHT_BLOCKS,
};

struct FakeMetaInfo;
impl PiecedContent for FakeMetaInfo {
    fn number_of_pieces(&self) -> u32 {
        (170835968f32 / 131072f32).ceil() as u32
    }
    fn piece_length(&self) -> u32 {
        131072
    }
    fn total_length(&self) -> u32 {
        170835968
    }
}

fn torrent_for(content: &dyn PiecedContent) -> Torrent {
    Torrent::new(
        content.number_of_pieces(),
        content.piece_length(),
        content.total_length(),
    )
}

#[test]
fn gets_the_next_block_correctly() {
    let pieced_content = &FakeMetaInfo {};
    let mut t = torrent_for(pieced_content);

    assert_eq!(1304, t.pieces().len());

    let other = t.pieces().first().unwrap();
    assert_eq!(8, other.blocks_left());

    let last = t.pieces().last().unwrap();
    let expected_last_length = 49152;
    assert_eq!(
        last.blocks_left() as usize * FIXED_BLOCK_SIZE as usize,
        expected_last_length
    );

    assert_eq!(3, last.blocks_left());

    assert_eq!(10427, t.total_blocks());

    let bf = &BitField::from(vec![255; 1304]);

    for i in 0..8 {
        let next_block = t.get_next_block(bf);
        assert_eq!(
            Some(PieceIndexOffsetLength(
                0,
                FIXED_BLOCK_SIZE * i,
                FIXED_BLOCK_SIZE
            )),
            next_block
        );
        t.fill_block((0, FIXED_BLOCK_SIZE * i, &[]));
    }

    for i in 0..8 {
        let next_block = t.get_next_block(bf);
        assert_eq!(
            Some(PieceIndexOffsetLength(
                1,
                FIXED_BLOCK_SIZE * i,
                FIXED_BLOCK_SIZE
            )),
            next_block
        );
        t.fill_block((1, FIXED_BLOCK_SIZE * i, &[]));
    }

    for i in 0..8 {
        let next_block = t.get_next_block(bf);
        assert_eq!(
            Some(PieceIndexOffsetLength(
                2,
                FIXED_BLOCK_SIZE * i,
                FIXED_BLOCK_SIZE
            )),
            next_block
        );
        t.fill_block((2, FIXED_BLOCK_SIZE * i, &[]));
    }
}

#[test]
fn end_to_end_schedule_completes_with_the_full_length() {
    let mut t = Torrent::new(1304, 131072, 170835968);
    assert_eq!(t.pieces().len(), 1304);
    assert_eq!(t.total_blocks(), 10427);
    let bf = BitField::from(vec![255; 163]);
    for i in 0..8 {
        assert_eq!(
            t.get_next_block(&bf),
            Some(PieceIndexOffsetLength(0, 16384 * i, 16384))
        );
    }
    while let Some(PieceIndexOffsetLength(p, o, l)) = t.get_next_block(&bf) {
        assert!(p < 1304);
        assert!(l > 0 && l <= 16384);
    }
    let in_flight: Vec<(u32, u32)> = t
        .in_progress_blocks()
        .iter()
        .map(|b| (b.piece_index, b.offset))
        .collect();
    assert_eq!(in_flight.len(), MAX_IN_FLIGHT_BLOCKS);
    assert!(!t.are_we_done_yet());
    for (p, o) in in_flight {
        assert_eq!(t.fill_block((p, o, &[])), FillOutcome::Filled);
    }
    loop {
        match t.get_next_block(&bf) {
            Some(PieceIndexOffsetLength(p, o, _)) => {
                assert_eq!(t.fill_block((p, o, &[])), FillOutcome::Filled);
            }
            None => break,
        }
    }
    assert!(t.are_we_done_yet());
    assert_eq!(t.completed_blocks(), 10427);
    let files = vec![File { length: 170835968, path: String::from("out.bin") }];
    let contents = t.file_contents(&files).unwrap();
    assert_eq!(contents.len(), 1);
    assert_eq!(contents[0].len(), 170835968);
}

#[test]
fn requests_stay_inside_their_piece() {
    let mut t = Torrent::new(3, 40000, 90000);
    let bf = BitField::new(vec![0xe0]);
    let mut seen = Vec::new();
    while let Some(PieceIndexOffsetLength(p, o, l)) = t.get_next_block(&bf) {
        let piece_size = if p < 2 { 40000 } else { 10000 };
        assert!(p < 3);
        assert!(o + l <= piece_size);
        seen.push((p, o, l));
    }
    assert_eq!(seen.len(), 3 + 3 + 1);
    assert!(seen.contains(&(0, 32768, 40000 - 32768)));
    assert!(seen.contains(&(2, 0, 10000)));
}

#[test]
fn only_pieces_the_peer_has_are_handed_out() {
    let mut t = Torrent::new(3, 16384, 40000);
    let bf = BitField::new(vec![0b0100_0000]);
    assert_eq!(t.get_next_block(&bf), Some(PieceIndexOffsetLength(1, 0, 16384)));
    assert_eq!(t.get_next_block(&bf), None);
    let none = BitField::new(vec![]);
    assert_eq!(t.get_next_block(&none), None);
}

#[test]
fn blocks_are_written_at_their_position_and_duplicates_counted() {
    let mut t = Torrent::new(2, 16384, 16390);
    let bf = BitField::new(vec![0xc0]);
    assert_eq!(t.get_next_block(&bf), Some(PieceIndexOffsetLength(0, 0, 16384)));
    assert_eq!(t.get_next_block(&bf), Some(PieceIndexOffsetLength(1, 0, 6)));
    assert_eq!(t.fill_block((1, 0, &[1, 2, 3, 4, 5, 6, 7])), FillOutcome::Oversized);
    assert_eq!(t.fill_block((1, 0, &[1, 2, 3, 4, 5, 6])), FillOutcome::Filled);
    assert_eq!(t.fill_block((1, 0, &[9, 9, 9, 9, 9, 9])), FillOutcome::Duplicate);
    assert_eq!(t.fill_block((1, 0, &[9, 9, 9, 9, 9, 9])), FillOutcome::Duplicate);
    assert_eq!(t.fill_block((0, 5, &[1])), FillOutcome::Unknown);
    assert_eq!(t.fill_block((2, 0, &[1])), FillOutcome::Unknown);
    assert!(!t.are_we_done_yet());
    let block = vec![7u8; 16384];
    assert_eq!(t.fill_block((0, 0, &block)), FillOutcome::Filled);
    assert!(t.are_we_done_yet());
    assert_eq!(t.repeated_blocks()[1], 2);
    assert_eq!(t.repeated_blocks()[0], 0);
    assert_eq!(&t.data()[16384..], &[1, 2, 3, 4, 5, 6]);
    assert!(t.data()[..16384].iter().all(|b| *b == 7));
}

#[test]
fn blocks_not_in_flight_are_refused() {
    let mut t = Torrent::new(1, 32768, 32768);
    assert_eq!(t.fill_block((0, 16384, &[1])), FillOutcome::NotRequested);
    assert_eq!(t.completed_blocks(), 0);
}

#[test]
fn the_buffer_splits_into_the_files_in_order() {
    let mut t = Torrent::new(1, 16384, 10);
    let bf = BitField::new(vec![0x80]);
    assert_eq!(t.get_next_block(&bf), Some(PieceIndexOffsetLength(0, 0, 10)));
    assert_eq!(
        t.fill_block((0, 0, &[0, 1, 2, 3, 4, 5, 6, 7, 8, 9])),
        FillOutcome::Filled
    );
    let files = vec![
        File { length: 3, path: String::from("a") },
        File { length: 0, path: String::from("b") },
        File { length: 7, path: String::from("c") },
    ];
    let contents = t.file_contents(&files).unwrap();
    assert_eq!(contents, vec![vec![0, 1, 2], vec![], vec![3, 4, 5, 6, 7, 8, 9]]);
    let short = vec![File { length: 9, path: String::from("a") }];
    assert_eq!(t.file_contents(&short), None);
    let long = vec![File { length: 11, path: String::from("a") }];
    assert_eq!(t.file_contents(&long), None);
}

#[test]
fn layouts_that_do_not_add_up_are_refused() {
    assert!(Torrent::try_new(2, 10, 20).is_some());
    assert!(Torrent::try_new(3, 10, 20).is_none());
    assert!(Torrent::try_new(1, 10, 20).is_none());
    assert!(Torrent::try_new(0, 10, 0).is_none());
    assert!(Torrent::try_new(1, 0, 1).is_none());
}

#[test]
fn a_long_payload_that_fits_the_buffer_is_written() {
    let mut t = Torrent::new(2, 16384, 16390);
    let bf = BitField::new(vec![0xc0]);
    assert_eq!(t.get_next_block(&bf), Some(PieceIndexOffsetLength(0, 0, 16384)));
    let data = vec![3u8; 16386];
    assert_eq!(t.fill_block((0, 0, &data)), FillOutcome::Filled);
    assert_eq!(t.completed_blocks(), 1);
    assert!(t.data()[..16386].iter().all(|b| *b == 3));
    assert_eq!(&t.data()[16386..], &[0, 0, 0, 0]);
    assert!(t.in_progress_blocks().is_empty());
}
