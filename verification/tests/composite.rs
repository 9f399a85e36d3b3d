use ffrwd::composite::{block_spreads, differences, Frame, Mismatch, Rect};

/// A frame of `channels` channels where every pixel carries `value`.
fn flat(width: usize, height: usize, channels: usize, value: u8) -> Frame {
    Frame::new(width, height, channels, vec![value; width * height * channels]).expect("shape")
}

#[test]
fn a_frame_needs_exactly_its_own_bytes() {
    assert!(Frame::new(2, 2, 3, vec![0; 12]).is_some());
    assert!(Frame::new(2, 2, 3, vec![0; 11]).is_none());
    assert!(Frame::new(2, 2, 3, vec![0; 13]).is_none());
}

#[test]
fn a_pixel_is_read_interleaved() {
    let f = Frame::new(2, 1, 3, vec![1, 2, 3, 4, 5, 6]).expect("shape");
    assert_eq!((f.at(0, 0, 0), f.at(0, 0, 2)), (1, 3));
    assert_eq!((f.at(1, 0, 0), f.at(1, 0, 2)), (4, 6));
    assert_eq!(f.weight(1, 0), 4, "the matte weight is channel 0");
}

#[test]
fn inset_and_outset_stay_inside_the_frame() {
    let r = Rect {
        x0: 4,
        y0: 4,
        x1: 8,
        y1: 8,
    };
    assert_eq!(r.inset(2), Rect { x0: 6, y0: 6, x1: 6, y1: 6 });
    assert_eq!(r.inset(9), Rect { x0: 13, y0: 13, x1: 0, y1: 0 });
    assert_eq!(
        r.outset(10, 10, 10),
        Rect { x0: 0, y0: 0, x1: 10, y1: 10 },
        "outset clamps to the frame rather than running off it"
    );
}

#[test]
fn differences_finds_the_worst_pixel_first() {
    let want = flat(2, 1, 3, 100);
    let mut got = want.clone();
    got.data[0] = 103;
    got.data[3] = 110;
    let whole = Rect { x0: 0, y0: 0, x1: 2, y1: 1 };
    assert!(differences(&got, &want, whole, 0).len() == 2);
    let worst = differences(&got, &want, whole, 0)[0];
    assert_eq!((worst.x, worst.got, worst.want), (1, 110, 100));
    assert_eq!(
        differences(&got, &want, whole, 3).len(),
        1,
        "a tolerance of 3 forgives the 3 and keeps the 10"
    );
    assert!(differences(&got, &want, whole, 10).is_empty());
}

#[test]
fn a_flat_block_has_no_spread_and_one_pixel_of_base_gives_it_one() {
    let whole = Rect { x0: 0, y0: 0, x1: 4, y1: 4 };
    let flat_frame = flat(4, 4, 3, 60);
    assert_eq!(block_spreads(&flat_frame, whole, 4), vec![0, 0, 0]);

    let mut leaked = flat_frame.clone();
    leaked.data[(2 * 4 + 2) * 3 + 1] = 69;
    assert_eq!(
        block_spreads(&leaked, whole, 4),
        vec![0, 9, 0],
        "the leak is in the green channel alone and only that spread moves"
    );
}

#[test]
fn block_spreads_only_measures_whole_blocks_of_the_region() {
    let frame = flat(8, 8, 1, 0);
    let whole = Rect { x0: 0, y0: 0, x1: 8, y1: 8 };
    assert_eq!(block_spreads(&frame, whole, 4).len(), 4);
    let ragged = Rect { x0: 1, y0: 1, x1: 8, y1: 8 };
    assert_eq!(
        block_spreads(&frame, ragged, 4).len(),
        1,
        "a block has to start on the grid and end inside the region"
    );
}

#[test]
fn differences_keeps_scan_order_within_one_size() {
    // Three mismatches of the same size and one larger: the larger leads,
    // and the equal ones follow in row, column, channel order.
    let want = flat(2, 2, 1, 50);
    let mut got = want.clone();
    got.data[0] = 55; // (0, 0)
    got.data[1] = 45; // (1, 0)
    got.data[2] = 80; // (0, 1)
    got.data[3] = 55; // (1, 1)
    let whole = Rect { x0: 0, y0: 0, x1: 2, y1: 2 };
    let found = differences(&got, &want, whole, 0);
    let at: Vec<(usize, usize)> = found.iter().map(|m| (m.x, m.y)).collect();
    assert_eq!(at, vec![(0, 1), (0, 0), (1, 0), (1, 1)]);
    assert_eq!(
        found[0],
        Mismatch { x: 0, y: 1, channel: 0, got: 80, want: 50 }
    );
}

#[test]
fn differences_reads_only_the_region_and_the_shared_channels() {
    let want = flat(3, 1, 3, 10);
    let mut got = flat(3, 1, 4, 10);
    got.data[3] = 200; // pixel 0, channel 3: a channel `want` does not carry
    got.data[4 * 2] = 99; // pixel 2, channel 0: outside the region below
    let got = Frame::new(3, 1, 4, got.data).expect("shape");
    let left = Rect { x0: 0, y0: 0, x1: 2, y1: 1 };
    assert!(differences(&got, &want, left, 0).is_empty());
    let all = Rect { x0: 0, y0: 0, x1: 3, y1: 1 };
    let found = differences(&got, &want, all, 0);
    assert_eq!(found, vec![Mismatch { x: 2, y: 0, channel: 0, got: 99, want: 10 }]);
}

#[test]
fn an_empty_region_has_no_differences_and_no_blocks() {
    let f = flat(4, 4, 1, 7);
    let g = flat(4, 4, 1, 9);
    let backwards = Rect { x0: 3, y0: 3, x1: 1, y1: 1 };
    assert!(differences(&g, &f, backwards, 0).is_empty());
    assert!(block_spreads(&f, backwards, 2).is_empty());
}

#[test]
fn block_spreads_reports_every_block_row_by_row() {
    // A 4x4 single-channel frame cut into four 2x2 blocks, each with its own
    // spread.
    let data = vec![
        0, 1, 10, 10, //
        2, 3, 10, 10, //
        5, 5, 0, 0, //
        5, 9, 0, 255,
    ];
    let f = Frame::new(4, 4, 1, data).expect("shape");
    let whole = Rect { x0: 0, y0: 0, x1: 4, y1: 4 };
    assert_eq!(block_spreads(&f, whole, 2), vec![3, 0, 4, 255]);
}

#[test]
fn contains_is_half_open() {
    let r = Rect { x0: 1, y0: 2, x1: 3, y1: 4 };
    assert!(r.contains(1, 2));
    assert!(r.contains(2, 3));
    assert!(!r.contains(3, 3), "x1 is outside");
    assert!(!r.contains(2, 4), "y1 is outside");
    assert!(!r.contains(0, 2));
    // Pulled in by one, only the pixels one in from every edge are left.
    let pulled = Rect { x0: 0, y0: 0, x1: 4, y1: 4 }.inset(1);
    assert!(pulled.contains(1, 1) && pulled.contains(2, 2));
    assert!(!pulled.contains(0, 1) && !pulled.contains(3, 2));
}

#[test]
fn outset_grows_every_side_until_the_frame_stops_it() {
    let r = Rect { x0: 5, y0: 5, x1: 6, y1: 6 };
    assert_eq!(r.outset(2, 100, 100), Rect { x0: 3, y0: 3, x1: 8, y1: 8 });
    assert_eq!(r.outset(2, 7, 100), Rect { x0: 3, y0: 3, x1: 7, y1: 8 });
}
