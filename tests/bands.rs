use raytracer::render::{assemble, render_band, row_range, row_ranges, Frame};

#[test]
fn bands_tile_the_image() {
    let height: usize = 450;
    for n_jobs in 1..=32usize {
        let ranges = row_ranges(height, n_jobs);
        assert_eq!(ranges.len(), n_jobs);
        assert_eq!(ranges[0].0, 0);
        assert_eq!(ranges[n_jobs - 1].1, height);
        for i in 0..n_jobs {
            assert!(ranges[i].0 < ranges[i].1);
            if i + 1 < n_jobs {
                assert_eq!(ranges[i].1, ranges[i + 1].0);
            }
        }
        let mut seen = vec![0u32; height];
        for (begin, end) in &ranges {
            for row in *begin..*end {
                seen[row] += 1;
            }
        }
        assert!(seen.iter().all(|&c| c == 1));
    }
}

#[test]
fn band_bounds_by_integer_division() {
    assert_eq!(row_range(10, 3, 0), (0, 3));
    assert_eq!(row_range(10, 3, 1), (3, 6));
    assert_eq!(row_range(10, 3, 2), (6, 10));
    assert_eq!(row_ranges(450, 16)[1], (28, 56));
}

#[test]
fn more_bands_than_rows_leaves_some_empty() {
    let ranges = row_ranges(2, 4);
    assert_eq!(ranges, vec![(0, 0), (0, 1), (1, 1), (1, 2)]);
}

#[test]
fn zero_rows_give_empty_bands() {
    let ranges = row_ranges(0, 3);
    assert_eq!(ranges, vec![(0, 0), (0, 0), (0, 0)]);
}

#[test]
fn new_frame_is_black() {
    let f = Frame::new(4, 3);
    assert_eq!(f.width, 4);
    assert_eq!(f.height, 3);
    assert_eq!(f.pixels.len(), 12);
    assert!(f.pixels.iter().all(|p| *p == [0, 0, 0]));
}

#[test]
fn render_band_shades_each_pixel_of_its_rows() {
    let shade = |x: usize, y: usize| [x as u8, y as u8, (x + y) as u8];
    let band = render_band(5, 2, 4, &shade);
    assert_eq!(band.width, 5);
    assert_eq!(band.height, 2);
    assert_eq!(band.pixels.len(), 10);
    assert_eq!(band.pixel(0, 0), [0, 2, 2]);
    assert_eq!(band.pixel(4, 1), [4, 3, 7]);
    assert_eq!(band.pixels[7], [2, 3, 5]);
}

#[test]
fn empty_band_has_no_pixels() {
    let shade = |_x: usize, _y: usize| [9u8, 9, 9];
    let band = render_band(5, 3, 3, &shade);
    assert_eq!(band.height, 0);
    assert!(band.pixels.is_empty());
}

#[test]
fn place_band_writes_only_its_rows() {
    let mut frame = Frame::new(3, 4);
    let shade = |x: usize, y: usize| [x as u8 + 1, y as u8 + 1, 7];
    let band = render_band(3, 1, 3, &shade);
    frame.place_band(1, &band);
    for x in 0..3 {
        assert_eq!(frame.pixel(x, 0), [0, 0, 0]);
        assert_eq!(frame.pixel(x, 1), [x as u8 + 1, 2, 7]);
        assert_eq!(frame.pixel(x, 2), [x as u8 + 1, 3, 7]);
        assert_eq!(frame.pixel(x, 3), [0, 0, 0]);
    }
}

#[test]
fn bands_in_any_order_reassemble_the_image() {
    let (width, height, n_jobs) = (7usize, 23usize, 5usize);
    let shade = |x: usize, y: usize| [x as u8, y as u8, (x * y % 251) as u8];
    let mut bands: Vec<(usize, Frame)> = row_ranges(height, n_jobs)
        .into_iter()
        .map(|(b, e)| (b, render_band(width, b, e, &shade)))
        .collect();
    bands.reverse();
    bands.swap(0, 2);
    let mut frame = Frame::new(width, height);
    for (begin, band) in &bands {
        frame.place_band(*begin, band);
    }
    let whole = render_band(width, 0, height, &shade);
    assert_eq!(frame.pixels, whole.pixels);
}

#[test]
fn assemble_puts_bands_at_their_rows_in_any_order() {
    let (width, height) = (4usize, 9usize);
    let shade = |x: usize, y: usize| [x as u8 + 10, y as u8 + 20, 30];
    let bands = vec![
        (6usize, render_band(width, 6, 9, &shade)),
        (0usize, render_band(width, 0, 2, &shade)),
        (2usize, render_band(width, 2, 6, &shade)),
    ];
    let frame = assemble(width, height, &bands);
    assert_eq!(frame.width, width);
    assert_eq!(frame.height, height);
    assert_eq!(frame.pixels, render_band(width, 0, height, &shade).pixels);
}

#[test]
fn assemble_leaves_uncovered_rows_black() {
    let shade = |x: usize, y: usize| [x as u8 + 1, y as u8 + 1, 1];
    let bands = vec![(1usize, render_band(2, 1, 2, &shade))];
    let frame = assemble(2, 3, &bands);
    assert_eq!(
        frame.pixels,
        vec![[0, 0, 0], [0, 0, 0], [1, 2, 1], [2, 2, 1], [0, 0, 0], [0, 0, 0]]
    );
    let empty = assemble(2, 2, &Vec::new());
    assert!(empty.pixels.iter().all(|p| *p == [0, 0, 0]));
}
