use bread::draw_state::draw_ramp;
use bread::parser::Size;
use bread::pixels::{Color, Pixels};
use bread::state::draw_example;
use memfd::MemfdOptions;
use memmap2::MmapMut;

fn buffer(width: u32, height: u32) -> Pixels {
    let len = width as usize * 4 * height as usize;
    let mfd = MemfdOptions::new().create("test-pixels").expect("memfd");
    let mmap = MmapMut::map_anon(len).expect("map");
    Pixels::new(mfd, mmap, width)
}

fn pixel(p: &Pixels, x: u32, y: u32) -> [u8; 4] {
    let i = (x * 4 + y * p.stride()) as usize;
    let b = p.bytes();
    [b[i], b[i + 1], b[i + 2], b[i + 3]]
}

#[test]
fn from_map_checks_the_shape() {
    let map = |len: usize| MmapMut::map_anon(len).expect("map");
    let fd = || MemfdOptions::new().create("test-pixels").expect("memfd");
    assert!(Pixels::from_map(fd(), map(24), 3).is_some());
    assert!(Pixels::from_map(fd(), map(24), 0).is_none());
    assert!(Pixels::from_map(fd(), map(20), 3).is_none());
    assert!(Pixels::from_map(fd(), map(16), 0x4000_0000).is_none());
    let p = Pixels::from_map(fd(), map(24), 2).expect("buffer");
    assert_eq!((p.width(), p.height()), (2, 3));
}

#[test]
fn pixel_color_bytes_are_bgra() {
    let c = Color::new(0x11, 0x22, 0x33, 0x44);
    assert_eq!(c.as_argb(), [0x33, 0x22, 0x11, 0x44]);
}

#[test]
fn dimensions() {
    let p = buffer(5, 3);
    assert_eq!(p.width(), 5);
    assert_eq!(p.stride(), 20);
    assert_eq!(p.height(), 3);
    assert_eq!(p.size(), 60);
    assert_eq!(p.bytes().len(), 60);
}

#[test]
fn set_then_read() {
    let mut p = buffer(4, 2);
    let c = Color::new(1, 2, 3, 4);
    assert!(p.set(3, 1, c));
    assert_eq!(pixel(&p, 3, 1), [3, 2, 1, 4]);
    assert_eq!(pixel(&p, 2, 1), [0, 0, 0, 0]);
    assert_eq!(pixel(&p, 3, 0), [0, 0, 0, 0]);
}

#[test]
fn set_outside_does_nothing() {
    let mut p = buffer(4, 2);
    let c = Color::new(9, 9, 9, 9);
    assert!(!p.set(4, 0, c));
    assert!(!p.set(0, 2, c));
    assert!(p.bytes().iter().all(|&b| b == 0));
}

#[test]
fn clear_fills_every_pixel() {
    let mut p = buffer(3, 2);
    p.clear(Color::new(0x10, 0x20, 0x30, 0xff));
    for y in 0..2 {
        for x in 0..3 {
            assert_eq!(pixel(&p, x, y), [0x30, 0x20, 0x10, 0xff]);
        }
    }
}

#[test]
fn fill_rect_clips_to_buffer() {
    let mut p = buffer(4, 3);
    let c = Color::new(1, 1, 1, 1);
    p.fill_rect(2, 1, 10, 10, c);
    for y in 0..3 {
        for x in 0..4 {
            let expected = if x >= 2 && y >= 1 { [1, 1, 1, 1] } else { [0, 0, 0, 0] };
            assert_eq!(pixel(&p, x, y), expected);
        }
    }
}

#[test]
fn ramp_columns() {
    let mut p = buffer(4, 5);
    let fg = Color::new(0xff, 0, 0, 0xff);
    let bg = Color::new(0, 0, 0xff, 0xff);
    draw_ramp(&mut p, 1, Size { w: 2, h: 3 }, fg, bg);
    // a 2x3 box of foreground on the bottom edge, background above it
    for y in 0..5 {
        for x in 0..4 {
            let expected = if x == 1 || x == 2 {
                if y < 2 { bg.as_argb() } else { fg.as_argb() }
            } else {
                [0, 0, 0, 0]
            };
            assert_eq!(pixel(&p, x, y), expected);
        }
    }
}

#[test]
fn ramp_of_zero_height_is_background() {
    let mut p = buffer(2, 2);
    let fg = Color::new(1, 2, 3, 4);
    let bg = Color::new(5, 6, 7, 8);
    draw_ramp(&mut p, 0, Size { w: 2, h: 0 }, fg, bg);
    for y in 0..2 {
        for x in 0..2 {
            assert_eq!(pixel(&p, x, y), bg.as_argb());
        }
    }
}

#[test]
fn ramp_of_full_height_is_foreground() {
    let mut p = buffer(3, 2);
    let fg = Color::new(1, 2, 3, 4);
    let bg = Color::new(5, 6, 7, 8);
    draw_ramp(&mut p, 2, Size { w: 5, h: 2 }, fg, bg);
    for y in 0..2 {
        assert_eq!(pixel(&p, 2, y), fg.as_argb());
        assert_eq!(pixel(&p, 1, y), [0, 0, 0, 0]);
    }
}

#[test]
fn example_pattern() {
    let mut p = buffer(120, 60);
    draw_example(&mut p);
    let c1 = Color::new(0x4b, 0x48, 0x47, 0xff).as_argb();
    let c2 = Color::new(0x4e, 0x78, 0x37, 0xff).as_argb();
    assert_eq!(pixel(&p, 0, 0), c1);
    assert_eq!(pixel(&p, 49, 49), c1);
    assert_eq!(pixel(&p, 50, 0), c2);
    assert_eq!(pixel(&p, 0, 50), c2);
    assert_eq!(pixel(&p, 50, 50), c1);
    assert_eq!(pixel(&p, 119, 59), c2);
}
