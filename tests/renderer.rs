use orbclient::{Color, ImageMask, StateStack};

fn canvas(w: u32, h: u32) -> ImageMask {
    let mut m = ImageMask::new(w, h);
    m.set(Color::rgba(0, 0, 0, 0));
    m
}

fn painted(m: &ImageMask) -> Vec<(i32, i32)> {
    let mut v = Vec::new();
    for y in 0..m.height as i32 {
        for x in 0..m.width as i32 {
            if m.getpixel(x, y).data != 0 {
                v.push((x, y));
            }
        }
    }
    v
}

#[test]
fn new_mask_is_white() {
    let m = ImageMask::new(3, 2);
    assert_eq!(m.data.len(), 6);
    assert!(m.data.iter().all(|c| c.data == 0xFFFFFFFF));
}

#[test]
fn pixel_reads_back_and_outside_is_zero() {
    let mut m = canvas(4, 4);
    let red = Color::rgba(200, 10, 20, 255);
    m.pixel(2, 3, red);
    assert_eq!(m.getpixel(2, 3).data, red.data);
    assert_eq!(m.getpixel(-1, 0).data, 0);
    assert_eq!(m.getpixel(4, 0).data, 0);
    assert_eq!(m.getpixel(0, 4).data, 0);
    m.pixel(10, 10, red);
    m.pixel(-1, 2, red);
    assert_eq!(painted(&m), vec![(2, 3)]);
}

#[test]
fn zero_alpha_pixel_changes_nothing() {
    let mut m = ImageMask::new(2, 2);
    m.pixel(1, 1, Color::rgba(1, 2, 3, 0));
    assert_eq!(m.getpixel(1, 1).data, 0xFFFFFFFF);
}

#[test]
fn translucent_pixel_blends() {
    let mut m = canvas(1, 1);
    m.set(Color::rgb(0, 0, 0));
    m.pixel(0, 0, Color::rgba(255, 0, 0, 128));
    assert_eq!(m.getpixel(0, 0).data, 0xFE7F0000);
}

#[test]
fn rect_opaque_replaces_and_clear_keeps() {
    let mut m = canvas(5, 5);
    m.set(Color::rgb(1, 1, 1));
    let before: Vec<u32> = m.data.iter().map(|c| c.data).collect();
    m.rect(1, 1, 2, 3, Color::rgba(9, 9, 9, 0));
    let after: Vec<u32> = m.data.iter().map(|c| c.data).collect();
    assert_eq!(before, after);
    let c = Color::rgb(7, 8, 9);
    m.rect(1, 1, 2, 3, c);
    for y in 0..5 {
        for x in 0..5 {
            let inside = (1..3).contains(&x) && (1..4).contains(&y);
            let want = if inside { c.data } else { 0xFF010101 };
            assert_eq!(m.getpixel(x, y).data, want);
        }
    }
}

#[test]
fn rect_clips_and_off_surface_is_noop() {
    let mut m = canvas(4, 4);
    let c = Color::rgb(1, 2, 3);
    m.rect(-2, -2, 3, 3, c);
    assert_eq!(painted(&m), vec![(0, 0)]);
    let mut m = canvas(4, 4);
    m.rect(0, 4, 4, 4, c);
    m.rect(4, 0, 4, 4, c);
    m.rect(-10, 0, 5, 4, c);
    m.rect(1, 1, 0, 3, c);
    assert!(painted(&m).is_empty());
}

#[test]
fn line_endpoints_and_reverse_on_axes() {
    let c = Color::rgb(255, 255, 255);
    let mut a = canvas(10, 10);
    a.line(1, 4, 8, 4, c);
    let mut b = canvas(10, 10);
    b.line(8, 4, 1, 4, c);
    assert_eq!(painted(&a), painted(&b));
    assert_eq!(painted(&a).len(), 8);
    let mut a = canvas(10, 10);
    a.line(3, 9, 3, 0, c);
    let mut b = canvas(10, 10);
    b.line(3, 0, 3, 9, c);
    assert_eq!(painted(&a), painted(&b));
    assert_eq!(painted(&a).len(), 10);
}

#[test]
fn line_reversed_draws_same_points() {
    let c = Color::rgb(1, 1, 1);
    for (x1, y1, x2, y2) in [(0, 0, 2, 1), (0, 0, 2, 2), (1, 5, 6, 0), (0, 3, 5, 1), (2, 0, 3, 6)] {
        let mut a = canvas(8, 8);
        a.line(x1, y1, x2, y2, c);
        let mut b = canvas(8, 8);
        b.line(x2, y2, x1, y1, c);
        assert_eq!(painted(&a), painted(&b), "{} {} {} {}", x1, y1, x2, y2);
    }
    let mut b = canvas(5, 5);
    b.line(2, 1, 0, 0, c);
    assert_eq!(painted(&b), vec![(0, 0), (1, 0), (2, 1)]);
}

#[test]
fn line_diagonal_points() {
    let mut m = canvas(5, 5);
    m.line(0, 0, 3, 3, Color::rgb(1, 1, 1));
    assert_eq!(painted(&m), vec![(0, 0), (1, 1), (2, 2), (3, 3)]);
    let mut m = canvas(5, 5);
    m.line(0, 0, 2, 1, Color::rgb(1, 1, 1));
    assert_eq!(painted(&m), vec![(0, 0), (1, 0), (2, 1)]);
}

#[test]
fn lines_polyline() {
    let c = Color::rgb(1, 1, 1);
    let mut m = canvas(5, 5);
    m.lines(&[], c);
    assert!(painted(&m).is_empty());
    m.lines(&[[2, 2]], c);
    assert_eq!(painted(&m), vec![(2, 2)]);
    let mut m = canvas(5, 5);
    m.lines(&[[0, 0], [2, 0], [2, 2]], c);
    assert_eq!(painted(&m), vec![(0, 0), (1, 0), (2, 0), (2, 1), (2, 2)]);
}

#[test]
fn circle_radius_zero_is_one_pixel() {
    let mut m = canvas(5, 5);
    m.circle(2, 2, 0, Color::rgb(1, 1, 1));
    assert_eq!(painted(&m), vec![(2, 2)]);
}

#[test]
fn circle_outline_radius_two() {
    let mut m = canvas(5, 5);
    m.circle(2, 2, 2, Color::rgb(1, 1, 1));
    assert_eq!(
        painted(&m),
        vec![(2, 0), (1, 1), (3, 1), (0, 2), (4, 2), (1, 3), (3, 3), (2, 4)]
    );
}

fn outline_row_spans_match_disc(r: i32) {
    let size = 2 * r as u32 + 5;
    let c = r + 2;
    let mut m = canvas(size, size);
    m.circle(c, c, -r, Color::rgb(1, 1, 1));
    let mut o = canvas(size, size);
    o.circle(c, c, r, Color::rgb(1, 1, 1));
    // each row of the disc spans the outline's extent on that row
    for y in 0..size as i32 {
        let row: Vec<i32> = painted(&o).iter().filter(|p| p.1 == y).map(|p| p.0).collect();
        let filled: Vec<i32> = painted(&m).iter().filter(|p| p.1 == y).map(|p| p.0).collect();
        if row.is_empty() {
            assert!(filled.is_empty());
        } else {
            let lo = *row.iter().min().unwrap();
            let hi = *row.iter().max().unwrap();
            assert_eq!(filled, (lo..=hi).collect::<Vec<i32>>(), "radius {} row {}", r, y);
        }
    }
}

#[test]
fn filled_circle_radius_one() {
    outline_row_spans_match_disc(1);
}

#[test]
fn filled_circle_radius_two_matches_outline() {
    outline_row_spans_match_disc(2);
    let mut m = canvas(5, 5);
    m.circle(2, 2, -2, Color::rgb(1, 1, 1));
    let row1: Vec<i32> = painted(&m).iter().filter(|p| p.1 == 1).map(|p| p.0).collect();
    assert_eq!(row1, vec![1, 2, 3]);
}

#[test]
fn filled_circle_larger_radii_match_outline() {
    for r in [3, 5, 10, 17] {
        outline_row_spans_match_disc(r);
    }
}

#[test]
fn filled_circle_blends_each_pixel_once() {
    let mut m = canvas(9, 9);
    m.set(Color::rgb(0, 0, 0));
    m.circle(4, 4, -3, Color::rgba(255, 0, 0, 128));
    for p in painted(&m) {
        let d = m.getpixel(p.0, p.1).data;
        assert!(d == 0xFF000000 || d == 0xFE7F0000, "{:?} {:#x}", p, d);
    }
}

#[test]
fn arc_parts_select_octants() {
    let mut m = canvas(7, 7);
    m.arc(3, 3, 3, 1 << 1, Color::rgb(1, 1, 1));
    assert!(painted(&m).iter().all(|p| p.0 >= 3 && p.1 >= 3));
    assert!(painted(&m).contains(&(6, 3)));
    let mut m = canvas(7, 7);
    m.arc(3, 3, 3, 0, Color::rgb(1, 1, 1));
    assert!(painted(&m).is_empty());
}

#[test]
fn rounded_rect_stays_inside() {
    let c = Color::rgb(1, 1, 1);
    for filled in [true, false] {
        let mut m = canvas(12, 12);
        m.rounded_rect(1, 2, 9, 8, 2, filled, c);
        let p = painted(&m);
        assert!(!p.is_empty());
        assert!(p.iter().all(|q| (1..10).contains(&q.0) && (2..10).contains(&q.1)));
        assert!(!p.contains(&(1, 2)));
        if filled {
            assert!(p.contains(&(5, 6)));
        } else {
            assert!(!p.contains(&(5, 6)));
            assert!(p.contains(&(5, 2)));
        }
    }
}

#[test]
fn image_opaque_twice_equals_once() {
    let img: Vec<Color> = (0..6).map(|i| Color::rgba(i as u8, 2, 3, 255)).collect();
    let mut a = canvas(4, 4);
    a.set(Color::rgb(50, 50, 50));
    a.image(2, 1, 3, 2, &img);
    let once: Vec<u32> = a.data.iter().map(|c| c.data).collect();
    a.image(2, 1, 3, 2, &img);
    let twice: Vec<u32> = a.data.iter().map(|c| c.data).collect();
    assert_eq!(once, twice);
    // clipped at the right edge, rows follow the image width
    assert_eq!(a.getpixel(2, 1).data, img[0].data);
    assert_eq!(a.getpixel(3, 1).data, img[1].data);
    assert_eq!(a.getpixel(2, 2).data, img[3].data);
    assert_eq!(a.getpixel(1, 1).data, Color::rgb(50, 50, 50).data);
}

#[test]
fn image_short_data_and_negative_offset() {
    let img = vec![Color::rgb(9, 9, 9); 3];
    let mut m = canvas(4, 4);
    m.image(-1, 0, 2, 2, &img);
    assert_eq!(painted(&m), vec![(0, 0)]);
}

#[test]
fn glyph_draws_set_bits() {
    let mut font = vec![0u8; 16 * 3];
    font[16 * 2] = 0b1000_0001;
    font[16 * 2 + 15] = 0b0001_0000;
    let mut m = canvas(10, 20);
    m.char(1, 2, '\u{2}', Color::rgb(1, 1, 1), &font);
    assert_eq!(painted(&m), vec![(1, 2), (8, 2), (4, 17)]);
    let mut m = canvas(10, 20);
    m.char(0, 0, 'A', Color::rgb(1, 1, 1), &font);
    assert!(painted(&m).is_empty());
}

#[test]
fn fill_square_spans() {
    let mut m = canvas(100, 100);
    let c = Color::rgb(255, 0, 0);
    for y in 0..100 {
        let crossings = if (10..90).contains(&y) { vec![10, 90] } else { vec![] };
        m.fill_spans(y, &crossings, c);
    }
    for y in 0..100 {
        for x in 0..100 {
            let inside = (10..90).contains(&x) && (10..90).contains(&y);
            assert_eq!(m.getpixel(x, y).data != 0, inside, "at {} {}", x, y);
        }
    }
}

#[test]
fn fill_row_sorts_and_drops_unpaired() {
    let mut m = canvas(10, 1);
    m.fill_row(0, vec![8, 1, 3, 6, 9], Color::rgb(1, 1, 1));
    assert_eq!(painted(&m), vec![(1, 0), (2, 0), (6, 0), (7, 0)]);
}

#[test]
fn set_and_clear() {
    let mut m = canvas(2, 2);
    m.set(Color::rgba(1, 2, 3, 4));
    assert!(m.data.iter().all(|c| c.data == 0x04010203));
    m.clear();
    assert!(m.data.iter().all(|c| c.data == 0xFF000000));
    assert!(m.sync());
}

#[test]
fn state_stack_save_restore() {
    let mut s = StateStack::new(Color::rgb(0, 0, 0));
    s.restore();
    assert_eq!(s.state.data, 0xFF000000);
    assert_eq!(s.depth(), 0);
    s.save();
    s.state = Color::rgb(255, 0, 0);
    assert_eq!(s.depth(), 1);
    s.restore();
    assert_eq!(s.state.data, 0xFF000000);
    assert_eq!(s.depth(), 0);
    s.save();
    s.state = Color::rgb(1, 1, 1);
    s.save();
    s.state = Color::rgb(2, 2, 2);
    s.restore();
    assert_eq!(s.state.data, 0xFF010101);
    s.restore();
    assert_eq!(s.state.data, 0xFF000000);
}
