use wave_rack::display::{Display, Font};

const RED: (u8, u8, u8) = (200, 100, 50);

fn frame(width: usize, height: usize) -> Display {
    Display::new(width, height, width * 4, 4)
}

fn lit(d: &Display) -> Vec<(usize, usize)> {
    let mut out = Vec::new();
    for y in 0..d.height {
        for x in 0..d.width {
            let i = (y * d.width + x) * d.bytes_per_pixel;
            if d.buffer[i] != 0 || d.buffer[i + 1] != 0 || d.buffer[i + 2] != 0 {
                out.push((x, y));
            }
        }
    }
    out.sort();
    out
}

#[test]
fn new_frame_is_black() {
    let d = Display::new(4, 3, 20, 4);
    assert_eq!(d.buffer.len(), 60);
    assert!(d.buffer.iter().all(|&b| b == 0));
}

#[test]
fn pixel_bytes_are_blue_green_red() {
    let mut d = frame(4, 3);
    d.set_pixel_color(1, 2, RED);
    assert_eq!(&d.buffer[36..40], &[50, 100, 200, 0]);
    assert_eq!(lit(&d), vec![(1, 2)]);
    // outside the frame nothing happens
    d.set_pixel_color(4, 0, RED);
    d.set_pixel_color(0, 3, RED);
    assert_eq!(lit(&d), vec![(1, 2)]);
    d.frame_start();
    assert!(d.buffer.iter().all(|&b| b == 0));
}

#[test]
fn filled_rectangle_with_swapped_corners() {
    let mut d = frame(5, 4);
    d.draw_rectangle(3, 2, 1, 1, RED, true);
    assert_eq!(lit(&d), vec![(1, 1), (1, 2), (2, 1), (2, 2), (3, 1), (3, 2)]);
}

#[test]
fn rectangle_border() {
    let mut d = frame(5, 5);
    d.draw_rectangle(0, 0, 3, 3, RED, false);
    let expected: Vec<(usize, usize)> = vec![
        (0, 0), (0, 1), (0, 2), (0, 3), (1, 0), (1, 3), (2, 0), (2, 3), (3, 0), (3, 1), (3, 2), (3, 3),
    ];
    assert_eq!(lit(&d), expected);
}

#[test]
fn filled_disc() {
    let mut d = frame(5, 5);
    d.draw_circle(2, 2, 1, RED, true);
    assert_eq!(lit(&d), vec![(1, 2), (2, 1), (2, 2), (2, 3), (3, 2)]);
}

#[test]
fn circle_outline_by_midpoint_walk() {
    let mut d = frame(5, 5);
    d.draw_circle(2, 2, 2, RED, false);
    let expected: Vec<(usize, usize)> = vec![(0, 2), (1, 1), (1, 3), (2, 0), (2, 4), (3, 1), (3, 3), (4, 2)];
    assert_eq!(lit(&d), expected);
}

#[test]
fn circle_outline_clipped_at_the_frame() {
    let mut d = frame(5, 5);
    d.draw_circle(0, 0, 2, RED, false);
    assert_eq!(lit(&d), vec![(0, 2), (1, 1), (2, 0)]);
}

#[test]
fn quarter_arc_upper_right() {
    let mut d = frame(8, 8);
    d.draw_circle_quarter(3, 3, 3, RED, false, 1);
    assert_eq!(lit(&d), vec![(3, 0), (4, 0), (5, 1), (6, 2), (6, 3)]);
}

#[test]
fn quarter_filled_lower_left() {
    let mut d = frame(8, 8);
    d.draw_circle_quarter(3, 3, 2, RED, true, 3);
    let expected: Vec<(usize, usize)> = vec![(1, 3), (1, 4), (2, 3), (2, 4), (2, 5), (3, 3), (3, 4), (3, 5)];
    assert_eq!(lit(&d), expected);
}

#[test]
fn quarter_filled_clipped_above_the_frame() {
    let mut d = frame(8, 8);
    d.draw_circle_quarter(1, 1, 3, RED, true, 1);
    let expected: Vec<(usize, usize)> = vec![(1, 0), (1, 1), (2, 0), (2, 1), (3, 0), (3, 1), (4, 0), (4, 1)];
    assert_eq!(lit(&d), expected);
}

#[test]
fn unknown_quarter_draws_nothing() {
    let mut d = frame(8, 8);
    d.draw_circle_quarter(3, 3, 2, RED, true, 7);
    assert!(lit(&d).is_empty());
}

#[test]
fn rounded_rectangle_outline() {
    let mut d = frame(8, 8);
    d.draw_rectangle_rounded(1, 1, 6, 6, 1, RED, false);
    let pts = lit(&d);
    // sides without the corner pixels, joined by quarter arcs
    assert!(pts.contains(&(3, 1)));
    assert!(pts.contains(&(1, 3)));
    assert!(pts.contains(&(6, 4)));
    assert!(pts.contains(&(4, 6)));
    assert!(!pts.contains(&(1, 1)));
    assert!(!pts.contains(&(6, 6)));
    assert!(!pts.contains(&(3, 3)));
}

#[test]
fn rounded_rectangle_filled() {
    let mut d = frame(8, 8);
    d.draw_rectangle_rounded(6, 6, 1, 1, 2, RED, true);
    let pts = lit(&d);
    assert!(pts.contains(&(3, 3)));
    assert!(pts.contains(&(1, 3)));
    assert!(pts.contains(&(3, 1)));
    assert!(!pts.contains(&(1, 1)));
    assert!(!pts.contains(&(6, 6)));
    assert!(!pts.contains(&(0, 0)));
}

#[test]
fn line_shallow_slope() {
    let mut d = frame(6, 6);
    d.draw_line(0, 0, 4, 2, RED);
    assert_eq!(lit(&d), vec![(0, 0), (1, 1), (2, 1), (3, 2), (4, 2)]);
}

#[test]
fn line_drawn_backwards_diagonal() {
    let mut d = frame(6, 6);
    d.draw_line(4, 3, 1, 0, RED);
    assert_eq!(lit(&d), vec![(1, 0), (2, 1), (3, 2), (4, 3)]);
}

#[test]
fn line_vertical_and_single_point() {
    let mut d = frame(6, 6);
    d.draw_line(2, 1, 2, 4, RED);
    assert_eq!(lit(&d), vec![(2, 1), (2, 2), (2, 3), (2, 4)]);
    let mut e = frame(6, 6);
    e.draw_line(3, 3, 3, 3, RED);
    assert_eq!(lit(&e), vec![(3, 3)]);
}

#[test]
fn line_rising() {
    let mut d = frame(6, 6);
    d.draw_line(0, 4, 5, 1, RED);
    assert_eq!(lit(&d), vec![(0, 4), (1, 3), (2, 3), (3, 2), (4, 2), (5, 1)]);
}

fn tiny_font() -> Font {
    Font {
        glyphs: vec![
            vec![0, 0, 0, 0],
            vec![1, 0, 1, 0],
            vec![1, 1, 1, 1, 1, 1],
        ],
        height: 2,
    }
}

#[test]
fn text_places_glyphs_with_spacing() {
    let mut d = frame(8, 4);
    d.text("!\"", &tiny_font(), 1, 1, 1, 1, RED);
    let expected: Vec<(usize, usize)> =
        vec![(1, 1), (1, 2), (4, 1), (4, 2), (5, 1), (5, 2), (6, 1), (6, 2)];
    assert_eq!(lit(&d), expected);
}

#[test]
fn text_scaled() {
    let mut d = frame(8, 4);
    d.text(" !", &tiny_font(), 0, 0, 2, 0, RED);
    // the space is four columns wide at this scale, then the mark's left column
    let expected: Vec<(usize, usize)> =
        vec![(4, 0), (4, 1), (4, 2), (4, 3), (5, 0), (5, 1), (5, 2), (5, 3)];
    assert_eq!(lit(&d), expected);
}

#[test]
fn image_skips_transparent_and_outside_pixels() {
    let mut d = frame(3, 2);
    // a 2 by 2 image: opaque red, transparent, opaque green, opaque blue
    let rgba = vec![255, 0, 0, 255, 9, 9, 9, 0, 0, 255, 0, 255, 0, 0, 255, 128];
    d.image(&rgba, 2, 2, 2, 0);
    // only the left column of the image lands in the frame
    assert_eq!(&d.buffer[8..12], &[0, 0, 255, 0]);
    assert_eq!(&d.buffer[20..24], &[0, 255, 0, 0]);
    assert_eq!(lit(&d), vec![(2, 0), (2, 1)]);
    let mut e = frame(3, 2);
    e.image(&rgba, 2, 2, 0, 0);
    assert_eq!(lit(&e), vec![(0, 0), (0, 1), (1, 1)]);
    assert_eq!(&e.buffer[16..20], &[255, 0, 0, 0]);
}
