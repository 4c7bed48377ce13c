use rusticker::contour::BasicTracer;
use rusticker::mask::{AdvancedTracer, CurvesTracer, OutlinePoint};
use rusticker::raster::{flood_background, PixelImage};
use rusticker::rdp::simplify_rdp;

const WHITE: u32 = 0xffff_ffff;
const BLACK: u32 = 0x0000_00ff;

fn image(w: u32, h: u32, color: impl Fn(u32, u32) -> u32) -> PixelImage {
    let mut pixels = Vec::new();
    for y in 0..h {
        for x in 0..w {
            pixels.push(color(x, y));
        }
    }
    PixelImage::new(w, h, pixels).unwrap()
}

fn square_image() -> PixelImage {
    // A 10x10 black square on a 20x20 white image.
    image(20, 20, |x, y| if x >= 5 && x < 15 && y >= 5 && y < 15 { BLACK } else { WHITE })
}

fn vertices(loops: &[Vec<OutlinePoint>]) -> usize {
    loops.iter().map(|l| l.len()).sum()
}

#[test]
fn test_rdp_simplification() {
    // A stair-step diagonal line from (0,0) to (4,4)
    let stair_steps = vec![(0, 0), (1, 0), (1, 1), (2, 1), (2, 2), (3, 2), (3, 3), (4, 3), (4, 4)];
    // With epsilon = 1.5 (3 half pixels), it simplifies to a straight diagonal line
    let simplified = simplify_rdp(&stair_steps, 3);
    assert_eq!(simplified, vec![(0, 0), (4, 4)]);
}

#[test]
fn test_advanced_tracer_simplifies() {
    let img = square_image();
    let basic = BasicTracer.trace_mask(&img, false).unwrap();
    let advanced = AdvancedTracer { rdp_level: 3 }.trace_mask(&img, false).unwrap();

    let basic_vertices = vertices(&basic);
    let advanced_vertices = vertices(&advanced);

    // Advanced should have fewer vertices due to simplification
    assert!(advanced_vertices < basic_vertices);
    assert!(advanced_vertices > 0);
}

#[test]
fn test_advanced_tracer_complexity_limit() {
    let black_at = |x: u32, y: u32| {
        (0..70u32).any(|i| {
            let start_x = (i % 10) * 20 + 5;
            let start_y = (i / 10) * 20 + 5;
            x >= start_x && x < start_x + 10 && y >= start_y && y < start_y + 10
        })
    };
    // A transparent image (all zero) with 70 disjoint black squares
    let img = image(250, 250, |x, y| if black_at(x, y) { BLACK } else { 0 });
    let result = AdvancedTracer { rdp_level: 3 }.trace_mask(&img, false);
    assert!(result.is_err());
    let err_msg = result.err().unwrap().message();
    assert!(err_msg.contains("too complex") || err_msg.contains("loops"));

    // With is_unsafe = true, it succeeds bypassing limits
    let result_unsafe = AdvancedTracer { rdp_level: 3 }.trace_mask(&img, true);
    assert!(result_unsafe.is_ok());
}

#[test]
fn test_advanced_tracer_rdp_levels() {
    // A jagged, pixelated diamond
    let img = image(40, 40, |x, y| {
        let dx = (x as i32 - 20).abs();
        let dy = (y as i32 - 20).abs();
        if dx + dy < 15 { BLACK } else { WHITE }
    });
    let level1 = AdvancedTracer { rdp_level: 1 }.trace_mask(&img, false).unwrap();
    let level5 = AdvancedTracer { rdp_level: 5 }.trace_mask(&img, false).unwrap();

    // Higher rdp_level optimizes more aggressively, leaving fewer vertices
    assert!(vertices(&level5) < vertices(&level1));
}

#[test]
fn test_curves_tracer() {
    let img = square_image();
    let curves = CurvesTracer { rdp_level: 3 }.trace_mask(&img, false).unwrap();

    assert!(!curves.is_empty());
    let loop0 = &curves[0];
    assert_eq!(loop0.len(), 13); // 3 * 4 unique vertices + 1 start point = 13

    // Starting and ending points are equal
    assert_eq!(loop0.first().unwrap().sixths(), loop0.last().unwrap().sixths());

    // Alternating cubic bezier flags: false, true, true, false, true, true, false...
    assert_eq!(loop0.first().unwrap().is_bezier(), false);
    assert_eq!(loop0.last().unwrap().is_bezier(), false);

    let bezier_flags: Vec<bool> = loop0.iter().map(|p| p.is_bezier()).collect();
    assert_eq!(bezier_flags[0], false);
    assert_eq!(bezier_flags[1], true);
    assert_eq!(bezier_flags[2], true);
    assert_eq!(bezier_flags[3], false);
    assert_eq!(bezier_flags[4], true);
    assert_eq!(bezier_flags[5], true);
    assert_eq!(bezier_flags[6], false);
}

#[test]
fn basic_square_outline_is_the_square_boundary() {
    let img = square_image();
    let loops = BasicTracer::trace_raw_mask(&img);
    assert_eq!(loops.len(), 1);
    let l = &loops[0];
    // 40 unit segments around the 10x10 square, closed.
    assert_eq!(l.len(), 41);
    assert_eq!(l[0], l[40]);
    // The square covers pixels 5..15, i.e. padded cells 6..16.
    for &(x, y) in l {
        assert!((6..=16).contains(&x) && (6..=16).contains(&y));
        assert!(x == 6 || x == 16 || y == 6 || y == 16);
    }
    assert_eq!(l[0], (6, 6));
}

#[test]
fn basic_outline_of_blank_image_is_empty() {
    let img = image(8, 5, |_, _| WHITE);
    assert!(BasicTracer::trace_raw_mask(&img).is_empty());
    let empty = PixelImage::new(0, 7, Vec::new()).unwrap();
    assert!(BasicTracer::trace_raw_mask(&empty).is_empty());
}

#[test]
fn flood_stops_at_other_colours_and_keeps_enclosed_holes() {
    // A ring: the hole in the middle has the background colour but is not
    // reached, so it stays foreground.
    let img = image(7, 7, |x, y| {
        let ring = (1..=5).contains(&x) && (1..=5).contains(&y) && !((2..=4).contains(&x) && (2..=4).contains(&y));
        if ring { BLACK } else { WHITE }
    });
    let vis = flood_background(&img);
    assert!(vis[0]);
    assert!(!vis[1 * 7 + 1]);
    assert!(!vis[3 * 7 + 3]);
    assert!(vis[6 * 7 + 6]);
    let loops = BasicTracer::trace_raw_mask(&img);
    assert_eq!(loops.len(), 1);
    assert_eq!(loops[0].len(), 21);
}

#[test]
fn basic_tracer_limits() {
    // 510 one-pixel dots: more than 500 loops.
    let img = image(1030, 5, |x, y| if y == 2 && x % 2 == 1 && x < 1021 { BLACK } else { WHITE });
    let err = BasicTracer.trace_mask(&img, false).unwrap_err();
    assert_eq!(err.loops, 510);
    assert_eq!(err.vertices, 510 * 5);
    assert_eq!((err.max_vertices, err.max_loops), (1000000, 500));
    assert_eq!(
        err.message(),
        "Image is too complex: outline contains 2550 vertices and 510 loops. The maximum supported limits are 1000000 vertices and 500 loops."
    );
    assert_eq!(BasicTracer.trace_mask(&img, true).unwrap().len(), 510);
    // The same dots fit the curves tracer's limits of 3000 loops; a single
    // pixel's outline simplifies to fewer than four points and is dropped.
    assert_eq!(CurvesTracer { rdp_level: 3 }.trace_mask(&img, false).unwrap().len(), 0);
    // The advanced tracer allows only 60 loops.
    assert_eq!(AdvancedTracer { rdp_level: 3 }.trace_mask(&img, false).unwrap_err().max_loops, 60);
    // 60 dots are within the basic tracer's limits.
    let fewer = image(130, 5, |x, y| if y == 2 && x % 2 == 1 && x < 121 { BLACK } else { WHITE });
    assert_eq!(BasicTracer.trace_mask(&fewer, false).unwrap().len(), 60);
}

#[test]
fn image_construction_checks_sizes() {
    assert!(PixelImage::new(2, 2, vec![0; 3]).is_none());
    assert!(PixelImage::new(2, 2, vec![0; 4]).is_some());
    assert!(PixelImage::new(0x7fff_fffe, 0, Vec::new()).is_none());
    assert!(PixelImage::new(0x7fff_fffd, 0, Vec::new()).is_some());
}

#[test]
fn rdp_keeps_short_lines_and_far_points() {
    assert_eq!(simplify_rdp(&[(1, 2), (3, 4)], 1), vec![(1, 2), (3, 4)]);
    assert_eq!(simplify_rdp(&[], 1), Vec::<(i32, i32)>::new());
    // (1, 2) lies 2 away from the chord (0,0)-(2,0): kept at 1.5, dropped at 3.
    let tent = [(0, 0), (1, 2), (2, 0)];
    assert_eq!(simplify_rdp(&tent, 3), tent.to_vec());
    assert_eq!(simplify_rdp(&tent, 4), vec![(0, 0), (2, 0)]);
    assert_eq!(simplify_rdp(&tent, 6), vec![(0, 0), (2, 0)]);
    // A closed loop: distances are taken from the common end point.
    let closed = [(0, 0), (3, 0), (3, 4), (0, 0)];
    assert_eq!(simplify_rdp(&closed, 9), vec![(0, 0), (3, 4), (0, 0)]);
    assert_eq!(simplify_rdp(&closed, 10), vec![(0, 0), (0, 0)]);
}

#[test]
fn spline_points_of_square() {
    let img = square_image();
    let curves = CurvesTracer { rdp_level: 3 }.trace_mask(&img, false).unwrap();
    let loop0 = &curves[0];
    // Corners (6,6), (6,16), (16,16), (16,6) in some rotation: every
    // midpoint lies halfway along a side.
    for (j, p) in loop0.iter().enumerate() {
        let (x6, y6) = p.sixths();
        if j % 3 == 0 {
            assert!(matches!(p, OutlinePoint::Midpoint { .. }));
            assert!((x6 == 66 && (y6 == 36 || y6 == 96)) || (y6 == 66 && (x6 == 36 || x6 == 96)));
        } else {
            assert!(p.is_bezier());
        }
    }
}

/// The boundary segments of `img` (in padded lattice coordinates, the
/// foreground on the right-hand side of each one), found pixel by pixel.
fn boundary_segments(img: &PixelImage, vis: &[bool]) -> Vec<((i32, i32), (i32, i32))> {
    let (w, h) = (img.width() as i32, img.height() as i32);
    let fg = |x: i32, y: i32| x >= 1 && x <= w && y >= 1 && y <= h && !vis[((y - 1) * w + (x - 1)) as usize];
    let mut segs = Vec::new();
    for x in 0..=w + 1 {
        for y in 0..=h + 1 {
            if !fg(x - 1, y) && fg(x, y) {
                segs.push(((x, y), (x, y + 1)));
            }
            if !fg(x, y - 1) && fg(x - 1, y - 1) {
                segs.push(((x, y), (x, y - 1)));
            }
            if !fg(x - 1, y - 1) && fg(x - 1, y) {
                segs.push(((x, y), (x - 1, y)));
            }
            if !fg(x, y) && fg(x, y - 1) {
                segs.push(((x, y), (x + 1, y)));
            }
        }
    }
    segs.sort();
    segs
}

fn loop_segments(loops: &[Vec<(i32, i32)>]) -> Vec<((i32, i32), (i32, i32))> {
    let mut segs = Vec::new();
    for l in loops {
        assert!(l.len() >= 2);
        assert_eq!(l[0], l[l.len() - 1]);
        for i in 0..l.len() - 1 {
            segs.push((l[i], l[i + 1]));
        }
    }
    segs.sort();
    segs
}

#[test]
fn raw_loops_take_every_boundary_segment_once() {
    // Two pixels touching at a corner, a bar and a ring with a notch.
    let img = image(12, 9, |x, y| {
        let diagonal = (x, y) == (1, 1) || (x, y) == (2, 2);
        let bar = y == 6 && (1..=4).contains(&x);
        let ring = (6..=10).contains(&x) && (1..=5).contains(&y)
            && !((7..=9).contains(&x) && (2..=4).contains(&y))
            && (x, y) != (8, 5);
        if diagonal || bar || ring { BLACK } else { WHITE }
    });
    let vis = flood_background(&img);
    let expected = boundary_segments(&img, &vis);
    let loops = BasicTracer::trace_raw_mask(&img);
    let got = loop_segments(&loops);
    assert_eq!(got, expected);
    let mut dedup = got.clone();
    dedup.dedup();
    assert_eq!(dedup.len(), got.len());
}

#[test]
fn raw_loops_of_a_single_pixel() {
    let img = image(3, 3, |x, y| if (x, y) == (1, 1) { BLACK } else { WHITE });
    let loops = BasicTracer::trace_raw_mask(&img);
    assert_eq!(loops, vec![vec![(2, 2), (2, 3), (3, 3), (3, 2), (2, 2)]]);
}

#[test]
fn higher_levels_never_add_points() {
    let img = image(40, 40, |x, y| {
        let dx = (x as i32 - 20).abs();
        let dy = (y as i32 - 17).abs();
        if dx + 2 * dy < 25 && (x + y) % 7 != 0 { BLACK } else { WHITE }
    });
    let mut last_advanced = usize::MAX;
    let mut last_curves = usize::MAX;
    for level in 1..=5u8 {
        let advanced = vertices(&AdvancedTracer { rdp_level: level }.trace_mask(&img, true).unwrap());
        let curves = vertices(&CurvesTracer { rdp_level: level }.trace_mask(&img, true).unwrap());
        assert!(advanced <= last_advanced);
        assert!(curves <= last_curves);
        last_advanced = advanced;
        last_curves = curves;
    }
}

#[test]
fn raw_loop_through_a_shared_corner() {
    // Two pixels touching at a corner: one loop passes that corner twice,
    // taking the downward segment first there.
    let img = image(4, 4, |x, y| if (x, y) == (1, 1) || (x, y) == (2, 2) { BLACK } else { WHITE });
    let loops = BasicTracer::trace_raw_mask(&img);
    assert_eq!(
        loops,
        vec![vec![(2, 2), (2, 3), (3, 3), (3, 4), (4, 4), (4, 3), (3, 3), (3, 2), (2, 2)]]
    );
}

#[test]
fn raw_loops_start_in_column_order() {
    // Two separate pixels: the loop of the left one comes first, though
    // the right one is higher.
    let img = image(6, 4, |x, y| if (x, y) == (1, 2) || (x, y) == (4, 0) { BLACK } else { WHITE });
    let loops = BasicTracer::trace_raw_mask(&img);
    assert_eq!(loops.len(), 2);
    assert_eq!(loops[0][0], (2, 3));
    assert_eq!(loops[1][0], (5, 1));
}

fn is_subsequence(a: &[(i32, i32)], b: &[(i32, i32)]) -> bool {
    let mut it = b.iter();
    a.iter().all(|p| it.any(|q| q == p))
}

#[test]
fn rdp_tolerances_nest_and_resimplifying_changes_nothing() {
    let wave: Vec<(i32, i32)> = (0..60).map(|x| (x, ((x * 7) % 11) - 5 + (x / 10) * 3)).collect();
    let mut closed = wave.clone();
    closed.push(wave[0]);
    for pts in [&wave, &closed] {
        for k in 0..8u32 {
            let s = simplify_rdp(pts, k);
            assert_eq!(simplify_rdp(&s, k), s);
            assert!(is_subsequence(&simplify_rdp(pts, k + 1), &s));
        }
    }
}

#[test]
fn rdp_on_extreme_coordinates() {
    let (lo, hi) = (i32::MIN, i32::MAX);
    // Far off the chord: kept.
    let tent = [(lo, lo), (0, hi), (hi, hi)];
    assert_eq!(simplify_rdp(&tent, 6), tent.to_vec());
    // On the chord: dropped.
    let flat = [(lo, 0), (0, 0), (hi, 0)];
    assert_eq!(simplify_rdp(&flat, 1), vec![(lo, 0), (hi, 0)]);
    // Exactly one pixel from the chord: kept below a tolerance of 1, not at 1.
    let bump = [(lo, 0), (0, 1), (hi, 0)];
    assert_eq!(simplify_rdp(&bump, 1), bump.to_vec());
    assert_eq!(simplify_rdp(&bump, 2), vec![(lo, 0), (hi, 0)]);
    // The same chord back and forth: distances from its start.
    let closed = [(lo, lo), (hi, hi), (lo, lo)];
    assert_eq!(simplify_rdp(&closed, 6), closed.to_vec());
}
