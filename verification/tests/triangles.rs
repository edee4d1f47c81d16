use softraster::buffer::{reset_screen, PixelBuffer, BLACK, BLUE, GREEN, RED, YELLOW};
use softraster::painter::{draw_fills, draw_outlines, Triangle2d};
use softraster::depth::depth_key;
use softraster::projection::{classify, screen_center, screen_position, Projected};
use softraster::triangle::{edge_function, fill_triangle, make_triangle_2D};

fn colored(buf: &PixelBuffer, color: u32) -> Vec<(usize, usize)> {
    let mut found = Vec::new();
    for y in 0..buf.height() {
        for x in 0..buf.width() {
            if buf.get(x, y) == Some(color) {
                found.push((x, y));
            }
        }
    }
    found
}

fn tri(x0: i32, y0: i32, x1: i32, y1: i32, x2: i32, y2: i32, color: u32) -> Triangle2d {
    Triangle2d { x0, y0, x1, y1, x2, y2, color }
}

#[test]
fn edge_function_is_the_cross_product() {
    assert_eq!(edge_function(0, 0, 4, 0, 0, 4), -16);
    assert_eq!(edge_function(0, 0, 0, 4, 4, 0), 16);
    assert_eq!(edge_function(1, 1, 3, 3, 5, 5), 0);
    assert_eq!(edge_function(2, 3, 7, 4, 5, 9), (5 - 2) * (4 - 3) - (9 - 3) * (7 - 2));
}

#[test]
fn edge_function_holds_the_largest_coordinates() {
    let span: i128 = (i32::MAX as i128) - (i32::MIN as i128);
    assert_eq!(
        edge_function(i32::MIN, i32::MIN, i32::MAX, i32::MAX, i32::MAX, i32::MIN),
        span * span
    );
    assert_eq!(
        edge_function(i32::MIN, i32::MIN, i32::MAX, i32::MAX, i32::MIN, i32::MAX),
        -(span * span)
    );
}

#[test]
fn solid_triangle_includes_its_boundary() {
    let mut buf = reset_screen(6, 6).unwrap();
    fill_triangle(&mut buf, 0, 0, 4, 0, 0, 4, RED);
    let mut expected = Vec::new();
    for y in 0..6usize {
        for x in 0..6usize {
            if x + y <= 4 {
                expected.push((x, y));
            }
        }
    }
    assert_eq!(expected.len(), 15);
    assert_eq!(colored(&buf, RED), expected);
    assert_eq!(colored(&buf, BLACK).len(), 36 - 15);
}

#[test]
fn reversed_winding_fills_the_same_pixels() {
    let mut a = reset_screen(16, 16).unwrap();
    let mut b = reset_screen(16, 16).unwrap();
    fill_triangle(&mut a, 1, 2, 13, 5, 6, 14, GREEN);
    fill_triangle(&mut b, 1, 2, 6, 14, 13, 5, GREEN);
    assert_eq!(a.pixels(), b.pixels());
    assert!(colored(&a, GREEN).len() > 40);
    assert_eq!(a.get(1, 2), Some(GREEN));
    assert_eq!(a.get(13, 5), Some(GREEN));
    assert_eq!(a.get(6, 14), Some(GREEN));
    assert_eq!(a.get(7, 7), Some(GREEN));
    assert_eq!(a.get(0, 0), Some(BLACK));
    assert_eq!(a.get(15, 15), Some(BLACK));
}

#[test]
fn rotated_vertex_order_fills_the_same_pixels() {
    let mut a = reset_screen(16, 16).unwrap();
    let mut b = reset_screen(16, 16).unwrap();
    fill_triangle(&mut a, 1, 2, 13, 5, 6, 14, GREEN);
    fill_triangle(&mut b, 13, 5, 6, 14, 1, 2, GREEN);
    assert_eq!(a.pixels(), b.pixels());
}

#[test]
fn triangle_without_area_fills_nothing() {
    let mut buf = reset_screen(8, 8).unwrap();
    fill_triangle(&mut buf, 0, 0, 2, 2, 4, 4, RED);
    fill_triangle(&mut buf, 3, 3, 3, 3, 3, 3, RED);
    fill_triangle(&mut buf, 1, 5, 6, 5, 3, 5, RED);
    fill_triangle(&mut buf, 1, 1, 1, 1, 5, 4, RED);
    assert_eq!(buf.pixels(), &vec![BLACK; 64]);
}

#[test]
fn solid_triangle_is_clipped() {
    let mut buf = reset_screen(8, 8).unwrap();
    fill_triangle(&mut buf, -100, -100, 500, -100, -100, 500, RED);
    assert_eq!(buf.pixels(), &vec![RED; 64]);
    fill_triangle(&mut buf, 100, 100, 500, 100, 100, 500, GREEN);
    assert_eq!(buf.pixels(), &vec![RED; 64]);
    fill_triangle(&mut buf, -9, -9, -2, -9, -9, -2, GREEN);
    assert_eq!(buf.pixels(), &vec![RED; 64]);
}

#[test]
fn solid_triangle_with_extreme_vertices_stays_in_bounds() {
    let mut buf = reset_screen(4, 4).unwrap();
    fill_triangle(&mut buf, i32::MIN, i32::MIN, i32::MAX, i32::MIN, i32::MIN, i32::MAX, GREEN);
    assert_eq!(buf.pixels(), &vec![BLACK; 16]);
    fill_triangle(&mut buf, i32::MIN, i32::MIN, i32::MAX, i32::MIN, i32::MAX, i32::MAX, BLUE);
    let mut expected = Vec::new();
    for y in 0..4usize {
        for x in y..4usize {
            expected.push((x, y));
        }
    }
    assert_eq!(colored(&buf, BLUE), expected);
    fill_triangle(&mut buf, i32::MAX, i32::MAX, i32::MAX, 0, 0, i32::MAX, RED);
    assert_eq!(buf.pixels().len(), 16);
    assert_eq!(colored(&buf, RED), vec![]);
}

#[test]
fn solid_triangle_partly_outside() {
    let mut buf = reset_screen(4, 4).unwrap();
    fill_triangle(&mut buf, -2, 0, 2, 0, 2, 4, RED);
    // covered where 0 <= y, x <= 2 and y <= x + 2
    let mut expected = Vec::new();
    for y in 0..4usize {
        for x in 0..3usize {
            if y <= x + 2 {
                expected.push((x, y));
            }
        }
    }
    assert_eq!(colored(&buf, RED), expected);
}

#[test]
fn fill_overwrites_without_blending() {
    let mut buf = PixelBuffer::from_vec(3, 3, vec![0x123456; 9]).unwrap();
    fill_triangle(&mut buf, 0, 0, 2, 0, 0, 2, 0x0F0F0F);
    assert_eq!(buf.get(0, 0), Some(0x0F0F0F));
    assert_eq!(buf.get(1, 1), Some(0x0F0F0F));
    assert_eq!(buf.get(2, 2), Some(0x123456));
}

#[test]
fn outline_draws_three_edges() {
    let mut buf = reset_screen(6, 6).unwrap();
    make_triangle_2D(&mut buf, 0, 0, 4, 0, 0, 4, YELLOW);
    let mut expected = Vec::new();
    for y in 0..6usize {
        for x in 0..6usize {
            if (y == 0 && x <= 4) || (x == 0 && y <= 4) || x + y == 4 {
                expected.push((x, y));
            }
        }
    }
    assert_eq!(colored(&buf, YELLOW), expected);
    assert_eq!(buf.get(1, 1), Some(BLACK));
}

#[test]
fn outline_does_not_depend_on_vertex_order() {
    let mut a = reset_screen(20, 20).unwrap();
    let mut b = reset_screen(20, 20).unwrap();
    let mut c = reset_screen(20, 20).unwrap();
    make_triangle_2D(&mut a, 2, 3, 17, 6, 8, 18, RED);
    make_triangle_2D(&mut b, 8, 18, 2, 3, 17, 6, RED);
    make_triangle_2D(&mut c, 17, 6, 2, 3, 8, 18, RED);
    assert_eq!(a.pixels(), b.pixels());
    assert_eq!(a.pixels(), c.pixels());
    assert_eq!(a.get(2, 3), Some(RED));
    assert_eq!(a.get(17, 6), Some(RED));
    assert_eq!(a.get(8, 18), Some(RED));
}

#[test]
fn outline_far_outside_is_clipped() {
    let mut buf = reset_screen(8, 8).unwrap();
    make_triangle_2D(&mut buf, -5000, 3, 5000, 3, 4, -7000, RED);
    assert_eq!(buf.pixels().len(), 64);
    for x in 0..8 {
        assert_eq!(buf.get(x, 3), Some(RED));
    }
    assert_eq!(buf.get(0, 7), Some(BLACK));
}

#[test]
fn outline_with_two_equal_vertices_is_one_segment() {
    let mut buf = reset_screen(6, 6).unwrap();
    make_triangle_2D(&mut buf, 1, 1, 1, 1, 4, 1, RED);
    assert_eq!(colored(&buf, RED), vec![(1, 1), (2, 1), (3, 1), (4, 1)]);
}

#[test]
fn later_outline_shows_over_earlier() {
    let mut buf = reset_screen(8, 8).unwrap();
    let list = vec![tri(0, 0, 6, 0, 0, 6, RED), tri(0, 0, 6, 0, 6, 6, GREEN)];
    draw_outlines(&mut buf, &list);
    // the shared top edge belongs to the later triangle
    for x in 0..=6 {
        assert_eq!(buf.get(x, 0), Some(GREEN));
    }
    assert_eq!(buf.get(0, 3), Some(RED));
    assert_eq!(buf.get(6, 3), Some(GREEN));

    let mut other = reset_screen(8, 8).unwrap();
    let swapped = vec![list[1], list[0]];
    draw_outlines(&mut other, &swapped);
    for x in 0..=6 {
        assert_eq!(other.get(x, 0), Some(RED));
    }
}

#[test]
fn outlines_drawn_as_a_list_match_one_by_one() {
    let list = vec![tri(1, 1, 9, 2, 4, 9, RED), tri(0, 5, 9, 5, 5, 0, BLUE), tri(3, 3, 3, 3, 3, 3, GREEN)];
    let mut a = reset_screen(10, 10).unwrap();
    draw_outlines(&mut a, &list);
    let mut b = reset_screen(10, 10).unwrap();
    for t in &list {
        make_triangle_2D(&mut b, t.x0, t.y0, t.x1, t.y1, t.x2, t.y2, t.color);
    }
    assert_eq!(a.pixels(), b.pixels());
}

#[test]
fn later_fill_shows_over_earlier() {
    let mut buf = reset_screen(8, 8).unwrap();
    let list = vec![tri(0, 0, 7, 0, 0, 7, RED), tri(0, 0, 3, 0, 0, 3, BLUE)];
    draw_fills(&mut buf, &list);
    assert_eq!(buf.get(0, 0), Some(BLUE));
    assert_eq!(buf.get(1, 1), Some(BLUE));
    assert_eq!(buf.get(3, 3), Some(RED));
    assert_eq!(buf.get(7, 7), Some(BLACK));

    let mut other = reset_screen(8, 8).unwrap();
    draw_fills(&mut other, &vec![list[1], list[0]]);
    assert_eq!(other.get(0, 0), Some(RED));
    assert_eq!(other.get(1, 1), Some(RED));
}

#[test]
fn empty_lists_draw_nothing() {
    let mut buf = reset_screen(4, 4).unwrap();
    draw_outlines(&mut buf, &Vec::new());
    draw_fills(&mut buf, &Vec::new());
    assert_eq!(buf.pixels(), &vec![BLACK; 16]);
}

#[test]
fn point_behind_camera_lands_on_the_center() {
    assert_eq!(screen_position(Projected::Behind, 800, 800), (400, 400));
    assert_eq!(screen_position(Projected::Behind, 800, 800), (400, 400));
    assert_eq!(screen_position(Projected::Behind, 641, 481), (320, 240));
    assert_eq!(screen_center(641, 481), (320, 240));
    assert_eq!(screen_center(0, 1), (0, 0));
}

#[test]
fn depth_at_or_below_the_near_plane_is_behind() {
    let near = depth_key(0.01f64.to_bits());
    for &z in [0.01f64, 0.009, 0.0, -0.0, -3.0, -1.0e300, f64::NEG_INFINITY].iter() {
        for &(x, y) in [(0, 0), (17, -4), (i32::MAX, i32::MIN)].iter() {
            let outcome = classify(depth_key(z.to_bits()), near, x, y);
            assert_eq!(outcome, Projected::Behind);
            assert_eq!(screen_position(outcome, 800, 600), (400, 300));
        }
    }
}

#[test]
fn depth_beyond_the_near_plane_keeps_the_point() {
    let near = depth_key(0.01f64.to_bits());
    for &z in [0.010000001f64, 0.5, 150.0, 1.0e300, f64::INFINITY].iter() {
        let outcome = classify(depth_key(z.to_bits()), near, 17, -4);
        assert_eq!(outcome, Projected::At(17, -4));
        assert_eq!(screen_position(outcome, 800, 600), (17, -4));
    }
    assert_eq!(classify(5, 5, 1, 2), Projected::Behind);
    assert_eq!(classify(6, 5, 1, 2), Projected::At(1, 2));
}

#[test]
fn projected_point_keeps_its_coordinates() {
    assert_eq!(screen_position(Projected::At(12, -7), 800, 800), (12, -7));
    assert_eq!(screen_position(Projected::At(i32::MIN, i32::MAX), 3, 3), (i32::MIN, i32::MAX));
}

#[test]
fn center_of_a_huge_screen_is_capped() {
    assert_eq!(screen_center(usize::MAX, 10), (i32::MAX, 5));
}
