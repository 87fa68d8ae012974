use agg_clip::clip::{Clip, Segment};

fn segment(x1: i64, y1: i64, x2: i64, y2: i64) -> Segment {
    Segment { x1, y1, x2, y2 }
}

#[test]
fn passthrough_without_clip_box() {
    let mut clip = Clip::new();
    let mut sink: Vec<Segment> = Vec::new();
    clip.move_to(3, 4);
    clip.line_to(&mut sink, 10, 20);
    clip.line_to(&mut sink, -5, -6);
    assert_eq!(sink, vec![segment(3, 4, 10, 20), segment(10, 20, -5, -6)]);
}

#[test]
fn move_to_emits_nothing() {
    let mut clip = Clip::new();
    let mut sink: Vec<Segment> = Vec::new();
    clip.clip_box(0, 0, 100, 100);
    clip.move_to(50, 50);
    clip.move_to(-20, 30);
    assert!(sink.is_empty());
}

#[test]
fn inside_segment_passes_unchanged() {
    let mut clip = Clip::new();
    let mut sink: Vec<Segment> = Vec::new();
    clip.clip_box(0, 0, 100, 100);
    clip.move_to(10, 20);
    clip.line_to(&mut sink, 80, 70);
    assert_eq!(sink, vec![segment(10, 20, 80, 70)]);
}

#[test]
fn reclipping_inside_segment_is_noop() {
    let mut clip = Clip::new();
    let mut sink: Vec<Segment> = Vec::new();
    clip.clip_box(0, 0, 100, 100);
    clip.move_to(10, 20);
    clip.line_to(&mut sink, 80, 70);
    let first = sink[0];
    let mut again: Vec<Segment> = Vec::new();
    clip.move_to(first.x1, first.y1);
    clip.line_to(&mut again, first.x2, first.y2);
    assert_eq!(again, vec![first]);
}

#[test]
fn segment_above_is_rejected() {
    let mut clip = Clip::new();
    let mut sink: Vec<Segment> = Vec::new();
    clip.clip_box(0, 0, 100, 100);
    clip.move_to(0, 150);
    clip.line_to(&mut sink, 100, 120);
    assert!(sink.is_empty());
}

#[test]
fn segment_below_is_rejected() {
    let mut clip = Clip::new();
    let mut sink: Vec<Segment> = Vec::new();
    clip.clip_box(0, 0, 100, 100);
    clip.move_to(30, -10);
    clip.line_to(&mut sink, 70, -40);
    assert!(sink.is_empty());
}

#[test]
fn segment_beside_box_rides_the_boundary() {
    // A segment wholly right of the window still contributes its vertical
    // extent, clamped onto the right boundary, for winding bookkeeping.
    let mut clip = Clip::new();
    let mut sink: Vec<Segment> = Vec::new();
    clip.clip_box(0, 0, 100, 100);
    clip.move_to(150, 20);
    clip.line_to(&mut sink, 150, 80);
    assert_eq!(sink, vec![segment(100, 20, 100, 80)]);
}

#[test]
fn rejection_still_tracks_the_pen() {
    // A rejected segment must still move the pen and its outcode, so a later
    // segment that dips into the window clips correctly.
    let mut clip = Clip::new();
    let mut sink: Vec<Segment> = Vec::new();
    clip.clip_box(0, 0, 100, 100);
    clip.move_to(150, -50);
    clip.line_to(&mut sink, -50, -10);
    assert!(sink.is_empty());
    clip.line_to(&mut sink, -50, 50);
    assert_eq!(sink, vec![segment(0, 0, 0, 50)]);
}

#[test]
fn horizontal_segment_clamps_to_left_edge() {
    // Hand-computed interpolation from the design: rectangle (0,0)-(100,100),
    // segment (-50,50) -> (50,50) clips to (0,50) -> (50,50).
    let mut clip = Clip::new();
    let mut sink: Vec<Segment> = Vec::new();
    clip.clip_box(0, 0, 100, 100);
    clip.move_to(-50, 50);
    clip.line_to(&mut sink, 50, 50);
    assert_eq!(sink, vec![segment(0, 50, 50, 50)]);
}

#[test]
fn exit_through_left_edge_keeps_orientation() {
    let mut clip = Clip::new();
    let mut sink: Vec<Segment> = Vec::new();
    clip.clip_box(0, 0, 100, 100);
    clip.move_to(50, 50);
    clip.line_to(&mut sink, -50, 50);
    assert_eq!(sink, vec![segment(50, 50, 0, 50)]);
}

#[test]
fn vertical_segment_clamps_to_top_edge() {
    // Zero x-delta: the interpolation's numerator vanishes instead of its
    // divisor, so an axis-aligned segment is clipped by the same formulas.
    let mut clip = Clip::new();
    let mut sink: Vec<Segment> = Vec::new();
    clip.clip_box(0, 0, 100, 100);
    clip.move_to(50, 50);
    clip.line_to(&mut sink, 50, 150);
    assert_eq!(sink, vec![segment(50, 50, 50, 100)]);
}

#[test]
fn corner_clip_emits_connected_confined_pieces() {
    // Crosses the left and bottom boundaries on the way in and the right and
    // top boundaries on the way out; the visible trace is two connected
    // pieces, every coordinate inside the window.
    let mut clip = Clip::new();
    let mut sink: Vec<Segment> = Vec::new();
    clip.clip_box(0, 0, 100, 100);
    clip.move_to(-100, -80);
    clip.line_to(&mut sink, 200, 140);
    assert_eq!(
        sink,
        vec![segment(9, 0, 100, 67), segment(100, 67, 100, 100)]
    );
    assert_eq!((sink[0].x2, sink[0].y2), (sink[1].x1, sink[1].y1));
    for s in &sink {
        for (x, y) in [(s.x1, s.y1), (s.x2, s.y2)] {
            assert!(0 <= x && x <= 100 && 0 <= y && y <= 100);
        }
    }
}

#[test]
fn exit_exactly_through_corner() {
    let mut clip = Clip::new();
    let mut sink: Vec<Segment> = Vec::new();
    clip.clip_box(0, 0, 100, 100);
    clip.move_to(50, 50);
    clip.line_to(&mut sink, 150, 150);
    assert_eq!(sink, vec![segment(50, 50, 100, 100)]);
}

#[test]
fn clipping_against_bounding_box_returns_segment() {
    let mut clip = Clip::new();
    let mut sink: Vec<Segment> = Vec::new();
    clip.clip_box(10, 20, 80, 70);
    clip.move_to(10, 20);
    clip.line_to(&mut sink, 80, 70);
    assert_eq!(sink, vec![segment(10, 20, 80, 70)]);
}

#[test]
fn degenerate_segment_inside_emits_nothing() {
    let mut clip = Clip::new();
    let mut sink: Vec<Segment> = Vec::new();
    clip.clip_box(0, 0, 100, 100);
    clip.move_to(50, 50);
    clip.line_to(&mut sink, 50, 50);
    assert!(sink.is_empty());
}

#[test]
fn horizontal_path_across_window() {
    // Rectangle (10,10)-(90,90), path move_to(0,50); line_to(100,50):
    // exactly one emitted segment, (10,50) -> (90,50).
    let mut clip = Clip::new();
    let mut sink: Vec<Segment> = Vec::new();
    clip.clip_box(10, 10, 90, 90);
    clip.move_to(0, 50);
    clip.line_to(&mut sink, 100, 50);
    assert_eq!(sink, vec![segment(10, 50, 90, 50)]);
}

#[test]
fn diagonal_through_both_corners() {
    // Rectangle (10,10)-(90,90), diagonal (0,0) -> (100,100): the visible
    // trace spans from the bottom-left entry point to the top-right exit
    // point, every coordinate inside the window.
    let mut clip = Clip::new();
    let mut sink: Vec<Segment> = Vec::new();
    clip.clip_box(10, 10, 90, 90);
    clip.move_to(0, 0);
    clip.line_to(&mut sink, 100, 100);
    assert!(!sink.is_empty());
    assert_eq!((sink[0].x1, sink[0].y1), (10, 10));
    let last = sink[sink.len() - 1];
    assert_eq!((last.x2, last.y2), (90, 90));
    for s in &sink {
        for (x, y) in [(s.x1, s.y1), (s.x2, s.y2)] {
            assert!(10 <= x && x <= 90 && 10 <= y && y <= 90);
        }
    }
    assert_eq!(sink, vec![segment(10, 10, 90, 90)]);
}

#[test]
fn subpixel_scale_coordinates() {
    // The same geometry in 8-bit subpixel units (scale 256): rectangle
    // (0,0)-(100,100) px, segment (-50,50) -> (50,50) px.
    let s: i64 = 256;
    let mut clip = Clip::new();
    let mut sink: Vec<Segment> = Vec::new();
    clip.clip_box(0, 0, 100 * s, 100 * s);
    clip.move_to(-50 * s, 50 * s);
    clip.line_to(&mut sink, 50 * s, 50 * s);
    assert_eq!(sink, vec![segment(0, 50 * s, 50 * s, 50 * s)]);
}

#[test]
fn chained_path_in_and_out() {
    // One path, several line_to calls: in, across, out, and back in.
    let mut clip = Clip::new();
    let mut sink: Vec<Segment> = Vec::new();
    clip.clip_box(0, 0, 100, 100);
    clip.move_to(50, 50);
    clip.line_to(&mut sink, 150, 50); // exits right
    clip.line_to(&mut sink, 150, 75); // wholly right: rides the boundary
    clip.line_to(&mut sink, 50, 75); // re-enters
    assert_eq!(
        sink,
        vec![
            segment(50, 50, 100, 50),
            segment(100, 50, 100, 75),
            segment(100, 75, 50, 75),
        ]
    );
}

#[test]
fn replacing_the_clip_box_takes_effect_after_move_to() {
    let mut clip = Clip::new();
    let mut sink: Vec<Segment> = Vec::new();
    clip.clip_box(0, 0, 100, 100);
    clip.move_to(10, 10);
    clip.line_to(&mut sink, 20, 20);
    clip.clip_box(0, 0, 15, 15);
    clip.move_to(10, 10);
    clip.line_to(&mut sink, 20, 20);
    assert_eq!(
        sink,
        vec![segment(10, 10, 20, 20), segment(10, 10, 15, 15)]
    );
}
