//! The laws of the clipper, proved once and for all against the functional
//! model [`clip_segments`] that the contracts of [`crate::clip::Clip`] are
//! stated over.

use vstd::prelude::*;

use crate::arith::{lemma_rounded_div_between, lemma_rounded_div_zero};
use crate::clip::{
    clip_segments, clip_y_segment, normalized, proper, seg_in_rect, segments_confined, x_at, y_at,
    Rectangle, Segment,
};

verus! {

/// A point classifies as inside (outcode 0) exactly when both of its
/// coordinates lie within the rectangle, boundary included.
pub proof fn lemma_inside_code_iff(b: Rectangle, x: i64, y: i64)
    ensures
        b.spec_flags(x, y) == 0 <==> (b.x1 <= x <= b.x2 && b.y1 <= y <= b.y2),
{
}

/// A segment with both endpoints inside the rectangle is emitted exactly
/// once, unchanged. Re-clipping it against the same rectangle therefore
/// changes nothing: clipping is a no-op on fully visible segments.
pub proof fn lemma_inside_segment_passes(b: Rectangle, x1: i64, y1: i64, x2: i64, y2: i64)
    requires
        b.wf(),
        b.x1 <= x1 <= b.x2,
        b.y1 <= y1 <= b.y2,
        b.x1 <= x2 <= b.x2,
        b.y1 <= y2 <= b.y2,
        x1 != x2 || y1 != y2,
    ensures
        clip_segments(b, x1 as int, y1 as int, x2 as int, y2 as int) == seq![
            (Segment { x1, y1, x2, y2 }),
        ],
{
    assert(clip_segments(b, x1 as int, y1 as int, x2 as int, y2 as int) =~= seq![
        (Segment { x1, y1, x2, y2 }),
    ]);
}

/// A segment lying wholly below or wholly above the rectangle is rejected:
/// nothing is emitted. (A segment wholly to one horizontal side is different:
/// it still rides the vertical boundary, see
/// [`lemma_beside_box_rides_edge`].)
pub proof fn lemma_above_or_below_rejected(b: Rectangle, x1: i64, y1: i64, x2: i64, y2: i64)
    requires
        (y1 < b.y1 && y2 < b.y1) || (y1 > b.y2 && y2 > b.y2),
    ensures
        clip_segments(b, x1 as int, y1 as int, x2 as int, y2 as int).len() == 0,
{
}

/// Clipping a segment against its own bounding box returns the segment
/// unchanged: its endpoints lie on the boundary, which is inclusive.
pub proof fn lemma_bounding_box_roundtrip(x1: i64, y1: i64, x2: i64, y2: i64)
    requires
        x1 != x2 || y1 != y2,
    ensures
        clip_segments(
            normalized(x1, y1, x2, y2),
            x1 as int,
            y1 as int,
            x2 as int,
            y2 as int,
        ) == seq![(Segment { x1, y1, x2, y2 })],
{
    lemma_inside_segment_passes(normalized(x1, y1, x2, y2), x1, y1, x2, y2);
}

proof fn lemma_confined_concat(b: Rectangle, s1: Seq<Segment>, s2: Seq<Segment>)
    requires
        segments_confined(b, s1),
        segments_confined(b, s2),
    ensures
        segments_confined(b, s1 + s2),
{
    assert forall|i: int|
        0 <= i < (s1 + s2).len() implies seg_in_rect(b, #[trigger] (s1 + s2)[i]) && proper(
        (s1 + s2)[i],
    ) by {
        if i < s1.len() {
            assert((s1 + s2)[i] == s1[i]);
        } else {
            assert((s1 + s2)[i] == s2[i - s1.len()]);
        }
    }
}

proof fn lemma_clip_y_segment_confined(b: Rectangle, x1: int, y1: int, x2: int, y2: int)
    requires
        b.wf(),
        b.x1 <= x1 <= b.x2,
        b.x1 <= x2 <= b.x2,
        i64::MIN <= y1 <= i64::MAX,
        i64::MIN <= y2 <= i64::MAX,
    ensures
        segments_confined(b, clip_y_segment(b, x1, y1, x2, y2)),
{
    let below1 = y1 < b.y1;
    let above1 = y1 > b.y2;
    let below2 = y2 < b.y1;
    let above2 = y2 > b.y2;
    if (below1 && below2) || (above1 && above2) {
    } else {
        if below1 {
            lemma_rounded_div_between(b.y1 - y1, y2 - y1, x2 - x1);
        }
        if above1 {
            lemma_rounded_div_between(b.y2 - y1, y2 - y1, x2 - x1);
        }
        if below2 {
            lemma_rounded_div_between(b.y1 - y1, y2 - y1, x2 - x1);
        }
        if above2 {
            lemma_rounded_div_between(b.y2 - y1, y2 - y1, x2 - x1);
        }
    }
}

/// Every segment the clipper emits lies inside the clip rectangle, boundary
/// included, and has nonzero length: concatenated, the emitted segments are a
/// boundary-clamped trace of the drawn segment with no stray coordinates.
pub proof fn lemma_clip_segments_confined(b: Rectangle, x1: i64, y1: i64, x2: i64, y2: i64)
    requires
        b.wf(),
    ensures
        segments_confined(b, clip_segments(b, x1 as int, y1 as int, x2 as int, y2 as int)),
{
    let xi1 = x1 as int;
    let yi1 = y1 as int;
    let xi2 = x2 as int;
    let yi2 = y2 as int;
    if (yi1 < b.y1 && yi2 < b.y1) || (yi1 > b.y2 && yi2 > b.y2) {
    } else {
        let lf1 = xi1 < b.x1;
        let rt1 = xi1 > b.x2;
        let lf2 = xi2 < b.x1;
        let rt2 = xi2 > b.x2;
        if !lf1 && !rt1 {
            if !lf2 && !rt2 {
                lemma_clip_y_segment_confined(b, xi1, yi1, xi2, yi2);
            } else if rt2 {
                lemma_rounded_div_between(b.x2 - xi1, xi2 - xi1, yi2 - yi1);
                let y3 = y_at(xi1, yi1, xi2, yi2, b.x2 as int);
                lemma_clip_y_segment_confined(b, xi1, yi1, b.x2 as int, y3);
                lemma_clip_y_segment_confined(b, b.x2 as int, y3, b.x2 as int, yi2);
                lemma_confined_concat(
                    b,
                    clip_y_segment(b, xi1, yi1, b.x2 as int, y3),
                    clip_y_segment(b, b.x2 as int, y3, b.x2 as int, yi2),
                );
            } else {
                lemma_rounded_div_between(b.x1 - xi1, xi2 - xi1, yi2 - yi1);
                let y3 = y_at(xi1, yi1, xi2, yi2, b.x1 as int);
                lemma_clip_y_segment_confined(b, xi1, yi1, b.x1 as int, y3);
                lemma_clip_y_segment_confined(b, b.x1 as int, y3, b.x1 as int, yi2);
                lemma_confined_concat(
                    b,
                    clip_y_segment(b, xi1, yi1, b.x1 as int, y3),
                    clip_y_segment(b, b.x1 as int, y3, b.x1 as int, yi2),
                );
            }
        } else if rt1 {
            if !lf2 && !rt2 {
                lemma_rounded_div_between(b.x2 - xi1, xi2 - xi1, yi2 - yi1);
                let y3 = y_at(xi1, yi1, xi2, yi2, b.x2 as int);
                lemma_clip_y_segment_confined(b, b.x2 as int, yi1, b.x2 as int, y3);
                lemma_clip_y_segment_confined(b, b.x2 as int, y3, xi2, yi2);
                lemma_confined_concat(
                    b,
                    clip_y_segment(b, b.x2 as int, yi1, b.x2 as int, y3),
                    clip_y_segment(b, b.x2 as int, y3, xi2, yi2),
                );
            } else if rt2 {
                lemma_clip_y_segment_confined(b, b.x2 as int, yi1, b.x2 as int, yi2);
            } else {
                lemma_rounded_div_between(b.x2 - xi1, xi2 - xi1, yi2 - yi1);
                lemma_rounded_div_between(b.x1 - xi1, xi2 - xi1, yi2 - yi1);
                let y3 = y_at(xi1, yi1, xi2, yi2, b.x2 as int);
                let y4 = y_at(xi1, yi1, xi2, yi2, b.x1 as int);
                lemma_clip_y_segment_confined(b, b.x2 as int, yi1, b.x2 as int, y3);
                lemma_clip_y_segment_confined(b, b.x2 as int, y3, b.x1 as int, y4);
                lemma_clip_y_segment_confined(b, b.x1 as int, y4, b.x1 as int, yi2);
                lemma_confined_concat(
                    b,
                    clip_y_segment(b, b.x2 as int, yi1, b.x2 as int, y3),
                    clip_y_segment(b, b.x2 as int, y3, b.x1 as int, y4),
                );
                lemma_confined_concat(
                    b,
                    clip_y_segment(b, b.x2 as int, yi1, b.x2 as int, y3) + clip_y_segment(
                        b,
                        b.x2 as int,
                        y3,
                        b.x1 as int,
                        y4,
                    ),
                    clip_y_segment(b, b.x1 as int, y4, b.x1 as int, yi2),
                );
            }
        } else {
            if !lf2 && !rt2 {
                lemma_rounded_div_between(b.x1 - xi1, xi2 - xi1, yi2 - yi1);
                let y3 = y_at(xi1, yi1, xi2, yi2, b.x1 as int);
                lemma_clip_y_segment_confined(b, b.x1 as int, yi1, b.x1 as int, y3);
                lemma_clip_y_segment_confined(b, b.x1 as int, y3, xi2, yi2);
                lemma_confined_concat(
                    b,
                    clip_y_segment(b, b.x1 as int, yi1, b.x1 as int, y3),
                    clip_y_segment(b, b.x1 as int, y3, xi2, yi2),
                );
            } else if lf2 {
                lemma_clip_y_segment_confined(b, b.x1 as int, yi1, b.x1 as int, yi2);
            } else {
                lemma_rounded_div_between(b.x1 - xi1, xi2 - xi1, yi2 - yi1);
                lemma_rounded_div_between(b.x2 - xi1, xi2 - xi1, yi2 - yi1);
                let y3 = y_at(xi1, yi1, xi2, yi2, b.x1 as int);
                let y4 = y_at(xi1, yi1, xi2, yi2, b.x2 as int);
                lemma_clip_y_segment_confined(b, b.x1 as int, yi1, b.x1 as int, y3);
                lemma_clip_y_segment_confined(b, b.x1 as int, y3, b.x2 as int, y4);
                lemma_clip_y_segment_confined(b, b.x2 as int, y4, b.x2 as int, yi2);
                lemma_confined_concat(
                    b,
                    clip_y_segment(b, b.x1 as int, yi1, b.x1 as int, y3),
                    clip_y_segment(b, b.x1 as int, y3, b.x2 as int, y4),
                );
                lemma_confined_concat(
                    b,
                    clip_y_segment(b, b.x1 as int, yi1, b.x1 as int, y3) + clip_y_segment(
                        b,
                        b.x1 as int,
                        y3,
                        b.x2 as int,
                        y4,
                    ),
                    clip_y_segment(b, b.x2 as int, y4, b.x2 as int, yi2),
                );
            }
        }
    }
}

/// Re-clipping `s` against `b` yields exactly `s` again.
pub open spec fn reclips_to_self(b: Rectangle, s: Segment) -> bool {
    clip_segments(b, s.x1 as int, s.y1 as int, s.x2 as int, s.y2 as int) == seq![s]
}

/// Clipping is idempotent: every segment the clipper emits, re-clipped
/// against the same rectangle, comes back unchanged as the only emission.
pub proof fn lemma_clip_idempotent(b: Rectangle, x1: i64, y1: i64, x2: i64, y2: i64)
    requires
        b.wf(),
    ensures
        forall|i: int|
            0 <= i < clip_segments(b, x1 as int, y1 as int, x2 as int, y2 as int).len()
                ==> reclips_to_self(
                b,
                #[trigger] clip_segments(b, x1 as int, y1 as int, x2 as int, y2 as int)[i],
            ),
{
    lemma_clip_segments_confined(b, x1, y1, x2, y2);
    let segs = clip_segments(b, x1 as int, y1 as int, x2 as int, y2 as int);
    assert forall|i: int| 0 <= i < segs.len() implies reclips_to_self(b, #[trigger] segs[i]) by {
        let s = segs[i];
        lemma_inside_segment_passes(b, s.x1, s.y1, s.x2, s.y2);
    }
}

/// A horizontal segment entering through the left boundary, crossing no other
/// boundary, is emitted exactly once, its outside endpoint clamped to the
/// boundary's x coordinate and its y kept by exact interpolation.
pub proof fn lemma_crosses_left_edge_only(b: Rectangle, x1: i64, y1: i64, x2: i64, y2: i64)
    requires
        b.wf(),
        y1 == y2,
        b.y1 <= y1 <= b.y2,
        x1 < b.x1,
        b.x1 < x2 <= b.x2,
    ensures
        clip_segments(b, x1 as int, y1 as int, x2 as int, y2 as int) == seq![
            (Segment { x1: b.x1, y1, x2, y2 }),
        ],
{
    assert((b.x1 as int - x1 as int) * (y2 as int - y1 as int) == 0);
    lemma_rounded_div_zero(x2 as int - x1 as int);
    assert(y_at(x1 as int, y1 as int, x2 as int, y2 as int, b.x1 as int) == y1 as int);
    assert(clip_segments(b, x1 as int, y1 as int, x2 as int, y2 as int) =~= seq![
        (Segment { x1: b.x1, y1, x2, y2 }),
    ]);
}

/// A segment wholly to the right of the rectangle is not simply dropped:
/// unless it also lies wholly below or wholly above, its vertically visible
/// extent rides the right boundary, so that downstream signed-area
/// accumulation still sees the path's winding. Every emitted segment then has
/// both x coordinates on that boundary.
pub proof fn lemma_beside_box_rides_edge(b: Rectangle, x1: i64, y1: i64, x2: i64, y2: i64)
    requires
        b.wf(),
        x1 > b.x2,
        x2 > b.x2,
    ensures
        clip_segments(b, x1 as int, y1 as int, x2 as int, y2 as int) == (if (y1 < b.y1 && y2
            < b.y1) || (y1 > b.y2 && y2 > b.y2) {
            Seq::<Segment>::empty()
        } else {
            clip_y_segment(b, b.x2 as int, y1 as int, b.x2 as int, y2 as int)
        }),
        forall|i: int|
            0 <= i < clip_segments(b, x1 as int, y1 as int, x2 as int, y2 as int).len() ==> {
                let s = #[trigger] clip_segments(b, x1 as int, y1 as int, x2 as int, y2 as int)[i];
                s.x1 == b.x2 && s.x2 == b.x2
            },
{
    let yi1 = y1 as int;
    let yi2 = y2 as int;
    let xb = b.x2 as int;
    if (yi1 < b.y1 && yi2 < b.y1) || (yi1 > b.y2 && yi2 > b.y2) {
    } else {
        let below1 = yi1 < b.y1;
        let above1 = yi1 > b.y2;
        let below2 = yi2 < b.y1;
        let above2 = yi2 > b.y2;
        if below1 || above1 || below2 || above2 {
            // A clamped endpoint keeps x == b.x2: the piece is vertical, so
            // the interpolation numerator is zero.
            assert((b.y1 - yi1) * (xb - xb) == 0);
            assert((b.y2 - yi1) * (xb - xb) == 0);
            lemma_rounded_div_zero(yi2 - yi1);
            assert(x_at(xb, yi1, xb, yi2, b.y1 as int) == xb);
            assert(x_at(xb, yi1, xb, yi2, b.y2 as int) == xb);
        }
    }
}

} // verus!
