//! Clipping of straight segments against an axis-aligned rectangle.
//!
//! A path is driven through [`Clip`] as a sequence of `move_to` / `line_to`
//! commands in fixed-point integer coordinates. With no clip window installed
//! every segment is forwarded unchanged; with a window installed, each segment
//! is classified by the outcodes of its endpoints, split at the vertical
//! boundaries it crosses, and each colinear piece is then clipped against the
//! horizontal boundaries, so that only portions lying inside the window (or
//! riding its boundary) are emitted. Crossing points are computed by exactly
//! rounded linear interpolation, see [`crate::arith`].
//!
//! Emitted segments are appended to a `Vec<Segment>`, the sink; a consumer
//! (such as a cell rasterizer accumulating signed coverage) drains that
//! vector. The functional model of one `line_to` call is the spec function
//! [`clip_segments`], and every public operation's contract is stated
//! against it.

use vstd::prelude::*;

use crate::arith::{
    iabs, lemma_rnd_pos_by_parts, lemma_rounded_div_between, lemma_rounded_div_signs, rnd_pos,
    rounded_div,
};
use vstd::arithmetic::div_mod::lemma_mod_bound;

verus! {

// The four outcode bits of the Cohen-Sutherland classification.
const INSIDE: u8 = 0b0000;

const LEFT: u8 = 0b0001;

const RIGHT: u8 = 0b0010;

const BOTTOM: u8 = 0b0100;

const TOP: u8 = 0b1000;

/// Largest coordinate magnitude the clipper works on. Keeping coordinates
/// within this bound guarantees that no difference of two coordinates, and no
/// interpolated crossing point, can overflow an `i64`.
pub const MAX_COORD: i64 = 0x3fff_ffff_ffff_ffff;

/// A coordinate within the clipper's working range.
pub open spec fn in_range(v: int) -> bool {
    -MAX_COORD <= v <= MAX_COORD
}

/// The horizontal outcode component of `x` against the slab `[x1, x2]`:
/// 1 (LEFT) when left of it, 2 (RIGHT) when right of it, 0 inside.
pub open spec fn x_code(x: int, x1: int, x2: int) -> u8 {
    ((if x < x1 {
        1int
    } else {
        0int
    }) + (if x > x2 {
        2int
    } else {
        0int
    })) as u8
}

/// The vertical outcode component of `y` against the slab `[y1, y2]`:
/// 4 (BOTTOM) when below it, 8 (TOP) when above it, 0 inside.
pub open spec fn y_code(y: int, y1: int, y2: int) -> u8 {
    ((if y < y1 {
        4int
    } else {
        0int
    }) + (if y > y2 {
        8int
    } else {
        0int
    })) as u8
}

/// The full outcode of the point `(x, y)` against the rectangle
/// `[x1, x2] x [y1, y2]`; 0 means inside, boundary included.
pub open spec fn flags_spec(x: int, y: int, x1: int, y1: int, x2: int, y2: int) -> u8 {
    (x_code(x, x1, x2) + y_code(y, y1, y2)) as u8
}

/// The two outcode components can be recovered from the combined code by
/// masking its low and high pair of bits.
pub proof fn lemma_flags_split(x: int, y: int, x1: int, y1: int, x2: int, y2: int)
    ensures
        flags_spec(x, y, x1, y1, x2, y2) & 3 == x_code(x, x1, x2),
        flags_spec(x, y, x1, y1, x2, y2) & 12 == y_code(y, y1, y2),
{
    let xc = x_code(x, x1, x2);
    let yc = y_code(y, y1, y2);
    assert((xc <= 3 && (yc == 0 || yc == 4 || yc == 8 || yc == 12)) ==> ((xc + yc) as u8 & 3 == xc
        && (xc + yc) as u8 & 12 == yc)) by (bit_vector);
}

/// The smaller of two coordinates.
pub open spec fn min_coord(a: i64, b: i64) -> i64 {
    if b < a {
        b
    } else {
        a
    }
}

/// The larger of two coordinates.
pub open spec fn max_coord(a: i64, b: i64) -> i64 {
    if b > a {
        b
    } else {
        a
    }
}

/// An axis-aligned rectangle with normalized corners: `(x1, y1)` is the
/// minimum corner and `(x2, y2)` the maximum corner.
#[derive(Debug, Default, Clone, Copy, PartialEq, Eq, Structural)]
pub struct Rectangle {
    pub x1: i64,
    pub y1: i64,
    pub x2: i64,
    pub y2: i64,
}

/// The corner normalization performed by [`Rectangle::new`]: each pair of
/// coordinates is swapped, per axis, so that the first is the smaller.
pub open spec fn normalized(x1: i64, y1: i64, x2: i64, y2: i64) -> Rectangle {
    Rectangle {
        x1: if x1 > x2 {
            x2
        } else {
            x1
        },
        y1: if y1 > y2 {
            y2
        } else {
            y1
        },
        x2: if x1 > x2 {
            x1
        } else {
            x2
        },
        y2: if y1 > y2 {
            y1
        } else {
            y2
        },
    }
}

impl Rectangle {
    /// Corner order is normalized: `x1 <= x2` and `y1 <= y2`.
    pub open spec fn wf(self) -> bool {
        self.x1 <= self.x2 && self.y1 <= self.y2
    }

    /// All four corners lie within the clipper's working range.
    pub open spec fn in_working_range(self) -> bool {
        in_range(self.x1 as int) && in_range(self.y1 as int) && in_range(self.x2 as int)
            && in_range(self.y2 as int)
    }

    /// The outcode of `(x, y)` against this rectangle.
    pub open spec fn spec_flags(self, x: i64, y: i64) -> u8 {
        flags_spec(x as int, y as int, self.x1 as int, self.y1 as int, self.x2 as int, self.y2 as int)
    }

    /// Builds a rectangle from two arbitrary opposite corners, normalizing the
    /// order per axis so the invariant `x1 <= x2 && y1 <= y2` holds.
    pub fn new(x1: i64, y1: i64, x2: i64, y2: i64) -> (r: Rectangle)
        ensures
            r == normalized(x1, y1, x2, y2),
            r.wf(),
    {
        let (x1, x2): (i64, i64) = if x1 > x2 {
            (x2, x1)
        } else {
            (x1, x2)
        };
        let (y1, y2): (i64, i64) = if y1 > y2 {
            (y2, y1)
        } else {
            (y1, y2)
        };
        Rectangle { x1, y1, x2, y2 }
    }

    /// Classifies the point `(x, y)` against this rectangle.
    pub fn clip_flags(&self, x: i64, y: i64) -> (code: u8)
        ensures
            code == self.spec_flags(x, y),
    {
        clip_flags(&x, &y, &self.x1, &self.y1, &self.x2, &self.y2)
    }

    /// Grows the rectangle just enough to cover the point `(x, y)`.
    pub fn expand(&mut self, x: i64, y: i64)
        ensures
            final(self).x1 == min_coord(old(self).x1, x),
            final(self).x2 == max_coord(old(self).x2, x),
            final(self).y1 == min_coord(old(self).y1, y),
            final(self).y2 == max_coord(old(self).y2, y),
            old(self).wf() ==> final(self).wf(),
    {
        if x < self.x1 {
            self.x1 = x;
        }
        if x > self.x2 {
            self.x2 = x;
        }
        if y < self.y1 {
            self.y1 = y;
        }
        if y > self.y2 {
            self.y2 = y;
        }
    }

    /// Grows the rectangle just enough to cover both corners of `r`.
    pub fn expand_rect(&mut self, r: &Rectangle)
        ensures
            final(self).x1 == min_coord(min_coord(old(self).x1, r.x1), r.x2),
            final(self).x2 == max_coord(max_coord(old(self).x2, r.x1), r.x2),
            final(self).y1 == min_coord(min_coord(old(self).y1, r.y1), r.y2),
            final(self).y2 == max_coord(max_coord(old(self).y2, r.y1), r.y2),
            old(self).wf() ==> final(self).wf(),
    {
        self.expand(r.x1, r.y1);
        self.expand(r.x2, r.y2);
    }
}

/// Classifies the point `(x, y)` against the rectangle `[x1, x2] x [y1, y2]`:
/// the LEFT, RIGHT, BOTTOM and TOP bits are set for the strict half-planes the
/// point lies in, so a point on the boundary classifies as inside.
pub fn clip_flags(x: &i64, y: &i64, x1: &i64, y1: &i64, x2: &i64, y2: &i64) -> (code: u8)
    ensures
        code == flags_spec(*x as int, *y as int, *x1 as int, *y1 as int, *x2 as int, *y2 as int),
{
    let mut code: u8 = INSIDE;
    if *x < *x1 {
        code = code + LEFT;
    }
    if *x > *x2 {
        code = code + RIGHT;
    }
    if *y < *y1 {
        code = code + BOTTOM;
    }
    if *y > *y2 {
        code = code + TOP;
    }
    code
}

/// `a * b / c`, computed in 128-bit arithmetic and rounded to the nearest
/// integer with halves away from zero.
pub fn mul_div(a: i64, b: i64, c: i64) -> (r: i64)
    requires
        c != 0,
        i64::MIN <= rounded_div(a * b, c as int) <= i64::MAX,
    ensures
        r == rounded_div(a * b, c as int),
{
    proof {
        assert(-0x4000_0000_0000_0000_0000_0000_0000_0000 <= (a as int) * (b as int)
            <= 0x4000_0000_0000_0000_0000_0000_0000_0000) by (nonlinear_arith)
            requires
                -0x8000_0000_0000_0000 <= a <= 0x7fff_ffff_ffff_ffff && -0x8000_0000_0000_0000 <= b
                    <= 0x7fff_ffff_ffff_ffff,
        ;
    }
    let n: i128 = (a as i128) * (b as i128);
    let neg: bool = (n < 0) != (c < 0);
    let na: u128 = if n < 0 {
        (-n) as u128
    } else {
        n as u128
    };
    let dc: i128 = c as i128;
    let da: u128 = if dc < 0 {
        (-dc) as u128
    } else {
        dc as u128
    };
    let q0: u128 = na / da;
    let r0: u128 = na % da;
    proof {
        lemma_mod_bound(na as int, da as int);
        vstd::arithmetic::div_mod::lemma_div_is_ordered_by_denominator(na as int, 1, da as int);
    }
    let q: u128 = if 2 * r0 >= da {
        q0 + 1
    } else {
        q0
    };
    proof {
        lemma_rnd_pos_by_parts(na as int, da as int);
        lemma_rounded_div_signs((a as int) * (b as int), c as int);
        assert(na == iabs((a as int) * (b as int)));
        assert(da == iabs(c as int));
        assert(q == rnd_pos(na as int, da as int));
    }
    if neg {
        (-(q as i128)) as i64
    } else {
        q as i64
    }
}

/// One straight segment handed to the downstream consumer, in the same
/// fixed-point coordinate space as the path input.
#[derive(Debug, Clone, Copy, PartialEq, Eq, Structural)]
pub struct Segment {
    pub x1: i64,
    pub y1: i64,
    pub x2: i64,
    pub y2: i64,
}

/// The segment `(x1, y1) -> (x2, y2)` built from mathematical coordinates;
/// meaningful when all four fit an `i64`.
pub open spec fn seg(x1: int, y1: int, x2: int, y2: int) -> Segment {
    Segment { x1: x1 as i64, y1: y1 as i64, x2: x2 as i64, y2: y2 as i64 }
}

/// The y coordinate at which the segment `(x1, y1) -> (x2, y2)` meets the
/// vertical line `x == xb`, by rounded linear interpolation; meaningful when
/// `x1 != x2`.
pub open spec fn y_at(x1: int, y1: int, x2: int, y2: int, xb: int) -> int {
    y1 + rounded_div((xb - x1) * (y2 - y1), x2 - x1)
}

/// The x coordinate at which the segment `(x1, y1) -> (x2, y2)` meets the
/// horizontal line `y == yb`, by rounded linear interpolation; meaningful when
/// `y1 != y2`.
pub open spec fn x_at(x1: int, y1: int, x2: int, y2: int, yb: int) -> int {
    x1 + rounded_div((yb - y1) * (x2 - x1), y2 - y1)
}

/// The vertical clip of one piece whose x coordinates already lie on or inside
/// the vertical boundaries of `b`: nothing when the piece lies wholly below or
/// wholly above the rectangle, otherwise the piece with each endpoint that is
/// outside moved to the horizontal boundary it crosses. A piece that clamps to
/// a single point is dropped.
pub open spec fn clip_y_segment(b: Rectangle, x1: int, y1: int, x2: int, y2: int) -> Seq<Segment> {
    let below1 = y1 < b.y1;
    let above1 = y1 > b.y2;
    let below2 = y2 < b.y1;
    let above2 = y2 > b.y2;
    if (below1 && below2) || (above1 && above2) {
        Seq::empty()
    } else {
        let tx1 = if below1 {
            x_at(x1, y1, x2, y2, b.y1 as int)
        } else if above1 {
            x_at(x1, y1, x2, y2, b.y2 as int)
        } else {
            x1
        };
        let ty1 = if below1 {
            b.y1 as int
        } else if above1 {
            b.y2 as int
        } else {
            y1
        };
        let tx2 = if below2 {
            x_at(x1, y1, x2, y2, b.y1 as int)
        } else if above2 {
            x_at(x1, y1, x2, y2, b.y2 as int)
        } else {
            x2
        };
        let ty2 = if below2 {
            b.y1 as int
        } else if above2 {
            b.y2 as int
        } else {
            y2
        };
        if tx1 == tx2 && ty1 == ty2 {
            Seq::empty()
        } else {
            seq![seg(tx1, ty1, tx2, ty2)]
        }
    }
}

/// The segments that one `line_to` call emits: the functional model of
/// clipping the segment `(x1, y1) -> (x2, y2)` against the rectangle `b`.
///
/// A segment wholly below or wholly above the rectangle is rejected outright.
/// Otherwise the segment is split at whichever vertical boundaries it crosses,
/// the portions outside are clamped onto those boundaries, and each of the one
/// to three colinear pieces is clipped vertically by [`clip_y_segment`].
pub open spec fn clip_segments(b: Rectangle, x1: int, y1: int, x2: int, y2: int) -> Seq<Segment> {
    if (y1 < b.y1 && y2 < b.y1) || (y1 > b.y2 && y2 > b.y2) {
        Seq::empty()
    } else {
        let lf1 = x1 < b.x1;
        let rt1 = x1 > b.x2;
        let lf2 = x2 < b.x1;
        let rt2 = x2 > b.x2;
        if !lf1 && !rt1 {
            if !lf2 && !rt2 {
                clip_y_segment(b, x1, y1, x2, y2)
            } else if rt2 {
                let y3 = y_at(x1, y1, x2, y2, b.x2 as int);
                clip_y_segment(b, x1, y1, b.x2 as int, y3) + clip_y_segment(
                    b,
                    b.x2 as int,
                    y3,
                    b.x2 as int,
                    y2,
                )
            } else {
                let y3 = y_at(x1, y1, x2, y2, b.x1 as int);
                clip_y_segment(b, x1, y1, b.x1 as int, y3) + clip_y_segment(
                    b,
                    b.x1 as int,
                    y3,
                    b.x1 as int,
                    y2,
                )
            }
        } else if rt1 {
            if !lf2 && !rt2 {
                let y3 = y_at(x1, y1, x2, y2, b.x2 as int);
                clip_y_segment(b, b.x2 as int, y1, b.x2 as int, y3) + clip_y_segment(
                    b,
                    b.x2 as int,
                    y3,
                    x2,
                    y2,
                )
            } else if rt2 {
                clip_y_segment(b, b.x2 as int, y1, b.x2 as int, y2)
            } else {
                let y3 = y_at(x1, y1, x2, y2, b.x2 as int);
                let y4 = y_at(x1, y1, x2, y2, b.x1 as int);
                clip_y_segment(b, b.x2 as int, y1, b.x2 as int, y3) + clip_y_segment(
                    b,
                    b.x2 as int,
                    y3,
                    b.x1 as int,
                    y4,
                ) + clip_y_segment(b, b.x1 as int, y4, b.x1 as int, y2)
            }
        } else {
            if !lf2 && !rt2 {
                let y3 = y_at(x1, y1, x2, y2, b.x1 as int);
                clip_y_segment(b, b.x1 as int, y1, b.x1 as int, y3) + clip_y_segment(
                    b,
                    b.x1 as int,
                    y3,
                    x2,
                    y2,
                )
            } else if lf2 {
                clip_y_segment(b, b.x1 as int, y1, b.x1 as int, y2)
            } else {
                let y3 = y_at(x1, y1, x2, y2, b.x1 as int);
                let y4 = y_at(x1, y1, x2, y2, b.x2 as int);
                clip_y_segment(b, b.x1 as int, y1, b.x1 as int, y3) + clip_y_segment(
                    b,
                    b.x1 as int,
                    y3,
                    b.x2 as int,
                    y4,
                ) + clip_y_segment(b, b.x2 as int, y4, b.x2 as int, y2)
            }
        }
    }
}

/// Both endpoints of the segment lie inside `b`, boundary included.
pub open spec fn seg_in_rect(b: Rectangle, s: Segment) -> bool {
    &&& b.x1 <= s.x1 <= b.x2
    &&& b.y1 <= s.y1 <= b.y2
    &&& b.x1 <= s.x2 <= b.x2
    &&& b.y1 <= s.y2 <= b.y2
}

/// The segment has nonzero length.
pub open spec fn proper(s: Segment) -> bool {
    s.x1 != s.x2 || s.y1 != s.y2
}

/// Every segment of `segs` lies inside `b` and has nonzero length.
pub open spec fn segments_confined(b: Rectangle, segs: Seq<Segment>) -> bool {
    forall|i: int|
        0 <= i < segs.len() ==> seg_in_rect(b, #[trigger] segs[i]) && proper(segs[i])
}

/// The clip stage's state: the pen position, the outcode of the pen against
/// the clip window (cached so each segment classifies only its new endpoint),
/// and the window itself, absent when clipping is off.
#[derive(Debug, Default)]
pub struct Clip {
    x1: i64,
    y1: i64,
    clip_box: Option<Rectangle>,
    clip_flag: u8,
}

/// The abstract state of a [`Clip`].
pub ghost struct ClipView {
    pub x1: i64,
    pub y1: i64,
    pub clip_box: Option<Rectangle>,
    pub clip_flag: u8,
}

impl View for Clip {
    type V = ClipView;

    closed spec fn view(&self) -> ClipView {
        ClipView { x1: self.x1, y1: self.y1, clip_box: self.clip_box, clip_flag: self.clip_flag }
    }
}

impl ClipView {
    /// The pen and the clip window lie within the clipper's working range,
    /// and the window, when present, has normalized corners.
    pub open spec fn inv(self) -> bool {
        &&& in_range(self.x1 as int)
        &&& in_range(self.y1 as int)
        &&& match self.clip_box {
            Some(b) => b.wf() && b.in_working_range(),
            None => true,
        }
    }

    /// The cached outcode is the outcode of the pen against the clip window.
    /// `move_to` and `line_to` maintain this; installing a window with
    /// `clip_box` leaves the cached code stale until the next `move_to`
    /// reclassifies the pen, which is why a path must begin with `move_to`.
    pub open spec fn coherent(self) -> bool {
        match self.clip_box {
            Some(b) => self.clip_flag == b.spec_flags(self.x1, self.y1),
            None => true,
        }
    }
}

impl Clip {
    /// A fresh clipper: pen at the origin, no clip window installed.
    pub fn new() -> (c: Clip)
        ensures
            c@ == (ClipView {
                x1: 0i64,
                y1: 0i64,
                clip_box: None::<Rectangle>,
                clip_flag: 0u8,
            }),
            c@.inv(),
            c@.coherent(),
    {
        Clip { x1: 0, y1: 0, clip_box: None, clip_flag: INSIDE }
    }

    /// Installs (or replaces) the clip window, normalizing its corners. The
    /// pen and its cached outcode are untouched: the next `move_to`
    /// reclassifies the pen against the new window.
    pub fn clip_box(&mut self, x1: i64, y1: i64, x2: i64, y2: i64)
        requires
            old(self)@.inv(),
            in_range(x1 as int),
            in_range(y1 as int),
            in_range(x2 as int),
            in_range(y2 as int),
        ensures
            final(self)@.clip_box == Some(normalized(x1, y1, x2, y2)),
            final(self)@.x1 == old(self)@.x1,
            final(self)@.y1 == old(self)@.y1,
            final(self)@.clip_flag == old(self)@.clip_flag,
            final(self)@.inv(),
    {
        self.clip_box = Some(Rectangle::new(x1, y1, x2, y2));
    }

    /// Moves the pen to `(x2, y2)` without emitting anything, reclassifying
    /// the pen against the clip window if one is installed.
    pub fn move_to(&mut self, x2: i64, y2: i64)
        requires
            old(self)@.inv(),
            in_range(x2 as int),
            in_range(y2 as int),
        ensures
            final(self)@.x1 == x2,
            final(self)@.y1 == y2,
            final(self)@.clip_box == old(self)@.clip_box,
            final(self)@.clip_flag == (match old(self)@.clip_box {
                Some(b) => b.spec_flags(x2, y2),
                None => old(self)@.clip_flag,
            }),
            final(self)@.inv(),
            final(self)@.coherent(),
    {
        self.x1 = x2;
        self.y1 = y2;
        if let Some(b) = self.clip_box {
            self.clip_flag = clip_flags(&x2, &y2, &b.x1, &b.y1, &b.x2, &b.y2);
        }
    }

    /// Clips one piece, whose x coordinates already lie on or inside the
    /// vertical boundaries, against the horizontal boundaries, and appends the
    /// visible part, if any, to `sink`. `f1` and `f2` carry the vertical
    /// outcode components of the piece's endpoints (their horizontal bits are
    /// ignored). With no clip window installed nothing is emitted.
    pub fn line_clip_y(
        &self,
        sink: &mut Vec<Segment>,
        x1: i64,
        y1: i64,
        x2: i64,
        y2: i64,
        f1: u8,
        f2: u8,
    )
        requires
            self@.inv(),
            in_range(x1 as int),
            in_range(y1 as int),
            in_range(x2 as int),
            in_range(y2 as int),
            match self@.clip_box {
                Some(b) => f1 & 12 == y_code(y1 as int, b.y1 as int, b.y2 as int) && f2 & 12
                    == y_code(y2 as int, b.y1 as int, b.y2 as int),
                None => true,
            },
        ensures
            final(sink)@ == old(sink)@ + (match self@.clip_box {
                Some(b) => clip_y_segment(b, x1 as int, y1 as int, x2 as int, y2 as int),
                None => Seq::<Segment>::empty(),
            }),
    {
        let b: Rectangle = match self.clip_box {
            None => {
                proof {
                    assert(sink@ =~= sink@ + Seq::<Segment>::empty());
                }
                return ;
            },
            Some(b) => b,
        };
        proof {
            assert(TOP | BOTTOM == 12) by (bit_vector);
        }
        let fy1: u8 = f1 & (TOP | BOTTOM);
        let fy2: u8 = f2 & (TOP | BOTTOM);
        let ghost emitted = clip_y_segment(b, x1 as int, y1 as int, x2 as int, y2 as int);
        // Fully visible in y
        if fy1 == INSIDE && fy2 == INSIDE {
            if x1 != x2 || y1 != y2 {
                sink.push(Segment { x1, y1, x2, y2 });
                proof {
                    assert(sink@ =~= old(sink)@ + emitted);
                }
            } else {
                proof {
                    assert(sink@ =~= old(sink)@ + emitted);
                }
            }
        } else {
            // Both endpoints below or both above the clip window
            if fy1 == fy2 {
                proof {
                    assert(sink@ =~= old(sink)@ + emitted);
                }
                return ;
            }
            let mut tx1: i64 = x1;
            let mut ty1: i64 = y1;
            let mut tx2: i64 = x2;
            let mut ty2: i64 = y2;
            if fy1 == BOTTOM {
                proof {
                    lemma_rounded_div_between(b.y1 - y1, y2 - y1, x2 - x1);
                }
                tx1 = x1 + mul_div(b.y1 - y1, x2 - x1, y2 - y1);
                ty1 = b.y1;
            }
            if fy1 == TOP {
                proof {
                    lemma_rounded_div_between(b.y2 - y1, y2 - y1, x2 - x1);
                }
                tx1 = x1 + mul_div(b.y2 - y1, x2 - x1, y2 - y1);
                ty1 = b.y2;
            }
            if fy2 == BOTTOM {
                proof {
                    lemma_rounded_div_between(b.y1 - y1, y2 - y1, x2 - x1);
                }
                tx2 = x1 + mul_div(b.y1 - y1, x2 - x1, y2 - y1);
                ty2 = b.y1;
            }
            if fy2 == TOP {
                proof {
                    lemma_rounded_div_between(b.y2 - y1, y2 - y1, x2 - x1);
                }
                tx2 = x1 + mul_div(b.y2 - y1, x2 - x1, y2 - y1);
                ty2 = b.y2;
            }
            if tx1 != tx2 || ty1 != ty2 {
                sink.push(Segment { x1: tx1, y1: ty1, x2: tx2, y2: ty2 });
                proof {
                    assert(sink@ =~= old(sink)@ + emitted);
                }
            } else {
                proof {
                    assert(sink@ =~= old(sink)@ + emitted);
                }
            }
        }
    }

    /// Draws a segment from the pen to `(x2, y2)` and moves the pen there.
    ///
    /// With no clip window installed the raw segment is forwarded to `sink`
    /// unchanged. Otherwise the segments of [`clip_segments`] are appended:
    /// the visible, boundary-clamped portions of the drawn segment. The pen
    /// always moves to the unclipped `(x2, y2)`, and its cached outcode to the
    /// classification of `(x2, y2)`, so that consecutive calls chain.
    #[verifier::rlimit(100)]
    pub fn line_to(&mut self, sink: &mut Vec<Segment>, x2: i64, y2: i64)
        requires
            old(self)@.inv(),
            old(self)@.coherent(),
            in_range(x2 as int),
            in_range(y2 as int),
        ensures
            final(self)@.x1 == x2,
            final(self)@.y1 == y2,
            final(self)@.clip_box == old(self)@.clip_box,
            final(self)@.inv(),
            final(self)@.coherent(),
            match old(self)@.clip_box {
                Some(b) => final(self)@.clip_flag == b.spec_flags(x2, y2) && final(sink)@ == old(
                    sink,
                )@ + clip_segments(
                    b,
                    old(self)@.x1 as int,
                    old(self)@.y1 as int,
                    x2 as int,
                    y2 as int,
                ),
                None => final(self)@.clip_flag == old(self)@.clip_flag && final(sink)@ == old(
                    sink,
                )@ + seq![
                    (Segment { x1: old(self)@.x1, y1: old(self)@.y1, x2, y2 }),
                ],
            },
    {
        let ob: Option<Rectangle> = self.clip_box;
        if let Some(b) = ob {
            let f2: u8 = b.clip_flags(x2, y2);
            proof {
                lemma_flags_split(
                    self.x1 as int,
                    self.y1 as int,
                    b.x1 as int,
                    b.y1 as int,
                    b.x2 as int,
                    b.y2 as int,
                );
                lemma_flags_split(
                    x2 as int,
                    y2 as int,
                    b.x1 as int,
                    b.y1 as int,
                    b.x2 as int,
                    b.y2 as int,
                );
                assert(TOP | BOTTOM == 12) by (bit_vector);
                assert(LEFT | RIGHT == 3) by (bit_vector);
            }
            let ghost emitted = clip_segments(
                b,
                self.x1 as int,
                self.y1 as int,
                x2 as int,
                y2 as int,
            );
            // Both endpoints below or both above the clip window: nothing can
            // be visible, but the pen state still tracks the raw point.
            let fy1: u8 = self.clip_flag & (TOP | BOTTOM);
            let fy2: u8 = f2 & (TOP | BOTTOM);
            if fy1 != INSIDE && fy1 == fy2 {
                self.x1 = x2;
                self.y1 = y2;
                self.clip_flag = f2;
                proof {
                    assert(sink@ =~= old(sink)@ + emitted);
                }
                return ;
            }
            let x1: i64 = self.x1;
            let y1: i64 = self.y1;
            let f1: u8 = self.clip_flag;
            let fx1: u8 = f1 & (LEFT | RIGHT);
            let fx2: u8 = f2 & (LEFT | RIGHT);
            match (fx1, fx2) {
                (0, 0) => {
                    // INSIDE -> INSIDE
                    self.line_clip_y(sink, x1, y1, x2, y2, f1, f2);
                    proof {
                        assert(sink@ =~= old(sink)@ + emitted);
                    }
                },
                (0, 2) => {
                    // INSIDE -> RIGHT
                    proof {
                        lemma_rounded_div_between(b.x2 - x1, x2 - x1, y2 - y1);
                    }
                    let y3: i64 = y1 + mul_div(b.x2 - x1, y2 - y1, x2 - x1);
                    let f3: u8 = b.clip_flags(b.x2, y3);
                    proof {
                        lemma_flags_split(
                            b.x2 as int,
                            y3 as int,
                            b.x1 as int,
                            b.y1 as int,
                            b.x2 as int,
                            b.y2 as int,
                        );
                    }
                    self.line_clip_y(sink, x1, y1, b.x2, y3, f1, f3);
                    self.line_clip_y(sink, b.x2, y3, b.x2, y2, f3, f2);
                    proof {
                        assert(sink@ =~= old(sink)@ + emitted);
                    }
                },
                (2, 0) => {
                    // RIGHT -> INSIDE
                    proof {
                        lemma_rounded_div_between(b.x2 - x1, x2 - x1, y2 - y1);
                    }
                    let y3: i64 = y1 + mul_div(b.x2 - x1, y2 - y1, x2 - x1);
                    let f3: u8 = b.clip_flags(b.x2, y3);
                    proof {
                        lemma_flags_split(
                            b.x2 as int,
                            y3 as int,
                            b.x1 as int,
                            b.y1 as int,
                            b.x2 as int,
                            b.y2 as int,
                        );
                    }
                    self.line_clip_y(sink, b.x2, y1, b.x2, y3, f1, f3);
                    self.line_clip_y(sink, b.x2, y3, x2, y2, f3, f2);
                    proof {
                        assert(sink@ =~= old(sink)@ + emitted);
                    }
                },
                (0, 1) => {
                    // INSIDE -> LEFT
                    proof {
                        lemma_rounded_div_between(b.x1 - x1, x2 - x1, y2 - y1);
                    }
                    let y3: i64 = y1 + mul_div(b.x1 - x1, y2 - y1, x2 - x1);
                    let f3: u8 = b.clip_flags(b.x1, y3);
                    proof {
                        lemma_flags_split(
                            b.x1 as int,
                            y3 as int,
                            b.x1 as int,
                            b.y1 as int,
                            b.x2 as int,
                            b.y2 as int,
                        );
                    }
                    self.line_clip_y(sink, x1, y1, b.x1, y3, f1, f3);
                    self.line_clip_y(sink, b.x1, y3, b.x1, y2, f3, f2);
                    proof {
                        assert(sink@ =~= old(sink)@ + emitted);
                    }
                },
                (1, 0) => {
                    // LEFT -> INSIDE
                    proof {
                        lemma_rounded_div_between(b.x1 - x1, x2 - x1, y2 - y1);
                    }
                    let y3: i64 = y1 + mul_div(b.x1 - x1, y2 - y1, x2 - x1);
                    let f3: u8 = b.clip_flags(b.x1, y3);
                    proof {
                        lemma_flags_split(
                            b.x1 as int,
                            y3 as int,
                            b.x1 as int,
                            b.y1 as int,
                            b.x2 as int,
                            b.y2 as int,
                        );
                    }
                    self.line_clip_y(sink, b.x1, y1, b.x1, y3, f1, f3);
                    self.line_clip_y(sink, b.x1, y3, x2, y2, f3, f2);
                    proof {
                        assert(sink@ =~= old(sink)@ + emitted);
                    }
                },
                (2, 1) => {
                    // RIGHT -> LEFT: crosses the whole window horizontally
                    proof {
                        lemma_rounded_div_between(b.x2 - x1, x2 - x1, y2 - y1);
                        lemma_rounded_div_between(b.x1 - x1, x2 - x1, y2 - y1);
                    }
                    let y3: i64 = y1 + mul_div(b.x2 - x1, y2 - y1, x2 - x1);
                    let y4: i64 = y1 + mul_div(b.x1 - x1, y2 - y1, x2 - x1);
                    let f3: u8 = b.clip_flags(b.x2, y3);
                    let f4: u8 = b.clip_flags(b.x1, y4);
                    proof {
                        lemma_flags_split(
                            b.x2 as int,
                            y3 as int,
                            b.x1 as int,
                            b.y1 as int,
                            b.x2 as int,
                            b.y2 as int,
                        );
                        lemma_flags_split(
                            b.x1 as int,
                            y4 as int,
                            b.x1 as int,
                            b.y1 as int,
                            b.x2 as int,
                            b.y2 as int,
                        );
                    }
                    self.line_clip_y(sink, b.x2, y1, b.x2, y3, f1, f3);
                    self.line_clip_y(sink, b.x2, y3, b.x1, y4, f3, f4);
                    self.line_clip_y(sink, b.x1, y4, b.x1, y2, f4, f2);
                    proof {
                        assert(sink@ =~= old(sink)@ + emitted);
                    }
                },
                (1, 2) => {
                    // LEFT -> RIGHT: crosses the whole window horizontally
                    proof {
                        lemma_rounded_div_between(b.x1 - x1, x2 - x1, y2 - y1);
                        lemma_rounded_div_between(b.x2 - x1, x2 - x1, y2 - y1);
                    }
                    let y3: i64 = y1 + mul_div(b.x1 - x1, y2 - y1, x2 - x1);
                    let y4: i64 = y1 + mul_div(b.x2 - x1, y2 - y1, x2 - x1);
                    let f3: u8 = b.clip_flags(b.x1, y3);
                    let f4: u8 = b.clip_flags(b.x2, y4);
                    proof {
                        lemma_flags_split(
                            b.x1 as int,
                            y3 as int,
                            b.x1 as int,
                            b.y1 as int,
                            b.x2 as int,
                            b.y2 as int,
                        );
                        lemma_flags_split(
                            b.x2 as int,
                            y4 as int,
                            b.x1 as int,
                            b.y1 as int,
                            b.x2 as int,
                            b.y2 as int,
                        );
                    }
                    self.line_clip_y(sink, b.x1, y1, b.x1, y3, f1, f3);
                    self.line_clip_y(sink, b.x1, y3, b.x2, y4, f3, f4);
                    self.line_clip_y(sink, b.x2, y4, b.x2, y2, f4, f2);
                    proof {
                        assert(sink@ =~= old(sink)@ + emitted);
                    }
                },
                (1, 1) => {
                    // LEFT -> LEFT: rides the left boundary
                    self.line_clip_y(sink, b.x1, y1, b.x1, y2, f1, f2);
                    proof {
                        assert(sink@ =~= old(sink)@ + emitted);
                    }
                },
                (2, 2) => {
                    // RIGHT -> RIGHT: rides the right boundary
                    self.line_clip_y(sink, b.x2, y1, b.x2, y2, f1, f2);
                    proof {
                        assert(sink@ =~= old(sink)@ + emitted);
                    }
                },
                (_, _) => {
                    // The horizontal components can only be 0, 1 or 2 against
                    // a normalized window.
                    proof {
                        assert(false);
                    }
                },
            }
            self.clip_flag = f2;
        } else {
            sink.push(Segment { x1: self.x1, y1: self.y1, x2, y2 });
            proof {
                assert(sink@ =~= old(sink)@ + seq![
                    (Segment { x1: old(self)@.x1, y1: old(self)@.y1, x2, y2 }),
                ]);
            }
        }
        self.x1 = x2;
        self.y1 = y2;
    }
}

} // verus!
