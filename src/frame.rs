//! Drawing one frame: the visible triangles back to front, each filled with
//! its shade and outlined.

use vstd::prelude::*;

use crate::depth::{back_to_front, is_back_to_front, is_permutation};
use crate::draw::{filled_points, filled_triangle, outline_points, plot, triangle, Canvas, Color, Pixel, Triangle};

verus! {

/// Color of the outline drawn over each filled triangle.
pub open spec fn outline_color() -> Color {
    Color { r: 255, g: 0, b: 0 }
}

/// The writes that draw `t`: its fill in its own color, then its outline.
pub open spec fn triangle_pixels(t: Triangle) -> Seq<Pixel> {
    plot(filled_points(t), t.color.unwrap()) + plot(outline_points(t), outline_color())
}

/// The writes that draw `tris` in the order `order`.
pub open spec fn frame_pixels(tris: Seq<Triangle>, order: Seq<usize>) -> Seq<Pixel> {
    order.map_values(|i: usize| triangle_pixels(tris[i as int])).flatten()
}

/// Draws the triangles `tris`, whose depths are `depths`, farthest first,
/// and returns the order in which they were drawn.
pub fn draw_frame(tris: &Vec<Triangle>, depths: &Vec<i64>, canvas: &mut Canvas) -> (order: Vec<
    usize,
>)
    requires
        depths@.len() == tris@.len(),
        forall|i: int| 0 <= i < tris@.len() ==> (#[trigger] tris@[i]).color.is_some(),
    ensures
        is_permutation(order@, tris@.len() as int),
        is_back_to_front(order@, depths@),
        final(canvas)@ == old(canvas)@ + frame_pixels(tris@, order@),
{
    let order = back_to_front(depths);
    let ghost parts = order@.map_values(|i: usize| triangle_pixels(tris@[i as int]));
    let mut k: usize = 0;
    assert(parts.take(0) =~= Seq::<Seq<Pixel>>::empty());
    while k < order.len()
        invariant
            0 <= k <= order@.len(),
            is_permutation(order@, tris@.len() as int),
            forall|i: int| 0 <= i < tris@.len() ==> (#[trigger] tris@[i]).color.is_some(),
            parts == order@.map_values(|i: usize| triangle_pixels(tris@[i as int])),
            canvas@ == old(canvas)@ + parts.take(k as int).flatten(),
        decreases order@.len() - k,
    {
        let idx = order[k];
        assert(order@[k as int] < tris@.len());
        let t = tris[idx];
        let color = match t.color {
            Some(c) => c,
            None => Color::RGB(0, 0, 0),
        };
        let ghost before = canvas@;
        filled_triangle(t, color, canvas);
        triangle(t, Color::RGB(255, 0, 0), canvas);
        proof {
            assert(parts[k as int] == triangle_pixels(t));
            assert(parts.take(k + 1) =~= parts.take(k as int).push(parts[k as int]));
            parts.take(k as int).lemma_flatten_push(parts[k as int]);
        }
        k = k + 1;
    }
    assert(parts.take(k as int) =~= parts);
    order
}

} // verus!
