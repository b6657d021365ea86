//! Drawing a list of cells onto a canvas.
use vstd::prelude::*;

use crate::rendering::detailed_canvas::DetailedCanvas;

verus! {

/// The least x of the positions, or the largest `i32` for none.
pub open spec fn least_x(s: Seq<(i32, i32)>) -> int
    decreases s.len(),
{
    if s.len() == 0 {
        i32::MAX as int
    } else {
        let m = least_x(s.drop_last());
        if s.last().0 < m {
            s.last().0 as int
        } else {
            m
        }
    }
}

/// The least y of the positions, or the largest `i32` for none.
pub open spec fn least_y(s: Seq<(i32, i32)>) -> int
    decreases s.len(),
{
    if s.len() == 0 {
        i32::MAX as int
    } else {
        let m = least_y(s.drop_last());
        if s.last().1 < m {
            s.last().1 as int
        } else {
            m
        }
    }
}

/// Draws `positions` with their least coordinates one pixel in from
/// `offset`; cells that fall outside the canvas are left out.
pub fn print_positions(canvas: &mut DetailedCanvas, offset: (i32, i32), positions: Vec<(i32, i32)>)
    requires
        old(canvas).wf(),
    ensures
        final(canvas).wf(),
        final(canvas).spec_char_size() == old(canvas).spec_char_size(),
        forall|j: int| #![trigger positions@[j]] 0 <= j < positions@.len() ==> {
            let px = positions@[j].0 - (least_x(positions@) - 1) + offset.0;
            let py = positions@[j].1 - (least_y(positions@) - 1) + offset.1;
            old(canvas).in_canvas(px, py) ==> final(canvas).pixel_on(px, py)
        },
{
    let mut min_x: i64 = i32::MAX as i64;
    let mut min_y: i64 = i32::MAX as i64;
    let mut i: usize = 0;
    while i < positions.len()
        invariant
            i <= positions@.len(),
            min_x == least_x(positions@.take(i as int)),
            min_y == least_y(positions@.take(i as int)),
            i32::MIN <= min_x <= i32::MAX,
            i32::MIN <= min_y <= i32::MAX,
        decreases positions@.len() - i,
    {
        proof {
            assert(positions@.take(i + 1).drop_last() == positions@.take(i as int));
        }
        let (x, y) = positions[i];
        if (x as i64) < min_x {
            min_x = x as i64;
        }
        if (y as i64) < min_y {
            min_y = y as i64;
        }
        i = i + 1;
    }
    proof {
        assert(positions@.take(positions@.len() as int) == positions@);
    }
    min_x = min_x - 1;
    min_y = min_y - 1;
    let mut i: usize = 0;
    while i < positions.len()
        invariant
            i <= positions@.len(),
            min_x == least_x(positions@) - 1,
            min_y == least_y(positions@) - 1,
            forall|j: int| #![trigger positions@[j]] 0 <= j < i ==> {
                let px = positions@[j].0 - min_x + offset.0;
                let py = positions@[j].1 - min_y + offset.1;
                old(canvas).in_canvas(px, py) ==> canvas.pixel_on(px, py)
            },
            canvas.wf(),
            canvas.spec_char_size() == old(canvas).spec_char_size(),
            i32::MIN - 1 <= min_x <= i32::MAX,
            i32::MIN - 1 <= min_y <= i32::MAX,
        decreases positions@.len() - i,
    {
        let (x, y) = positions[i];
        let px = x as i64 - min_x + offset.0 as i64;
        let py = y as i64 - min_y + offset.1 as i64;
        let ghost before = *canvas;
        if px >= 0 && py >= 0 && px as u64 <= usize::MAX as u64 && py as u64 <= usize::MAX as u64 {
            canvas.set(px as usize, py as usize);
        }
        proof {
            assert forall|j: int| #![trigger positions@[j]] 0 <= j < i + 1 implies {
                let qx = positions@[j].0 - min_x + offset.0;
                let qy = positions@[j].1 - min_y + offset.1;
                old(canvas).in_canvas(qx, qy) ==> canvas.pixel_on(qx, qy)
            } by {
                let qx = positions@[j].0 - min_x + offset.0;
                let qy = positions@[j].1 - min_y + offset.1;
                if j < i && old(canvas).in_canvas(qx, qy) {
                    assert(before.pixel_on(qx, qy));
                    assert(before.in_canvas(qx, qy));
                }
                if j == i && old(canvas).in_canvas(qx, qy) {
                    assert(positions@[j].0 == x && positions@[j].1 == y);
                    assert(qx == px && qy == py);
                    assert(px < 0x2_0000 && py < 0x4_0000);
                    assert(px as u64 <= usize::MAX as u64 && py as u64 <= usize::MAX as u64);
                    assert((px as usize) as int == qx && (py as usize) as int == qy);
                    assert(before.in_canvas(qx, qy));
                }
            }
        }
        i = i + 1;
    }
}

} // verus!
