//! The decisions of an interactive viewer: running or paused, zoom and pan,
//! and which pixels show live cells.
use vstd::arithmetic::power2::{lemma2_to64, lemma_pow2_strictly_increases, lemma_pow2_unfold, pow2};
use vstd::prelude::*;

use super::detailed_canvas::DetailedCanvas;
use crate::life::import::{sat_add, saturating_add};
use crate::life::pack_unpack::CellBounds;
use crate::life::model::step_of;
use crate::life::powers::pow2_i64;
use crate::life::{Life, ORIGIN_LIMIT};

verus! {

/// The deepest zoom-out: one pixel per node of this depth.
pub const MAX_RENDER_DEPTH: u8 = 32;

#[derive(Clone, Copy, Debug, PartialEq, Eq, Structural)]
pub enum RunningState {
    Running,
    Paused,
}

/// A key press that the viewer acts on.
#[derive(Clone, Copy, Debug, PartialEq, Eq, Structural)]
pub enum ViewerKey {
    Quit,
    TogglePause,
    ZoomIn,
    ZoomOut,
    Up,
    Down,
    Left,
    Right,
}

pub struct LifeViewer {
    pub life: Life,
    pub term_size: (u16, u16),
    pub running_state: RunningState,
    pub canvas: DetailedCanvas,
    pub render_depth: u8,
    pub cell_offset_x: i64,
    pub cell_offset_y: i64,
    pub speed: i64,
}


impl LifeViewer {
    pub open spec fn wf(&self) -> bool {
        &&& self.life.wf()
        &&& self.canvas.wf()
        &&& self.render_depth <= MAX_RENDER_DEPTH
        &&& 0 <= self.speed <= 16
    }

    /// The cells that the canvas shows, bounds included.
    pub open spec fn view_bounds(&self) -> CellBounds {
        let scale = self.spec_pixel_scale();
        CellBounds {
            min_x: self.cell_offset_x,
            min_y: self.cell_offset_y,
            max_x: sat_add(self.cell_offset_x, (scale * (2 * self.canvas.spec_char_size().0)) as i64),
            max_y: sat_add(self.cell_offset_y, (scale * (4 * self.canvas.spec_char_size().1)) as i64),
        }
    }

    /// The pixel of the canvas that shows the cell `(x, y)`.
    pub open spec fn pixel_of(&self, x: int, y: int) -> (int, int) {
        (
            (x - self.cell_offset_x) / self.spec_pixel_scale(),
            (y - self.cell_offset_y) / self.spec_pixel_scale(),
        )
    }

    /// Cells per pixel along each axis.
    pub open spec fn spec_pixel_scale(&self) -> int {
        pow2(self.render_depth as nat) as int
    }

    /// A paused viewer of `life` on a terminal of `term_size` characters,
    /// showing one pixel per 32 × 32 cells, centred on the cell `(0, 0)`.
    pub fn new(term_size: (u16, u16), life: Life) -> (r: Self)
        requires
            life.wf(),
        ensures
            r.wf(),
            r.life == life,
            r.running_state == RunningState::Paused,
            r.render_depth == 5,
            r.canvas.spec_char_size() == term_size,
            r.cell_offset_x == -32 * term_size.0,
            r.cell_offset_y == -64 * term_size.1,
            r.speed == 4,
    {
        let mut res = LifeViewer {
            life,
            term_size,
            running_state: RunningState::Paused,
            canvas: DetailedCanvas::new(term_size),
            render_depth: 5,
            cell_offset_x: 0,
            cell_offset_y: 0,
            speed: 4,
        };
        proof {
            lemma2_to64();
        }
        res.center_on_zero_zero();
        proof {
            assert(res.spec_pixel_scale() == 32);
            assert(res.cell_offset_x == -(32 * term_size.0));
            assert(res.cell_offset_y == -(32 * 2 * term_size.1));
            assert(32 * 2 * term_size.1 == 64 * term_size.1);
        }
        res
    }

    /// Puts the cell `(0, 0)` at the centre of the canvas.
    fn center_on_zero_zero(&mut self)
        requires
            old(self).wf(),
        ensures
            final(self).wf(),
            final(self).life == old(self).life,
            final(self).running_state == old(self).running_state,
            final(self).render_depth == old(self).render_depth,
            final(self).canvas.spec_char_size() == old(self).canvas.spec_char_size(),
            final(self).cell_offset_x == -(old(self).spec_pixel_scale() * old(self).canvas.spec_char_size().0),
            final(self).cell_offset_y == -(old(self).spec_pixel_scale() * 2 * old(self).canvas.spec_char_size().1),
            final(self).speed == old(self).speed,
    {
        let scale = self.pixel_scale();
        let (width, height) = self.canvas.size();
        proof {
            assert(scale * width <= 0x1_0000_0000 * 0x2_0000) by (nonlinear_arith)
                requires
                    0 < scale <= 0x1_0000_0000,
                    width <= 0x2_0000,
            ;
            assert(scale * height <= 0x1_0000_0000 * 0x4_0000) by (nonlinear_arith)
                requires
                    0 < scale <= 0x1_0000_0000,
                    height <= 0x4_0000,
            ;
        }
        proof {
            assert(scale * (width / 2) <= scale * width) by (nonlinear_arith)
                requires
                    0 < scale,
            ;
            assert(scale * (height / 2) <= scale * height) by (nonlinear_arith)
                requires
                    0 < scale,
            ;
            assert(height / 2 == 2 * self.canvas.spec_char_size().1);
            assert(width / 2 == self.canvas.spec_char_size().0);
            assert(scale * 2 * self.canvas.spec_char_size().1 == scale * (2 * self.canvas.spec_char_size().1))
                by (nonlinear_arith);
        }
        self.cell_offset_x = -(scale * (width as i64 / 2));
        self.cell_offset_y = -(scale * (height as i64 / 2));
    }

    /// Follows a resize of the terminal; the canvas is cleared.
    pub fn resize(&mut self, term_size: (u16, u16))
        requires
            old(self).wf(),
        ensures
            final(self).wf(),
            final(self).life == old(self).life,
            final(self).term_size == term_size,
            final(self).canvas.spec_char_size() == term_size,
    {
        self.term_size = term_size;
        self.canvas.set_char_size(term_size);
    }

    /// Acts on a key: returns whether the viewer should close. Space toggles
    /// running, `ZoomIn` and `ZoomOut` halve and double the cells per pixel
    /// about the centre, and the arrows pan by `speed` pixels.
    pub fn on_key(&mut self, key: ViewerKey) -> (quit: bool)
        requires
            old(self).wf(),
        ensures
            final(self).wf(),
            final(self).life == old(self).life,
            quit == (key == ViewerKey::Quit),
            key == ViewerKey::TogglePause ==> final(self).running_state != old(self).running_state,
            key != ViewerKey::TogglePause ==> final(self).running_state == old(self).running_state,
            key == ViewerKey::ZoomIn ==> final(self).render_depth == (if old(self).render_depth == 0 {
                0
            } else {
                old(self).render_depth - 1
            }),
            key == ViewerKey::ZoomOut ==> final(self).render_depth == (if old(self).render_depth
                == MAX_RENDER_DEPTH {
                MAX_RENDER_DEPTH as int
            } else {
                old(self).render_depth + 1
            }),
            key == ViewerKey::Up ==> final(self).cell_offset_y == sat_add(
                old(self).cell_offset_y,
                -(old(self).spec_pixel_scale() * old(self).speed) as i64,
            ),
            key == ViewerKey::Down ==> final(self).cell_offset_y == sat_add(
                old(self).cell_offset_y,
                (old(self).spec_pixel_scale() * old(self).speed) as i64,
            ),
            key == ViewerKey::Left ==> final(self).cell_offset_x == sat_add(
                old(self).cell_offset_x,
                -(old(self).spec_pixel_scale() * old(self).speed) as i64,
            ),
            key == ViewerKey::Right ==> final(self).cell_offset_x == sat_add(
                old(self).cell_offset_x,
                (old(self).spec_pixel_scale() * old(self).speed) as i64,
            ),
            key == ViewerKey::ZoomIn && old(self).render_depth > 0 ==> {
                &&& final(self).cell_offset_x == sat_add(
                    old(self).cell_offset_x,
                    (old(self).spec_pixel_scale() * (2 * old(self).canvas.spec_char_size().0) / 4) as i64,
                )
                &&& final(self).cell_offset_y == sat_add(
                    old(self).cell_offset_y,
                    (old(self).spec_pixel_scale() * (4 * old(self).canvas.spec_char_size().1) / 4) as i64,
                )
            },
            key == ViewerKey::ZoomOut && old(self).render_depth < MAX_RENDER_DEPTH ==> {
                &&& final(self).cell_offset_x == sat_add(
                    old(self).cell_offset_x,
                    -(final(self).spec_pixel_scale() * (2 * old(self).canvas.spec_char_size().0) / 4) as i64,
                )
                &&& final(self).cell_offset_y == sat_add(
                    old(self).cell_offset_y,
                    -(final(self).spec_pixel_scale() * (4 * old(self).canvas.spec_char_size().1) / 4) as i64,
                )
            },
            key == ViewerKey::Up || key == ViewerKey::Down || key == ViewerKey::Quit || key
                == ViewerKey::TogglePause || (key == ViewerKey::ZoomIn && old(self).render_depth == 0)
                || (key == ViewerKey::ZoomOut && old(self).render_depth == MAX_RENDER_DEPTH)
                ==> final(self).cell_offset_x == old(self).cell_offset_x,
            key == ViewerKey::Left || key == ViewerKey::Right || key == ViewerKey::Quit || key
                == ViewerKey::TogglePause || (key == ViewerKey::ZoomIn && old(self).render_depth == 0)
                || (key == ViewerKey::ZoomOut && old(self).render_depth == MAX_RENDER_DEPTH)
                ==> final(self).cell_offset_y == old(self).cell_offset_y,
            key != ViewerKey::ZoomIn && key != ViewerKey::ZoomOut ==> final(self).render_depth
                == old(self).render_depth,
            final(self).canvas == old(self).canvas,
            final(self).speed == old(self).speed,
            final(self).term_size == old(self).term_size,
    {
        let scale = self.pixel_scale();
        proof {
            assert(scale * self.speed <= 0x1_0000_0000 * 16) by (nonlinear_arith)
                requires
                    0 < scale <= 0x1_0000_0000,
                    0 <= self.speed <= 16,
            ;
            assert(0 <= scale * self.speed) by (nonlinear_arith)
                requires
                    0 < scale,
                    0 <= self.speed,
            ;
        }
        let pan = scale * self.speed;
        match key {
            ViewerKey::Quit => {
                return true;
            },
            ViewerKey::TogglePause => {
                self.running_state = match self.running_state {
                    RunningState::Running => RunningState::Paused,
                    RunningState::Paused => RunningState::Running,
                };
            },
            ViewerKey::ZoomIn => {
                if self.render_depth == 0 {
                    return false;
                }
                let (quarter_x, quarter_y) = self.quarter_view();
                self.cell_offset_x = saturating_add(self.cell_offset_x, quarter_x);
                self.cell_offset_y = saturating_add(self.cell_offset_y, quarter_y);
                self.render_depth = self.render_depth - 1;
            },
            ViewerKey::ZoomOut => {
                if self.render_depth == MAX_RENDER_DEPTH {
                    return false;
                }
                self.render_depth = self.render_depth + 1;
                let (quarter_x, quarter_y) = self.quarter_view();
                self.cell_offset_x = saturating_add(self.cell_offset_x, -quarter_x);
                self.cell_offset_y = saturating_add(self.cell_offset_y, -quarter_y);
            },
            ViewerKey::Up => {
                self.cell_offset_y = saturating_add(self.cell_offset_y, -pan);
            },
            ViewerKey::Down => {
                self.cell_offset_y = saturating_add(self.cell_offset_y, pan);
            },
            ViewerKey::Left => {
                self.cell_offset_x = saturating_add(self.cell_offset_x, -pan);
            },
            ViewerKey::Right => {
                self.cell_offset_x = saturating_add(self.cell_offset_x, pan);
            },
        }
        false
    }

    /// A quarter of the view's width and height, in cells.
    fn quarter_view(&self) -> (r: (i64, i64))
        requires
            self.wf(),
        ensures
            0 <= r.0 <= 0x1_0000_0000 * 0x2_0000,
            0 <= r.1 <= 0x1_0000_0000 * 0x4_0000,
            r.0 == self.spec_pixel_scale() * (2 * self.canvas.spec_char_size().0) / 4,
            r.1 == self.spec_pixel_scale() * (4 * self.canvas.spec_char_size().1) / 4,
    {
        let scale = self.pixel_scale();
        let (width, height) = self.canvas.size();
        proof {
            assert(0 <= scale * width <= 0x1_0000_0000 * 0x2_0000) by (nonlinear_arith)
                requires
                    0 < scale <= 0x1_0000_0000,
                    width <= 0x2_0000,
            ;
            assert(0 <= scale * height <= 0x1_0000_0000 * 0x4_0000) by (nonlinear_arith)
                requires
                    0 < scale <= 0x1_0000_0000,
                    height <= 0x4_0000,
            ;
        }
        (scale * (width as i64) / 4, scale * (height as i64) / 4)
    }

    /// Advances the board by one generation when running and when the
    /// engine has room for it; returns whether it did.
    pub fn step(&mut self) -> (stepped: bool)
        requires
            old(self).wf(),
        ensures
            final(self).wf(),
            !stepped ==> final(self).life == old(self).life,
            stepped == (old(self).running_state == RunningState::Running && old(self).life.root.spec_layer()
                + 3 < old(self).life.layers@.len() && -ORIGIN_LIMIT / 2 < old(self).life.origin_x
                < ORIGIN_LIMIT / 2 && -ORIGIN_LIMIT / 2 < old(self).life.origin_y < ORIGIN_LIMIT / 2),
            stepped ==> forall|x: int, y: int| #[trigger] final(self).life.live(x, y) == (step_of(
                old(self).life.world(),
            ))(x, y),
            final(self).running_state == old(self).running_state,
    {
        if self.running_state == RunningState::Running && self.life.root.layer() + 3
            < self.life.layers.len() && -ORIGIN_LIMIT / 2 < self.life.origin_x && self.life.origin_x
            < ORIGIN_LIMIT / 2 && -ORIGIN_LIMIT / 2 < self.life.origin_y && self.life.origin_y
            < ORIGIN_LIMIT / 2 {
            self.life.step();
            true
        } else {
            false
        }
    }

    pub fn pixel_scale(&self) -> (r: i64)
        requires
            self.render_depth <= MAX_RENDER_DEPTH,
        ensures
            r == self.spec_pixel_scale(),
            0 < r <= 0x1_0000_0000,
    {
        proof {
            lemma2_to64();
            if self.render_depth < 32 {
                lemma_pow2_strictly_increases(self.render_depth as nat, 32);
            }
        }
        pow2_i64(self.render_depth as usize)
    }

    /// The cells that the canvas shows.
    fn cell_bounds(&self) -> (r: CellBounds)
        requires
            self.wf(),
        ensures
            r == self.view_bounds(),
    {
        let (width, height) = self.canvas.size();
        let scale = self.pixel_scale();
        proof {
            assert(0 <= scale * width <= 0x1_0000_0000 * 0x2_0000) by (nonlinear_arith)
                requires
                    0 < scale <= 0x1_0000_0000,
                    width <= 0x2_0000,
            ;
            assert(0 <= scale * height <= 0x1_0000_0000 * 0x4_0000) by (nonlinear_arith)
                requires
                    0 < scale <= 0x1_0000_0000,
                    height <= 0x4_0000,
            ;
        }
        let (width, height) = (scale * (width as i64), scale * (height as i64));
        let (x, y) = (self.cell_offset_x, self.cell_offset_y);
        CellBounds {
            min_x: x,
            min_y: y,
            max_x: saturating_add(x, width),
            max_y: saturating_add(y, height),
        }
    }

    /// Draws the live cells in view: each pixel stands for a node of depth
    /// `render_depth` and is on when that node holds a live cell.
    pub fn render(&mut self)
        requires
            old(self).wf(),
        ensures
            final(self).wf(),
            final(self).life == old(self).life,
            final(self).canvas.spec_char_size() == old(self).canvas.spec_char_size(),
            final(self).render_depth == old(self).render_depth,
            final(self).cell_offset_x == old(self).cell_offset_x,
            final(self).cell_offset_y == old(self).cell_offset_y,
            forall|px: i64, py: i64|
                #[trigger] old(self).life.reported(old(self).render_depth as nat, old(self).view_bounds(), px as int, py as int)
                    && old(self).cell_offset_x <= px && old(self).cell_offset_y <= py
                    && old(self).canvas.in_canvas(
                    old(self).pixel_of(px as int, py as int).0,
                    old(self).pixel_of(px as int, py as int).1,
                ) ==> final(self).canvas.pixel_on(
                    old(self).pixel_of(px as int, py as int).0,
                    old(self).pixel_of(px as int, py as int).1,
                ),
    {
        let scale = self.pixel_scale();
        let positions = self.life.cell_positions(self.render_depth, self.cell_bounds());
        self.canvas.clear();
        let mut i: usize = 0;
        while i < positions.len()
            invariant
                self.wf(),
                self.life == old(self).life,
                self.render_depth == old(self).render_depth,
                self.canvas.spec_char_size() == old(self).canvas.spec_char_size(),
                self.cell_offset_x == old(self).cell_offset_x,
                self.cell_offset_y == old(self).cell_offset_y,
                scale == old(self).spec_pixel_scale(),
                0 < scale <= 0x1_0000_0000,
                i <= positions@.len(),
                forall|j: int| #![trigger positions@[j]] 0 <= j < i ==> {
                    let (qx, qy) = old(self).pixel_of(positions@[j].0 as int, positions@[j].1 as int);
                    old(self).cell_offset_x <= positions@[j].0 && old(self).cell_offset_y <= positions@[j].1
                        && old(self).canvas.in_canvas(qx, qy) ==> self.canvas.pixel_on(qx, qy)
                },
            decreases positions@.len() - i,
        {
            let (x, y) = positions[i];
            let dx = x as i128 - self.cell_offset_x as i128;
            let dy = y as i128 - self.cell_offset_y as i128;
            let ghost before = self.canvas;
            if 0 <= dx && 0 <= dy {
                let px = (dx as u128 / scale as u128) as u64;
                let py = (dy as u128 / scale as u128) as u64;
                proof {
                    assert((dx as int) / (scale as int) <= dx as int) by (nonlinear_arith)
                        requires
                            0 <= dx,
                            0 < scale,
                    ;
                    assert((dy as int) / (scale as int) <= dy as int) by (nonlinear_arith)
                        requires
                            0 <= dy,
                            0 < scale,
                    ;
                }
                if px <= usize::MAX as u64 && py <= usize::MAX as u64 {
                    self.canvas.set(px as usize, py as usize);
                }
            }
            proof {
                assert forall|j: int| #![trigger positions@[j]] 0 <= j < i + 1 implies {
                    let (qx, qy) = old(self).pixel_of(positions@[j].0 as int, positions@[j].1 as int);
                    old(self).cell_offset_x <= positions@[j].0 && old(self).cell_offset_y <= positions@[j].1
                        && old(self).canvas.in_canvas(qx, qy) ==> self.canvas.pixel_on(qx, qy)
                } by {
                    let (qx, qy) = old(self).pixel_of(positions@[j].0 as int, positions@[j].1 as int);
                    if j < i && old(self).canvas.in_canvas(qx, qy) && old(self).cell_offset_x
                        <= positions@[j].0 && old(self).cell_offset_y <= positions@[j].1 {
                        assert(before.pixel_on(qx, qy));
                        assert(before.in_canvas(qx, qy));
                    }
                    if j == i && old(self).canvas.in_canvas(qx, qy) && old(self).cell_offset_x
                        <= positions@[j].0 && old(self).cell_offset_y <= positions@[j].1 {
                        assert(positions@[j].0 == x && positions@[j].1 == y);
                        assert(before.in_canvas(qx, qy));
                    }
                }
            }
            i = i + 1;
        }
        proof {
            assert forall|px: i64, py: i64|
                #[trigger] old(self).life.reported(old(self).render_depth as nat, old(self).view_bounds(), px as int, py as int)
                    && old(self).cell_offset_x <= px && old(self).cell_offset_y <= py
                    && old(self).canvas.in_canvas(
                    old(self).pixel_of(px as int, py as int).0,
                    old(self).pixel_of(px as int, py as int).1,
                ) implies self.canvas.pixel_on(
                    old(self).pixel_of(px as int, py as int).0,
                    old(self).pixel_of(px as int, py as int).1,
                ) by {
                assert(positions@.contains((px, py)));
                let j = choose|j: int| 0 <= j < positions@.len() && positions@[j] == (px, py);
                assert(positions@[j].0 == px && positions@[j].1 == py);
            }
        }
    }
}

} // verus!
