//! A pixel canvas drawn with braille characters: each character cell holds a
//! block of 2 × 4 pixels as the bits of a byte.
use vstd::prelude::*;

verus! {

/// The bit of a braille character that the pixel at `(dx, dy)` of its 2 × 4
/// block sets.
pub open spec fn braille_bit(dx: int, dy: int) -> u8 {
    if dx == 0 {
        if dy == 0 {
            1
        } else if dy == 1 {
            2
        } else if dy == 2 {
            4
        } else {
            64
        }
    } else {
        if dy == 0 {
            8
        } else if dy == 1 {
            16
        } else if dy == 2 {
            32
        } else {
            128
        }
    }
}

proof fn lemma_or_sets(a: u8, m: u8)
    ensures
        (a | m) & m == m,
{
    assert((a | m) & m == m) by (bit_vector);
}

proof fn lemma_or_keeps(a: u8, b: u8, m: u8)
    requires
        a & m == m,
    ensures
        (a | b) & m == m,
{
    assert((a | b) & m == m) by (bit_vector)
        requires
            a & m == m,
    ;
}

pub struct DetailedCanvas {
    char_size: (u16, u16),
    buffer: Vec<u8>,
}

impl DetailedCanvas {
    pub const BRAIL_WIDTH: u16 = 2;

    pub const BRAIL_HEIGHT: u16 = 4;

    /// Width and height in characters.
    pub closed spec fn spec_char_size(&self) -> (u16, u16) {
        self.char_size
    }

    /// The bits of each character, row by row.
    pub closed spec fn spec_buffer(&self) -> Seq<u8> {
        self.buffer@
    }

    /// One byte per character.
    pub open spec fn wf(&self) -> bool {
        self.spec_buffer().len() == self.spec_char_size().0 * self.spec_char_size().1
    }

    /// The index of the character that holds the pixel `(x, y)`.
    pub open spec fn pixel_index(&self, x: int, y: int) -> int {
        (y / 4) * self.spec_char_size().0 + x / 2
    }

    pub open spec fn in_canvas(&self, x: int, y: int) -> bool {
        0 <= x < 2 * self.spec_char_size().0 && 0 <= y < 4 * self.spec_char_size().1
    }

    /// The pixel `(x, y)` is on.
    pub open spec fn pixel_on(&self, x: int, y: int) -> bool {
        self.spec_buffer()[self.pixel_index(x, y)] & braille_bit(x % 2, y % 4) == braille_bit(
            x % 2,
            y % 4,
        )
    }

    pub fn new(size: (u16, u16)) -> (r: Self)
        ensures
            r.wf(),
            r.spec_char_size() == size,
            forall|i: int| 0 <= i < r.spec_buffer().len() ==> #[trigger] r.spec_buffer()[i] == 0,
    {
        DetailedCanvas { buffer: Self::create_buffer(size), char_size: size }
    }

    fn create_buffer(char_size: (u16, u16)) -> (r: Vec<u8>)
        ensures
            r@.len() == char_size.0 * char_size.1,
            forall|i: int| 0 <= i < r@.len() ==> #[trigger] r@[i] == 0,
    {
        proof {
            assert(char_size.0 * char_size.1 <= 0xffff * 0xffff) by (nonlinear_arith)
                requires
                    char_size.0 <= 0xffff,
                    char_size.1 <= 0xffff,
            ;
        }
        let n = (char_size.0 as usize) * (char_size.1 as usize);
        let mut buffer: Vec<u8> = Vec::new();
        while buffer.len() < n
            invariant
                buffer@.len() <= n,
                n == char_size.0 * char_size.1,
                forall|i: int| 0 <= i < buffer@.len() ==> #[trigger] buffer@[i] == 0,
            decreases n - buffer@.len(),
        {
            buffer.push(0);
        }
        buffer
    }

    /// The character that holds a pixel.
    fn char_position(pixel_position: (usize, usize)) -> (r: (usize, usize))
        ensures
            r.0 == pixel_position.0 / 2,
            r.1 == pixel_position.1 / 4,
    {
        let (x, y) = pixel_position;
        (x / 2, y / 4)
    }

    fn char_index(&self, char_position: (usize, usize)) -> (r: usize)
        requires
            char_position.0 < self.spec_char_size().0,
            char_position.1 < self.spec_char_size().1,
        ensures
            r == char_position.1 * self.spec_char_size().0 + char_position.0,
    {
        proof {
            assert(char_position.1 * self.char_size.0 + char_position.0 < (char_position.1 + 1)
                * self.char_size.0) by (nonlinear_arith)
                requires
                    char_position.0 < self.char_size.0,
            ;
            assert((char_position.1 + 1) * self.char_size.0 <= self.char_size.1 * self.char_size.0)
                by (nonlinear_arith)
                requires
                    char_position.1 < self.char_size.1,
            ;
            assert(self.char_size.1 * self.char_size.0 <= 0xffff * 0xffff) by (nonlinear_arith)
                requires
                    self.char_size.1 <= 0xffff,
                    self.char_size.0 <= 0xffff,
            ;
        }
        char_position.1 * (self.char_size.0 as usize) + char_position.0
    }

    /// The bit of its character that a pixel sets.
    fn brail_bit(pixel_position: (usize, usize)) -> (r: u8)
        ensures
            r == braille_bit(pixel_position.0 as int % 2, pixel_position.1 as int % 4),
    {
        let (x, y) = (pixel_position.0 % 2, pixel_position.1 % 4);
        if x == 0 {
            if y == 0 {
                1
            } else if y == 1 {
                2
            } else if y == 2 {
                4
            } else {
                64
            }
        } else {
            if y == 0 {
                8
            } else if y == 1 {
                16
            } else if y == 2 {
                32
            } else {
                128
            }
        }
    }

    /// Width and height in pixels.
    pub fn size(&self) -> (r: (usize, usize))
        ensures
            r.0 == 2 * self.spec_char_size().0,
            r.1 == 4 * self.spec_char_size().1,
    {
        let (width, height) = self.char_size;
        ((width as usize) * 2, (height as usize) * 4)
    }

    pub fn char_size(&self) -> (r: (u16, u16))
        ensures
            r == self.spec_char_size(),
    {
        self.char_size
    }

    /// Resizes the canvas, clearing it.
    pub fn set_char_size(&mut self, size: (u16, u16))
        ensures
            final(self).wf(),
            final(self).spec_char_size() == size,
            forall|i: int| 0 <= i < final(self).spec_buffer().len() ==> #[trigger] final(self).spec_buffer()[i] == 0,
    {
        self.char_size = size;
        self.buffer = Self::create_buffer(size);
    }

    /// Turns the pixel `(x, y)` on; a pixel outside the canvas is ignored.
    pub fn set(&mut self, x: usize, y: usize)
        requires
            old(self).wf(),
        ensures
            final(self).wf(),
            final(self).spec_char_size() == old(self).spec_char_size(),
            final(self).spec_buffer() == (if old(self).in_canvas(x as int, y as int) {
                old(self).spec_buffer().update(
                    old(self).pixel_index(x as int, y as int),
                    old(self).spec_buffer()[old(self).pixel_index(x as int, y as int)] | braille_bit(
                        x as int % 2,
                        y as int % 4,
                    ),
                )
            } else {
                old(self).spec_buffer()
            }),
            old(self).in_canvas(x as int, y as int) ==> final(self).pixel_on(x as int, y as int),
            forall|a: int, b: int|
                old(self).in_canvas(a, b) && #[trigger] old(self).pixel_on(a, b) ==> final(self).pixel_on(a, b),
    {
        let (max_x, max_y) = self.size();
        if x >= max_x || y >= max_y {
            return;
        }
        let char_position = Self::char_position((x, y));
        let index = self.char_index(char_position);
        proof {
            assert(index < self.buffer@.len()) by (nonlinear_arith)
                requires
                    index == char_position.1 * self.char_size.0 + char_position.0,
                    char_position.0 < self.char_size.0,
                    char_position.1 < self.char_size.1,
                    self.buffer@.len() == self.char_size.0 * self.char_size.1,
            ;
        }
        let bit = Self::brail_bit((x, y));
        let bits = self.buffer[index] | bit;
        self.buffer.set(index, bits);
        proof {
            lemma_or_sets(old(self).buffer@[index as int], bit);
            assert forall|a: int, b: int|
                old(self).in_canvas(a, b) && #[trigger] old(self).pixel_on(a, b) implies self.pixel_on(a, b) by {
                let j = old(self).pixel_index(a, b);
                let (r, c) = (b / 4, a / 2);
                let (cw, ch) = (self.char_size.0 as int, self.char_size.1 as int);
                assert(0 <= c < cw && 0 <= r < ch);
                assert(0 <= r * cw + c < cw * ch) by (nonlinear_arith)
                    requires
                        0 <= c < cw,
                        0 <= r < ch,
                ;
                assert(j == r * cw + c);
                if j == index {
                    lemma_or_keeps(old(self).buffer@[j], bit, braille_bit(a % 2, b % 4));
                }
            }
        }
    }

    /// Turns every pixel off.
    pub fn clear(&mut self)
        requires
            old(self).wf(),
        ensures
            final(self).wf(),
            final(self).spec_char_size() == old(self).spec_char_size(),
            forall|i: int| 0 <= i < final(self).spec_buffer().len() ==> #[trigger] final(self).spec_buffer()[i] == 0,
    {
        let mut i: usize = 0;
        while i < self.buffer.len()
            invariant
                i <= self.buffer@.len(),
                self.buffer@.len() == old(self).buffer@.len(),
                self.char_size == old(self).char_size,
                forall|j: int| 0 <= j < i ==> #[trigger] self.buffer@[j] == 0,
            decreases self.buffer@.len() - i,
        {
            self.buffer.set(i, 0);
            i = i + 1;
        }
    }

    /// The bits of the character at column `x` and row `y`.
    pub fn char_bits(&self, x: u16, y: u16) -> (r: u8)
        requires
            self.wf(),
            x < self.spec_char_size().0,
            y < self.spec_char_size().1,
        ensures
            r == self.spec_buffer()[y * self.spec_char_size().0 + x],
    {
        let index = self.char_index((x as usize, y as usize));
        proof {
            assert(index < self.buffer@.len()) by (nonlinear_arith)
                requires
                    index == y * self.char_size.0 + x,
                    x < self.char_size.0,
                    y < self.char_size.1,
                    self.buffer@.len() == self.char_size.0 * self.char_size.1,
            ;
        }
        self.buffer[index]
    }
}

} // verus!
