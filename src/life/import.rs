//! Decoding the run-length pattern text into a list of live cells.
use vstd::prelude::*;
use vstd::std_specs::iter::IteratorSpec;

verus! {

broadcast use vstd::string::axiom_spec_iter, vstd::string::next_postcondition;

/// Where the decoder stands: the cursor, the pending run length, the kind of
/// the current line, and the cells emitted so far.
pub struct RleState {
    pub x: i64,
    pub y: i64,
    pub run_length: i64,
    pub run_length_chars: u64,
    pub line_start: bool,
    pub header_done: bool,
    pub in_body: bool,
    pub cells: Seq<(i64, i64)>,
}

pub open spec fn sat_add(a: i64, b: i64) -> i64 {
    if a + b > i64::MAX {
        i64::MAX
    } else if a + b < i64::MIN {
        i64::MIN
    } else {
        (a + b) as i64
    }
}

pub open spec fn sat_mul10_add(a: i64, d: i64) -> i64 {
    if a * 10 + d > i64::MAX {
        i64::MAX
    } else if a * 10 + d < i64::MIN {
        i64::MIN
    } else {
        (a * 10 + d) as i64
    }
}

pub fn saturating_add(a: i64, b: i64) -> (r: i64)
    ensures
        r == sat_add(a, b),
{
    let s = a as i128 + b as i128;
    if s > i64::MAX as i128 {
        i64::MAX
    } else if s < i64::MIN as i128 {
        i64::MIN
    } else {
        s as i64
    }
}

fn saturating_mul10_add(a: i64, d: i64) -> (r: i64)
    requires
        0 <= d <= 9,
    ensures
        r == sat_mul10_add(a, d),
{
    let s = a as i128 * 10 + d as i128;
    if s > i64::MAX as i128 {
        i64::MAX
    } else if s < i64::MIN as i128 {
        i64::MIN
    } else {
        s as i64
    }
}

/// The `n` cells of a row starting at `x`.
pub open spec fn run_cells(x: i64, y: i64, n: int) -> Seq<(i64, i64)> {
    Seq::new(n as nat, |k: int| ((x + k) as i64, y))
}

/// One body character: `o` emits a run of live cells, `b` skips a run, `$`
/// ends rows, a digit extends the run length; anything else is ignored.
pub open spec fn body_step(st: RleState, c: char, offset_x: i64) -> RleState {
    let run = st.run_length;
    if c == 'o' {
        let end = sat_add(st.x, run);
        RleState {
            x: end,
            run_length: 1,
            run_length_chars: 0,
            cells: st.cells + run_cells(st.x, st.y, end - st.x),
            ..st
        }
    } else if c == 'b' {
        RleState { x: sat_add(st.x, run), run_length: 1, run_length_chars: 0, ..st }
    } else if c == '$' {
        RleState { y: sat_add(st.y, run), x: offset_x, run_length: 1, run_length_chars: 0, ..st }
    } else if '0' <= c <= '9' {
        let base = if st.run_length_chars == 0 {
            0
        } else {
            run
        };
        RleState {
            run_length: sat_mul10_add(base, (c as u32 - '0' as u32) as i64),
            run_length_chars: if st.run_length_chars < u64::MAX {
                (st.run_length_chars + 1) as u64
            } else {
                st.run_length_chars
            },
            ..st
        }
    } else {
        st
    }
}

/// One character of the text: lines that start with `#` are comments, the
/// first other line is the header, and the remaining lines form the body.
pub open spec fn text_step(st: RleState, c: char, offset_x: i64) -> RleState {
    if c == '\n' {
        let header_done = st.header_done || st.line_start;
        RleState { line_start: true, in_body: false, header_done, ..st }
    } else if st.line_start {
        let in_body = c != '#' && st.header_done;
        let header_done = st.header_done || c != '#';
        let st2 = RleState { line_start: false, in_body, header_done, ..st };
        if in_body {
            body_step(st2, c, offset_x)
        } else {
            st2
        }
    } else if st.in_body {
        body_step(st, c, offset_x)
    } else {
        st
    }
}

/// Characters outside the grammar are skipped: they leave the cells, the
/// cursor and the pending run as they were.
pub proof fn lemma_other_characters_ignored(st: RleState, c: char, offset_x: i64)
    requires
        c != 'o' && c != 'b' && c != '$' && c != '\n' && c != '#',
        !('0' <= c <= '9'),
    ensures
        text_step(st, c, offset_x).cells == st.cells,
        text_step(st, c, offset_x).x == st.x,
        text_step(st, c, offset_x).y == st.y,
        text_step(st, c, offset_x).run_length == st.run_length,
        text_step(st, c, offset_x).run_length_chars == st.run_length_chars,
{
}

pub open spec fn initial_state(offset_x: i64, offset_y: i64) -> RleState {
    RleState {
        x: offset_x,
        y: offset_y,
        run_length: 1,
        run_length_chars: 0,
        line_start: true,
        header_done: false,
        in_body: false,
        cells: Seq::empty(),
    }
}

/// The decoder's state after the characters `s`.
pub open spec fn decode(s: Seq<char>, offset_x: i64, offset_y: i64) -> RleState
    decreases s.len(),
{
    if s.len() == 0 {
        initial_state(offset_x, offset_y)
    } else {
        text_step(decode(s.drop_last(), offset_x, offset_y), s.last(), offset_x)
    }
}

/// The live cells that the pattern text `rle` describes, with its first row
/// and column at `(offset_x, offset_y)`.
pub fn rle_to_cell_positions(rle: String, offset_x: i64, offset_y: i64) -> (r: Vec<(i64, i64)>)
    ensures
        r@ == decode(rle@, offset_x, offset_y).cells,
{
    let mut text: Vec<char> = Vec::new();
    let mut chars = rle.as_str().chars();
    let ghost all = rle@;
    loop
        invariant
            text@ + chars.remaining() == all,
            chars.decrease() is Some,
        ensures
            text@ == all,
        decreases chars.decrease()->0,
    {
        let ghost before = text@;
        match chars.next() {
            Some(c) => {
                text.push(c);
                proof {
                    assert(text@ + chars.remaining() =~= all);
                }
            },
            None => {
                proof {
                    assert(text@ =~= all);
                }
                break;
            },
        }
    }
    decode_chars(&text, offset_x, offset_y)
}

fn decode_chars(text: &Vec<char>, offset_x: i64, offset_y: i64) -> (r: Vec<(i64, i64)>)
    ensures
        r@ == decode(text@, offset_x, offset_y).cells,
{
    let mut cells: Vec<(i64, i64)> = Vec::new();
    let mut x = offset_x;
    let mut y = offset_y;
    let mut run_length: i64 = 1;
    let mut run_length_chars: u64 = 0;
    let mut line_start = true;
    let mut header_done = false;
    let mut in_body = false;
    let mut i: usize = 0;
    while i < text.len()
        invariant
            i <= text@.len(),
            0 <= run_length,
            decode(text@.take(i as int), offset_x, offset_y) == (RleState {
                x,
                y,
                run_length,
                run_length_chars,
                line_start,
                header_done,
                in_body,
                cells: cells@,
            }),
        decreases text@.len() - i,
    {
        let c = text[i];
        proof {
            assert(text@.take(i + 1).drop_last() == text@.take(i as int));
            assert(text@.take(i + 1).last() == c);
        }
        let mut body = false;
        if c == '\n' {
            header_done = header_done || line_start;
            line_start = true;
            in_body = false;
        } else if line_start {
            in_body = c != '#' && header_done;
            header_done = header_done || c != '#';
            line_start = false;
            body = in_body;
        } else {
            body = in_body;
        }
        if body {
            let ghost before = cells@;
            if c == 'o' {
                let end = saturating_add(x, run_length);
                let mut cx = x;
                while cx < end
                    invariant
                        x <= cx <= end,
                        cells@ == before + run_cells(x, y, cx - x),
                    decreases end - cx,
                {
                    cells.push((cx, y));
                    proof {
                        assert(cells@ =~= before + run_cells(x, y, cx + 1 - x));
                    }
                    cx = cx + 1;
                }
                x = end;
                run_length_chars = 0;
                run_length = 1;
            } else if c == 'b' {
                x = saturating_add(x, run_length);
                run_length_chars = 0;
                run_length = 1;
            } else if c == '$' {
                y = saturating_add(y, run_length);
                run_length_chars = 0;
                x = offset_x;
                run_length = 1;
            } else if '0' <= c && c <= '9' {
                let n = (c as u32 - '0' as u32) as i64;
                if run_length_chars == 0 {
                    run_length = 0;
                }
                run_length_chars = if run_length_chars < u64::MAX {
                    run_length_chars + 1
                } else {
                    run_length_chars
                };
                run_length = saturating_mul10_add(run_length, n);
            }
        }
        i = i + 1;
    }
    proof {
        assert(text@.take(text@.len() as int) == text@);
    }
    cells
}

} // verus!
