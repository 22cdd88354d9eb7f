//! The pattern of the color filters in front of a sensor.
use vstd::prelude::*;
use crate::text::{decimal, push_with, with_number};
use crate::tiff::TiffEntry;

verus! {

/// A pattern of color filters that repeats over the sensor. A pattern without filters stands for a
/// sensor that has none.
#[derive(Debug)]
pub struct CFA {
    /// The letters of the colors, row by row.
    pub name: String,
    pub width: usize,
    pub height: usize,
}

/// The contents of a [`CFA`].
pub struct Pattern {
    pub name: Seq<char>,
    pub width: nat,
    pub height: nat,
}

impl View for CFA {
    type V = Pattern;

    open spec fn view(&self) -> Pattern {
        Pattern { name: self.name@, width: self.width as nat, height: self.height as nat }
    }
}

/// The width and the height of a pattern that is given by its letters alone.
pub open spec fn pattern_size(len: nat) -> Option<(nat, nat)> {
    if len == 0 {
        Some((0, 0))
    } else if len == 4 {
        Some((2, 2))
    } else if len == 16 {
        Some((2, 8))
    } else if len == 36 {
        Some((6, 6))
    } else if len == 144 {
        Some((12, 12))
    } else {
        None
    }
}

/// The letter of a color of a file.
pub open spec fn color_letter(color: u32) -> Option<char> {
    match color {
        0 => Some('R'),
        1 => Some('G'),
        2 => Some('B'),
        _ => None,
    }
}

impl Pattern {
    /// There is a letter for every place.
    pub open spec fn wf(self) -> bool {
        self.name.len() == self.width * self.height
    }

    /// The color in a row and a column of the sensor.
    pub open spec fn color_at(self, row: int, col: int) -> char {
        self.name[(row % self.height as int) * self.width + col % self.width as int]
    }

    /// The pattern that starts `x` columns and `y` rows into this one.
    pub open spec fn shifted(self, x: int, y: int) -> Pattern {
        Pattern {
            name: Seq::new(
                self.width * self.height,
                |i: int| self.color_at(i / self.width as int + y, i % self.width as int + x),
            ),
            ..self
        }
    }

    /// The pattern of the whole sensor, where this one starts in row `top` and column `left`.
    pub open spec fn aligned(self, top: int, left: int) -> Pattern {
        let w = self.width as int;
        let h = self.height as int;
        if w == 0 || h == 0 {
            self
        } else {
            self.shifted((w - left % w) % w, (h - top % h) % h)
        }
    }
}

/// The pattern of an entry that lists its colors row by row, or why it has none.
pub open spec fn tag_pattern(entry: TiffEntry, width: nat, height: nat) -> Result<
    Pattern,
    Seq<char>,
> {
    if width == 0 || height == 0 {
        Err(
            "DNG: CFA repeat dimensions "@ + decimal(width) + "x"@ + decimal(height)
                + " are invalid"@,
        )
    } else if entry.count() != width * height {
        Err(
            "DNG: CFA pattern has "@ + decimal(entry.count() as nat) + " values for "@ + decimal(
                width,
            ) + "x"@ + decimal(height) + " filters"@,
        )
    } else {
        tag_letters(entry, width, height, entry.count() as nat)
    }
}

/// The first `n` letters of the pattern of an entry, or the first color that has none.
pub open spec fn tag_letters(entry: TiffEntry, width: nat, height: nat, n: nat) -> Result<
    Pattern,
    Seq<char>,
>
    decreases n,
{
    if n == 0 {
        Ok(Pattern { name: seq![], width, height })
    } else {
        match tag_letters(entry, width, height, (n - 1) as nat) {
            Err(message) => Err(message),
            Ok(before) => match color_letter(entry.integer(n - 1)) {
                Some(letter) => Ok(Pattern { name: before.name.push(letter), ..before }),
                None => Err(
                    "DNG: CFA color "@ + decimal(entry.integer(n - 1) as nat)
                        + " is not supported"@,
                ),
            },
        }
    }
}

/// A place of a pattern lies among its letters.
proof fn lemma_place(p: Pattern, row: int, col: int)
    requires
        p.wf(),
        p.width > 0,
        p.height > 0,
    ensures
        0 <= (row % p.height as int) * p.width + col % p.width as int,
        (row % p.height as int) * p.width + col % (p.width as int) < p.name.len(),
{
    let r = row % p.height as int;
    let c = col % p.width as int;
    let w = p.width as int;
    let h = p.height as int;
    assert(0 <= r * w && r * w + c < w * h) by (nonlinear_arith)
        requires
            0 <= r < h,
            0 <= c < w,
    ;
}

/// The letter of a shifted pattern at a place.
pub proof fn lemma_shifted(p: Pattern, x: int, y: int, row: int, col: int)
    requires
        p.wf(),
        p.width > 0,
        p.height > 0,
    ensures
        p.shifted(x, y).wf(),
        p.shifted(x, y).color_at(row, col) == p.color_at(row + y, col + x),
{
    let w = p.width as int;
    let h = p.height as int;
    let r = row % h;
    let c = col % w;
    let i = r * w + c;
    lemma_place(p, row, col);
    vstd::arithmetic::div_mod::lemma_fundamental_div_mod_converse(i, w, r, c);
    vstd::arithmetic::div_mod::lemma_add_mod_noop(row, y, h);
    vstd::arithmetic::div_mod::lemma_add_mod_noop(r, y, h);
    vstd::arithmetic::div_mod::lemma_mod_twice(row, h);
    vstd::arithmetic::div_mod::lemma_add_mod_noop(col, x, w);
    vstd::arithmetic::div_mod::lemma_add_mod_noop(c, x, w);
    vstd::arithmetic::div_mod::lemma_mod_twice(col, w);
}

/// A row or a column of an aligned pattern, counted from the start of the area, comes from the same
/// row or column of the pattern.
proof fn lemma_aligned_axis(n: int, start: int, i: int)
    requires
        n > 0,
    ensures
        (start + i + (n - start % n) % n) % n == i % n,
{
    let s = (n - start % n) % n;
    vstd::arithmetic::div_mod::lemma_fundamental_div_mod(start, n);
    let q = start / n;
    assert(start + s == n * q || start + s == n * (q + 1)) by {
        if start % n == 0 {
            vstd::arithmetic::div_mod::lemma_mod_self_0(n);
        } else {
            vstd::arithmetic::div_mod::lemma_small_mod((n - start % n) as nat, n as nat);
            assert(n * (q + 1) == n * q + n) by (nonlinear_arith);
        }
    }
    if start + s == n * q {
        vstd::arithmetic::div_mod::lemma_mod_multiples_vanish(q, i, n);
        assert(n * q + i == start + i + s);
    } else {
        vstd::arithmetic::div_mod::lemma_mod_multiples_vanish(q + 1, i, n);
        assert(n * (q + 1) + i == start + i + s);
    }
}

/// An aligned pattern has, at every place of the area, the color of the pattern there.
pub proof fn aligned_pattern_keeps_its_phase(p: Pattern, top: int, left: int, row: int, col: int)
    requires
        p.wf(),
        p.width > 0,
        p.height > 0,
    ensures
        p.aligned(top, left).color_at(top + row, left + col) == p.color_at(row, col),
{
    let w = p.width as int;
    let h = p.height as int;
    let x = (w - left % w) % w;
    let y = (h - top % h) % h;
    lemma_shifted(p, x, y, top + row, left + col);
    lemma_aligned_axis(h, top, row);
    lemma_aligned_axis(w, left, col);
}

/// An area that starts at a multiple of the pattern has the pattern of the whole sensor.
pub proof fn aligned_pattern_at_a_multiple(p: Pattern, top: int, left: int)
    requires
        p.wf(),
        p.width > 0,
        p.height > 0,
        top % p.height as int == 0,
        left % p.width as int == 0,
    ensures
        p.aligned(top, left) == p,
{
    let w = p.width as int;
    let h = p.height as int;
    vstd::arithmetic::div_mod::lemma_mod_self_0(w);
    vstd::arithmetic::div_mod::lemma_mod_self_0(h);
    let q = p.aligned(top, left);
    assert forall|i: int| 0 <= i < p.name.len() implies q.name[i] == #[trigger] p.name[i] by {
        vstd::arithmetic::div_mod::lemma_fundamental_div_mod(i, w);
        vstd::arithmetic::div_mod::lemma_div_pos_is_pos(i, w);
        vstd::arithmetic::mul::lemma_mul_is_commutative(w, i / w);
        assert(i / w < h) by (nonlinear_arith)
            requires
                i == (i / w) * w + i % w,
                0 <= i % w,
                i < w * h,
                w > 0,
        ;
        vstd::arithmetic::div_mod::lemma_small_mod((i / w) as nat, h as nat);
        vstd::arithmetic::div_mod::lemma_small_mod((i % w) as nat, w as nat);
    }
    assert(q.name =~= p.name);
}

impl CFA {
    /// The pattern with the given letters.
    pub fn new(patname: &str) -> (cfa: CFA)
        requires
            pattern_size(patname@.len()) is Some,
        ensures
            cfa@.wf(),
            cfa@.name == patname@,
            pattern_size(patname@.len()) == Some((cfa@.width, cfa@.height)),
    {
        let (width, height): (usize, usize) = match patname.unicode_len() {
            0 => (0, 0),
            4 => (2, 2),
            16 => (2, 8),
            36 => (6, 6),
            _ => (12, 12),
        };
        let ghost len = patname@.len();
        assert(width * height == len) by (nonlinear_arith)
            requires
                pattern_size(len) == Some((width as nat, height as nat)),
        {
            assert(0nat * 0 == 0 && 2nat * 2 == 4 && 2nat * 8 == 16 && 6nat * 6 == 36 && 12nat * 12
                == 144);
        }
        CFA { name: patname.to_string(), width, height }
    }

    /// The pattern of an entry that lists its colors row by row.
    pub fn new_from_tag(entry: &TiffEntry, width: usize, height: usize) -> (res: Result<CFA, String>)
        ensures
            match (res, tag_pattern(*entry, width as nat, height as nat)) {
                (Ok(cfa), Ok(pattern)) => cfa@ == pattern && pattern.wf() && cfa.width
                    * cfa.height <= usize::MAX,
                (Err(text), Err(message)) => text@ == message,
                _ => false,
            },
    {
        if width == 0 || height == 0 {
            let mut text: String = with_number("DNG: CFA repeat dimensions ", width, "x");
            push_with(&mut text, height, " are invalid");
            return Err(text);
        }
        let count: usize = entry.count();
        let matches: bool = match width.checked_mul(height) {
            Some(filters) => count == filters,
            None => false,
        };
        if !matches {
            let mut text: String = with_number("DNG: CFA pattern has ", count, " values for ");
            push_with(&mut text, width, "x");
            push_with(&mut text, height, " filters");
            return Err(text);
        }
        let mut name: String = String::new();
        let mut n: usize = 0;
        proof {
            reveal_strlit("R");
            reveal_strlit("G");
            reveal_strlit("B");
        }
        while n < count
            invariant
                n <= count,
                count == entry.count(),
                count == width * height,
                width > 0,
                height > 0,
                "R"@ =~= seq!['R'],
                "G"@ =~= seq!['G'],
                "B"@ =~= seq!['B'],
                name@.len() == n,
                tag_letters(*entry, width as nat, height as nat, n as nat) == Ok::<
                    Pattern,
                    Seq<char>,
                >((Pattern { name: name@, width: width as nat, height: height as nat })),
            decreases count - n,
        {
            let color: u32 = entry.get_u32(n);
            let ghost before = name@;
            assert(tag_letters(*entry, width as nat, height as nat, ((n + 1) - 1) as nat) is Ok);
            match color {
                0 => {
                    name.append("R");
                    assert(name@ =~= before.push('R'));
                },
                1 => {
                    name.append("G");
                    assert(name@ =~= before.push('G'));
                },
                2 => {
                    name.append("B");
                    assert(name@ =~= before.push('B'));
                },
                _ => {
                    let text: String = with_number(
                        "DNG: CFA color ",
                        color as usize,
                        " is not supported",
                    );
                    proof {
                        lemma_letters_end(
                            *entry,
                            width as nat,
                            height as nat,
                            (n + 1) as nat,
                            count as nat,
                        );
                    }
                    return Err(text);
                },
            }
            n = n + 1;
        }
        Ok(CFA { name, width, height })
    }

    /// The letter of the color in a row and a column of the sensor.
    pub fn color_at(&self, row: usize, col: usize) -> (letter: char)
        requires
            self@.wf(),
            self.width > 0,
            self.height > 0,
            self.width * self.height <= usize::MAX,
        ensures
            letter == self@.color_at(row as int, col as int),
    {
        proof {
            lemma_place(self@, row as int, col as int);
            assert(0 <= (row as int % self.height as int) * self.width) by (nonlinear_arith)
                requires
                    0 <= row as int % self.height as int,
            ;
        }
        self.name.as_str().get_char((row % self.height) * self.width + col % self.width)
    }

    /// The pattern that starts `x` columns and `y` rows into this one.
    pub fn shift(&self, x: usize, y: usize) -> (cfa: CFA)
        requires
            self@.wf(),
            self.width > 0,
            self.height > 0,
            self.width * self.height <= usize::MAX,
        ensures
            cfa@ == self@.shifted(x as int, y as int),
            cfa@.wf(),
    {
        let width: usize = self.width;
        let height: usize = self.height;
        let count: usize = width * height;
        let mut name: String = String::new();
        let ghost all = self@.shifted(x as int, y as int).name;
        let mut i: usize = 0;
        while i < count
            invariant
                i <= count,
                count == width * height,
                width == self.width,
                height == self.height,
                width > 0,
                height > 0,
                self@.wf(),
                all == self@.shifted(x as int, y as int).name,
                name@ =~= all.take(i as int),
            decreases count - i,
        {
            let row: usize = (i / width) % height;
            let col: usize = i % width;
            proof {
                let h = height as int;
                let w = width as int;
                vstd::arithmetic::div_mod::lemma_add_mod_noop(i as int / w, y as int, h);
                vstd::arithmetic::div_mod::lemma_add_mod_noop(col as int, x as int, w);
                vstd::arithmetic::div_mod::lemma_small_mod(col as nat, w as nat);
                lemma_place(self@, i as int / w + y, col + x);
            }
            let from_row: usize = wrapped(row, y % height, height);
            let from_col: usize = wrapped(col, x % width, width);
            proof {
                assert(0 <= from_row * width) by (nonlinear_arith);
            }
            let at: usize = from_row * width + from_col;
            name.append(self.name.as_str().substring_char(at, at + 1));
            assert(all[i as int] == self.name@[at as int]);
            i = i + 1;
        }
        assert(name@ =~= all);
        CFA { name, width, height }
    }
}

proof fn lemma_letters_end(entry: TiffEntry, width: nat, height: nat, k: nat, n: nat)
    requires
        k <= n,
        tag_letters(entry, width, height, k) is Err,
    ensures
        tag_letters(entry, width, height, n) == tag_letters(entry, width, height, k),
    decreases n,
{
    if k < n {
        lemma_letters_end(entry, width, height, k, (n - 1) as nat);
    }
}

/// The sum of two numbers below `n`, reduced to a number below `n`.
fn wrapped(a: usize, b: usize, n: usize) -> (c: usize)
    requires
        a < n,
        b < n,
    ensures
        c == (a + b) % n as int,
        c < n,
{
    proof {
        if a + b >= n {
            vstd::arithmetic::div_mod::lemma_fundamental_div_mod_converse(
                a + b,
                n as int,
                1,
                a + b - n,
            );
        } else {
            vstd::arithmetic::div_mod::lemma_small_mod((a + b) as nat, n as nat);
        }
    }
    if a >= n - b {
        a - (n - b)
    } else {
        a + b
    }
}

/// The pattern of the whole sensor. The pattern of a DNG file starts at the top left of the active
/// area, while pixels are those of the whole sensor.
pub fn align_cfa_to_sensor_origin(cfa: CFA, active_top: usize, active_left: usize) -> (aligned: CFA)
    requires
        cfa@.wf(),
        cfa.width * cfa.height <= usize::MAX,
    ensures
        aligned@ == cfa@.aligned(active_top as int, active_left as int),
        aligned@.wf(),
{
    if cfa.width == 0 || cfa.height == 0 {
        return cfa;
    }
    let shift_x: usize = (cfa.width - active_left % cfa.width) % cfa.width;
    let shift_y: usize = (cfa.height - active_top % cfa.height) % cfa.height;
    cfa.shift(shift_x, shift_y)
}

} // verus!
