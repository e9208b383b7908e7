//! A rectangle of pixels and its plain text image.
use vstd::prelude::*;
use vstd::string::*;
use crate::color::{channel, channel_level, Color, DefaultColors};

verus! {

/// What a canvas holds: its sizes, and its pixels row by row from the upper
/// left corner, so that the pixel at `(x, y)` stands at `x + y * width`.
pub struct Grid {
    pub width: nat,
    pub height: nat,
    pub pixels: Seq<Color>,
}

impl Grid {
    /// Whether `(x, y)` is a position on the canvas.
    pub open spec fn contains(self, x: int, y: int) -> bool {
        0 <= x < self.width && 0 <= y < self.height
    }

    /// Where the pixel at `(x, y)` stands among the pixels.
    pub open spec fn index(self, x: int, y: int) -> int {
        x + y * self.width
    }
}

/// The character of a digit.
pub open spec fn digit(d: nat) -> char {
    if d == 0 {
        '0'
    } else if d == 1 {
        '1'
    } else if d == 2 {
        '2'
    } else if d == 3 {
        '3'
    } else if d == 4 {
        '4'
    } else if d == 5 {
        '5'
    } else if d == 6 {
        '6'
    } else if d == 7 {
        '7'
    } else if d == 8 {
        '8'
    } else {
        '9'
    }
}

/// A number in decimal digits, without leading zeros.
pub open spec fn decimal(n: nat) -> Seq<char>
    decreases n,
{
    if n < 10 {
        seq![digit(n)]
    } else {
        decimal(n / 10).push(digit(n % 10))
    }
}

/// The magic token, the sizes and the greatest level, each on a line of its
/// own; the last line is left open.
pub open spec fn header(width: nat, height: nat) -> Seq<char> {
    seq!['P', '3', '\n'] + decimal(width) + seq![' '] + decimal(height) + seq![
        '\n',
        '2',
        '5',
        '5',
    ]
}

/// The three levels of a color, separated by single spaces.
pub open spec fn triplet(c: Color) -> Seq<char> {
    decimal(channel_level(c.r)) + seq![' '] + decimal(channel_level(c.g)) + seq![' '] + decimal(
        channel_level(c.b),
    )
}

/// What comes before the pixel at an index: every fifth pixel begins a new
/// line, the others follow a space.
pub open spec fn separator(index: int) -> Seq<char> {
    if index % 5 == 0 {
        seq!['\n']
    } else {
        seq![' ']
    }
}

/// The pixels in order, each after its separator.
pub open spec fn body(pixels: Seq<Color>) -> Seq<char>
    decreases pixels.len(),
{
    if pixels.len() == 0 {
        Seq::empty()
    } else {
        body(pixels.drop_last()) + separator(pixels.len() - 1) + triplet(pixels.last())
    }
}

/// The plain text image of a canvas.
pub open spec fn ppm_text(grid: Grid) -> Seq<char> {
    header(grid.width, grid.height) + body(grid.pixels) + seq!['\n']
}

/// Appends a digit.
fn push_digit(out: &mut String, d: usize)
    requires
        d < 10,
    ensures
        final(out)@ == old(out)@.push(digit(d as nat)),
{
    proof {
        reveal_strlit("0");
        reveal_strlit("1");
        reveal_strlit("2");
        reveal_strlit("3");
        reveal_strlit("4");
        reveal_strlit("5");
        reveal_strlit("6");
        reveal_strlit("7");
        reveal_strlit("8");
        reveal_strlit("9");
    }
    let text = if d == 0 {
        "0"
    } else if d == 1 {
        "1"
    } else if d == 2 {
        "2"
    } else if d == 3 {
        "3"
    } else if d == 4 {
        "4"
    } else if d == 5 {
        "5"
    } else if d == 6 {
        "6"
    } else if d == 7 {
        "7"
    } else if d == 8 {
        "8"
    } else {
        "9"
    };
    assert(text@ =~= seq![digit(d as nat)]);
    out.append(text);
    assert(out@ =~= old(out)@.push(digit(d as nat)));
}

/// Appends a number in decimal digits.
pub fn push_decimal(out: &mut String, n: usize)
    ensures
        final(out)@ == old(out)@ + decimal(n as nat),
    decreases n,
{
    if n >= 10 {
        push_decimal(out, n / 10);
    }
    push_digit(out, n % 10);
    assert(out@ =~= old(out)@ + decimal(n as nat));
}

/// Appends the three levels of a color.
pub fn push_triplet(out: &mut String, c: &Color)
    ensures
        final(out)@ == old(out)@ + triplet(*c),
{
    proof {
        reveal_strlit(" ");
    }
    push_decimal(out, channel(c.r) as usize);
    out.append(" ");
    push_decimal(out, channel(c.g) as usize);
    out.append(" ");
    push_decimal(out, channel(c.b) as usize);
    assert(out@ =~= old(out)@ + triplet(*c));
}

/// A rectangle of pixels, each of them a color.
pub struct Canvas {
    canvas: Vec<Color>,
    width: usize,
    height: usize,
}

impl View for Canvas {
    type V = Grid;

    closed spec fn view(&self) -> Grid {
        Grid { width: self.width as nat, height: self.height as nat, pixels: self.canvas@ }
    }
}

impl Canvas {
    #[verifier::type_invariant]
    spec fn well_formed(&self) -> bool {
        self.canvas@.len() == self.width * self.height
    }

    /// A canvas of the given sizes, every pixel black. The number of its
    /// pixels has to fit the machine's word.
    pub fn new(width: usize, height: usize) -> (c: Canvas)
        requires
            width * height <= usize::MAX,
        ensures
            c@.width == width,
            c@.height == height,
            c@.pixels == Seq::new((width * height) as nat, |i: int| Color::spec_black()),
    {
        let canvas = vec![Color::black(); width * height];
        assert(canvas@ =~= Seq::new((width * height) as nat, |i: int| Color::spec_black()));
        Canvas { canvas, width, height }
    }

    /// The number of pixels in a row.
    pub fn width(&self) -> (w: usize)
        ensures
            w == self@.width,
    {
        self.width
    }

    /// The number of rows.
    pub fn height(&self) -> (h: usize)
        ensures
            h == self@.height,
    {
        self.height
    }

    /// The pixel at `(x, y)`, where `x` counts from the left and `y` from the
    /// top; `None` where the position is not on the canvas.
    pub fn pixel_at(&self, x: usize, y: usize) -> (p: Option<&Color>)
        ensures
            self@.pixels.len() == self@.width * self@.height,
            self@.contains(x as int, y as int) ==> 0 <= self@.index(x as int, y as int)
                < self@.pixels.len() && p == Some(&self@.pixels[self@.index(x as int, y as int)]),
            !self@.contains(x as int, y as int) ==> p.is_none(),
    {
        proof {
            use_type_invariant(self);
        }
        let n = self.canvas.len();
        if x < self.width && y < self.height {
            proof {
                lemma_index_bound(x as int, y as int, self.width as int, self.height as int);
            }
            Some(&self.canvas[x + y * self.width])
        } else {
            None
        }
    }

    /// Sets the pixel at `(x, y)`; does nothing where the position is not on
    /// the canvas.
    pub fn write_pixel(&mut self, x: usize, y: usize, color: Color)
        ensures
            final(self)@.width == old(self)@.width,
            final(self)@.height == old(self)@.height,
            final(self)@.pixels.len() == old(self)@.pixels.len(),
            old(self)@.contains(x as int, y as int) ==> final(self)@.pixels == old(
                self,
            )@.pixels.update(old(self)@.index(x as int, y as int), color),
            !old(self)@.contains(x as int, y as int) ==> final(self)@.pixels == old(self)@.pixels,
    {
        proof {
            use_type_invariant(&*self);
        }
        let n = self.canvas.len();
        if x < self.width && y < self.height {
            proof {
                lemma_index_bound(x as int, y as int, self.width as int, self.height as int);
            }
            let i = x + y * self.width;
            self.canvas[i] = color;
        }
    }

    /// The plain text image of the canvas.
    pub fn to_ppm(&self) -> (text: String)
        ensures
            text@ == ppm_text(self@),
    {
        proof {
            reveal_strlit("P3\n");
            reveal_strlit(" ");
            reveal_strlit("\n255");
            reveal_strlit("\n");
        }
        let mut out = String::from_str("P3\n");
        push_decimal(&mut out, self.width);
        out.append(" ");
        push_decimal(&mut out, self.height);
        out.append("\n255");
        assert(out@ =~= header(self@.width, self@.height));
        let n = self.canvas.len();
        let mut i: usize = 0;
        while i < n
            invariant
                i <= n,
                n == self.canvas@.len(),
                out@ == header(self@.width, self@.height) + body(self.canvas@.subrange(0, i as int)),
            decreases n - i,
        {
            let ghost before = out@;
            proof {
                reveal_strlit(" ");
                reveal_strlit("\n");
            }
            if i % 5 == 0 {
                out.append("\n");
            } else {
                out.append(" ");
            }
            let ghost mid = out@;
            assert(mid =~= before + separator(i as int));
            push_triplet(&mut out, &self.canvas[i]);
            proof {
                let done = self.canvas@.subrange(0, i as int + 1);
                let head = header(self@.width, self@.height);
                let part = body(self.canvas@.subrange(0, i as int));
                let sep = separator(i as int);
                let tri = triplet(self.canvas@[i as int]);
                assert(out@ == ((head + part) + sep) + tri);
                assert(((head + part) + sep) + tri =~= head + ((part + sep) + tri));
                assert(done.drop_last() =~= self.canvas@.subrange(0, i as int));
                assert(body(done) == body(done.drop_last()) + separator(i as int) + triplet(
                    self.canvas@[i as int],
                ));
                assert(out@ =~= header(self@.width, self@.height) + body(done));
            }
            i = i + 1;
        }
        assert(self.canvas@.subrange(0, n as int) =~= self.canvas@);
        out.append("\n");
        assert(out@ =~= ppm_text(self@));
        out
    }
}

/// A position on the canvas stands among the pixels.
proof fn lemma_index_bound(x: int, y: int, width: int, height: int)
    by (nonlinear_arith)
    requires
        0 <= x < width,
        0 <= y < height,
    ensures
        0 <= y * width,
        0 <= x + y * width < width * height,
{
}

} // verus!
