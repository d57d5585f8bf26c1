use crate::csf::model::SurfaceModel;
use crate::csf::particle::Particle;
use crate::csf::surface::ClothSurface;
use vstd::prelude::*;
use vstd::string::StringExecFns;

verus! {

/// The character of a decimal digit.
pub open spec fn digit_char(d: int) -> char {
    if d == 0 {
        '0'
    } else if d == 1 {
        '1'
    } else if d == 2 {
        '2'
    } else if d == 3 {
        '3'
    } else if d == 4 {
        '4'
    } else if d == 5 {
        '5'
    } else if d == 6 {
        '6'
    } else if d == 7 {
        '7'
    } else if d == 8 {
        '8'
    } else {
        '9'
    }
}

/// The decimal digits of a natural number, without leading zeros.
pub open spec fn digits(n: nat) -> Seq<char>
    decreases n,
{
    if n < 10 {
        seq![digit_char(n as int)]
    } else {
        digits(n / 10).push(digit_char((n % 10) as int))
    }
}

/// The fractional part of a number given in thousandths: nothing for zero,
/// else a point and up to three digits, without trailing zeros.
pub open spec fn fraction(thousandths: nat) -> Seq<char>
    recommends
        thousandths < 1000,
{
    let d1 = digit_char((thousandths / 100) as int);
    let d2 = digit_char((thousandths / 10 % 10) as int);
    let d3 = digit_char((thousandths % 10) as int);
    if thousandths == 0 {
        Seq::empty()
    } else if thousandths % 100 == 0 {
        seq!['.', d1]
    } else if thousandths % 10 == 0 {
        seq!['.', d1, d2]
    } else {
        seq!['.', d1, d2, d3]
    }
}

/// The decimal text of a quantity held in thousandths: `12345` reads
/// `12.345`, `-50` reads `-0.05`, `5000` reads `5`.
pub open spec fn decimal(value: int) -> Seq<char> {
    let magnitude: nat = if value < 0 {
        (-value) as nat
    } else {
        value as nat
    };
    let sign: Seq<char> = if value < 0 {
        seq!['-']
    } else {
        Seq::empty()
    };
    sign + digits(magnitude / 1000) + fraction(magnitude % 1000)
}

/// The heights of the first `upto` nodes of a row, separated by single
/// spaces.
pub open spec fn row_text(row: Seq<Particle>, upto: int) -> Seq<char>
    decreases upto,
{
    if upto <= 0 {
        Seq::empty()
    } else if upto == 1 {
        decimal(row[0].z as int)
    } else {
        row_text(row, upto - 1) + seq![' '] + decimal(row[upto - 1].z as int)
    }
}

impl SurfaceModel {
    /// The six header lines of the raster: column count, row count, position
    /// of the first node, distance between nodes, and the value that marks
    /// missing data.
    pub open spec fn asc_header(self) -> Seq<char> {
        "ncols "@ + digits(self.cols() as nat) + "\n"@ + "nrows "@ + digits(self.rows() as nat)
            + "\n"@ + "xllcorner "@ + decimal(self.cells[0][0].x as int) + "\n"@ + "yllcorner "@
            + decimal(self.cells[0][0].y as int) + "\n"@ + "cellsize "@ + decimal(
            self.cell_resolution as int,
        ) + "\n"@ + "NODATA_value -9999\n"@
    }

    /// The first `upto` rows of heights, one line each.
    pub open spec fn asc_rows(self, upto: int) -> Seq<char>
        decreases upto,
    {
        if upto <= 0 {
            Seq::empty()
        } else {
            self.asc_rows(upto - 1) + row_text(self.cells[upto - 1], self.cols()) + "\n"@
        }
    }

    /// The surface as a plain-text raster: the header, then the heights row
    /// by row from the grid's first row, one row per line.
    pub open spec fn asc_text(self) -> Seq<char> {
        self.asc_header() + self.asc_rows(self.rows())
    }
}

/// The one-character text of a decimal digit.
fn digit_str(d: u64) -> (text: &'static str)
    requires
        d < 10,
    ensures
        text@ == seq![digit_char(d as int)],
{
    proof {
        reveal_strlit("0");
        reveal_strlit("1");
        reveal_strlit("2");
        reveal_strlit("3");
        reveal_strlit("4");
        reveal_strlit("5");
        reveal_strlit("6");
        reveal_strlit("7");
        reveal_strlit("8");
        reveal_strlit("9");
    }
    let text = if d == 0 {
        "0"
    } else if d == 1 {
        "1"
    } else if d == 2 {
        "2"
    } else if d == 3 {
        "3"
    } else if d == 4 {
        "4"
    } else if d == 5 {
        "5"
    } else if d == 6 {
        "6"
    } else if d == 7 {
        "7"
    } else if d == 8 {
        "8"
    } else {
        "9"
    };
    assert(text@ =~= seq![digit_char(d as int)]);
    text
}

/// Appends the decimal digits of `n`.
fn push_digits(out: &mut String, n: u64)
    ensures
        final(out)@ == old(out)@ + digits(n as nat),
    decreases n,
{
    if n >= 10 {
        push_digits(out, n / 10);
    }
    out.append(digit_str(n % 10));
    proof {
        assert(out@ =~= old(out)@ + digits(n as nat));
    }
}

/// Appends the fractional part of a number given in thousandths.
fn push_fraction(out: &mut String, thousandths: u64)
    requires
        thousandths < 1000,
    ensures
        final(out)@ == old(out)@ + fraction(thousandths as nat),
{
    proof {
        reveal_strlit(".");
    }
    if thousandths != 0 {
        out.append(".");
        out.append(digit_str(thousandths / 100));
        if thousandths % 100 != 0 {
            out.append(digit_str(thousandths / 10 % 10));
            if thousandths % 10 != 0 {
                out.append(digit_str(thousandths % 10));
            }
        }
    }
    assert(out@ =~= old(out)@ + fraction(thousandths as nat));
}

/// Appends the decimal text of a quantity held in thousandths.
pub fn push_decimal(out: &mut String, value: i64)
    ensures
        final(out)@ == old(out)@ + decimal(value as int),
{
    proof {
        reveal_strlit("-");
    }
    let magnitude: u64 = if value < 0 {
        out.append("-");
        (-(value as i128)) as u64
    } else {
        value as u64
    };
    push_digits(out, magnitude / 1000);
    push_fraction(out, magnitude % 1000);
    assert(out@ =~= old(out)@ + decimal(value as int));
}

impl ClothSurface {
    /// Writes the surface as a plain-text raster: six header lines (`ncols`,
    /// `nrows`, `xllcorner`, `yllcorner`, `cellsize`, `NODATA_value`), then
    /// the heights row by row from the grid's first row, the values of a row
    /// separated by single spaces, one row per line. Quantities are written
    /// in metres.
    pub fn to_asc(&self) -> (text: String)
        requires
            self@.wf(),
        ensures
            text@ == self@.asc_text(),
    {
        let rows = self.nrows();
        let cols = self.ncols();
        let first = self.particle(0, 0);
        let mut out = String::new();
        out.append("ncols ");
        push_digits(&mut out, cols as u64);
        out.append("\n");
        out.append("nrows ");
        push_digits(&mut out, rows as u64);
        out.append("\n");
        out.append("xllcorner ");
        push_decimal(&mut out, first.x);
        out.append("\n");
        out.append("yllcorner ");
        push_decimal(&mut out, first.y);
        out.append("\n");
        out.append("cellsize ");
        push_decimal(&mut out, self.cell_resolution());
        out.append("\n");
        out.append("NODATA_value -9999\n");
        assert(out@ =~= self@.asc_header());
        let mut i: usize = 0;
        while i < rows
            invariant
                i <= rows,
                rows == self@.rows(),
                cols == self@.cols(),
                self@.wf(),
                out@ == self@.asc_header() + self@.asc_rows(i as int),
            decreases rows - i,
        {
            let ghost line_start = out@;
            let mut j: usize = 0;
            while j < cols
                invariant
                    i < rows,
                    j <= cols,
                    rows == self@.rows(),
                    cols == self@.cols(),
                    self@.wf(),
                    out@ == line_start + row_text(self@.cells[i as int], j as int),
                decreases cols - j,
            {
                proof {
                    reveal_strlit(" ");
                }
                if j > 0 {
                    out.append(" ");
                }
                let cell = self.particle(i, j);
                push_decimal(&mut out, cell.z);
                proof {
                    if j > 0 {
                        assert(out@ =~= line_start + (row_text(self@.cells[i as int], j as int)
                            + seq![' '] + decimal(cell.z as int)));
                    } else {
                        assert(row_text(self@.cells[i as int], 0) =~= Seq::<char>::empty());
                        assert(out@ =~= line_start + decimal(cell.z as int));
                    }
                }
                j += 1;
            }
            out.append("\n");
            proof {
                assert(out@ =~= self@.asc_header() + (self@.asc_rows(i as int) + row_text(
                    self@.cells[i as int],
                    cols as int,
                ) + "\n"@));
            }
            i += 1;
        }
        out
    }
}

} // verus!
