use vstd::prelude::*;
use crate::display::color::Color;

verus! {

/// Columns of the logo.
pub const WIDTH: usize = 36;
/// Rows of the logo.
pub const HEIGHT: usize = 16;

/// Row `y` of the logo bitmap, leftmost pixel in bit 35.
pub open spec fn logo_row_spec(y: usize) -> u64 {
    match y {
        0 => 0x1fff03ff0,
        1 => 0x1fff83ffc,
        2 => 0x7f8781f,
        3 => 0x3c37cf70f,
        4 => 0x383bce70f,
        5 => 0x3879fcf1e,
        6 => 0x78f1fcf1c,
        7 => 0x7fe0f8ff8,
        8 => 0xff00f1fc0,
        9 => 0x60000,
        10 => 0x40000,
        11 => 0x7fffffc0,
        12 => 0x3eb6731f8,
        13 => 0xfeb6b75fc,
        14 => 0x1f76731e0,
        _ => 0x3fffff80,
    }
}

/// Whether pixel (`x`, `y`) of the logo is lit.
pub open spec fn logo_pixel(x: int, y: int) -> bool {
    (logo_row_spec(y as usize) >> (35 - x) as u64) & 1u64 == 1u64
}

fn logo_row(y: usize) -> (r: u64)
    requires
        y < HEIGHT,
    ensures
        r == logo_row_spec(y),
{
    match y {
        0 => 0x1fff03ff0,
        1 => 0x1fff83ffc,
        2 => 0x7f8781f,
        3 => 0x3c37cf70f,
        4 => 0x383bce70f,
        5 => 0x3879fcf1e,
        6 => 0x78f1fcf1c,
        7 => 0x7fe0f8ff8,
        8 => 0xff00f1fc0,
        9 => 0x60000,
        10 => 0x40000,
        11 => 0x7fffffc0,
        12 => 0x3eb6731f8,
        13 => 0xfeb6b75fc,
        14 => 0x1f76731e0,
        _ => 0x3fffff80,
    }
}

/// The logo in `color` on black, as `HEIGHT` rows of `WIDTH` pixels: each
/// lit pixel is `color`, each other one has value 0, i.e. is black.
pub fn make_dvd_logo(color: Color) -> (logo: Vec<Vec<Color>>)
    ensures
        logo@.len() == HEIGHT,
        forall|y: int| 0 <= y < HEIGHT ==> #[trigger] logo@[y]@.len() == WIDTH,
        forall|y: int, x: int|
            0 <= y < HEIGHT && 0 <= x < WIDTH ==> if logo_pixel(x, y) {
                #[trigger] logo@[y]@[x] == color
            } else {
                logo@[y]@[x].value() == 0
            },
{
    let mut logo: Vec<Vec<Color>> = Vec::new();
    let mut y: usize = 0;
    while y < HEIGHT
        invariant
            y <= HEIGHT,
            logo@.len() == y,
            forall|j: int| 0 <= j < y ==> #[trigger] logo@[j]@.len() == WIDTH,
            forall|j: int, x: int|
                0 <= j < y && 0 <= x < WIDTH ==> if logo_pixel(x, j) {
                    #[trigger] logo@[j]@[x] == color
                } else {
                    logo@[j]@[x].value() == 0
                },
        decreases HEIGHT - y,
    {
        let bits = logo_row(y);
        let mut row: Vec<Color> = Vec::new();
        let mut x: usize = 0;
        while x < WIDTH
            invariant
                y < HEIGHT,
                bits == logo_row_spec(y),
                x <= WIDTH,
                row@.len() == x,
                forall|i: int| 0 <= i < x ==> if logo_pixel(i, y as int) {
                    #[trigger] row@[i] == color
                } else {
                    row@[i].value() == 0
                },
            decreases WIDTH - x,
        {
            if (bits >> (35 - x) as u64) & 1 == 1 {
                row.push(color);
            } else {
                row.push(Color::black());
            }
            x += 1;
        }
        logo.push(row);
        y += 1;
    }
    logo
}

} // verus!
