//! Which rows of an image its scan lines are.

use vstd::prelude::*;
use crate::headers::IhdrData;
use crate::png::Image;
use crate::scan::{
    column_step, drawn_from, effective_pass, first_column, first_row, fits, lemma_drawn_columns,
    line_bytes, line_fits, lines_from, pass_after, pass_columns, row_step, Line, ScanLine,
};

verus! {

/// How many of the numbers below `size` leave the remainder `first` when divided by `step`.
pub open spec fn places(size: nat, first: nat, step: nat) -> nat
    decreases size,
{
    if size == 0 {
        0
    } else if (size - 1) as nat % step == first {
        places((size - 1) as nat, first, step) + 1
    } else {
        places((size - 1) as nat, first, step)
    }
}

/// The rows that the Adam7 passes draw, each with its pass, from row `y` of pass `number` on: pass by
/// pass, and in a pass that has columns at all, from top to bottom, each row at which the pass has
/// pixels.
pub open spec fn adam7_rows_from(ihdr: IhdrData, number: u8, y: nat) -> Seq<(u8, nat)>
    decreases 8 - number, ihdr.height - y,
{
    if number > 7 {
        Seq::empty()
    } else if y >= ihdr.height || pass_columns(ihdr.width as nat, number) == 0 {
        adam7_rows_from(ihdr, (number + 1) as u8, 0)
    } else if y % row_step(number) == first_row(number) {
        seq![(number, y)] + adam7_rows_from(ihdr, number, y + 1)
    } else {
        adam7_rows_from(ihdr, number, y + 1)
    }
}

/// All rows that the Adam7 passes draw, each with its pass.
pub open spec fn adam7_rows(ihdr: IhdrData) -> Seq<(u8, nat)> {
    adam7_rows_from(ihdr, 1, 0)
}

/// The number of bytes in a line of an Adam7 pass, its filter byte not counted.
pub open spec fn pass_line_bytes(ihdr: IhdrData, number: u8) -> nat {
    (pass_columns(ihdr.width as nat, number) * ihdr.bits_per_pixel() + 7) / 8
}

/// The number of bytes of raw data that the given rows make up.
pub open spec fn rows_bytes(ihdr: IhdrData, rows: Seq<(u8, nat)>) -> nat
    decreases rows.len(),
{
    if rows.len() == 0 {
        0
    } else {
        1 + pass_line_bytes(ihdr, rows[0].0) + rows_bytes(ihdr, rows.drop_first())
    }
}

/// The number of columns of each pass.
proof fn lemma_columns(width: nat, number: u8)
    requires
        1 <= number <= 7,
    ensures
        pass_columns(width, number) == match number {
            1 => (width + 7) / 8,
            2 => (width + 3) / 8,
            3 => (width + 3) / 4,
            4 => (width + 1) / 4,
            5 => (width + 1) / 2,
            6 => width / 2,
            _ => width,
        },
{
}

/// One more column of the image is one more of a pass exactly if the pass has pixels there.
#[verifier::rlimit(40)]
proof fn lemma_one_more_column(last: nat, number: u8)
    requires
        1 <= number <= 7,
    ensures
        pass_columns(last + 1, number) == pass_columns(last, number) + if last % column_step(number)
            == first_column(number) {
            1nat
        } else {
            0
        },
{
    lemma_columns(last, number);
    lemma_columns(last + 1, number);
    lemma_rounded_steps(last);
}

/// Where a rounded quotient grows.
proof fn lemma_rounded_steps(n: nat)
    ensures
        (n + 8) / 8 == (n + 7) / 8 + if n % 8 == 0 { 1nat } else { 0 },
        (n + 4) / 8 == (n + 3) / 8 + if n % 8 == 4 { 1nat } else { 0 },
        (n + 4) / 4 == (n + 3) / 4 + if n % 4 == 0 { 1nat } else { 0 },
        (n + 2) / 4 == (n + 1) / 4 + if n % 4 == 2 { 1nat } else { 0 },
        (n + 2) / 2 == (n + 1) / 2 + if n % 2 == 0 { 1nat } else { 0 },
        (n + 1) / 2 == n / 2 + if n % 2 == 1 { 1nat } else { 0 },
        n % 1 == 0,
{
}

/// The columns that a pass draws are those of the image at which the pass has pixels.
pub proof fn pass_columns_count_columns(width: nat, number: u8)
    requires
        1 <= number <= 7,
    ensures
        pass_columns(width, number) == places(width, first_column(number), column_step(number)),
    decreases width,
{
    if width > 0 {
        let last = (width - 1) as nat;
        pass_columns_count_columns(last, number);
        lemma_one_more_column(last, number);
    }
}

/// A row with its pass is listed exactly if the image has the row, the pass has columns in the
/// image, and the pass has pixels at the row.
pub proof fn adam7_rows_are_the_drawn_rows(ihdr: IhdrData, number: u8, y: nat)
    ensures
        adam7_rows(ihdr).contains((number, y)) <==> {
            &&& 1 <= number <= 7
            &&& y < ihdr.height
            &&& pass_columns(ihdr.width as nat, number) > 0
            &&& y % row_step(number) == first_row(number)
        },
{
    lemma_listed(ihdr, 1, 0, number, y);
}

/// The rows are listed pass by pass, and from top to bottom in a pass, so none is listed twice.
pub proof fn adam7_rows_ascend(ihdr: IhdrData, i: int, j: int)
    requires
        0 <= i < j < adam7_rows(ihdr).len(),
    ensures
        ({
            let (a, b) = (adam7_rows(ihdr)[i], adam7_rows(ihdr)[j]);
            a.0 < b.0 || a.0 == b.0 && a.1 < b.1
        }),
{
    lemma_ascend(ihdr, 1, 0, i, j);
}

/// The row is one that is drawn, and it does not come before row `y` of pass `number`.
spec fn drawn_after(ihdr: IhdrData, number: u8, y: nat, row: (u8, nat)) -> bool {
    &&& number < row.0 || number == row.0 && y <= row.1
    &&& row.0 <= 7
    &&& row.1 < ihdr.height
    &&& pass_columns(ihdr.width as nat, row.0) > 0
    &&& row.1 % row_step(row.0) == first_row(row.0)
}

proof fn lemma_listed(ihdr: IhdrData, number: u8, y: nat, p: u8, z: nat)
    ensures
        adam7_rows_from(ihdr, number, y).contains((p, z)) <==> drawn_after(ihdr, number, y, (p, z)),
    decreases 8 - number, ihdr.height - y,
{
    let list = adam7_rows_from(ihdr, number, y);
    if number > 7 {
    } else if y >= ihdr.height || pass_columns(ihdr.width as nat, number) == 0 {
        lemma_listed(ihdr, (number + 1) as u8, 0, p, z);
    } else {
        lemma_listed(ihdr, number, y + 1, p, z);
        if y % row_step(number) == first_row(number) {
            let rest = adam7_rows_from(ihdr, number, y + 1);
            assert(list[0] == (number, y));
            if rest.contains((p, z)) {
                let k = choose|k: int| 0 <= k < rest.len() && rest[k] == (p, z);
                assert(list[k + 1] == (p, z));
            }
            if list.contains((p, z)) && (p, z) != (number, y) {
                let k = choose|k: int| 0 <= k < list.len() && list[k] == (p, z);
                assert(rest[k - 1] == (p, z));
            }
        }
    }
}

proof fn lemma_ascend(ihdr: IhdrData, number: u8, y: nat, i: int, j: int)
    requires
        0 <= i < j < adam7_rows_from(ihdr, number, y).len(),
    ensures
        ({
            let list = adam7_rows_from(ihdr, number, y);
            list[i].0 < list[j].0 || list[i].0 == list[j].0 && list[i].1 < list[j].1
        }),
    decreases 8 - number, ihdr.height - y,
{
    let list = adam7_rows_from(ihdr, number, y);
    if y >= ihdr.height || pass_columns(ihdr.width as nat, number) == 0 {
        lemma_ascend(ihdr, (number + 1) as u8, 0, i, j);
    } else if y % row_step(number) == first_row(number) {
        let rest = adam7_rows_from(ihdr, number, y + 1);
        assert(list[j] == rest[j - 1]);
        if i > 0 {
            assert(list[i] == rest[i - 1]);
            lemma_ascend(ihdr, number, y + 1, i - 1, j - 1);
        } else {
            let (p, z) = rest[j - 1];
            assert(rest.contains((p, z)));
            lemma_listed(ihdr, number, y + 1, p, z);
        }
    } else {
        lemma_ascend(ihdr, number, y + 1, i, j);
    }
}

/// Rows at which a pass has no pixels are not listed.
proof fn lemma_gap(ihdr: IhdrData, number: u8, y: nat, z: nat)
    requires
        1 <= number <= 7,
        y <= z,
        forall|r: nat| y <= r < z ==> #[trigger] (r % row_step(number)) != first_row(number),
    ensures
        adam7_rows_from(ihdr, number, y) == adam7_rows_from(ihdr, number, z),
    decreases z - y,
{
    if y < z && y < ihdr.height && pass_columns(ihdr.width as nat, number) > 0 {
        assert(y % row_step(number) != first_row(number));
        lemma_gap(ihdr, number, y + 1, z);
    }
}

/// Between two rows of a pass, and above its first one, the pass has no pixels.
proof fn lemma_no_rows_between(number: u8, y: nat, r: nat)
    requires
        1 <= number <= 7,
    ensures
        r < first_row(number) ==> r % row_step(number) != first_row(number),
        y % row_step(number) == first_row(number) && y < r < y + row_step(number) ==> r % row_step(
            number,
        ) != first_row(number),
        first_row(number) % row_step(number) == first_row(number),
        y % row_step(number) == first_row(number) ==> (y + row_step(number)) % row_step(number)
            == first_row(number),
{
    let step = row_step(number);
    assert(step == 8 || step == 4 || step == 2);
    if step == 8 {
        assert(r < 8 ==> r % 8 == r);
        assert(y < r < y + 8 ==> r % 8 != y % 8);
        assert((y + 8) % 8 == y % 8);
    } else if step == 4 {
        assert(r < 4 ==> r % 4 == r);
        assert(y < r < y + 4 ==> r % 4 != y % 4);
        assert((y + 4) % 4 == y % 4);
    } else {
        assert(r < 2 ==> r % 2 == r);
        assert(y < r < y + 2 ==> r % 2 != y % 2);
        assert((y + 2) % 2 == y % 2);
    }
}

/// A pass starts at its first row.
proof fn lemma_pass_start(ihdr: IhdrData, number: u8)
    requires
        1 <= number,
    ensures
        adam7_rows_from(ihdr, number, 0) == adam7_rows_from(ihdr, number, first_row(number)),
{
    if number <= 7 {
        assert forall|r: nat| 0 <= r < first_row(number) implies #[trigger] (r % row_step(number))
            != first_row(number) by {
            lemma_no_rows_between(number, 0, r);
        }
        lemma_gap(ihdr, number, 0, first_row(number));
    }
}

/// A pass and row from which on lines are read: the row is one at which the pass has pixels.
spec fn in_step(current: (u8, u32)) -> bool {
    1 <= current.0 && (current.0 <= 7 ==> current.1 as nat % row_step(current.0) == first_row(
        current.0,
    ))
}

/// Stepping over passes leaves no row out.
proof fn lemma_drawn_rows(ihdr: IhdrData, current: (u8, u32))
    requires
        in_step(current),
    ensures
        ({
            let drawn = drawn_from(ihdr, current);
            let rows = adam7_rows_from(ihdr, current.0, current.1 as nat);
            &&& in_step(drawn)
            &&& rows == adam7_rows_from(ihdr, drawn.0, drawn.1 as nat)
            &&& drawn.0 > 7 <==> rows.len() == 0
            &&& drawn.0 <= 7 ==> drawn.1 < ihdr.height && rows[0] == (drawn.0, drawn.1 as nat)
                && rows.drop_first() == adam7_rows_from(ihdr, drawn.0, drawn.1 as nat + 1)
        }),
    decreases 8 - current.0,
{
    let (number, row) = current;
    let rows = adam7_rows_from(ihdr, number, row as nat);
    if number <= 7 {
        if pass_columns(ihdr.width as nat, number) == 0 || row >= ihdr.height {
            let next = (number + 1) as u8;
            lemma_pass_start(ihdr, next);
            if next <= 7 {
                lemma_no_rows_between(next, 0, 0);
            }
            lemma_drawn_rows(ihdr, (next, first_row(next) as u32));
        } else {
            assert(rows.drop_first() =~= adam7_rows_from(ihdr, number, row as nat + 1));
        }
    }
}

/// After a line come the rows after its row.
proof fn lemma_rows_after(ihdr: IhdrData, current: (u8, u32))
    requires
        in_step(current),
        current.0 <= 7,
        current.1 < ihdr.height,
        pass_columns(ihdr.width as nat, current.0) > 0,
    ensures
        ({
            let (number, row) = current;
            let next = if row + row_step(number) >= ihdr.height {
                ((number + 1) as u8, first_row((number + 1) as u8) as u32)
            } else {
                (number, (row + row_step(number)) as u32)
            };
            &&& in_step(next)
            &&& adam7_rows_from(ihdr, number, row as nat + 1) == adam7_rows_from(
                ihdr,
                next.0,
                next.1 as nat,
            )
        }),
{
    let (number, row) = current;
    let step = row_step(number);
    let (y, z) = (row as nat, row as nat + step);
    assert forall|r: nat| y + 1 <= r < z implies #[trigger] (r % step) != first_row(number) by {
        lemma_no_rows_between(number, y, r);
    }
    lemma_gap(ihdr, number, y + 1, z);
    lemma_no_rows_between(number, y, z);
    if z >= ihdr.height {
        let next = (number + 1) as u8;
        lemma_pass_start(ihdr, next);
        if next <= 7 {
            lemma_no_rows_between(next, 0, 0);
        }
    }
}

/// The state in which the next line is read.
spec fn state_of(pass: Option<(u8, u32)>) -> (u8, u32) {
    match pass {
        None => (1u8, 0u32),
        Some(p) => p,
    }
}

/// The lines from some state on are the rows from there on, as far as the raw data reaches.
proof fn lemma_lines_are_rows(
    ihdr: IhdrData,
    raw: Seq<u8>,
    pos: int,
    pass: Option<(u8, u32)>,
    rows: Seq<(u8, nat)>,
)
    requires
        ihdr.interlaced == 1,
        0 <= pos,
        in_step(state_of(pass)),
        rows == adam7_rows_from(ihdr, state_of(pass).0, state_of(pass).1 as nat),
    ensures
        ({
            let lines = lines_from(ihdr, raw, pos, pass);
            &&& lines.len() <= rows.len()
            &&& forall|i: int|
                0 <= i < lines.len() ==> (#[trigger] lines[i]).pass == Some(rows[i].0)
                    && lines[i].data.len() == pass_line_bytes(ihdr, rows[i].0)
            &&& raw.len() - pos == rows_bytes(ihdr, rows) ==> lines.len() == rows.len() && fits(
                ihdr,
                raw.len() as int,
                pos,
                pass,
            )
        }),
    decreases rows.len(),
{
    let current = state_of(pass);
    let lines = lines_from(ihdr, raw, pos, pass);
    lemma_drawn_rows(ihdr, current);
    let drawn = effective_pass(ihdr, pass);
    assert(drawn == drawn_from(ihdr, current));
    if rows.len() > 0 {
        lemma_drawn_columns(ihdr, current);
        lemma_rows_after(ihdr, drawn);
        let rest = rows.drop_first();
        let next = pass_after(ihdr, pass);
        let end = pos + 1 + line_bytes(ihdr, pass);
        assert(line_bytes(ihdr, pass) == pass_line_bytes(ihdr, drawn.0));
        lemma_lines_are_rows(ihdr, raw, end, next, rest);
        if line_fits(ihdr, raw.len() as int, pos, pass) {
            let more = lines_from(ihdr, raw, end, next);
            assert forall|i: int| 0 <= i < lines.len() implies (#[trigger] lines[i]).pass == Some(
                rows[i].0,
            ) && lines[i].data.len() == pass_line_bytes(ihdr, rows[i].0) by {
                if i > 0 {
                    assert(lines[i] == more[i - 1]);
                    assert(rows[i] == rest[i - 1]);
                }
            }
        }
    }
}

/// The lines of an interlaced image are the rows that the Adam7 passes draw, in order, as far as its
/// raw data reaches: each line carries the pass of its row, and has as many bytes as the columns of
/// that pass take.
pub proof fn interlaced_lines_are_the_drawn_rows(image: Image)
    requires
        image.ihdr.interlaced == 1,
    ensures
        image.lines().len() <= adam7_rows(image.ihdr).len(),
        forall|i: int|
            0 <= i < image.lines().len() ==> {
                let line = #[trigger] image.lines()[i];
                let (number, _) = adam7_rows(image.ihdr)[i];
                line.pass == Some(number) && line.data.len() == pass_line_bytes(image.ihdr, number)
            },
{
    lemma_no_rows_between(1, 0, 0);
    lemma_lines_are_rows(image.ihdr, image.raw, 0, None, adam7_rows(image.ihdr));
}

/// An interlaced image whose raw data is as long as the rows that the Adam7 passes draw is made of
/// whole lines, one for each of these rows.
pub proof fn full_interlaced_images_have_one_line_per_drawn_row(image: Image)
    requires
        image.ihdr.interlaced == 1,
        image.raw.len() == rows_bytes(image.ihdr, adam7_rows(image.ihdr)),
    ensures
        image.whole_lines(),
        image.lines().len() == adam7_rows(image.ihdr).len(),
        forall|i: int|
            0 <= i < image.lines().len() ==> {
                let line = #[trigger] image.lines()[i];
                let (number, _) = adam7_rows(image.ihdr)[i];
                line.pass == Some(number) && line.data.len() == pass_line_bytes(image.ihdr, number)
            },
{
    lemma_no_rows_between(1, 0, 0);
    lemma_lines_are_rows(image.ihdr, image.raw, 0, None, adam7_rows(image.ihdr));
}

proof fn lemma_rows_of_progressive(ihdr: IhdrData, raw: Seq<u8>, pos: int, rows: nat)
    requires
        ihdr.interlaced != 1,
        0 <= pos,
        raw.len() - pos == rows * (1 + line_bytes(ihdr, None)),
    ensures
        fits(ihdr, raw.len() as int, pos, None),
        lines_from(ihdr, raw, pos, None).len() == rows,
    decreases rows,
{
    let size = 1 + line_bytes(ihdr, None);
    if rows > 0 {
        assert(rows * size == (rows - 1) * size + size) by (nonlinear_arith);
        assert((rows - 1) * size >= 0) by (nonlinear_arith)
            requires
                rows > 0,
                size >= 0,
        ;
        lemma_rows_of_progressive(ihdr, raw, pos + size, (rows - 1) as nat);
    } else {
        assert(rows * size == 0) by (nonlinear_arith)
            requires
                rows == 0,
        ;
    }
}

/// A progressive image whose raw data is as long as its rows is made of whole lines, one for each
/// row, and each has as many bytes as the pixels of a row take.
pub proof fn full_progressive_images_have_one_line_per_row(image: Image)
    requires
        image.ihdr.interlaced != 1,
        image.raw.len() == image.ihdr.height * (1 + line_bytes(image.ihdr, None)),
    ensures
        image.whole_lines(),
        image.lines().len() == image.ihdr.height,
        line_bytes(image.ihdr, None) == (image.ihdr.width * image.ihdr.bits_per_pixel() + 7) / 8,
        forall|i: int|
            0 <= i < image.lines().len() ==> (#[trigger] image.lines()[i]).pass is None
                && image.lines()[i].data.len() == line_bytes(image.ihdr, None),
{
    lemma_rows_of_progressive(image.ihdr, image.raw, 0, image.ihdr.height as nat);
    lemma_progressive_lines(image.ihdr, image.raw, 0);
}

/// All lines of an image that is not interlaced have the same length and no pass.
pub proof fn lemma_progressive_lines(ihdr: IhdrData, raw: Seq<u8>, pos: int)
    requires
        ihdr.interlaced != 1,
    ensures
        forall|i: int|
            0 <= i < lines_from(ihdr, raw, pos, None).len() ==> {
                let line = #[trigger] lines_from(ihdr, raw, pos, None)[i];
                line.data.len() == line_bytes(ihdr, None) && line.pass is None
            },
    decreases raw.len() - pos,
{
    let lines = lines_from(ihdr, raw, pos, None);
    if line_fits(ihdr, raw.len() as int, pos, None) {
        let end = pos + 1 + line_bytes(ihdr, None);
        let rest = lines_from(ihdr, raw, end, None);
        lemma_progressive_lines(ihdr, raw, end);
        assert forall|i: int| 0 <= i < lines.len() implies {
            let line = #[trigger] lines[i];
            line.data.len() == line_bytes(ihdr, None) && line.pass is None
        } by {
            if i > 0 {
                assert(lines[i] == rest[i - 1]);
            }
        }
    }
}

/// The passes start and step as Adam7 says.
pub proof fn passes_are_those_of_adam7(number: u8)
    requires
        1 <= number <= 7,
    ensures
        ({
            let p = number - 1;
            &&& first_column(number) == seq![0nat, 4, 0, 2, 0, 1, 0][p]
            &&& column_step(number) == seq![8nat, 8, 4, 4, 2, 2, 1][p]
            &&& first_row(number) == seq![0nat, 0, 4, 0, 2, 0, 1][p]
            &&& row_step(number) == seq![8nat, 8, 8, 4, 4, 2, 2][p]
        }),
{
}

/// A pass draws a pixel.
pub open spec fn draws(number: u8, x: nat, y: nat) -> bool {
    &&& 1 <= number <= 7
    &&& x % column_step(number) == first_column(number)
    &&& y % row_step(number) == first_row(number)
}

/// Each pixel is drawn by one pass.
pub proof fn each_pixel_is_drawn_once(x: nat, y: nat)
    ensures
        exists|number: u8| #[trigger] draws(number, x, y),
        forall|a: u8, b: u8| #[trigger] draws(a, x, y) && #[trigger] draws(b, x, y) ==> a == b,
{
    lemma_remainders(x);
    lemma_remainders(y);
    let number: u8 = if y % 2 == 1 {
        7
    } else if x % 2 == 1 {
        6
    } else if y % 4 == 2 {
        5
    } else if x % 4 == 2 {
        4
    } else if y % 8 == 4 {
        3
    } else if x % 8 == 4 {
        2
    } else {
        1
    };
    assert(draws(number, x, y));
    assert forall|a: u8, b: u8| #[trigger] draws(a, x, y) && #[trigger] draws(b, x, y) implies a
        == b by {
        assert(a == number) by {
            lemma_one_pass(a, x, y);
        }
        assert(b == number) by {
            lemma_one_pass(b, x, y);
        }
    }
}

/// How the remainders by 8, 4, 2 and 1 hang together.
proof fn lemma_remainders(n: nat)
    ensures
        n % 1 == 0,
        n % 2 == 0 || n % 2 == 1,
        n % 2 == 0 <==> n % 4 == 0 || n % 4 == 2,
        n % 4 == 0 <==> n % 8 == 0 || n % 8 == 4,
{
}

proof fn lemma_one_pass(number: u8, x: nat, y: nat)
    requires
        draws(number, x, y),
    ensures
        number == if y % 2 == 1 {
            7u8
        } else if x % 2 == 1 {
            6
        } else if y % 4 == 2 {
            5
        } else if x % 4 == 2 {
            4
        } else if y % 8 == 4 {
            3
        } else if x % 8 == 4 {
            2
        } else {
            1
        },
{
    lemma_remainders(x);
    lemma_remainders(y);
}

/// The number of bytes that the first `k` lines take, each with its filter byte.
pub open spec fn line_offset(lines: Seq<Line>, k: int) -> int
    decreases k,
{
    if k <= 0 {
        0
    } else {
        line_offset(lines, k - 1) + 1 + lines[k - 1].data.len()
    }
}

proof fn lemma_lines_stand(
    ihdr: IhdrData,
    raw: Seq<u8>,
    pos: int,
    pass: Option<(u8, u32)>,
    k: int,
)
    requires
        0 <= pos,
        0 <= k < lines_from(ihdr, raw, pos, pass).len(),
    ensures
        ({
            let lines = lines_from(ihdr, raw, pos, pass);
            let at = pos + line_offset(lines, k);
            let end = at + 1 + lines[k].data.len();
            &&& pos <= at && end <= raw.len()
            &&& lines[k].filter == raw[at]
            &&& lines[k].data == raw.subrange(at + 1, end)
        }),
    decreases k,
{
    let lines = lines_from(ihdr, raw, pos, pass);
    if k > 0 {
        let end = pos + 1 + line_bytes(ihdr, pass);
        let rest = lines_from(ihdr, raw, end, pass_after(ihdr, pass));
        lemma_lines_stand(ihdr, raw, end, pass_after(ihdr, pass), k - 1);
        assert(lines[k] == rest[k - 1]);
        assert(lines[0].data.len() == line_bytes(ihdr, pass));
        lemma_offset_rest(lines, k);
        assert(lines.drop_first() =~= rest);
    }
}

proof fn lemma_offset_rest(lines: Seq<Line>, k: int)
    requires
        1 <= k <= lines.len(),
    ensures
        line_offset(lines, k) == 1 + lines[0].data.len() + line_offset(lines.drop_first(), k - 1),
    decreases k,
{
    if k > 1 {
        lemma_offset_rest(lines, k - 1);
        assert(lines.drop_first()[k - 2] == lines[k - 1]);
    } else {
        assert(line_offset(lines, 0) == 0);
    }
}

/// The lines of an image stand in its raw data one behind the other, each with its filter byte before
/// its data.
pub proof fn lines_stand_one_behind_the_other(image: Image, k: int)
    requires
        0 <= k < image.lines().len(),
    ensures
        ({
            let line = image.lines()[k];
            let at = line_offset(image.lines(), k);
            let end = at + 1 + line.data.len();
            &&& 0 <= at && end <= image.raw.len()
            &&& line.filter == image.raw[at]
            &&& line.data == image.raw.subrange(at + 1, end)
        }),
{
    lemma_lines_stand(image.ihdr, image.raw, 0, None, k);
}

/// The lines of an image of whole lines take up all of its raw data.
pub proof fn whole_lines_take_up_the_raw_data(image: Image)
    requires
        image.whole_lines(),
    ensures
        line_offset(image.lines(), image.lines().len() as int) == image.raw.len(),
{
    lemma_whole_offset(image.ihdr, image.raw, 0, None);
}

proof fn lemma_whole_offset(ihdr: IhdrData, raw: Seq<u8>, pos: int, pass: Option<(u8, u32)>)
    requires
        0 <= pos <= raw.len(),
        fits(ihdr, raw.len() as int, pos, pass),
    ensures
        ({
            let lines = lines_from(ihdr, raw, pos, pass);
            pos + line_offset(lines, lines.len() as int) == raw.len()
        }),
    decreases raw.len() - pos,
{
    let lines = lines_from(ihdr, raw, pos, pass);
    if pos < raw.len() {
        let end = pos + 1 + line_bytes(ihdr, pass);
        let rest = lines_from(ihdr, raw, end, pass_after(ihdr, pass));
        lemma_whole_offset(ihdr, raw, end, pass_after(ihdr, pass));
        lemma_offset_rest(lines, lines.len() as int);
        assert(lines.drop_first() =~= rest);
    }
}

/// Raw data cut after some bytes has the lines that it had, as far as they are whole.
pub proof fn cut_data_has_the_first_lines(image: Image, len: int, k: int)
    requires
        0 <= len <= image.raw.len(),
        0 <= k < (Image { raw: image.raw.take(len), ..image }).lines().len(),
    ensures
        k < image.lines().len(),
        (Image { raw: image.raw.take(len), ..image }).lines()[k] == image.lines()[k],
{
    lemma_cut(image.ihdr, image.raw, len, 0, None, k);
}

proof fn lemma_cut(
    ihdr: IhdrData,
    raw: Seq<u8>,
    len: int,
    pos: int,
    pass: Option<(u8, u32)>,
    k: int,
)
    requires
        0 <= len <= raw.len(),
        0 <= k < lines_from(ihdr, raw.take(len), pos, pass).len(),
    ensures
        k < lines_from(ihdr, raw, pos, pass).len(),
        lines_from(ihdr, raw.take(len), pos, pass)[k] == lines_from(ihdr, raw, pos, pass)[k],
    decreases k,
{
    let (cut, all) = (
        lines_from(ihdr, raw.take(len), pos, pass),
        lines_from(ihdr, raw, pos, pass),
    );
    let end = pos + 1 + line_bytes(ihdr, pass);
    assert(line_fits(ihdr, len, pos, pass));
    if k > 0 {
        let next = pass_after(ihdr, pass);
        lemma_cut(ihdr, raw, len, end, next, k - 1);
        assert(cut[k] == lines_from(ihdr, raw.take(len), end, next)[k - 1]);
        assert(all[k] == lines_from(ihdr, raw, end, next)[k - 1]);
    } else {
        assert(raw.take(len).subrange(pos + 1, end) =~= raw.subrange(pos + 1, end));
    }
}

/// An image is made of whole lines exactly if its lines take up all of its raw data.
pub proof fn whole_lines_are_those_that_take_up_the_raw_data(image: Image)
    ensures
        image.whole_lines() <==> line_offset(image.lines(), image.lines().len() as int)
            == image.raw.len(),
{
    if image.whole_lines() {
        whole_lines_take_up_the_raw_data(image);
    } else if line_offset(image.lines(), image.lines().len() as int) == image.raw.len() {
        lemma_offset_fits(image.ihdr, image.raw, 0, None);
    }
}

proof fn lemma_offset_fits(ihdr: IhdrData, raw: Seq<u8>, pos: int, pass: Option<(u8, u32)>)
    requires
        0 <= pos <= raw.len(),
        ({
            let lines = lines_from(ihdr, raw, pos, pass);
            pos + line_offset(lines, lines.len() as int) == raw.len()
        }),
    ensures
        fits(ihdr, raw.len() as int, pos, pass),
    decreases raw.len() - pos,
{
    let lines = lines_from(ihdr, raw, pos, pass);
    if pos < raw.len() {
        let end = pos + 1 + line_bytes(ihdr, pass);
        let rest = lines_from(ihdr, raw, end, pass_after(ihdr, pass));
        assert(line_fits(ihdr, raw.len() as int, pos, pass));
        lemma_offset_rest(lines, lines.len() as int);
        assert(lines.drop_first() =~= rest);
        lemma_offset_fits(ihdr, raw, end, pass_after(ihdr, pass));
    }
}

/// The view of a line shows each of its fields.
pub proof fn line_views_show_every_field(line: ScanLine)
    ensures
        line@.filter == line.filter,
        line@.data == line.data@,
        line@.pass == line.pass,
{
}

} // verus!
