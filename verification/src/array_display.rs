//! An array as text: the elements in columns of one width, one row of the
//! array to a line, the axes after the second one two-dimensional slice after
//! another.
//!
//! How a single element reads is decided by its own `Display`; what is
//! decided here is where each element goes.

use vstd::prelude::*;
use crate::array::{Array, ArrayView};
use crate::error::ArrayError;
use crate::layout::{
    col_major_indices, col_major_offset, element_count, lemma_col_major_offset_is_injective,
    lemma_offset_rank_two, lemma_slices_make_up_the_array, offset, offset_spec, shape_product,
    valid_indices, DataOrder,
};
use crate::scalar::Scalar;
use colored::Colorize;
use std::fmt::Display;
use vstd::arithmetic::div_mod::lemma_fundamental_div_mod_converse;
use vstd::slice::slice_subrange;
use vstd::string::to_string_from_display_ensures;
use vstd::utf8::encode_utf8;

verus! {

/// The characters of each of some texts.
pub open spec fn texts(strings: Seq<String>) -> Seq<Seq<char>> {
    strings.map_values(|text: String| text@)
}

/// Some texts one after the other.
pub open spec fn run_together(parts: Seq<Seq<char>>) -> Seq<char>
    decreases parts.len(),
{
    if parts.len() == 0 {
        Seq::empty()
    } else {
        run_together(parts.drop_last()) + parts.last()
    }
}

/// Some texts each on a line of its own: a line break, then the text.
pub open spec fn lines_text(cells: Seq<Seq<char>>) -> Seq<char>
    decreases cells.len(),
{
    if cells.len() == 0 {
        Seq::empty()
    } else {
        lines_text(cells.drop_last()) + "\n"@ + cells.last()
    }
}

/// The first `rows` rows of a grid of `cols` columns whose cells are `cells`
/// row by row: for each row a line break, then its cells run together.
pub open spec fn grid_text(cells: Seq<Seq<char>>, rows: nat, cols: nat) -> Seq<char>
    decreases rows,
{
    if rows == 0 {
        Seq::empty()
    } else {
        grid_text(cells, (rows - 1) as nat, cols) + "\n"@ + run_together(
            cells.subrange((rows - 1) * cols, (rows * cols) as int),
        )
    }
}

/// The largest of some lengths, and 0 where there is none.
pub open spec fn widest(lengths: Seq<usize>) -> nat
    decreases lengths.len(),
{
    if lengths.len() == 0 {
        0
    } else if lengths.last() >= widest(lengths.drop_last()) {
        lengths.last() as nat
    } else {
        widest(lengths.drop_last())
    }
}

/// No length is above the largest, and the largest is one of them.
pub proof fn lemma_widest_is_the_maximum(lengths: Seq<usize>)
    ensures
        forall|i: int| 0 <= i < lengths.len() ==> lengths[i] <= widest(lengths),
        lengths.len() > 0 ==> exists|i: int| 0 <= i < lengths.len() && lengths[i] == widest(lengths),
    decreases lengths.len(),
{
    if lengths.len() > 0 {
        lemma_widest_is_the_maximum(lengths.drop_last());
        let rest = lengths.drop_last();
        assert forall|i: int| 0 <= i < lengths.len() implies lengths[i] <= widest(lengths) by {
            if i < lengths.len() - 1 {
                assert(rest[i] == lengths[i]);
            }
        }
        if lengths.last() >= widest(rest) {
            assert(lengths[lengths.len() - 1] == widest(lengths));
        } else {
            let i = choose|i: int| 0 <= i < rest.len() && rest[i] == widest(rest);
            assert(lengths[i] == widest(lengths));
        }
    }
}

/// The largest of some lengths, and 0 where there is none.
pub fn widest_of(lengths: &[usize]) -> (width: usize)
    ensures
        width == widest(lengths@),
{
    let mut width: usize = 0;
    let mut i: usize = 0;
    while i < lengths.len()
        invariant
            i <= lengths@.len(),
            width == widest(lengths@.take(i as int)),
        decreases lengths@.len() - i,
    {
        proof {
            assert(lengths@.take(i + 1).drop_last() =~= lengths@.take(i as int));
        }
        if lengths[i] >= width {
            width = lengths[i];
        }
        i += 1;
    }
    proof {
        assert(lengths@.take(lengths@.len() as int) =~= lengths@);
    }
    width
}

/// Some texts each on a line of its own.
pub fn lay_out_lines(cells: &Vec<String>) -> (text: String)
    ensures
        text@ == lines_text(texts(cells@)),
{
    let mut text = String::new();
    let mut i: usize = 0;
    while i < cells.len()
        invariant
            i <= cells@.len(),
            text@ == lines_text(texts(cells@).take(i as int)),
        decreases cells@.len() - i,
    {
        proof {
            assert(texts(cells@).take(i + 1).drop_last() =~= texts(cells@).take(i as int));
        }
        text.append("\n");
        text.append(cells[i].as_str());
        i += 1;
    }
    proof {
        assert(texts(cells@).take(cells@.len() as int) =~= texts(cells@));
    }
    text
}

/// A grid of `rows` rows and `cols` columns whose cells are `cells` row by
/// row: for each row a line break, then its cells run together.
pub fn lay_out_grid(cells: &Vec<String>, rows: usize, cols: usize) -> (text: String)
    requires
        cells@.len() == rows * cols,
    ensures
        text@ == grid_text(texts(cells@), rows as nat, cols as nat),
{
    let ghost all = texts(cells@);
    let count: usize = cells.len();
    let mut text = String::new();
    let mut i: usize = 0;
    while i < rows
        invariant
            i <= rows,
            count == rows * cols,
            cells@.len() == rows * cols,
            all == texts(cells@),
            text@ == grid_text(all, i as nat, cols as nat),
        decreases rows - i,
    {
        proof {
            assert(i * cols + cols <= rows * cols) by (nonlinear_arith)
                requires
                    i < rows,
            ;
            assert((i + 1) * cols == i * cols + cols) by (nonlinear_arith);
        }
        text.append("\n");
        let ghost before = text@;
        let start: usize = i * cols;
        let mut j: usize = 0;
        while j < cols
            invariant
                j <= cols,
                i < rows,
                start == i * cols,
                start + cols <= cells@.len(),
                cells@.len() == count,
                all == texts(cells@),
                text@ == before + run_together(all.subrange(start as int, start + j)),
            decreases cols - j,
        {
            proof {
                assert(all.subrange(start as int, start + j + 1).drop_last() =~= all.subrange(
                    start as int,
                    start + j,
                ));
            }
            text.append(cells[start + j].as_str());
            j += 1;
        }
        i += 1;
    }
    text
}

/// The number of digits after the point that an element is shown with.
pub const DECIMAL_LENGTH: usize = 6;

/// The space between two columns.
pub const ELEMENT_INTERVAL: usize = 2;

/// The places in which an element on a line of its own is centred.
pub const LINE_WIDTH: usize = 9;

/// The most that the standard formatter takes for a width or a precision,
/// which it holds in sixteen bits.
pub const FORMAT_LIMIT: usize = 0xffff;

/// `format!("{:^element_length$.decimal_length$}", element)`: the element as
/// its `Display` shows it, with `decimal_length` digits after the point where
/// it has any, centred in `element_length` places. The standard formatter
/// holds a width and a precision in sixteen bits, so any above
/// [`FORMAT_LIMIT`] is left out. Nothing is claimed of the text: it is what
/// the element's own `Display` makes of the request.
#[verifier::external_body]
fn format_centered<T: Display>(element: &T, element_length: usize, decimal_length: usize) -> (text:
    String)
    requires
        element_length <= FORMAT_LIMIT,
        decimal_length <= FORMAT_LIMIT,
{
    format!(
        "{:^element_length$.decimal_length$}",
        element,
        element_length = element_length,
        decimal_length = decimal_length
    )
}

/// `format!("{:>.decimal_length$}", element)`: the element as its `Display`
/// shows it, with `decimal_length` digits after the point where it has any.
/// The standard formatter holds a precision in sixteen bits, so one above
/// [`FORMAT_LIMIT`] is left out. Nothing is claimed of the text.
#[verifier::external_body]
fn format_plain<T: Display>(element: &T, decimal_length: usize) -> (text: String)
    requires
        decimal_length <= FORMAT_LIMIT,
{
    format!("{:>.decimal_length$}", element, decimal_length = decimal_length)
}

/// `format!("{:>element_length$.decimal_length$}", element)`: the element as
/// its `Display` shows it, with `decimal_length` digits after the point where
/// it has any, moved to the right of `element_length` places. The standard
/// formatter holds a width and a precision in sixteen bits, so any above
/// [`FORMAT_LIMIT`] is left out. Nothing is claimed of the text.
#[verifier::external_body]
fn format_right<T: Display>(element: &T, element_length: usize, decimal_length: usize) -> (text:
    String)
    requires
        element_length <= FORMAT_LIMIT,
        decimal_length <= FORMAT_LIMIT,
{
    format!(
        "{:>element_length$.decimal_length$}",
        element,
        element_length = element_length,
        decimal_length = decimal_length
    )
}

/// `text` is what the formatter makes of `element` with `decimal_length`
/// digits after the point where it has any, as long as it is.
pub closed spec fn is_plain_text_of<T: Display>(
    element: T,
    decimal_length: usize,
    text: String,
) -> bool {
    call_ensures(format_plain::<T>, (&element, decimal_length), text)
}

/// `text` is the cell of `element` in a column of width `width`: what the
/// formatter makes of the element moved to the right of `width` places, or
/// of the element as long as it is where there is no width, or none that the
/// formatter takes; with [`DECIMAL_LENGTH`] digits after the point either way.
pub closed spec fn is_cell_of<T: Display>(element: T, width: Option<usize>, text: String) -> bool {
    if width is Some && width->Some_0 <= FORMAT_LIMIT {
        call_ensures(format_right::<T>, (&element, width->Some_0, DECIMAL_LENGTH), text)
    } else {
        is_plain_text_of(element, DECIMAL_LENGTH, text)
    }
}

/// `text` is `element` on a line of its own: what the formatter makes of the
/// element centred in [`LINE_WIDTH`] places, with [`DECIMAL_LENGTH`] digits
/// after the point.
pub closed spec fn is_line_of<T: Display>(element: T, text: String) -> bool {
    call_ensures(format_centered::<T>, (&element, LINE_WIDTH, DECIMAL_LENGTH), text)
}

/// The length of a text as `str::len` counts it: in bytes.
pub open spec fn text_length(text: String) -> usize {
    encode_utf8(text@).len() as usize
}

/// The length of each of some texts.
pub open spec fn lengths_of(shown: Seq<String>) -> Seq<usize> {
    shown.map_values(|text: String| text_length(text))
}

/// The width of a column for texts of these lengths: the largest length and
/// the space between two columns. There is none where there is no length, or
/// where the sum is past what a `usize` holds.
pub open spec fn column_width_of(lengths: Seq<usize>, element_interval: usize) -> Option<usize> {
    if lengths.len() > 0 && widest(lengths) + element_interval <= usize::MAX {
        Some((widest(lengths) + element_interval) as usize)
    } else {
        None
    }
}

/// `shown` holds a text of each of `data`, as the formatter makes it with
/// `decimal_length` digits after the point.
pub open spec fn plain_texts_of<T: Display>(
    data: Seq<T>,
    decimal_length: usize,
    shown: Seq<String>,
) -> bool {
    &&& shown.len() == data.len()
    &&& forall|i: int|
        0 <= i < data.len() ==> is_plain_text_of(data[i], decimal_length, #[trigger] shown[i])
}

/// `width` is the width of a column that holds every element of `data`: the
/// column width of the texts that the formatter makes of them with
/// `decimal_length` digits after the point. There is none for a
/// `decimal_length` that the formatter does not take.
pub open spec fn is_width_of<T: Display>(
    data: Seq<T>,
    decimal_length: usize,
    element_interval: usize,
    width: Option<usize>,
) -> bool {
    if decimal_length > FORMAT_LIMIT {
        width is None
    } else {
        exists|shown: Seq<String>|
            #[trigger] plain_texts_of(data, decimal_length, shown) && width == column_width_of(
                lengths_of(shown),
                element_interval,
            )
    }
}

/// `cells` holds every element of `data` on a line of its own, in the order
/// of the buffer.
pub open spec fn lines_of<T: Display>(data: Seq<T>, cells: Seq<String>) -> bool {
    &&& cells.len() == data.len()
    &&& forall|k: int| 0 <= k < data.len() ==> is_line_of(data[k], #[trigger] cells[k])
}

/// A text that shows every element of `data` on a line of its own, in the
/// order of the buffer.
pub open spec fn shows_lines<T: Display>(data: Seq<T>, text: Seq<char>) -> bool {
    exists|cells: Seq<String>| #[trigger] lines_of(data, cells) && text == lines_text(texts(cells))
}

/// The width of a column for texts of these lengths: the largest length and
/// the space between two columns. There is none where there is no length, or
/// where the sum is past what a `usize` holds.
pub fn column_width(lengths: &[usize], element_interval: usize) -> (width: Option<usize>)
    ensures
        width == column_width_of(lengths@, element_interval),
{
    if lengths.len() == 0 {
        return None;
    }
    proof {
        lemma_widest_is_the_maximum(lengths@);
    }
    widest_of(lengths).checked_add(element_interval)
}

impl<T: Scalar> Array<T> {
    /// The width of a column that holds every element of the array, shown
    /// with `decimal_length` digits after the point: the length of the
    /// longest of their texts, and `element_interval` places between two
    /// columns.
    ///
    /// There is none for an array without elements, for a `decimal_length`
    /// above [`FORMAT_LIMIT`], or where the sum is past what a `usize` holds.
    pub fn get_element_length_and_interval(
        &self,
        decimal_length: usize,
        element_interval: usize,
    ) -> (width: Option<usize>)
        ensures
            is_width_of(self@.data, decimal_length, element_interval, width),
            self@.data.len() == 0 || decimal_length > FORMAT_LIMIT ==> width is None,
    {
        if decimal_length > FORMAT_LIMIT {
            return None;
        }
        let data = self.data();
        let mut lengths: Vec<usize> = Vec::with_capacity(data.len());
        let ghost mut shown: Seq<String> = Seq::empty();
        let mut i: usize = 0;
        while i < data.len()
            invariant
                i <= data@.len(),
                decimal_length <= FORMAT_LIMIT,
                plain_texts_of(data@.take(i as int), decimal_length, shown),
                lengths@ == lengths_of(shown),
            decreases data@.len() - i,
        {
            let text = format_plain(&data[i], decimal_length);
            let length: usize = text.as_str().len();
            lengths.push(length);
            proof {
                let before = shown;
                shown = shown.push(text);
                assert(lengths_of(shown) =~= lengths_of(before).push(length));
                assert forall|k: int| 0 <= k < i + 1 implies is_plain_text_of(
                    data@.take(i + 1)[k],
                    decimal_length,
                    #[trigger] shown[k],
                ) by {
                    if k < i {
                        assert(shown[k] == before[k]);
                        assert(data@.take(i + 1)[k] == data@.take(i as int)[k]);
                    }
                }
            }
            i += 1;
        }
        proof {
            assert(data@.take(data@.len() as int) =~= data@);
        }
        let width = column_width(lengths.as_slice(), element_interval);
        proof {
            assert(plain_texts_of(self@.data, decimal_length, shown));
        }
        width
    }

    /// The array in buffer order, one element to a line: for each element a
    /// line break, then the element centred in [`LINE_WIDTH`] places.
    pub fn display1d(&self) -> (text: String)
        ensures
            shows_lines(self@.data, text@),
    {
        let data = self.data();
        let mut cells: Vec<String> = Vec::with_capacity(data.len());
        let mut i: usize = 0;
        while i < data.len()
            invariant
                i <= data@.len(),
                lines_of(data@.take(i as int), cells@),
            decreases data@.len() - i,
        {
            let ghost before = cells@;
            cells.push(format_centered(&data[i], LINE_WIDTH, DECIMAL_LENGTH));
            proof {
                assert forall|k: int| 0 <= k < i + 1 implies is_line_of(
                    data@.take(i + 1)[k],
                    #[trigger] cells@[k],
                ) by {
                    if k < i {
                        assert(cells@[k] == before[k]);
                        assert(data@.take(i + 1)[k] == data@.take(i as int)[k]);
                    }
                }
            }
            i += 1;
        }
        proof {
            assert(data@.take(data@.len() as int) =~= data@);
        }
        let text = lay_out_lines(&cells);
        proof {
            assert(lines_of(self@.data, cells@));
        }
        text
    }
}

/// A block of `rows` rows and `cols` columns whose cells are `cells` row by
/// row: for each row its cells run together, then a line break.
pub open spec fn block_text(cells: Seq<Seq<char>>, rows: nat, cols: nat) -> Seq<char>
    decreases rows,
{
    if rows == 0 {
        Seq::empty()
    } else {
        block_text(cells, (rows - 1) as nat, cols) + run_together(
            cells.subrange((rows - 1) * cols, (rows * cols) as int),
        ) + "\n"@
    }
}

/// The first `slices` of some two-dimensional slices of `rows` rows and
/// `cols` columns: for each slice its heading, then its block of cells.
pub open spec fn slices_text(
    headings: Seq<Seq<char>>,
    cells: Seq<Seq<char>>,
    slices: nat,
    rows: nat,
    cols: nat,
) -> Seq<char>
    decreases slices,
{
    if slices == 0 {
        Seq::empty()
    } else {
        slices_text(headings, cells, (slices - 1) as nat, rows, cols) + headings[slices - 1]
            + block_text(
            cells.subrange((slices - 1) * (rows * cols), (slices * (rows * cols)) as int),
            rows,
            cols,
        )
    }
}

/// A block of `rows` rows and `cols` columns whose cells are the `rows *
/// cols` cells of `cells` from `start` on, row by row.
fn lay_out_block(cells: &Vec<String>, start: usize, rows: usize, cols: usize) -> (text: String)
    requires
        start + rows * cols <= cells@.len(),
    ensures
        text@ == block_text(
            texts(cells@).subrange(start as int, start + rows * cols),
            rows as nat,
            cols as nat,
        ),
{
    let ghost all = texts(cells@);
    let ghost part = all.subrange(start as int, start + rows * cols);
    let count: usize = cells.len();
    let mut text = String::new();
    let mut i: usize = 0;
    while i < rows
        invariant
            i <= rows,
            start + rows * cols <= count,
            count == cells@.len(),
            all == texts(cells@),
            part == all.subrange(start as int, start + rows * cols),
            text@ == block_text(part, i as nat, cols as nat),
        decreases rows - i,
    {
        proof {
            assert(i * cols + cols <= rows * cols) by (nonlinear_arith)
                requires
                    i < rows,
            ;
            assert((i + 1) * cols == i * cols + cols) by (nonlinear_arith);
        }
        let ghost before = text@;
        let from: usize = start + i * cols;
        let mut j: usize = 0;
        while j < cols
            invariant
                j <= cols,
                i < rows,
                from == start + i * cols,
                i * cols + cols <= rows * cols,
                start + rows * cols <= count,
                count == cells@.len(),
                all == texts(cells@),
                part == all.subrange(start as int, start + rows * cols),
                text@ == before + run_together(part.subrange(i * cols, i * cols + j)),
            decreases cols - j,
        {
            proof {
                assert(part.subrange(i * cols, i * cols + j + 1).drop_last() =~= part.subrange(
                    i * cols,
                    i * cols + j,
                ));
                assert(part[i * cols + j] == all[from + j]);
            }
            text.append(cells[from + j].as_str());
            j += 1;
        }
        text.append("\n");
        i += 1;
    }
    text
}

/// Some two-dimensional slices of `rows` rows and `cols` columns: for each
/// slice its heading, then its block of cells, which are `cells` slice by
/// slice and row by row.
pub fn lay_out_slices(headings: &Vec<String>, cells: &Vec<String>, rows: usize, cols: usize) -> (text:
    String)
    requires
        rows * cols <= usize::MAX,
        cells@.len() == headings@.len() * (rows * cols),
    ensures
        text@ == slices_text(
            texts(headings@),
            texts(cells@),
            headings@.len(),
            rows as nat,
            cols as nat,
        ),
{
    let block: usize = rows * cols;
    let slices: usize = headings.len();
    let count: usize = cells.len();
    let mut text = String::new();
    let mut s: usize = 0;
    while s < slices
        invariant
            s <= slices,
            slices == headings@.len(),
            block == rows * cols,
            count == cells@.len(),
            count == slices * block,
            text@ == slices_text(
                texts(headings@),
                texts(cells@),
                s as nat,
                rows as nat,
                cols as nat,
            ),
        decreases slices - s,
    {
        proof {
            assert(s * block + block <= slices * block) by (nonlinear_arith)
                requires
                    s < slices,
            ;
            assert((s + 1) * block == s * block + block) by (nonlinear_arith);
        }
        text.append(headings[s].as_str());
        let part = lay_out_block(cells, s * block, rows, cols);
        text.append(part.as_str());
        s += 1;
    }
    text
}

/// `colored::Colorize::bold`, shown as a `String`: the text in bold for a
/// terminal. Whether the marks of a terminal are put round the text hangs on
/// the settings of `colored` and on the environment; either way nothing is
/// taken away from the text, so the result is no shorter.
#[verifier::external_body]
fn embolden(text: &str) -> (bold: String)
    ensures
        text@.len() <= bold@.len(),
{
    text.bold().to_string()
}

/// `shown` holds the text of each of `numbers`, as `to_string` gives it.
pub open spec fn shows_numbers(numbers: Seq<usize>, shown: Seq<String>) -> bool {
    &&& shown.len() == numbers.len()
    &&& forall|e: int|
        0 <= e < numbers.len() ==> to_string_from_display_ensures::<usize>(
            &numbers[e],
            #[trigger] shown[e],
        )
}

/// Some texts with `, ` between them.
pub open spec fn listed(parts: Seq<Seq<char>>) -> Seq<char>
    decreases parts.len(),
{
    if parts.len() == 0 {
        Seq::empty()
    } else if parts.len() == 1 {
        parts[0]
    } else {
        listed(parts.drop_last()) + ", "@ + parts.last()
    }
}

/// `text` lists `numbers`: their texts with `, ` between them.
pub open spec fn is_list_of(numbers: Seq<usize>, text: Seq<char>) -> bool {
    exists|shown: Seq<String>| shows_numbers(numbers, shown) && text == listed(texts(shown))
}

/// `text` is the heading of the two-dimensional slice at `indices` of the
/// higher axes: a line break, `[:, :, `, the indices listed, `] = `, and a
/// line break.
pub open spec fn is_heading_of(indices: Seq<usize>, text: Seq<char>) -> bool {
    exists|list: Seq<char>|
        is_list_of(indices, list) && text == "\n[:, :, "@ + list + "] = \n"@
}

/// `text` is the line that names an array: a line break, the layout, ` Array<`,
/// the name of the element type, `, [`, the shape listed, and `]>:`.
pub open spec fn is_header_of(
    data_order: DataOrder,
    eltype: Seq<char>,
    shape: Seq<usize>,
    text: Seq<char>,
) -> bool {
    exists|list: Seq<char>|
        is_list_of(shape, list) && text == "\n"@ + data_order.name_text() + " Array<"@ + eltype
            + ", ["@ + list + "]>:"@
}

/// Some numbers listed: their texts with `, ` between them.
pub fn list_numbers(numbers: &[usize]) -> (text: String)
    ensures
        is_list_of(numbers@, text@),
{
    let mut text = String::new();
    let ghost mut shown: Seq<String> = Seq::empty();
    let mut e: usize = 0;
    while e < numbers.len()
        invariant
            e <= numbers@.len(),
            shows_numbers(numbers@.take(e as int), shown),
            text@ == listed(texts(shown)),
        decreases numbers@.len() - e,
    {
        if e > 0 {
            text.append(", ");
        }
        let number = numbers[e].to_string();
        text.append(number.as_str());
        proof {
            let before = shown;
            shown = shown.push(number);
            assert(texts(shown).drop_last() =~= texts(before));
            assert(texts(shown).last() == number@);
            assert forall|k: int| 0 <= k < e + 1 implies to_string_from_display_ensures::<usize>(
                &numbers@.take(e + 1)[k],
                #[trigger] shown[k],
            ) by {
                if k < e {
                    assert(shown[k] == before[k]);
                    assert(numbers@.take(e + 1)[k] == numbers@.take(e as int)[k]);
                }
            }
        }
        e += 1;
    }
    proof {
        assert(numbers@.take(numbers@.len() as int) =~= numbers@);
    }
    text
}

/// The heading of the two-dimensional slice at `indices` of the higher axes.
pub fn slice_heading(indices: &[usize]) -> (text: String)
    ensures
        is_heading_of(indices@, text@),
{
    let mut text = String::new();
    text.append("\n[:, :, ");
    let list = list_numbers(indices);
    text.append(list.as_str());
    text.append("] = \n");
    proof {
        assert(text@ =~= "\n[:, :, "@ + list@ + "] = \n"@);
    }
    text
}

/// The line that names an array with its layout, the name `eltype` of its
/// element type and its shape.
pub fn header_line(data_order: DataOrder, eltype: &str, shape: &[usize]) -> (text: String)
    ensures
        is_header_of(data_order, eltype@, shape@, text@),
{
    let mut text = String::new();
    text.append("\n");
    text.append(data_order.name());
    text.append(" Array<");
    text.append(eltype);
    text.append(", [");
    let list = list_numbers(shape);
    text.append(list.as_str());
    text.append("]>:");
    proof {
        assert(text@ =~= "\n"@ + data_order.name_text() + " Array<"@ + eltype@ + ", ["@ + list@
            + "]>:"@);
    }
    text
}

/// The index on the axes after the second of the two-dimensional slice that
/// comes `slice`-th: the one whose column-major offset on those axes is
/// `slice`, so that the first of them varies fastest.
pub open spec fn slice_indices(higher: Seq<usize>, slice: int) -> Seq<usize> {
    choose|indices: Seq<usize>|
        valid_indices(higher, indices) && col_major_offset(higher, indices) == slice
}

/// The place in the buffer of the element that is shown `k`-th when an array
/// of two axes or more is read slice by slice, each slice row by row.
pub open spec fn shown_place<T>(a: ArrayView<T>, k: int) -> int {
    let cols = a.shape[1] as int;
    let block = a.shape[0] * cols;
    let row = (k % block) / cols;
    let col = (k % block) % cols;
    offset_spec(
        a.shape,
        a.data_order,
        seq![row as usize, col as usize] + slice_indices(a.shape.skip(2), k / block),
    ) as int
}

/// A matrix is read row by row: the element shown `k`-th stands in row `k /
/// cols` and column `k % cols`.
pub proof fn lemma_matrix_is_read_row_by_row<T>(a: ArrayView<T>, k: int)
    requires
        a.rank() == 2,
        0 <= k < a.shape[0] * a.shape[1],
    ensures
        a.shape[1] > 0,
        0 <= k / (a.shape[1] as int) < a.shape[0],
        shown_place(a, k) == offset_spec(
            a.shape,
            a.data_order,
            seq![(k / (a.shape[1] as int)) as usize, (k % (a.shape[1] as int)) as usize],
        ),
{
    let rows = a.shape[0] as int;
    let cols = a.shape[1] as int;
    let block = rows * cols;
    assert(cols > 0 && 0 <= k / cols < rows) by (nonlinear_arith)
        requires
            0 <= k < rows * cols,
            rows >= 0,
            cols >= 0,
    ;
    lemma_fundamental_div_mod_converse(k, block, 0, k);
    let higher = a.shape.skip(2);
    let none = Seq::<usize>::empty();
    assert(higher =~= none);
    assert(valid_indices(none, none) && col_major_offset(none, none) == 0);
    let chosen = slice_indices(higher, 0);
    assert(chosen =~= none);
    assert(seq![(k / cols) as usize, (k % cols) as usize] + chosen =~= seq![
        (k / cols) as usize,
        (k % cols) as usize,
    ]);
}

/// `text` is the heading of the slice that comes `slice`-th among the
/// two-dimensional slices of an array whose axes after the second have the
/// sizes `higher`.
pub open spec fn is_heading_of_slice(higher: Seq<usize>, slice: int, text: Seq<char>) -> bool {
    exists|indices: Seq<usize>|
        valid_indices(higher, indices) && col_major_offset(higher, indices) == slice
            && is_heading_of(indices, text)
}

/// `headings` holds the heading of every two-dimensional slice of an array
/// whose axes after the second have the sizes `higher`, the first of those
/// axes varying fastest.
pub open spec fn headings_of(higher: Seq<usize>, headings: Seq<Seq<char>>) -> bool {
    &&& headings.len() == shape_product(higher)
    &&& forall|slice: int|
        0 <= slice < headings.len() ==> is_heading_of_slice(
            higher,
            slice,
            #[trigger] headings[slice],
        )
}

/// `cells` holds a cell of every element of an array of two axes or more, in
/// the order in which the array is read: the `k`-th cell shows the element at
/// [`shown_place`] `k`, in a column of width `width`, which is the width
/// that holds every element of the array.
pub open spec fn cells_in_reading_order<T: Display>(
    a: ArrayView<T>,
    width: Option<usize>,
    cells: Seq<String>,
) -> bool {
    &&& is_width_of(a.data, DECIMAL_LENGTH, ELEMENT_INTERVAL, width)
    &&& cells.len() == a.data.len()
    &&& forall|k: int|
        0 <= k < a.data.len() ==> is_cell_of(a.data[shown_place(a, k)], width, #[trigger] cells[k])
}

/// A text that shows a matrix, one row to a line: for each row a line break,
/// then the cells of its elements from the first column to the last.
pub open spec fn shows_grid<T: Display>(a: ArrayView<T>, text: Seq<char>) -> bool {
    exists|width: Option<usize>, cells: Seq<String>|
        #[trigger] cells_in_reading_order(a, width, cells) && text == grid_text(
            texts(cells),
            a.shape[0] as nat,
            a.shape[1] as nat,
        )
}

/// A text that shows an array of two axes or more slice by slice: every
/// two-dimensional slice under its heading, the first of the axes after the
/// second varying fastest, and in each slice the cells of its elements row by
/// row.
pub open spec fn shows_slices<T: Display>(a: ArrayView<T>, text: Seq<char>) -> bool {
    exists|width: Option<usize>, headings: Seq<Seq<char>>, cells: Seq<String>|
        #![trigger cells_in_reading_order(a, width, cells), headings_of(a.shape.skip(2), headings)]
        cells_in_reading_order(a, width, cells) && headings_of(a.shape.skip(2), headings) && text
            == slices_text(
            headings,
            texts(cells),
            shape_product(a.shape.skip(2)),
            a.shape[0] as nat,
            a.shape[1] as nat,
        )
}

impl<T: Scalar> Array<T> {
    /// The places in the buffer of the elements of an array of two axes or
    /// more, in the order in which the array is read: slice by slice, the
    /// first of the axes after the second varying fastest, and each slice row
    /// by row.
    ///
    /// It is refused unless the array has two axes at least.
    pub fn reading_order(&self) -> (result: Result<Vec<usize>, ArrayError>)
        ensures
            self@.rank() < 2 ==> result is Err && result->Err_0 == ArrayError::RankMismatch,
            self@.rank() >= 2 ==> result is Ok && result->Ok_0@.len() == self@.data.len(),
            self@.rank() >= 2 ==> forall|k: int|
                0 <= k < self@.data.len() ==> (#[trigger] result->Ok_0@[k]) == shown_place(self@, k)
                    && result->Ok_0@[k] < self@.data.len(),
    {
        let shape = self.shape();
        let rank: usize = shape.len();
        if rank < 2 {
            return Err(ArrayError::RankMismatch);
        }
        let count: usize = self.data().len();
        if count == 0 {
            return Ok(Vec::new());
        }
        let rows: usize = shape[0];
        let cols: usize = shape[1];
        let order = self.data_order();
        let higher = slice_subrange(shape.as_slice(), 2, rank);
        proof {
            lemma_slices_make_up_the_array(shape@);
            assert(higher@ =~= shape@.skip(2));
        }
        let block: usize = rows * cols;
        let slices: usize = match element_count(higher) {
            Some(slices) => slices,
            None => {
                return Err(ArrayError::ShapeMismatch);
            },
        };
        let mut places: Vec<usize> = Vec::with_capacity(count);
        let mut s: usize = 0;
        while s < slices
            invariant
                s <= slices,
                rank == shape@.len(),
                rank >= 2,
                shape@ == self@.shape,
                order == self@.data_order,
                rows == shape@[0],
                cols == shape@[1],
                block == rows * cols,
                cols >= 1,
                higher@ == shape@.skip(2),
                slices == shape_product(higher@),
                count == self@.data.len(),
                shape_product(shape@) == count,
                count == block * slices,
                places@.len() == s * block,
                forall|k: int|
                    0 <= k < places@.len() ==> (#[trigger] places@[k]) == shown_place(self@, k)
                        && places@[k] < count,
            decreases slices - s,
        {
            let higher_indices = match col_major_indices(higher, s) {
                Ok(higher_indices) => higher_indices,
                Err(error) => {
                    return Err(error);
                },
            };
            proof {
                let chosen = slice_indices(higher@, s as int);
                lemma_col_major_offset_is_injective(higher@, chosen, higher_indices@);
            }
            let mut row: usize = 0;
            while row < rows
                invariant
                    row <= rows,
                    s < slices,
                    rank == shape@.len(),
                    rank >= 2,
                    shape@ == self@.shape,
                    order == self@.data_order,
                    rows == shape@[0],
                    cols == shape@[1],
                    block == rows * cols,
                    cols >= 1,
                    higher@ == shape@.skip(2),
                    valid_indices(higher@, higher_indices@),
                    higher_indices@ == slice_indices(higher@, s as int),
                    count == self@.data.len(),
                    shape_product(shape@) == count,
                    places@.len() == s * block + row * cols,
                    forall|k: int|
                        0 <= k < places@.len() ==> (#[trigger] places@[k]) == shown_place(
                            self@,
                            k,
                        ) && places@[k] < count,
                decreases rows - row,
            {
                let mut col: usize = 0;
                while col < cols
                    invariant
                        col <= cols,
                        row < rows,
                        s < slices,
                        rank == shape@.len(),
                        rank >= 2,
                        shape@ == self@.shape,
                        order == self@.data_order,
                        rows == shape@[0],
                        cols == shape@[1],
                        block == rows * cols,
                        higher@ == shape@.skip(2),
                        valid_indices(higher@, higher_indices@),
                        higher_indices@ == slice_indices(higher@, s as int),
                        count == self@.data.len(),
                        shape_product(shape@) == count,
                        places@.len() == s * block + row * cols + col,
                        forall|k: int|
                            0 <= k < places@.len() ==> (#[trigger] places@[k]) == shown_place(
                                self@,
                                k,
                            ) && places@[k] < count,
                    decreases cols - col,
                {
                    let mut indices: Vec<usize> = Vec::with_capacity(rank);
                    indices.push(row);
                    indices.push(col);
                    let mut e: usize = 0;
                    while e < higher_indices.len()
                        invariant
                            e <= higher_indices@.len(),
                            indices@ == seq![row, col] + higher_indices@.take(e as int),
                        decreases higher_indices@.len() - e,
                    {
                        indices.push(higher_indices[e]);
                        proof {
                            assert(higher_indices@.take(e + 1) =~= higher_indices@.take(
                                e as int,
                            ).push(higher_indices@[e as int]));
                        }
                        e += 1;
                    }
                    proof {
                        assert(higher_indices@.take(higher_indices@.len() as int)
                            =~= higher_indices@);
                        assert forall|d: int| 0 <= d < shape@.len() implies indices@[d]
                            < shape@[d] by {
                            if d >= 2 {
                                assert(indices@[d] == higher_indices@[d - 2]);
                                assert(shape@[d] == higher@[d - 2]);
                            }
                        }
                    }
                    let at = match offset(shape.as_slice(), order, indices.as_slice()) {
                        Ok(at) => at,
                        Err(error) => {
                            return Err(error);
                        },
                    };
                    proof {
                        let k = places@.len() as int;
                        let within = row * cols + col;
                        assert(0 <= within < block) by (nonlinear_arith)
                            requires
                                within == row * cols + col,
                                block == rows * cols,
                                row < rows,
                                col < cols,
                        ;
                        lemma_fundamental_div_mod_converse(k, block as int, s as int, within);
                        lemma_fundamental_div_mod_converse(
                            within,
                            cols as int,
                            row as int,
                            col as int,
                        );
                        assert(shown_place(self@, k) == at);
                    }
                    places.push(at);
                    col += 1;
                }
                proof {
                    assert((row + 1) * cols == row * cols + cols) by (nonlinear_arith);
                }
                row += 1;
            }
            proof {
                assert((s + 1) * block == s * block + block) by (nonlinear_arith);
            }
            s += 1;
        }
        proof {
            assert(slices * block == block * slices) by (nonlinear_arith);
        }
        Ok(places)
    }

    /// The cell that shows the element at place `at` of the buffer: the
    /// element moved to the right of a column of width `width`, or as long as
    /// it is where there is no width, or none that the formatter takes.
    fn cell_text(&self, at: usize, width: Option<usize>) -> (text: String)
        requires
            at < self@.data.len(),
        ensures
            is_cell_of(self@.data[at as int], width, text),
    {
        let data = self.data();
        match width {
            Some(element_length) => {
                if element_length <= FORMAT_LIMIT {
                    format_right(&data[at], element_length, DECIMAL_LENGTH)
                } else {
                    format_plain(&data[at], DECIMAL_LENGTH)
                }
            },
            None => format_plain(&data[at], DECIMAL_LENGTH),
        }
    }

    /// The cells of the elements at `places` of the buffer, each moved to the
    /// right of a column of width `width`.
    fn cells_of(&self, places: &Vec<usize>, width: Option<usize>) -> (cells: Vec<String>)
        requires
            forall|k: int| 0 <= k < places@.len() ==> (#[trigger] places@[k]) < self@.data.len(),
        ensures
            cells@.len() == places@.len(),
            forall|k: int|
                0 <= k < places@.len() ==> is_cell_of(
                    self@.data[places@[k] as int],
                    width,
                    #[trigger] cells@[k],
                ),
    {
        let mut cells: Vec<String> = Vec::with_capacity(places.len());
        let mut k: usize = 0;
        while k < places.len()
            invariant
                k <= places@.len(),
                cells@.len() == k,
                forall|t: int| 0 <= t < places@.len() ==> (#[trigger] places@[t]) < self@.data.len(),
                forall|t: int|
                    0 <= t < k ==> is_cell_of(
                        self@.data[places@[t] as int],
                        width,
                        #[trigger] cells@[t],
                    ),
            decreases places@.len() - k,
        {
            let ghost before = cells@;
            cells.push(self.cell_text(places[k], width));
            proof {
                assert forall|t: int| 0 <= t < k + 1 implies is_cell_of(
                    self@.data[places@[t] as int],
                    width,
                    #[trigger] cells@[t],
                ) by {
                    if t < k {
                        assert(cells@[t] == before[t]);
                    }
                }
            }
            k += 1;
        }
        cells
    }

    /// A matrix, one row to a line: for each row a line break, then every
    /// element of the row, in the order of [`Array::reading_order`], moved to
    /// the right of a column as wide as
    /// [`Array::get_element_length_and_interval`] says.
    ///
    /// It is refused unless the array has two axes.
    pub fn display2d(&self) -> (result: Result<String, ArrayError>)
        ensures
            self@.rank() != 2 ==> result is Err && result->Err_0 == ArrayError::RankMismatch,
            self@.rank() == 2 ==> result is Ok && shows_grid(self@, result->Ok_0@),
    {
        let shape = self.shape();
        if shape.len() != 2 {
            return Err(ArrayError::RankMismatch);
        }
        let rows: usize = shape[0];
        let cols: usize = shape[1];
        proof {
            assert(self@.shape =~= seq![rows, cols]);
            lemma_offset_rank_two(rows, cols, 0, 0);
        }
        let places = match self.reading_order() {
            Ok(places) => places,
            Err(error) => {
                return Err(error);
            },
        };
        let width = self.get_element_length_and_interval(DECIMAL_LENGTH, ELEMENT_INTERVAL);
        let cells = self.cells_of(&places, width);
        let text = lay_out_grid(&cells, rows, cols);
        proof {
            assert(cells_in_reading_order(self@, width, cells@));
        }
        Ok(text)
    }

    /// An array of two axes or more, one two-dimensional slice after another:
    /// for each slice a heading with its place on the axes after the second,
    /// then its rows, one to a line, the elements in the order of
    /// [`Array::reading_order`], each moved to the right of a column as wide
    /// as [`Array::get_element_length_and_interval`] says. An array without
    /// elements shows nothing.
    ///
    /// It is refused unless the array has two axes at least.
    pub fn display_higher_dimensions(&self) -> (result: Result<String, ArrayError>)
        ensures
            self@.rank() < 2 ==> result is Err && result->Err_0 == ArrayError::RankMismatch,
            self@.rank() >= 2 ==> result is Ok,
            self@.rank() >= 2 && self@.data.len() == 0 ==> result->Ok_0@.len() == 0,
            self@.rank() >= 2 && self@.data.len() > 0 ==> shows_slices(self@, result->Ok_0@),
    {
        let places = match self.reading_order() {
            Ok(places) => places,
            Err(error) => {
                return Err(error);
            },
        };
        let shape = self.shape();
        let rank: usize = shape.len();
        let count: usize = self.data().len();
        if count == 0 {
            return Ok(String::new());
        }
        let rows: usize = shape[0];
        let cols: usize = shape[1];
        let higher = slice_subrange(shape.as_slice(), 2, rank);
        proof {
            lemma_slices_make_up_the_array(shape@);
            assert(higher@ =~= shape@.skip(2));
        }
        let slices: usize = match element_count(higher) {
            Some(slices) => slices,
            None => {
                return Err(ArrayError::ShapeMismatch);
            },
        };
        let mut headings: Vec<String> = Vec::with_capacity(slices);
        let mut s: usize = 0;
        while s < slices
            invariant
                s <= slices,
                slices == shape_product(higher@),
                headings@.len() == s,
                forall|t: int|
                    0 <= t < s ==> is_heading_of_slice(higher@, t, #[trigger] texts(headings@)[t]),
            decreases slices - s,
        {
            let higher_indices = match col_major_indices(higher, s) {
                Ok(higher_indices) => higher_indices,
                Err(error) => {
                    return Err(error);
                },
            };
            let ghost shown_before = texts(headings@);
            let heading = slice_heading(higher_indices.as_slice());
            proof {
                assert(is_heading_of_slice(higher@, s as int, heading@));
            }
            headings.push(heading);
            proof {
                assert forall|t: int| 0 <= t < s + 1 implies is_heading_of_slice(
                    higher@,
                    t,
                    #[trigger] texts(headings@)[t],
                ) by {
                    if t < s {
                        assert(texts(headings@)[t] == shown_before[t]);
                    }
                }
            }
            s += 1;
        }
        let width = self.get_element_length_and_interval(DECIMAL_LENGTH, ELEMENT_INTERVAL);
        let cells = self.cells_of(&places, width);
        proof {
            assert(slices * (rows * cols) == (rows * cols) * slices) by (nonlinear_arith);
        }
        let text = lay_out_slices(&headings, &cells, rows, cols);
        proof {
            assert(self@.shape.skip(2) == higher@);
            assert(cells_in_reading_order(self@, width, cells@));
            assert(headings_of(self@.shape.skip(2), texts(headings@)));
        }
        Ok(text)
    }

    /// The array as text: a line in bold that names it, with its layout, the
    /// name of its element type and its shape, then its elements, one to a
    /// line for an array of fewer than two axes, and slice by slice for any
    /// other.
    pub fn to_text(&self) -> (text: String)
        ensures
            exists|header: Seq<char>, head: Seq<char>, body: Seq<char>|
                {
                    &&& is_header_of(
                        self@.data_order,
                        T::element_name_text(),
                        self@.shape,
                        header,
                    )
                    &&& header.len() <= head.len()
                    &&& text@ == head + body
                    &&& self@.rank() < 2 ==> shows_lines(self@.data, body)
                    &&& self@.rank() >= 2 && self@.data.len() == 0 ==> body.len() == 0
                    &&& self@.rank() >= 2 && self@.data.len() > 0 ==> shows_slices(self@, body)
                },
    {
        let plain = header_line(
            self.data_order(),
            T::element_name(),
            self.shape().as_slice(),
        );
        let mut text = embolden(plain.as_str());
        let ghost head = text@;
        let body = match self.display_higher_dimensions() {
            Ok(body) => body,
            Err(_) => self.display1d(),
        };
        text.append(body.as_str());
        proof {
            assert(text@ == head + body@);
        }
        text
    }
}

} // verus!
