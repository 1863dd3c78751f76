use dense_array::array::Array;
use dense_array::array_display::{
    column_width, header_line, lay_out_grid, lay_out_lines, lay_out_slices, list_numbers,
    slice_heading, widest_of, DECIMAL_LENGTH, ELEMENT_INTERVAL, FORMAT_LIMIT, LINE_WIDTH,
};
use dense_array::error::ArrayError;
use dense_array::layout::DataOrder;
use dense_array::scalar::Scalar;

fn strings(parts: &[&str]) -> Vec<String> {
    parts.iter().map(|part| part.to_string()).collect()
}

#[test]
fn widest_of_is_the_largest_length() {
    assert_eq!(widest_of(&[3, 9, 4]), 9);
    assert_eq!(widest_of(&[7]), 7);
    assert_eq!(widest_of(&[2, 2]), 2);
    assert_eq!(widest_of(&[]), 0);
}

#[test]
fn column_width_adds_the_interval_to_the_widest() {
    assert_eq!(column_width(&[3, 9, 4], 2), Some(11));
    assert_eq!(column_width(&[0], 0), Some(0));
    assert_eq!(column_width(&[], 2), None);
    assert_eq!(column_width(&[5], usize::MAX), None);
    assert_eq!(column_width(&[5], usize::MAX - 5), Some(usize::MAX));
}

#[test]
fn lines_start_with_a_line_break() {
    assert_eq!(lay_out_lines(&strings(&["a", "bc", ""])), "\na\nbc\n");
    assert_eq!(lay_out_lines(&strings(&[])), "");
}

#[test]
fn grid_puts_a_line_break_before_every_row() {
    assert_eq!(lay_out_grid(&strings(&["a", "b", "c", "d", "e", "f"]), 2, 3), "\nabc\ndef");
    assert_eq!(lay_out_grid(&strings(&["a", "b", "c", "d", "e", "f"]), 3, 2), "\nab\ncd\nef");
    assert_eq!(lay_out_grid(&strings(&[]), 2, 0), "\n\n");
    assert_eq!(lay_out_grid(&strings(&[]), 0, 5), "");
}

#[test]
fn slices_put_a_heading_before_every_block() {
    let headings = strings(&["<0>", "<1>"]);
    let cells = strings(&["a", "b", "c", "d", "e", "f", "g", "h"]);
    assert_eq!(lay_out_slices(&headings, &cells, 2, 2), "<0>ab\ncd\n<1>ef\ngh\n");
    assert_eq!(lay_out_slices(&headings, &cells, 1, 4), "<0>abcd\n<1>efgh\n");
    assert_eq!(lay_out_slices(&strings(&[]), &strings(&[]), 2, 2), "");
}

#[test]
fn the_constants_of_the_display() {
    assert_eq!(DECIMAL_LENGTH, 6);
    assert_eq!(ELEMENT_INTERVAL, 2);
    assert_eq!(LINE_WIDTH, 9);
    assert_eq!(FORMAT_LIMIT, 65535);
}

#[test]
fn column_of_an_array_is_its_longest_element_and_the_interval() {
    let a = Array::new(vec![1, -20, 300, 4], vec![2, 2]).unwrap();
    assert_eq!(a.get_element_length_and_interval(6, 2), Some(5));
    assert_eq!(a.get_element_length_and_interval(6, 0), Some(3));
    assert_eq!(a.get_element_length_and_interval(0, 7), Some(10));
    assert_eq!(a.get_element_length_and_interval(6, usize::MAX), None);
    assert_eq!(a.get_element_length_and_interval(FORMAT_LIMIT + 1, 2), None);
    let empty = Array::new(Vec::<i32>::new(), vec![0, 3]).unwrap();
    assert_eq!(empty.get_element_length_and_interval(6, 2), None);
}

#[test]
fn display1d_centres_each_element_on_its_line() {
    let a = Array::new(vec![1, 22, -3], vec![3]).unwrap();
    assert_eq!(a.display1d(), "\n    1    \n   22    \n   -3    ");
    let empty = Array::new(Vec::<i32>::new(), vec![0]).unwrap();
    assert_eq!(empty.display1d(), "");
}

#[test]
fn display2d_shows_one_row_to_a_line() {
    let a = Array::from_rows(&[vec![1, 2, 3], vec![4, 5, 6]]).unwrap();
    assert_eq!(a.display2d(), Ok("\n  1  2  3\n  4  5  6".to_string()));
    let a = Array::new(vec![1, 2, 3, 4, 5, 6], vec![2, 3]).unwrap();
    assert_eq!(a.display2d(), Ok("\n  1  3  5\n  2  4  6".to_string()));
    let a = Array::from_rows(&[vec![1, -20], vec![300, 4]]).unwrap();
    assert_eq!(a.display2d(), Ok("\n    1  -20\n  300    4".to_string()));
}

#[test]
fn display2d_of_a_transpose_shows_the_columns_as_rows() {
    let a = Array::from_rows(&[vec![1, 2, 3], vec![4, 5, 6]]).unwrap();
    assert_eq!(a.transpose().unwrap().display2d(), Ok("\n  1  4\n  2  5\n  3  6".to_string()));
}

#[test]
fn display2d_refuses_every_rank_but_two() {
    let a = Array::new(vec![1, 2, 3], vec![3]).unwrap();
    assert_eq!(a.display2d(), Err(ArrayError::RankMismatch));
    let a = Array::new(vec![0; 8], vec![2, 2, 2]).unwrap();
    assert_eq!(a.display2d(), Err(ArrayError::RankMismatch));
}

#[test]
fn display2d_without_elements_shows_empty_rows() {
    let a = Array::new(Vec::<i32>::new(), vec![2, 0]).unwrap();
    assert_eq!(a.display2d(), Ok("\n\n".to_string()));
    let a = Array::new(Vec::<i32>::new(), vec![0, 2]).unwrap();
    assert_eq!(a.display2d(), Ok("".to_string()));
}

#[test]
fn higher_dimensions_show_slice_after_slice() {
    let a = Array::new((0..8).collect::<Vec<i32>>(), vec![2, 2, 2]).unwrap();
    assert_eq!(
        a.display_higher_dimensions(),
        Ok("\n[:, :, 0] = \n  0  2\n  1  3\n\n[:, :, 1] = \n  4  6\n  5  7\n".to_string())
    );
    let a = Array::with_order((0..8).collect::<Vec<i32>>(), vec![2, 2, 2], DataOrder::RowMajor)
        .unwrap();
    assert_eq!(
        a.display_higher_dimensions(),
        Ok("\n[:, :, 0] = \n  0  2\n  4  6\n\n[:, :, 1] = \n  1  3\n  5  7\n".to_string())
    );
}

#[test]
fn higher_dimensions_count_the_first_higher_axis_fastest() {
    let a = Array::new((0..12).collect::<Vec<i32>>(), vec![1, 1, 2, 3, 2]).unwrap();
    let text = a.display_higher_dimensions().unwrap();
    let headings: Vec<&str> = text.lines().filter(|line| line.starts_with("[:")).collect();
    assert_eq!(
        headings,
        vec![
            "[:, :, 0, 0, 0] = ",
            "[:, :, 1, 0, 0] = ",
            "[:, :, 0, 1, 0] = ",
            "[:, :, 1, 1, 0] = ",
            "[:, :, 0, 2, 0] = ",
            "[:, :, 1, 2, 0] = ",
            "[:, :, 0, 0, 1] = ",
            "[:, :, 1, 0, 1] = ",
            "[:, :, 0, 1, 1] = ",
            "[:, :, 1, 1, 1] = ",
            "[:, :, 0, 2, 1] = ",
            "[:, :, 1, 2, 1] = ",
        ]
    );
    let cells: Vec<&str> = text.lines().filter(|line| line.starts_with(' ')).collect();
    assert_eq!(
        cells,
        vec!["   0", "   1", "   2", "   3", "   4", "   5", "   6", "   7", "   8", "   9", "  10", "  11"]
    );
}

#[test]
fn higher_dimensions_of_a_matrix_are_one_slice() {
    let a = Array::from_rows(&[vec![1, 2, 3], vec![4, 5, 6]]).unwrap();
    assert_eq!(
        a.display_higher_dimensions(),
        Ok("\n[:, :, ] = \n  1  2  3\n  4  5  6\n".to_string())
    );
}

#[test]
fn higher_dimensions_refuse_fewer_than_two_axes() {
    let a = Array::new(vec![1, 2, 3], vec![3]).unwrap();
    assert_eq!(a.display_higher_dimensions(), Err(ArrayError::RankMismatch));
    let a = Array::new(vec![1], vec![]).unwrap();
    assert_eq!(a.display_higher_dimensions(), Err(ArrayError::RankMismatch));
}

#[test]
fn higher_dimensions_without_elements_show_nothing() {
    let a = Array::new(Vec::<i32>::new(), vec![2, 0, 3]).unwrap();
    assert_eq!(a.display_higher_dimensions(), Ok(String::new()));
    let a = Array::new(Vec::<i32>::new(), vec![2, 2, 0]).unwrap();
    assert_eq!(a.display_higher_dimensions(), Ok(String::new()));
}

#[test]
fn to_text_names_the_array_and_shows_it() {
    colored::control::set_override(false);
    let a = Array::from_rows(&[vec![1, 2, 3], vec![4, 5, 6]]).unwrap();
    assert_eq!(
        a.to_text(),
        "\nRowMajor Array<i32, [2, 3]>:\n[:, :, ] = \n  1  2  3\n  4  5  6\n"
    );
    let a = Array::new(vec![7u8, 8], vec![2]).unwrap();
    assert_eq!(a.to_text(), "\nColMajor Array<u8, [2]>:\n    7    \n    8    ");
    let a = Array::new(vec![7u8], vec![]).unwrap();
    assert_eq!(a.to_text(), "\nColMajor Array<u8, []>:\n    7    ");
}

#[test]
fn to_text_marks_the_name_for_a_terminal() {
    colored::control::set_override(true);
    let a = Array::new(vec![7u8, 8], vec![2]).unwrap();
    assert_eq!(
        a.to_text(),
        "\u{1b}[1m\nColMajor Array<u8, [2]>:\u{1b}[0m\n    7    \n    8    "
    );
}

#[test]
fn reading_order_goes_slice_by_slice_and_row_by_row() {
    let a = Array::new((0..6).collect::<Vec<i32>>(), vec![2, 3]).unwrap();
    assert_eq!(a.reading_order(), Ok(vec![0, 2, 4, 1, 3, 5]));
    let a = Array::from_rows(&[vec![1, 2, 3], vec![4, 5, 6]]).unwrap();
    assert_eq!(a.reading_order(), Ok(vec![0, 1, 2, 3, 4, 5]));
    let a = Array::new((0..8).collect::<Vec<i32>>(), vec![2, 2, 2]).unwrap();
    assert_eq!(a.reading_order(), Ok(vec![0, 2, 1, 3, 4, 6, 5, 7]));
    let a = Array::with_order((0..8).collect::<Vec<i32>>(), vec![2, 2, 2], DataOrder::RowMajor)
        .unwrap();
    assert_eq!(a.reading_order(), Ok(vec![0, 2, 4, 6, 1, 3, 5, 7]));
}

#[test]
fn reading_order_refuses_fewer_than_two_axes_and_is_empty_without_elements() {
    let a = Array::new(vec![1, 2, 3], vec![3]).unwrap();
    assert_eq!(a.reading_order(), Err(ArrayError::RankMismatch));
    let a = Array::new(Vec::<i32>::new(), vec![2, 0, 3]).unwrap();
    assert_eq!(a.reading_order(), Ok(vec![]));
}

#[test]
fn headings_and_header_list_their_numbers() {
    assert_eq!(list_numbers(&[]), "");
    assert_eq!(list_numbers(&[7]), "7");
    assert_eq!(list_numbers(&[7, 0, 12]), "7, 0, 12");
    assert_eq!(slice_heading(&[1, 2]), "\n[:, :, 1, 2] = \n");
    assert_eq!(slice_heading(&[]), "\n[:, :, ] = \n");
    assert_eq!(header_line(DataOrder::ColMajor, "i64", &[2, 3, 4]), "\nColMajor Array<i64, [2, 3, 4]>:");
    assert_eq!(header_line(DataOrder::RowMajor, "u8", &[]), "\nRowMajor Array<u8, []>:");
    assert_eq!(DataOrder::RowMajor.name(), "RowMajor");
    assert_eq!(DataOrder::ColMajor.name(), "ColMajor");
}

#[test]
fn every_built_in_integer_type_has_its_name() {
    assert_eq!(<usize as Scalar>::element_name(), "usize");
    assert_eq!(<isize as Scalar>::element_name(), "isize");
    assert_eq!(<u8 as Scalar>::element_name(), "u8");
    assert_eq!(<u16 as Scalar>::element_name(), "u16");
    assert_eq!(<u32 as Scalar>::element_name(), "u32");
    assert_eq!(<u64 as Scalar>::element_name(), "u64");
    assert_eq!(<i8 as Scalar>::element_name(), "i8");
    assert_eq!(<i16 as Scalar>::element_name(), "i16");
    assert_eq!(<i32 as Scalar>::element_name(), "i32");
    assert_eq!(<i64 as Scalar>::element_name(), "i64");
}

#[test]
fn column_of_an_array_counts_the_bytes_of_the_longest_text() {
    let a = Array::new(vec![7u64, 12_345_678_901], vec![2]).unwrap();
    assert_eq!(a.get_element_length_and_interval(6, 2), Some(13));
    assert_eq!(a.get_element_length_and_interval(6, usize::MAX - 11), Some(usize::MAX));
    assert_eq!(a.get_element_length_and_interval(6, usize::MAX - 10), None);
    assert_eq!(a.get_element_length_and_interval(FORMAT_LIMIT, 1), Some(12));
}

#[test]
fn every_element_is_shown_once_and_at_its_place() {
    let a = Array::new((10..34).collect::<Vec<i32>>(), vec![2, 3, 4]).unwrap();
    let text = a.display_higher_dimensions().unwrap();
    let places = a.reading_order().unwrap();
    let shown: Vec<i32> = text
        .lines()
        .filter(|line| line.starts_with(' '))
        .flat_map(|line| line.split_whitespace().map(|cell| cell.parse::<i32>().unwrap()))
        .collect();
    let expected: Vec<i32> = places.iter().map(|place| a.data()[*place]).collect();
    assert_eq!(shown, expected);
    let mut sorted = shown.clone();
    sorted.sort();
    assert_eq!(sorted, (10..34).collect::<Vec<i32>>());
    for slice in 0..4 {
        for row in 0..2 {
            for col in 0..3 {
                let k = slice * 6 + row * 3 + col;
                assert_eq!(a.get(&[row, col, slice]), Ok(&shown[k]));
            }
        }
    }
}
