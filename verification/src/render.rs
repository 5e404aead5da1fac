//! The text of the two memory map renderings: a horizontal bar per section,
//! and a vertical block diagram per region.
use vstd::prelude::*;

use crate::arith::{saturating_add_spec, saturating_mul, saturating_mul_spec, saturating_sub_spec};
use crate::layout::{layout_sections, layout_view, layouts_view, LayoutView, RegionLayout};
use crate::sections::{SectionInfo, SectionView};
use crate::text::{
    chars_of,     decimal, digits, lower_hex, pad_left, pad_right, push_all, push_padded_left, push_padded_right,
    push_repeated, repeat_char, string_from_chars,
};

verus! {

pub const BYTES_PER_KB: u64 = 1024;

/// How many rows a vertical rendering aims at per region.
pub const TARGET_VERTICAL_ROWS: u64 = 16;

// ---------------------------------------------------------------------------
// Arithmetic
// ---------------------------------------------------------------------------

pub open spec fn min_u64(a: u64, b: u64) -> u64 {
    if a <= b {
        a
    } else {
        b
    }
}

pub open spec fn max_u64(a: u64, b: u64) -> u64 {
    if a >= b {
        a
    } else {
        b
    }
}

/// `value / divisor` rounded up (with saturating arithmetic); 0 for a zero
/// divisor.
pub open spec fn div_ceil_spec(value: u64, divisor: u64) -> u64 {
    if divisor == 0 {
        0
    } else {
        (saturating_add_spec(value, (divisor - 1) as u64) / divisor) as u64
    }
}

/// The share of `region_length` that `used_bytes` takes, in percent, rounded
/// up and at most 100; 0 for an empty region.
pub open spec fn usage_percent_spec(used_bytes: u64, region_length: u64) -> u64 {
    if region_length == 0 {
        0
    } else {
        min_u64(
            (saturating_add_spec(saturating_mul_spec(used_bytes, 100), (region_length - 1) as u64) / region_length) as u64,
            100,
        )
    }
}

/// `value` scaled from `0..=input_range` to `0..=output_range`, rounded
/// down; 0 for an empty input range.
pub open spec fn map_range_spec(value: u64, input_range: u64, output_range: usize) -> usize {
    if input_range == 0 {
        0
    } else {
        (saturating_mul_spec(value, output_range as u64) / input_range) as usize
    }
}

/// The number of bytes one character of a vertical bar stands for: the region
/// spread over `columns * 16` cells, rounded up to a whole number of KiB when
/// a cell holds more than one byte.
pub open spec fn bytes_per_cell_spec(region_length: u64, columns: usize) -> u64 {
    let target_cells = max_u64(saturating_mul_spec(columns as u64, TARGET_VERTICAL_ROWS), 1);
    let per_cell = max_u64(div_ceil_spec(region_length, target_cells), 1);
    if per_cell <= 1 {
        per_cell
    } else {
        saturating_mul_spec(div_ceil_spec(per_cell, BYTES_PER_KB), BYTES_PER_KB)
    }
}

/// The eighths blocks, from empty to full.
pub open spec fn block_char(i: int) -> char {
    if i <= 0 {
        ' '
    } else if i == 1 {
        '\u{258f}'
    } else if i == 2 {
        '\u{258e}'
    } else if i == 3 {
        '\u{258d}'
    } else if i == 4 {
        '\u{258c}'
    } else if i == 5 {
        '\u{258b}'
    } else if i == 6 {
        '\u{258a}'
    } else if i == 7 {
        '\u{2589}'
    } else {
        '\u{2588}'
    }
}

/// The block whose filled eighths stand for `covered_bytes` of `total_bytes`,
/// rounded up; a space when nothing is covered.
pub open spec fn coverage_char_spec(covered_bytes: u64, total_bytes: u64) -> char {
    if total_bytes == 0 || covered_bytes == 0 {
        ' '
    } else {
        block_char(
            min_u64(
                (saturating_add_spec(saturating_mul_spec(covered_bytes, 8), (total_bytes - 1) as u64) / total_bytes) as u64,
                8,
            ) as int,
        )
    }
}

/// Whether the section overlaps `start..end`.
pub open spec fn section_in_range_spec(s: SectionView, start: u64, end: u64) -> bool {
    s.start() < end && s.end() > start
}

/// The bytes of `s` inside `start..end`.
pub open spec fn overlap(s: SectionView, start: u64, end: u64) -> u64 {
    saturating_sub_spec(min_u64(s.end(), end), max_u64(s.start(), start))
}

/// The bytes of the sections inside `start..end`, summed with saturation.
pub open spec fn covered_bytes_spec(ss: Seq<SectionView>, start: u64, end: u64) -> u64
    decreases ss.len(),
{
    if ss.len() == 0 {
        0
    } else {
        saturating_add_spec(covered_bytes_spec(ss.drop_last(), start, end), overlap(ss.last(), start, end))
    }
}

/// `value / divisor` rounded up, with saturating arithmetic; 0 for a zero
/// divisor. Where `value + divisor - 1` fits, this is the exact ceiling.
pub fn div_ceil(value: u64, divisor: u64) -> (q: u64)
    ensures
        q == div_ceil_spec(value, divisor),
        divisor != 0 && value + divisor - 1 <= u64::MAX ==> q * divisor >= value && (q == 0 || (q
            - 1) * divisor < value),
{
    if divisor == 0 {
        0
    } else {
        let q = value.saturating_add(divisor - 1) / divisor;
        proof {
            if value + divisor - 1 <= u64::MAX {
                let s = value + divisor - 1;
                assert(q * divisor >= value && (q == 0 || (q - 1) * divisor < value))
                    by (nonlinear_arith)
                    requires
                        divisor > 0,
                        s == value + divisor - 1,
                        q == s / (divisor as int),
                ;
            }
        }
        q
    }
}

/// The usage of a region in percent, rounded up, at most 100.
pub fn usage_percent(used_bytes: u64, region_length: u64) -> (p: u64)
    ensures
        p == usage_percent_spec(used_bytes, region_length),
        p <= 100,
{
    if region_length == 0 {
        0
    } else {
        let p = saturating_mul(used_bytes, 100).saturating_add(region_length - 1) / region_length;
        if p < 100 {
            p
        } else {
            100
        }
    }
}

/// Bytes in KiB, rounded up.
pub fn bytes_to_kb(bytes: u64) -> (kb: u64)
    ensures
        kb == div_ceil_spec(bytes, BYTES_PER_KB),
{
    div_ceil(bytes, BYTES_PER_KB)
}

/// The number of bytes one character of a vertical bar stands for.
pub fn choose_bytes_per_cell(region_length: u64, columns: usize) -> (b: u64)
    ensures
        b == bytes_per_cell_spec(region_length, columns),
        b >= 1,
{
    let cells = saturating_mul(columns as u64, TARGET_VERTICAL_ROWS);
    let target_cells = if cells >= 1 {
        cells
    } else {
        1
    };
    let ceil = div_ceil(region_length, target_cells);
    let bytes_per_cell = if ceil >= 1 {
        ceil
    } else {
        1
    };
    if bytes_per_cell <= 1 {
        bytes_per_cell
    } else {
        let kb = div_ceil(bytes_per_cell, BYTES_PER_KB);
        proof {
            assert(kb >= 1);
        }
        saturating_mul(kb, BYTES_PER_KB)
    }
}

/// The block character for `covered_bytes` of `total_bytes`.
pub fn coverage_char(covered_bytes: u64, total_bytes: u64) -> (c: char)
    ensures
        c == coverage_char_spec(covered_bytes, total_bytes),
{
    if total_bytes == 0 || covered_bytes == 0 {
        return ' ';
    }
    let index = saturating_mul(covered_bytes, 8).saturating_add(total_bytes - 1) / total_bytes;
    let index = if index < 8 {
        index
    } else {
        8
    };
    if index == 0 {
        ' '
    } else if index == 1 {
        '\u{258f}'
    } else if index == 2 {
        '\u{258e}'
    } else if index == 3 {
        '\u{258d}'
    } else if index == 4 {
        '\u{258c}'
    } else if index == 5 {
        '\u{258b}'
    } else if index == 6 {
        '\u{258a}'
    } else if index == 7 {
        '\u{2589}'
    } else {
        '\u{2588}'
    }
}

/// `value` scaled from `0..=input_range` to `0..=output_range`.
pub fn map_range(value: u64, input_range: u64, output_range: usize) -> (r: usize)
    ensures
        r == map_range_spec(value, input_range, output_range),
        value <= input_range && input_range != 0 && value * output_range <= u64::MAX ==> r
            <= output_range,
{
    if input_range == 0 {
        0
    } else {
        let scaled = saturating_mul(value, output_range as u64) / input_range;
        proof {
            if value <= input_range && value * output_range <= u64::MAX {
                let p = value * output_range;
                assert(p / (input_range as int) <= output_range) by (nonlinear_arith)
                    requires
                        value <= input_range,
                        input_range > 0,
                        p == value * output_range,
                        output_range >= 0,
                ;
            }
        }
        scaled as usize
    }
}

/// Whether the section overlaps `start..end`.
pub fn section_in_range(section: &SectionInfo, start: u64, end: u64) -> (b: bool)
    ensures
        b == section_in_range_spec(section@, start, end),
{
    section.starts_at() < end && section.ends_at() > start
}

/// The bytes of the sections inside `start..end`, summed with saturation.
pub fn covered_bytes_in_range(sections: &[&SectionInfo], start: u64, end: u64) -> (bytes: u64)
    ensures
        bytes == covered_bytes_spec(sections@.map_values(|s: &SectionInfo| s@), start, end),
{
    let ghost ss = sections@.map_values(|s: &SectionInfo| s@);
    let mut bytes: u64 = 0;
    let mut i: usize = 0;
    while i < sections.len()
        invariant
            i <= sections@.len(),
            ss == sections@.map_values(|s: &SectionInfo| s@),
            bytes == covered_bytes_spec(ss.take(i as int), start, end),
        decreases sections@.len() - i,
    {
        let section = sections[i];
        let s_end = section.ends_at();
        let s_start = section.starts_at();
        let overlap_start = if s_start >= start {
            s_start
        } else {
            start
        };
        let overlap_end = if s_end <= end {
            s_end
        } else {
            end
        };
        let overlap_bytes = overlap_end.saturating_sub(overlap_start);
        proof {
            assert(ss.take(i + 1).drop_last() =~= ss.take(i as int));
            assert(ss.take(i + 1).last() == section@);
        }
        bytes = bytes.saturating_add(overlap_bytes);
        i = i + 1;
    }
    proof {
        assert(ss.take(sections@.len() as int) =~= ss);
    }
    bytes
}


// ---------------------------------------------------------------------------
// Bars and rows
// ---------------------------------------------------------------------------

pub open spec fn saturating_sub_usize(a: usize, b: usize) -> usize {
    if a < b {
        0
    } else {
        (a - b) as usize
    }
}

/// The horizontal bar of a block of `block_size` bytes at `block_start` in a
/// region of `total_width` characters: its offset and width scaled to the
/// region (at least one character), `█` where the block takes a character or
/// more, `▏` where it takes less.
pub open spec fn horizontal_bar_spec(
    region_start: u64,
    region_end: u64,
    block_start: u64,
    block_size: u64,
    total_width: usize,
) -> Seq<char> {
    let region_size = saturating_sub_spec(region_end, region_start);
    let offset = map_range_spec(
        saturating_sub_spec(block_start, region_start),
        region_size,
        total_width,
    );
    let width = map_range_spec(block_size, region_size, total_width);
    let block = if width == 0 {
        '\u{258f}'
    } else {
        '\u{2588}'
    };
    let fill = if width >= 1 {
        width
    } else {
        1usize
    };
    let trailing = saturating_sub_usize(saturating_sub_usize(total_width, offset), fill);
    seq!['['] + repeat_char(' ', offset as nat) + repeat_char(block, fill as nat) + repeat_char(
        ' ',
        trailing as nat,
    ) + seq![']']
}

/// The start of cell `column` of a vertical row.
pub open spec fn cell_start(row_start: u64, column: int, bytes_per_cell: u64) -> u64 {
    saturating_add_spec(row_start, saturating_mul_spec(column as u64, bytes_per_cell))
}

/// The character of cell `column` of a vertical row: blank outside the row
/// or the region, else the block for the bytes of the sections in it.
pub open spec fn cell_char(
    ss: Seq<SectionView>,
    row_start: u64,
    row_end: u64,
    region_end: u64,
    bytes_per_cell: u64,
    column: int,
) -> char {
    let start = cell_start(row_start, column, bytes_per_cell);
    let end = min_u64(saturating_add_spec(start, bytes_per_cell), region_end);
    if start >= row_end || end <= start {
        ' '
    } else {
        coverage_char_spec(covered_bytes_spec(ss, start, end), saturating_sub_spec(end, start))
    }
}

/// The bar of one vertical row: one character per cell.
pub open spec fn vertical_bar_spec(
    ss: Seq<SectionView>,
    row_start: u64,
    row_end: u64,
    region_end: u64,
    bytes_per_cell: u64,
    bar_columns: usize,
) -> Seq<char> {
    Seq::new(
        bar_columns as nat,
        |c: int| cell_char(ss, row_start, row_end, region_end, bytes_per_cell, c),
    )
}

/// The names of the sections that overlap `start..end`, in order.
pub open spec fn names_in_range(ss: Seq<SectionView>, start: u64, end: u64) -> Seq<Seq<char>>
    decreases ss.len(),
{
    if ss.len() == 0 {
        Seq::empty()
    } else if section_in_range_spec(ss.last(), start, end) {
        names_in_range(ss.drop_last(), start, end).push(ss.last().name)
    } else {
        names_in_range(ss.drop_last(), start, end)
    }
}

/// The items joined with `sep` between each two.
pub open spec fn join(items: Seq<Seq<char>>, sep: Seq<char>) -> Seq<char>
    decreases items.len(),
{
    if items.len() == 0 {
        Seq::empty()
    } else if items.len() == 1 {
        items[0]
    } else {
        join(items.drop_last(), sep) + sep + items.last()
    }
}

/// One row of a vertical rendering.
pub struct VerticalRow {
    pub start: u64,
    pub bar: String,
    pub label: String,
}

pub struct VerticalRowView {
    pub start: u64,
    pub bar: Seq<char>,
    pub label: Seq<char>,
}

impl View for VerticalRow {
    type V = VerticalRowView;

    open spec fn view(&self) -> VerticalRowView {
        VerticalRowView { start: self.start, bar: self.bar@, label: self.label@ }
    }
}

/// The rows of the vertical rendering of a region with the sections `ss`:
/// rows of `bytes_per_row` bytes from `region_start` (at least one), each with
/// its bar and the names of the sections in it.
pub open spec fn vertical_rows_spec(
    region_length: u64,
    ss: Seq<SectionView>,
    region_start: u64,
    region_end: u64,
    bytes_per_row: u64,
    bytes_per_cell: u64,
    bar_columns: usize,
) -> Seq<VerticalRowView> {
    let rows = max_u64(div_ceil_spec(region_length, bytes_per_row), 1) as usize;
    Seq::new(
        rows as nat,
        |row: int|
            {
                let row_start = saturating_add_spec(
                    region_start,
                    saturating_mul_spec(row as u64, bytes_per_row),
                );
                let row_end = min_u64(saturating_add_spec(row_start, bytes_per_row), region_end);
                VerticalRowView {
                    start: row_start,
                    bar: vertical_bar_spec(
                        ss,
                        row_start,
                        row_end,
                        region_end,
                        bytes_per_cell,
                        bar_columns,
                    ),
                    label: join(names_in_range(ss, row_start, row_end), seq![',', ' ']),
                }
            },
    )
}

/// The horizontal bar of a block within a region.
pub fn build_horizontal_bar(
    region_start: u64,
    region_end: u64,
    block_start: u64,
    block_size: u64,
    total_width: usize,
) -> (bar: String)
    ensures
        bar@ == horizontal_bar_spec(region_start, region_end, block_start, block_size, total_width),
{
    let region_size = region_end.saturating_sub(region_start);
    let offset = map_range(block_start.saturating_sub(region_start), region_size, total_width);
    let width = map_range(block_size, region_size, total_width);
    let block = if width == 0 {
        '\u{258f}'
    } else {
        '\u{2588}'
    };
    let fill_width = if width >= 1 {
        width
    } else {
        1
    };
    let rest = if total_width >= offset {
        total_width - offset
    } else {
        0
    };
    let trailing = if rest >= fill_width {
        rest - fill_width
    } else {
        0
    };
    let mut out: Vec<char> = Vec::new();
    out.push('[');
    push_repeated(&mut out, ' ', offset);
    push_repeated(&mut out, block, fill_width);
    push_repeated(&mut out, ' ', trailing);
    out.push(']');
    proof {
        assert(out@ =~= horizontal_bar_spec(
            region_start,
            region_end,
            block_start,
            block_size,
            total_width,
        ));
    }
    string_from_chars(&out)
}

/// The bar of one vertical row.
pub fn build_vertical_bar(
    sections: &[&SectionInfo],
    row_start: u64,
    row_end: u64,
    region_end: u64,
    bytes_per_cell: u64,
    bar_columns: usize,
) -> (bar: String)
    ensures
        bar@ == vertical_bar_spec(
            sections@.map_values(|s: &SectionInfo| s@),
            row_start,
            row_end,
            region_end,
            bytes_per_cell,
            bar_columns,
        ),
{
    let ghost ss = sections@.map_values(|s: &SectionInfo| s@);
    let ghost spec_bar = vertical_bar_spec(
        ss,
        row_start,
        row_end,
        region_end,
        bytes_per_cell,
        bar_columns,
    );
    let mut out: Vec<char> = Vec::new();
    let mut column: usize = 0;
    while column < bar_columns
        invariant
            column <= bar_columns,
            ss == sections@.map_values(|s: &SectionInfo| s@),
            spec_bar == vertical_bar_spec(
                ss,
                row_start,
                row_end,
                region_end,
                bytes_per_cell,
                bar_columns,
            ),
            out@ == spec_bar.take(column as int),
        decreases bar_columns - column,
    {
        let start = row_start.saturating_add(saturating_mul(column as u64, bytes_per_cell));
        let sum = start.saturating_add(bytes_per_cell);
        let end = if sum <= region_end {
            sum
        } else {
            region_end
        };
        let c = if start >= row_end || end <= start {
            ' '
        } else {
            coverage_char(covered_bytes_in_range(sections, start, end), end.saturating_sub(start))
        };
        proof {
            assert(c == cell_char(
                ss,
                row_start,
                row_end,
                region_end,
                bytes_per_cell,
                column as int,
            ));
        }
        out.push(c);
        column = column + 1;
        proof {
            assert(out@ =~= spec_bar.take(column as int));
        }
    }
    proof {
        assert(spec_bar.take(bar_columns as int) =~= spec_bar);
    }
    string_from_chars(&out)
}

/// The names of the sections that overlap `start..end`, joined with `, `.
fn range_label(sections: &[&SectionInfo], start: u64, end: u64) -> (label: String)
    ensures
        label@ == join(
            names_in_range(sections@.map_values(|s: &SectionInfo| s@), start, end),
            seq![',', ' '],
        ),
{
    let ghost ss = sections@.map_values(|s: &SectionInfo| s@);
    let mut out: Vec<char> = Vec::new();
    let mut any = false;
    let mut i: usize = 0;
    while i < sections.len()
        invariant
            i <= sections@.len(),
            ss == sections@.map_values(|s: &SectionInfo| s@),
            out@ == join(names_in_range(ss.take(i as int), start, end), seq![',', ' ']),
            any == (names_in_range(ss.take(i as int), start, end).len() > 0),
        decreases sections@.len() - i,
    {
        let section = sections[i];
        proof {
            assert(ss.take(i + 1).drop_last() =~= ss.take(i as int));
            assert(ss.take(i + 1).last() == section@);
        }
        if section_in_range(section, start, end) {
            let ghost names = names_in_range(ss.take(i as int), start, end);
            if any {
                out.push(',');
                out.push(' ');
            }
            let name = crate::text::chars_of(section.name.as_str());
            push_all(&mut out, &name);
            proof {
                let new_names = names.push(section@.name);
                assert(new_names.drop_last() =~= names);
                if names.len() == 0 {
                    assert(out@ =~= join(new_names, seq![',', ' ']));
                } else {
                    assert(out@ =~= join(new_names, seq![',', ' ']));
                }
            }
            any = true;
        }
        i = i + 1;
    }
    proof {
        assert(ss.take(sections@.len() as int) =~= ss);
    }
    string_from_chars(&out)
}


/// The rows of the vertical rendering of a region layout.
pub fn build_vertical_rows(
    layout: &RegionLayout<'_>,
    region_start: u64,
    region_end: u64,
    bytes_per_row: u64,
    bytes_per_cell: u64,
    bar_columns: usize,
) -> (rows: Vec<VerticalRow>)
    ensures
        rows@.map_values(|r: VerticalRow| r@) == vertical_rows_spec(
            layout.region.length,
            layout_sections(*layout),
            region_start,
            region_end,
            bytes_per_row,
            bytes_per_cell,
            bar_columns,
        ),
{
    let ghost spec_rows = vertical_rows_spec(
        layout.region.length,
        layout_sections(*layout),
        region_start,
        region_end,
        bytes_per_row,
        bytes_per_cell,
        bar_columns,
    );
    let ceil = div_ceil(layout.region.length, bytes_per_row);
    let count = (if ceil >= 1 {
        ceil
    } else {
        1
    }) as usize;
    let sections = layout.sections.as_slice();
    let mut rows: Vec<VerticalRow> = Vec::new();
    let mut row: usize = 0;
    while row < count
        invariant
            row <= count,
            count == spec_rows.len(),
            sections@ == layout.sections@,
            spec_rows == vertical_rows_spec(
                layout.region.length,
                layout_sections(*layout),
                region_start,
                region_end,
                bytes_per_row,
                bytes_per_cell,
                bar_columns,
            ),
            rows@.map_values(|r: VerticalRow| r@) == spec_rows.take(row as int),
        decreases count - row,
    {
        let row_start = region_start.saturating_add(saturating_mul(row as u64, bytes_per_row));
        let sum = row_start.saturating_add(bytes_per_row);
        let row_end = if sum <= region_end {
            sum
        } else {
            region_end
        };
        let bar = build_vertical_bar(
            sections,
            row_start,
            row_end,
            region_end,
            bytes_per_cell,
            bar_columns,
        );
        let label = range_label(sections, row_start, row_end);
        let r = VerticalRow { start: row_start, bar, label };
        proof {
            assert(r@ == spec_rows[row as int]);
        }
        let ghost before = rows@;
        rows.push(r);
        row = row + 1;
        proof {
            assert(rows@.map_values(|r: VerticalRow| r@) =~= before.map_values(
                |r: VerticalRow| r@,
            ).push(spec_rows[row - 1]));
            assert(spec_rows.take(row as int) =~= spec_rows.take(row - 1).push(spec_rows[row - 1]));
        }
    }
    proof {
        assert(spec_rows.take(count as int) =~= spec_rows);
    }
    rows
}


// ---------------------------------------------------------------------------
// Lines
// ---------------------------------------------------------------------------

/// The length in bytes of the UTF-8 encoding of `s`, as `str::len` gives it.
pub open spec fn name_width(s: Seq<char>) -> usize {
    vstd::utf8::encode_utf8(s).len() as usize
}

pub open spec fn max_usize(a: usize, b: usize) -> usize {
    if a >= b {
        a
    } else {
        b
    }
}

/// The widest section name of the sections `ss` (0 for none).
pub open spec fn widest_section_name(ss: Seq<SectionView>) -> usize
    decreases ss.len(),
{
    if ss.len() == 0 {
        0
    } else {
        max_usize(widest_section_name(ss.drop_last()), name_width(ss.last().name))
    }
}

/// The widest section name over all layouts (0 for none).
pub open spec fn longest_section_name(ls: Seq<LayoutView>) -> usize
    decreases ls.len(),
{
    if ls.len() == 0 {
        0
    } else {
        max_usize(longest_section_name(ls.drop_last()), widest_section_name(ls.last().sections))
    }
}

/// The widest region name over all layouts (0 for none).
pub open spec fn longest_region_name(ls: Seq<LayoutView>) -> usize
    decreases ls.len(),
{
    if ls.len() == 0 {
        0
    } else {
        max_usize(longest_region_name(ls.drop_last()), name_width(ls.last().region.name))
    }
}

/// The layouts that hold at least one section, in order.
pub open spec fn shown(ls: Seq<LayoutView>) -> Seq<LayoutView>
    decreases ls.len(),
{
    if ls.len() == 0 {
        Seq::empty()
    } else if ls.last().sections.len() > 0 {
        shown(ls.drop_last()).push(ls.last())
    } else {
        shown(ls.drop_last())
    }
}

/// `n` as eight or more lower-case hexadecimal digits (`{:08x}`).
pub open spec fn hex8(n: u64) -> Seq<char> {
    pad_left(digits(n as nat, 16), 8, '0')
}

pub open spec fn dec(n: u64) -> Seq<char> {
    digits(n as nat, 10)
}

/// ` (P% used; Ukb / Lkb)` after a region's name.
pub open spec fn usage_summary(l: LayoutView) -> Seq<char> {
    " ("@ + dec(usage_percent_spec(l.used_bytes, l.region.length)) + "% used; "@ + dec(
        div_ceil_spec(l.used_bytes, BYTES_PER_KB),
    ) + "kb / "@ + dec(div_ceil_spec(l.region.length, BYTES_PER_KB)) + "kb)"@
}

/// The line of one section in the horizontal rendering.
pub open spec fn horizontal_section_line(
    l: LayoutView,
    s: SectionView,
    section_width: usize,
    region_width: usize,
    bar_width: usize,
) -> Seq<char> {
    pad_right(s.name, section_width as nat) + " "@ + hex8(s.address) + " "@ + pad_left(
        dec(s.size),
        7,
        ' ',
    ) + " "@ + pad_right(l.region.name, region_width as nat) + " "@ + horizontal_bar_spec(
        l.region.start,
        saturating_add_spec(l.region.start, l.region.length),
        s.address,
        s.size,
        bar_width,
    )
}

/// The lines of one region in the horizontal rendering: a line per section.
pub open spec fn horizontal_block(
    l: LayoutView,
    section_width: usize,
    region_width: usize,
    bar_width: usize,
) -> Seq<Seq<char>> {
    Seq::new(
        l.sections.len(),
        |j: int| horizontal_section_line(l, l.sections[j], section_width, region_width, bar_width),
    )
}

/// The blocks of the shown layouts, an empty line between each two.
pub open spec fn horizontal_blocks(
    ls: Seq<LayoutView>,
    section_width: usize,
    region_width: usize,
    bar_width: usize,
) -> Seq<Seq<char>>
    decreases ls.len(),
{
    if ls.len() == 0 {
        Seq::empty()
    } else {
        let before = horizontal_blocks(ls.drop_last(), section_width, region_width, bar_width);
        let gap = if ls.len() > 1 {
            seq![Seq::<char>::empty()]
        } else {
            Seq::empty()
        };
        before + gap + horizontal_block(ls.last(), section_width, region_width, bar_width)
    }
}

/// The lines of the horizontal rendering of the layouts in `width` columns.
pub open spec fn horizontal_map_spec(ls: Seq<LayoutView>, width: usize) -> Seq<Seq<char>> {
    let section_width = longest_section_name(ls);
    let region_width = longest_region_name(ls);
    let bar_width = max_usize(
        saturating_sub_usize(width, (section_width + region_width + 23) as usize),
        1,
    );
    horizontal_blocks(shown(ls), section_width, region_width, bar_width)
}

/// The first line of a region in the vertical rendering.
pub open spec fn vertical_header(l: LayoutView, region_width: usize) -> Seq<char> {
    pad_right(l.region.name, region_width as nat) + " "@ + hex8(l.region.start) + ".."@ + hex8(
        l.region.end(),
    ) + usage_summary(l)
}

/// The line that stands for an empty region in the vertical rendering.
pub open spec fn empty_region_line(l: LayoutView, region_width: usize, bar_width: usize) -> Seq<
    char,
> {
    pad_right(Seq::empty(), region_width as nat) + " "@ + hex8(l.region.start) + " ["@
        + repeat_char(' ', bar_width as nat) + "] (empty region)"@
}

/// The line that gives the scale of a region's vertical bars.
pub open spec fn scale_line(region_width: usize, bytes_per_cell: u64, bytes_per_row: u64) -> Seq<
    char,
> {
    pad_right(Seq::empty(), region_width as nat) + " Scale: 1 character = "@ + dec(bytes_per_cell)
        + " bytes, row = "@ + dec(bytes_per_row) + " bytes"@
}

/// The line of one vertical row.
pub open spec fn row_line(region_width: usize, row: VerticalRowView) -> Seq<char> {
    pad_right(Seq::empty(), region_width as nat) + " "@ + hex8(row.start) + " ["@ + row.bar
        + "] "@ + row.label
}

/// The lines of one region in the vertical rendering.
pub open spec fn vertical_block(l: LayoutView, region_width: usize, bar_width: usize) -> Seq<
    Seq<char>,
> {
    if l.region.length == 0 {
        seq![vertical_header(l, region_width), empty_region_line(l, region_width, bar_width)]
    } else {
        let bytes_per_cell = bytes_per_cell_spec(l.region.length, bar_width);
        let bytes_per_row = saturating_mul_spec(bytes_per_cell, bar_width as u64);
        let rows = vertical_rows_spec(
            l.region.length,
            l.sections,
            l.region.start,
            l.region.end(),
            bytes_per_row,
            bytes_per_cell,
            bar_width,
        );
        seq![
            vertical_header(l, region_width),
            scale_line(region_width, bytes_per_cell, bytes_per_row),
        ] + rows.map_values(|r: VerticalRowView| row_line(region_width, r))
    }
}

/// The blocks of the shown layouts, an empty line between each two.
pub open spec fn vertical_blocks(ls: Seq<LayoutView>, region_width: usize, bar_width: usize) -> Seq<
    Seq<char>,
>
    decreases ls.len(),
{
    if ls.len() == 0 {
        Seq::empty()
    } else {
        let before = vertical_blocks(ls.drop_last(), region_width, bar_width);
        let gap = if ls.len() > 1 {
            seq![Seq::<char>::empty()]
        } else {
            Seq::empty()
        };
        before + gap + vertical_block(ls.last(), region_width, bar_width)
    }
}

/// The lines of the vertical rendering of the layouts for `width` columns:
/// bars of 16 cells from 120 columns on, of 8 below.
pub open spec fn vertical_map_spec(ls: Seq<LayoutView>, width: usize) -> Seq<Seq<char>> {
    let bar_width: usize = if width >= 120 {
        16
    } else {
        8
    };
    vertical_blocks(shown(ls), longest_region_name(ls), bar_width)
}

pub open spec fn lines_view(lines: Seq<String>) -> Seq<Seq<char>> {
    lines.map_values(|l: String| l@)
}

/// The widest section name and the widest region name (in bytes) over all
/// layouts.
pub fn longest_names(region_layouts: &[RegionLayout<'_>]) -> (widths: (usize, usize))
    ensures
        widths.0 == longest_section_name(layouts_view(region_layouts@)),
        widths.1 == longest_region_name(layouts_view(region_layouts@)),
{
    let ghost ls = layouts_view(region_layouts@);
    let mut section_width: usize = 0;
    let mut region_width: usize = 0;
    let mut i: usize = 0;
    while i < region_layouts.len()
        invariant
            i <= region_layouts@.len(),
            ls == layouts_view(region_layouts@),
            section_width == longest_section_name(ls.take(i as int)),
            region_width == longest_region_name(ls.take(i as int)),
        decreases region_layouts@.len() - i,
    {
        let layout = &region_layouts[i];
        let ghost ss = layout_sections(*layout);
        let mut widest: usize = 0;
        let mut j: usize = 0;
        while j < layout.sections.len()
            invariant
                j <= layout.sections@.len(),
                ss == layout_sections(*layout),
                widest == widest_section_name(ss.take(j as int)),
            decreases layout.sections@.len() - j,
        {
            let w = layout.sections[j].name.as_str().len();
            proof {
                assert(ss.take(j + 1).drop_last() =~= ss.take(j as int));
            }
            if w > widest {
                widest = w;
            }
            j = j + 1;
        }
        proof {
            assert(ss.take(layout.sections@.len() as int) =~= ss);
            assert(ls.take(i + 1).drop_last() =~= ls.take(i as int));
            assert(ls[i as int] == layout_view(*layout));
        }
        if widest > section_width {
            section_width = widest;
        }
        let w = layout.region.name.as_str().len();
        if w > region_width {
            region_width = w;
        }
        i = i + 1;
    }
    proof {
        assert(ls.take(region_layouts@.len() as int) =~= ls);
    }
    (section_width, region_width)
}


fn hex8_chars(n: u64) -> (h: Vec<char>)
    ensures
        h@ == hex8(n),
{
    let digits = lower_hex(n);
    let mut out: Vec<char> = Vec::new();
    push_padded_left(&mut out, &digits, 8, '0');
    proof {
        assert(out@ =~= hex8(n));
    }
    out
}

/// Appends the text of `s` to `out`.
fn push_str(out: &mut Vec<char>, s: &str)
    ensures
        final(out)@ == old(out)@ + s@,
{
    let chars = chars_of(s);
    push_all(out, &chars);
}

/// ` (P% used; Ukb / Lkb)` for a layout.
fn push_usage_summary(out: &mut Vec<char>, layout: &RegionLayout<'_>)
    ensures
        final(out)@ == old(out)@ + usage_summary(layout_view(*layout)),
{
    let percent = decimal(usage_percent(layout.used_bytes, layout.region.length));
    let used = decimal(bytes_to_kb(layout.used_bytes));
    let total = decimal(bytes_to_kb(layout.region.length));
    let ghost o = out@;
    push_str(out, " (");
    push_all(out, &percent);
    push_str(out, "% used; ");
    push_all(out, &used);
    push_str(out, "kb / ");
    push_all(out, &total);
    push_str(out, "kb)");
    proof {
        assert(out@ =~= o + usage_summary(layout_view(*layout)));
    }
}

fn horizontal_section_line_text(
    layout: &RegionLayout<'_>,
    section: &SectionInfo,
    section_width: usize,
    region_width: usize,
    bar_width: usize,
) -> (line: String)
    ensures
        line@ == horizontal_section_line(
            layout_view(*layout),
            section@,
            section_width,
            region_width,
            bar_width,
        ),
{
    let mut out: Vec<char> = Vec::new();
    let name = chars_of(section.name.as_str());
    push_padded_right(&mut out, &name, section_width);
    push_str(&mut out, " ");
    let address = hex8_chars(section.address);
    push_all(&mut out, &address);
    push_str(&mut out, " ");
    let size = decimal(section.size);
    push_padded_left(&mut out, &size, 7, ' ');
    push_str(&mut out, " ");
    let region_name = chars_of(layout.region.name.as_str());
    push_padded_right(&mut out, &region_name, region_width);
    push_str(&mut out, " ");
    let bar = build_horizontal_bar(
        layout.region.start,
        layout.region.start.saturating_add(layout.region.length),
        section.address,
        section.size,
        bar_width,
    );
    let bar_chars = chars_of(bar.as_str());
    push_all(&mut out, &bar_chars);
    proof {
        assert(out@ =~= horizontal_section_line(
            layout_view(*layout),
            section@,
            section_width,
            region_width,
            bar_width,
        ));
    }
    string_from_chars(&out)
}

/// Appends the lines of one region of the horizontal rendering.
fn push_horizontal_block(
    lines: &mut Vec<String>,
    layout: &RegionLayout<'_>,
    section_width: usize,
    region_width: usize,
    bar_width: usize,
)
    ensures
        lines_view(final(lines)@) == lines_view(old(lines)@) + horizontal_block(
            layout_view(*layout),
            section_width,
            region_width,
            bar_width,
        ),
{
    let ghost l = layout_view(*layout);
    let ghost block = horizontal_block(l, section_width, region_width, bar_width);
    let ghost o = lines_view(lines@);
    proof {
        assert(lines_view(lines@) =~= o + block.take(0));
    }
    let mut j: usize = 0;
    while j < layout.sections.len()
        invariant
            j <= layout.sections@.len(),
            l == layout_view(*layout),
            block == horizontal_block(l, section_width, region_width, bar_width),
            block.len() == layout.sections@.len(),
            lines_view(lines@) == o + block.take(j as int),
        decreases layout.sections@.len() - j,
    {
        let line = horizontal_section_line_text(
            layout,
            layout.sections[j],
            section_width,
            region_width,
            bar_width,
        );
        proof {
            assert(line@ == block[j as int]);
        }
        let ghost before = lines@;
        lines.push(line);
        j = j + 1;
        proof {
            assert(lines_view(lines@) =~= lines_view(before).push(block[j - 1]));
            assert(block.take(j as int) =~= block.take(j - 1).push(block[j - 1]));
        }
    }
    proof {
        assert(block.take(layout.sections@.len() as int) =~= block);
    }
}

/// The lines of the horizontal rendering of the layouts in `width` columns:
/// for each region with sections, one line per section with its name,
/// address, size, region and bar; an empty line between regions.
pub fn horizontal_map_lines(region_layouts: &[RegionLayout<'_>], width: usize) -> (lines: Vec<
    String,
>)
    requires
        longest_section_name(layouts_view(region_layouts@)) + longest_region_name(
            layouts_view(region_layouts@),
        ) + 23 <= usize::MAX,
    ensures
        lines_view(lines@) == horizontal_map_spec(layouts_view(region_layouts@), width),
{
    let ghost ls = layouts_view(region_layouts@);
    let (section_width, region_width) = longest_names(region_layouts);
    let reserved = section_width + region_width + 23;
    let rest = if width >= reserved {
        width - reserved
    } else {
        0
    };
    let bar_width = if rest >= 1 {
        rest
    } else {
        1
    };
    let mut lines: Vec<String> = Vec::new();
    let mut shown_count: usize = 0;
    let mut i: usize = 0;
    proof {
        assert(lines_view(lines@) =~= Seq::<Seq<char>>::empty());
    }
    while i < region_layouts.len()
        invariant
            i <= region_layouts@.len(),
            ls == layouts_view(region_layouts@),
            shown_count == shown(ls.take(i as int)).len(),
            shown_count <= i,
            lines_view(lines@) == horizontal_blocks(
                shown(ls.take(i as int)),
                section_width,
                region_width,
                bar_width,
            ),
        decreases region_layouts@.len() - i,
    {
        let layout = &region_layouts[i];
        proof {
            assert(ls.take(i + 1).drop_last() =~= ls.take(i as int));
            assert(ls[i as int] == layout_view(*layout));
        }
        if layout.sections.len() > 0 {
            let ghost prev = shown(ls.take(i as int));
            proof {
                assert(prev.push(layout_view(*layout)).drop_last() =~= prev);
            }
            if shown_count > 0 {
                lines.push(string_from_chars(&Vec::new()));
            }
            push_horizontal_block(&mut lines, layout, section_width, region_width, bar_width);
            shown_count = shown_count + 1;
            proof {
                let gap = if shown_count > 1 {
                    seq![Seq::<char>::empty()]
                } else {
                    Seq::<Seq<char>>::empty()
                };
                assert(lines_view(lines@) =~= horizontal_blocks(
                    prev,
                    section_width,
                    region_width,
                    bar_width,
                ) + gap + horizontal_block(
                    layout_view(*layout),
                    section_width,
                    region_width,
                    bar_width,
                ));
            }
        }
        i = i + 1;
    }
    proof {
        assert(ls.take(region_layouts@.len() as int) =~= ls);
    }
    lines
}


/// `region_width` spaces (an empty name column).
fn push_name_column(out: &mut Vec<char>, region_width: usize)
    ensures
        final(out)@ == old(out)@ + pad_right(Seq::empty(), region_width as nat),
{
    let empty: Vec<char> = Vec::new();
    proof {
        assert(empty@ =~= Seq::<char>::empty());
    }
    push_padded_right(out, &empty, region_width);
}

/// Appends the lines of one region of the vertical rendering.
fn push_vertical_block(
    lines: &mut Vec<String>,
    layout: &RegionLayout<'_>,
    region_width: usize,
    bar_width: usize,
)
    ensures
        lines_view(final(lines)@) == lines_view(old(lines)@) + vertical_block(
            layout_view(*layout),
            region_width,
            bar_width,
        ),
{
    let ghost l = layout_view(*layout);
    let ghost block = vertical_block(l, region_width, bar_width);
    let ghost o = lines_view(lines@);
    let region_end = layout.region.ends_at();
    let mut header: Vec<char> = Vec::new();
    let name = chars_of(layout.region.name.as_str());
    push_padded_right(&mut header, &name, region_width);
    push_str(&mut header, " ");
    let start = hex8_chars(layout.region.start);
    push_all(&mut header, &start);
    push_str(&mut header, "..");
    let end = hex8_chars(region_end);
    push_all(&mut header, &end);
    push_usage_summary(&mut header, layout);
    proof {
        assert(header@ =~= vertical_header(l, region_width));
    }
    lines.push(string_from_chars(&header));
    if layout.region.length == 0 {
        let mut line: Vec<char> = Vec::new();
        push_name_column(&mut line, region_width);
        push_str(&mut line, " ");
        push_all(&mut line, &start);
        push_str(&mut line, " [");
        push_repeated(&mut line, ' ', bar_width);
        push_str(&mut line, "] (empty region)");
        proof {
            assert(line@ =~= empty_region_line(l, region_width, bar_width));
        }
        lines.push(string_from_chars(&line));
        proof {
            assert(lines_view(lines@) =~= o + block);
        }
        return ;
    }
    let bytes_per_cell = choose_bytes_per_cell(layout.region.length, bar_width);
    let bytes_per_row = saturating_mul(bytes_per_cell, bar_width as u64);
    let mut scale: Vec<char> = Vec::new();
    push_name_column(&mut scale, region_width);
    push_str(&mut scale, " Scale: 1 character = ");
    let cell = decimal(bytes_per_cell);
    push_all(&mut scale, &cell);
    push_str(&mut scale, " bytes, row = ");
    let row_bytes = decimal(bytes_per_row);
    push_all(&mut scale, &row_bytes);
    push_str(&mut scale, " bytes");
    proof {
        assert(scale@ =~= scale_line(region_width, bytes_per_cell, bytes_per_row));
    }
    lines.push(string_from_chars(&scale));
    proof {
        assert(lines_view(lines@) =~= o + block.take(2));
    }
    let rows = build_vertical_rows(
        layout,
        layout.region.start,
        region_end,
        bytes_per_row,
        bytes_per_cell,
        bar_width,
    );
    let ghost rows_view = rows@.map_values(|r: VerticalRow| r@);
    let mut k: usize = 0;
    while k < rows.len()
        invariant
            k <= rows@.len(),
            l == layout_view(*layout),
            rows_view == rows@.map_values(|r: VerticalRow| r@),
            block == seq![
                vertical_header(l, region_width),
                scale_line(region_width, bytes_per_cell, bytes_per_row),
            ] + rows_view.map_values(|r: VerticalRowView| row_line(region_width, r)),
            lines_view(lines@) == o + block.take(k + 2),
        decreases rows@.len() - k,
    {
        let row = &rows[k];
        let mut line: Vec<char> = Vec::new();
        push_name_column(&mut line, region_width);
        push_str(&mut line, " ");
        let row_start = hex8_chars(row.start);
        push_all(&mut line, &row_start);
        push_str(&mut line, " [");
        let bar = chars_of(row.bar.as_str());
        push_all(&mut line, &bar);
        push_str(&mut line, "] ");
        let label = chars_of(row.label.as_str());
        push_all(&mut line, &label);
        proof {
            assert(rows_view[k as int] == row@);
            assert(line@ =~= row_line(region_width, row@));
            assert(line@ == block[k + 2]);
        }
        let ghost before = lines@;
        lines.push(string_from_chars(&line));
        k = k + 1;
        proof {
            assert(lines_view(lines@) =~= lines_view(before).push(block[k + 1]));
            assert(block.take(k + 2) =~= block.take(k + 1).push(block[k + 1]));
        }
    }
    proof {
        assert(block.take(rows@.len() as int + 2) =~= block);
    }
}

/// The lines of the vertical rendering of the layouts for `width` columns:
/// for each region with sections, a header with its bounds and usage, then
/// (unless it is empty) its scale and one line per row of its bar diagram; an
/// empty line between regions.
pub fn vertical_map_lines(region_layouts: &[RegionLayout<'_>], width: usize) -> (lines: Vec<String>)
    ensures
        lines_view(lines@) == vertical_map_spec(layouts_view(region_layouts@), width),
{
    let ghost ls = layouts_view(region_layouts@);
    let (_, region_width) = longest_names(region_layouts);
    let bar_width: usize = if width >= 120 {
        16
    } else {
        8
    };
    let mut lines: Vec<String> = Vec::new();
    let mut shown_count: usize = 0;
    let mut i: usize = 0;
    proof {
        assert(lines_view(lines@) =~= Seq::<Seq<char>>::empty());
    }
    while i < region_layouts.len()
        invariant
            i <= region_layouts@.len(),
            ls == layouts_view(region_layouts@),
            shown_count == shown(ls.take(i as int)).len(),
            shown_count <= i,
            lines_view(lines@) == vertical_blocks(shown(ls.take(i as int)), region_width, bar_width),
        decreases region_layouts@.len() - i,
    {
        let layout = &region_layouts[i];
        proof {
            assert(ls.take(i + 1).drop_last() =~= ls.take(i as int));
            assert(ls[i as int] == layout_view(*layout));
        }
        if layout.sections.len() > 0 {
            let ghost prev = shown(ls.take(i as int));
            proof {
                assert(prev.push(layout_view(*layout)).drop_last() =~= prev);
            }
            if shown_count > 0 {
                lines.push(string_from_chars(&Vec::new()));
            }
            push_vertical_block(&mut lines, layout, region_width, bar_width);
            shown_count = shown_count + 1;
            proof {
                let gap = if shown_count > 1 {
                    seq![Seq::<char>::empty()]
                } else {
                    Seq::<Seq<char>>::empty()
                };
                assert(lines_view(lines@) =~= vertical_blocks(prev, region_width, bar_width) + gap
                    + vertical_block(layout_view(*layout), region_width, bar_width));
            }
        }
        i = i + 1;
    }
    proof {
        assert(ls.take(region_layouts@.len() as int) =~= ls);
    }
    lines
}


// ---------------------------------------------------------------------------
// Laws
// ---------------------------------------------------------------------------

/// The rows of a vertical diagram step through the region by whole rows:
/// row `k` starts `k * bytes_per_row` bytes after the region's start (where
/// that address fits in a `u64`). With a row size of at least one byte, and
/// where the row count is computed without clamping, the rows together cover
/// the region and the last one starts inside it: their number is the least
/// `n` with `n * bytes_per_row >= region_length` (at least one).
pub proof fn law_rows_step_by_row_size(
    region_length: u64,
    ss: Seq<SectionView>,
    region_start: u64,
    region_end: u64,
    bytes_per_row: u64,
    bytes_per_cell: u64,
    bar_columns: usize,
)
    ensures
        ({
            let rows = vertical_rows_spec(
                region_length,
                ss,
                region_start,
                region_end,
                bytes_per_row,
                bytes_per_cell,
                bar_columns,
            );
            &&& forall|k: int|
                0 <= k < rows.len() && region_start + k * bytes_per_row <= u64::MAX
                    ==> #[trigger] rows[k].start == region_start + k * bytes_per_row
            &&& (bytes_per_row >= 1 && region_length + bytes_per_row - 1 <= u64::MAX
                && region_length / bytes_per_row + 1 <= usize::MAX) ==> {
                &&& rows.len() >= 1
                &&& rows.len() * bytes_per_row >= region_length
                &&& region_length > 0 ==> (rows.len() - 1) * bytes_per_row < region_length
            }
        }),
{
    let rows = vertical_rows_spec(
        region_length,
        ss,
        region_start,
        region_end,
        bytes_per_row,
        bytes_per_cell,
        bar_columns,
    );
    let q = div_ceil_spec(region_length, bytes_per_row);
    let n = max_u64(q, 1);
    if bytes_per_row == 0 {
        assert(n == 1);
    } else {
        assert(saturating_add_spec(region_length, (bytes_per_row - 1) as u64) as int / bytes_per_row as int
            <= u64::MAX) by (nonlinear_arith)
            requires
                bytes_per_row >= 1,
        ;
    }
    if bytes_per_row >= 1 && region_length + bytes_per_row - 1 <= u64::MAX && region_length
        / bytes_per_row + 1 <= usize::MAX {
        let l = region_length as int;
        let b = bytes_per_row as int;
        assert(q == (l + b - 1) / b);
        assert((l + b - 1) / b <= l / b + 1) by (nonlinear_arith)
            requires
                b >= 1,
                l >= 0,
        ;
        assert((l + b - 1) / b * b >= l) by (nonlinear_arith)
            requires
                b >= 1,
                l >= 0,
        ;
        assert(l > 0 ==> ((l + b - 1) / b - 1) * b < l) by (nonlinear_arith)
            requires
                b >= 1,
                l >= 0,
        ;
        assert(l > 0 ==> (l + b - 1) / b >= 1) by (nonlinear_arith)
            requires
                b >= 1,
                l >= 0,
        ;
        assert(n <= usize::MAX);
        assert(rows.len() == n);
        let r = rows.len() as int;
        if l == 0 {
            assert(r * b >= 0) by (nonlinear_arith)
                requires
                    b >= 1,
                    r >= 1,
            ;
        } else {
            assert(r == (l + b - 1) / b);
        }
    }
    assert forall|k: int|
        0 <= k < rows.len() && region_start + k * bytes_per_row <= u64::MAX implies #[trigger] rows[k].start
        == region_start + k * bytes_per_row by {
        assert(k * bytes_per_row >= 0) by (nonlinear_arith)
            requires
                k >= 0,
        ;
        assert((k as u64) == k);
    }
}

/// A horizontal bar starts with `[`, then as many blanks as the block's
/// offset within its region scaled to the bar's width,
/// `(block_start - region_start) * total_width / (region_end - region_start)`
/// (where that product fits in a `u64`), then the block's first character.
pub proof fn law_bar_offset_is_position_in_region(
    region_start: u64,
    region_end: u64,
    block_start: u64,
    block_size: u64,
    total_width: usize,
)
    requires
        region_start < region_end,
        region_start <= block_start <= region_end,
        (block_start - region_start) * total_width <= u64::MAX,
    ensures
        ({
            let bar = horizontal_bar_spec(region_start, region_end, block_start, block_size, total_width);
            let offset = (block_start - region_start) * total_width / (region_end - region_start);
            &&& bar[0] == '['
            &&& forall|k: int| 1 <= k <= offset ==> #[trigger] bar[k] == ' '
            &&& bar[offset + 1] == '\u{2588}' || bar[offset + 1] == '\u{258f}'
        }),
{
    let region_size = saturating_sub_spec(region_end, region_start);
    let offset = map_range_spec(saturating_sub_spec(block_start, region_start), region_size, total_width);
    let o = (block_start - region_start) * total_width / (region_end - region_start);
    assert(total_width as u64 == total_width);
    let x = (block_start - region_start) as int;
    let sz = (region_end - region_start) as int;
    let tw = total_width as int;
    assert(x * tw / sz <= tw) by (nonlinear_arith)
        requires
            0 <= x <= sz,
            sz >= 1,
            tw >= 0,
    ;
    assert(x * tw >= 0) by (nonlinear_arith)
        requires
            x >= 0,
            tw >= 0,
    ;
    assert(saturating_mul_spec(x as u64, total_width as u64) == x * tw);
    assert(offset == o);
    let width = map_range_spec(block_size, region_size, total_width);
    let block = if width == 0 {
        '\u{258f}'
    } else {
        '\u{2588}'
    };
    let fill = if width >= 1 {
        width
    } else {
        1usize
    };
    let trailing = saturating_sub_usize(saturating_sub_usize(total_width, offset), fill);
    let bar = horizontal_bar_spec(region_start, region_end, block_start, block_size, total_width);
    let a = seq!['['] + repeat_char(' ', offset as nat);
    let b = a + repeat_char(block, fill as nat);
    assert(bar == b + repeat_char(' ', trailing as nat) + seq![']']);
    assert(bar[0] == a[0]);
    assert forall|k: int| 1 <= k <= o implies #[trigger] bar[k] == ' ' by {
        assert(bar[k] == b[k]);
        assert(b[k] == a[k]);
    }
    assert(bar[o + 1] == b[o + 1]);
    assert(b[o + 1] == block);
}

/// `x` occurs in `y` as a run of consecutive characters.
pub open spec fn occurs_in(x: Seq<char>, y: Seq<char>) -> bool {
    exists|p: int| 0 <= p && p + x.len() <= y.len() && #[trigger] y.subrange(p, p + x.len()) == x
}

proof fn lemma_occurs_in_left(x: Seq<char>, a: Seq<char>, b: Seq<char>)
    requires
        occurs_in(x, a),
    ensures
        occurs_in(x, a + b),
{
    let p = choose|p: int| 0 <= p && p + x.len() <= a.len() && #[trigger] a.subrange(p, p + x.len()) == x;
    assert((a + b).subrange(p, p + x.len()) =~= a.subrange(p, p + x.len()));
    assert((a + b).subrange(p, p + x.len()) == x);
}

proof fn lemma_occurs_in_right(x: Seq<char>, a: Seq<char>, b: Seq<char>)
    requires
        occurs_in(x, b),
    ensures
        occurs_in(x, a + b),
{
    let p = choose|p: int| 0 <= p && p + x.len() <= b.len() && #[trigger] b.subrange(p, p + x.len()) == x;
    let q = a.len() + p;
    assert((a + b).subrange(q, q + x.len()) =~= b.subrange(p, p + x.len()));
    assert((a + b).subrange(q, q + x.len()) == x);
}

proof fn lemma_join_holds_items(items: Seq<Seq<char>>, sep: Seq<char>, m: int)
    requires
        0 <= m < items.len(),
    ensures
        occurs_in(items[m], join(items, sep)),
    decreases items.len(),
{
    let j = join(items, sep);
    if items.len() == 1 {
        assert(j == items[0]);
        assert(j.subrange(0, 0 + items[0].len() as int) =~= items[0]);
    } else {
        let left = join(items.drop_last(), sep) + sep;
        assert(j == left + items.last());
        if m == items.len() - 1 {
            assert(items[m] == items.last());
            assert(items.last().subrange(0, 0 + items.last().len() as int) =~= items.last());
            lemma_occurs_in_right(items[m], left, items.last());
        } else {
            lemma_join_holds_items(items.drop_last(), sep, m);
            assert(items.drop_last()[m] == items[m]);
            lemma_occurs_in_left(items[m], join(items.drop_last(), sep), sep);
            lemma_occurs_in_left(items[m], left, items.last());
        }
    }
}

proof fn lemma_names_in_range_hold(ss: Seq<SectionView>, start: u64, end: u64, j: int)
    requires
        0 <= j < ss.len(),
        ss[j].address < end,
        saturating_add_spec(ss[j].address, ss[j].size) > start,
    ensures
        names_in_range(ss, start, end).contains(ss[j].name),
    decreases ss.len(),
{
    if j == ss.len() - 1 {
        let n = names_in_range(ss.drop_last(), start, end).push(ss.last().name);
        assert(n[n.len() - 1] == ss[j].name);
    } else {
        lemma_names_in_range_hold(ss.drop_last(), start, end, j);
        assert(ss.drop_last()[j] == ss[j]);
        let prev = names_in_range(ss.drop_last(), start, end);
        let k = choose|k: int| 0 <= k < prev.len() && prev[k] == ss[j].name;
        if section_in_range_spec(ss.last(), start, end) {
            assert(prev.push(ss.last().name)[k] == ss[j].name);
        }
    }
}

/// The label of a vertical row names every section that overlaps the row:
/// the name of each section that starts before the row's end and ends after
/// its start occurs in the label. A row ends `bytes_per_row` bytes after its
/// start, or at the region's end where that comes first.
pub proof fn law_row_label_names_every_overlapping_section(
    region_length: u64,
    ss: Seq<SectionView>,
    region_start: u64,
    region_end: u64,
    bytes_per_row: u64,
    bytes_per_cell: u64,
    bar_columns: usize,
    k: int,
    j: int,
)
    requires
        0 <= k < vertical_rows_spec(
            region_length,
            ss,
            region_start,
            region_end,
            bytes_per_row,
            bytes_per_cell,
            bar_columns,
        ).len(),
        0 <= j < ss.len(),
    ensures
        ({
            let row = vertical_rows_spec(
                region_length,
                ss,
                region_start,
                region_end,
                bytes_per_row,
                bytes_per_cell,
                bar_columns,
            )[k];
            let row_end = min_u64(saturating_add_spec(row.start, bytes_per_row), region_end);
            ss[j].address < row_end && saturating_add_spec(ss[j].address, ss[j].size) > row.start
                ==> occurs_in(ss[j].name, row.label)
        }),
{
    let row = vertical_rows_spec(
        region_length,
        ss,
        region_start,
        region_end,
        bytes_per_row,
        bytes_per_cell,
        bar_columns,
    )[k];
    let row_end = min_u64(saturating_add_spec(row.start, bytes_per_row), region_end);
    if ss[j].address < row_end && saturating_add_spec(ss[j].address, ss[j].size) > row.start {
        lemma_names_in_range_hold(ss, row.start, row_end, j);
        let names = names_in_range(ss, row.start, row_end);
        let m = choose|m: int| 0 <= m < names.len() && names[m] == ss[j].name;
        lemma_join_holds_items(names, seq![',', ' '], m);
    }
}

} // verus!
