use map_segments::layout::map_sections_to_regions;
use map_segments::memory_map::Region;
use map_segments::render::{
    build_horizontal_bar, build_vertical_bar, bytes_to_kb, choose_bytes_per_cell, coverage_char,
    covered_bytes_in_range, div_ceil, horizontal_map_lines, longest_names, map_range,
    section_in_range, usage_percent, vertical_map_lines,
};
use map_segments::sections::SectionInfo;

fn region(name: &str, start: u64, length: u64) -> Region {
    Region { name: name.to_string(), start, length }
}

fn section(name: &str, address: u64, size: u64) -> SectionInfo {
    SectionInfo { name: name.to_string(), address, size }
}

#[test]
fn arithmetic_helpers() {
    assert_eq!(div_ceil(10, 3), 4);
    assert_eq!(div_ceil(9, 3), 3);
    assert_eq!(div_ceil(5, 0), 0);
    assert_eq!(div_ceil(u64::MAX, 2), u64::MAX / 2);
    assert_eq!(usage_percent(0, 0), 0);
    assert_eq!(usage_percent(1, 1000), 1);
    assert_eq!(usage_percent(500, 1000), 50);
    assert_eq!(usage_percent(5000, 1000), 100);
    assert_eq!(bytes_to_kb(1), 1);
    assert_eq!(bytes_to_kb(2048), 2);
    assert_eq!(map_range(50, 100, 40), 20);
    assert_eq!(map_range(5, 0, 40), 0);
    assert_eq!(choose_bytes_per_cell(4096, 8), 1024);
    assert_eq!(choose_bytes_per_cell(100, 8), 1);
    assert_eq!(choose_bytes_per_cell(0, 0), 1);
    assert_eq!(choose_bytes_per_cell(300_000, 16), 2048);
}

#[test]
fn coverage_blocks() {
    assert_eq!(coverage_char(0, 10), ' ');
    assert_eq!(coverage_char(5, 0), ' ');
    assert_eq!(coverage_char(1, 80), '\u{258f}');
    assert_eq!(coverage_char(40, 80), '\u{258c}');
    assert_eq!(coverage_char(80, 80), '\u{2588}');
    assert_eq!(coverage_char(200, 80), '\u{2588}');
}

#[test]
fn ranges_and_overlaps() {
    let a = section("a", 0x10, 0x10);
    let b = section("b", 0x18, 0x10);
    assert!(section_in_range(&a, 0x0, 0x11));
    assert!(!section_in_range(&a, 0x20, 0x30));
    assert_eq!(covered_bytes_in_range(&[&a, &b], 0x14, 0x1c), 8 + 4);
}

#[test]
fn horizontal_bar_text() {
    let bar = build_horizontal_bar(0, 0x1000, 0x100, 0x20, 27);
    assert_eq!(bar, format!("[ \u{258f}{}]", " ".repeat(25)));
    let bar = build_horizontal_bar(0, 100, 0, 100, 10);
    assert_eq!(bar, format!("[{}]", "\u{2588}".repeat(10)));
}

#[test]
fn vertical_bar_text() {
    let text = section(".text", 0x100, 0x20);
    let bar = build_vertical_bar(&[&text], 0, 0x1000, 0x1000, 1024, 8);
    assert_eq!(bar, "\u{258f}       ");
}

#[test]
fn horizontal_map_text() {
    let regions = vec![region("FLASH", 0, 0x1000), region("RAM", 0x2000, 0x1000)];
    let sections = vec![section(".text", 0x100, 0x20)];
    let layouts = map_sections_to_regions(&sections, &regions);
    assert_eq!(longest_names(&layouts), (5, 5));
    let lines = horizontal_map_lines(&layouts, 60);
    assert_eq!(
        lines,
        vec![format!(".text 00000100      32 FLASH [ \u{258f}{}]", " ".repeat(25))]
    );
}

#[test]
fn horizontal_map_groups_regions() {
    let regions = vec![region("FLASH", 0, 0x1000), region("RAM", 0x2000, 0x1000)];
    let sections = vec![
        section(".text", 0, 0x800),
        section(".rodata", 0x800, 0x10),
        section(".data", 0x2000, 0x1000),
    ];
    let layouts = map_sections_to_regions(&sections, &regions);
    let lines = horizontal_map_lines(&layouts, 45);
    assert_eq!(
        lines,
        vec![
            ".text   00000000    2048 FLASH [\u{2588}\u{2588}\u{2588}\u{2588}\u{2588}     ]".to_string(),
            ".rodata 00000800      16 FLASH [     \u{258f}    ]".to_string(),
            String::new(),
            ".data   00002000    4096 RAM   [\u{2588}\u{2588}\u{2588}\u{2588}\u{2588}\u{2588}\u{2588}\u{2588}\u{2588}\u{2588}]".to_string(),
        ]
    );
}

#[test]
fn vertical_map_text() {
    let regions = vec![
        region("FLASH", 0, 0x1000),
        region("RAM", 0x2000, 0),
    ];
    let sections = vec![section(".text", 0x100, 0x20), section(".x", 0x2000, 0)];
    let layouts = map_sections_to_regions(&sections, &regions);
    let lines = vertical_map_lines(&layouts, 80);
    assert_eq!(
        lines,
        vec![
            "FLASH 00000000..00001000 (1% used; 1kb / 4kb)".to_string(),
            "      Scale: 1 character = 1024 bytes, row = 8192 bytes".to_string(),
            "      00000000 [\u{258f}       ] .text".to_string(),
            String::new(),
            "RAM   00002000..00002000 (0% used; 0kb / 0kb)".to_string(),
            "      00002000 [        ] (empty region)".to_string(),
        ]
    );
}
