use map_segments::layout::{map_regions, map_sections_to_regions};
use map_segments::memory_map::Region;
use map_segments::sections::SectionInfo;

fn region(name: &str, start: u64, length: u64) -> Region {
    Region { name: name.to_string(), start, length }
}

fn section(name: &str, address: u64, size: u64) -> SectionInfo {
    SectionInfo { name: name.to_string(), address, size }
}

#[test]
fn keeps_empty_regions() {
    let regions = vec![
        Region {
            name: "FLASH".to_string(),
            start: 0x0000,
            length: 0x1000,
        },
        Region {
            name: "RAM".to_string(),
            start: 0x2000,
            length: 0x1000,
        },
    ];
    let sections = vec![SectionInfo {
        name: ".text".to_string(),
        address: 0x0100,
        size: 0x20,
    }];

    let layouts = map_sections_to_regions(&sections, &regions);

    assert_eq!(layouts.len(), 2);
    assert_eq!(layouts[0].sections.len(), 1);
    assert!(layouts[1].sections.is_empty());
}

#[test]
fn ignores_unmapped_sections() {
    let regions = vec![Region {
        name: "FLASH".to_string(),
        start: 0x0000,
        length: 0x1000,
    }];
    let sections = vec![SectionInfo {
        name: ".text".to_string(),
        address: 0x3000,
        size: 0x20,
    }];

    let layouts = map_sections_to_regions(&sections, &regions);

    assert!(layouts[0].sections.is_empty());
    assert_eq!(layouts[0].used_bytes, 0);
}

// -- Further cases --------------------------------------------------------

#[test]
fn last_containing_region_wins_and_sizes_add_up() {
    let regions = vec![region("ALL", 0, 0x10000), region("RAM", 0x2000, 0x1000)];
    let sections = vec![
        section(".text", 0x100, 0x20),
        section(".data", 0x2000, 0x10),
        section(".bss", 0x2010, 0x30),
        section(".straddle", 0x2ff0, 0x20),
        section(".edge", 0x3000, 0),
    ];
    let layouts = map_sections_to_regions(&sections, &regions);
    let names = |k: usize| -> Vec<String> {
        layouts[k].sections.iter().map(|s| s.name.clone()).collect()
    };
    assert_eq!(names(0), vec![".text", ".straddle"]);
    assert_eq!(names(1), vec![".data", ".bss", ".edge"]);
    assert_eq!(layouts[0].used_bytes, 0x40);
    assert_eq!(layouts[1].used_bytes, 0x40);
    assert_eq!(layouts[1].region.name, "RAM");
}

#[test]
fn used_bytes_saturate() {
    let regions = vec![region("ALL", 0, u64::MAX)];
    let sections = vec![section("a", 0, u64::MAX - 1), section("b", 0, 5)];
    let layouts = map_sections_to_regions(&sections, &regions);
    assert_eq!(layouts[0].used_bytes, u64::MAX);
}

#[test]
fn map_regions_pairs_agree_with_layouts() {
    let regions = vec![region("FLASH", 0, 0x1000), region("RAM", 0x800, 0x1000)];
    let sections = vec![
        section(".a", 0x10, 0x10),
        section(".b", 0x900, 0x10),
        section(".c", 0x5000, 0x10),
    ];
    let pairs = map_regions(&sections, &regions);
    let names: Vec<(String, String)> = pairs
        .iter()
        .map(|(s, r)| (s.name.clone(), r.name.clone()))
        .collect();
    assert_eq!(
        names,
        vec![
            (".a".to_string(), "FLASH".to_string()),
            (".b".to_string(), "RAM".to_string()),
        ]
    );
    let layouts = map_sections_to_regions(&sections, &regions);
    assert_eq!(layouts[1].sections[0].name, ".b");
}
