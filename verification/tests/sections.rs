use map_segments::sections::{
    is_included_in_binary, sections_from_object_data, select_sections, RawSection, KindOfSection,
    SectionInfo,
};

fn raw(name: Option<&str>, address: u64, size: u64, kind: KindOfSection) -> RawSection {
    RawSection { name: name.map(|n| n.to_string()), address, size, kind }
}

#[test]
fn section_bounds() {
    let s = SectionInfo { name: ".text".to_string(), address: 0x100, size: 0x20 };
    assert_eq!(s.starts_at(), 0x100);
    assert_eq!(s.ends_at(), 0x120);
    let s = SectionInfo { name: "x".to_string(), address: u64::MAX - 1, size: 5 };
    assert_eq!(s.ends_at(), u64::MAX);
}

#[test]
fn selection_filters_and_sorts_stably() {
    let input = vec![
        raw(Some(".data"), 0x2000, 8, KindOfSection::Data),
        raw(Some(".debug"), 0, 100, KindOfSection::Other),
        raw(Some(".empty"), 0x10, 0, KindOfSection::Text),
        raw(Some(".text"), 0x100, 4, KindOfSection::Text),
        raw(None, 0x100, 2, KindOfSection::ReadOnlyData),
        raw(Some(".bss"), 0x2008, 4, KindOfSection::UninitializedData),
    ];
    let selected = select_sections(&input);
    let got: Vec<(String, u64, u64)> = selected
        .iter()
        .map(|s| (s.name.clone(), s.address, s.size))
        .collect();
    assert_eq!(
        got,
        vec![
            (".text".to_string(), 0x100, 4),
            ("UNKNOWN".to_string(), 0x100, 2),
            (".data".to_string(), 0x2000, 8),
            (".bss".to_string(), 0x2008, 4),
        ]
    );
}

#[test]
fn included_kinds() {
    for kind in [
        KindOfSection::Text,
        KindOfSection::Data,
        KindOfSection::ReadOnlyData,
        KindOfSection::ReadOnlyString,
        KindOfSection::UninitializedData,
        KindOfSection::Common,
        KindOfSection::Tls,
        KindOfSection::UninitializedTls,
    ] {
        assert!(is_included_in_binary(kind));
    }
    for kind in [
        KindOfSection::Unknown,
        KindOfSection::ReadOnlyDataWithRel,
        KindOfSection::TlsVariables,
        KindOfSection::OtherString,
        KindOfSection::Other,
        KindOfSection::Debug,
        KindOfSection::DebugString,
        KindOfSection::Linker,
        KindOfSection::Note,
        KindOfSection::Metadata,
        KindOfSection::Elf(7),
    ] {
        assert!(!is_included_in_binary(kind));
    }
}

#[test]
fn unparsable_object_data_is_an_error() {
    assert!(sections_from_object_data(b"not an object file").is_err());
}

fn push_u16(v: &mut Vec<u8>, x: u16) {
    v.extend_from_slice(&x.to_le_bytes());
}

fn push_u32(v: &mut Vec<u8>, x: u32) {
    v.extend_from_slice(&x.to_le_bytes());
}

fn push_u64(v: &mut Vec<u8>, x: u64) {
    v.extend_from_slice(&x.to_le_bytes());
}

/// A minimal little-endian ELF64 file with the given sections
/// (name, type, flags, address, size); a `.shstrtab` is added last.
fn elf_with_sections(sections: &[(&str, u32, u64, u64, u64)]) -> Vec<u8> {
    let mut names = vec![0u8];
    let mut name_offsets = Vec::new();
    for (name, ..) in sections {
        name_offsets.push(names.len() as u32);
        names.extend_from_slice(name.as_bytes());
        names.push(0);
    }
    let shstrtab_name = names.len() as u32;
    names.extend_from_slice(b".shstrtab\0");

    let data_offset = 64u64;
    let data_len: u64 = sections
        .iter()
        .filter(|s| s.1 != 8)
        .map(|s| s.4)
        .sum();
    let names_offset = data_offset + data_len;
    let headers_offset = (names_offset + names.len() as u64 + 7) / 8 * 8;
    let count = sections.len() as u16 + 2;

    let mut file = Vec::new();
    file.extend_from_slice(&[0x7f, b'E', b'L', b'F', 2, 1, 1, 0, 0, 0, 0, 0, 0, 0, 0, 0]);
    push_u16(&mut file, 2);
    push_u16(&mut file, 0x28);
    push_u32(&mut file, 1);
    push_u64(&mut file, 0);
    push_u64(&mut file, 0);
    push_u64(&mut file, headers_offset);
    push_u32(&mut file, 0);
    push_u16(&mut file, 64);
    push_u16(&mut file, 56);
    push_u16(&mut file, 0);
    push_u16(&mut file, 64);
    push_u16(&mut file, count);
    push_u16(&mut file, count - 1);
    for s in sections {
        if s.1 != 8 {
            file.extend(std::iter::repeat(0xAAu8).take(s.4 as usize));
        }
    }
    file.extend_from_slice(&names);
    while (file.len() as u64) < headers_offset {
        file.push(0);
    }
    file.extend(std::iter::repeat(0u8).take(64));
    let mut offset = data_offset;
    for (i, (_, kind, flags, address, size)) in sections.iter().enumerate() {
        push_u32(&mut file, name_offsets[i]);
        push_u32(&mut file, *kind);
        push_u64(&mut file, *flags);
        push_u64(&mut file, *address);
        push_u64(&mut file, if *kind == 8 { 0 } else { offset });
        push_u64(&mut file, *size);
        push_u32(&mut file, 0);
        push_u32(&mut file, 0);
        push_u64(&mut file, 1);
        push_u64(&mut file, 0);
        if *kind != 8 {
            offset += size;
        }
    }
    push_u32(&mut file, shstrtab_name);
    push_u32(&mut file, 3);
    push_u64(&mut file, 0);
    push_u64(&mut file, 0);
    push_u64(&mut file, names_offset);
    push_u64(&mut file, names.len() as u64);
    push_u32(&mut file, 0);
    push_u32(&mut file, 0);
    push_u64(&mut file, 1);
    push_u64(&mut file, 0);
    file
}

#[test]
fn object_file_sections_are_selected_and_sorted() {
    const PROGBITS: u32 = 1;
    const NOBITS: u32 = 8;
    const WRITE: u64 = 1;
    const ALLOC: u64 = 2;
    const EXEC: u64 = 4;
    const STRINGS: u64 = 0x20;
    let elf = elf_with_sections(&[
        (".bss", NOBITS, ALLOC | WRITE, 0x2000, 0x10),
        (".text", PROGBITS, ALLOC | EXEC, 0x100, 0x20),
        (".comment", PROGBITS, STRINGS, 0, 4),
        (".empty", PROGBITS, ALLOC | WRITE, 0x50, 0),
        (".rodata", PROGBITS, ALLOC, 0x120, 8),
    ]);
    let sections = sections_from_object_data(&elf).unwrap();
    let got: Vec<(String, u64, u64)> = sections
        .iter()
        .map(|s| (s.name.clone(), s.address, s.size))
        .collect();
    assert_eq!(
        got,
        vec![
            (".text".to_string(), 0x100, 0x20),
            (".rodata".to_string(), 0x120, 8),
            (".bss".to_string(), 0x2000, 0x10),
        ]
    );
}
