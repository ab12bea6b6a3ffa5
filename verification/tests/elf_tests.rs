use metrowrap::elf::{
    Elf, ElfHeader, Relocation, SectionVariant, SHT_NOBITS, RelocationRecord, Section, StrTab, SymTab, Symbol, SHT_REL, SHT_STRTAB, SHT_SYMTAB,
    STB_GLOBAL, STB_LOCAL,
};
use metrowrap::le::{push_u16_le, push_u32_le, read_u16_le, read_u32_le, ByteReader};
use metrowrap::{rodata_section_for_offset, shifted_symbol_index, split_relocations};

fn new_empty_section() -> Section {
    Section::new(0, 0, 0, 0, 0, 0, 0, 0, 0, 0, vec![])
}

fn symbol_from_string(name: u32, text: &str) -> Symbol {
    Symbol {
        st_name: name,
        st_value: 0,
        st_size: 0,
        st_info: 0,
        st_other: 0,
        st_shndx: 0,
        name: text.to_string(),
    }
}

#[test]
fn test_add_symbol() {
    let section = Section::new(0, SHT_STRTAB, 0, 0, 0, 0, 0, 0, 0, 0, vec![]);
    let mut strtab = StrTab::new(section);

    let index = strtab.add_symbol("");
    assert_eq!(0, index);
    assert_eq!(vec![0], strtab.section.data);

    strtab.add_symbol(".rel.text");

    let (_header, data) = strtab.pack();
    assert_eq!("\0.rel.text\0".bytes().collect::<Vec<u8>>(), data);
}

#[test]
fn test_roundtrip() {
    let mut empty_section = new_empty_section();
    empty_section.sh_type = SHT_SYMTAB;

    let mut symtab = SymTab::new(empty_section.clone());
    assert!(symtab.symbols.is_empty());

    let (header, _data) = symtab.pack();
    assert_eq!(empty_section.pack_header(), header);
}

#[test]
fn test_add() {
    let mut symtab = SymTab::new(new_empty_section());
    symtab.section.sh_type = SHT_SYMTAB;

    let mut sym = symbol_from_string(7, "hello");
    sym.st_info = (STB_GLOBAL << 4) | (sym.st_info & 0xF);
    let index = symtab.add_symbol(sym);
    assert_eq!(0, index);
    assert_eq!(1, symtab.symbols.len());
    symtab.pack();
    assert_eq!(16, symtab.section.data.len());

    let mut sym = symbol_from_string(2, "world");
    sym.st_info = STB_GLOBAL << 4 | sym.st_info;
    let index = symtab.add_symbol(sym);
    assert_eq!(1, index);
    assert_eq!(2, symtab.symbols.len());
    symtab.pack();
    assert_eq!(32, symtab.section.data.len());

    let mut local_sym = symbol_from_string(8, "goodbye");
    local_sym.st_info = (STB_LOCAL << 4) | (local_sym.st_info & 0xF);
    let index = symtab.add_symbol(local_sym);
    assert_eq!(0, index);
    assert_eq!(3, symtab.symbols.len());
    symtab.pack();
    assert_eq!(48, symtab.section.data.len());
}

#[test]
fn test_relocation_at_boundary() {
    let rodata_section_offsets = vec![13, 29, 48];
    let test_offset = 13u32;
    let found_section = rodata_section_for_offset(&rodata_section_offsets, test_offset);
    assert_eq!(
        found_section,
        Some(1),
        "Relocation at boundary should go to next section"
    );
}

#[test]
fn test_zero_sized_rodata() {
    let rodata_section_offsets = vec![0, 0, 0];
    let relocations = vec![Relocation {
        r_offset: 0,
        r_info: 0x105,
        symbol: String::new(),
    }];
    let new_relocations = split_relocations(&relocations, &rodata_section_offsets);
    let assigned: usize = new_relocations.iter().map(|v| v.len()).sum();
    for relocation in &relocations {
        assert!(assigned == 1 || relocation.r_offset >= *rodata_section_offsets.last().unwrap() as u32);
    }
}

#[test]
fn test_large_offset_values() {
    let large_offset = 0xFFFF_FFF0u32;
    let rodata_section_offsets = vec![100, 1000, 10000];
    let relocation = Relocation {
        r_offset: large_offset,
        r_info: 0x105,
        symbol: String::new(),
    };
    let found_section = rodata_section_for_offset(&rodata_section_offsets, relocation.r_offset);
    assert_eq!(
        found_section, None,
        "Very large offset should not match any section"
    );
}

#[test]
fn test_symbol_index_at_threshold() {
    let initial_sh_info_value = 10;
    let local_syms_inserted = 3;
    let test_indices = vec![9, 10, 11];
    for idx in test_indices {
        let updated = shifted_symbol_index(idx, initial_sh_info_value, local_syms_inserted);
        if idx < initial_sh_info_value {
            assert_eq!(updated, idx, "Index {} below threshold should not change", idx);
        } else {
            assert_eq!(
                updated,
                idx + local_syms_inserted,
                "Index {} at/above threshold should increase by {}",
                idx,
                local_syms_inserted
            );
        }
    }
}

#[test]
fn test_empty_rodata_section_indexes() {
    let rodata_section_indexes: Vec<usize> = vec![];
    if !rodata_section_indexes.is_empty() {
        let _first = rodata_section_indexes[0];
    }
    assert_eq!(split_relocations(&[], &rodata_section_indexes).len(), 0);
}

#[test]
fn test_undefined_symbol_relocation() {
    let relocation = Relocation {
        r_offset: 10,
        r_info: 0x0005,
        symbol: String::new(),
    };
    assert_eq!(relocation.symbol_index(), 0, "Symbol index should be 0");
}

#[test]
fn test_empty_relocation_record() {
    let mut section = Section::default();
    section.sh_type = SHT_REL;
    section.sh_info = 5;

    let mut reloc_record = RelocationRecord::new(section);
    assert_eq!(reloc_record.relocations.len(), 0);

    reloc_record.pack_data();
    assert_eq!(reloc_record.section.data.len(), 0);
}

#[test]
fn test_relocation_type_preserved() {
    let original_types = vec![1, 2, 4, 5, 16, 26];
    for reloc_type in original_types {
        let mut reloc = Relocation {
            r_offset: 0,
            r_info: (5 << 8) | reloc_type,
            symbol: String::new(),
        };
        assert_eq!(reloc.type_id(), reloc_type, "Type should be preserved");
        reloc.set_symbol_index(10);
        assert_eq!(
            reloc.type_id(),
            reloc_type,
            "Type should be preserved after changing symbol index"
        );
    }
}

#[test]
fn test_many_relocations() {
    let num_relocs = 100;
    let rodata_section_offsets = vec![50, 150, 300];
    let mut relocations = Vec::new();
    for i in 0..num_relocs {
        relocations.push(Relocation {
            r_offset: (i * 3) as u32,
            r_info: ((i % 10) << 8) | 5,
            symbol: String::new(),
        });
    }
    let new_relocations = split_relocations(&relocations, &rodata_section_offsets);
    let total_assigned: u32 = new_relocations.iter().map(|v| v.len() as u32).sum();
    assert!(
        total_assigned <= num_relocs,
        "Should assign at most {} relocations",
        num_relocs
    );
}

#[test]
fn test_split_relocations_offsets() {
    let offsets = vec![8, 16];
    let relocations = vec![
        Relocation { r_offset: 0, r_info: 0x105, symbol: String::new() },
        Relocation { r_offset: 12, r_info: 0x205, symbol: String::new() },
        Relocation { r_offset: 16, r_info: 0x305, symbol: String::new() },
        Relocation { r_offset: 4, r_info: 0x405, symbol: String::new() },
    ];
    let parts = split_relocations(&relocations, &offsets);
    assert_eq!(parts.len(), 2);
    assert_eq!(parts[0].len(), 2);
    assert_eq!(parts[0][0].r_offset, 0);
    assert_eq!(parts[0][1].r_offset, 4);
    assert_eq!(parts[1].len(), 1);
    assert_eq!(parts[1][0].r_offset, 4);
    assert_eq!(parts[1][0].r_info, 0x205);
}

#[test]
fn test_strtab_reuses_names() {
    let mut strtab = StrTab::new(Section::new(0, SHT_STRTAB, 0, 0, 0, 0, 0, 0, 0, 0, vec![0]));
    let a = strtab.add_symbol("alpha");
    let b = strtab.add_symbol("beta");
    assert_eq!(a, 1);
    assert_eq!(b, 7);
    assert_eq!(strtab.add_symbol("alpha"), 1);
    assert_eq!(strtab.add_symbol("ta"), 9);
    assert_eq!(strtab.get_string(7), "beta");
    assert_eq!(strtab.section.data, b"\0alpha\0beta\0".to_vec());
}

#[test]
fn test_local_symbol_goes_before_globals() {
    let mut symtab = SymTab::new(new_empty_section());
    let mut g = symbol_from_string(1, "g");
    g.st_info = STB_GLOBAL << 4;
    symtab.add_symbol(g);
    let l = symbol_from_string(3, "l");
    let index = symtab.add_symbol(l);
    assert_eq!(index, 0);
    assert_eq!(symtab.section.sh_info, 1);
    assert_eq!(symtab.list(), vec!["l".to_string(), "g".to_string()]);
}

#[test]
fn test_symbol_pack_unpack() {
    let sym = Symbol {
        st_name: 0x01020304,
        st_value: 0x10,
        st_size: 0x20,
        st_info: 0x12,
        st_other: 0,
        st_shndx: 0x0304,
        name: "ignored".to_string(),
    };
    let bytes = sym.pack();
    assert_eq!(bytes.len(), 16);
    assert_eq!(&bytes[0..4], &[4, 3, 2, 1]);
    let back = Symbol::unpack(&bytes);
    assert_eq!(back.st_name, sym.st_name);
    assert_eq!(back.st_shndx, sym.st_shndx);
    assert_eq!(back.st_info, 0x12);
    assert_eq!(back.bind(), 1);
    assert_eq!(back.type_id(), 2);
    assert_eq!(back.name, "");
}

#[test]
fn test_relocation_pack_unpack() {
    let rel = Relocation { r_offset: 0x40, r_info: 0x0000_0305, symbol: String::new() };
    let bytes = rel.pack();
    assert_eq!(bytes, vec![0x40, 0, 0, 0, 5, 3, 0, 0]);
    let all = Relocation::unpack_all(&[bytes.clone(), bytes].concat());
    assert_eq!(all.len(), 2);
    assert_eq!(all[1].symbol_index(), 3);
}

#[test]
fn test_le_roundtrip() {
    let mut buf = Vec::new();
    push_u32_le(&mut buf, 0xDEADBEEF);
    push_u16_le(&mut buf, 0xCAFE);
    assert_eq!(buf, vec![0xEF, 0xBE, 0xAD, 0xDE, 0xFE, 0xCA]);
    let mut rdr = ByteReader::new(&buf);
    assert_eq!(read_u32_le(&mut rdr), 0xDEADBEEF);
    assert_eq!(read_u16_le(&mut rdr), 0xCAFE);
}

fn named_section(name: &str, sh_name: u32, sh_type: u32, align: u32, data: Vec<u8>) -> Section {
    let mut s = Section::new(sh_name, sh_type, 0, 0, 0, data.len() as u32, 0, 0, align, 0, data);
    s.name = name.to_string();
    s
}

fn sample_elf() -> Elf {
    let shstr = b"\0.shstrtab\0.strtab\0.symtab\0.text\0".to_vec();
    let str_data = b"\0foo\0".to_vec();
    let mut foo = symbol_from_string(1, "foo");
    foo.st_info = (STB_GLOBAL << 4) | 2;
    foo.st_shndx = 4;
    foo.st_size = 8;
    let mut sym_data = symbol_from_string(0, "").pack();
    sym_data.extend(foo.pack());

    let sections = vec![
        named_section("", 0, 0, 0, vec![]),
        named_section(".shstrtab", 1, SHT_STRTAB, 0, shstr),
        named_section(".strtab", 11, SHT_STRTAB, 0, str_data),
        named_section(".symtab", 19, SHT_SYMTAB, 2, sym_data),
        named_section(".text", 27, 1, 2, vec![1, 2, 3, 4, 5, 6, 7, 8, 9]),
    ];
    let mut ident = [0u8; 16];
    ident[..7].copy_from_slice(&[0x7f, b'E', b'L', b'F', 1, 1, 1]);
    let header = ElfHeader {
        ident,
        e_type: 1,
        e_machine: 8,
        e_version: 1,
        e_entry: 0,
        e_phoff: 0,
        e_shoff: 0,
        e_flags: 0,
        e_ehsize: 52,
        e_phentsize: 0,
        e_phnum: 0,
        e_shentsize: 40,
        e_shnum: 5,
        e_shstrndx: 1,
    };
    let mut symtab = SymTab::new(sections[3].clone());
    symtab.symbols[1].name = "foo".to_string();
    Elf {
        header,
        shstrtab: StrTab::new(sections[1].clone()),
        strtab: StrTab::new(sections[2].clone()),
        symtab,
        sections,
        shstrtab_idx: 1,
        strtab_idx: 2,
        symtab_idx: 3,
    }
}

#[test]
fn test_pack_reads_back() {
    let mut elf = sample_elf();
    assert!(elf.can_pack());
    let bytes = elf.pack();

    let back = Elf::try_from_bytes(&bytes).expect("packed bytes read back");
    assert_eq!(back.header.ident, elf.header.ident);
    assert_eq!(back.header.e_machine, 8);
    assert_eq!(back.header.e_shstrndx, 1);
    assert_eq!(back.header.e_shnum, 5);
    assert_eq!(back.header.e_shoff as usize, bytes.len() - 5 * 40);
    assert_eq!(back.sections.len(), elf.sections.len());
    for (a, b) in back.sections.iter().zip(elf.sections.iter()) {
        assert_eq!(a.name, b.name);
        assert_eq!(a.sh_name, b.sh_name);
        assert_eq!(a.sh_type, b.sh_type);
        assert_eq!(a.sh_offset, b.sh_offset);
        assert_eq!(a.sh_size, b.sh_size);
        assert_eq!(a.sh_addralign, b.sh_addralign);
        assert_eq!(a.data, b.data);
    }
    // the payloads are laid out from offset 64, one after another; a payload is
    // followed by the padding that brings its end to its alignment
    assert_eq!(back.sections[1].sh_offset, 64);
    assert_eq!(back.sections[2].sh_offset, 97);
    assert_eq!(back.sections[3].sh_offset, 102);
    assert_eq!(back.sections[4].sh_offset, 136);
    assert_eq!(back.sections[4].data, vec![1, 2, 3, 4, 5, 6, 7, 8, 9]);
    assert_eq!(back.shstrtab_idx, 1);
    assert_eq!(back.strtab_idx, 2);
    assert_eq!(back.symtab_idx, 3);
    assert_eq!(back.symtab.symbols.len(), 2);
    for (a, b) in back.symtab.symbols.iter().zip(elf.symtab.symbols.iter()) {
        assert_eq!(a.name, b.name);
        assert_eq!(a.st_name, b.st_name);
        assert_eq!(a.st_info, b.st_info);
        assert_eq!(a.st_size, b.st_size);
        assert_eq!(a.st_shndx, b.st_shndx);
    }
    assert_eq!(back.symtab.symbols[1].name, "foo");
    assert_eq!(back.symtab.symbols[1].st_shndx, 4);

    // adding a new global symbol puts it last, with its name read back from the table
    let mut e2 = back;
    let mut bar = symbol_from_string(0, "bar");
    bar.st_info = (STB_GLOBAL << 4) | 2;
    let r = e2.add_symbol(bar.clone());
    assert_eq!(r, 2);
    assert_eq!(e2.get_symbols().len(), 3);
    assert_eq!(e2.get_symbols()[r].name, "bar");
    assert_eq!(e2.strtab.get_str(e2.get_symbols()[r].st_name as usize), "bar");
    let strdata = e2.strtab.section.data.clone();
    assert_eq!(e2.add_symbol(bar), 2);
    assert_eq!(e2.get_symbols().len(), 3);
    assert_eq!(e2.strtab.section.data, strdata);
}

#[test]
fn test_unpack_leaves_reader_after_payload() {
    let payload = vec![9u8, 8, 7, 6, 5];
    let s = Section::new(1, 1, 0, 0, 48, 5, 0, 0, 0, 0, payload.clone());
    let mut buf = vec![0u8; 8];
    buf.extend(s.pack_header());
    buf.extend(payload.clone());
    buf.extend(vec![0u8; 3]);
    let mut rdr = ByteReader::new(&buf);
    rdr.set_position(8);
    let back = Section::unpack(&mut rdr);
    assert_eq!(back.data, payload);
    assert_eq!(rdr.pos, 53);

    let bss = Section::new(1, SHT_NOBITS, 0, 0, 48, 64, 0, 0, 0, 0, vec![]);
    let mut buf = vec![0u8; 8];
    buf.extend(bss.pack_header());
    let mut rdr = ByteReader::new(&buf);
    rdr.set_position(8);
    let back = Section::unpack(&mut rdr);
    assert!(back.data.is_empty());
    assert_eq!(back.sh_size, 64);
    assert_eq!(rdr.pos, 48);
}

#[test]
fn test_wrap_symbol_table_holds_its_symbols() {
    let mut data = symbol_from_string(0, "").pack();
    let mut foo = symbol_from_string(1, "");
    foo.st_size = 4;
    data.extend(foo.pack());
    let sec = Section::new(0, SHT_SYMTAB, 0, 0, 0, 32, 0, 0, 0, 0, data);
    match SectionVariant::wrap(sec) {
        SectionVariant::SymTab(t) => {
            assert_eq!(t.symbols.len(), 2);
            assert_eq!(t.symbols[1].st_name, 1);
            assert_eq!(t.symbols[1].st_size, 4);
        }
        _ => panic!("a symbol table section wraps as a symbol table"),
    }
}

#[test]
fn test_strtab_names_read_back_without_leading_nul() {
    let section = Section::new(0, SHT_STRTAB, 0, 0, 0, 4, 0, 0, 0, 0, b"abc\0".to_vec());
    let mut strtab = StrTab::new(section);
    let i = strtab.add_symbol("xyz");
    assert_eq!(i, 4);
    assert_eq!(strtab.get_str(i as usize), "xyz");
    let j = strtab.add_symbol("bc");
    assert_eq!(j, 1);
    assert_eq!(strtab.get_str(j as usize), "bc");
    let data = strtab.section.data.clone();
    assert_eq!(strtab.add_symbol("xyz"), 4);
    assert_eq!(strtab.section.data, data);
}

#[test]
fn test_cleanup_keeps_renamed_symbols() {
    let mut elf = sample_elf();
    let mut a = symbol_from_string(0, "x__dollar__y");
    a.st_info = STB_GLOBAL << 4;
    elf.add_symbol(a);
    let mut b = symbol_from_string(0, "___mw___baz");
    b.st_info = (STB_GLOBAL << 4) | 2;
    elf.add_symbol(b);
    elf.symbol_cleanup();
    let names: Vec<String> = elf.get_symbols().iter().map(|s| s.name.clone()).collect();
    assert!(names.contains(&"baz".to_string()));
    assert!(!names.contains(&"___mw___baz".to_string()));
    assert!(names.contains(&"x$y".to_string()));
    assert!(names.contains(&"x__dollar__y".to_string()));
}

#[test]
fn test_symbol_index_follows_latest_write() {
    let mut section = new_empty_section();
    section.sh_type = SHT_SYMTAB;
    let mut symtab = SymTab::new(section);
    let mut global_a = symbol_from_string(1, "a");
    global_a.st_info = STB_GLOBAL << 4;
    assert_eq!(symtab.add_symbol(global_a), 0);
    assert_eq!(symtab.get_symbol_index("a"), Some(0));
    let local_a = symbol_from_string(1, "a");
    assert_eq!(symtab.add_symbol(local_a), 0);
    // the local went in ahead of the global; the index names the symbol just added
    assert_eq!(symtab.get_symbol_index("a"), Some(0));
    assert_eq!(symtab.get_symbol_by_name("a").map(|(i, s)| (i, s.bind())), Some((0, STB_LOCAL)));
    assert_eq!(symtab.get_symbol_index("b"), None);
    assert_eq!(symtab.get_symbol_index(""), None);
}

#[test]
fn test_symbol_index_follows_prefix_removal() {
    let mut section = new_empty_section();
    section.sh_type = SHT_SYMTAB;
    let mut symtab = SymTab::new(section);
    let mut f = symbol_from_string(1, "___mw___f");
    f.st_info = STB_GLOBAL << 4;
    assert_eq!(symtab.add_symbol(f), 0);
    symtab.remove_function_prefix();
    assert_eq!(symtab.get_symbol_index("f"), Some(0));
    assert_eq!(symtab.get_symbol_index("___mw___f"), None);
}

#[test]
fn test_parse_pack_parse() {
    let mut first = sample_elf();
    let bytes = first.pack();
    let mut e = Elf::try_from_bytes(&bytes).expect("packed bytes read back");
    assert_eq!(e.get_symbol_by_name("foo".to_string()).0, 1);
    let bytes2 = e.pack();
    let e2 = Elf::try_from_bytes(&bytes2).expect("repacked bytes read back");
    assert_eq!(e2.sections.len(), e.sections.len());
    for (i, (a, b)) in e2.sections.iter().zip(e.sections.iter()).enumerate() {
        if i != e.shstrtab_idx {
            assert_eq!(a.name, b.name);
        }
        assert_eq!(a.sh_name, b.sh_name);
        assert_eq!(a.sh_type, b.sh_type);
        assert_eq!(a.sh_offset, b.sh_offset);
        assert_eq!(a.sh_size, b.sh_size);
        assert_eq!(a.data, b.data);
    }
    // packing keeps no name for the section-name table; reading gives it back
    assert_eq!(e.sections[1].name, "");
    assert_eq!(e2.sections[1].name, ".shstrtab");
    assert_eq!((e2.shstrtab_idx, e2.strtab_idx, e2.symtab_idx), (1, 2, 3));
    assert_eq!(e2.symtab.symbols.len(), e.symtab.symbols.len());
    assert_eq!(e2.symtab.symbols[1].name, "foo");
    assert_eq!(e2.symtab.get_symbol_index("foo"), Some(1));
    assert_eq!(e2.header.e_shoff, e.header.e_shoff);
}
