use golang_profiling::elf::{elf_section_data, elf_section_place, elf_symbols};
use golang_profiling::runtime::GoRuntimeParser;
use object::write::{Object, Symbol, SymbolSection};
use object::{
    Architecture, BinaryFormat, Endianness, SectionKind, SymbolFlags, SymbolKind, SymbolScope,
};

fn sample_image() -> Vec<u8> {
    let mut obj = Object::new(BinaryFormat::Elf, Architecture::X86_64, Endianness::Little);
    let text = obj.add_section(Vec::new(), b".text".to_vec(), SectionKind::Text);
    obj.set_section_data(text, b"\x90\x90\x90\x90".to_vec(), 16);
    let tab = obj.add_section(Vec::new(), b".gopclntab".to_vec(), SectionKind::ReadOnlyData);
    obj.set_section_data(tab, b"go1.22.3 table bytes".to_vec(), 8);
    obj.add_symbol(Symbol {
        name: b"main.main".to_vec(),
        value: 0x40,
        size: 0x10,
        kind: SymbolKind::Text,
        scope: SymbolScope::Linkage,
        weak: false,
        section: SymbolSection::Section(text),
        flags: SymbolFlags::None,
    });
    obj.write().unwrap()
}

#[test]
fn section_data_through_container() {
    let image = sample_image();
    let data = elf_section_data(&image, ".gopclntab").unwrap();
    assert_eq!(data, b"go1.22.3 table bytes".to_vec());
    assert!(elf_section_data(&image, ".nosuchsection").is_none());
    assert!(elf_section_data(b"not an object", ".text").is_none());
}

#[test]
fn section_place_through_container() {
    let image = sample_image();
    let place = elf_section_place(&image, ".gopclntab").unwrap();
    assert_eq!(place.1, 20);
    assert!(elf_section_place(&image, ".nosuchsection").is_none());
}

#[test]
fn symbols_through_container() {
    let image = sample_image();
    let syms = elf_symbols(&image);
    let found = syms
        .iter()
        .find(|s| s.2 == "main.main")
        .expect("symbol listed");
    assert_eq!(found.1, 0x10);
    assert!(found.3);
    assert!(elf_symbols(b"junk").is_empty());
}

#[test]
fn version_detected_in_image() {
    let image = sample_image();
    let parser = GoRuntimeParser::new();
    let version = parser.extract_go_version(&image).unwrap();
    assert_eq!(version, "go1.22.3");
    let place = parser.find_func_table(&image).unwrap();
    assert_eq!(place.1, 20);
}

#[test]
fn descriptor_from_image() {
    let image = sample_image();
    let parser = GoRuntimeParser::new();
    let info = parser.parse_binary(&image, "").unwrap();
    assert_eq!(&info.version[..8], b"go1.22.3");
    assert_eq!(info.g_offset, 0x30);
    assert_eq!(info.pc_quantum, 1);
    assert_eq!(info.func_tab_size, 20);
}
