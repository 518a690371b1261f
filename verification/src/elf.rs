//! Trusted views of the executable's container format: what the object
//! crate reports of a byte image.  Each result is a function of the bytes
//! alone, so it carries an uninterpreted name the contracts share.
use vstd::prelude::*;

use object::{Object, ObjectSection, ObjectSymbol};

verus! {

/// What the container parser reports as the named section's contents, for
/// a given byte image: nothing when the image does not parse or has no
/// such section.
pub uninterp spec fn elf_section_of(elf: Seq<u8>, name: Seq<char>) -> Option<Seq<u8>>;

/// What the container parser reports as the named section's address and
/// size.
pub uninterp spec fn elf_section_place_of(elf: Seq<u8>, name: Seq<char>) -> Option<(u64, u64)>;

/// What the container parser reports as the image's symbols: address,
/// size, name, and whether the symbol marks code.
pub uninterp spec fn elf_symbols_of(elf: Seq<u8>) -> Seq<(u64, u64, Seq<char>, bool)>;

/// What the container parser reports as the contents of each section, in
/// section order.
pub uninterp spec fn elf_sections_of(elf: Seq<u8>) -> Seq<Seq<u8>>;

/// Relies on `object::File::parse`, `Object::section_by_name` and
/// `ObjectSection::data`: the named section's bytes, a function of the
/// image alone.
#[verifier::external_body]
pub fn elf_section_data(elf: &[u8], name: &str) -> (r: Option<Vec<u8>>)
    ensures
        r is Some <==> elf_section_of(elf@, name@) is Some,
        r is Some ==> r->Some_0@ == elf_section_of(elf@, name@)->Some_0,
{
    let obj = object::File::parse(elf).ok()?;
    let section = obj.section_by_name(name)?;
    match section.data() {
        Ok(d) => Some(d.to_vec()),
        Err(_) => None,
    }
}

/// Relies on `object::File::parse`, `Object::section_by_name`,
/// `ObjectSection::address` and `ObjectSection::size`: where the named
/// section is linked and how large it is.
#[verifier::external_body]
pub fn elf_section_place(elf: &[u8], name: &str) -> (r: Option<(u64, u64)>)
    ensures
        r == elf_section_place_of(elf@, name@),
{
    let obj = object::File::parse(elf).ok()?;
    let section = obj.section_by_name(name)?;
    Some((section.address(), section.size()))
}

/// Relies on `object::File::parse`, `Object::symbols` and the
/// `ObjectSymbol` accessors `address`, `size`, `name` and `kind`: the
/// image's symbols as plain values, with the kind reduced to whether it is
/// the code kind.  An unparseable image reports no symbols.
#[verifier::external_body]
pub fn elf_symbols(elf: &[u8]) -> (r: Vec<(u64, u64, String, bool)>)
    ensures
        r@.len() == elf_symbols_of(elf@).len(),
        forall|i: int|
            0 <= i < r@.len() ==> {
                let s = elf_symbols_of(elf@)[i];
                (#[trigger] r@[i]).0 == s.0 && r@[i].1 == s.1 && r@[i].2@ == s.2 && r@[i].3 == s.3
            },
{
    let mut out: Vec<(u64, u64, String, bool)> = Vec::new();
    let obj = match object::File::parse(elf) {
        Ok(o) => o,
        Err(_) => return out,
    };
    for sym in obj.symbols() {
        let name = sym.name().unwrap_or("").to_owned();
        let is_text = sym.kind() == object::SymbolKind::Text;
        out.push((sym.address(), sym.size(), name, is_text));
    }
    out
}

/// Relies on `object::File::parse`, `Object::sections` and
/// `ObjectSection::data`: the raw contents of every section whose data is
/// readable, in section order.  An unparseable image reports none.
#[verifier::external_body]
pub fn elf_sections_data(elf: &[u8]) -> (r: Vec<Vec<u8>>)
    ensures
        r@.len() == elf_sections_of(elf@).len(),
        forall|i: int| 0 <= i < r@.len() ==> (#[trigger] r@[i])@ == elf_sections_of(elf@)[i],
{
    let mut out: Vec<Vec<u8>> = Vec::new();
    let obj = match object::File::parse(elf) {
        Ok(o) => o,
        Err(_) => return out,
    };
    for section in obj.sections() {
        if let Ok(d) = section.data() {
            out.push(d.to_vec());
        }
    }
    out
}

} // verus!
