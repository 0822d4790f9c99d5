//! The loaded game image: its bytes, its base address and the sections that
//! its PE header lists.
//!
//! A `Program` holds a copy of the image bytes that start at the module's
//! base address (the caller reads them from memory) and parses the PE
//! headers found in them: the DOS header's `e_lfanew`, the section count of
//! the NT file header, and one 40-byte section header per section, located
//! right after the 264-byte 64-bit NT headers.
use crate::pattern::{is_first_match, matches_at, no_match, scan_bytes};
use vstd::prelude::*;
use vstd::utf8::{decode_utf8, valid_utf8};

verus! {

/// Size of the DOS header (`IMAGE_DOS_HEADER`).
pub const DOS_HEADER_SIZE: usize = 64;

/// Position of `e_lfanew` (the offset of the NT headers) in the DOS header.
pub const E_LFANEW_AT: usize = 0x3C;

/// Size of the 64-bit NT headers (`IMAGE_NT_HEADERS64`): signature, file
/// header and optional header.
pub const NT_HEADERS_SIZE: usize = 264;

/// Position of `NumberOfSections` in the NT headers (after the 4-byte
/// signature and the 2-byte machine field).
pub const NUMBER_OF_SECTIONS_AT: usize = 6;

/// Size of one section header (`IMAGE_SECTION_HEADER`).
pub const SECTION_HEADER_SIZE: usize = 40;

/// Size of the name field of a section header.
pub const SECTION_NAME_SIZE: usize = 8;

/// Position of `Misc.VirtualSize` in a section header.
pub const VIRTUAL_SIZE_AT: usize = 8;

/// Position of `VirtualAddress` in a section header.
pub const VIRTUAL_ADDRESS_AT: usize = 12;

/// Why an image could not be described.
#[derive(Debug, Clone, Copy, PartialEq, Eq, Structural)]
pub enum ImageError {
    /// The image would end beyond the last address.
    AddressOverflow,
    /// The DOS header, the NT headers or the section table do not fit in the
    /// image, or `e_lfanew` is negative.
    HeadersOutOfBounds,
    /// The section with this index would start beyond the last address.
    SectionAddressOverflow(u16),
}

/// Little-endian 16-bit value at `at`.
pub open spec fn le_u16(s: Seq<u8>, at: int) -> int {
    s[at] as int + 256 * (s[at + 1] as int)
}

/// Little-endian 32-bit value at `at`.
pub open spec fn le_u32(s: Seq<u8>, at: int) -> int {
    le_u16(s, at) + 65536 * le_u16(s, at + 2)
}

/// `e_lfanew`, read as an unsigned value.
pub open spec fn nt_headers_at(image: Seq<u8>) -> int {
    le_u32(image, E_LFANEW_AT as int)
}

/// `NumberOfSections`.
pub open spec fn section_count(image: Seq<u8>) -> int {
    le_u16(image, nt_headers_at(image) + NUMBER_OF_SECTIONS_AT)
}

/// Where the section table starts.
pub open spec fn section_table_at(image: Seq<u8>) -> int {
    nt_headers_at(image) + NT_HEADERS_SIZE
}

/// Where the header of section `i` starts.
pub open spec fn section_header_at(image: Seq<u8>, i: int) -> int {
    section_table_at(image) + SECTION_HEADER_SIZE * i
}

/// True when the DOS header, the NT headers and the whole section table lie
/// in the image and `e_lfanew` is not negative as a signed 32-bit value.
pub open spec fn headers_in_bounds(image: Seq<u8>) -> bool {
    &&& image.len() >= DOS_HEADER_SIZE
    &&& nt_headers_at(image) < 0x8000_0000
    &&& section_table_at(image) <= image.len()
    &&& section_header_at(image, section_count(image)) <= image.len()
}

/// `VirtualAddress` of section `i`.
pub open spec fn section_rva(image: Seq<u8>, i: int) -> int {
    le_u32(image, section_header_at(image, i) + VIRTUAL_ADDRESS_AT)
}

/// `Misc.VirtualSize` of section `i`.
pub open spec fn section_size(image: Seq<u8>, i: int) -> int {
    le_u32(image, section_header_at(image, i) + VIRTUAL_SIZE_AT)
}

/// True when section `i` lies in the image.
pub open spec fn section_in_image(image: Seq<u8>, i: int) -> bool {
    section_rva(image, i) + section_size(image, i) <= image.len()
}

/// True when the address of section `i`, for an image at `base`, is beyond
/// the last address.
pub open spec fn section_address_overflows(base: int, image: Seq<u8>, i: int) -> bool {
    base + section_rva(image, i) > usize::MAX
}

/// `x`, but no more than `limit`.
pub open spec fn clamp(x: int, limit: int) -> int {
    if x <= limit {
        x
    } else {
        limit
    }
}

/// The bytes of a name field up to (not including) its first NUL byte.
pub open spec fn nul_prefix(field: Seq<u8>) -> Seq<u8>
    decreases field.len(),
{
    if field.len() == 0 {
        field
    } else if field[0] == 0 {
        Seq::empty()
    } else {
        seq![field[0]] + nul_prefix(field.drop_first())
    }
}

/// The name field of section `i`.
pub open spec fn section_name_field(image: Seq<u8>, i: int) -> Seq<u8> {
    let at = section_header_at(image, i);
    image.subrange(at, at + SECTION_NAME_SIZE)
}

/// What `String::from_utf8_lossy` makes of `bytes`.
pub uninterp spec fn lossy_utf8_text(bytes: Seq<u8>) -> Seq<char>;

/// A section as the library sees it: its name, its address, its length,
/// the part of it that lies in the image, and where the image ends.
pub struct SectionView {
    pub name: Seq<char>,
    pub base: int,
    pub len: int,
    pub bytes: Seq<u8>,
    pub image_end: int,
}

impl SectionView {
    /// True when the whole section lies in the image.
    pub open spec fn in_image(self) -> bool {
        &&& self.bytes.len() == self.len
        &&& self.base + self.len <= self.image_end
    }
}

/// What the header of section `i` describes, for an image at `base`.
pub open spec fn section_view(base: int, image: Seq<u8>, i: int) -> SectionView {
    let rva = section_rva(image, i);
    let size = section_size(image, i);
    SectionView {
        name: lossy_utf8_text(nul_prefix(section_name_field(image, i))),
        base: base + rva,
        len: size,
        bytes: image.subrange(clamp(rva, image.len() as int), clamp(rva + size, image.len() as int)),
        image_end: base + image.len(),
    }
}

/// All the sections that the headers of `image` describe.
pub open spec fn section_views(base: int, image: Seq<u8>) -> Seq<SectionView> {
    Seq::new(section_count(image) as nat, |i: int| section_view(base, image, i))
}

/// A program as the library sees it.
pub struct ProgramView {
    pub base: int,
    pub image: Seq<u8>,
    pub sections: Seq<SectionView>,
}

/// The outcome of describing `image` loaded at `base`.
pub open spec fn parse_outcome(base: int, image: Seq<u8>, r: Result<ProgramView, ImageError>) -> bool {
    if base + image.len() > usize::MAX {
        r == Err::<ProgramView, ImageError>(ImageError::AddressOverflow)
    } else if !headers_in_bounds(image) {
        r == Err::<ProgramView, ImageError>(ImageError::HeadersOutOfBounds)
    } else if exists|i: int|
        0 <= i < section_count(image) && #[trigger] section_address_overflows(base, image, i) {
        exists|k: int|
            #![trigger section_address_overflows(base, image, k)]
            0 <= k < section_count(image) && section_address_overflows(base, image, k) && (forall|
                j: int,
            |
                0 <= j < k ==> !#[trigger] section_address_overflows(base, image, j)) && r
                == Err::<ProgramView, ImageError>(ImageError::SectionAddressOverflow(k as u16))
    } else {
        &&& r == Ok::<ProgramView, ImageError>(
            ProgramView { base, image, sections: section_views(base, image) },
        )
        &&& forall|i: int|
            0 <= i < section_count(image) && valid_utf8(
                #[trigger] nul_prefix(section_name_field(image, i)),
            ) ==> lossy_utf8_text(nul_prefix(section_name_field(image, i))) == decode_utf8(
                nul_prefix(section_name_field(image, i)),
            )
    }
}

/// The view of a describing attempt's result.
pub open spec fn program_outcome(r: Result<Program, ImageError>) -> Result<ProgramView, ImageError> {
    match r {
        Ok(p) => Ok(p@),
        Err(e) => Err(e),
    }
}

/// Turns bytes into text with `String::from_utf8_lossy`.
///
/// Trusted: the result is named `lossy_utf8_text` of the bytes; the standard
/// library documents that valid UTF-8 comes back unchanged, which is the
/// second clause. What invalid sequences become (U+FFFD replacements) is not
/// stated.
#[verifier::external_body]
fn utf8_lossy(bytes: &[u8]) -> (text: String)
    ensures
        text@ == lossy_utf8_text(bytes@),
        valid_utf8(bytes@) ==> text@ == decode_utf8(bytes@),
{
    String::from_utf8_lossy(bytes).into_owned()
}

/// Reads the little-endian 16-bit value at `at`.
pub fn read_u16_le(bytes: &[u8], at: usize) -> (v: u16)
    requires
        at + 2 <= bytes@.len(),
    ensures
        v as int == le_u16(bytes@, at as int),
{
    let lo = bytes[at] as u16;
    let hi = bytes[at + 1] as u16;
    lo + 256 * hi
}

/// Reads the little-endian 32-bit value at `at`.
pub fn read_u32_le(bytes: &[u8], at: usize) -> (v: u32)
    requires
        at + 4 <= bytes@.len(),
    ensures
        v as int == le_u32(bytes@, at as int),
{
    let _n = bytes.len();
    let lo = read_u16_le(bytes, at) as u32;
    let hi = read_u16_le(bytes, at + 2) as u32;
    lo + 65536 * hi
}

/// Splitting a name field at a position before its first NUL byte.
proof fn lemma_nul_prefix_split(field: Seq<u8>, i: int)
    requires
        0 <= i <= field.len(),
        forall|j: int| 0 <= j < i ==> field[j] != 0,
    ensures
        nul_prefix(field) == field.take(i) + nul_prefix(field.skip(i)),
    decreases i,
{
    if i > 0 {
        lemma_nul_prefix_split(field.drop_first(), i - 1);
        assert(field.drop_first().skip(i - 1) =~= field.skip(i));
        assert(field.take(i) =~= seq![field[0]] + field.drop_first().take(i - 1));
    } else {
        assert(field.take(0) =~= Seq::<u8>::empty());
        assert(field.skip(0) =~= field);
    }
}

/// The bytes of `field` before its first NUL byte.
fn name_bytes(field: &[u8]) -> (name: &[u8])
    ensures
        name@ == nul_prefix(field@),
{
    let mut i: usize = 0;
    while i < field.len() && field[i] != 0
        invariant
            i <= field@.len(),
            forall|j: int| 0 <= j < i ==> field@[j] != 0,
        decreases field@.len() - i,
    {
        i = i + 1;
    }
    proof {
        lemma_nul_prefix_split(field@, i as int);
        let rest = field@.skip(i as int);
        if rest.len() > 0 {
            assert(rest[0] == 0);
        }
        assert(nul_prefix(rest) =~= Seq::<u8>::empty());
        assert(field@.take(i as int) + Seq::<u8>::empty() =~= field@.take(i as int));
    }
    &field[0..i]
}

/// A section of the program: its name, the address it is loaded at, its
/// length, a copy of the part of it that lies in the image, and the address
/// where the image ends.
#[derive(Debug)]
pub struct Section {
    name: String,
    base: usize,
    len: usize,
    bytes: Vec<u8>,
    image_end: usize,
}

impl View for Section {
    type V = SectionView;

    closed spec fn view(&self) -> SectionView {
        SectionView {
            name: self.name@,
            base: self.base as int,
            len: self.len as int,
            bytes: self.bytes@,
            image_end: self.image_end as int,
        }
    }
}

impl Section {
    #[verifier::type_invariant]
    closed spec fn consistent(&self) -> bool {
        self.bytes@.len() <= self.len
    }

    /// The address at which the section starts.
    pub fn base(&self) -> (base: usize)
        ensures
            base == self@.base,
    {
        self.base
    }

    /// The section's bytes; the whole section must lie in the image.
    pub fn as_slice(&self) -> (bytes: &[u8])
        requires
            self@.in_image(),
        ensures
            bytes@ == self@.bytes,
    {
        self.bytes.as_slice()
    }

    /// The address `offset` bytes past the section's start, which must not
    /// be past the end of the image.
    pub fn rva(&self, offset: usize) -> (address: usize)
        requires
            self@.base + offset <= self@.image_end,
        ensures
            address == self@.base + offset,
    {
        self.base + offset
    }

    /// The address of the first match of `pattern` in the section (`0xFF` in
    /// the pattern accepts any byte), or `None`; the whole section must lie
    /// in the image.
    pub fn scan(&self, pattern: &[u8]) -> (found: Option<usize>)
        requires
            pattern@.len() >= 1,
            self@.in_image(),
        ensures
            match found {
                Some(address) => address >= self@.base && is_first_match(
                    self@.bytes,
                    pattern@,
                    address - self@.base,
                ),
                None => no_match(self@.bytes, pattern@),
            },
    {
        match scan_bytes(self.bytes.as_slice(), pattern) {
            Some(offset) => Some(self.rva(offset)),
            None => None,
        }
    }

    /// Tells whether the whole section lies in the image.
    pub fn in_image(&self) -> (inside: bool)
        ensures
            inside == self@.in_image(),
    {
        self.bytes.len() == self.len && self.len <= self.image_end && self.base <= self.image_end
            - self.len
    }

    /// The address where the image that holds the section ends.
    pub fn image_end(&self) -> (end: usize)
        ensures
            end == self@.image_end,
    {
        self.image_end
    }
}

/// The loaded program: its base address, a copy of its image and its
/// sections.
#[derive(Debug)]
pub struct Program {
    base: usize,
    len: usize,
    sections: Vec<Section>,
    image: Vec<u8>,
}

impl View for Program {
    type V = ProgramView;

    closed spec fn view(&self) -> ProgramView {
        ProgramView {
            base: self.base as int,
            image: self.image@,
            sections: self.sections@.map_values(|s: Section| s@),
        }
    }
}

/// The program that `image`, loaded at `base`, describes (see `Program::new`).
pub fn program(base: usize, image: Vec<u8>) -> (r: Result<Program, ImageError>)
    ensures
        parse_outcome(base as int, image@, program_outcome(r)),
{
    Program::new(base, image)
}

impl Program {
    #[verifier::type_invariant]
    closed spec fn consistent(&self) -> bool {
        &&& self.len == self.image@.len()
        &&& self.base + self.len <= usize::MAX
    }

    /// Describes the program whose image, loaded at `base`, is `image`.
    pub fn new(base: usize, image: Vec<u8>) -> (r: Result<Program, ImageError>)
        ensures
            parse_outcome(base as int, image@, program_outcome(r)),
    {
        Self::init(base, image)
    }

    /// Parses the section table of `image` (see the module documentation).
    pub fn init(base: usize, image: Vec<u8>) -> (r: Result<Program, ImageError>)
        ensures
            parse_outcome(base as int, image@, program_outcome(r)),
    {
        let len = image.len();
        let ghost img = image@;
        if base > usize::MAX - len {
            return Err(ImageError::AddressOverflow);
        }
        if len < DOS_HEADER_SIZE {
            return Err(ImageError::HeadersOutOfBounds);
        }
        let nt = read_u32_le(image.as_slice(), E_LFANEW_AT);
        if nt >= 0x8000_0000 {
            return Err(ImageError::HeadersOutOfBounds);
        }
        let nt = nt as usize;
        if len < NT_HEADERS_SIZE || nt > len - NT_HEADERS_SIZE {
            return Err(ImageError::HeadersOutOfBounds);
        }
        let count = read_u16_le(image.as_slice(), nt + NUMBER_OF_SECTIONS_AT) as usize;
        let table = nt + NT_HEADERS_SIZE;
        assert(table as int == section_table_at(img));
        assert(count as int == section_count(img));
        if SECTION_HEADER_SIZE * count > len - table {
            return Err(ImageError::HeadersOutOfBounds);
        }
        assert(headers_in_bounds(img));
        let mut sections: Vec<Section> = Vec::new();
        let mut i: usize = 0;
        while i < count
            invariant
                img == image@,
                len == img.len(),
                base + len <= usize::MAX,
                headers_in_bounds(img),
                count as int == section_count(img),
                table as int == section_table_at(img),
                i <= count,
                sections@.len() == i,
                forall|j: int|
                    0 <= j < i ==> !#[trigger] section_address_overflows(base as int, img, j),
                forall|j: int|
                    0 <= j < i ==> #[trigger] sections@[j]@ == section_view(base as int, img, j),
                forall|j: int|
                    0 <= j < i && valid_utf8(#[trigger] nul_prefix(section_name_field(img, j)))
                        ==> lossy_utf8_text(nul_prefix(section_name_field(img, j))) == decode_utf8(
                        nul_prefix(section_name_field(img, j)),
                    ),
            decreases count - i,
        {
            let header = table + SECTION_HEADER_SIZE * i;
            assert(header as int == section_header_at(img, i as int));
            let size = read_u32_le(image.as_slice(), header + VIRTUAL_SIZE_AT) as usize;
            let rva = read_u32_le(image.as_slice(), header + VIRTUAL_ADDRESS_AT) as usize;
            if base > usize::MAX - rva {
                assert(section_address_overflows(base as int, img, i as int));
                return Err(ImageError::SectionAddressOverflow(i as u16));
            }
            let start = if rva <= len {
                rva
            } else {
                len
            };
            let end = if rva <= len && size <= len - rva {
                rva + size
            } else {
                len
            };
            let field = &image.as_slice()[header..header + SECTION_NAME_SIZE];
            assert(field@ == section_name_field(img, i as int));
            let name = utf8_lossy(name_bytes(field));
            let bytes = vstd::slice::slice_to_vec(&image.as_slice()[start..end]);
            assert(bytes@.len() == end - start);
            assert(bytes@.len() <= size);
            let section = Section { name, base: base + rva, len: size, bytes, image_end: base + len };
            assert(section@ == section_view(base as int, img, i as int));
            sections.push(section);
            i = i + 1;
        }
        let program = Program { base, len, sections, image };
        assert(program@.sections =~= section_views(base as int, img));
        Ok(program)
    }

    /// The address at which the program is loaded.
    pub fn base(&self) -> (base: usize)
        ensures
            base == self@.base,
    {
        self.base
    }

    /// The length of the program in memory.
    pub fn len(&self) -> (len: usize)
        ensures
            len == self@.image.len(),
    {
        proof {
            use_type_invariant(self);
        }
        self.len
    }

    /// The program's sections, in the order of its section table.
    pub fn sections(&self) -> (sections: &[Section])
        ensures
            sections@.map_values(|s: Section| s@) == self@.sections,
    {
        self.sections.as_slice()
    }

    /// The program's image.
    pub fn as_slice(&self) -> (bytes: &[u8])
        ensures
            bytes@ == self@.image,
    {
        self.image.as_slice()
    }

    /// The program's base: the offset counts units of the zero-sized type
    /// that the base address points to, so it moves the address by nothing.
    pub fn rva(&self, offset: usize) -> (address: usize)
        ensures
            address == self@.base,
    {
        self.base
    }

    /// The program's base when `pattern` (`0xFF` accepts any byte) occurs
    /// anywhere in the image, or `None`: the offset of the first match
    /// counts units of the zero-sized type that the base address points to,
    /// so the address it gives is the base.
    pub fn scan(&self, pattern: &[u8]) -> (found: Option<usize>)
        requires
            pattern@.len() >= 1,
        ensures
            match found {
                Some(address) => address == self@.base && !no_match(self@.image, pattern@),
                None => no_match(self@.image, pattern@),
            },
    {
        match scan_bytes(self.image.as_slice(), pattern) {
            Some(offset) => Some(self.rva(offset)),
            None => None,
        }
    }

    /// The first section named `.text`, where the program's code lies.
    pub fn text(&self) -> (text: Option<&Section>)
        ensures
            match text {
                Some(s) => exists|i: int|
                    0 <= i < self@.sections.len() && self@.sections[i] == s@ && s@.name
                        == ".text"@ && forall|j: int|
                        0 <= j < i ==> #[trigger] self@.sections[j].name != ".text"@,
                None => forall|j: int|
                    0 <= j < self@.sections.len() ==> #[trigger] self@.sections[j].name
                        != ".text"@,
            },
    {
        let wanted = ".text".to_owned();
        let mut i: usize = 0;
        while i < self.sections.len()
            invariant
                wanted@ == ".text"@,
                i <= self.sections@.len(),
                self@.sections == self.sections@.map_values(|s: Section| s@),
                forall|j: int| 0 <= j < i ==> #[trigger] self@.sections[j].name != ".text"@,
            decreases self.sections@.len() - i,
        {
            if self.sections[i].name == wanted {
                assert(self@.sections[i as int] == self.sections@[i as int]@);
                return Some(&self.sections[i]);
            }
            i = i + 1;
        }
        None
    }
}

/// A match in the bytes of a section lying in the image is a match in the
/// image at the section's position.
pub proof fn lemma_section_match_in_image(image: Seq<u8>, rva: int, size: int, pattern: Seq<u8>, offset: int)
    requires
        0 <= rva,
        0 <= size,
        rva + size <= image.len(),
        matches_at(image.subrange(rva, rva + size), pattern, offset),
    ensures
        matches_at(image, pattern, rva + offset),
{
    let section = image.subrange(rva, rva + size);
    assert(section.subrange(offset, offset + pattern.len()) =~= image.subrange(
        rva + offset,
        rva + offset + pattern.len(),
    ));
}

/// For a program described from an image: when a section that lies in the
/// image holds a match of a pattern at some address, the image holds a match
/// at the section's virtual address plus the same distance, so a scan of the
/// whole program finds the pattern.
pub proof fn lemma_section_scan_agrees_with_program_scan(
    base: int,
    image: Seq<u8>,
    program: ProgramView,
    i: int,
    pattern: Seq<u8>,
    section_found: int,
    program_found: Option<int>,
)
    requires
        parse_outcome(base, image, Ok::<ProgramView, ImageError>(program)),
        0 <= i < program.sections.len(),
        program.sections[i].in_image(),
        section_found >= program.sections[i].base,
        is_first_match(program.sections[i].bytes, pattern, section_found - program.sections[i].base),
        match program_found {
            Some(a) => a == program.base && !no_match(program.image, pattern),
            None => no_match(program.image, pattern),
        },
    ensures
        matches_at(program.image, pattern, section_rva(image, i) + (section_found - program.sections[i].base)),
        program_found == Some(program.base),
{
    let rva = section_rva(image, i);
    let size = section_size(image, i);
    assert(program.sections[i] == section_view(base, image, i));
    assert(rva + size <= image.len());
    assert(program.sections[i].bytes == image.subrange(rva, rva + size));
    lemma_section_match_in_image(image, rva, size, pattern, section_found - program.sections[i].base);
    if program_found is None {
        assert(!matches_at(program.image, pattern, rva + (section_found - program.sections[i].base)));
    }
}

/// The unsigned little-endian value of the 2 image bytes at `at`.
pub open spec fn bytes_u16(image: Seq<u8>, at: int) -> int {
    image[at] + 0x100 * image[at + 1]
}

/// The unsigned little-endian value of the 4 image bytes at `at`.
pub open spec fn bytes_u32(image: Seq<u8>, at: int) -> int {
    image[at] + 0x100 * image[at + 1] + 0x1_0000 * image[at + 2] + 0x100_0000 * image[at + 3]
}

/// Where the header of section `i` starts, computed from the image bytes:
/// right after the 264 bytes of NT headers that `e_lfanew` (the 4 bytes at
/// 0x3C) points to, 40 bytes per section.
pub open spec fn header_start(image: Seq<u8>, i: int) -> int {
    bytes_u32(image, 0x3C) + 264 + 40 * i
}

/// Every section of a described program is what its header's bytes say:
/// there are `NumberOfSections` (the 2 bytes 6 past `e_lfanew`) of them;
/// each starts at the base plus its 4-byte `VirtualAddress` (12 bytes into
/// its header); its length is its whole 4-byte `VirtualSize` (8 bytes into
/// its header); its image ends where the image does; when it lies in the
/// image, its bytes are the image's bytes there; and when the bytes of its
/// 8-byte name field before the first NUL are valid UTF-8, its name is
/// their text.
pub proof fn lemma_sections_follow_header_bytes(base: int, image: Seq<u8>, program: ProgramView, i: int)
    requires
        parse_outcome(base, image, Ok::<ProgramView, ImageError>(program)),
        0 <= i < program.sections.len(),
    ensures
        forall|k: int|
            0 <= k <= 8 && !image.subrange(header_start(image, i), header_start(image, i) + k).contains(
                0,
            ) && (k < 8 ==> image[header_start(image, i) + k] == 0) && #[trigger] valid_utf8(
                image.subrange(header_start(image, i), header_start(image, i) + k),
            ) ==> program.sections[i].name == decode_utf8(
                image.subrange(header_start(image, i), header_start(image, i) + k),
            ),
        program.sections.len() == bytes_u16(image, bytes_u32(image, 0x3C) + 6),
        program.sections[i].base == base + bytes_u32(image, header_start(image, i) + 12),
        program.sections[i].len == bytes_u32(image, header_start(image, i) + 8),
        program.sections[i].image_end == base + image.len(),
        bytes_u32(image, header_start(image, i) + 12) + bytes_u32(image, header_start(image, i) + 8)
            <= image.len() ==> program.sections[i].in_image() && program.sections[i].bytes
            == image.subrange(
            bytes_u32(image, header_start(image, i) + 12),
            bytes_u32(image, header_start(image, i) + 12) + bytes_u32(image, header_start(image, i) + 8),
        ),
{
    assert(program.sections[i] == section_view(base, image, i));
    let h = header_start(image, i);
    assert(section_header_at(image, i) == h);
    let field = section_name_field(image, i);
    assert forall|k: int|
        0 <= k <= 8 && !image.subrange(h, h + k).contains(0) && (k < 8 ==> image[h + k] == 0)
            && #[trigger] valid_utf8(image.subrange(h, h + k)) implies program.sections[i].name
        == decode_utf8(image.subrange(h, h + k)) by {
        assert forall|j: int| 0 <= j < k implies field[j] != 0 by {
            assert(field[j] == image.subrange(h, h + k)[j]);
        }
        lemma_nul_prefix_split(field, k);
        let rest = field.skip(k);
        if k < 8 {
            assert(rest[0] == image[h + k]);
        }
        assert(nul_prefix(rest) =~= Seq::<u8>::empty());
        assert(field.take(k) =~= image.subrange(h, h + k));
        assert(nul_prefix(field) =~= image.subrange(h, h + k));
    }
}

/// An image is described (not refused) whenever it does not end beyond the
/// last address, it holds the 64-byte DOS header, its `e_lfanew` is not
/// negative as a signed 32-bit value, the 264 bytes of NT headers and the
/// whole section table lie in it, and no section's address passes the last
/// address. The bounds are computed from the image bytes.
pub proof fn lemma_well_formed_headers_are_accepted(
    base: int,
    image: Seq<u8>,
    r: Result<ProgramView, ImageError>,
)
    requires
        parse_outcome(base, image, r),
        base + image.len() <= usize::MAX,
        image.len() >= 64,
        bytes_u32(image, 0x3C) < 0x8000_0000,
        bytes_u32(image, 0x3C) + 264 <= image.len(),
        header_start(image, bytes_u16(image, bytes_u32(image, 0x3C) + 6)) <= image.len(),
        forall|i: int|
            0 <= i < bytes_u16(image, bytes_u32(image, 0x3C) + 6) ==> base + #[trigger] bytes_u32(
                image,
                header_start(image, i) + 12,
            ) <= usize::MAX,
    ensures
        r is Ok,
{
    assert(nt_headers_at(image) == bytes_u32(image, 0x3C));
    assert(section_count(image) == bytes_u16(image, bytes_u32(image, 0x3C) + 6));
    assert(headers_in_bounds(image));
    assert forall|i: int| 0 <= i < section_count(image) implies !#[trigger] section_address_overflows(
        base,
        image,
        i,
    ) by {
        assert(section_header_at(image, i) == header_start(image, i));
        assert(base + bytes_u32(image, header_start(image, i) + 12) <= usize::MAX);
    }
}

} // verus!

