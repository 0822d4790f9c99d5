use axii::image::{program, ImageError, Program};
use axii::pattern::scan_bytes;

const BASE: usize = 0x1_4000_0000;

fn put_u16(image: &mut [u8], at: usize, v: u16) {
    image[at..at + 2].copy_from_slice(&v.to_le_bytes());
}

fn put_u32(image: &mut [u8], at: usize, v: u32) {
    image[at..at + 4].copy_from_slice(&v.to_le_bytes());
}

/// An image with a `.text` section at 0x200 (16 bytes) and a `.data`
/// section at 0x300 (32 bytes).
fn sample_image() -> Vec<u8> {
    let mut image = vec![0u8; 0x400];
    image[0] = b'M';
    image[1] = b'Z';
    put_u32(&mut image, 0x3C, 0x40);
    image[0x40..0x44].copy_from_slice(b"PE\0\0");
    put_u16(&mut image, 0x46, 2);
    let table = 0x40 + 264;
    image[table..table + 5].copy_from_slice(b".text");
    put_u32(&mut image, table + 8, 0x10);
    put_u32(&mut image, table + 12, 0x200);
    let second = table + 40;
    image[second..second + 5].copy_from_slice(b".data");
    put_u32(&mut image, second + 8, 0x20);
    put_u32(&mut image, second + 12, 0x300);
    for (i, b) in image[0x200..0x210].iter_mut().enumerate() {
        *b = 0x10 + i as u8;
    }
    image[0x305..0x309].copy_from_slice(&[0x48, 0x83, 0xEC, 0x28]);
    image
}

#[test]
fn parses_sections_of_sample_image() {
    let p = Program::new(BASE, sample_image()).unwrap();
    assert_eq!(p.base(), BASE);
    assert_eq!(p.len(), 0x400);
    assert_eq!(p.sections().len(), 2);
    assert_eq!(p.sections()[0].base(), BASE + 0x200);
    assert_eq!(p.sections()[0].as_slice().len(), 0x10);
    assert_eq!(p.sections()[0].as_slice()[3], 0x13);
    assert_eq!(p.sections()[1].base(), BASE + 0x300);
    assert_eq!(p.sections()[1].as_slice(), &sample_image()[0x300..0x320]);
    assert_eq!(p.as_slice(), &sample_image()[..]);
}

#[test]
fn program_function_equals_new() {
    let a = program(BASE, sample_image()).unwrap();
    let b = Program::new(BASE, sample_image()).unwrap();
    assert_eq!(a.base(), b.base());
    assert_eq!(a.sections().len(), b.sections().len());
}

#[test]
fn text_is_the_section_named_text() {
    let p = Program::new(BASE, sample_image()).unwrap();
    let text = p.text().unwrap();
    assert_eq!(text.base(), BASE + 0x200);
}

#[test]
fn no_text_section_gives_none() {
    let mut image = sample_image();
    image[0x40 + 264 + 1] = b'c';
    let p = Program::new(BASE, image).unwrap();
    assert!(p.text().is_none());
}

#[test]
fn section_name_stops_at_nul() {
    let mut image = sample_image();
    // ".text" followed by NUL and stray bytes still names `.text`.
    image[0x40 + 264 + 6] = b'X';
    let p = Program::new(BASE, image).unwrap();
    assert!(p.text().is_some());
}

#[test]
fn scan_in_section_gives_address() {
    let p = Program::new(BASE, sample_image()).unwrap();
    let text = p.text().unwrap();
    assert_eq!(text.scan(&[0x13, 0xFF, 0x15]), Some(BASE + 0x203));
    assert_eq!(text.scan(&[0x13, 0x13]), None);
    let data = &p.sections()[1];
    assert_eq!(data.scan(&[0x48, 0x83, 0xEC, 0x28]), Some(BASE + 0x305));
}

#[test]
fn program_scan_finds_first_in_whole_image() {
    let p = Program::new(BASE, sample_image()).unwrap();
    assert_eq!(p.scan(&[b'M', b'Z']), Some(BASE));
    // The address is the base wherever the match lies.
    assert_eq!(p.scan(&[0x48, 0x83, 0xEC, 0x28]), Some(BASE));
    assert_eq!(p.scan(&[0xAB, 0xCD, 0xEF]), None);
}

#[test]
fn program_scan_is_not_after_section_scan() {
    let p = Program::new(BASE, sample_image()).unwrap();
    let pattern = [0xFF, 0x11];
    let in_section = p.text().unwrap().scan(&pattern).unwrap();
    let in_program = p.scan(&pattern).unwrap();
    assert_eq!(in_program, BASE);
    assert_eq!(in_section, BASE + 0x200);
    assert_eq!(scan_bytes(p.as_slice(), &pattern), Some(0x200));
}

#[test]
fn rva_adds_to_base() {
    let p = Program::new(BASE, sample_image()).unwrap();
    assert_eq!(p.rva(0x123), BASE);
    assert_eq!(p.text().unwrap().rva(4), BASE + 0x204);
    // A section's addresses reach to the end of the image, past its own end.
    assert_eq!(p.text().unwrap().rva(0x1FF), BASE + 0x3FF);
    assert_eq!(p.text().unwrap().rva(0x200), BASE + 0x400);
    assert_eq!(p.text().unwrap().image_end(), BASE + 0x400);
}

#[test]
fn too_short_image_is_refused() {
    assert_eq!(Program::new(BASE, vec![0u8; 0x30]).unwrap_err(), ImageError::HeadersOutOfBounds);
}

#[test]
fn negative_e_lfanew_is_refused() {
    let mut image = sample_image();
    put_u32(&mut image, 0x3C, 0x8000_0000);
    assert_eq!(Program::new(BASE, image).unwrap_err(), ImageError::HeadersOutOfBounds);
}

#[test]
fn section_table_past_end_is_refused() {
    let mut image = sample_image();
    put_u16(&mut image, 0x46, 30);
    assert_eq!(Program::new(BASE, image).unwrap_err(), ImageError::HeadersOutOfBounds);
}

#[test]
fn section_past_end_is_kept_but_not_read() {
    let mut image = sample_image();
    put_u32(&mut image, 0x40 + 264 + 40 + 8, 0x200);
    let p = Program::new(BASE, image).unwrap();
    let data = &p.sections()[1];
    assert_eq!(data.base(), BASE + 0x300);
    assert!(!data.in_image());
    assert!(p.sections()[0].in_image());
}

#[test]
fn section_beyond_address_space_is_refused() {
    let base = usize::MAX - 0x500;
    let mut image = sample_image();
    put_u32(&mut image, 0x40 + 264 + 40 + 12, 0x1000);
    assert_eq!(Program::new(base, image).unwrap_err(), ImageError::SectionAddressOverflow(1));
}

#[test]
fn image_past_address_space_is_refused() {
    assert_eq!(Program::new(usize::MAX - 0x10, sample_image()).unwrap_err(), ImageError::AddressOverflow);
}

#[test]
fn wildcard_accepts_any_byte() {
    assert_eq!(scan_bytes(&[1, 2, 3, 4], &[0xFF, 3]), Some(1));
    assert_eq!(scan_bytes(&[1, 2, 3, 4], &[0xFF, 0xFF, 0xFF, 0xFF]), Some(0));
    assert_eq!(scan_bytes(&[1, 2, 3], &[0xFF, 0xFF, 0xFF, 0xFF]), None);
    assert_eq!(scan_bytes(&[0xFF, 7], &[7]), Some(1));
}

#[test]
fn scan_reports_lowest_offset() {
    assert_eq!(scan_bytes(&[5, 9, 5, 9, 5], &[5, 9]), Some(0));
    assert_eq!(scan_bytes(&[0, 5, 9, 5, 9], &[5, 9]), Some(1));
    assert_eq!(scan_bytes(&[], &[1]), None);
}

#[test]
fn invalid_utf8_section_name_is_not_text() {
    let mut image = sample_image();
    let table = 0x40 + 264;
    image[table..table + 5].copy_from_slice(&[0xFF, b't', b'e', b'x', b't']);
    let p = Program::new(BASE, image).unwrap();
    assert_eq!(p.sections().len(), 2);
    assert!(p.text().is_none());
}

#[test]
fn eight_byte_name_without_nul() {
    let mut image = sample_image();
    let table = 0x40 + 264;
    image[table..table + 8].copy_from_slice(b".textbss");
    let p = Program::new(BASE, image).unwrap();
    assert!(p.text().is_none());
}
