use axii::image::Program;
use axii::offsets::{last_segment_of, parse_hex, Address, AddressMap, Offsets, OffsetsError, ResolveError};

fn map(entries: &[(&str, &str)]) -> AddressMap {
    AddressMap {
        addresses: entries
            .iter()
            .map(|(s, o)| Address { symbol: s.to_string(), offset: o.to_string() })
            .collect(),
    }
}

fn text_program() -> Program {
    let mut image = vec![0u8; 0x400];
    image[0x3C..0x40].copy_from_slice(&0x40u32.to_le_bytes());
    image[0x46..0x48].copy_from_slice(&1u16.to_le_bytes());
    let table = 0x40 + 264;
    image[table..table + 5].copy_from_slice(b".text");
    image[table + 8..table + 12].copy_from_slice(&0x100u32.to_le_bytes());
    image[table + 12..table + 16].copy_from_slice(&0x200u32.to_le_bytes());
    Program::new(0x1000, image).unwrap()
}

#[test]
fn hex_parses_like_from_str_radix() {
    for s in ["0", "1a", "FF", "+10", "00000000014A3B20", "ffffffffffffffff", "", "+", "-1", "1g", "10000000000000000", " 1"] {
        assert_eq!(parse_hex(s.as_bytes()), usize::from_str_radix(s, 16).ok(), "{:?}", s);
    }
    assert_eq!(parse_hex(b"1A3"), Some(0x1A3));
}

#[test]
fn last_segment_is_after_last_colon() {
    assert_eq!(last_segment_of(b"0001:00ABCDEF"), b"00ABCDEF");
    assert_eq!(last_segment_of(b"a:b:c"), b"c");
    assert_eq!(last_segment_of(b"123"), b"123");
    assert_eq!(last_segment_of(b"123:"), b"");
}

#[test]
fn offsets_from_map() {
    let o = Offsets::init(map(&[("CNamesPool::AddEntry", "0001:0145A3A0"), ("CFunction::CFunction", "0001:10")])).unwrap();
    assert_eq!(o.get("CNamesPool::AddEntry"), Some(0x145A3A0));
    assert_eq!(o.get("CFunction::CFunction"), Some(0x10));
    assert_eq!(o.get("Missing"), None);
}

#[test]
fn later_listing_wins() {
    let o = Offsets::init(map(&[("f", "1:10"), ("g", "1:20"), ("f", "1:30")])).unwrap();
    assert_eq!(o.get("f"), Some(0x30));
    assert_eq!(o.get("g"), Some(0x20));
}

#[test]
fn first_malformed_listing_is_named() {
    let e = Offsets::init(map(&[("f", "1:10"), ("g", "1:zz"), ("h", "")])).unwrap_err();
    assert_eq!(e, OffsetsError::InvalidOffset(1));
}

#[test]
fn resolve_in_text() {
    let p = text_program();
    let text = p.text().unwrap();
    let o = Offsets::init(map(&[("f", "0001:0010"), ("past_text", "0001:0150"), ("end", "0001:0200"), ("far", "0001:0201")])).unwrap();
    assert_eq!(o.resolve(text, "f"), Ok(0x1000 + 0x200 + 0x10));
    assert_eq!(o.resolve(text, "missing"), Err(ResolveError::UnknownSymbol));
    assert_eq!(o.resolve(text, "past_text"), Ok(0x1000 + 0x200 + 0x150));
    assert_eq!(o.resolve(text, "end"), Ok(0x1000 + 0x400));
    assert_eq!(o.resolve(text, "far"), Err(ResolveError::OutsideImage));
}

#[test]
fn resolve_c_string_bytes() {
    let p = text_program();
    let text = p.text().unwrap();
    let o = Offsets::init(map(&[("f", "0001:0010")])).unwrap();
    assert_eq!(o.resolve_bytes(text, b"f"), Ok(0x1210));
    assert_eq!(o.resolve_bytes(text, &[0xFF, 0xFE]), Err(ResolveError::InvalidUtf8));
    assert_eq!(o.resolve_bytes(text, b"g"), Err(ResolveError::UnknownSymbol));
}
