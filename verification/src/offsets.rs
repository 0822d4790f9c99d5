//! The symbol map of the game executable.
//!
//! The map lists, for each symbol, an offset written as `SEGMENT:OFFSET`
//! with the offset in hexadecimal. Only the part after the last `:` counts;
//! it is read as `usize::from_str_radix(.., 16)` reads it. The offset is
//! relative to the start of the code section, so a symbol resolves to the
//! address `offset` bytes into that section. When a symbol is listed more
//! than once, the last listing wins.
use crate::image::Section;
use vstd::prelude::*;
use vstd::utf8::{decode_utf8, encode_utf8, valid_utf8};

verus! {

/// One listing of the symbol map.
#[derive(Debug)]
pub struct Address {
    pub symbol: String,
    pub offset: String,
}

/// The symbol map as a whole, in the order of its listings.
#[derive(Debug)]
pub struct AddressMap {
    pub addresses: Vec<Address>,
}

/// Why a symbol map could not be turned into offsets.
#[derive(Debug, Clone, Copy, PartialEq, Eq, Structural)]
pub enum OffsetsError {
    /// The listing with this index has an offset that is not a hexadecimal
    /// `usize`.
    InvalidOffset(usize),
}

/// Why a symbol could not be resolved.
#[derive(Debug, Clone, Copy, PartialEq, Eq, Structural)]
pub enum ResolveError {
    /// The symbol's bytes are not UTF-8.
    InvalidUtf8,
    /// The map does not list the symbol.
    UnknownSymbol,
    /// The symbol's address would lie beyond the end of the image.
    OutsideImage,
}

/// The byte `:`.
pub const SEGMENT_SEPARATOR: u8 = 0x3A;

/// The byte `+`.
pub const PLUS_SIGN: u8 = 0x2B;

/// The bytes after the last `:` (all of them when there is none).
pub open spec fn last_segment(s: Seq<u8>) -> Seq<u8>
    decreases s.len(),
{
    if s.len() == 0 {
        s
    } else if s.last() == SEGMENT_SEPARATOR {
        Seq::empty()
    } else {
        last_segment(s.drop_last()).push(s.last())
    }
}

/// True for `0-9`, `a-f` and `A-F`.
pub open spec fn is_hex_digit(b: u8) -> bool {
    (0x30 <= b <= 0x39) || (0x61 <= b <= 0x66) || (0x41 <= b <= 0x46)
}

/// The value of a hexadecimal digit.
pub open spec fn hex_digit_value(b: u8) -> int {
    if 0x30 <= b <= 0x39 {
        b - 0x30
    } else if 0x61 <= b <= 0x66 {
        b - 0x61 + 10
    } else {
        b - 0x41 + 10
    }
}

/// The value of a string of hexadecimal digits, most significant first.
pub open spec fn hex_value(d: Seq<u8>) -> int
    decreases d.len(),
{
    if d.len() == 0 {
        0
    } else {
        16 * hex_value(d.drop_last()) + hex_digit_value(d.last())
    }
}

/// True when every byte of `d` is a hexadecimal digit.
pub open spec fn all_hex_digits(d: Seq<u8>) -> bool {
    forall|i: int| 0 <= i < d.len() ==> #[trigger] is_hex_digit(d[i])
}

/// What `usize::from_str_radix(s, 16)` returns for the bytes `s`: an optional
/// leading `+`, then at least one hexadecimal digit, and a value that fits.
pub open spec fn from_hex_radix(s: Seq<u8>) -> Option<usize> {
    if s.len() == 0 || (s.len() == 1 && s[0] == PLUS_SIGN) {
        None
    } else {
        let d = if s[0] == PLUS_SIGN {
            s.drop_first()
        } else {
            s
        };
        if all_hex_digits(d) && hex_value(d) <= usize::MAX {
            Some(hex_value(d) as usize)
        } else {
            None
        }
    }
}

/// The offset that a listing gives, if it is well formed.
pub open spec fn listed_offset(a: Address) -> Option<usize> {
    from_hex_radix(last_segment(encode_utf8(a.offset@)))
}

/// The map from symbols to offsets that a sequence of (symbol, offset)
/// entries makes when they are inserted in order.
pub open spec fn offsets_map(entries: Seq<(Seq<char>, usize)>) -> Map<Seq<char>, usize>
    decreases entries.len(),
{
    if entries.len() == 0 {
        Map::empty()
    } else {
        offsets_map(entries.drop_last()).insert(entries.last().0, entries.last().1)
    }
}

/// The entries that a symbol map whose listings are all well formed makes.
pub open spec fn listed_entries(addresses: Seq<Address>) -> Seq<(Seq<char>, usize)> {
    Seq::new(
        addresses.len(),
        |i: int| (addresses[i].symbol@, listed_offset(addresses[i]).unwrap()),
    )
}

/// The outcome of turning a symbol map into offsets: the map of all
/// listings, or the index of the first malformed one.
pub open spec fn init_outcome(addresses: Seq<Address>, r: Result<Map<Seq<char>, usize>, OffsetsError>) -> bool {
    match r {
        Ok(m) => (forall|i: int| 0 <= i < addresses.len() ==> #[trigger] listed_offset(addresses[i]) is Some)
            && m == offsets_map(listed_entries(addresses)),
        Err(OffsetsError::InvalidOffset(k)) => k < addresses.len() && listed_offset(addresses[k as int]) is None
            && forall|i: int| 0 <= i < k ==> #[trigger] listed_offset(addresses[i]) is Some,
    }
}

/// The bytes of `s` after its last `:`.
pub fn last_segment_of(s: &[u8]) -> (segment: &[u8])
    ensures
        segment@ == last_segment(s@),
{
    let mut i: usize = s.len();
    assert(s@.take(i as int) =~= s@);
    assert(s@ + s@.skip(i as int) =~= s@);
    while i > 0 && s[i - 1] != SEGMENT_SEPARATOR
        invariant
            i <= s@.len(),
            last_segment(s@) == last_segment(s@.take(i as int)) + s@.skip(i as int),
        decreases i,
    {
        proof {
            let t = s@.take(i as int);
            assert(t.drop_last() =~= s@.take(i - 1));
            assert(s@.skip(i - 1) =~= seq![t.last()] + s@.skip(i as int));
            assert(last_segment(t) == last_segment(t.drop_last()).push(t.last()));
            assert(last_segment(t.drop_last()).push(t.last()) + s@.skip(i as int) =~= last_segment(
                t.drop_last(),
            ) + s@.skip(i - 1));
        }
        i = i - 1;
    }
    proof {
        let t = s@.take(i as int);
        if i > 0 {
            assert(t.last() == SEGMENT_SEPARATOR);
        }
        assert(last_segment(t) =~= Seq::<u8>::empty());
        assert(Seq::<u8>::empty() + s@.skip(i as int) =~= s@.skip(i as int));
    }
    &s[i..s.len()]
}

/// The value of a hexadecimal digit, or `None` for any other byte.
pub fn hex_digit(b: u8) -> (v: Option<u8>)
    ensures
        v is Some <==> is_hex_digit(b),
        v matches Some(x) ==> x as int == hex_digit_value(b),
{
    if 0x30 <= b && b <= 0x39 {
        Some(b - 0x30)
    } else if 0x61 <= b && b <= 0x66 {
        Some(b - 0x61 + 10)
    } else if 0x41 <= b && b <= 0x46 {
        Some(b - 0x41 + 10)
    } else {
        None
    }
}

/// A longer digit string never has a smaller value.
proof fn lemma_hex_value_prefix(d: Seq<u8>, j: int)
    requires
        all_hex_digits(d),
        0 <= j <= d.len(),
    ensures
        0 <= hex_value(d.take(j)) <= hex_value(d),
    decreases d.len() - j,
{
    if j < d.len() {
        lemma_hex_value_prefix(d, j + 1);
        let t = d.take(j + 1);
        assert(t.drop_last() =~= d.take(j));
        assert(is_hex_digit(d[j]));
    } else {
        assert(d.take(j) =~= d);
        lemma_hex_value_nonneg(d);
    }
}

/// Digit strings have non-negative values.
proof fn lemma_hex_value_nonneg(d: Seq<u8>)
    requires
        all_hex_digits(d),
    ensures
        hex_value(d) >= 0,
    decreases d.len(),
{
    if d.len() > 0 {
        assert(all_hex_digits(d.drop_last())) by {
            assert forall|i: int| 0 <= i < d.drop_last().len() implies #[trigger] is_hex_digit(
                d.drop_last()[i],
            ) by {
                assert(is_hex_digit(d[i]));
            }
        }
        lemma_hex_value_nonneg(d.drop_last());
        assert(is_hex_digit(d[d.len() - 1]));
    }
}

/// Reads `s` as `usize::from_str_radix(s, 16)` does.
pub fn parse_hex(s: &[u8]) -> (v: Option<usize>)
    ensures
        v == from_hex_radix(s@),
{
    let len = s.len();
    if len == 0 {
        return None;
    }
    let start: usize = if s[0] == PLUS_SIGN {
        if len == 1 {
            return None;
        }
        1
    } else {
        0
    };
    let ghost d = if s@[0] == PLUS_SIGN {
        s@.drop_first()
    } else {
        s@
    };
    assert(d =~= s@.subrange(start as int, len as int));
    let mut acc: usize = 0;
    let mut i: usize = start;
    assert(d.take(0) =~= Seq::<u8>::empty());
    while i < len
        invariant
            start <= i <= len,
            len == s@.len(),
            d == s@.subrange(start as int, len as int),
            from_hex_radix(s@) == (if all_hex_digits(d) && hex_value(d) <= usize::MAX {
                Some(hex_value(d) as usize)
            } else {
                None
            }),
            acc as int == hex_value(d.take(i - start)),
            forall|k: int| 0 <= k < i - start ==> #[trigger] is_hex_digit(d[k]),
        decreases len - i,
    {
        let ghost t = d.take(i - start + 1);
        assert(t.drop_last() =~= d.take(i - start));
        assert(t.last() == s@[i as int]);
        match hex_digit(s[i]) {
            None => {
                assert(!is_hex_digit(d[i - start]));
                assert(!all_hex_digits(d));
                return None;
            },
            Some(digit) => {
                assert(all_hex_digits(t)) by {
                    assert forall|k: int| 0 <= k < t.len() implies #[trigger] is_hex_digit(t[k]) by {
                        assert(is_hex_digit(d[k]));
                    }
                }
                let limit = (usize::MAX - digit as usize) / 16;
                if acc > limit {
                    proof {
                        let m = usize::MAX - digit;
                        assert(16 * acc + digit > usize::MAX) by (nonlinear_arith)
                            requires
                                acc > limit,
                                limit == m / 16,
                                m == usize::MAX - digit,
                                m >= 0,
                        ;
                        if all_hex_digits(d) {
                            lemma_hex_value_prefix(d, i - start + 1);
                        }
                    }
                    return None;
                }
                proof {
                    let m = usize::MAX - digit;
                    assert(16 * acc + digit <= usize::MAX) by (nonlinear_arith)
                        requires
                            acc <= limit,
                            limit == m / 16,
                            m == usize::MAX - digit,
                            m >= 0,
                    ;
                }
                acc = acc * 16 + digit as usize;
            },
        }
        i = i + 1;
    }
    assert(d.take(len - start) =~= d);
    Some(acc)
}

/// Decodes `bytes` with `std::str::from_utf8`.
///
/// Trusted: the standard library documents that the call succeeds exactly
/// for valid UTF-8 and then hands back the same text; the contract says this
/// over vstd's UTF-8 model.
#[verifier::external_body]
fn utf8_text(bytes: &[u8]) -> (text: Option<&str>)
    ensures
        text is Some <==> valid_utf8(bytes@),
        text matches Some(t) ==> t@ == decode_utf8(bytes@),
{
    std::str::from_utf8(bytes).ok()
}

/// Offsets of the symbols of the game executable.
#[derive(Debug)]
pub struct Offsets {
    inner: Vec<(String, usize)>,
}

/// The (symbol, offset) entries of a list of pairs.
pub open spec fn entry_views(inner: Seq<(String, usize)>) -> Seq<(Seq<char>, usize)> {
    inner.map_values(|e: (String, usize)| (e.0@, e.1))
}

impl View for Offsets {
    type V = Map<Seq<char>, usize>;

    closed spec fn view(&self) -> Map<Seq<char>, usize> {
        offsets_map(entry_views(self.inner@))
    }
}

/// The view of a result of `Offsets::init`.
pub open spec fn offsets_outcome(r: Result<Offsets, OffsetsError>) -> Result<Map<Seq<char>, usize>, OffsetsError> {
    match r {
        Ok(o) => Ok(o@),
        Err(e) => Err(e),
    }
}

/// Entries after position `i` that do not name `k` leave its lookup alone.
proof fn lemma_offsets_map_suffix(entries: Seq<(Seq<char>, usize)>, i: int, k: Seq<char>)
    requires
        0 <= i <= entries.len(),
        forall|j: int| i <= j < entries.len() ==> #[trigger] entries[j].0 != k,
    ensures
        offsets_map(entries).dom().contains(k) == offsets_map(entries.take(i)).dom().contains(k),
        offsets_map(entries).dom().contains(k) ==> offsets_map(entries)[k] == offsets_map(
            entries.take(i),
        )[k],
    decreases entries.len() - i,
{
    if i < entries.len() {
        let e = entries.drop_last();
        assert(entries.last().0 != k);
        assert(e.take(i) =~= entries.take(i));
        lemma_offsets_map_suffix(e, i, k);
    } else {
        assert(entries.take(i) =~= entries);
    }
}

impl Offsets {
    /// Turns a symbol map into offsets, or names the first listing whose
    /// offset is malformed.
    pub fn init(map: AddressMap) -> (r: Result<Offsets, OffsetsError>)
        ensures
            init_outcome(map.addresses@, offsets_outcome(r)),
    {
        let ghost listed = map.addresses@;
        let addresses = map.addresses;
        let mut inner: Vec<(String, usize)> = Vec::new();
        let mut i: usize = 0;
        while i < addresses.len()
            invariant
                listed == addresses@,
                listed == map.addresses@,
                i <= addresses@.len(),
                inner@.len() == i,
                forall|j: int| 0 <= j < i ==> #[trigger] listed_offset(addresses@[j]) is Some,
                forall|j: int|
                    0 <= j < i ==> #[trigger] entry_views(inner@)[j] == listed_entries(addresses@)[j],
            decreases addresses@.len() - i,
        {
            let address = &addresses[i];
            let text = address.offset.as_str();
            let bytes = text.as_bytes();
            assert(bytes@ == encode_utf8(addresses@[i as int].offset@));
            let segment = last_segment_of(bytes);
            match parse_hex(segment) {
                None => {
                    assert(listed_offset(addresses@[i as int]) is None);
                    return Err(OffsetsError::InvalidOffset(i));
                },
                Some(offset) => {
                    assert(listed_offset(addresses@[i as int]) == Some(offset));
                    let ghost before = inner@;
                    let symbol = address.symbol.clone();
                    inner.push((symbol, offset));
                    assert(entry_views(inner@) =~= entry_views(before).push(
                        (addresses@[i as int].symbol@, offset),
                    ));
                },
            }
            i = i + 1;
        }
        let offsets = Offsets { inner };
        assert(entry_views(offsets.inner@) =~= listed_entries(addresses@));
        Ok(offsets)
    }

    /// The offset of `symbol`, if the map lists it.
    pub fn get(&self, symbol: &str) -> (offset: Option<usize>)
        ensures
            offset == (if self@.dom().contains(symbol@) {
                Some(self@[symbol@])
            } else {
                None
            }),
    {
        let key = symbol.to_owned();
        let ghost entries = entry_views(self.inner@);
        let mut i: usize = self.inner.len();
        while i > 0
            invariant
                i <= self.inner@.len(),
                key@ == symbol@,
                entries == entry_views(self.inner@),
                forall|j: int| i <= j < entries.len() ==> #[trigger] entries[j].0 != symbol@,
            decreases i,
        {
            if self.inner[i - 1].0 == key {
                proof {
                    lemma_offsets_map_suffix(entries, i as int, symbol@);
                    let t = entries.take(i as int);
                    assert(t.last() == entries[i - 1]);
                }
                return Some(self.inner[i - 1].1);
            }
            i = i - 1;
        }
        proof {
            lemma_offsets_map_suffix(entries, 0, symbol@);
            assert(entries.take(0) =~= Seq::<(Seq<char>, usize)>::empty());
        }
        None
    }

    /// The address of `symbol`: its offset past the start of the code
    /// section `text`, which must not be past the end of the image.
    pub fn resolve(&self, text: &Section, symbol: &str) -> (address: Result<usize, ResolveError>)
        ensures
            match address {
                Ok(a) => self@.dom().contains(symbol@) && text@.base + self@[symbol@]
                    <= text@.image_end && a == text@.base + self@[symbol@],
                Err(ResolveError::UnknownSymbol) => !self@.dom().contains(symbol@),
                Err(ResolveError::OutsideImage) => self@.dom().contains(symbol@) && text@.base
                    + self@[symbol@] > text@.image_end,
                Err(ResolveError::InvalidUtf8) => false,
            },
    {
        match self.get(symbol) {
            None => Err(ResolveError::UnknownSymbol),
            Some(offset) => {
                let base = text.base();
                let end = text.image_end();
                if base > end || offset > end - base {
                    Err(ResolveError::OutsideImage)
                } else {
                    Ok(text.rva(offset))
                }
            },
        }
    }

    /// The address of the symbol whose name has the bytes `symbol` (as a C
    /// string hands them over) in the code section `text`.
    pub fn resolve_bytes(&self, text: &Section, symbol: &[u8]) -> (address: Result<usize, ResolveError>)
        ensures
            match address {
                Ok(a) => valid_utf8(symbol@) && self@.dom().contains(decode_utf8(symbol@))
                    && text@.base + self@[decode_utf8(symbol@)] <= text@.image_end && a
                    == text@.base + self@[decode_utf8(symbol@)],
                Err(ResolveError::InvalidUtf8) => !valid_utf8(symbol@),
                Err(ResolveError::UnknownSymbol) => valid_utf8(symbol@) && !self@.dom().contains(
                    decode_utf8(symbol@),
                ),
                Err(ResolveError::OutsideImage) => valid_utf8(symbol@) && self@.dom().contains(
                    decode_utf8(symbol@),
                ) && text@.base + self@[decode_utf8(symbol@)] > text@.image_end,
            },
    {
        match utf8_text(symbol) {
            None => Err(ResolveError::InvalidUtf8),
            Some(name) => self.resolve(text, name),
        }
    }
}

/// Turning a symbol map into offsets and looking a symbol up gives the
/// offset of the symbol's last listing; a symbol that no listing names is
/// not found.
pub proof fn lemma_lookup_finds_last_listing(addresses: Seq<Address>, offsets: Map<Seq<char>, usize>, symbol: Seq<char>)
    requires
        init_outcome(addresses, Ok(offsets)),
    ensures
        (exists|i: int| 0 <= i < addresses.len() && #[trigger] addresses[i].symbol@ == symbol)
            <==> offsets.dom().contains(symbol),
        forall|i: int|
            0 <= i < addresses.len() && #[trigger] addresses[i].symbol@ == symbol && (forall|j: int|
                i < j < addresses.len() ==> #[trigger] addresses[j].symbol@ != symbol) ==> offsets[symbol]
                == listed_offset(addresses[i]).unwrap(),
{
    let entries = listed_entries(addresses);
    lemma_offsets_map_membership(entries, symbol);
    assert forall|i: int|
        0 <= i < addresses.len() && #[trigger] addresses[i].symbol@ == symbol && (forall|j: int|
            i < j < addresses.len() ==> #[trigger] addresses[j].symbol@ != symbol) implies offsets[symbol]
        == listed_offset(addresses[i]).unwrap() by {
        assert forall|j: int| i + 1 <= j < entries.len() implies #[trigger] entries[j].0 != symbol by {
            assert(addresses[j].symbol@ != symbol);
        }
        lemma_offsets_map_suffix(entries, i + 1, symbol);
        let t = entries.take(i + 1);
        assert(t.last() == entries[i]);
    }
    if offsets.dom().contains(symbol) {
        let i = choose|i: int| 0 <= i < entries.len() && entries[i].0 == symbol;
        assert(addresses[i].symbol@ == symbol);
    }
    if exists|i: int| 0 <= i < addresses.len() && #[trigger] addresses[i].symbol@ == symbol {
        let i = choose|i: int| 0 <= i < addresses.len() && #[trigger] addresses[i].symbol@ == symbol;
        assert(entries[i].0 == symbol);
    }
}

/// A key is in the map of a sequence of entries exactly when some entry
/// names it.
proof fn lemma_offsets_map_membership(entries: Seq<(Seq<char>, usize)>, k: Seq<char>)
    ensures
        offsets_map(entries).dom().contains(k) <==> exists|i: int|
            0 <= i < entries.len() && #[trigger] entries[i].0 == k,
    decreases entries.len(),
{
    if entries.len() > 0 {
        let e = entries.drop_last();
        lemma_offsets_map_membership(e, k);
        if exists|i: int| 0 <= i < e.len() && #[trigger] e[i].0 == k {
            let i = choose|i: int| 0 <= i < e.len() && #[trigger] e[i].0 == k;
            assert(entries[i].0 == k);
        }
        if exists|i: int| 0 <= i < entries.len() && #[trigger] entries[i].0 == k {
            let i = choose|i: int| 0 <= i < entries.len() && #[trigger] entries[i].0 == k;
            if i < entries.len() - 1 {
                assert(e[i].0 == k);
            }
        }
    }
}


/// A leading `+` does not change what a string of digits reads as.
pub proof fn lemma_plus_sign_ignored(d: Seq<u8>)
    requires
        d.len() >= 1,
        d[0] != PLUS_SIGN,
    ensures
        from_hex_radix(seq![PLUS_SIGN] + d) == from_hex_radix(d),
{
    assert((seq![PLUS_SIGN] + d).drop_first() =~= d);
}

/// The lower-case hexadecimal digit for `d` (0 to 15): `0`-`9`, then `a`-`f`.
pub open spec fn lower_hex_char(d: int) -> u8 {
    if d < 10 {
        (0x30 + d) as u8
    } else {
        (0x61 + d - 10) as u8
    }
}

/// The upper-case hexadecimal digit for `d` (0 to 15): `0`-`9`, then `A`-`F`.
pub open spec fn upper_hex_char(d: int) -> u8 {
    if d < 10 {
        (0x30 + d) as u8
    } else {
        (0x41 + d - 10) as u8
    }
}

/// `n` written in hexadecimal without leading zeros (as `{:x}` or, with
/// `upper`, `{:X}` writes it).
pub open spec fn hex_rendering(n: nat, upper: bool) -> Seq<u8>
    decreases n,
{
    let digit = if upper {
        upper_hex_char((n % 16) as int)
    } else {
        lower_hex_char((n % 16) as int)
    };
    if n < 16 {
        seq![digit]
    } else {
        hex_rendering(n / 16, upper).push(digit)
    }
}

/// A single byte reads as a number exactly when it is one of the 22
/// hexadecimal digits, and then as its usual value.
pub proof fn lemma_single_hex_digits(b: u8)
    ensures
        from_hex_radix(seq![b]) is Some <==> (0x30 <= b <= 0x39 || 0x61 <= b <= 0x66 || 0x41 <= b
            <= 0x46),
        0x30 <= b <= 0x39 ==> from_hex_radix(seq![b]) == Some((b - 0x30) as usize),
        0x61 <= b <= 0x66 ==> from_hex_radix(seq![b]) == Some((b - 0x61 + 10) as usize),
        0x41 <= b <= 0x46 ==> from_hex_radix(seq![b]) == Some((b - 0x41 + 10) as usize),
{
    let d = seq![b];
    assert(d.drop_last() =~= Seq::<u8>::empty());
    assert(d[0] == b && d.last() == b);
    assert(hex_value(Seq::<u8>::empty()) == 0);
    if is_hex_digit(b) {
        assert(all_hex_digits(d));
        assert(hex_value(d) == hex_digit_value(b));
    } else {
        assert(!all_hex_digits(d));
    }
}

/// The hexadecimal rendering of every `usize`, in either case, reads back
/// as that number.
pub proof fn lemma_hex_rendering_reads_back(n: usize, upper: bool)
    ensures
        from_hex_radix(hex_rendering(n as nat, upper)) == Some(n),
{
    lemma_rendering_digits(n as nat, upper);
    let r = hex_rendering(n as nat, upper);
    assert(r[0] != PLUS_SIGN);
}

/// The rendering of `n` is made of hexadecimal digits, does not start with
/// `+`, and has value `n`.
proof fn lemma_rendering_digits(n: nat, upper: bool)
    ensures
        hex_rendering(n, upper).len() >= 1,
        all_hex_digits(hex_rendering(n, upper)),
        hex_rendering(n, upper)[0] != PLUS_SIGN,
        hex_value(hex_rendering(n, upper)) == n,
    decreases n,
{
    let r = hex_rendering(n, upper);
    let d = (n % 16) as int;
    let digit = if upper {
        upper_hex_char(d)
    } else {
        lower_hex_char(d)
    };
    assert(is_hex_digit(digit) && hex_digit_value(digit) == d);
    assert(hex_value(Seq::<u8>::empty()) == 0);
    if n < 16 {
        assert(r.drop_last() =~= Seq::<u8>::empty());
        assert(r.last() == digit);
        assert(r[0] == digit);
        assert(n % 16 == n);
    } else {
        lemma_rendering_digits(n / 16, upper);
        let q = hex_rendering(n / 16, upper);
        assert(r.drop_last() =~= q);
        assert(r[0] == q[0]);
        assert forall|i: int| 0 <= i < r.len() implies #[trigger] is_hex_digit(r[i]) by {
            if i < q.len() {
                assert(r[i] == q[i]);
                assert(is_hex_digit(q[i]));
            }
        }
        assert(r.last() == digit);
        assert(hex_value(r) == 16 * hex_value(q) + hex_digit_value(digit));
        assert(n == 16 * (n / 16) + n % 16);
    }
}

/// A listing whose offset's bytes are any prefix, a `:`, and the
/// hexadecimal rendering of a `usize` gives that `usize` as its offset.
pub proof fn lemma_listing_offset_is_rendered_value(prefix: Seq<u8>, n: usize, upper: bool, a: Address)
    requires
        encode_utf8(a.offset@) == prefix + seq![SEGMENT_SEPARATOR] + hex_rendering(n as nat, upper),
    ensures
        listed_offset(a) == Some(n),
{
    let r = hex_rendering(n as nat, upper);
    lemma_rendering_digits(n as nat, upper);
    lemma_last_segment_after_colon(prefix + seq![SEGMENT_SEPARATOR], r);
    assert(last_segment(prefix + seq![SEGMENT_SEPARATOR]) =~= Seq::<u8>::empty());
    assert(Seq::<u8>::empty() + r =~= r);
    lemma_hex_rendering_reads_back(n, upper);
}

/// After a byte string that ends in `:`, the last segment of an appended
/// string of hexadecimal digits is those digits.
proof fn lemma_last_segment_after_colon(head: Seq<u8>, tail: Seq<u8>)
    requires
        all_hex_digits(tail),
    ensures
        last_segment(head + tail) == last_segment(head) + tail,
    decreases tail.len(),
{
    if tail.len() > 0 {
        let t = tail.drop_last();
        assert(all_hex_digits(t)) by {
            assert forall|i: int| 0 <= i < t.len() implies #[trigger] is_hex_digit(t[i]) by {
                assert(is_hex_digit(tail[i]));
            }
        }
        lemma_last_segment_after_colon(head, t);
        assert((head + tail).drop_last() =~= head + t);
        assert(is_hex_digit(tail.last()));
        assert((head + tail).last() == tail.last());
        assert(last_segment(head) + tail =~= (last_segment(head) + t).push(tail.last()));
    } else {
        assert(head + tail =~= head);
        assert(last_segment(head) + tail =~= last_segment(head));
    }
}

} // verus!

