use vstd::prelude::*;
use vstd::string::StrSliceExecFns;

use crate::error::Error;

verus! {

/// A hardware (MAC) address: exactly six raw bytes.
#[derive(Debug, Clone, Copy, PartialEq, Eq, Hash)]
pub struct MacAddress(pub [u8; 6]);

impl View for MacAddress {
    type V = Seq<u8>;

    open spec fn view(&self) -> Seq<u8> {
        self.0@
    }
}

/// The canonical text form uses only lowercase hex digits.
pub open spec fn is_lower_hex_digit(c: char) -> bool {
    (48 <= c as u32 && c as u32 <= 57) || (97 <= c as u32 && c as u32 <= 102)
}

/// Numeric value of a lowercase hex digit.
pub open spec fn hex_val(c: char) -> u8 {
    if 48 <= c as u32 && c as u32 <= 57 {
        (c as u32 - 48) as u8
    } else {
        (c as u32 - 87) as u8
    }
}

/// Lowercase hex digit for a value below 16.
pub open spec fn hex_digit_char(v: u8) -> char {
    if v == 0 { '0' }
    else if v == 1 { '1' }
    else if v == 2 { '2' }
    else if v == 3 { '3' }
    else if v == 4 { '4' }
    else if v == 5 { '5' }
    else if v == 6 { '6' }
    else if v == 7 { '7' }
    else if v == 8 { '8' }
    else if v == 9 { '9' }
    else if v == 10 { 'a' }
    else if v == 11 { 'b' }
    else if v == 12 { 'c' }
    else if v == 13 { 'd' }
    else if v == 14 { 'e' }
    else if v == 15 { 'f' }
    else { '0' }
}

/// Canonical address text: six lowercase hex byte pairs joined by `:`,
/// so 17 characters with `:` at every position congruent to 2 modulo 3.
pub open spec fn valid_mac_string(s: Seq<char>) -> bool {
    &&& s.len() == 17
    &&& forall|i: int| 0 <= i < 17 && i % 3 == 2 ==> #[trigger] s[i] == ':'
    &&& forall|i: int| 0 <= i < 17 && i % 3 != 2 ==> is_lower_hex_digit(#[trigger] s[i])
}

/// The six bytes denoted by a canonical address text.
pub open spec fn mac_bytes_of(s: Seq<char>) -> Seq<u8> {
    Seq::new(6, |i: int| (hex_val(s[3 * i]) * 16 + hex_val(s[3 * i + 1])) as u8)
}

/// The canonical text of six bytes.
pub open spec fn mac_text_of(b: Seq<u8>) -> Seq<char> {
    Seq::new(17, |i: int|
        if i % 3 == 2 {
            ':'
        } else if i % 3 == 0 {
            hex_digit_char((b[i / 3] / 16) as u8)
        } else {
            hex_digit_char((b[i / 3] % 16) as u8)
        })
}

/// Numeric value of a hex digit character, or `None` for anything that is not
/// a lowercase hex digit (uppercase included, by design).
fn hex_value(c: char) -> (r: Option<u8>)
    ensures
        r is Some <==> is_lower_hex_digit(c),
        r matches Some(v) ==> v == hex_val(c) && v < 16,
{
    let code: u32 = c as u32;
    if 48 <= code && code <= 57 {
        Some((code - 48) as u8)
    } else if 97 <= code && code <= 102 {
        Some((code - 87) as u8)
    } else {
        None
    }
}

impl MacAddress {
    /// Parse canonical address text. Succeeds exactly on strings of six
    /// two-digit lowercase hex segments joined by `:`; anything else (wrong
    /// segment count, wrong segment length, uppercase or non-hex content,
    /// other separators) is rejected.
    pub fn parse(s: &str) -> (r: Result<Self, Error>)
        ensures
            r is Ok <==> valid_mac_string(s@),
            r matches Ok(m) ==> m@ == mac_bytes_of(s@),
            r matches Err(e) ==> e == Error::InvalidMacAddress,
    {
        let n = s.unicode_len();
        if n != 17 {
            return Err(Error::InvalidMacAddress);
        }
        let mut idx: usize = 0;
        while idx < 17
            invariant
                idx <= 17,
                s@.len() == 17,
                forall|i: int| 0 <= i < idx && i % 3 == 2 ==> #[trigger] s@[i] == ':',
                forall|i: int| 0 <= i < idx && i % 3 != 2 ==> is_lower_hex_digit(#[trigger] s@[i]),
            decreases 17 - idx,
        {
            let c = s.get_char(idx);
            if idx % 3 == 2 {
                if c != ':' {
                    return Err(Error::InvalidMacAddress);
                }
            } else {
                if hex_value(c).is_none() {
                    return Err(Error::InvalidMacAddress);
                }
            }
            idx += 1;
        }
        let mut bytes: Vec<u8> = Vec::new();
        let mut j: usize = 0;
        while j < 6
            invariant
                j <= 6,
                s@.len() == 17,
                valid_mac_string(s@),
                bytes@ =~= mac_bytes_of(s@).take(j as int),
            decreases 6 - j,
        {
            let hi = match hex_value(s.get_char(3 * j)) {
                Some(v) => v,
                None => { return Err(Error::InvalidMacAddress); },
            };
            let lo = match hex_value(s.get_char(3 * j + 1)) {
                Some(v) => v,
                None => { return Err(Error::InvalidMacAddress); },
            };
            bytes.push(hi * 16 + lo);
            j += 1;
        }
        let m = MacAddress([bytes[0], bytes[1], bytes[2], bytes[3], bytes[4], bytes[5]]);
        proof {
            assert(m@ =~= mac_bytes_of(s@));
        }
        Ok(m)
    }

    /// The six raw bytes.
    pub fn octets(&self) -> (r: [u8; 6])
        ensures
            r@ == self@,
    {
        self.0
    }

    /// Canonical text form: lowercase hex pairs joined by `:`.
    pub fn to_string(&self) -> (r: String)
        ensures
            r@ == mac_text_of(self@),
            valid_mac_string(r@),
    {
        let mut out = String::new();
        let mut p: usize = 0;
        while p < 17
            invariant
                p <= 17,
                out@ =~= mac_text_of(self@).take(p as int),
            decreases 17 - p,
        {
            let piece: &str = if p % 3 == 2 {
                proof {
                    reveal_strlit(":");
                }
                ":"
            } else {
                let byte = self.0[p / 3];
                let v = if p % 3 == 0 { byte / 16 } else { byte % 16 };
                hex_digit_text(v)
            };
            out.append(piece);
            proof {
                assert(out@ =~= mac_text_of(self@).take(p as int + 1));
            }
            p += 1;
        }
        proof {
            assert(out@ =~= mac_text_of(self@));
            lemma_mac_text_valid(self@);
        }
        out
    }

    /// The standard Wake-on-LAN magic packet for this address: 6 bytes of
    /// `0xff` followed by the address repeated 16 times, 102 bytes in all.
    pub fn magic_packet(&self) -> (r: Vec<u8>)
        ensures
            r@ == magic_packet_bytes(self@),
    {
        let mut out: Vec<u8> = Vec::new();
        let mut i: usize = 0;
        while i < 6
            invariant
                i <= 6,
                out@ =~= magic_packet_bytes(self@).take(i as int),
            decreases 6 - i,
        {
            out.push(0xff);
            i += 1;
        }
        let mut rep: usize = 0;
        while rep < 16
            invariant
                rep <= 16,
                out@ =~= magic_packet_bytes(self@).take(6 + 6 * rep as int),
            decreases 16 - rep,
        {
            let mut j: usize = 0;
            while j < 6
                invariant
                    rep < 16,
                    j <= 6,
                    out@ =~= magic_packet_bytes(self@).take(6 + 6 * rep as int + j as int),
                decreases 6 - j,
            {
                proof {
                    let p = 6 + 6 * rep as int + j as int;
                    assert((p - 6) % 6 == j as int) by (nonlinear_arith)
                        requires p == 6 + 6 * rep + j && 0 <= j < 6 && 0 <= rep;
                }
                out.push(self.0[j]);
                j += 1;
            }
            rep += 1;
        }
        proof {
            assert(out@ =~= magic_packet_bytes(self@));
        }
        out
    }
}

/// The 102-byte Wake-on-LAN payload for a six-byte address.
pub open spec fn magic_packet_bytes(mac: Seq<u8>) -> Seq<u8> {
    Seq::new(102, |i: int| if i < 6 { 0xffu8 } else { mac[(i - 6) % 6] })
}

/// One-character string for a hex digit value below 16.
fn hex_digit_text(v: u8) -> (r: &'static str)
    requires
        v < 16,
    ensures
        r@.len() == 1,
        r@[0] == hex_digit_char(v),
{
    proof {
        reveal_strlit("0");
        reveal_strlit("1");
        reveal_strlit("2");
        reveal_strlit("3");
        reveal_strlit("4");
        reveal_strlit("5");
        reveal_strlit("6");
        reveal_strlit("7");
        reveal_strlit("8");
        reveal_strlit("9");
        reveal_strlit("a");
        reveal_strlit("b");
        reveal_strlit("c");
        reveal_strlit("d");
        reveal_strlit("e");
        reveal_strlit("f");
    }
    match v {
        0 => "0",
        1 => "1",
        2 => "2",
        3 => "3",
        4 => "4",
        5 => "5",
        6 => "6",
        7 => "7",
        8 => "8",
        9 => "9",
        10 => "a",
        11 => "b",
        12 => "c",
        13 => "d",
        14 => "e",
        _ => "f",
    }
}

/// The canonical text of any six bytes is itself a valid address text.
pub proof fn lemma_mac_text_valid(b: Seq<u8>)
    requires
        b.len() == 6,
    ensures
        valid_mac_string(mac_text_of(b)),
{
    assert forall|i: int| 0 <= i < 17 && i % 3 != 2 implies is_lower_hex_digit(
        #[trigger] mac_text_of(b)[i],
    ) by {
        let v: u8 = if i % 3 == 0 { (b[i / 3] / 16) as u8 } else { (b[i / 3] % 16) as u8 };
        assert(v < 16);
        assert(mac_text_of(b)[i] == hex_digit_char(v));
        assert(is_lower_hex_digit(hex_digit_char(v)));
    }
}

/// Round trip: formatting six bytes yields a valid address text that parses
/// back to exactly those bytes; with the contracts of `MacAddress::parse` and
/// `MacAddress::to_string` this gives `parse(format(addr)) == Ok(addr)` for
/// every address.
pub proof fn lemma_format_parse_round_trip(b: Seq<u8>)
    requires
        b.len() == 6,
    ensures
        valid_mac_string(mac_text_of(b)),
        mac_bytes_of(mac_text_of(b)) == b,
{
    lemma_mac_text_valid(b);
    let s = mac_text_of(b);
    assert forall|j: int| 0 <= j < 6 implies mac_bytes_of(s)[j] == b[j] by {
        assert((3 * j) % 3 == 0 && (3 * j + 1) % 3 == 1);
        assert((3 * j) / 3 == j && (3 * j + 1) / 3 == j);
        assert(s[3 * j] == hex_digit_char((b[j] / 16) as u8));
        assert(s[3 * j + 1] == hex_digit_char((b[j] % 16) as u8));
        assert(hex_val(hex_digit_char((b[j] / 16) as u8)) == (b[j] / 16) as u8);
        assert(hex_val(hex_digit_char((b[j] % 16) as u8)) == (b[j] % 16) as u8);
        assert(b[j] / 16 * 16 + b[j] % 16 == b[j]);
    }
    assert(mac_bytes_of(s) =~= b);
}

} // verus!
