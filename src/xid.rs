use vstd::prelude::*;
use vstd::arithmetic::power::pow;

verus! {

/// A globally unique, time-ordered identifier: the twelve raw bytes of an xid.
#[derive(Debug, Clone, Copy)]
pub struct Xid(pub [u8; 12]);

impl View for Xid {
    type V = Seq<u8>;

    open spec fn view(&self) -> Seq<u8> {
        self.0@
    }
}

/// Identifiers order as their bytes do, lexicographically.
pub open spec fn id_lt(a: Seq<u8>, b: Seq<u8>) -> bool {
    exists|i: int| 0 <= i < a.len() && i < b.len() && #[trigger] a.take(i) == b.take(i) && a[i] < b[i]
}

/// The digits of base32hex, as xid writes them.
pub open spec fn xid_digits() -> Seq<char> {
    seq![
        '0', '1', '2', '3', '4', '5', '6', '7', '8', '9', 'a', 'b', 'c', 'd', 'e', 'f', 'g', 'h',
        'i', 'j', 'k', 'l', 'm', 'n', 'o', 'p', 'q', 'r', 's', 't', 'u', 'v',
    ]
}

/// The value of a base32hex digit, or -1.
pub open spec fn xid_digit_value(c: char) -> int {
    if '0' <= c && c <= '9' {
        c as int - '0' as int
    } else if 'a' <= c && c <= 'v' {
        c as int - 'a' as int + 10
    } else {
        -1
    }
}

/// The bytes read as one big-endian number.
pub open spec fn bytes_value(b: Seq<u8>) -> int
    decreases b.len(),
{
    if b.len() == 0 {
        0
    } else {
        bytes_value(b.drop_last()) * 256 + b.last() as int
    }
}

/// The digits read as one base-32 number.
pub open spec fn digits_value(s: Seq<char>) -> int
    decreases s.len(),
{
    if s.len() == 0 {
        0
    } else {
        digits_value(s.drop_last()) * 32 + xid_digit_value(s.last())
    }
}

/// The text form of an xid: the twelve bytes followed by four zero bits, written as
/// twenty base32hex digits, most significant first.
pub open spec fn xid_text_of(b: Seq<u8>) -> Seq<char> {
    Seq::new(20, |k: int| xid_digits()[(bytes_value(b) * 16 / pow(32, (19 - k) as nat)) % 32])
}

/// A base32hex digit as xid writes it: `0`-`9` or `a`-`v`.
pub open spec fn is_xid_char(c: char) -> bool {
    ('0' <= c && c <= '9') || ('a' <= c && c <= 'v')
}

/// The texts that xid writes and reads: twenty base32hex digits, the last of which
/// carries only the final four bits of the twelve bytes, so it is `0` or `g`.
pub open spec fn is_xid_text(s: Seq<char>) -> bool {
    &&& s.len() == 20
    &&& forall|i: int| 0 <= i < 20 ==> is_xid_char(#[trigger] s[i])
    &&& (s[19] == '0' || s[19] == 'g')
}

/// The twelve bytes that an xid text encodes: its value without the four final zero
/// bits, written big-endian.
pub open spec fn xid_bytes_of(s: Seq<char>) -> Seq<u8> {
    Seq::new(12, |i: int| ((digits_value(s) / 16 / pow(256, (11 - i) as nat)) % 256) as u8)
}

/// The value of a hexadecimal digit, or -1.
pub open spec fn hex_value(c: char) -> int {
    if '0' <= c && c <= '9' {
        c as int - '0' as int
    } else if 'a' <= c && c <= 'f' {
        c as int - 'a' as int + 10
    } else if 'A' <= c && c <= 'F' {
        c as int - 'A' as int + 10
    } else {
        -1
    }
}

/// `s` is twenty-four hexadecimal digits.
pub open spec fn is_hex_id(s: Seq<char>) -> bool {
    s.len() == 24 && forall|i: int| 0 <= i < 24 ==> #[trigger] hex_value(s[i]) >= 0
}

/// The twelve bytes that twenty-four hexadecimal digits spell, two digits a byte.
pub open spec fn hex_bytes(s: Seq<char>) -> Seq<u8> {
    Seq::new(12, |i: int| (hex_value(s[2 * i]) * 16 + hex_value(s[2 * i + 1])) as u8)
}

/// No identifier precedes itself.
pub proof fn lemma_id_lt_irreflexive(a: Seq<u8>)
    ensures
        !id_lt(a, a),
{
}

/// The order of identifiers is transitive.
pub proof fn lemma_id_lt_transitive(a: Seq<u8>, b: Seq<u8>, c: Seq<u8>)
    requires
        a.len() == 12,
        b.len() == 12,
        c.len() == 12,
        id_lt(a, b),
        id_lt(b, c),
    ensures
        id_lt(a, c),
{
    let i = choose|i: int| 0 <= i < a.len() && i < b.len() && #[trigger] a.take(i) == b.take(i) && a[i] < b[i];
    let j = choose|j: int| 0 <= j < b.len() && j < c.len() && #[trigger] b.take(j) == c.take(j) && b[j] < c[j];
    if i < j {
        assert(b.take(j)[i] == c.take(j)[i]);
        assert(a.take(i) =~= c.take(i)) by {
            assert forall|k: int| 0 <= k < i implies a.take(i)[k] == c.take(i)[k] by {
                assert(a.take(i)[k] == b.take(i)[k]);
                assert(b.take(j)[k] == c.take(j)[k]);
            }
        }
        assert(a.take(i) == c.take(i));
    } else if j < i {
        assert(a.take(i)[j] == b.take(i)[j]);
        assert(a.take(j) =~= c.take(j)) by {
            assert forall|k: int| 0 <= k < j implies a.take(j)[k] == c.take(j)[k] by {
                assert(a.take(i)[k] == b.take(i)[k]);
                assert(b.take(j)[k] == c.take(j)[k]);
            }
        }
        assert(a.take(j) == c.take(j));
    } else {
        assert(a.take(i) =~= c.take(i));
    }
}

/// The order of identifiers is asymmetric.
pub proof fn lemma_id_lt_asymmetric(a: Seq<u8>, b: Seq<u8>)
    requires
        a.len() == 12,
        b.len() == 12,
        id_lt(a, b),
    ensures
        !id_lt(b, a),
{
    if id_lt(b, a) {
        lemma_id_lt_transitive(a, b, a);
    }
}

/// Where two identifiers first differ at `i`, the smaller byte decides.
proof fn lemma_first_difference(a: Seq<u8>, b: Seq<u8>, i: int)
    requires
        a.len() == 12,
        b.len() == 12,
        0 <= i < 12,
        a.take(i) == b.take(i),
        a[i] < b[i],
    ensures
        id_lt(a, b),
        !id_lt(b, a),
        a != b,
{
    assert(a.take(i) == b.take(i));
    lemma_id_lt_asymmetric(a, b);
}

/// The value of one hexadecimal digit.
fn hex_digit(c: char) -> (r: Option<u8>)
    ensures
        match r {
            Some(v) => hex_value(c) >= 0 && v as int == hex_value(c),
            None => hex_value(c) < 0,
        },
{
    if '0' <= c && c <= '9' {
        Some((c as u32 - '0' as u32) as u8)
    } else if 'a' <= c && c <= 'f' {
        Some((c as u32 - 'a' as u32 + 10) as u8)
    } else if 'A' <= c && c <= 'F' {
        Some((c as u32 - 'A' as u32 + 10) as u8)
    } else {
        None
    }
}

/// Compares two identifiers: negative, zero or positive as `a` comes before, equals or
/// comes after `b`.
pub fn compare_ids(a: &Xid, b: &Xid) -> (r: i8)
    ensures
        (r < 0) == id_lt(a@, b@),
        (r == 0) == (a@ == b@),
        (r > 0) == id_lt(b@, a@),
{
    let mut i: usize = 0;
    while i < 12
        invariant
            i <= 12,
            a@.len() == 12,
            b@.len() == 12,
            a@.take(i as int) == b@.take(i as int),
        decreases 12 - i,
    {
        if a.0[i] < b.0[i] {
            proof {
                lemma_first_difference(a@, b@, i as int);
            }
            return -1;
        }
        if a.0[i] > b.0[i] {
            proof {
                lemma_first_difference(b@, a@, i as int);
            }
            return 1;
        }
        assert(a@.take(i + 1) =~= a@.take(i as int).push(a@[i as int]));
        assert(b@.take(i + 1) =~= b@.take(i as int).push(b@[i as int]));
        i = i + 1;
    }
    assert(a@ =~= a@.take(12));
    assert(b@ =~= b@.take(12));
    0
}

/// Relies on `xid::new`: a fresh identifier from the process-wide generator. Nothing is
/// known of its value.
#[verifier::external_body]
fn fresh_xid_bytes() -> (r: [u8; 12]) {
    xid::new().0
}

/// Relies on the `Display` of `xid::Id`: the base32hex text of the twelve bytes, twenty
/// characters from `0123456789abcdefghijklmnopqrstuv`, the last one encoding the low
/// four bits of the final byte followed by a zero bit.
#[verifier::external_body]
fn xid_text(bytes: &[u8; 12]) -> (r: String)
    ensures
        r@ == xid_text_of(bytes@),
        is_xid_text(r@),
{
    xid::Id(*bytes).to_string()
}

/// Relies on the `FromStr` of `xid::Id`: it accepts exactly twenty base32hex digits
/// whose last one re-encodes to itself (`0` or `g`, so the four final bits are zero),
/// and gives the twelve bytes they encode, so it reads the text of any twelve bytes
/// back to those bytes.
#[verifier::external_body]
fn parse_xid_text(s: &str) -> (r: Option<[u8; 12]>)
    ensures
        (r is Some) == is_xid_text(s@),
        r is Some ==> r->0@ == xid_bytes_of(s@),
        forall|b: Seq<u8>| b.len() == 12 && #[trigger] xid_text_of(b) == s@ ==> r is Some && r->0@ == b,
{
    <xid::Id as std::str::FromStr>::from_str(s).ok().map(|id| id.0)
}

impl Xid {
    /// The twenty-character text form of this identifier.
    pub fn to_string(&self) -> (r: String)
        ensures
            r@ == xid_text_of(self@),
            is_xid_text(r@),
    {
        xid_text(&self.0)
    }

    /// The twelve raw bytes of this identifier.
    pub fn as_bytes(&self) -> (r: &[u8; 12])
        ensures
            r@ == self@,
    {
        &self.0
    }

    /// A freshly minted identifier.
    pub fn new() -> (r: Xid)
        ensures
            r@.len() == 12,
    {
        Xid(fresh_xid_bytes())
    }

    /// The identifier whose raw bytes are `b`, where there are twelve of them.
    pub fn from_bytes(b: &[u8]) -> (r: Option<Xid>)
        ensures
            (r is Some) == (b@.len() == 12),
            r is Some ==> r->0@ == b@,
    {
        if b.len() != 12 {
            return None;
        }
        let mut bytes: [u8; 12] = [0u8; 12];
        let mut i: usize = 0;
        while i < 12
            invariant
                b@.len() == 12,
                i <= 12,
                bytes@.len() == 12,
                forall|k: int| 0 <= k < i ==> bytes@[k] == b@[k],
            decreases 12 - i,
        {
            bytes[i] = b[i];
            i = i + 1;
        }
        assert(bytes@ =~= b@);
        Some(Xid(bytes))
    }

    /// The identifier spelled by twenty-four hexadecimal digits, two a byte.
    pub fn from_hex(s: &str) -> (r: Option<Xid>)
        ensures
            is_hex_id(s@) ==> r is Some && r->0@ == hex_bytes(s@),
            !is_hex_id(s@) ==> r is None,
    {
        if s.unicode_len() != 24 {
            return None;
        }
        let mut bytes: [u8; 12] = [0u8; 12];
        let mut i: usize = 0;
        while i < 12
            invariant
                s@.len() == 24,
                i <= 12,
                bytes@.len() == 12,
                forall|k: int| 0 <= k < 2 * i ==> #[trigger] hex_value(s@[k]) >= 0,
                forall|k: int| 0 <= k < i ==> bytes@[k] == hex_bytes(s@)[k],
            decreases 12 - i,
        {
            let hi = hex_digit(s.get_char(2 * i));
            let lo = hex_digit(s.get_char(2 * i + 1));
            match (hi, lo) {
                (Some(h), Some(l)) => {
                    assert(h * 16 + l < 256) by (nonlinear_arith)
                        requires
                            h < 16,
                            l < 16,
                    ;
                    bytes[i] = h * 16 + l;
                },
                _ => {
                    return None;
                },
            }
            i = i + 1;
        }
        assert(bytes@ =~= hex_bytes(s@));
        Some(Xid(bytes))
    }

    /// The identifier written as the twenty-character text of an xid.
    pub fn from_text(s: &str) -> (r: Option<Xid>)
        ensures
            (r is Some) == is_xid_text(s@),
            r is Some ==> r->0@ == xid_bytes_of(s@),
            forall|b: Seq<u8>| b.len() == 12 && #[trigger] xid_text_of(b) == s@ ==> r is Some && r->0@ == b,
    {
        match parse_xid_text(s) {
            Some(b) => Some(Xid(b)),
            None => None,
        }
    }

    /// Reads an identifier given either as twenty-four hexadecimal digits of its bytes
    /// or as its xid text.
    pub fn parse(s: &str) -> (r: Option<Xid>)
        ensures
            s@.len() == 24 ==> (is_hex_id(s@) ==> r is Some && r->0@ == hex_bytes(s@)) && (
            !is_hex_id(s@) ==> r is None),
            s@.len() != 24 ==> (r is Some) == is_xid_text(s@),
            s@.len() != 24 && r is Some ==> r->0@ == xid_bytes_of(s@),
            s@.len() != 24 ==> forall|b: Seq<u8>|
                b.len() == 12 && #[trigger] xid_text_of(b) == s@ ==> r is Some && r->0@ == b,
    {
        if s.unicode_len() == 24 {
            Self::from_hex(s)
        } else {
            Self::from_text(s)
        }
    }
}

} // verus!
