//! Object names: SHA-1 or SHA-256 digests and their hexadecimal form.

use vstd::prelude::*;

verus! {

/// The hash functions that a repository can use.
#[derive(Clone, Copy, Debug, PartialEq, Eq, Structural)]
pub enum HashKind {
    Sha1,
    Sha256,
}

impl HashKind {
    /// The length of a digest in bytes.
    pub open spec fn spec_size(self) -> nat {
        match self {
            HashKind::Sha1 => 20,
            HashKind::Sha256 => 32,
        }
    }

    /// The length of a digest in bytes.
    pub fn size(&self) -> (r: usize)
        ensures
            r == self.spec_size(),
    {
        match *self {
            HashKind::Sha1 => 20,
            HashKind::Sha256 => 32,
        }
    }
}

/// The name of an object: a digest.
#[derive(Clone, Copy, Debug, Hash)]
pub enum ObjectHash {
    Sha1([u8; 20]),
    Sha256([u8; 32]),
}

/// The characters of the hexadecimal digits.
pub open spec fn hex_digit(value: int) -> char {
    if value < 10 {
        ('0' as int + value) as char
    } else {
        ('a' as int + value - 10) as char
    }
}

/// The value of a hexadecimal digit; both cases of the letters count.
pub open spec fn hex_value(digit: u8) -> Option<u8> {
    if 0x30 <= digit <= 0x39 {
        Some((digit - 0x30) as u8)
    } else if 0x61 <= digit <= 0x66 {
        Some((digit - 0x61 + 10) as u8)
    } else if 0x41 <= digit <= 0x46 {
        Some((digit - 0x41 + 10) as u8)
    } else {
        None
    }
}

/// Bytes written out in hexadecimal, two digits each.
pub open spec fn hex_of(bytes: Seq<u8>) -> Seq<char> {
    Seq::new(
        2 * bytes.len(),
        |i: int|
            if i % 2 == 0 {
                hex_digit(bytes[i / 2] as int / 16)
            } else {
                hex_digit(bytes[i / 2] as int % 16)
            },
    )
}

/// The bytes that text in hexadecimal stands for, if it is such text.
pub open spec fn bytes_of_hex(text: Seq<u8>) -> Option<Seq<u8>> {
    if text.len() % 2 == 0 && forall|i: int|
        0 <= i < text.len() ==> hex_value(#[trigger] text[i]) is Some {
        Some(
            Seq::new(
                text.len() / 2,
                |i: int|
                    (hex_value(text[2 * i])->0 * 16 + hex_value(text[2 * i + 1])->0) as u8,
            ),
        )
    } else {
        None
    }
}

impl View for ObjectHash {
    type V = Seq<u8>;

    open spec fn view(&self) -> Seq<u8> {
        match *self {
            ObjectHash::Sha1(bytes) => bytes@,
            ObjectHash::Sha256(bytes) => bytes@,
        }
    }
}

impl PartialEq for ObjectHash {
    fn eq(&self, other: &ObjectHash) -> (r: bool) {
        match (self, other) {
            (ObjectHash::Sha1(a), ObjectHash::Sha1(b)) => {
                let same = same_bytes(a.as_slice(), b.as_slice());
                assert(same ==> *a =~= *b);
                same
            },
            (ObjectHash::Sha256(a), ObjectHash::Sha256(b)) => {
                let same = same_bytes(a.as_slice(), b.as_slice());
                assert(same ==> *a =~= *b);
                same
            },
            _ => false,
        }
    }
}

impl vstd::std_specs::cmp::PartialEqSpecImpl for ObjectHash {
    open spec fn obeys_eq_spec() -> bool {
        true
    }

    open spec fn eq_spec(&self, other: &ObjectHash) -> bool {
        *self == *other
    }
}

impl Eq for ObjectHash {

}

/// Whether two slices hold the same bytes.
pub fn same_bytes(a: &[u8], b: &[u8]) -> (r: bool)
    ensures
        r == (a@ == b@),
{
    if a.len() != b.len() {
        return false;
    }
    let mut i: usize = 0;
    while i < a.len()
        invariant
            i <= a.len(),
            a.len() == b.len(),
            a@.take(i as int) =~= b@.take(i as int),
        decreases a.len() - i,
    {
        if a[i] != b[i] {
            return false;
        }
        i += 1;
    }
    assert(a@.take(i as int) =~= a@);
    assert(b@.take(i as int) =~= b@);
    true
}

/// `String::push` appends the character at the end of the string.
pub assume_specification[ String::push ](s: &mut String, c: char)
    ensures
        final(s)@ == old(s)@.push(c),
;

/// The hexadecimal digit of a value below 16.
fn digit_of(value: u8) -> (r: char)
    requires
        value < 16,
    ensures
        r == hex_digit(value as int),
{
    if value < 10 {
        (0x30u8 + value) as char
    } else {
        (0x61u8 + (value - 10)) as char
    }
}

/// The value of a hexadecimal digit.
fn value_of(digit: u8) -> (r: Option<u8>)
    ensures
        r == hex_value(digit),
        r matches Some(v) ==> v < 16,
{
    if 0x30 <= digit && digit <= 0x39 {
        Some(digit - 0x30)
    } else if 0x61 <= digit && digit <= 0x66 {
        Some(digit - 0x61 + 10)
    } else if 0x41 <= digit && digit <= 0x46 {
        Some(digit - 0x41 + 10)
    } else {
        None
    }
}

/// Writes bytes out in hexadecimal.
pub fn to_hex(bytes: &[u8]) -> (r: String)
    ensures
        r@ == hex_of(bytes@),
{
    let mut text = String::new();
    let mut i: usize = 0;
    while i < bytes.len()
        invariant
            i <= bytes.len(),
            text@ =~= hex_of(bytes@.take(i as int)),
        decreases bytes.len() - i,
    {
        let byte: u8 = bytes[i];
        text.push(digit_of(byte / 16));
        text.push(digit_of(byte % 16));
        i += 1;
    }
    assert(bytes@.take(i as int) =~= bytes@);
    text
}

/// Reads bytes that are written in hexadecimal.
pub fn from_hex(text: &[u8]) -> (r: Option<Vec<u8>>)
    ensures
        match r {
            Some(bytes) => bytes_of_hex(text@) == Some(bytes@),
            None => bytes_of_hex(text@) is None,
        },
{
    if text.len() % 2 != 0 {
        return None;
    }
    let mut bytes: Vec<u8> = Vec::new();
    let mut i: usize = 0;
    while i < text.len()
        invariant
            i <= text.len(),
            i % 2 == 0,
            text.len() % 2 == 0,
            bytes.len() == i / 2,
            forall|k: int| 0 <= k < i ==> hex_value(#[trigger] text@[k]) is Some,
            forall|k: int|
                0 <= k < bytes.len() ==> #[trigger] bytes@[k] == (hex_value(text@[2 * k])->0 * 16
                    + hex_value(text@[2 * k + 1])->0) as u8,
        decreases text.len() - i,
    {
        match (value_of(text[i]), value_of(text[i + 1])) {
            (Some(high), Some(low)) => {
                bytes.push(high * 16 + low);
            },
            _ => {
                return None;
            },
        }
        i += 2;
    }
    assert(bytes_of_hex(text@)->0 =~= bytes@);
    Some(bytes)
}

impl ObjectHash {
    /// The hash function of the digest.
    pub open spec fn spec_kind(self) -> HashKind {
        match self {
            ObjectHash::Sha1(_) => HashKind::Sha1,
            ObjectHash::Sha256(_) => HashKind::Sha256,
        }
    }

    /// The hash function of the digest.
    pub fn kind(&self) -> (r: HashKind)
        ensures
            r == self.spec_kind(),
            r.spec_size() == self@.len(),
    {
        match *self {
            ObjectHash::Sha1(_) => HashKind::Sha1,
            ObjectHash::Sha256(_) => HashKind::Sha256,
        }
    }

    /// The bytes of the digest.
    pub fn as_bytes(&self) -> (r: &[u8])
        ensures
            r@ == self@,
    {
        match self {
            ObjectHash::Sha1(bytes) => bytes.as_slice(),
            ObjectHash::Sha256(bytes) => bytes.as_slice(),
        }
    }

    /// The digest that the bytes make up, if they are as many as a digest has.
    pub fn from_bytes(bytes: &[u8]) -> (r: Option<ObjectHash>)
        ensures
            match r {
                Some(hash) => hash@ == bytes@,
                None => bytes@.len() != 20 && bytes@.len() != 32,
            },
    {
        if bytes.len() == 20 {
            let mut digest = [0u8; 20];
            let mut i: usize = 0;
            while i < 20
                invariant
                    i <= 20,
                    bytes.len() == 20,
                    forall|k: int| 0 <= k < i ==> digest@[k] == bytes@[k],
                decreases 20 - i,
            {
                digest[i] = bytes[i];
                i += 1;
            }
            assert(digest@ =~= bytes@);
            Some(ObjectHash::Sha1(digest))
        } else if bytes.len() == 32 {
            let mut digest = [0u8; 32];
            let mut i: usize = 0;
            while i < 32
                invariant
                    i <= 32,
                    bytes.len() == 32,
                    forall|k: int| 0 <= k < i ==> digest@[k] == bytes@[k],
                decreases 32 - i,
            {
                digest[i] = bytes[i];
                i += 1;
            }
            assert(digest@ =~= bytes@);
            Some(ObjectHash::Sha256(digest))
        } else {
            None
        }
    }

    /// The digest that text in hexadecimal stands for, if it has the length of one.
    pub open spec fn spec_from_hex(text: Seq<u8>) -> Option<Seq<u8>> {
        match bytes_of_hex(text) {
            Some(bytes) => if bytes.len() == 20 || bytes.len() == 32 {
                Some(bytes)
            } else {
                None
            },
            None => None,
        }
    }

    /// Reads a digest that is written in hexadecimal.
    pub fn from_hex(text: &[u8]) -> (r: Option<ObjectHash>)
        ensures
            match r {
                Some(hash) => Self::spec_from_hex(text@) == Some(hash@),
                None => Self::spec_from_hex(text@) is None,
            },
    {
        match from_hex(text) {
            Some(bytes) => Self::from_bytes(bytes.as_slice()),
            None => None,
        }
    }

    /// Writes the digest out in hexadecimal.
    pub fn to_hex(&self) -> (r: String)
        ensures
            r@ == hex_of(self@),
    {
        to_hex(self.as_bytes())
    }
}

/// Two digests with the same bytes are the same digest.
pub proof fn hash_bytes_identify(a: ObjectHash, b: ObjectHash)
    requires
        a@ == b@,
    ensures
        a == b,
{
    match (a, b) {
        (ObjectHash::Sha1(x), ObjectHash::Sha1(y)) => {
            assert forall|i: int| 0 <= i < 20 implies x[i] == y[i] by {
                assert(x@[i] == y@[i]);
            }
            assert(x =~= y);
        },
        (ObjectHash::Sha256(x), ObjectHash::Sha256(y)) => {
            assert forall|i: int| 0 <= i < 32 implies x[i] == y[i] by {
                assert(x@[i] == y@[i]);
            }
            assert(x =~= y);
        },
        (ObjectHash::Sha1(x), ObjectHash::Sha256(y)) => {
            assert(x@.len() == 20 && y@.len() == 32);
        },
        (ObjectHash::Sha256(x), ObjectHash::Sha1(y)) => {
            assert(x@.len() == 32 && y@.len() == 20);
        },
    }
}

/// Different bytes are written differently in hexadecimal.
pub proof fn hex_is_injective(a: Seq<u8>, b: Seq<u8>)
    requires
        hex_of(a) == hex_of(b),
    ensures
        a == b,
{
    assert(hex_of(a).len() == 2 * a.len());
    assert(hex_of(b).len() == 2 * b.len());
    assert forall|i: int| 0 <= i < a.len() implies a[i] == b[i] by {
        assert(hex_of(a)[2 * i] == hex_of(b)[2 * i]);
        assert(hex_of(a)[2 * i + 1] == hex_of(b)[2 * i + 1]);
        assert((2 * i) / 2 == i && (2 * i + 1) / 2 == i);
        assert((2 * i) % 2 == 0 && (2 * i + 1) % 2 == 1);
        let (x, y) = (a[i] as int, b[i] as int);
        assert(hex_of(a)[2 * i] == hex_digit(a[(2 * i) / 2] as int / 16));
        assert(hex_of(b)[2 * i] == hex_digit(b[(2 * i) / 2] as int / 16));
        assert(hex_of(a)[2 * i + 1] == hex_digit(a[(2 * i + 1) / 2] as int % 16));
        assert(hex_of(b)[2 * i + 1] == hex_digit(b[(2 * i + 1) / 2] as int % 16));
        assert(x / 16 == y / 16 && x % 16 == y % 16);
    }
    assert(a =~= b);
}

/// Bytes that are written in hexadecimal and read again are the same bytes.
/// The text is taken byte by byte, as its characters are all ASCII.
pub proof fn hex_round_trip(bytes: Seq<u8>)
    ensures
        bytes_of_hex(hex_of(bytes).map_values(|c: char| c as u8)) == Some(bytes),
{
    let text = hex_of(bytes).map_values(|c: char| c as u8);
    assert forall|i: int| 0 <= i < text.len() implies hex_value(#[trigger] text[i]) is Some
        && hex_value(text[i])->0 == (if i % 2 == 0 {
        bytes[i / 2] as int / 16
    } else {
        bytes[i / 2] as int % 16
    }) by {
        assert(hex_of(bytes)[i] == hex_digit(
            if i % 2 == 0 {
                bytes[i / 2] as int / 16
            } else {
                bytes[i / 2] as int % 16
            },
        ));
    }
    assert forall|i: int| 0 <= i < bytes.len() implies bytes_of_hex(text)->0[i] == bytes[i] by {
        assert((2 * i) / 2 == i && (2 * i + 1) / 2 == i);
        assert((2 * i) % 2 == 0 && (2 * i + 1) % 2 == 1);
        assert(hex_value(text[2 * i])->0 == bytes[i] as int / 16);
        assert(hex_value(text[2 * i + 1])->0 == bytes[i] as int % 16);
    }
    assert(bytes_of_hex(text)->0 =~= bytes);
}

} // verus!
