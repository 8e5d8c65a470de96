use crate::error::EntryError;
use vstd::prelude::*;

verus! {

/// The lowercase hexadecimal digits.
pub open spec fn hex_digit(v: u8) -> char {
    seq!['0', '1', '2', '3', '4', '5', '6', '7', '8', '9', 'a', 'b', 'c', 'd', 'e', 'f'][v as int]
}

/// The lowercase hexadecimal rendering of a byte sequence, two digits per
/// byte, high digit first.
pub open spec fn hex_of(bytes: Seq<u8>) -> Seq<char>
    decreases bytes.len(),
{
    if bytes.len() == 0 {
        Seq::empty()
    } else {
        hex_of(bytes.drop_last()) + seq![
            hex_digit(bytes.last() / 16),
            hex_digit(bytes.last() % 16),
        ]
    }
}

/// A digest entry: the raw bytes of one hash value.
#[derive(Debug, Clone, PartialEq, Eq)]
#[allow(non_camel_case_types)]
pub struct entry {
    bytes: Vec<u8>,
}

impl View for entry {
    type V = Seq<u8>;

    closed spec fn view(&self) -> Seq<u8> {
        self.bytes@
    }
}

/// Whether a byte count is one of the supported digest widths.
pub open spec fn valid_digest_len(n: nat) -> bool {
    n == 16 || n == 20 || n == 28 || n == 32 || n == 48 || n == 64
}

impl entry {
    /// Create an entry from a byte slice, rejecting lengths that no
    /// supported digest produces.
    pub fn try_from_bytes(digest: &[u8]) -> (r: Result<entry, EntryError>)
        ensures
            match r {
                Ok(e) => valid_digest_len(digest@.len()) && e@ == digest@,
                Err(err) => !valid_digest_len(digest@.len()) && err
                    == EntryError::InvalidByteSliceLength(digest@.len() as usize),
            },
    {
        let n = digest.len();
        if n == 16 || n == 20 || n == 28 || n == 32 || n == 48 || n == 64 {
            Ok(entry::from_bytes(digest))
        } else {
            Err(EntryError::InvalidByteSliceLength(n))
        }
    }

    /// Create an entry from the input bytes without any length check. Use
    /// only once sure that the bytes are a digest of a supported width.
    pub fn from_bytes_unchecked(value: &[u8]) -> (r: entry)
        ensures
            r@ == value@,
    {
        entry::from_bytes(value)
    }

    /// Create an entry holding a copy of the given bytes.
    pub(crate) fn from_bytes(value: &[u8]) -> (r: entry)
        ensures
            r@ == value@,
    {
        let mut bytes: Vec<u8> = Vec::new();
        let n = value.len();
        for i in 0..n
            invariant
                n == value@.len(),
                bytes@ == value@.subrange(0, i as int),
        {
            bytes.push(value[i]);
            proof {
                assert(bytes@ =~= value@.subrange(0, i + 1));
            }
        }
        proof {
            assert(value@.subrange(0, n as int) =~= value@);
        }
        entry { bytes }
    }

    /// The first byte of the digest, commonly used to partition a set of
    /// object ids.
    pub fn first_byte(&self) -> (r: u8)
        requires
            self@.len() > 0,
        ensures
            r == self@[0],
    {
        self.bytes[0]
    }

    /// The digest as a raw byte slice.
    pub fn as_bytes(&self) -> (r: &[u8])
        ensures
            r@ == self@,
    {
        self.bytes.as_slice()
    }

    /// The digest width in bytes.
    pub fn len(&self) -> (r: usize)
        ensures
            r == self@.len(),
    {
        self.bytes.len()
    }

    /// A hexadecimal rendering limited to `len` characters (capped at the
    /// digest's full width).
    pub fn to_hex_with_len(&self, len: usize) -> (r: HexDisplay)
        ensures
            r.spec_bytes() == self@,
            r.spec_size() == if len as nat <= 2 * self@.len() {
                len as nat
            } else {
                2 * self@.len()
            },
    {
        let full = if self.bytes.len() <= usize::MAX / 2 {
            self.bytes.len() * 2
        } else {
            usize::MAX
        };
        let size = if len < full {
            len
        } else {
            full
        };
        HexDisplay { inner: entry::from_bytes(self.bytes.as_slice()), size }
    }

    /// A hexadecimal rendering of the full digest.
    pub fn to_hex(&self) -> (r: HexDisplay)
        requires
            self@.len() <= usize::MAX / 2,
        ensures
            r.spec_bytes() == self@,
            r.spec_size() == 2 * self@.len(),
    {
        HexDisplay { inner: entry::from_bytes(self.bytes.as_slice()), size: self.bytes.len() * 2 }
    }

    /// Fill `buf` with the digest's hexadecimal rendering as ASCII bytes and
    /// return the same rendering as a string.
    pub fn hex_to_buf(&self, buf: &mut Vec<u8>) -> (r: String)
        requires
            self@.len() <= usize::MAX / 2,
        ensures
            r@ == hex_of(self@),
            final(buf)@ == hex_ascii_of(self@),
    {
        let s = hex_chars(&self.bytes, self.bytes.len() * 2);
        proof {
            lemma_hex_of_len(self.bytes@);
            assert(hex_of(self@).take(2 * self@.len() as int) =~= hex_of(self@));
        }
        buf.clear();
        let n = self.bytes.len();
        proof {
            assert(hex_ascii_of(self@.subrange(0, 0)) =~= Seq::<u8>::empty());
        }
        for i in 0..n
            invariant
                n == self.bytes@.len(),
                buf@ == hex_ascii_of(self@.subrange(0, i as int)),
        {
            let b = self.bytes[i];
            buf.push(hex_ascii_digit(b / 16));
            buf.push(hex_ascii_digit(b % 16));
            proof {
                assert(self@.subrange(0, i + 1).drop_last() =~= self@.subrange(0, i as int));
                assert(self@.subrange(0, i + 1).last() == self@[i as int]);
                assert(buf@ =~= hex_ascii_of(self@.subrange(0, i + 1)));
            }
        }
        proof {
            assert(self@.subrange(0, n as int) =~= self@);
        }
        s
    }
}

/// The lowercase hexadecimal digits as ASCII bytes.
pub open spec fn hex_ascii(v: u8) -> u8 {
    seq![48u8, 49, 50, 51, 52, 53, 54, 55, 56, 57, 97, 98, 99, 100, 101, 102][v as int]
}

/// The lowercase hexadecimal rendering of a byte sequence as ASCII bytes.
pub open spec fn hex_ascii_of(bytes: Seq<u8>) -> Seq<u8>
    decreases bytes.len(),
{
    if bytes.len() == 0 {
        Seq::empty()
    } else {
        hex_ascii_of(bytes.drop_last()) + seq![
            hex_ascii(bytes.last() / 16),
            hex_ascii(bytes.last() % 16),
        ]
    }
}

/// One hexadecimal digit as an ASCII byte.
fn hex_ascii_digit(v: u8) -> (r: u8)
    requires
        v < 16,
    ensures
        r == hex_ascii(v),
{
    let table: [u8; 16] = [48, 49, 50, 51, 52, 53, 54, 55, 56, 57, 97, 98, 99, 100, 101, 102];
    let r = table[v as usize];
    proof {
        assert(seq![48u8, 49, 50, 51, 52, 53, 54, 55, 56, 57, 97, 98, 99, 100, 101, 102][v as int]
            == table@[v as int]);
    }
    r
}

/// Relies on std's String::push: appends the given character to the end of
/// the string.
#[verifier::external_body]
fn string_push(s: &mut String, c: char)
    ensures
        final(s)@ == old(s)@.push(c),
{
    s.push(c);
}

/// The lowercase hexadecimal digits as bytes-to-characters table.
fn hex_char_of(v: u8) -> (r: char)
    requires
        v < 16,
    ensures
        r == hex_digit(v),
{
    let table = ['0', '1', '2', '3', '4', '5', '6', '7', '8', '9', 'a', 'b', 'c', 'd', 'e', 'f'];
    let r = table[v as usize];
    proof {
        assert(seq![
            '0',
            '1',
            '2',
            '3',
            '4',
            '5',
            '6',
            '7',
            '8',
            '9',
            'a',
            'b',
            'c',
            'd',
            'e',
            'f',
        ][v as int] == table@[v as int]);
    }
    r
}

/// The first `size` characters of the hexadecimal rendering of `bytes`.
#[verifier::loop_isolation(false)]
fn hex_chars(bytes: &Vec<u8>, size: usize) -> (r: String)
    ensures
        r@ == hex_of(bytes@).take(
            if size as nat <= 2 * bytes@.len() {
                size as int
            } else {
                2 * bytes@.len() as int
            },
        ),
{
    let mut r = String::new();
    let n = bytes.len();
    let mut count: usize = 0;
    proof {
        assert(hex_of(bytes@.subrange(0, 0)) =~= Seq::<char>::empty());
        assert(r@ =~= hex_of(bytes@).take(0));
    }
    for i in 0..n
        invariant
            n == bytes@.len(),
            count as int == if 2 * i <= size as int {
                2 * i
            } else {
                size as int
            },
            count <= size,
            r@ == hex_of(bytes@).take(count as int),
    {
        proof {
            lemma_hex_of_prefix(bytes@, i as int);
        }
        if count < size {
            let b = bytes[i];
            string_push(&mut r, hex_char_of(b / 16));
            count = count + 1;
            proof {
                assert(hex_of(bytes@).take(count as int) =~= hex_of(bytes@).take(
                    count - 1,
                ).push(hex_of(bytes@)[count - 1]));
                assert(hex_of(bytes@)[2 * i] == hex_digit(bytes@[i as int] / 16));
            }
        }
        if count < size {
            let b = bytes[i];
            string_push(&mut r, hex_char_of(b % 16));
            count = count + 1;
            proof {
                assert(hex_of(bytes@).take(count as int) =~= hex_of(bytes@).take(
                    count - 1,
                ).push(hex_of(bytes@)[count - 1]));
                assert(hex_of(bytes@)[2 * i + 1] == hex_digit(bytes@[i as int] % 16));
            }
        }
    }
    r
}

/// The hexadecimal rendering of a prefix is a prefix of the rendering: the
/// characters at positions `2i` and `2i + 1` come from byte `i`.
pub proof fn lemma_hex_of_prefix(bytes: Seq<u8>, i: int)
    requires
        0 <= i < bytes.len(),
    ensures
        hex_of(bytes).len() == 2 * bytes.len(),
        hex_of(bytes)[2 * i] == hex_digit(bytes[i] / 16),
        hex_of(bytes)[2 * i + 1] == hex_digit(bytes[i] % 16),
    decreases bytes.len(),
{
    lemma_hex_of_len(bytes);
    if i == bytes.len() - 1 {
        lemma_hex_of_len(bytes.drop_last());
    } else {
        lemma_hex_of_prefix(bytes.drop_last(), i);
        assert(bytes.drop_last()[i] == bytes[i]);
    }
}

/// A hexadecimal rendering is twice as long as its bytes.
pub proof fn lemma_hex_of_len(bytes: Seq<u8>)
    ensures
        hex_of(bytes).len() == 2 * bytes.len(),
    decreases bytes.len(),
{
    if bytes.len() > 0 {
        lemma_hex_of_len(bytes.drop_last());
    }
}

/// A bounded hexadecimal rendering of a digest entry.
pub struct HexDisplay {
    /// The digest being rendered.
    inner: entry,
    /// The number of hexadecimal characters to render.
    size: usize,
}

impl HexDisplay {
    /// The digest bytes being rendered.
    pub closed spec fn spec_bytes(&self) -> Seq<u8> {
        self.inner@
    }

    /// The number of characters rendered.
    pub closed spec fn spec_size(&self) -> nat {
        self.size as nat
    }

    /// Render the digest as that many lowercase hexadecimal characters.
    pub fn to_string(&self) -> (r: String)
        ensures
            r@ == hex_of(self.spec_bytes()).take(
                if self.spec_size() <= 2 * self.spec_bytes().len() {
                    self.spec_size() as int
                } else {
                    2 * self.spec_bytes().len() as int
                },
            ),
    {
        hex_chars(&self.inner.bytes, self.size)
    }
}

} // verus!
