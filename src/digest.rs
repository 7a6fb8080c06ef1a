use vstd::prelude::*;

verus! {

/// The ASCII code of the hexadecimal digit for `n` (which is below 16).
pub open spec fn hex_digit(n: u8, upper: bool) -> u8 {
    if n < 10 {
        (48 + n) as u8
    } else if upper {
        (55 + n) as u8
    } else {
        (87 + n) as u8
    }
}

/// Two hexadecimal digits, high nibble first, for each byte of `bytes`.
pub open spec fn hex_ascii(bytes: Seq<u8>, upper: bool) -> Seq<u8>
    decreases bytes.len(),
{
    if bytes.len() == 0 {
        Seq::empty()
    } else {
        let b = bytes.last();
        hex_ascii(bytes.drop_last(), upper) + seq![hex_digit(b / 16, upper), hex_digit(b % 16, upper)]
    }
}

proof fn lemma_hex_ascii_len(bytes: Seq<u8>, upper: bool)
    ensures
        hex_ascii(bytes, upper).len() == 2 * bytes.len(),
        forall|i: int| 0 <= i < hex_ascii(bytes, upper).len() ==> #[trigger] hex_ascii(bytes, upper)[i] < 128,
    decreases bytes.len(),
{
    if bytes.len() > 0 {
        lemma_hex_ascii_len(bytes.drop_last(), upper);
    }
}

fn hex_digit_exec(n: u8, upper: bool) -> (r: u8)
    requires
        n < 16,
    ensures
        r == hex_digit(n, upper),
{
    if n < 10 {
        48 + n
    } else if upper {
        55 + n
    } else {
        87 + n
    }
}

fn hex_of(bytes: &[u8], upper: bool) -> (r: Vec<u8>)
    ensures
        r@ == hex_ascii(bytes@, upper),
{
    let mut out: Vec<u8> = Vec::new();
    let mut i: usize = 0;
    while i < bytes.len()
        invariant
            i <= bytes@.len(),
            out@ == hex_ascii(bytes@.take(i as int), upper),
        decreases bytes@.len() - i,
    {
        let b = bytes[i];
        out.push(hex_digit_exec(b / 16, upper));
        out.push(hex_digit_exec(b % 16, upper));
        proof {
            assert(bytes@.take(i + 1).drop_last() =~= bytes@.take(i as int));
            assert(out@ =~= hex_ascii(bytes@.take(i + 1), upper));
        }
        i = i + 1;
    }
    assert(bytes@.take(i as int) =~= bytes@);
    out
}

/// Relies on `String::from_utf8`: ASCII bytes are valid UTF-8, one character
/// per byte.
#[verifier::external_body]
fn ascii_to_string(bytes: Vec<u8>) -> (r: String)
    requires
        forall|i: int| 0 <= i < bytes@.len() ==> #[trigger] bytes@[i] < 128,
    ensures
        r@ == bytes@.map_values(|b: u8| b as char),
{
    match String::from_utf8(bytes) {
        Ok(s) => s,
        Err(_) => String::new(),
    }
}

/// A hash digest: a fixed sequence of bytes produced by a hash algorithm.
pub trait Digest {
    /// The digest's bytes.
    spec fn bytes(&self) -> Seq<u8>;

    /// Returns a byte slice of the digest's contents.
    fn as_bytes(&self) -> (r: &[u8])
        ensures
            r@ == self.bytes(),
    ;

    /// Returns a string in the lowercase hexadecimal representation.
    fn to_hex_lowercase(&self) -> (r: String)
        ensures
            r@ == hex_ascii(self.bytes(), false).map_values(|b: u8| b as char),
    {
        let hex = hex_of(self.as_bytes(), false);
        proof {
            lemma_hex_ascii_len(self.bytes(), false);
        }
        ascii_to_string(hex)
    }

    /// Returns a string in the uppercase hexadecimal representation.
    fn to_hex_uppercase(&self) -> (r: String)
        ensures
            r@ == hex_ascii(self.bytes(), true).map_values(|b: u8| b as char),
    {
        let hex = hex_of(self.as_bytes(), true);
        proof {
            lemma_hex_ascii_len(self.bytes(), true);
        }
        ascii_to_string(hex)
    }
}

} // verus!
