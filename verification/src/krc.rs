//! The `.krc` container: a `krc1` header, then zlib-compressed UTF-8 text
//! XOR-ed with a fixed 16-byte key.

use vstd::prelude::*;
use vstd::utf8::{decode_utf8, valid_utf8};
use crate::text::string_of;

verus! {

/// The fixed XOR key of the KRC format.
pub open spec fn krc_key() -> Seq<u8> {
    seq![64u8, 71u8, 97u8, 119u8, 94u8, 50u8, 116u8, 71u8, 81u8, 54u8, 49u8, 45u8, 206u8, 210u8, 110u8, 105u8]
}

/// The four bytes `krc1` that open a KRC file.
pub open spec fn krc_magic() -> Seq<u8> {
    seq![107u8, 114u8, 99u8, 49u8]
}

/// Byte `i` XOR-ed with key byte `i % 16`.
pub open spec fn krc_xor_spec(data: Seq<u8>) -> Seq<u8> {
    Seq::new(data.len(), |i: int| data[i] ^ krc_key()[i % 16])
}

/// XOR-ing with the key twice gives back the bytes it started from: encrypting and
/// decrypting are the same operation.
pub proof fn lemma_krc_xor_involution(data: Seq<u8>)
    ensures
        krc_xor_spec(krc_xor_spec(data)) == data,
{
    let once = krc_xor_spec(data);
    let twice = krc_xor_spec(once);
    assert forall|i: int| 0 <= i < data.len() implies twice[i] == data[i] by {
        let a = data[i];
        let k = krc_key()[i % 16];
        assert((a ^ k) ^ k == a) by (bit_vector);
    }
    assert(twice =~= data);
}

/// The key is Kugou's: byte `i` of the result differs from byte `i` of the
/// input by exactly the `i % 16`-th byte of 64, 71, 97, 119, 94, 50, 116,
/// 71, 81, 54, 49, 45, 206, 210, 110, 105, and the length is kept.
pub proof fn law_krc_xor_uses_kugou_key(data: Seq<u8>)
    ensures
        krc_xor_spec(data).len() == data.len(),
        forall|i: int|
            0 <= i < data.len() ==> data[i] ^ #[trigger] krc_xor_spec(data)[i] == seq![
                64u8,
                71u8,
                97u8,
                119u8,
                94u8,
                50u8,
                116u8,
                71u8,
                81u8,
                54u8,
                49u8,
                45u8,
                206u8,
                210u8,
                110u8,
                105u8,
            ][i % 16],
{
    let key = seq![64u8, 71u8, 97u8, 119u8, 94u8, 50u8, 116u8, 71u8, 81u8, 54u8, 49u8, 45u8, 206u8, 210u8, 110u8, 105u8];
    assert(krc_key() =~= key);
    assert forall|i: int| 0 <= i < data.len() implies data[i] ^ #[trigger] krc_xor_spec(data)[i]
        == key[i % 16] by {
        let a = data[i];
        let k = krc_key()[i % 16];
        assert(a ^ (a ^ k) == k) by (bit_vector);
    }
}

/// XOR-s `data` with the KRC key (see `krc_xor_spec`).
pub fn krc_xor(data: &[u8]) -> (r: Vec<u8>)
    ensures
        r@ == krc_xor_spec(data@),
{
    let key: [u8; 16] = [64, 71, 97, 119, 94, 50, 116, 71, 81, 54, 49, 45, 206, 210, 110, 105];
    assert(key@ =~= krc_key());
    let n = data.len();
    let mut out: Vec<u8> = Vec::with_capacity(n);
    let mut i: usize = 0;
    while i < n
        invariant
            i <= n == data@.len(),
            key@ == krc_key(),
            out@.len() == i,
            forall|j: int| 0 <= j < i ==> out@[j] == data@[j] ^ krc_key()[j % 16],
        decreases n - i,
    {
        out.push(data[i] ^ key[i % 16]);
        i = i + 1;
    }
    assert(out@ =~= krc_xor_spec(data@));
    out
}

/// What the flate2 crate's `read::ZlibDecoder`, read to the end, yields for
/// the compressed bytes `data`: the decompressed bytes, or `None` when it
/// reports an error.  It depends on `data` alone.
pub uninterp spec fn zlib_inflate(data: Seq<u8>) -> Option<Seq<u8>>;

/// Decompresses a zlib stream with flate2's `read::ZlibDecoder` and
/// `Read::read_to_end`; the error is the I/O error's message.  Claimed: `Ok`
/// exactly when `zlib_inflate` gives bytes, and then those bytes; the text of
/// the error is left unsaid.
#[verifier::external_body]
pub(crate) fn decompress_zlib(input: &[u8]) -> (r: Result<Vec<u8>, String>)
    ensures
        match r {
            Ok(v) => zlib_inflate(input@) == Some(v@),
            Err(_) => zlib_inflate(input@) == None::<Seq<u8>>,
        },
{
    let mut decoder = flate2::read::ZlibDecoder::new(input);
    let mut output = Vec::new();
    match std::io::Read::read_to_end(&mut decoder, &mut output) {
        Ok(_) => Ok(output),
        Err(e) => Err(e.to_string()),
    }
}

/// `String::from_utf8` (std): the text that `bytes` encode, `None` when they
/// are not valid UTF-8.
#[verifier::external_body]
fn utf8_string(bytes: Vec<u8>) -> (r: Option<String>)
    ensures
        match r {
            Some(s) => valid_utf8(bytes@) && s@ == decode_utf8(bytes@),
            None => !valid_utf8(bytes@),
        },
{
    String::from_utf8(bytes).ok()
}

/// `s` without its leading byte-order marks (`U+FEFF`).
pub open spec fn strip_boms(s: Seq<char>) -> Seq<char>
    decreases s.len(),
{
    if s.len() > 0 && s[0] == '\u{feff}' {
        strip_boms(s.drop_first())
    } else {
        s
    }
}

/// The text inside a KRC file: `None` unless it starts with `krc1`, the rest
/// XOR-ed with the key inflates, and the result is UTF-8; leading BOMs are
/// dropped.
pub open spec fn decode_krc_spec(file: Seq<u8>) -> Option<Seq<char>> {
    if file.len() < 4 || file.subrange(0, 4) != krc_magic() {
        None
    } else {
        match zlib_inflate(krc_xor_spec(file.subrange(4, file.len() as int))) {
            Some(bytes) => if valid_utf8(bytes) {
                Some(strip_boms(decode_utf8(bytes)))
            } else {
                None
            },
            None => None,
        }
    }
}

fn strip_boms_chars(cs: &[char]) -> (r: &[char])
    ensures
        r@ == strip_boms(cs@),
{
    let n = cs.len();
    let mut i: usize = 0;
    assert(cs@.subrange(0, n as int) =~= cs@);
    while i < n && cs[i] == '\u{feff}'
        invariant
            i <= n == cs@.len(),
            strip_boms(cs@) == strip_boms(cs@.subrange(i as int, n as int)),
        decreases n - i,
    {
        assert(cs@.subrange(i as int, n as int).drop_first() =~= cs@.subrange(i + 1, n as int));
        i = i + 1;
    }
    &cs[i..n]
}

/// Opens a KRC file's bytes (see `decode_krc_spec`).
pub fn decode_krc(file: &[u8]) -> (r: Option<String>)
    ensures
        match r {
            Some(s) => decode_krc_spec(file@) == Some(s@),
            None => decode_krc_spec(file@) == None::<Seq<char>>,
        },
{
    let n = file.len();
    if n < 4 {
        return None;
    }
    if !(file[0] == 107 && file[1] == 114 && file[2] == 99 && file[3] == 49) {
        assert(file@.subrange(0, 4)[0] == file@[0]);
        assert(file@.subrange(0, 4)[1] == file@[1]);
        assert(file@.subrange(0, 4)[2] == file@[2]);
        assert(file@.subrange(0, 4)[3] == file@[3]);
        return None;
    }
    assert(file@.subrange(0, 4) =~= krc_magic());
    let decrypted = krc_xor(&file[4..n]);
    let inflated = match decompress_zlib(decrypted.as_slice()) {
        Ok(v) => v,
        Err(_) => return None,
    };
    let text = match utf8_string(inflated) {
        Some(t) => t,
        None => return None,
    };
    let cs = crate::text::chars_of(text.as_str());
    Some(string_of(strip_boms_chars(cs.as_slice())))
}

} // verus!
