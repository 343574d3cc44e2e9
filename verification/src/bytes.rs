use crate::error::ConvertError;
use vstd::prelude::*;

verus! {

/// The little-endian word made of the four bytes of `d` at `off`.
pub open spec fn u32_le_at(d: Seq<u8>, off: int) -> u32 {
    (d[off] + d[off + 1] * 0x100 + d[off + 2] * 0x1_0000 + d[off + 3] * 0x100_0000) as u32
}

/// The big-endian word made of the four bytes of `d` at `off`.
pub open spec fn u32_be_at(d: Seq<u8>, off: int) -> u32 {
    (d[off + 3] + d[off + 2] * 0x100 + d[off + 1] * 0x1_0000 + d[off] * 0x100_0000) as u32
}

/// Whether four bytes can be read at `off`.
pub open spec fn word_fits(d: Seq<u8>, off: int) -> bool {
    0 <= off && off + 4 <= d.len()
}

/// Reads a little-endian word at `offset`; fails when fewer than four bytes remain.
pub fn read_u32_le(data: &[u8], offset: usize) -> (res: Result<u32, ConvertError>)
    ensures
        word_fits(data@, offset as int) ==> res == Ok::<u32, ConvertError>(u32_le_at(data@, offset as int)),
        !word_fits(data@, offset as int) ==> res == Err::<u32, ConvertError>(ConvertError::UnexpectedEnd),
{
    if offset > data.len() || data.len() - offset < 4 {
        return Err(ConvertError::UnexpectedEnd);
    }
    let b0 = data[offset] as u32;
    let b1 = data[offset + 1] as u32;
    let b2 = data[offset + 2] as u32;
    let b3 = data[offset + 3] as u32;
    Ok(b0 + b1 * 0x100 + b2 * 0x1_0000 + b3 * 0x100_0000)
}

/// Reads a big-endian word at `offset`; fails when fewer than four bytes remain.
pub fn read_u32_be(data: &[u8], offset: usize) -> (res: Result<u32, ConvertError>)
    ensures
        word_fits(data@, offset as int) ==> res == Ok::<u32, ConvertError>(u32_be_at(data@, offset as int)),
        !word_fits(data@, offset as int) ==> res == Err::<u32, ConvertError>(ConvertError::UnexpectedEnd),
{
    if offset > data.len() || data.len() - offset < 4 {
        return Err(ConvertError::UnexpectedEnd);
    }
    let b0 = data[offset] as u32;
    let b1 = data[offset + 1] as u32;
    let b2 = data[offset + 2] as u32;
    let b3 = data[offset + 3] as u32;
    Ok(b3 + b2 * 0x100 + b1 * 0x1_0000 + b0 * 0x100_0000)
}

/// `d` with the bytes of each four-byte word reversed.
pub open spec fn swapped_words(d: Seq<u8>) -> Seq<u8> {
    Seq::new(d.len(), |i: int| d[(i - i % 4) + (3 - i % 4)])
}

/// Reverses the byte order of every four-byte word; fails when the input is
/// not a whole number of words.
pub fn swap_each_u32(data: &[u8]) -> (res: Result<Vec<u8>, ConvertError>)
    ensures
        data@.len() % 4 == 0 ==> (res matches Ok(v) && v@ == swapped_words(data@)),
        data@.len() % 4 != 0 ==> res == Err::<Vec<u8>, ConvertError>(ConvertError::WordUnaligned),
{
    if data.len() % 4 != 0 {
        return Err(ConvertError::WordUnaligned);
    }
    let mut output: Vec<u8> = Vec::with_capacity(data.len());
    let mut word: usize = 0;
    while word < data.len() / 4
        invariant
            data@.len() % 4 == 0,
            word <= data@.len() / 4,
            output@.len() == word * 4,
            forall|i: int| 0 <= i < output@.len() ==> output@[i] == #[trigger] swapped_words(data@)[i],
        decreases data@.len() / 4 - word,
    {
        let base = word * 4;
        output.push(data[base + 3]);
        output.push(data[base + 2]);
        output.push(data[base + 1]);
        output.push(data[base]);
        word = word + 1;
    }
    assert(output@ =~= swapped_words(data@));
    Ok(output)
}

/// Swapping each word twice gives back the original bytes.
pub proof fn lemma_swap_words_involution(d: Seq<u8>)
    requires
        d.len() % 4 == 0,
    ensures
        swapped_words(swapped_words(d)) == d,
{
    assert(swapped_words(swapped_words(d)) =~= d);
}

/// The four big-endian bytes of `x`.
pub open spec fn be_bytes(x: u32) -> Seq<u8> {
    seq![
        (x / 0x100_0000) as u8,
        ((x / 0x1_0000) % 0x100) as u8,
        ((x / 0x100) % 0x100) as u8,
        (x % 0x100) as u8,
    ]
}

/// Appends the four big-endian bytes of `x`.
pub fn push_u32_be(out: &mut Vec<u8>, x: u32)
    ensures
        final(out)@ == old(out)@ + be_bytes(x),
{
    out.push((x / 0x100_0000) as u8);
    out.push(((x / 0x1_0000) % 0x100) as u8);
    out.push(((x / 0x100) % 0x100) as u8);
    out.push((x % 0x100) as u8);
    assert(final(out)@ =~= old(out)@ + be_bytes(x));
}

/// Reading back the big-endian bytes of a word gives the word.
pub proof fn lemma_be_bytes_roundtrip(x: u32)
    ensures
        u32_be_at(be_bytes(x), 0) == x,
{
    let b = be_bytes(x);
    assert(b[0] as int == x / 0x100_0000);
    assert(b[1] as int == (x / 0x1_0000) % 0x100);
    assert(b[2] as int == (x / 0x100) % 0x100);
    assert(b[3] as int == x % 0x100);
    assert(x == (x / 0x100_0000) * 0x100_0000 + ((x / 0x1_0000) % 0x100) * 0x1_0000 + ((x / 0x100) % 0x100) * 0x100 + x % 0x100) by (nonlinear_arith);
}

/// Whether two byte slices are equal.
pub fn bytes_equal(a: &[u8], b: &[u8]) -> (res: bool)
    ensures
        res == (a@ == b@),
{
    if a.len() != b.len() {
        return false;
    }
    let mut k: usize = 0;
    while k < a.len()
        invariant
            a@.len() == b@.len(),
            k <= a@.len(),
            forall|j: int| 0 <= j < k ==> a@[j] == b@[j],
        decreases a@.len() - k,
    {
        if a[k] != b[k] {
            return false;
        }
        k = k + 1;
    }
    assert(a@ =~= b@);
    true
}

} // verus!
