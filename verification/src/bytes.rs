//! Words as the bytes that a compute device is handed, and back.
//!
//! Whether the low or the high byte of a word comes first is up to the machine.

use vstd::prelude::*;

verus! {

/// The word whose low byte comes first.
pub open spec fn little_endian(bytes: Seq<u8>) -> int {
    bytes[0] + 0x100 * bytes[1] + 0x1_0000 * bytes[2] + 0x100_0000 * bytes[3]
}

/// The word whose high byte comes first.
pub open spec fn big_endian(bytes: Seq<u8>) -> int {
    bytes[3] + 0x100 * bytes[2] + 0x1_0000 * bytes[1] + 0x100_0000 * bytes[0]
}

/// The four bytes of the word at a position.
pub open spec fn word_bytes(bytes: Seq<u8>, position: int) -> Seq<u8> {
    bytes.subrange(4 * position, 4 * position + 4)
}

/// The bytes hold the words, four bytes each, all in the same order.
pub open spec fn hold(bytes: Seq<u8>, words: Seq<u32>) -> bool {
    &&& bytes.len() == 4 * words.len()
    &&& {
        ||| forall|i: int|
            0 <= i < words.len() ==> #[trigger] words[i] == little_endian(word_bytes(bytes, i))
        ||| forall|i: int|
            0 <= i < words.len() ==> #[trigger] words[i] == big_endian(word_bytes(bytes, i))
    }
}

/// Calls `bytemuck::cast_slice`, which views the words as the bytes that they consist of in
/// memory: four for each word, in the machine's order. From words to bytes the cast cannot fail,
/// since bytes need no alignment and the sizes always divide. Which of the two orders is the
/// machine's is left open.
#[verifier::external_body]
pub(crate) fn cast_words(words: &[u32]) -> (bytes: Vec<u8>)
    ensures
        hold(bytes@, words@),
{
    bytemuck::cast_slice::<u32, u8>(words).to_vec()
}

/// Calls `bytemuck::cast_slice_mut`, which views the words as the bytes that they consist of in
/// memory, in the machine's order, and overwrites those bytes with the given ones, four for each
/// word. From words to bytes the cast cannot fail, since bytes need no alignment and the sizes
/// always divide; the copy panics where the numbers of bytes differ. Which of the two orders is
/// the machine's is left open, and so is that it is the one of [`cast_words`].
#[verifier::external_body]
fn fill_words(words: &mut Vec<u32>, bytes: &[u8])
    requires
        bytes.len() == 4 * old(words).len(),
    ensures
        hold(bytes@, final(words)@),
{
    bytemuck::cast_slice_mut::<u32, u8>(words.as_mut_slice()).copy_from_slice(bytes);
}

/// The words that whole groups of four bytes hold, all in the same order; bytes left over at the
/// end are ignored.
pub fn words_of(bytes: &[u8]) -> (words: Vec<u32>)
    ensures
        hold(bytes@.take(4 * (bytes@.len() / 4) as int), words@),
{
    let count = bytes.len() / 4;
    let mut words: Vec<u32> = Vec::with_capacity(count);
    while words.len() < count
        invariant
            words.len() <= count,
        decreases count - words.len(),
    {
        words.push(0);
    }
    let whole = vstd::slice::slice_subrange(bytes, 0, 4 * count);
    fill_words(&mut words, whole);
    words
}

} // verus!
