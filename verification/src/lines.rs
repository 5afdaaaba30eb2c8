//! Byte-stream framing shared by the line-oriented services.

use vstd::prelude::*;

verus! {

/// The byte that ends a line.
pub const NEWLINE: u8 = 10u8;

/// `i` is the position of the first newline in `bytes`.
pub open spec fn is_first_newline(bytes: Seq<u8>, i: int) -> bool {
    &&& 0 <= i < bytes.len()
    &&& bytes[i] == NEWLINE
    &&& forall|j: int| 0 <= j < i ==> bytes[j] != NEWLINE
}

/// `bytes` holds a newline somewhere.
pub open spec fn has_newline(bytes: Seq<u8>) -> bool {
    exists|j: int| 0 <= j < bytes.len() && bytes[j] == NEWLINE
}

/// Position of the first newline byte in `bytes`, if there is one.
pub fn find_newline(bytes: &[u8]) -> (res: Option<usize>)
    ensures
        match res {
            Some(i) => is_first_newline(bytes@, i as int) && i < bytes.len(),
            None => !has_newline(bytes@),
        },
{
    let mut i: usize = 0;
    while i < bytes.len()
        invariant
            i <= bytes@.len(),
            forall|j: int| 0 <= j < i ==> bytes@[j] != NEWLINE,
        decreases bytes@.len() - i,
    {
        if bytes[i] == NEWLINE {
            return Some(i);
        }
        i = i + 1;
    }
    None
}

/// Appends `data` at the end of `buffer`.
pub fn append_bytes(buffer: &mut Vec<u8>, data: &[u8])
    ensures
        final(buffer)@ == old(buffer)@ + data@,
{
    let mut i: usize = 0;
    while i < data.len()
        invariant
            i <= data@.len(),
            buffer@ == old(buffer)@ + data@.subrange(0, i as int),
        decreases data@.len() - i,
    {
        buffer.push(data[i]);
        i = i + 1;
        assert(data@.subrange(0, i as int) == data@.subrange(0, i - 1) + seq![data@[i - 1]]);
    }
    assert(data@.subrange(0, data@.len() as int) == data@);
}

/// Removes the first `n` bytes of `buffer` and returns them.
pub fn take_prefix(buffer: &mut Vec<u8>, n: usize) -> (prefix: Vec<u8>)
    requires
        n <= old(buffer)@.len(),
    ensures
        prefix@ == old(buffer)@.subrange(0, n as int),
        final(buffer)@ == old(buffer)@.subrange(n as int, old(buffer)@.len() as int),
{
    let mut rest = buffer.split_off(n);
    core::mem::swap(buffer, &mut rest);
    rest
}

/// The first line of `bytes`, its newline included.
pub open spec fn first_line(bytes: Seq<u8>) -> Seq<u8> {
    let i = choose|i: int| is_first_newline(bytes, i);
    bytes.subrange(0, i + 1)
}

/// The bytes left once the first line of `bytes` is taken off.
pub open spec fn after_first_line(bytes: Seq<u8>) -> Seq<u8> {
    let i = choose|i: int| is_first_newline(bytes, i);
    bytes.subrange(i + 1, bytes.len() as int)
}

/// There is one first newline.
pub proof fn lemma_first_newline_unique(bytes: Seq<u8>, i: int)
    requires
        is_first_newline(bytes, i),
    ensures
        (choose|j: int| is_first_newline(bytes, j)) == i,
{
    let j = choose|j: int| is_first_newline(bytes, j);
    if j < i {
        assert(bytes[j] != NEWLINE);
    } else if i < j {
        assert(bytes[i] != NEWLINE);
    }
}

/// Taking off the first line loses no byte and adds none: the line, then
/// what is left, make up the bytes as they were; the line ends at its only
/// newline.
pub proof fn lemma_first_line_split(bytes: Seq<u8>)
    requires
        has_newline(bytes),
    ensures
        first_line(bytes) + after_first_line(bytes) == bytes,
        first_line(bytes).len() > 0,
        first_line(bytes).last() == NEWLINE,
        forall|j: int| 0 <= j < first_line(bytes).len() - 1 ==> first_line(bytes)[j] != NEWLINE,
{
    let k = choose|j: int| 0 <= j < bytes.len() && bytes[j] == NEWLINE;
    lemma_first_newline_exists(bytes, k);
    assert(first_line(bytes) + after_first_line(bytes) =~= bytes);
}

proof fn lemma_first_newline_exists(bytes: Seq<u8>, k: int)
    requires
        0 <= k < bytes.len(),
        bytes[k] == NEWLINE,
    ensures
        exists|i: int| is_first_newline(bytes, i),
    decreases k,
{
    if exists|j: int| 0 <= j < k && bytes[j] == NEWLINE {
        let j = choose|j: int| 0 <= j < k && bytes[j] == NEWLINE;
        lemma_first_newline_exists(bytes, j);
    } else {
        assert(is_first_newline(bytes, k));
    }
}

} // verus!
