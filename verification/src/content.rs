//! What reading and writing do to a file's bytes.
use vstd::prelude::*;

verus! {

/// The bytes that a read at `offset` of at most `size` bytes returns.
pub open spec fn read_spec(data: Seq<u8>, offset: nat, size: nat) -> Seq<u8> {
    if offset > data.len() {
        Seq::empty()
    } else if offset + size < data.len() {
        data.subrange(offset as int, (offset + size) as int)
    } else {
        data.subrange(offset as int, data.len() as int)
    }
}

/// `n` zero bytes.
pub open spec fn zeros(n: nat) -> Seq<u8> {
    Seq::new(n, |i: int| 0u8)
}

/// The number of zero bytes that a write at `offset` puts behind `len` bytes.
pub open spec fn gap(len: nat, offset: nat) -> nat {
    if offset > len {
        (offset - len) as nat
    } else {
        0
    }
}

/// The content after a write at `offset`: the old bytes, zeros up to
/// `offset` where the old bytes end before it, then the new bytes at the
/// end.
pub open spec fn write_spec(data: Seq<u8>, offset: nat, bytes: Seq<u8>) -> Seq<u8> {
    data + zeros(gap(data.len(), offset)) + bytes
}

/// Cuts the bytes of a read out of a file's content.
pub fn read_range(data: &[u8], offset: u32, size: u32) -> (out: Vec<u8>)
    ensures
        out@ == read_spec(data@, offset as nat, size as nat),
{
    let mut out: Vec<u8> = Vec::new();
    let len: usize = data.len();
    if (offset as u64) > (len as u64) {
        assert(out@ =~= read_spec(data@, offset as nat, size as nat));
        return out;
    }
    let start: usize = offset as usize;
    let wanted: u64 = offset as u64 + size as u64;
    let end: usize = if wanted < len as u64 {
        wanted as usize
    } else {
        len
    };
    let mut i: usize = start;
    while i < end
        invariant
            start <= i <= end <= data.len(),
            out@ == data@.subrange(start as int, i as int),
        decreases end - i,
    {
        out.push(data[i]);
        i += 1;
        assert(out@ =~= data@.subrange(start as int, i as int));
    }
    out
}

/// Pads `data` with zeros up to `offset`, then appends `bytes`.
pub fn pad_and_append(data: Vec<u8>, offset: u32, bytes: &[u8]) -> (out: Vec<u8>)
    ensures
        out@ == write_spec(data@, offset as nat, bytes@),
{
    let mut out = data;
    while (out.len() as u64) < (offset as u64)
        invariant
            data@.len() <= out@.len(),
            out@.len() <= data@.len() + gap(data@.len(), offset as nat),
            out@ == data@ + zeros((out@.len() - data@.len()) as nat),
        decreases offset as int - out@.len(),
    {
        out.push(0u8);
        assert(out@ =~= data@ + zeros((out@.len() - data@.len()) as nat));
    }
    let ghost padded = out@;
    assert(padded =~= data@ + zeros(gap(data@.len(), offset as nat)));
    let mut i: usize = 0;
    while i < bytes.len()
        invariant
            i <= bytes.len(),
            out@ == padded + bytes@.subrange(0, i as int),
        decreases bytes.len() - i,
    {
        out.push(bytes[i]);
        i += 1;
        assert(out@ =~= padded + bytes@.subrange(0, i as int));
    }
    assert(bytes@.subrange(0, i as int) =~= bytes@);
    out
}

/// A read never reaches past the end: at or behind the end it is empty,
/// before the end it returns the stored bytes from `offset` on, as many as
/// asked for or as are left.
pub proof fn lemma_read_clamps(data: Seq<u8>, offset: nat, size: nat)
    ensures
        offset >= data.len() ==> read_spec(data, offset, size).len() == 0,
        offset < data.len() ==> read_spec(data, offset, size).len() == if size < data.len()
            - offset {
            size as int
        } else {
            data.len() - offset
        },
        forall|i: int|
            0 <= i < read_spec(data, offset, size).len() ==> read_spec(data, offset, size)[i]
                == data[offset + i],
{
}

/// A write keeps the old bytes, fills up to `offset` with zeros and puts
/// the new bytes last; the content then ends behind the larger of the old
/// length and `offset`, by the number of bytes written.
pub proof fn lemma_write_layout(data: Seq<u8>, offset: nat, bytes: Seq<u8>)
    ensures
        write_spec(data, offset, bytes).len() == data.len() + gap(data.len(), offset)
            + bytes.len(),
        write_spec(data, offset, bytes).subrange(0, data.len() as int) == data,
        forall|i: int|
            data.len() <= i < data.len() + gap(data.len(), offset) ==> write_spec(
                data,
                offset,
                bytes,
            )[i] == 0u8,
        write_spec(data, offset, bytes).subrange(
            (data.len() + gap(data.len(), offset)) as int,
            write_spec(data, offset, bytes).len() as int,
        ) == bytes,
        read_spec(
            write_spec(data, offset, bytes),
            0,
            write_spec(data, offset, bytes).len(),
        ) == write_spec(data, offset, bytes),
{
    let w = write_spec(data, offset, bytes);
    assert(w.subrange(0, data.len() as int) =~= data);
    assert(w.subrange((data.len() + gap(data.len(), offset)) as int, w.len() as int) =~= bytes);
    assert(read_spec(w, 0, w.len()) =~= w);
}

} // verus!
