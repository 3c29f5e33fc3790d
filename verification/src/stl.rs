//! The framing of a binary STL file.
use vstd::prelude::*;

verus! {

/// The four bytes of `n`, least significant first.
pub open spec fn le_bytes(n: u32) -> Seq<u8> {
    seq![
        (n % 256) as u8,
        ((n / 256) % 256) as u8,
        ((n / 65536) % 256) as u8,
        ((n / 16777216) % 256) as u8,
    ]
}

/// The triangle records of an STL body: each triangle's 48 bytes of normal and corners,
/// followed by two zero bytes of attributes.
pub open spec fn stl_records(tris: Seq<[u8; 48]>) -> Seq<u8>
    decreases tris.len(),
{
    if tris.len() == 0 {
        Seq::empty()
    } else {
        stl_records(tris.drop_last()) + tris.last()@ + seq![0u8, 0u8]
    }
}

/// A binary STL file: an 80-byte header of zeros, the number of triangles as a little-endian
/// `u32` (kept to its low 32 bits), then the triangle records.
pub open spec fn stl_file(tris: Seq<[u8; 48]>) -> Seq<u8> {
    Seq::new(80, |i: int| 0u8) + le_bytes(tris.len() as u32) + stl_records(tris)
}

/// The bytes of a binary STL file holding the given triangles, each already laid out as the
/// 48 bytes of its normal and its three corners.
pub fn stl_bytes(tris: &[[u8; 48]]) -> (r: Vec<u8>)
    ensures
        r@ == stl_file(tris@),
{
    let mut out: Vec<u8> = Vec::new();
    let mut i: usize = 0;
    while i < 80
        invariant
            i <= 80,
            out@ == Seq::new(i as nat, |j: int| 0u8),
        decreases 80 - i,
    {
        out.push(0u8);
        i = i + 1;
        assert(out@ =~= Seq::new(i as nat, |j: int| 0u8));
    }
    let count: u32 = tris.len() as u32;
    out.push((count % 256) as u8);
    out.push(((count / 256) % 256) as u8);
    out.push(((count / 65536) % 256) as u8);
    out.push(((count / 16777216) % 256) as u8);
    let ghost head = Seq::new(80, |j: int| 0u8) + le_bytes(tris@.len() as u32);
    assert(out@ =~= head);
    let mut k: usize = 0;
    while k < tris.len()
        invariant
            k <= tris.len(),
            out@ == head + stl_records(tris@.take(k as int)),
        decreases tris.len() - k,
    {
        let t: [u8; 48] = tris[k];
        let ghost before = out@;
        let mut j: usize = 0;
        while j < 48
            invariant
                j <= 48,
                t@.len() == 48,
                out@ == before + t@.take(j as int),
            decreases 48 - j,
        {
            out.push(t[j]);
            j = j + 1;
            assert(out@ =~= before + t@.take(j as int));
        }
        out.push(0u8);
        out.push(0u8);
        proof {
            assert(tris@.take(k as int + 1).drop_last() =~= tris@.take(k as int));
            assert(t@.take(48) =~= t@);
            assert(out@ =~= head + stl_records(tris@.take(k as int + 1)));
        }
        k = k + 1;
    }
    assert(tris@.take(tris.len() as int) =~= tris@);
    out
}

} // verus!
