//! The footer that DuckDB looks for behind the code of an extension.

use vstd::prelude::*;

verus! {

/// The length of the footer in bytes.
pub const FOOTER_LEN: usize = 352;

/// A text in a field of 32 bytes: cut to 31 bytes and filled up with zeros.
pub open spec fn field(data: Seq<u8>) -> Seq<u8> {
    Seq::new(
        32,
        |i: int|
            if i < 31 && i < data.len() {
                data[i]
            } else {
                0u8
            },
    )
}

/// The footer: the version of DuckDB, the platform, and zeros for the kind of
/// interface, what is reserved and the signature.
pub open spec fn footer_bytes(version: Seq<u8>, platform: Seq<u8>) -> Seq<u8> {
    field(version) + field(platform) + Seq::new(288, |i: int| 0u8)
}

fn push_field(out: &mut Vec<u8>, data: &[u8])
    ensures
        final(out)@ == old(out)@ + field(data@),
{
    let ghost before = out@;
    let mut i: usize = 0;
    while i < 32
        invariant
            i <= 32,
            out@ == before + field(data@).take(i as int),
        decreases 32 - i,
    {
        let b: u8 = if i < 31 && i < data.len() {
            data[i]
        } else {
            0
        };
        out.push(b);
        i = i + 1;
        assert(out@ =~= before + field(data@).take(i as int));
    }
    assert(field(data@).take(32) =~= field(data@));
}

/// Builds the footer of an extension for a version of DuckDB and a platform.
pub fn build_footer(version: &[u8], platform: &[u8]) -> (footer: Vec<u8>)
    ensures
        footer@ == footer_bytes(version@, platform@),
        footer@.len() == FOOTER_LEN,
{
    let mut footer: Vec<u8> = Vec::new();
    push_field(&mut footer, version);
    push_field(&mut footer, platform);
    let ghost head = footer@;
    let ghost zeros = Seq::new(288, |i: int| 0u8);
    let mut i: usize = 0;
    while i < 288
        invariant
            i <= 288,
            zeros == Seq::new(288, |i: int| 0u8),
            footer@ == head + zeros.take(i as int),
        decreases 288 - i,
    {
        footer.push(0);
        i = i + 1;
        assert(footer@ =~= head + zeros.take(i as int));
    }
    assert(zeros.take(288) =~= zeros);
    assert(footer@ =~= footer_bytes(version@, platform@));
    footer
}

} // verus!
