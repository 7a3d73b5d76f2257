use vstd::prelude::*;

verus! {

/// The unit a byte count is shown in.
#[derive(Clone, Copy, PartialEq, Eq, Debug, Structural)]
pub enum ByteUnit {
    GiB,
    MiB,
    KiB,
    B,
}

/// The largest binary unit that the count reaches: GiB from 2^30 bytes,
/// MiB from 2^20, KiB from 2^10, else bytes.
pub fn byte_unit(bytes: u64) -> (r: ByteUnit)
    ensures
        r == if bytes >= 0x4000_0000 {
            ByteUnit::GiB
        } else if bytes >= 0x10_0000 {
            ByteUnit::MiB
        } else if bytes >= 0x400 {
            ByteUnit::KiB
        } else {
            ByteUnit::B
        },
{
    if bytes >= 0x4000_0000 {
        ByteUnit::GiB
    } else if bytes >= 0x10_0000 {
        ByteUnit::MiB
    } else if bytes >= 0x400 {
        ByteUnit::KiB
    } else {
        ByteUnit::B
    }
}

} // verus!
