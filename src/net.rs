//! IPv4 addresses as `u32` values (most significant byte first) and the
//! prefix/mask arithmetic used to decide subnet membership.

use vstd::prelude::*;

verus! {

/// The mask with the top `n` bits set, for `n <= 32`.
pub open spec fn prefix_mask(n: u8) -> u32 {
    if n == 0 {
        0
    } else {
        0xFFFF_FFFFu32 << ((32 - n) as u32)
    }
}

/// Builds an address from its four octets, first octet most significant.
pub open spec fn ipv4_spec(a: u8, b: u8, c: u8, d: u8) -> u32 {
    ((a as u32) << 24u32) | ((b as u32) << 16u32) | ((c as u32) << 8u32) | (d as u32)
}

/// Address `a.b.c.d` as a `u32`.
pub fn ipv4(a: u8, b: u8, c: u8, d: u8) -> (r: u32)
    ensures
        r == ipv4_spec(a, b, c, d),
        r as int == a as int * 0x100_0000 + b as int * 0x1_0000 + c as int * 0x100 + d as int,
{
    let r = ((a as u32) << 24u32) | ((b as u32) << 16u32) | ((c as u32) << 8u32) | (d as u32);
    assert(r as int == a as int * 0x100_0000 + b as int * 0x1_0000 + c as int * 0x100 + d as int)
        by (bit_vector)
        requires
            r == ((a as u32) << 24u32) | ((b as u32) << 16u32) | ((c as u32) << 8u32) | (d as u32),
    ;
    r
}

/// Converts a prefix length into its bit mask: the top `mask` bits are set,
/// all others clear. `0` gives `0.0.0.0`, `32` gives `255.255.255.255`.
pub fn mask_to_ip(mask: u8) -> (r: u32)
    requires
        mask <= 32,
    ensures
        r == prefix_mask(mask),
        forall|b: u32| b < 32 ==> (((r >> b) & 1u32) == 1u32 <==> b >= 32 - mask),
{
    let r: u32 = if mask == 0 {
        0
    } else {
        0xFFFF_FFFFu32 << ((32 - mask) as u32)
    };
    let m = mask as u32;
    assert(forall|b: u32| b < 32 ==> (((r >> b) & 1u32) == 1u32 <==> b >= 32 - m)) by (bit_vector)
        requires
            m <= 32,
            r == if m == 0 { 0u32 } else { 0xFFFF_FFFFu32 << ((32 - m) as u32) },
    ;
    r
}

/// The network part of `ip` under `mask`: their bitwise AND.
pub fn get_network(ip: u32, mask: u32) -> (r: u32)
    ensures
        r == ip & mask,
{
    ip & mask
}

/// Whether two addresses lie in the same subnet under `mask`.
pub fn same_subnet(a: u32, b: u32, mask: u32) -> (r: bool)
    ensures
        r == ((a & mask) == (b & mask)),
{
    get_network(a, mask) == get_network(b, mask)
}

} // verus!
