//! Which IP addresses can be reached from anywhere.
use vstd::prelude::*;

verus! {

/// Whether an IPv4 address is in one of the private ranges 10.0.0.0/8,
/// 172.16.0.0/12 and 192.168.0.0/16.
pub open spec fn is_private_ipv4(o: Seq<u8>) -> bool {
    ||| o[0] == 10
    ||| o[0] == 172 && 16 <= o[1] <= 31
    ||| o[0] == 192 && o[1] == 168
}

/// Whether an IPv4 address is set aside for a purpose other than the open network.
pub open spec fn is_special_ipv4(o: Seq<u8>) -> bool {
    ||| o[0] == 0
    ||| is_private_ipv4(o)
    ||| o[0] == 192 && o[1] == 0 && o[2] == 0
    ||| o[0] == 100 && 64 <= o[1] <= 127
    ||| o[0] == 127
    ||| o[0] == 169 && o[1] == 254
    ||| o[0] == 192 && o[1] == 0 && o[2] == 2
    ||| o[0] == 198 && o[1] == 51 && o[2] == 100
    ||| o[0] == 203 && o[1] == 0 && o[2] == 113
    ||| o[0] == 198 && 18 <= o[1] <= 19
    ||| o[0] >= 240
}

/// Whether an IPv4 address can be reached from anywhere. Two addresses are taken to
/// be reachable although they are in a private range.
pub open spec fn is_global_ipv4(o: Seq<u8>) -> bool {
    o == seq![192u8, 168u8, 0u8, 9u8] || o == seq![192u8, 168u8, 0u8, 10u8] || !is_special_ipv4(o)
}

/// Whether an IPv6 address is set aside for a purpose other than the open network:
/// the unspecified and the loopback address, fe80::/10, fec0::/10, fc00::/7 and
/// 2001:db8::/32.
pub open spec fn is_special_ipv6(o: Seq<u8>) -> bool {
    ||| (forall|i: int| 0 <= i < 15 ==> o[i] == 0) && o[15] <= 1
    ||| o[0] == 0xfe && o[1] >= 0x80
    ||| o[0] == 0xfc
    ||| o[0] == 0xfd
    ||| o[0] == 0x20 && o[1] == 0x01 && o[2] == 0x0d && o[3] == 0xb8
}

/// Whether an IPv6 address can be reached from anywhere: a multicast address of
/// global scope, or another address that is not set aside.
pub open spec fn is_global_ipv6(o: Seq<u8>) -> bool {
    if o[0] == 0xff {
        o[1] % 16 == 14
    } else {
        !is_special_ipv6(o)
    }
}

/// `ip_network::Ipv4Network::is_global` of a single address.
#[verifier::external_body]
pub(crate) fn ipv4_is_global(octets: [u8; 4]) -> (r: bool)
    ensures
        r == is_global_ipv4(octets@),
{
    ip_network::Ipv4Network::new(octets.into(), 32).unwrap().is_global()
}

/// `ip_network::Ipv6Network::is_global` of a single address.
#[verifier::external_body]
pub(crate) fn ipv6_is_global(octets: [u8; 16]) -> (r: bool)
    ensures
        r == is_global_ipv6(octets@),
{
    ip_network::Ipv6Network::new(octets.into(), 128).unwrap().is_global()
}

/// Whether an IPv4 address is in a private range.
pub fn ipv4_is_private(octets: [u8; 4]) -> (r: bool)
    ensures
        r == is_private_ipv4(octets@),
{
    octets[0] == 10 || (octets[0] == 172 && 16 <= octets[1] && octets[1] <= 31) || (octets[0] == 192
        && octets[1] == 168)
}

/// The number that four octets stand for, the first the most significant.
pub open spec fn ipv4_number(o: Seq<u8>) -> int {
    0x100_0000 * o[0] + 0x1_0000 * o[1] + 0x100 * o[2] + o[3]
}

/// The private addresses are those from 10.0.0.0 to 10.255.255.255, from 172.16.0.0 to
/// 172.31.255.255 and from 192.168.0.0 to 192.168.255.255, and no others.
pub proof fn private_ranges(o: Seq<u8>)
    requires
        o.len() == 4,
    ensures
        is_private_ipv4(o) <==> {
            ||| 0x0a00_0000 <= ipv4_number(o) <= 0x0aff_ffff
            ||| 0xac10_0000 <= ipv4_number(o) <= 0xac1f_ffff
            ||| 0xc0a8_0000 <= ipv4_number(o) <= 0xc0a8_ffff
        },
{
}

/// No address of these ranges can be reached from anywhere, but for 192.168.0.9 and
/// 192.168.0.10, and every other one can: below 1.0.0.0, the private ranges, 100.64.0.0/10,
/// 127.0.0.0/8, 169.254.0.0/16, 192.0.0.0/24, 192.0.2.0/24, 198.18.0.0/15, 198.51.100.0/24,
/// 203.0.113.0/24 and from 240.0.0.0 on.
pub proof fn global_ranges(o: Seq<u8>)
    requires
        o.len() == 4,
    ensures
        is_global_ipv4(o) <==> !{
            ||| ipv4_number(o) < 0x0100_0000
            ||| 0x0a00_0000 <= ipv4_number(o) <= 0x0aff_ffff
            ||| 0x6440_0000 <= ipv4_number(o) <= 0x647f_ffff
            ||| 0x7f00_0000 <= ipv4_number(o) <= 0x7fff_ffff
            ||| 0xa9fe_0000 <= ipv4_number(o) <= 0xa9fe_ffff
            ||| 0xac10_0000 <= ipv4_number(o) <= 0xac1f_ffff
            ||| 0xc000_0000 <= ipv4_number(o) <= 0xc000_00ff
            ||| 0xc000_0200 <= ipv4_number(o) <= 0xc000_02ff
            ||| 0xc0a8_0000 <= ipv4_number(o) <= 0xc0a8_0008
            ||| 0xc0a8_000b <= ipv4_number(o) <= 0xc0a8_ffff
            ||| 0xc612_0000 <= ipv4_number(o) <= 0xc613_ffff
            ||| 0xc633_6400 <= ipv4_number(o) <= 0xc633_64ff
            ||| 0xcb00_7100 <= ipv4_number(o) <= 0xcb00_71ff
            ||| ipv4_number(o) >= 0xf000_0000
        },
{
    let first = seq![192u8, 168u8, 0u8, 9u8];
    let second = seq![192u8, 168u8, 0u8, 10u8];
    if ipv4_number(o) == 0xc0a8_0009 {
        assert(o =~= first);
    }
    if ipv4_number(o) == 0xc0a8_000a {
        assert(o =~= second);
    }
    assert(o == first ==> ipv4_number(o) == 0xc0a8_0009);
    assert(o == second ==> ipv4_number(o) == 0xc0a8_000a);
}

/// The first group of an IPv6 address decides whether it can be reached from anywhere, but
/// for 2001:db8::/32, which cannot, and for the addresses that start with zeros. From ff00 on
/// its last digit must be an e.
pub proof fn global_groups(o: Seq<u8>)
    requires
        o.len() == 16,
    ensures
        ({
            let first = 0x100 * o[0] + o[1];
            let second = 0x100 * o[2] + o[3];
            &&& 0xfc00 <= first < 0xfe00 ==> !is_global_ipv6(o)
            &&& 0xfe80 <= first < 0xff00 ==> !is_global_ipv6(o)
            &&& 0xff00 <= first ==> (is_global_ipv6(o) <==> first % 16 == 14)
            &&& first == 0x2001 ==> (is_global_ipv6(o) <==> second != 0x0db8)
            &&& 0 < first < 0x2001 || 0x2001 < first < 0xfc00 || 0xfe00 <= first < 0xfe80
                ==> is_global_ipv6(o)
        }),
        (forall|i: int| 0 <= i < 15 ==> o[i] == 0) ==> (is_global_ipv6(o) <==> o[15] > 1),
{
}

} // verus!
