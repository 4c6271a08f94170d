//! Recognising Tailscale addresses.
//!
//! The link sends plain UDP and carries no encryption of its own, because it
//! runs inside a WireGuard tunnel. The sender checks that rather than assuming
//! it: outside the tailnet the screen and audio go out in the clear, and the
//! link accepts packets from anyone who finds the port.

use vstd::prelude::*;

verus! {

/// An internet address.
#[derive(Debug, Clone, Copy, PartialEq, Eq)]
pub enum Address {
    /// The four bytes of an IPv4 address, as one number.
    V4(u32),
    /// The eight segments of an IPv6 address.
    V6([u16; 8]),
}

/// Tailscale assigns node addresses from the 100.64.0.0/10 shared-address
/// space reserved for carrier-grade NAT.
pub const TAILSCALE_V4: u32 = 0x6440_0000;

/// How many leading bits of an address the range fixes.
pub const TAILSCALE_V4_BITS: u32 = 10;

/// Tailscale's IPv6 range begins fd7a:115c:a1e0.
pub const TAILSCALE_V6_PREFIX: u16 = 0xfd7a;

impl Address {
    /// The address with these four bytes.
    pub fn from_octets(a: u8, b: u8, c: u8, d: u8) -> (address: Self)
        ensures
            address == Address::V4((a * 0x100_0000 + b * 0x1_0000 + c * 0x100 + d) as u32),
    {
        Address::V4(a as u32 * 0x100_0000 + b as u32 * 0x1_0000 + c as u32 * 0x100 + d as u32)
    }

    /// Whether the address lies in the tailnet: from 100.64.0.0 to
    /// 100.127.255.255, or under the IPv6 prefix.
    pub open spec fn in_tailnet(self) -> bool {
        match self {
            Address::V4(bits) => 0x6440_0000 <= bits <= 0x647f_ffff,
            Address::V6(segments) => segments@[0] == TAILSCALE_V6_PREFIX,
        }
    }

    /// Whether the address never leaves the machine: from 127.0.0.0 to
    /// 127.255.255.255, or ::1.
    pub open spec fn in_loopback(self) -> bool {
        match self {
            Address::V4(bits) => 0x7f00_0000 <= bits <= 0x7fff_ffff,
            Address::V6(segments) => segments@ == seq![0u16, 0, 0, 0, 0, 0, 0, 1],
        }
    }
}

/// Whether an address looks like a Tailscale node, and so is inside the tunnel.
pub fn is_tailnet_address(addr: Address) -> (inside: bool)
    ensures
        inside == addr.in_tailnet(),
{
    match addr {
        Address::V4(bits) => {
            let shift: u32 = 32 - TAILSCALE_V4_BITS;
            let mask: u32 = u32::MAX << shift;
            proof {
                assert((bits & (0xffff_ffffu32 << 22) == 0x6440_0000u32 & (0xffff_ffffu32 << 22))
                    <==> (0x6440_0000 <= bits <= 0x647f_ffff)) by (bit_vector);
            }
            bits & mask == TAILSCALE_V4 & mask
        },
        Address::V6(segments) => segments[0] == TAILSCALE_V6_PREFIX,
    }
}

/// Whether an address never leaves the machine.
fn is_loopback(addr: Address) -> (local: bool)
    ensures
        local == addr.in_loopback(),
{
    match addr {
        Address::V4(bits) => bits / 0x100_0000 == 127,
        Address::V6(segments) => {
            let local = segments[0] == 0 && segments[1] == 0 && segments[2] == 0 && segments[3] == 0
                && segments[4] == 0 && segments[5] == 0 && segments[6] == 0 && segments[7] == 1;
            proof {
                let home = seq![0u16, 0, 0, 0, 0, 0, 0, 1];
                if local {
                    assert(segments@ =~= home);
                } else if segments@ == home {
                    assert(home[0] == 0 && home[1] == 0 && home[2] == 0 && home[3] == 0 && home[4]
                        == 0 && home[5] == 0 && home[6] == 0 && home[7] == 1);
                }
            }
            local
        },
    }
}

/// Loopback is exempt: it never leaves the machine, and is how the self-test
/// and any local experiment run.
pub fn is_protected(addr: Address) -> (protected: bool)
    ensures
        protected == (addr.in_loopback() || addr.in_tailnet()),
{
    is_loopback(addr) || is_tailnet_address(addr)
}

/// The tailnet is 100.64.0.0/10 and, of the longer addresses, those that begin with
/// fd7a. What never leaves the machine is 127.0.0.0/8 and ::1.
pub proof fn law_ranges_are_told_by_their_first_numbers(
    a: u8,
    b: u8,
    c: u8,
    d: u8,
    segments: [u16; 8],
)
    ensures
        ({
            let v4 = Address::V4((a * 0x100_0000 + b * 0x1_0000 + c * 0x100 + d) as u32);
            let v6 = Address::V6(segments);
            &&& v4.in_tailnet() <==> a == 100 && 64 <= b <= 127
            &&& v4.in_loopback() <==> a == 127
            &&& v6.in_tailnet() <==> segments@[0] == 0xfd7a
            &&& v6.in_loopback() <==> (forall|i: int| 0 <= i < 7 ==> #[trigger] segments@[i] == 0)
                && segments@[7] == 1
        }),
{
    let home = seq![0u16, 0, 0, 0, 0, 0, 0, 1];
    if segments@ == home {
        assert forall|i: int| 0 <= i < 7 implies #[trigger] segments@[i] == 0 by {
            assert(home[i] == 0);
        }
        assert(home[7] == 1);
    }
    if (forall|i: int| 0 <= i < 7 ==> #[trigger] segments@[i] == 0) && segments@[7] == 1 {
        assert(segments@ =~= home);
    }
}

} // verus!
