//! Client identities: the network address a request came from, brought to
//! one form, so that a client counts as the same whichever form its address
//! arrived in.

use vstd::prelude::*;

verus! {

/// A client's network address, as the bits of its IPv4 or IPv6 form.
#[derive(Clone, Copy, Debug, PartialEq, Eq, Structural)]
pub enum Address {
    V4(u32),
    V6(u128),
}

/// Where the IPv4 addresses lie among the IPv6 ones: `::ffff:0:0`.
pub const V4_MAPPED: u128 = 0xffff_0000_0000;

/// The identity of an address: its IPv6 bits, an IPv4 address taken as the
/// IPv6 address it is mapped to.
pub open spec fn identity_of(a: Address) -> nat {
    match a {
        Address::V4(bits) => (V4_MAPPED + bits) as nat,
        Address::V6(bits) => bits as nat,
    }
}

/// Whether two addresses name the same host: they are equal, or one is the
/// IPv4 form and the other the mapped IPv6 form of one address.
pub open spec fn same_host(a: Address, b: Address) -> bool {
    match (a, b) {
        (Address::V4(x), Address::V4(y)) => x == y,
        (Address::V6(x), Address::V6(y)) => x == y,
        (Address::V4(x), Address::V6(y)) => y == V4_MAPPED + x,
        (Address::V6(x), Address::V4(y)) => x == V4_MAPPED + y,
    }
}

/// Identities are stable and tell clients apart: two addresses have the same
/// identity exactly when they name the same host.
pub proof fn lemma_identity_names_the_host(a: Address, b: Address)
    ensures
        (identity_of(a) == identity_of(b)) <==> same_host(a, b),
{
}

/// The identity under which the requests of `address` are counted.
pub fn identity(address: Address) -> (id: u128)
    ensures
        id == identity_of(address),
{
    match address {
        Address::V4(bits) => {
            let low: u128 = bits as u128;
            V4_MAPPED + low
        },
        Address::V6(bits) => bits,
    }
}

} // verus!
