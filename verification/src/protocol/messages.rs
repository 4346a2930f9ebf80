//! Fixed protocol messages.

use vstd::prelude::*;

verus! {

/// The CONNACK that accepts a connection without a stored session.
pub const CONNACK: [u8; 4] = [0x20, 0x02, 0x00, 0x00];

/// The PINGRESP answer to a PINGREQ: packet type 13, remaining length 0.
pub const PINGRESP: [u8; 2] = [0xD0, 0x00];

/// The fixed CONNACK message is the encoding of an accepting CONNACK packet.
pub proof fn lemma_connack_message_is_accepted()
    ensures
        CONNACK@ == super::connack::connack_bytes(false, 0),
{
    assert(CONNACK@ =~= super::connack::connack_bytes(false, 0));
}

} // verus!
