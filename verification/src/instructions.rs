//! Decoding of caller-supplied instruction payloads.
//!
//! Payload layout: byte 0 is the opcode, `0` for a deposit and `1` for a
//! withdraw; any other value is rejected.
//!
//! A deposit payload is exactly 41 bytes: the amount as an 8-byte
//! little-endian unsigned integer at bytes 1..9, then the 32-byte secret at
//! bytes 9..41.
//!
//! A withdraw payload is 73 bytes plus a whole number of 32-byte sibling
//! digests: the 32-byte nullifier at bytes 1..33, the 32-byte claimed leaf
//! commitment at bytes 33..65, the claimed leaf index as an 8-byte
//! little-endian unsigned integer at bytes 65..73 (the position bits of the
//! proof are derived from this index), then the sibling digests in
//! leaf-to-root order.

use vstd::prelude::*;
use vstd::bytes::{spec_u64_from_le_bytes, u64_from_le_bytes};
use vstd::slice::slice_subrange;
use crate::PoolError;
use crate::bytesutil::read_bytes32;
use crate::merkle::leaves_view;

verus! {

/// A decoded instruction payload.
#[derive(Debug, PartialEq, Eq)]
pub enum PoolInstruction {
    /// Deposit `amount` under the given secret.
    Deposit { amount: u64, secret: [u8; 32] },
    /// Withdraw the deposit at `leaf_index`, revealing its nullifier and
    /// proving that `leaf` is a member of the accumulator.
    Withdraw { nullifier: [u8; 32], leaf: [u8; 32], leaf_index: u64, siblings: Vec<[u8; 32]> },
}

/// Whether a payload is a well-formed deposit instruction.
pub open spec fn deposit_payload_well_formed(data: Seq<u8>) -> bool {
    &&& data.len() == 41
    &&& data[0] == 0
}

/// Whether a payload is a well-formed withdraw instruction.
pub open spec fn withdraw_payload_well_formed(data: Seq<u8>) -> bool {
    &&& data.len() >= 73
    &&& (data.len() - 73) % 32 == 0
    &&& data[0] == 1
}

/// The number of sibling digests carried by a withdraw payload.
pub open spec fn payload_sibling_count(data: Seq<u8>) -> int {
    (data.len() - 73) / 32
}

/// Decode an instruction payload. Fails with `InvalidInstructionData`
/// exactly on an empty payload, an unknown opcode, or a payload whose length
/// does not match its opcode.
pub fn parse_instruction(data: &[u8]) -> (r: Result<PoolInstruction, PoolError>)
    ensures
        deposit_payload_well_formed(data@) ==> {
            &&& r is Ok
            &&& r->Ok_0 matches PoolInstruction::Deposit { amount, secret } && amount
                == spec_u64_from_le_bytes(data@.subrange(1, 9)) && secret@ == data@.subrange(9, 41)
        },
        withdraw_payload_well_formed(data@) ==> {
            &&& r is Ok
            &&& r->Ok_0 matches PoolInstruction::Withdraw { nullifier, leaf, leaf_index, siblings }
                && nullifier@ == data@.subrange(1, 33) && leaf@ == data@.subrange(33, 65)
                && leaf_index == spec_u64_from_le_bytes(data@.subrange(65, 73)) && leaves_view(
                siblings@,
            ) == Seq::new(
                payload_sibling_count(data@) as nat,
                |k: int| data@.subrange(73 + 32 * k, 105 + 32 * k),
            )
        },
        !deposit_payload_well_formed(data@) && !withdraw_payload_well_formed(data@) ==> r == Err::<
            PoolInstruction,
            PoolError,
        >(PoolError::InvalidInstructionData),
{
    let dlen = data.len();
    if dlen == 0 {
        return Err(PoolError::InvalidInstructionData);
    }
    let opcode = data[0];
    if opcode == 0 {
        if dlen != 41 {
            return Err(PoolError::InvalidInstructionData);
        }
        let amount = u64_from_le_bytes(slice_subrange(data, 1, 9));
        let secret = read_bytes32(data, 9);
        Ok(PoolInstruction::Deposit { amount, secret })
    } else if opcode == 1 {
        if dlen < 73 {
            return Err(PoolError::InvalidInstructionData);
        }
        if (dlen - 73) % 32 != 0 {
            return Err(PoolError::InvalidInstructionData);
        }
        let nullifier = read_bytes32(data, 1);
        let leaf = read_bytes32(data, 33);
        let leaf_index = u64_from_le_bytes(slice_subrange(data, 65, 73));
        let sibling_count = (dlen - 73) / 32;
        let mut siblings: Vec<[u8; 32]> = Vec::new();
        let mut k: usize = 0;
        while k < sibling_count
            invariant
                k <= sibling_count,
                dlen == data@.len(),
                dlen >= 73,
                sibling_count == (dlen - 73) / 32,
                (dlen - 73) % 32 == 0,
                siblings@.len() == k,
                forall|j: int|
                    0 <= j < k ==> siblings@[j]@ == data@.subrange(73 + 32 * j, 105 + 32 * j),
            decreases sibling_count - k,
        {
            let entry = read_bytes32(data, 73 + 32 * k);
            siblings.push(entry);
            k = k + 1;
        }
        proof {
            assert(leaves_view(siblings@) =~= Seq::new(
                payload_sibling_count(data@) as nat,
                |j: int| data@.subrange(73 + 32 * j, 105 + 32 * j),
            ));
        }
        Ok(PoolInstruction::Withdraw { nullifier, leaf, leaf_index, siblings })
    } else {
        Err(PoolError::InvalidInstructionData)
    }
}

} // verus!
