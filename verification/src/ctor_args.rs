use vstd::prelude::*;

verus! {

/// Whether the given byte tail ABI-decodes as arguments for a constructor
/// whose parameters have the given canonical Solidity types.
///
/// The outcome is computed by the ABI decoder of the `alloy-dyn-abi` crate; it
/// is a function of the parameter types and the tail alone, so it is only
/// named here, not restated.
pub uninterp spec fn ctor_decodes(params: Seq<Seq<char>>, tail: Seq<u8>) -> bool;

/// Tries to decode `code[offset..]` as constructor arguments for the given
/// parameter types.
///
/// Relies on `alloy_json_abi::Param::parse` to turn each canonical type string
/// into a parameter, and on `alloy_dyn_abi::JsonAbiExt::abi_decode_input` for
/// `alloy_json_abi::Constructor` to ABI-decode the tail against those
/// parameters; both are deterministic functions of their inputs. A type string
/// that does not parse counts as a failed decode.
#[verifier::external_body]
pub(crate) fn ctor_decode_ok(params: &Vec<String>, code: &[u8], offset: usize) -> (r: bool)
    requires
        offset <= code@.len(),
    ensures
        r == ctor_decodes(params.deep_view(), code@.skip(offset as int)),
{
    let mut inputs = Vec::with_capacity(params.len());
    for p in params {
        match alloy_json_abi::Param::parse(p) {
            Ok(param) => inputs.push(param),
            Err(_) => return false,
        }
    }
    let constructor = alloy_json_abi::Constructor {
        inputs,
        state_mutability: alloy_json_abi::StateMutability::NonPayable,
    };
    alloy_dyn_abi::JsonAbiExt::abi_decode_input(&constructor, &code[offset..]).is_ok()
}

} // verus!
