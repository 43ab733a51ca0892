//! Device attestations, which the transport forwards without interpreting them.

use darkbio_crypto::cwt;
use darkbio_trust::device::{EmulatorClaims, HardwareClaims};
use vstd::prelude::*;
use vstd::slice::slice_to_vec;

use super::Error;

verus! {

/// Whether a token's claims decode as those of a hardware device.
pub uninterp spec fn hardware_token(token: Seq<u8>) -> bool;

/// Whether a token's claims decode as those of an emulated device.
pub uninterp spec fn emulator_token(token: Seq<u8>) -> bool;

/// Reads a token's claims with `cwt::peek` as those of a hardware device, and
/// reports whether they are, without checking the signature.
#[verifier::external_body]
fn is_hardware_token(token: &[u8]) -> (decodes: bool)
    ensures
        decodes == hardware_token(token@),
{
    cwt::peek::<HardwareClaims>(token).is_ok()
}

/// Reads a token's claims with `cwt::peek` as those of an emulated device, and
/// reports whether they are, without checking the signature.
#[verifier::external_body]
fn is_emulator_token(token: &[u8]) -> (decodes: bool)
    ensures
        decodes == emulator_token(token@),
{
    cwt::peek::<EmulatorClaims>(token).is_ok()
}

/// Whether a token has the shape of a device attestation.
pub open spec fn device_token(token: Seq<u8>) -> bool {
    hardware_token(token) || emulator_token(token)
}

/// Device attestation in the shape of a hardware or an emulated device. Whether
/// to trust it is up to whoever verifies it.
#[derive(Debug)]
pub struct Attestation(Vec<u8>);

impl View for Attestation {
    type V = Seq<u8>;

    closed spec fn view(&self) -> Seq<u8> {
        self.0@
    }
}

impl Attestation {
    /// Every attestation has the shape of a device's.
    #[verifier::type_invariant]
    spec fn wf(self) -> bool {
        device_token(self.0@)
    }

    /// Wraps a token after checking that it decodes as a device attestation.
    pub fn new(cwt: Vec<u8>) -> (attestation: Result<Attestation, Error>)
        ensures
            match attestation {
                Ok(attestation) => device_token(cwt@) && attestation@ == cwt@,
                Err(err) => !device_token(cwt@) && err == Error::InvalidAttestation,
            },
    {
        if !is_hardware_token(cwt.as_slice()) && !is_emulator_token(cwt.as_slice()) {
            return Err(Error::InvalidAttestation);
        }
        Ok(Attestation(cwt))
    }

    /// Token bytes of the attestation.
    pub fn as_bytes(&self) -> (bytes: &[u8])
        ensures
            bytes@ == self@,
            device_token(bytes@),
    {
        proof {
            use_type_invariant(self);
        }
        self.0.as_slice()
    }

    /// Converts the attestation into its token bytes.
    pub fn into_bytes(self) -> (bytes: Vec<u8>)
        ensures
            bytes@ == self@,
            device_token(bytes@),
    {
        proof {
            use_type_invariant(&self);
        }
        self.0
    }
}

impl Clone for Attestation {
    fn clone(&self) -> (copied: Attestation)
        ensures
            copied@ == self@,
    {
        proof {
            use_type_invariant(self);
        }
        Attestation(slice_to_vec(self.0.as_slice()))
    }
}

/// Source of the device attestation presented in handshakes.
pub trait Attester {
    /// Whether the source may present an attestation and stand as `next` from then
    /// on. A source that does not say may present any.
    open spec fn presents(&self, attestation: Seq<u8>, next: &Self) -> bool {
        true
    }

    /// Device attestation to present in the next handshake. The identity key in it
    /// has to be the one that signs the handshake.
    fn attest(&mut self) -> (attestation: Attestation)
        ensures
            old(self).presents(attestation@, &*final(self)),
    ;
}

/// A fixed attestation, presented in every handshake.
impl Attester for Attestation {
    open spec fn presents(&self, attestation: Seq<u8>, next: &Attestation) -> bool {
        attestation == self@ && *next == *self
    }

    fn attest(&mut self) -> Attestation {
        self.clone()
    }
}

/// A token is taken for an attestation exactly if it is one of a hardware or an emulated
/// device, and is kept as it is.
pub proof fn law_attestation_is_a_device(cwt: Vec<u8>, attestation: Result<Attestation, Error>)
    requires
        call_ensures(Attestation::new, (cwt,), attestation),
    ensures
        attestation is Ok <==> hardware_token(cwt@) || emulator_token(cwt@),
        attestation matches Ok(attestation) ==> attestation@ == cwt@,
        attestation matches Err(error) ==> error == Error::InvalidAttestation,
{
}

} // verus!
