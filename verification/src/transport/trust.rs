//! Trust policies for the device attestation that a server presents.

use darkbio_crypto::xdsa::PublicKey as VerifyingKey;
use darkbio_trust::device::Device;
use darkbio_trust::Error as TrustError;
use vstd::prelude::*;

use super::attestation::Attestation;

verus! {

/// Device that an attestation identifies.
#[verifier::external_type_specification]
#[verifier::external_body]
pub struct ExDevice(Device);

/// Error of the attestation checks.
#[verifier::external_type_specification]
#[verifier::external_body]
pub struct ExTrustError(TrustError);

/// Device that an attestation identifies under the roots at a time, if it does.
pub uninterp spec fn trusted_device(
    attestation: Seq<u8>,
    hardware: Seq<VerifyingKey>,
    emulator: Seq<VerifyingKey>,
    now: u64,
) -> Option<Device>;

/// Identity key of a device.
pub uninterp spec fn device_identity(device: Device) -> VerifyingKey;

/// Verifies an attestation with `darkbio_trust::device::verify`, against the
/// roots of hardware and emulated devices, at a Unix time in seconds.
#[verifier::external_body]
fn verify_device(
    attestation: &[u8],
    hardware: &[VerifyingKey],
    emulator: &[VerifyingKey],
    now: u64,
) -> (device: Result<Device, TrustError>)
    ensures
        match device {
            Ok(device) => trusted_device(attestation@, hardware@, emulator@, now) == Some(device),
            Err(_) => trusted_device(attestation@, hardware@, emulator@, now) is None,
        },
{
    darkbio_trust::device::verify(attestation, hardware, emulator, Some(now))
}

/// Reads the `identity` field of a verified device.
#[verifier::external_body]
fn identity_of(device: &Device) -> (identity: VerifyingKey)
    ensures
        identity == device_identity(*device),
{
    device.identity.clone()
}

/// Trust policy for the device attestation a server presents in the handshake.
/// It owns everything the wire deliberately does not (which roots to trust,
/// self-signing rules, recovery overrides) and decides which devices a session
/// is opened with.
pub trait Verifier {
    /// Session info extracted from an accepted attestation.
    type Info;

    /// Whether the policy takes an attestation for that of an identity. A policy
    /// that does not say may take any.
    open spec fn accepts(&self, attestation: Seq<u8>, identity: VerifyingKey) -> bool {
        true
    }

    /// Whether the policy may reject an attestation. A policy that does not say may
    /// reject any.
    open spec fn rejects(&self, attestation: Seq<u8>) -> bool {
        true
    }

    /// Whether the session info is what the policy extracts from an attestation. A
    /// policy that does not say may extract any.
    open spec fn informs(&self, attestation: Seq<u8>, info: Self::Info) -> bool {
        true
    }

    /// Verifies the device attestation, returning the server's identity key along
    /// with any info extracted from the attestation. The handshake signature is
    /// checked against the returned key, so this decision is what authenticates
    /// the session. Rejecting the attestation aborts the handshake.
    fn verify(&self, attestation: &Attestation) -> (verdict: Result<
        (VerifyingKey, Self::Info),
        String,
    >)
        ensures
            match verdict {
                Ok(verdict) => {
                    &&& self.accepts(attestation@, verdict.0)
                    &&& self.informs(attestation@, verdict.1)
                },
                Err(_) => self.rejects(attestation@),
            },
    ;
}

/// A pinned identity, accepting any attestation and handing it back as
/// presented. The handshake is authenticated against the pinned key instead.
impl Verifier for VerifyingKey {
    type Info = Attestation;

    open spec fn accepts(&self, attestation: Seq<u8>, identity: VerifyingKey) -> bool {
        identity == *self
    }

    open spec fn rejects(&self, attestation: Seq<u8>) -> bool {
        false
    }

    open spec fn informs(&self, attestation: Seq<u8>, info: Attestation) -> bool {
        info@ == attestation
    }

    fn verify(&self, attestation: &Attestation) -> Result<(VerifyingKey, Attestation), String> {
        Ok((self.clone(), attestation.clone()))
    }
}

/// Roots of trust, accepting the devices attested under them. Hardware devices
/// are accepted by the hardware roots and emulated ones by the emulator roots,
/// the attestation having to be valid at the given time. A device that was never
/// onboarded is rejected, its self-signed attestation being an onboarding
/// decision rather than one of trust.
pub struct Roots<'a> {
    pub hardware: &'a [VerifyingKey],  // Roots attesting hardware devices
    pub emulator: &'a [VerifyingKey],  // Roots attesting emulated devices
    pub now: u64,  // Time of the check, in seconds since the Unix epoch
}

impl<'a> Roots<'a> {
    /// Device that an attestation identifies under the roots, if it does.
    pub open spec fn device(&self, attestation: Seq<u8>) -> Option<Device> {
        trusted_device(attestation, self.hardware@, self.emulator@, self.now)
    }
}

impl<'a> Verifier for Roots<'a> {
    type Info = Device;

    open spec fn accepts(&self, attestation: Seq<u8>, identity: VerifyingKey) -> bool {
        self.device(attestation) matches Some(device) && identity == device_identity(device)
    }

    open spec fn rejects(&self, attestation: Seq<u8>) -> bool {
        self.device(attestation) is None
    }

    open spec fn informs(&self, attestation: Seq<u8>, info: Device) -> bool {
        self.device(attestation) == Some(info)
    }

    fn verify(&self, attestation: &Attestation) -> (verdict: Result<(VerifyingKey, Device), String>)
        ensures
            match trusted_device(attestation@, self.hardware@, self.emulator@, self.now) {
                Some(device) => {
                    &&& verdict matches Ok(verdict)
                    &&& verdict.0 == device_identity(device)
                    &&& verdict.1 == device
                },
                None => verdict is Err,
            },
    {
        match verify_device(attestation.as_bytes(), self.hardware, self.emulator, self.now) {
            Ok(device) => Ok((identity_of(&device), device)),
            Err(err) => Err(err.to_string()),
        }
    }
}

/// Every root given counts, whatever its position in its list, and so does the time
/// given: an attestation is taken exactly if it identifies a device under all of the
/// roots at that time, for the identity of that device and with that device as the
/// session info. All others are rejected.
pub proof fn law_every_root_counts(
    roots: Roots,
    attestation: Seq<u8>,
    identity: VerifyingKey,
    info: Device,
)
    ensures
        match trusted_device(attestation, roots.hardware@, roots.emulator@, roots.now) {
            Some(device) => {
                &&& !roots.rejects(attestation)
                &&& roots.accepts(attestation, identity) <==> identity == device_identity(device)
                &&& roots.informs(attestation, info) <==> info == device
            },
            None => {
                &&& roots.rejects(attestation)
                &&& !roots.accepts(attestation, identity)
                &&& !roots.informs(attestation, info)
            },
        },
{
}

/// Another root, put anywhere among those of hardware devices or of emulated ones, costs
/// a device its session only if the device is no longer identified under the longer
/// lists.
pub proof fn law_added_root_is_consulted(
    roots: Roots,
    more: Roots,
    position: int,
    added: VerifyingKey,
    attestation: Seq<u8>,
    device: Device,
)
    requires
        more.now == roots.now,
        ({
            ||| {
                &&& 0 <= position <= roots.hardware@.len()
                &&& more.hardware@ == roots.hardware@.insert(position, added)
                &&& more.emulator@ == roots.emulator@
                &&& trusted_device(
                    attestation,
                    roots.hardware@.insert(position, added),
                    roots.emulator@,
                    roots.now,
                ) == Some(device)
            }
            ||| {
                &&& 0 <= position <= roots.emulator@.len()
                &&& more.hardware@ == roots.hardware@
                &&& more.emulator@ == roots.emulator@.insert(position, added)
                &&& trusted_device(
                    attestation,
                    roots.hardware@,
                    roots.emulator@.insert(position, added),
                    roots.now,
                ) == Some(device)
            }
        }),
    ensures
        more.accepts(attestation, device_identity(device)),
        more.informs(attestation, device),
        !more.rejects(attestation),
{
}

/// A pinned identity is the only one taken, whatever is attested, and no attestation is
/// turned away: the session info is the attestation as presented.
pub proof fn law_pinned_identity_decides(
    pinned: VerifyingKey,
    attestation: Seq<u8>,
    identity: VerifyingKey,
    info: Attestation,
)
    ensures
        pinned.accepts(attestation, identity) <==> identity == pinned,
        pinned.informs(attestation, info) <==> info@ == attestation,
        !pinned.rejects(attestation),
{
}

} // verus!
