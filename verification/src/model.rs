//! The mathematical model of an SDP document: the same shapes as the
//! executable types, with character sequences in place of strings. The
//! grammar functions and the round-trip laws are stated over these.

use vstd::prelude::*;
use crate::sdp::AddressType;
use crate::sdp::BandwidthType;
use crate::sdp::MediaType;
use crate::sdp::NetworkType;

verus! {

/// Model of an encryption-key method: the mechanism token together with
/// its payload, or a bare prompt.
#[verifier::ext_equal]
pub enum EncryptionKeyModel {
    Clear(Seq<char>),
    Base64(Seq<char>),
    Uri(Seq<char>),
    Prompt,
}

/// Model of one time-zone adjustment: an adjustment time and an offset
/// token.
#[verifier::ext_equal]
pub struct TimeZoneAdjustmentModel {
    pub time: usize,
    pub offset: Seq<char>,
}

/// Model of a record nested under a media line.
#[verifier::ext_equal]
pub enum MediaPropModel {
    Title(Seq<char>),
    Connection {
        net_type: NetworkType,
        address_type: AddressType,
        address: Seq<char>,
        ttl: Option<usize>,
        num_addresses: Option<usize>,
        suffix: Option<Seq<char>>,
    },
    Bandwidth { bw_type: BandwidthType, bandwidth: usize },
    EncryptionKeys(EncryptionKeyModel),
    Attribute { key: Seq<char>, value: Option<Seq<char>> },
}

/// Model of a top-level record.
#[verifier::ext_equal]
pub enum SdpPropModel {
    Version(u8),
    Origin {
        username: Seq<char>,
        session_id: Seq<char>,
        session_version: usize,
        net_type: NetworkType,
        address_type: AddressType,
        address: Seq<char>,
    },
    SessionName(Seq<char>),
    SessionInformation(Seq<char>),
    Uri(Seq<char>),
    Email(Seq<char>),
    Phone(Seq<char>),
    Connection {
        net_type: NetworkType,
        address_type: AddressType,
        address: Seq<char>,
        ttl: Option<usize>,
        num_addresses: Option<usize>,
        suffix: Option<Seq<char>>,
    },
    Bandwidth { bw_type: BandwidthType, bandwidth: usize },
    Timing { start: usize, stop: usize },
    RepeatTimes {
        interval: Seq<char>,
        active_duration: Seq<char>,
        start_offsets: Seq<Seq<char>>,
    },
    TimeZone(Seq<TimeZoneAdjustmentModel>),
    EncryptionKeys(EncryptionKeyModel),
    Attribute { key: Seq<char>, value: Option<Seq<char>> },
    Media {
        media_type: MediaType,
        ports: Seq<u16>,
        protocol: Seq<char>,
        format: Seq<char>,
        props: Seq<MediaPropModel>,
    },
}

/// Model of a whole document: its top-level records in wire order.
#[verifier::ext_equal]
pub struct SdpModel {
    pub props: Seq<SdpPropModel>,
}

/// Model of a parse failure.
#[verifier::ext_equal]
pub enum ParseErrorModel {
    UnknownKey(char, Seq<char>),
    UnknownToken(Seq<char>),
    MalformedLine(Seq<char>),
    NumericConversionFailed(Seq<char>),
}

} // verus!
