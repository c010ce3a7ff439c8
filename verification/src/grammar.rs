//! The SDP grammar as mathematics: a total specification of parsing and
//! serialization over character sequences and the document model. The
//! executable code in [`crate::sdp`] is proved equal to these functions.

use vstd::prelude::*;
use crate::digits::dec_str;
use crate::digits::dec_val;
use crate::digits::is_dec;
use crate::model::EncryptionKeyModel;
use crate::model::MediaPropModel;
use crate::model::ParseErrorModel;
use crate::model::SdpModel;
use crate::model::SdpPropModel;
use crate::model::TimeZoneAdjustmentModel;
use crate::sdp::AddressType;
use crate::sdp::BandwidthType;
use crate::sdp::LineEnding;
use crate::sdp::MediaType;
use crate::sdp::NetworkType;
use crate::text::find_char;
use crate::text::join_char;
use crate::text::join_seq;
use crate::text::normalize_endings;
use crate::text::split_char;

verus! {

/// The connection fields shared by the session-level and media-level
/// connection records.
#[verifier::ext_equal]
pub struct ConnectionModel {
    pub net_type: NetworkType,
    pub address_type: AddressType,
    pub address: Seq<char>,
    pub ttl: Option<usize>,
    pub num_addresses: Option<usize>,
    pub suffix: Option<Seq<char>>,
}

/// A non-negative integer that fits in `usize`, or the failed token.
pub open spec fn spec_parse_usize(t: Seq<char>) -> Result<usize, ParseErrorModel> {
    if is_dec(t) && dec_val(t) <= usize::MAX {
        Ok(dec_val(t) as usize)
    } else {
        Err(ParseErrorModel::NumericConversionFailed(t))
    }
}

/// A non-negative integer that fits in `u16`, or the failed token.
pub open spec fn spec_parse_u16(t: Seq<char>) -> Result<u16, ParseErrorModel> {
    if is_dec(t) && dec_val(t) <= u16::MAX {
        Ok(dec_val(t) as u16)
    } else {
        Err(ParseErrorModel::NumericConversionFailed(t))
    }
}

/// A non-negative integer that fits in `u8`, or the failed token.
pub open spec fn spec_parse_u8(t: Seq<char>) -> Result<u8, ParseErrorModel> {
    if is_dec(t) && dec_val(t) <= u8::MAX {
        Ok(dec_val(t) as u8)
    } else {
        Err(ParseErrorModel::NumericConversionFailed(t))
    }
}

/// The network type a token denotes.
pub open spec fn spec_parse_net_type(t: Seq<char>) -> Result<NetworkType, ParseErrorModel> {
    if t == "IN"@ {
        Ok(NetworkType::Internet)
    } else {
        Err(ParseErrorModel::UnknownToken(t))
    }
}

/// The address type a token denotes.
pub open spec fn spec_parse_address_type(t: Seq<char>) -> Result<AddressType, ParseErrorModel> {
    if t == "IP4"@ {
        Ok(AddressType::IPv4)
    } else if t == "IP6"@ {
        Ok(AddressType::IPv6)
    } else {
        Err(ParseErrorModel::UnknownToken(t))
    }
}

/// The bandwidth type a token denotes.
pub open spec fn spec_parse_bandwidth_type(t: Seq<char>) -> Result<BandwidthType, ParseErrorModel> {
    if t == "CT"@ {
        Ok(BandwidthType::ConferenceTotal)
    } else if t == "AS"@ {
        Ok(BandwidthType::ApplicationSpecific)
    } else {
        Err(ParseErrorModel::UnknownToken(t))
    }
}

/// The media type a token denotes.
pub open spec fn spec_parse_media_type(t: Seq<char>) -> Result<MediaType, ParseErrorModel> {
    if t == "audio"@ {
        Ok(MediaType::Audio)
    } else if t == "video"@ {
        Ok(MediaType::Video)
    } else if t == "text"@ {
        Ok(MediaType::Text)
    } else if t == "application"@ {
        Ok(MediaType::Application)
    } else {
        Err(ParseErrorModel::UnknownToken(t))
    }
}

/// A line split at its first `=`: the key is the character opening the
/// line, the value is everything after that `=`. A line without `=` is an
/// unknown token; a line that starts with `=` has no key character.
pub open spec fn spec_content_from_line(line: Seq<char>) -> Result<
    (char, Seq<char>),
    ParseErrorModel,
> {
    let i = find_char(line, '=');
    if i < 0 {
        Err(ParseErrorModel::UnknownToken(line))
    } else if i == 0 {
        Err(ParseErrorModel::MalformedLine(line))
    } else {
        Ok((line[0], line.skip(i + 1)))
    }
}

/// Address parts already split on `/`: one part is a bare address, two
/// add a TTL, three add an address count; no part or more than three are
/// malformed, with `orig` as the reported token.
pub open spec fn spec_parse_address_parts(parts: Seq<Seq<char>>, orig: Seq<char>) -> Result<
    (Seq<char>, Option<usize>, Option<usize>),
    ParseErrorModel,
> {
    if parts.len() == 1 {
        Ok((parts[0], None, None))
    } else if parts.len() == 2 {
        match spec_parse_usize(parts[1]) {
            Ok(ttl) => Ok((parts[0], Some(ttl), None)),
            Err(e) => Err(e),
        }
    } else if parts.len() == 3 {
        match spec_parse_usize(parts[1]) {
            Ok(ttl) => match spec_parse_usize(parts[2]) {
                Ok(n) => Ok((parts[0], Some(ttl), Some(n))),
                Err(e) => Err(e),
            },
            Err(e) => Err(e),
        }
    } else {
        Err(ParseErrorModel::MalformedLine(orig))
    }
}

/// An address token split on `/` and read as address with optional TTL
/// and count.
pub open spec fn spec_parse_address_token(t: Seq<char>) -> Result<
    (Seq<char>, Option<usize>, Option<usize>),
    ParseErrorModel,
> {
    spec_parse_address_parts(split_char(t, '/'), t)
}

/// The value of a connection line: network type, address type and an
/// address token with optional TTL and count, then an optional verbatim
/// suffix of the remaining tokens.
pub open spec fn spec_parse_connection(value: Seq<char>) -> Result<
    ConnectionModel,
    ParseErrorModel,
> {
    let tokens = split_char(value, ' ');
    if tokens.len() < 3 {
        Err(ParseErrorModel::MalformedLine(value))
    } else {
        match spec_parse_address_token(tokens[2]) {
            Err(e) => Err(e),
            Ok((address, ttl, num_addresses)) => match spec_parse_net_type(tokens[0]) {
                Err(e) => Err(e),
                Ok(net_type) => match spec_parse_address_type(tokens[1]) {
                    Err(e) => Err(e),
                    Ok(address_type) => Ok(
                        ConnectionModel {
                            net_type,
                            address_type,
                            address,
                            ttl,
                            num_addresses,
                            suffix: if tokens.len() > 3 {
                                Some(join_char(tokens.skip(3), ' '))
                            } else {
                                None
                            },
                        },
                    ),
                },
            },
        }
    }
}

/// The value of a bandwidth line: a bandwidth type and an integer,
/// separated by `:`; further `:`-separated parts are ignored.
pub open spec fn spec_parse_bandwidth(value: Seq<char>) -> Result<
    (BandwidthType, usize),
    ParseErrorModel,
> {
    let parts = split_char(value, ':');
    match spec_parse_bandwidth_type(parts[0]) {
        Err(e) => Err(e),
        Ok(bw_type) => if parts.len() < 2 {
            Err(ParseErrorModel::MalformedLine(value))
        } else {
            match spec_parse_usize(parts[1]) {
                Err(e) => Err(e),
                Ok(bandwidth) => Ok((bw_type, bandwidth)),
            }
        },
    }
}

/// The value of an attribute line: the key is everything before the first
/// `:`; with no `:` the attribute is a flag and the whole value is the
/// key; otherwise the value is everything after that `:`, kept verbatim.
pub open spec fn spec_parse_attribute(value: Seq<char>) -> (Seq<char>, Option<Seq<char>>) {
    let i = find_char(value, ':');
    if i < 0 {
        (value, None)
    } else {
        (value.take(i), Some(value.skip(i + 1)))
    }
}

/// The value of an encryption-key line: the literal `prompt`, or a
/// mechanism token before the first `:` with the verbatim payload after
/// it.
pub open spec fn spec_parse_encryption(value: Seq<char>) -> Result<
    EncryptionKeyModel,
    ParseErrorModel,
> {
    if value == "prompt"@ {
        Ok(EncryptionKeyModel::Prompt)
    } else {
        let i = find_char(value, ':');
        let mech = if i < 0 {
            value
        } else {
            value.take(i)
        };
        let payload = if i < 0 {
            Seq::<char>::empty()
        } else {
            value.skip(i + 1)
        };
        if mech == "clear"@ {
            Ok(EncryptionKeyModel::Clear(payload))
        } else if mech == "base64"@ {
            Ok(EncryptionKeyModel::Base64(payload))
        } else if mech == "uri"@ {
            Ok(EncryptionKeyModel::Uri(payload))
        } else {
            Err(ParseErrorModel::UnknownToken(value))
        }
    }
}

/// Already-parsed items prepended to the result of parsing the rest:
/// an error passes through, a success carries the combined items.
pub open spec fn prepend_ok<T>(prefix: Seq<T>, r: Result<Seq<T>, ParseErrorModel>) -> Result<
    Seq<T>,
    ParseErrorModel,
> {
    match r {
        Err(e) => Err(e),
        Ok(tail) => Ok(prefix + tail),
    }
}

/// Time-zone tokens taken two at a time: an adjustment time and an offset
/// token per pair; a lone trailing token is malformed once it parses as a
/// number.
pub open spec fn spec_parse_timezone(tokens: Seq<Seq<char>>, value: Seq<char>) -> Result<
    Seq<TimeZoneAdjustmentModel>,
    ParseErrorModel,
>
    decreases tokens.len(),
{
    if tokens.len() == 0 {
        Ok(Seq::empty())
    } else {
        match spec_parse_usize(tokens[0]) {
            Err(e) => Err(e),
            Ok(time) => if tokens.len() == 1 {
                Err(ParseErrorModel::MalformedLine(value))
            } else {
                match spec_parse_timezone(tokens.skip(2), value) {
                    Err(e) => Err(e),
                    Ok(rest) => Ok(
                        seq![TimeZoneAdjustmentModel { time, offset: tokens[1] }] + rest,
                    ),
                }
            },
        }
    }
}

/// One record nested under a media line.
pub open spec fn spec_parse_media_prop(line: Seq<char>) -> Result<
    MediaPropModel,
    ParseErrorModel,
> {
    match spec_content_from_line(line) {
        Err(e) => Err(e),
        Ok((key, value)) => if key == 'i' {
            Ok(MediaPropModel::Title(value))
        } else if key == 'c' {
            match spec_parse_connection(value) {
                Err(e) => Err(e),
                Ok(c) => Ok(
                    MediaPropModel::Connection {
                        net_type: c.net_type,
                        address_type: c.address_type,
                        address: c.address,
                        ttl: c.ttl,
                        num_addresses: c.num_addresses,
                        suffix: c.suffix,
                    },
                ),
            }
        } else if key == 'b' {
            match spec_parse_bandwidth(value) {
                Err(e) => Err(e),
                Ok((bw_type, bandwidth)) => Ok(MediaPropModel::Bandwidth { bw_type, bandwidth }),
            }
        } else if key == 'k' {
            match spec_parse_encryption(value) {
                Err(e) => Err(e),
                Ok(m) => Ok(MediaPropModel::EncryptionKeys(m)),
            }
        } else if key == 'a' {
            let (akey, avalue) = spec_parse_attribute(value);
            Ok(MediaPropModel::Attribute { key: akey, value: avalue })
        } else {
            Err(ParseErrorModel::UnknownToken(line))
        },
    }
}

/// The nested lines of a media record, each parsed as a media-level
/// record; the first failure aborts the whole parse.
pub open spec fn spec_parse_media_props(lines: Seq<Seq<char>>) -> Result<
    Seq<MediaPropModel>,
    ParseErrorModel,
>
    decreases lines.len(),
{
    if lines.len() == 0 {
        Ok(Seq::empty())
    } else {
        match spec_parse_media_prop(lines[0]) {
            Err(e) => Err(e),
            Ok(p) => match spec_parse_media_props(lines.drop_first()) {
                Err(e) => Err(e),
                Ok(ps) => Ok(seq![p] + ps),
            },
        }
    }
}

/// Port tokens of a media line, `/`-separated, each an unsigned 16-bit
/// value.
pub open spec fn spec_parse_ports(parts: Seq<Seq<char>>) -> Result<Seq<u16>, ParseErrorModel>
    decreases parts.len(),
{
    if parts.len() == 0 {
        Ok(Seq::empty())
    } else {
        match spec_parse_u16(parts[0]) {
            Err(e) => Err(e),
            Ok(p) => match spec_parse_ports(parts.drop_first()) {
                Err(e) => Err(e),
                Ok(ps) => Ok(seq![p] + ps),
            },
        }
    }
}

/// The value of a media record: a header line of media type, ports,
/// protocol and format, followed by the nested lines merged under it.
pub open spec fn spec_parse_media(value: Seq<char>) -> Result<SdpPropModel, ParseErrorModel> {
    let lines = split_char(value, '\n');
    let tokens = split_char(lines[0], ' ');
    match spec_parse_media_type(tokens[0]) {
        Err(e) => Err(e),
        Ok(media_type) => if tokens.len() < 2 {
            Err(ParseErrorModel::MalformedLine(value))
        } else {
            match spec_parse_ports(split_char(tokens[1], '/')) {
                Err(e) => Err(e),
                Ok(ports) => if tokens.len() < 3 {
                    Err(ParseErrorModel::MalformedLine(value))
                } else {
                    match spec_parse_media_props(lines.drop_first()) {
                        Err(e) => Err(e),
                        Ok(props) => Ok(
                            SdpPropModel::Media {
                                media_type,
                                ports,
                                protocol: tokens[2],
                                format: join_char(tokens.skip(3), ' '),
                                props,
                            },
                        ),
                    }
                },
            }
        },
    }
}

/// One top-level record: a logical line split into key and value, the
/// value parsed under the grammar of that key.
pub open spec fn spec_parse_record(rec: Seq<char>) -> Result<SdpPropModel, ParseErrorModel> {
    match spec_content_from_line(rec) {
        Err(e) => Err(e),
        Ok((key, value)) => {
            let tokens = split_char(value, ' ');
            if key == 'v' {
                match spec_parse_u8(value) {
                    Err(e) => Err(e),
                    Ok(v) => Ok(SdpPropModel::Version(v)),
                }
            } else if key == 'o' {
                if tokens.len() < 3 {
                    Err(ParseErrorModel::MalformedLine(value))
                } else {
                    match spec_parse_usize(tokens[2]) {
                        Err(e) => Err(e),
                        Ok(session_version) => if tokens.len() < 4 {
                            Err(ParseErrorModel::MalformedLine(value))
                        } else {
                            match spec_parse_net_type(tokens[3]) {
                                Err(e) => Err(e),
                                Ok(net_type) => if tokens.len() < 5 {
                                    Err(ParseErrorModel::MalformedLine(value))
                                } else {
                                    match spec_parse_address_type(tokens[4]) {
                                        Err(e) => Err(e),
                                        Ok(address_type) => if tokens.len() < 6 {
                                            Err(ParseErrorModel::MalformedLine(value))
                                        } else {
                                            Ok(
                                                SdpPropModel::Origin {
                                                    username: tokens[0],
                                                    session_id: tokens[1],
                                                    session_version,
                                                    net_type,
                                                    address_type,
                                                    address: tokens[5],
                                                },
                                            )
                                        },
                                    }
                                },
                            }
                        },
                    }
                }
            } else if key == 's' {
                Ok(SdpPropModel::SessionName(value))
            } else if key == 'i' {
                Ok(SdpPropModel::SessionInformation(value))
            } else if key == 'u' {
                Ok(SdpPropModel::Uri(value))
            } else if key == 'e' {
                Ok(SdpPropModel::Email(value))
            } else if key == 'p' {
                Ok(SdpPropModel::Phone(value))
            } else if key == 'c' {
                match spec_parse_connection(value) {
                    Err(e) => Err(e),
                    Ok(c) => Ok(
                        SdpPropModel::Connection {
                            net_type: c.net_type,
                            address_type: c.address_type,
                            address: c.address,
                            ttl: c.ttl,
                            num_addresses: c.num_addresses,
                            suffix: c.suffix,
                        },
                    ),
                }
            } else if key == 'b' {
                match spec_parse_bandwidth(value) {
                    Err(e) => Err(e),
                    Ok((bw_type, bandwidth)) => Ok(SdpPropModel::Bandwidth { bw_type, bandwidth }),
                }
            } else if key == 't' {
                match spec_parse_usize(tokens[0]) {
                    Err(e) => Err(e),
                    Ok(start) => if tokens.len() < 2 {
                        Err(ParseErrorModel::MalformedLine(value))
                    } else {
                        match spec_parse_usize(tokens[1]) {
                            Err(e) => Err(e),
                            Ok(stop) => Ok(SdpPropModel::Timing { start, stop }),
                        }
                    },
                }
            } else if key == 'r' {
                if tokens.len() < 2 {
                    Err(ParseErrorModel::MalformedLine(value))
                } else {
                    Ok(
                        SdpPropModel::RepeatTimes {
                            interval: tokens[0],
                            active_duration: tokens[1],
                            start_offsets: tokens.skip(2),
                        },
                    )
                }
            } else if key == 'z' {
                match spec_parse_timezone(tokens, value) {
                    Err(e) => Err(e),
                    Ok(adjs) => Ok(SdpPropModel::TimeZone(adjs)),
                }
            } else if key == 'k' {
                match spec_parse_encryption(value) {
                    Err(e) => Err(e),
                    Ok(m) => Ok(SdpPropModel::EncryptionKeys(m)),
                }
            } else if key == 'a' {
                let (akey, avalue) = spec_parse_attribute(value);
                Ok(SdpPropModel::Attribute { key: akey, value: avalue })
            } else if key == 'm' {
                spec_parse_media(value)
            } else {
                Err(ParseErrorModel::UnknownKey(key, value))
            }
        },
    }
}

/// A line that opens a media record.
pub open spec fn is_media_line(l: Seq<char>) -> bool {
    l.len() > 0 && l[0] == 'm'
}

/// Whether some line of the sequence opens a media record.
pub open spec fn has_media_line(lines: Seq<Seq<char>>) -> bool {
    exists|i: int| 0 <= i < lines.len() && is_media_line(lines[i])
}

/// The empty lines removed.
pub open spec fn drop_empty(lines: Seq<Seq<char>>) -> Seq<Seq<char>>
    decreases lines.len(),
{
    if lines.len() == 0 {
        Seq::empty()
    } else {
        let p = drop_empty(lines.drop_last());
        if lines.last().len() == 0 {
            p
        } else {
            p.push(lines.last())
        }
    }
}

/// Lines grouped into logical records: every line from a media line up to
/// the next media line or the end of input is merged into one record,
/// joined with bare line feeds; lines before the first media line stand
/// alone.
pub open spec fn spec_group(lines: Seq<Seq<char>>) -> Seq<Seq<char>>
    decreases lines.len(),
{
    if lines.len() == 0 {
        Seq::empty()
    } else {
        let init = lines.drop_last();
        let prev = spec_group(init);
        let l = lines.last();
        if is_media_line(l) || !has_media_line(init) || prev.len() == 0 {
            prev.push(l)
        } else {
            prev.update(prev.len() - 1, prev.last() + seq!['\n'] + l)
        }
    }
}

/// The grouped records parsed in order; the first failure aborts the
/// whole parse.
pub open spec fn spec_parse_records(recs: Seq<Seq<char>>) -> Result<
    Seq<SdpPropModel>,
    ParseErrorModel,
>
    decreases recs.len(),
{
    if recs.len() == 0 {
        Ok(Seq::empty())
    } else {
        match spec_parse_record(recs[0]) {
            Err(e) => Err(e),
            Ok(p) => match spec_parse_records(recs.drop_first()) {
                Err(e) => Err(e),
                Ok(ps) => Ok(seq![p] + ps),
            },
        }
    }
}

/// A whole document: line endings normalized, lines split and emptied of
/// blanks, grouped into logical records, and parsed in order.
pub open spec fn spec_parse_doc(t: Seq<char>) -> Result<SdpModel, ParseErrorModel> {
    match spec_parse_records(
        spec_group(drop_empty(split_char(normalize_endings(t), '\n'))),
    ) {
        Err(e) => Err(e),
        Ok(props) => Ok(SdpModel { props }),
    }
}

/// The characters of the chosen line terminator.
pub open spec fn ending_text(e: LineEnding) -> Seq<char> {
    match e {
        LineEnding::LF => seq!['\n'],
        LineEnding::CRLF => seq!['\r', '\n'],
    }
}

/// The canonical token of a network type.
pub open spec fn net_type_text(n: NetworkType) -> Seq<char> {
    match n {
        NetworkType::Internet => "IN"@,
    }
}

/// The canonical token of an address type.
pub open spec fn address_type_text(a: AddressType) -> Seq<char> {
    match a {
        AddressType::IPv4 => "IP4"@,
        AddressType::IPv6 => "IP6"@,
    }
}

/// The canonical token of a bandwidth type.
pub open spec fn bandwidth_type_text(b: BandwidthType) -> Seq<char> {
    match b {
        BandwidthType::ConferenceTotal => "CT"@,
        BandwidthType::ApplicationSpecific => "AS"@,
    }
}

/// The canonical token of a media type.
pub open spec fn media_type_text(m: MediaType) -> Seq<char> {
    match m {
        MediaType::Audio => "audio"@,
        MediaType::Video => "video"@,
        MediaType::Text => "text"@,
        MediaType::Application => "application"@,
    }
}

/// The body of an encryption-key line.
pub open spec fn encryption_text(m: EncryptionKeyModel) -> Seq<char> {
    match m {
        EncryptionKeyModel::Clear(k) => "clear:"@ + k,
        EncryptionKeyModel::Base64(k) => "base64:"@ + k,
        EncryptionKeyModel::Uri(k) => "uri:"@ + k,
        EncryptionKeyModel::Prompt => "prompt"@,
    }
}

/// The address token of a connection line: the address with its optional
/// `/`-separated TTL and address count appended.
pub open spec fn connection_address_text(c: ConnectionModel) -> Seq<char> {
    let with_ttl = match c.ttl {
        Some(ttl) => c.address + seq!['/'] + dec_str(ttl as nat),
        None => c.address,
    };
    match c.num_addresses {
        Some(n) => with_ttl + seq!['/'] + dec_str(n as nat),
        None => with_ttl,
    }
}

/// A connection line assembled from its tokens: the `c=` prefix, the two
/// type tokens, a pre-formatted address token, and the optional suffix.
pub open spec fn connection_parts_text(
    net_type: NetworkType,
    address_type: AddressType,
    suffix: Option<Seq<char>>,
    address: Seq<char>,
) -> Seq<char> {
    let base = "c="@ + net_type_text(net_type) + seq![' '] + address_type_text(address_type)
        + seq![' '] + address;
    match suffix {
        Some(sfx) => base + seq![' '] + sfx,
        None => base,
    }
}

/// A whole connection line, with the optional suffix after the address.
pub open spec fn connection_line_text(c: ConnectionModel) -> Seq<char> {
    connection_parts_text(c.net_type, c.address_type, c.suffix, connection_address_text(c))
}

/// The body of an attribute line: the bare key for a flag, or the key and
/// verbatim value joined with `:`.
pub open spec fn attribute_text(key: Seq<char>, value: Option<Seq<char>>) -> Seq<char> {
    match value {
        Some(v) => "a="@ + key + seq![':'] + v,
        None => "a="@ + key,
    }
}

/// The line of a record nested under a media line.
pub open spec fn spec_ser_media_prop(p: MediaPropModel) -> Seq<char> {
    match p {
        MediaPropModel::Title(t) => "i="@ + t,
        MediaPropModel::Connection {
            net_type,
            address_type,
            address,
            ttl,
            num_addresses,
            suffix,
        } => connection_line_text(
            ConnectionModel { net_type, address_type, address, ttl, num_addresses, suffix },
        ),
        MediaPropModel::Bandwidth { bw_type, bandwidth } => "b="@ + bandwidth_type_text(bw_type)
            + seq![':'] + dec_str(bandwidth as nat),
        MediaPropModel::EncryptionKeys(m) => "k="@ + encryption_text(m),
        MediaPropModel::Attribute { key, value } => attribute_text(key, value),
    }
}

/// One time-zone adjustment as its two tokens.
pub open spec fn timezone_pair_text(a: TimeZoneAdjustmentModel) -> Seq<char> {
    dec_str(a.time as nat) + seq![' '] + a.offset
}

/// The header line of a media record: type, `/`-joined ports, protocol
/// and format, space-separated.
pub open spec fn media_header_text(
    media_type: MediaType,
    ports: Seq<u16>,
    protocol: Seq<char>,
    format: Seq<char>,
) -> Seq<char> {
    "m="@ + media_type_text(media_type) + seq![' '] + join_char(
        ports.map_values(|p: u16| dec_str(p as nat)),
        '/',
    ) + seq![' '] + protocol + seq![' '] + format
}

/// The text of one top-level record, under the chosen line ending: a
/// single line, or for a media record its header followed by its nested
/// records each on a line of its own.
pub open spec fn spec_ser_record(r: SdpPropModel, e: LineEnding) -> Seq<char> {
    match r {
        SdpPropModel::Version(v) => "v="@ + dec_str(v as nat),
        SdpPropModel::Origin {
            username,
            session_id,
            session_version,
            net_type,
            address_type,
            address,
        } => "o="@ + username + seq![' '] + session_id + seq![' '] + dec_str(
            session_version as nat,
        ) + seq![' '] + net_type_text(net_type) + seq![' '] + address_type_text(address_type)
            + seq![' '] + address,
        SdpPropModel::SessionName(s) => "s="@ + s,
        SdpPropModel::SessionInformation(s) => "i="@ + s,
        SdpPropModel::Uri(s) => "u="@ + s,
        SdpPropModel::Email(s) => "e="@ + s,
        SdpPropModel::Phone(s) => "p="@ + s,
        SdpPropModel::Connection {
            net_type,
            address_type,
            address,
            ttl,
            num_addresses,
            suffix,
        } => connection_line_text(
            ConnectionModel { net_type, address_type, address, ttl, num_addresses, suffix },
        ),
        SdpPropModel::Bandwidth { bw_type, bandwidth } => "b="@ + bandwidth_type_text(bw_type)
            + seq![':'] + dec_str(bandwidth as nat),
        SdpPropModel::Timing { start, stop } => "t="@ + dec_str(start as nat) + seq![' ']
            + dec_str(stop as nat),
        SdpPropModel::RepeatTimes { interval, active_duration, start_offsets } => "r="@ + interval
            + seq![' '] + active_duration + seq![' '] + join_char(start_offsets, ' '),
        SdpPropModel::TimeZone(adjs) => "z="@ + join_char(
            adjs.map_values(|a: TimeZoneAdjustmentModel| timezone_pair_text(a)),
            ' ',
        ),
        SdpPropModel::EncryptionKeys(m) => "k="@ + encryption_text(m),
        SdpPropModel::Attribute { key, value } => attribute_text(key, value),
        SdpPropModel::Media { media_type, ports, protocol, format, props } => {
            let header = media_header_text(media_type, ports, protocol, format);
            if props.len() == 0 {
                header
            } else {
                header + ending_text(e) + join_seq(
                    props.map_values(|p: MediaPropModel| spec_ser_media_prop(p)),
                    ending_text(e),
                )
            }
        },
    }
}

/// The text of a whole document: the records joined with the chosen
/// terminator and one trailing terminator at the end.
pub open spec fn spec_ser_doc(d: SdpModel, e: LineEnding) -> Seq<char> {
    join_seq(d.props.map_values(|r: SdpPropModel| spec_ser_record(r, e)), ending_text(e))
        + ending_text(e)
}

} // verus!
