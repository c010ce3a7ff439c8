//! The SDP document types and the verified parse and serialize entry
//! points. Every public operation is specified against the grammar
//! functions in [`crate::grammar`] over the models in [`crate::model`].

use vstd::prelude::*;
use vstd::string::StringExecFns;
use crate::chars::append_chars;
use crate::chars::append_str;
use crate::chars::chars_eq_str;
use crate::chars::chars_of_str;
use crate::chars::string_from_chars;
use crate::digits::dec_str;
use crate::digits::fmt_u16;
use crate::digits::fmt_u8;
use crate::digits::fmt_usize;
use crate::digits::parse_u16;
use crate::digits::parse_u8;
use crate::digits::parse_usize;
use crate::grammar::ConnectionModel;
use crate::grammar::address_type_text;
use crate::grammar::bandwidth_type_text;
use crate::grammar::connection_address_text;
use crate::grammar::connection_line_text;
use crate::grammar::connection_parts_text;
use crate::grammar::drop_empty;
use crate::grammar::encryption_text;
use crate::grammar::ending_text;
use crate::grammar::has_media_line;
use crate::grammar::is_media_line;
use crate::grammar::media_header_text;
use crate::grammar::media_type_text;
use crate::grammar::net_type_text;
use crate::grammar::prepend_ok;
use crate::grammar::spec_content_from_line;
use crate::grammar::spec_group;
use crate::grammar::spec_parse_address_parts;
use crate::grammar::spec_parse_address_type;
use crate::grammar::spec_parse_attribute;
use crate::grammar::spec_parse_bandwidth;
use crate::grammar::spec_parse_bandwidth_type;
use crate::grammar::spec_parse_connection;
use crate::grammar::spec_parse_doc;
use crate::grammar::spec_parse_encryption;
use crate::grammar::spec_parse_media;
use crate::grammar::spec_parse_media_prop;
use crate::grammar::spec_parse_media_props;
use crate::grammar::spec_parse_media_type;
use crate::grammar::spec_parse_net_type;
use crate::grammar::spec_parse_ports;
use crate::grammar::spec_parse_record;
use crate::grammar::spec_parse_records;
use crate::grammar::spec_parse_timezone;
use crate::grammar::spec_parse_u16;
use crate::grammar::spec_parse_u8;
use crate::grammar::spec_parse_usize;
use crate::grammar::spec_ser_doc;
use crate::grammar::spec_ser_media_prop;
use crate::grammar::spec_ser_record;
use crate::grammar::timezone_pair_text;
use crate::model::EncryptionKeyModel;
use crate::model::MediaPropModel;
use crate::model::ParseErrorModel;
use crate::model::SdpModel;
use crate::model::SdpPropModel;
use crate::model::TimeZoneAdjustmentModel;
use crate::text::find_from;
use crate::text::join_char;
use crate::text::join_seq;
use crate::text::join_tail;
use crate::text::lemma_find_char_absent;
use crate::text::lemma_find_char_at;
use crate::text::lemma_join_seq_push;
use crate::text::normalize_vec;
use crate::text::split_vec;
use crate::text::subvec;
use crate::text::vviews;

verus! {

/// The network type token of origin and connection lines.
#[derive(Debug, PartialEq, Eq)]
pub enum NetworkType {
    Internet,
}

/// The address type token of origin and connection lines.
#[derive(Debug, PartialEq, Eq)]
pub enum AddressType {
    IPv4,
    IPv6,
}

/// The bandwidth type token of bandwidth lines.
#[derive(Debug, PartialEq, Eq)]
pub enum BandwidthType {
    ConferenceTotal,
    ApplicationSpecific,
}

/// The media type token opening a media line.
#[derive(Debug, PartialEq, Eq)]
pub enum MediaType {
    Audio,
    Video,
    Text,
    Application,
}

/// The method of an encryption-key line.
#[derive(Debug, PartialEq, Eq)]
pub enum EncryptionKeyMethod {
    Clear(String),
    Base64(String),
    Uri(String),
    Prompt,
}

/// One time-zone adjustment of a time-zone line: pairs are taken two
/// tokens at a time.
#[derive(Debug, PartialEq, Eq)]
pub struct TimeZoneAdjustment {
    pub time: usize,
    pub offset: String,
}

/// A record nested under a media line, scoped to that media section.
#[derive(Debug, PartialEq, Eq)]
pub enum MediaProp {
    Title(String),
    Connection {
        net_type: NetworkType,
        address_type: AddressType,
        address: String,
        ttl: Option<usize>,
        num_addresses: Option<usize>,
        /// Optional suffix to the address data, kept verbatim.
        suffix: Option<String>,
    },
    Bandwidth { bw_type: BandwidthType, bandwidth: usize },
    EncryptionKeys(EncryptionKeyMethod),
    Attribute { key: String, value: Option<String> },
}

/// A top-level record: one SDP line, or a media line together with the
/// records nested under it.
#[derive(Debug, PartialEq, Eq)]
pub enum SdpProp {
    Version(u8),
    Origin {
        username: String,
        session_id: String,
        session_version: usize,
        net_type: NetworkType,
        address_type: AddressType,
        address: String,
    },
    SessionName(String),
    SessionInformation(String),
    Uri(String),
    Email(String),
    Phone(String),
    Connection {
        net_type: NetworkType,
        address_type: AddressType,
        address: String,
        ttl: Option<usize>,
        num_addresses: Option<usize>,
        /// Optional suffix to the address data, kept verbatim.
        suffix: Option<String>,
    },
    Bandwidth { bw_type: BandwidthType, bandwidth: usize },
    Timing { start: usize, stop: usize },
    /// Interval and duration may carry unit suffixes, so they stay strings.
    RepeatTimes {
        interval: String,
        active_duration: String,
        start_offsets: Vec<String>,
    },
    TimeZone(Vec<TimeZoneAdjustment>),
    EncryptionKeys(EncryptionKeyMethod),
    Attribute { key: String, value: Option<String> },
    Media {
        media_type: MediaType,
        ports: Vec<u16>,
        protocol: String,
        format: String,
        props: Vec<MediaProp>,
    },
}

/// A whole SDP document: its top-level records in wire order.
#[derive(Debug, PartialEq, Eq)]
pub struct SDP {
    pub props: Vec<SdpProp>,
}

/// Why a parse failed.
#[derive(Debug, PartialEq, Eq)]
pub enum ParseError {
    /// A top-level key character outside the supported set, with its value.
    UnknownKey(char, String),
    /// A token that matches no recognized form, kept for diagnostics.
    UnknownToken(String),
    /// A line with no `key=value` split, or too few tokens for its kind.
    MalformedLine(String),
    /// A field that requires a non-negative integer did not hold one.
    NumericConversionFailed(String),
}

/// The line-ending convention a serialization should use.
#[derive(Debug, PartialEq, Eq, Clone, Copy)]
pub enum LineEnding {
    LF,
    CRLF,
}

/// A decimal token parsed as `usize`, or the numeric-conversion error
/// carrying the token.
fn parse_usize_chars(t: &Vec<char>) -> (r: Result<usize, ParseError>)
    ensures
        match r {
            Ok(x) => spec_parse_usize(t@) == Ok::<usize, ParseErrorModel>(x),
            Err(e) => spec_parse_usize(t@) == Err::<usize, ParseErrorModel>(e@),
        },
{
    match parse_usize(t) {
        Some(x) => Ok(x),
        None => Err(ParseError::NumericConversionFailed(string_from_chars(t))),
    }
}

/// A decimal token parsed as `u16`, or the numeric-conversion error
/// carrying the token.
fn parse_u16_chars(t: &Vec<char>) -> (r: Result<u16, ParseError>)
    ensures
        match r {
            Ok(x) => spec_parse_u16(t@) == Ok::<u16, ParseErrorModel>(x),
            Err(e) => spec_parse_u16(t@) == Err::<u16, ParseErrorModel>(e@),
        },
{
    match parse_u16(t) {
        Some(x) => Ok(x),
        None => Err(ParseError::NumericConversionFailed(string_from_chars(t))),
    }
}

/// A decimal token parsed as `u8`, or the numeric-conversion error
/// carrying the token.
fn parse_u8_chars(t: &Vec<char>) -> (r: Result<u8, ParseError>)
    ensures
        match r {
            Ok(x) => spec_parse_u8(t@) == Ok::<u8, ParseErrorModel>(x),
            Err(e) => spec_parse_u8(t@) == Err::<u8, ParseErrorModel>(e@),
        },
{
    match parse_u8(t) {
        Some(x) => Ok(x),
        None => Err(ParseError::NumericConversionFailed(string_from_chars(t))),
    }
}

/// A network type token.
fn parse_net_chars(t: &Vec<char>) -> (r: Result<NetworkType, ParseError>)
    ensures
        match r {
            Ok(n) => spec_parse_net_type(t@) == Ok::<NetworkType, ParseErrorModel>(n),
            Err(e) => spec_parse_net_type(t@) == Err::<NetworkType, ParseErrorModel>(e@),
        },
{
    if chars_eq_str(t, "IN") {
        Ok(NetworkType::Internet)
    } else {
        Err(ParseError::UnknownToken(string_from_chars(t)))
    }
}

/// An address type token.
fn parse_address_type_chars(t: &Vec<char>) -> (r: Result<AddressType, ParseError>)
    ensures
        match r {
            Ok(a) => spec_parse_address_type(t@) == Ok::<AddressType, ParseErrorModel>(a),
            Err(e) => spec_parse_address_type(t@) == Err::<AddressType, ParseErrorModel>(e@),
        },
{
    if chars_eq_str(t, "IP4") {
        Ok(AddressType::IPv4)
    } else if chars_eq_str(t, "IP6") {
        Ok(AddressType::IPv6)
    } else {
        Err(ParseError::UnknownToken(string_from_chars(t)))
    }
}

/// A bandwidth type token.
fn parse_bandwidth_type_chars(t: &Vec<char>) -> (r: Result<BandwidthType, ParseError>)
    ensures
        match r {
            Ok(b) => spec_parse_bandwidth_type(t@) == Ok::<BandwidthType, ParseErrorModel>(b),
            Err(e) => spec_parse_bandwidth_type(t@) == Err::<BandwidthType, ParseErrorModel>(e@),
        },
{
    if chars_eq_str(t, "CT") {
        Ok(BandwidthType::ConferenceTotal)
    } else if chars_eq_str(t, "AS") {
        Ok(BandwidthType::ApplicationSpecific)
    } else {
        Err(ParseError::UnknownToken(string_from_chars(t)))
    }
}

/// A media type token.
fn parse_media_type_chars(t: &Vec<char>) -> (r: Result<MediaType, ParseError>)
    ensures
        match r {
            Ok(m) => spec_parse_media_type(t@) == Ok::<MediaType, ParseErrorModel>(m),
            Err(e) => spec_parse_media_type(t@) == Err::<MediaType, ParseErrorModel>(e@),
        },
{
    if chars_eq_str(t, "audio") {
        Ok(MediaType::Audio)
    } else if chars_eq_str(t, "video") {
        Ok(MediaType::Video)
    } else if chars_eq_str(t, "text") {
        Ok(MediaType::Text)
    } else if chars_eq_str(t, "application") {
        Ok(MediaType::Application)
    } else {
        Err(ParseError::UnknownToken(string_from_chars(t)))
    }
}

/// A line split at its first `=` into key character and verbatim value,
/// on the character-vector carrier.
fn content_from_chars(line: &Vec<char>) -> (r: Result<(char, Vec<char>), ParseError>)
    ensures
        match r {
            Ok((k, v)) => spec_content_from_line(line@) == Ok::<(char, Seq<char>), ParseErrorModel>(
                (k, v@),
            ),
            Err(e) => spec_content_from_line(line@) == Err::<(char, Seq<char>), ParseErrorModel>(
                e@,
            ),
        },
{
    match find_from(line, '=', 0) {
        None => {
            proof {
                lemma_find_char_absent(line@, '=');
            }
            Err(ParseError::UnknownToken(string_from_chars(line)))
        },
        Some(i) => {
            proof {
                lemma_find_char_at(line@, '=', i as int);
            }
            if i == 0 {
                Err(ParseError::MalformedLine(string_from_chars(line)))
            } else {
                let n = line.len();
                let value = subvec(line, i + 1, n);
                proof {
                    assert(value@ =~= line@.skip(i + 1));
                }
                Ok((line[0], value))
            }
        },
    }
}

/// The model of an optional character vector.
pub open spec fn opt_chars_view(o: Option<Vec<char>>) -> Option<Seq<char>> {
    match o {
        Some(v) => Some(v@),
        None => None,
    }
}

/// Address parts on the character-vector carrier.
fn parse_address_parts_chars(parts: &Vec<Vec<char>>, orig: &Vec<char>) -> (r: Result<
    (Vec<char>, Option<usize>, Option<usize>),
    ParseError,
>)
    ensures
        match r {
            Ok((a, t, n)) => spec_parse_address_parts(vviews(parts@), orig@) == Ok::<
                (Seq<char>, Option<usize>, Option<usize>),
                ParseErrorModel,
            >((a@, t, n)),
            Err(e) => spec_parse_address_parts(vviews(parts@), orig@) == Err::<
                (Seq<char>, Option<usize>, Option<usize>),
                ParseErrorModel,
            >(e@),
        },
{
    proof {
        if parts@.len() >= 1 {
            assert(vviews(parts@)[0] == parts@[0]@);
            assert(parts@[0]@.subrange(0, parts@[0]@.len() as int) =~= parts@[0]@);
        }
        if parts@.len() >= 2 {
            assert(vviews(parts@)[1] == parts@[1]@);
        }
        if parts@.len() >= 3 {
            assert(vviews(parts@)[2] == parts@[2]@);
        }
    }
    if parts.len() == 1 {
        let n0 = parts[0].len();
        Ok((subvec(&parts[0], 0, n0), None, None))
    } else if parts.len() == 2 {
        match parse_usize_chars(&parts[1]) {
            Ok(ttl) => {
                let n0 = parts[0].len();
                Ok((subvec(&parts[0], 0, n0), Some(ttl), None))
            },
            Err(e) => Err(e),
        }
    } else if parts.len() == 3 {
        match parse_usize_chars(&parts[1]) {
            Ok(ttl) => match parse_usize_chars(&parts[2]) {
                Ok(count) => {
                    let n0 = parts[0].len();
                    Ok((subvec(&parts[0], 0, n0), Some(ttl), Some(count)))
                },
                Err(e) => Err(e),
            },
            Err(e) => Err(e),
        }
    } else {
        Err(ParseError::MalformedLine(string_from_chars(orig)))
    }
}

/// An address token already split on `/`, read as the address and its
/// optional TTL and address count; any other number of parts is
/// malformed.
pub fn get_options_from_address_split<'a>(address_split: Vec<&'a str>) -> (r: Result<
    (&'a str, Option<usize>, Option<usize>),
    ParseError,
>)
    ensures
        match r {
            Ok((a, t, n)) => spec_parse_address_parts(
                address_split@.map_values(|t: &str| t@),
                join_char(address_split@.map_values(|t: &str| t@), '/'),
            ) == Ok::<(Seq<char>, Option<usize>, Option<usize>), ParseErrorModel>((a@, t, n)),
            Err(e) => spec_parse_address_parts(
                address_split@.map_values(|t: &str| t@),
                join_char(address_split@.map_values(|t: &str| t@), '/'),
            ) == Err::<(Seq<char>, Option<usize>, Option<usize>), ParseErrorModel>(e@),
        },
{
    let ghost views = address_split@.map_values(|t: &str| t@);
    let mut parts: Vec<Vec<char>> = Vec::new();
    let mut i: usize = 0;
    while i < address_split.len()
        invariant
            i <= address_split@.len(),
            views == address_split@.map_values(|t: &str| t@),
            vviews(parts@) =~= views.take(i as int),
        decreases address_split@.len() - i,
    {
        let ghost old_parts = parts@;
        parts.push(chars_of_str(address_split[i]));
        proof {
            assert(vviews(parts@) =~= vviews(old_parts).push(address_split@[i as int]@));
            assert(views.take(i as int).push(views[i as int]) =~= views.take(i + 1));
        }
        i = i + 1;
    }
    proof {
        assert(views.take(views.len() as int) =~= views);
    }
    let orig = join_tail(&parts, 0, '/');
    proof {
        assert(vviews(parts@).skip(0) =~= vviews(parts@));
    }
    match parse_address_parts_chars(&parts, &orig) {
        Ok((_, ttl, count)) => {
            if address_split.len() >= 1 {
                Ok((address_split[0], ttl, count))
            } else {
                Err(ParseError::MalformedLine(string_from_chars(&orig)))
            }
        },
        Err(e) => Err(e),
    }
}

/// The value of a connection line on the character-vector carrier.
fn parse_connection_chars(value: &Vec<char>) -> (r: Result<
    (NetworkType, AddressType, Vec<char>, Option<usize>, Option<usize>, Option<Vec<char>>),
    ParseError,
>)
    ensures
        match r {
            Ok(t) => spec_parse_connection(value@) == Ok::<ConnectionModel, ParseErrorModel>(
                ConnectionModel {
                    net_type: t.0,
                    address_type: t.1,
                    address: t.2@,
                    ttl: t.3,
                    num_addresses: t.4,
                    suffix: opt_chars_view(t.5),
                },
            ),
            Err(e) => spec_parse_connection(value@) == Err::<ConnectionModel, ParseErrorModel>(e@),
        },
{
    let tokens = split_vec(value, ' ');
    if tokens.len() < 3 {
        return Err(ParseError::MalformedLine(string_from_chars(value)));
    }
    let asplit = split_vec(&tokens[2], '/');
    proof {
        assert(vviews(tokens@)[2] == tokens@[2]@);
    }
    let (address, ttl, num_addresses) = match parse_address_parts_chars(&asplit, &tokens[2]) {
        Ok(t) => t,
        Err(e) => {
            return Err(e);
        },
    };
    let net_type = match parse_net_chars(&tokens[0]) {
        Ok(n) => n,
        Err(e) => {
            proof {
                assert(vviews(tokens@)[0] == tokens@[0]@);
            }
            return Err(e);
        },
    };
    let address_type = match parse_address_type_chars(&tokens[1]) {
        Ok(a) => a,
        Err(e) => {
            proof {
                assert(vviews(tokens@)[1] == tokens@[1]@);
            }
            return Err(e);
        },
    };
    let suffix = if tokens.len() > 3 {
        Some(join_tail(&tokens, 3, ' '))
    } else {
        None
    };
    proof {
        assert(vviews(tokens@)[0] == tokens@[0]@);
        assert(vviews(tokens@)[1] == tokens@[1]@);
    }
    Ok((net_type, address_type, address, ttl, num_addresses, suffix))
}

/// The value of a bandwidth line on the character-vector carrier.
fn parse_bandwidth_chars(value: &Vec<char>) -> (r: Result<(BandwidthType, usize), ParseError>)
    ensures
        match r {
            Ok((b, w)) => spec_parse_bandwidth(value@) == Ok::<
                (BandwidthType, usize),
                ParseErrorModel,
            >((b, w)),
            Err(e) => spec_parse_bandwidth(value@) == Err::<
                (BandwidthType, usize),
                ParseErrorModel,
            >(e@),
        },
{
    let parts = split_vec(value, ':');
    proof {
        assert(vviews(parts@)[0] == parts@[0]@);
        if parts@.len() >= 2 {
            assert(vviews(parts@)[1] == parts@[1]@);
        }
    }
    let bw_type = match parse_bandwidth_type_chars(&parts[0]) {
        Ok(b) => b,
        Err(e) => {
            return Err(e);
        },
    };
    if parts.len() < 2 {
        return Err(ParseError::MalformedLine(string_from_chars(value)));
    }
    match parse_usize_chars(&parts[1]) {
        Ok(bandwidth) => Ok((bw_type, bandwidth)),
        Err(e) => Err(e),
    }
}

/// The key and optional verbatim value of an attribute line.
fn parse_attribute_chars(value: &Vec<char>) -> (r: (String, Option<String>))
    ensures
        spec_parse_attribute(value@) == (r.0@, opt_view(r.1)),
{
    match find_from(value, ':', 0) {
        None => {
            proof {
                lemma_find_char_absent(value@, ':');
            }
            (string_from_chars(value), None)
        },
        Some(i) => {
            proof {
                lemma_find_char_at(value@, ':', i as int);
            }
            let n = value.len();
            let key = subvec(value, 0, i);
            let val = subvec(value, i + 1, n);
            proof {
                assert(key@ =~= value@.take(i as int));
                assert(val@ =~= value@.skip(i + 1));
            }
            (string_from_chars(&key), Some(string_from_chars(&val)))
        },
    }
}

/// The value of an encryption-key line on the character-vector carrier.
fn parse_encryption_chars(value: &Vec<char>) -> (r: Result<EncryptionKeyMethod, ParseError>)
    ensures
        match r {
            Ok(m) => spec_parse_encryption(value@) == Ok::<
                EncryptionKeyModel,
                ParseErrorModel,
            >(m@),
            Err(e) => spec_parse_encryption(value@) == Err::<
                EncryptionKeyModel,
                ParseErrorModel,
            >(e@),
        },
{
    if chars_eq_str(value, "prompt") {
        return Ok(EncryptionKeyMethod::Prompt);
    }
    let n = value.len();
    let (mech, payload) = match find_from(value, ':', 0) {
        None => {
            proof {
                lemma_find_char_absent(value@, ':');
            }
            (subvec(value, 0, n), Vec::<char>::new())
        },
        Some(i) => {
            proof {
                lemma_find_char_at(value@, ':', i as int);
            }
            (subvec(value, 0, i), subvec(value, i + 1, n))
        },
    };
    proof {
        assert(value@.subrange(0, value@.len() as int) =~= value@);
    }
    let key = string_from_chars(&payload);
    if chars_eq_str(&mech, "clear") {
        Ok(EncryptionKeyMethod::Clear(key))
    } else if chars_eq_str(&mech, "base64") {
        Ok(EncryptionKeyMethod::Base64(key))
    } else if chars_eq_str(&mech, "uri") {
        Ok(EncryptionKeyMethod::Uri(key))
    } else {
        Err(ParseError::UnknownToken(string_from_chars(value)))
    }
}

/// Time-zone tokens taken two at a time on the character-vector carrier.
fn parse_timezone_chars(tokens: &Vec<Vec<char>>, value: &Vec<char>) -> (r: Result<
    Vec<TimeZoneAdjustment>,
    ParseError,
>)
    ensures
        match r {
            Ok(adjs) => spec_parse_timezone(vviews(tokens@), value@) == Ok::<
                Seq<TimeZoneAdjustmentModel>,
                ParseErrorModel,
            >(adjs@.map_values(|a: TimeZoneAdjustment| a@)),
            Err(e) => spec_parse_timezone(vviews(tokens@), value@) == Err::<
                Seq<TimeZoneAdjustmentModel>,
                ParseErrorModel,
            >(e@),
        },
{
    let ghost full = vviews(tokens@);
    let mut adjs: Vec<TimeZoneAdjustment> = Vec::new();
    let mut i: usize = 0;
    proof {
        assert(full.skip(0) =~= full);
        assert(Seq::<TimeZoneAdjustmentModel>::empty() + spec_parse_timezone(full, value@)->Ok_0
            =~= spec_parse_timezone(full, value@)->Ok_0);
    }
    while i < tokens.len()
        invariant
            i <= tokens@.len(),
            full == vviews(tokens@),
            spec_parse_timezone(full, value@) == prepend_ok(
                adjs@.map_values(|a: TimeZoneAdjustment| a@),
                spec_parse_timezone(full.skip(i as int), value@),
            ),
        decreases tokens@.len() - i,
    {
        let ghost rest_toks = full.skip(i as int);
        proof {
            assert(rest_toks[0] == full[i as int]);
            assert(full[i as int] == tokens@[i as int]@);
        }
        let time = match parse_usize_chars(&tokens[i]) {
            Ok(t) => t,
            Err(e) => {
                return Err(e);
            },
        };
        if i + 1 >= tokens.len() {
            return Err(ParseError::MalformedLine(string_from_chars(value)));
        }
        proof {
            assert(rest_toks[1] == full[i + 1]);
            assert(full[i + 1] == tokens@[i + 1]@);
        }
        let offset = string_from_chars(&tokens[i + 1]);
        let ghost old_models = adjs@.map_values(|a: TimeZoneAdjustment| a@);
        adjs.push(TimeZoneAdjustment { time, offset });
        proof {
            let pair = TimeZoneAdjustmentModel { time, offset: tokens@[i + 1]@ };
            let models = adjs@.map_values(|a: TimeZoneAdjustment| a@);
            assert(models =~= old_models.push(pair));
            assert(rest_toks.skip(2) =~= full.skip(i + 2));
            match spec_parse_timezone(full.skip(i + 2), value@) {
                Err(_) => {},
                Ok(tail) => {
                    assert(old_models + (seq![pair] + tail) =~= models + tail);
                },
            }
        }
        i = i + 2;
    }
    proof {
        assert(full.skip(tokens@.len() as int) =~= Seq::<Seq<char>>::empty());
        assert(adjs@.map_values(|a: TimeZoneAdjustment| a@) + Seq::<
            TimeZoneAdjustmentModel,
        >::empty() =~= adjs@.map_values(|a: TimeZoneAdjustment| a@));
    }
    Ok(adjs)
}

/// One nested media record on the character-vector carrier.
fn parse_media_prop_chars(line: &Vec<char>) -> (r: Result<MediaProp, ParseError>)
    ensures
        match r {
            Ok(p) => spec_parse_media_prop(line@) == Ok::<MediaPropModel, ParseErrorModel>(p@),
            Err(e) => spec_parse_media_prop(line@) == Err::<MediaPropModel, ParseErrorModel>(e@),
        },
{
    let (key, value) = match content_from_chars(line) {
        Ok(kv) => kv,
        Err(e) => {
            return Err(e);
        },
    };
    if key == 'i' {
        Ok(MediaProp::Title(string_from_chars(&value)))
    } else if key == 'c' {
        match parse_connection_chars(&value) {
            Ok((net_type, address_type, address, ttl, num_addresses, suffix)) => Ok(
                MediaProp::Connection {
                    net_type,
                    address_type,
                    address: string_from_chars(&address),
                    ttl,
                    num_addresses,
                    suffix: match suffix {
                        Some(s) => Some(string_from_chars(&s)),
                        None => None,
                    },
                },
            ),
            Err(e) => Err(e),
        }
    } else if key == 'b' {
        match parse_bandwidth_chars(&value) {
            Ok((bw_type, bandwidth)) => Ok(MediaProp::Bandwidth { bw_type, bandwidth }),
            Err(e) => Err(e),
        }
    } else if key == 'k' {
        match parse_encryption_chars(&value) {
            Ok(m) => Ok(MediaProp::EncryptionKeys(m)),
            Err(e) => Err(e),
        }
    } else if key == 'a' {
        let (akey, avalue) = parse_attribute_chars(&value);
        Ok(MediaProp::Attribute { key: akey, value: avalue })
    } else {
        Err(ParseError::UnknownToken(string_from_chars(line)))
    }
}

/// The nested media lines parsed in order, starting at `from`.
fn parse_media_props_chars(lines: &Vec<Vec<char>>, from: usize) -> (r: Result<
    Vec<MediaProp>,
    ParseError,
>)
    requires
        from <= lines@.len(),
    ensures
        match r {
            Ok(ps) => spec_parse_media_props(vviews(lines@).skip(from as int)) == Ok::<
                Seq<MediaPropModel>,
                ParseErrorModel,
            >(ps@.map_values(|p: MediaProp| p@)),
            Err(e) => spec_parse_media_props(vviews(lines@).skip(from as int)) == Err::<
                Seq<MediaPropModel>,
                ParseErrorModel,
            >(e@),
        },
{
    let ghost tail = vviews(lines@).skip(from as int);
    let mut props: Vec<MediaProp> = Vec::new();
    let mut i: usize = from;
    proof {
        assert(tail.skip(0) =~= tail);
        assert(Seq::<MediaPropModel>::empty() + spec_parse_media_props(tail)->Ok_0
            =~= spec_parse_media_props(tail)->Ok_0);
    }
    while i < lines.len()
        invariant
            from <= i <= lines@.len(),
            tail == vviews(lines@).skip(from as int),
            spec_parse_media_props(tail) == prepend_ok(
                props@.map_values(|p: MediaProp| p@),
                spec_parse_media_props(vviews(lines@).skip(i as int)),
            ),
        decreases lines@.len() - i,
    {
        let ghost rest = vviews(lines@).skip(i as int);
        proof {
            assert(rest[0] == vviews(lines@)[i as int]);
            assert(vviews(lines@)[i as int] == lines@[i as int]@);
        }
        let p = match parse_media_prop_chars(&lines[i]) {
            Ok(p) => p,
            Err(e) => {
                return Err(e);
            },
        };
        let ghost old_models = props@.map_values(|p: MediaProp| p@);
        let ghost pm = p@;
        props.push(p);
        proof {
            let models = props@.map_values(|p: MediaProp| p@);
            assert(models =~= old_models.push(pm));
            assert(rest.drop_first() =~= vviews(lines@).skip(i + 1));
            match spec_parse_media_props(vviews(lines@).skip(i + 1)) {
                Err(_) => {},
                Ok(t2) => {
                    assert(old_models + (seq![pm] + t2) =~= models + t2);
                },
            }
        }
        i = i + 1;
    }
    proof {
        assert(vviews(lines@).skip(lines@.len() as int) =~= Seq::<Seq<char>>::empty());
        assert(props@.map_values(|p: MediaProp| p@) + Seq::<MediaPropModel>::empty()
            =~= props@.map_values(|p: MediaProp| p@));
    }
    Ok(props)
}

/// The `/`-separated port tokens parsed in order.
fn parse_ports_chars(parts: &Vec<Vec<char>>) -> (r: Result<Vec<u16>, ParseError>)
    ensures
        match r {
            Ok(ps) => spec_parse_ports(vviews(parts@)) == Ok::<Seq<u16>, ParseErrorModel>(ps@),
            Err(e) => spec_parse_ports(vviews(parts@)) == Err::<Seq<u16>, ParseErrorModel>(e@),
        },
{
    let ghost full = vviews(parts@);
    let mut ports: Vec<u16> = Vec::new();
    let mut i: usize = 0;
    proof {
        assert(full.skip(0) =~= full);
        assert(Seq::<u16>::empty() + spec_parse_ports(full)->Ok_0
            =~= spec_parse_ports(full)->Ok_0);
    }
    while i < parts.len()
        invariant
            i <= parts@.len(),
            full == vviews(parts@),
            spec_parse_ports(full) == prepend_ok(
                ports@,
                spec_parse_ports(full.skip(i as int)),
            ),
        decreases parts@.len() - i,
    {
        let ghost rest = full.skip(i as int);
        proof {
            assert(rest[0] == full[i as int]);
            assert(full[i as int] == parts@[i as int]@);
        }
        let p = match parse_u16_chars(&parts[i]) {
            Ok(p) => p,
            Err(e) => {
                return Err(e);
            },
        };
        let ghost old_ports = ports@;
        ports.push(p);
        proof {
            assert(rest.drop_first() =~= full.skip(i + 1));
            match spec_parse_ports(full.skip(i + 1)) {
                Err(_) => {},
                Ok(t2) => {
                    assert(old_ports + (seq![p] + t2) =~= ports@ + t2);
                },
            }
        }
        i = i + 1;
    }
    proof {
        assert(full.skip(parts@.len() as int) =~= Seq::<Seq<char>>::empty());
        assert(ports@ + Seq::<u16>::empty() =~= ports@);
    }
    Ok(ports)
}

/// The value of a media record: header line plus nested lines.
fn parse_media_chars(value: &Vec<char>) -> (r: Result<SdpProp, ParseError>)
    ensures
        match r {
            Ok(p) => spec_parse_media(value@) == Ok::<SdpPropModel, ParseErrorModel>(p@),
            Err(e) => spec_parse_media(value@) == Err::<SdpPropModel, ParseErrorModel>(e@),
        },
{
    let lines = split_vec(value, '\n');
    let tokens = split_vec(&lines[0], ' ');
    proof {
        assert(vviews(lines@)[0] == lines@[0]@);
        assert(vviews(tokens@)[0] == tokens@[0]@);
        if tokens@.len() >= 2 {
            assert(vviews(tokens@)[1] == tokens@[1]@);
        }
        if tokens@.len() >= 3 {
            assert(vviews(tokens@)[2] == tokens@[2]@);
        }
    }
    let media_type = match parse_media_type_chars(&tokens[0]) {
        Ok(m) => m,
        Err(e) => {
            return Err(e);
        },
    };
    if tokens.len() < 2 {
        return Err(ParseError::MalformedLine(string_from_chars(value)));
    }
    let port_parts = split_vec(&tokens[1], '/');
    let ports = match parse_ports_chars(&port_parts) {
        Ok(ps) => ps,
        Err(e) => {
            return Err(e);
        },
    };
    if tokens.len() < 3 {
        return Err(ParseError::MalformedLine(string_from_chars(value)));
    }
    let protocol = string_from_chars(&tokens[2]);
    let format_chars = join_tail(&tokens, 3, ' ');
    let props = match parse_media_props_chars(&lines, 1) {
        Ok(ps) => ps,
        Err(e) => {
            proof {
                assert(vviews(lines@).skip(1) =~= vviews(lines@).drop_first());
            }
            return Err(e);
        },
    };
    proof {
        assert(vviews(lines@).skip(1) =~= vviews(lines@).drop_first());
    }
    Ok(SdpProp::Media {
        media_type,
        ports,
        protocol,
        format: string_from_chars(&format_chars),
        props,
    })
}

/// One top-level logical record on the character-vector carrier.
fn parse_record_chars(rec: &Vec<char>) -> (r: Result<SdpProp, ParseError>)
    ensures
        match r {
            Ok(p) => spec_parse_record(rec@) == Ok::<SdpPropModel, ParseErrorModel>(p@),
            Err(e) => spec_parse_record(rec@) == Err::<SdpPropModel, ParseErrorModel>(e@),
        },
{
    let (key, value) = match content_from_chars(rec) {
        Ok(kv) => kv,
        Err(e) => {
            return Err(e);
        },
    };
    let tokens = split_vec(&value, ' ');
    proof {
        assert(vviews(tokens@)[0] == tokens@[0]@);
        if tokens@.len() >= 2 {
            assert(vviews(tokens@)[1] == tokens@[1]@);
        }
        if tokens@.len() >= 3 {
            assert(vviews(tokens@)[2] == tokens@[2]@);
        }
        if tokens@.len() >= 4 {
            assert(vviews(tokens@)[3] == tokens@[3]@);
        }
        if tokens@.len() >= 5 {
            assert(vviews(tokens@)[4] == tokens@[4]@);
        }
        if tokens@.len() >= 6 {
            assert(vviews(tokens@)[5] == tokens@[5]@);
        }
    }
    if key == 'v' {
        match parse_u8_chars(&value) {
            Ok(v) => Ok(SdpProp::Version(v)),
            Err(e) => Err(e),
        }
    } else if key == 'o' {
        if tokens.len() < 3 {
            return Err(ParseError::MalformedLine(string_from_chars(&value)));
        }
        let session_version = match parse_usize_chars(&tokens[2]) {
            Ok(v) => v,
            Err(e) => {
                return Err(e);
            },
        };
        if tokens.len() < 4 {
            return Err(ParseError::MalformedLine(string_from_chars(&value)));
        }
        let net_type = match parse_net_chars(&tokens[3]) {
            Ok(n) => n,
            Err(e) => {
                return Err(e);
            },
        };
        if tokens.len() < 5 {
            return Err(ParseError::MalformedLine(string_from_chars(&value)));
        }
        let address_type = match parse_address_type_chars(&tokens[4]) {
            Ok(a) => a,
            Err(e) => {
                return Err(e);
            },
        };
        if tokens.len() < 6 {
            return Err(ParseError::MalformedLine(string_from_chars(&value)));
        }
        Ok(SdpProp::Origin {
            username: string_from_chars(&tokens[0]),
            session_id: string_from_chars(&tokens[1]),
            session_version,
            net_type,
            address_type,
            address: string_from_chars(&tokens[5]),
        })
    } else if key == 's' {
        Ok(SdpProp::SessionName(string_from_chars(&value)))
    } else if key == 'i' {
        Ok(SdpProp::SessionInformation(string_from_chars(&value)))
    } else if key == 'u' {
        Ok(SdpProp::Uri(string_from_chars(&value)))
    } else if key == 'e' {
        Ok(SdpProp::Email(string_from_chars(&value)))
    } else if key == 'p' {
        Ok(SdpProp::Phone(string_from_chars(&value)))
    } else if key == 'c' {
        match parse_connection_chars(&value) {
            Ok((net_type, address_type, address, ttl, num_addresses, suffix)) => Ok(
                SdpProp::Connection {
                    net_type,
                    address_type,
                    address: string_from_chars(&address),
                    ttl,
                    num_addresses,
                    suffix: match suffix {
                        Some(s) => Some(string_from_chars(&s)),
                        None => None,
                    },
                },
            ),
            Err(e) => Err(e),
        }
    } else if key == 'b' {
        match parse_bandwidth_chars(&value) {
            Ok((bw_type, bandwidth)) => Ok(SdpProp::Bandwidth { bw_type, bandwidth }),
            Err(e) => Err(e),
        }
    } else if key == 't' {
        let start = match parse_usize_chars(&tokens[0]) {
            Ok(v) => v,
            Err(e) => {
                return Err(e);
            },
        };
        if tokens.len() < 2 {
            return Err(ParseError::MalformedLine(string_from_chars(&value)));
        }
        match parse_usize_chars(&tokens[1]) {
            Ok(stop) => Ok(SdpProp::Timing { start, stop }),
            Err(e) => Err(e),
        }
    } else if key == 'r' {
        if tokens.len() < 2 {
            return Err(ParseError::MalformedLine(string_from_chars(&value)));
        }
        let mut start_offsets: Vec<String> = Vec::new();
        let mut j: usize = 2;
        while j < tokens.len()
            invariant
                2 <= j <= tokens@.len(),
                start_offsets@.map_values(|s: String| s@) =~= vviews(tokens@).subrange(
                    2,
                    j as int,
                ),
            decreases tokens@.len() - j,
        {
            let ghost old_views = start_offsets@.map_values(|s: String| s@);
            start_offsets.push(string_from_chars(&tokens[j]));
            proof {
                assert(vviews(tokens@)[j as int] == tokens@[j as int]@);
                assert(start_offsets@.map_values(|s: String| s@) =~= old_views.push(
                    tokens@[j as int]@,
                ));
                assert(vviews(tokens@).subrange(2, j as int).push(vviews(tokens@)[j as int])
                    =~= vviews(tokens@).subrange(2, j + 1));
            }
            j = j + 1;
        }
        proof {
            assert(vviews(tokens@).subrange(2, tokens@.len() as int) =~= vviews(tokens@).skip(2));
        }
        Ok(SdpProp::RepeatTimes {
            interval: string_from_chars(&tokens[0]),
            active_duration: string_from_chars(&tokens[1]),
            start_offsets,
        })
    } else if key == 'z' {
        match parse_timezone_chars(&tokens, &value) {
            Ok(adjs) => Ok(SdpProp::TimeZone(adjs)),
            Err(e) => Err(e),
        }
    } else if key == 'k' {
        match parse_encryption_chars(&value) {
            Ok(m) => Ok(SdpProp::EncryptionKeys(m)),
            Err(e) => Err(e),
        }
    } else if key == 'a' {
        let (akey, avalue) = parse_attribute_chars(&value);
        Ok(SdpProp::Attribute { key: akey, value: avalue })
    } else if key == 'm' {
        parse_media_chars(&value)
    } else {
        Err(ParseError::UnknownKey(key, string_from_chars(&value)))
    }
}

/// The non-empty lines, in order.
fn drop_empty_lines(lines: &Vec<Vec<char>>) -> (r: Vec<Vec<char>>)
    ensures
        vviews(r@) =~= drop_empty(vviews(lines@)),
{
    let ghost full = vviews(lines@);
    let mut out: Vec<Vec<char>> = Vec::new();
    let mut i: usize = 0;
    proof {
        assert(full.take(0) =~= Seq::<Seq<char>>::empty());
    }
    while i < lines.len()
        invariant
            i <= lines@.len(),
            full == vviews(lines@),
            vviews(out@) =~= drop_empty(full.take(i as int)),
        decreases lines@.len() - i,
    {
        proof {
            assert(full.take(i + 1).drop_last() =~= full.take(i as int));
            assert(full.take(i + 1).last() == full[i as int]);
            assert(full[i as int] == lines@[i as int]@);
        }
        if lines[i].len() > 0 {
            let n = lines[i].len();
            let ghost old_out = out@;
            let copy = subvec(&lines[i], 0, n);
            proof {
                assert(copy@ =~= lines@[i as int]@);
            }
            out.push(copy);
            proof {
                assert(vviews(out@) =~= vviews(old_out).push(copy@));
            }
        }
        i = i + 1;
    }
    proof {
        assert(full.take(lines@.len() as int) =~= full);
    }
    out
}

/// The lines folded into logical records: a line after a media line is
/// appended to the last record with a bare line feed, unless it opens a
/// media record of its own.
fn group_lines(lines: &Vec<Vec<char>>) -> (r: Vec<Vec<char>>)
    ensures
        vviews(r@) =~= spec_group(vviews(lines@)),
{
    let ghost full = vviews(lines@);
    let mut out: Vec<Vec<char>> = Vec::new();
    let mut seen_media = false;
    let mut i: usize = 0;
    proof {
        assert(full.take(0) =~= Seq::<Seq<char>>::empty());
        assert(!has_media_line(full.take(0)));
    }
    while i < lines.len()
        invariant
            i <= lines@.len(),
            full == vviews(lines@),
            vviews(out@) =~= spec_group(full.take(i as int)),
            seen_media == has_media_line(full.take(i as int)),
        decreases lines@.len() - i,
    {
        let ghost prefix = full.take(i as int);
        proof {
            assert(full.take(i + 1).drop_last() =~= prefix);
            assert(full.take(i + 1).last() == full[i as int]);
            assert(full[i as int] == lines@[i as int]@);
        }
        let line = &lines[i];
        let is_media = line.len() > 0 && line[0] == 'm';
        proof {
            assert(is_media == is_media_line(lines@[i as int]@));
        }
        if is_media || !seen_media || out.len() == 0 {
            let n = line.len();
            let ghost old_out = out@;
            let copy = subvec(line, 0, n);
            proof {
                assert(copy@ =~= lines@[i as int]@);
            }
            out.push(copy);
            proof {
                assert(vviews(out@) =~= vviews(old_out).push(copy@));
            }
        } else {
            let ghost old_out = out@;
            let mut last = match out.pop() {
                Some(l) => l,
                None => {
                    proof {
                        assert(false);
                    }
                    Vec::new()
                },
            };
            last.push('\n');
            append_chars(&mut last, line);
            proof {
                assert(last@ =~= vviews(old_out).last() + seq!['\n'] + lines@[i as int]@);
            }
            out.push(last);
            proof {
                assert(vviews(out@) =~= vviews(old_out).update(
                    vviews(old_out).len() - 1,
                    vviews(old_out).last() + seq!['\n'] + lines@[i as int]@,
                ));
            }
        }
        proof {
            let l = full[i as int];
            if is_media_line(l) {
                assert(has_media_line(full.take(i + 1))) by {
                    assert(full.take(i + 1)[i as int] == l);
                }
            } else if has_media_line(prefix) {
                let k = choose|k: int| 0 <= k < prefix.len() && is_media_line(prefix[k]);
                assert(has_media_line(full.take(i + 1))) by {
                    assert(full.take(i + 1)[k] == prefix[k]);
                }
            } else {
                if has_media_line(full.take(i + 1)) {
                    let k = choose|k: int|
                        0 <= k < full.take(i + 1).len() && #[trigger] is_media_line(
                            full.take(i + 1)[k],
                        );
                    if k < i {
                        assert(prefix[k] == full.take(i + 1)[k]);
                    }
                    assert(false);
                }
            }
        }
        seen_media = seen_media || is_media;
        i = i + 1;
    }
    proof {
        assert(full.take(lines@.len() as int) =~= full);
    }
    out
}

impl SDP {
    /// Parse a whole SDP document: either line-ending convention is
    /// accepted, blank lines are dropped, and every line following a
    /// media line belongs to that media record.
    pub fn from_str(s: &str) -> (r: Result<SDP, ParseError>)
        ensures
            match r {
                Ok(d) => spec_parse_doc(s@) == Ok::<SdpModel, ParseErrorModel>(d@),
                Err(e) => spec_parse_doc(s@) == Err::<SdpModel, ParseErrorModel>(e@),
            },
    {
        let cs = chars_of_str(s);
        let norm = normalize_vec(&cs);
        let lines = split_vec(&norm, '\n');
        let kept = drop_empty_lines(&lines);
        let recs = group_lines(&kept);
        let ghost grecs = vviews(recs@);
        let mut props: Vec<SdpProp> = Vec::new();
        let mut i: usize = 0;
        proof {
            assert(grecs.skip(0) =~= grecs);
            assert(Seq::<SdpPropModel>::empty() + spec_parse_records(grecs)->Ok_0
                =~= spec_parse_records(grecs)->Ok_0);
        }
        while i < recs.len()
            invariant
                i <= recs@.len(),
                grecs == vviews(recs@),
                spec_parse_doc(s@) == (match spec_parse_records(grecs) {
                    Err(e) => Err::<SdpModel, ParseErrorModel>(e),
                    Ok(ps) => Ok::<SdpModel, ParseErrorModel>(SdpModel { props: ps }),
                }),
                spec_parse_records(grecs) == prepend_ok(
                    props@.map_values(|p: SdpProp| p@),
                    spec_parse_records(grecs.skip(i as int)),
                ),
            decreases recs@.len() - i,
        {
            let ghost rest = grecs.skip(i as int);
            proof {
                assert(rest[0] == grecs[i as int]);
                assert(grecs[i as int] == recs@[i as int]@);
            }
            let p = match parse_record_chars(&recs[i]) {
                Ok(p) => p,
                Err(e) => {
                    return Err(e);
                },
            };
            let ghost old_models = props@.map_values(|p: SdpProp| p@);
            let ghost pm = p@;
            props.push(p);
            proof {
                let models = props@.map_values(|p: SdpProp| p@);
                assert(models =~= old_models.push(pm));
                assert(rest.drop_first() =~= grecs.skip(i + 1));
                match spec_parse_records(grecs.skip(i + 1)) {
                    Err(_) => {},
                    Ok(t2) => {
                        assert(old_models + (seq![pm] + t2) =~= models + t2);
                    },
                }
            }
            i = i + 1;
        }
        proof {
            assert(grecs.skip(recs@.len() as int) =~= Seq::<Seq<char>>::empty());
            assert(props@.map_values(|p: SdpProp| p@) + Seq::<SdpPropModel>::empty()
                =~= props@.map_values(|p: SdpProp| p@));
        }
        Ok(SDP { props })
    }
}

impl MediaProp {
    /// Parse one media-level line.
    pub fn from_str(s: &str) -> (r: Result<MediaProp, ParseError>)
        ensures
            match r {
                Ok(p) => spec_parse_media_prop(s@) == Ok::<MediaPropModel, ParseErrorModel>(p@),
                Err(e) => spec_parse_media_prop(s@) == Err::<MediaPropModel, ParseErrorModel>(e@),
            },
    {
        let v = chars_of_str(s);
        parse_media_prop_chars(&v)
    }
}

impl SdpProp {
    /// Parse one top-level logical record: a single line, or a media
    /// header with its nested lines joined by bare line feeds.
    pub fn from_str(s: &str) -> (r: Result<SdpProp, ParseError>)
        ensures
            match r {
                Ok(p) => spec_parse_record(s@) == Ok::<SdpPropModel, ParseErrorModel>(p@),
                Err(e) => spec_parse_record(s@) == Err::<SdpPropModel, ParseErrorModel>(e@),
            },
    {
        let v = chars_of_str(s);
        parse_record_chars(&v)
    }
}

/// The connection line built back from its pieces: the inverse of the
/// connection parse, with the address token already carrying any TTL or
/// count.
pub fn build_connection_lines(
    net_type: &NetworkType,
    address_type: &AddressType,
    suffix: &Option<String>,
    address: &String,
) -> (r: String)
    ensures
        r@ == connection_parts_text(*net_type, *address_type, opt_view(*suffix), address@),
{
    let mut out: Vec<char> = Vec::new();
    append_str(&mut out, "c=");
    let nt = net_type.to_string();
    append_str(&mut out, nt.as_str());
    out.push(' ');
    let at = address_type.to_string();
    append_str(&mut out, at.as_str());
    out.push(' ');
    append_str(&mut out, address.as_str());
    match suffix {
        Some(sfx) => {
            out.push(' ');
            append_str(&mut out, sfx.as_str());
        },
        None => {},
    }
    string_from_chars(&out)
}

impl NetworkType {
    /// Parse the canonical token of a network type.
    pub fn from_str(s: &str) -> (r: Result<NetworkType, ParseError>)
        ensures
            match r {
                Ok(n) => spec_parse_net_type(s@) == Ok::<NetworkType, ParseErrorModel>(n),
                Err(e) => spec_parse_net_type(s@) == Err::<NetworkType, ParseErrorModel>(e@),
            },
    {
        let v = chars_of_str(s);
        parse_net_chars(&v)
    }

    /// The canonical token of this network type.
    pub fn to_string(&self) -> (r: String)
        ensures
            r@ == net_type_text(*self),
    {
        match self {
            NetworkType::Internet => String::from_str("IN"),
        }
    }
}

impl AddressType {
    /// Parse the canonical token of an address type.
    pub fn from_str(s: &str) -> (r: Result<AddressType, ParseError>)
        ensures
            match r {
                Ok(a) => spec_parse_address_type(s@) == Ok::<AddressType, ParseErrorModel>(a),
                Err(e) => spec_parse_address_type(s@) == Err::<AddressType, ParseErrorModel>(e@),
            },
    {
        let v = chars_of_str(s);
        parse_address_type_chars(&v)
    }

    /// The canonical token of this address type.
    pub fn to_string(&self) -> (r: String)
        ensures
            r@ == address_type_text(*self),
    {
        match self {
            AddressType::IPv4 => String::from_str("IP4"),
            AddressType::IPv6 => String::from_str("IP6"),
        }
    }
}

impl BandwidthType {
    /// Parse the canonical token of a bandwidth type.
    pub fn from_str(s: &str) -> (r: Result<BandwidthType, ParseError>)
        ensures
            match r {
                Ok(b) => spec_parse_bandwidth_type(s@) == Ok::<BandwidthType, ParseErrorModel>(b),
                Err(e) => spec_parse_bandwidth_type(s@) == Err::<BandwidthType, ParseErrorModel>(
                    e@,
                ),
            },
    {
        let v = chars_of_str(s);
        parse_bandwidth_type_chars(&v)
    }

    /// The canonical token of this bandwidth type.
    pub fn to_string(&self) -> (r: String)
        ensures
            r@ == bandwidth_type_text(*self),
    {
        match self {
            BandwidthType::ConferenceTotal => String::from_str("CT"),
            BandwidthType::ApplicationSpecific => String::from_str("AS"),
        }
    }
}

impl MediaType {
    /// Parse the canonical token of a media type.
    pub fn from_str(s: &str) -> (r: Result<MediaType, ParseError>)
        ensures
            match r {
                Ok(m) => spec_parse_media_type(s@) == Ok::<MediaType, ParseErrorModel>(m),
                Err(e) => spec_parse_media_type(s@) == Err::<MediaType, ParseErrorModel>(e@),
            },
    {
        let v = chars_of_str(s);
        parse_media_type_chars(&v)
    }

    /// The canonical token of this media type.
    pub fn to_string(&self) -> (r: String)
        ensures
            r@ == media_type_text(*self),
    {
        match self {
            MediaType::Audio => String::from_str("audio"),
            MediaType::Video => String::from_str("video"),
            MediaType::Text => String::from_str("text"),
            MediaType::Application => String::from_str("application"),
        }
    }
}

/// A line split at its first `=`: the key character before it and the
/// verbatim value after it.
pub fn content_from_line(line: &str) -> (r: Result<(char, String), ParseError>)
    ensures
        match r {
            Ok((k, v)) => spec_content_from_line(line@) == Ok::<(char, Seq<char>), ParseErrorModel>(
                (k, v@),
            ),
            Err(e) => spec_content_from_line(line@) == Err::<(char, Seq<char>), ParseErrorModel>(
                e@,
            ),
        },
{
    let chars = chars_of_str(line);
    match content_from_chars(&chars) {
        Ok((k, v)) => Ok((k, string_from_chars(&v))),
        Err(e) => Err(e),
    }
}

/// The characters of the chosen line terminator.
fn ending_chars(e: LineEnding) -> (r: Vec<char>)
    ensures
        r@ =~= ending_text(e),
{
    let mut r: Vec<char> = Vec::new();
    match e {
        LineEnding::LF => {
            r.push('\n');
        },
        LineEnding::CRLF => {
            r.push('\r');
            r.push('\n');
        },
    }
    r
}

/// The body of an encryption-key line appended to `out`.
fn append_encryption(out: &mut Vec<char>, m: &EncryptionKeyMethod)
    ensures
        final(out)@ =~= old(out)@ + encryption_text(m@),
{
    match m {
        EncryptionKeyMethod::Clear(k) => {
            append_str(out, "clear:");
            append_str(out, k.as_str());
        },
        EncryptionKeyMethod::Base64(k) => {
            append_str(out, "base64:");
            append_str(out, k.as_str());
        },
        EncryptionKeyMethod::Uri(k) => {
            append_str(out, "uri:");
            append_str(out, k.as_str());
        },
        EncryptionKeyMethod::Prompt => {
            append_str(out, "prompt");
        },
    }
}

impl EncryptionKeyMethod {
    /// Parse the body of an encryption-key line.
    pub fn from_str(s: &str) -> (r: Result<EncryptionKeyMethod, ParseError>)
        ensures
            match r {
                Ok(m) => spec_parse_encryption(s@) == Ok::<EncryptionKeyModel, ParseErrorModel>(
                    m@,
                ),
                Err(e) => spec_parse_encryption(s@) == Err::<EncryptionKeyModel, ParseErrorModel>(
                    e@,
                ),
            },
    {
        let v = chars_of_str(s);
        parse_encryption_chars(&v)
    }

    /// The body of the encryption-key line for this method.
    pub fn to_string(&self) -> (r: String)
        ensures
            r@ == encryption_text(self@),
    {
        let mut out: Vec<char> = Vec::new();
        append_encryption(&mut out, self);
        string_from_chars(&out)
    }
}

/// A whole connection line appended to `out`.
#[verifier::rlimit(60)]
fn append_connection_line(
    out: &mut Vec<char>,
    net_type: &NetworkType,
    address_type: &AddressType,
    address: &String,
    ttl: &Option<usize>,
    num_addresses: &Option<usize>,
    suffix: &Option<String>,
)
    ensures
        final(out)@ =~= old(out)@ + connection_line_text(
            ConnectionModel {
                net_type: *net_type,
                address_type: *address_type,
                address: address@,
                ttl: *ttl,
                num_addresses: *num_addresses,
                suffix: opt_view(*suffix),
            },
        ),
{
    let ghost c = ConnectionModel {
        net_type: *net_type,
        address_type: *address_type,
        address: address@,
        ttl: *ttl,
        num_addresses: *num_addresses,
        suffix: opt_view(*suffix),
    };
    let ghost base = old(out)@;
    append_str(out, "c=");
    match net_type {
        NetworkType::Internet => append_str(out, "IN"),
    }
    out.push(' ');
    match address_type {
        AddressType::IPv4 => append_str(out, "IP4"),
        AddressType::IPv6 => append_str(out, "IP6"),
    }
    out.push(' ');
    proof {
        assert(out@ =~= base + "c="@ + net_type_text(c.net_type) + seq![' '] + address_type_text(
            c.address_type,
        ) + seq![' ']);
    }
    let ghost head = out@;
    append_str(out, address.as_str());
    match ttl {
        Some(t) => {
            out.push('/');
            let digits = fmt_usize(*t);
            append_chars(out, &digits);
        },
        None => {},
    }
    proof {
        let with_ttl = match c.ttl {
            Some(tt) => c.address + seq!['/'] + dec_str(tt as nat),
            None => c.address,
        };
        assert(out@ =~= head + with_ttl);
    }
    match num_addresses {
        Some(n) => {
            out.push('/');
            let digits = fmt_usize(*n);
            append_chars(out, &digits);
        },
        None => {},
    }
    proof {
        assert(out@ =~= head + connection_address_text(c));
    }
    match suffix {
        Some(sfx) => {
            out.push(' ');
            append_str(out, sfx.as_str());
        },
        None => {},
    }
    proof {
        assert(out@ =~= base + connection_line_text(c));
    }
}

/// One nested media record as its line of text, appended to `out`.
fn append_media_prop(out: &mut Vec<char>, p: &MediaProp)
    ensures
        final(out)@ =~= old(out)@ + spec_ser_media_prop(p@),
{
    match p {
        MediaProp::Title(t) => {
            append_str(out, "i=");
            append_str(out, t.as_str());
        },
        MediaProp::Connection { net_type, address_type, address, ttl, num_addresses, suffix } => {
            append_connection_line(out, net_type, address_type, address, ttl, num_addresses, suffix);
        },
        MediaProp::Bandwidth { bw_type, bandwidth } => {
            append_str(out, "b=");
            match bw_type {
                BandwidthType::ConferenceTotal => append_str(out, "CT"),
                BandwidthType::ApplicationSpecific => append_str(out, "AS"),
            }
            out.push(':');
            let digits = fmt_usize(*bandwidth);
            append_chars(out, &digits);
        },
        MediaProp::EncryptionKeys(m) => {
            append_str(out, "k=");
            append_encryption(out, m);
        },
        MediaProp::Attribute { key, value } => {
            append_str(out, "a=");
            append_str(out, key.as_str());
            match value {
                Some(v) => {
                    out.push(':');
                    append_str(out, v.as_str());
                },
                None => {},
            }
        },
    }
}

impl MediaProp {
    /// The line of text for this media-level record.
    pub fn to_string(&self) -> (r: String)
        ensures
            r@ == spec_ser_media_prop(self@),
    {
        let mut out: Vec<char> = Vec::new();
        append_media_prop(&mut out, self);
        string_from_chars(&out)
    }
}

/// The `/`-joined port tokens of a media header appended to `out`.
fn append_ports(out: &mut Vec<char>, ports: &Vec<u16>)
    ensures
        final(out)@ =~= old(out)@ + join_char(
            ports@.map_values(|p: u16| dec_str(p as nat)),
            '/',
        ),
{
    let ghost pviews = ports@.map_values(|p: u16| dec_str(p as nat));
    let ghost base = out@;
    let mut i: usize = 0;
    proof {
        assert(pviews.take(0) =~= Seq::<Seq<char>>::empty());
        assert(base + Seq::<char>::empty() =~= base);
    }
    while i < ports.len()
        invariant
            i <= ports@.len(),
            pviews == ports@.map_values(|p: u16| dec_str(p as nat)),
            base == old(out)@,
            out@ =~= base + join_seq(pviews.take(i as int), seq!['/']),
        decreases ports@.len() - i,
    {
        proof {
            lemma_join_seq_push(pviews.take(i as int), seq!['/'], pviews[i as int]);
            assert(pviews.take(i as int).push(pviews[i as int]) =~= pviews.take(i + 1));
            assert(pviews[i as int] == dec_str(ports@[i as int] as nat));
        }
        if i > 0 {
            out.push('/');
        }
        let digits = fmt_u16(ports[i]);
        append_chars(out, &digits);
        i = i + 1;
    }
    proof {
        assert(pviews.take(ports@.len() as int) =~= pviews);
    }
}

/// The nested media records, each preceded by the line terminator,
/// appended to `out`.
fn append_media_props(out: &mut Vec<char>, props: &Vec<MediaProp>, ending: &Vec<char>)
    requires
        props@.len() > 0,
    ensures
        final(out)@ =~= old(out)@ + ending@ + join_seq(
            props@.map_values(|p: MediaProp| p@).map_values(
                |m: MediaPropModel| spec_ser_media_prop(m),
            ),
            ending@,
        ),
{
    let ghost lines = props@.map_values(|p: MediaProp| p@).map_values(
        |m: MediaPropModel| spec_ser_media_prop(m),
    );
    append_chars(out, ending);
    let ghost base = out@;
    let mut i: usize = 0;
    proof {
        assert(lines.take(0) =~= Seq::<Seq<char>>::empty());
        assert(base + Seq::<char>::empty() =~= base);
    }
    while i < props.len()
        invariant
            i <= props@.len(),
            lines == props@.map_values(|p: MediaProp| p@).map_values(
                |m: MediaPropModel| spec_ser_media_prop(m),
            ),
            base == old(out)@ + ending@,
            out@ =~= base + join_seq(lines.take(i as int), ending@),
        decreases props@.len() - i,
    {
        proof {
            lemma_join_seq_push(lines.take(i as int), ending@, lines[i as int]);
            assert(lines.take(i as int).push(lines[i as int]) =~= lines.take(i + 1));
            assert(props@.map_values(|p: MediaProp| p@)[i as int] == props@[i as int]@);
            assert(lines[i as int] == spec_ser_media_prop(props@[i as int]@));
        }
        if i > 0 {
            append_chars(out, ending);
        }
        append_media_prop(out, &props[i]);
        i = i + 1;
    }
    proof {
        assert(lines.take(props@.len() as int) =~= lines);
    }
}

/// The time-zone adjustments as space-joined token pairs appended to
/// `out`.
fn append_timezone(out: &mut Vec<char>, adjs: &Vec<TimeZoneAdjustment>)
    ensures
        final(out)@ =~= old(out)@ + join_char(
            adjs@.map_values(|a: TimeZoneAdjustment| a@).map_values(
                |m: TimeZoneAdjustmentModel| timezone_pair_text(m),
            ),
            ' ',
        ),
{
    let ghost pairs = adjs@.map_values(|a: TimeZoneAdjustment| a@).map_values(
        |m: TimeZoneAdjustmentModel| timezone_pair_text(m),
    );
    let ghost base = out@;
    let mut i: usize = 0;
    proof {
        assert(pairs.take(0) =~= Seq::<Seq<char>>::empty());
        assert(base + Seq::<char>::empty() =~= base);
    }
    while i < adjs.len()
        invariant
            i <= adjs@.len(),
            pairs == adjs@.map_values(|a: TimeZoneAdjustment| a@).map_values(
                |m: TimeZoneAdjustmentModel| timezone_pair_text(m),
            ),
            base == old(out)@,
            out@ =~= base + join_seq(pairs.take(i as int), seq![' ']),
        decreases adjs@.len() - i,
    {
        proof {
            lemma_join_seq_push(pairs.take(i as int), seq![' '], pairs[i as int]);
            assert(pairs.take(i as int).push(pairs[i as int]) =~= pairs.take(i + 1));
            assert(adjs@.map_values(|a: TimeZoneAdjustment| a@)[i as int] == adjs@[i as int]@);
            assert(pairs[i as int] == timezone_pair_text(adjs@[i as int]@));
        }
        if i > 0 {
            out.push(' ');
        }
        let digits = fmt_usize(adjs[i].time);
        append_chars(out, &digits);
        out.push(' ');
        append_str(out, adjs[i].offset.as_str());
        i = i + 1;
    }
    proof {
        assert(pairs.take(adjs@.len() as int) =~= pairs);
    }
}

/// The start offsets of a repeat-times record, space-joined, appended to
/// `out`.
fn append_offsets(out: &mut Vec<char>, offsets: &Vec<String>)
    ensures
        final(out)@ =~= old(out)@ + join_char(offsets@.map_values(|s: String| s@), ' '),
{
    let ghost views = offsets@.map_values(|s: String| s@);
    let ghost base = out@;
    let mut i: usize = 0;
    proof {
        assert(views.take(0) =~= Seq::<Seq<char>>::empty());
        assert(base + Seq::<char>::empty() =~= base);
    }
    while i < offsets.len()
        invariant
            i <= offsets@.len(),
            views == offsets@.map_values(|s: String| s@),
            base == old(out)@,
            out@ =~= base + join_seq(views.take(i as int), seq![' ']),
        decreases offsets@.len() - i,
    {
        proof {
            lemma_join_seq_push(views.take(i as int), seq![' '], views[i as int]);
            assert(views.take(i as int).push(views[i as int]) =~= views.take(i + 1));
            assert(views[i as int] == offsets@[i as int]@);
        }
        if i > 0 {
            out.push(' ');
        }
        append_str(out, offsets[i].as_str());
        i = i + 1;
    }
    proof {
        assert(views.take(offsets@.len() as int) =~= views);
    }
}

/// One top-level record as text, appended to `out`.
#[verifier::rlimit(100)]
fn append_record(out: &mut Vec<char>, p: &SdpProp, e: LineEnding)
    ensures
        final(out)@ =~= old(out)@ + spec_ser_record(p@, e),
{
    match p {
        SdpProp::Version(v) => {
            append_str(out, "v=");
            let digits = fmt_u8(*v);
            append_chars(out, &digits);
        },
        SdpProp::Origin {
            username,
            session_id,
            session_version,
            net_type,
            address_type,
            address,
        } => {
            let ghost base = out@;
            append_str(out, "o=");
            append_str(out, username.as_str());
            out.push(' ');
            append_str(out, session_id.as_str());
            out.push(' ');
            let digits = fmt_usize(*session_version);
            append_chars(out, &digits);
            out.push(' ');
            proof {
                assert(out@ =~= base + "o="@ + username@ + seq![' '] + session_id@ + seq![' ']
                    + dec_str(*session_version as nat) + seq![' ']);
            }
            match net_type {
                NetworkType::Internet => append_str(out, "IN"),
            }
            out.push(' ');
            match address_type {
                AddressType::IPv4 => append_str(out, "IP4"),
                AddressType::IPv6 => append_str(out, "IP6"),
            }
            out.push(' ');
            append_str(out, address.as_str());
            proof {
                assert(out@ =~= base + spec_ser_record(p@, e));
            }
        },
        SdpProp::SessionName(s) => {
            append_str(out, "s=");
            append_str(out, s.as_str());
        },
        SdpProp::SessionInformation(s) => {
            append_str(out, "i=");
            append_str(out, s.as_str());
        },
        SdpProp::Uri(s) => {
            append_str(out, "u=");
            append_str(out, s.as_str());
        },
        SdpProp::Email(s) => {
            append_str(out, "e=");
            append_str(out, s.as_str());
        },
        SdpProp::Phone(s) => {
            append_str(out, "p=");
            append_str(out, s.as_str());
        },
        SdpProp::Connection { net_type, address_type, address, ttl, num_addresses, suffix } => {
            append_connection_line(out, net_type, address_type, address, ttl, num_addresses, suffix);
        },
        SdpProp::Bandwidth { bw_type, bandwidth } => {
            append_str(out, "b=");
            match bw_type {
                BandwidthType::ConferenceTotal => append_str(out, "CT"),
                BandwidthType::ApplicationSpecific => append_str(out, "AS"),
            }
            out.push(':');
            let digits = fmt_usize(*bandwidth);
            append_chars(out, &digits);
        },
        SdpProp::Timing { start, stop } => {
            append_str(out, "t=");
            let d1 = fmt_usize(*start);
            append_chars(out, &d1);
            out.push(' ');
            let d2 = fmt_usize(*stop);
            append_chars(out, &d2);
        },
        SdpProp::RepeatTimes { interval, active_duration, start_offsets } => {
            append_str(out, "r=");
            append_str(out, interval.as_str());
            out.push(' ');
            append_str(out, active_duration.as_str());
            out.push(' ');
            append_offsets(out, start_offsets);
        },
        SdpProp::TimeZone(adjs) => {
            append_str(out, "z=");
            append_timezone(out, adjs);
        },
        SdpProp::EncryptionKeys(m) => {
            append_str(out, "k=");
            append_encryption(out, m);
        },
        SdpProp::Attribute { key, value } => {
            append_str(out, "a=");
            append_str(out, key.as_str());
            match value {
                Some(v) => {
                    out.push(':');
                    append_str(out, v.as_str());
                },
                None => {},
            }
        },
        SdpProp::Media { media_type, ports, protocol, format, props } => {
            let ghost base = out@;
            append_str(out, "m=");
            match media_type {
                MediaType::Audio => append_str(out, "audio"),
                MediaType::Video => append_str(out, "video"),
                MediaType::Text => append_str(out, "text"),
                MediaType::Application => append_str(out, "application"),
            }
            out.push(' ');
            append_ports(out, ports);
            out.push(' ');
            append_str(out, protocol.as_str());
            out.push(' ');
            append_str(out, format.as_str());
            proof {
                assert(out@ =~= base + media_header_text(
                    *media_type,
                    ports@,
                    protocol@,
                    format@,
                ));
            }
            if props.len() > 0 {
                let ending = ending_chars(e);
                append_media_props(out, props, &ending);
                proof {
                    assert(out@ =~= base + spec_ser_record(p@, e));
                }
            }
        },
    }
}

impl SdpProp {
    /// The text of this record under the chosen line ending: a single
    /// line, or a media header followed by its nested records.
    pub fn to_string(&self, ending: LineEnding) -> (r: String)
        ensures
            r@ == spec_ser_record(self@, ending),
    {
        let mut out: Vec<char> = Vec::new();
        append_record(&mut out, self, ending);
        string_from_chars(&out)
    }
}

impl SDP {
    /// The text of the whole document: the records joined with the
    /// chosen terminator and exactly one trailing terminator.
    pub fn to_string(&self, ending: LineEnding) -> (r: String)
        ensures
            r@ == spec_ser_doc(self@, ending),
    {
        let ghost lines = self@.props.map_values(|p: SdpPropModel| spec_ser_record(p, ending));
        let mut out: Vec<char> = Vec::new();
        let mut i: usize = 0;
        proof {
            assert(lines.take(0) =~= Seq::<Seq<char>>::empty());
            assert(out@ =~= Seq::<char>::empty() + Seq::<char>::empty());
        }
        while i < self.props.len()
            invariant
                i <= self.props@.len(),
                lines == self@.props.map_values(|p: SdpPropModel| spec_ser_record(p, ending)),
                lines.len() == self.props@.len(),
                out@ =~= join_seq(lines.take(i as int), ending_text(ending)),
            decreases self.props@.len() - i,
        {
            proof {
                lemma_join_seq_push(lines.take(i as int), ending_text(ending), lines[i as int]);
                assert(lines.take(i as int).push(lines[i as int]) =~= lines.take(i + 1));
                assert(self@.props[i as int] == self.props@[i as int]@);
                assert(lines[i as int] == spec_ser_record(self.props@[i as int]@, ending));
            }
            if i > 0 {
                let e = ending_chars(ending);
                append_chars(&mut out, &e);
            }
            append_record(&mut out, &self.props[i], ending);
            i = i + 1;
        }
        let e = ending_chars(ending);
        append_chars(&mut out, &e);
        proof {
            assert(lines.take(self.props@.len() as int) =~= lines);
        }
        string_from_chars(&out)
    }
}

impl View for TimeZoneAdjustment {
    type V = TimeZoneAdjustmentModel;

    open spec fn view(&self) -> TimeZoneAdjustmentModel {
        TimeZoneAdjustmentModel { time: self.time, offset: self.offset@ }
    }
}

impl View for EncryptionKeyMethod {
    type V = EncryptionKeyModel;

    open spec fn view(&self) -> EncryptionKeyModel {
        match self {
            EncryptionKeyMethod::Clear(k) => EncryptionKeyModel::Clear(k@),
            EncryptionKeyMethod::Base64(k) => EncryptionKeyModel::Base64(k@),
            EncryptionKeyMethod::Uri(k) => EncryptionKeyModel::Uri(k@),
            EncryptionKeyMethod::Prompt => EncryptionKeyModel::Prompt,
        }
    }
}

/// The model of an optional string.
pub open spec fn opt_view(o: Option<String>) -> Option<Seq<char>> {
    match o {
        Some(s) => Some(s@),
        None => None,
    }
}

impl View for MediaProp {
    type V = MediaPropModel;

    open spec fn view(&self) -> MediaPropModel {
        match self {
            MediaProp::Title(t) => MediaPropModel::Title(t@),
            MediaProp::Connection { net_type, address_type, address, ttl, num_addresses, suffix } => MediaPropModel::Connection {
                net_type: *net_type,
                address_type: *address_type,
                address: address@,
                ttl: *ttl,
                num_addresses: *num_addresses,
                suffix: opt_view(*suffix),
            },
            MediaProp::Bandwidth { bw_type, bandwidth } => MediaPropModel::Bandwidth {
                bw_type: *bw_type,
                bandwidth: *bandwidth,
            },
            MediaProp::EncryptionKeys(m) => MediaPropModel::EncryptionKeys(m@),
            MediaProp::Attribute { key, value } => MediaPropModel::Attribute {
                key: key@,
                value: opt_view(*value),
            },
        }
    }
}

impl View for SdpProp {
    type V = SdpPropModel;

    open spec fn view(&self) -> SdpPropModel {
        match self {
            SdpProp::Version(v) => SdpPropModel::Version(*v),
            SdpProp::Origin {
                username,
                session_id,
                session_version,
                net_type,
                address_type,
                address,
            } => SdpPropModel::Origin {
                username: username@,
                session_id: session_id@,
                session_version: *session_version,
                net_type: *net_type,
                address_type: *address_type,
                address: address@,
            },
            SdpProp::SessionName(s) => SdpPropModel::SessionName(s@),
            SdpProp::SessionInformation(s) => SdpPropModel::SessionInformation(s@),
            SdpProp::Uri(s) => SdpPropModel::Uri(s@),
            SdpProp::Email(s) => SdpPropModel::Email(s@),
            SdpProp::Phone(s) => SdpPropModel::Phone(s@),
            SdpProp::Connection { net_type, address_type, address, ttl, num_addresses, suffix } => SdpPropModel::Connection {
                net_type: *net_type,
                address_type: *address_type,
                address: address@,
                ttl: *ttl,
                num_addresses: *num_addresses,
                suffix: opt_view(*suffix),
            },
            SdpProp::Bandwidth { bw_type, bandwidth } => SdpPropModel::Bandwidth {
                bw_type: *bw_type,
                bandwidth: *bandwidth,
            },
            SdpProp::Timing { start, stop } => SdpPropModel::Timing {
                start: *start,
                stop: *stop,
            },
            SdpProp::RepeatTimes { interval, active_duration, start_offsets } => SdpPropModel::RepeatTimes {
                interval: interval@,
                active_duration: active_duration@,
                start_offsets: start_offsets@.map_values(|s: String| s@),
            },
            SdpProp::TimeZone(adjs) => SdpPropModel::TimeZone(
                adjs@.map_values(|a: TimeZoneAdjustment| a@),
            ),
            SdpProp::EncryptionKeys(m) => SdpPropModel::EncryptionKeys(m@),
            SdpProp::Attribute { key, value } => SdpPropModel::Attribute {
                key: key@,
                value: opt_view(*value),
            },
            SdpProp::Media { media_type, ports, protocol, format, props } => SdpPropModel::Media {
                media_type: *media_type,
                ports: ports@,
                protocol: protocol@,
                format: format@,
                props: props@.map_values(|p: MediaProp| p@),
            },
        }
    }
}

impl View for SDP {
    type V = SdpModel;

    open spec fn view(&self) -> SdpModel {
        SdpModel { props: self.props@.map_values(|p: SdpProp| p@) }
    }
}

impl View for ParseError {
    type V = ParseErrorModel;

    open spec fn view(&self) -> ParseErrorModel {
        match self {
            ParseError::UnknownKey(k, v) => ParseErrorModel::UnknownKey(*k, v@),
            ParseError::UnknownToken(t) => ParseErrorModel::UnknownToken(t@),
            ParseError::MalformedLine(l) => ParseErrorModel::MalformedLine(l@),
            ParseError::NumericConversionFailed(t) => ParseErrorModel::NumericConversionFailed(t@),
        }
    }
}

} // verus!
