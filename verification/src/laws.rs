//! The round-trip laws of the grammar: serializing a well-formed document
//! and parsing the result restores the document exactly, under either
//! line-ending convention, and a parsed document is itself well-formed up
//! to the named exceptions.

use vstd::prelude::*;
use crate::digits::all_digits;
use crate::digits::dec_str;
use crate::digits::dec_val;
use crate::digits::is_dec;
use crate::digits::is_digit;
use crate::digits::lemma_dec_str;
use crate::grammar::ConnectionModel;
use crate::grammar::address_type_text;
use crate::grammar::bandwidth_type_text;
use crate::grammar::connection_address_text;
use crate::grammar::connection_line_text;
use crate::grammar::drop_empty;
use crate::grammar::encryption_text;
use crate::grammar::ending_text;
use crate::grammar::has_media_line;
use crate::grammar::is_media_line;
use crate::grammar::media_header_text;
use crate::grammar::media_type_text;
use crate::grammar::net_type_text;
use crate::grammar::spec_content_from_line;
use crate::grammar::spec_group;
use crate::grammar::spec_parse_address_parts;
use crate::grammar::spec_parse_address_token;
use crate::grammar::spec_parse_address_type;
use crate::grammar::spec_parse_attribute;
use crate::grammar::spec_parse_bandwidth;
use crate::grammar::spec_parse_bandwidth_type;
use crate::grammar::spec_parse_connection;
use crate::grammar::spec_parse_doc;
use crate::grammar::spec_parse_encryption;
use crate::grammar::spec_parse_media;
use crate::grammar::spec_parse_media_prop;
use crate::grammar::spec_parse_media_props;
use crate::grammar::spec_parse_media_type;
use crate::grammar::spec_parse_net_type;
use crate::grammar::spec_parse_ports;
use crate::grammar::spec_parse_record;
use crate::grammar::spec_parse_records;
use crate::grammar::spec_parse_timezone;
use crate::grammar::spec_parse_u16;
use crate::grammar::spec_parse_usize;
use crate::grammar::spec_ser_doc;
use crate::grammar::spec_ser_media_prop;
use crate::grammar::spec_ser_record;
use crate::grammar::timezone_pair_text;
use crate::model::EncryptionKeyModel;
use crate::model::MediaPropModel;
use crate::model::ParseErrorModel;
use crate::model::SdpModel;
use crate::model::SdpPropModel;
use crate::model::TimeZoneAdjustmentModel;
use crate::sdp::AddressType;
use crate::sdp::BandwidthType;
use crate::sdp::LineEnding;
use crate::sdp::MediaType;
use crate::sdp::NetworkType;
use crate::text::expand_lf;
use crate::text::find_char;
use crate::text::join_char;
use crate::text::join_seq;
use crate::text::lemma_expand_lf_add;
use crate::text::lemma_expand_lf_no_lf;
use crate::text::lemma_find_char;
use crate::text::lemma_find_char_at;
use crate::text::lemma_find_char_contains;
use crate::text::lemma_find_char_prefix;
use crate::text::lemma_join_seq_push;
use crate::text::lemma_join_split;
use crate::text::lemma_normalize_expand;
use crate::text::lemma_normalize_no_cr;
use crate::text::lemma_split_char_len;
use crate::text::lemma_split_concat;
use crate::text::lemma_split_join;
use crate::text::lemma_split_single;
use crate::text::normalize_endings;
use crate::text::split_char;

verus! {

// ------------------------------------------------------------------
// Character-class facts
// ------------------------------------------------------------------

/// Free text that can stand inside one line: no line feed, no carriage
/// return.
pub open spec fn text_ok(s: Seq<char>) -> bool {
    !s.contains('\n') && !s.contains('\r')
}

/// A token: line-safe and free of the space separator.
pub open spec fn token_ok(s: Seq<char>) -> bool {
    text_ok(s) && !s.contains(' ')
}

/// A digit string contains no character that is not a digit.
pub proof fn lemma_digits_not_contains(s: Seq<char>, c: char)
    requires
        all_digits(s),
        !is_digit(c),
    ensures
        !s.contains(c),
{
    if s.contains(c) {
        let i = choose|i: int| 0 <= i < s.len() && s[i] == c;
        assert(is_digit(s[i]));
    }
}

/// A canonical numeral is a token free of every delimiter the grammar
/// splits on.
pub proof fn lemma_dec_str_token(n: nat)
    ensures
        token_ok(dec_str(n)),
        !dec_str(n).contains('/'),
        !dec_str(n).contains(':'),
        is_dec(dec_str(n)),
        dec_val(dec_str(n)) == n,
{
    lemma_dec_str(n);
    lemma_digits_not_contains(dec_str(n), '\n');
    lemma_digits_not_contains(dec_str(n), '\r');
    lemma_digits_not_contains(dec_str(n), ' ');
    lemma_digits_not_contains(dec_str(n), '/');
    lemma_digits_not_contains(dec_str(n), ':');
}

/// Absence of a character survives concatenation.
pub proof fn lemma_concat_not_contains(a: Seq<char>, b: Seq<char>, c: char)
    requires
        !a.contains(c),
        !b.contains(c),
    ensures
        !(a + b).contains(c),
{
    if (a + b).contains(c) {
        let i = choose|i: int| 0 <= i < (a + b).len() && (a + b)[i] == c;
        if i < a.len() {
            assert(a[i] == c);
        } else {
            assert(b[i - a.len()] == c);
        }
    }
}

/// A single character distinct from `c` does not contain `c`.
pub proof fn lemma_single_not_contains(x: char, c: char)
    requires
        x != c,
    ensures
        !seq![x].contains(c),
{
    if seq![x].contains(c) {
        let i = choose|i: int| 0 <= i < 1 && seq![x][i] == c;
    }
}

/// A join of parts that all lack `c`, over a separator that lacks `c`,
/// lacks `c`.
pub proof fn lemma_join_not_contains(parts: Seq<Seq<char>>, sep: Seq<char>, c: char)
    requires
        forall|k: int| 0 <= k < parts.len() ==> !(#[trigger] parts[k]).contains(c),
        !sep.contains(c),
    ensures
        !join_seq(parts, sep).contains(c),
    decreases parts.len(),
{
    if parts.len() == 0 {
        if join_seq(parts, sep).contains(c) {
            let i = choose|i: int|
                0 <= i < join_seq(parts, sep).len() && join_seq(parts, sep)[i] == c;
        }
    } else if parts.len() == 1 {
        assert(join_seq(parts, sep) == parts[0]);
    } else {
        assert forall|k: int| 0 <= k < parts.drop_first().len() implies !(
        #[trigger] parts.drop_first()[k]).contains(c) by {
            assert(parts.drop_first()[k] == parts[k + 1]);
        }
        lemma_join_not_contains(parts.drop_first(), sep, c);
        lemma_concat_not_contains(parts[0], sep, c);
        lemma_concat_not_contains(parts[0] + sep, join_seq(parts.drop_first(), sep), c);
    }
}

// ------------------------------------------------------------------
// Well-formedness of the model
// ------------------------------------------------------------------

/// A well-formed encryption-key method: the payload stands on one line.
pub open spec fn wf_enc(m: EncryptionKeyModel) -> bool {
    match m {
        EncryptionKeyModel::Clear(k) => text_ok(k),
        EncryptionKeyModel::Base64(k) => text_ok(k),
        EncryptionKeyModel::Uri(k) => text_ok(k),
        EncryptionKeyModel::Prompt => true,
    }
}

/// Well-formed connection fields: the address is a token free of the
/// `/` delimiter, an address count only stands beside a TTL, and the
/// suffix is line-safe.
pub open spec fn wf_conn(
    address: Seq<char>,
    ttl: Option<usize>,
    num_addresses: Option<usize>,
    suffix: Option<Seq<char>>,
) -> bool {
    &&& token_ok(address)
    &&& !address.contains('/')
    &&& (num_addresses is Some ==> ttl is Some)
    &&& (match suffix {
        Some(s) => text_ok(s),
        None => true,
    })
}

/// Well-formed attribute fields: the key is line-safe and free of the
/// `:` delimiter, the value is line-safe.
pub open spec fn wf_attr(key: Seq<char>, value: Option<Seq<char>>) -> bool {
    &&& text_ok(key)
    &&& !key.contains(':')
    &&& (match value {
        Some(v) => text_ok(v),
        None => true,
    })
}

/// A well-formed media-level record.
pub open spec fn wf_media_prop(p: MediaPropModel) -> bool {
    match p {
        MediaPropModel::Title(t) => text_ok(t),
        MediaPropModel::Connection { address, ttl, num_addresses, suffix, .. } => wf_conn(
            address,
            ttl,
            num_addresses,
            suffix,
        ),
        MediaPropModel::Bandwidth { .. } => true,
        MediaPropModel::EncryptionKeys(m) => wf_enc(m),
        MediaPropModel::Attribute { key, value } => wf_attr(key, value),
    }
}

/// A well-formed top-level record: every string field is line-safe,
/// token fields are free of the delimiters that the grammar splits on,
/// and list fields are non-empty where an empty list cannot be written
/// back.
pub open spec fn wf_record(r: SdpPropModel) -> bool {
    match r {
        SdpPropModel::Version(_) => true,
        SdpPropModel::Origin { username, session_id, address, .. } => token_ok(username)
            && token_ok(session_id) && token_ok(address),
        SdpPropModel::SessionName(s) => text_ok(s),
        SdpPropModel::SessionInformation(s) => text_ok(s),
        SdpPropModel::Uri(s) => text_ok(s),
        SdpPropModel::Email(s) => text_ok(s),
        SdpPropModel::Phone(s) => text_ok(s),
        SdpPropModel::Connection { address, ttl, num_addresses, suffix, .. } => wf_conn(
            address,
            ttl,
            num_addresses,
            suffix,
        ),
        SdpPropModel::Bandwidth { .. } => true,
        SdpPropModel::Timing { .. } => true,
        SdpPropModel::RepeatTimes { interval, active_duration, start_offsets } => token_ok(
            interval,
        ) && token_ok(active_duration) && start_offsets.len() >= 1 && (forall|k: int|
            0 <= k < start_offsets.len() ==> token_ok(#[trigger] start_offsets[k])),
        SdpPropModel::TimeZone(adjs) => adjs.len() >= 1 && (forall|k: int|
            0 <= k < adjs.len() ==> token_ok((#[trigger] adjs[k]).offset)),
        SdpPropModel::EncryptionKeys(m) => wf_enc(m),
        SdpPropModel::Attribute { key, value } => wf_attr(key, value),
        SdpPropModel::Media { ports, protocol, format, props, .. } => ports.len() >= 1
            && token_ok(protocol) && text_ok(format) && (forall|k: int|
            0 <= k < props.len() ==> wf_media_prop(#[trigger] props[k])),
    }
}

// ------------------------------------------------------------------
// Inversion of the line grammar
// ------------------------------------------------------------------

/// Splitting a `key=value` line restores key and value.
pub proof fn lemma_content_inv(key: char, body: Seq<char>)
    requires
        key != '=',
    ensures
        spec_content_from_line(seq![key, '='] + body) == Ok::<
            (char, Seq<char>),
            ParseErrorModel,
        >((key, body)),
{
    let line = seq![key, '='] + body;
    assert(line[0] == key);
    assert(line[1] == '=');
    lemma_find_char_at(line, '=', 1);
    assert(line.skip(2) =~= body);
}

/// Token facts for the closed vocabularies: each canonical token parses
/// back to its variant and is free of the grammar's delimiters.
pub proof fn lemma_net_type_inv(n: NetworkType)
    ensures
        spec_parse_net_type(net_type_text(n)) == Ok::<NetworkType, ParseErrorModel>(n),
        token_ok(net_type_text(n)),
        !net_type_text(n).contains('/'),
{
    reveal_strlit("IN");
    assert(!net_type_text(n).contains(' ')) by {
        if net_type_text(n).contains(' ') {
            let i = choose|i: int|
                0 <= i < net_type_text(n).len() && net_type_text(n)[i] == ' ';
        }
    }
    assert(!net_type_text(n).contains('\n')) by {
        if net_type_text(n).contains('\n') {
            let i = choose|i: int|
                0 <= i < net_type_text(n).len() && net_type_text(n)[i] == '\n';
        }
    }
    assert(!net_type_text(n).contains('\r')) by {
        if net_type_text(n).contains('\r') {
            let i = choose|i: int|
                0 <= i < net_type_text(n).len() && net_type_text(n)[i] == '\r';
        }
    }
    assert(!net_type_text(n).contains('/')) by {
        if net_type_text(n).contains('/') {
            let i = choose|i: int|
                0 <= i < net_type_text(n).len() && net_type_text(n)[i] == '/';
        }
    }
}

/// The same for address types; the two tokens are also distinct.
pub proof fn lemma_address_type_inv(a: AddressType)
    ensures
        spec_parse_address_type(address_type_text(a)) == Ok::<AddressType, ParseErrorModel>(a),
        token_ok(address_type_text(a)),
        !address_type_text(a).contains('/'),
{
    reveal_strlit("IP4");
    reveal_strlit("IP6");
    let t = address_type_text(a);
    if a is IPv6 {
        assert(t != "IP4"@) by {
            assert(t[2] == '6' && "IP4"@[2] == '4');
        }
    }
    assert(!t.contains(' ')) by {
        if t.contains(' ') {
            let i = choose|i: int| 0 <= i < t.len() && t[i] == ' ';
        }
    }
    assert(!t.contains('\n')) by {
        if t.contains('\n') {
            let i = choose|i: int| 0 <= i < t.len() && t[i] == '\n';
        }
    }
    assert(!t.contains('\r')) by {
        if t.contains('\r') {
            let i = choose|i: int| 0 <= i < t.len() && t[i] == '\r';
        }
    }
    assert(!t.contains('/')) by {
        if t.contains('/') {
            let i = choose|i: int| 0 <= i < t.len() && t[i] == '/';
        }
    }
}

/// The same for bandwidth types.
pub proof fn lemma_bandwidth_type_inv(b: BandwidthType)
    ensures
        spec_parse_bandwidth_type(bandwidth_type_text(b)) == Ok::<
            BandwidthType,
            ParseErrorModel,
        >(b),
        token_ok(bandwidth_type_text(b)),
        !bandwidth_type_text(b).contains(':'),
{
    reveal_strlit("CT");
    reveal_strlit("AS");
    let t = bandwidth_type_text(b);
    if b is ApplicationSpecific {
        assert(t != "CT"@) by {
            assert(t[0] == 'A' && "CT"@[0] == 'C');
        }
    }
    assert(!t.contains(' ')) by {
        if t.contains(' ') {
            let i = choose|i: int| 0 <= i < t.len() && t[i] == ' ';
        }
    }
    assert(!t.contains('\n')) by {
        if t.contains('\n') {
            let i = choose|i: int| 0 <= i < t.len() && t[i] == '\n';
        }
    }
    assert(!t.contains('\r')) by {
        if t.contains('\r') {
            let i = choose|i: int| 0 <= i < t.len() && t[i] == '\r';
        }
    }
    assert(!t.contains(':')) by {
        if t.contains(':') {
            let i = choose|i: int| 0 <= i < t.len() && t[i] == ':';
        }
    }
}

/// The same for media types; the four tokens are pairwise distinct.
pub proof fn lemma_media_type_inv(m: MediaType)
    ensures
        spec_parse_media_type(media_type_text(m)) == Ok::<MediaType, ParseErrorModel>(m),
        token_ok(media_type_text(m)),
{
    reveal_strlit("audio");
    reveal_strlit("video");
    reveal_strlit("text");
    reveal_strlit("application");
    let t = media_type_text(m);
    match m {
        MediaType::Audio => {},
        MediaType::Video => {
            assert(t != "audio"@) by {
                assert(t[0] == 'v' && "audio"@[0] == 'a');
            }
        },
        MediaType::Text => {
            assert(t != "audio"@) by {
                assert(t[0] == 't' && "audio"@[0] == 'a');
            }
            assert(t != "video"@) by {
                assert(t[0] == 't' && "video"@[0] == 'v');
            }
        },
        MediaType::Application => {
            assert(t != "audio"@) by {
                assert(t.len() == 11 && "audio"@.len() == 5);
            }
            assert(t != "video"@) by {
                assert(t.len() == 11 && "video"@.len() == 5);
            }
            assert(t != "text"@) by {
                assert(t.len() == 11 && "text"@.len() == 4);
            }
        },
    }
    assert(!t.contains(' ')) by {
        if t.contains(' ') {
            let i = choose|i: int| 0 <= i < t.len() && t[i] == ' ';
        }
    }
    assert(!t.contains('\n')) by {
        if t.contains('\n') {
            let i = choose|i: int| 0 <= i < t.len() && t[i] == '\n';
        }
    }
    assert(!t.contains('\r')) by {
        if t.contains('\r') {
            let i = choose|i: int| 0 <= i < t.len() && t[i] == '\r';
        }
    }
}

/// A canonical numeral parses back to its value, at each width.
pub proof fn lemma_numeral_inv(n: usize)
    ensures
        spec_parse_usize(dec_str(n as nat)) == Ok::<usize, ParseErrorModel>(n),
{
    lemma_dec_str_token(n as nat);
}

/// An attribute body parses back to its key and value.
pub proof fn lemma_attribute_inv(key: Seq<char>, value: Option<Seq<char>>)
    requires
        wf_attr(key, value),
    ensures
        spec_parse_attribute(
            match value {
                Some(v) => key + seq![':'] + v,
                None => key,
            },
        ) == (key, value),
{
    match value {
        Some(v) => {
            let body = key + seq![':'] + v;
            lemma_find_char_prefix(key, v, ':');
            assert(body.take(key.len() as int) =~= key);
            assert(body.skip(key.len() as int + 1) =~= v);
        },
        None => {
            lemma_find_char_contains(key, ':');
        },
    }
}

/// An encryption-key body parses back to its method.
pub proof fn lemma_encryption_inv(m: EncryptionKeyModel)
    requires
        wf_enc(m),
    ensures
        spec_parse_encryption(encryption_text(m)) == Ok::<EncryptionKeyModel, ParseErrorModel>(m),
{
    reveal_strlit("prompt");
    reveal_strlit("clear");
    reveal_strlit("base64");
    reveal_strlit("uri");
    reveal_strlit("clear:");
    reveal_strlit("base64:");
    reveal_strlit("uri:");
    match m {
        EncryptionKeyModel::Prompt => {},
        EncryptionKeyModel::Clear(k) => {
            let body = encryption_text(m);
            assert(body != "prompt"@) by {
                assert(body[0] == 'c' && "prompt"@[0] == 'p');
            }
            assert(!("clear"@).contains(':')) by {
                if ("clear"@).contains(':') {
                    let i = choose|i: int| 0 <= i < 5 && "clear"@[i] == ':';
                }
            }
            assert(body =~= "clear"@ + seq![':'] + k);
            lemma_find_char_prefix("clear"@, k, ':');
            assert(body.take(5) =~= "clear"@);
            assert(body.skip(6) =~= k);
        },
        EncryptionKeyModel::Base64(k) => {
            let body = encryption_text(m);
            assert(body != "prompt"@) by {
                assert(body[0] == 'b' && "prompt"@[0] == 'p');
            }
            assert(!("base64"@).contains(':')) by {
                if ("base64"@).contains(':') {
                    let i = choose|i: int| 0 <= i < 6 && "base64"@[i] == ':';
                }
            }
            assert(body =~= "base64"@ + seq![':'] + k);
            lemma_find_char_prefix("base64"@, k, ':');
            assert(body.take(6) =~= "base64"@);
            assert(body.skip(7) =~= k);
            assert("base64"@ != "clear"@) by {
                assert("base64"@.len() == 6 && "clear"@.len() == 5);
            }
        },
        EncryptionKeyModel::Uri(k) => {
            let body = encryption_text(m);
            assert(body != "prompt"@) by {
                assert(body[0] == 'u' && "prompt"@[0] == 'p');
            }
            assert(!("uri"@).contains(':')) by {
                if ("uri"@).contains(':') {
                    let i = choose|i: int| 0 <= i < 3 && "uri"@[i] == ':';
                }
            }
            assert(body =~= "uri"@ + seq![':'] + k);
            lemma_find_char_prefix("uri"@, k, ':');
            assert(body.take(3) =~= "uri"@);
            assert(body.skip(4) =~= k);
            assert("uri"@ != "clear"@) by {
                assert("uri"@.len() == 3 && "clear"@.len() == 5);
            }
            assert("uri"@ != "base64"@) by {
                assert("uri"@.len() == 3 && "base64"@.len() == 6);
            }
        },
    }
}

/// The body of a bandwidth line: its type token and numeral.
pub open spec fn bandwidth_value_text(bw_type: BandwidthType, bandwidth: usize) -> Seq<char> {
    bandwidth_type_text(bw_type) + seq![':'] + dec_str(bandwidth as nat)
}

/// A bandwidth body parses back to its type and number.
pub proof fn lemma_bandwidth_inv(bw_type: BandwidthType, bandwidth: usize)
    ensures
        spec_parse_bandwidth(bandwidth_value_text(bw_type, bandwidth)) == Ok::<
            (BandwidthType, usize),
            ParseErrorModel,
        >((bw_type, bandwidth)),
{
    let bt = bandwidth_type_text(bw_type);
    let num = dec_str(bandwidth as nat);
    let body = bandwidth_value_text(bw_type, bandwidth);
    lemma_bandwidth_type_inv(bw_type);
    lemma_dec_str_token(bandwidth as nat);
    let parts = seq![bt, num];
    assert(parts.drop_first() =~= seq![num]);
    assert(join_char(seq![num], ':') == num);
    assert(join_char(parts, ':') == parts[0] + seq![':'] + join_char(parts.drop_first(), ':'));
    assert(body =~= join_char(parts, ':'));
    lemma_split_join(parts, ':');
    assert(split_char(body, ':') =~= parts);
    lemma_numeral_inv(bandwidth);
}

/// The body of a connection line: the two type tokens, the address
/// token, and the optional suffix.
pub open spec fn connection_value_text(c: ConnectionModel) -> Seq<char> {
    let base = net_type_text(c.net_type) + seq![' '] + address_type_text(c.address_type)
        + seq![' '] + connection_address_text(c);
    match c.suffix {
        Some(sfx) => base + seq![' '] + sfx,
        None => base,
    }
}

/// A connection line is its `c=` prefix followed by its body.
pub proof fn lemma_connection_line_shape(c: ConnectionModel)
    ensures
        connection_line_text(c) =~= seq!['c', '='] + connection_value_text(c),
{
    reveal_strlit("c=");
    assert("c="@ =~= seq!['c', '=']);
}

/// The address token of a connection is free of spaces, and its split on
/// `/` lists the address and the numerals that are present.
pub proof fn lemma_connection_address(c: ConnectionModel)
    requires
        wf_conn(c.address, c.ttl, c.num_addresses, c.suffix),
    ensures
        !connection_address_text(c).contains(' '),
        !connection_address_text(c).contains('\n'),
        !connection_address_text(c).contains('\r'),
        spec_parse_address_token(connection_address_text(c)) == Ok::<
            (Seq<char>, Option<usize>, Option<usize>),
            ParseErrorModel,
        >((c.address, c.ttl, c.num_addresses)),
{
    let t = connection_address_text(c);
    lemma_single_not_contains('/', ' ');
    lemma_single_not_contains('/', '\n');
    lemma_single_not_contains('/', '\r');
    match c.ttl {
        None => {
            assert(c.num_addresses is None);
            assert(t == c.address);
            lemma_split_single(t, '/');
            assert(spec_parse_address_parts(seq![c.address], t) == Ok::<
                (Seq<char>, Option<usize>, Option<usize>),
                ParseErrorModel,
            >((c.address, None, None)));
        },
        Some(ttl) => {
            lemma_dec_str_token(ttl as nat);
            match c.num_addresses {
                None => {
                    assert(t == c.address + seq!['/'] + dec_str(ttl as nat));
                    let parts = seq![c.address, dec_str(ttl as nat)];
                    assert(parts.drop_first() =~= seq![dec_str(ttl as nat)]);
                    assert(join_char(parts, '/') == parts[0] + seq!['/'] + join_char(
                        parts.drop_first(),
                        '/',
                    ));
                    assert(join_char(seq![dec_str(ttl as nat)], '/') == dec_str(ttl as nat));
                    assert(t =~= join_char(parts, '/'));
                    lemma_split_join(parts, '/');
                    lemma_numeral_inv(ttl);
                    lemma_concat_not_contains(c.address, seq!['/'], ' ');
                    lemma_concat_not_contains(c.address + seq!['/'], dec_str(ttl as nat), ' ');
                    lemma_concat_not_contains(c.address, seq!['/'], '\n');
                    lemma_concat_not_contains(c.address + seq!['/'], dec_str(ttl as nat), '\n');
                    lemma_concat_not_contains(c.address, seq!['/'], '\r');
                    lemma_concat_not_contains(c.address + seq!['/'], dec_str(ttl as nat), '\r');
                },
                Some(n) => {
                    lemma_dec_str_token(n as nat);
                    let with_ttl = c.address + seq!['/'] + dec_str(ttl as nat);
                    assert(t == with_ttl + seq!['/'] + dec_str(n as nat));
                    let parts = seq![c.address, dec_str(ttl as nat), dec_str(n as nat)];
                    assert(parts.drop_first() =~= seq![dec_str(ttl as nat), dec_str(n as nat)]);
                    assert(parts.drop_first().drop_first() =~= seq![dec_str(n as nat)]);
                    assert(join_char(seq![dec_str(n as nat)], '/') == dec_str(n as nat));
                    assert(join_char(parts.drop_first(), '/') == parts.drop_first()[0] + seq![
                        '/',
                    ] + join_char(parts.drop_first().drop_first(), '/'));
                    assert(join_char(parts, '/') == parts[0] + seq!['/'] + join_char(
                        parts.drop_first(),
                        '/',
                    ));
                    assert(t =~= join_char(parts, '/'));
                    lemma_split_join(parts, '/');
                    lemma_numeral_inv(ttl);
                    lemma_numeral_inv(n);
                    lemma_concat_not_contains(c.address, seq!['/'], ' ');
                    lemma_concat_not_contains(c.address + seq!['/'], dec_str(ttl as nat), ' ');
                    lemma_concat_not_contains(with_ttl, seq!['/'], ' ');
                    lemma_concat_not_contains(with_ttl + seq!['/'], dec_str(n as nat), ' ');
                    lemma_concat_not_contains(c.address, seq!['/'], '\n');
                    lemma_concat_not_contains(c.address + seq!['/'], dec_str(ttl as nat), '\n');
                    lemma_concat_not_contains(with_ttl, seq!['/'], '\n');
                    lemma_concat_not_contains(with_ttl + seq!['/'], dec_str(n as nat), '\n');
                    lemma_concat_not_contains(c.address, seq!['/'], '\r');
                    lemma_concat_not_contains(c.address + seq!['/'], dec_str(ttl as nat), '\r');
                    lemma_concat_not_contains(with_ttl, seq!['/'], '\r');
                    lemma_concat_not_contains(with_ttl + seq!['/'], dec_str(n as nat), '\r');
                },
            }
        },
    }
}

/// A connection body parses back to its fields.
pub proof fn lemma_connection_inv(c: ConnectionModel)
    requires
        wf_conn(c.address, c.ttl, c.num_addresses, c.suffix),
    ensures
        spec_parse_connection(connection_value_text(c)) == Ok::<
            ConnectionModel,
            ParseErrorModel,
        >(c),
{
    let nt = net_type_text(c.net_type);
    let at = address_type_text(c.address_type);
    let atok = connection_address_text(c);
    lemma_net_type_inv(c.net_type);
    lemma_address_type_inv(c.address_type);
    lemma_connection_address(c);
    let base = nt + seq![' '] + at + seq![' '] + atok;
    let head = seq![nt, at, atok];
    assert(head.drop_first() =~= seq![at, atok]);
    assert(head.drop_first().drop_first() =~= seq![atok]);
    assert(join_char(seq![atok], ' ') == atok);
    assert(join_char(head.drop_first(), ' ') == at + seq![' '] + atok);
    assert(join_char(head, ' ') == nt + seq![' '] + (at + seq![' '] + atok));
    assert(base =~= join_char(head, ' '));
    lemma_split_join(head, ' ');
    match c.suffix {
        None => {
            let tokens = split_char(base, ' ');
            assert(tokens =~= head);
            assert(tokens.len() == 3);
            assert(tokens[0] == nt && tokens[1] == at && tokens[2] == atok);
        },
        Some(sfx) => {
            let body = base + seq![' '] + sfx;
            lemma_split_concat(base, sfx, ' ');
            let tokens = split_char(body, ' ');
            assert(tokens =~= head + split_char(sfx, ' '));
            lemma_split_char_len(sfx, ' ');
            assert(tokens.len() >= 4);
            assert(tokens[0] == nt && tokens[1] == at && tokens[2] == atok);
            assert(tokens.skip(3) =~= split_char(sfx, ' '));
            lemma_join_split(sfx, ' ');
            assert(join_char(tokens.skip(3), ' ') == sfx);
        },
    }
}

/// The time-zone body splits into its token pairs and parses back to its
/// adjustments.
pub proof fn lemma_timezone_inv(adjs: Seq<TimeZoneAdjustmentModel>, value: Seq<char>)
    requires
        adjs.len() >= 1,
        forall|k: int| 0 <= k < adjs.len() ==> token_ok((#[trigger] adjs[k]).offset),
    ensures
        spec_parse_timezone(
            split_char(
                join_char(adjs.map_values(|a: TimeZoneAdjustmentModel| timezone_pair_text(a)), ' '),
                ' ',
            ),
            value,
        ) == Ok::<Seq<TimeZoneAdjustmentModel>, ParseErrorModel>(adjs),
    decreases adjs.len(),
{
    let pairs = adjs.map_values(|a: TimeZoneAdjustmentModel| timezone_pair_text(a));
    let a0 = adjs[0];
    let d0 = dec_str(a0.time as nat);
    lemma_dec_str_token(a0.time as nat);
    lemma_numeral_inv(a0.time);
    assert(pairs[0] == timezone_pair_text(a0));
    assert(timezone_pair_text(a0) == d0 + seq![' '] + a0.offset);
    if adjs.len() == 1 {
        assert(pairs.len() == 1);
        assert(join_char(pairs, ' ') == pairs[0]);
        lemma_split_concat(d0, a0.offset, ' ');
        lemma_split_single(d0, ' ');
        lemma_split_single(a0.offset, ' ');
        let tokens = split_char(pairs[0], ' ');
        assert(tokens =~= seq![d0, a0.offset]);
        assert(tokens.len() == 2);
        assert(spec_parse_timezone(tokens.skip(2), value) == Ok::<
            Seq<TimeZoneAdjustmentModel>,
            ParseErrorModel,
        >(Seq::empty())) by {
            assert(tokens.skip(2) =~= Seq::<Seq<char>>::empty());
        }
        assert(seq![TimeZoneAdjustmentModel { time: a0.time, offset: a0.offset }] + Seq::<
            TimeZoneAdjustmentModel,
        >::empty() =~= adjs) by {
            assert(TimeZoneAdjustmentModel { time: a0.time, offset: a0.offset } == a0);
        }
    } else {
        let rest = adjs.drop_first();
        assert forall|k: int| 0 <= k < rest.len() implies token_ok(
            (#[trigger] rest[k]).offset,
        ) by {
            assert(rest[k] == adjs[k + 1]);
        }
        lemma_timezone_inv(rest, value);
        let rpairs = rest.map_values(|a: TimeZoneAdjustmentModel| timezone_pair_text(a));
        assert(pairs.drop_first() =~= rpairs);
        assert(join_char(pairs, ' ') == pairs[0] + seq![' '] + join_char(rpairs, ' '));
        let body = join_char(pairs, ' ');
        assert(body =~= (d0 + seq![' '] + a0.offset) + seq![' '] + join_char(rpairs, ' '));
        assert(body =~= d0 + seq![' '] + (a0.offset + seq![' '] + join_char(rpairs, ' ')));
        lemma_split_concat(d0, a0.offset + seq![' '] + join_char(rpairs, ' '), ' ');
        lemma_split_concat(a0.offset, join_char(rpairs, ' '), ' ');
        lemma_split_single(d0, ' ');
        lemma_split_single(a0.offset, ' ');
        let tokens = split_char(body, ' ');
        let rtokens = split_char(join_char(rpairs, ' '), ' ');
        assert(tokens =~= seq![d0] + (seq![a0.offset] + rtokens));
        lemma_split_char_len(join_char(rpairs, ' '), ' ');
        assert(tokens.len() >= 2);
        assert(tokens[0] == d0);
        assert(tokens[1] == a0.offset);
        assert(tokens.skip(2) =~= rtokens);
        assert(seq![TimeZoneAdjustmentModel { time: a0.time, offset: a0.offset }] + rest
            =~= adjs) by {
            assert(TimeZoneAdjustmentModel { time: a0.time, offset: a0.offset } == a0);
        }
    }
}

/// Pointwise absence gives `contains`-absence.
pub proof fn lemma_no_char(s: Seq<char>, c: char)
    requires
        forall|i: int| 0 <= i < s.len() ==> s[i] != c,
    ensures
        !s.contains(c),
{
    if s.contains(c) {
        let i = choose|i: int| 0 <= i < s.len() && s[i] == c;
    }
}

/// Concatenation preserves line-safety.
pub proof fn lemma_cat_text_ok(a: Seq<char>, b: Seq<char>)
    requires
        text_ok(a),
        text_ok(b),
    ensures
        text_ok(a + b),
{
    lemma_concat_not_contains(a, b, '\n');
    lemma_concat_not_contains(a, b, '\r');
}

/// A `key=` prefix is line-safe for an ordinary key character.
pub proof fn lemma_key_prefix_text_ok(k: char)
    requires
        k != '\n',
        k != '\r',
    ensures
        text_ok(seq![k, '=']),
{
    lemma_no_char(seq![k, '='], '\n');
    lemma_no_char(seq![k, '='], '\r');
}

/// A single separator character is line-safe.
pub proof fn lemma_sep_text_ok(c: char)
    requires
        c != '\n',
        c != '\r',
    ensures
        text_ok(seq![c]),
{
    lemma_no_char(seq![c], '\n');
    lemma_no_char(seq![c], '\r');
}

/// The body of an encryption-key line is line-safe.
pub proof fn lemma_encryption_text_ok(m: EncryptionKeyModel)
    requires
        wf_enc(m),
    ensures
        text_ok(encryption_text(m)),
{
    reveal_strlit("prompt");
    reveal_strlit("clear:");
    reveal_strlit("base64:");
    reveal_strlit("uri:");
    match m {
        EncryptionKeyModel::Prompt => {
            lemma_no_char("prompt"@, '\n');
            lemma_no_char("prompt"@, '\r');
        },
        EncryptionKeyModel::Clear(k) => {
            lemma_no_char("clear:"@, '\n');
            lemma_no_char("clear:"@, '\r');
            lemma_cat_text_ok("clear:"@, k);
        },
        EncryptionKeyModel::Base64(k) => {
            lemma_no_char("base64:"@, '\n');
            lemma_no_char("base64:"@, '\r');
            lemma_cat_text_ok("base64:"@, k);
        },
        EncryptionKeyModel::Uri(k) => {
            lemma_no_char("uri:"@, '\n');
            lemma_no_char("uri:"@, '\r');
            lemma_cat_text_ok("uri:"@, k);
        },
    }
}

/// The body of a connection line is line-safe.
pub proof fn lemma_connection_value_text_ok(c: ConnectionModel)
    requires
        wf_conn(c.address, c.ttl, c.num_addresses, c.suffix),
    ensures
        text_ok(connection_value_text(c)),
{
    lemma_net_type_inv(c.net_type);
    lemma_address_type_inv(c.address_type);
    lemma_connection_address(c);
    lemma_sep_text_ok(' ');
    let nt = net_type_text(c.net_type);
    let at = address_type_text(c.address_type);
    let atok = connection_address_text(c);
    lemma_cat_text_ok(nt, seq![' ']);
    lemma_cat_text_ok(nt + seq![' '], at);
    lemma_cat_text_ok(nt + seq![' '] + at, seq![' ']);
    lemma_cat_text_ok(nt + seq![' '] + at + seq![' '], atok);
    match c.suffix {
        Some(sfx) => {
            let base = nt + seq![' '] + at + seq![' '] + atok;
            lemma_cat_text_ok(base, seq![' ']);
            lemma_cat_text_ok(base + seq![' '], sfx);
        },
        None => {},
    }
}

/// What one serialized media-level line looks like and how it parses:
/// line-safe, at least two characters, its first character is its key
/// (never `m`), and parsing it restores the record.
pub proof fn lemma_media_prop_line(p: MediaPropModel)
    requires
        wf_media_prop(p),
    ensures
        spec_parse_media_prop(spec_ser_media_prop(p)) == Ok::<MediaPropModel, ParseErrorModel>(p),
        text_ok(spec_ser_media_prop(p)),
        spec_ser_media_prop(p).len() >= 2,
        spec_ser_media_prop(p)[0] != 'm',
{
    let line = spec_ser_media_prop(p);
    match p {
        MediaPropModel::Title(t) => {
            reveal_strlit("i=");
            assert(line =~= seq!['i', '='] + t);
            lemma_content_inv('i', t);
            lemma_key_prefix_text_ok('i');
            lemma_cat_text_ok(seq!['i', '='], t);
            assert(line[0] == 'i');
        },
        MediaPropModel::Connection { net_type, address_type, address, ttl, num_addresses, suffix } => {
            let c = ConnectionModel { net_type, address_type, address, ttl, num_addresses, suffix };
            lemma_connection_line_shape(c);
            lemma_content_inv('c', connection_value_text(c));
            lemma_connection_inv(c);
            lemma_key_prefix_text_ok('c');
            lemma_connection_value_text_ok(c);
            lemma_cat_text_ok(seq!['c', '='], connection_value_text(c));
            assert(line[0] == 'c');
        },
        MediaPropModel::Bandwidth { bw_type, bandwidth } => {
            reveal_strlit("b=");
            assert(line =~= seq!['b', '='] + bandwidth_value_text(bw_type, bandwidth));
            lemma_content_inv('b', bandwidth_value_text(bw_type, bandwidth));
            lemma_bandwidth_inv(bw_type, bandwidth);
            lemma_key_prefix_text_ok('b');
            lemma_bandwidth_type_inv(bw_type);
            lemma_dec_str_token(bandwidth as nat);
            lemma_sep_text_ok(':');
            lemma_cat_text_ok(bandwidth_type_text(bw_type), seq![':']);
            lemma_cat_text_ok(bandwidth_type_text(bw_type) + seq![':'], dec_str(bandwidth as nat));
            lemma_cat_text_ok(seq!['b', '='], bandwidth_value_text(bw_type, bandwidth));
            assert(line[0] == 'b');
        },
        MediaPropModel::EncryptionKeys(m) => {
            reveal_strlit("k=");
            assert(line =~= seq!['k', '='] + encryption_text(m));
            lemma_content_inv('k', encryption_text(m));
            lemma_encryption_inv(m);
            lemma_key_prefix_text_ok('k');
            lemma_encryption_text_ok(m);
            lemma_cat_text_ok(seq!['k', '='], encryption_text(m));
            assert(line[0] == 'k');
        },
        MediaPropModel::Attribute { key, value } => {
            reveal_strlit("a=");
            let body = match value {
                Some(v) => key + seq![':'] + v,
                None => key,
            };
            assert(line =~= seq!['a', '='] + body);
            lemma_content_inv('a', body);
            lemma_attribute_inv(key, value);
            lemma_key_prefix_text_ok('a');
            match value {
                Some(v) => {
                    lemma_sep_text_ok(':');
                    lemma_cat_text_ok(key, seq![':']);
                    lemma_cat_text_ok(key + seq![':'], v);
                },
                None => {},
            }
            lemma_cat_text_ok(seq!['a', '='], body);
            assert(line[0] == 'a');
        },
    }
}

/// A list of canonical port numerals parses back to its ports.
pub proof fn lemma_ports_inv(ports: Seq<u16>)
    ensures
        spec_parse_ports(ports.map_values(|p: u16| dec_str(p as nat))) == Ok::<
            Seq<u16>,
            ParseErrorModel,
        >(ports),
    decreases ports.len(),
{
    let parts = ports.map_values(|p: u16| dec_str(p as nat));
    if ports.len() == 0 {
        assert(parts.len() == 0);
        assert(ports =~= Seq::<u16>::empty());
    } else {
        lemma_dec_str_token(ports[0] as nat);
        assert(parts[0] == dec_str(ports[0] as nat));
        assert(spec_parse_u16(parts[0]) == Ok::<u16, ParseErrorModel>(ports[0]));
        lemma_ports_inv(ports.drop_first());
        assert(parts.drop_first() =~= ports.drop_first().map_values(
            |p: u16| dec_str(p as nat),
        ));
        assert(spec_parse_ports(parts.drop_first()) == Ok::<Seq<u16>, ParseErrorModel>(
            ports.drop_first(),
        ));
        assert(spec_parse_ports(parts) == Ok::<Seq<u16>, ParseErrorModel>(
            seq![ports[0]] + ports.drop_first(),
        ));
        assert(seq![ports[0]] + ports.drop_first() =~= ports);
    }
}

/// A list of serialized media-level lines parses back to its records.
pub proof fn lemma_media_props_inv(props: Seq<MediaPropModel>)
    requires
        forall|k: int| 0 <= k < props.len() ==> wf_media_prop(#[trigger] props[k]),
    ensures
        spec_parse_media_props(props.map_values(|p: MediaPropModel| spec_ser_media_prop(p)))
            == Ok::<Seq<MediaPropModel>, ParseErrorModel>(props),
    decreases props.len(),
{
    let lines = props.map_values(|p: MediaPropModel| spec_ser_media_prop(p));
    if props.len() == 0 {
        assert(lines.len() == 0);
        assert(props =~= Seq::<MediaPropModel>::empty());
    } else {
        assert(wf_media_prop(props[0]));
        lemma_media_prop_line(props[0]);
        assert(lines[0] == spec_ser_media_prop(props[0]));
        assert(spec_parse_media_prop(lines[0]) == Ok::<MediaPropModel, ParseErrorModel>(
            props[0],
        ));
        assert forall|k: int| 0 <= k < props.drop_first().len() implies wf_media_prop(
            #[trigger] props.drop_first()[k],
        ) by {
            assert(props.drop_first()[k] == props[k + 1]);
        }
        lemma_media_props_inv(props.drop_first());
        assert(lines.drop_first() =~= props.drop_first().map_values(
            |p: MediaPropModel| spec_ser_media_prop(p),
        ));
        assert(spec_parse_media_props(lines.drop_first()) == Ok::<
            Seq<MediaPropModel>,
            ParseErrorModel,
        >(props.drop_first()));
        assert(spec_parse_media_props(lines) == Ok::<Seq<MediaPropModel>, ParseErrorModel>(
            seq![props[0]] + props.drop_first(),
        ));
        assert(seq![props[0]] + props.drop_first() =~= props);
    }
}

/// The serialized media-level lines, joined with bare line feeds.
pub open spec fn media_props_block(props: Seq<MediaPropModel>) -> Seq<char> {
    join_char(props.map_values(|p: MediaPropModel| spec_ser_media_prop(p)), '\n')
}

/// The value of a serialized media record under bare line feeds: its
/// header body, then its nested lines.
pub open spec fn media_value_text(
    media_type: MediaType,
    ports: Seq<u16>,
    protocol: Seq<char>,
    format: Seq<char>,
    props: Seq<MediaPropModel>,
) -> Seq<char> {
    let header = media_type_text(media_type) + seq![' '] + join_char(
        ports.map_values(|p: u16| dec_str(p as nat)),
        '/',
    ) + seq![' '] + protocol + seq![' '] + format;
    if props.len() == 0 {
        header
    } else {
        header + seq!['\n'] + media_props_block(props)
    }
}

/// A serialized media record under bare line feeds is its `m=` prefix
/// followed by its value.
pub proof fn lemma_media_record_shape(
    media_type: MediaType,
    ports: Seq<u16>,
    protocol: Seq<char>,
    format: Seq<char>,
    props: Seq<MediaPropModel>,
)
    ensures
        spec_ser_record(
            SdpPropModel::Media { media_type, ports, protocol, format, props },
            LineEnding::LF,
        ) =~= seq!['m', '='] + media_value_text(media_type, ports, protocol, format, props),
{
    reveal_strlit("m=");
    assert("m="@ =~= seq!['m', '=']);
}

/// The header body of a media record has no line break, and the port
/// join is a token.
pub proof fn lemma_media_header_clean(
    media_type: MediaType,
    ports: Seq<u16>,
    protocol: Seq<char>,
    format: Seq<char>,
)
    requires
        token_ok(protocol),
        text_ok(format),
    ensures
        text_ok(
            media_type_text(media_type) + seq![' '] + join_char(
                ports.map_values(|p: u16| dec_str(p as nat)),
                '/',
            ) + seq![' '] + protocol + seq![' '] + format,
        ),
        token_ok(join_char(ports.map_values(|p: u16| dec_str(p as nat)), '/')),
{
    let pviews = ports.map_values(|p: u16| dec_str(p as nat));
    let pj = join_char(pviews, '/');
    lemma_media_type_inv(media_type);
    assert forall|k: int| 0 <= k < pviews.len() implies token_ok(#[trigger] pviews[k])
        && !pviews[k].contains('/') by {
        lemma_dec_str_token(ports[k] as nat);
        assert(pviews[k] == dec_str(ports[k] as nat));
    }
    lemma_single_not_contains('/', ' ');
    lemma_single_not_contains('/', '\n');
    lemma_single_not_contains('/', '\r');
    lemma_join_not_contains(pviews, seq!['/'], ' ');
    lemma_join_not_contains(pviews, seq!['/'], '\n');
    lemma_join_not_contains(pviews, seq!['/'], '\r');
    lemma_sep_text_ok(' ');
    let mt = media_type_text(media_type);
    lemma_cat_text_ok(mt, seq![' ']);
    lemma_cat_text_ok(mt + seq![' '], pj);
    lemma_cat_text_ok(mt + seq![' '] + pj, seq![' ']);
    lemma_cat_text_ok(mt + seq![' '] + pj + seq![' '], protocol);
    lemma_cat_text_ok(mt + seq![' '] + pj + seq![' '] + protocol, seq![' ']);
    lemma_cat_text_ok(mt + seq![' '] + pj + seq![' '] + protocol + seq![' '], format);
}

/// A serialized media value parses back to its media record.
pub proof fn lemma_media_inv(
    media_type: MediaType,
    ports: Seq<u16>,
    protocol: Seq<char>,
    format: Seq<char>,
    props: Seq<MediaPropModel>,
)
    requires
        wf_record(SdpPropModel::Media { media_type, ports, protocol, format, props }),
    ensures
        spec_parse_media(media_value_text(media_type, ports, protocol, format, props)) == Ok::<
            SdpPropModel,
            ParseErrorModel,
        >(SdpPropModel::Media { media_type, ports, protocol, format, props }),
{
    let m = SdpPropModel::Media { media_type, ports, protocol, format, props };
    assert(m->Media_props == props);
    assert(m->Media_ports == ports);
    let pviews = ports.map_values(|p: u16| dec_str(p as nat));
    let pj = join_char(pviews, '/');
    let mt = media_type_text(media_type);
    let header = mt + seq![' '] + pj + seq![' '] + protocol + seq![' '] + format;
    let value = media_value_text(media_type, ports, protocol, format, props);
    lemma_media_header_clean(media_type, ports, protocol, format);

    // The lines of the record: the header, then the serialized props.
    let lines = split_char(value, '\n');
    let plines = props.map_values(|p: MediaPropModel| spec_ser_media_prop(p));
    if props.len() == 0 {
        lemma_split_single(value, '\n');
        assert(lines =~= seq![header]);
    } else {
        lemma_split_concat(header, media_props_block(props), '\n');
        lemma_split_single(header, '\n');
        assert forall|k: int| 0 <= k < plines.len() implies !(#[trigger] plines[k]).contains(
            '\n',
        ) by {
            assert(plines[k] == spec_ser_media_prop(props[k]));
            assert(wf_media_prop(props[k]));
            lemma_media_prop_line(props[k]);
        }
        lemma_split_join(plines, '\n');
        assert(split_char(media_props_block(props), '\n') =~= plines);
        assert(lines =~= seq![header] + plines);
    }
    assert(lines[0] == header);

    // The header tokens: media type, port join, protocol, then the
    // format tokens.
    let tokens = split_char(header, ' ');
    lemma_media_type_inv(media_type);
    lemma_split_concat(mt + seq![' '] + pj + seq![' '] + protocol, format, ' ');
    lemma_split_concat(mt + seq![' '] + pj, protocol, ' ');
    lemma_split_concat(mt, pj, ' ');
    lemma_split_single(mt, ' ');
    lemma_split_single(pj, ' ');
    lemma_split_single(protocol, ' ');
    assert(mt + seq![' '] + pj + seq![' '] + protocol + seq![' '] + format =~= (mt + seq![' ']
        + pj + seq![' '] + protocol) + seq![' '] + format);
    assert(mt + seq![' '] + pj + seq![' '] + protocol =~= (mt + seq![' '] + pj) + seq![' ']
        + protocol);
    assert(tokens =~= seq![mt, pj, protocol] + split_char(format, ' '));
    lemma_split_char_len(format, ' ');
    assert(tokens.len() >= 4);
    assert(tokens[0] == mt && tokens[1] == pj && tokens[2] == protocol);

    // Ports.
    assert forall|k: int| 0 <= k < pviews.len() implies !(#[trigger] pviews[k]).contains(
        '/',
    ) by {
        lemma_dec_str_token(ports[k] as nat);
    }
    lemma_split_join(pviews, '/');
    assert(split_char(pj, '/') =~= pviews);
    lemma_ports_inv(ports);

    // Format.
    assert(tokens.skip(3) =~= split_char(format, ' '));
    lemma_join_split(format, ' ');

    // Props.
    assert forall|k: int| 0 <= k < props.len() implies wf_media_prop(#[trigger] props[k]) by {}
    lemma_media_props_inv(props);
    assert(lines.drop_first() =~= plines);
}

/// The join of a fixed pair of parts, unfolded.
pub proof fn lemma_join2(a: Seq<char>, b: Seq<char>, c: char)
    ensures
        join_char(seq![a, b], c) == a + seq![c] + b,
{
    let parts = seq![a, b];
    assert(parts.drop_first() =~= seq![b]);
    assert(join_char(seq![b], c) == b);
    assert(join_char(parts, c) == parts[0] + seq![c] + join_char(parts.drop_first(), c));
}

/// The origin record inverts: helper for [`lemma_record_inv`].
#[verifier::rlimit(100)]
proof fn lemma_record_inv_origin(
    username: Seq<char>,
    session_id: Seq<char>,
    session_version: usize,
    net_type: NetworkType,
    address_type: AddressType,
    address: Seq<char>,
)
    requires
        token_ok(username),
        token_ok(session_id),
        token_ok(address),
    ensures
        ({
            let r = SdpPropModel::Origin {
                username,
                session_id,
                session_version,
                net_type,
                address_type,
                address,
            };
            let text = spec_ser_record(r, LineEnding::LF);
            spec_parse_record(text) == Ok::<SdpPropModel, ParseErrorModel>(r)
                && !text.contains('\r') && !text.contains('\n') && text.len() >= 2 && text[0]
                == 'o'
        }),
{
    let r = SdpPropModel::Origin {
        username,
        session_id,
        session_version,
        net_type,
        address_type,
        address,
    };
    let text = spec_ser_record(r, LineEnding::LF);
            reveal_strlit("o=");
            let sv = dec_str(session_version as nat);
            let nt = net_type_text(net_type);
            let at = address_type_text(address_type);
            let body = username + seq![' '] + session_id + seq![' '] + sv + seq![' '] + nt + seq![
                ' ',
            ] + at + seq![' '] + address;
            assert(text =~= seq!['o', '='] + body);
            lemma_content_inv('o', body);
            lemma_dec_str_token(session_version as nat);
            lemma_net_type_inv(net_type);
            lemma_address_type_inv(address_type);
            let toks = seq![username, session_id, sv, nt, at, address];
            assert(toks.drop_first() =~= seq![session_id, sv, nt, at, address]);
            assert(toks.drop_first().drop_first() =~= seq![sv, nt, at, address]);
            assert(toks.drop_first().drop_first().drop_first() =~= seq![nt, at, address]);
            assert(toks.drop_first().drop_first().drop_first().drop_first() =~= seq![at, address]);
            assert(toks.drop_first().drop_first().drop_first().drop_first().drop_first() =~= seq![
                address,
            ]);
            assert(join_char(seq![address], ' ') == address);
            let t4 = toks.drop_first().drop_first().drop_first().drop_first();
            let t3 = toks.drop_first().drop_first().drop_first();
            let t2 = toks.drop_first().drop_first();
            let t1 = toks.drop_first();
            lemma_join2(at, address, ' ');
            assert(join_char(t4, ' ') == at + seq![' '] + address);
            assert(join_char(t3, ' ') == t3[0] + seq![' '] + join_char(t3.drop_first(), ' '));
            assert(t3.drop_first() =~= t4);
            assert(join_char(t3, ' ') == nt + seq![' '] + (at + seq![' '] + address));
            assert(join_char(t2, ' ') == t2[0] + seq![' '] + join_char(t2.drop_first(), ' '));
            assert(t2.drop_first() =~= t3);
            assert(join_char(t1, ' ') == t1[0] + seq![' '] + join_char(t1.drop_first(), ' '));
            assert(t1.drop_first() =~= t2);
            assert(join_char(toks, ' ') == toks[0] + seq![' '] + join_char(t1, ' '));
            assert(body =~= join_char(toks, ' '));
            lemma_split_join(toks, ' ');
            assert(split_char(body, ' ') =~= toks);
            lemma_numeral_inv(session_version);
            lemma_sep_text_ok(' ');
            lemma_cat_text_ok(username, seq![' ']);
            lemma_cat_text_ok(username + seq![' '], session_id);
            lemma_cat_text_ok(username + seq![' '] + session_id, seq![' ']);
            lemma_cat_text_ok(username + seq![' '] + session_id + seq![' '], sv);
            lemma_cat_text_ok(username + seq![' '] + session_id + seq![' '] + sv, seq![' ']);
            lemma_cat_text_ok(username + seq![' '] + session_id + seq![' '] + sv + seq![' '], nt);
            lemma_cat_text_ok(
                username + seq![' '] + session_id + seq![' '] + sv + seq![' '] + nt,
                seq![' '],
            );
            lemma_cat_text_ok(
                username + seq![' '] + session_id + seq![' '] + sv + seq![' '] + nt + seq![' '],
                at,
            );
            lemma_cat_text_ok(
                username + seq![' '] + session_id + seq![' '] + sv + seq![' '] + nt + seq![' ']
                    + at,
                seq![' '],
            );
            lemma_cat_text_ok(
                username + seq![' '] + session_id + seq![' '] + sv + seq![' '] + nt + seq![' ']
                    + at + seq![' '],
                address,
            );
            lemma_key_prefix_text_ok('o');
            lemma_cat_text_ok(seq!['o', '='], body);
            assert(text[0] == 'o');
        }

/// The repeat-times record inverts: helper for [`lemma_record_inv`].
#[verifier::rlimit(100)]
proof fn lemma_record_inv_repeat(
    interval: Seq<char>,
    active_duration: Seq<char>,
    start_offsets: Seq<Seq<char>>,
)
    requires
        token_ok(interval),
        token_ok(active_duration),
        start_offsets.len() >= 1,
        forall|k: int| 0 <= k < start_offsets.len() ==> token_ok(#[trigger] start_offsets[k]),
    ensures
        ({
            let r = SdpPropModel::RepeatTimes { interval, active_duration, start_offsets };
            let text = spec_ser_record(r, LineEnding::LF);
            spec_parse_record(text) == Ok::<SdpPropModel, ParseErrorModel>(r)
                && !text.contains('\r') && !text.contains('\n') && text.len() >= 2 && text[0]
                == 'r'
        }),
{
    let r = SdpPropModel::RepeatTimes { interval, active_duration, start_offsets };
    let text = spec_ser_record(r, LineEnding::LF);
            reveal_strlit("r=");
            let oj = join_char(start_offsets, ' ');
            let body = interval + seq![' '] + active_duration + seq![' '] + oj;
            assert(text =~= seq!['r', '='] + body);
            lemma_content_inv('r', body);
            lemma_split_join(start_offsets, ' ');
            lemma_split_concat(interval + seq![' '] + active_duration, oj, ' ');
            lemma_split_concat(interval, active_duration, ' ');
            lemma_split_single(interval, ' ');
            lemma_split_single(active_duration, ' ');
            assert(interval + seq![' '] + active_duration + seq![' '] + oj =~= (interval + seq![
                ' ',
            ] + active_duration) + seq![' '] + oj);
            let tokens = split_char(body, ' ');
            assert(tokens =~= seq![interval, active_duration] + start_offsets);
            assert(tokens.len() >= 2);
            assert(tokens[0] == interval && tokens[1] == active_duration);
            assert(tokens.skip(2) =~= start_offsets);
            assert forall|k: int| 0 <= k < start_offsets.len() implies !(
            #[trigger] start_offsets[k]).contains('\n') && !start_offsets[k].contains('\r') by {}
            lemma_join_not_contains(start_offsets, seq![' '], '\n');
            lemma_join_not_contains(start_offsets, seq![' '], '\r');
            lemma_sep_text_ok(' ');
            lemma_cat_text_ok(interval, seq![' ']);
            lemma_cat_text_ok(interval + seq![' '], active_duration);
            lemma_cat_text_ok(interval + seq![' '] + active_duration, seq![' ']);
            lemma_cat_text_ok(interval + seq![' '] + active_duration + seq![' '], oj);
            lemma_key_prefix_text_ok('r');
            lemma_cat_text_ok(seq!['r', '='], body);
            assert(text[0] == 'r');
        }

/// The time-zone record inverts: helper for [`lemma_record_inv`].
#[verifier::rlimit(100)]
proof fn lemma_record_inv_timezone(adjs: Seq<TimeZoneAdjustmentModel>)
    requires
        adjs.len() >= 1,
        forall|k: int| 0 <= k < adjs.len() ==> token_ok((#[trigger] adjs[k]).offset),
    ensures
        ({
            let r = SdpPropModel::TimeZone(adjs);
            let text = spec_ser_record(r, LineEnding::LF);
            spec_parse_record(text) == Ok::<SdpPropModel, ParseErrorModel>(r)
                && !text.contains('\r') && !text.contains('\n') && text.len() >= 2 && text[0]
                == 'z'
        }),
{
    let r = SdpPropModel::TimeZone(adjs);
    let text = spec_ser_record(r, LineEnding::LF);
            reveal_strlit("z=");
            let pairs = adjs.map_values(|a: TimeZoneAdjustmentModel| timezone_pair_text(a));
            let body = join_char(pairs, ' ');
            assert(text =~= seq!['z', '='] + body);
            lemma_content_inv('z', body);
            lemma_timezone_inv(adjs, body);
            assert forall|k: int| 0 <= k < pairs.len() implies !(#[trigger] pairs[k]).contains(
                '\n',
            ) && !pairs[k].contains('\r') by {
                assert(pairs[k] == timezone_pair_text(adjs[k]));
                lemma_dec_str_token(adjs[k].time as nat);
                lemma_sep_text_ok(' ');
                lemma_cat_text_ok(dec_str(adjs[k].time as nat), seq![' ']);
                lemma_cat_text_ok(dec_str(adjs[k].time as nat) + seq![' '], adjs[k].offset);
            }
            lemma_sep_text_ok(' ');
            lemma_join_not_contains(pairs, seq![' '], '\n');
            lemma_join_not_contains(pairs, seq![' '], '\r');
            lemma_key_prefix_text_ok('z');
            lemma_cat_text_ok(seq!['z', '='], body);
            assert(text[0] == 'z');
        }

/// The media record inverts: helper for [`lemma_record_inv`].
#[verifier::rlimit(100)]
proof fn lemma_record_inv_media(
    media_type: MediaType,
    ports: Seq<u16>,
    protocol: Seq<char>,
    format: Seq<char>,
    props: Seq<MediaPropModel>,
)
    requires
        wf_record(SdpPropModel::Media { media_type, ports, protocol, format, props }),
    ensures
        ({
            let r = SdpPropModel::Media { media_type, ports, protocol, format, props };
            let text = spec_ser_record(r, LineEnding::LF);
            spec_parse_record(text) == Ok::<SdpPropModel, ParseErrorModel>(r)
                && !text.contains('\r') && text.len() >= 2 && text[0] == 'm'
        }),
{
    let r = SdpPropModel::Media { media_type, ports, protocol, format, props };
    let text = spec_ser_record(r, LineEnding::LF);
            let value = media_value_text(media_type, ports, protocol, format, props);
            lemma_media_record_shape(media_type, ports, protocol, format, props);
            lemma_content_inv('m', value);
            lemma_media_inv(media_type, ports, protocol, format, props);
            let m = SdpPropModel::Media { media_type, ports, protocol, format, props };
            assert(m->Media_props == props);
            lemma_media_header_clean(media_type, ports, protocol, format);
            let header = media_type_text(media_type) + seq![' '] + join_char(
                ports.map_values(|p: u16| dec_str(p as nat)),
                '/',
            ) + seq![' '] + protocol + seq![' '] + format;
            let plines = props.map_values(|p: MediaPropModel| spec_ser_media_prop(p));
            assert forall|k: int| 0 <= k < plines.len() implies !(#[trigger] plines[k]).contains(
                '\r',
            ) by {
                assert(plines[k] == spec_ser_media_prop(props[k]));
                assert(wf_media_prop(props[k]));
                lemma_media_prop_line(props[k]);
            }
            lemma_single_not_contains('\n', '\r');
            if props.len() > 0 {
                lemma_join_not_contains(plines, seq!['\n'], '\r');
                lemma_concat_not_contains(header, seq!['\n'], '\r');
                lemma_concat_not_contains(header + seq!['\n'], media_props_block(props), '\r');
            }
            lemma_key_prefix_text_ok('m');
            lemma_concat_not_contains(seq!['m', '='], value, '\r');
            assert(text[0] == 'm');
        }

/// One serialized top-level record under bare line feeds: parsing it
/// restores the record; its text is free of carriage returns, starts
/// with its key, and is a single line unless it is a media record.
#[verifier::rlimit(100)]
pub proof fn lemma_record_inv(r: SdpPropModel)
    requires
        wf_record(r),
    ensures
        spec_parse_record(spec_ser_record(r, LineEnding::LF)) == Ok::<
            SdpPropModel,
            ParseErrorModel,
        >(r),
        !spec_ser_record(r, LineEnding::LF).contains('\r'),
        spec_ser_record(r, LineEnding::LF).len() >= 2,
        r is Media ==> spec_ser_record(r, LineEnding::LF)[0] == 'm',
        !(r is Media) ==> spec_ser_record(r, LineEnding::LF)[0] != 'm'
            && !spec_ser_record(r, LineEnding::LF).contains('\n'),
{
    let text = spec_ser_record(r, LineEnding::LF);
    match r {
        SdpPropModel::Version(v) => {
            reveal_strlit("v=");
            let body = dec_str(v as nat);
            assert(text =~= seq!['v', '='] + body);
            lemma_content_inv('v', body);
            lemma_dec_str_token(v as nat);
            lemma_key_prefix_text_ok('v');
            lemma_cat_text_ok(seq!['v', '='], body);
            assert(text[0] == 'v');
        },
        SdpPropModel::Origin {
            username,
            session_id,
            session_version,
            net_type,
            address_type,
            address,
        } => {
            lemma_record_inv_origin(
                username,
                session_id,
                session_version,
                net_type,
                address_type,
                address,
            );
        },
        SdpPropModel::SessionName(s) => {
            reveal_strlit("s=");
            assert(text =~= seq!['s', '='] + s);
            lemma_content_inv('s', s);
            lemma_key_prefix_text_ok('s');
            lemma_cat_text_ok(seq!['s', '='], s);
            assert(text[0] == 's');
        },
        SdpPropModel::SessionInformation(s) => {
            reveal_strlit("i=");
            assert(text =~= seq!['i', '='] + s);
            lemma_content_inv('i', s);
            lemma_key_prefix_text_ok('i');
            lemma_cat_text_ok(seq!['i', '='], s);
            assert(text[0] == 'i');
        },
        SdpPropModel::Uri(s) => {
            reveal_strlit("u=");
            assert(text =~= seq!['u', '='] + s);
            lemma_content_inv('u', s);
            lemma_key_prefix_text_ok('u');
            lemma_cat_text_ok(seq!['u', '='], s);
            assert(text[0] == 'u');
        },
        SdpPropModel::Email(s) => {
            reveal_strlit("e=");
            assert(text =~= seq!['e', '='] + s);
            lemma_content_inv('e', s);
            lemma_key_prefix_text_ok('e');
            lemma_cat_text_ok(seq!['e', '='], s);
            assert(text[0] == 'e');
        },
        SdpPropModel::Phone(s) => {
            reveal_strlit("p=");
            assert(text =~= seq!['p', '='] + s);
            lemma_content_inv('p', s);
            lemma_key_prefix_text_ok('p');
            lemma_cat_text_ok(seq!['p', '='], s);
            assert(text[0] == 'p');
        },
        SdpPropModel::Connection { net_type, address_type, address, ttl, num_addresses, suffix } => {
            let c = ConnectionModel { net_type, address_type, address, ttl, num_addresses, suffix };
            lemma_connection_line_shape(c);
            lemma_content_inv('c', connection_value_text(c));
            lemma_connection_inv(c);
            lemma_key_prefix_text_ok('c');
            lemma_connection_value_text_ok(c);
            lemma_cat_text_ok(seq!['c', '='], connection_value_text(c));
            assert(text[0] == 'c');
        },
        SdpPropModel::Bandwidth { bw_type, bandwidth } => {
            reveal_strlit("b=");
            let body = bandwidth_value_text(bw_type, bandwidth);
            assert(text =~= seq!['b', '='] + body);
            lemma_content_inv('b', body);
            lemma_bandwidth_inv(bw_type, bandwidth);
            lemma_key_prefix_text_ok('b');
            lemma_bandwidth_type_inv(bw_type);
            lemma_dec_str_token(bandwidth as nat);
            lemma_sep_text_ok(':');
            lemma_cat_text_ok(bandwidth_type_text(bw_type), seq![':']);
            lemma_cat_text_ok(bandwidth_type_text(bw_type) + seq![':'], dec_str(bandwidth as nat));
            lemma_cat_text_ok(seq!['b', '='], body);
            assert(text[0] == 'b');
        },
        SdpPropModel::Timing { start, stop } => {
            reveal_strlit("t=");
            let d1 = dec_str(start as nat);
            let d2 = dec_str(stop as nat);
            let body = d1 + seq![' '] + d2;
            assert(text =~= seq!['t', '='] + body);
            lemma_content_inv('t', body);
            lemma_dec_str_token(start as nat);
            lemma_dec_str_token(stop as nat);
            lemma_join2(d1, d2, ' ');
            lemma_split_join(seq![d1, d2], ' ');
            assert(split_char(body, ' ') =~= seq![d1, d2]);
            lemma_numeral_inv(start);
            lemma_numeral_inv(stop);
            lemma_sep_text_ok(' ');
            lemma_cat_text_ok(d1, seq![' ']);
            lemma_cat_text_ok(d1 + seq![' '], d2);
            lemma_key_prefix_text_ok('t');
            lemma_cat_text_ok(seq!['t', '='], body);
            assert(text[0] == 't');
        },
        SdpPropModel::RepeatTimes { interval, active_duration, start_offsets } => {
            let m = SdpPropModel::RepeatTimes { interval, active_duration, start_offsets };
            assert(m->RepeatTimes_start_offsets == start_offsets);
            lemma_record_inv_repeat(interval, active_duration, start_offsets);
        },
        SdpPropModel::TimeZone(adjs) => {
            let m = SdpPropModel::TimeZone(adjs);
            assert(m->TimeZone_0 == adjs);
            lemma_record_inv_timezone(adjs);
        },
        SdpPropModel::EncryptionKeys(em) => {
            reveal_strlit("k=");
            assert(text =~= seq!['k', '='] + encryption_text(em));
            lemma_content_inv('k', encryption_text(em));
            lemma_encryption_inv(em);
            lemma_key_prefix_text_ok('k');
            lemma_encryption_text_ok(em);
            lemma_cat_text_ok(seq!['k', '='], encryption_text(em));
            assert(text[0] == 'k');
        },
        SdpPropModel::Attribute { key, value } => {
            reveal_strlit("a=");
            let body = match value {
                Some(v) => key + seq![':'] + v,
                None => key,
            };
            assert(text =~= seq!['a', '='] + body);
            lemma_content_inv('a', body);
            lemma_attribute_inv(key, value);
            lemma_key_prefix_text_ok('a');
            match value {
                Some(v) => {
                    lemma_sep_text_ok(':');
                    lemma_cat_text_ok(key, seq![':']);
                    lemma_cat_text_ok(key + seq![':'], v);
                },
                None => {},
            }
            lemma_cat_text_ok(seq!['a', '='], body);
            assert(text[0] == 'a');
        },
        SdpPropModel::Media { media_type, ports, protocol, format, props } => {
            lemma_record_inv_media(media_type, ports, protocol, format, props);
        },

    }
}

// ------------------------------------------------------------------
// Reassembling the document from its lines
// ------------------------------------------------------------------

/// The serialized texts of a document's records, under bare line feeds.
pub open spec fn record_texts(props: Seq<SdpPropModel>) -> Seq<Seq<char>> {
    props.map_values(|r: SdpPropModel| spec_ser_record(r, LineEnding::LF))
}

/// The lines of one serialized record.
pub open spec fn record_lines(r: SdpPropModel) -> Seq<Seq<char>> {
    split_char(spec_ser_record(r, LineEnding::LF), '\n')
}

/// The lines of a list of texts, in order.
pub open spec fn flat_lines(texts: Seq<Seq<char>>) -> Seq<Seq<char>>
    decreases texts.len(),
{
    if texts.len() == 0 {
        Seq::empty()
    } else {
        split_char(texts[0], '\n') + flat_lines(texts.drop_first())
    }
}

/// Splitting a line-feed join of texts yields their lines in order.
pub proof fn lemma_split_of_join(texts: Seq<Seq<char>>)
    requires
        texts.len() >= 1,
    ensures
        split_char(join_char(texts, '\n'), '\n') =~= flat_lines(texts),
    decreases texts.len(),
{
    if texts.len() == 1 {
        assert(join_char(texts, '\n') == texts[0]);
        assert(flat_lines(texts.drop_first()) =~= Seq::<Seq<char>>::empty());
    } else {
        assert(join_char(texts, '\n') == texts[0] + seq!['\n'] + join_char(
            texts.drop_first(),
            '\n',
        ));
        lemma_split_concat(texts[0], join_char(texts.drop_first(), '\n'), '\n');
        lemma_split_of_join(texts.drop_first());
    }
}

/// Appending one text appends its lines.
pub proof fn lemma_flat_lines_push(texts: Seq<Seq<char>>, t: Seq<char>)
    ensures
        flat_lines(texts.push(t)) =~= flat_lines(texts) + split_char(t, '\n'),
    decreases texts.len(),
{
    reveal_with_fuel(flat_lines, 3);
    if texts.len() == 0 {
        assert(texts.push(t)[0] == t);
        assert(texts.push(t).drop_first() =~= Seq::<Seq<char>>::empty());
        assert(flat_lines(Seq::<Seq<char>>::empty()) =~= Seq::<Seq<char>>::empty());
        assert(split_char(t, '\n') + Seq::<Seq<char>>::empty() =~= split_char(t, '\n'));
        assert(Seq::<Seq<char>>::empty() + split_char(t, '\n') =~= split_char(t, '\n'));
    } else {
        assert(texts.push(t)[0] == texts[0]);
        assert(texts.push(t).drop_first() =~= texts.drop_first().push(t));
        lemma_flat_lines_push(texts.drop_first(), t);
        assert(split_char(texts[0], '\n') + (flat_lines(texts.drop_first()) + split_char(
            t,
            '\n',
        )) =~= (split_char(texts[0], '\n') + flat_lines(texts.drop_first())) + split_char(
            t,
            '\n',
        ));
    }
}

/// Dropping empty lines distributes over concatenation.
pub proof fn lemma_drop_empty_concat(a: Seq<Seq<char>>, b: Seq<Seq<char>>)
    ensures
        drop_empty(a + b) =~= drop_empty(a) + drop_empty(b),
    decreases b.len(),
{
    if b.len() == 0 {
        assert(a + b =~= a);
        assert(drop_empty(b) =~= Seq::<Seq<char>>::empty());
    } else {
        lemma_drop_empty_concat(a, b.drop_last());
        assert((a + b).drop_last() =~= a + b.drop_last());
        assert((a + b).last() == b.last());
    }
}

/// Dropping empty lines from all-non-empty lines changes nothing.
pub proof fn lemma_drop_empty_id(lines: Seq<Seq<char>>)
    requires
        forall|k: int| 0 <= k < lines.len() ==> (#[trigger] lines[k]).len() >= 1,
    ensures
        drop_empty(lines) =~= lines,
    decreases lines.len(),
{
    if lines.len() > 0 {
        assert forall|k: int| 0 <= k < lines.drop_last().len() implies (
        #[trigger] lines.drop_last()[k]).len() >= 1 by {
            assert(lines.drop_last()[k] == lines[k]);
        }
        lemma_drop_empty_id(lines.drop_last());
    }
}

/// Grouping a non-empty line list yields at least one record.
pub proof fn lemma_group_len(lines: Seq<Seq<char>>)
    ensures
        spec_group(lines).len() >= 1 || lines.len() == 0,
        spec_group(lines).len() <= lines.len(),
    decreases lines.len(),
{
    if lines.len() > 0 {
        lemma_group_len(lines.drop_last());
    }
}

/// Media lines in a concatenation come from one of the sides.
pub proof fn lemma_has_media_concat(a: Seq<Seq<char>>, b: Seq<Seq<char>>)
    ensures
        has_media_line(a + b) == (has_media_line(a) || has_media_line(b)),
{
    if has_media_line(a) {
        let i = choose|i: int| 0 <= i < a.len() && is_media_line(a[i]);
        assert(is_media_line((a + b)[i]));
    }
    if has_media_line(b) {
        let i = choose|i: int| 0 <= i < b.len() && is_media_line(b[i]);
        assert(is_media_line((a + b)[a.len() + i]));
    }
    if has_media_line(a + b) {
        let i = choose|i: int| 0 <= i < (a + b).len() && is_media_line((a + b)[i]);
        if i < a.len() {
            assert(is_media_line(a[i]));
        } else {
            assert(is_media_line(b[i - a.len()]));
        }
    }
}

/// The nested lines of a media record, each preceded by a line feed.
pub open spec fn tail_text(plines: Seq<Seq<char>>) -> Seq<char>
    decreases plines.len(),
{
    if plines.len() == 0 {
        Seq::empty()
    } else {
        tail_text(plines.drop_last()) + seq!['\n'] + plines.last()
    }
}

/// The tail text is the line-feed-prefixed join of the lines.
pub proof fn lemma_tail_text_join(plines: Seq<Seq<char>>)
    requires
        plines.len() >= 1,
    ensures
        tail_text(plines) =~= seq!['\n'] + join_char(plines, '\n'),
    decreases plines.len(),
{
    if plines.len() == 1 {
        assert(tail_text(plines.drop_last()) =~= Seq::<char>::empty());
        assert(join_char(plines, '\n') == plines[0]);
        assert(plines.last() == plines[0]);
    } else {
        lemma_tail_text_join(plines.drop_last());
        lemma_join_seq_push(plines.drop_last(), seq!['\n'], plines.last());
        assert(plines.drop_last().push(plines.last()) =~= plines);
        assert(join_char(plines, '\n') =~= join_char(plines.drop_last(), '\n') + seq!['\n']
            + plines.last());
    }
}

/// Lines appended after a media line extend the last group record, each
/// joined on with a line feed.
pub proof fn lemma_group_extension(lines: Seq<Seq<char>>, plines: Seq<Seq<char>>)
    requires
        has_media_line(lines),
        forall|k: int| 0 <= k < plines.len() ==> !is_media_line(#[trigger] plines[k]),
    ensures
        spec_group(lines).len() >= 1 ==> spec_group(lines + plines) =~= spec_group(
            lines,
        ).update(
            spec_group(lines).len() - 1,
            spec_group(lines).last() + tail_text(plines),
        ),
    decreases plines.len(),
{
    let g = spec_group(lines);
    if g.len() >= 1 {
        if plines.len() == 0 {
            assert(lines + plines =~= lines);
            assert(g.last() + tail_text(plines) =~= g.last());
            assert(g.update(g.len() - 1, g.last()) =~= g);
        } else {
            lemma_group_extension(lines, plines.drop_last());
            let mid = lines + plines.drop_last();
            let gm = spec_group(mid);
            assert(gm =~= g.update(g.len() - 1, g.last() + tail_text(plines.drop_last())));
            let l = plines.last();
            assert((lines + plines).drop_last() =~= mid);
            assert((lines + plines).last() == l);
            assert(!is_media_line(l));
            lemma_has_media_concat(lines, plines.drop_last());
            assert(has_media_line(mid));
            assert(gm.len() == g.len() >= 1);
            let res = spec_group(lines + plines);
            assert(res =~= gm.update(gm.len() - 1, gm.last() + seq!['\n'] + l));
            assert(gm.last() == g.last() + tail_text(plines.drop_last()));
            assert(g.last() + tail_text(plines.drop_last()) + seq!['\n'] + l =~= g.last()
                + tail_text(plines));
            assert(res =~= g.update(g.len() - 1, g.last() + tail_text(plines)));
        }
    }
}

/// Any non-empty line list joins back as its first line plus the
/// line-feed-prefixed rest.
pub proof fn lemma_join_head_tail(rl: Seq<Seq<char>>)
    requires
        rl.len() >= 1,
    ensures
        join_char(rl, '\n') =~= rl[0] + tail_text(rl.drop_first()),
{
    if rl.len() == 1 {
        assert(rl.drop_first() =~= Seq::<Seq<char>>::empty());
        assert(tail_text(rl.drop_first()) =~= Seq::<char>::empty());
        assert(join_char(rl, '\n') == rl[0]);
    } else {
        lemma_tail_text_join(rl.drop_first());
        assert(join_char(rl, '\n') == rl[0] + seq!['\n'] + join_char(rl.drop_first(), '\n'));
    }
}

/// The lines of a serialized media record: a media header line first,
/// then only non-media lines, none empty.
pub proof fn lemma_media_record_lines(r: SdpPropModel)
    requires
        r is Media,
        wf_record(r),
    ensures
        record_lines(r).len() >= 1,
        forall|k: int| 0 <= k < record_lines(r).len() ==> (#[trigger] record_lines(r)[k]).len()
            >= 1,
        is_media_line(record_lines(r)[0]),
        forall|j: int| 1 <= j < record_lines(r).len() ==> !is_media_line(
            #[trigger] record_lines(r)[j],
        ),
{
    match r {
        SdpPropModel::Media { media_type, ports, protocol, format, props } => {
            let m = SdpPropModel::Media { media_type, ports, protocol, format, props };
            assert(m->Media_props == props);
            let value = media_value_text(media_type, ports, protocol, format, props);
            lemma_media_record_shape(media_type, ports, protocol, format, props);
            lemma_media_header_clean(media_type, ports, protocol, format);
            let headerbody = media_type_text(media_type) + seq![' '] + join_char(
                ports.map_values(|p: u16| dec_str(p as nat)),
                '/',
            ) + seq![' '] + protocol + seq![' '] + format;
            let hline = seq!['m', '='] + headerbody;
            let text = spec_ser_record(r, LineEnding::LF);
            let plines = props.map_values(|p: MediaPropModel| spec_ser_media_prop(p));
            assert forall|k: int| 0 <= k < plines.len() implies !(#[trigger] plines[k]).contains(
                '\n',
            ) && plines[k].len() >= 2 && plines[k][0] != 'm' by {
                assert(plines[k] == spec_ser_media_prop(props[k]));
                assert(wf_media_prop(props[k]));
                lemma_media_prop_line(props[k]);
            }
            lemma_key_prefix_text_ok('m');
            lemma_cat_text_ok(seq!['m', '='], headerbody);
            assert(!hline.contains('\n'));
            if props.len() == 0 {
                assert(text =~= hline);
                lemma_split_single(text, '\n');
                assert(record_lines(r) =~= seq![hline]);
                assert(hline[0] == 'm');
            } else {
                assert(text =~= hline + seq!['\n'] + media_props_block(props));
                lemma_split_concat(hline, media_props_block(props), '\n');
                lemma_split_single(hline, '\n');
                lemma_split_join(plines, '\n');
                assert(record_lines(r) =~= seq![hline] + plines);
                assert(hline[0] == 'm');
                assert forall|j: int| 1 <= j < record_lines(r).len() implies !is_media_line(
                    #[trigger] record_lines(r)[j],
                ) by {
                    assert(record_lines(r)[j] == plines[j - 1]);
                }
                assert forall|k: int|
                    0 <= k < record_lines(r).len() implies (#[trigger] record_lines(r)[k]).len()
                    >= 1 by {
                    if k >= 1 {
                        assert(record_lines(r)[k] == plines[k - 1]);
                    }
                }
            }
        },
        _ => {
            assert(false);
        },
    }
}

/// The lines of a whole well-formed document group back into exactly its
/// record texts.
pub proof fn lemma_doc_lines(props: Seq<SdpPropModel>)
    requires
        forall|k: int| 0 <= k < props.len() ==> wf_record(#[trigger] props[k]),
        forall|i: int, j: int|
            0 <= i < j < props.len() && (#[trigger] props[i]) is Media ==> (
            #[trigger] props[j]) is Media,
    ensures
        forall|k: int|
            0 <= k < flat_lines(record_texts(props)).len() ==> (#[trigger] flat_lines(
                record_texts(props),
            )[k]).len() >= 1,
        has_media_line(flat_lines(record_texts(props))) == (exists|i: int|
            0 <= i < props.len() && (#[trigger] props[i]) is Media),
        spec_group(flat_lines(record_texts(props))) =~= record_texts(props),
    decreases props.len(),
{
    let rt = record_texts(props);
    let flat = flat_lines(rt);
    if props.len() == 0 {
        assert(rt.len() == 0);
        assert(flat =~= Seq::<Seq<char>>::empty());
        assert(!has_media_line(flat)) by {
            if has_media_line(flat) {
                let i = choose|i: int| 0 <= i < flat.len() && is_media_line(flat[i]);
            }
        }
        assert(spec_group(flat) =~= rt);
    } else {
        let init = props.drop_last();
        let r = props.last();
        assert forall|k: int| 0 <= k < init.len() implies wf_record(#[trigger] init[k]) by {
            assert(init[k] == props[k]);
        }
        assert forall|i: int, j: int|
            0 <= i < j < init.len() && (#[trigger] init[i]) is Media implies (
        #[trigger] init[j]) is Media by {
            assert(init[i] == props[i] && init[j] == props[j]);
        }
        lemma_doc_lines(init);
        let rti = record_texts(init);
        let flati = flat_lines(rti);
        let text = spec_ser_record(r, LineEnding::LF);
        assert(rt =~= rti.push(text)) by {
            assert forall|k: int| 0 <= k < rt.len() implies rt[k] == rti.push(text)[k] by {
                if k < rt.len() - 1 {
                    assert(rt[k] == spec_ser_record(props[k], LineEnding::LF));
                    assert(rti[k] == spec_ser_record(init[k], LineEnding::LF));
                    assert(init[k] == props[k]);
                }
            }
        }
        lemma_flat_lines_push(rti, text);
        assert(flat =~= flati + split_char(text, '\n'));
        assert(wf_record(r));
        lemma_record_inv(r);
        let rl = record_lines(r);
        lemma_split_char_len(text, '\n');
        if !(r is Media) {
            // Every earlier record is also non-media.
            assert forall|i: int| 0 <= i < init.len() implies !((#[trigger] props[i]) is Media) by {
                if props[i] is Media {
                    assert(props[props.len() - 1] is Media);
                }
            }
            assert(!(exists|i: int| 0 <= i < init.len() && (#[trigger] init[i]) is Media)) by {
                if exists|i: int| 0 <= i < init.len() && (#[trigger] init[i]) is Media {
                    let i = choose|i: int| 0 <= i < init.len() && (#[trigger] init[i]) is Media;
                    assert(init[i] == props[i]);
                }
            }
            assert(!has_media_line(flati));
            lemma_split_single(text, '\n');
            assert(rl =~= seq![text]);
            assert(flat =~= flati.push(text)) by {
                assert(flati + seq![text] =~= flati.push(text));
            }
            assert(!is_media_line(text));
            // Group: the new single line starts its own record.
            assert(flati.push(text).drop_last() =~= flati);
            assert(flati.push(text).last() == text);
            assert(spec_group(flat) =~= spec_group(flati).push(text));
            assert(spec_group(flat) =~= rt);
            // Media-line bookkeeping.
            lemma_has_media_concat(flati, seq![text]);
            assert(!has_media_line(seq![text])) by {
                if has_media_line(seq![text]) {
                    let i = choose|i: int|
                        0 <= i < seq![text].len() && is_media_line(seq![text][i]);
                }
            }
            assert(!(exists|i: int| 0 <= i < props.len() && (#[trigger] props[i]) is Media)) by {
                if exists|i: int| 0 <= i < props.len() && (#[trigger] props[i]) is Media {
                    let i = choose|i: int|
                        0 <= i < props.len() && (#[trigger] props[i]) is Media;
                }
            }
            assert forall|k: int| 0 <= k < flat.len() implies (#[trigger] flat[k]).len() >= 1 by {
                if k < flati.len() {
                    assert(flat[k] == flati[k]);
                } else {
                    assert(flat[k] == text);
                }
            }
        } else {
            lemma_media_record_lines(r);
            let hline = rl[0];
            let plines = rl.drop_first();
            lemma_join_split(text, '\n');
            lemma_join_head_tail(rl);
            assert(text =~= hline + tail_text(plines));
            // First the header line opens a new group record.
            let base = flati.push(hline);
            assert(base.drop_last() =~= flati);
            assert(base.last() == hline);
            assert(is_media_line(hline));
            assert(spec_group(base) =~= spec_group(flati).push(hline));
            assert(spec_group(base) =~= rti.push(hline));
            // Then each nested line extends that record.
            lemma_has_media_concat(flati, seq![hline]);
            assert(has_media_line(seq![hline])) by {
                assert(is_media_line(seq![hline][0]));
            }
            assert(base =~= flati + seq![hline]);
            assert(has_media_line(base));
            assert(spec_group(base).len() == rti.len() + 1 >= 1);
            assert forall|k: int| 0 <= k < plines.len() implies !is_media_line(
                #[trigger] plines[k],
            ) by {
                assert(plines[k] == rl[k + 1]);
            }
            lemma_group_extension(base, plines);
            assert(spec_group(base + plines) =~= spec_group(base).update(
                spec_group(base).len() - 1,
                spec_group(base).last() + tail_text(plines),
            ));
            assert(spec_group(base).last() == hline);
            assert(flat =~= base + plines) by {
                assert(seq![hline] + plines =~= rl);
                assert(flati + rl =~= (flati + seq![hline]) + plines);
            }
            assert(spec_group(flat) =~= rti.push(hline).update(rti.len() as int, hline
                + tail_text(plines)));
            assert(rti.push(hline).update(rti.len() as int, text) =~= rti.push(text));
            assert(spec_group(flat) =~= rt);
            // Media-line bookkeeping.
            lemma_has_media_concat(base, plines);
            assert(has_media_line(flat));
            assert(exists|i: int| 0 <= i < props.len() && (#[trigger] props[i]) is Media) by {
                assert(props[props.len() - 1] is Media);
            }
            assert forall|k: int| 0 <= k < flat.len() implies (#[trigger] flat[k]).len() >= 1 by {
                if k < flati.len() {
                    assert(flat[k] == flati[k]);
                } else {
                    assert(flat[k] == rl[k - flati.len()]);
                }
            }
        }
    }
}

/// The serialized record texts of a well-formed document parse back in
/// order.
pub proof fn lemma_records_inv(props: Seq<SdpPropModel>)
    requires
        forall|k: int| 0 <= k < props.len() ==> wf_record(#[trigger] props[k]),
    ensures
        spec_parse_records(record_texts(props)) == Ok::<Seq<SdpPropModel>, ParseErrorModel>(
            props,
        ),
    decreases props.len(),
{
    let rt = record_texts(props);
    if props.len() == 0 {
        assert(rt.len() == 0);
        assert(props =~= Seq::<SdpPropModel>::empty());
    } else {
        assert(rt[0] == spec_ser_record(props[0], LineEnding::LF));
        lemma_record_inv(props[0]);
        assert forall|k: int| 0 <= k < props.drop_first().len() implies wf_record(
            #[trigger] props.drop_first()[k],
        ) by {
            assert(props.drop_first()[k] == props[k + 1]);
        }
        lemma_records_inv(props.drop_first());
        assert(rt.drop_first() =~= record_texts(props.drop_first()));
        assert(spec_parse_records(rt.drop_first()) == Ok::<
            Seq<SdpPropModel>,
            ParseErrorModel,
        >(props.drop_first()));
        assert(seq![props[0]] + props.drop_first() =~= props);
    }
}

/// No serialized record text of a well-formed document holds a carriage
/// return, and the whole serialized document under bare line feeds holds
/// none either.
pub proof fn lemma_doc_text_no_cr(props: Seq<SdpPropModel>)
    requires
        forall|k: int| 0 <= k < props.len() ==> wf_record(#[trigger] props[k]),
    ensures
        !join_char(record_texts(props), '\n').contains('\r'),
{
    let rt = record_texts(props);
    assert forall|k: int| 0 <= k < rt.len() implies !(#[trigger] rt[k]).contains('\r') by {
        assert(rt[k] == spec_ser_record(props[k], LineEnding::LF));
        lemma_record_inv(props[k]);
    }
    lemma_single_not_contains('\n', '\r');
    lemma_join_not_contains(rt, seq!['\n'], '\r');
}

/// Serializing a well-formed document under bare line feeds and parsing
/// the text restores the document exactly.
pub proof fn lemma_round_trip_lf(d: SdpModel)
    requires
        wf_doc(d),
    ensures
        spec_parse_doc(spec_ser_doc(d, LineEnding::LF)) == Ok::<SdpModel, ParseErrorModel>(d),
{
    let rt = record_texts(d.props);
    let body = join_char(rt, '\n');
    let text = spec_ser_doc(d, LineEnding::LF);
    assert(ending_text(LineEnding::LF) =~= seq!['\n']);
    assert(text =~= body + seq!['\n']);

    // Normalization leaves the text untouched: no carriage returns.
    lemma_doc_text_no_cr(d.props);
    lemma_single_not_contains('\n', '\r');
    lemma_concat_not_contains(body, seq!['\n'], '\r');
    lemma_normalize_no_cr(text);

    // The split lines are the record lines followed by one empty line.
    assert(text =~= body + seq!['\n'] + Seq::<char>::empty());
    lemma_split_concat(body, Seq::<char>::empty(), '\n');
    assert(!Seq::<char>::empty().contains('\n')) by {
        if Seq::<char>::empty().contains('\n') {
            let i = choose|i: int|
                0 <= i < Seq::<char>::empty().len() && Seq::<char>::empty()[i] == '\n';
        }
    }
    lemma_split_single(Seq::<char>::empty(), '\n');
    let lines = split_char(text, '\n');
    lemma_doc_lines(d.props);
    let flat = flat_lines(rt);
    if d.props.len() == 0 {
        assert(rt.len() == 0);
        assert(body =~= Seq::<char>::empty());
        lemma_split_single(body, '\n');
        assert(lines =~= seq![Seq::<char>::empty(), Seq::<char>::empty()]);
        assert(drop_empty(lines) =~= Seq::<Seq<char>>::empty()) by {
            assert(lines.drop_last() =~= seq![Seq::<char>::empty()]);
            assert(seq![Seq::<char>::empty()].drop_last() =~= Seq::<Seq<char>>::empty());
            assert(drop_empty(Seq::<Seq<char>>::empty()) =~= Seq::<Seq<char>>::empty());
            assert(seq![Seq::<char>::empty()].last().len() == 0);
            assert(drop_empty(seq![Seq::<char>::empty()]) =~= Seq::<Seq<char>>::empty());
            assert(lines.last().len() == 0);
        }
        assert(spec_group(Seq::<Seq<char>>::empty()) =~= Seq::<Seq<char>>::empty());
        assert(spec_parse_records(Seq::<Seq<char>>::empty()) == Ok::<
            Seq<SdpPropModel>,
            ParseErrorModel,
        >(Seq::empty()));
        assert(d.props =~= Seq::<SdpPropModel>::empty());
        assert(SdpModel { props: d.props } == d);
    } else {
        lemma_split_of_join(rt);
        assert(lines =~= flat + seq![Seq::<char>::empty()]);
        lemma_drop_empty_concat(flat, seq![Seq::<char>::empty()]);
        assert(drop_empty(seq![Seq::<char>::empty()]) =~= Seq::<Seq<char>>::empty()) by {
            assert(seq![Seq::<char>::empty()].drop_last() =~= Seq::<Seq<char>>::empty());
            assert(drop_empty(Seq::<Seq<char>>::empty()) =~= Seq::<Seq<char>>::empty());
            assert(seq![Seq::<char>::empty()].last().len() == 0);
        }
        lemma_drop_empty_id(flat);
        assert(drop_empty(lines) =~= flat);
        assert(spec_group(flat) =~= rt);
        lemma_records_inv(d.props);
        assert(SdpModel { props: d.props } == d);
    }
}

/// Expansion turns the bare-line-feed join of line-safe parts into the
/// CRLF join.
pub proof fn lemma_expand_join(parts: Seq<Seq<char>>, crlf: Seq<Seq<char>>)
    requires
        parts.len() == crlf.len(),
        forall|k: int| 0 <= k < parts.len() ==> expand_lf(#[trigger] parts[k]) =~= crlf[k],
    ensures
        expand_lf(join_char(parts, '\n')) =~= join_seq(crlf, seq!['\r', '\n']),
    decreases parts.len(),
{
    if parts.len() == 0 {
        assert(expand_lf(Seq::<char>::empty()) =~= Seq::<char>::empty());
    } else if parts.len() == 1 {
        assert(join_char(parts, '\n') == parts[0]);
        assert(expand_lf(parts[0]) =~= crlf[0]);
        assert(join_seq(crlf, seq!['\r', '\n']) == crlf[0]);
    } else {
        assert(join_char(parts, '\n') == parts[0] + seq!['\n'] + join_char(
            parts.drop_first(),
            '\n',
        ));
        lemma_expand_lf_add(parts[0], seq!['\n'] + join_char(parts.drop_first(), '\n'));
        lemma_expand_lf_add(seq!['\n'], join_char(parts.drop_first(), '\n'));
        assert(parts[0] + seq!['\n'] + join_char(parts.drop_first(), '\n') =~= parts[0] + (seq![
            '\n',
        ] + join_char(parts.drop_first(), '\n')));
        assert(expand_lf(seq!['\n']) =~= seq!['\r', '\n']) by {
            assert(seq!['\n'].skip(1) =~= Seq::<char>::empty());
            assert(expand_lf(Seq::<char>::empty()) =~= Seq::<char>::empty());
        }
        assert forall|k: int| 0 <= k < parts.drop_first().len() implies expand_lf(
            #[trigger] parts.drop_first()[k],
        ) =~= crlf.drop_first()[k] by {
            assert(parts.drop_first()[k] == parts[k + 1]);
            assert(crlf.drop_first()[k] == crlf[k + 1]);
        }
        lemma_expand_join(parts.drop_first(), crlf.drop_first());
        assert(join_seq(crlf, seq!['\r', '\n']) == crlf[0] + seq!['\r', '\n'] + join_seq(
            crlf.drop_first(),
            seq!['\r', '\n'],
        ));
    }
}

/// Expanding the bare-line-feed serialization of a record gives its CRLF
/// serialization.
pub proof fn lemma_expand_record(r: SdpPropModel)
    requires
        wf_record(r),
    ensures
        expand_lf(spec_ser_record(r, LineEnding::LF)) =~= spec_ser_record(r, LineEnding::CRLF),
{
    lemma_record_inv(r);
    let lf = spec_ser_record(r, LineEnding::LF);
    if !(r is Media) {
        lemma_expand_lf_no_lf(lf);
        match r {
            SdpPropModel::Media { .. } => {
                assert(false);
            },
            _ => {
                assert(spec_ser_record(r, LineEnding::CRLF) == lf);
            },
        }
    } else {
        match r {
            SdpPropModel::Media { media_type, ports, protocol, format, props } => {
                let m = SdpPropModel::Media { media_type, ports, protocol, format, props };
                assert(m->Media_props == props);
                let header = media_header_text(media_type, ports, protocol, format);
                let plines = props.map_values(|p: MediaPropModel| spec_ser_media_prop(p));
                lemma_media_header_clean(media_type, ports, protocol, format);
                reveal_strlit("m=");
                lemma_key_prefix_text_ok('m');
                assert(header =~= seq!['m', '='] + (media_type_text(media_type) + seq![' ']
                    + join_char(ports.map_values(|p: u16| dec_str(p as nat)), '/') + seq![' ']
                    + protocol + seq![' '] + format));
                lemma_cat_text_ok(
                    seq!['m', '='],
                    media_type_text(media_type) + seq![' '] + join_char(
                        ports.map_values(|p: u16| dec_str(p as nat)),
                        '/',
                    ) + seq![' '] + protocol + seq![' '] + format,
                );
                if props.len() == 0 {
                    lemma_expand_lf_no_lf(lf);
                    assert(spec_ser_record(r, LineEnding::CRLF) == header);
                } else {
                    assert forall|k: int| 0 <= k < plines.len() implies expand_lf(
                        #[trigger] plines[k],
                    ) =~= plines[k] by {
                        assert(plines[k] == spec_ser_media_prop(props[k]));
                        assert(wf_media_prop(props[k]));
                        lemma_media_prop_line(props[k]);
                        lemma_expand_lf_no_lf(plines[k]);
                    }
                    let all = seq![header] + plines;
                    assert forall|k: int| 0 <= k < all.len() implies expand_lf(
                        #[trigger] all[k],
                    ) =~= all[k] by {
                        if k == 0 {
                            assert(all[0] == header);
                            lemma_expand_lf_no_lf(header);
                        } else {
                            assert(all[k] == plines[k - 1]);
                        }
                    }
                    lemma_expand_join(all, all);
                    assert(join_char(all, '\n') == all[0] + seq!['\n'] + join_char(
                        all.drop_first(),
                        '\n',
                    ));
                    assert(all.drop_first() =~= plines);
                    assert(lf =~= join_char(all, '\n')) by {
                        assert(ending_text(LineEnding::LF) =~= seq!['\n']);
                    }
                    assert(join_seq(all, seq!['\r', '\n']) == all[0] + seq!['\r', '\n']
                        + join_seq(all.drop_first(), seq!['\r', '\n']));
                    assert(spec_ser_record(r, LineEnding::CRLF) =~= header + seq!['\r', '\n']
                        + join_seq(plines, seq!['\r', '\n'])) by {
                        assert(ending_text(LineEnding::CRLF) =~= seq!['\r', '\n']);
                    }
                    assert(expand_lf(lf) =~= spec_ser_record(r, LineEnding::CRLF));
                }
            },
            _ => {
                assert(false);
            },
        }
    }
}

/// Expanding the bare-line-feed serialization of a whole document gives
/// its CRLF serialization.
pub proof fn lemma_expand_doc(d: SdpModel)
    requires
        wf_doc(d),
    ensures
        expand_lf(spec_ser_doc(d, LineEnding::LF)) =~= spec_ser_doc(d, LineEnding::CRLF),
{
    let rt = record_texts(d.props);
    let rtc = d.props.map_values(|r: SdpPropModel| spec_ser_record(r, LineEnding::CRLF));
    assert forall|k: int| 0 <= k < rt.len() implies expand_lf(#[trigger] rt[k]) =~= rtc[k] by {
        assert(rt[k] == spec_ser_record(d.props[k], LineEnding::LF));
        assert(rtc[k] == spec_ser_record(d.props[k], LineEnding::CRLF));
        lemma_expand_record(d.props[k]);
    }
    lemma_expand_join(rt, rtc);
    lemma_expand_lf_add(join_char(rt, '\n'), seq!['\n']);
    assert(expand_lf(seq!['\n']) =~= seq!['\r', '\n']) by {
        assert(seq!['\n'].skip(1) =~= Seq::<char>::empty());
        assert(expand_lf(Seq::<char>::empty()) =~= Seq::<char>::empty());
    }
    assert(spec_ser_doc(d, LineEnding::LF) =~= join_char(rt, '\n') + seq!['\n']) by {
        assert(ending_text(LineEnding::LF) =~= seq!['\n']);
    }
    assert(spec_ser_doc(d, LineEnding::CRLF) =~= join_seq(rtc, seq!['\r', '\n']) + seq![
        '\r',
        '\n',
    ]) by {
        assert(ending_text(LineEnding::CRLF) =~= seq!['\r', '\n']);
    }
}

/// Round-trip identity, document side: serializing a well-formed
/// document under either line-ending convention and parsing the result
/// restores the document exactly.
pub proof fn lemma_serialize_then_parse(d: SdpModel, e: LineEnding)
    requires
        wf_doc(d),
    ensures
        spec_parse_doc(spec_ser_doc(d, e)) == Ok::<SdpModel, ParseErrorModel>(d),
{
    match e {
        LineEnding::LF => {
            lemma_round_trip_lf(d);
        },
        LineEnding::CRLF => {
            lemma_expand_doc(d);
            let lf = spec_ser_doc(d, LineEnding::LF);
            lemma_doc_text_no_cr(d.props);
            lemma_single_not_contains('\n', '\r');
            lemma_concat_not_contains(join_char(record_texts(d.props), '\n'), seq!['\n'], '\r');
            assert(lf =~= join_char(record_texts(d.props), '\n') + seq!['\n']) by {
                assert(ending_text(LineEnding::LF) =~= seq!['\n']);
            }
            lemma_normalize_expand(lf);
            lemma_round_trip_lf(d);
            assert(normalize_endings(spec_ser_doc(d, LineEnding::CRLF)) =~= lf);
            lemma_normalize_no_cr(lf);
            assert(spec_parse_doc(spec_ser_doc(d, LineEnding::CRLF)) == spec_parse_doc(lf)) by {
                assert(normalize_endings(spec_ser_doc(d, LineEnding::CRLF))
                    == normalize_endings(lf));
            }
        },
    }
}

/// Round-trip identity, text side: a text that is the serialization of a
/// well-formed document parses successfully, and serializing the parsed
/// document under the same convention reproduces the text exactly.
pub proof fn lemma_parse_then_serialize(t: Seq<char>, d: SdpModel, e: LineEnding)
    requires
        wf_doc(d),
        t == spec_ser_doc(d, e),
    ensures
        spec_parse_doc(t) is Ok,
        spec_ser_doc(spec_parse_doc(t)->Ok_0, e) == t,
{
    lemma_serialize_then_parse(d, e);
}

/// A line without `=` is rejected as an unknown token, never accepted.
pub proof fn lemma_no_equals_rejected(line: Seq<char>)
    requires
        !line.contains('='),
    ensures
        spec_content_from_line(line) == Err::<(char, Seq<char>), ParseErrorModel>(
            ParseErrorModel::UnknownToken(line),
        ),
{
    lemma_find_char_contains(line, '=');
}

// ------------------------------------------------------------------
// What parsing guarantees about its output
// ------------------------------------------------------------------

/// No part of a split contains the separator it was split on.
pub proof fn lemma_split_parts_no_sep(s: Seq<char>, c: char)
    ensures
        forall|k: int|
            0 <= k < split_char(s, c).len() ==> !(#[trigger] split_char(s, c)[k]).contains(c),
    decreases s.len(),
{
    let i = find_char(s, c);
    lemma_find_char(s, c);
    let parts = split_char(s, c);
    if i < 0 || i >= s.len() {
        assert(parts =~= seq![s]);
        lemma_find_char_contains(s, c);
        assert forall|k: int| 0 <= k < parts.len() implies !(#[trigger] parts[k]).contains(c) by {
            assert(parts[k] == s);
        }
    } else {
        lemma_split_parts_no_sep(s.skip(i + 1), c);
        assert(!s.take(i).contains(c)) by {
            if s.take(i).contains(c) {
                let j = choose|j: int| 0 <= j < s.take(i).len() && s.take(i)[j] == c;
                assert(s[j] == c);
            }
        }
        assert forall|k: int| 0 <= k < parts.len() implies !(#[trigger] parts[k]).contains(c) by {
            if k == 0 {
                assert(parts[0] == s.take(i));
            } else {
                assert(parts[k] == split_char(s.skip(i + 1), c)[k - 1]);
            }
        }
    }
}

/// Absence of any character is inherited by every part of a split.
pub proof fn lemma_split_parts_inherit(s: Seq<char>, c: char, x: char)
    requires
        !s.contains(x),
    ensures
        forall|k: int|
            0 <= k < split_char(s, c).len() ==> !(#[trigger] split_char(s, c)[k]).contains(x),
    decreases s.len(),
{
    let i = find_char(s, c);
    lemma_find_char(s, c);
    let parts = split_char(s, c);
    if i < 0 || i >= s.len() {
        assert forall|k: int| 0 <= k < parts.len() implies !(#[trigger] parts[k]).contains(x) by {
            assert(parts[k] == s);
        }
    } else {
        assert(!s.skip(i + 1).contains(x)) by {
            if s.skip(i + 1).contains(x) {
                let j = choose|j: int|
                    0 <= j < s.skip(i + 1).len() && #[trigger] s.skip(i + 1)[j] == x;
                assert(s[i + 1 + j] == x);
            }
        }
        lemma_split_parts_inherit(s.skip(i + 1), c, x);
        assert(!s.take(i).contains(x)) by {
            if s.take(i).contains(x) {
                let j = choose|j: int| 0 <= j < s.take(i).len() && s.take(i)[j] == x;
                assert(s[j] == x);
            }
        }
        assert forall|k: int| 0 <= k < parts.len() implies !(#[trigger] parts[k]).contains(x) by {
            if k == 0 {
                assert(parts[0] == s.take(i));
            } else {
                assert(parts[k] == split_char(s.skip(i + 1), c)[k - 1]);
            }
        }
    }
}

/// Absence of a character is inherited by prefixes and suffixes.
pub proof fn lemma_sub_not_contains(s: Seq<char>, x: char, n: int)
    requires
        !s.contains(x),
        0 <= n <= s.len(),
    ensures
        !s.take(n).contains(x),
        !s.skip(n).contains(x),
{
    if s.take(n).contains(x) {
        let j = choose|j: int| 0 <= j < s.take(n).len() && s.take(n)[j] == x;
        assert(s[j] == x);
    }
    if s.skip(n).contains(x) {
        let j = choose|j: int| 0 <= j < s.skip(n).len() && s.skip(n)[j] == x;
        assert(s[n + j] == x);
    }
}

/// A successful connection parse of a line-safe value yields well-formed
/// connection fields.
pub proof fn lemma_parse_conn_wf(value: Seq<char>)
    requires
        text_ok(value),
        spec_parse_connection(value) is Ok,
    ensures
        ({
            let c = spec_parse_connection(value)->Ok_0;
            wf_conn(c.address, c.ttl, c.num_addresses, c.suffix)
        }),
{
    let tokens = split_char(value, ' ');
    lemma_split_parts_no_sep(value, ' ');
    lemma_split_parts_inherit(value, ' ', '\n');
    lemma_split_parts_inherit(value, ' ', '\r');
    let atok = tokens[2];
    let parts = split_char(atok, '/');
    lemma_split_parts_no_sep(atok, '/');
    lemma_split_parts_inherit(atok, '/', ' ');
    lemma_split_parts_inherit(atok, '/', '\n');
    lemma_split_parts_inherit(atok, '/', '\r');
    lemma_split_char_len(atok, '/');
    let c = spec_parse_connection(value)->Ok_0;
    assert(c.address == parts[0]);
    if tokens.len() > 3 {
        assert forall|k: int|
            0 <= k < tokens.skip(3).len() implies !(#[trigger] tokens.skip(3)[k]).contains('\n')
            && !tokens.skip(3)[k].contains('\r') by {
            assert(tokens.skip(3)[k] == tokens[3 + k]);
        }
        lemma_single_not_contains(' ', '\n');
        lemma_single_not_contains(' ', '\r');
        lemma_join_not_contains(tokens.skip(3), seq![' '], '\n');
        lemma_join_not_contains(tokens.skip(3), seq![' '], '\r');
    }
}

/// An attribute parse of a line-safe value yields well-formed attribute
/// fields.
pub proof fn lemma_parse_attr_wf(value: Seq<char>)
    requires
        text_ok(value),
    ensures
        wf_attr(spec_parse_attribute(value).0, spec_parse_attribute(value).1),
{
    let i = find_char(value, ':');
    lemma_find_char(value, ':');
    if i >= 0 {
        lemma_sub_not_contains(value, '\n', i);
        lemma_sub_not_contains(value, '\r', i);
        lemma_sub_not_contains(value, '\n', i + 1);
        lemma_sub_not_contains(value, '\r', i + 1);
        assert(!value.take(i).contains(':')) by {
            if value.take(i).contains(':') {
                let j = choose|j: int| 0 <= j < value.take(i).len() && value.take(i)[j] == ':';
                assert(value[j] == ':');
            }
        }
    } else {
        lemma_find_char_contains(value, ':');
    }
}

/// An encryption-key parse of a line-safe value yields a well-formed
/// method.
pub proof fn lemma_parse_enc_wf(value: Seq<char>)
    requires
        text_ok(value),
        spec_parse_encryption(value) is Ok,
    ensures
        wf_enc(spec_parse_encryption(value)->Ok_0),
{
    let i = find_char(value, ':');
    lemma_find_char(value, ':');
    if i >= 0 {
        lemma_sub_not_contains(value, '\n', i + 1);
        lemma_sub_not_contains(value, '\r', i + 1);
    }
    assert(!Seq::<char>::empty().contains('\n')) by {
        if Seq::<char>::empty().contains('\n') {
            let j = choose|j: int|
                0 <= j < Seq::<char>::empty().len() && Seq::<char>::empty()[j] == '\n';
        }
    }
    assert(!Seq::<char>::empty().contains('\r')) by {
        if Seq::<char>::empty().contains('\r') {
            let j = choose|j: int|
                0 <= j < Seq::<char>::empty().len() && Seq::<char>::empty()[j] == '\r';
        }
    }
}

/// A successful time-zone parse of tokens yields adjustments with token
/// offsets, at least one when there was at least one token.
pub proof fn lemma_parse_tz_wf(tokens: Seq<Seq<char>>, value: Seq<char>)
    requires
        forall|k: int| 0 <= k < tokens.len() ==> token_ok(#[trigger] tokens[k]),
        spec_parse_timezone(tokens, value) is Ok,
    ensures
        ({
            let adjs = spec_parse_timezone(tokens, value)->Ok_0;
            &&& (tokens.len() >= 1 ==> adjs.len() >= 1)
            &&& forall|k: int| 0 <= k < adjs.len() ==> token_ok((#[trigger] adjs[k]).offset)
        }),
    decreases tokens.len(),
{
    if tokens.len() == 0 {
    } else {
        assert(tokens.len() >= 2);
        assert forall|k: int| 0 <= k < tokens.skip(2).len() implies token_ok(
            #[trigger] tokens.skip(2)[k],
        ) by {
            assert(tokens.skip(2)[k] == tokens[k + 2]);
        }
        lemma_parse_tz_wf(tokens.skip(2), value);
        let adjs = spec_parse_timezone(tokens, value)->Ok_0;
        let rest = spec_parse_timezone(tokens.skip(2), value)->Ok_0;
        assert forall|k: int| 0 <= k < adjs.len() implies token_ok(
            (#[trigger] adjs[k]).offset,
        ) by {
            if k == 0 {
                assert(adjs[0].offset == tokens[1]);
            } else {
                assert(adjs[k] == rest[k - 1]);
            }
        }
    }
}

/// A successful port-list parse yields one port per token.
pub proof fn lemma_parse_ports_len(parts: Seq<Seq<char>>)
    requires
        spec_parse_ports(parts) is Ok,
    ensures
        spec_parse_ports(parts)->Ok_0.len() == parts.len(),
    decreases parts.len(),
{
    if parts.len() > 0 {
        lemma_parse_ports_len(parts.drop_first());
    }
}

/// A successful media-level parse of a line-safe line yields a
/// well-formed record.
pub proof fn lemma_parse_media_prop_wf(line: Seq<char>)
    requires
        text_ok(line),
        spec_parse_media_prop(line) is Ok,
    ensures
        wf_media_prop(spec_parse_media_prop(line)->Ok_0),
{
    let i = find_char(line, '=');
    lemma_find_char(line, '=');
    assert(i >= 1);
    let value = line.skip(i + 1);
    lemma_sub_not_contains(line, '\n', i + 1);
    lemma_sub_not_contains(line, '\r', i + 1);
    let key = line[0];
    if key == 'c' {
        lemma_parse_conn_wf(value);
    } else if key == 'k' {
        lemma_parse_enc_wf(value);
    } else if key == 'a' {
        lemma_parse_attr_wf(value);
    }
}

/// A successful parse of line-safe nested lines yields well-formed
/// records throughout.
pub proof fn lemma_parse_media_props_wf(lines: Seq<Seq<char>>)
    requires
        forall|k: int| 0 <= k < lines.len() ==> text_ok(#[trigger] lines[k]),
        spec_parse_media_props(lines) is Ok,
    ensures
        ({
            let ps = spec_parse_media_props(lines)->Ok_0;
            forall|k: int| 0 <= k < ps.len() ==> wf_media_prop(#[trigger] ps[k])
        }),
    decreases lines.len(),
{
    if lines.len() > 0 {
        lemma_parse_media_prop_wf(lines[0]);
        assert forall|k: int| 0 <= k < lines.drop_first().len() implies text_ok(
            #[trigger] lines.drop_first()[k],
        ) by {
            assert(lines.drop_first()[k] == lines[k + 1]);
        }
        lemma_parse_media_props_wf(lines.drop_first());
        let ps = spec_parse_media_props(lines)->Ok_0;
        let rest = spec_parse_media_props(lines.drop_first())->Ok_0;
        assert forall|k: int| 0 <= k < ps.len() implies wf_media_prop(#[trigger] ps[k]) by {
            if k == 0 {
                assert(ps[0] == spec_parse_media_prop(lines[0])->Ok_0);
            } else {
                assert(ps[k] == rest[k - 1]);
            }
        }
    }
}

/// A successful media parse of a carriage-return-free value yields a
/// well-formed media record.
pub proof fn lemma_parse_media_wf(value: Seq<char>)
    requires
        !value.contains('\r'),
        spec_parse_media(value) is Ok,
    ensures
        wf_record(spec_parse_media(value)->Ok_0),
{
    let lines = split_char(value, '\n');
    lemma_split_parts_no_sep(value, '\n');
    lemma_split_parts_inherit(value, '\n', '\r');
    let header = lines[0];
    let tokens = split_char(header, ' ');
    lemma_split_parts_no_sep(header, ' ');
    lemma_split_parts_inherit(header, ' ', '\n');
    lemma_split_parts_inherit(header, ' ', '\r');
    let p = spec_parse_media(value)->Ok_0;
    match p {
        SdpPropModel::Media { media_type, ports, protocol, format, props } => {
            let m = SdpPropModel::Media { media_type, ports, protocol, format, props };
            assert(m->Media_props == props);
            assert(m->Media_ports == ports);
            // Ports: one per `/`-separated token, and at least one token.
            lemma_split_char_len(tokens[1], '/');
            lemma_parse_ports_len(split_char(tokens[1], '/'));
            assert(ports.len() >= 1);
            // Protocol is a token of the header.
            assert(protocol == tokens[2]);
            // Format: the space-joined tail of line-safe header tokens.
            assert(format == join_char(tokens.skip(3), ' '));
            assert forall|k: int|
                0 <= k < tokens.skip(3).len() implies !(#[trigger] tokens.skip(3)[k]).contains(
                '\n',
            ) && !tokens.skip(3)[k].contains('\r') by {
                assert(tokens.skip(3)[k] == tokens[3 + k]);
            }
            lemma_single_not_contains(' ', '\n');
            lemma_single_not_contains(' ', '\r');
            lemma_join_not_contains(tokens.skip(3), seq![' '], '\n');
            lemma_join_not_contains(tokens.skip(3), seq![' '], '\r');
            // Nested records.
            assert forall|k: int| 0 <= k < lines.drop_first().len() implies text_ok(
                #[trigger] lines.drop_first()[k],
            ) by {
                assert(lines.drop_first()[k] == lines[k + 1]);
            }
            lemma_parse_media_props_wf(lines.drop_first());
            assert(props == spec_parse_media_props(lines.drop_first())->Ok_0);
        },
        _ => {
            assert(false);
        },
    }
}

/// Whether every repeat-times record of the document carries at least
/// one start offset: the one well-formedness condition a parse cannot
/// itself guarantee.
pub open spec fn has_repeat_offsets(r: SdpPropModel) -> bool {
    match r {
        SdpPropModel::RepeatTimes { start_offsets, .. } => start_offsets.len() >= 1,
        _ => true,
    }
}

/// A successful record parse yields a well-formed record, provided the
/// record text is carriage-return free, only media records span lines,
/// and any repeat-times record kept at least one offset. The parsed
/// record is a media record exactly when the text opens with `m`.
pub proof fn lemma_parse_record_wf(rec: Seq<char>)
    requires
        spec_parse_record(rec) is Ok,
        !rec.contains('\r'),
        rec.len() >= 1 && rec[0] != 'm' ==> !rec.contains('\n'),
    ensures
        ({
            let p = spec_parse_record(rec)->Ok_0;
            &&& (has_repeat_offsets(p) ==> wf_record(p))
            &&& rec.len() >= 2
            &&& (p is Media <==> rec[0] == 'm')
        }),
{
    let i = find_char(rec, '=');
    lemma_find_char(rec, '=');
    assert(i >= 1);
    let key = rec[0];
    let value = rec.skip(i + 1);
    lemma_sub_not_contains(rec, '\r', i + 1);
    let p = spec_parse_record(rec)->Ok_0;
    if key == 'm' {
        lemma_parse_media_wf(value);
    } else {
        lemma_sub_not_contains(rec, '\n', i + 1);
        let tokens = split_char(value, ' ');
        lemma_split_parts_no_sep(value, ' ');
        lemma_split_parts_inherit(value, ' ', '\n');
        lemma_split_parts_inherit(value, ' ', '\r');
        if key == 'c' {
            lemma_parse_conn_wf(value);
        } else if key == 'k' {
            lemma_parse_enc_wf(value);
        } else if key == 'a' {
            lemma_parse_attr_wf(value);
        } else if key == 'z' {
            assert forall|k: int| 0 <= k < tokens.len() implies token_ok(
                #[trigger] tokens[k],
            ) by {}
            lemma_parse_tz_wf(tokens, value);
            lemma_split_char_len(value, ' ');
            match p {
                SdpPropModel::TimeZone(adjs) => {
                    let m = SdpPropModel::TimeZone(adjs);
                    assert(m->TimeZone_0 == adjs);
                },
                _ => {
                    assert(false);
                },
            }
        } else if key == 'r' {
            match p {
                SdpPropModel::RepeatTimes { interval, active_duration, start_offsets } => {
                    let m = SdpPropModel::RepeatTimes {
                        interval,
                        active_duration,
                        start_offsets,
                    };
                    assert(m->RepeatTimes_start_offsets == start_offsets);
                    assert(start_offsets == tokens.skip(2));
                    assert forall|k: int| 0 <= k < start_offsets.len() implies token_ok(
                        #[trigger] start_offsets[k],
                    ) by {
                        assert(start_offsets[k] == tokens[k + 2]);
                    }
                },
                _ => {
                    assert(false);
                },
            }
        }
    }
}

/// Dropping empty lines keeps only non-empty lines, and keeps any
/// per-line absence facts.
pub proof fn lemma_drop_empty_props(lines: Seq<Seq<char>>)
    requires
        forall|k: int|
            0 <= k < lines.len() ==> !(#[trigger] lines[k]).contains('\n') && !lines[k].contains(
                '\r',
            ),
    ensures
        forall|k: int|
            0 <= k < drop_empty(lines).len() ==> (#[trigger] drop_empty(lines)[k]).len() >= 1
                && !drop_empty(lines)[k].contains('\n') && !drop_empty(lines)[k].contains('\r'),
    decreases lines.len(),
{
    if lines.len() > 0 {
        assert forall|k: int|
            0 <= k < lines.drop_last().len() implies !(
        #[trigger] lines.drop_last()[k]).contains('\n') && !lines.drop_last()[k].contains(
            '\r',
        ) by {
            assert(lines.drop_last()[k] == lines[k]);
        }
        lemma_drop_empty_props(lines.drop_last());
        let p = drop_empty(lines.drop_last());
        let d = drop_empty(lines);
        if lines.last().len() == 0 {
        } else {
            assert forall|k: int|
                0 <= k < d.len() implies (#[trigger] d[k]).len() >= 1 && !d[k].contains('\n')
                && !d[k].contains('\r') by {
                if k < p.len() {
                    assert(d[k] == p[k]);
                } else {
                    assert(d[k] == lines.last());
                    assert(lines.last() == lines[lines.len() - 1]);
                }
            }
        }
    }
}

/// The structure of grouped records: every record is non-empty and
/// carriage-return free; only records that open with `m` span lines; once
/// a record opens with `m`, every later one does; and after a media line
/// was seen the last record opens with `m`.
pub proof fn lemma_group_structure(lines: Seq<Seq<char>>)
    requires
        forall|k: int|
            0 <= k < lines.len() ==> (#[trigger] lines[k]).len() >= 1 && !lines[k].contains('\n')
                && !lines[k].contains('\r'),
    ensures
        ({
            let g = spec_group(lines);
            &&& forall|i: int| 0 <= i < g.len() ==> (#[trigger] g[i]).len() >= 1
            &&& forall|i: int|
                0 <= i < g.len() && (#[trigger] g[i])[0] != 'm' ==> !g[i].contains('\n')
            &&& forall|i: int| 0 <= i < g.len() ==> !(#[trigger] g[i]).contains('\r')
            &&& (has_media_line(lines) ==> g.len() >= 1 && g.last()[0] == 'm')
            &&& (!has_media_line(lines) ==> forall|i: int|
                0 <= i < g.len() ==> (#[trigger] g[i])[0] != 'm')
            &&& forall|i: int, j: int|
                0 <= i < j < g.len() && (#[trigger] g[i])[0] == 'm' ==> (#[trigger] g[j])[0]
                    == 'm'
        }),
    decreases lines.len(),
{
    let g = spec_group(lines);
    if lines.len() == 0 {
        assert(!has_media_line(lines)) by {
            if has_media_line(lines) {
                let i = choose|i: int| 0 <= i < lines.len() && is_media_line(lines[i]);
            }
        }
    } else {
        let init = lines.drop_last();
        let l = lines.last();
        assert(l == lines[lines.len() - 1]);
        assert forall|k: int|
            0 <= k < init.len() implies (#[trigger] init[k]).len() >= 1 && !init[k].contains(
            '\n',
        ) && !init[k].contains('\r') by {
            assert(init[k] == lines[k]);
        }
        lemma_group_structure(init);
        let g0 = spec_group(init);
        lemma_has_media_concat(init, seq![l]);
        assert(lines =~= init + seq![l]);
        assert(has_media_line(seq![l]) == is_media_line(l)) by {
            if is_media_line(l) {
                assert(is_media_line(seq![l][0]));
            }
            if has_media_line(seq![l]) {
                let i = choose|i: int| 0 <= i < seq![l].len() && is_media_line(seq![l][i]);
            }
        }
        if is_media_line(l) || !has_media_line(init) || g0.len() == 0 {
            assert(g =~= g0.push(l));
            if has_media_line(lines) {
                if is_media_line(l) {
                    assert(g.last() == l);
                } else {
                    assert(has_media_line(init));
                    assert(g0.len() >= 1);
                    assert(false);
                }
            }
            assert forall|i: int, j: int|
                0 <= i < j < g.len() && (#[trigger] g[i])[0] == 'm' implies (#[trigger] g[j])[0]
                == 'm' by {
                if j < g0.len() {
                    assert(g[i] == g0[i] && g[j] == g0[j]);
                } else {
                    assert(g[i] == g0[i]);
                    if g0[i][0] == 'm' {
                        assert(has_media_line(init)) by {
                            if !has_media_line(init) {
                                assert(g0[i][0] != 'm');
                            }
                        }
                        assert(g0.len() >= 1);
                        assert(is_media_line(l));
                        assert(g[j] == l);
                    }
                }
            }
            if !has_media_line(lines) {
                assert(!is_media_line(l));
                assert forall|i: int| 0 <= i < g.len() implies (#[trigger] g[i])[0] != 'm' by {
                    if i < g0.len() {
                        assert(g[i] == g0[i]);
                    } else {
                        assert(g[i] == l);
                        assert(l.len() >= 1);
                    }
                }
            }
        } else {
            let last0 = g0.last();
            let merged = last0 + seq!['\n'] + l;
            assert(g =~= g0.update(g0.len() - 1, merged));
            assert(has_media_line(init));
            assert(last0[0] == 'm');
            assert(merged.len() >= 1 && merged[0] == 'm');
            lemma_single_not_contains('\n', '\r');
            lemma_concat_not_contains(last0, seq!['\n'], '\r');
            lemma_concat_not_contains(last0 + seq!['\n'], l, '\r');
            assert forall|i: int| 0 <= i < g.len() implies !(#[trigger] g[i]).contains('\r') by {
                if i < g0.len() - 1 {
                    assert(g[i] == g0[i]);
                } else {
                    assert(g[i] == merged);
                }
            }
            assert forall|i: int|
                0 <= i < g.len() && (#[trigger] g[i])[0] != 'm' implies !g[i].contains('\n') by {
                if i < g0.len() - 1 {
                    assert(g[i] == g0[i]);
                } else {
                    assert(g[i] == merged);
                }
            }
            assert forall|i: int, j: int|
                0 <= i < j < g.len() && (#[trigger] g[i])[0] == 'm' implies (#[trigger] g[j])[0]
                == 'm' by {
                let gi = if i < g0.len() - 1 {
                    g0[i]
                } else {
                    merged
                };
                assert(g[i] == gi);
                if j < g0.len() - 1 {
                    assert(g[j] == g0[j]);
                    if i < g0.len() - 1 {
                        assert(g0[i][0] == 'm' ==> g0[j][0] == 'm');
                    }
                } else {
                    assert(g[j] == merged);
                }
            }
            assert(g.last() == merged);
        }
    }
}

/// A successful list parse pairs each record text with its record.
pub proof fn lemma_parse_records_pointwise(recs: Seq<Seq<char>>)
    requires
        spec_parse_records(recs) is Ok,
    ensures
        ({
            let ps = spec_parse_records(recs)->Ok_0;
            &&& ps.len() == recs.len()
            &&& forall|i: int|
                0 <= i < recs.len() ==> spec_parse_record(#[trigger] recs[i]) == Ok::<
                    SdpPropModel,
                    ParseErrorModel,
                >(ps[i])
        }),
    decreases recs.len(),
{
    if recs.len() > 0 {
        lemma_parse_records_pointwise(recs.drop_first());
        let ps = spec_parse_records(recs)->Ok_0;
        let rest = spec_parse_records(recs.drop_first())->Ok_0;
        assert forall|i: int| 0 <= i < recs.len() implies spec_parse_record(
            #[trigger] recs[i],
        ) == Ok::<SdpPropModel, ParseErrorModel>(ps[i]) by {
            if i == 0 {
                assert(ps[0] == spec_parse_record(recs[0])->Ok_0);
            } else {
                assert(recs[i] == recs.drop_first()[i - 1]);
                assert(ps[i] == rest[i - 1]);
            }
        }
    }
}

/// What a successful parse guarantees of its document: it is well-formed,
/// provided the input held no bare carriage return and every parsed
/// repeat-times record kept at least one start offset.
pub proof fn lemma_parse_gives_wf(t: Seq<char>, d: SdpModel)
    requires
        spec_parse_doc(t) == Ok::<SdpModel, ParseErrorModel>(d),
        !t.contains('\r'),
        forall|k: int| 0 <= k < d.props.len() ==> has_repeat_offsets(#[trigger] d.props[k]),
    ensures
        wf_doc(d),
{
    lemma_normalize_no_cr(t);
    let lines = split_char(t, '\n');
    lemma_split_parts_no_sep(t, '\n');
    lemma_split_parts_inherit(t, '\n', '\r');
    lemma_drop_empty_props(lines);
    let kept = drop_empty(lines);
    lemma_group_structure(kept);
    let g = spec_group(kept);
    assert(spec_parse_records(g) == Ok::<Seq<SdpPropModel>, ParseErrorModel>(d.props));
    lemma_parse_records_pointwise(g);
    assert forall|k: int| 0 <= k < d.props.len() implies wf_record(#[trigger] d.props[k]) by {
        assert(spec_parse_record(g[k]) == Ok::<SdpPropModel, ParseErrorModel>(d.props[k]));
        lemma_parse_record_wf(g[k]);
    }
    assert forall|i: int, j: int|
        0 <= i < j < d.props.len() && (#[trigger] d.props[i]) is Media implies (
    #[trigger] d.props[j]) is Media by {
        assert(spec_parse_record(g[i]) == Ok::<SdpPropModel, ParseErrorModel>(d.props[i]));
        assert(spec_parse_record(g[j]) == Ok::<SdpPropModel, ParseErrorModel>(d.props[j]));
        lemma_parse_record_wf(g[i]);
        lemma_parse_record_wf(g[j]);
        assert(g[i][0] == 'm');
        assert(g[j][0] == 'm');
    }
}

/// Idempotence of re-parse: a document produced by a successful parse of
/// carriage-return-free text parses back from its own serialization,
/// under either line ending, provided its repeat-times records kept at
/// least one offset.
pub proof fn lemma_reparse_identity(t: Seq<char>, d: SdpModel, e: LineEnding)
    requires
        spec_parse_doc(t) == Ok::<SdpModel, ParseErrorModel>(d),
        !t.contains('\r'),
        forall|k: int| 0 <= k < d.props.len() ==> has_repeat_offsets(#[trigger] d.props[k]),
    ensures
        spec_parse_doc(spec_ser_doc(d, e)) == Ok::<SdpModel, ParseErrorModel>(d),
{
    lemma_parse_gives_wf(t, d);
    lemma_serialize_then_parse(d, e);
}

/// A well-formed document: every record is well-formed, and once a media
/// record appears every later record is a media record, since any other
/// line after a media line would be folded into that media section.
pub open spec fn wf_doc(d: SdpModel) -> bool {
    &&& (forall|k: int| 0 <= k < d.props.len() ==> wf_record(#[trigger] d.props[k]))
    &&& (forall|i: int, j: int|
        0 <= i < j < d.props.len() && (#[trigger] d.props[i]) is Media ==> (
        #[trigger] d.props[j]) is Media)
}

} // verus!
