use webrtcredux::sdp::{
    build_connection_lines, content_from_line, get_options_from_address_split, AddressType,
    BandwidthType, EncryptionKeyMethod, LineEnding, MediaProp, MediaType, NetworkType, ParseError,
    SdpProp, TimeZoneAdjustment, SDP,
};

#[test]
fn attribute_value_preserved() {
    let prop = SdpProp::from_str("a=fmtp:97 apt=96").unwrap();
    assert_eq!(
        prop,
        SdpProp::Attribute {
            key: "fmtp".to_string(),
            value: Some("97 apt=96".to_string()),
        }
    );
    assert_eq!(prop.to_string(LineEnding::LF), "a=fmtp:97 apt=96");
}

#[test]
fn flag_attribute_preserved() {
    let prop = SdpProp::from_str("a=recvonly").unwrap();
    assert_eq!(
        prop,
        SdpProp::Attribute {
            key: "recvonly".to_string(),
            value: None,
        }
    );
    assert_eq!(prop.to_string(LineEnding::LF), "a=recvonly");
}

#[test]
fn media_section_boundary() {
    let text = "m=audio 49170 RTP/AVP 0\nm=video 51372 RTP/AVP 99\na=rtpmap:99 h263-1998/90000";
    let doc = SDP::from_str(text).unwrap();
    assert_eq!(doc.props.len(), 2);
    match &doc.props[0] {
        SdpProp::Media { props, .. } => assert!(props.is_empty()),
        other => panic!("expected a media record, got {:?}", other),
    }
    match &doc.props[1] {
        SdpProp::Media { props, .. } => {
            assert_eq!(
                props,
                &vec![MediaProp::Attribute {
                    key: "rtpmap".to_string(),
                    value: Some("99 h263-1998/90000".to_string()),
                }]
            );
        },
        other => panic!("expected a media record, got {:?}", other),
    }
}

#[test]
fn connection_with_ttl() {
    let prop = SdpProp::from_str("c=IN IP4 224.2.17.12/127").unwrap();
    assert_eq!(
        prop,
        SdpProp::Connection {
            net_type: NetworkType::Internet,
            address_type: AddressType::IPv4,
            address: "224.2.17.12".to_string(),
            ttl: Some(127),
            num_addresses: None,
            suffix: None,
        }
    );
}

#[test]
fn connection_with_ttl_and_count() {
    let prop = SdpProp::from_str("c=IN IP4 224.2.1.1/127/3").unwrap();
    assert_eq!(
        prop,
        SdpProp::Connection {
            net_type: NetworkType::Internet,
            address_type: AddressType::IPv4,
            address: "224.2.1.1".to_string(),
            ttl: Some(127),
            num_addresses: Some(3),
            suffix: None,
        }
    );
    assert_eq!(prop.to_string(LineEnding::LF), "c=IN IP4 224.2.1.1/127/3");
}

#[test]
fn connection_suffix_preserved() {
    let prop = SdpProp::from_str("c=IN IP6 ff15::101 extra data").unwrap();
    assert_eq!(
        prop,
        SdpProp::Connection {
            net_type: NetworkType::Internet,
            address_type: AddressType::IPv6,
            address: "ff15::101".to_string(),
            ttl: None,
            num_addresses: None,
            suffix: Some("extra data".to_string()),
        }
    );
    assert_eq!(prop.to_string(LineEnding::LF), "c=IN IP6 ff15::101 extra data");
}

#[test]
fn malformed_input_rejected() {
    let res = SDP::from_str("v=0\ngarbage line\ns=x");
    match res {
        Err(ParseError::UnknownToken(l)) => assert_eq!(l, "garbage line"),
        other => panic!("expected an unknown-token error, got {:?}", other),
    }
}

#[test]
fn line_starting_with_equals_rejected() {
    let res = SDP::from_str("=value");
    assert!(matches!(res, Err(ParseError::MalformedLine(_))));
}

#[test]
fn unknown_key_rejected() {
    let res = SDP::from_str("q=something here");
    match res {
        Err(ParseError::UnknownKey(k, v)) => {
            assert_eq!(k, 'q');
            assert_eq!(v, "something here");
        },
        other => panic!("expected an unknown-key error, got {:?}", other),
    }
}

#[test]
fn bad_number_rejected() {
    let res = SDP::from_str("v=abc");
    match res {
        Err(ParseError::NumericConversionFailed(t)) => assert_eq!(t, "abc"),
        other => panic!("expected a numeric error, got {:?}", other),
    }
    assert!(matches!(
        SDP::from_str("t=12x 0"),
        Err(ParseError::NumericConversionFailed(_))
    ));
    // A version above the eight-bit range is rejected too.
    assert!(matches!(
        SDP::from_str("v=256"),
        Err(ParseError::NumericConversionFailed(_))
    ));
}

#[test]
fn port_out_of_range_rejected() {
    assert!(matches!(
        SDP::from_str("m=audio 65536 RTP/AVP 0"),
        Err(ParseError::NumericConversionFailed(_))
    ));
    let doc = SDP::from_str("m=audio 65535 RTP/AVP 0").unwrap();
    match &doc.props[0] {
        SdpProp::Media { ports, .. } => assert_eq!(ports, &vec![65535u16]),
        other => panic!("expected a media record, got {:?}", other),
    }
}

#[test]
fn too_few_tokens_rejected() {
    assert!(matches!(
        SDP::from_str("o=user 123"),
        Err(ParseError::MalformedLine(_))
    ));
    assert!(matches!(
        SDP::from_str("t=123"),
        Err(ParseError::MalformedLine(_))
    ));
    assert!(matches!(
        SDP::from_str("c=IN IP4"),
        Err(ParseError::MalformedLine(_))
    ));
    assert!(matches!(
        SDP::from_str("b=CT"),
        Err(ParseError::MalformedLine(_))
    ));
}

#[test]
fn address_with_too_many_parts_rejected() {
    assert!(matches!(
        SDP::from_str("c=IN IP4 1.2.3.4/1/2/3"),
        Err(ParseError::MalformedLine(_))
    ));
}

#[test]
fn end_to_end_record_counts() {
    let text = "v=0\n\
o=alice 1 2 IN IP4 10.0.0.1\n\
s=call\n\
t=0 0\n\
a=group:BUNDLE 0 1\n\
m=audio 49170 RTP/AVP 0\n\
a=rtpmap:0 PCMU/8000\n\
a=sendrecv\n\
m=video 51372 RTP/AVP 99\n\
a=rtpmap:99 h263-1998/90000\n\
a=recvonly\n\
a=mid:1\n";
    let doc = SDP::from_str(text).unwrap();
    // Five session-level records and one record per media line.
    assert_eq!(doc.props.len(), 7);
    match &doc.props[5] {
        SdpProp::Media { props, .. } => assert_eq!(props.len(), 2),
        other => panic!("expected a media record, got {:?}", other),
    }
    match &doc.props[6] {
        SdpProp::Media { props, .. } => assert_eq!(props.len(), 3),
        other => panic!("expected a media record, got {:?}", other),
    }
}

#[test]
fn round_trip_lf_text() {
    let text = "v=0\n\
o=jdoe 2890844526 2890842807 IN IP4 10.47.16.5\n\
s=SDP Seminar\n\
b=AS:64\n\
t=2873397496 2873404696\n\
r=604800 3600 0 90000\n\
z=2882844526 -1h 2898848070 0\n\
k=clear:secret\n\
a=recvonly\n\
m=audio 49170/2 RTP/AVP 0\n\
i=audio title\n\
b=CT:128\n\
k=prompt\n\
a=ptime:20\n";
    let doc = SDP::from_str(text).unwrap();
    assert_eq!(doc.to_string(LineEnding::LF), text);
}

#[test]
fn reparse_equals_first_parse() {
    let text = "v=0\r\ns=-\r\nc=IN IP4 224.2.17.12/127\r\nm=video 51372 RTP/AVP 99\r\na=rtpmap:99 h263-1998/90000\r\n";
    let first = SDP::from_str(text).unwrap();
    let second = SDP::from_str(&first.to_string(LineEnding::LF)).unwrap();
    assert_eq!(first, second);
}

#[test]
fn timezone_parse_and_format() {
    let prop = SdpProp::from_str("z=2882844526 -1h 2898848070 0").unwrap();
    assert_eq!(
        prop,
        SdpProp::TimeZone(vec![
            TimeZoneAdjustment {
                time: 2882844526,
                offset: "-1h".to_string(),
            },
            TimeZoneAdjustment {
                time: 2898848070,
                offset: "0".to_string(),
            },
        ])
    );
    assert_eq!(prop.to_string(LineEnding::LF), "z=2882844526 -1h 2898848070 0");
}

#[test]
fn timezone_odd_tokens_rejected() {
    assert!(matches!(
        SdpProp::from_str("z=2882844526"),
        Err(ParseError::MalformedLine(_))
    ));
}

#[test]
fn repeat_times_kept_as_strings() {
    let prop = SdpProp::from_str("r=7d 1h 0 25h").unwrap();
    assert_eq!(
        prop,
        SdpProp::RepeatTimes {
            interval: "7d".to_string(),
            active_duration: "1h".to_string(),
            start_offsets: vec!["0".to_string(), "25h".to_string()],
        }
    );
    assert_eq!(prop.to_string(LineEnding::LF), "r=7d 1h 0 25h");
}

#[test]
fn encryption_key_methods() {
    assert_eq!(
        EncryptionKeyMethod::from_str("prompt").unwrap(),
        EncryptionKeyMethod::Prompt
    );
    assert_eq!(
        EncryptionKeyMethod::from_str("clear:pass:word").unwrap(),
        EncryptionKeyMethod::Clear("pass:word".to_string())
    );
    assert_eq!(
        EncryptionKeyMethod::from_str("base64:AbC=").unwrap(),
        EncryptionKeyMethod::Base64("AbC=".to_string())
    );
    assert_eq!(
        EncryptionKeyMethod::from_str("uri:https://k.example.com").unwrap(),
        EncryptionKeyMethod::Uri("https://k.example.com".to_string())
    );
    assert!(matches!(
        EncryptionKeyMethod::from_str("rot13:x"),
        Err(ParseError::UnknownToken(_))
    ));
    assert_eq!(
        EncryptionKeyMethod::Clear("pass:word".to_string()).to_string(),
        "clear:pass:word"
    );
    assert_eq!(EncryptionKeyMethod::Prompt.to_string(), "prompt");
}

#[test]
fn enum_tokens_round_trip() {
    assert_eq!(NetworkType::from_str("IN").unwrap(), NetworkType::Internet);
    assert_eq!(NetworkType::Internet.to_string(), "IN");
    assert!(matches!(
        NetworkType::from_str("in"),
        Err(ParseError::UnknownToken(_))
    ));

    assert_eq!(AddressType::from_str("IP4").unwrap(), AddressType::IPv4);
    assert_eq!(AddressType::from_str("IP6").unwrap(), AddressType::IPv6);
    assert_eq!(AddressType::IPv4.to_string(), "IP4");
    assert!(matches!(
        AddressType::from_str("IPX"),
        Err(ParseError::UnknownToken(_))
    ));

    assert_eq!(
        BandwidthType::from_str("CT").unwrap(),
        BandwidthType::ConferenceTotal
    );
    assert_eq!(
        BandwidthType::from_str("AS").unwrap(),
        BandwidthType::ApplicationSpecific
    );
    assert_eq!(BandwidthType::ApplicationSpecific.to_string(), "AS");
    assert!(matches!(
        BandwidthType::from_str("XX"),
        Err(ParseError::UnknownToken(_))
    ));

    assert_eq!(MediaType::from_str("audio").unwrap(), MediaType::Audio);
    assert_eq!(MediaType::from_str("video").unwrap(), MediaType::Video);
    assert_eq!(MediaType::from_str("text").unwrap(), MediaType::Text);
    assert_eq!(
        MediaType::from_str("application").unwrap(),
        MediaType::Application
    );
    assert_eq!(MediaType::Application.to_string(), "application");
    assert!(matches!(
        MediaType::from_str("Audio"),
        Err(ParseError::UnknownToken(_))
    ));
}

#[test]
fn content_from_line_splits_once() {
    assert_eq!(
        content_from_line("a=b=c").unwrap(),
        ('a', "b=c".to_string())
    );
    assert_eq!(content_from_line("v=0").unwrap(), ('v', "0".to_string()));
    assert!(matches!(
        content_from_line("no separator"),
        Err(ParseError::UnknownToken(_))
    ));
    assert!(matches!(
        content_from_line("=empty key"),
        Err(ParseError::MalformedLine(_))
    ));
}

#[test]
fn address_split_options() {
    assert_eq!(
        get_options_from_address_split(vec!["224.2.17.12"]).unwrap(),
        ("224.2.17.12", None, None)
    );
    assert_eq!(
        get_options_from_address_split(vec!["224.2.17.12", "127"]).unwrap(),
        ("224.2.17.12", Some(127), None)
    );
    assert_eq!(
        get_options_from_address_split(vec!["224.2.17.12", "127", "3"]).unwrap(),
        ("224.2.17.12", Some(127), Some(3))
    );
    assert!(matches!(
        get_options_from_address_split(vec!["a", "1", "2", "3"]),
        Err(ParseError::MalformedLine(_))
    ));
    assert!(matches!(
        get_options_from_address_split(vec!["a", "x"]),
        Err(ParseError::NumericConversionFailed(_))
    ));
}

#[test]
fn connection_line_built_from_parts() {
    assert_eq!(
        build_connection_lines(
            &NetworkType::Internet,
            &AddressType::IPv4,
            &None,
            &"224.2.17.12/127".to_string()
        ),
        "c=IN IP4 224.2.17.12/127"
    );
    assert_eq!(
        build_connection_lines(
            &NetworkType::Internet,
            &AddressType::IPv6,
            &Some("extra".to_string()),
            &"ff15::101".to_string()
        ),
        "c=IN IP6 ff15::101 extra"
    );
}

#[test]
fn media_prop_line_parse() {
    assert_eq!(
        MediaProp::from_str("i=A Seminar").unwrap(),
        MediaProp::Title("A Seminar".to_string())
    );
    assert_eq!(
        MediaProp::from_str("b=AS:64").unwrap(),
        MediaProp::Bandwidth {
            bw_type: BandwidthType::ApplicationSpecific,
            bandwidth: 64,
        }
    );
    assert_eq!(
        MediaProp::from_str("b=AS:64").unwrap().to_string(),
        "b=AS:64"
    );
    // A version line is not a media-level record.
    assert!(matches!(
        MediaProp::from_str("v=0"),
        Err(ParseError::UnknownToken(_))
    ));
}

#[test]
fn connection_ttl_never_forced() {
    // A TTL is appended only when present, even for an IPv4 address.
    let prop = SdpProp::Connection {
        net_type: NetworkType::Internet,
        address_type: AddressType::IPv4,
        address: "10.0.0.1".to_string(),
        ttl: None,
        num_addresses: None,
        suffix: None,
    };
    assert_eq!(prop.to_string(LineEnding::LF), "c=IN IP4 10.0.0.1");
}

#[test]
fn version_bounds() {
    assert_eq!(SdpProp::from_str("v=255").unwrap(), SdpProp::Version(255));
    assert_eq!(SdpProp::Version(255).to_string(LineEnding::LF), "v=255");
    assert_eq!(SdpProp::from_str("v=0").unwrap(), SdpProp::Version(0));
}

#[test]
fn blank_lines_dropped() {
    let doc = SDP::from_str("v=0\n\ns=x\n\n").unwrap();
    assert_eq!(
        doc.props,
        vec![
            SdpProp::Version(0),
            SdpProp::SessionName("x".to_string()),
        ]
    );
}

#[test]
fn empty_format_round_trips() {
    // A media header with exactly three tokens has an empty format.
    let doc = SDP::from_str("m=audio 49170 RTP/AVP").unwrap();
    match &doc.props[0] {
        SdpProp::Media { format, .. } => assert_eq!(format, ""),
        other => panic!("expected a media record, got {:?}", other),
    }
}
