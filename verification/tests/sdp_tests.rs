use webrtcredux::sdp::{
    AddressType, EncryptionKeyMethod, LineEnding, MediaProp, MediaType, NetworkType, ParseError,
    SdpProp, TimeZoneAdjustment, SDP,
};

fn seminar_props() -> Vec<SdpProp> {
    vec![
        SdpProp::Version(0),
        SdpProp::Origin {
            username: "jdoe".to_string(),
            session_id: "2890844526".to_string(),
            session_version: 2890842807,
            net_type: NetworkType::Internet,
            address_type: AddressType::IPv4,
            address: "10.47.16.5".to_string(),
        },
        SdpProp::SessionName("SDP Seminar".to_string()),
        SdpProp::SessionInformation("A Seminar on the session description protocol".to_string()),
        SdpProp::Uri("http://www.example.com/seminars/sdp.pdf".to_string()),
        SdpProp::Email("j.doe@example.com (Jane Doe)".to_string()),
        SdpProp::Connection {
            net_type: NetworkType::Internet,
            address_type: AddressType::IPv4,
            address: "224.2.17.12".to_string(),
            suffix: None,
            ttl: Some(127),
            num_addresses: None,
        },
        SdpProp::Timing {
            start: 2873397496,
            stop: 2873404696,
        },
        SdpProp::Attribute {
            key: "recvonly".to_string(),
            value: None,
        },
        SdpProp::Media {
            media_type: MediaType::Audio,
            ports: vec![49170],
            protocol: "RTP/AVP".to_string(),
            format: "0".to_string(),
            props: vec![],
        },
        SdpProp::Media {
            media_type: MediaType::Video,
            ports: vec![51372],
            protocol: "RTP/AVP".to_string(),
            format: "99".to_string(),
            props: vec![MediaProp::Attribute {
                key: "rtpmap".to_string(),
                value: Some("99 h263-1998/90000".to_string()),
            }],
        },
    ]
}

const SEMINAR_TEXT: &str = "v=0\n\
o=jdoe 2890844526 2890842807 IN IP4 10.47.16.5\n\
s=SDP Seminar\n\
i=A Seminar on the session description protocol\n\
u=http://www.example.com/seminars/sdp.pdf\n\
e=j.doe@example.com (Jane Doe)\n\
c=IN IP4 224.2.17.12/127\n\
t=2873397496 2873404696\n\
a=recvonly\n\
m=audio 49170 RTP/AVP 0\n\
m=video 51372 RTP/AVP 99\n\
a=rtpmap:99 h263-1998/90000";

#[test]
fn sdp_serialization() {
    let target = format!("{}\n", SEMINAR_TEXT);
    let test = SDP {
        props: seminar_props(),
    };
    assert_eq!(test.to_string(LineEnding::LF), target);
}

#[test]
fn sdp_deserialization() {
    let target = SDP {
        props: seminar_props(),
    };
    let res = SDP::from_str(SEMINAR_TEXT);
    assert!(
        res.is_ok(),
        "Parse failed with error: {:?}",
        res.err().unwrap()
    );
    assert_eq!(res.unwrap(), target);
}

#[test]
fn complex_sdp() {
    let text = "v=0\n\
o=- 8488083020976882093 2 IN IP4 127.0.0.1\n\
s=-\n\
t=0 0\n\
a=group:BUNDLE 0 1\n\
a=extmap-allow-mixed\n\
a=msid-semantic: WMS\n\
m=video 55395 UDP/TLS/RTP/SAVPF 96 97 98 99 100 101 127 121 125 107 108 109 124 120 123 119 35 36 41 42 114 115 116\n\
c=IN IP4 2.39.73.41\n\
a=rtcp:9 IN IP4 0.0.0.0\n\
a=candidate:3859917557 1 udp 2113937151 44a9eba8-5284-45b5-8825-ed5f7001f62a.local 55395 typ host generation 0 network-cost 999\n\
a=candidate:842163049 1 udp 1677729535 2.39.73.41 55395 typ srflx raddr 0.0.0.0 rport 0 generation 0 network-cost 999\n\
a=ice-ufrag:nVwA\n\
a=ice-pwd:tyR7PZVvcMN4/aqQLrcBFuU5\n\
a=ice-options:trickle\n\
a=fingerprint:sha-256 62:E4:9A:F9:6A:F5:B4:E3:52:07:4F:8E:C4:9F:27:16:9B:DA:D1:18:00:19:5F:8A:69:E2:D9:F6:AC:F0:64:51\n\
a=setup:actpass\n\
a=mid:0\n\
a=extmap:1 urn:ietf:params:rtp-hdrext:toffset\n\
a=extmap:2 http://www.webrtc.org/experiments/rtp-hdrext/abs-send-time\n\
a=extmap:3 urn:3gpp:video-orientation\n\
a=extmap:4 http://www.ietf.org/id/draft-holmer-rmcat-transport-wide-cc-extensions-01\n\
a=extmap:5 http://www.webrtc.org/experiments/rtp-hdrext/playout-delay\n\
a=extmap:6 http://www.webrtc.org/experiments/rtp-hdrext/video-content-type\n\
a=extmap:7 http://www.webrtc.org/experiments/rtp-hdrext/video-timing\n\
a=extmap:8 http://www.webrtc.org/experiments/rtp-hdrext/color-space\n\
a=extmap:9 urn:ietf:params:rtp-hdrext:sdes:mid\n\
a=extmap:10 urn:ietf:params:rtp-hdrext:sdes:rtp-stream-id\n\
a=extmap:11 urn:ietf:params:rtp-hdrext:sdes:repaired-rtp-stream-id\n\
a=sendrecv\n\
a=msid:- aef93e5f-0aeb-4c4d-807e-fadaf721fc63\n\
a=rtcp-mux\n\
a=rtcp-rsize\n\
a=rtpmap:96 VP8/90000\n\
a=rtcp-fb:96 goog-remb\n\
a=rtcp-fb:96 transport-cc\n\
a=rtcp-fb:96 ccm fir\n\
a=rtcp-fb:96 nack\n\
a=rtcp-fb:96 nack pli\n\
a=rtpmap:97 rtx/90000\n\
a=fmtp:97 apt=96\n\
a=rtpmap:98 VP9/90000\n\
a=rtcp-fb:98 goog-remb\n\
a=rtcp-fb:98 transport-cc\n\
a=rtcp-fb:98 ccm fir\n\
a=rtcp-fb:98 nack\n\
a=rtcp-fb:98 nack pli\n\
a=fmtp:98 profile-id=0\n\
a=rtpmap:99 rtx/90000\n\
a=fmtp:99 apt=98\n\
a=rtpmap:100 VP9/90000\n\
a=rtcp-fb:100 goog-remb\n\
a=rtcp-fb:100 transport-cc\n\
a=rtcp-fb:100 ccm fir\n\
a=rtcp-fb:100 nack\n\
a=rtcp-fb:100 nack pli\n\
a=fmtp:100 profile-id=2\n\
a=rtpmap:101 rtx/90000\n\
a=fmtp:101 apt=100\n\
a=rtpmap:127 H264/90000\n\
a=rtcp-fb:127 goog-remb\n\
a=rtcp-fb:127 transport-cc\n\
a=rtcp-fb:127 ccm fir\n\
a=rtcp-fb:127 nack\n\
a=rtcp-fb:127 nack pli\n\
a=fmtp:127 level-asymmetry-allowed=1;packetization-mode=1;profile-level-id=42001f\n\
a=rtpmap:121 rtx/90000\n\
a=fmtp:121 apt=127\n\
a=rtpmap:125 H264/90000\n\
a=rtcp-fb:125 goog-remb\n\
a=rtcp-fb:125 transport-cc\n\
a=rtcp-fb:125 ccm fir\n\
a=rtcp-fb:125 nack\n\
a=rtcp-fb:125 nack pli\n\
a=fmtp:125 level-asymmetry-allowed=1;packetization-mode=0;profile-level-id=42001f\n\
a=rtpmap:107 rtx/90000\n\
a=fmtp:107 apt=125\n\
a=rtpmap:108 H264/90000\n\
a=rtcp-fb:108 goog-remb\n\
a=rtcp-fb:108 transport-cc\n\
a=rtcp-fb:108 ccm fir\n\
a=rtcp-fb:108 nack\n\
a=rtcp-fb:108 nack pli\n\
a=fmtp:108 level-asymmetry-allowed=1;packetization-mode=1;profile-level-id=42e01f\n\
a=rtpmap:109 rtx/90000\n\
a=fmtp:109 apt=108\n\
a=rtpmap:124 H264/90000\n\
a=rtcp-fb:124 goog-remb\n\
a=rtcp-fb:124 transport-cc\n\
a=rtcp-fb:124 ccm fir\n\
a=rtcp-fb:124 nack\n\
a=rtcp-fb:124 nack pli\n\
a=fmtp:124 level-asymmetry-allowed=1;packetization-mode=0;profile-level-id=42e01f\n\
a=rtpmap:120 rtx/90000\n\
a=fmtp:120 apt=124\n\
a=rtpmap:123 H264/90000\n\
a=rtcp-fb:123 goog-remb\n\
a=rtcp-fb:123 transport-cc\n\
a=rtcp-fb:123 ccm fir\n\
a=rtcp-fb:123 nack\n\
a=rtcp-fb:123 nack pli\n\
a=fmtp:123 level-asymmetry-allowed=1;packetization-mode=1;profile-level-id=4d001f\n\
a=rtpmap:119 rtx/90000\n\
a=fmtp:119 apt=123\n\
a=rtpmap:35 H264/90000\n\
a=rtcp-fb:35 goog-remb\n\
a=rtcp-fb:35 transport-cc\n\
a=rtcp-fb:35 ccm fir\n\
a=rtcp-fb:35 nack\n\
a=rtcp-fb:35 nack pli\n\
a=fmtp:35 level-asymmetry-allowed=1;packetization-mode=0;profile-level-id=4d001f\n\
a=rtpmap:36 rtx/90000\n\
a=fmtp:36 apt=35\n\
a=rtpmap:41 AV1/90000\n\
a=rtcp-fb:41 goog-remb\n\
a=rtcp-fb:41 transport-cc\n\
a=rtcp-fb:41 ccm fir\n\
a=rtcp-fb:41 nack\n\
a=rtcp-fb:41 nack pli\n\
a=rtpmap:42 rtx/90000\n\
a=fmtp:42 apt=41\n\
a=rtpmap:114 red/90000\n\
a=rtpmap:115 rtx/90000\n\
a=fmtp:115 apt=114\n\
a=rtpmap:116 ulpfec/90000\n\
a=ssrc-group:FID 2188188946 3056071260\n\
a=ssrc:2188188946 cname:QGl7AJpaZdNMdnjK\n\
a=ssrc:2188188946 msid:- aef93e5f-0aeb-4c4d-807e-fadaf721fc63\n\
a=ssrc:3056071260 cname:QGl7AJpaZdNMdnjK\n\
a=ssrc:3056071260 msid:- aef93e5f-0aeb-4c4d-807e-fadaf721fc63\n\
m=audio 34179 UDP/TLS/RTP/SAVPF 111 63 103 104 9 0 8 106 105 13 110 112 113 126\n\
c=IN IP4 2.39.73.41\n\
a=rtcp:9 IN IP4 0.0.0.0\n\
a=candidate:3859917557 1 udp 2113937151 44a9eba8-5284-45b5-8825-ed5f7001f62a.local 34179 typ host generation 0 network-cost 999\n\
a=candidate:842163049 1 udp 1677729535 2.39.73.41 34179 typ srflx raddr 0.0.0.0 rport 0 generation 0 network-cost 999\n\
a=ice-ufrag:nVwA\n\
a=ice-pwd:tyR7PZVvcMN4/aqQLrcBFuU5\n\
a=ice-options:trickle\n\
a=fingerprint:sha-256 62:E4:9A:F9:6A:F5:B4:E3:52:07:4F:8E:C4:9F:27:16:9B:DA:D1:18:00:19:5F:8A:69:E2:D9:F6:AC:F0:64:51\n\
a=setup:actpass\n\
a=mid:1\n\
a=extmap:14 urn:ietf:params:rtp-hdrext:ssrc-audio-level\n\
a=extmap:2 http://www.webrtc.org/experiments/rtp-hdrext/abs-send-time\n\
a=extmap:4 http://www.ietf.org/id/draft-holmer-rmcat-transport-wide-cc-extensions-01\n\
a=extmap:9 urn:ietf:params:rtp-hdrext:sdes:mid\n\
a=sendrecv\n\
a=msid:- c8351fd3-2f5d-4d46-899d-9af77de86d9b\n\
a=rtcp-mux\n\
a=rtpmap:111 opus/48000/2\n\
a=rtcp-fb:111 transport-cc\n\
a=fmtp:111 minptime=10;useinbandfec=1\n\
a=rtpmap:63 red/48000/2\n\
a=fmtp:63 111/111\n\
a=rtpmap:103 ISAC/16000\n\
a=rtpmap:104 ISAC/32000\n\
a=rtpmap:9 G722/8000\n\
a=rtpmap:0 PCMU/8000\n\
a=rtpmap:8 PCMA/8000\n\
a=rtpmap:106 CN/32000\n\
a=rtpmap:105 CN/16000\n\
a=rtpmap:13 CN/8000\n\
a=rtpmap:110 telephone-event/48000\n\
a=rtpmap:112 telephone-event/32000\n\
a=rtpmap:113 telephone-event/16000\n\
a=rtpmap:126 telephone-event/8000\n\
a=ssrc:3846141828 cname:QGl7AJpaZdNMdnjK\n\
a=ssrc:3846141828 msid:- c8351fd3-2f5d-4d46-899d-9af77de86d9b";

    let sdp = SDP::from_str(text);

    assert!(sdp.is_ok());
}

#[test]
fn complex_unformatted_sdp() {
    let text = "v=0\r\no=- 8488083020976882093 2 IN IP4 127.0.0.1\r\ns=-\r\nt=0 0\r\na=group:BUNDLE 0 1\r\na=extmap-allow-mixed\r\na=msid-semantic: WMS\r\nm=video 55395 UDP/TLS/RTP/SAVPF 96 97 98 99 100 101 127 121 125 107 108 109 124 120 123 119 35 36 41 42 114 115 116\r\nc=IN IP4 2.39.73.41\r\na=rtcp:9 IN IP4 0.0.0.0\r\na=candidate:3859917557 1 udp 2113937151 44a9eba8-5284-45b5-8825-ed5f7001f62a.local 55395 typ host generation 0 network-cost 999\r\na=candidate:842163049 1 udp 1677729535 2.39.73.41 55395 typ srflx raddr 0.0.0.0 rport 0 generation 0 network-cost 999\r\na=ice-ufrag:nVwA\r\na=ice-pwd:tyR7PZVvcMN4/aqQLrcBFuU5\r\na=ice-options:trickle\r\na=fingerprint:sha-256 62:E4:9A:F9:6A:F5:B4:E3:52:07:4F:8E:C4:9F:27:16:9B:DA:D1:18:00:19:5F:8A:69:E2:D9:F6:AC:F0:64:51\r\na=setup:actpass\r\na=mid:0\r\na=extmap:1 urn:ietf:params:rtp-hdrext:toffset\r\na=extmap:2 http://www.webrtc.org/experiments/rtp-hdrext/abs-send-time\r\na=extmap:3 urn:3gpp:video-orientation\r\na=extmap:4 http://www.ietf.org/id/draft-holmer-rmcat-transport-wide-cc-extensions-01\r\na=extmap:5 http://www.webrtc.org/experiments/rtp-hdrext/playout-delay\r\na=extmap:6 http://www.webrtc.org/experiments/rtp-hdrext/video-content-type\r\na=extmap:7 http://www.webrtc.org/experiments/rtp-hdrext/video-timing\r\na=extmap:8 http://www.webrtc.org/experiments/rtp-hdrext/color-space\r\na=extmap:9 urn:ietf:params:rtp-hdrext:sdes:mid\r\na=extmap:10 urn:ietf:params:rtp-hdrext:sdes:rtp-stream-id\r\na=extmap:11 urn:ietf:params:rtp-hdrext:sdes:repaired-rtp-stream-id\r\na=sendrecv\r\na=msid:- aef93e5f-0aeb-4c4d-807e-fadaf721fc63\r\na=rtcp-mux\r\na=rtcp-rsize\r\na=rtpmap:96 VP8/90000\r\na=rtcp-fb:96 goog-remb\r\na=rtcp-fb:96 transport-cc\r\na=rtcp-fb:96 ccm fir\r\na=rtcp-fb:96 nack\r\na=rtcp-fb:96 nack pli\r\na=rtpmap:97 rtx/90000\r\na=fmtp:97 apt=96\r\na=rtpmap:98 VP9/90000\r\na=rtcp-fb:98 goog-remb\r\na=rtcp-fb:98 transport-cc\r\na=rtcp-fb:98 ccm fir\r\na=rtcp-fb:98 nack\r\na=rtcp-fb:98 nack pli\r\na=fmtp:98 profile-id=0\r\na=rtpmap:99 rtx/90000\r\na=fmtp:99 apt=98\r\na=rtpmap:100 VP9/90000\r\na=rtcp-fb:100 goog-remb\r\na=rtcp-fb:100 transport-cc\r\na=rtcp-fb:100 ccm fir\r\na=rtcp-fb:100 nack\r\na=rtcp-fb:100 nack pli\r\na=fmtp:100 profile-id=2\r\na=rtpmap:101 rtx/90000\r\na=fmtp:101 apt=100\r\na=rtpmap:127 H264/90000\r\na=rtcp-fb:127 goog-remb\r\na=rtcp-fb:127 transport-cc\r\na=rtcp-fb:127 ccm fir\r\na=rtcp-fb:127 nack\r\na=rtcp-fb:127 nack pli\r\na=fmtp:127 level-asymmetry-allowed=1;packetization-mode=1;profile-level-id=42001f\r\na=rtpmap:121 rtx/90000\r\na=fmtp:121 apt=127\r\na=rtpmap:125 H264/90000\r\na=rtcp-fb:125 goog-remb\r\na=rtcp-fb:125 transport-cc\r\na=rtcp-fb:125 ccm fir\r\na=rtcp-fb:125 nack\r\na=rtcp-fb:125 nack pli\r\na=fmtp:125 level-asymmetry-allowed=1;packetization-mode=0;profile-level-id=42001f\r\na=rtpmap:107 rtx/90000\r\na=fmtp:107 apt=125\r\na=rtpmap:108 H264/90000\r\na=rtcp-fb:108 goog-remb\r\na=rtcp-fb:108 transport-cc\r\na=rtcp-fb:108 ccm fir\r\na=rtcp-fb:108 nack\r\na=rtcp-fb:108 nack pli\r\na=fmtp:108 level-asymmetry-allowed=1;packetization-mode=1;profile-level-id=42e01f\r\na=rtpmap:109 rtx/90000\r\na=fmtp:109 apt=108\r\na=rtpmap:124 H264/90000\r\na=rtcp-fb:124 goog-remb\r\na=rtcp-fb:124 transport-cc\r\na=rtcp-fb:124 ccm fir\r\na=rtcp-fb:124 nack\r\na=rtcp-fb:124 nack pli\r\na=fmtp:124 level-asymmetry-allowed=1;packetization-mode=0;profile-level-id=42e01f\r\na=rtpmap:120 rtx/90000\r\na=fmtp:120 apt=124\r\na=rtpmap:123 H264/90000\r\na=rtcp-fb:123 goog-remb\r\na=rtcp-fb:123 transport-cc\r\na=rtcp-fb:123 ccm fir\r\na=rtcp-fb:123 nack\r\na=rtcp-fb:123 nack pli\r\na=fmtp:123 level-asymmetry-allowed=1;packetization-mode=1;profile-level-id=4d001f\r\na=rtpmap:119 rtx/90000\r\na=fmtp:119 apt=123\r\na=rtpmap:35 H264/90000\r\na=rtcp-fb:35 goog-remb\r\na=rtcp-fb:35 transport-cc\r\na=rtcp-fb:35 ccm fir\r\na=rtcp-fb:35 nack\r\na=rtcp-fb:35 nack pli\r\na=fmtp:35 level-asymmetry-allowed=1;packetization-mode=0;profile-level-id=4d001f\r\na=rtpmap:36 rtx/90000\r\na=fmtp:36 apt=35\r\na=rtpmap:41 AV1/90000\r\na=rtcp-fb:41 goog-remb\r\na=rtcp-fb:41 transport-cc\r\na=rtcp-fb:41 ccm fir\r\na=rtcp-fb:41 nack\r\na=rtcp-fb:41 nack pli\r\na=rtpmap:42 rtx/90000\r\na=fmtp:42 apt=41\r\na=rtpmap:114 red/90000\r\na=rtpmap:115 rtx/90000\r\na=fmtp:115 apt=114\r\na=rtpmap:116 ulpfec/90000\r\na=ssrc-group:FID 2188188946 3056071260\r\na=ssrc:2188188946 cname:QGl7AJpaZdNMdnjK\r\na=ssrc:2188188946 msid:- aef93e5f-0aeb-4c4d-807e-fadaf721fc63\r\na=ssrc:3056071260 cname:QGl7AJpaZdNMdnjK\r\na=ssrc:3056071260 msid:- aef93e5f-0aeb-4c4d-807e-fadaf721fc63\r\nm=audio 34179 UDP/TLS/RTP/SAVPF 111 63 103 104 9 0 8 106 105 13 110 112 113 126\r\nc=IN IP4 2.39.73.41\r\na=rtcp:9 IN IP4 0.0.0.0\r\na=candidate:3859917557 1 udp 2113937151 44a9eba8-5284-45b5-8825-ed5f7001f62a.local 34179 typ host generation 0 network-cost 999\r\na=candidate:842163049 1 udp 1677729535 2.39.73.41 34179 typ srflx raddr 0.0.0.0 rport 0 generation 0 network-cost 999\r\na=ice-ufrag:nVwA\r\na=ice-pwd:tyR7PZVvcMN4/aqQLrcBFuU5\r\na=ice-options:trickle\r\na=fingerprint:sha-256 62:E4:9A:F9:6A:F5:B4:E3:52:07:4F:8E:C4:9F:27:16:9B:DA:D1:18:00:19:5F:8A:69:E2:D9:F6:AC:F0:64:51\r\na=setup:actpass\r\na=mid:1\r\na=extmap:14 urn:ietf:params:rtp-hdrext:ssrc-audio-level\r\na=extmap:2 http://www.webrtc.org/experiments/rtp-hdrext/abs-send-time\r\na=extmap:4 http://www.ietf.org/id/draft-holmer-rmcat-transport-wide-cc-extensions-01\r\na=extmap:9 urn:ietf:params:rtp-hdrext:sdes:mid\r\na=sendrecv\r\na=msid:- c8351fd3-2f5d-4d46-899d-9af77de86d9b\r\na=rtcp-mux\r\na=rtpmap:111 opus/48000/2\r\na=rtcp-fb:111 transport-cc\r\na=fmtp:111 minptime=10;useinbandfec=1\r\na=rtpmap:63 red/48000/2\r\na=fmtp:63 111/111\r\na=rtpmap:103 ISAC/16000\r\na=rtpmap:104 ISAC/32000\r\na=rtpmap:9 G722/8000\r\na=rtpmap:0 PCMU/8000\r\na=rtpmap:8 PCMA/8000\r\na=rtpmap:106 CN/32000\r\na=rtpmap:105 CN/16000\r\na=rtpmap:13 CN/8000\r\na=rtpmap:110 telephone-event/48000\r\na=rtpmap:112 telephone-event/32000\r\na=rtpmap:113 telephone-event/16000\r\na=rtpmap:126 telephone-event/8000\r\na=ssrc:3846141828 cname:QGl7AJpaZdNMdnjK\r\na=ssrc:3846141828 msid:- c8351fd3-2f5d-4d46-899d-9af77de86d9b\r\n";

    let sdp = SDP::from_str(text);

    assert!(sdp.is_ok());
}

#[test]
fn sdp_symmetry() {
    let text = "v=0\r\no=- 9023059822302806521 801820409 IN IP4 0.0.0.0\r\ns=-\r\nt=0 0\r\na=fingerprint:sha-256 18:FB:AD:1F:CC:77:25:4F:6C:CD:3F:88:58:94:26:D5:B3:9B:72:CB:5A:9A:0E:A0:5D:C4:C8:E3:1D:5A:5A:6D\r\na=group:BUNDLE\r\nm=video 0 UDP/TLS/RTP/SAVPF 0\r\nm=audio 0 UDP/TLS/RTP/SAVPF 0\r\n";

    let sdp = SDP::from_str(text);

    assert!(sdp.is_ok());

    assert_eq!(text, sdp.unwrap().to_string(LineEnding::CRLF));
}
