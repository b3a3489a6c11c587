use std::collections::VecDeque;

use iiod_rs::device::{devices_from_events, parse_xml};
use iiod_rs::xml::{XmlEvent, XmlTag};
use iiod_rs::{Context, Error, Transport};

#[test]
fn test_parse_xml_basic() {
    let xml = r#"<?xml version="1.0" encoding="utf-8"?>
<!DOCTYPE context [
]>
<context name="network" description="no description">
    <device id="iio:device0" name="ad9361-phy">
        <channel id="voltage0" type="input" name="in_voltage0">
            <attribute name="rf_bandwidth" filename="in_voltage_rf_bandwidth" />
            <attribute name="sampling_frequency" filename="in_voltage_sampling_frequency" />
        </channel>
        <channel id="voltage0" type="output" name="out_voltage0">
            <attribute name="rf_bandwidth" filename="out_voltage_rf_bandwidth" />
        </channel>
        <attribute name="ensm_mode" filename="ensm_mode" />
    </device>
    <device id="iio:device1" name="cf-ad9361-lpc">
        <channel id="voltage0" type="input">
            <attribute name="raw" filename="in_voltage0_raw" />
        </channel>
    </device>
</context>"#;

    let devices = parse_xml(xml).unwrap();
    assert_eq!(devices.len(), 2);

    let phy = &devices[0];
    assert_eq!(phy.id, "iio:device0");
    assert_eq!(phy.name.as_deref(), Some("ad9361-phy"));
    assert_eq!(phy.channels.len(), 2);
    assert_eq!(phy.attrs.len(), 1);
    assert_eq!(phy.attrs[0].name, "ensm_mode");

    let ch0 = &phy.channels[0];
    assert_eq!(ch0.id, "voltage0");
    assert!(!ch0.is_output);
    assert_eq!(ch0.attrs.len(), 2);

    let ch1 = &phy.channels[1];
    assert!(ch1.is_output);

    let lpc = &devices[1];
    assert_eq!(lpc.name.as_deref(), Some("cf-ad9361-lpc"));
    assert_eq!(lpc.channels.len(), 1);
}

#[test]
fn parse_xml_reports_syntax_errors() {
    match parse_xml("<context><device id=\"a\"></context>") {
        Err(Error::Xml(m)) => assert!(m.starts_with("XML parse error: "), "got: {m}"),
        other => panic!("unexpected: {other:?}"),
    }
}

#[test]
fn self_closing_device_is_listed() {
    let devices = parse_xml("<context><device id=\"a\"/><device id=\"b\"></device></context>").unwrap();
    assert_eq!(devices.len(), 2);
    assert_eq!(devices[0].id, "a");
    assert!(devices[0].channels.is_empty());
    assert_eq!(devices[1].id, "b");
    assert_eq!(devices[1].name, None);
}

#[test]
fn self_closing_device_alone() {
    let devices = parse_xml(r#"<device id="d0"/>"#).unwrap();
    assert_eq!(devices.len(), 1);
    assert_eq!(devices[0].id, "d0");
    assert!(devices[0].channels.is_empty());
    assert!(devices[0].attrs.is_empty());
}

#[test]
fn self_closing_channel_is_closed() {
    let devices = parse_xml(
        r#"<device id="d"><channel id="c"/><attribute name="a" filename="f"/></device>"#,
    )
    .unwrap();
    assert_eq!(devices.len(), 1);
    assert_eq!(devices[0].channels.len(), 1);
    assert_eq!(devices[0].channels[0].id, "c");
    assert!(devices[0].channels[0].attrs.is_empty());
    assert_eq!(devices[0].attrs.len(), 1);
    assert_eq!(devices[0].attrs[0].name, "a");
}

#[test]
fn mismatched_close_is_an_xml_error() {
    match parse_xml(r#"<device id="d0"></channel>"#) {
        Err(Error::Xml(m)) => assert!(m.starts_with("XML parse error: "), "got: {m}"),
        other => panic!("unexpected: {other:?}"),
    }
}

#[test]
fn attribute_values_are_raw_and_prefixes_ignored() {
    let xml = "<ctx xmlns:x=\"u\"><x:device id=\"a&amp;b\" name=\"n\"><x:attribute name=\"p\" filename=\"f\"/></x:device></ctx>";
    let devices = parse_xml(xml).unwrap();
    assert_eq!(devices.len(), 1);
    assert_eq!(devices[0].id, "a&amp;b");
    assert_eq!(devices[0].attrs[0].filename, "f");
}

fn tag(name: &str, attrs: &[(&str, &str)]) -> XmlTag {
    XmlTag {
        name: name.as_bytes().to_vec(),
        attrs: attrs
            .iter()
            .map(|(k, v)| Some((k.as_bytes().to_vec(), v.as_bytes().to_vec())))
            .collect(),
    }
}

fn open(name: &str, attrs: &[(&str, &str)]) -> XmlEvent {
    XmlEvent::Start(tag(name, attrs))
}

fn close(name: &str) -> XmlEvent {
    XmlEvent::End(name.as_bytes().to_vec())
}

#[test]
fn events_after_end_are_ignored() {
    let events = vec![
        open("device", &[("id", "d0")]),
        close("device"),
        XmlEvent::Eof,
        open("device", &[("id", "d1")]),
        close("device"),
    ];
    let devices = devices_from_events(&events).unwrap();
    assert_eq!(devices.len(), 1);
    assert_eq!(devices[0].id, "d0");
}

#[test]
fn error_event_is_reported() {
    let events = vec![
        open("device", &[("id", "d0")]),
        close("device"),
        XmlEvent::Fail("boom".to_string()),
        XmlEvent::Eof,
    ];
    match devices_from_events(&events) {
        Err(Error::Xml(m)) => assert_eq!(m, "XML parse error: boom"),
        other => panic!("unexpected: {other:?}"),
    }
}

#[test]
fn attribute_placement_and_overrides() {
    let events = vec![
        open("attribute", &[("name", "stray")]),
        XmlEvent::Other,
        open("device", &[("id", "d0"), ("name", "first"), ("name", "second")]),
        open("attribute", &[("name", "dev_attr"), ("filename", "x"), ("filename", "y")]),
        open("channel", &[("id", "c0"), ("type", "output")]),
        open("attribute", &[("name", "ch_attr")]),
        close("channel"),
        XmlEvent::Empty(tag("channel", &[("id", "c1"), ("type", "Output")])),
        close("device"),
        close("channel"),
    ];
    let devices = devices_from_events(&events).unwrap();
    assert_eq!(devices.len(), 1);
    let d = &devices[0];
    assert_eq!(d.name.as_deref(), Some("second"));
    assert_eq!(d.attrs.len(), 1);
    assert_eq!(d.attrs[0].name, "dev_attr");
    assert_eq!(d.attrs[0].filename, "y");
    assert_eq!(d.channels.len(), 2);
    assert!(d.channels[0].is_output);
    assert_eq!(d.channels[0].attrs[0].name, "ch_attr");
    assert!(!d.channels[1].is_output);
}

#[test]
fn malformed_and_invalid_attribute_values() {
    let events = vec![XmlEvent::Empty(XmlTag {
        name: b"device".to_vec(),
        attrs: vec![
            Some((b"id".to_vec(), b"ok".to_vec())),
            None,
            Some((b"name".to_vec(), vec![0x66, 0xff])),
        ],
    })];
    let devices = devices_from_events(&events).unwrap();
    assert_eq!(devices[0].id, "ok");
    assert_eq!(devices[0].name.as_deref(), Some("f\u{fffd}"));
}

#[test]
fn no_events_no_devices() {
    assert_eq!(devices_from_events(&[]).unwrap().len(), 0);
}

struct MockTransport {
    lines: VecDeque<String>,
    data: Vec<u8>,
    sent: Vec<Vec<u8>>,
}

impl Transport for MockTransport {
    fn send(&mut self, cmd: &[u8]) -> Result<(), Error> {
        self.sent.push(cmd.to_vec());
        Ok(())
    }

    fn recv_line(&mut self) -> Result<String, Error> {
        self.lines.pop_front().ok_or_else(|| Error::Protocol("no more lines".into()))
    }

    fn recv_exact(&mut self, buf: &mut [u8]) -> Result<(), Error> {
        let n = buf.len();
        if self.data.len() < n {
            return Err(Error::Protocol("not enough data".into()));
        }
        buf.copy_from_slice(&self.data[..n]);
        self.data.drain(..n);
        Ok(())
    }
}

fn mock_context() -> Context<MockTransport> {
    let xml = "<context><device id=\"iio:device0\" name=\"ad9361-phy\"></device><device id=\"iio:device1\"></device></context>";
    let t = MockTransport {
        lines: vec!["0.24.gc4498aa".to_string(), format!("{}", xml.len())].into(),
        data: xml.as_bytes().to_vec(),
        sent: Vec::new(),
    };
    Context::from_transport(t).unwrap()
}

#[test]
fn context_from_transport() {
    let ctx = mock_context();
    assert_eq!(ctx.version.major, 0);
    assert_eq!(ctx.version.minor, 24);
    assert_eq!(ctx.version.git_tag, "gc4498aa");
    assert_eq!(ctx.devices.len(), 2);
    assert!(ctx.xml.starts_with("<context>"));
}

#[test]
fn find_device_by_name_or_id() {
    let ctx = mock_context();
    assert_eq!(ctx.find_device("ad9361-phy").unwrap().id, "iio:device0");
    assert_eq!(ctx.find_device("iio:device1").unwrap().id, "iio:device1");
    assert!(ctx.find_device("missing").is_none());
}

#[test]
fn transport_mut_reaches_transport() {
    let mut ctx = mock_context();
    let t = ctx.transport_mut();
    assert_eq!(t.sent, vec![b"VERSION\n".to_vec(), b"PRINT\n".to_vec()]);
    t.send(b"CLOSE\n").unwrap();
    assert_eq!(ctx.transport_mut().sent.len(), 3);
}

#[test]
fn context_rejects_unparsable_xml() {
    let t = MockTransport {
        lines: vec!["0.24.g".to_string(), "7".to_string()].into(),
        data: b"<a></b>".to_vec(),
        sent: Vec::new(),
    };
    match Context::from_transport(Box::new(t) as Box<dyn Transport>) {
        Err(Error::Xml(m)) => assert!(m.starts_with("XML parse error: "), "got: {m}"),
        Err(other) => panic!("unexpected: {other:?}"),
        Ok(_) => panic!("unexpected success"),
    }
}

#[test]
fn context_example_devices() {
    let xml = r#"<device id="d0"></device>"#;
    let t = MockTransport {
        lines: vec!["0.24.gc4498aa".to_string(), "25".to_string()].into(),
        data: xml.as_bytes().to_vec(),
        sent: Vec::new(),
    };
    let ctx = Context::from_transport(Box::new(t) as Box<dyn Transport>).unwrap();
    assert_eq!((ctx.version.major, ctx.version.minor), (0, 24));
    assert_eq!(ctx.version.git_tag, "gc4498aa");
    assert_eq!(ctx.xml, xml);
    assert_eq!(ctx.devices.len(), 1);
    assert_eq!(ctx.devices[0].id, "d0");
    assert!(ctx.devices[0].name.is_none());
    assert!(ctx.devices[0].channels.is_empty());
}

#[test]
fn context_version_error_stops_before_print() {
    let t = MockTransport {
        lines: vec!["garbage".to_string(), "0".to_string()].into(),
        data: Vec::new(),
        sent: Vec::new(),
    };
    match Context::from_transport(t) {
        Err(Error::Protocol(m)) => assert_eq!(m, "unexpected VERSION response: garbage"),
        Err(other) => panic!("unexpected: {other:?}"),
        Ok(_) => panic!("unexpected success"),
    }
}

#[test]
fn context_fails_on_device_error() {
    let t = MockTransport {
        lines: vec!["0.24.g".to_string(), "-13".to_string()].into(),
        data: Vec::new(),
        sent: Vec::new(),
    };
    match Context::from_transport(t) {
        Err(Error::IiodError { code, msg }) => {
            assert_eq!(code, -13);
            assert_eq!(msg, "permission denied");
        }
        Err(other) => panic!("unexpected: {other:?}"),
        Ok(_) => panic!("unexpected success"),
    }
}

#[test]
fn context_over_boxed_dyn_transport() {
    let xml = "<context><device id=\"d\"></device></context>";
    let t = MockTransport {
        lines: vec!["1.0.x".to_string(), format!("{}", xml.len())].into(),
        data: xml.as_bytes().to_vec(),
        sent: Vec::new(),
    };
    let boxed: Box<dyn Transport> = Box::new(t);
    let mut ctx = Context::from_transport(boxed).unwrap();
    assert_eq!(ctx.version.major, 1);
    assert_eq!(ctx.devices[0].id, "d");
    let t: &mut dyn Transport = ctx.transport_mut().as_mut();
    assert!(t.recv_line().is_err());
}

#[test]
fn attribute_values_decode_utf8() {
    let devices = parse_xml("<c><device id=\"capteur-é\" name=\"ü\"></device></c>").unwrap();
    assert_eq!(devices[0].id, "capteur-é");
    assert_eq!(devices[0].name.as_deref(), Some("ü"));
}
