//! The device tree of a remote IIO context, and the connection that holds it.
use vstd::prelude::*;
use vstd::utf8::*;

use crate::error::{Error, ErrorView};
use crate::protocol::{
    extends, new_calls, print, print_exchange, print_length_spec, version, version_exchange,
    version_reply_spec,
};
use crate::text::{ascii_bytes, bytes_eq_ascii, concat_str, str_eq};
use crate::transport::{Logged, Transport, TransportCall};
use crate::xml::{
    events_view, is_final_event, raw_attr_view, read_xml_events, string_from_utf8_lossy, utf8_lossy, xml_events,
    XmlEvent, XmlEventView, XmlTag, XmlTagView,
};

verus! {

/// An attribute on a device or channel.
#[derive(Debug, Clone)]
pub struct Attr {
    pub name: String,
    pub filename: String,
}

/// A single IIO channel (e.g. `voltage0`).
#[derive(Debug, Clone)]
pub struct Channel {
    pub id: String,
    pub name: Option<String>,
    pub is_output: bool,
    pub attrs: Vec<Attr>,
}

/// A single IIO device (e.g. `ad9361-phy`, `cf-ad9361-lpc`).
#[derive(Debug, Clone)]
pub struct Device {
    pub id: String,
    pub name: Option<String>,
    pub channels: Vec<Channel>,
    pub attrs: Vec<Attr>,
}

/// Protocol version reported by the remote `iiod`.
#[derive(Debug, Clone)]
pub struct Version {
    pub major: u32,
    pub minor: u32,
    pub git_tag: String,
}

/// [`Attr`] as plain values.
pub struct AttrView {
    pub name: Seq<char>,
    pub filename: Seq<char>,
}

/// [`Channel`] as plain values.
#[verifier::ext_equal]
pub struct ChannelView {
    pub id: Seq<char>,
    pub name: Option<Seq<char>>,
    pub is_output: bool,
    pub attrs: Seq<AttrView>,
}

/// [`Device`] as plain values.
#[verifier::ext_equal]
pub struct DeviceView {
    pub id: Seq<char>,
    pub name: Option<Seq<char>>,
    pub channels: Seq<ChannelView>,
    pub attrs: Seq<AttrView>,
}

pub open spec fn opt_string_view(o: Option<String>) -> Option<Seq<char>> {
    match o {
        Some(s) => Some(s@),
        None => None,
    }
}

impl View for Attr {
    type V = AttrView;

    open spec fn view(&self) -> AttrView {
        AttrView { name: self.name@, filename: self.filename@ }
    }
}

pub open spec fn attr_list_view(attrs: Seq<Attr>) -> Seq<AttrView> {
    attrs.map_values(|a: Attr| a@)
}

impl View for Channel {
    type V = ChannelView;

    open spec fn view(&self) -> ChannelView {
        ChannelView {
            id: self.id@,
            name: opt_string_view(self.name),
            is_output: self.is_output,
            attrs: attr_list_view(self.attrs@),
        }
    }
}

pub open spec fn channel_list_view(chs: Seq<Channel>) -> Seq<ChannelView> {
    chs.map_values(|c: Channel| c@)
}

impl View for Device {
    type V = DeviceView;

    open spec fn view(&self) -> DeviceView {
        DeviceView {
            id: self.id@,
            name: opt_string_view(self.name),
            channels: channel_list_view(self.channels@),
            attrs: attr_list_view(self.attrs@),
        }
    }
}

pub open spec fn device_list_view(devs: Seq<Device>) -> Seq<DeviceView> {
    devs.map_values(|d: Device| d@)
}

/// The attributes of a tag as the reader gives them: raw key and value
/// bytes, `None` for a malformed one.
pub type RawAttrs = Seq<Option<(Seq<u8>, Seq<u8>)>>;

/// The `<attribute>` that a tag's attributes describe: `name` and
/// `filename`, the last occurrence of each winning, malformed ones skipped,
/// values decoded from UTF-8 with invalid sequences replaced.
pub open spec fn attr_model(attrs: RawAttrs) -> AttrView
    decreases attrs.len(),
{
    if attrs.len() == 0 {
        AttrView { name: Seq::empty(), filename: Seq::empty() }
    } else {
        let a = attr_model(attrs.drop_last());
        match attrs.last() {
            Some((k, v)) => if k == ascii_bytes("name"@) {
                AttrView { name: utf8_lossy(v), filename: a.filename }
            } else if k == ascii_bytes("filename"@) {
                AttrView { name: a.name, filename: utf8_lossy(v) }
            } else {
                a
            },
            None => a,
        }
    }
}

/// The `<channel>` that a tag's attributes describe: `id`, `name`, and
/// `type` (output exactly when it is `output`); no attributes yet.
pub open spec fn channel_model(attrs: RawAttrs) -> ChannelView
    decreases attrs.len(),
{
    if attrs.len() == 0 {
        ChannelView { id: Seq::empty(), name: None, is_output: false, attrs: Seq::empty() }
    } else {
        let c = channel_model(attrs.drop_last());
        match attrs.last() {
            Some((k, v)) => if k == ascii_bytes("id"@) {
                ChannelView { id: utf8_lossy(v), name: c.name, is_output: c.is_output, attrs: c.attrs }
            } else if k == ascii_bytes("name"@) {
                ChannelView {
                    id: c.id,
                    name: Some(utf8_lossy(v)),
                    is_output: c.is_output,
                    attrs: c.attrs,
                }
            } else if k == ascii_bytes("type"@) {
                ChannelView {
                    id: c.id,
                    name: c.name,
                    is_output: utf8_lossy(v) == "output"@,
                    attrs: c.attrs,
                }
            } else {
                c
            },
            None => c,
        }
    }
}

/// The `<device>` that a tag's attributes describe: `id` and `name`; no
/// channels or attributes yet.
pub open spec fn device_model(attrs: RawAttrs) -> DeviceView
    decreases attrs.len(),
{
    if attrs.len() == 0 {
        DeviceView { id: Seq::empty(), name: None, channels: Seq::empty(), attrs: Seq::empty() }
    } else {
        let d = device_model(attrs.drop_last());
        match attrs.last() {
            Some((k, v)) => if k == ascii_bytes("id"@) {
                DeviceView { id: utf8_lossy(v), name: d.name, channels: d.channels, attrs: d.attrs }
            } else if k == ascii_bytes("name"@) {
                DeviceView {
                    id: d.id,
                    name: Some(utf8_lossy(v)),
                    channels: d.channels,
                    attrs: d.attrs,
                }
            } else {
                d
            },
            None => d,
        }
    }
}

/// Whether a raw attribute is a well-formed one with the key `key`.
pub open spec fn has_key(a: Option<(Seq<u8>, Seq<u8>)>, key: Seq<u8>) -> bool {
    a matches Some(p) && p.0 == key
}

/// Entry `i` of `attrs` is the key `key` with the value `v`, and no later
/// entry has that key.
pub open spec fn is_last_entry(attrs: RawAttrs, key: Seq<u8>, i: int, v: Seq<u8>) -> bool {
    &&& 0 <= i < attrs.len()
    &&& attrs[i] == Some((key, v))
    &&& forall|j: int| i < j < attrs.len() ==> !has_key(#[trigger] attrs[j], key)
}

/// No entry of `attrs` has the key `key`.
pub open spec fn lacks_key(attrs: RawAttrs, key: Seq<u8>) -> bool {
    forall|j: int| 0 <= j < attrs.len() ==> !has_key(#[trigger] attrs[j], key)
}

proof fn lemma_attr_keys_differ()
    ensures
        ascii_bytes("id"@) != ascii_bytes("name"@),
        ascii_bytes("id"@) != ascii_bytes("type"@),
        ascii_bytes("name"@) != ascii_bytes("type"@),
        ascii_bytes("name"@) != ascii_bytes("filename"@),
{
    reveal_strlit("id");
    reveal_strlit("name");
    reveal_strlit("type");
    reveal_strlit("filename");
    assert(ascii_bytes("id"@).len() == 2);
    assert(ascii_bytes("name"@).len() == 4);
    assert(ascii_bytes("filename"@).len() == 8);
    assert(ascii_bytes("name"@)[0] != ascii_bytes("type"@)[0]);
}

/// A `<channel>` tag's id, name and type come from the last well-formed
/// attribute with that key, wherever it stands among the others: the id and
/// the name are its value, and the channel is an output exactly when the
/// type's value is `output`.
pub proof fn lemma_channel_last_wins(attrs: RawAttrs, i: int, v: Seq<u8>)
    ensures
        is_last_entry(attrs, ascii_bytes("id"@), i, v) ==> channel_model(attrs).id == utf8_lossy(v),
        is_last_entry(attrs, ascii_bytes("name"@), i, v) ==> channel_model(attrs).name == Some(
            utf8_lossy(v),
        ),
        is_last_entry(attrs, ascii_bytes("type"@), i, v) ==> channel_model(attrs).is_output == (
        utf8_lossy(v) == "output"@),
    decreases attrs.len(),
{
    lemma_attr_keys_differ();
    if 0 <= i < attrs.len() - 1 {
        let init = attrs.drop_last();
        assert(forall|j: int| 0 <= j < init.len() ==> init[j] == attrs[j]);
        assert(attrs.last() == attrs[attrs.len() - 1]);
        lemma_channel_last_wins(init, i, v);
    }
}

/// A `<channel>` tag without an id has the empty id, without a name no
/// name, and without a type it is an input.
pub proof fn lemma_channel_defaults(attrs: RawAttrs)
    ensures
        lacks_key(attrs, ascii_bytes("id"@)) ==> channel_model(attrs).id == Seq::<char>::empty(),
        lacks_key(attrs, ascii_bytes("name"@)) ==> channel_model(attrs).name is None,
        lacks_key(attrs, ascii_bytes("type"@)) ==> !channel_model(attrs).is_output,
    decreases attrs.len(),
{
    if attrs.len() > 0 {
        let init = attrs.drop_last();
        assert(forall|j: int| 0 <= j < init.len() ==> init[j] == attrs[j]);
        assert(attrs.last() == attrs[attrs.len() - 1]);
        lemma_channel_defaults(init);
    }
}

/// A `<device>` tag's id and name are the values of the last well-formed
/// attributes with those keys, wherever they stand among the others.
pub proof fn lemma_device_last_wins(attrs: RawAttrs, i: int, v: Seq<u8>)
    ensures
        is_last_entry(attrs, ascii_bytes("id"@), i, v) ==> device_model(attrs).id == utf8_lossy(v),
        is_last_entry(attrs, ascii_bytes("name"@), i, v) ==> device_model(attrs).name == Some(
            utf8_lossy(v),
        ),
    decreases attrs.len(),
{
    lemma_attr_keys_differ();
    if 0 <= i < attrs.len() - 1 {
        let init = attrs.drop_last();
        assert(forall|j: int| 0 <= j < init.len() ==> init[j] == attrs[j]);
        assert(attrs.last() == attrs[attrs.len() - 1]);
        lemma_device_last_wins(init, i, v);
    }
}

/// A `<device>` tag without an id has the empty id, and without a name no
/// name.
pub proof fn lemma_device_defaults(attrs: RawAttrs)
    ensures
        lacks_key(attrs, ascii_bytes("id"@)) ==> device_model(attrs).id == Seq::<char>::empty(),
        lacks_key(attrs, ascii_bytes("name"@)) ==> device_model(attrs).name is None,
    decreases attrs.len(),
{
    if attrs.len() > 0 {
        let init = attrs.drop_last();
        assert(forall|j: int| 0 <= j < init.len() ==> init[j] == attrs[j]);
        assert(attrs.last() == attrs[attrs.len() - 1]);
        lemma_device_defaults(init);
    }
}

/// An `<attribute>` tag's name and filename are the values of the last
/// well-formed attributes with those keys, wherever they stand among the
/// others.
pub proof fn lemma_attr_last_wins(attrs: RawAttrs, i: int, v: Seq<u8>)
    ensures
        is_last_entry(attrs, ascii_bytes("name"@), i, v) ==> attr_model(attrs).name == utf8_lossy(v),
        is_last_entry(attrs, ascii_bytes("filename"@), i, v) ==> attr_model(attrs).filename
            == utf8_lossy(v),
    decreases attrs.len(),
{
    lemma_attr_keys_differ();
    if 0 <= i < attrs.len() - 1 {
        let init = attrs.drop_last();
        assert(forall|j: int| 0 <= j < init.len() ==> init[j] == attrs[j]);
        assert(attrs.last() == attrs[attrs.len() - 1]);
        lemma_attr_last_wins(init, i, v);
    }
}

/// An `<attribute>` tag without a name has the empty name, and without a
/// filename the empty filename.
pub proof fn lemma_attr_defaults(attrs: RawAttrs)
    ensures
        lacks_key(attrs, ascii_bytes("name"@)) ==> attr_model(attrs).name == Seq::<char>::empty(),
        lacks_key(attrs, ascii_bytes("filename"@)) ==> attr_model(attrs).filename
            == Seq::<char>::empty(),
    decreases attrs.len(),
{
    if attrs.len() > 0 {
        let init = attrs.drop_last();
        assert(forall|j: int| 0 <= j < init.len() ==> init[j] == attrs[j]);
        assert(attrs.last() == attrs[attrs.len() - 1]);
        lemma_attr_defaults(init);
    }
}

/// Where the reading of the device tree stands: the devices closed so far,
/// the device and the channel that are open.
#[verifier::ext_equal]
pub struct TreeState {
    pub devices: Seq<DeviceView>,
    pub device: Option<DeviceView>,
    pub channel: Option<ChannelView>,
}

pub open spec fn initial_tree_state() -> TreeState {
    TreeState { devices: Seq::empty(), device: None, channel: None }
}

/// What an opening tag does to the tree.
///
/// `<device>` and `<channel>` open a new element (a channel is not closed by
/// a new device); `<attribute>` goes to the open channel, else to the open
/// device, else nowhere.
pub open spec fn open_step(st: TreeState, tag: XmlTagView) -> TreeState {
    if tag.name == ascii_bytes("device"@) {
        TreeState { devices: st.devices, device: Some(device_model(tag.attrs)), channel: st.channel }
    } else if tag.name == ascii_bytes("channel"@) {
        TreeState { devices: st.devices, device: st.device, channel: Some(channel_model(tag.attrs)) }
    } else if tag.name == ascii_bytes("attribute"@) {
        let a = attr_model(tag.attrs);
        match st.channel {
            Some(c) => TreeState {
                devices: st.devices,
                device: st.device,
                channel: Some(
                    ChannelView { id: c.id, name: c.name, is_output: c.is_output, attrs: c.attrs.push(a) },
                ),
            },
            None => match st.device {
                Some(d) => TreeState {
                    devices: st.devices,
                    device: Some(
                        DeviceView {
                            id: d.id,
                            name: d.name,
                            channels: d.channels,
                            attrs: d.attrs.push(a),
                        },
                    ),
                    channel: None,
                },
                None => st,
            },
        }
    } else {
        st
    }
}

/// What a closing tag does to the tree: `</device>` adds the open device to
/// the list; `</channel>` closes the open channel and adds it to the open
/// device.
pub open spec fn close_step(st: TreeState, name: Seq<u8>) -> TreeState {
    if name == ascii_bytes("device"@) {
        match st.device {
            Some(d) => TreeState { devices: st.devices.push(d), device: None, channel: st.channel },
            None => st,
        }
    } else if name == ascii_bytes("channel"@) {
        match st.channel {
            Some(c) => TreeState {
                devices: st.devices,
                device: match st.device {
                    Some(d) => Some(
                        DeviceView {
                            id: d.id,
                            name: d.name,
                            channels: d.channels.push(c),
                            attrs: d.attrs,
                        },
                    ),
                    None => None,
                },
                channel: None,
            },
            None => st,
        }
    } else {
        st
    }
}

/// What one event does to the tree; a self-closing tag `<x/>` is `<x></x>`.
pub open spec fn tree_step(st: TreeState, ev: XmlEventView) -> TreeState {
    match ev {
        XmlEventView::Start(tag) => open_step(st, tag),
        XmlEventView::Empty(tag) => close_step(open_step(st, tag), tag.name),
        XmlEventView::End(name) => close_step(st, name),
        _ => st,
    }
}

/// Runs the events from state `st`: the closed devices when the document
/// (or the list) ends, the parse error if one comes first.
pub open spec fn run_tree(st: TreeState, evs: Seq<XmlEventView>) -> Result<
    Seq<DeviceView>,
    ErrorView,
>
    decreases evs.len(),
{
    if evs.len() == 0 {
        Ok(st.devices)
    } else {
        match evs[0] {
            XmlEventView::Eof => Ok(st.devices),
            XmlEventView::Fail(m) => Err(ErrorView::Xml("XML parse error: "@ + m)),
            _ => run_tree(tree_step(st, evs[0]), evs.drop_first()),
        }
    }
}

/// The devices that a stream of XML events describes.
pub open spec fn devices_of_events(evs: Seq<XmlEventView>) -> Result<Seq<DeviceView>, ErrorView> {
    run_tree(initial_tree_state(), evs)
}

/// The devices that the XML text `xml` describes.
pub open spec fn devices_of_xml(xml: Seq<char>) -> Result<Seq<DeviceView>, ErrorView> {
    devices_of_events(xml_events(xml))
}

pub open spec fn devices_result_view(r: Result<Vec<Device>, Error>) -> Result<
    Seq<DeviceView>,
    ErrorView,
> {
    match r {
        Ok(v) => Ok(device_list_view(v@)),
        Err(e) => Err(e@),
    }
}

pub open spec fn tree_state_view(
    devices: Seq<Device>,
    device: Option<Device>,
    channel: Option<Channel>,
) -> TreeState {
    TreeState {
        devices: device_list_view(devices),
        device: match device {
            Some(d) => Some(d@),
            None => None,
        },
        channel: match channel {
            Some(c) => Some(c@),
            None => None,
        },
    }
}

proof fn lemma_map_push<A, B>(s: Seq<A>, x: A, f: spec_fn(A) -> B)
    ensures
        s.push(x).map_values(f) == s.map_values(f).push(f(x)),
{
    assert(s.push(x).map_values(f) =~= s.map_values(f).push(f(x)));
}

fn attr_from(tag: &XmlTag) -> (r: Attr)
    ensures
        r@ == attr_model(tag@.attrs),
{
    let ghost all = tag@.attrs;
    let attrs = &tag.attrs;
    let mut r = Attr { name: String::new(), filename: String::new() };
    let mut i: usize = 0;
    assert(all.take(0) =~= Seq::<Option<(Seq<u8>, Seq<u8>)>>::empty());
    while i < attrs.len()
        invariant
            all == tag@.attrs,
            attrs == &tag.attrs,
            i <= attrs@.len(),
            r@ == attr_model(all.take(i as int)),
        decreases attrs@.len() - i,
    {
        assert(all.take(i + 1).drop_last() =~= all.take(i as int));
        assert(all.take(i + 1).last() == raw_attr_view(attrs@[i as int]));
        if let Some((k, v)) = &attrs[i] {
            if bytes_eq_ascii(k.as_slice(), "name") {
                r.name = string_from_utf8_lossy(v.as_slice());
            } else if bytes_eq_ascii(k.as_slice(), "filename") {
                r.filename = string_from_utf8_lossy(v.as_slice());
            }
        }
        i = i + 1;
    }
    assert(all.take(attrs@.len() as int) =~= all);
    r
}

fn channel_from(tag: &XmlTag) -> (r: Channel)
    ensures
        r@ == channel_model(tag@.attrs),
{
    let ghost all = tag@.attrs;
    let attrs = &tag.attrs;
    let mut r = Channel { id: String::new(), name: None, is_output: false, attrs: Vec::new() };
    let mut i: usize = 0;
    assert(all.take(0) =~= Seq::<Option<(Seq<u8>, Seq<u8>)>>::empty());
    assert(attr_list_view(r.attrs@) =~= Seq::<AttrView>::empty());
    while i < attrs.len()
        invariant
            all == tag@.attrs,
            attrs == &tag.attrs,
            i <= attrs@.len(),
            r@ == channel_model(all.take(i as int)),
        decreases attrs@.len() - i,
    {
        assert(all.take(i + 1).drop_last() =~= all.take(i as int));
        assert(all.take(i + 1).last() == raw_attr_view(attrs@[i as int]));
        if let Some((k, v)) = &attrs[i] {
            if bytes_eq_ascii(k.as_slice(), "id") {
                r.id = string_from_utf8_lossy(v.as_slice());
            } else if bytes_eq_ascii(k.as_slice(), "name") {
                r.name = Some(string_from_utf8_lossy(v.as_slice()));
            } else if bytes_eq_ascii(k.as_slice(), "type") {
                let t = string_from_utf8_lossy(v.as_slice());
                r.is_output = str_eq(t.as_str(), "output");
            }
        }
        i = i + 1;
    }
    assert(all.take(attrs@.len() as int) =~= all);
    r
}

fn device_from(tag: &XmlTag) -> (r: Device)
    ensures
        r@ == device_model(tag@.attrs),
{
    let ghost all = tag@.attrs;
    let attrs = &tag.attrs;
    let mut r = Device { id: String::new(), name: None, channels: Vec::new(), attrs: Vec::new() };
    let mut i: usize = 0;
    assert(all.take(0) =~= Seq::<Option<(Seq<u8>, Seq<u8>)>>::empty());
    assert(attr_list_view(r.attrs@) =~= Seq::<AttrView>::empty());
    assert(channel_list_view(r.channels@) =~= Seq::<ChannelView>::empty());
    while i < attrs.len()
        invariant
            all == tag@.attrs,
            attrs == &tag.attrs,
            i <= attrs@.len(),
            r@ == device_model(all.take(i as int)),
        decreases attrs@.len() - i,
    {
        assert(all.take(i + 1).drop_last() =~= all.take(i as int));
        assert(all.take(i + 1).last() == raw_attr_view(attrs@[i as int]));
        if let Some((k, v)) = &attrs[i] {
            if bytes_eq_ascii(k.as_slice(), "id") {
                r.id = string_from_utf8_lossy(v.as_slice());
            } else if bytes_eq_ascii(k.as_slice(), "name") {
                r.name = Some(string_from_utf8_lossy(v.as_slice()));
            }
        }
        i = i + 1;
    }
    assert(all.take(attrs@.len() as int) =~= all);
    r
}

/// The tree state after an opening tag.
fn apply_open(
    devices: &mut Vec<Device>,
    device: &mut Option<Device>,
    channel: &mut Option<Channel>,
    tag: &XmlTag,
)
    ensures
        tree_state_view(final(devices)@, *final(device), *final(channel)) == open_step(
            tree_state_view(old(devices)@, *old(device), *old(channel)),
            tag@,
        ),
{
    if bytes_eq_ascii(tag.name.as_slice(), "device") {
        *device = Some(device_from(tag));
    } else if bytes_eq_ascii(tag.name.as_slice(), "channel") {
        *channel = Some(channel_from(tag));
    } else if bytes_eq_ascii(tag.name.as_slice(), "attribute") {
        let a = attr_from(tag);
        match channel.take() {
            Some(mut c) => {
                proof {
                    lemma_map_push(c.attrs@, a, |x: Attr| x@);
                }
                c.attrs.push(a);
                *channel = Some(c);
            },
            None => {
                match device.take() {
                    Some(mut d) => {
                        proof {
                            lemma_map_push(d.attrs@, a, |x: Attr| x@);
                        }
                        d.attrs.push(a);
                        *device = Some(d);
                    },
                    None => {},
                }
            },
        }
    }
}

/// The tree state after a closing tag.
fn apply_close(
    devices: &mut Vec<Device>,
    device: &mut Option<Device>,
    channel: &mut Option<Channel>,
    name: &Vec<u8>,
)
    ensures
        tree_state_view(final(devices)@, *final(device), *final(channel)) == close_step(
            tree_state_view(old(devices)@, *old(device), *old(channel)),
            name@,
        ),
{
    if bytes_eq_ascii(name.as_slice(), "device") {
        match device.take() {
            Some(d) => {
                proof {
                    lemma_map_push(devices@, d, |x: Device| x@);
                }
                devices.push(d);
            },
            None => {},
        }
    } else if bytes_eq_ascii(name.as_slice(), "channel") {
        match channel.take() {
            Some(c) => {
                match device.take() {
                    Some(mut d) => {
                        proof {
                            lemma_map_push(d.channels@, c, |x: Channel| x@);
                        }
                        d.channels.push(c);
                        *device = Some(d);
                    },
                    None => {},
                }
            },
            None => {},
        }
    }
}

/// Builds the device list from XML events: the devices closed before the
/// end of the document, or the first parse error.
pub fn devices_from_events(events: &[XmlEvent]) -> (r: Result<Vec<Device>, Error>)
    ensures
        devices_result_view(r) == devices_of_events(events_view(events@)),
{
    let ghost all = events_view(events@);
    let mut devices: Vec<Device> = Vec::new();
    let mut device: Option<Device> = None;
    let mut channel: Option<Channel> = None;
    let mut i: usize = 0;
    assert(all.skip(0) =~= all);
    assert(device_list_view(devices@) =~= Seq::<DeviceView>::empty());
    while i < events.len()
        invariant
            all == events_view(events@),
            i <= events@.len(),
            devices_of_events(all) == run_tree(
                tree_state_view(devices@, device, channel),
                all.skip(i as int),
            ),
        decreases events@.len() - i,
    {
        let ghost st = tree_state_view(devices@, device, channel);
        let ghost rest = all.skip(i as int);
        assert(rest[0] == events@[i as int]@);
        assert(rest.drop_first() =~= all.skip(i + 1));
        match &events[i] {
            XmlEvent::Eof => {
                return Ok(devices);
            },
            XmlEvent::Fail(m) => {
                return Err(Error::Xml(concat_str("XML parse error: ", m.as_str())));
            },
            XmlEvent::Start(tag) => {
                apply_open(&mut devices, &mut device, &mut channel, tag);
            },
            XmlEvent::Empty(tag) => {
                apply_open(&mut devices, &mut device, &mut channel, tag);
                apply_close(&mut devices, &mut device, &mut channel, &tag.name);
            },
            XmlEvent::End(name) => {
                apply_close(&mut devices, &mut device, &mut channel, name);
            },
            XmlEvent::Other => {},
        }
        assert(tree_state_view(devices@, device, channel) == tree_step(st, rest[0]));
        i = i + 1;
    }
    Ok(devices)
}

/// Parse the XML output of the PRINT command into a list of devices: the
/// devices that the document describes, or its first XML error.
pub fn parse_xml(xml: &str) -> (r: Result<Vec<Device>, Error>)
    ensures
        devices_result_view(r) == devices_of_xml(xml@),
{
    let events = read_xml_events(xml);
    devices_from_events(events.as_slice())
}

/// Whether a device answers to `name`: by its name, or by its id.
pub open spec fn device_matches(d: DeviceView, name: Seq<char>) -> bool {
    d.name == Some(name) || d.id == name
}

/// A device answers to its id and to its name, whether it has a name or
/// not, and to nothing else.
pub proof fn lemma_device_matches(d: DeviceView, key: Seq<char>)
    ensures
        device_matches(d, d.id),
        d.name matches Some(n) ==> device_matches(d, n),
        device_matches(d, key) <==> (d.id == key || d.name == Some(key)),
{
}

/// In any device list, a lookup by the id of one of its devices finds a
/// device: the first that answers to that id, at or before it.
pub proof fn lemma_lookup_by_id(devs: Seq<DeviceView>, i: int)
    requires
        0 <= i < devs.len(),
    ensures
        exists|k: int|
            0 <= k <= i && (devs[k].id == devs[i].id || devs[k].name == Some(devs[i].id)) && forall|j: int|
                0 <= j < k ==> !device_matches(#[trigger] devs[j], devs[i].id),
{
    lemma_first_match(devs, devs[i].id, i);
}

proof fn lemma_first_match(devs: Seq<DeviceView>, key: Seq<char>, i: int)
    requires
        0 <= i < devs.len(),
        device_matches(devs[i], key),
    ensures
        exists|k: int|
            0 <= k <= i && (devs[k].id == key || devs[k].name == Some(key)) && forall|j: int|
                0 <= j < k ==> !device_matches(#[trigger] devs[j], key),
    decreases i,
{
    if exists|j: int| 0 <= j < i && device_matches(#[trigger] devs[j], key) {
        let j = choose|j: int| 0 <= j < i && device_matches(#[trigger] devs[j], key);
        lemma_first_match(devs, key, j);
    } else {
        assert(forall|j: int| 0 <= j < i ==> !device_matches(#[trigger] devs[j], key));
    }
}

/// What a context holds: major, minor, git tag, XML, devices.
pub type ContextResultView = (u32, u32, Seq<char>, Seq<char>, Seq<DeviceView>);

/// Building a context: `calls` are the calls made and `r` the result.
///
/// The VERSION exchange comes first; its error is the result. Then comes
/// the PRINT exchange; its error is the result. Then the XML is parsed; its
/// error is the result, else the context holds the version, the XML and its
/// devices.
pub open spec fn context_exchange(calls: Seq<TransportCall>, r: Result<ContextResultView, ErrorView>) -> bool {
    ||| (r matches Err(e) && version_exchange(calls, Err::<(u32, u32, Seq<char>), ErrorView>(e)))
    ||| exists|v: (u32, u32, Seq<char>)|
        #[trigger] version_exchange(calls.take(2), Ok::<(u32, u32, Seq<char>), ErrorView>(v))
            && calls.len() >= 2 && {
            ||| (r matches Err(e) && print_exchange(calls.skip(2), Err::<Seq<char>, ErrorView>(e)))
            ||| exists|xml: Seq<char>|
                #[trigger] print_exchange(calls.skip(2), Ok::<Seq<char>, ErrorView>(xml))
                    && match devices_of_xml(xml) {
                    Err(e) => r == Err::<ContextResultView, ErrorView>(e),
                    Ok(devs) => r == Ok::<ContextResultView, ErrorView>((v.0, v.1, v.2, xml, devs)),
                }
        }
}

/// The record of a context's calls decides its result: where the recorded
/// VERSION and PRINT exchanges succeed and their XML describes devices, the
/// result is the context that holds them, never an error.
pub proof fn lemma_context_exchange_ok(
    calls: Seq<TransportCall>,
    v: (u32, u32, Seq<char>),
    xml: Seq<char>,
    devs: Seq<DeviceView>,
    r: Result<ContextResultView, ErrorView>,
)
    requires
        calls.len() >= 2,
        version_exchange(calls.take(2), Ok::<(u32, u32, Seq<char>), ErrorView>(v)),
        print_exchange(calls.skip(2), Ok::<Seq<char>, ErrorView>(xml)),
        devices_of_xml(xml) == Ok::<Seq<DeviceView>, ErrorView>(devs),
        context_exchange(calls, r),
    ensures
        r == Ok::<ContextResultView, ErrorView>((v.0, v.1, v.2, xml, devs)),
{
    assert(calls.skip(2).len() >= 1);
    assert(!(r matches Err(e) && version_exchange(calls, Err::<(u32, u32, Seq<char>), ErrorView>(e))));
    let v2 = choose|v2: (u32, u32, Seq<char>)|
        #[trigger] version_exchange(calls.take(2), Ok::<(u32, u32, Seq<char>), ErrorView>(v2))
            && calls.len() >= 2 && {
            ||| (r matches Err(e) && print_exchange(calls.skip(2), Err::<Seq<char>, ErrorView>(e)))
            ||| exists|xml: Seq<char>|
                #[trigger] print_exchange(calls.skip(2), Ok::<Seq<char>, ErrorView>(xml))
                    && match devices_of_xml(xml) {
                    Err(e) => r == Err::<ContextResultView, ErrorView>(e),
                    Ok(devs) => r == Ok::<ContextResultView, ErrorView>((v2.0, v2.1, v2.2, xml, devs)),
                }
        };
    assert(v2 == v);
    assert(!(r matches Err(e) && print_exchange(calls.skip(2), Err::<Seq<char>, ErrorView>(e))));
    let x2 = choose|x2: Seq<char>|
        #[trigger] print_exchange(calls.skip(2), Ok::<Seq<char>, ErrorView>(x2))
            && match devices_of_xml(x2) {
            Err(e) => r == Err::<ContextResultView, ErrorView>(e),
            Ok(devs) => r == Ok::<ContextResultView, ErrorView>((v.0, v.1, v.2, x2, devs)),
        };
    assert(x2 == xml);
}

/// Where the recorded VERSION exchange fails, its error is the result of
/// building the context.
pub proof fn lemma_context_exchange_version_error(
    calls: Seq<TransportCall>,
    e: ErrorView,
    r: Result<ContextResultView, ErrorView>,
)
    requires
        version_exchange(calls, Err::<(u32, u32, Seq<char>), ErrorView>(e)),
        context_exchange(calls, r),
    ensures
        r == Err::<ContextResultView, ErrorView>(e),
{
    if calls.len() >= 2 {
        assert(calls.take(2) =~= calls);
    }
}

/// A connection to a remote `iiod` daemon.
pub struct Context<T: Transport> {
    transport: Logged<T>,
    pub version: Version,
    pub devices: Vec<Device>,
    pub xml: String,
}

impl<T: Transport> Context<T> {
    /// The transport that the context talks through.
    pub closed spec fn transport_spec(&self) -> T {
        self.transport.inner_spec()
    }

    /// The calls that the context made on its transport while it was built.
    pub closed spec fn calls_spec(&self) -> Seq<TransportCall> {
        self.transport.calls()
    }

    /// The protocol version the context holds.
    pub closed spec fn version_spec(&self) -> Version {
        self.version
    }

    /// The devices the context holds.
    pub closed spec fn devices_spec(&self) -> Seq<Device> {
        self.devices@
    }

    /// The XML description the context holds.
    pub closed spec fn xml_spec(&self) -> Seq<char> {
        self.xml@
    }

    /// Build a context from any [`Transport`] implementation: perform the
    /// VERSION handshake and enumerate all devices via PRINT.
    ///
    /// The transport's answers decide the result. A context holds the calls
    /// made and what they gave: the VERSION exchange, then the PRINT
    /// exchange, and the devices that the XML describes. An error is the
    /// first error of that sequence; the transport is dropped with it, so
    /// this contract can only say that some answers give it, and
    /// [`Context::from_logged`], which this calls, states it over the calls
    /// that were made.
    pub fn from_transport(transport: T) -> (r: Result<Self, Error>)
        ensures
            r matches Ok(ctx) ==> context_exchange(
                ctx.calls_spec(),
                Ok::<ContextResultView, ErrorView>(
                    (
                        ctx.version_spec().major,
                        ctx.version_spec().minor,
                        ctx.version_spec().git_tag@,
                        ctx.xml_spec(),
                        device_list_view(ctx.devices_spec()),
                    ),
                ),
            ),
            r matches Err(e) ==> exists|calls: Seq<TransportCall>|
                context_exchange(calls, Err::<ContextResultView, ErrorView>(e@)),
    {
        let logged = Logged::new(transport);
        let ghost start = logged.calls();
        match Self::from_logged(logged) {
            Ok(ctx) => {
                assert(new_calls(start, ctx.calls_spec()) =~= ctx.calls_spec());
                Ok(ctx)
            },
            Err((e, t)) => {
                assert(new_calls(start, t.calls()) =~= t.calls());
                Err(e)
            },
        }
    }

    /// Build a context on a transport that keeps the record of its calls:
    /// the VERSION handshake, then PRINT, then the device tree.
    ///
    /// The calls made are those of [`Context::from_transport`], and their
    /// answers decide the result exactly: the first error among them, or
    /// the context. On failure the transport comes back with its record.
    pub fn from_logged(transport: Logged<T>) -> (r: Result<Self, (Error, Logged<T>)>)
        ensures
            match r {
                Ok(ctx) => extends(transport.calls(), ctx.calls_spec()) && context_exchange(
                    new_calls(transport.calls(), ctx.calls_spec()),
                    Ok::<ContextResultView, ErrorView>(
                        (
                            ctx.version_spec().major,
                            ctx.version_spec().minor,
                            ctx.version_spec().git_tag@,
                            ctx.xml_spec(),
                            device_list_view(ctx.devices_spec()),
                        ),
                    ),
                ),
                Err((e, t)) => extends(transport.calls(), t.calls()) && context_exchange(
                    new_calls(transport.calls(), t.calls()),
                    Err::<ContextResultView, ErrorView>(e@),
                ),
            },
    {
        let mut transport = transport;
        let ghost start = transport.calls();
        let got_version = version(&mut transport);
        let ghost c1 = transport.calls();
        let ghost n1 = new_calls(start, c1);
        let (major, minor, git_tag) = match got_version {
            Ok(v) => v,
            Err(e) => {
                assert(context_exchange(n1, Err::<ContextResultView, ErrorView>(e@)));
                return Err((e, transport));
            },
        };
        let ghost v = (major, minor, git_tag@);
        assert(n1.len() == 2);
        assert(n1.take(2) =~= n1);
        let got_xml = print(&mut transport);
        let ghost c2 = transport.calls();
        let ghost n2 = new_calls(start, c2);
        assert(c2.take(start.len() as int) =~= start) by {
            assert(c2.take(c1.len() as int) == c1);
            assert(c1.take(start.len() as int) == start);
            assert forall|j: int| 0 <= j < start.len() implies c2[j] == start[j] by {
                assert(c2[j] == c2.take(c1.len() as int)[j]);
                assert(c1[j] == c1.take(start.len() as int)[j]);
            }
        }
        assert(n2.take(2) =~= n1) by {
            assert forall|j: int| 0 <= j < 2 implies n2[j] == n1[j] by {
                assert(c2[start.len() + j] == c2.take(c1.len() as int)[start.len() + j]);
            }
        }
        assert(new_calls(c1, c2) =~= n2.skip(2));
        assert(version_exchange(n2.take(2), Ok::<(u32, u32, Seq<char>), ErrorView>(v)));
        let xml = match got_xml {
            Ok(x) => x,
            Err(e) => {
                assert(context_exchange(n2, Err::<ContextResultView, ErrorView>(e@)));
                return Err((e, transport));
            },
        };
        assert(print_exchange(n2.skip(2), Ok::<Seq<char>, ErrorView>(xml@)));
        let devices = match parse_xml(xml.as_str()) {
            Ok(d) => d,
            Err(e) => {
                assert(context_exchange(n2, Err::<ContextResultView, ErrorView>(e@)));
                return Err((e, transport));
            },
        };
        Ok(Context { transport, version: Version { major, minor, git_tag }, devices, xml })
    }

    /// Get a reference to a device by name (e.g. `"ad9361-phy"`) or id: the
    /// first device that answers to it.
    pub fn find_device(&self, name: &str) -> (r: Option<&Device>)
        ensures
            match r {
                Some(d) => exists|i: int|
                    0 <= i < self.devices_spec().len() && *d == self.devices_spec()[i] && device_matches(
                        self.devices_spec()[i]@,
                        name@,
                    ) && forall|j: int| 0 <= j < i ==> !device_matches(self.devices_spec()[j]@, name@),
                None => forall|i: int|
                    0 <= i < self.devices_spec().len() ==> !device_matches(self.devices_spec()[i]@, name@),
            },
            r matches Some(d) ==> d.id@ == name@ || opt_string_view(d.name) == Some(name@),
            r is None ==> forall|i: int|
                0 <= i < self.devices_spec().len() ==> self.devices_spec()[i].id@ != name@
                    && opt_string_view(self.devices_spec()[i].name) != Some(name@),
    {
        let mut i: usize = 0;
        while i < self.devices.len()
            invariant
                i <= self.devices_spec().len(),
                forall|j: int| 0 <= j < i ==> !device_matches(self.devices_spec()[j]@, name@),
            decreases self.devices_spec().len() - i,
        {
            let d = &self.devices[i];
            let by_name = match &d.name {
                Some(n) => str_eq(n.as_str(), name),
                None => false,
            };
            if by_name || str_eq(d.id.as_str(), name) {
                return Some(d);
            }
            i = i + 1;
        }
        None
    }

    /// Get a mutable reference to the underlying transport for sending
    /// further commands.
    pub fn transport_mut(&mut self) -> (r: &mut T)
        ensures
            *r == old(self).transport_spec(),
            final(self).transport_spec() == *final(r),
            final(self).calls_spec() == old(self).calls_spec(),
            final(self).version_spec() == old(self).version_spec(),
            final(self).devices_spec() == old(self).devices_spec(),
            final(self).xml_spec() == old(self).xml_spec(),
    {
        self.transport.inner_mut()
    }
}

/// Reading stops at the end of the document: whatever follows it changes
/// nothing.
pub proof fn lemma_events_after_end_ignored(
    st: TreeState,
    evs: Seq<XmlEventView>,
    more: Seq<XmlEventView>,
)
    ensures
        run_tree(st, evs + seq![XmlEventView::Eof] + more) == run_tree(
            st,
            evs + seq![XmlEventView::Eof],
        ),
    decreases evs.len(),
{
    let a = evs + seq![XmlEventView::Eof] + more;
    let b = evs + seq![XmlEventView::Eof];
    if evs.len() == 0 {
        assert(a[0] == XmlEventView::Eof);
        assert(b[0] == XmlEventView::Eof);
    } else {
        assert(a[0] == evs[0]);
        assert(b[0] == evs[0]);
        assert(a.drop_first() =~= evs.drop_first() + seq![XmlEventView::Eof] + more);
        assert(b.drop_first() =~= evs.drop_first() + seq![XmlEventView::Eof]);
        lemma_events_after_end_ignored(tree_step(st, evs[0]), evs.drop_first(), more);
    }
}

/// Without a parse error among the events, reading the device tree
/// succeeds.
pub proof fn lemma_no_error_no_failure(st: TreeState, evs: Seq<XmlEventView>)
    requires
        forall|i: int| 0 <= i < evs.len() ==> !(evs[i] is Fail),
    ensures
        run_tree(st, evs) is Ok,
    decreases evs.len(),
{
    if evs.len() > 0 {
        assert(!(evs[0] is Fail));
        assert forall|i: int| 0 <= i < evs.drop_first().len() implies !(
        #[trigger] evs.drop_first()[i] is Fail) by {
            assert(evs.drop_first()[i] == evs[i + 1]);
        }
        lemma_no_error_no_failure(tree_step(st, evs[0]), evs.drop_first());
    }
}

/// A parse error ends the reading with that error, whatever came before it
/// and after it.
pub proof fn lemma_error_reported(
    st: TreeState,
    evs: Seq<XmlEventView>,
    m: Seq<char>,
    more: Seq<XmlEventView>,
)
    requires
        forall|i: int| 0 <= i < evs.len() ==> !(evs[i] is Eof) && !(evs[i] is Fail),
    ensures
        run_tree(st, evs + seq![XmlEventView::Fail(m)] + more) == Err::<
            Seq<DeviceView>,
            ErrorView,
        >(ErrorView::Xml("XML parse error: "@ + m)),
    decreases evs.len(),
{
    let a = evs + seq![XmlEventView::Fail(m)] + more;
    if evs.len() == 0 {
        assert(a[0] == XmlEventView::Fail(m));
    } else {
        assert(a[0] == evs[0]);
        assert(!(evs[0] is Eof) && !(evs[0] is Fail));
        assert(a.drop_first() =~= evs.drop_first() + seq![XmlEventView::Fail(m)] + more);
        assert forall|i: int| 0 <= i < evs.drop_first().len() implies !(
        #[trigger] evs.drop_first()[i] is Eof) && !(evs.drop_first()[i] is Fail) by {
            assert(evs.drop_first()[i] == evs[i + 1]);
        }
        lemma_error_reported(tree_step(st, evs[0]), evs.drop_first(), m, more);
    }
}

/// The tree after a run of events, none of which ends the reading.
pub open spec fn fold_steps(st: TreeState, evs: Seq<XmlEventView>) -> TreeState
    decreases evs.len(),
{
    if evs.len() == 0 {
        st
    } else {
        fold_steps(tree_step(st, evs[0]), evs.drop_first())
    }
}

pub open spec fn no_final_event(evs: Seq<XmlEventView>) -> bool {
    forall|i: int| 0 <= i < evs.len() ==> !is_final_event(#[trigger] evs[i])
}

proof fn lemma_fold_concat(st: TreeState, a: Seq<XmlEventView>, b: Seq<XmlEventView>)
    ensures
        fold_steps(st, a + b) == fold_steps(fold_steps(st, a), b),
    decreases a.len(),
{
    if a.len() == 0 {
        assert(a + b =~= b);
    } else {
        assert((a + b)[0] == a[0]);
        assert((a + b).drop_first() =~= a.drop_first() + b);
        lemma_fold_concat(tree_step(st, a[0]), a.drop_first(), b);
    }
}

proof fn lemma_run_concat(st: TreeState, a: Seq<XmlEventView>, b: Seq<XmlEventView>)
    requires
        no_final_event(a),
    ensures
        run_tree(st, a + b) == run_tree(fold_steps(st, a), b),
    decreases a.len(),
{
    if a.len() == 0 {
        assert(a + b =~= b);
    } else {
        assert((a + b)[0] == a[0]);
        assert(!is_final_event(a[0]));
        assert((a + b).drop_first() =~= a.drop_first() + b);
        assert(no_final_event(a.drop_first())) by {
            assert forall|i: int| 0 <= i < a.drop_first().len() implies !is_final_event(
                #[trigger] a.drop_first()[i],
            ) by {
                assert(a.drop_first()[i] == a[i + 1]);
            }
        }
        lemma_run_concat(tree_step(st, a[0]), a.drop_first(), b);
    }
}

proof fn lemma_tag_names_differ()
    ensures
        ascii_bytes("device"@) != ascii_bytes("channel"@),
        ascii_bytes("device"@) != ascii_bytes("attribute"@),
        ascii_bytes("channel"@) != ascii_bytes("attribute"@),
{
    reveal_strlit("device");
    reveal_strlit("channel");
    reveal_strlit("attribute");
    assert(ascii_bytes("device"@).len() == 6);
    assert(ascii_bytes("channel"@).len() == 7);
    assert(ascii_bytes("attribute"@).len() == 9);
}

/// The events of `<attribute .../>` elements, one per tag.
pub open spec fn attribute_elements(attrs: Seq<XmlTagView>) -> Seq<XmlEventView> {
    attrs.map_values(|a: XmlTagView| XmlEventView::Empty(a))
}

/// Every tag is named `name`.
pub open spec fn all_named(tags: Seq<XmlTagView>, name: Seq<u8>) -> bool {
    forall|i: int| 0 <= i < tags.len() ==> (#[trigger] tags[i]).name == name
}

/// A `<channel>` element: its opening tag and its `<attribute/>` tags.
pub struct ChannelElement {
    pub tag: XmlTagView,
    pub attrs: Seq<XmlTagView>,
}

/// A `<device>` element: its opening tag, its channels, then its own
/// `<attribute/>` tags.
pub struct DeviceElement {
    pub tag: XmlTagView,
    pub channels: Seq<ChannelElement>,
    pub attrs: Seq<XmlTagView>,
}

pub open spec fn channel_element_events(c: ChannelElement) -> Seq<XmlEventView> {
    seq![XmlEventView::Start(c.tag)] + attribute_elements(c.attrs) + seq![
        XmlEventView::End(ascii_bytes("channel"@)),
    ]
}

pub open spec fn channel_elements_events(chs: Seq<ChannelElement>) -> Seq<XmlEventView>
    decreases chs.len(),
{
    if chs.len() == 0 {
        Seq::empty()
    } else {
        channel_elements_events(chs.drop_last()) + channel_element_events(chs.last())
    }
}

pub open spec fn device_element_events(d: DeviceElement) -> Seq<XmlEventView> {
    seq![XmlEventView::Start(d.tag)] + channel_elements_events(d.channels) + attribute_elements(
        d.attrs,
    ) + seq![XmlEventView::End(ascii_bytes("device"@))]
}

pub open spec fn device_elements_events(ds: Seq<DeviceElement>) -> Seq<XmlEventView>
    decreases ds.len(),
{
    if ds.len() == 0 {
        Seq::empty()
    } else {
        device_elements_events(ds.drop_last()) + device_element_events(ds.last())
    }
}

/// The tags are what the element structure says they are.
pub open spec fn well_named(ds: Seq<DeviceElement>) -> bool {
    forall|i: int|
        0 <= i < ds.len() ==> {
            &&& (#[trigger] ds[i]).tag.name == ascii_bytes("device"@)
            &&& all_named(ds[i].attrs, ascii_bytes("attribute"@))
            &&& forall|j: int|
                0 <= j < ds[i].channels.len() ==> {
                    &&& (#[trigger] ds[i].channels[j]).tag.name == ascii_bytes("channel"@)
                    &&& all_named(ds[i].channels[j].attrs, ascii_bytes("attribute"@))
                }
        }
}

pub open spec fn attr_of_tag(t: XmlTagView) -> AttrView {
    attr_model(t.attrs)
}

/// The channel that a `<channel>` element describes.
pub open spec fn channel_of_element(c: ChannelElement) -> ChannelView {
    let m = channel_model(c.tag.attrs);
    ChannelView {
        id: m.id,
        name: m.name,
        is_output: m.is_output,
        attrs: c.attrs.map_values(|a: XmlTagView| attr_of_tag(a)),
    }
}

/// The device that a `<device>` element describes.
pub open spec fn device_of_element(d: DeviceElement) -> DeviceView {
    let m = device_model(d.tag.attrs);
    DeviceView {
        id: m.id,
        name: m.name,
        channels: d.channels.map_values(|c: ChannelElement| channel_of_element(c)),
        attrs: d.attrs.map_values(|a: XmlTagView| attr_of_tag(a)),
    }
}

proof fn lemma_models_empty(attrs: RawAttrs)
    ensures
        channel_model(attrs).attrs == Seq::<AttrView>::empty(),
        device_model(attrs).channels == Seq::<ChannelView>::empty(),
        device_model(attrs).attrs == Seq::<AttrView>::empty(),
    decreases attrs.len(),
{
    if attrs.len() > 0 {
        lemma_models_empty(attrs.drop_last());
    }
}

proof fn lemma_no_final_attrs(attrs: Seq<XmlTagView>)
    ensures
        no_final_event(attribute_elements(attrs)),
{
}

/// Attribute tags inside an open channel add to the channel's attributes.
proof fn lemma_channel_attrs(st: TreeState, c: ChannelView, attrs: Seq<XmlTagView>)
    requires
        st.channel == Some(c),
        all_named(attrs, ascii_bytes("attribute"@)),
    ensures
        fold_steps(st, attribute_elements(attrs)) == (TreeState {
            devices: st.devices,
            device: st.device,
            channel: Some(
                ChannelView {
                    id: c.id,
                    name: c.name,
                    is_output: c.is_output,
                    attrs: c.attrs + attrs.map_values(|a: XmlTagView| attr_of_tag(a)),
                },
            ),
        }),
    decreases attrs.len(),
{
    lemma_tag_names_differ();
    if attrs.len() == 0 {
        assert(attribute_elements(attrs) =~= Seq::<XmlEventView>::empty());
        assert(c.attrs + attrs.map_values(|a: XmlTagView| attr_of_tag(a)) =~= c.attrs);
        let want = ChannelView {
            id: c.id,
            name: c.name,
            is_output: c.is_output,
            attrs: c.attrs + attrs.map_values(|a: XmlTagView| attr_of_tag(a)),
        };
        assert(want =~= c);
    } else {
        let init = attrs.drop_last();
        assert(attribute_elements(attrs) =~= attribute_elements(init) + seq![
            XmlEventView::Empty(attrs.last()),
        ]);
        assert(all_named(init, ascii_bytes("attribute"@))) by {
            assert forall|i: int| 0 <= i < init.len() implies (#[trigger] init[i]).name
                == ascii_bytes("attribute"@) by {
                assert(init[i] == attrs[i]);
            }
        }
        lemma_channel_attrs(st, c, init);
        lemma_fold_concat(st, attribute_elements(init), seq![XmlEventView::Empty(attrs.last())]);
        let mid = fold_steps(st, attribute_elements(init));
        let one = seq![XmlEventView::Empty(attrs.last())];
        assert(one.drop_first() =~= Seq::<XmlEventView>::empty());
        assert(attrs.last().name == ascii_bytes("attribute"@));
        assert(fold_steps(mid, one) == fold_steps(tree_step(mid, one[0]), one.drop_first()));
        assert(fold_steps(mid, one) == tree_step(mid, one[0]));
        assert(c.attrs + attrs.map_values(|a: XmlTagView| attr_of_tag(a)) =~= (c.attrs
            + init.map_values(|a: XmlTagView| attr_of_tag(a))).push(attr_of_tag(attrs.last())));
    }
}

/// Attribute tags with no channel open add to the open device's attributes.
proof fn lemma_device_attrs(st: TreeState, d: DeviceView, attrs: Seq<XmlTagView>)
    requires
        st.channel is None,
        st.device == Some(d),
        all_named(attrs, ascii_bytes("attribute"@)),
    ensures
        fold_steps(st, attribute_elements(attrs)) == (TreeState {
            devices: st.devices,
            device: Some(
                DeviceView {
                    id: d.id,
                    name: d.name,
                    channels: d.channels,
                    attrs: d.attrs + attrs.map_values(|a: XmlTagView| attr_of_tag(a)),
                },
            ),
            channel: None,
        }),
    decreases attrs.len(),
{
    lemma_tag_names_differ();
    if attrs.len() == 0 {
        assert(attribute_elements(attrs) =~= Seq::<XmlEventView>::empty());
        assert(d.attrs + attrs.map_values(|a: XmlTagView| attr_of_tag(a)) =~= d.attrs);
        let want = DeviceView {
            id: d.id,
            name: d.name,
            channels: d.channels,
            attrs: d.attrs + attrs.map_values(|a: XmlTagView| attr_of_tag(a)),
        };
        assert(want =~= d);
    } else {
        let init = attrs.drop_last();
        assert(attribute_elements(attrs) =~= attribute_elements(init) + seq![
            XmlEventView::Empty(attrs.last()),
        ]);
        assert(all_named(init, ascii_bytes("attribute"@))) by {
            assert forall|i: int| 0 <= i < init.len() implies (#[trigger] init[i]).name
                == ascii_bytes("attribute"@) by {
                assert(init[i] == attrs[i]);
            }
        }
        lemma_device_attrs(st, d, init);
        lemma_fold_concat(st, attribute_elements(init), seq![XmlEventView::Empty(attrs.last())]);
        let mid = fold_steps(st, attribute_elements(init));
        let one = seq![XmlEventView::Empty(attrs.last())];
        assert(one.drop_first() =~= Seq::<XmlEventView>::empty());
        assert(attrs.last().name == ascii_bytes("attribute"@));
        assert(fold_steps(mid, one) == fold_steps(tree_step(mid, one[0]), one.drop_first()));
        assert(fold_steps(mid, one) == tree_step(mid, one[0]));
        assert(d.attrs + attrs.map_values(|a: XmlTagView| attr_of_tag(a)) =~= (d.attrs
            + init.map_values(|a: XmlTagView| attr_of_tag(a))).push(attr_of_tag(attrs.last())));
    }
}

proof fn lemma_fold_one(st: TreeState, e: XmlEventView)
    ensures
        fold_steps(st, seq![e]) == tree_step(st, e),
{
    let one = seq![e];
    assert(one.drop_first() =~= Seq::<XmlEventView>::empty());
    assert(fold_steps(st, one) == fold_steps(tree_step(st, one[0]), one.drop_first()));
}

proof fn lemma_no_final_concat(a: Seq<XmlEventView>, b: Seq<XmlEventView>)
    requires
        no_final_event(a),
        no_final_event(b),
    ensures
        no_final_event(a + b),
{
    assert forall|i: int| 0 <= i < (a + b).len() implies !is_final_event(#[trigger] (a + b)[i]) by {
        if i < a.len() {
            assert((a + b)[i] == a[i]);
        } else {
            assert((a + b)[i] == b[i - a.len()]);
        }
    }
}

proof fn lemma_channel_element(st: TreeState, d: DeviceView, ce: ChannelElement)
    requires
        st.channel is None,
        st.device == Some(d),
        ce.tag.name == ascii_bytes("channel"@),
        all_named(ce.attrs, ascii_bytes("attribute"@)),
    ensures
        fold_steps(st, channel_element_events(ce)) == (TreeState {
            devices: st.devices,
            device: Some(
                DeviceView {
                    id: d.id,
                    name: d.name,
                    channels: d.channels.push(channel_of_element(ce)),
                    attrs: d.attrs,
                },
            ),
            channel: None,
        }),
        no_final_event(channel_element_events(ce)),
{
    lemma_tag_names_differ();
    let first = seq![XmlEventView::Start(ce.tag)];
    let mid = attribute_elements(ce.attrs);
    let last = seq![XmlEventView::End(ascii_bytes("channel"@))];
    assert(channel_element_events(ce) == first + mid + last);
    lemma_fold_concat(st, first + mid, last);
    lemma_fold_concat(st, first, mid);
    lemma_fold_one(st, XmlEventView::Start(ce.tag));
    let st1 = fold_steps(st, first);
    let cm = channel_model(ce.tag.attrs);
    lemma_models_empty(ce.tag.attrs);
    assert(st1.channel == Some(cm));
    lemma_channel_attrs(st1, cm, ce.attrs);
    let st2 = fold_steps(st1, mid);
    lemma_fold_one(st2, XmlEventView::End(ascii_bytes("channel"@)));
    let c2 = ChannelView {
        id: cm.id,
        name: cm.name,
        is_output: cm.is_output,
        attrs: cm.attrs + ce.attrs.map_values(|a: XmlTagView| attr_of_tag(a)),
    };
    assert(c2 =~= channel_of_element(ce));
    lemma_no_final_attrs(ce.attrs);
    assert(no_final_event(first));
    assert(no_final_event(last));
    lemma_no_final_concat(first, mid);
    lemma_no_final_concat(first + mid, last);
}

proof fn lemma_channel_elements(st: TreeState, d: DeviceView, chs: Seq<ChannelElement>)
    requires
        st.channel is None,
        st.device == Some(d),
        forall|j: int|
            0 <= j < chs.len() ==> {
                &&& (#[trigger] chs[j]).tag.name == ascii_bytes("channel"@)
                &&& all_named(chs[j].attrs, ascii_bytes("attribute"@))
            },
    ensures
        fold_steps(st, channel_elements_events(chs)) == (TreeState {
            devices: st.devices,
            device: Some(
                DeviceView {
                    id: d.id,
                    name: d.name,
                    channels: d.channels + chs.map_values(|c: ChannelElement| channel_of_element(c)),
                    attrs: d.attrs,
                },
            ),
            channel: None,
        }),
        no_final_event(channel_elements_events(chs)),
    decreases chs.len(),
{
    if chs.len() == 0 {
        let want = DeviceView {
            id: d.id,
            name: d.name,
            channels: d.channels + chs.map_values(|c: ChannelElement| channel_of_element(c)),
            attrs: d.attrs,
        };
        assert(want =~= d);
    } else {
        let init = chs.drop_last();
        assert forall|j: int| 0 <= j < init.len() implies {
            &&& (#[trigger] init[j]).tag.name == ascii_bytes("channel"@)
            &&& all_named(init[j].attrs, ascii_bytes("attribute"@))
        } by {
            assert(init[j] == chs[j]);
        }
        lemma_channel_elements(st, d, init);
        lemma_fold_concat(st, channel_elements_events(init), channel_element_events(chs.last()));
        let st1 = fold_steps(st, channel_elements_events(init));
        let d1 = DeviceView {
            id: d.id,
            name: d.name,
            channels: d.channels + init.map_values(|c: ChannelElement| channel_of_element(c)),
            attrs: d.attrs,
        };
        assert(chs[chs.len() - 1] == chs.last());
        lemma_channel_element(st1, d1, chs.last());
        assert(d.channels + chs.map_values(|c: ChannelElement| channel_of_element(c)) =~= (
        d.channels + init.map_values(|c: ChannelElement| channel_of_element(c))).push(
            channel_of_element(chs.last()),
        ));
        lemma_no_final_concat(channel_elements_events(init), channel_element_events(chs.last()));
    }
}

proof fn lemma_device_element(st: TreeState, de: DeviceElement)
    requires
        st.channel is None,
        st.device is None,
        de.tag.name == ascii_bytes("device"@),
        all_named(de.attrs, ascii_bytes("attribute"@)),
        forall|j: int|
            0 <= j < de.channels.len() ==> {
                &&& (#[trigger] de.channels[j]).tag.name == ascii_bytes("channel"@)
                &&& all_named(de.channels[j].attrs, ascii_bytes("attribute"@))
            },
    ensures
        fold_steps(st, device_element_events(de)) == (TreeState {
            devices: st.devices.push(device_of_element(de)),
            device: None,
            channel: None,
        }),
        no_final_event(device_element_events(de)),
{
    lemma_tag_names_differ();
    let first = seq![XmlEventView::Start(de.tag)];
    let chans = channel_elements_events(de.channels);
    let attrs = attribute_elements(de.attrs);
    let last = seq![XmlEventView::End(ascii_bytes("device"@))];
    assert(device_element_events(de) == first + chans + attrs + last);
    lemma_fold_concat(st, first + chans + attrs, last);
    lemma_fold_concat(st, first + chans, attrs);
    lemma_fold_concat(st, first, chans);
    lemma_fold_one(st, XmlEventView::Start(de.tag));
    let st1 = fold_steps(st, first);
    let dm = device_model(de.tag.attrs);
    lemma_models_empty(de.tag.attrs);
    assert(st1.device == Some(dm));
    lemma_channel_elements(st1, dm, de.channels);
    let st2 = fold_steps(st1, chans);
    let d2 = DeviceView {
        id: dm.id,
        name: dm.name,
        channels: dm.channels + de.channels.map_values(|c: ChannelElement| channel_of_element(c)),
        attrs: dm.attrs,
    };
    lemma_device_attrs(st2, d2, de.attrs);
    let st3 = fold_steps(st2, attrs);
    lemma_fold_one(st3, XmlEventView::End(ascii_bytes("device"@)));
    let d3 = DeviceView {
        id: d2.id,
        name: d2.name,
        channels: d2.channels,
        attrs: d2.attrs + de.attrs.map_values(|a: XmlTagView| attr_of_tag(a)),
    };
    assert(d3 =~= device_of_element(de));
    lemma_no_final_attrs(de.attrs);
    assert(no_final_event(first));
    assert(no_final_event(last));
    lemma_no_final_concat(first, chans);
    lemma_no_final_concat(first + chans, attrs);
    lemma_no_final_concat(first + chans + attrs, last);
}

proof fn lemma_device_elements(st: TreeState, ds: Seq<DeviceElement>)
    requires
        st.channel is None,
        st.device is None,
        well_named(ds),
    ensures
        fold_steps(st, device_elements_events(ds)) == (TreeState {
            devices: st.devices + ds.map_values(|d: DeviceElement| device_of_element(d)),
            device: None,
            channel: None,
        }),
        no_final_event(device_elements_events(ds)),
    decreases ds.len(),
{
    if ds.len() == 0 {
        assert(st.devices + ds.map_values(|d: DeviceElement| device_of_element(d)) =~= st.devices);
        assert(st =~= TreeState { devices: st.devices, device: None, channel: None });
    } else {
        let init = ds.drop_last();
        assert(well_named(init)) by {
            assert forall|i: int| 0 <= i < init.len() implies {
                &&& (#[trigger] init[i]).tag.name == ascii_bytes("device"@)
                &&& all_named(init[i].attrs, ascii_bytes("attribute"@))
                &&& forall|j: int|
                    0 <= j < init[i].channels.len() ==> {
                        &&& (#[trigger] init[i].channels[j]).tag.name == ascii_bytes("channel"@)
                        &&& all_named(init[i].channels[j].attrs, ascii_bytes("attribute"@))
                    }
            } by {
                assert(init[i] == ds[i]);
            }
        }
        lemma_device_elements(st, init);
        lemma_fold_concat(st, device_elements_events(init), device_element_events(ds.last()));
        let st1 = fold_steps(st, device_elements_events(init));
        assert(ds[ds.len() - 1] == ds.last());
        lemma_device_element(st1, ds.last());
        assert(st.devices + ds.map_values(|d: DeviceElement| device_of_element(d)) =~= (st.devices
            + init.map_values(|d: DeviceElement| device_of_element(d))).push(
            device_of_element(ds.last()),
        ));
        lemma_no_final_concat(device_elements_events(init), device_element_events(ds.last()));
    }
}

/// One device per `<device>` element, in document order: each with the id
/// and name of its tag, one channel per `<channel>` element inside it in
/// order (id, name, and output exactly when its type is `output`), and the
/// `<attribute/>` elements inside each channel or directly inside the
/// device as their attributes, in order; nothing after the end of the
/// document counts.
pub proof fn lemma_device_elements_parse(ds: Seq<DeviceElement>, more: Seq<XmlEventView>)
    requires
        well_named(ds),
    ensures
        devices_of_events(device_elements_events(ds) + seq![XmlEventView::Eof] + more) == Ok::<
            Seq<DeviceView>,
            ErrorView,
        >(ds.map_values(|d: DeviceElement| device_of_element(d))),
{
    let st = initial_tree_state();
    let evs = device_elements_events(ds);
    lemma_device_elements(st, ds);
    assert(evs + seq![XmlEventView::Eof] + more =~= evs + (seq![XmlEventView::Eof] + more));
    lemma_run_concat(st, evs, seq![XmlEventView::Eof] + more);
    let rest = seq![XmlEventView::Eof] + more;
    assert(rest[0] == XmlEventView::Eof);
    assert(Seq::<DeviceView>::empty() + ds.map_values(|d: DeviceElement| device_of_element(d))
        =~= ds.map_values(|d: DeviceElement| device_of_element(d)));
}

/// An event that leaves the tree as it is: text, comments and the like,
/// tags other than `device`, `channel` and `attribute` (a root `<context>`
/// among them), and closing tags other than `</device>` and `</channel>`.
pub open spec fn is_ignored_event(e: XmlEventView) -> bool {
    match e {
        XmlEventView::Other => true,
        XmlEventView::Start(t) => t.name != ascii_bytes("device"@) && t.name != ascii_bytes(
            "channel"@,
        ) && t.name != ascii_bytes("attribute"@),
        XmlEventView::Empty(t) => t.name != ascii_bytes("device"@) && t.name != ascii_bytes(
            "channel"@,
        ) && t.name != ascii_bytes("attribute"@),
        XmlEventView::End(n) => n != ascii_bytes("device"@) && n != ascii_bytes("channel"@),
        _ => false,
    }
}

/// The events that can change the tree, in order.
pub open spec fn relevant_events(evs: Seq<XmlEventView>) -> Seq<XmlEventView>
    decreases evs.len(),
{
    if evs.len() == 0 {
        Seq::empty()
    } else if is_ignored_event(evs[0]) {
        relevant_events(evs.drop_first())
    } else {
        seq![evs[0]] + relevant_events(evs.drop_first())
    }
}

/// Only the relevant events count: a root element, text between tags,
/// comments and unknown elements change nothing.
pub proof fn lemma_relevant_events(st: TreeState, evs: Seq<XmlEventView>)
    ensures
        run_tree(st, evs) == run_tree(st, relevant_events(evs)),
    decreases evs.len(),
{
    if evs.len() > 0 {
        let e = evs[0];
        if is_ignored_event(e) {
            assert(tree_step(st, e) == st);
            lemma_relevant_events(st, evs.drop_first());
        } else {
            let r = seq![e] + relevant_events(evs.drop_first());
            assert(r[0] == e);
            assert(r.drop_first() =~= relevant_events(evs.drop_first()));
            lemma_relevant_events(tree_step(st, e), evs.drop_first());
        }
    }
}

/// A PRINT document in the usual form: whatever root element, text and
/// comments surround them, the `<device>` elements give one device each, in
/// order, as `lemma_device_elements_parse` describes.
pub proof fn lemma_document_parse(
    evs: Seq<XmlEventView>,
    ds: Seq<DeviceElement>,
    more: Seq<XmlEventView>,
)
    requires
        well_named(ds),
        relevant_events(evs) == device_elements_events(ds) + seq![XmlEventView::Eof] + more,
    ensures
        devices_of_events(evs) == Ok::<Seq<DeviceView>, ErrorView>(
            ds.map_values(|d: DeviceElement| device_of_element(d)),
        ),
{
    lemma_relevant_events(initial_tree_state(), evs);
    lemma_device_elements_parse(ds, more);
}

} // verus!
