//! Driving [`super::xml::CimReader`] from quick-xml's namespace-aware pull
//! parser.
//!
//! quick-xml tokenizes the text and resolves each name's namespace. What
//! it gives at each read of a text is named below as a function of the
//! text and the number of reads made before ([`xml_read`] and its kin);
//! [`parse_cimxml`] is proved to fold [`CimReader`]'s steps over those
//! reads exactly ([`cim_read`]), and [`rdf_graph`] to fold the graph's
//! attribute steps over them ([`files_read`]).

use vstd::prelude::*;
use vstd::utf8::encode_utf8;

use quick_xml::events::attributes::{AttrError, Attribute, Attributes};
use quick_xml::events::{BytesCData, BytesRef, BytesStart, BytesText, Event};
use quick_xml::name::ResolveResult;
use quick_xml::reader::NsReader;

use super::graph::{
    attribute_spec, check_spec, empty_graph, graph_wf, law_a_checked_graph_has_no_dangling_reference,
    references_resolve, RdfGraph, RdfGraphV,
};
use super::xml::{
    attr_views, bytes_eq, cim_namespace, empty_spec, end_spec, finish_spec, mixes_schemas, opt_bytes, opt_view,
    prefixed, prefixed_name, rdf_ns, start_spec, start_state, text_spec, wants_text_spec, CimDocument, CimDocumentV,
    CimReader, CimReaderV, XmlAttr, XmlAttrV,
};
use crate::text::{chars_of, lemma_lt_irreflexive, lemma_lt_transitive, lemma_sorted_distinct, push_str, sorted_names, string_of};

verus! {

#[verifier::external_type_specification]
#[verifier::external_body]
#[verifier::reject_recursive_types(R)]
pub struct ExNsReader<R>(NsReader<R>);

#[verifier::external_type_specification]
#[verifier::external_body]
pub struct ExEvent<'a>(Event<'a>);

#[verifier::external_type_specification]
#[verifier::external_body]
pub struct ExBytesStart<'a>(BytesStart<'a>);

#[verifier::external_type_specification]
#[verifier::external_body]
pub struct ExBytesText<'a>(BytesText<'a>);

#[verifier::external_type_specification]
#[verifier::external_body]
pub struct ExBytesCData<'a>(BytesCData<'a>);

#[verifier::external_type_specification]
#[verifier::external_body]
pub struct ExBytesRef<'a>(BytesRef<'a>);

#[verifier::external_type_specification]
#[verifier::external_body]
pub struct ExAttributes<'a>(Attributes<'a>);

#[verifier::external_type_specification]
#[verifier::external_body]
pub struct ExAttribute<'a>(Attribute<'a>);

#[verifier::external_type_specification]
#[verifier::external_body]
pub struct ExAttrError(AttrError);

/// What quick-xml's namespace-aware reader gives at one read of a text:
/// the kind of event, with the namespace a tag's name is bound to (none
/// when unbound or unknown), or the parser's error message.
pub enum XmlRead {
    Start(Option<Seq<u8>>),
    Empty(Option<Seq<u8>>),
    End,
    Text,
    CData,
    Reference,
    DocType,
    Eof,
    Other,
    Failed(Seq<char>),
}

/// `NsReader::read_resolved_event`: what the read after `i` reads of
/// `NsReader::from_str(text)` gives.
pub uninterp spec fn xml_read(text: Seq<char>, i: nat) -> XmlRead;

/// `BytesStart::local_name`: the local name of the tag that the read after
/// `i` reads of `text` gives.
pub uninterp spec fn xml_local(text: Seq<char>, i: nat) -> Seq<u8>;

/// `Attributes::next`, the `j`th time on that tag: the end (`None`), the
/// attribute's qualified name and raw value, or the error's message.
pub uninterp spec fn xml_attr_next(text: Seq<char>, i: nat, j: nat) -> Option<Result<(Seq<u8>, Seq<u8>), Seq<char>>>;

/// `NamespaceResolver::resolve_attribute` right after that read: the
/// namespace the qualified attribute name `key` is bound to (none when
/// unbound or unknown) and its local name.
pub uninterp spec fn xml_resolved(text: Seq<char>, i: nat, key: Seq<u8>) -> (Option<Seq<u8>>, Seq<u8>);

/// `Attribute::decode_and_unescape_value` with the decoder of the reader
/// over `text`: the raw attribute value `value` decoded and unescaped, or
/// the error's message.
pub uninterp spec fn xml_unescaped(text: Seq<char>, value: Seq<u8>) -> Result<Seq<char>, Seq<char>>;

/// `BytesText::xml10_content`: the content of the text event that the
/// read after `i` reads gives, decoded with line ends normalized, or the
/// error's message.
pub uninterp spec fn xml_text(text: Seq<char>, i: nat) -> Result<Seq<char>, Seq<char>>;

/// `BytesCData::decode`: the content of that CDATA event, or the error's
/// message.
pub uninterp spec fn xml_cdata(text: Seq<char>, i: nat) -> Result<Seq<char>, Seq<char>>;

/// `BytesRef::resolve_char_ref`: the character that `&#...;` reference
/// names, none for a named reference, or the error's message.
pub uninterp spec fn xml_char_ref(text: Seq<char>, i: nat) -> Result<Option<char>, Seq<char>>;

/// `BytesRef::decode`: the name of that `&...;` reference, or the error's
/// message.
pub uninterp spec fn xml_ref_name(text: Seq<char>, i: nat) -> Result<Seq<char>, Seq<char>>;

/// A pull parser over `text` that has made `count` reads.
struct XmlPull<'a> {
    reader: NsReader<&'a [u8]>,
    text: Ghost<Seq<char>>,
    count: Ghost<nat>,
}

/// An event, with the read of `text` it came from.
struct Tok<'a> {
    ns: Option<Vec<u8>>,
    event: Event<'a>,
    text: Ghost<Seq<char>>,
    index: Ghost<nat>,
}

/// A payload of an event, with the read of `text` it came from.
struct Tagged<T> {
    item: T,
    text: Ghost<Seq<char>>,
    index: Ghost<nat>,
}

/// One parser event, the kinds the reading tells apart; a start or
/// self-closing tag carries the namespace its name is bound to.
enum XmlEvent<'a> {
    Start(Option<Vec<u8>>, Tagged<BytesStart<'a>>),
    Empty(Option<Vec<u8>>, Tagged<BytesStart<'a>>),
    End,
    Text(Tagged<BytesText<'a>>),
    CData(Tagged<BytesCData<'a>>),
    Reference(Tagged<BytesRef<'a>>),
    DocType,
    Eof,
    Other,
}

/// The attributes of a tag, after `pos` steps.
struct AttrIter<'b> {
    it: Attributes<'b>,
    text: Ghost<Seq<char>>,
    index: Ghost<nat>,
    pos: Ghost<nat>,
}

/// The attribute of step `pos`.
struct AttrItem<'b> {
    attr: Attribute<'b>,
    text: Ghost<Seq<char>>,
    index: Ghost<nat>,
    pos: Ghost<nat>,
}

/// `NsReader::from_str`: a namespace-aware pull parser over `text`.
#[verifier::external_body]
fn open_pull<'a>(text: &'a str) -> (p: XmlPull<'a>)
    ensures
        p.text@ == text@,
        p.count@ == 0,
{
    XmlPull { reader: NsReader::from_str(text), text: Ghost(text@), count: Ghost(0) }
}

/// Whether the read that `t` came from gives an event, and a tag's
/// namespace is the one `t` carries.
spec fn tok_read(t: Tok) -> bool {
    &&& !(xml_read(t.text@, t.index@) is Failed)
    &&& xml_read(t.text@, t.index@) matches XmlRead::Start(n) ==> n == opt_bytes(t.ns)
    &&& xml_read(t.text@, t.index@) matches XmlRead::Empty(n) ==> n == opt_bytes(t.ns)
}

/// `NsReader::read_resolved_event`: the next read of the text, an event
/// with the namespace its name is bound to, or the error's message.
#[verifier::external_body]
fn read_resolved<'a>(p: &mut XmlPull<'a>) -> (r: Result<Tok<'a>, String>)
    ensures
        final(p).text == old(p).text,
        final(p).count@ == old(p).count@ + 1,
        match r {
            Ok(t) => t.text == old(p).text && t.index == old(p).count && tok_read(t),
            Err(m) => xml_read(old(p).text@, old(p).count@) == XmlRead::Failed(m@),
        },
{
    let (text, index) = (p.text, p.count);
    match p.reader.read_resolved_event() {
        Ok((ResolveResult::Bound(ns), event)) => Ok(Tok { ns: Some(ns.as_ref().to_vec()), event, text, index }),
        Ok((_, event)) => Ok(Tok { ns: None, event, text, index }),
        Err(e) => Err(e.to_string()),
    }
}

/// The kind of a classified event, tags with their namespace.
spec fn event_kind(e: XmlEvent) -> XmlRead {
    match e {
        XmlEvent::Start(ns, _) => XmlRead::Start(opt_bytes(ns)),
        XmlEvent::Empty(ns, _) => XmlRead::Empty(opt_bytes(ns)),
        XmlEvent::End => XmlRead::End,
        XmlEvent::Text(_) => XmlRead::Text,
        XmlEvent::CData(_) => XmlRead::CData,
        XmlEvent::Reference(_) => XmlRead::Reference,
        XmlEvent::DocType => XmlRead::DocType,
        XmlEvent::Eof => XmlRead::Eof,
        XmlEvent::Other => XmlRead::Other,
    }
}

/// Whether every payload of `e` came from read `index` of `text`.
spec fn event_from(e: XmlEvent, text: Ghost<Seq<char>>, index: Ghost<nat>) -> bool {
    match e {
        XmlEvent::Start(_, s) => s.text == text && s.index == index,
        XmlEvent::Empty(_, s) => s.text == text && s.index == index,
        XmlEvent::Text(s) => s.text == text && s.index == index,
        XmlEvent::CData(s) => s.text == text && s.index == index,
        XmlEvent::Reference(s) => s.text == text && s.index == index,
        _ => true,
    }
}

/// The kinds of `Event` the reading tells apart, payloads moved over.
#[verifier::external_body]
fn classify<'a>(t: Tok<'a>) -> (r: XmlEvent<'a>)
    requires
        tok_read(t),
    ensures
        event_kind(r) == xml_read(t.text@, t.index@),
        event_from(r, t.text, t.index),
{
    let (text, index) = (t.text, t.index);
    match t.event {
        Event::Start(s) => XmlEvent::Start(t.ns, Tagged { item: s, text, index }),
        Event::Empty(s) => XmlEvent::Empty(t.ns, Tagged { item: s, text, index }),
        Event::End(_) => XmlEvent::End,
        Event::Text(x) => XmlEvent::Text(Tagged { item: x, text, index }),
        Event::CData(x) => XmlEvent::CData(Tagged { item: x, text, index }),
        Event::GeneralRef(x) => XmlEvent::Reference(Tagged { item: x, text, index }),
        Event::DocType(_) => XmlEvent::DocType,
        Event::Eof => XmlEvent::Eof,
        _ => XmlEvent::Other,
    }
}

/// `BytesStart::local_name`: the tag name without its prefix.
#[verifier::external_body]
fn local_name(s: &Tagged<BytesStart>) -> (r: Vec<u8>)
    ensures
        r@ == xml_local(s.text@, s.index@),
{
    s.item.local_name().as_ref().to_vec()
}

/// `BytesStart::attributes`: an iterator over the tag's attributes.
#[verifier::external_body]
fn attributes_of<'b>(s: &'b Tagged<BytesStart>) -> (r: AttrIter<'b>)
    ensures
        r.text == s.text,
        r.index == s.index,
        r.pos@ == 0,
{
    AttrIter { it: s.item.attributes(), text: s.text, index: s.index, pos: Ghost(0) }
}

/// `Attributes::next`: the next attribute, or the message of the error
/// that stops reading them.
#[verifier::external_body]
fn next_attribute<'b>(a: &mut AttrIter<'b>) -> (r: Option<Result<AttrItem<'b>, String>>)
    ensures
        final(a).text == old(a).text,
        final(a).index == old(a).index,
        final(a).pos@ == old(a).pos@ + 1,
        match r {
            None => xml_attr_next(old(a).text@, old(a).index@, old(a).pos@) is None,
            Some(Err(m)) => xml_attr_next(old(a).text@, old(a).index@, old(a).pos@) == Some(
                Err::<(Seq<u8>, Seq<u8>), Seq<char>>(m@),
            ),
            Some(Ok(x)) => xml_attr_next(old(a).text@, old(a).index@, old(a).pos@) is Some && xml_attr_next(
                old(a).text@,
                old(a).index@,
                old(a).pos@,
            )->Some_0 is Ok && x.text == old(a).text && x.index == old(a).index && x.pos == old(a).pos,
        },
{
    let (text, index, pos) = (a.text, a.index, a.pos);
    match a.it.next() {
        Some(Ok(attr)) => Some(Ok(AttrItem { attr, text, index, pos })),
        Some(Err(e)) => Some(Err(e.to_string())),
        None => None,
    }
}

/// The qualified name and raw value of attribute step `j` on the tag of
/// read `i`, when that step yields one.
pub open spec fn attr_raw(text: Seq<char>, i: nat, j: nat) -> (Seq<u8>, Seq<u8>) {
    xml_attr_next(text, i, j)->Some_0->Ok_0
}

/// That attribute with its name resolved: namespace, local name and raw
/// value.
pub open spec fn attr_at(text: Seq<char>, i: nat, j: nat) -> XmlAttrV {
    let (key, value) = attr_raw(text, i, j);
    let (ns, local) = xml_resolved(text, i, key);
    XmlAttrV { ns, local, value }
}

/// `NamespaceResolver::resolve_attribute`: the namespace an attribute's
/// name is bound to and its local name, with the attribute's raw value;
/// the reader has made no read since the attribute's tag.
#[verifier::external_body]
fn resolve_attribute(p: &XmlPull, x: &AttrItem) -> (r: XmlAttr)
    requires
        p.text == x.text,
        p.count@ == x.index@ + 1,
        xml_attr_next(x.text@, x.index@, x.pos@) matches Some(Ok(_)),
    ensures
        r@.ns == xml_resolved(x.text@, x.index@, attr_raw(x.text@, x.index@, x.pos@).0).0,
        r@.local == xml_resolved(x.text@, x.index@, attr_raw(x.text@, x.index@, x.pos@).0).1,
        r@.value == attr_raw(x.text@, x.index@, x.pos@).1,
{
    let (resolve, local) = p.reader.resolver().resolve_attribute(x.attr.key);
    let ns = match resolve {
        ResolveResult::Bound(ns) => Some(ns.as_ref().to_vec()),
        _ => None,
    };
    XmlAttr { ns, local: local.as_ref().to_vec(), value: x.attr.value.to_vec() }
}

/// `Attribute::decode_and_unescape_value` with the reader's decoder: the
/// attribute value decoded and its predefined entities unescaped, or the
/// error's message.
#[verifier::external_body]
fn decoded_value(p: &XmlPull, x: &AttrItem) -> (r: Result<String, String>)
    requires
        p.text == x.text,
        xml_attr_next(x.text@, x.index@, x.pos@) matches Some(Ok(_)),
    ensures
        match r {
            Ok(v) => xml_unescaped(x.text@, attr_raw(x.text@, x.index@, x.pos@).1) == Ok::<Seq<char>, Seq<char>>(v@),
            Err(m) => xml_unescaped(x.text@, attr_raw(x.text@, x.index@, x.pos@).1) == Err::<Seq<char>, Seq<char>>(m@),
        },
{
    match x.attr.decode_and_unescape_value(p.reader.decoder()) {
        Ok(v) => Ok(v.into_owned()),
        Err(e) => Err(e.to_string()),
    }
}

/// `BytesText::xml10_content`: the text decoded, line ends normalized as
/// XML 1.0 asks, or the decoding error's message.
#[verifier::external_body]
fn text_content(t: &Tagged<BytesText>) -> (r: Result<String, String>)
    ensures
        match r {
            Ok(v) => xml_text(t.text@, t.index@) == Ok::<Seq<char>, Seq<char>>(v@),
            Err(m) => xml_text(t.text@, t.index@) == Err::<Seq<char>, Seq<char>>(m@),
        },
{
    match t.item.xml10_content() {
        Ok(c) => Ok(c.into_owned()),
        Err(e) => Err(e.to_string()),
    }
}

/// `BytesCData::decode`: the CDATA content decoded, or the decoding error's
/// message.
#[verifier::external_body]
fn cdata_content(t: &Tagged<BytesCData>) -> (r: Result<String, String>)
    ensures
        match r {
            Ok(v) => xml_cdata(t.text@, t.index@) == Ok::<Seq<char>, Seq<char>>(v@),
            Err(m) => xml_cdata(t.text@, t.index@) == Err::<Seq<char>, Seq<char>>(m@),
        },
{
    match t.item.decode() {
        Ok(c) => Ok(c.into_owned()),
        Err(e) => Err(e.to_string()),
    }
}

/// `BytesRef::resolve_char_ref`: the character a `&#...;` reference names,
/// none for a named reference, or the error's message.
#[verifier::external_body]
fn char_reference(t: &Tagged<BytesRef>) -> (r: Result<Option<char>, String>)
    ensures
        match r {
            Ok(c) => xml_char_ref(t.text@, t.index@) == Ok::<Option<char>, Seq<char>>(c),
            Err(m) => xml_char_ref(t.text@, t.index@) == Err::<Option<char>, Seq<char>>(m@),
        },
{
    match t.item.resolve_char_ref() {
        Ok(c) => Ok(c),
        Err(e) => Err(e.to_string()),
    }
}

/// `BytesRef::decode`: the name of a `&...;` reference, or the decoding
/// error's message.
#[verifier::external_body]
fn reference_name(t: &Tagged<BytesRef>) -> (r: Result<String, String>)
    ensures
        match r {
            Ok(v) => xml_ref_name(t.text@, t.index@) == Ok::<Seq<char>, Seq<char>>(v@),
            Err(m) => xml_ref_name(t.text@, t.index@) == Err::<Seq<char>, Seq<char>>(m@),
        },
{
    match t.item.decode() {
        Ok(c) => Ok(c.into_owned()),
        Err(e) => Err(e.to_string()),
    }
}

/// The character one of the five predefined XML entities names.
pub open spec fn predefined_entity(name: Seq<char>) -> Option<char> {
    if name == "lt"@ {
        Some('<')
    } else if name == "gt"@ {
        Some('>')
    } else if name == "amp"@ {
        Some('&')
    } else if name == "apos"@ {
        Some('\'')
    } else if name == "quot"@ {
        Some('"')
    } else {
        None
    }
}

/// The character one of the five predefined XML entities names.
pub fn entity_char(name: &str) -> (r: Option<char>)
    ensures
        r == predefined_entity(name@),
{
    let n = chars_of(name);
    if crate::text::chars_eq(&n, &chars_of("lt")) {
        Some('<')
    } else if crate::text::chars_eq(&n, &chars_of("gt")) {
        Some('>')
    } else if crate::text::chars_eq(&n, &chars_of("amp")) {
        Some('&')
    } else if crate::text::chars_eq(&n, &chars_of("apos")) {
        Some('\'')
    } else if crate::text::chars_eq(&n, &chars_of("quot")) {
        Some('"')
    } else {
        None
    }
}

/// The text the general reference of read `i` stands for: a character
/// reference resolves directly, the five predefined entities by name;
/// anything else (an entity a DTD would declare) resolves to nothing.
pub open spec fn reference_text(text: Seq<char>, i: nat) -> Option<Seq<char>> {
    match xml_char_ref(text, i) {
        Ok(Some(c)) => Some(seq![c]),
        Ok(None) => match xml_ref_name(text, i) {
            Ok(name) => match predefined_entity(name) {
                Some(c) => Some(seq![c]),
                None => None,
            },
            Err(_) => None,
        },
        Err(_) => None,
    }
}

/// The text a general reference stands for.
fn resolve_reference(r: &Tagged<BytesRef>) -> (t: Option<String>)
    ensures
        opt_view(t) == reference_text(r.text@, r.index@),
{
    match char_reference(r) {
        Ok(Some(c)) => {
            let v = vec![c];
            assert(v@ =~= seq![c]);
            Some(string_of(&v))
        },
        Ok(None) => match reference_name(r) {
            Ok(name) => match entity_char(name.as_str()) {
                Some(c) => {
                    let v = vec![c];
                    assert(v@ =~= seq![c]);
                    Some(string_of(&v))
                },
                None => None,
            },
            Err(_) => None,
        },
        Err(_) => None,
    }
}

/// The attributes of the tag of read `i` from step `j` on, with their names
/// resolved, up to the first that cannot be read, and that failure. Every
/// attribute takes at least one byte of the text, so at most `left` more
/// are read.
pub open spec fn attrs_from(text: Seq<char>, i: nat, j: nat, left: nat) -> (Seq<XmlAttrV>, Option<Seq<char>>)
    decreases left,
{
    match xml_attr_next(text, i, j) {
        None => (Seq::empty(), None),
        Some(Err(m)) => (Seq::empty(), Some(m)),
        Some(Ok(_)) => if left == 0 {
            (Seq::empty(), Some("a tag holds more attributes than the text has bytes"@))
        } else {
            let rest = attrs_from(text, i, j + 1, (left - 1) as nat);
            (seq![attr_at(text, i, j)] + rest.0, rest.1)
        },
    }
}

/// The attributes of a tag with their names resolved, up to the first that
/// cannot be read, and that failure.
fn read_attributes(p: &XmlPull, tag: &Tagged<BytesStart>, budget: usize) -> (r: (Vec<XmlAttr>, Option<String>))
    requires
        p.text == tag.text,
        p.count@ == tag.index@ + 1,
    ensures
        (attr_views(r.0@), opt_view(r.1)) == attrs_from(tag.text@, tag.index@, 0, budget as nat),
{
    let ghost text = tag.text@;
    let ghost i = tag.index@;
    let mut it = attributes_of(tag);
    let mut out: Vec<XmlAttr> = Vec::new();
    let mut left = budget;
    loop
        invariant
            it.text == tag.text,
            it.index == tag.index,
            p.text == tag.text,
            p.count@ == tag.index@ + 1,
            text == tag.text@,
            i == tag.index@,
            ({
                let rest = attrs_from(text, i, it.pos@, left as nat);
                attrs_from(text, i, 0, budget as nat) == (attr_views(out@) + rest.0, rest.1)
            }),
        decreases left,
    {
        let ghost j = it.pos@;
        match next_attribute(&mut it) {
            None => {
                assert(attr_views(out@) + Seq::<XmlAttrV>::empty() =~= attr_views(out@));
                return (out, None);
            },
            Some(Err(e)) => {
                assert(attr_views(out@) + Seq::<XmlAttrV>::empty() =~= attr_views(out@));
                return (out, Some(e));
            },
            Some(Ok(a)) => {
                if left == 0 {
                    let m = chars_of("a tag holds more attributes than the text has bytes");
                    let s = string_of(&m);
                    assert(attr_views(out@) + Seq::<XmlAttrV>::empty() =~= attr_views(out@));
                    return (out, Some(s));
                }
                let ghost before = attr_views(out@);
                let ghost rest = attrs_from(text, i, j + 1, (left - 1) as nat);
                left = left - 1;
                let x = resolve_attribute(p, &a);
                assert(x@ == attr_at(text, i, j));
                out.push(x);
                proof {
                    assert(attr_views(out@) =~= before.push(attr_at(text, i, j)));
                    assert(before + (seq![attr_at(text, i, j)] + rest.0) =~= attr_views(out@) + rest.0);
                }
            },
        }
    }
}

/// The strictly increasing list of names that holds those of `ns` and `x`.
pub open spec fn ns_with(ns: Seq<Seq<char>>, x: Option<Seq<char>>) -> Seq<Seq<char>> {
    choose|t: Seq<Seq<char>>|
        sorted_names(t) && forall|y: Seq<char>| #[trigger] t.contains(y) <==> ns.contains(y) || x == Some(y)
}

/// Two strictly increasing lists of names that hold the same names are
/// the same list.
pub proof fn lemma_sorted_unique(s: Seq<Seq<char>>, t: Seq<Seq<char>>)
    requires
        sorted_names(s),
        sorted_names(t),
        forall|y: Seq<char>| #[trigger] s.contains(y) <==> t.contains(y),
    ensures
        s == t,
    decreases s.len(),
{
    if s.len() == 0 {
        if t.len() > 0 {
            assert(t.contains(t[0]));
            assert(s.contains(t[0]));
            assert(false);
        }
        assert(s =~= t);
    } else {
        assert(s.contains(s[0]));
        assert(t.contains(s[0]));
        if t.len() == 0 {
            assert(false);
        }
        assert(t.contains(t[0]));
        assert(s.contains(t[0]));
        let k = choose|k: int| 0 <= k < t.len() && t[k] == s[0];
        let m = choose|m: int| 0 <= m < s.len() && s[m] == t[0];
        if k > 0 {
            lemma_lt_irreflexive(t[0], 0);
            if m > 0 {
                assert(crate::text::chars_lt(s[0], s[m]));
                assert(crate::text::chars_lt(t[0], t[k]));
                lemma_lt_transitive(t[0], s[0], t[0], 0);
            }
            assert(false);
        }
        assert(t[0] == s[0]);
        let s1 = s.drop_first();
        let t1 = t.drop_first();
        assert forall|a: int, b: int| 0 <= a < b < s1.len() implies crate::text::chars_lt(
            #[trigger] s1[a],
            #[trigger] s1[b],
        ) by {
            assert(s1[a] == s[a + 1] && s1[b] == s[b + 1]);
        }
        assert forall|a: int, b: int| 0 <= a < b < t1.len() implies crate::text::chars_lt(
            #[trigger] t1[a],
            #[trigger] t1[b],
        ) by {
            assert(t1[a] == t[a + 1] && t1[b] == t[b + 1]);
        }
        assert forall|y: Seq<char>| #[trigger] s1.contains(y) <==> t1.contains(y) by {
            if s1.contains(y) {
                let a = choose|a: int| 0 <= a < s1.len() && s1[a] == y;
                assert(s[a + 1] == y);
                lemma_sorted_distinct(s, 0, a + 1);
                assert(s.contains(y));
                let b = choose|b: int| 0 <= b < t.len() && t[b] == y;
                if b == 0 {
                    assert(false);
                }
                assert(t1[b - 1] == y);
            }
            if t1.contains(y) {
                let a = choose|a: int| 0 <= a < t1.len() && t1[a] == y;
                assert(t[a + 1] == y);
                lemma_sorted_distinct(t, 0, a + 1);
                assert(t.contains(y));
                assert(s.contains(y));
                let b = choose|b: int| 0 <= b < s.len() && s[b] == y;
                if b == 0 {
                    assert(false);
                }
                assert(s1[b - 1] == y);
            }
        }
        lemma_sorted_unique(s1, t1);
        assert forall|a: int| 0 <= a < s.len() implies s[a] == t[a] by {
            if a > 0 {
                assert(s[a] == s1[a - 1] && t[a] == t1[a - 1]);
            }
        }
        assert(s =~= t);
    }
}

/// A strictly increasing list that holds the names of `ns` and `x` is
/// [`ns_with`].
proof fn lemma_ns_with(ns: Seq<Seq<char>>, x: Option<Seq<char>>, v: Seq<Seq<char>>)
    requires
        sorted_names(v),
        forall|y: Seq<char>| #[trigger] v.contains(y) <==> ns.contains(y) || x == Some(y),
    ensures
        v == ns_with(ns, x),
{
    let t = ns_with(ns, x);
    assert(sorted_names(t) && forall|y: Seq<char>| #[trigger] t.contains(y) <==> ns.contains(y) || x == Some(y));
    lemma_sorted_unique(v, t);
}

/// What read `i` of `text` does to the reading: the CIM namespaces and the
/// state after it, or the failure.
pub open spec fn cim_step(text: Seq<char>, total: nat, i: nat, ns: Seq<Seq<char>>, st: CimReaderV) -> Result<
    (Seq<Seq<char>>, CimReaderV),
    Seq<char>,
> {
    match xml_read(text, i) {
        XmlRead::Start(n) => {
            let a = attrs_from(text, i, 0, total);
            match start_spec(st, prefixed(n, xml_local(text, i)), a.0, a.1) {
                Ok(s) => Ok((ns_with(ns, cim_namespace(n)), s)),
                Err(e) => Err(e),
            }
        },
        XmlRead::Empty(n) => {
            let a = attrs_from(text, i, 0, total);
            match empty_spec(st, prefixed(n, xml_local(text, i)), a.0, a.1) {
                Ok(s) => Ok((ns_with(ns, cim_namespace(n)), s)),
                Err(e) => Err(e),
            }
        },
        XmlRead::Text => if wants_text_spec(st) {
            match xml_text(text, i) {
                Ok(t) => Ok((ns, text_spec(st, t))),
                Err(e) => Err(e),
            }
        } else {
            Ok((ns, st))
        },
        XmlRead::CData => if wants_text_spec(st) {
            match xml_cdata(text, i) {
                Ok(t) => Ok((ns, text_spec(st, t))),
                Err(e) => Err(e),
            }
        } else {
            Ok((ns, st))
        },
        XmlRead::Reference => if wants_text_spec(st) {
            match reference_text(text, i) {
                Some(t) => Ok((ns, text_spec(st, t))),
                None => Err("CGMES XML contains an undeclared or external entity reference"@),
            }
        } else {
            Ok((ns, st))
        },
        XmlRead::DocType => Err("CGMES XML must not contain a DTD"@),
        XmlRead::End => Ok((ns, end_spec(st))),
        _ => Ok((ns, st)),
    }
}

/// The reading of `text` from read `i` on, with the CIM namespaces `ns`
/// and the state `st` so far. Every event before the end of the text takes
/// at least one byte of it, so at most `left` more are read.
pub open spec fn cim_events(
    text: Seq<char>,
    total: nat,
    i: nat,
    left: nat,
    ns: Seq<Seq<char>>,
    st: CimReaderV,
) -> Result<CimDocumentV, Seq<char>>
    decreases left,
{
    match xml_read(text, i) {
        XmlRead::Failed(m) => Err(m),
        XmlRead::Eof => finish_spec(ns, st),
        _ => if left == 0 {
            Err("the XML parser reports more events than the text has bytes"@)
        } else {
            match cim_step(text, total, i, ns, st) {
                Ok((ns2, st2)) => cim_events(text, total, i + 1, (left - 1) as nat, ns2, st2),
                Err(e) => Err(e),
            }
        },
    }
}

/// The CIMXML reading of `text`: [`CimReader`]'s steps over quick-xml's
/// reads of the text, from the first to the end of the text.
pub open spec fn cim_read(text: Seq<char>) -> Result<CimDocumentV, Seq<char>> {
    let total = encode_utf8(text).len();
    cim_events(text, total, 0, total, Seq::empty(), start_state())
}

/// Parse one CIMXML instance file into its header and object soup: the
/// result is [`cim_read`] of the text. A successful read names its CIM
/// namespaces in order and never mixes the CIM16 and CIM100 schemas.
pub fn parse_cimxml(text: &str) -> (r: Result<CimDocument, String>)
    ensures
        match r {
            Ok(d) => cim_read(text@) == Ok::<CimDocumentV, Seq<char>>(d@),
            Err(e) => cim_read(text@) == Err::<CimDocumentV, Seq<char>>(e@),
        },
        r matches Ok(d) ==> sorted_names(d@.cim_namespaces) && !mixes_schemas(d@.cim_namespaces),
{
    let mut p = open_pull(text);
    let mut st = CimReader::new();
    let total = text.as_bytes().len();
    let mut left = total;
    loop
        invariant
            p.text@ == text@,
            total as nat == encode_utf8(text@).len(),
            sorted_names(st.namespaces()),
            st@.depth + left <= total,
            cim_events(text@, total as nat, p.count@, left as nat, st.namespaces(), st@) == cim_read(text@),
        decreases left,
    {
        let ghost i = p.count@;
        let ghost ns0 = st.namespaces();
        let ghost s0 = st@;
        let tok = match read_resolved(&mut p) {
            Ok(t) => t,
            Err(m) => {
                return Err(m);
            },
        };
        let event = classify(tok);
        if let XmlEvent::Eof = event {
            return st.finish();
        }
        if left == 0 {
            let m = chars_of("the XML parser reports more events than the text has bytes");
            return Err(string_of(&m));
        }
        left = left - 1;
        match event {
            XmlEvent::Start(ns, tag) => {
                let local = local_name(&tag);
                let name = prefixed_name(&ns, local.as_slice(), &mut st.cim_namespaces);
                proof {
                    lemma_ns_with(ns0, cim_namespace(opt_bytes(ns)), st.namespaces());
                }
                let (attrs, failure) = read_attributes(&p, &tag, total);
                if let Err(e) = st.start(name, &attrs, &failure) {
                    return Err(e);
                }
            },
            XmlEvent::Empty(ns, tag) => {
                let local = local_name(&tag);
                let name = prefixed_name(&ns, local.as_slice(), &mut st.cim_namespaces);
                proof {
                    lemma_ns_with(ns0, cim_namespace(opt_bytes(ns)), st.namespaces());
                }
                let (attrs, failure) = read_attributes(&p, &tag, total);
                if let Err(e) = st.empty(name, &attrs, &failure) {
                    return Err(e);
                }
            },
            XmlEvent::Text(t) => {
                if st.wants_text() {
                    match text_content(&t) {
                        Ok(s) => st.text(s.as_str()),
                        Err(e) => {
                            return Err(e);
                        },
                    }
                }
            },
            XmlEvent::CData(t) => {
                if st.wants_text() {
                    match cdata_content(&t) {
                        Ok(s) => st.text(s.as_str()),
                        Err(e) => {
                            return Err(e);
                        },
                    }
                }
            },
            XmlEvent::Reference(r) => {
                if st.wants_text() {
                    match resolve_reference(&r) {
                        Some(s) => st.text(s.as_str()),
                        None => {
                            let m = chars_of("CGMES XML contains an undeclared or external entity reference");
                            return Err(string_of(&m));
                        },
                    }
                }
            },
            XmlEvent::DocType => {
                let m = chars_of("CGMES XML must not contain a DTD");
                return Err(string_of(&m));
            },
            XmlEvent::End => {
                st.end();
            },
            XmlEvent::Other => {},
            XmlEvent::Eof => {},
        }
    }
}


/// `generated CGMES file `<file>` <what>: <detail>`.
pub open spec fn failure_text(file: Seq<char>, what: Seq<char>, detail: Seq<char>) -> Seq<char> {
    "generated CGMES file `"@ + file + "` "@ + what + ": "@ + detail
}

/// `generated CGMES file `<file>` <what>: <detail>`.
fn file_error(file: &str, what: &str, detail: &str) -> (r: String)
    ensures
        r@ == failure_text(file@, what@, detail@),
{
    let mut m: Vec<char> = Vec::new();
    push_str(&mut m, "generated CGMES file `");
    push_str(&mut m, file);
    push_str(&mut m, "` ");
    push_str(&mut m, what);
    push_str(&mut m, ": ");
    push_str(&mut m, detail);
    proof {
        assert(m@ == failure_text(file@, what@, detail@));
    }
    string_of(&m)
}

/// Whether a tag named `local` in the namespace `n` is `md:FullModel`, and
/// whether it is `md:Model.DependentOn`.
pub open spec fn tag_flags(n: Option<Seq<u8>>, local: Seq<u8>) -> (bool, bool) {
    let model = n == Some(encode_utf8("http://iec.ch/TC57/61970-552/ModelDescription/1#"@));
    (model && local == encode_utf8("FullModel"@), model && local == encode_utf8("Model.DependentOn"@))
}

/// The RDF attributes of the tag of read `i` of `text`, from attribute
/// step `j` on, read into the graph `g`; `full_model` and `dependency` say
/// what the tag is. Every attribute takes at least one byte of the text, so
/// at most `left` more are read.
pub open spec fn element_read(
    text: Seq<char>,
    file: Seq<char>,
    i: nat,
    j: nat,
    left: nat,
    full_model: bool,
    dependency: bool,
    g: RdfGraphV,
) -> Result<RdfGraphV, Seq<char>>
    decreases left,
{
    match xml_attr_next(text, i, j) {
        None => Ok(g),
        Some(Err(m)) => Err(failure_text(file, "has an invalid XML attribute"@, m)),
        Some(Ok(_)) => if left == 0 {
            Err(failure_text(file, "has an invalid XML attribute"@, "more attributes than bytes"@))
        } else {
            let a = attr_at(text, i, j);
            if a.ns == Some(rdf_ns()) {
                match xml_unescaped(text, a.value) {
                    Ok(v) => match attribute_spec(g, file, full_model, dependency, a.local, v) {
                        Ok(g2) => element_read(text, file, i, j + 1, (left - 1) as nat, full_model, dependency, g2),
                        Err(e) => Err(e),
                    },
                    Err(m) => Err(failure_text(file, "has an invalid RDF attribute value"@, m)),
                }
            } else {
                element_read(text, file, i, j + 1, (left - 1) as nat, full_model, dependency, g)
            }
        },
    }
}

/// The RDF attributes of one element of `file` into the graph.
fn graph_element(
    g: &mut RdfGraph,
    p: &XmlPull,
    file: &str,
    ns: &Option<Vec<u8>>,
    tag: &Tagged<BytesStart>,
    budget: usize,
) -> (r: Result<(), String>)
    requires
        graph_wf(old(g)@),
        p.text == tag.text,
        p.count@ == tag.index@ + 1,
    ensures
        graph_wf(final(g)@),
        ({
            let (full_model, dependency) = tag_flags(opt_bytes(*ns), xml_local(tag.text@, tag.index@));
            let res = element_read(tag.text@, file@, tag.index@, 0, budget as nat, full_model, dependency, old(g)@);
            match r {
                Ok(_) => res == Ok::<RdfGraphV, Seq<char>>(final(g)@),
                Err(e) => res == Err::<RdfGraphV, Seq<char>>(e@),
            }
        }),
{
    let ghost text = tag.text@;
    let ghost i = tag.index@;
    let model = match ns {
        Some(b) => bytes_eq(b.as_slice(), "http://iec.ch/TC57/61970-552/ModelDescription/1#".as_bytes()),
        None => false,
    };
    let local = local_name(tag);
    let full_model = model && bytes_eq(local.as_slice(), "FullModel".as_bytes());
    let dependency = model && bytes_eq(local.as_slice(), "Model.DependentOn".as_bytes());
    assert((full_model, dependency) == tag_flags(opt_bytes(*ns), xml_local(text, i)));
    let ghost whole = element_read(text, file@, i, 0, budget as nat, full_model, dependency, g@);
    let mut it = attributes_of(tag);
    let mut left = budget;
    loop
        invariant
            it.text == tag.text,
            it.index == tag.index,
            p.text == tag.text,
            p.count@ == tag.index@ + 1,
            text == tag.text@,
            i == tag.index@,
            graph_wf(g@),
            (full_model, dependency) == tag_flags(opt_bytes(*ns), xml_local(text, i)),
            whole == element_read(text, file@, i, 0, budget as nat, full_model, dependency, old(g)@),
            whole == element_read(text, file@, i, it.pos@, left as nat, full_model, dependency, g@),
        decreases left,
    {
        let ghost j = it.pos@;
        match next_attribute(&mut it) {
            None => {
                return Ok(());
            },
            Some(Err(e)) => {
                return Err(file_error(file, "has an invalid XML attribute", e.as_str()));
            },
            Some(Ok(a)) => {
                if left == 0 {
                    return Err(file_error(file, "has an invalid XML attribute", "more attributes than bytes"));
                }
                left = left - 1;
                let x = resolve_attribute(p, &a);
                assert(x@ == attr_at(text, i, j));
                let rdf = match &x.ns {
                    Some(b) => bytes_eq(b.as_slice(), "http://www.w3.org/1999/02/22-rdf-syntax-ns#".as_bytes()),
                    None => false,
                };
                assert(rdf == (x@.ns == Some(rdf_ns())));
                if rdf {
                    match decoded_value(p, &a) {
                        Ok(v) => {
                            let res = g.attribute(file, full_model, dependency, x.local.as_slice(), v.as_str());
                            if let Err(e) = res {
                                return Err(e);
                            }
                        },
                        Err(e) => {
                            return Err(file_error(file, "has an invalid RDF attribute value", e.as_str()));
                        },
                    }
                }
            },
        }
    }
}

/// The RDF attributes of `text`, the document `file`, from read `i` on,
/// into the graph `g`. Every event before the end of the text takes at
/// least one byte of it, so at most `left` more are read.
pub open spec fn file_events(text: Seq<char>, file: Seq<char>, total: nat, i: nat, left: nat, g: RdfGraphV) -> Result<
    RdfGraphV,
    Seq<char>,
>
    decreases left,
{
    match xml_read(text, i) {
        XmlRead::Failed(m) => Err(failure_text(file, "is not valid XML during RDF graph validation"@, m)),
        XmlRead::Eof => Ok(g),
        k => if left == 0 {
            Err(failure_text(file, "is not valid XML during RDF graph validation"@, "more events than bytes"@))
        } else {
            match k {
                XmlRead::Start(n) => {
                    let (full_model, dependency) = tag_flags(n, xml_local(text, i));
                    match element_read(text, file, i, 0, total, full_model, dependency, g) {
                        Ok(g2) => file_events(text, file, total, i + 1, (left - 1) as nat, g2),
                        Err(e) => Err(e),
                    }
                },
                XmlRead::Empty(n) => {
                    let (full_model, dependency) = tag_flags(n, xml_local(text, i));
                    match element_read(text, file, i, 0, total, full_model, dependency, g) {
                        Ok(g2) => file_events(text, file, total, i + 1, (left - 1) as nat, g2),
                        Err(e) => Err(e),
                    }
                },
                XmlRead::DocType => Err("generated CGMES file `"@ + file + "` contains a DTD"@),
                _ => file_events(text, file, total, i + 1, (left - 1) as nat, g),
            }
        },
    }
}

/// The RDF attributes of the document `file`, whose text is `text`, read
/// into the graph `g` in the order quick-xml reads them.
pub open spec fn file_read(g: RdfGraphV, file: Seq<char>, text: Seq<char>) -> Result<RdfGraphV, Seq<char>> {
    let total = encode_utf8(text).len();
    file_events(text, file, total, 0, total, g)
}

/// The `(file_name, xml)` documents `files` read into the graph `g` in
/// turn; or the failure of the first that fails.
pub open spec fn files_read(g: RdfGraphV, files: Seq<(String, String)>) -> Result<RdfGraphV, Seq<char>>
    decreases files.len(),
{
    if files.len() == 0 {
        Ok(g)
    } else {
        match file_read(g, files[0].0@, files[0].1@) {
            Ok(g1) => files_read(g1, files.drop_first()),
            Err(e) => Err(e),
        }
    }
}

/// The definitions and references of one file into the graph.
fn graph_file(g: &mut RdfGraph, file: &str, xml: &str) -> (r: Result<(), String>)
    requires
        graph_wf(old(g)@),
    ensures
        graph_wf(final(g)@),
        match r {
            Ok(_) => file_read(old(g)@, file@, xml@) == Ok::<RdfGraphV, Seq<char>>(final(g)@),
            Err(e) => file_read(old(g)@, file@, xml@) == Err::<RdfGraphV, Seq<char>>(e@),
        },
{
    let mut p = open_pull(xml);
    let total = xml.as_bytes().len();
    let mut left = total;
    loop
        invariant
            p.text@ == xml@,
            total as nat == encode_utf8(xml@).len(),
            graph_wf(g@),
            file_events(xml@, file@, total as nat, p.count@, left as nat, g@) == file_read(old(g)@, file@, xml@),
        decreases left,
    {
        let event = match read_resolved(&mut p) {
            Ok(t) => classify(t),
            Err(m) => {
                return Err(file_error(file, "is not valid XML during RDF graph validation", m.as_str()));
            },
        };
        if let XmlEvent::Eof = event {
            return Ok(());
        }
        if left == 0 {
            return Err(
                file_error(file, "is not valid XML during RDF graph validation", "more events than bytes"),
            );
        }
        left = left - 1;
        match event {
            XmlEvent::Start(ns, tag) => {
                let res = graph_element(g, &p, file, &ns, &tag, total);
                if let Err(e) = res {
                    return Err(e);
                }
            },
            XmlEvent::Empty(ns, tag) => {
                let res = graph_element(g, &p, file, &ns, &tag, total);
                if let Err(e) = res {
                    return Err(e);
                }
            },
            XmlEvent::DocType => {
                let mut m: Vec<char> = Vec::new();
                push_str(&mut m, "generated CGMES file `");
                push_str(&mut m, file);
                push_str(&mut m, "` contains a DTD");
                return Err(string_of(&m));
            },
            _ => {},
        }
    }
}

/// The RDF graph of `(file_name, xml)` documents: the graph that the
/// RDF attributes of the files make, read in turn ([`files_read`]); with
/// no file, the empty graph. A failure is the first file's own (XML that
/// cannot be read, a DTD) or the graph's (an identifier defined twice or
/// malformed).
pub fn rdf_graph(files: &Vec<(String, String)>) -> (r: Result<RdfGraph, String>)
    ensures
        match r {
            Ok(g) => graph_wf(g@) && files_read(empty_graph(), files@) == Ok::<RdfGraphV, Seq<char>>(g@),
            Err(e) => files_read(empty_graph(), files@) == Err::<RdfGraphV, Seq<char>>(e@),
        },
{
    let mut g = RdfGraph::new();
    let mut f: usize = 0;
    assert(files@.skip(0) =~= files@);
    while f < files.len()
        invariant
            f <= files@.len(),
            graph_wf(g@),
            files_read(empty_graph(), files@) == files_read(g@, files@.skip(f as int)),
        decreases files@.len() - f,
    {
        let ghost rest = files@.skip(f as int);
        assert(rest[0] == files@[f as int]);
        assert(rest.drop_first() =~= files@.skip(f + 1));
        let res = graph_file(&mut g, files[f].0.as_str(), files[f].1.as_str());
        if let Err(e) = res {
            return Err(e);
        }
        f = f + 1;
    }
    assert(files@.skip(f as int).len() == 0);
    Ok(g)
}

/// Check a set of written CGMES documents: every `rdf:ID` and model uuid
/// is defined once, and every object reference and model dependency names
/// a definition. The answer is that of [`check_spec`] on the graph the
/// files make ([`files_read`]), or the failure to make it; a success means
/// that graph has no dangling reference.
pub fn validate_rdf_graph(files: &Vec<(String, String)>) -> (r: Result<(), String>)
    ensures
        match r {
            Ok(_) => files_read(empty_graph(), files@) matches Ok(g) && check_spec(g) is Ok && references_resolve(g),
            Err(e) => match files_read(empty_graph(), files@) {
                Ok(g) => check_spec(g) == Err::<(), Seq<char>>(e@),
                Err(f) => f == e@,
            },
        },
{
    match rdf_graph(files) {
        Ok(g) => {
            let r = g.check();
            proof {
                law_a_checked_graph_has_no_dangling_reference(g@);
            }
            r
        },
        Err(e) => Err(e),
    }
}

} // verus!
