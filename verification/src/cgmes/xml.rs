//! The CIMXML (IEC 61970-552) subset CGMES instance files use.
//!
//! One document is an `rdf:RDF` element holding an optional `md:FullModel`
//! header plus flat object elements. An object element's name is its CIM
//! class; `rdf:ID="_<uuid>"` defines an object, `rdf:about="#_<uuid>"` (or
//! `urn:uuid:<uuid>`) extends one defined elsewhere. Children are either text
//! properties or `rdf:resource` references; enum values are references whose
//! fragment is `EnumClass.value`. Forward references are legal, so the reader
//! resolves nothing: it returns the raw object soup.
//!
//! [`CimReader`] holds what the element events have built so far and takes
//! one event at a time, its names and attributes already resolved to plain
//! values; [`super::pull`] drives it from quick-xml's namespace-aware pull
//! parser.

use vstd::prelude::*;
use vstd::utf8::encode_utf8;

use super::{normalize_id, normalized_id};
use crate::text::{
    chars_eq, chars_of, has_infix, insert_sorted, join, lossy_utf8, push_chars, push_str, range_contains,
    sorted_names, string_of, trim, trim_bounds, utf8_lossy, views,
};

verus! {

broadcast use vstd::string::group_string_axioms;

/// A property value: literal text, or the normalized target of an
/// `rdf:resource` (an object id, or an `EnumClass.value` fragment).
#[derive(Debug, PartialEq)]
pub enum PropValue {
    Text(String),
    Ref(String),
}

pub enum PropValueV {
    Text(Seq<char>),
    Ref(Seq<char>),
}

impl PropValueV {
    pub open spec fn text(self) -> Seq<char> {
        match self {
            PropValueV::Text(s) => s,
            PropValueV::Ref(s) => s,
        }
    }
}

impl View for PropValue {
    type V = PropValueV;

    open spec fn view(&self) -> PropValueV {
        match self {
            PropValue::Text(s) => PropValueV::Text(s@),
            PropValue::Ref(s) => PropValueV::Ref(s@),
        }
    }
}

impl PropValue {
    /// The text, or the reference target.
    pub fn as_str(&self) -> (r: &str)
        ensures
            r@ == self@.text(),
    {
        match self {
            PropValue::Text(s) => s.as_str(),
            PropValue::Ref(s) => s.as_str(),
        }
    }
}

pub open spec fn prop_views(p: Seq<(String, PropValue)>) -> Seq<(Seq<char>, PropValueV)> {
    p.map_values(|x: (String, PropValue)| (x.0@, x.1@))
}

pub open spec fn opt_view(o: Option<String>) -> Option<Seq<char>> {
    match o {
        Some(s) => Some(s@),
        None => None,
    }
}

/// One object element: class name (`eu:`/`entsoe:`-prefixed when not in the
/// `cim` namespace), normalized id, whether it was an `rdf:ID` definition
/// rather than an `rdf:about` extension, and its properties in document
/// order.
#[derive(Debug)]
pub struct CimObject {
    pub class: String,
    pub id: String,
    pub definition: bool,
    pub props: Vec<(String, PropValue)>,
}

#[verifier::ext_equal]
pub struct CimObjectV {
    pub class: Seq<char>,
    pub id: Seq<char>,
    pub definition: bool,
    pub props: Seq<(Seq<char>, PropValueV)>,
}

impl View for CimObject {
    type V = CimObjectV;

    open spec fn view(&self) -> CimObjectV {
        CimObjectV { class: self.class@, id: self.id@, definition: self.definition, props: prop_views(self.props@) }
    }
}

pub open spec fn object_views(s: Seq<CimObject>) -> Seq<CimObjectV> {
    s.map_values(|o: CimObject| o@)
}

pub open spec fn opt_object_view(o: Option<CimObject>) -> Option<CimObjectV> {
    match o {
        Some(x) => Some(x@),
        None => None,
    }
}

/// The `md:FullModel` header: the model uuid and its profile URIs (the
/// file's role in the set), the description the network name can come
/// from, and what else the header states.
#[derive(Debug)]
pub struct ModelHeader {
    pub identity: Option<String>,
    pub profiles: Vec<String>,
    pub modeling_authority_set: Option<String>,
    pub description: Option<String>,
    pub scenario_time: Option<String>,
    pub created: Option<String>,
    pub version: Option<String>,
    pub dependent_on: Vec<String>,
    pub unmapped_properties: Vec<(String, PropValue)>,
    pub nested_properties: Vec<String>,
}

#[verifier::ext_equal]
pub struct ModelHeaderV {
    pub identity: Option<Seq<char>>,
    pub profiles: Seq<Seq<char>>,
    pub modeling_authority_set: Option<Seq<char>>,
    pub description: Option<Seq<char>>,
    pub scenario_time: Option<Seq<char>>,
    pub created: Option<Seq<char>>,
    pub version: Option<Seq<char>>,
    pub dependent_on: Seq<Seq<char>>,
    pub unmapped_properties: Seq<(Seq<char>, PropValueV)>,
    pub nested_properties: Seq<Seq<char>>,
}

impl View for ModelHeader {
    type V = ModelHeaderV;

    open spec fn view(&self) -> ModelHeaderV {
        ModelHeaderV {
            identity: opt_view(self.identity),
            profiles: views(self.profiles@),
            modeling_authority_set: opt_view(self.modeling_authority_set),
            description: opt_view(self.description),
            scenario_time: opt_view(self.scenario_time),
            created: opt_view(self.created),
            version: opt_view(self.version),
            dependent_on: views(self.dependent_on@),
            unmapped_properties: prop_views(self.unmapped_properties@),
            nested_properties: views(self.nested_properties@),
        }
    }
}

pub open spec fn opt_header_view(o: Option<ModelHeader>) -> Option<ModelHeaderV> {
    match o {
        Some(x) => Some(x@),
        None => None,
    }
}

/// A header that states nothing yet.
pub open spec fn empty_header() -> ModelHeaderV {
    ModelHeaderV {
        identity: None,
        profiles: Seq::empty(),
        modeling_authority_set: None,
        description: None,
        scenario_time: None,
        created: None,
        version: None,
        dependent_on: Seq::empty(),
        unmapped_properties: Seq::empty(),
        nested_properties: Seq::empty(),
    }
}

impl ModelHeader {
    pub fn new() -> (r: Self)
        ensures
            r@ == empty_header(),
    {
        let r = ModelHeader {
            identity: None,
            profiles: Vec::new(),
            modeling_authority_set: None,
            description: None,
            scenario_time: None,
            created: None,
            version: None,
            dependent_on: Vec::new(),
            unmapped_properties: Vec::new(),
            nested_properties: Vec::new(),
        };
        assert(r@ =~= empty_header());
        r
    }
}

/// A header property recorded: the `md:Model.*` fields it names, anything
/// else kept as stated.
pub open spec fn header_with(h: ModelHeaderV, prop: Seq<char>, value: PropValueV) -> ModelHeaderV {
    let v = value.text();
    if prop == "md:Model.profile"@ {
        ModelHeaderV { profiles: h.profiles.push(v), ..h }
    } else if prop == "md:Model.modelingAuthoritySet"@ {
        ModelHeaderV { modeling_authority_set: Some(v), ..h }
    } else if prop == "md:Model.description"@ {
        ModelHeaderV { description: Some(v), ..h }
    } else if prop == "md:Model.scenarioTime"@ {
        ModelHeaderV { scenario_time: Some(v), ..h }
    } else if prop == "md:Model.created"@ {
        ModelHeaderV { created: Some(v), ..h }
    } else if prop == "md:Model.version"@ {
        ModelHeaderV { version: Some(v), ..h }
    } else if prop == "md:Model.DependentOn"@ {
        ModelHeaderV { dependent_on: h.dependent_on.push(v), ..h }
    } else {
        ModelHeaderV { unmapped_properties: h.unmapped_properties.push((prop, value)), ..h }
    }
}

/// Recording a header property: each `md:Model.*` field property sets (or,
/// for profiles and dependencies, appends) the field it names with the
/// value's text and leaves every other field, the unmapped properties
/// included, as it was; any other property is appended to the unmapped
/// properties as stated and leaves every field as it was.
pub proof fn law_header_fields_take_their_properties(h: ModelHeaderV, prop: Seq<char>, value: PropValueV)
    ensures
        ({
            let r = header_with(h, prop, value);
            let v = value.text();
            &&& prop == "md:Model.scenarioTime"@ ==> r == ModelHeaderV { scenario_time: Some(v), ..h }
            &&& prop == "md:Model.created"@ ==> r == ModelHeaderV { created: Some(v), ..h }
            &&& prop == "md:Model.version"@ ==> r == ModelHeaderV { version: Some(v), ..h }
            &&& prop == "md:Model.description"@ ==> r == ModelHeaderV { description: Some(v), ..h }
            &&& prop == "md:Model.modelingAuthoritySet"@ ==> r == ModelHeaderV { modeling_authority_set: Some(v), ..h }
            &&& prop == "md:Model.profile"@ ==> r == ModelHeaderV { profiles: h.profiles.push(v), ..h }
            &&& prop == "md:Model.DependentOn"@ ==> r == ModelHeaderV { dependent_on: h.dependent_on.push(v), ..h }
            &&& (prop != "md:Model.scenarioTime"@ && prop != "md:Model.created"@ && prop != "md:Model.version"@
                && prop != "md:Model.description"@ && prop != "md:Model.modelingAuthoritySet"@ && prop
                != "md:Model.profile"@ && prop != "md:Model.DependentOn"@) ==> r == ModelHeaderV {
                unmapped_properties: h.unmapped_properties.push((prop, value)),
                ..h
            }
        }),
{
    lemma_header_names_differ();
}

/// The seven `md:Model.*` field names are distinct.
proof fn lemma_header_names_differ()
    ensures
        "md:Model.profile"@ != "md:Model.modelingAuthoritySet"@,
        "md:Model.profile"@ != "md:Model.description"@,
        "md:Model.profile"@ != "md:Model.scenarioTime"@,
        "md:Model.profile"@ != "md:Model.created"@,
        "md:Model.profile"@ != "md:Model.version"@,
        "md:Model.profile"@ != "md:Model.DependentOn"@,
        "md:Model.modelingAuthoritySet"@ != "md:Model.description"@,
        "md:Model.modelingAuthoritySet"@ != "md:Model.scenarioTime"@,
        "md:Model.modelingAuthoritySet"@ != "md:Model.created"@,
        "md:Model.modelingAuthoritySet"@ != "md:Model.version"@,
        "md:Model.modelingAuthoritySet"@ != "md:Model.DependentOn"@,
        "md:Model.description"@ != "md:Model.scenarioTime"@,
        "md:Model.description"@ != "md:Model.created"@,
        "md:Model.description"@ != "md:Model.version"@,
        "md:Model.description"@ != "md:Model.DependentOn"@,
        "md:Model.scenarioTime"@ != "md:Model.created"@,
        "md:Model.scenarioTime"@ != "md:Model.version"@,
        "md:Model.scenarioTime"@ != "md:Model.DependentOn"@,
        "md:Model.created"@ != "md:Model.version"@,
        "md:Model.created"@ != "md:Model.DependentOn"@,
        "md:Model.version"@ != "md:Model.DependentOn"@,
{
    reveal_strlit("md:Model.scenarioTime");
    reveal_strlit("md:Model.created");
    reveal_strlit("md:Model.version");
    reveal_strlit("md:Model.description");
    reveal_strlit("md:Model.modelingAuthoritySet");
    reveal_strlit("md:Model.profile");
    reveal_strlit("md:Model.DependentOn");
    assert("md:Model.profile"@.len() == 16);
    assert("md:Model.modelingAuthoritySet"@.len() == 29);
    assert("md:Model.description"@.len() == 20);
    assert("md:Model.scenarioTime"@.len() == 21);
    assert("md:Model.created"@.len() == 16);
    assert("md:Model.version"@.len() == 16);
    assert("md:Model.DependentOn"@.len() == 20);
    assert("md:Model.profile"@[9] != "md:Model.created"@[9]);
    assert("md:Model.profile"@[9] != "md:Model.version"@[9]);
    assert("md:Model.created"@[9] != "md:Model.version"@[9]);
    assert("md:Model.description"@[9] != "md:Model.DependentOn"@[9]);
}

fn copy_str(s: &str) -> (r: String)
    ensures
        r@ == s@,
{
    let cs = chars_of(s);
    string_of(&cs)
}

impl ModelHeader {
    /// Record a header property.
    pub fn record(&mut self, prop: String, value: PropValue)
        ensures
            final(self)@ == header_with(old(self)@, prop@, value@),
            prop@ == "md:Model.scenarioTime"@ ==> final(self)@.scenario_time == Some(value@.text())
                && final(self)@.unmapped_properties == old(self)@.unmapped_properties,
    {
        let ghost h = self@;
        let ghost pv = prop@;
        let ghost vv = value@;
        proof {
            lemma_header_names_differ();
        }
        let p = chars_of(prop.as_str());
        let v = copy_str(value.as_str());
        if chars_eq(&p, &chars_of("md:Model.profile")) {
            self.profiles.push(v);
            assert(views(self.profiles@) =~= h.profiles.push(vv.text()));
        } else if chars_eq(&p, &chars_of("md:Model.modelingAuthoritySet")) {
            self.modeling_authority_set = Some(v);
        } else if chars_eq(&p, &chars_of("md:Model.description")) {
            self.description = Some(v);
        } else if chars_eq(&p, &chars_of("md:Model.scenarioTime")) {
            self.scenario_time = Some(v);
        } else if chars_eq(&p, &chars_of("md:Model.created")) {
            self.created = Some(v);
        } else if chars_eq(&p, &chars_of("md:Model.version")) {
            self.version = Some(v);
        } else if chars_eq(&p, &chars_of("md:Model.DependentOn")) {
            self.dependent_on.push(v);
            assert(views(self.dependent_on@) =~= h.dependent_on.push(vv.text()));
        } else {
            self.unmapped_properties.push((prop, value));
            assert(prop_views(self.unmapped_properties@) =~= h.unmapped_properties.push((pv, vv)));
        }
        assert(self@ =~= header_with(h, pv, vv));
    }
}


/// An attribute with its name resolved: the namespace it is bound to, if
/// any, its local name, and its raw value.
pub struct XmlAttr {
    pub ns: Option<Vec<u8>>,
    pub local: Vec<u8>,
    pub value: Vec<u8>,
}

pub struct XmlAttrV {
    pub ns: Option<Seq<u8>>,
    pub local: Seq<u8>,
    pub value: Seq<u8>,
}

pub open spec fn opt_bytes(o: Option<Vec<u8>>) -> Option<Seq<u8>> {
    match o {
        Some(b) => Some(b@),
        None => None,
    }
}

impl View for XmlAttr {
    type V = XmlAttrV;

    open spec fn view(&self) -> XmlAttrV {
        XmlAttrV { ns: opt_bytes(self.ns), local: self.local@, value: self.value@ }
    }
}

pub open spec fn attr_views(s: Seq<XmlAttr>) -> Seq<XmlAttrV> {
    s.map_values(|a: XmlAttr| a@)
}

/// The bytes of the RDF namespace URI.
pub open spec fn rdf_ns() -> Seq<u8> {
    encode_utf8("http://www.w3.org/1999/02/22-rdf-syntax-ns#"@)
}

/// Whether `a` is the RDF attribute `local`, whatever prefix the file
/// binds the RDF namespace to.
pub open spec fn is_rdf_attr(a: XmlAttrV, local: Seq<char>) -> bool {
    a.ns == Some(rdf_ns()) && a.local == encode_utf8(local)
}

/// The identifier an attribute value names.
pub open spec fn attr_id(a: XmlAttrV) -> Seq<char> {
    normalized_id(lossy_utf8(a.value))
}

/// The first attribute from `k` on that is RDF attribute `l1` or `l2`.
pub open spec fn first_rdf(attrs: Seq<XmlAttrV>, l1: Seq<char>, l2: Seq<char>, k: int) -> Option<int>
    decreases attrs.len() - k,
{
    if k < 0 || k >= attrs.len() {
        None
    } else if is_rdf_attr(attrs[k], l1) || is_rdf_attr(attrs[k], l2) {
        Some(k)
    } else {
        first_rdf(attrs, l1, l2, k + 1)
    }
}

/// What an attribute search finds: the first match among the attributes
/// read, else the failure that stopped the reading, else nothing.
pub open spec fn search_spec(attrs: Seq<XmlAttrV>, failure: Option<Seq<char>>, l1: Seq<char>, l2: Seq<char>) -> Result<
    Option<Seq<char>>,
    Seq<char>,
> {
    match first_rdf(attrs, l1, l2, 0) {
        Some(i) => Ok(Some(attr_id(attrs[i]))),
        None => match failure {
            Some(e) => Err(e),
            None => Ok(None),
        },
    }
}

/// The identity `rdf:about` or `rdf:ID` gives.
pub open spec fn identity_spec(attrs: Seq<XmlAttrV>, failure: Option<Seq<char>>) -> Result<
    Option<Seq<char>>,
    Seq<char>,
> {
    search_spec(attrs, failure, "about"@, "ID"@)
}

/// The target `rdf:resource` names.
pub open spec fn resource_spec(attrs: Seq<XmlAttrV>, failure: Option<Seq<char>>) -> Result<
    Option<Seq<char>>,
    Seq<char>,
> {
    search_spec(attrs, failure, "resource"@, "resource"@)
}

/// The id the last `rdf:ID` or `rdf:about` among the first `n` gives.
pub open spec fn last_id(attrs: Seq<XmlAttrV>, n: int) -> Seq<char>
    decreases n,
{
    if n <= 0 {
        Seq::empty()
    } else if is_rdf_attr(attrs[n - 1], "ID"@) || is_rdf_attr(attrs[n - 1], "about"@) {
        attr_id(attrs[n - 1])
    } else {
        last_id(attrs, n - 1)
    }
}

/// Whether one of the first `n` attributes is `rdf:ID`.
pub open spec fn defines(attrs: Seq<XmlAttrV>, n: int) -> bool
    decreases n,
{
    if n <= 0 {
        false
    } else {
        is_rdf_attr(attrs[n - 1], "ID"@) || defines(attrs, n - 1)
    }
}

/// The object an element starts, before its properties; reading every
/// attribute, it fails on the first attribute that cannot be read.
pub open spec fn object_spec(attrs: Seq<XmlAttrV>, failure: Option<Seq<char>>, class: Seq<char>) -> Result<
    CimObjectV,
    Seq<char>,
> {
    match failure {
        Some(e) => Err(e),
        None => Ok(
            CimObjectV {
                class,
                id: last_id(attrs, attrs.len() as int),
                definition: defines(attrs, attrs.len() as int),
                props: Seq::empty(),
            },
        ),
    }
}

/// Whether two byte strings are equal.
pub fn bytes_eq(a: &[u8], b: &[u8]) -> (r: bool)
    ensures
        r == (a@ == b@),
{
    if a.len() != b.len() {
        return false;
    }
    let mut i: usize = 0;
    while i < a.len()
        invariant
            a@.len() == b@.len(),
            i <= a@.len(),
            forall|k: int| 0 <= k < i ==> a@[k] == b@[k],
        decreases a@.len() - i,
    {
        if a[i] != b[i] {
            return false;
        }
        i = i + 1;
    }
    assert(a@ =~= b@);
    true
}

fn rdf_attr(a: &XmlAttr, local: &str) -> (r: bool)
    ensures
        r == is_rdf_attr(a@, local@),
{
    match &a.ns {
        Some(ns) => bytes_eq(ns.as_slice(), "http://www.w3.org/1999/02/22-rdf-syntax-ns#".as_bytes()) && bytes_eq(
            a.local.as_slice(),
            local.as_bytes(),
        ),
        None => false,
    }
}

fn id_of(a: &XmlAttr) -> (r: String)
    ensures
        r@ == attr_id(a@),
{
    let raw = utf8_lossy(a.value.as_slice());
    normalize_id(raw.as_str())
}

fn search(attrs: &Vec<XmlAttr>, failure: &Option<String>, l1: &str, l2: &str) -> (r: Result<Option<String>, String>)
    ensures
        found_view(r) == search_spec(attr_views(attrs@), opt_view(*failure), l1@, l2@),
{
    let ghost av = attr_views(attrs@);
    let mut i: usize = 0;
    while i < attrs.len()
        invariant
            i <= attrs@.len(),
            av == attr_views(attrs@),
            first_rdf(av, l1@, l2@, 0) == first_rdf(av, l1@, l2@, i as int),
        decreases attrs@.len() - i,
    {
        assert(av[i as int] == attrs@[i as int]@);
        if rdf_attr(&attrs[i], l1) || rdf_attr(&attrs[i], l2) {
            return Ok(Some(id_of(&attrs[i])));
        }
        i = i + 1;
    }
    match failure {
        Some(e) => Err(copy_str(e.as_str())),
        None => Ok(None),
    }
}


pub open spec fn found_view(r: Result<Option<String>, String>) -> Result<Option<Seq<char>>, Seq<char>> {
    match r {
        Ok(o) => Ok(opt_view(o)),
        Err(e) => Err(e@),
    }
}

/// The identity `rdf:about` or `rdf:ID` gives an element.
pub fn identity(attrs: &Vec<XmlAttr>, failure: &Option<String>) -> (r: Result<Option<String>, String>)
    ensures
        found_view(r) == identity_spec(attr_views(attrs@), opt_view(*failure)),
{
    search(attrs, failure, "about", "ID")
}

/// The target `rdf:resource` names.
pub fn resource(attrs: &Vec<XmlAttr>, failure: &Option<String>) -> (r: Result<Option<String>, String>)
    ensures
        found_view(r) == resource_spec(attr_views(attrs@), opt_view(*failure)),
{
    search(attrs, failure, "resource", "resource")
}

/// The object an element starts, before its properties.
pub fn read_object(attrs: &Vec<XmlAttr>, failure: &Option<String>, class: String) -> (r: Result<CimObject, String>)
    ensures
        match r {
            Ok(o) => object_spec(attr_views(attrs@), opt_view(*failure), class@) == Ok::<CimObjectV, Seq<char>>(o@),
            Err(e) => object_spec(attr_views(attrs@), opt_view(*failure), class@) == Err::<CimObjectV, Seq<char>>(e@),
        },
{
    if let Some(e) = failure {
        return Err(copy_str(e.as_str()));
    }
    let ghost av = attr_views(attrs@);
    let mut id = String::new();
    let mut definition = false;
    let mut i: usize = 0;
    while i < attrs.len()
        invariant
            i <= attrs@.len(),
            av == attr_views(attrs@),
            id@ == last_id(av, i as int),
            definition == defines(av, i as int),
        decreases attrs@.len() - i,
    {
        assert(av[i as int] == attrs@[i as int]@);
        if rdf_attr(&attrs[i], "ID") {
            definition = true;
            id = id_of(&attrs[i]);
        } else if rdf_attr(&attrs[i], "about") {
            id = id_of(&attrs[i]);
        }
        i = i + 1;
    }
    let o = CimObject { class, id, definition, props: Vec::new() };
    assert(o@ =~= CimObjectV { class: o.class@, id: last_id(av, av.len() as int), definition, props: Seq::empty() });
    Ok(o)
}


/// Whether a namespace URI is a CIM schema namespace (CIM16 or CIM100).
pub open spec fn cim_uri(uri: Seq<char>) -> bool {
    has_infix(uri, "CIM-schema-cim"@) || has_infix(uri, "CIM100#"@)
}

pub open spec fn is_sep(c: char) -> bool {
    c == '#' || c == '/'
}

/// The length of `s[..n]` without its trailing `#` and `/`.
pub open spec fn kept_len(s: Seq<char>, n: int) -> int
    decreases n,
{
    if n <= 0 {
        0
    } else if is_sep(s[n - 1]) {
        kept_len(s, n - 1)
    } else {
        n
    }
}

/// The offset of the last `#` or `/` in `s[..n]`.
pub open spec fn last_sep(s: Seq<char>, n: int) -> Option<int>
    decreases n,
{
    if n <= 0 {
        None
    } else if is_sep(s[n - 1]) {
        Some(n - 1)
    } else {
        last_sep(s, n - 1)
    }
}

/// The last segment of a vendor namespace URI: the prefix its names get.
pub open spec fn uri_tag(uri: Seq<char>) -> Seq<char> {
    let t = uri.take(kept_len(uri, uri.len() as int));
    match last_sep(t, t.len() as int) {
        Some(i) => t.skip(i + 1),
        None => t,
    }
}

/// A class or property name with its namespace collapsed to the
/// conventional prefix: bare for `cim`, `md:`, `entsoe:`, `eu:` and `rdf:`
/// for the namespaces matched on their URI (not on the file's chosen prefix
/// letters), the URI's last segment for anything else.
pub open spec fn prefixed(ns: Option<Seq<u8>>, local: Seq<u8>) -> Seq<char> {
    let l = lossy_utf8(local);
    match ns {
        None => l,
        Some(b) => {
            let uri = lossy_utf8(b);
            if cim_uri(uri) {
                l
            } else if uri == "http://iec.ch/TC57/61970-552/ModelDescription/1#"@ {
                "md:"@ + l
            } else if has_infix(uri, "entsoe.eu"@) {
                "entsoe:"@ + l
            } else if has_infix(uri, "CIM100-European"@) {
                "eu:"@ + l
            } else if uri == "http://www.w3.org/1999/02/22-rdf-syntax-ns#"@ {
                "rdf:"@ + l
            } else {
                uri_tag(uri) + ":"@ + l
            }
        },
    }
}

/// The CIM namespace a name uses, if it uses one.
pub open spec fn cim_namespace(ns: Option<Seq<u8>>) -> Option<Seq<char>> {
    match ns {
        Some(b) => if cim_uri(lossy_utf8(b)) {
            Some(lossy_utf8(b))
        } else {
            None
        },
        None => None,
    }
}

fn uri_tag_of(uri: &Vec<char>) -> (r: Vec<char>)
    ensures
        r@ == uri_tag(uri@),
{
    let mut n = uri.len();
    while n > 0 && (uri[n - 1] == '#' || uri[n - 1] == '/')
        invariant
            n <= uri@.len(),
            kept_len(uri@, uri@.len() as int) == kept_len(uri@, n as int),
        decreases n,
    {
        n = n - 1;
    }
    let ghost t = uri@.take(n as int);
    assert(kept_len(uri@, n as int) == n);
    let mut j = n;
    while j > 0 && !(uri[j - 1] == '#' || uri[j - 1] == '/')
        invariant
            j <= n <= uri@.len(),
            t == uri@.take(n as int),
            last_sep(t, n as int) == last_sep(t, j as int),
        decreases j,
    {
        assert(t[j - 1] == uri@[j - 1]);
        j = j - 1;
    }
    if j > 0 {
        assert(t[j - 1] == uri@[j - 1]);
    }
    let mut out: Vec<char> = Vec::new();
    let mut k = j;
    while k < n
        invariant
            j <= k <= n <= uri@.len(),
            out@ == uri@.subrange(j as int, k as int),
        decreases n - k,
    {
        out.push(uri[k]);
        k = k + 1;
        assert(out@ =~= uri@.subrange(j as int, k as int));
    }
    assert(t.skip(j as int) =~= uri@.subrange(j as int, n as int));
    assert(j == 0 ==> t =~= uri@.subrange(0, n as int));
    out
}

/// The prefixed name of an element, recording the CIM namespace it uses.
pub fn prefixed_name(ns: &Option<Vec<u8>>, local: &[u8], cim_namespaces: &mut Vec<String>) -> (r: String)
    requires
        sorted_names(views(old(cim_namespaces)@)),
    ensures
        r@ == prefixed(opt_bytes(*ns), local@),
        sorted_names(views(final(cim_namespaces)@)),
        forall|x: Seq<char>|
            #[trigger] views(final(cim_namespaces)@).contains(x) <==> views(old(cim_namespaces)@).contains(x)
                || cim_namespace(opt_bytes(*ns)) == Some(x),
{
    let l = chars_of(utf8_lossy(local).as_str());
    match ns {
        None => string_of(&l),
        Some(b) => {
            let uri_s = utf8_lossy(b.as_slice());
            let uri = chars_of(uri_s.as_str());
            let n = uri.len();
            let mut out: Vec<char> = Vec::new();
            if range_contains(&uri, 0, n, "CIM-schema-cim") || range_contains(&uri, 0, n, "CIM100#") {
                proof {
                    assert(uri@.subrange(0, n as int) =~= uri@);
                }
                insert_sorted(cim_namespaces, uri_s);
                return string_of(&l);
            }
            proof {
                assert(uri@.subrange(0, n as int) =~= uri@);
            }
            if chars_eq(&uri, &chars_of("http://iec.ch/TC57/61970-552/ModelDescription/1#")) {
                push_str(&mut out, "md:");
            } else if range_contains(&uri, 0, n, "entsoe.eu") {
                push_str(&mut out, "entsoe:");
            } else if range_contains(&uri, 0, n, "CIM100-European") {
                push_str(&mut out, "eu:");
            } else if chars_eq(&uri, &chars_of("http://www.w3.org/1999/02/22-rdf-syntax-ns#")) {
                push_str(&mut out, "rdf:");
            } else {
                let tag = uri_tag_of(&uri);
                push_chars(&mut out, &tag);
                push_str(&mut out, ":");
            }
            push_chars(&mut out, &l);
            string_of(&out)
        },
    }
}


/// What the element events have built so far.
pub struct CimReader {
    /// Every CIM namespace a class or property used, in order.
    pub cim_namespaces: Vec<String>,
    pub header: Option<ModelHeader>,
    pub objects: Vec<CimObject>,
    /// The object element open at depth 2.
    pub current: Option<CimObject>,
    /// The property element open at depth 3; empty once a reference has
    /// stated its value.
    pub current_prop: Option<String>,
    pub prop_text: Vec<char>,
    pub in_header: bool,
    /// Whether the open header property holds elements of its own.
    pub nested: bool,
    pub depth: usize,
}

#[verifier::ext_equal]
pub struct CimReaderV {
    pub header: Option<ModelHeaderV>,
    pub objects: Seq<CimObjectV>,
    pub current: Option<CimObjectV>,
    pub current_prop: Option<Seq<char>>,
    pub prop_text: Seq<char>,
    pub in_header: bool,
    pub nested: bool,
    pub depth: usize,
}

impl View for CimReader {
    type V = CimReaderV;

    open spec fn view(&self) -> CimReaderV {
        CimReaderV {
            header: opt_header_view(self.header),
            objects: object_views(self.objects@),
            current: opt_object_view(self.current),
            current_prop: opt_view(self.current_prop),
            prop_text: self.prop_text@,
            in_header: self.in_header,
            nested: self.nested,
            depth: self.depth,
        }
    }
}

impl CimReader {
    /// The namespaces recorded so far.
    pub open spec fn namespaces(&self) -> Seq<Seq<char>> {
        views(self.cim_namespaces@)
    }
}

/// Before the first event.
pub open spec fn start_state() -> CimReaderV {
    CimReaderV {
        header: None,
        objects: Seq::empty(),
        current: None,
        current_prop: None,
        prop_text: Seq::empty(),
        in_header: false,
        nested: false,
        depth: 0,
    }
}

/// A property recorded on the header while it is open, else on the open
/// object; with neither open it is dropped.
pub open spec fn push_prop_spec(st: CimReaderV, prop: Seq<char>, value: PropValueV) -> CimReaderV {
    if st.in_header {
        match st.header {
            Some(h) => CimReaderV { header: Some(header_with(h, prop, value)), ..st },
            None => st,
        }
    } else {
        match st.current {
            Some(o) => CimReaderV { current: Some(CimObjectV { props: o.props.push((prop, value)), ..o }), ..st },
            None => st,
        }
    }
}

pub open spec fn header_or_empty(h: Option<ModelHeaderV>) -> ModelHeaderV {
    match h {
        Some(x) => x,
        None => empty_header(),
    }
}

/// Whether the open property collects text: it is a plain property, not a
/// reference already stated, and holds no elements of its own.
pub open spec fn wants_text_spec(st: CimReaderV) -> bool {
    !st.nested && (st.current_prop matches Some(p) && p.len() > 0)
}

/// An element start tag, named and with its attributes read up to the
/// first that could not be read (`failure`).
pub open spec fn start_spec(st: CimReaderV, name: Seq<char>, attrs: Seq<XmlAttrV>, failure: Option<Seq<char>>) -> Result<
    CimReaderV,
    Seq<char>,
> {
    let d = st.depth + 1;
    let s1 = CimReaderV { depth: d as usize, ..st };
    if d == 1 && name != "rdf:RDF"@ {
        Err("top level element is `"@ + name + "`, not rdf:RDF"@)
    } else if d == 2 {
        if name == "md:FullModel"@ {
            match identity_spec(attrs, failure) {
                Ok(id) => Ok(
                    CimReaderV {
                        in_header: true,
                        header: Some(ModelHeaderV { identity: id, ..header_or_empty(st.header) }),
                        ..s1
                    },
                ),
                Err(e) => Err(e),
            }
        } else {
            match object_spec(attrs, failure, name) {
                Ok(o) => Ok(CimReaderV { current: Some(o), ..s1 }),
                Err(e) => Err(e),
            }
        }
    } else if d == 3 {
        let s2 = CimReaderV { current_prop: Some(name), prop_text: Seq::empty(), nested: false, ..s1 };
        match resource_spec(attrs, failure) {
            Ok(Some(v)) => Ok(
                CimReaderV { current_prop: Some(Seq::empty()), ..push_prop_spec(s2, name, PropValueV::Ref(v)) },
            ),
            Ok(None) => Ok(s2),
            Err(e) => Err(e),
        }
    } else if st.in_header && (st.current_prop matches Some(p) && p.len() > 0) {
        Ok(CimReaderV { nested: true, ..s1 })
    } else {
        Ok(s1)
    }
}

/// A self-closing element: an object or header with no properties at
/// depth 1, a property at depth 2.
pub open spec fn empty_spec(st: CimReaderV, name: Seq<char>, attrs: Seq<XmlAttrV>, failure: Option<Seq<char>>) -> Result<
    CimReaderV,
    Seq<char>,
> {
    if st.depth == 1 {
        if name == "md:FullModel"@ {
            match identity_spec(attrs, failure) {
                Ok(id) => Ok(CimReaderV { header: Some(ModelHeaderV { identity: id, ..header_or_empty(st.header) }), ..st }),
                Err(e) => Err(e),
            }
        } else {
            match object_spec(attrs, failure, name) {
                Ok(o) => Ok(CimReaderV { objects: st.objects.push(o), ..st }),
                Err(e) => Err(e),
            }
        }
    } else if st.depth == 2 {
        match resource_spec(attrs, failure) {
            Ok(Some(v)) => Ok(push_prop_spec(st, name, PropValueV::Ref(v))),
            Ok(None) => Ok(push_prop_spec(st, name, PropValueV::Text(Seq::empty()))),
            Err(e) => Err(e),
        }
    } else if st.depth >= 3 && st.in_header {
        Ok(CimReaderV { nested: true, ..st })
    } else {
        Ok(st)
    }
}

/// Text, CDATA, or a resolved reference inside an element.
pub open spec fn text_spec(st: CimReaderV, t: Seq<char>) -> CimReaderV {
    if wants_text_spec(st) {
        CimReaderV { prop_text: st.prop_text + t, ..st }
    } else {
        st
    }
}

/// An end tag: a property closes with its trimmed text (or, in the header,
/// as a nested property), an object closes into the list.
pub open spec fn end_spec(st: CimReaderV) -> CimReaderV {
    let s1 = if st.depth == 3 {
        let s0 = CimReaderV { current_prop: None, ..st };
        let s2 = match st.current_prop {
            Some(p) => if p.len() > 0 {
                if st.nested && st.in_header {
                    CimReaderV {
                        header: match st.header {
                            Some(h) => Some(ModelHeaderV { nested_properties: h.nested_properties.push(p), ..h }),
                            None => None,
                        },
                        prop_text: Seq::empty(),
                        ..s0
                    }
                } else {
                    push_prop_spec(CimReaderV { prop_text: Seq::empty(), ..s0 }, p, PropValueV::Text(trim(st.prop_text)))
                }
            } else {
                s0
            },
            None => s0,
        };
        CimReaderV { nested: false, ..s2 }
    } else if st.depth == 2 {
        match st.current {
            Some(o) => CimReaderV { in_header: false, objects: st.objects.push(o), current: None, ..st },
            None => CimReaderV { in_header: false, ..st },
        }
    } else {
        st
    };
    CimReaderV {
        depth: if st.depth > 0 {
            (st.depth - 1) as usize
        } else {
            0
        },
        ..s1
    }
}


impl CimReader {
    /// Before the first event.
    pub fn new() -> (r: Self)
        ensures
            r@ == start_state(),
            r.namespaces() == Seq::<Seq<char>>::empty(),
    {
        let r = CimReader {
            cim_namespaces: Vec::new(),
            header: None,
            objects: Vec::new(),
            current: None,
            current_prop: None,
            prop_text: Vec::new(),
            in_header: false,
            nested: false,
            depth: 0,
        };
        assert(r@ =~= start_state());
        assert(r.namespaces() =~= Seq::<Seq<char>>::empty());
        r
    }

    fn push_prop(&mut self, prop: String, value: PropValue)
        ensures
            final(self)@ == push_prop_spec(old(self)@, prop@, value@),
            final(self).cim_namespaces@ == old(self).cim_namespaces@,
    {
        let ghost st = self@;
        let ghost pv = prop@;
        let ghost vv = value@;
        if self.in_header {
            match &mut self.header {
                Some(h) => {
                    h.record(prop, value);
                },
                None => {},
            }
        } else {
            match &mut self.current {
                Some(o) => {
                    let ghost before = o.props@;
                    o.props.push((prop, value));
                    assert(prop_views(o.props@) =~= prop_views(before).push((pv, vv)));
                },
                None => {},
            }
        }
        assert(self@ =~= push_prop_spec(st, pv, vv));
    }
}


fn nonempty(s: &String) -> (r: bool)
    ensures
        r == (s@.len() > 0),
{
    chars_of(s.as_str()).len() > 0
}

fn copy_range(s: &Vec<char>, a: usize, b: usize) -> (r: Vec<char>)
    requires
        a <= b <= s@.len(),
    ensures
        r@ == s@.subrange(a as int, b as int),
{
    let mut out: Vec<char> = Vec::new();
    let mut k = a;
    while k < b
        invariant
            a <= k <= b <= s@.len(),
            out@ == s@.subrange(a as int, k as int),
        decreases b - k,
    {
        out.push(s[k]);
        k = k + 1;
        assert(out@ =~= s@.subrange(a as int, k as int));
    }
    out
}

impl CimReader {
    /// The header an `md:FullModel` element opens, with the identity it
    /// states.
    fn set_identity(&mut self, id: Option<String>)
        ensures
            final(self)@ == (CimReaderV {
                header: Some(ModelHeaderV { identity: opt_view(id), ..header_or_empty(old(self)@.header) }),
                ..old(self)@
            }),
            final(self).cim_namespaces@ == old(self).cim_namespaces@,
    {
        let ghost st = self@;
        let ghost iv = opt_view(id);
        match &mut self.header {
            Some(h) => {
                h.identity = id;
            },
            None => {
                let mut h = ModelHeader::new();
                h.identity = id;
                self.header = Some(h);
            },
        }
        assert(self@ =~= CimReaderV {
            header: Some(ModelHeaderV { identity: iv, ..header_or_empty(st.header) }),
            ..st
        });
    }

    /// An element start tag, named and with its attributes read up to the
    /// first that could not be read (`failure`).
    pub fn start(&mut self, name: String, attrs: &Vec<XmlAttr>, failure: &Option<String>) -> (r: Result<(), String>)
        requires
            old(self).depth < usize::MAX,
        ensures
            match r {
                Ok(_) => start_spec(old(self)@, name@, attr_views(attrs@), opt_view(*failure)) == Ok::<
                    CimReaderV,
                    Seq<char>,
                >(final(self)@),
                Err(e) => start_spec(old(self)@, name@, attr_views(attrs@), opt_view(*failure)) == Err::<
                    CimReaderV,
                    Seq<char>,
                >(e@),
            },
            final(self).cim_namespaces@ == old(self).cim_namespaces@,
    {
        let ghost st = self@;
        let ghost nv = name@;
        self.depth = self.depth + 1;
        let nm = chars_of(name.as_str());
        if self.depth == 1 && !chars_eq(&nm, &chars_of("rdf:RDF")) {
            let mut m: Vec<char> = Vec::new();
            push_str(&mut m, "top level element is `");
            push_chars(&mut m, &nm);
            push_str(&mut m, "`, not rdf:RDF");
            return Err(string_of(&m));
        }
        if self.depth == 2 {
            if chars_eq(&nm, &chars_of("md:FullModel")) {
                match identity(attrs, failure) {
                    Ok(id) => {
                        self.in_header = true;
                        self.set_identity(id);
                    },
                    Err(e) => {
                        return Err(e);
                    },
                }
            } else {
                match read_object(attrs, failure, name) {
                    Ok(o) => {
                        self.current = Some(o);
                    },
                    Err(e) => {
                        return Err(e);
                    },
                }
            }
        } else if self.depth == 3 {
            match resource(attrs, failure) {
                Ok(Some(v)) => {
                    self.prop_text = Vec::new();
                    self.nested = false;
                    self.current_prop = Some(copy_str(name.as_str()));
                    self.push_prop(name, PropValue::Ref(v));
                    self.current_prop = Some(String::new());
                },
                Ok(None) => {
                    self.prop_text = Vec::new();
                    self.nested = false;
                    self.current_prop = Some(name);
                },
                Err(e) => {
                    return Err(e);
                },
            }
        } else if self.in_header {
            let open = match &self.current_prop {
                Some(p) => nonempty(p),
                None => false,
            };
            if open {
                self.nested = true;
            }
        }
        assert(self@ =~= start_spec(st, nv, attr_views(attrs@), opt_view(*failure))->Ok_0);
        Ok(())
    }

    /// A self-closing element.
    pub fn empty(&mut self, name: String, attrs: &Vec<XmlAttr>, failure: &Option<String>) -> (r: Result<(), String>)
        ensures
            match r {
                Ok(_) => empty_spec(old(self)@, name@, attr_views(attrs@), opt_view(*failure)) == Ok::<
                    CimReaderV,
                    Seq<char>,
                >(final(self)@),
                Err(e) => empty_spec(old(self)@, name@, attr_views(attrs@), opt_view(*failure)) == Err::<
                    CimReaderV,
                    Seq<char>,
                >(e@),
            },
            final(self).cim_namespaces@ == old(self).cim_namespaces@,
    {
        let ghost st = self@;
        let ghost nv = name@;
        let nm = chars_of(name.as_str());
        if self.depth == 1 {
            if chars_eq(&nm, &chars_of("md:FullModel")) {
                match identity(attrs, failure) {
                    Ok(id) => {
                        self.set_identity(id);
                    },
                    Err(e) => {
                        return Err(e);
                    },
                }
            } else {
                match read_object(attrs, failure, name) {
                    Ok(o) => {
                        let ghost ov = o@;
                        self.objects.push(o);
                        assert(object_views(self.objects@) =~= st.objects.push(ov));
                    },
                    Err(e) => {
                        return Err(e);
                    },
                }
            }
        } else if self.depth == 2 {
            match resource(attrs, failure) {
                Ok(Some(v)) => {
                    self.push_prop(name, PropValue::Ref(v));
                },
                Ok(None) => {
                    self.push_prop(name, PropValue::Text(String::new()));
                },
                Err(e) => {
                    return Err(e);
                },
            }
        } else if self.depth >= 3 && self.in_header {
            self.nested = true;
        }
        assert(self@ =~= empty_spec(st, nv, attr_views(attrs@), opt_view(*failure))->Ok_0);
        Ok(())
    }

    /// Whether the open property collects text.
    pub fn wants_text(&self) -> (r: bool)
        ensures
            r == wants_text_spec(self@),
    {
        !self.nested && match &self.current_prop {
            Some(p) => nonempty(p),
            None => false,
        }
    }

    /// Text, CDATA, or a resolved reference inside an element.
    pub fn text(&mut self, t: &str)
        ensures
            final(self)@ == text_spec(old(self)@, t@),
            final(self).cim_namespaces@ == old(self).cim_namespaces@,
    {
        let ghost st = self@;
        if self.wants_text() {
            let cs = chars_of(t);
            push_chars(&mut self.prop_text, &cs);
        }
        assert(self@ =~= text_spec(st, t@));
    }

    /// An end tag.
    pub fn end(&mut self)
        ensures
            final(self)@ == end_spec(old(self)@),
            final(self).cim_namespaces@ == old(self).cim_namespaces@,
    {
        let ghost st = self@;
        if self.depth == 3 {
            let prop = self.current_prop.take();
            match prop {
                Some(p) => {
                    if nonempty(&p) {
                        if self.nested && self.in_header {
                            match &mut self.header {
                                Some(h) => {
                                    let ghost before = h.nested_properties@;
                                    let ghost pv = p@;
                                    h.nested_properties.push(p);
                                    assert(views(h.nested_properties@) =~= views(before).push(pv));
                                },
                                None => {},
                            }
                            self.prop_text = Vec::new();
                        } else {
                            let n = self.prop_text.len();
                            let (a, b) = trim_bounds(&self.prop_text, 0, n);
                            assert(self.prop_text@.subrange(0, n as int) =~= self.prop_text@);
                            let kept = copy_range(&self.prop_text, a, b);
                            self.prop_text = Vec::new();
                            self.push_prop(p, PropValue::Text(string_of(&kept)));
                        }
                    }
                },
                None => {},
            }
            self.nested = false;
        } else if self.depth == 2 {
            self.in_header = false;
            match self.current.take() {
                Some(o) => {
                    let ghost ov = o@;
                    self.objects.push(o);
                    assert(object_views(self.objects@) =~= st.objects.push(ov));
                },
                None => {},
            }
        }
        if self.depth > 0 {
            self.depth = self.depth - 1;
        }
        assert(self@ =~= end_spec(st));
    }
}


/// One instance file: the CIM namespaces its classes and properties use,
/// in order, its header, and its objects.
#[derive(Debug)]
pub struct CimDocument {
    pub cim_namespaces: Vec<String>,
    pub header: Option<ModelHeader>,
    pub objects: Vec<CimObject>,
}

#[verifier::ext_equal]
pub struct CimDocumentV {
    pub cim_namespaces: Seq<Seq<char>>,
    pub header: Option<ModelHeaderV>,
    pub objects: Seq<CimObjectV>,
}

impl View for CimDocument {
    type V = CimDocumentV;

    open spec fn view(&self) -> CimDocumentV {
        CimDocumentV {
            cim_namespaces: views(self.cim_namespaces@),
            header: opt_header_view(self.header),
            objects: object_views(self.objects@),
        }
    }
}

/// Whether one of `s` contains `t`.
pub open spec fn any_infix(s: Seq<Seq<char>>, t: Seq<char>) -> bool {
    exists|i: int| 0 <= i < s.len() && has_infix(#[trigger] s[i], t)
}

/// Whether the namespaces mix the CIM16 and CIM100 schemas.
pub open spec fn mixes_schemas(ns: Seq<Seq<char>>) -> bool {
    any_infix(ns, "CIM-schema-cim16"@) && any_infix(ns, "CIM100"@)
}

/// The document the events built, unless its namespaces mix the CIM16 and
/// CIM100 schemas.
pub open spec fn finish_spec(ns: Seq<Seq<char>>, st: CimReaderV) -> Result<CimDocumentV, Seq<char>> {
    if mixes_schemas(ns) {
        Err("one CGMES XML document mixes CIM16 and CIM100 namespaces: "@ + join(ns, ", "@))
    } else {
        Ok(CimDocumentV { cim_namespaces: ns, header: st.header, objects: st.objects })
    }
}

fn any_contains(v: &Vec<String>, t: &str) -> (r: bool)
    ensures
        r == any_infix(views(v@), t@),
{
    let ghost vs = views(v@);
    let mut i: usize = 0;
    while i < v.len()
        invariant
            i <= v@.len(),
            vs == views(v@),
            forall|k: int| 0 <= k < i ==> !has_infix(#[trigger] vs[k], t@),
        decreases v@.len() - i,
    {
        let cs = chars_of(v[i].as_str());
        assert(vs[i as int] == v@[i as int]@);
        assert(cs@.subrange(0, cs@.len() as int) =~= cs@);
        if range_contains(&cs, 0, cs.len(), t) {
            return true;
        }
        i = i + 1;
    }
    false
}

/// The items with `sep` between each pair.
pub fn join_strings(v: &Vec<String>, sep: &str) -> (r: Vec<char>)
    ensures
        r@ == join(views(v@), sep@),
{
    let ghost vs = views(v@);
    let mut out: Vec<char> = Vec::new();
    let mut i: usize = 0;
    assert(vs.take(0) =~= Seq::<Seq<char>>::empty());
    while i < v.len()
        invariant
            i <= v@.len(),
            vs == views(v@),
            out@ == join(vs.take(i as int), sep@),
        decreases v@.len() - i,
    {
        assert(vs[i as int] == v@[i as int]@);
        assert(vs.take(i as int + 1).drop_last() =~= vs.take(i as int));
        if i > 0 {
            push_str(&mut out, sep);
        } else {
            assert(vs.take(1) =~= seq![vs[0]]);
        }
        let cs = chars_of(v[i].as_str());
        push_chars(&mut out, &cs);
        i = i + 1;
    }
    assert(vs.take(v@.len() as int) =~= vs);
    out
}

impl CimReader {
    /// The document the events built, unless its namespaces mix the CIM16
    /// and CIM100 schemas.
    pub fn finish(self) -> (r: Result<CimDocument, String>)
        ensures
            match r {
                Ok(d) => finish_spec(self.namespaces(), self@) == Ok::<CimDocumentV, Seq<char>>(d@),
                Err(e) => finish_spec(self.namespaces(), self@) == Err::<CimDocumentV, Seq<char>>(e@),
            },
    {
        if any_contains(&self.cim_namespaces, "CIM-schema-cim16") && any_contains(&self.cim_namespaces, "CIM100") {
            let mut m: Vec<char> = Vec::new();
            push_str(&mut m, "one CGMES XML document mixes CIM16 and CIM100 namespaces: ");
            let joined = join_strings(&self.cim_namespaces, ", ");
            push_chars(&mut m, &joined);
            return Err(string_of(&m));
        }
        let d = CimDocument { cim_namespaces: self.cim_namespaces, header: self.header, objects: self.objects };
        Ok(d)
    }
}

} // verus!
