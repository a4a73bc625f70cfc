//! The RDF graph check a CGMES writer runs over its own output: every
//! object and model identifier is defined once, and every reference names
//! a definition.
//!
//! [`RdfGraph`] collects definitions and references from the RDF
//! attributes of the written files, one attribute at a time, and
//! [`RdfGraph::check`] then looks for a reference without a definition.

use vstd::prelude::*;
use vstd::utf8::encode_utf8;

use crate::text::{chars_eq, chars_of, push_chars, push_str, range_starts_with, starts_with, string_of};

verus! {

broadcast use vstd::string::group_string_axioms;

/// `s` without the prefix `p`, when it starts with it.
pub open spec fn strip_spec(s: Seq<char>, p: Seq<char>) -> Option<Seq<char>> {
    if starts_with(s, p) {
        Some(s.skip(p.len() as int))
    } else {
        None
    }
}

/// The object an `rdf:about` or `rdf:resource` value refers to: a `#_`, `#`
/// or `urn:uuid:` reference, not empty.
pub open spec fn object_reference_spec(value: Seq<char>) -> Option<Seq<char>> {
    let id = match strip_spec(value, "#_"@) {
        Some(r) => Some(r),
        None => match strip_spec(value, "#"@) {
            Some(r) => Some(r),
            None => strip_spec(value, "urn:uuid:"@),
        },
    };
    match id {
        Some(r) => if r.len() > 0 {
            Some(r)
        } else {
            None
        },
        None => None,
    }
}

/// `s` without the prefix `p`, when it starts with it.
pub fn strip_text(s: &Vec<char>, p: &str) -> (r: Option<Vec<char>>)
    ensures
        match r {
            Some(t) => strip_spec(s@, p@) == Some(t@),
            None => strip_spec(s@, p@) is None,
        },
{
    let n = s.len();
    if !range_starts_with(s, 0, n, p) {
        assert(s@.subrange(0, n as int) =~= s@);
        return None;
    }
    assert(s@.subrange(0, n as int) =~= s@);
    let k = chars_of(p).len();
    let mut out: Vec<char> = Vec::new();
    let mut i = k;
    while i < n
        invariant
            k <= i <= n == s@.len(),
            out@ == s@.subrange(k as int, i as int),
        decreases n - i,
    {
        out.push(s[i]);
        i = i + 1;
        assert(out@ =~= s@.subrange(k as int, i as int));
    }
    assert(s@.skip(k as int) =~= s@.subrange(k as int, n as int));
    Some(out)
}

/// The object an `rdf:about` or `rdf:resource` value refers to.
pub fn rdf_object_reference_id(value: &str) -> (r: Option<String>)
    ensures
        match r {
            Some(t) => object_reference_spec(value@) == Some(t@),
            None => object_reference_spec(value@) is None,
        },
{
    let v = chars_of(value);
    let id = match strip_text(&v, "#_") {
        Some(r) => r,
        None => match strip_text(&v, "#") {
            Some(r) => r,
            None => match strip_text(&v, "urn:uuid:") {
                Some(r) => r,
                None => {
                    return None;
                },
            },
        },
    };
    if id.len() > 0 {
        Some(string_of(&id))
    } else {
        None
    }
}

pub open spec fn pair_views(s: Seq<(String, String)>) -> Seq<(Seq<char>, Seq<char>)> {
    s.map_values(|p: (String, String)| (p.0@, p.1@))
}

pub open spec fn triple_views(s: Seq<(String, String, String)>) -> Seq<(Seq<char>, Seq<char>, Seq<char>)> {
    s.map_values(|p: (String, String, String)| (p.0@, p.1@, p.2@))
}

/// The file that first defines `id`, among the first `n` definitions.
pub open spec fn defined_in(defs: Seq<(Seq<char>, Seq<char>)>, id: Seq<char>, n: int) -> Option<Seq<char>>
    decreases n,
{
    if n <= 0 {
        None
    } else {
        match defined_in(defs, id, n - 1) {
            Some(f) => Some(f),
            None => if defs[n - 1].0 == id {
                Some(defs[n - 1].1)
            } else {
                None
            },
        }
    }
}

/// The file that defines `id`.
pub open spec fn defines_spec(defs: Seq<(Seq<char>, Seq<char>)>, id: Seq<char>) -> Option<Seq<char>> {
    defined_in(defs, id, defs.len() as int)
}

/// Every id is defined once, and none is empty.
pub open spec fn definitions_wf(defs: Seq<(Seq<char>, Seq<char>)>) -> bool {
    &&& forall|i: int| 0 <= i < defs.len() ==> (#[trigger] defs[i]).0.len() > 0
    &&& forall|i: int, j: int| 0 <= i < j < defs.len() ==> (#[trigger] defs[i]).0 != (#[trigger] defs[j]).0
}

/// Registering a definition: an empty id, or one defined before, is an
/// error that names it; else the definition is recorded.
pub open spec fn register_spec(defs: Seq<(Seq<char>, Seq<char>)>, id: Seq<char>, file: Seq<char>, kind: Seq<char>) -> Result<
    Seq<(Seq<char>, Seq<char>)>,
    Seq<char>,
> {
    if id.len() == 0 {
        Err("generated CGMES file `"@ + file + "` defines an empty "@ + kind)
    } else {
        match defines_spec(defs, id) {
            Some(first) => Err(
                "generated CGMES defines "@ + kind + " `"@ + id + "` more than once: first in `"@ + first
                    + "`, then in `"@ + file + "`"@,
            ),
            None => Ok(defs.push((id, file))),
        }
    }
}

fn lookup<'a>(defs: &'a Vec<(String, String)>, id: &Vec<char>) -> (r: Option<&'a String>)
    ensures
        match r {
            Some(f) => defines_spec(pair_views(defs@), id@) == Some(f@),
            None => defines_spec(pair_views(defs@), id@) is None,
        },
{
    let ghost dv = pair_views(defs@);
    let mut i: usize = 0;
    while i < defs.len()
        invariant
            i <= defs@.len(),
            dv == pair_views(defs@),
            defined_in(dv, id@, i as int) is None,
        decreases defs@.len() - i,
    {
        let d = chars_of(defs[i].0.as_str());
        assert(dv[i as int] == (defs@[i as int].0@, defs@[i as int].1@));
        if chars_eq(&d, id) {
            proof {
                lemma_defined_stays(dv, id@, i as int + 1, defs@.len() as int);
            }
            return Some(&defs[i].1);
        }
        i = i + 1;
    }
    None
}

proof fn lemma_defined_stays(defs: Seq<(Seq<char>, Seq<char>)>, id: Seq<char>, m: int, n: int)
    requires
        1 <= m <= n,
        defined_in(defs, id, m) is Some,
    ensures
        defined_in(defs, id, n) == defined_in(defs, id, m),
    decreases n - m,
{
    if m < n {
        lemma_defined_stays(defs, id, m, n - 1);
    }
}

/// An id is defined exactly when some definition names it.
pub proof fn lemma_defined_means_listed(defs: Seq<(Seq<char>, Seq<char>)>, id: Seq<char>, n: int)
    requires
        0 <= n <= defs.len(),
    ensures
        defined_in(defs, id, n) is None <==> forall|i: int| 0 <= i < n ==> (#[trigger] defs[i]).0 != id,
    decreases n,
{
    if n > 0 {
        lemma_defined_means_listed(defs, id, n - 1);
    }
}

/// Record that `file` defines `id`, refusing an empty id or one defined
/// before.
pub fn register_rdf_definition(defs: &mut Vec<(String, String)>, id: &str, file: &str, kind: &str) -> (r: Result<
    (),
    String,
>)
    requires
        definitions_wf(pair_views(old(defs)@)),
    ensures
        definitions_wf(pair_views(final(defs)@)),
        match r {
            Ok(_) => register_spec(pair_views(old(defs)@), id@, file@, kind@) == Ok::<
                Seq<(Seq<char>, Seq<char>)>,
                Seq<char>,
            >(pair_views(final(defs)@)),
            Err(e) => register_spec(pair_views(old(defs)@), id@, file@, kind@) == Err::<
                Seq<(Seq<char>, Seq<char>)>,
                Seq<char>,
            >(e@),
        },
{
    let idc = chars_of(id);
    if idc.len() == 0 {
        let mut m: Vec<char> = Vec::new();
        push_str(&mut m, "generated CGMES file `");
        push_str(&mut m, file);
        push_str(&mut m, "` defines an empty ");
        push_str(&mut m, kind);
        return Err(string_of(&m));
    }
    match lookup(defs, &idc) {
        Some(first) => {
            let mut m: Vec<char> = Vec::new();
            push_str(&mut m, "generated CGMES defines ");
            push_str(&mut m, kind);
            push_str(&mut m, " `");
            push_str(&mut m, id);
            push_str(&mut m, "` more than once: first in `");
            push_str(&mut m, first.as_str());
            push_str(&mut m, "`, then in `");
            push_str(&mut m, file);
            push_str(&mut m, "`");
            Err(string_of(&m))
        },
        None => {
            let ghost before = pair_views(defs@);
            proof {
                lemma_defined_means_listed(before, id@, before.len() as int);
            }
            defs.push((string_of(&idc), string_of(&chars_of(file))));
            assert(pair_views(defs@) =~= before.push((id@, file@)));
            Ok(())
        },
    }
}


/// The definitions and references the RDF attributes of the written files
/// state, in file and document order.
pub struct RdfGraph {
    /// `(id, file)` of each `rdf:ID`.
    pub fragment_definitions: Vec<(String, String)>,
    /// `(model uuid, file)` of each `md:FullModel`.
    pub model_definitions: Vec<(String, String)>,
    /// `(file, attribute, id)` of each `rdf:about` or `rdf:resource` object
    /// reference.
    pub fragment_references: Vec<(String, String, String)>,
    /// `(file, model uuid)` of each `md:Model.DependentOn`.
    pub model_references: Vec<(String, String)>,
}

#[verifier::ext_equal]
pub struct RdfGraphV {
    pub fragment_definitions: Seq<(Seq<char>, Seq<char>)>,
    pub model_definitions: Seq<(Seq<char>, Seq<char>)>,
    pub fragment_references: Seq<(Seq<char>, Seq<char>, Seq<char>)>,
    pub model_references: Seq<(Seq<char>, Seq<char>)>,
}

impl View for RdfGraph {
    type V = RdfGraphV;

    open spec fn view(&self) -> RdfGraphV {
        RdfGraphV {
            fragment_definitions: pair_views(self.fragment_definitions@),
            model_definitions: pair_views(self.model_definitions@),
            fragment_references: triple_views(self.fragment_references@),
            model_references: pair_views(self.model_references@),
        }
    }
}

/// Both definition tables name each id once.
pub open spec fn graph_wf(g: RdfGraphV) -> bool {
    definitions_wf(g.fragment_definitions) && definitions_wf(g.model_definitions)
}

/// `value` without one leading `_`.
pub open spec fn fragment_id(value: Seq<char>) -> Seq<char> {
    match strip_spec(value, "_"@) {
        Some(r) => r,
        None => value,
    }
}

/// What one RDF attribute of an element of `file` adds: `rdf:ID` defines an
/// object, `rdf:about` on `md:FullModel` defines a model, `rdf:resource` on
/// `md:Model.DependentOn` refers to a model, and any other `rdf:about` or
/// `rdf:resource` refers to an object.
pub open spec fn attribute_spec(
    g: RdfGraphV,
    file: Seq<char>,
    full_model: bool,
    dependency: bool,
    local: Seq<u8>,
    value: Seq<char>,
) -> Result<RdfGraphV, Seq<char>> {
    if local == encode_utf8("ID"@) {
        match register_spec(g.fragment_definitions, fragment_id(value), file, "mRID"@) {
            Ok(d) => Ok(RdfGraphV { fragment_definitions: d, ..g }),
            Err(e) => Err(e),
        }
    } else if local == encode_utf8("about"@) && full_model {
        match strip_spec(value, "urn:uuid:"@) {
            Some(id) => match register_spec(g.model_definitions, id, file, "model UUID"@) {
                Ok(d) => Ok(RdfGraphV { model_definitions: d, ..g }),
                Err(e) => Err(e),
            },
            None => Err(
                "generated CGMES FullModel in `"@ + file + "` has rdf:about `"@ + value
                    + "` instead of a urn:uuid identifier"@,
            ),
        }
    } else if local == encode_utf8("about"@) {
        match object_reference_spec(value) {
            Some(id) => Ok(
                RdfGraphV { fragment_references: g.fragment_references.push((file, "rdf:about"@, id)), ..g },
            ),
            None => Ok(g),
        }
    } else if local == encode_utf8("resource"@) && dependency {
        match strip_spec(value, "urn:uuid:"@) {
            Some(id) => Ok(RdfGraphV { model_references: g.model_references.push((file, id)), ..g }),
            None => Err(
                "generated CGMES model dependency in `"@ + file + "` has rdf:resource `"@ + value
                    + "` instead of a urn:uuid identifier"@,
            ),
        }
    } else if local == encode_utf8("resource"@) {
        match object_reference_spec(value) {
            Some(id) => Ok(
                RdfGraphV {
                    fragment_references: g.fragment_references.push((file, "rdf:resource"@, id)),
                    ..g
                },
            ),
            None => Ok(g),
        }
    } else {
        Ok(g)
    }
}

/// The first object reference from `k` on whose id has no definition.
pub open spec fn dangling_fragment(g: RdfGraphV, k: int) -> Option<int>
    decreases g.fragment_references.len() - k,
{
    if k < 0 || k >= g.fragment_references.len() {
        None
    } else if defines_spec(g.fragment_definitions, g.fragment_references[k].2) is None {
        Some(k)
    } else {
        dangling_fragment(g, k + 1)
    }
}

/// The first model reference from `k` on whose uuid has no definition.
pub open spec fn dangling_model(g: RdfGraphV, k: int) -> Option<int>
    decreases g.model_references.len() - k,
{
    if k < 0 || k >= g.model_references.len() {
        None
    } else if defines_spec(g.model_definitions, g.model_references[k].1) is None {
        Some(k)
    } else {
        dangling_model(g, k + 1)
    }
}

/// The first dangling reference, object references first, as the error
/// that names it.
pub open spec fn check_spec(g: RdfGraphV) -> Result<(), Seq<char>> {
    match dangling_fragment(g, 0) {
        Some(k) => {
            let r = g.fragment_references[k];
            Err("generated CGMES file `"@ + r.0 + "` contains a dangling "@ + r.1 + " reference to `"@ + r.2 + "`"@)
        },
        None => match dangling_model(g, 0) {
            Some(k) => {
                let r = g.model_references[k];
                Err("generated CGMES file `"@ + r.0 + "` contains a dangling model dependency reference to `"@ + r.1
                    + "`"@)
            },
            None => Ok(()),
        },
    }
}

/// The graph before any file is read.
pub open spec fn empty_graph() -> RdfGraphV {
    RdfGraphV {
        fragment_definitions: Seq::empty(),
        model_definitions: Seq::empty(),
        fragment_references: Seq::empty(),
        model_references: Seq::empty(),
    }
}

/// Every reference has a definition.
pub open spec fn references_resolve(g: RdfGraphV) -> bool {
    &&& forall|k: int|
        0 <= k < g.fragment_references.len() ==> defines_spec(
            g.fragment_definitions,
            (#[trigger] g.fragment_references[k]).2,
        ) is Some
    &&& forall|k: int|
        0 <= k < g.model_references.len() ==> defines_spec(
            g.model_definitions,
            (#[trigger] g.model_references[k]).1,
        ) is Some
}

proof fn lemma_dangling_fragment(g: RdfGraphV, k: int)
    requires
        0 <= k <= g.fragment_references.len(),
    ensures
        dangling_fragment(g, k) is None <==> forall|j: int|
            k <= j < g.fragment_references.len() ==> defines_spec(
                g.fragment_definitions,
                (#[trigger] g.fragment_references[j]).2,
            ) is Some,
    decreases g.fragment_references.len() - k,
{
    if k < g.fragment_references.len() {
        lemma_dangling_fragment(g, k + 1);
    }
}

proof fn lemma_dangling_model(g: RdfGraphV, k: int)
    requires
        0 <= k <= g.model_references.len(),
    ensures
        dangling_model(g, k) is None <==> forall|j: int|
            k <= j < g.model_references.len() ==> defines_spec(
                g.model_definitions,
                (#[trigger] g.model_references[j]).1,
            ) is Some,
    decreases g.model_references.len() - k,
{
    if k < g.model_references.len() {
        lemma_dangling_model(g, k + 1);
    }
}

/// The graph check succeeds exactly when every object reference names a
/// defined object and every model dependency a defined model.
pub proof fn law_a_checked_graph_has_no_dangling_reference(g: RdfGraphV)
    ensures
        check_spec(g) is Ok <==> references_resolve(g),
{
    lemma_dangling_fragment(g, 0);
    lemma_dangling_model(g, 0);
}

fn copy_string(s: &str) -> (r: String)
    ensures
        r@ == s@,
{
    string_of(&chars_of(s))
}

impl RdfGraph {
    pub fn new() -> (r: Self)
        ensures
            r@ == (RdfGraphV {
                fragment_definitions: Seq::empty(),
                model_definitions: Seq::empty(),
                fragment_references: Seq::empty(),
                model_references: Seq::empty(),
            }),
            graph_wf(r@),
    {
        let r = RdfGraph {
            fragment_definitions: Vec::new(),
            model_definitions: Vec::new(),
            fragment_references: Vec::new(),
            model_references: Vec::new(),
        };
        assert(r@ =~= RdfGraphV {
            fragment_definitions: Seq::empty(),
            model_definitions: Seq::empty(),
            fragment_references: Seq::empty(),
            model_references: Seq::empty(),
        });
        r
    }

    /// One RDF attribute, of local name `local` and decoded `value`, on an
    /// element of `file`; `full_model` and `dependency` tell whether the
    /// element is `md:FullModel` or `md:Model.DependentOn`.
    pub fn attribute(&mut self, file: &str, full_model: bool, dependency: bool, local: &[u8], value: &str) -> (r: Result<
        (),
        String,
    >)
        requires
            graph_wf(old(self)@),
        ensures
            graph_wf(final(self)@),
            match r {
                Ok(_) => attribute_spec(old(self)@, file@, full_model, dependency, local@, value@) == Ok::<
                    RdfGraphV,
                    Seq<char>,
                >(final(self)@),
                Err(e) => attribute_spec(old(self)@, file@, full_model, dependency, local@, value@) == Err::<
                    RdfGraphV,
                    Seq<char>,
                >(e@),
            },
    {
        let ghost g = self@;
        let v = chars_of(value);
        if crate::cgmes::xml::bytes_eq(local, "ID".as_bytes()) {
            let id = match strip_text(&v, "_") {
                Some(r) => r,
                None => v,
            };
            let ids = string_of(&id);
            let r = register_rdf_definition(&mut self.fragment_definitions, ids.as_str(), file, "mRID");
            assert(self@ =~= RdfGraphV { fragment_definitions: pair_views(self.fragment_definitions@), ..g });
            return r;
        }
        let about = crate::cgmes::xml::bytes_eq(local, "about".as_bytes());
        if about && full_model {
            return match strip_text(&v, "urn:uuid:") {
                Some(id) => {
                    let ids = string_of(&id);
                    let r = register_rdf_definition(&mut self.model_definitions, ids.as_str(), file, "model UUID");
                    assert(self@ =~= RdfGraphV { model_definitions: pair_views(self.model_definitions@), ..g });
                    r
                },
                None => {
                    let mut m: Vec<char> = Vec::new();
                    push_str(&mut m, "generated CGMES FullModel in `");
                    push_str(&mut m, file);
                    push_str(&mut m, "` has rdf:about `");
                    push_str(&mut m, value);
                    push_str(&mut m, "` instead of a urn:uuid identifier");
                    Err(string_of(&m))
                },
            };
        }
        if about {
            if let Some(id) = rdf_object_reference_id(value) {
                let ghost iv = id@;
                self.fragment_references.push((copy_string(file), copy_string("rdf:about"), id));
                assert(triple_views(self.fragment_references@) =~= g.fragment_references.push(
                    (file@, "rdf:about"@, iv),
                ));
            }
            assert(self@ =~= attribute_spec(g, file@, full_model, dependency, local@, value@)->Ok_0);
            return Ok(());
        }
        let resource = crate::cgmes::xml::bytes_eq(local, "resource".as_bytes());
        if resource && dependency {
            return match strip_text(&v, "urn:uuid:") {
                Some(id) => {
                    let ghost iv = id@;
                    self.model_references.push((copy_string(file), string_of(&id)));
                    assert(pair_views(self.model_references@) =~= g.model_references.push((file@, iv)));
                    assert(self@ =~= attribute_spec(g, file@, full_model, dependency, local@, value@)->Ok_0);
                    Ok(())
                },
                None => {
                    let mut m: Vec<char> = Vec::new();
                    push_str(&mut m, "generated CGMES model dependency in `");
                    push_str(&mut m, file);
                    push_str(&mut m, "` has rdf:resource `");
                    push_str(&mut m, value);
                    push_str(&mut m, "` instead of a urn:uuid identifier");
                    Err(string_of(&m))
                },
            };
        }
        if resource {
            if let Some(id) = rdf_object_reference_id(value) {
                let ghost iv = id@;
                self.fragment_references.push((copy_string(file), copy_string("rdf:resource"), id));
                assert(triple_views(self.fragment_references@) =~= g.fragment_references.push(
                    (file@, "rdf:resource"@, iv),
                ));
            }
        }
        assert(self@ =~= attribute_spec(g, file@, full_model, dependency, local@, value@)->Ok_0);
        Ok(())
    }

    /// The first reference without a definition, object references first,
    /// as the error that names it.
    pub fn check(&self) -> (r: Result<(), String>)
        ensures
            match r {
                Ok(_) => check_spec(self@) is Ok,
                Err(e) => check_spec(self@) == Err::<(), Seq<char>>(e@),
            },
    {
        let ghost g = self@;
        let mut k: usize = 0;
        while k < self.fragment_references.len()
            invariant
                k <= self.fragment_references@.len(),
                g == self@,
                dangling_fragment(g, 0) == dangling_fragment(g, k as int),
            decreases self.fragment_references@.len() - k,
        {
            let r = &self.fragment_references[k];
            assert(g.fragment_references[k as int] == (r.0@, r.1@, r.2@));
            let id = chars_of(r.2.as_str());
            if lookup(&self.fragment_definitions, &id).is_none() {
                let mut m: Vec<char> = Vec::new();
                push_str(&mut m, "generated CGMES file `");
                push_str(&mut m, r.0.as_str());
                push_str(&mut m, "` contains a dangling ");
                push_str(&mut m, r.1.as_str());
                push_str(&mut m, " reference to `");
                push_chars(&mut m, &id);
                push_str(&mut m, "`");
                return Err(string_of(&m));
            }
            k = k + 1;
        }
        let mut k: usize = 0;
        while k < self.model_references.len()
            invariant
                k <= self.model_references@.len(),
                g == self@,
                dangling_fragment(g, 0) is None,
                dangling_model(g, 0) == dangling_model(g, k as int),
            decreases self.model_references@.len() - k,
        {
            let r = &self.model_references[k];
            assert(g.model_references[k as int] == (r.0@, r.1@));
            let id = chars_of(r.1.as_str());
            if lookup(&self.model_definitions, &id).is_none() {
                let mut m: Vec<char> = Vec::new();
                push_str(&mut m, "generated CGMES file `");
                push_str(&mut m, r.0.as_str());
                push_str(&mut m, "` contains a dangling model dependency reference to `");
                push_chars(&mut m, &id);
                push_str(&mut m, "`");
                return Err(string_of(&m));
            }
            k = k + 1;
        }
        Ok(())
    }
}

} // verus!
