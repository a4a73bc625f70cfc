//! The GO Challenge 3 document shared by its readers: the sections of the
//! network and of the time series input, their items in document order (an
//! object section by its keys), and the uid of each record, so that section
//! order, uids and bus identities have one owner.

use vstd::prelude::*;

use super::{bus_id_spec, bus_ids, key_less, key_lt, last_entry, law_section_keys_are_totally_ordered, Goc3BusMap};
use crate::json::{get, kind, kind_spec, member, str_of, JsonValue};
use crate::network::BusType;
use crate::text::{chars_of, push_str, string_of, views};

verus! {

broadcast use vstd::string::group_string_axioms;

/// Whether `p` lists the members of `m` ordered by key, members of one key
/// in their order.
pub open spec fn sorted_positions(m: Seq<(String, JsonValue)>, p: Seq<usize>) -> bool {
    &&& p.len() == m.len()
    &&& forall|i: int| 0 <= i < p.len() ==> #[trigger] p[i] < m.len()
    &&& forall|i: int, j: int| 0 <= i < j < p.len() ==> #[trigger] p[i] != #[trigger] p[j]
    &&& forall|i: int, j: int| 0 <= i < j < p.len() ==> !key_lt(m[#[trigger] p[j] as int].0@, m[#[trigger] p[i] as int].0@)
    &&& forall|i: int, j: int|
        0 <= i < j < p.len() && m[#[trigger] p[i] as int].0@ == m[#[trigger] p[j] as int].0@ ==> p[i] < p[j]
}

/// The positions of the members of `m`, ordered by key.
fn sort_positions(m: &Vec<(String, JsonValue)>) -> (p: Vec<usize>)
    ensures
        sorted_positions(m@, p@),
{
    let n = m.len();
    let mut p: Vec<usize> = Vec::new();
    let mut k: usize = 0;
    while k < n
        invariant
            k <= n == m@.len(),
            p@.len() == k,
            forall|i: int| 0 <= i < k ==> #[trigger] p@[i] < k,
            forall|i: int, j: int| 0 <= i < j < k ==> #[trigger] p@[i] != #[trigger] p@[j],
            forall|i: int, j: int|
                0 <= i < j < k ==> !key_lt(m@[#[trigger] p@[j] as int].0@, m@[#[trigger] p@[i] as int].0@),
            forall|i: int, j: int|
                0 <= i < j < k && m@[#[trigger] p@[i] as int].0@ == m@[#[trigger] p@[j] as int].0@ ==> p@[i] < p@[j],
        decreases n - k,
    {
        let mut pos: usize = 0;
        while pos < p.len() && !key_less(m[k].0.as_str(), m[p[pos]].0.as_str())
            invariant
                pos <= p@.len() == k,
                k < n == m@.len(),
                forall|i: int| 0 <= i < k ==> #[trigger] p@[i] < k,
                forall|i: int| 0 <= i < pos ==> !key_lt(m@[k as int].0@, m@[#[trigger] p@[i] as int].0@),
            decreases p@.len() - pos,
        {
            pos = pos + 1;
        }
        let ghost old_p = p@;
        let ghost kk = m@[k as int].0@;
        proof {
            if pos < k {
                assert(key_lt(kk, m@[old_p[pos as int] as int].0@));
            }
        }
        p.insert(pos, k);
        proof {
            assert(p@ == old_p.insert(pos as int, k));
            assert forall|i: int| 0 <= i < k + 1 implies #[trigger] p@[i] < k + 1 by {
                if i < pos {
                    assert(p@[i] == old_p[i]);
                } else if i > pos {
                    assert(p@[i] == old_p[i - 1]);
                }
            }
            assert forall|i: int, j: int| 0 <= i < j < k + 1 implies #[trigger] p@[i] != #[trigger] p@[j] by {
                if i != pos && j != pos {
                    let a = if i < pos { i } else { i - 1 };
                    let b = if j < pos { j } else { j - 1 };
                    assert(p@[i] == old_p[a] && p@[j] == old_p[b]);
                } else if i == pos {
                    let b = if j < pos { j } else { j - 1 };
                    assert(p@[j] == old_p[b]);
                } else {
                    let a = if i < pos { i } else { i - 1 };
                    assert(p@[i] == old_p[a]);
                }
            }
            assert forall|i: int, j: int| 0 <= i < j < k + 1 implies !key_lt(
                m@[#[trigger] p@[j] as int].0@,
                m@[#[trigger] p@[i] as int].0@,
            ) by {
                let a = if i < pos { i } else { i - 1 };
                let b = if j < pos { j } else { j - 1 };
                if i != pos && j != pos {
                    assert(p@[i] == old_p[a] && p@[j] == old_p[b]);
                } else if i == pos {
                    assert(p@[i] == k && p@[j] == old_p[b]);
                    let kb = m@[old_p[b] as int].0@;
                    if b > pos {
                        let kp = m@[old_p[pos as int] as int].0@;
                        law_section_keys_are_totally_ordered(kk, kp, kb);
                        law_section_keys_are_totally_ordered(kb, kp, kk);
                        law_section_keys_are_totally_ordered(kp, kb, kk);
                    }
                    law_section_keys_are_totally_ordered(kk, kb, kk);
                } else {
                    assert(p@[j] == k && p@[i] == old_p[a]);
                }
            }
            assert forall|i: int, j: int|
                0 <= i < j < k + 1 && m@[#[trigger] p@[i] as int].0@ == m@[#[trigger] p@[j] as int].0@ implies p@[i]
                < p@[j] by {
                let a = if i < pos { i } else { i - 1 };
                let b = if j < pos { j } else { j - 1 };
                if i != pos && j != pos {
                    assert(p@[i] == old_p[a] && p@[j] == old_p[b]);
                } else if i == pos {
                    assert(p@[j] == old_p[b]);
                    let kp = m@[old_p[pos as int] as int].0@;
                    law_section_keys_are_totally_ordered(kk, kp, kk);
                    if b > pos {
                        law_section_keys_are_totally_ordered(kk, kp, m@[old_p[b] as int].0@);
                    }
                } else {
                    assert(p@[i] == old_p[a]);
                }
            }
        }
        k = k + 1;
    }
    p
}

/// One item of a section: its key when the section is an object, and its
/// value.
pub struct SectionItem<'a> {
    pub key: Option<&'a String>,
    pub value: &'a JsonValue,
}

/// The text of an optional key.
pub open spec fn key_view(k: Option<&String>) -> Option<Seq<char>> {
    match k {
        Some(s) => Some(s@),
        None => None,
    }
}

/// Section items as keys and values.
pub open spec fn item_views(v: Seq<SectionItem>) -> Seq<(Option<Seq<char>>, JsonValue)> {
    v.map_values(|it: SectionItem| (key_view(it.key), *it.value))
}

/// Whether `items` are the items of section `name` of `parent`: none when
/// it is absent, an array's elements in order, an object's members ordered
/// by key.
pub open spec fn section_holds(
    parent: Seq<(String, JsonValue)>,
    name: Seq<char>,
    items: Seq<(Option<Seq<char>>, JsonValue)>,
) -> bool {
    match member(parent, name) {
        None => items.len() == 0,
        Some(JsonValue::Array(a)) => items.len() == a@.len() && forall|i: int|
            0 <= i < items.len() ==> #[trigger] items[i] == (None::<Seq<char>>, a@[i]),
        Some(JsonValue::Object(m)) => exists|p: Seq<usize>|
            sorted_positions(m@, p) && items.len() == p.len() && forall|i: int|
                0 <= i < items.len() ==> #[trigger] items[i] == (Some(m@[p[i] as int].0@), m@[p[i] as int].1),
        Some(_) => false,
    }
}

/// The error of a section that is neither an array nor an object.
pub open spec fn section_error(parent: Seq<(String, JsonValue)>, name: Seq<char>) -> Option<Seq<char>> {
    match member(parent, name) {
        Some(JsonValue::Array(_)) => None,
        Some(JsonValue::Object(_)) => None,
        Some(other) => Some("`network."@ + name + "` is not an array or object, got "@ + kind_spec(other)),
        None => None,
    }
}

/// The items of section `name` of `parent`, in document order; an object
/// section's items ordered by key.
pub fn section<'a>(parent: &'a Vec<(String, JsonValue)>, name: &str) -> (r: Result<Vec<SectionItem<'a>>, String>)
    ensures
        match r {
            Ok(v) => section_holds(parent@, name@, item_views(v@)),
            Err(e) => section_error(parent@, name@) == Some(e@),
        },
        section_error(parent@, name@) is None ==> r is Ok,
{
    match get(parent, name) {
        None => {
            let v: Vec<SectionItem<'a>> = Vec::new();
            assert(item_views(v@) =~= Seq::<(Option<Seq<char>>, JsonValue)>::empty());
            Ok(v)
        },
        Some(value) => match value {
            JsonValue::Array(items) => {
                let mut v: Vec<SectionItem<'a>> = Vec::new();
                let mut i: usize = 0;
                while i < items.len()
                    invariant
                        i <= items@.len(),
                        v@.len() == i,
                        forall|j: int| 0 <= j < i ==> #[trigger] item_views(v@)[j] == (None::<Seq<char>>, items@[j]),
                    decreases items@.len() - i,
                {
                    let ghost before = v@;
                    v.push(SectionItem { key: None, value: &items[i] });
                    assert(item_views(v@) =~= item_views(before).push((None::<Seq<char>>, items@[i as int])));
                    i = i + 1;
                }
                assert(item_views(v@).len() == items@.len());
                Ok(v)
            },
            JsonValue::Object(map) => {
                let p = sort_positions(map);
                let mut v: Vec<SectionItem<'a>> = Vec::new();
                let mut i: usize = 0;
                while i < p.len()
                    invariant
                        i <= p@.len() == map@.len(),
                        sorted_positions(map@, p@),
                        v@.len() == i,
                        forall|j: int|
                            0 <= j < i ==> #[trigger] item_views(v@)[j] == (Some(map@[p@[j] as int].0@), map@[p@[j] as int].1),
                    decreases p@.len() - i,
                {
                    let e = &map[p[i]];
                    let ghost before = v@;
                    v.push(SectionItem { key: Some(&e.0), value: &e.1 });
                    assert(item_views(v@) =~= item_views(before).push(
                        (Some(map@[p@[i as int] as int].0@), map@[p@[i as int] as int].1),
                    ));
                    i = i + 1;
                }
                assert(item_views(v@).len() == p@.len());
                Ok(v)
            },
            other => {
                let mut m: Vec<char> = Vec::new();
                push_str(&mut m, "`network.");
                push_str(&mut m, name);
                push_str(&mut m, "` is not an array or object, got ");
                push_str(&mut m, kind(other));
                Err(string_of(&m))
            },
        },
    }
}

/// The uid of an object item: its `uid` string, else its key, unless that
/// is empty.
pub open spec fn item_uid_spec(key: Option<Seq<char>>, obj: Seq<(String, JsonValue)>) -> Option<Seq<char>> {
    let u = match str_of(member(obj, "uid"@)) {
        Some(s) => Some(s),
        None => key,
    };
    match u {
        Some(s) => if s.len() > 0 {
            Some(s)
        } else {
            None
        },
        None => None,
    }
}

/// The uid of a record: an object's item uid, else its key.
pub open spec fn record_uid_spec(key: Option<Seq<char>>, v: JsonValue) -> Option<Seq<char>> {
    match v {
        JsonValue::Object(o) => match item_uid_spec(key, o@) {
            Some(u) => Some(u),
            None => key,
        },
        _ => key,
    }
}

fn key_text(key: Option<&String>) -> (r: Option<String>)
    ensures
        match r {
            Some(s) => key_view(key) == Some(s@),
            None => key_view(key) is None,
        },
{
    match key {
        Some(k) => {
            let cs = chars_of(k.as_str());
            Some(string_of(&cs))
        },
        None => None,
    }
}

/// The uid of an object item.
fn item_uid(key: Option<&String>, obj: &Vec<(String, JsonValue)>) -> (r: Option<String>)
    ensures
        match r {
            Some(s) => item_uid_spec(key_view(key), obj@) == Some(s@),
            None => item_uid_spec(key_view(key), obj@) is None,
        },
{
    let u = match get(obj, "uid") {
        Some(JsonValue::Str(s)) => {
            let cs = chars_of(s.as_str());
            Some(string_of(&cs))
        },
        _ => key_text(key),
    };
    match u {
        Some(s) => if chars_of(s.as_str()).len() > 0 {
            Some(s)
        } else {
            None
        },
        None => None,
    }
}

/// One section record in document order: its uid and its value.
pub struct Goc3Record<'a> {
    pub uid: Option<String>,
    pub value: &'a JsonValue,
}

/// Whether record `r` is the record of `item`.
pub open spec fn record_of(r: Goc3Record, item: (Option<Seq<char>>, JsonValue)) -> bool {
    &&& *r.value == item.1
    &&& match r.uid {
        Some(u) => record_uid_spec(item.0, item.1) == Some(u@),
        None => record_uid_spec(item.0, item.1) is None,
    }
}

/// Whether `v` are the records of section `name` of `parent`.
pub open spec fn records_hold(parent: Seq<(String, JsonValue)>, name: Seq<char>, v: Seq<Goc3Record>) -> bool {
    exists|items: Seq<(Option<Seq<char>>, JsonValue)>|
        section_holds(parent, name, items) && v.len() == items.len() && forall|i: int|
            0 <= i < v.len() ==> record_of(#[trigger] v[i], items[i])
}

/// The records of section `name` of `parent`, in document order.
pub fn records<'a>(parent: &'a Vec<(String, JsonValue)>, name: &str) -> (r: Result<Vec<Goc3Record<'a>>, String>)
    ensures
        match r {
            Ok(v) => records_hold(parent@, name@, v@),
            Err(e) => section_error(parent@, name@) == Some(e@),
        },
        section_error(parent@, name@) is None ==> r is Ok,
{
    let items = match section(parent, name) {
        Ok(items) => items,
        Err(e) => {
            return Err(e);
        },
    };
    let ghost iv = item_views(items@);
    let mut out: Vec<Goc3Record<'a>> = Vec::new();
    let mut i: usize = 0;
    while i < items.len()
        invariant
            i <= items@.len(),
            iv == item_views(items@),
            out@.len() == i,
            forall|j: int| 0 <= j < i ==> record_of(#[trigger] out@[j], iv[j]),
        decreases items@.len() - i,
    {
        let item = &items[i];
        let uid = match item.value {
            JsonValue::Object(o) => match item_uid(item.key, o) {
                Some(u) => Some(u),
                None => key_text(item.key),
            },
            _ => key_text(item.key),
        };
        let ghost before = out@;
        out.push(Goc3Record { uid, value: item.value });
        proof {
            assert forall|j: int| 0 <= j < i + 1 implies record_of(#[trigger] out@[j], iv[j]) by {
                if j < i {
                    assert(out@[j] == before[j]);
                }
            }
        }
        i = i + 1;
    }
    assert(section_holds(parent@, name@, iv));
    Ok(out)
}

/// The uid of a bus item, or the error on it.
pub open spec fn bus_item_uid(item: (Option<Seq<char>>, JsonValue)) -> Result<Seq<char>, Seq<char>> {
    match item.1 {
        JsonValue::Object(o) => match item_uid_spec(item.0, o@) {
            Some(u) => Ok(u),
            None => Err("bus section item missing `uid`"@),
        },
        _ => Err("bus section item is not an object"@),
    }
}

/// The uids of the first `n` bus items, or the error on the first item
/// without one.
pub open spec fn bus_uids(items: Seq<(Option<Seq<char>>, JsonValue)>, n: int) -> Result<Seq<Seq<char>>, Seq<char>>
    decreases n,
{
    if n <= 0 {
        Ok(Seq::empty())
    } else {
        match bus_uids(items, n - 1) {
            Err(e) => Err(e),
            Ok(us) => match bus_item_uid(items[n - 1]) {
                Ok(u) => Ok(us.push(u)),
                Err(e) => Err(e),
            },
        }
    }
}

/// The bus identities of the items of the bus section: the numeric
/// `bus_<n>` suffix plus one when every bus has one and they are unique,
/// else the one-based position in document order.
pub fn bus_id_by_uid(items: &Vec<SectionItem>) -> (r: Result<Goc3BusMap, String>)
    ensures
        match (r, bus_uids(item_views(items@), items@.len() as int)) {
            (Ok(m), Ok(us)) => m.by_uid@.len() == us.len() && forall|i: int|
                0 <= i < us.len() ==> (#[trigger] m.by_uid@[i]).0@ == us[i] && m.by_uid@[i].1 == bus_id_spec(us, i),
            (Err(e), Err(f)) => e@ == f,
            _ => false,
        },
{
    let ghost iv = item_views(items@);
    let mut uids: Vec<String> = Vec::new();
    let mut i: usize = 0;
    assert(views(uids@) =~= Seq::<Seq<char>>::empty());
    while i < items.len()
        invariant
            i <= items@.len(),
            iv == item_views(items@),
            uids@.len() == i,
            bus_uids(iv, i as int) == Ok::<Seq<Seq<char>>, Seq<char>>(views(uids@)),
        decreases items@.len() - i,
    {
        let item = &items[i];
        let ghost before = uids@;
        match item.value {
            JsonValue::Object(o) => match item_uid(item.key, o) {
                Some(u) => {
                    uids.push(u);
                    assert(views(uids@) =~= views(before).push(uids@[i as int]@));
                },
                None => {
                    let m = chars_of("bus section item missing `uid`");
                    proof {
                        lemma_bus_uids_fail(iv, i as int + 1, items@.len() as int);
                    }
                    return Err(string_of(&m));
                },
            },
            _ => {
                let m = chars_of("bus section item is not an object");
                proof {
                    lemma_bus_uids_fail(iv, i as int + 1, items@.len() as int);
                }
                return Err(string_of(&m));
            },
        }
        i = i + 1;
    }
    let ids = bus_ids(&uids);
    let mut by_uid: Vec<(String, usize)> = Vec::new();
    let mut j: usize = 0;
    let ghost us = views(uids@);
    while j < uids.len()
        invariant
            j <= uids@.len() == ids@.len(),
            us == views(uids@),
            by_uid@.len() == j,
            forall|k: int| 0 <= k < uids@.len() ==> #[trigger] ids@[k] == bus_id_spec(us, k),
            forall|k: int| 0 <= k < j ==> (#[trigger] by_uid@[k]).0@ == us[k] && by_uid@[k].1 == bus_id_spec(us, k),
        decreases uids@.len() - j,
    {
        let cs = chars_of(uids[j].as_str());
        let ghost before = by_uid@;
        by_uid.push((string_of(&cs), ids[j]));
        proof {
            assert forall|k: int| 0 <= k < j + 1 implies (#[trigger] by_uid@[k]).0@ == us[k] && by_uid@[k].1
                == bus_id_spec(us, k) by {
                if k < j {
                    assert(by_uid@[k] == before[k]);
                }
            }
        }
        j = j + 1;
    }
    Ok(Goc3BusMap { by_uid })
}

proof fn lemma_bus_uids_fail(items: Seq<(Option<Seq<char>>, JsonValue)>, i: int, n: int)
    requires
        1 <= i <= n <= items.len(),
        bus_uids(items, i) is Err,
    ensures
        bus_uids(items, n) == bus_uids(items, i),
    decreases n - i,
{
    if n > i {
        lemma_bus_uids_fail(items, i, n - 1);
    }
}

/// A GO Challenge 3 document: the members of its top level object.
pub struct Goc3Document {
    root: Vec<(String, JsonValue)>,
}

impl View for Goc3Document {
    type V = Seq<(String, JsonValue)>;

    closed spec fn view(&self) -> Self::V {
        self.root@
    }
}

/// The members of object `name` of `root`, or the error that it is missing.
pub open spec fn object_member(root: Seq<(String, JsonValue)>, name: Seq<char>) -> Option<Seq<(String, JsonValue)>> {
    match member(root, name) {
        Some(JsonValue::Object(m)) => Some(m@),
        _ => None,
    }
}

impl Goc3Document {
    /// The document of a decoded JSON value, which must be an object.
    pub fn from_value(value: JsonValue) -> (r: Result<Goc3Document, String>)
        ensures
            match value {
                JsonValue::Object(m) => r matches Ok(d) && d@ == m@,
                _ => r matches Err(e) && e@ == "top level is not a JSON object"@,
            },
    {
        match value {
            JsonValue::Object(root) => Ok(Goc3Document { root }),
            _ => {
                let m = chars_of("top level is not a JSON object");
                Err(string_of(&m))
            },
        }
    }

    /// The members of the top level object.
    pub fn root(&self) -> (r: &Vec<(String, JsonValue)>)
        ensures
            r@ == self@,
    {
        &self.root
    }

    fn object(&self, name: &str, missing: &str) -> (r: Result<&Vec<(String, JsonValue)>, String>)
        ensures
            match object_member(self@, name@) {
                Some(m) => r matches Ok(o) && o@ == m,
                None => r matches Err(e) && e@ == missing@,
            },
    {
        match get(&self.root, name) {
            Some(JsonValue::Object(m)) => Ok(m),
            _ => {
                let cs = chars_of(missing);
                Err(string_of(&cs))
            },
        }
    }

    /// The `network` object.
    pub fn network(&self) -> (r: Result<&Vec<(String, JsonValue)>, String>)
        ensures
            match object_member(self@, "network"@) {
                Some(m) => r matches Ok(o) && o@ == m,
                None => r matches Err(e) && e@ == "missing object `network`"@,
            },
    {
        self.object("network", "missing object `network`")
    }

    /// The `time_series_input` object.
    pub fn time_series_input(&self) -> (r: Result<&Vec<(String, JsonValue)>, String>)
        ensures
            match object_member(self@, "time_series_input"@) {
                Some(m) => r matches Ok(o) && o@ == m,
                None => r matches Err(e) && e@ == "missing object `time_series_input`"@,
            },
    {
        self.object("time_series_input", "missing object `time_series_input`")
    }

    /// The `reliability` object, when there is one.
    pub fn reliability(&self) -> (r: Option<&Vec<(String, JsonValue)>>)
        ensures
            match object_member(self@, "reliability"@) {
                Some(m) => r matches Some(o) && o@ == m,
                None => r is None,
            },
    {
        match get(&self.root, "reliability") {
            Some(JsonValue::Object(m)) => Some(m),
            _ => None,
        }
    }

    /// The records of a network section in document order.
    pub fn network_records(&self, name: &str) -> (r: Result<Vec<Goc3Record<'_>>, String>)
        ensures
            match object_member(self@, "network"@) {
                Some(m) => {
                    &&& match r {
                        Ok(v) => records_hold(m, name@, v@),
                        Err(e) => section_error(m, name@) == Some(e@),
                    }
                    &&& section_error(m, name@) is None ==> r is Ok
                },
                None => r matches Err(e) && e@ == "missing object `network`"@,
            },
    {
        let m = self.network()?;
        records(m, name)
    }

    /// The records of a time series input section in document order.
    pub fn time_series_input_records(&self, name: &str) -> (r: Result<Vec<Goc3Record<'_>>, String>)
        ensures
            match object_member(self@, "time_series_input"@) {
                Some(m) => {
                    &&& match r {
                        Ok(v) => records_hold(m, name@, v@),
                        Err(e) => section_error(m, name@) == Some(e@),
                    }
                    &&& section_error(m, name@) is None ==> r is Ok
                },
                None => r matches Err(e) && e@ == "missing object `time_series_input`"@,
            },
    {
        let m = self.time_series_input()?;
        records(m, name)
    }
}

/// What a simple dispatchable device feeds: the generator rows or the load
/// rows.
#[derive(Clone, Copy, Debug, PartialEq, Eq, Structural)]
pub enum Goc3DeviceKind {
    Generators,
    Loads,
}

/// One simple dispatchable device: its kind, its uid and its members.
pub struct Goc3DeviceRecord<'a> {
    pub kind: Goc3DeviceKind,
    pub uid: Option<String>,
    pub obj: &'a Vec<(String, JsonValue)>,
}

/// The text of an optional string.
pub open spec fn opt_view(s: Option<String>) -> Option<Seq<char>> {
    match s {
        Some(t) => Some(t@),
        None => None,
    }
}

/// Device records as kinds, uids and members.
pub open spec fn device_views(v: Seq<Goc3DeviceRecord>) -> Seq<(Goc3DeviceKind, Option<Seq<char>>, Seq<(String, JsonValue)>)> {
    v.map_values(|r: Goc3DeviceRecord| (r.kind, opt_view(r.uid), r.obj@))
}

/// Whether one of `rows` has uid `u`.
pub open spec fn uid_taken(rows: Seq<(Goc3DeviceKind, Option<Seq<char>>, Seq<(String, JsonValue)>)>, u: Seq<char>) -> bool {
    exists|i: int| 0 <= i < rows.len() && #[trigger] rows[i].1 == Some(u)
}

/// The device rows of the first `n` items of the device section, or the
/// error on the first item that is not an object, repeats a uid, or states
/// a device type other than `producer` (the default) or `consumer`.
pub open spec fn device_outcome(items: Seq<(Option<Seq<char>>, JsonValue)>, n: int) -> Result<
    Seq<(Goc3DeviceKind, Option<Seq<char>>, Seq<(String, JsonValue)>)>,
    Seq<char>,
>
    decreases n,
{
    if n <= 0 {
        Ok(Seq::empty())
    } else {
        match device_outcome(items, n - 1) {
            Err(e) => Err(e),
            Ok(rows) => match items[n - 1].1 {
                JsonValue::Object(o) => {
                    let uid = item_uid_spec(items[n - 1].0, o@);
                    let t = match str_of(member(o@, "device_type"@)) {
                        Some(t) => t,
                        None => "producer"@,
                    };
                    if uid is Some && uid_taken(rows, uid->Some_0) {
                        Err("duplicate simple_dispatchable_device uid `"@ + uid->Some_0 + "`"@)
                    } else if t == "producer"@ {
                        Ok(rows.push((Goc3DeviceKind::Generators, uid, o@)))
                    } else if t == "consumer"@ {
                        Ok(rows.push((Goc3DeviceKind::Loads, uid, o@)))
                    } else {
                        Err(
                            "simple_dispatchable_device `"@ + (match uid {
                                Some(u) => u,
                                None => "?"@,
                            }) + "` has unsupported `device_type` `"@ + t + "`"@,
                        )
                    }
                },
                other => Err("`network.simple_dispatchable_device` record is not an object, got "@ + kind_spec(other)),
            },
        }
    }
}

proof fn lemma_device_outcome_fail(items: Seq<(Option<Seq<char>>, JsonValue)>, i: int, n: int)
    requires
        1 <= i <= n <= items.len(),
        device_outcome(items, i) is Err,
    ensures
        device_outcome(items, n) == device_outcome(items, i),
    decreases n - i,
{
    if n > i {
        lemma_device_outcome_fail(items, i, n - 1);
    }
}

/// The simple dispatchable devices in section order with the rows they
/// feed; uids may not repeat.
pub fn device_rows<'a>(network: &'a Vec<(String, JsonValue)>) -> (r: Result<Vec<Goc3DeviceRecord<'a>>, String>)
    ensures
        match section_error(network@, "simple_dispatchable_device"@) {
            Some(e0) => r matches Err(e) && e@ == e0,
            None => exists|items: Seq<(Option<Seq<char>>, JsonValue)>|
                section_holds(network@, "simple_dispatchable_device"@, items) && match r {
                    Ok(v) => device_outcome(items, items.len() as int) == Ok::<
                        Seq<(Goc3DeviceKind, Option<Seq<char>>, Seq<(String, JsonValue)>)>,
                        Seq<char>,
                    >(device_views(v@)),
                    Err(e) => device_outcome(items, items.len() as int) == Err::<
                        Seq<(Goc3DeviceKind, Option<Seq<char>>, Seq<(String, JsonValue)>)>,
                        Seq<char>,
                    >(e@),
                },
        },
{
    let items = match section(network, "simple_dispatchable_device") {
        Ok(items) => items,
        Err(e) => {
            return Err(e);
        },
    };
    let ghost iv = item_views(items@);
    let mut rows: Vec<Goc3DeviceRecord<'a>> = Vec::new();
    let mut i: usize = 0;
    assert(device_views(rows@) =~= Seq::<(Goc3DeviceKind, Option<Seq<char>>, Seq<(String, JsonValue)>)>::empty());
    while i < items.len()
        invariant
            i <= items@.len(),
            iv == item_views(items@),
            section_holds(network@, "simple_dispatchable_device"@, iv),
            device_outcome(iv, i as int) == Ok::<
                Seq<(Goc3DeviceKind, Option<Seq<char>>, Seq<(String, JsonValue)>)>,
                Seq<char>,
            >(device_views(rows@)),
        decreases items@.len() - i,
    {
        let item = &items[i];
        let ghost dv = device_views(rows@);
        let obj = match item.value {
            JsonValue::Object(o) => o,
            other => {
                let mut m: Vec<char> = Vec::new();
                push_str(&mut m, "`network.simple_dispatchable_device` record is not an object, got ");
                push_str(&mut m, kind(other));
                proof {
                    lemma_device_outcome_fail(iv, i as int + 1, iv.len() as int);
                }
                return Err(string_of(&m));
            },
        };
        assert(iv[i as int] == (key_view(item.key), JsonValue::Object(*obj)));
        let uid = item_uid(item.key, obj);
        if let Some(u) = &uid {
            let uc = chars_of(u.as_str());
            let mut j: usize = 0;
            while j < rows.len()
                invariant
                    j <= rows@.len(),
                    dv == device_views(rows@),
                    uc@ == u@,
                    i < items@.len(),
                    iv == item_views(items@),
                    section_holds(network@, "simple_dispatchable_device"@, iv),
                    device_outcome(iv, i as int) == Ok::<
                        Seq<(Goc3DeviceKind, Option<Seq<char>>, Seq<(String, JsonValue)>)>,
                        Seq<char>,
                    >(dv),
                    iv[i as int] == (key_view(item.key), JsonValue::Object(*obj)),
                    item_uid_spec(key_view(item.key), obj@) == Some(u@),
                    forall|w: int| 0 <= w < j ==> dv[w].1 != Some(u@),
                decreases rows@.len() - j,
            {
                let same = match &rows[j].uid {
                    Some(other) => crate::text::chars_eq(&chars_of(other.as_str()), &uc),
                    None => false,
                };
                if same {
                    assert(dv[j as int].1 == Some(u@));
                    let mut m: Vec<char> = Vec::new();
                    push_str(&mut m, "duplicate simple_dispatchable_device uid `");
                    push_str(&mut m, u.as_str());
                    push_str(&mut m, "`");
                    proof {
                        lemma_device_outcome_fail(iv, i as int + 1, iv.len() as int);
                    }
                    return Err(string_of(&m));
                }
                j = j + 1;
            }
        }
        let t = match get(obj, "device_type") {
            Some(JsonValue::Str(t)) => chars_of(t.as_str()),
            _ => chars_of("producer"),
        };
        let k = if crate::text::chars_eq(&t, &chars_of("producer")) {
            Goc3DeviceKind::Generators
        } else if crate::text::chars_eq(&t, &chars_of("consumer")) {
            Goc3DeviceKind::Loads
        } else {
            let mut m: Vec<char> = Vec::new();
            push_str(&mut m, "simple_dispatchable_device `");
            match &uid {
                Some(u) => push_str(&mut m, u.as_str()),
                None => push_str(&mut m, "?"),
            }
            push_str(&mut m, "` has unsupported `device_type` `");
            crate::text::push_chars(&mut m, &t);
            push_str(&mut m, "`");
            proof {
                lemma_device_outcome_fail(iv, i as int + 1, iv.len() as int);
            }
            return Err(string_of(&m));
        };
        rows.push(Goc3DeviceRecord { kind: k, uid, obj });
        assert(device_views(rows@) =~= dv.push((k, opt_view(uid), obj@)));
        i = i + 1;
    }
    Ok(rows)
}

/// The load flow role a bus record's `type` names; PQ otherwise.
pub open spec fn bus_type_of(obj: Seq<(String, JsonValue)>) -> BusType {
    match str_of(member(obj, "type"@)) {
        Some(t) => if t == "PV"@ {
            BusType::Pv
        } else if t == "Slack"@ {
            BusType::Ref
        } else if t == "Not_used"@ {
            BusType::Isolated
        } else {
            BusType::Pq
        },
        None => BusType::Pq,
    }
}

/// The uids and members of the first `n` bus items, or the error on the
/// first that is not an object, has no uid, or repeats one.
pub open spec fn bus_records_outcome(items: Seq<(Option<Seq<char>>, JsonValue)>, n: int) -> Result<
    Seq<(Seq<char>, Seq<(String, JsonValue)>)>,
    Seq<char>,
>
    decreases n,
{
    if n <= 0 {
        Ok(Seq::empty())
    } else {
        match bus_records_outcome(items, n - 1) {
            Err(e) => Err(e),
            Ok(rows) => match items[n - 1].1 {
                JsonValue::Object(o) => match item_uid_spec(items[n - 1].0, o@) {
                    None => Err("bus record missing `uid`"@),
                    Some(u) => if exists|i: int| 0 <= i < rows.len() && #[trigger] rows[i].0 == u {
                        Err("duplicate bus uid `"@ + u + "`"@)
                    } else {
                        Ok(rows.push((u, o@)))
                    },
                },
                other => Err("`network.bus` record is not an object, got "@ + kind_spec(other)),
            },
        }
    }
}

proof fn lemma_bus_records_fail(items: Seq<(Option<Seq<char>>, JsonValue)>, i: int, n: int)
    requires
        1 <= i <= n <= items.len(),
        bus_records_outcome(items, i) is Err,
    ensures
        bus_records_outcome(items, n) == bus_records_outcome(items, i),
    decreases n - i,
{
    if n > i {
        lemma_bus_records_fail(items, i, n - 1);
    }
}

/// One bus record: its uid, its identity, its load flow role and its
/// members.
pub struct Goc3BusRow<'a> {
    pub uid: String,
    pub id: usize,
    pub kind: BusType,
    pub obj: &'a Vec<(String, JsonValue)>,
}

/// The uids of bus records.
pub open spec fn row_uids(rows: Seq<(Seq<char>, Seq<(String, JsonValue)>)>) -> Seq<Seq<char>> {
    rows.map_values(|r: (Seq<char>, Seq<(String, JsonValue)>)| r.0)
}

/// Whether `v` and `m` are the bus rows and the identity map of `rows`.
pub open spec fn bus_rows_hold(rows: Seq<(Seq<char>, Seq<(String, JsonValue)>)>, v: Seq<Goc3BusRow>, m: Seq<(String, usize)>) -> bool {
    &&& v.len() == rows.len() && m.len() == rows.len()
    &&& forall|i: int|
        0 <= i < v.len() ==> {
            &&& (#[trigger] v[i]).uid@ == rows[i].0
            &&& v[i].id == bus_id_spec(row_uids(rows), i)
            &&& v[i].kind == bus_type_of(rows[i].1)
            &&& v[i].obj@ == rows[i].1
            &&& m[i].0@ == rows[i].0
            &&& m[i].1 == v[i].id
        }
}

/// The bus records of the network in section order, with their
/// identities and load flow roles, and the map from uid to identity; the
/// bus section must be non-empty and its uids distinct.
pub fn bus_rows<'a>(network: &'a Vec<(String, JsonValue)>) -> (r: Result<(Vec<Goc3BusRow<'a>>, Goc3BusMap), String>)
    ensures
        match section_error(network@, "bus"@) {
            Some(e0) => r matches Err(e) && e@ == e0,
            None => exists|items: Seq<(Option<Seq<char>>, JsonValue)>|
                section_holds(network@, "bus"@, items) && if items.len() == 0 {
                    r matches Err(e) && e@ == "missing non-empty `network.bus` section"@
                } else {
                    match (r, bus_records_outcome(items, items.len() as int)) {
                        (Ok((v, m)), Ok(rows)) => bus_rows_hold(rows, v@, m.by_uid@),
                        (Err(e), Err(f)) => e@ == f,
                        _ => false,
                    }
                },
        },
{
    let items = match section(network, "bus") {
        Ok(items) => items,
        Err(e) => {
            return Err(e);
        },
    };
    let ghost iv = item_views(items@);
    if items.len() == 0 {
        let m = chars_of("missing non-empty `network.bus` section");
        return Err(string_of(&m));
    }
    let mut uids: Vec<String> = Vec::new();
    let mut objs: Vec<&'a Vec<(String, JsonValue)>> = Vec::new();
    let mut i: usize = 0;
    while i < items.len()
        invariant
            i <= items@.len(),
            iv == item_views(items@),
            section_holds(network@, "bus"@, iv),
            uids@.len() == i && objs@.len() == i,
            bus_records_outcome(iv, i as int) matches Ok(rows) && rows.len() == i && forall|k: int|
                0 <= k < i ==> rows[k].0 == (#[trigger] uids@[k])@ && rows[k].1 == objs@[k]@,
        decreases items@.len() - i,
    {
        let item = &items[i];
        let ghost rows = bus_records_outcome(iv, i as int)->Ok_0;
        let obj = match item.value {
            JsonValue::Object(o) => o,
            other => {
                let mut m: Vec<char> = Vec::new();
                push_str(&mut m, "`network.bus` record is not an object, got ");
                push_str(&mut m, kind(other));
                proof {
                    lemma_bus_records_fail(iv, i as int + 1, iv.len() as int);
                }
                return Err(string_of(&m));
            },
        };
        assert(iv[i as int] == (key_view(item.key), JsonValue::Object(*obj)));
        let uid = match item_uid(item.key, obj) {
            Some(u) => u,
            None => {
                let m = chars_of("bus record missing `uid`");
                proof {
                    lemma_bus_records_fail(iv, i as int + 1, iv.len() as int);
                }
                return Err(string_of(&m));
            },
        };
        let uc = chars_of(uid.as_str());
        let mut j: usize = 0;
        while j < uids.len()
            invariant
                j <= uids@.len() == rows.len(),
                uc@ == uid@,
                i < items@.len(),
                iv == item_views(items@),
                iv.len() == items@.len(),
                section_holds(network@, "bus"@, iv),
                bus_records_outcome(iv, i as int) == Ok::<Seq<(Seq<char>, Seq<(String, JsonValue)>)>, Seq<char>>(rows),
                iv[i as int] == (key_view(item.key), JsonValue::Object(*obj)),
                item_uid_spec(key_view(item.key), obj@) == Some(uid@),
                forall|k: int| 0 <= k < rows.len() ==> rows[k].0 == (#[trigger] uids@[k])@,
                forall|k: int| 0 <= k < j ==> rows[k].0 != uid@,
            decreases uids@.len() - j,
        {
            if crate::text::chars_eq(&chars_of(uids[j].as_str()), &uc) {
                assert(rows[j as int].0 == uid@);
                let mut m: Vec<char> = Vec::new();
                push_str(&mut m, "duplicate bus uid `");
                push_str(&mut m, uid.as_str());
                push_str(&mut m, "`");
                proof {
                    lemma_bus_records_fail(iv, i as int + 1, iv.len() as int);
                }
                return Err(string_of(&m));
            }
            j = j + 1;
        }
        assert(!exists|k: int| 0 <= k < rows.len() && #[trigger] rows[k].0 == uid@);
        uids.push(uid);
        objs.push(obj);
        proof {
            let rows1 = bus_records_outcome(iv, i as int + 1)->Ok_0;
            assert(rows1 == rows.push((uid@, obj@)));
            assert forall|k: int| 0 <= k < i + 1 implies rows1[k].0 == (#[trigger] uids@[k])@ && rows1[k].1
                == objs@[k]@ by {
                if k < i {
                    assert(rows1[k] == rows[k]);
                }
            }
        }
        i = i + 1;
    }
    let ghost rows = bus_records_outcome(iv, iv.len() as int)->Ok_0;
    assert(views(uids@) =~= row_uids(rows));
    let ids = bus_ids(&uids);
    let mut out: Vec<Goc3BusRow<'a>> = Vec::new();
    let mut by_uid: Vec<(String, usize)> = Vec::new();
    let mut k: usize = 0;
    while k < uids.len()
        invariant
            k <= uids@.len() == objs@.len() == ids@.len() == rows.len(),
            views(uids@) == row_uids(rows),
            forall|q: int| 0 <= q < rows.len() ==> rows[q].0 == (#[trigger] uids@[q])@ && rows[q].1 == objs@[q]@,
            forall|q: int| 0 <= q < uids@.len() ==> #[trigger] ids@[q] == bus_id_spec(views(uids@), q),
            out@.len() == k && by_uid@.len() == k,
            forall|q: int|
                0 <= q < k ==> {
                    &&& (#[trigger] out@[q]).uid@ == rows[q].0
                    &&& out@[q].id == bus_id_spec(row_uids(rows), q)
                    &&& out@[q].kind == bus_type_of(rows[q].1)
                    &&& out@[q].obj@ == rows[q].1
                    &&& by_uid@[q].0@ == rows[q].0
                    &&& by_uid@[q].1 == out@[q].id
                },
        decreases uids@.len() - k,
    {
        let obj = objs[k];
        let kind = match get(obj, "type") {
            Some(JsonValue::Str(t)) => {
                let tc = chars_of(t.as_str());
                if crate::text::chars_eq(&tc, &chars_of("PV")) {
                    BusType::Pv
                } else if crate::text::chars_eq(&tc, &chars_of("Slack")) {
                    BusType::Ref
                } else if crate::text::chars_eq(&tc, &chars_of("Not_used")) {
                    BusType::Isolated
                } else {
                    BusType::Pq
                }
            },
            _ => BusType::Pq,
        };
        let u1 = string_of(&chars_of(uids[k].as_str()));
        let u2 = string_of(&chars_of(uids[k].as_str()));
        let ghost before = out@;
        let ghost mbefore = by_uid@;
        out.push(Goc3BusRow { uid: u1, id: ids[k], kind, obj });
        by_uid.push((u2, ids[k]));
        proof {
            assert forall|q: int| 0 <= q < k + 1 implies {
                &&& (#[trigger] out@[q]).uid@ == rows[q].0
                &&& out@[q].id == bus_id_spec(row_uids(rows), q)
                &&& out@[q].kind == bus_type_of(rows[q].1)
                &&& out@[q].obj@ == rows[q].1
                &&& by_uid@[q].0@ == rows[q].0
                &&& by_uid@[q].1 == out@[q].id
            } by {
                if q < k {
                    assert(out@[q] == before[q] && by_uid@[q] == mbefore[q]);
                }
            }
        }
        k = k + 1;
    }
    Ok((out, Goc3BusMap { by_uid }))
}

/// The entries a time series item contributes: under its key, then under
/// its `uid` string.
pub open spec fn series_entries_of(item: (Option<Seq<char>>, JsonValue)) -> Seq<(Seq<char>, JsonValue)> {
    let by_key = match item.0 {
        Some(k) => seq![(k, item.1)],
        None => Seq::empty(),
    };
    let by_uid = match item.1 {
        JsonValue::Object(o) => match str_of(member(o@, "uid"@)) {
            Some(u) => seq![(u, item.1)],
            None => Seq::empty(),
        },
        _ => Seq::empty(),
    };
    by_key + by_uid
}

/// The entries of the first `n` time series items, in order; a later entry
/// under a name wins over an earlier one.
pub open spec fn series_entries(items: Seq<(Option<Seq<char>>, JsonValue)>, n: int) -> Seq<(Seq<char>, JsonValue)>
    decreases n,
{
    if n <= 0 {
        Seq::empty()
    } else {
        series_entries(items, n - 1) + series_entries_of(items[n - 1])
    }
}

/// Named entries as names and values.
pub open spec fn entry_views(v: Seq<(String, &JsonValue)>) -> Seq<(Seq<char>, JsonValue)> {
    v.map_values(|e: (String, &JsonValue)| (e.0@, *e.1))
}

/// The time series of the simple dispatchable devices by key and by uid,
/// in section order: a later entry under a name wins over an earlier one.
/// Without time series input there are none.
pub fn device_time_series<'a>(time_series: Option<&'a Vec<(String, JsonValue)>>) -> (r: Result<
    Vec<(String, &'a JsonValue)>,
    String,
>)
    ensures
        match time_series {
            None => r matches Ok(v) && v@.len() == 0,
            Some(ts) => match section_error(ts@, "simple_dispatchable_device"@) {
                Some(e0) => r matches Err(e) && e@ == e0,
                None => exists|items: Seq<(Option<Seq<char>>, JsonValue)>|
                    section_holds(ts@, "simple_dispatchable_device"@, items) && (r matches Ok(v) && entry_views(v@)
                        == series_entries(items, items.len() as int)),
            },
        },
{
    let ts = match time_series {
        Some(ts) => ts,
        None => {
            return Ok(Vec::new());
        },
    };
    let items = match section(ts, "simple_dispatchable_device") {
        Ok(items) => items,
        Err(e) => {
            return Err(e);
        },
    };
    let ghost iv = item_views(items@);
    let mut out: Vec<(String, &'a JsonValue)> = Vec::new();
    let mut i: usize = 0;
    assert(entry_views(out@) =~= Seq::<(Seq<char>, JsonValue)>::empty());
    while i < items.len()
        invariant
            i <= items@.len(),
            iv == item_views(items@),
            entry_views(out@) == series_entries(iv, i as int),
        decreases items@.len() - i,
    {
        let item = &items[i];
        let ghost before = entry_views(out@);
        if let Some(k) = item.key {
            out.push((string_of(&chars_of(k.as_str())), item.value));
        }
        if let JsonValue::Object(o) = item.value {
            if let Some(JsonValue::Str(u)) = get(o, "uid") {
                out.push((string_of(&chars_of(u.as_str())), item.value));
            }
        }
        proof {
            let e = series_entries_of(iv[i as int]);
            assert(iv[i as int] == (key_view(item.key), *item.value));
            assert(entry_views(out@) =~= before + e);
        }
        i = i + 1;
    }
    Ok(out)
}

/// The findings on the parts of a document the static network leaves in
/// the source: the time series input, the contingencies, the zonal
/// reserves and violation costs, and the device commitment data.
pub open spec fn static_reduction_findings(root: Seq<(String, JsonValue)>, network: Seq<(String, JsonValue)>, devices: bool) -> Seq<
    Seq<char>,
> {
    (if member(root, "time_series_input"@) is Some {
        seq!["time_series_input reduced to the first interval for static BalancedNetwork dispatch and limits"@]
    } else {
        Seq::empty()
    }) + (if member(root, "reliability"@) is Some {
        seq!["reliability contingencies retained in source only"@]
    } else {
        Seq::empty()
    }) + (if member(network, "active_zonal_reserve"@) is Some {
        seq!["network.active_zonal_reserve retained in source only"@]
    } else {
        Seq::empty()
    }) + (if member(network, "reactive_zonal_reserve"@) is Some {
        seq!["network.reactive_zonal_reserve retained in source only"@]
    } else {
        Seq::empty()
    }) + (if member(network, "violation_cost"@) is Some {
        seq!["network.violation_cost retained in source only"@]
    } else {
        Seq::empty()
    }) + (if devices {
        seq![
            "simple dispatchable device commitment, ramp, reserve, and multi-interval cost data retained in source only"@,
        ]
    } else {
        Seq::empty()
    })
}

/// The findings on what the static network reduction leaves in the source;
/// the device finding comes when the device section has items.
pub fn static_reduction_findings_of(root: &Vec<(String, JsonValue)>, network: &Vec<(String, JsonValue)>) -> (r: Vec<String>)
    ensures
        exists|devices: bool|
            views(r@) == static_reduction_findings(root@, network@, devices) && (devices <==> exists|
                items: Seq<(Option<Seq<char>>, JsonValue)>,
            | section_holds(network@, "simple_dispatchable_device"@, items) && items.len() > 0),
{
    let mut out: Vec<String> = Vec::new();
    if get(root, "time_series_input").is_some() {
        out.push(
            string_of(
                &chars_of("time_series_input reduced to the first interval for static BalancedNetwork dispatch and limits"),
            ),
        );
    }
    if get(root, "reliability").is_some() {
        out.push(string_of(&chars_of("reliability contingencies retained in source only")));
    }
    if get(network, "active_zonal_reserve").is_some() {
        out.push(string_of(&chars_of("network.active_zonal_reserve retained in source only")));
    }
    if get(network, "reactive_zonal_reserve").is_some() {
        out.push(string_of(&chars_of("network.reactive_zonal_reserve retained in source only")));
    }
    if get(network, "violation_cost").is_some() {
        out.push(string_of(&chars_of("network.violation_cost retained in source only")));
    }
    let devices = match section(network, "simple_dispatchable_device") {
        Ok(items) => items.len() > 0,
        Err(_) => false,
    };
    if devices {
        out.push(
            string_of(
                &chars_of(
                    "simple dispatchable device commitment, ramp, reserve, and multi-interval cost data retained in source only",
                ),
            ),
        );
    }
    proof {
        assert(views(out@) =~= static_reduction_findings(root@, network@, devices));
    }
    out
}

/// The identity of the bus a record names under `key`, or the error that
/// the name is missing or unknown.
pub fn bus_ref(obj: &Vec<(String, JsonValue)>, key: &str, buses: &Goc3BusMap) -> (r: Result<usize, String>)
    ensures
        match str_of(member(obj@, key@)) {
            None => r matches Err(e) && e@ == "missing string `"@ + key@ + "`"@,
            Some(u) => match last_entry(buses.by_uid@, u, buses.by_uid@.len() as int) {
                Some(id) => r == Ok::<usize, String>(id),
                None => r matches Err(e) && e@ == "unknown bus uid `"@ + u + "`"@,
            },
        },
{
    match get(obj, key) {
        Some(JsonValue::Str(u)) => buses.get(u.as_str()),
        _ => {
            let mut m: Vec<char> = Vec::new();
            push_str(&mut m, "missing string `");
            push_str(&mut m, key);
            push_str(&mut m, "`");
            Err(string_of(&m))
        },
    }
}

} // verus!
