//! Reading a decoded DGS document: objects by class, attribute values by
//! name.

use vstd::prelude::*;

use super::header::{ClassHeader, ClassHeaderV};
use super::tokens::{document_wf, DgsDocument, DgsDocumentV, DgsObject, DgsObjectV};
use super::values::{DgsValue, DgsValueV, RefKey, RefKeyV};
use crate::decimal::{real_integer, real_integer_value};
use crate::text::{
    chars_eq, chars_less, chars_lt, chars_of, int_text, lemma_insert_sorted, lemma_lt_total, lemma_sorted_distinct,
    push_int, sorted_names, string_of,
};

verus! {

/// The class of object `k`.
pub open spec fn class_of(d: DgsDocumentV, k: int) -> Seq<char> {
    d.classes[d.objects[k].class_index as int].class
}

/// The last attribute of `attrs` named `name`: a header that declares a name
/// twice reads the later one.
pub open spec fn last_named(attrs: Seq<super::header::AttrDescV>, name: Seq<char>, n: int) -> Option<int>
    decreases n,
{
    if n <= 0 {
        None
    } else if attrs[n - 1].name == name {
        Some(n - 1)
    } else {
        last_named(attrs, name, n - 1)
    }
}

/// The value of `name` on object `k` when its table declares it and the
/// row states it.
pub open spec fn get_spec(d: DgsDocumentV, k: int, name: Seq<char>) -> Option<DgsValueV> {
    let o = d.objects[k];
    let h = d.classes[o.class_index as int];
    match last_named(h.attrs, name, h.attrs.len() as int) {
        None => None,
        Some(j) => if j < o.values.len() {
            o.values[j]
        } else {
            None
        },
    }
}

/// An integer value, also accepting a real that holds an integral value
/// below `9e15` in magnitude.
pub open spec fn int_spec(d: DgsDocumentV, k: int, name: Seq<char>) -> Option<i64> {
    match get_spec(d, k, name) {
        Some(DgsValueV::Int(v)) => Some(v),
        Some(DgsValueV::Real(t)) => match real_integer(t) {
            Some(v) => Some(v as i64),
            None => None,
        },
        _ => None,
    }
}

/// A string value.
pub open spec fn str_spec(d: DgsDocumentV, k: int, name: Seq<char>) -> Option<Seq<char>> {
    match get_spec(d, k, name) {
        Some(DgsValueV::Str(s)) => Some(s),
        _ => None,
    }
}

/// The `loc_name` attribute, or the object id spelled out when absent.
pub open spec fn name_spec(d: DgsDocumentV, k: int) -> Seq<char> {
    match str_spec(d, k, "loc_name"@) {
        Some(s) => s,
        None => int_text(d.objects[k].id as int),
    }
}

/// The objects of `class` among the first `n`, in file order.
pub open spec fn indices_upto(d: DgsDocumentV, class: Seq<char>, n: int) -> Seq<int>
    decreases n,
{
    if n <= 0 {
        Seq::empty()
    } else if class_of(d, n - 1) == class {
        indices_upto(d, class, n - 1).push(n - 1)
    } else {
        indices_upto(d, class, n - 1)
    }
}

pub open spec fn of_class_spec(d: DgsDocumentV, class: Seq<char>) -> Seq<int> {
    indices_upto(d, class, d.objects.len() as int)
}

impl DgsDocument {
    /// The class of object `k`.
    pub fn class(&self, k: usize) -> (r: &str)
        requires
            k < self.objects@.len(),
            document_wf(self@),
        ensures
            r@ == class_of(self@, k as int),
    {
        assert(self@.objects[k as int] == self.objects@[k as int]@);
        let ci = self.objects[k].class_index;
        assert(self@.classes[ci as int] == self.classes@[ci as int]@);
        self.classes[ci].class.as_str()
    }

    /// The positions of the objects of `class`, in file order.
    pub fn of_class(&self, class: &str) -> (r: Vec<usize>)
        requires
            document_wf(self@),
        ensures
            r@.map_values(|i: usize| i as int) == of_class_spec(self@, class@),
    {
        let want = chars_of(class);
        let n = self.objects.len();
        let mut out: Vec<usize> = Vec::new();
        let mut k: usize = 0;
        assert(out@.map_values(|i: usize| i as int) =~= indices_upto(self@, class@, 0));
        while k < n
            invariant
                k <= n == self.objects@.len(),
                document_wf(self@),
                want@ == class@,
                out@.map_values(|i: usize| i as int) == indices_upto(self@, class@, k as int),
            decreases n - k,
        {
            let c = chars_of(self.class(k));
            let ghost before = out@;
            if chars_eq(&c, &want) {
                out.push(k);
                assert(out@.map_values(|i: usize| i as int) =~= before.map_values(|i: usize| i as int).push(
                    k as int,
                ));
            }
            k = k + 1;
        }
        out
    }

    /// The value of `name` on object `k` when its table declares it and the
    /// row states it.
    pub fn get(&self, k: usize, name: &str) -> (r: Option<&DgsValue>)
        requires
            k < self.objects@.len(),
            document_wf(self@),
        ensures
            match r {
                Some(v) => get_spec(self@, k as int, name@) == Some(v@),
                None => get_spec(self@, k as int, name@) is None,
            },
    {
        let want = chars_of(name);
        let o = &self.objects[k];
        assert(self@.objects[k as int] == o@);
        let h = &self.classes[o.class_index];
        assert(self@.classes[o.class_index as int] == h@);
        let mut j = h.attrs.len();
        while j > 0
            invariant
                j <= h.attrs@.len(),
                want@ == name@,
                k < self.objects@.len(),
                self@.objects[k as int] == o@,
                self@.classes[o.class_index as int] == h@,
                last_named(h@.attrs, name@, h.attrs@.len() as int) == last_named(h@.attrs, name@, j as int),
            decreases j,
        {
            assert(h@.attrs[j - 1] == h.attrs@[j - 1]@);
            if chars_eq(&h.attrs[j - 1].name, &want) {
                let idx = j - 1;
                if idx < o.values.len() {
                    assert(o@.values[idx as int] == match o.values@[idx as int] {
                        Some(v) => Some(v@),
                        None => None,
                    });
                    return match &o.values[idx] {
                        Some(v) => Some(v),
                        None => None,
                    };
                }
                return None;
            }
            j = j - 1;
        }
        None
    }

    /// An integer value, also accepting a real that holds an integral value.
    pub fn int_value(&self, k: usize, name: &str) -> (r: Option<i64>)
        requires
            k < self.objects@.len(),
            document_wf(self@),
        ensures
            r == int_spec(self@, k as int, name@),
    {
        match self.get(k, name) {
            Some(DgsValue::Int(v)) => Some(*v),
            Some(DgsValue::Real(t)) => {
                let cs = chars_of(t.as_str());
                assert(cs@.subrange(0, cs@.len() as int) =~= cs@);
                real_integer_value(&cs, 0, cs.len())
            },
            _ => None,
        }
    }

    /// A string value.
    pub fn str_value(&self, k: usize, name: &str) -> (r: Option<&str>)
        requires
            k < self.objects@.len(),
            document_wf(self@),
        ensures
            match r {
                Some(s) => str_spec(self@, k as int, name@) == Some(s@),
                None => str_spec(self@, k as int, name@) is None,
            },
    {
        match self.get(k, name) {
            Some(DgsValue::Str(s)) => Some(s.as_str()),
            _ => None,
        }
    }

    /// The `loc_name` attribute, or the object id spelled out when absent.
    pub fn name(&self, k: usize) -> (r: String)
        requires
            k < self.objects@.len(),
            document_wf(self@),
        ensures
            r@ == name_spec(self@, k as int),
    {
        match self.str_value(k, "loc_name") {
            Some(s) => {
                let cs = chars_of(s);
                string_of(&cs)
            },
            None => {
                let mut m: Vec<char> = Vec::new();
                assert(self@.objects[k as int] == self.objects@[k as int]@);
                push_int(&mut m, self.objects[k].id);
                assert(m@ =~= int_text(self.objects@[k as int].id as int));
                string_of(&m)
            },
        }
    }

    /// The declared DGS version from the `$$General` table.
    pub fn version(&self) -> (r: Option<&str>)
        ensures
            match r {
                Some(v) => exists|i: int|
                    0 <= i < self@.general.len() && self@.general[i].0 == "Version"@ && self@.general[i].1 == v@
                        && forall|j: int| 0 <= j < i ==> self@.general[j].0 != "Version"@,
                None => forall|i: int| 0 <= i < self@.general.len() ==> self@.general[i].0 != "Version"@,
            },
    {
        let want = chars_of("Version");
        let mut i: usize = 0;
        while i < self.general.len()
            invariant
                i <= self.general@.len(),
                want@ == "Version"@,
                forall|j: int| 0 <= j < i ==> self@.general[j].0 != "Version"@,
            decreases self.general@.len() - i,
        {
            assert(self@.general[i as int] == (self.general@[i as int].0@, self.general@[i as int].1@));
            let d = chars_of(self.general[i].0.as_str());
            if chars_eq(&d, &want) {
                return Some(self.general[i].1.as_str());
            }
            i = i + 1;
        }
        None
    }
}

/// The first object with id `id`, among the first `n`.
pub open spec fn first_with_id(d: DgsDocumentV, id: i64, n: int) -> Option<int>
    decreases n,
{
    if n <= 0 {
        None
    } else {
        match first_with_id(d, id, n - 1) {
            Some(k) => Some(k),
            None => if d.objects[n - 1].id == id {
                Some(n - 1)
            } else {
                None
            },
        }
    }
}

/// A reference value.
pub open spec fn reference_spec(d: DgsDocumentV, k: int, name: Seq<char>) -> Option<RefKeyV> {
    match get_spec(d, k, name) {
        Some(DgsValueV::Ref(r)) => Some(r),
        _ => None,
    }
}

impl DgsDocument {
    /// The position of the first object with id `id`.
    pub fn by_id(&self, id: i64) -> (r: Option<usize>)
        ensures
            match r {
                Some(k) => k < self@.objects.len() && first_with_id(self@, id, self@.objects.len() as int) == Some(
                    k as int,
                ),
                None => first_with_id(self@, id, self@.objects.len() as int) is None,
            },
    {
        let n = self.objects.len();
        let mut k: usize = 0;
        while k < n
            invariant
                k <= n == self.objects@.len(),
                first_with_id(self@, id, k as int) is None,
            decreases n - k,
        {
            assert(self@.objects[k as int] == self.objects@[k as int]@);
            if self.objects[k].id == id {
                proof {
                    lemma_first_with_id_stays(self@, id, k as int + 1, n as int);
                }
                return Some(k);
            }
            k = k + 1;
        }
        None
    }

    /// A reference value.
    pub fn reference(&self, k: usize, name: &str) -> (r: Option<&RefKey>)
        requires
            k < self.objects@.len(),
            document_wf(self@),
        ensures
            match r {
                Some(v) => reference_spec(self@, k as int, name@) == Some(v@),
                None => reference_spec(self@, k as int, name@) is None,
            },
    {
        match self.get(k, name) {
            Some(DgsValue::Ref(r)) => Some(r),
            _ => None,
        }
    }

    /// A vector of reals, as the texts that parse as them.
    pub fn real_vec(&self, k: usize, name: &str) -> (r: Option<&Vec<String>>)
        requires
            k < self.objects@.len(),
            document_wf(self@),
        ensures
            match r {
                Some(v) => get_spec(self@, k as int, name@) == Some(
                    DgsValueV::RealVec(super::values::string_views(v@)),
                ),
                None => !(get_spec(self@, k as int, name@) matches Some(DgsValueV::RealVec(_))),
            },
    {
        match self.get(k, name) {
            Some(DgsValue::RealVec(v)) => Some(v),
            _ => None,
        }
    }

    /// A vector of references.
    pub fn ref_vec(&self, k: usize, name: &str) -> (r: Option<&Vec<RefKey>>)
        requires
            k < self.objects@.len(),
            document_wf(self@),
        ensures
            match r {
                Some(v) => get_spec(self@, k as int, name@) == Some(DgsValueV::RefVec(super::values::ref_views(v@))),
                None => !(get_spec(self@, k as int, name@) matches Some(DgsValueV::RefVec(_))),
            },
    {
        match self.get(k, name) {
            Some(DgsValue::RefVec(v)) => Some(v),
            _ => None,
        }
    }

    /// A matrix as `(rows, cols, row major data)`.
    pub fn matrix(&self, k: usize, name: &str) -> (r: Option<(usize, usize, &Vec<String>)>)
        requires
            k < self.objects@.len(),
            document_wf(self@),
        ensures
            match r {
                Some((rows, cols, data)) => get_spec(self@, k as int, name@) == Some(
                    DgsValueV::RealMatrix { rows, cols, data: super::values::string_views(data@) },
                ),
                None => !(get_spec(self@, k as int, name@) matches Some(DgsValueV::RealMatrix { .. })),
            },
    {
        match self.get(k, name) {
            Some(DgsValue::RealMatrix { rows, cols, data }) => Some((*rows, *cols, data)),
            _ => None,
        }
    }
}

proof fn lemma_first_with_id_stays(d: DgsDocumentV, id: i64, m: int, n: int)
    requires
        1 <= m <= n,
        first_with_id(d, id, m) is Some,
    ensures
        first_with_id(d, id, n) == first_with_id(d, id, m),
    decreases n - m,
{
    if m < n {
        lemma_first_with_id_stays(d, id, m, n - 1);
    }
}


/// The first object among the first `n` whose `for_name` is `name`; an empty
/// `for_name` is no key.
pub open spec fn first_with_key(d: DgsDocumentV, name: Seq<char>, n: int) -> Option<int>
    decreases n,
{
    if n <= 0 {
        None
    } else {
        match first_with_key(d, name, n - 1) {
            Some(k) => Some(k),
            None => if name.len() > 0 && str_spec(d, n - 1, "for_name"@) == Some(name) {
                Some(n - 1)
            } else {
                None
            },
        }
    }
}

/// The object a reference names: by id, or by `##for_name` foreign key.
pub open spec fn resolve_spec(d: DgsDocumentV, key: RefKeyV) -> Option<int> {
    match key {
        RefKeyV::Id(id) => first_with_id(d, id, d.objects.len() as int),
        RefKeyV::ForeignKey(name) => first_with_key(d, name, d.objects.len() as int),
    }
}

/// The object that attribute `name` of object `k` refers to.
pub open spec fn referenced_spec(d: DgsDocumentV, k: int, name: Seq<char>) -> Option<int> {
    match reference_spec(d, k, name) {
        Some(key) => resolve_spec(d, key),
        None => None,
    }
}

/// Whether object `k` names object id `id` as its parent by a foreign key.
pub open spec fn key_child_of(d: DgsDocumentV, k: int, id: i64) -> bool {
    match reference_spec(d, k, "fold_id"@) {
        Some(RefKeyV::ForeignKey(name)) => match first_with_key(d, name, d.objects.len() as int) {
            Some(p) => d.objects[p].id == id,
            None => false,
        },
        _ => false,
    }
}

/// Whether object `k` names object id `id` as its parent, by the id or by
/// a foreign key of an object with that id.
pub open spec fn child_of(d: DgsDocumentV, k: int, id: i64) -> bool {
    reference_spec(d, k, "fold_id"@) == Some(RefKeyV::Id(id)) || key_child_of(d, k, id)
}

/// The objects among the first `n` whose `fold_id` names `id`, in file
/// order.
pub open spec fn children_upto(d: DgsDocumentV, id: i64, n: int) -> Seq<int>
    decreases n,
{
    if n <= 0 {
        Seq::empty()
    } else if child_of(d, n - 1, id) {
        children_upto(d, id, n - 1).push(n - 1)
    } else {
        children_upto(d, id, n - 1)
    }
}

/// The children of `id`: the objects whose `fold_id` names it, by id or by
/// foreign key, in file order.
pub open spec fn children_spec(d: DgsDocumentV, id: i64) -> Seq<int> {
    children_upto(d, id, d.objects.len() as int)
}

/// The members of `s` whose class is `class`, in order.
pub open spec fn among_class(d: DgsDocumentV, s: Seq<int>, class: Seq<char>) -> Seq<int>
    decreases s.len(),
{
    if s.len() == 0 {
        Seq::empty()
    } else if class_of(d, s.last()) == class {
        among_class(d, s.drop_last(), class).push(s.last())
    } else {
        among_class(d, s.drop_last(), class)
    }
}

/// The stated attributes of a row as `(name, value)`, in header order,
/// among the first `n` positions.
pub open spec fn stated_upto(attrs: Seq<super::header::AttrDescV>, values: Seq<Option<DgsValueV>>, n: int) -> Seq<
    (Seq<char>, DgsValueV),
>
    decreases n,
{
    if n <= 0 {
        Seq::empty()
    } else {
        match values[n - 1] {
            Some(v) => stated_upto(attrs, values, n - 1).push((attrs[n - 1].name, v)),
            None => stated_upto(attrs, values, n - 1),
        }
    }
}

pub open spec fn stated_spec(d: DgsDocumentV, k: int) -> Seq<(Seq<char>, DgsValueV)> {
    let o = d.objects[k];
    let attrs = d.classes[o.class_index as int].attrs;
    let n = if attrs.len() < o.values.len() {
        attrs.len()
    } else {
        o.values.len()
    };
    stated_upto(attrs, o.values, n as int)
}

pub open spec fn pair_views(s: Seq<(String, &DgsValue)>) -> Seq<(Seq<char>, DgsValueV)> {
    s.map_values(|p: (String, &DgsValue)| (p.0@, p.1@))
}

impl DgsDocument {
    /// Every object in file order.
    pub fn objects(&self) -> (r: &Vec<DgsObject>)
        ensures
            r@ == self.objects@,
    {
        &self.objects
    }

    /// The class tables in header order, rows or not.
    pub fn class_headers(&self) -> (r: &Vec<ClassHeader>)
        ensures
            r@ == self.classes@,
    {
        &self.classes
    }

    /// Whether the table of object `k` declares `name`, whether or not the
    /// row states it.
    pub fn declares(&self, k: usize, name: &str) -> (r: bool)
        requires
            k < self.objects@.len(),
            document_wf(self@),
        ensures
            r == super::header::names_of(self@.classes[self@.objects[k as int].class_index as int].attrs).contains(
                name@,
            ),
    {
        assert(self@.objects[k as int] == self.objects@[k as int]@);
        let ci = self.objects[k].class_index;
        assert(self@.classes[ci as int] == self.classes@[ci as int]@);
        self.classes[ci].declares(name)
    }

    /// Every stated attribute of object `k` as `(name, value)`, in header
    /// order.
    pub fn attributes(&self, k: usize) -> (r: Vec<(String, &DgsValue)>)
        requires
            k < self.objects@.len(),
            document_wf(self@),
        ensures
            pair_views(r@) == stated_spec(self@, k as int),
    {
        let o = &self.objects[k];
        assert(self@.objects[k as int] == o@);
        let h = &self.classes[o.class_index];
        assert(self@.classes[o.class_index as int] == h@);
        let n = if h.attrs.len() < o.values.len() {
            h.attrs.len()
        } else {
            o.values.len()
        };
        let mut out: Vec<(String, &DgsValue)> = Vec::new();
        let mut j: usize = 0;
        while j < n
            invariant
                j <= n <= h.attrs@.len(),
                n <= o.values@.len(),
                pair_views(out@) == stated_upto(h@.attrs, o@.values, j as int),
            decreases n - j,
        {
            assert(h@.attrs[j as int] == h.attrs@[j as int]@);
            assert(o@.values[j as int] == match o.values@[j as int] {
                Some(v) => Some(v@),
                None => None,
            });
            let ghost before = out@;
            match &o.values[j] {
                Some(v) => {
                    out.push((string_of(&h.attrs[j].name), v));
                    assert(pair_views(out@) =~= pair_views(before).push((h@.attrs[j as int].name, v@)));
                },
                None => {},
            }
            j = j + 1;
        }
        out
    }

    /// The position of the first object whose `for_name` is `name`.
    pub fn by_key(&self, name: &str) -> (r: Option<usize>)
        requires
            document_wf(self@),
        ensures
            match r {
                Some(k) => k < self@.objects.len() && first_with_key(self@, name@, self@.objects.len() as int) == Some(
                    k as int,
                ),
                None => first_with_key(self@, name@, self@.objects.len() as int) is None,
            },
    {
        let want = chars_of(name);
        let n = self.objects.len();
        if want.len() == 0 {
            let mut j: usize = 0;
            while j < n
                invariant
                    j <= n == self.objects@.len(),
                    name@.len() == 0,
                    first_with_key(self@, name@, j as int) is None,
                decreases n - j,
            {
                j = j + 1;
            }
            return None;
        }
        let mut k: usize = 0;
        while k < n
            invariant
                k <= n == self.objects@.len(),
                document_wf(self@),
                want@ == name@,
                name@.len() > 0,
                first_with_key(self@, name@, k as int) is None,
            decreases n - k,
        {
            if let Some(s) = self.str_value(k, "for_name") {
                let cs = chars_of(s);
                if chars_eq(&cs, &want) {
                    proof {
                        lemma_first_with_key_stays(self@, name@, k as int + 1, n as int);
                    }
                    return Some(k);
                }
            }
            k = k + 1;
        }
        None
    }

    /// Resolve a reference by id or by `##for_name` foreign key.
    pub fn resolve(&self, key: &RefKey) -> (r: Option<usize>)
        requires
            document_wf(self@),
        ensures
            match r {
                Some(k) => k < self@.objects.len() && resolve_spec(self@, key@) == Some(k as int),
                None => resolve_spec(self@, key@) is None,
            },
    {
        match key {
            RefKey::Id(id) => self.by_id(*id),
            RefKey::ForeignKey(name) => self.by_key(name.as_str()),
        }
    }

    /// The object that attribute `name` of object `k` refers to, when stated
    /// and resolvable.
    pub fn referenced(&self, k: usize, name: &str) -> (r: Option<usize>)
        requires
            k < self.objects@.len(),
            document_wf(self@),
        ensures
            match r {
                Some(p) => p < self@.objects.len() && referenced_spec(self@, k as int, name@) == Some(p as int),
                None => referenced_spec(self@, k as int, name@) is None,
            },
    {
        match self.reference(k, name) {
            Some(key) => self.resolve(key),
            None => None,
        }
    }

    /// The parent that `fold_id` names, when stated and resolvable.
    pub fn parent(&self, k: usize) -> (r: Option<usize>)
        requires
            k < self.objects@.len(),
            document_wf(self@),
        ensures
            match r {
                Some(p) => p < self@.objects.len() && referenced_spec(self@, k as int, "fold_id"@) == Some(p as int),
                None => referenced_spec(self@, k as int, "fold_id"@) is None,
            },
    {
        self.referenced(k, "fold_id")
    }

    /// The objects whose `fold_id` names `id`, by id or by foreign key, in
    /// file order.
    pub fn children(&self, id: i64) -> (r: Vec<usize>)
        requires
            document_wf(self@),
        ensures
            r@.map_values(|i: usize| i as int) == children_spec(self@, id),
            forall|t: int| 0 <= t < r@.len() ==> #[trigger] r@[t] < self@.objects.len(),
    {
        let n = self.objects.len();
        let mut out: Vec<usize> = Vec::new();
        let mut k: usize = 0;
        assert(out@.map_values(|i: usize| i as int) =~= children_upto(self@, id, 0));
        while k < n
            invariant
                k <= n == self.objects@.len(),
                document_wf(self@),
                out@.map_values(|i: usize| i as int) == children_upto(self@, id, k as int),
                forall|t: int| 0 <= t < out@.len() ==> #[trigger] out@[t] < n,
            decreases n - k,
        {
            let ghost before = out@;
            let child = match self.reference(k, "fold_id") {
                Some(RefKey::Id(p)) => *p == id,
                Some(RefKey::ForeignKey(name)) => match self.by_key(name.as_str()) {
                    Some(p) => {
                        assert(self@.objects[p as int] == self.objects@[p as int]@);
                        self.objects[p].id == id
                    },
                    None => false,
                },
                None => false,
            };
            if child {
                out.push(k);
                assert(out@.map_values(|i: usize| i as int) =~= before.map_values(|i: usize| i as int).push(
                    k as int,
                ));
            }
            k = k + 1;
        }
        out
    }

    /// The children of `id` that belong to `class`.
    pub fn children_of_class(&self, id: i64, class: &str) -> (r: Vec<usize>)
        requires
            document_wf(self@),
        ensures
            r@.map_values(|i: usize| i as int) == among_class(self@, children_spec(self@, id), class@),
            forall|t: int| 0 <= t < r@.len() ==> #[trigger] r@[t] < self@.objects.len(),
    {
        let all = self.children(id);
        let want = chars_of(class);
        let ghost s = children_spec(self@, id);
        let mut out: Vec<usize> = Vec::new();
        let mut j: usize = 0;
        assert(s.take(0) =~= Seq::<int>::empty());
        while j < all.len()
            invariant
                j <= all@.len() == s.len(),
                s == all@.map_values(|i: usize| i as int),
                document_wf(self@),
                want@ == class@,
                forall|t: int| 0 <= t < all@.len() ==> #[trigger] all@[t] < self@.objects.len(),
                out@.map_values(|i: usize| i as int) == among_class(self@, s.take(j as int), class@),
                forall|t: int| 0 <= t < out@.len() ==> #[trigger] out@[t] < self@.objects.len(),
            decreases all@.len() - j,
        {
            let ghost before = out@;
            assert(s.take(j as int + 1).drop_last() =~= s.take(j as int));
            assert(s.take(j as int + 1).last() == all@[j as int] as int);
            let c = chars_of(self.class(all[j]));
            if chars_eq(&c, &want) {
                out.push(all[j]);
                assert(out@.map_values(|i: usize| i as int) =~= before.map_values(|i: usize| i as int).push(
                    all@[j as int] as int,
                ));
            }
            j = j + 1;
        }
        assert(s.take(s.len() as int) =~= s);
        out
    }
}

proof fn lemma_first_with_key_stays(d: DgsDocumentV, name: Seq<char>, m: int, n: int)
    requires
        1 <= m <= n,
        first_with_key(d, name, m) is Some,
    ensures
        first_with_key(d, name, n) == first_with_key(d, name, m),
    decreases n - m,
{
    if m < n {
        lemma_first_with_key_stays(d, name, m, n - 1);
    }
}


pub open spec fn char_views(s: Seq<Vec<char>>) -> Seq<Seq<char>> {
    s.map_values(|v: Vec<char>| v@)
}

impl DgsDocument {
    /// Row count per class, in class name order; a class without rows is not
    /// counted.
    pub fn class_counts(&self) -> (r: Vec<(String, usize)>)
        requires
            document_wf(self@),
        ensures
            forall|i: int, j: int| 0 <= i < j < r@.len() ==> chars_lt(#[trigger] r@[i].0@, #[trigger] r@[j].0@),
            forall|i: int|
                0 <= i < r@.len() ==> #[trigger] r@[i].1 == of_class_spec(self@, r@[i].0@).len() && r@[i].1 > 0,
            forall|name: Seq<char>|
                #![trigger of_class_spec(self@, name)]
                of_class_spec(self@, name).len() > 0 ==> exists|i: int| 0 <= i < r@.len() && r@[i].0@ == name,
    {
        let n = self.objects.len();
        let mut names: Vec<Vec<char>> = Vec::new();
        let mut counts: Vec<usize> = Vec::new();
        let mut k: usize = 0;
        while k < n
            invariant
                k <= n == self.objects@.len(),
                document_wf(self@),
                names@.len() == counts@.len(),
                sorted_names(char_views(names@)),
                forall|i: int|
                    0 <= i < names@.len() ==> #[trigger] counts@[i] == indices_upto(self@, names@[i]@, k as int).len()
                        && counts@[i] > 0 && counts@[i] <= k,
                forall|name: Seq<char>|
                    #![trigger indices_upto(self@, name, k as int)]
                    (forall|i: int| 0 <= i < names@.len() ==> names@[i]@ != name) ==> indices_upto(
                        self@,
                        name,
                        k as int,
                    ).len() == 0,
            decreases n - k,
        {
            let c = chars_of(self.class(k));
            let ghost vs = char_views(names@);
            let mut i: usize = 0;
            while i < names.len() && chars_less(&names[i], &c)
                invariant
                    i <= names@.len(),
                    vs == char_views(names@),
                    forall|t: int| 0 <= t < i ==> chars_lt(#[trigger] vs[t], c@),
                decreases names@.len() - i,
            {
                i = i + 1;
            }
            let ghost k1 = k as int + 1;
            if i < names.len() && chars_eq(&names[i], &c) {
                proof {
                    assert forall|t: int| 0 <= t < names@.len() && t != i implies #[trigger] vs[t] != c@ by {
                        lemma_sorted_distinct(vs, t, i as int);
                    }
                    assert forall|t: int| 0 <= t < names@.len() implies #[trigger] indices_upto(self@, vs[t], k1).len()
                        == indices_upto(self@, vs[t], k as int).len() + (if t == i {
                        1int
                    } else {
                        0
                    }) by {}
                }
                let ghost before = counts@;
                let v = counts[i] + 1;
                counts.set(i, v);
                proof {
                    assert forall|t: int| 0 <= t < names@.len() implies #[trigger] counts@[t] == indices_upto(
                        self@,
                        names@[t]@,
                        k1,
                    ).len() && counts@[t] > 0 && counts@[t] <= k1 by {
                        assert(vs[t] == names@[t]@);
                        if t != i {
                            assert(counts@[t] == before[t]);
                        }
                    }
                    assert forall|name: Seq<char>|
                        #![trigger indices_upto(self@, name, k1)]
                        (forall|t: int| 0 <= t < names@.len() ==> names@[t]@ != name) implies indices_upto(
                            self@,
                            name,
                            k1,
                        ).len() == 0 by {
                        assert(names@[i as int]@ != name);
                        assert(indices_upto(self@, name, k1) == indices_upto(self@, name, k as int));
                    }
                }
            } else {
                proof {
                    if i < names@.len() {
                        assert(vs[i as int] != c@);
                        assert(vs[i as int].subrange(0, vs[i as int].len() as int) =~= vs[i as int]);
                        assert(c@.subrange(0, c@.len() as int) =~= c@);
                        lemma_lt_total(vs[i as int], c@, 0);
                    }
                    lemma_insert_sorted(vs, i as int, c@);
                    assert forall|t: int| 0 <= t < names@.len() implies names@[t]@ != c@ by {
                        assert(vs[t] == names@[t]@);
                    }
                    assert(indices_upto(self@, c@, k as int).len() == 0);
                }
                let ghost old_counts = counts@;
                let ghost old_names = names@;
                names.insert(i, c);
                counts.insert(i, 1);
                proof {
                    assert(char_views(names@) =~= vs.insert(i as int, c@));
                    assert forall|t: int| 0 <= t < names@.len() implies #[trigger] counts@[t] == indices_upto(
                        self@,
                        names@[t]@,
                        k1,
                    ).len() && counts@[t] > 0 && counts@[t] <= k1 by {
                        if t < i {
                            assert(names@[t]@ == vs[t]);
                        } else if t > i {
                            assert(names@[t]@ == vs[t - 1]);
                            assert(counts@[t] == old_counts[t - 1]);
                        }
                    }
                    assert forall|name: Seq<char>|
                        #![trigger indices_upto(self@, name, k1)]
                        (forall|t: int| 0 <= t < names@.len() ==> names@[t]@ != name) implies indices_upto(
                            self@,
                            name,
                            k1,
                        ).len() == 0 by {
                        assert(names@[i as int]@ != name);
                        assert(indices_upto(self@, name, k1) == indices_upto(self@, name, k as int));
                        assert forall|t: int| 0 <= t < old_names.len() implies old_names[t]@ != name by {
                            assert(vs[t] == old_names[t]@);
                            if t < i {
                                assert(names@[t]@ == vs[t]);
                            } else {
                                assert(names@[t + 1]@ == vs[t]);
                            }
                        }
                    }
                }
            }
            k = k + 1;
        }
        let mut out: Vec<(String, usize)> = Vec::new();
        let mut j: usize = 0;
        while j < names.len()
            invariant
                j <= names@.len() == counts@.len(),
                out@.len() == j,
                forall|t: int| 0 <= t < j ==> (#[trigger] out@[t]).0@ == names@[t]@ && out@[t].1 == counts@[t],
            decreases names@.len() - j,
        {
            out.push((string_of(&names[j]), counts[j]));
            j = j + 1;
        }
        proof {
            assert forall|a: int, b: int| 0 <= a < b < out@.len() implies chars_lt(
                #[trigger] out@[a].0@,
                #[trigger] out@[b].0@,
            ) by {
                assert(char_views(names@)[a] == names@[a]@);
                assert(char_views(names@)[b] == names@[b]@);
            }
            assert forall|name: Seq<char>|
                #![trigger of_class_spec(self@, name)]
                of_class_spec(self@, name).len() > 0 implies exists|i: int|
                    0 <= i < out@.len() && out@[i].0@ == name by {
                if forall|t: int| 0 <= t < names@.len() ==> names@[t]@ != name {
                    assert(indices_upto(self@, name, n as int).len() == 0);
                } else {
                    let t = choose|t: int| 0 <= t < names@.len() && names@[t]@ == name;
                    assert(out@[t].0@ == name);
                }
            }
        }
        out
    }
}
} // verus!
