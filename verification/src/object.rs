//! The objects that a document is made of.
use vstd::prelude::*;
use crate::error::{ErrorModel, Expected, PdfError};
use crate::number::{saturate_i64, Real, RealModel};
use crate::text::{be_units, decode_lossy, decode_utf16, name_lt, name_lt_irreflexive, name_lt_total, name_lt_transitive, same_text, text_before, text_of, units, utf16_text};
use vstd::slice::slice_subrange;

verus! {

pub type Name = String;

/// Indirect reference `N G R`.
#[derive(Debug, Clone, Copy, PartialEq, Eq, Structural)]
pub struct ObjRef {
    pub num: u32,
    pub gen: u16,
}

impl ObjRef {
    pub fn new(num: u32, gen: u16) -> (r: Self)
        ensures
            r.num == num,
            r.gen == gen,
    {
        Self { num, gen }
    }
}

/// The names of a dictionary and what they stand for.
pub type DictModel = Map<Seq<char>, ObjectModel>;

/// An object by what it says.
pub ghost enum ObjectModel {
    Null,
    Boolean(bool),
    Integer(int),
    Real(RealModel),
    String(Seq<u8>),
    Name(Seq<char>),
    Array(Seq<ObjectModel>),
    Dictionary(Map<Seq<char>, ObjectModel>),
    Stream(Map<Seq<char>, ObjectModel>, Seq<u8>),
    Reference(ObjRef),
}

/// A dictionary: names in the order of their bytes, each once, with an object for each.
#[derive(Debug, PartialEq)]
pub struct Dictionary {
    entries: Vec<(Name, Object)>,
}

/// A stream: a dictionary and the bytes as they are stored, before any filter is undone.
#[derive(Debug, PartialEq)]
pub struct Stream {
    pub dict: Dictionary,
    pub raw_data: Vec<u8>,
}

#[derive(Debug, PartialEq)]
pub enum Object {
    Null,
    Boolean(bool),
    Integer(i64),
    Real(Real),
    String(Vec<u8>),
    Name(Name),
    Array(Vec<Object>),
    Dictionary(Dictionary),
    Stream(Stream),
    Reference(ObjRef),
}

pub open spec fn object_model(o: Object) -> ObjectModel
    decreases o,
{
    match o {
        Object::Null => ObjectModel::Null,
        Object::Boolean(b) => ObjectModel::Boolean(b),
        Object::Integer(n) => ObjectModel::Integer(n as int),
        Object::Real(r) => ObjectModel::Real(r@),
        Object::String(s) => ObjectModel::String(s@),
        Object::Name(n) => ObjectModel::Name(n@),
        Object::Array(items) => ObjectModel::Array(
            Seq::new(
                items.len() as nat,
                |i: int|
                    if 0 <= i < items.len() {
                        object_model(items[i])
                    } else {
                        ObjectModel::Null
                    },
            ),
        ),
        Object::Dictionary(d) => ObjectModel::Dictionary(dict_model(d)),
        Object::Stream(s) => ObjectModel::Stream(dict_model(s.dict), s.raw_data@),
        Object::Reference(r) => ObjectModel::Reference(r),
    }
}

pub closed spec fn dict_model(d: Dictionary) -> DictModel
    decreases d,
{
    entries_model(d, d.entries.len() as nat)
}

/// What the first `n` entries say.
spec fn entries_model(d: Dictionary, n: nat) -> DictModel
    decreases d, n,
{
    if n == 0 || n > d.entries.len() {
        Map::empty()
    } else {
        let entry = d.entries[n - 1];
        entries_model(d, (n - 1) as nat).insert(entry.0@, object_model(entry.1))
    }
}

impl View for Object {
    type V = ObjectModel;

    open spec fn view(&self) -> ObjectModel {
        object_model(*self)
    }
}

impl View for Dictionary {
    type V = DictModel;

    open spec fn view(&self) -> DictModel {
        dict_model(*self)
    }
}

/// The objects of a sequence by what they say.
pub open spec fn models(s: Seq<Object>) -> Seq<ObjectModel> {
    s.map_values(|o: Object| o@)
}

/// Keys in strictly growing order.
pub open spec fn in_key_order(keys: Seq<Seq<char>>) -> bool {
    forall|i: int, j: int|
        0 <= i < j < keys.len() ==> #[trigger] name_lt(keys[i], keys[j])
}

/// `keys` lists the names of `m`, each once and in order.
pub open spec fn lists_keys(m: DictModel, keys: Seq<Seq<char>>) -> bool {
    &&& in_key_order(keys)
    &&& forall|k: Seq<char>| m.contains_key(k) <==> keys.contains(k)
}

/// The names of a dictionary in order.
pub open spec fn sorted_keys(m: DictModel) -> Seq<Seq<char>> {
    choose|keys: Seq<Seq<char>>| lists_keys(m, keys)
}

/// Two lists of the names of one dictionary are the same list.
pub proof fn key_list_unique(m: DictModel, a: Seq<Seq<char>>, b: Seq<Seq<char>>)
    requires
        lists_keys(m, a),
        lists_keys(m, b),
    ensures
        a == b,
    decreases a.len(),
{
    if a.len() == 0 {
        if b.len() > 0 {
            assert(b.contains(b[0]));
            assert(a.contains(b[0]));
        }
        assert(a =~= b);
    } else if b.len() == 0 {
        assert(a.contains(a[0]));
        assert(b.contains(a[0]));
    } else {
        let x = a.last();
        let y = b.last();
        assert(a.contains(x) && b.contains(y));
        assert(b.contains(x) && a.contains(y));
        let i = b.index_of(x);
        let j = a.index_of(y);
        if x != y {
            assert(name_lt(b[i], b[b.len() - 1]));
            assert(name_lt(a[j], a[a.len() - 1]));
            name_lt_transitive(x, y, x);
            name_lt_irreflexive(x);
        }
        let rest = m.remove(x);
        assert forall|k: Seq<char>| rest.contains_key(k) <==> a.drop_last().contains(k) by {
            last_is_apart(a, k);
        }
        assert forall|k: Seq<char>| rest.contains_key(k) <==> b.drop_last().contains(k) by {
            last_is_apart(b, k);
        }
        key_list_unique(rest, a.drop_last(), b.drop_last());
        assert(a =~= a.drop_last().push(x));
        assert(b =~= b.drop_last().push(y));
    }
}

proof fn last_is_apart(a: Seq<Seq<char>>, k: Seq<char>)
    requires
        in_key_order(a),
        a.len() > 0,
    ensures
        a.drop_last().contains(k) <==> a.contains(k) && k != a.last(),
{
    if a.drop_last().contains(k) {
        let i = a.drop_last().index_of(k);
        assert(a[i] == k);
        assert(name_lt(a[i], a[a.len() - 1]));
        name_lt_irreflexive(k);
    }
    if a.contains(k) && k != a.last() {
        let i = a.index_of(k);
        assert(a.drop_last()[i] == k);
    }
}

/// The keys of entries.
pub open spec fn entry_keys(entries: Seq<(Name, Object)>) -> Seq<Seq<char>> {
    entries.map_values(|e: (Name, Object)| e.0@)
}

impl Dictionary {
    #[verifier::type_invariant]
    spec fn inv(self) -> bool {
        in_key_order(entry_keys(self.entries@))
    }

    /// What a prefix of the entries says, name by name.
    proof fn entries_say(self, n: nat)
        requires
            n <= self.entries@.len(),
            in_key_order(entry_keys(self.entries@)),
        ensures
            forall|i: int|
                0 <= i < n ==> entries_model(self, n).contains_key(
                    #[trigger] self.entries@[i].0@,
                ) && entries_model(self, n)[self.entries@[i].0@] == self.entries@[i].1@,
            forall|k: Seq<char>|
                entries_model(self, n).contains_key(k) ==> exists|i: int|
                    0 <= i < n && #[trigger] self.entries@[i].0@ == k,
        decreases n,
    {
        if n > 0 {
            self.entries_say((n - 1) as nat);
            let e = self.entries@[n - 1];
            let m = entries_model(self, (n - 1) as nat);
            let keys = entry_keys(self.entries@);
            assert(entries_model(self, n) == m.insert(e.0@, e.1@));
            assert forall|i: int| 0 <= i < n implies entries_model(self, n).contains_key(
                #[trigger] self.entries@[i].0@,
            ) && entries_model(self, n)[self.entries@[i].0@] == self.entries@[i].1@ by {
                if i < n - 1 {
                    assert(name_lt(keys[i], keys[n - 1]));
                    name_lt_irreflexive(keys[i]);
                }
            }
            assert forall|k: Seq<char>| entries_model(self, n).contains_key(k) implies exists|
                i: int,
            |
                0 <= i < n && #[trigger] self.entries@[i].0@ == k by {
                if k == e.0@ {
                    assert(self.entries@[n - 1].0@ == k);
                }
            }
        }
    }

    /// A map that agrees with the entries is what the dictionary says.
    proof fn model_is(self, m: DictModel)
        requires
            in_key_order(entry_keys(self.entries@)),
            forall|i: int|
                0 <= i < self.entries@.len() ==> m.contains_key(#[trigger] self.entries@[i].0@)
                    && m[self.entries@[i].0@] == self.entries@[i].1@,
            forall|k: Seq<char>|
                m.contains_key(k) ==> exists|i: int|
                    0 <= i < self.entries@.len() && #[trigger] self.entries@[i].0@ == k,
        ensures
            self@ == m,
    {
        self.entries_say(self.entries@.len());
        assert(self@ =~= m);
    }

    proof fn entries_are_finite(self, n: nat)
        ensures
            entries_model(self, n).dom().finite(),
        decreases n,
    {
        if 0 < n <= self.entries.len() {
            self.entries_are_finite((n - 1) as nat);
        }
    }

    /// A dictionary has finitely many names.
    pub proof fn is_finite(self)
        ensures
            self@.dom().finite(),
    {
        self.entries_are_finite(self.entries.len() as nat);
    }

    pub fn new() -> (r: Self)
        ensures
            r@ == DictModel::empty(),
    {
        let r = Self { entries: Vec::new() };
        assert(r@ =~= Map::empty());
        r
    }

    /// Where `key` stands, or else where it would have to be put in.
    fn find(&self, key: &str) -> (r: (bool, usize))
        ensures
            r.1 <= self.entries@.len(),
            r.0 ==> r.1 < self.entries@.len() && self.entries@[r.1 as int].0@ == key@,
            !r.0 ==> forall|i: int|
                0 <= i < self.entries@.len() ==> #[trigger] self.entries@[i].0@ != key@,
            forall|i: int| 0 <= i < r.1 ==> name_lt(#[trigger] self.entries@[i].0@, key@),
            !r.0 ==> forall|i: int|
                r.1 <= i < self.entries@.len() ==> name_lt(key@, #[trigger] self.entries@[i].0@),
    {
        proof {
            use_type_invariant(self);
        }
        let ghost keys = entry_keys(self.entries@);
        let mut i: usize = 0;
        while i < self.entries.len() && text_before(self.entries[i].0.as_str(), key)
            invariant
                0 <= i <= self.entries@.len(),
                forall|j: int| 0 <= j < i ==> name_lt(#[trigger] self.entries@[j].0@, key@),
            decreases self.entries@.len() - i,
        {
            i += 1;
        }
        if i < self.entries.len() && same_text(self.entries[i].0.as_str(), key) {
            return (true, i);
        }
        proof {
            assert forall|j: int| i <= j < self.entries@.len() implies name_lt(
                key@,
                #[trigger] self.entries@[j].0@,
            ) by {
                name_lt_total(self.entries@[i as int].0@, key@);
                if j > i {
                    assert(name_lt(keys[i as int], keys[j]));
                    name_lt_transitive(key@, keys[i as int], keys[j]);
                }
            }
            name_lt_irreflexive(key@);
        }
        (false, i)
    }

    pub fn get(&self, key: &str) -> (r: Option<&Object>)
        ensures
            match r {
                Some(o) => self@.contains_key(key@) && o@ == self@[key@],
                None => !self@.contains_key(key@),
            },
    {
        proof {
            use_type_invariant(self);
            self.entries_say(self.entries@.len());
        }
        let (found, at) = self.find(key);
        if found {
            Some(&self.entries[at].1)
        } else {
            None
        }
    }

    pub fn insert(&mut self, key: &str, value: Object)
        ensures
            final(self)@ == old(self)@.insert(key@, value@),
    {
        proof {
            use_type_invariant(&*self);
            self.entries_say(self.entries@.len());
        }
        let (found, at) = self.find(key);
        let ghost before = self.entries@;
        let ghost m = self@.insert(key@, value@);
        let ghost keys = entry_keys(before);
        let mut entries: Vec<(Name, Object)> = Vec::new();
        std::mem::swap(&mut entries, &mut self.entries);
        if found {
            entries.set(at, (key.to_owned(), value));
            proof {
                assert(entry_keys(entries@) =~= keys);
            }
        } else {
            entries.insert(at, (key.to_owned(), value));
            proof {
                let after = entry_keys(entries@);
                assert forall|i: int, j: int| 0 <= i < j < after.len() implies #[trigger] name_lt(
                    after[i],
                    after[j],
                ) by {
                    let x = if i < at {
                        i
                    } else {
                        i - 1
                    };
                    let y = if j < at {
                        j
                    } else {
                        j - 1
                    };
                    if i == at {
                        assert(name_lt(key@, before[y].0@));
                    } else if j == at {
                        assert(name_lt(before[x].0@, key@));
                    } else {
                        assert(name_lt(keys[x], keys[y]));
                    }
                }
            }
        }
        *self = Dictionary { entries };
        proof {
            assert forall|i: int| 0 <= i < self.entries@.len() implies m.contains_key(
                #[trigger] self.entries@[i].0@,
            ) && m[self.entries@[i].0@] == self.entries@[i].1@ by {
                if i != at {
                    let x = if found || i < at {
                        i
                    } else {
                        i - 1
                    };
                    assert(self.entries@[i] == before[x]);
                    if found {
                        if x < at {
                            assert(name_lt(keys[x], keys[at as int]));
                        } else {
                            assert(name_lt(keys[at as int], keys[x]));
                        }
                        name_lt_irreflexive(keys[x]);
                    }
                }
            }
            assert forall|k: Seq<char>| m.contains_key(k) implies exists|i: int|
                0 <= i < self.entries@.len() && #[trigger] self.entries@[i].0@ == k by {
                if k == key@ {
                    assert(self.entries@[at as int].0@ == k);
                } else {
                    let x = choose|x: int| 0 <= x < before.len() && #[trigger] before[x].0@ == k;
                    let i = if found || x < at {
                        x
                    } else {
                        x + 1
                    };
                    assert(self.entries@[i].0@ == k);
                }
            }
            self.model_is(m);
        }
    }

    /// The entries, in the order of their names.
    pub fn iter(&self) -> (r: &[(Name, Object)])
        ensures
            lists_keys(self@, entry_keys(r@)),
            forall|i: int| 0 <= i < r@.len() ==> (#[trigger] r@[i]).1@ == self@[r@[i].0@],
            forall|i: int| 0 <= i < r@.len() ==> decreases_to!(self => (#[trigger] r@[i]).1),
    {
        proof {
            use_type_invariant(self);
            self.entries_say(self.entries@.len());
            let keys = entry_keys(self.entries@);
            assert forall|k: Seq<char>| self@.contains_key(k) <==> keys.contains(k) by {
                if self@.contains_key(k) {
                    let i = choose|i: int|
                        0 <= i < self.entries@.len() && #[trigger] self.entries@[i].0@ == k;
                    assert(keys[i] == k);
                }
                if keys.contains(k) {
                    let i = keys.index_of(k);
                    assert(self.entries@[i].0@ == k);
                }
            }
        }
        let r = self.entries.as_slice();
        proof {
            assert forall|i: int| 0 <= i < r@.len() implies decreases_to!(self => (#[trigger] r@[i]).1) by {
                assert(r@[i] == self.entries[i]);
            }
        }
        r
    }

    /// A required whole number; references are not followed.
    pub fn get_int(&self, key: &str) -> (r: Result<i64, PdfError>)
        ensures
            match r {
                Ok(n) => self@.contains_key(key@) && self@[key@] == ObjectModel::Integer(n as int),
                Err(e) => if self@.contains_key(key@) {
                    !(self@[key@] is Integer) && e@ == ErrorModel::UnexpectedType(Expected::Integer)
                } else {
                    e@ == ErrorModel::MissingKey(key@)
                },
            },
    {
        match self.get(key) {
            Some(Object::Integer(n)) => Ok(*n),
            Some(_) => Err(PdfError::UnexpectedType(Expected::Integer)),
            None => Err(PdfError::MissingKey(key.to_owned())),
        }
    }
}

impl ObjectModel {
    /// The dictionary of a dictionary or of a stream.
    pub open spec fn dict(self) -> Option<DictModel> {
        match self {
            ObjectModel::Dictionary(d) => Some(d),
            ObjectModel::Stream(d, _) => Some(d),
            _ => None,
        }
    }

    pub open spec fn array(self) -> Option<Seq<ObjectModel>> {
        match self {
            ObjectModel::Array(items) => Some(items),
            _ => None,
        }
    }

    /// A whole number; a real is cut off at the point.
    pub open spec fn integer(self) -> Option<i64> {
        match self {
            ObjectModel::Integer(n) => Some(n as i64),
            ObjectModel::Real(r) => Some(saturate_i64(r.truncated())),
            _ => None,
        }
    }

    pub open spec fn name(self) -> Option<Seq<char>> {
        match self {
            ObjectModel::Name(n) => Some(n),
            _ => None,
        }
    }

    pub open spec fn reference(self) -> Option<ObjRef> {
        match self {
            ObjectModel::Reference(r) => Some(r),
            _ => None,
        }
    }

    /// The text of a string.
    pub open spec fn text(self) -> Option<Seq<char>> {
        match self {
            ObjectModel::String(s) => Some(string_text(s)),
            _ => None,
        }
    }
}

/// The entry of a dictionary under a name.
pub open spec fn entry(d: DictModel, key: Seq<char>) -> Option<ObjectModel> {
    if d.contains_key(key) {
        Some(d[key])
    } else {
        None
    }
}

/// The text of a string: UTF-16 behind a byte order mark, UTF-8 otherwise.
pub open spec fn string_text(s: Seq<u8>) -> Seq<char> {
    if s.len() >= 2 && s[0] == 0xFE && s[1] == 0xFF {
        utf16_text(be_units(s.skip(2)))
    } else {
        text_of(s)
    }
}

impl Object {
    pub fn as_dict(&self) -> (r: Option<&Dictionary>)
        ensures
            match r {
                Some(d) => self@.dict() == Some(d@),
                None => self@.dict() is None,
            },
    {
        match self {
            Object::Dictionary(d) => Some(d),
            Object::Stream(s) => Some(&s.dict),
            _ => None,
        }
    }

    pub fn as_array(&self) -> (r: Option<&[Object]>)
        ensures
            match r {
                Some(items) => self@ == ObjectModel::Array(models(items@)),
                None => self@.array() is None,
            },
    {
        match self {
            Object::Array(items) => {
                assert(self@->Array_0 =~= models(items@));
                Some(items.as_slice())
            },
            _ => None,
        }
    }

    /// A whole number; a real is cut off at the point.
    pub fn as_int(&self) -> (r: Option<i64>)
        ensures
            r == self@.integer(),
    {
        match self {
            Object::Integer(n) => Some(*n),
            Object::Real(r) => Some(r.to_int()),
            _ => None,
        }
    }

    pub fn as_name(&self) -> (r: Option<&str>)
        ensures
            match r {
                Some(n) => self@.name() == Some(n@),
                None => self@.name() is None,
            },
    {
        match self {
            Object::Name(n) => Some(n.as_str()),
            _ => None,
        }
    }

    pub fn as_reference(&self) -> (r: Option<ObjRef>)
        ensures
            r == self@.reference(),
    {
        match self {
            Object::Reference(r) => Some(*r),
            _ => None,
        }
    }

    /// The text of a string: UTF-16 behind a byte order mark, UTF-8 otherwise.
    pub fn as_text_string(&self) -> (r: Option<String>)
        ensures
            match r {
                Some(t) => self@.text() == Some(t@),
                None => self@.text() is None,
            },
    {
        match self {
            Object::String(s) => {
                if s.len() >= 2 && s[0] == 0xFE && s[1] == 0xFF {
                    let rest = slice_subrange(s.as_slice(), 2, s.len());
                    assert(rest@ =~= s@.skip(2));
                    Some(decode_utf16(units(rest).as_slice()))
                } else {
                    Some(decode_lossy(s.as_slice()))
                }
            },
            _ => None,
        }
    }

    pub fn is_null(&self) -> (r: bool)
        ensures
            r == (self@ is Null),
    {
        match self {
            Object::Null => true,
            _ => false,
        }
    }

    /// Whether this is the name `name`.
    pub fn is_name(&self, name: &str) -> (r: bool)
        ensures
            r == (self@ == ObjectModel::Name(name@)),
    {
        match self {
            Object::Name(n) => same_text(n.as_str(), name),
            _ => false,
        }
    }
}

fn clone_object(o: &Object) -> (r: Object)
    ensures
        r@ == o@,
    decreases o,
{
    match o {
        Object::Null => Object::Null,
        Object::Boolean(b) => Object::Boolean(*b),
        Object::Integer(n) => Object::Integer(*n),
        Object::Real(r) => Object::Real(r.clone()),
        Object::String(s) => Object::String(clone_bytes(s.as_slice())),
        Object::Name(n) => Object::Name(n.clone()),
        Object::Array(items) => {
            let mut out: Vec<Object> = Vec::new();
            let mut i: usize = 0;
            while i < items.len()
                invariant
                    0 <= i <= items@.len(),
                    out@.len() == i,
                    forall|j: int| 0 <= j < i ==> (#[trigger] out@[j])@ == items@[j]@,
                    decreases_to!(o => items),
                decreases items@.len() - i,
            {
                out.push(clone_object(&items[i]));
                i += 1;
            }
            let r = Object::Array(out);
            assert(r@->Array_0 =~= o@->Array_0);
            r
        },
        Object::Dictionary(d) => Object::Dictionary(clone_dictionary(d)),
        Object::Stream(s) => Object::Stream(
            Stream { dict: clone_dictionary(&s.dict), raw_data: clone_bytes(s.raw_data.as_slice()) },
        ),
        Object::Reference(r) => Object::Reference(*r),
    }
}

fn clone_dictionary(d: &Dictionary) -> (r: Dictionary)
    ensures
        r@ == d@,
    decreases d,
{
    proof {
        use_type_invariant(d);
        d.entries_say(d.entries@.len());
    }
    let mut entries: Vec<(Name, Object)> = Vec::new();
    let mut i: usize = 0;
    while i < d.entries.len()
        invariant
            0 <= i <= d.entries@.len(),
            entries@.len() == i,
            forall|j: int|
                0 <= j < i ==> (#[trigger] entries@[j]).0@ == d.entries@[j].0@ && entries@[j].1@
                    == d.entries@[j].1@,
        decreases d.entries@.len() - i,
    {
        let entry = &d.entries[i];
        entries.push((entry.0.clone(), clone_object(&entry.1)));
        i += 1;
    }
    assert(entry_keys(entries@) =~= entry_keys(d.entries@));
    let r = Dictionary { entries };
    proof {
        assert forall|k: Seq<char>| d@.contains_key(k) implies exists|i: int|
            0 <= i < r.entries@.len() && #[trigger] r.entries@[i].0@ == k by {
            let i = choose|i: int| 0 <= i < d.entries@.len() && #[trigger] d.entries@[i].0@ == k;
            assert(r.entries@[i].0@ == k);
        }
        r.model_is(d@);
    }
    r
}

/// The same bytes again.
pub fn clone_bytes(bytes: &[u8]) -> (r: Vec<u8>)
    ensures
        r@ == bytes@,
{
    let mut r: Vec<u8> = Vec::new();
    r.extend_from_slice(bytes);
    assert(r@ =~= bytes@);
    r
}

impl Clone for Object {
    fn clone(&self) -> (r: Self)
        ensures
            r@ == self@,
    {
        clone_object(self)
    }
}

impl Clone for Dictionary {
    fn clone(&self) -> (r: Self)
        ensures
            r@ == self@,
    {
        clone_dictionary(self)
    }
}

impl Clone for Stream {
    fn clone(&self) -> (r: Self)
        ensures
            r.dict@ == self.dict@,
            r.raw_data@ == self.raw_data@,
    {
        Stream { dict: clone_dictionary(&self.dict), raw_data: clone_bytes(self.raw_data.as_slice()) }
    }
}

} // verus!
