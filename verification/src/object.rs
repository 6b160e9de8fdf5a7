//! Objects, dictionaries and streams, with their mathematical models.

use vstd::prelude::*;
use vstd::string::StrSliceExecFns;
use vstd::string::StringSliceAdditionalSpecFns;

verus! {

/// Identifier of an indirect object: object number and generation number.
pub type ObjectId = (u32, u16);

/// The two ways a text string is written in a file.
#[derive(Clone, Copy, Debug, PartialEq, Eq, Structural)]
pub enum StringFormat {
    /// Written as text between round brackets.
    Literal,
    /// Written as hexadecimal digits between angle brackets.
    Hexadecimal,
}

/// Mathematical model of an object: what a `PdfObject` denotes. An array is a sequence
/// of values, and a dictionary a map from keys to values.
pub enum Value {
    /// The null object.
    Null,
    /// A truth value.
    Boolean(bool),
    /// A whole number.
    Integer(int),
    /// A real number, as its decimal text.
    Real(Seq<u8>),
    /// A name, as its bytes.
    Name(Seq<u8>),
    /// A text string, as its bytes and the way that it is written.
    String(Seq<u8>, StringFormat),
    /// A sequence of values.
    Array(Seq<Value>),
    /// A map from keys to values.
    Dictionary(Map<Seq<u8>, Value>),
    /// A stream of bytes with its dictionary.
    Stream(StreamValue),
    /// A reference to the object under an identifier.
    Reference(ObjectId),
}

/// Mathematical model of a stream.
pub struct StreamValue {
    /// The entries of the stream's dictionary.
    pub dict: Map<Seq<u8>, Value>,
    /// The bytes of the stream.
    pub content: Seq<u8>,
    /// Whether the stream may be compressed.
    pub allows_compression: bool,
    /// Where the bytes stand in the file that the stream was read from, if known.
    pub start_position: Option<usize>,
}

/// An object of a document.
#[derive(Debug, PartialEq)]
pub enum PdfObject {
    /// The null object.
    Null,
    /// A truth value.
    Boolean(bool),
    /// A whole number.
    Integer(i64),
    /// A real number, as decimal text: the way a 32-bit float prints. Text that is no
    /// number stands for zero.
    Real(Vec<u8>),
    /// A name, as its bytes.
    Name(Vec<u8>),
    /// A text string, as its bytes and the way that it is written.
    String(Vec<u8>, StringFormat),
    /// A sequence of objects.
    Array(Vec<PdfObject>),
    /// A dictionary.
    Dictionary(PdfDictionary),
    /// A stream of bytes with its dictionary.
    Stream(PdfStream),
    /// A reference to the object under an identifier.
    Reference(ObjectId),
}

/// A dictionary: keys with their values, each key once, in the order in which the keys
/// came in. Its model is the map from each key to what its value denotes.
#[derive(Debug, PartialEq)]
pub struct PdfDictionary {
    pub(crate) entries: Vec<(Vec<u8>, PdfObject)>,
}

/// A stream: bytes with a dictionary that describes them.
#[derive(Debug, PartialEq)]
pub struct PdfStream {
    /// The dictionary of the stream.
    pub dict: PdfDictionary,
    /// The bytes of the stream.
    pub content: Vec<u8>,
    /// Whether the stream may be compressed.
    pub allows_compression: bool,
    /// Where the bytes stand in the file that the stream was read from, if known.
    pub start_position: Option<usize>,
}

/// Whether no key occurs twice among the entries.
pub open spec fn distinct_keys(entries: Seq<(Vec<u8>, PdfObject)>) -> bool {
    forall|i: int, j: int|
        0 <= i < entries.len() && 0 <= j < entries.len() && i != j
            ==> (#[trigger] entries[i]).0@ != (#[trigger] entries[j]).0@
}

/// Whether one of the entries has the key.
pub open spec fn has_key(entries: Seq<(Vec<u8>, PdfObject)>, key: Seq<u8>) -> bool {
    exists|i: int| 0 <= i < entries.len() && (#[trigger] entries[i]).0@ == key
}

/// The place of an entry with the key.
pub open spec fn index_of(entries: Seq<(Vec<u8>, PdfObject)>, key: Seq<u8>) -> int {
    choose|i: int| 0 <= i < entries.len() && (#[trigger] entries[i]).0@ == key
}

/// What an object denotes.
pub open spec fn object_value(o: PdfObject) -> Value
    decreases o,
{
    match o {
        PdfObject::Null => Value::Null,
        PdfObject::Boolean(b) => Value::Boolean(b),
        PdfObject::Integer(i) => Value::Integer(i as int),
        PdfObject::Real(r) => Value::Real(r@),
        PdfObject::Name(n) => Value::Name(n@),
        PdfObject::String(s, f) => Value::String(s@, f),
        PdfObject::Array(items) => Value::Array(
            Seq::new(
                items@.len(),
                |i: int|
                    if 0 <= i < items@.len() {
                        object_value(items@[i])
                    } else {
                        Value::Null
                    },
            ),
        ),
        PdfObject::Dictionary(d) => Value::Dictionary(dictionary_value(d)),
        PdfObject::Stream(s) => Value::Stream(
            StreamValue {
                dict: dictionary_value(s.dict),
                content: s.content@,
                allows_compression: s.allows_compression,
                start_position: s.start_position,
            },
        ),
        PdfObject::Reference(id) => Value::Reference(id),
    }
}

/// What a dictionary denotes: the map from each of its keys to what the value denotes.
pub closed spec fn dictionary_value(d: PdfDictionary) -> Map<Seq<u8>, Value>
    decreases d,
{
    Map::new(
        |k: Seq<u8>| has_key(d.entries@, k),
        |k: Seq<u8>|
            {
                let i = index_of(d.entries@, k);
                if 0 <= i < d.entries@.len() {
                    object_value(d.entries@[i].1)
                } else {
                    Value::Null
                }
            },
    )
}

impl View for PdfObject {
    type V = Value;

    open spec fn view(&self) -> Value {
        object_value(*self)
    }
}

impl View for PdfStream {
    type V = StreamValue;

    open spec fn view(&self) -> StreamValue {
        StreamValue {
            dict: dictionary_value(self.dict),
            content: self.content@,
            allows_compression: self.allows_compression,
            start_position: self.start_position,
        }
    }
}

impl View for PdfDictionary {
    type V = Map<Seq<u8>, Value>;

    open spec fn view(&self) -> Map<Seq<u8>, Value> {
        dictionary_value(*self)
    }
}

/// The bytes of a name written as text.
pub open spec fn bytes_of(s: &str) -> Seq<u8> {
    s.spec_bytes()
}

/// The keys that a merge reads and writes are different names.
pub proof fn lemma_keys_differ()
    ensures
        bytes_of("Type") != bytes_of("Parent"),
        bytes_of("Type") != bytes_of("Count"),
        bytes_of("Type") != bytes_of("Kids"),
        bytes_of("Type") != bytes_of("Pages"),
        bytes_of("Type") != bytes_of("Outlines"),
        bytes_of("Count") != bytes_of("Kids"),
        bytes_of("Pages") != bytes_of("Outlines"),
{
    reveal_strlit("Type");
    reveal_strlit("Parent");
    reveal_strlit("Count");
    reveal_strlit("Kids");
    reveal_strlit("Pages");
    reveal_strlit("Outlines");
    vstd::string::is_ascii_spec_bytes("Type");
    vstd::string::is_ascii_spec_bytes("Parent");
    vstd::string::is_ascii_spec_bytes("Count");
    vstd::string::is_ascii_spec_bytes("Kids");
    vstd::string::is_ascii_spec_bytes("Pages");
    vstd::string::is_ascii_spec_bytes("Outlines");
    assert(bytes_of("Type").len() == 4);
    assert(bytes_of("Parent").len() == 6);
    assert(bytes_of("Count").len() == 5);
    assert(bytes_of("Kids").len() == 4);
    assert(bytes_of("Pages").len() == 5);
    assert(bytes_of("Outlines").len() == 8);
    assert(bytes_of("Type")[0] == 84u8);
    assert(bytes_of("Kids")[0] == 75u8);
}

/// `Page` names the role of a leaf, and no other role.
pub proof fn lemma_page_is_a_role()
    ensures
        role_of_name(bytes_of("Page")) == Role::Page,
{
    reveal_strlit("Page");
    reveal_strlit("Pages");
    reveal_strlit("Catalog");
    vstd::string::is_ascii_spec_bytes("Page");
    vstd::string::is_ascii_spec_bytes("Pages");
    vstd::string::is_ascii_spec_bytes("Catalog");
    assert(bytes_of("Page").len() == 4);
    assert(bytes_of("Pages").len() == 5);
    assert(bytes_of("Catalog").len() == 7);
}

/// Whether an object, where it is a dictionary, is typed as a leaf or has no type name.
pub open spec fn is_page_or_untyped(v: Value) -> bool {
    match v {
        Value::Dictionary(d) => dictionary_type_name(d) is None || dictionary_type_name(d)
            == Some(bytes_of("Page")),
        _ => true,
    }
}

/// Whether two objects have the same role and, where one is a dictionary, the other is
/// one with the same keys.
pub open spec fn resembles(a: Value, b: Value) -> bool {
    &&& role_of(a) == role_of(b)
    &&& a is Dictionary <==> b is Dictionary
    &&& a is Dictionary ==> a->Dictionary_0.dom() == b->Dictionary_0.dom()
}

/// The name written as `s`, as bytes.
pub fn name(s: &str) -> (r: Vec<u8>)
    ensures
        r@ == bytes_of(s),
{
    s.as_bytes_vec()
}

/// A copy of the bytes.
fn clone_bytes(v: &Vec<u8>) -> (r: Vec<u8>)
    ensures
        r@ == v@,
{
    let r = v.clone();
    assert(r@ =~= v@);
    r
}

impl Clone for PdfObject {
    /// A copy of the object: it denotes what the object denotes.
    fn clone(&self) -> (r: PdfObject)
        ensures
            r@ == self@,
        decreases self,
    {
        match self {
            PdfObject::Null => PdfObject::Null,
            PdfObject::Boolean(b) => PdfObject::Boolean(*b),
            PdfObject::Integer(i) => PdfObject::Integer(*i),
            PdfObject::Real(x) => PdfObject::Real(clone_bytes(x)),
            PdfObject::Name(n) => PdfObject::Name(clone_bytes(n)),
            PdfObject::String(s, f) => PdfObject::String(clone_bytes(s), *f),
            PdfObject::Array(items) => {
                let copies = clone_items(items);
                let r = PdfObject::Array(copies);
                assert(r@->Array_0 =~= self@->Array_0);
                r
            },
            PdfObject::Dictionary(d) => PdfObject::Dictionary(d.clone()),
            PdfObject::Stream(s) => PdfObject::Stream(s.clone()),
            PdfObject::Reference(id) => PdfObject::Reference(*id),
        }
    }
}

/// Copies of the objects, in their order.
fn clone_items(items: &Vec<PdfObject>) -> (r: Vec<PdfObject>)
    ensures
        r@.len() == items@.len(),
        forall|i: int| 0 <= i < items@.len() ==> (#[trigger] r@[i])@ == items@[i]@,
    decreases items,
{
    let mut out: Vec<PdfObject> = Vec::new();
    let mut i: usize = 0;
    while i < items.len()
        invariant
            i <= items.len(),
            out@.len() == i,
            forall|j: int| 0 <= j < i ==> (#[trigger] out@[j])@ == items@[j]@,
        decreases items.len() - i,
    {
        let o = items[i].clone();
        out.push(o);
        i += 1;
    }
    out
}

impl Clone for PdfStream {
    /// A copy of the stream: it denotes what the stream denotes.
    fn clone(&self) -> (r: PdfStream)
        ensures
            r@ == self@,
        decreases self,
    {
        PdfStream {
            dict: self.dict.clone(),
            content: clone_bytes(&self.content),
            allows_compression: self.allows_compression,
            start_position: self.start_position,
        }
    }
}

impl Clone for PdfDictionary {
    /// A copy of the dictionary, with the entries in the same order.
    fn clone(&self) -> (r: PdfDictionary)
        ensures
            r@ == self@,
        decreases self,
    {
        proof {
            use_type_invariant(self);
        }
        let mut out: Vec<(Vec<u8>, PdfObject)> = Vec::new();
        let mut i: usize = 0;
        while i < self.entries.len()
            invariant
                i <= self.entries.len(),
                out@.len() == i,
                forall|j: int| 0 <= j < i ==> (#[trigger] out@[j]).0@ == self.entries@[j].0@,
                forall|j: int| 0 <= j < i ==> (#[trigger] out@[j]).1@ == self.entries@[j].1@,
            decreases self.entries.len() - i,
        {
            let k = clone_bytes(&self.entries[i].0);
            let v = self.entries[i].1.clone();
            out.push((k, v));
            i += 1;
        }
        let r = PdfDictionary { entries: out };
        proof {
            assert forall|k: Seq<u8>| has_key(r.entries@, k) == has_key(self.entries@, k) by {
                if has_key(r.entries@, k) {
                    let j = index_of(r.entries@, k);
                    assert(self.entries@[j].0@ == k);
                }
                if has_key(self.entries@, k) {
                    let j = index_of(self.entries@, k);
                    assert(r.entries@[j].0@ == k);
                }
            }
            assert forall|k: Seq<u8>| has_key(r.entries@, k) implies r@[k] == self@[k] by {
                let a = index_of(r.entries@, k);
                let b = index_of(self.entries@, k);
                assert(self.entries@[a].0@ == k);
                assert(a == b);
            }
            assert(r@ =~= self@);
        }
        r
    }
}


/// Whether the two byte strings are the same.
pub fn same_bytes(a: &[u8], b: &[u8]) -> (r: bool)
    ensures
        r == (a@ == b@),
{
    if a.len() != b.len() {
        return false;
    }
    let mut i: usize = 0;
    while i < a.len()
        invariant
            i <= a.len(),
            a.len() == b.len(),
            forall|j: int| 0 <= j < i ==> a@[j] == b@[j],
        decreases a.len() - i,
    {
        if a[i] != b[i] {
            return false;
        }
        i += 1;
    }
    assert(a@ =~= b@);
    true
}

impl PdfDictionary {
    /// What holds of every dictionary: no key occurs twice.
    #[verifier::type_invariant]
    spec fn well_formed(self) -> bool {
        distinct_keys(self.entries@)
    }

    /// What the entries say of the dictionary's model, given that no key occurs twice.
    proof fn lemma_entries(self)
        requires
            distinct_keys(self.entries@),
        ensures
            forall|i: int|
                0 <= i < self.entries@.len() ==> self@.contains_key(
                    (#[trigger] self.entries@[i]).0@,
                ) && self@[self.entries@[i].0@] == self.entries@[i].1@,
            forall|k: Seq<u8>| self@.contains_key(k) <==> has_key(self.entries@, k),
    {
        assert forall|i: int| 0 <= i < self.entries@.len() implies self@.contains_key(
            (#[trigger] self.entries@[i]).0@,
        ) && self@[self.entries@[i].0@] == self.entries@[i].1@ by {
            let k = self.entries@[i].0@;
            let j = index_of(self.entries@, k);
            assert(j == i);
        }
    }

    /// An empty dictionary.
    pub fn new() -> (d: PdfDictionary)
        ensures
            d@ == Map::<Seq<u8>, Value>::empty(),
    {
        let d = PdfDictionary { entries: Vec::new() };
        assert(d@ =~= Map::<Seq<u8>, Value>::empty());
        d
    }

    /// The place of `key` among the entries, if it has one.
    fn position(&self, key: &[u8]) -> (r: Option<usize>)
        ensures
            match r {
                Some(i) => i < self.entries@.len() && self.entries@[i as int].0@ == key@,
                None => !has_key(self.entries@, key@),
            },
    {
        let mut i: usize = 0;
        while i < self.entries.len()
            invariant
                i <= self.entries.len(),
                forall|j: int| 0 <= j < i ==> (#[trigger] self.entries@[j]).0@ != key@,
            decreases self.entries.len() - i,
        {
            if same_bytes(self.entries[i].0.as_slice(), key) {
                return Some(i);
            }
            i += 1;
        }
        None
    }

    /// Whether the dictionary has an entry under `key`.
    pub fn has(&self, key: &[u8]) -> (r: bool)
        ensures
            r == self@.contains_key(key@),
    {
        proof {
            use_type_invariant(self);
            self.lemma_entries();
        }
        self.position(key).is_some()
    }

    /// The value stored under `key`, if there is one.
    pub fn get(&self, key: &[u8]) -> (r: Option<&PdfObject>)
        ensures
            match r {
                Some(o) => self@.contains_key(key@) && o@ == self@[key@],
                None => !self@.contains_key(key@),
            },
    {
        proof {
            use_type_invariant(self);
            self.lemma_entries();
        }
        match self.position(key) {
            Some(i) => Some(&self.entries[i].1),
            None => None,
        }
    }

    /// Stores `value` under `key`, in place of what was there.
    pub fn set(&mut self, key: Vec<u8>, value: PdfObject)
        ensures
            final(self)@ == old(self)@.insert(key@, value@),
    {
        proof {
            use_type_invariant(&*self);
            self.lemma_entries();
        }
        let found = self.position(key.as_slice());
        let mut entries: Vec<(Vec<u8>, PdfObject)> = Vec::new();
        std::mem::swap(&mut entries, &mut self.entries);
        let ghost before = entries@;
        let ghost k = key@;
        let ghost v = value@;
        match found {
            Some(i) => {
                entries.set(i, (key, value));
            },
            None => {
                entries.push((key, value));
            },
        }
        assert(distinct_keys(entries@)) by {
            assert forall|a: int, b: int|
                0 <= a < entries@.len() && 0 <= b < entries@.len() && a != b implies (
            #[trigger] entries@[a]).0@ != (#[trigger] entries@[b]).0@ by {
                if a < before.len() {
                    assert(before[a].0@ == entries@[a].0@);
                }
                if b < before.len() {
                    assert(before[b].0@ == entries@[b].0@);
                }
            }
        }
        self.entries = entries;
        proof {
            self.lemma_entries();
            let after = self.entries@;
            assert forall|q: Seq<u8>| self@.contains_key(q) <==> old(self)@.insert(
                k,
                v,
            ).contains_key(q) by {
                if has_key(after, q) {
                    let j = index_of(after, q);
                    if j < before.len() && q != k {
                        assert(before[j].0@ == q);
                    }
                }
                if q != k && has_key(before, q) {
                    let j = index_of(before, q);
                    assert(after[j].0@ == q);
                }
                if q == k {
                    match found {
                        Some(i) => {
                            assert(after[i as int].0@ == k);
                        },
                        None => {
                            assert(after[before.len() as int].0@ == k);
                        },
                    }
                }
            }
            assert forall|q: Seq<u8>| self@.contains_key(q) implies self@[q] == old(self)@.insert(
                k,
                v,
            )[q] by {
                let j = index_of(after, q);
                if q == k {
                    match found {
                        Some(i) => {
                            assert(after[i as int].0@ == k);
                            assert(j == i);
                        },
                        None => {
                            assert(after[before.len() as int].0@ == k);
                            assert(j == before.len());
                        },
                    }
                } else {
                    assert(j < before.len());
                    assert(before[j].0@ == q);
                    assert(before[j].1@ == after[j].1@);
                }
            }
            assert(self@ =~= old(self)@.insert(k, v));
        }
    }

    /// Takes the entry under `key` out, and returns its value.
    pub fn remove(&mut self, key: &[u8]) -> (r: Option<PdfObject>)
        ensures
            final(self)@ == old(self)@.remove(key@),
            match r {
                Some(o) => old(self)@.contains_key(key@) && o@ == old(self)@[key@],
                None => !old(self)@.contains_key(key@),
            },
    {
        proof {
            use_type_invariant(&*self);
            self.lemma_entries();
        }
        match self.position(key) {
            Some(i) => {
                let mut entries: Vec<(Vec<u8>, PdfObject)> = Vec::new();
                std::mem::swap(&mut entries, &mut self.entries);
                let ghost before = entries@;
                let entry = entries.remove(i);
                assert(distinct_keys(entries@)) by {
                    assert forall|a: int, b: int|
                        0 <= a < entries@.len() && 0 <= b < entries@.len() && a != b implies (
                    #[trigger] entries@[a]).0@ != (#[trigger] entries@[b]).0@ by {
                        let a0 = if a < i { a } else { a + 1 };
                        let b0 = if b < i { b } else { b + 1 };
                        assert(entries@[a] == before[a0]);
                        assert(entries@[b] == before[b0]);
                    }
                }
                self.entries = entries;
                proof {
                    self.lemma_entries();
                    let after = self.entries@;
                    assert forall|q: Seq<u8>| self@.contains_key(q) <==> old(self)@.remove(
                        key@,
                    ).contains_key(q) by {
                        if has_key(after, q) {
                            let j = index_of(after, q);
                            let j0 = if j < i { j } else { j + 1 };
                            assert(after[j] == before[j0]);
                        }
                        if q != key@ && has_key(before, q) {
                            let j0 = index_of(before, q);
                            let j = if j0 < i { j0 } else { j0 - 1 };
                            assert(after[j] == before[j0]);
                        }
                    }
                    assert forall|q: Seq<u8>| self@.contains_key(q) implies self@[q] == old(
                        self,
                    )@.remove(key@)[q] by {
                        let j = index_of(after, q);
                        let j0 = if j < i { j } else { j + 1 };
                        assert(after[j] == before[j0]);
                    }
                    assert(self@ =~= old(self)@.remove(key@));
                }
                Some(entry.1)
            },
            None => {
                assert(self@ =~= old(self)@.remove(key@));
                None
            },
        }
    }

    /// The entries, each key once, in the order in which the keys came in.
    pub fn entries(&self) -> (r: &Vec<(Vec<u8>, PdfObject)>)
        ensures
            distinct_keys(r@),
            forall|i: int|
                0 <= i < r@.len() ==> self@.contains_key((#[trigger] r@[i]).0@) && self@[r@[i].0@]
                    == r@[i].1@,
            forall|k: Seq<u8>| self@.contains_key(k) <==> has_key(r@, k),
    {
        proof {
            use_type_invariant(self);
            self.lemma_entries();
        }
        &self.entries
    }

    /// The union of two dictionaries in which `dominant` decides each key that both define.
    pub fn merge(dominant: &PdfDictionary, recessive: &PdfDictionary) -> (r: PdfDictionary)
        ensures
            r@ == recessive@.union_prefer_right(dominant@),
    {
        let mut out = recessive.clone();
        let entries = dominant.entries();
        let mut i: usize = 0;
        while i < entries.len()
            invariant
                i <= entries.len(),
                distinct_keys(entries@),
                forall|j: int|
                    0 <= j < entries@.len() ==> dominant@.contains_key((#[trigger] entries@[j]).0@)
                        && dominant@[entries@[j].0@] == entries@[j].1@,
                forall|k: Seq<u8>| dominant@.contains_key(k) <==> has_key(entries@, k),
                forall|k: Seq<u8>|
                    out@.contains_key(k) <==> recessive@.contains_key(k) || exists|j: int|
                        0 <= j < i && (#[trigger] entries@[j]).0@ == k,
                forall|k: Seq<u8>|
                    out@.contains_key(k) ==> out@[k] == if exists|j: int|
                        0 <= j < i && (#[trigger] entries@[j]).0@ == k {
                        dominant@[k]
                    } else {
                        recessive@[k]
                    },
            decreases entries.len() - i,
        {
            let key = clone_bytes(&entries[i].0);
            let value = entries[i].1.clone();
            let ghost before = out@;
            out.set(key, value);
            proof {
                let ki = entries@[i as int].0@;
                assert forall|k: Seq<u8>|
                    out@.contains_key(k) <==> recessive@.contains_key(k) || exists|j: int|
                        0 <= j < i + 1 && (#[trigger] entries@[j]).0@ == k by {
                    if k == ki {
                        assert(entries@[i as int].0@ == k);
                    }
                    if exists|j: int| 0 <= j < i + 1 && (#[trigger] entries@[j]).0@ == k {
                        let j = choose|j: int| 0 <= j < i + 1 && (#[trigger] entries@[j]).0@ == k;
                        if j < i {
                            assert(before.contains_key(k));
                        }
                    }
                }
                assert forall|k: Seq<u8>| out@.contains_key(k) implies out@[k] == if exists|j: int|
                    0 <= j < i + 1 && (#[trigger] entries@[j]).0@ == k {
                    dominant@[k]
                } else {
                    recessive@[k]
                } by {
                    if k == ki {
                        assert(entries@[i as int].0@ == k);
                    } else {
                        if exists|j: int| 0 <= j < i + 1 && (#[trigger] entries@[j]).0@ == k {
                            let j = choose|j: int|
                                0 <= j < i + 1 && (#[trigger] entries@[j]).0@ == k;
                            assert(j < i);
                        }
                    }
                }
            }
            i += 1;
        }
        proof {
            assert forall|k: Seq<u8>|
                dominant@.contains_key(k) <==> exists|j: int|
                    0 <= j < i && (#[trigger] entries@[j]).0@ == k by {
                if has_key(entries@, k) {
                    let j = index_of(entries@, k);
                    assert(entries@[j].0@ == k);
                }
            }
            assert(out@ =~= recessive@.union_prefer_right(dominant@));
        }
        out
    }
}

/// The part that an object plays in the structure of a document.
#[derive(Clone, Copy, Debug, PartialEq, Eq, Structural)]
pub enum Role {
    /// The top-level descriptor of a document.
    Catalog,
    /// A node of the pages tree that owns a list of leaves.
    Pages,
    /// A leaf of the pages tree.
    Page,
    /// The root of an outline tree.
    Outlines,
    /// An entry of an outline tree.
    Outline,
    /// Anything else.
    Other,
}

/// The name stored under `Type`, if the dictionary has one.
pub open spec fn dictionary_type_name(d: Map<Seq<u8>, Value>) -> Option<Seq<u8>> {
    if d.contains_key(bytes_of("Type")) {
        match d[bytes_of("Type")] {
            Value::Name(n) => Some(n),
            _ => None,
        }
    } else {
        None
    }
}

/// The type name of a dictionary, or of the dictionary of a stream.
pub open spec fn type_name_of(v: Value) -> Option<Seq<u8>> {
    match v {
        Value::Dictionary(d) => dictionary_type_name(d),
        Value::Stream(s) => dictionary_type_name(s.dict),
        _ => None,
    }
}

/// The role that a type name stands for.
pub open spec fn role_of_name(n: Seq<u8>) -> Role {
    if n == bytes_of("Catalog") {
        Role::Catalog
    } else if n == bytes_of("Pages") {
        Role::Pages
    } else if n == bytes_of("Page") {
        Role::Page
    } else if n == bytes_of("Outlines") {
        Role::Outlines
    } else if n == bytes_of("Outline") {
        Role::Outline
    } else {
        Role::Other
    }
}

/// The role of an object: that of its type name, and `Other` where it has none.
pub open spec fn role_of(v: Value) -> Role {
    match type_name_of(v) {
        Some(n) => role_of_name(n),
        None => Role::Other,
    }
}

impl PdfDictionary {
    /// The name stored under `Type`, if there is one.
    pub fn get_type(&self) -> (r: Option<&Vec<u8>>)
        ensures
            match r {
                Some(n) => dictionary_type_name(self@) == Some(n@),
                None => dictionary_type_name(self@) is None,
            },
    {
        match self.get("Type".as_bytes()) {
            Some(PdfObject::Name(n)) => Some(n),
            _ => None,
        }
    }
}

impl PdfObject {
    /// The dictionary, where the object is one.
    pub fn as_dict(&self) -> (r: Option<&PdfDictionary>)
        ensures
            match r {
                Some(d) => self@ == Value::Dictionary(d@),
                None => !(self@ is Dictionary),
            },
    {
        match self {
            PdfObject::Dictionary(d) => Some(d),
            _ => None,
        }
    }

    /// The type name of a dictionary or of a stream, if it has one.
    pub fn get_type(&self) -> (r: Option<&Vec<u8>>)
        ensures
            match r {
                Some(n) => type_name_of(self@) == Some(n@),
                None => type_name_of(self@) is None,
            },
    {
        match self {
            PdfObject::Dictionary(d) => d.get_type(),
            PdfObject::Stream(s) => s.dict.get_type(),
            _ => None,
        }
    }

    /// The role that the object plays in its document.
    pub fn role(&self) -> (r: Role)
        ensures
            r == role_of(self@),
    {
        match self.get_type() {
            Some(n) => {
                let name = n.as_slice();
                if same_bytes(name, "Catalog".as_bytes()) {
                    Role::Catalog
                } else if same_bytes(name, "Pages".as_bytes()) {
                    Role::Pages
                } else if same_bytes(name, "Page".as_bytes()) {
                    Role::Page
                } else if same_bytes(name, "Outlines".as_bytes()) {
                    Role::Outlines
                } else if same_bytes(name, "Outline".as_bytes()) {
                    Role::Outline
                } else {
                    Role::Other
                }
            },
            None => Role::Other,
        }
    }
}

impl PdfStream {
    /// A stream of the given content that may be compressed, with `Length` in its
    /// dictionary set to the number of bytes.
    pub fn new(dict: PdfDictionary, content: Vec<u8>) -> (r: PdfStream)
        requires
            content@.len() <= i64::MAX,
        ensures
            r@ == (StreamValue {
                dict: dict@.insert(bytes_of("Length"), Value::Integer(content@.len() as int)),
                content: content@,
                allows_compression: true,
                start_position: None,
            }),
    {
        let mut dict = dict;
        let length = content.len();
        dict.set(name("Length"), PdfObject::Integer(length as i64));
        PdfStream { dict, content, allows_compression: true, start_position: None }
    }
}

} // verus!
