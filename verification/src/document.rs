//! Documents and tables of objects, with their mathematical models.

use vstd::prelude::*;
use std::collections::BTreeMap;
use crate::error::MergeError;
use crate::ids::lemma_listed_ends;
use crate::ids::lemma_listed_step;
use crate::ids::listed_before;
use crate::ids::ordered_ids;
use crate::ids::lists;
use crate::object::PdfDictionary;
use crate::object::PdfObject;
use crate::object::ObjectId;
use crate::object::Value;

verus! {

/// Mathematical model of a table of objects: each identifier with what its object denotes.
pub type Table = Map<ObjectId, Value>;

/// What a map of objects denotes.
pub open spec fn table_value(m: Map<ObjectId, PdfObject>) -> Table {
    Map::new(|id: ObjectId| m.contains_key(id), |id: ObjectId| m[id]@)
}

/// Storing an object stores what it denotes.
pub proof fn lemma_table_insert(m: Map<ObjectId, PdfObject>, id: ObjectId, o: PdfObject)
    ensures
        table_value(m.insert(id, o)) == table_value(m).insert(id, o@),
{
    assert(table_value(m.insert(id, o)) =~= table_value(m).insert(id, o@));
}

/// A document: its objects, and the trailer that names its top-level descriptor.
#[derive(Clone, Debug, PartialEq)]
pub struct PdfDocument {
    /// The version of the format that the document is written in.
    pub version: String,
    /// The trailer; `Root` in it refers to the top-level descriptor.
    pub trailer: PdfDictionary,
    /// The objects, by identifier.
    pub objects: BTreeMap<ObjectId, PdfObject>,
    /// The highest object number in use.
    pub max_id: u32,
}

/// Mathematical model of a document.
pub struct DocumentView {
    /// The version of the format.
    pub version: Seq<char>,
    /// The entries of the trailer.
    pub trailer: Map<Seq<u8>, Value>,
    /// What each object denotes, by identifier.
    pub objects: Table,
    /// The highest object number in use.
    pub max_id: u32,
}

impl View for PdfDocument {
    type V = DocumentView;

    open spec fn view(&self) -> DocumentView {
        DocumentView {
            version: self.version@,
            trailer: self.trailer@,
            objects: table_value(self.objects@),
            max_id: self.max_id,
        }
    }
}

/// How many references a lookup follows before it gives up.
pub const REFERENCE_LIMIT: usize = 128;

/// What `v` stands for once its references are followed, at most `steps` of them.
pub open spec fn resolve(objects: Table, v: Value, steps: nat) -> Result<Value, MergeError>
    decreases steps,
{
    match v {
        Value::Reference(id) => if !objects.contains_key(id) {
            Err(MergeError::ObjectNotFound(id))
        } else if steps == 0 {
            Err(MergeError::ReferenceLimit)
        } else {
            resolve(objects, objects[id], (steps - 1) as nat)
        },
        _ => Ok(v),
    }
}

/// The object stored under `id`, with references followed.
pub open spec fn object_at(objects: Table, id: ObjectId) -> Result<Value, MergeError> {
    if objects.contains_key(id) {
        resolve(objects, objects[id], REFERENCE_LIMIT as nat)
    } else {
        Err(MergeError::ObjectNotFound(id))
    }
}

impl PdfDocument {
    /// An empty document of the given version.
    pub fn with_version(version: &str) -> (d: PdfDocument)
        ensures
            d@.version == version@,
            d@.trailer == Map::<Seq<u8>, Value>::empty(),
            d@.objects == Map::<ObjectId, Value>::empty(),
            d@.max_id == 0,
    {
        let d = PdfDocument {
            version: version.to_owned(),
            trailer: PdfDictionary::new(),
            objects: BTreeMap::new(),
            max_id: 0,
        };
        assert(d@.objects =~= Map::<ObjectId, Value>::empty());
        d
    }

    /// Takes the next free object number, with generation zero.
    pub fn new_object_id(&mut self) -> (id: ObjectId)
        requires
            old(self).max_id < u32::MAX,
        ensures
            id == (((old(self).max_id + 1) as u32, 0u16)),
            final(self)@ == (DocumentView { max_id: id.0, ..old(self)@ }),
    {
        self.max_id = self.max_id + 1;
        (self.max_id, 0)
    }

    /// Stores `object` under the next free object number.
    pub fn add_object(&mut self, object: PdfObject) -> (id: ObjectId)
        requires
            old(self).max_id < u32::MAX,
        ensures
            id == (((old(self).max_id + 1) as u32, 0u16)),
            final(self)@ == (DocumentView {
                max_id: id.0,
                objects: old(self)@.objects.insert(id, object@),
                ..old(self)@
            }),
    {
        let id = self.new_object_id();
        proof {
            lemma_table_insert(self.objects@, id, object);
        }
        self.objects.insert(id, object);
        id
    }

    /// The object stored under `id`, with references followed.
    pub fn get_object(&self, id: ObjectId) -> (r: Result<&PdfObject, MergeError>)
        ensures
            match r {
                Ok(o) => object_at(self@.objects, id) == Ok::<Value, MergeError>(o@),
                Err(e) => object_at(self@.objects, id) == Err::<Value, MergeError>(e),
            },
    {
        let mut object = match self.objects.get(&id) {
            Some(o) => o,
            None => {
                return Err(MergeError::ObjectNotFound(id));
            },
        };
        let mut steps: usize = REFERENCE_LIMIT;
        loop
            invariant
                steps <= REFERENCE_LIMIT,
                object_at(self@.objects, id) == resolve(self@.objects, object@, steps as nat),
            decreases steps,
        {
            match object {
                PdfObject::Reference(target) => {
                    match self.objects.get(target) {
                        None => {
                            return Err(MergeError::ObjectNotFound(*target));
                        },
                        Some(next) => {
                            if steps == 0 {
                                return Err(MergeError::ReferenceLimit);
                            }
                            steps = steps - 1;
                            object = next;
                        },
                    }
                },
                _ => {
                    return Ok(object);
                },
            }
        }
    }
}

/// Moves every entry of `source` into `target`, over what `target` held under the same
/// identifier.
pub fn extend_table(
    target: &mut BTreeMap<ObjectId, PdfObject>,
    source: BTreeMap<ObjectId, PdfObject>,
)
    ensures
        final(target)@ == old(target)@.union_prefer_right(source@),
        table_value(final(target)@) == table_value(old(target)@).union_prefer_right(
            table_value(source@),
        ),
{
    let mut source = source;
    let ghost moved = source@;
    let ids = ordered_ids(&source);
    let mut i: usize = 0;
    proof {
        lemma_listed_ends(ids@, moved.dom());
        assert(source@ =~= moved.remove_keys(listed_before(ids@, 0)));
        assert(target@ =~= old(target)@.union_prefer_right(
            moved.restrict(listed_before(ids@, 0)),
        ));
    }
    while i < ids.len()
        invariant
            i <= ids.len(),
            lists(ids@, moved.dom()),
            source@ == moved.remove_keys(listed_before(ids@, i as int)),
            target@ == old(target)@.union_prefer_right(
                moved.restrict(listed_before(ids@, i as int)),
            ),
        decreases ids.len() - i,
    {
        let id = ids[i];
        let ghost done = listed_before(ids@, i as int);
        proof {
            lemma_listed_step(ids@, i as int);
            assert(ids@.contains(id));
        }
        match source.remove(&id) {
            Some(object) => {
                target.insert(id, object);
            },
            None => {},
        }
        proof {
            assert(source@ =~= moved.remove_keys(done.insert(id)));
            assert(target@ =~= old(target)@.union_prefer_right(moved.restrict(done.insert(id))));
        }
        i += 1;
    }
    proof {
        lemma_listed_ends(ids@, moved.dom());
        assert(moved.restrict(moved.dom()) =~= moved);
        assert(table_value(target@) =~= table_value(old(target)@).union_prefer_right(
            table_value(moved),
        ));
    }
}

} // verus!
