//! The calls into `lopdf`: renumbering, the search for the pages of a document, and
//! compression. Each call works on a copy of the document in the form that `lopdf` has
//! for it, and its contract is taken on trust.

use vstd::prelude::*;
use crate::document::PdfDocument;
use crate::document::object_at;
use crate::document::DocumentView;
use crate::document::Table;
use crate::object::is_page_or_untyped;
use crate::object::resembles;
use crate::object::PdfDictionary;
use crate::object::PdfObject;
use crate::object::ObjectId;
use crate::object::PdfStream;
use crate::object::StringFormat;

verus! {

/// The most objects that a document may hold for `lopdf` to renumber it.
pub const MAX_OBJECTS: usize = 0x7fff_ffff;

/// `lopdf::Object`. Nothing is said of what a value of it holds: it only passes between
/// the conversions of this file.
#[verifier::external_type_specification]
#[verifier::external_body]
pub struct ExOutsideObject(lopdf::Object);

/// `lopdf::Document`. Nothing is said of what a value of it holds: it only passes
/// between the conversions and the calls of this file.
#[verifier::external_type_specification]
#[verifier::external_body]
pub struct ExOutsideDocument(lopdf::Document);

/// What `lopdf::Document::renumber_objects_with` makes of a document and a first number.
pub uninterp spec fn renumbered(document: DocumentView, start: u32) -> DocumentView;

/// The identifiers that `lopdf::Document::get_pages` finds in a document, by page number.
pub uninterp spec fn page_ids(document: DocumentView) -> Seq<ObjectId>;

/// What `lopdf::Document::compress` makes of a document.
pub uninterp spec fn compressed(document: DocumentView) -> DocumentView;

/// Whether a document can be renumbered from `start` on: its objects can be counted, and
/// the number after the last of them and the number before `start` fit in 32 bits.
pub open spec fn fits(document: DocumentView, start: u32) -> bool {
    &&& document.objects.dom().len() <= MAX_OBJECTS
    &&& 1 <= start + document.objects.dom().len() <= u32::MAX
}

/// Whether the objects of a document have the object numbers from `start` on, each
/// number once and none left out, and the document's highest number is the last of them.
pub open spec fn numbered_from(document: DocumentView, start: u32) -> bool {
    &&& forall|id: ObjectId| #[trigger]
        document.objects.contains_key(id) ==> start <= id.0 <= document.max_id
    &&& document.max_id + 1 == start + document.objects.dom().len()
    &&& forall|a: ObjectId, b: ObjectId|
        #![trigger document.objects.contains_key(a), document.objects.contains_key(b)]
        document.objects.contains_key(a) && document.objects.contains_key(b) && a.0 == b.0 ==> a
            == b
}

/// Whether every object of `after` resembles an object of `before`: none has a role, or
/// as a dictionary a key, that no object of `before` has.
#[verifier::opaque]
pub open spec fn stems_from(after: Table, before: Table) -> bool {
    forall|id: ObjectId| #[trigger]
        after.contains_key(id) ==> exists|origin: ObjectId|
            before.contains_key(origin) && resembles(before[origin], after[id])
}

/// Whether the two tables hold, under the same identifiers, objects that resemble each
/// other.
pub open spec fn keeps_roles(after: Table, before: Table) -> bool {
    &&& after.dom() == before.dom()
    &&& forall|id: ObjectId| #[trigger]
        after.contains_key(id) ==> resembles(before[id], after[id])
}

/// The variants of `lopdf::Object` that hold one plain value, each from the variant of
/// the same name. A real number is read from its decimal text; text that is no number
/// gives zero.
#[verifier::external_body]
fn outside_plain(o: &PdfObject) -> lopdf::Object {
    match o {
        PdfObject::Boolean(b) => lopdf::Object::Boolean(*b),
        PdfObject::Integer(i) => lopdf::Object::Integer(*i),
        PdfObject::Real(r) => lopdf::Object::Real(
            String::from_utf8_lossy(r).parse().unwrap_or_default(),
        ),
        PdfObject::Name(n) => lopdf::Object::Name(n.clone()),
        PdfObject::Reference(id) => lopdf::Object::Reference(*id),
        PdfObject::String(s, StringFormat::Hexadecimal) => lopdf::Object::String(
            s.clone(),
            lopdf::StringFormat::Hexadecimal,
        ),
        PdfObject::String(s, _) => lopdf::Object::String(s.clone(), lopdf::StringFormat::Literal),
        _ => lopdf::Object::Null,
    }
}

/// The entries of a dictionary, each value as `lopdf::Object`, in the same order.
#[verifier::external_body]
fn outside_entries(d: &PdfDictionary) -> Vec<(Vec<u8>, lopdf::Object)> {
    d.entries.iter().map(|entry| (entry.0.clone(), outside_object(&entry.1))).collect()
}

/// An object as `lopdf::Object`, variant for variant and item for item.
#[verifier::external_body]
fn outside_object(o: &PdfObject) -> lopdf::Object {
    match o {
        PdfObject::Array(items) => lopdf::Object::Array(items.iter().map(outside_object).collect()),
        PdfObject::Dictionary(d) => lopdf::Object::Dictionary(
            outside_entries(d).into_iter().collect(),
        ),
        PdfObject::Stream(s) => lopdf::Object::Stream(
            lopdf::Stream {
                dict: outside_entries(&s.dict).into_iter().collect(),
                content: s.content.clone(),
                allows_compression: s.allows_compression,
                start_position: s.start_position,
            },
        ),
        plain => outside_plain(plain),
    }
}

/// A document as `lopdf::Document`: made by `lopdf::Document::with_version`, then given
/// the trailer, the objects and the highest object number.
#[verifier::external_body]
fn outside_document(document: &PdfDocument) -> lopdf::Document {
    let mut outside = lopdf::Document::with_version(document.version.clone());
    outside.trailer = outside_entries(&document.trailer).into_iter().collect();
    outside.objects = document.objects.iter().map(|(id, o)| (*id, outside_object(o))).collect();
    outside.max_id = document.max_id;
    outside
}

/// The variants of `lopdf::Object` that hold one plain value, each as the variant of the
/// same name. A real number is written as decimal text.
#[verifier::external_body]
fn inside_plain(o: &lopdf::Object) -> PdfObject {
    match o {
        lopdf::Object::Boolean(b) => PdfObject::Boolean(*b),
        lopdf::Object::Integer(i) => PdfObject::Integer(*i),
        lopdf::Object::Real(r) => PdfObject::Real(r.to_string().into_bytes()),
        lopdf::Object::Name(n) => PdfObject::Name(n.clone()),
        lopdf::Object::Reference(id) => PdfObject::Reference(*id),
        lopdf::Object::String(s, lopdf::StringFormat::Hexadecimal) => PdfObject::String(
            s.clone(),
            StringFormat::Hexadecimal,
        ),
        lopdf::Object::String(s, _) => PdfObject::String(s.clone(), StringFormat::Literal),
        _ => PdfObject::Null,
    }
}

/// The dictionary of a `lopdf::Object` that is a dictionary or a stream: the same keys in
/// the same order, each with its value converted.
#[verifier::external_body]
fn inside_entries(o: &lopdf::Object) -> PdfDictionary {
    let outside = match o {
        lopdf::Object::Stream(s) => &s.dict,
        lopdf::Object::Dictionary(d) => d,
        _ => return PdfDictionary { entries: Vec::new() },
    };
    PdfDictionary {
        entries: outside.iter().map(|(key, value)| (key.clone(), inside_object(value))).collect(),
    }
}

/// A `lopdf::Object` as an object of this library, variant for variant and item for item.
#[verifier::external_body]
fn inside_object(o: &lopdf::Object) -> PdfObject {
    match o {
        lopdf::Object::Array(items) => PdfObject::Array(items.iter().map(inside_object).collect()),
        lopdf::Object::Dictionary(_) => PdfObject::Dictionary(inside_entries(o)),
        lopdf::Object::Stream(s) => PdfObject::Stream(
            PdfStream {
                dict: inside_entries(o),
                content: s.content.clone(),
                allows_compression: s.allows_compression,
                start_position: s.start_position,
            },
        ),
        plain => inside_plain(plain),
    }
}

/// A `lopdf::Document` as a document of this library: its version, trailer, objects and
/// highest object number.
#[verifier::external_body]
fn inside_document(outside: &lopdf::Document) -> PdfDocument {
    PdfDocument {
        version: outside.version.clone(),
        trailer: inside_entries(&lopdf::Object::Dictionary(outside.trailer.clone())),
        objects: outside.objects.iter().map(|(id, o)| (*id, inside_object(o))).collect(),
        max_id: outside.max_id,
    }
}

/// Calls `lopdf::Document::renumber_objects_with` on a copy of the document. The result
/// is a function of the document and of `start`. As the source of `lopdf` shows, the call
/// sorts the identifiers that the document holds and gives the first of them the object
/// number `start`, the next the number after it, and so on, each with its generation
/// number as before; then it sets the document's highest object number to the last
/// number given. So the object numbers of the result are those from `start` up to that
/// highest number, each once. The call moves objects from one identifier to another and
/// changes, inside them, the targets of references and nothing else: so each object of
/// the result is an object of the document with its type name and, as a dictionary, its
/// keys as they were. The call adds one to a 32-bit counter for each object and takes
/// one off at the end, and counts the pages in a signed 32-bit counter: `requires` leaves
/// out where one of them would leave its range.
#[verifier::external_body]
pub(crate) fn renumber_objects_with(document: &PdfDocument, start: u32) -> (r: PdfDocument)
    requires
        fits(document@, start),
    ensures
        r@ == renumbered(document@, start),
        numbered_from(r@, start),
        stems_from(r@.objects, document@.objects),
{
    let mut outside = outside_document(document);
    outside.renumber_objects_with(start);
    inside_document(&outside)
}

/// Calls `lopdf::Document::get_pages` and hands out the identifiers of the pages in the
/// order of their page numbers. The result is a function of the document. As the source
/// of `lopdf` shows, the walk over the pages tree looks up each kid as `get_object`
/// does and reads the type name of the dictionary that it finds; it lists the kid where
/// that name is `Page`, or where there is no dictionary or no type name to read, and
/// passes over a dictionary of any other type name. So a listed identifier that names a
/// dictionary names one typed `Page` or without a type name.
#[verifier::external_body]
pub(crate) fn get_pages(document: &PdfDocument) -> (r: Vec<ObjectId>)
    ensures
        r@ == page_ids(document@),
        forall|id: ObjectId| #[trigger]
            r@.contains(id) ==> match object_at(document@.objects, id) {
                Ok(v) => is_page_or_untyped(v),
                Err(_) => true,
            },
{
    outside_document(document).get_pages().into_values().collect()
}

/// Calls `lopdf::Document::compress` on a copy of the document. The result is a function
/// of the document. The call changes streams only, each where it stands, and of a stream
/// the content and the entries `Filter` and `Length` of its dictionary: the result has
/// under each identifier of the document an object of the same type name and, as a
/// dictionary, with the same keys, and it has the same highest object number.
#[verifier::external_body]
pub(crate) fn compress(document: &PdfDocument) -> (r: PdfDocument)
    ensures
        r@ == compressed(document@),
        keeps_roles(r@.objects, document@.objects),
        r@.max_id == document@.max_id,
{
    let mut outside = outside_document(document);
    outside.compress();
    inside_document(&outside)
}

} // verus!
