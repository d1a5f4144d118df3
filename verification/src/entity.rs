//! Entities: named blocks of source code, and their two identities.
//!
//! Every entity carries two hashes. `SimpleEntityId` chains only parent,
//! name and kind, so it is stable across revisions and is what history
//! joins on. `EntityId` additionally hashes the span and the content id,
//! so it is unique per file version and location.

use vstd::prelude::*;
use vstd::string::StringSliceAdditionalSpecFns;
use vstd::utf8::encode_utf8;

use crate::hashing::be_word_bytes;
use crate::hashing::push_be_word;
use crate::hashing::push_hash_bytes;
use crate::hashing::spec_sha1;
use crate::hashing::zero_hash;
use crate::hashing::Sha1Hash;
use crate::ids::ContentId;
use crate::span::Span;
use crate::strutil::str_eq;

verus! {

/// The kind of an entity. Most languages use only a subset.
#[derive(Clone, Copy, Debug, Hash, PartialEq, Eq, Structural)]
pub enum EntityKind {
    File,
    Annotation,
    Constructor,
    Class,
    Enum,
    Field,
    Interface,
    Method,
    Record,
}

/// The characters of a kind's name.
pub open spec fn kind_chars(k: EntityKind) -> Seq<char> {
    match k {
        EntityKind::File => "File"@,
        EntityKind::Annotation => "Annotation"@,
        EntityKind::Constructor => "Constructor"@,
        EntityKind::Class => "Class"@,
        EntityKind::Enum => "Enum"@,
        EntityKind::Field => "Field"@,
        EntityKind::Interface => "Interface"@,
        EntityKind::Method => "Method"@,
        EntityKind::Record => "Record"@,
    }
}

/// The UTF-8 bytes of a kind's name.
pub open spec fn kind_bytes(k: EntityKind) -> Seq<u8> {
    encode_utf8(kind_chars(k))
}

impl EntityKind {
    /// The kind's name, as written in tag queries and table rows.
    pub fn as_str(&self) -> (s: &'static str)
        ensures
            s@ == kind_chars(*self),
    {
        match self {
            EntityKind::File => "File",
            EntityKind::Annotation => "Annotation",
            EntityKind::Constructor => "Constructor",
            EntityKind::Class => "Class",
            EntityKind::Enum => "Enum",
            EntityKind::Field => "Field",
            EntityKind::Interface => "Interface",
            EntityKind::Method => "Method",
            EntityKind::Record => "Record",
        }
    }

    /// Parse a kind's name, byte for byte.
    pub fn from_str(s: &str) -> (r: Option<EntityKind>)
        ensures
            r matches Some(k) ==> s.spec_bytes() == kind_bytes(k),
            r is None ==> forall|k: EntityKind| s.spec_bytes() != kind_bytes(k),
    {
        let kinds: [EntityKind; 9] = [
            EntityKind::File,
            EntityKind::Annotation,
            EntityKind::Constructor,
            EntityKind::Class,
            EntityKind::Enum,
            EntityKind::Field,
            EntityKind::Interface,
            EntityKind::Method,
            EntityKind::Record,
        ];
        let mut i: usize = 0;
        while i < 9
            invariant
                i <= 9,
                forall|j: int|
                    0 <= j < 9 ==> kinds@[j] == seq![
                        EntityKind::File,
                        EntityKind::Annotation,
                        EntityKind::Constructor,
                        EntityKind::Class,
                        EntityKind::Enum,
                        EntityKind::Field,
                        EntityKind::Interface,
                        EntityKind::Method,
                        EntityKind::Record,
                    ][j],
                forall|j: int| 0 <= j < i ==> s.spec_bytes() != kind_bytes(kinds@[j]),
            decreases 9 - i,
        {
            let k = kinds[i];
            if str_eq(s, k.as_str()) {
                return Some(k);
            }
            i = i + 1;
        }
        proof {
            assert forall|k: EntityKind| s.spec_bytes() != kind_bytes(k) by {
                match k {
                    EntityKind::File => assert(k == kinds@[0]),
                    EntityKind::Annotation => assert(k == kinds@[1]),
                    EntityKind::Constructor => assert(k == kinds@[2]),
                    EntityKind::Class => assert(k == kinds@[3]),
                    EntityKind::Enum => assert(k == kinds@[4]),
                    EntityKind::Field => assert(k == kinds@[5]),
                    EntityKind::Interface => assert(k == kinds@[6]),
                    EntityKind::Method => assert(k == kinds@[7]),
                    EntityKind::Record => assert(k == kinds@[8]),
                }
            }
        }
        None
    }

    /// Whether this is the `File` kind.
    pub fn is_file(&self) -> (r: bool)
        ensures
            r == (*self is File),
    {
        match self {
            EntityKind::File => true,
            _ => false,
        }
    }
}

/// An entity id that is calculated from parent, name and kind alone,
/// so that the same source entity keeps it across revisions.
#[derive(Clone, Copy, Debug, Hash, PartialEq, Eq, Structural)]
pub struct SimpleEntityId(pub Sha1Hash);

/// An id unique to one entity at one location in one file version.
#[derive(Clone, Copy, Debug, Hash, PartialEq, Eq, Structural)]
pub struct EntityId(pub Sha1Hash);

/// The 20 bytes of an optional parent id, the zero hash when absent.
pub open spec fn opt_hash_bytes(p: Option<Sha1Hash>) -> Seq<u8> {
    match p {
        Some(h) => h.byte_seq(),
        None => zero_hash().byte_seq(),
    }
}

/// The bytes hashed into a stable id: parent id, then name, then kind.
pub open spec fn simple_id_payload(
    parent: Option<SimpleEntityId>,
    name: Seq<u8>,
    kind: EntityKind,
) -> Seq<u8> {
    opt_hash_bytes(match parent {
        Some(p) => Some(p.0),
        None => None,
    }) + name + kind_bytes(kind)
}

/// The stable id of an entity with this parent, name and kind.
#[verifier::opaque]
pub open spec fn simple_id_of(
    parent: Option<SimpleEntityId>,
    name: Seq<u8>,
    kind: EntityKind,
) -> SimpleEntityId {
    SimpleEntityId(spec_sha1(simple_id_payload(parent, name, kind)))
}

impl SimpleEntityId {
    /// The stable id: a digest over parent id, name and kind.
    pub fn new(parent_id: Option<SimpleEntityId>, name: &str, kind: EntityKind) -> (r:
        SimpleEntityId)
        ensures
            r == simple_id_of(parent_id, name.spec_bytes(), kind),
    {
        let mut bytes: Vec<u8> = Vec::new();
        match parent_id {
            Some(p) => push_hash_bytes(&mut bytes, &p.0),
            None => {
                let z = Sha1Hash { w0: 0, w1: 0, w2: 0, w3: 0, w4: 0 };
                push_hash_bytes(&mut bytes, &z);
            },
        }
        bytes.extend_from_slice(name.as_bytes());
        bytes.extend_from_slice(kind.as_str().as_bytes());
        proof {
            reveal(simple_id_of);
            assert(bytes@ =~= simple_id_payload(parent_id, name.spec_bytes(), kind));
        }
        SimpleEntityId(Sha1Hash::hash(bytes.as_slice()))
    }
}

impl Default for SimpleEntityId {
    /// The zero id, standing in for an absent parent.
    fn default() -> (r: SimpleEntityId)
        ensures
            r == SimpleEntityId(zero_hash()),
    {
        SimpleEntityId(Sha1Hash { w0: 0, w1: 0, w2: 0, w3: 0, w4: 0 })
    }
}

impl Default for EntityId {
    /// The zero id, standing in for an absent parent.
    fn default() -> (r: EntityId)
        ensures
            r == EntityId(zero_hash()),
    {
        EntityId(Sha1Hash { w0: 0, w1: 0, w2: 0, w3: 0, w4: 0 })
    }
}

/// The big-endian bytes of a span's six coordinates.
pub open spec fn span_payload(location: Span) -> Seq<u8> {
    be_word_bytes(location.start.byte as u32) + be_word_bytes(location.start.row as u32)
        + be_word_bytes(location.start.column as u32) + be_word_bytes(location.end.byte as u32)
        + be_word_bytes(location.end.row as u32) + be_word_bytes(location.end.column as u32)
}

/// Every coordinate of the span fits a 32-bit word.
pub open spec fn span_fits_u32(location: Span) -> bool {
    location.start.byte <= u32::MAX && location.start.row <= u32::MAX && location.start.column
        <= u32::MAX && location.end.byte <= u32::MAX && location.end.row <= u32::MAX
        && location.end.column <= u32::MAX
}

/// The bytes hashed into a location-unique id.
pub open spec fn entity_id_payload(
    parent: Option<EntityId>,
    name: Seq<u8>,
    kind: EntityKind,
    location: Span,
    content_id: ContentId,
    simple_id: SimpleEntityId,
) -> Seq<u8> {
    opt_hash_bytes(match parent {
        Some(p) => Some(p.0),
        None => None,
    }) + name + kind_bytes(kind) + span_payload(location) + content_id.0.byte_seq()
        + simple_id.0.byte_seq()
}

/// The unique id of an entity at a location in a file version.
#[verifier::opaque]
pub open spec fn entity_id_of(
    parent: Option<EntityId>,
    name: Seq<u8>,
    kind: EntityKind,
    location: Span,
    content_id: ContentId,
    simple_id: SimpleEntityId,
) -> EntityId {
    EntityId(spec_sha1(entity_id_payload(parent, name, kind, location, content_id, simple_id)))
}

impl EntityId {
    /// The unique id: a digest over parent id, name, kind, span bytes,
    /// content id and stable id.
    pub fn new(
        parent_id: Option<EntityId>,
        name: &str,
        kind: EntityKind,
        location: Span,
        content_id: ContentId,
        simple_id: SimpleEntityId,
    ) -> (r: EntityId)
        requires
            span_fits_u32(location),
        ensures
            r == entity_id_of(parent_id, name.spec_bytes(), kind, location, content_id, simple_id),
    {
        let mut bytes: Vec<u8> = Vec::new();
        match parent_id {
            Some(p) => push_hash_bytes(&mut bytes, &p.0),
            None => {
                let z = Sha1Hash { w0: 0, w1: 0, w2: 0, w3: 0, w4: 0 };
                push_hash_bytes(&mut bytes, &z);
            },
        }
        bytes.extend_from_slice(name.as_bytes());
        bytes.extend_from_slice(kind.as_str().as_bytes());
        push_be_word(&mut bytes, location.start.byte as u32);
        push_be_word(&mut bytes, location.start.row as u32);
        push_be_word(&mut bytes, location.start.column as u32);
        push_be_word(&mut bytes, location.end.byte as u32);
        push_be_word(&mut bytes, location.end.row as u32);
        push_be_word(&mut bytes, location.end.column as u32);
        push_hash_bytes(&mut bytes, &content_id.0);
        push_hash_bytes(&mut bytes, &simple_id.0);
        proof {
            reveal(entity_id_of);
            assert(bytes@ =~= entity_id_payload(
                parent_id,
                name.spec_bytes(),
                kind,
                location,
                content_id,
                simple_id,
            ));
        }
        EntityId(Sha1Hash::hash(bytes.as_slice()))
    }
}

/// Decide `span_fits_u32`.
pub fn span_fits_u32_x(location: &Span) -> (r: bool)
    ensures
        r == span_fits_u32(*location),
{
    location.start.byte <= u32::MAX as usize && location.start.row <= u32::MAX as usize
        && location.start.column <= u32::MAX as usize && location.end.byte <= u32::MAX as usize
        && location.end.row <= u32::MAX as usize && location.end.column <= u32::MAX as usize
}

/// Entities whose parent, name and kind chains agree get the same stable
/// id, whatever revision they come from.
pub proof fn lemma_simple_id_stable(
    p1: Option<SimpleEntityId>,
    n1: Seq<u8>,
    k1: EntityKind,
    p2: Option<SimpleEntityId>,
    n2: Seq<u8>,
    k2: EntityKind,
)
    requires
        p1 == p2,
        n1 == n2,
        k1 == k2,
    ensures
        simple_id_of(p1, n1, k1) == simple_id_of(p2, n2, k2),
{
}

/// An interesting block of source code with a name.
///
/// An entity has no parent exactly when it is the file itself.
#[derive(Clone, Debug)]
pub struct Entity {
    pub id: EntityId,
    pub parent_id: Option<EntityId>,
    pub name: String,
    pub kind: EntityKind,
    pub location: Span,
    pub content_id: ContentId,
    pub simple_id: SimpleEntityId,
}

impl Entity {
    /// Assemble an entity, deriving its unique id from the other fields.
    pub fn new(
        parent_id: Option<EntityId>,
        name: String,
        kind: EntityKind,
        location: Span,
        content_id: ContentId,
        simple_id: SimpleEntityId,
    ) -> (e: Entity)
        requires
            span_fits_u32(location),
        ensures
            e.id == entity_id_of(
                parent_id,
                encode_utf8(name@),
                kind,
                location,
                content_id,
                simple_id,
            ),
            e.parent_id == parent_id,
            e.name == name,
            e.kind == kind,
            e.location == location,
            e.content_id == content_id,
            e.simple_id == simple_id,
    {
        let id = EntityId::new(parent_id, name.as_str(), kind, location, content_id, simple_id);
        Entity { id, parent_id, name, kind, location, content_id, simple_id }
    }

    /// The span this entity covers.
    pub fn location(&self) -> (s: Span)
        ensures
            s == self.location,
    {
        self.location
    }
}

/// The content of a file.
#[derive(Clone, Debug)]
pub struct Content {
    pub id: ContentId,
    pub content: String,
}

impl Content {
    pub fn new(id: ContentId, content: String) -> (c: Content)
        ensures
            c.id == id,
            c.content == content,
    {
        Content { id, content }
    }
}

} // verus!
