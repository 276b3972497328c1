//! The CRDT document handle.
//!
//! The document itself is an external collaborator: an `automerge`
//! `AutoCommit` holding one designated text field.  Its internals are
//! opaque here; everything the replay logic needs is reached through the
//! narrow trusted interface below, whose contracts speak of two names:
//! `doc_text`, the sequence of unicode code points the designated text
//! object holds, and `has_text_obj`, which says that the given object
//! identifier designates such a plain text object in the given document.
use vstd::prelude::*;
use automerge::ReadDoc;
use automerge::transaction::Transactable;

verus! {

#[verifier::external_type_specification]
#[verifier::external_body]
pub struct ExAutoCommit(automerge::AutoCommit);

#[verifier::external_type_specification]
#[verifier::external_body]
pub struct ExObjId(automerge::ObjId);

#[verifier::external_type_specification]
#[verifier::external_body]
pub struct ExAutomergeError(automerge::AutomergeError);

/// The unicode code points held by the text object `obj` of document `d`.
pub uninterp spec fn doc_text(d: automerge::AutoCommit, obj: automerge::ObjId) -> Seq<char>;

/// `obj` designates, inside `d`, a text object whose elements are plain
/// characters.
pub uninterp spec fn has_text_obj(d: automerge::AutoCommit, obj: automerge::ObjId) -> bool;

/// Relies on automerge's `AutoCommit::new`, `AutoCommit::set_actor` and
/// `Transactable::put_object`: builds a fresh document whose actor is
/// derived from `actor` alone and creates its designated text object under
/// the property `prop` of the root map.  `put_object` on the root map
/// cannot fail: the root always resolves, it is a map, and creating an
/// object always yields an operation.  The new text object is empty.
#[verifier::external_body]
pub(crate) fn new_text_doc(actor: u64, prop: &str) -> (r: (
    automerge::AutoCommit,
    automerge::ObjId,
))
    ensures
        has_text_obj(r.0, r.1),
        doc_text(r.0, r.1) == Seq::<char>::empty(),
{
    let mut d = automerge::AutoCommit::new();
    d.set_actor(automerge::ActorId::from(&actor.to_be_bytes()[..]));
    let obj = d.put_object(automerge::ROOT, prop, automerge::ObjType::Text).unwrap();
    (d, obj)
}

/// Relies on automerge's `AutoCommit::set_actor`: it only changes the
/// identity under which later changes are committed, never the document's
/// content.
#[verifier::external_body]
pub(crate) fn set_doc_actor(d: &mut automerge::AutoCommit, obj: &automerge::ObjId, actor: u64)
    requires
        has_text_obj(*old(d), *obj),
    ensures
        has_text_obj(*final(d), *obj),
        doc_text(*final(d), *obj) == doc_text(*old(d), *obj),
{
    d.set_actor(automerge::ActorId::from(&actor.to_be_bytes()[..]));
}

/// Relies on automerge's `AutoCommit::fork`: the fork is an independent
/// document with the same content; later changes to either do not affect
/// the other.
#[verifier::external_body]
pub(crate) fn doc_fork(d: &mut automerge::AutoCommit, obj: &automerge::ObjId) -> (r:
    automerge::AutoCommit)
    requires
        has_text_obj(*old(d), *obj),
    ensures
        has_text_obj(*final(d), *obj),
        doc_text(*final(d), *obj) == doc_text(*old(d), *obj),
        has_text_obj(r, *obj),
        doc_text(r, *obj) == doc_text(*old(d), *obj),
{
    d.fork()
}

/// Relies on automerge's `AutoCommit::merge`: on success it has
/// incorporated all changes of `other` into `d`.  It can fail: an incoming
/// change whose actor and sequence number the target already holds under a
/// different hash is rejected.  In either outcome both documents keep the
/// text object and `other`'s text is unchanged; what text `d` holds after
/// a successful merge is the CRDT's reconciliation of the two states,
/// about which nothing is assumed.
#[verifier::external_body]
pub(crate) fn doc_merge(
    d: &mut automerge::AutoCommit,
    other: &mut automerge::AutoCommit,
    obj: &automerge::ObjId,
) -> (r: Result<(), automerge::AutomergeError>)
    requires
        has_text_obj(*old(d), *obj),
        has_text_obj(*old(other), *obj),
    ensures
        has_text_obj(*final(d), *obj),
        has_text_obj(*final(other), *obj),
        doc_text(*final(other), *obj) == doc_text(*old(other), *obj),
{
    match d.merge(other) {
        Ok(_) => Ok(()),
        Err(e) => Err(e),
    }
}

/// Relies on automerge's `Transactable::splice_text` with the default text
/// encoding, where positions count unicode code points: with `pos + del`
/// within the current text it deletes `del` code points at `pos`, inserts
/// `ins` there, and cannot fail.
#[verifier::external_body]
pub(crate) fn doc_splice(
    d: &mut automerge::AutoCommit,
    obj: &automerge::ObjId,
    pos: usize,
    del: usize,
    ins: &str,
)
    requires
        has_text_obj(*old(d), *obj),
        pos + del <= doc_text(*old(d), *obj).len(),
    ensures
        has_text_obj(*final(d), *obj),
        doc_text(*final(d), *obj) == doc_text(*old(d), *obj).subrange(0, pos as int) + ins@
            + doc_text(*old(d), *obj).subrange(
            pos + del,
            doc_text(*old(d), *obj).len() as int,
        ),
{
    let del_signed: isize = del.try_into().unwrap();
    d.splice_text(obj, pos, del_signed, ins).unwrap();
}

/// Relies on automerge's `AutoCommit::commit`: it seals the pending
/// operations into one change and leaves the document's content unchanged.
#[verifier::external_body]
pub(crate) fn doc_commit(d: &mut automerge::AutoCommit, obj: &automerge::ObjId)
    requires
        has_text_obj(*old(d), *obj),
    ensures
        has_text_obj(*final(d), *obj),
        doc_text(*final(d), *obj) == doc_text(*old(d), *obj),
{
    d.commit();
}

/// Relies on automerge's `ReadDoc::text`: it materializes the current
/// value of the text object, which for a valid text object cannot fail.
#[verifier::external_body]
pub(crate) fn doc_read_text(d: &automerge::AutoCommit, obj: &automerge::ObjId) -> (r: String)
    requires
        has_text_obj(*d, *obj),
    ensures
        r@ == doc_text(*d, *obj),
{
    d.text(obj).unwrap()
}

/// Relies on automerge's `AutoCommit::save`: it serializes the document
/// (closing any open transaction first) and leaves its content unchanged.
/// Nothing is assumed about the bytes.
#[verifier::external_body]
pub(crate) fn doc_save(d: &mut automerge::AutoCommit, obj: &automerge::ObjId) -> (r: Vec<u8>)
    requires
        has_text_obj(*old(d), *obj),
    ensures
        has_text_obj(*final(d), *obj),
        doc_text(*final(d), *obj) == doc_text(*old(d), *obj),
{
    d.save()
}

} // verus!
