use vstd::prelude::*;

use crate::ids::{AttHandle, Uuid};

verus! {

/// Access flags of one attribute.
#[derive(Clone, Copy, Debug, PartialEq, Eq, Structural)]
pub struct AttPermissions {
    pub readable: bool,
    pub writable: bool,
}

/// The metadata of one attribute: no value.
#[derive(Clone, Copy, Debug, PartialEq, Eq, Structural)]
pub struct AttAttribute {
    pub handle: AttHandle,
    pub type_: Uuid,
    pub permissions: AttPermissions,
}

/// The errors of the read path.
#[derive(Clone, Copy, Debug, PartialEq, Eq, Structural)]
pub enum AttErrorCode {
    InvalidHandle,
    ReadNotPermitted,
}

/// Some attribute of `attrs` has handle `h`.
pub open spec fn is_listed(attrs: Seq<AttAttribute>, h: AttHandle) -> bool {
    exists|i: int| 0 <= i < attrs.len() && (#[trigger] attrs[i]).handle == h
}

/// Some attribute of `attrs` has handle `h` and may be read.
pub open spec fn is_listed_readable(attrs: Seq<AttAttribute>, h: AttHandle) -> bool {
    exists|i: int|
        0 <= i < attrs.len() && (#[trigger] attrs[i]).handle == h && attrs[i].permissions.readable
}

/// Handles strictly ascend along `attrs`, so no handle occurs twice.
pub open spec fn handles_ascending(attrs: Seq<AttAttribute>) -> bool {
    forall|i: int, j: int| 0 <= i < j < attrs.len() ==> attrs[i].handle.0 < attrs[j].handle.0
}

/// The outcome of reading handle `h` from a database that lists `attrs` and
/// whose current value at `h` is `value`: an unknown handle is refused first,
/// then an unreadable one, and only then is the value handed out.
pub open spec fn read_outcome(attrs: Seq<AttAttribute>, h: AttHandle, value: Seq<u8>) -> Result<
    Seq<u8>,
    AttErrorCode,
> {
    if !is_listed(attrs, h) {
        Err(AttErrorCode::InvalidHandle)
    } else if is_listed_readable(attrs, h) {
        Ok(value)
    } else {
        Err(AttErrorCode::ReadNotPermitted)
    }
}

/// The bytes of a read result, as a sequence.
pub open spec fn result_view(r: Result<Vec<u8>, AttErrorCode>) -> Result<Seq<u8>, AttErrorCode> {
    match r {
        Ok(v) => Ok(v@),
        Err(e) => Err(e),
    }
}

/// A store of attributes that the protocol layer queries by handle.
pub trait AttDatabase {
    /// The attributes that the database holds, in handle order.
    spec fn listing(&self) -> Seq<AttAttribute>;

    /// The value that a read of `handle` would hand out now.
    spec fn current_value(&self, handle: AttHandle) -> Seq<u8>;

    /// Reads the value at `handle`, checking its permissions before the value
    /// is touched.
    fn read_attribute(&self, handle: AttHandle) -> (r: Result<Vec<u8>, AttErrorCode>)
        ensures
            result_view(r) == read_outcome(self.listing(), handle, self.current_value(handle)),
    ;

    /// The metadata of every attribute, in ascending handle order.
    fn list_attributes(&self) -> (r: Vec<AttAttribute>)
        ensures
            r@ == self.listing(),
            handles_ascending(r@),
    ;
}

/// A database whose attributes and their permissions never change over its
/// lifetime (values may), so that callers may keep what it lists.
pub trait StableAttDatabase: AttDatabase {

}

/// A handle that the listing shows as readable is read successfully, and the
/// read hands out the current value.
pub proof fn lemma_readable_reads_value<D: AttDatabase>(db: &D, h: AttHandle)
    requires
        is_listed_readable(db.listing(), h),
    ensures
        read_outcome(db.listing(), h, db.current_value(h)) == Ok::<Seq<u8>, AttErrorCode>(
            db.current_value(h),
        ),
{
    let i = choose|i: int|
        0 <= i < db.listing().len() && (#[trigger] db.listing()[i]).handle == h
            && db.listing()[i].permissions.readable;
    assert(db.listing()[i].handle == h);
}

/// A handle that the listing shows as not readable is refused with
/// `ReadNotPermitted`.
pub proof fn lemma_unreadable_is_refused<D: AttDatabase>(db: &D, h: AttHandle)
    requires
        handles_ascending(db.listing()),
        exists|i: int|
            0 <= i < db.listing().len() && (#[trigger] db.listing()[i]).handle == h
                && !db.listing()[i].permissions.readable,
    ensures
        read_outcome(db.listing(), h, db.current_value(h)) == Err::<Seq<u8>, AttErrorCode>(
            AttErrorCode::ReadNotPermitted,
        ),
{
    lemma_refusal_ignores_value(db.listing(), h, db.current_value(h));
}

/// A handle that the listing does not show is refused with `InvalidHandle`.
pub proof fn lemma_unlisted_is_invalid<D: AttDatabase>(db: &D, h: AttHandle)
    requires
        !is_listed(db.listing(), h),
    ensures
        read_outcome(db.listing(), h, db.current_value(h)) == Err::<Seq<u8>, AttErrorCode>(
            AttErrorCode::InvalidHandle,
        ),
{
}

/// Two listings of one stable database are the same sequence.
pub proof fn lemma_stable_listing<D: StableAttDatabase>(
    db: &D,
    first: Seq<AttAttribute>,
    second: Seq<AttAttribute>,
)
    requires
        first == db.listing(),
        second == db.listing(),
    ensures
        first == second,
{
}

/// The refusal of an unreadable handle does not depend on its value: the
/// permission is decided before any value is looked at.
pub proof fn lemma_refusal_ignores_value(attrs: Seq<AttAttribute>, h: AttHandle, value: Seq<u8>)
    requires
        handles_ascending(attrs),
        exists|i: int|
            0 <= i < attrs.len() && (#[trigger] attrs[i]).handle == h
                && !attrs[i].permissions.readable,
    ensures
        read_outcome(attrs, h, value) == Err::<Seq<u8>, AttErrorCode>(
            AttErrorCode::ReadNotPermitted,
        ),
{
    let i = choose|i: int|
        0 <= i < attrs.len() && (#[trigger] attrs[i]).handle == h
            && !attrs[i].permissions.readable;
    assert(attrs[i].handle == h);
    assert forall|j: int| 0 <= j < attrs.len() && (#[trigger] attrs[j]).handle == h implies j
        == i by {
        if j < i {
            assert(attrs[j].handle.0 < attrs[i].handle.0);
        } else if j > i {
            assert(attrs[i].handle.0 < attrs[j].handle.0);
        }
    }
}

} // verus!
