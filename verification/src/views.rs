//! How the value of a list of names follows a change of the list.

use vstd::prelude::*;

verus! {

/// The value of a byte vector is its bytes.
pub proof fn bytes_as_value(bytes: Vec<u8>)
    ensures
        bytes.deep_view() == bytes@,
{
    assert(bytes.deep_view() =~= bytes@);
}

/// Pushing a name onto a list pushes its bytes onto the value of the
/// list.
pub proof fn pushed_name(before: Vec<Vec<u8>>, after: Vec<Vec<u8>>, name: Vec<u8>)
    requires
        after@ == before@.push(name),
    ensures
        after.deep_view() == before.deep_view().push(name@),
{
    bytes_as_value(name);
    assert(after.deep_view() =~= before.deep_view().push(name@));
}

/// Inserting a name into a list inserts its bytes into the value of the
/// list.
pub proof fn inserted_name(before: Vec<Vec<u8>>, after: Vec<Vec<u8>>, at: int, name: Vec<u8>)
    requires
        0 <= at <= before@.len(),
        after@ == before@.insert(at, name),
    ensures
        after.deep_view() == before.deep_view().insert(at, name@),
{
    bytes_as_value(name);
    assert(after.deep_view() =~= before.deep_view().insert(at, name@));
}

/// Taking the last name off a list takes its bytes off the value of the
/// list.
pub proof fn popped_name(before: Vec<Vec<u8>>, after: Vec<Vec<u8>>)
    requires
        before@.len() > 0,
        after@ == before@.drop_last(),
    ensures
        after.deep_view() == before.deep_view().drop_last(),
        before.deep_view().last() == before@.last()@,
{
    bytes_as_value(before@.last());
    assert(after.deep_view() =~= before.deep_view().drop_last());
}

/// The bytes of the name at a place of a list are at that place of the
/// value of the list.
pub proof fn name_at(names: Vec<Vec<u8>>, i: int)
    requires
        0 <= i < names@.len(),
    ensures
        names.deep_view()[i] == names@[i]@,
{
    bytes_as_value(names@[i]);
}

} // verus!
