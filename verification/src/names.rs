//! The names that the page tree of a document is written with.

use vstd::prelude::*;

verus! {

/// The bytes of the name `Type`.
pub open spec fn type_bytes() -> Seq<u8> {
    seq![84u8, 121u8, 112u8, 101u8]
}

/// The bytes of the name `Pages`.
pub open spec fn pages_bytes() -> Seq<u8> {
    seq![80u8, 97u8, 103u8, 101u8, 115u8]
}

/// The bytes of the name `Kids`.
pub open spec fn kids_bytes() -> Seq<u8> {
    seq![75u8, 105u8, 100u8, 115u8]
}

/// The bytes of the name `Count`.
pub open spec fn count_bytes() -> Seq<u8> {
    seq![67u8, 111u8, 117u8, 110u8, 116u8]
}

/// The bytes of the name `Parent`.
pub open spec fn parent_bytes() -> Seq<u8> {
    seq![80u8, 97u8, 114u8, 101u8, 110u8, 116u8]
}

/// The bytes of the name `Catalog`.
pub open spec fn catalog_bytes() -> Seq<u8> {
    seq![67u8, 97u8, 116u8, 97u8, 108u8, 111u8, 103u8]
}

/// The bytes of the name `Root`.
pub open spec fn root_bytes() -> Seq<u8> {
    seq![82u8, 111u8, 111u8, 116u8]
}

/// The name `Type`.
pub fn type_key() -> (k: Vec<u8>)
    ensures
        k@ == type_bytes(),
{
    let k: Vec<u8> = vec![84, 121, 112, 101];
    assert(k@ =~= type_bytes());
    k
}

/// The name `Pages`.
pub fn pages_key() -> (k: Vec<u8>)
    ensures
        k@ == pages_bytes(),
{
    let k: Vec<u8> = vec![80, 97, 103, 101, 115];
    assert(k@ =~= pages_bytes());
    k
}

/// The name `Kids`.
pub fn kids_key() -> (k: Vec<u8>)
    ensures
        k@ == kids_bytes(),
{
    let k: Vec<u8> = vec![75, 105, 100, 115];
    assert(k@ =~= kids_bytes());
    k
}

/// The name `Count`.
pub fn count_key() -> (k: Vec<u8>)
    ensures
        k@ == count_bytes(),
{
    let k: Vec<u8> = vec![67, 111, 117, 110, 116];
    assert(k@ =~= count_bytes());
    k
}

/// The name `Parent`.
pub fn parent_key() -> (k: Vec<u8>)
    ensures
        k@ == parent_bytes(),
{
    let k: Vec<u8> = vec![80, 97, 114, 101, 110, 116];
    assert(k@ =~= parent_bytes());
    k
}

/// The name `Catalog`.
pub fn catalog_key() -> (k: Vec<u8>)
    ensures
        k@ == catalog_bytes(),
{
    let k: Vec<u8> = vec![67, 97, 116, 97, 108, 111, 103];
    assert(k@ =~= catalog_bytes());
    k
}

/// The name `Root`.
pub fn root_key() -> (k: Vec<u8>)
    ensures
        k@ == root_bytes(),
{
    let k: Vec<u8> = vec![82, 111, 111, 116];
    assert(k@ =~= root_bytes());
    k
}

} // verus!
