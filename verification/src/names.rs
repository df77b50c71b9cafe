//! The keys and names that the merged page tree, catalog and trailer carry,
//! as bytes of their ASCII spelling.

use vstd::prelude::*;

verus! {

/// The bytes of `Type`.
pub open spec fn type_key_bytes() -> Seq<u8> {
    seq![84u8, 121u8, 112u8, 101u8]
}

/// The bytes of `Kids`.
pub open spec fn kids_key_bytes() -> Seq<u8> {
    seq![75u8, 105u8, 100u8, 115u8]
}

/// The bytes of `Count`.
pub open spec fn count_key_bytes() -> Seq<u8> {
    seq![67u8, 111u8, 117u8, 110u8, 116u8]
}

/// The bytes of `Parent`.
pub open spec fn parent_key_bytes() -> Seq<u8> {
    seq![80u8, 97u8, 114u8, 101u8, 110u8, 116u8]
}

/// The bytes of `Pages`.
pub open spec fn pages_bytes() -> Seq<u8> {
    seq![80u8, 97u8, 103u8, 101u8, 115u8]
}

/// The bytes of `Catalog`.
pub open spec fn catalog_bytes() -> Seq<u8> {
    seq![67u8, 97u8, 116u8, 97u8, 108u8, 111u8, 103u8]
}

/// The bytes of `Root`.
pub open spec fn root_key_bytes() -> Seq<u8> {
    seq![82u8, 111u8, 111u8, 116u8]
}

/// The key `Type`.
pub fn type_key() -> (key: Vec<u8>)
    ensures
        key@ == type_key_bytes(),
{
    let key: Vec<u8> = vec![84u8, 121u8, 112u8, 101u8];
    assert(key@ =~= type_key_bytes());
    key
}

/// The key `Kids`.
pub fn kids_key() -> (key: Vec<u8>)
    ensures
        key@ == kids_key_bytes(),
{
    let key: Vec<u8> = vec![75u8, 105u8, 100u8, 115u8];
    assert(key@ =~= kids_key_bytes());
    key
}

/// The key `Count`.
pub fn count_key() -> (key: Vec<u8>)
    ensures
        key@ == count_key_bytes(),
{
    let key: Vec<u8> = vec![67u8, 111u8, 117u8, 110u8, 116u8];
    assert(key@ =~= count_key_bytes());
    key
}

/// The key `Parent`.
pub fn parent_key() -> (key: Vec<u8>)
    ensures
        key@ == parent_key_bytes(),
{
    let key: Vec<u8> = vec![80u8, 97u8, 114u8, 101u8, 110u8, 116u8];
    assert(key@ =~= parent_key_bytes());
    key
}

/// The name `Pages`, which is also the catalog's key for the page tree.
pub fn pages_name() -> (name: Vec<u8>)
    ensures
        name@ == pages_bytes(),
{
    let name: Vec<u8> = vec![80u8, 97u8, 103u8, 101u8, 115u8];
    assert(name@ =~= pages_bytes());
    name
}

/// The name `Catalog`.
pub fn catalog_name() -> (name: Vec<u8>)
    ensures
        name@ == catalog_bytes(),
{
    let name: Vec<u8> = vec![67u8, 97u8, 116u8, 97u8, 108u8, 111u8, 103u8];
    assert(name@ =~= catalog_bytes());
    name
}

/// The trailer's key `Root`.
pub fn root_key() -> (key: Vec<u8>)
    ensures
        key@ == root_key_bytes(),
{
    let key: Vec<u8> = vec![82u8, 111u8, 111u8, 116u8];
    assert(key@ =~= root_key_bytes());
    key
}

} // verus!
