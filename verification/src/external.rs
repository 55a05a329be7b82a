//! The outside code that the library calls, each item with the contract that the
//! library relies on. Nothing in this file is proved: every contract here is
//! believed, and each doc comment says what it claims of the outside function.
use ic_certified_map::{AsHashTree, RbTree};
use serde::Serialize;
use sha2::Digest;
use vstd::prelude::*;

verus! {

/// The certified map of `ic_certified_map`, a left-leaning red-black tree whose
/// nodes carry the hashes of their subtrees.
#[verifier::external_type_specification]
#[verifier::external_body]
#[verifier::reject_recursive_types(K)]
#[verifier::reject_recursive_types(V)]
pub struct ExRbTree<K, V>(RbTree<K, V>);

/// The certification tree: message keys mapped to the SHA-256 of the message bytes.
pub type CertTree = RbTree<String, [u8; 32]>;

/// The key-value entries that a certification tree holds.
pub uninterp spec fn cert_tree_contents(tree: CertTree) -> Map<Seq<char>, Seq<u8>>;

/// The root hash of a certification tree: the hash of its root node, which the
/// tree's shape decides as well as its entries.
pub uninterp spec fn cert_tree_root(tree: CertTree) -> Seq<u8>;

/// The self-describing CBOR of the witness, in a certification tree, of the keys
/// from `first` to `last`, labeled with `label`.
pub uninterp spec fn cert_tree_witness(tree: CertTree, label: Seq<u8>, first: Seq<char>, last: Seq<char>) -> Seq<u8>;

/// The textual form of the principal with the given bytes (`Principal::to_text` of `candid`).
pub uninterp spec fn principal_text(bytes: Seq<u8>) -> Seq<char>;

/// The SHA-256 digest of the given bytes (`sha2::Sha256::digest`).
pub uninterp spec fn sha256_of(data: Seq<u8>) -> Seq<u8>;

/// What `ic_certified_map` hashes before the label and the content hash of a
/// labeled node: the length of the text `ic-hashtree-labeled`, then its bytes.
pub open spec fn labeled_hash_prefix() -> Seq<u8> {
    seq![19u8, 105, 99, 45, 104, 97, 115, 104, 116, 114, 101, 101, 45, 108, 97, 98, 101, 108, 101, 100]
}

/// The first bytes of self-describing CBOR: the tag 55799.
pub open spec fn cbor_self_describe_tag() -> Seq<u8> {
    seq![0xd9u8, 0xd9, 0xf7]
}

/// Calls `RbTree::new` of `ic_certified_map`. Claimed: the new tree holds no entry.
#[verifier::external_body]
pub(crate) fn cert_tree_new() -> (new_tree: CertTree)
    ensures
        cert_tree_contents(new_tree).dom().is_empty(),
{
    RbTree::new()
}

/// Calls `RbTree::insert` of `ic_certified_map`. Claimed: afterwards the tree maps
/// `key` to `value` and holds every other entry unchanged (an existing entry with
/// the same key is replaced, as the source's `Equal` branch shows).
#[verifier::external_body]
pub(crate) fn cert_tree_insert(tree: &mut CertTree, key: String, value: [u8; 32])
    ensures
        cert_tree_contents(*final(tree)) == cert_tree_contents(*old(tree)).insert(key@, value@),
{
    tree.insert(key, value)
}

/// Calls `RbTree::delete` of `ic_certified_map` with the key's bytes. Claimed: the
/// entry with that key is gone and every other entry is unchanged; a key that is
/// not in the tree leaves it unchanged (the source returns early on a failed `get`).
#[verifier::external_body]
pub(crate) fn cert_tree_delete(tree: &mut CertTree, key: &String)
    ensures
        cert_tree_contents(*final(tree)) == cert_tree_contents(*old(tree)).remove(key@),
{
    tree.delete(key.as_bytes())
}

/// Calls `AsHashTree::root_hash` on the tree. Claimed: the result is the tree's
/// root hash, [`cert_tree_root`], a function of the tree alone (the source reads
/// the hash stored in the root node, or the empty tree's hash).
#[verifier::external_body]
pub(crate) fn cert_tree_root_hash(tree: &CertTree) -> (hash: [u8; 32])
    ensures
        hash@ == cert_tree_root(*tree),
{
    tree.root_hash()
}

/// Calls `ic_certified_map::labeled_hash`. Claimed, as its source shows: the
/// result is the SHA-256 of [`labeled_hash_prefix`], the label and the content hash.
#[verifier::external_body]
pub(crate) fn labeled_hash(label: &[u8], content_hash: &[u8; 32]) -> (hash: [u8; 32])
    ensures
        hash@ == sha256_of(labeled_hash_prefix() + label@ + content_hash@),
{
    ic_certified_map::labeled_hash(label, content_hash)
}

/// Calls `RbTree::value_range` of `ic_certified_map` with the bytes of the keys,
/// labels the witness with `ic_certified_map::labeled`, and writes it as
/// self-describing CBOR with `serde_cbor`'s `Serializer`. Claimed: the bytes are
/// [`cert_tree_witness`] of the tree, the label and the keys, a function of them
/// alone, and they start with the self-describe tag that
/// `Serializer::self_describe` writes first. What the witness holds is not
/// claimed. Writing to a vector cannot fail, so the `unwrap`s cannot panic.
#[verifier::external_body]
pub(crate) fn cert_tree_range_witness(tree: &CertTree, label: &[u8], first: &String, last: &String) -> (cbor: Vec<u8>)
    ensures
        cbor@ == cert_tree_witness(*tree, label@, first@, last@),
        cbor@.len() >= 3,
        cbor@.take(3) == cbor_self_describe_tag(),
{
    let witness = ic_certified_map::labeled(label, tree.value_range(first.as_bytes(), last.as_bytes()));
    let mut data = vec![];
    let mut serializer = serde_cbor::Serializer::new(&mut data);
    serializer.self_describe().unwrap();
    witness.serialize(&mut serializer).unwrap();
    data
}

/// Calls `sha2::Sha256::digest`. Claimed: the result is the SHA-256 digest of `data`.
#[verifier::external_body]
pub(crate) fn sha256_digest(data: &[u8]) -> (digest: [u8; 32])
    ensures
        digest@ == sha256_of(data@),
{
    sha2::Sha256::digest(data).into()
}

/// Calls `Principal::from_slice` and `Principal::to_text` of `candid`. `from_slice`
/// panics on more than 29 bytes, which `requires` leaves out. Claimed: the result is
/// the principal's textual form, which is ASCII (the source writes lower-case
/// base32 digits grouped by dashes).
#[verifier::external_body]
pub(crate) fn principal_to_text(bytes: &[u8]) -> (text: String)
    requires
        bytes@.len() <= 29,
    ensures
        text@ == principal_text(bytes@),
        vstd::utf8::is_ascii_chars(text@),
{
    candid::Principal::from_slice(bytes).to_text()
}

} // verus!
