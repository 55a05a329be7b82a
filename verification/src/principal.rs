//! Principals as the library holds them: the raw bytes of an IC principal.
use crate::external::{principal_text, principal_to_text};
use vstd::prelude::*;

verus! {

/// The identity of a client or a gateway: the bytes of an IC principal
/// (at most 29 of them).
#[derive(Debug, PartialEq, Eq, Hash)]
pub struct Principal {
    bytes: Vec<u8>,
}

impl View for Principal {
    type V = Seq<u8>;

    closed spec fn view(&self) -> Seq<u8> {
        self.bytes@
    }
}

/// The bytes of the anonymous principal.
pub open spec fn anonymous_bytes() -> Seq<u8> {
    seq![4u8]
}

/// The largest number of bytes that a principal holds.
pub const MAX_PRINCIPAL_LENGTH_IN_BYTES: usize = 29;

/// The bytes of each principal of `ps`, in order.
pub open spec fn principal_views(ps: Seq<Principal>) -> Seq<Seq<u8>> {
    ps.map_values(|p: Principal| p@)
}

impl Principal {
    #[verifier::type_invariant]
    spec fn fits(self) -> bool {
        self.bytes@.len() <= 29
    }

    /// The principal with the given bytes, or `None` when there are more than 29 of them.
    pub fn try_from_slice(bytes: &[u8]) -> (res: Option<Principal>)
        ensures
            res is Some <==> bytes@.len() <= 29,
            res matches Some(p) ==> p@ == bytes@,
    {
        if bytes.len() <= MAX_PRINCIPAL_LENGTH_IN_BYTES {
            let mut v: Vec<u8> = Vec::new();
            let mut i: usize = 0;
            while i < bytes.len()
                invariant
                    i <= bytes@.len(),
                    v@ == bytes@.subrange(0, i as int),
                decreases bytes@.len() - i,
            {
                v.push(bytes[i]);
                i = i + 1;
                assert(v@ == bytes@.subrange(0, i as int));
            }
            assert(bytes@.subrange(0, bytes@.len() as int) == bytes@);
            Some(Principal { bytes: v })
        } else {
            None
        }
    }

    /// The anonymous principal.
    pub fn anonymous() -> (p: Principal)
        ensures
            p@ == anonymous_bytes(),
    {
        let mut v: Vec<u8> = Vec::new();
        v.push(4u8);
        Principal { bytes: v }
    }

    /// The bytes of the principal.
    pub fn as_slice(&self) -> (bytes: &[u8])
        ensures
            bytes@ == self@,
            bytes@.len() <= 29,
    {
        proof {
            use_type_invariant(self);
        }
        self.bytes.as_slice()
    }

    /// Whether the two principals have the same bytes.
    pub fn same_as(&self, other: &Principal) -> (same: bool)
        ensures
            same == (self@ == other@),
    {
        let a = self.as_slice();
        let b = other.as_slice();
        if a.len() != b.len() {
            return false;
        }
        let mut i: usize = 0;
        while i < a.len()
            invariant
                a@ == self@,
                b@ == other@,
                a@.len() == b@.len(),
                i <= a@.len(),
                a@.subrange(0, i as int) == b@.subrange(0, i as int),
            decreases a@.len() - i,
        {
            if a[i] != b[i] {
                assert(a@[i as int] != b@[i as int]);
                return false;
            }
            assert(a@.subrange(0, i + 1) == a@.subrange(0, i as int).push(a@[i as int]));
            assert(b@.subrange(0, i + 1) == b@.subrange(0, i as int).push(b@[i as int]));
            i = i + 1;
        }
        assert(a@ == a@.subrange(0, a@.len() as int));
        assert(b@ == b@.subrange(0, b@.len() as int));
        true
    }

    /// Whether this is the anonymous principal.
    pub fn is_anonymous(&self) -> (anonymous: bool)
        ensures
            anonymous == (self@ == anonymous_bytes()),
    {
        let a = self.as_slice();
        let r = a.len() == 1 && a[0] == 4u8;
        proof {
            if a@ == anonymous_bytes() {
                assert(a@[0] == 4u8);
            }
            if r {
                assert(a@ =~= anonymous_bytes());
            }
        }
        r
    }

    /// The textual form of the principal.
    pub fn to_text(&self) -> (text: String)
        ensures
            text@ == principal_text(self@),
            vstd::utf8::is_ascii_chars(text@),
    {
        principal_to_text(self.as_slice())
    }
}

impl Clone for Principal {
    fn clone(&self) -> (res: Self)
        ensures
            res@ == self@,
    {
        proof {
            use_type_invariant(self);
        }
        Principal { bytes: self.bytes.clone() }
    }
}

} // verus!
