//! Small helpers: byte-sequence equality and the success-with-errors carrier
//! returned by the sync engine.

use vstd::prelude::*;

verus! {

/// Compares two byte vectors by content.
pub fn bytes_eq(a: &Vec<u8>, b: &Vec<u8>) -> (r: bool)
    ensures
        r == (a@ == b@),
{
    if a.len() != b.len() {
        assert(a@ != b@) by {
            assert(a@.len() != b@.len());
        }
        return false;
    }
    let n = a.len();
    let mut i: usize = 0;
    while i < n
        invariant
            n == a@.len(),
            n == b@.len(),
            0 <= i <= n,
            forall|k: int| 0 <= k < i ==> a@[k] == b@[k],
        decreases n - i,
    {
        if a[i] != b[i] {
            return false;
        }
        i += 1;
    }
    proof {
        assert(a@ =~= b@);
    }
    true
}

/// Copies a byte vector.
pub fn clone_bytes(v: &Vec<u8>) -> (r: Vec<u8>)
    ensures
        r@ == v@,
{
    let r = v.clone();
    proof {
        assert forall|i: int| 0 <= i < v@.len() implies r@[i] == v@[i] by {
            assert(cloned::<u8>(v@[i], r@[i]));
        }
        assert(r@ =~= v@);
    }
    r
}

/// Copies a keychain list.
pub fn clone_keychains(v: &Vec<crate::data::Keychain>) -> (r: Vec<crate::data::Keychain>)
    ensures
        r@ == v@,
{
    let r = v.clone();
    proof {
        assert forall|i: int| 0 <= i < v@.len() implies r@[i] == v@[i] by {
            assert(cloned::<crate::data::Keychain>(v@[i], r@[i]));
        }
        assert(r@ =~= v@);
    }
    r
}

/// Result of an operation that may partially succeed: a value always comes
/// back, together with the errors collected along the way.
pub struct MayError<T, E> {
    pub ok: T,
    pub err: Option<E>,
}

impl<T, E> MayError<T, E> {
    /// Wraps a full success.
    pub fn ok(val: T) -> (r: MayError<T, E>)
        ensures
            r.ok == val,
            r.err is None,
    {
        MayError { ok: val, err: None }
    }

    /// Wraps a partial success: the value stands, the errors are recorded.
    pub fn with_error(val: T, err: E) -> (r: MayError<T, E>)
        ensures
            r.ok == val,
            r.err == Some(err),
    {
        MayError { ok: val, err: Some(err) }
    }

    /// Collapses into a plain result: the value if no error was recorded,
    /// otherwise the recorded error.
    pub fn into_result(self) -> (r: Result<T, E>)
        ensures
            self.err is None ==> r == Result::<T, E>::Ok(self.ok),
            self.err matches Some(e) ==> r == Result::<T, E>::Err(e),
    {
        match self.err {
            None => Ok(self.ok),
            Some(e) => Err(e),
        }
    }
}

} // verus!
