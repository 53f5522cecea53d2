//! The in-memory vault: credential records and the operations on them.
//!
//! Record fields are raw bytes; callers that work with text hand in its UTF-8
//! encoding and decode it again on the way out.

use vstd::prelude::*;

verus! {

/// One stored credential: the service it belongs to, an optional username,
/// and the secret itself, kept verbatim so that it stays retrievable.
pub struct Password {
    pub service: Vec<u8>,
    pub username: Option<Vec<u8>>,
    pub password: Vec<u8>,
}

/// The mathematical value of a `Password`.
pub ghost struct RecordView {
    pub service: Seq<u8>,
    pub username: Option<Seq<u8>>,
    pub password: Seq<u8>,
}

impl View for Password {
    type V = RecordView;

    open spec fn view(&self) -> RecordView {
        RecordView {
            service: self.service@,
            username: match self.username {
                Some(u) => Some(u@),
                None => None,
            },
            password: self.password@,
        }
    }
}

/// An ordered collection of credential records. Insertion order is kept and
/// duplicate services may coexist; `remove` and `find` act on the first match.
pub struct PasswordManager {
    pub passwords: Vec<Password>,
}

impl View for PasswordManager {
    type V = Seq<RecordView>;

    open spec fn view(&self) -> Seq<RecordView> {
        self.passwords@.map_values(|p: Password| p@)
    }
}

/// Whether some record in `s` is filed under `service`.
pub open spec fn has_service(s: Seq<RecordView>, service: Seq<u8>) -> bool {
    exists|i: int| 0 <= i < s.len() && (#[trigger] s[i]).service == service
}

/// Compares two byte strings by value.
fn bytes_eq(a: &Vec<u8>, b: &Vec<u8>) -> (r: bool)
    ensures
        r == (a@ == b@),
{
    if a.len() != b.len() {
        return false;
    }
    let n = a.len();
    let mut i: usize = 0;
    while i < n
        invariant
            i <= n,
            n == a@.len(),
            n == b@.len(),
            forall|j: int| 0 <= j < i ==> a@[j] == b@[j],
        decreases n - i,
    {
        if a[i] != b[i] {
            return false;
        }
        i += 1;
    }
    proof {
        assert(a@ =~= b@);
    }
    true
}

impl PasswordManager {
    /// A vault with no records.
    pub fn new() -> (r: PasswordManager)
        ensures
            r@ == Seq::<RecordView>::empty(),
    {
        let r = PasswordManager { passwords: Vec::new() };
        proof {
            assert(r@ =~= Seq::<RecordView>::empty());
        }
        r
    }

    /// Appends a record at the end; earlier records and their order are kept.
    pub fn add(&mut self, password: Password)
        ensures
            final(self)@ == old(self)@.push(password@),
    {
        let ghost before = self@;
        let ghost pv = password@;
        self.passwords.push(password);
        proof {
            assert(self@ =~= before.push(pv));
        }
    }

    /// Removes the first record filed under `service`, if any; returns whether
    /// one was found. When none is, the vault is left exactly as it was.
    pub fn remove(&mut self, service: &Vec<u8>) -> (found: bool)
        ensures
            found == has_service(old(self)@, service@),
            !found ==> final(self)@ == old(self)@,
            found ==> exists|i: int|
                0 <= i < old(self)@.len() && (#[trigger] old(self)@[i]).service == service@
                    && (forall|j: int| 0 <= j < i ==> old(self)@[j].service != service@)
                    && final(self)@ == old(self)@.remove(i),
    {
        let n = self.passwords.len();
        let mut i: usize = 0;
        while i < n
            invariant
                i <= n,
                *self == *old(self),
                n == self.passwords@.len(),
                forall|j: int| 0 <= j < i ==> old(self)@[j].service != service@,
            decreases n - i,
        {
            if bytes_eq(&self.passwords[i].service, service) {
                let ghost before = self@;
                let ghost k = i as int;
                proof {
                    assert(before[k].service == service@);
                }
                self.passwords.remove(i);
                proof {
                    assert(self@ =~= before.remove(k));
                    assert(before[k].service == service@
                        && (forall|j: int| 0 <= j < k ==> before[j].service != service@)
                        && self@ == before.remove(k));
                }
                return true;
            }
            i += 1;
        }
        false
    }

    /// Returns the first record filed under `service`, if any.
    pub fn find(&self, service: &Vec<u8>) -> (r: Option<&Password>)
        ensures
            match r {
                Some(p) => exists|i: int|
                    0 <= i < self@.len() && (#[trigger] self@[i]).service == service@
                        && (forall|j: int| 0 <= j < i ==> self@[j].service != service@)
                        && p@ == self@[i],
                None => !has_service(self@, service@),
            },
    {
        let n = self.passwords.len();
        let mut i: usize = 0;
        while i < n
            invariant
                i <= n,
                n == self.passwords@.len(),
                forall|j: int| 0 <= j < i ==> self@[j].service != service@,
            decreases n - i,
        {
            if bytes_eq(&self.passwords[i].service, service) {
                let ghost k = i as int;
                proof {
                    assert(self@[k].service == service@
                        && (forall|j: int| 0 <= j < k ==> self@[j].service != service@)
                        && self.passwords@[k]@ == self@[k]);
                }
                return Some(&self.passwords[i]);
            }
            i += 1;
        }
        None
    }

    /// All records, in insertion order.
    pub fn list(&self) -> (r: &Vec<Password>)
        ensures
            r@.map_values(|p: Password| p@) == self@,
    {
        &self.passwords
    }
}

} // verus!
