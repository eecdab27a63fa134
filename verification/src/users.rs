//! The container of all users, keyed by an external account identifier.
//!
//! Absence of a key means "no record yet"; `get_or_create` hands out a
//! mutable record, inserting a fresh one on first reference.

use vstd::prelude::*;

use crate::database::{fresh_user_model, User, UserModel};
use crate::table::{has_pkey, lemma_pdistinct_push, lemma_pdistinct_update, lemma_pmap_domain,
    lemma_pmap_index, lemma_pmap_push, lemma_pmap_update, pdistinct, pmap};

verus! {

/// Key of a store entry: the external user identifier.
pub open spec fn u_key(e: (u64, User)) -> u64 {
    e.0
}

/// Value of a store entry: the user's abstract state.
pub open spec fn u_val(e: (u64, User)) -> UserModel {
    e.1.model()
}

/// A container for storing users, keyed by an external identifier.
pub struct Users {
    pub(crate) users: Vec<(u64, User)>,
}

impl Users {
    /// The abstract state: identifier to user model.
    pub closed spec fn model(self) -> Map<u64, UserModel> {
        pmap(self.users@, |e: (u64, User)| u_key(e), |e: (u64, User)| u_val(e))
    }

    /// Well-formedness: distinct identifiers, and every record well-formed.
    pub closed spec fn wf(self) -> bool {
        &&& pdistinct(self.users@, |e: (u64, User)| u_key(e))
        &&& forall|i: int| 0 <= i < self.users@.len() ==> (#[trigger] self.users@[i]).1.wf()
    }

    /// The model in terms of the representation.
    pub(crate) proof fn lemma_model_rep(self)
        ensures
            self.model() == pmap(
                self.users@,
                |e: (u64, User)| u_key(e),
                |e: (u64, User)| u_val(e),
            ),
            self.wf() ==> forall|i: int|
                0 <= i < self.users@.len() ==> (#[trigger] self.users@[i]).1.wf(),
    {
    }

    /// Creates a store with no records.
    pub fn empty() -> (r: Users)
        ensures
            r.wf(),
            r.model() == Map::<u64, UserModel>::empty(),
    {
        let r = Users { users: Vec::new() };
        proof {
            assert(r.model() =~= Map::<u64, UserModel>::empty());
        }
        r
    }

    /// Index of the entry for `id`, if one exists.
    fn find_user(&self, id: u64) -> (r: Option<usize>)
        ensures
            match r {
                Some(i) => i < self.users@.len() && self.users@[i as int].0 == id,
                None => !has_pkey(self.users@, |e: (u64, User)| u_key(e), id),
            },
    {
        let n = self.users.len();
        let mut i: usize = 0;
        while i < n
            invariant
                n == self.users@.len(),
                0 <= i <= n,
                forall|j: int| 0 <= j < i ==> (#[trigger] self.users@[j]).0 != id,
            decreases n - i,
        {
            if self.users[i].0 == id {
                return Some(i);
            }
            i += 1;
        }
        proof {
            assert forall|j: int| 0 <= j < self.users@.len() implies u_key(
                #[trigger] self.users@[j],
            ) != id by {}
        }
        None
    }

    /// Adds a user under `id`, overwriting any record already stored there.
    pub fn add_user(&mut self, id: u64, user: User)
        requires
            old(self).wf(),
            user.wf(),
        ensures
            final (self).wf(),
            final (self).model() == old(self).model().insert(id, user.model()),
    {
        let ghost uk = |e: (u64, User)| u_key(e);
        let ghost uv = |e: (u64, User)| u_val(e);
        let ghost pre = self.users@;
        match self.find_user(id) {
            Some(i) => {
                let entry = &mut self.users[i];
                entry.1 = user;
                proof {
                    assert(*final (entry) == (pre[i as int].0, user));
                    lemma_pmap_update(pre, uk, uv, i as int, *final (entry));
                    lemma_pdistinct_update(pre, uk, i as int, *final (entry));
                }
            },
            None => {
                self.users.push((id, user));
                proof {
                    lemma_pmap_push(pre, uk, uv, (id, user));
                    lemma_pdistinct_push(pre, uk, (id, user));
                }
            },
        }
    }

    /// The record stored under `id`, if any.
    pub fn get_user(&self, id: u64) -> (r: Option<&User>)
        requires
            self.wf(),
        ensures
            match r {
                Some(u) => {
                    &&& self.model().contains_key(id)
                    &&& u.model() == self.model()[id]
                    &&& u.wf()
                },
                None => !self.model().contains_key(id),
            },
    {
        let ghost uk = |e: (u64, User)| u_key(e);
        let ghost uv = |e: (u64, User)| u_val(e);
        proof {
            lemma_pmap_domain(self.users@, uk, uv);
        }
        match self.find_user(id) {
            Some(i) => {
                proof {
                    lemma_pmap_index(self.users@, uk, uv, i as int);
                }
                Some(&self.users[i].1)
            },
            None => None,
        }
    }

    /// Returns the record stored under `id`, inserting a freshly constructed
    /// one first when none exists.  Never fails.
    ///
    /// The store afterwards holds, under `id`, whatever the caller leaves in
    /// the returned record; a caller that keeps the record well-formed keeps
    /// the store well-formed.
    pub fn get_or_create(&mut self, id: u64) -> (u: &mut User)
        requires
            old(self).wf(),
        ensures
            u.wf(),
            u.model() == if old(self).model().contains_key(id) {
                old(self).model()[id]
            } else {
                fresh_user_model()
            },
            final (self).model() == old(self).model().insert(id, final (u).model()),
            final (u).wf() ==> final (self).wf(),
    {
        let ghost uk = |e: (u64, User)| u_key(e);
        let ghost uv = |e: (u64, User)| u_val(e);
        proof {
            lemma_pmap_domain(self.users@, uk, uv);
        }
        let i = match self.find_user(id) {
            Some(i) => i,
            None => {
                let n = self.users.len();
                self.users.push((id, User::new()));
                proof {
                    lemma_pmap_push(self.users@.drop_last(), uk, uv, self.users@.last());
                    lemma_pdistinct_push(self.users@.drop_last(), uk, self.users@.last());
                    assert(self.users@.drop_last() =~= old(self).users@);
                }
                n
            },
        };
        proof {
            lemma_pmap_index(self.users@, uk, uv, i as int);
        }
        let ghost mid = self.users@;
        let ret = &mut self.users[i].1;
        proof {
            let fentry = (mid[i as int].0, *final (ret));
            lemma_pmap_update(mid, uk, uv, i as int, fentry);
            lemma_pdistinct_update(mid, uk, i as int, fentry);
            assert(pmap(mid, uk, uv).insert(id, u_val(fentry)) =~= old(self).model().insert(
                id,
                u_val(fentry),
            ));
        }
        ret
    }
}

} // verus!
