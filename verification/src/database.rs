//! A per-user, namespaced alias store.
//!
//! A [`User`] owns a family of namespaces; each namespace maps alias tokens to
//! replacement text, and exactly one namespace is active at a time.  The store
//! keeps two invariants at every observable state: a namespace named
//! `"default"` exists, and the active namespace exists.

use vstd::prelude::*;

use crate::error::Error;
use crate::table::{has_pkey, lemma_pdistinct_push, lemma_pdistinct_remove, lemma_pdistinct_update,
    lemma_pmap_domain, lemma_pmap_index, lemma_pmap_push, lemma_pmap_remove, lemma_pmap_update,
    pdistinct, pmap};

verus! {

/// Key of an alias entry: the token's characters.
pub open spec fn pair_key(e: (String, String)) -> Seq<char> {
    e.0@
}

/// Value of an alias entry: the replacement's characters.
pub open spec fn pair_val(e: (String, String)) -> Seq<char> {
    e.1@
}

/// The token-to-replacement map held by one namespace's entry list.
pub open spec fn amap(s: Seq<(String, String)>) -> Map<Seq<char>, Seq<char>> {
    pmap(s, |e: (String, String)| pair_key(e), |e: (String, String)| pair_val(e))
}

/// Key of a namespace entry: the namespace's name.
pub open spec fn ns_key(e: (String, Vec<(String, String)>)) -> Seq<char> {
    e.0@
}

/// Value of a namespace entry: its alias map.
pub open spec fn ns_val(e: (String, Vec<(String, String)>)) -> Map<Seq<char>, Seq<char>> {
    amap(e.1@)
}

/// The namespace-name-to-alias-map table held by the entry list.
pub open spec fn tmap(s: Seq<(String, Vec<(String, String)>)>) -> Map<
    Seq<char>,
    Map<Seq<char>, Seq<char>>,
> {
    pmap(
        s,
        |e: (String, Vec<(String, String)>)| ns_key(e),
        |e: (String, Vec<(String, String)>)| ns_val(e),
    )
}

/// The abstract state of one user: the active namespace's name and the
/// table from namespace name to alias map.
pub struct UserModel {
    pub current: Seq<char>,
    pub table: Map<Seq<char>, Map<Seq<char>, Seq<char>>>,
}

/// The model of a freshly constructed user.
pub open spec fn fresh_user_model() -> UserModel {
    UserModel {
        current: "default"@,
        table: Map::<Seq<char>, Map<Seq<char>, Seq<char>>>::empty().insert(
            "default"@,
            Map::<Seq<char>, Seq<char>>::empty(),
        ),
    }
}

/// What adding a namespace does to the table: an empty alias map appears
/// under a fresh name, and an existing name leaves the table unchanged.
pub open spec fn add_namespace_model(
    t: Map<Seq<char>, Map<Seq<char>, Seq<char>>>,
    name: Seq<char>,
) -> Map<Seq<char>, Map<Seq<char>, Seq<char>>> {
    if t.contains_key(name) {
        t
    } else {
        t.insert(name, Map::<Seq<char>, Seq<char>>::empty())
    }
}

/// Well-formedness of a representation: distinct keys at both levels,
/// non-empty names and tokens, the `"default"` namespace present, and the
/// active namespace present.
pub open spec fn rep_wf(ns: Seq<char>, table: Seq<(String, Vec<(String, String)>)>) -> bool {
    &&& pdistinct(table, |e: (String, Vec<(String, String)>)| ns_key(e))
    &&& (forall|i: int|
        0 <= i < table.len() ==> pdistinct(
            (#[trigger] table[i]).1@,
            |e: (String, String)| pair_key(e),
        ))
    &&& (forall|i: int| 0 <= i < table.len() ==> (#[trigger] table[i]).0@.len() > 0)
    &&& (forall|i: int, j: int|
        0 <= i < table.len() && 0 <= j < table[i].1@.len() ==> (
        #[trigger] table[i].1@[j]).0@.len() > 0)
    &&& tmap(table).contains_key("default"@)
    &&& tmap(table).contains_key(ns)
}

/// A user with namespaces and aliases.
///
/// Namespaces and the aliases inside each one are kept as entry lists with
/// pairwise-distinct keys; contracts speak of the maps they abstract to.
pub struct User {
    pub(crate) namespace: String,
    pub(crate) alias: Vec<(String, Vec<(String, String)>)>,
}

impl User {
    /// The name of the active namespace.
    pub closed spec fn current(self) -> Seq<char> {
        self.namespace@
    }

    /// The table: namespace name to alias map.
    pub closed spec fn table(self) -> Map<Seq<char>, Map<Seq<char>, Seq<char>>> {
        tmap(self.alias@)
    }

    /// The alias map of the active namespace.
    pub open spec fn aliases_now(self) -> Map<Seq<char>, Seq<char>> {
        self.table()[self.current()]
    }

    /// The user's abstract state.
    pub open spec fn model(self) -> UserModel {
        UserModel { current: self.current(), table: self.table() }
    }

    /// Well-formedness: the representation invariant of [`rep_wf`].
    pub closed spec fn wf(self) -> bool {
        rep_wf(self.namespace@, self.alias@)
    }

    /// The model in terms of the representation.
    pub(crate) proof fn lemma_model_rep(self)
        ensures
            self.table() == tmap(self.alias@),
            self.current() == self.namespace@,
            self.wf() == rep_wf(self.namespace@, self.alias@),
    {
    }

    /// A well-formed user always has the default and the active namespace.
    pub proof fn lemma_wf_namespaces(self)
        requires
            self.wf(),
        ensures
            self.table().contains_key("default"@),
            self.table().contains_key(self.current()),
    {
        lemma_pmap_domain(
            self.alias@,
            |e: (String, Vec<(String, String)>)| ns_key(e),
            |e: (String, Vec<(String, String)>)| ns_val(e),
        );
    }

    /// Creates a new user whose only namespace is the active `"default"`.
    pub fn new() -> (u: User)
        ensures
            u.wf(),
            u.current() == "default"@,
            u.table() == Map::<Seq<char>, Map<Seq<char>, Seq<char>>>::empty().insert(
                "default"@,
                Map::<Seq<char>, Seq<char>>::empty(),
            ),
            u.model() == fresh_user_model(),
    {
        let namespace: String = "default".to_owned();
        let mut alias: Vec<(String, Vec<(String, String)>)> = Vec::new();
        alias.push((namespace.clone(), Vec::new()));
        let u = User { namespace, alias };
        proof {
            reveal_strlit("default");
            let k = |e: (String, Vec<(String, String)>)| ns_key(e);
            let v = |e: (String, Vec<(String, String)>)| ns_val(e);
            assert(u.alias@.drop_last() =~= Seq::<(String, Vec<(String, String)>)>::empty());
            assert(pmap(Seq::<(String, Vec<(String, String)>)>::empty(), k, v) =~= Map::<
                Seq<char>,
                Map<Seq<char>, Seq<char>>,
            >::empty());
            assert(ns_key(u.alias@.last()) == "default"@);
            assert(u.alias@.last().1@ =~= Seq::<(String, String)>::empty());
            assert(ns_val(u.alias@.last()) =~= Map::<Seq<char>, Seq<char>>::empty());
            assert(pmap(u.alias@, k, v) == pmap(u.alias@.drop_last(), k, v).insert(
                ns_key(u.alias@.last()),
                ns_val(u.alias@.last()),
            ));
            assert(u.table() =~= Map::<Seq<char>, Map<Seq<char>, Seq<char>>>::empty().insert(
                "default"@,
                Map::<Seq<char>, Seq<char>>::empty(),
            ));
            assert(has_pkey(
                u.alias@,
                |e: (String, Vec<(String, String)>)| ns_key(e),
                "default"@,
            )) by {
                assert(ns_key(u.alias@[0]) == "default"@);
            }
            lemma_pmap_domain(
                u.alias@,
                |e: (String, Vec<(String, String)>)| ns_key(e),
                |e: (String, Vec<(String, String)>)| ns_val(e),
            );
        }
        u
    }

    /// Builds a user from an already-parsed representation, validating the
    /// store invariants; an ill-formed representation yields `None`.
    pub(crate) fn from_parts(namespace: String, alias: Vec<(String, Vec<(String, String)>)>) -> (r:
        Option<User>)
        ensures
            match r {
                Some(u) => {
                    &&& rep_wf(namespace@, alias@)
                    &&& u.wf()
                    &&& u.namespace == namespace
                    &&& u.alias == alias
                },
                None => !rep_wf(namespace@, alias@),
            },
    {
        let n = alias.len();
        let mut i: usize = 0;
        let mut seen_default = false;
        let mut seen_current = false;
        let protected: String = "default".to_owned();
        while i < n
            invariant
                n == alias@.len(),
                0 <= i <= n,
                protected@ == "default"@,
                forall|x: int, y: int| 0 <= x < i && x < y < n ==> (#[trigger] alias@[x]).0@ != (
                #[trigger] alias@[y]).0@,
                forall|x: int|
                    0 <= x < i ==> pdistinct(
                        (#[trigger] alias@[x]).1@,
                        |e: (String, String)| pair_key(e),
                    ),
                forall|x: int| 0 <= x < i ==> (#[trigger] alias@[x]).0@.len() > 0,
                forall|x: int, y: int|
                    0 <= x < i && 0 <= y < alias@[x].1@.len() ==> (
                    #[trigger] alias@[x].1@[y]).0@.len() > 0,
                seen_default <==> exists|x: int| 0 <= x < i && (#[trigger] alias@[x]).0@
                    == "default"@,
                seen_current <==> exists|x: int| 0 <= x < i && (#[trigger] alias@[x]).0@
                    == namespace@,
            decreases n - i,
        {
            if alias[i].0.as_str().is_empty() {
                return None;
            }
            if alias[i].0 == protected {
                seen_default = true;
            }
            if alias[i].0 == namespace {
                seen_current = true;
            }
            let mut j: usize = i + 1;
            while j < n
                invariant
                    n == alias@.len(),
                    0 <= i < j <= n,
                    protected@ == "default"@,
                    forall|y: int| i < y < j ==> (#[trigger] alias@[y]).0@ != alias@[i as int].0@,
                decreases n - j,
            {
                if alias[i].0 == alias[j].0 {
                    return None;
                }
                j += 1;
            }
            let pairs = &alias[i].1;
            let m = pairs.len();
            let mut p: usize = 0;
            while p < m
                invariant
                    n == alias@.len(),
                    0 <= i < n,
                    m == pairs@.len(),
                    0 <= p <= m,
                    pairs@ == alias@[i as int].1@,
                    forall|x: int, y: int| 0 <= x < p && x < y < m ==> (#[trigger] pairs@[x]).0@
                        != (#[trigger] pairs@[y]).0@,
                    forall|x: int| 0 <= x < p ==> (#[trigger] pairs@[x]).0@.len() > 0,
                decreases m - p,
            {
                if pairs[p].0.as_str().is_empty() {
                    return None;
                }
                let mut q: usize = p + 1;
                while q < m
                    invariant
                        n == alias@.len(),
                        0 <= i < n,
                        m == pairs@.len(),
                        0 <= p < q <= m,
                        pairs@ == alias@[i as int].1@,
                        forall|y: int|
                            p < y < q ==> (#[trigger] pairs@[y]).0@ != pairs@[p as int].0@,
                    decreases m - q,
                {
                    if pairs[p].0 == pairs[q].0 {
                        return None;
                    }
                    q += 1;
                }
                p += 1;
            }
            proof {
                assert(pdistinct(alias@[i as int].1@, |e: (String, String)| pair_key(e)));
            }
            i += 1;
        }
        if !seen_default || !seen_current {
            proof {
                let nk = |e: (String, Vec<(String, String)>)| ns_key(e);
                let nv = |e: (String, Vec<(String, String)>)| ns_val(e);
                lemma_pmap_domain(alias@, nk, nv);
                if !seen_default {
                    assert(!tmap(alias@).contains_key("default"@)) by {
                        if tmap(alias@).contains_key("default"@) {
                            let x = choose|x: int| 0 <= x < alias@.len() && nk(alias@[x])
                                == "default"@;
                            assert(alias@[x].0@ == "default"@);
                        }
                    }
                } else {
                    assert(!tmap(alias@).contains_key(namespace@)) by {
                        if tmap(alias@).contains_key(namespace@) {
                            let x = choose|x: int| 0 <= x < alias@.len() && nk(alias@[x])
                                == namespace@;
                            assert(alias@[x].0@ == namespace@);
                        }
                    }
                }
            }
            return None;
        }
        proof {
            let nk = |e: (String, Vec<(String, String)>)| ns_key(e);
            let nv = |e: (String, Vec<(String, String)>)| ns_val(e);
            lemma_pmap_domain(alias@, nk, nv);
            let x = choose|x: int| 0 <= x < alias@.len() && (#[trigger] alias@[x]).0@
                == "default"@;
            assert(nk(alias@[x]) == "default"@);
            let y = choose|y: int| 0 <= y < alias@.len() && (#[trigger] alias@[y]).0@
                == namespace@;
            assert(nk(alias@[y]) == namespace@);
            assert(pdistinct(alias@, nk));
        }
        Some(User { namespace, alias })
    }

    /// Index of the entry for namespace `name`, if one exists.
    fn find_ns(&self, name: &str) -> (r: Option<usize>)
        ensures
            match r {
                Some(i) => i < self.alias@.len() && self.alias@[i as int].0@ == name@,
                None => !has_pkey(
                    self.alias@,
                    |e: (String, Vec<(String, String)>)| ns_key(e),
                    name@,
                ),
            },
    {
        let key: String = name.to_owned();
        let n = self.alias.len();
        let mut i: usize = 0;
        while i < n
            invariant
                n == self.alias@.len(),
                key@ == name@,
                0 <= i <= n,
                forall|j: int| 0 <= j < i ==> (#[trigger] self.alias@[j]).0@ != name@,
            decreases n - i,
        {
            if self.alias[i].0 == key {
                return Some(i);
            }
            i += 1;
        }
        proof {
            assert forall|j: int| 0 <= j < self.alias@.len() implies ns_key(
                #[trigger] self.alias@[j],
            ) != name@ by {}
        }
        None
    }

    /// Returns the current namespace of the user.
    pub fn namespace(&self) -> (r: &str)
        ensures
            r@ == self.current(),
    {
        self.namespace.as_str()
    }

    /// Adds a new namespace; if it already exists, nothing changes, and the
    /// aliases stored under it are kept.
    pub fn add_namespace(&mut self, name: &str)
        requires
            old(self).wf(),
            name@.len() > 0,
        ensures
            final (self).wf(),
            final (self).current() == old(self).current(),
            final (self).table() == add_namespace_model(old(self).table(), name@),
    {
        proof {
            lemma_pmap_domain(
                self.alias@,
                |e: (String, Vec<(String, String)>)| ns_key(e),
                |e: (String, Vec<(String, String)>)| ns_val(e),
            );
        }
        match self.find_ns(name) {
            Some(_) => {},
            None => {
                let ghost pre = self.alias@;
                self.alias.push((name.to_owned(), Vec::new()));
                proof {
                    let k = |e: (String, Vec<(String, String)>)| ns_key(e);
                    let v = |e: (String, Vec<(String, String)>)| ns_val(e);
                    let entry = self.alias@.last();
                    lemma_pmap_push(pre, k, v, entry);
                    lemma_pdistinct_push(pre, k, entry);
                    assert(ns_val(entry) =~= Map::<Seq<char>, Seq<char>>::empty());
                    lemma_pmap_domain(self.alias@, k, v);
                    assert(has_pkey(self.alias@, k, "default"@)) by {
                        lemma_pmap_domain(pre, k, v);
                        let i = choose|i: int| 0 <= i < pre.len() && k(pre[i]) == "default"@;
                        assert(k(self.alias@[i]) == "default"@);
                    }
                    assert(has_pkey(self.alias@, k, self.namespace@)) by {
                        lemma_pmap_domain(pre, k, v);
                        let i = choose|i: int| 0 <= i < pre.len() && k(pre[i]) == self.namespace@;
                        assert(k(self.alias@[i]) == self.namespace@);
                    }
                }
            },
        }
    }

    /// Index of the alias entry for token `k` in the pair list, if present.
    fn find_pair(v: &Vec<(String, String)>, k: &str) -> (r: Option<usize>)
        ensures
            match r {
                Some(j) => j < v@.len() && v@[j as int].0@ == k@,
                None => !has_pkey(v@, |e: (String, String)| pair_key(e), k@),
            },
    {
        let key: String = k.to_owned();
        let n = v.len();
        let mut j: usize = 0;
        while j < n
            invariant
                n == v@.len(),
                key@ == k@,
                0 <= j <= n,
                forall|x: int| 0 <= x < j ==> (#[trigger] v@[x]).0@ != k@,
            decreases n - j,
        {
            if v[j].0 == key {
                return Some(j);
            }
            j += 1;
        }
        proof {
            assert forall|x: int| 0 <= x < v@.len() implies pair_key(#[trigger] v@[x]) != k@ by {}
        }
        None
    }

    /// The entry index of the active namespace; well-formedness guarantees one.
    fn find_current(&self) -> (i: usize)
        requires
            self.wf(),
        ensures
            i < self.alias@.len(),
            self.alias@[i as int].0@ == self.current(),
    {
        proof {
            lemma_pmap_domain(
                self.alias@,
                |e: (String, Vec<(String, String)>)| ns_key(e),
                |e: (String, Vec<(String, String)>)| ns_val(e),
            );
        }
        match self.find_ns(self.namespace.as_str()) {
            Some(i) => i,
            None => {
                proof {
                    assert(false);
                }
                0
            },
        }
    }

    /// Adds or updates an alias in the current namespace.
    ///
    /// The store's invariant keeps the active namespace present, so the
    /// operation always succeeds; the `InvalidNamespace` outcome defends the
    /// interface against an ill-formed store and is proved unreachable.
    pub fn alias_mut(&mut self, k: &str, v: &str) -> (r: Result<(), Error>)
        requires
            old(self).wf(),
            k@.len() > 0,
        ensures
            final (self).wf(),
            r is Ok,
            final (self).current() == old(self).current(),
            final (self).table() == old(self).table().insert(
                old(self).current(),
                old(self).aliases_now().insert(k@, v@),
            ),
    {
        let ghost nk = |e: (String, Vec<(String, String)>)| ns_key(e);
        let ghost nv = |e: (String, Vec<(String, String)>)| ns_val(e);
        let ghost pk = |e: (String, String)| pair_key(e);
        let ghost pv = |e: (String, String)| pair_val(e);
        let i = self.find_current();
        proof {
            lemma_pmap_index(self.alias@, nk, nv, i as int);
        }
        let ghost pre = self.alias@;
        let ghost pre_pairs = self.alias@[i as int].1@;
        let j_opt = Self::find_pair(&self.alias[i].1, k);
        match j_opt {
            Some(j) => {
                let entry = &mut self.alias[i];
                let slot = &mut entry.1[j];
                slot.1 = v.to_owned();
                proof {
                    assert(*final (slot) == (pre_pairs[j as int].0, final (slot).1));
                    lemma_pmap_update(
                        pre_pairs,
                        pk,
                        pv,
                        j as int,
                        (pre_pairs[j as int].0, final (slot).1),
                    );
                    lemma_pdistinct_update(
                        pre_pairs,
                        pk,
                        j as int,
                        (pre_pairs[j as int].0, final (slot).1),
                    );
                    lemma_pmap_update(pre, nk, nv, i as int, *final (entry));
                    lemma_pdistinct_update(pre, nk, i as int, *final (entry));
                }
            },
            None => {
                let entry = &mut self.alias[i];
                entry.1.push((k.to_owned(), v.to_owned()));
                proof {
                    let pushed = final (entry).1@.last();
                    assert(final (entry).1@ =~= pre_pairs.push(pushed));
                    lemma_pmap_push(pre_pairs, pk, pv, pushed);
                    lemma_pdistinct_push(pre_pairs, pk, pushed);
                    lemma_pmap_update(pre, nk, nv, i as int, *final (entry));
                    lemma_pdistinct_update(pre, nk, i as int, *final (entry));
                }
            },
        }
        proof {
            assert(final (self).table() =~= old(self).table().insert(
                old(self).current(),
                old(self).aliases_now().insert(k@, v@),
            ));
            lemma_pmap_domain(final (self).alias@, nk, nv);
            lemma_pmap_domain(old(self).alias@, nk, nv);
        }
        Ok(())
    }

    /// Retrieves the replacement associated with an alias token in the
    /// current namespace.
    pub fn alias(&self, alias: &str) -> (r: Result<String, Error>)
        requires
            self.wf(),
        ensures
            match r {
                Ok(val) => self.aliases_now().contains_key(alias@) && val@
                    == self.aliases_now()[alias@],
                Err(e) => {
                    &&& !self.aliases_now().contains_key(alias@)
                    &&& e matches Error::AliasNotFound(t) && t@ == alias@
                },
            },
    {
        let ghost nk = |e: (String, Vec<(String, String)>)| ns_key(e);
        let ghost nv = |e: (String, Vec<(String, String)>)| ns_val(e);
        let ghost pk = |e: (String, String)| pair_key(e);
        let ghost pv = |e: (String, String)| pair_val(e);
        let i = self.find_current();
        proof {
            lemma_pmap_index(self.alias@, nk, nv, i as int);
            lemma_pmap_domain(self.alias@[i as int].1@, pk, pv);
        }
        match Self::find_pair(&self.alias[i].1, alias) {
            Some(j) => {
                proof {
                    lemma_pmap_index(self.alias@[i as int].1@, pk, pv, j as int);
                }
                Ok(self.alias[i].1[j].1.clone())
            },
            None => Err(Error::AliasNotFound(alias.to_owned())),
        }
    }

    /// Returns all `(token, replacement)` pairs of the current namespace.
    ///
    /// The pairs enumerate the active namespace's alias map exactly, with
    /// distinct, non-empty tokens; their order is not specified.
    pub fn aliases(&self) -> (r: Result<Vec<(String, String)>, Error>)
        requires
            self.wf(),
        ensures
            r matches Ok(v) && {
                &&& amap(v@) == self.aliases_now()
                &&& pdistinct(v@, |e: (String, String)| pair_key(e))
                &&& forall|x: int| 0 <= x < v@.len() ==> (#[trigger] v@[x]).0@.len() > 0
            },
    {
        let ghost nk = |e: (String, Vec<(String, String)>)| ns_key(e);
        let ghost nv = |e: (String, Vec<(String, String)>)| ns_val(e);
        let i = self.find_current();
        proof {
            lemma_pmap_index(self.alias@, nk, nv, i as int);
        }
        let pairs = &self.alias[i].1;
        let n = pairs.len();
        let mut out: Vec<(String, String)> = Vec::new();
        let mut x: usize = 0;
        while x < n
            invariant
                n == pairs@.len(),
                0 <= x <= n,
                out@.len() == x,
                forall|y: int| 0 <= y < x ==> out@[y] == pairs@[y],
            decreases n - x,
        {
            out.push((pairs[x].0.clone(), pairs[x].1.clone()));
            x += 1;
        }
        proof {
            assert(out@ =~= pairs@);
        }
        Ok(out)
    }

    /// Removes an alias from the current namespace and returns its prior
    /// replacement; an absent token is reported as `AliasNotFound`.
    pub fn remove_alias(&mut self, alias: &str) -> (r: Result<String, Error>)
        requires
            old(self).wf(),
        ensures
            final (self).wf(),
            final (self).current() == old(self).current(),
            old(self).aliases_now().contains_key(alias@) ==> {
                &&& r matches Ok(val) && val@ == old(self).aliases_now()[alias@]
                &&& final (self).table() == old(self).table().insert(
                    old(self).current(),
                    old(self).aliases_now().remove(alias@),
                )
            },
            !old(self).aliases_now().contains_key(alias@) ==> {
                &&& r matches Err(e) && e matches Error::AliasNotFound(t) && t@ == alias@
                &&& final (self).table() == old(self).table()
            },
    {
        let ghost nk = |e: (String, Vec<(String, String)>)| ns_key(e);
        let ghost nv = |e: (String, Vec<(String, String)>)| ns_val(e);
        let ghost pk = |e: (String, String)| pair_key(e);
        let ghost pv = |e: (String, String)| pair_val(e);
        let i = self.find_current();
        proof {
            lemma_pmap_index(self.alias@, nk, nv, i as int);
            lemma_pmap_domain(self.alias@[i as int].1@, pk, pv);
        }
        let ghost pre = self.alias@;
        let ghost pre_pairs = self.alias@[i as int].1@;
        match Self::find_pair(&self.alias[i].1, alias) {
            Some(j) => {
                proof {
                    lemma_pmap_index(pre_pairs, pk, pv, j as int);
                }
                let entry = &mut self.alias[i];
                let removed = entry.1.remove(j);
                proof {
                    lemma_pmap_remove(pre_pairs, pk, pv, j as int);
                    lemma_pdistinct_remove(pre_pairs, pk, j as int);
                    lemma_pmap_update(pre, nk, nv, i as int, *final (entry));
                    lemma_pdistinct_update(pre, nk, i as int, *final (entry));
                    assert(final (self).table() =~= old(self).table().insert(
                        old(self).current(),
                        old(self).aliases_now().remove(alias@),
                    ));
                    lemma_pmap_domain(final (self).alias@, nk, nv);
                    lemma_pmap_domain(old(self).alias@, nk, nv);
                }
                Ok(removed.1)
            },
            None => Err(Error::AliasNotFound(alias.to_owned())),
        }
    }

    /// Removes a namespace and returns its name with the aliases it held; an
    /// unknown name is reported as `NamespaceNotFound`.  If the removed
    /// namespace was active, the active namespace resets to `"default"`.
    ///
    /// The protected `"default"` namespace may not be removed; callers reject
    /// such attempts before invoking this operation (see
    /// [`User::delete_namespace`]).
    pub fn remove_namespace(&mut self, namespace: &str) -> (r: Result<
        (String, Vec<(String, String)>),
        Error,
    >)
        requires
            old(self).wf(),
            namespace@ != "default"@,
        ensures
            final (self).wf(),
            old(self).table().contains_key(namespace@) ==> {
                &&& r matches Ok(p) && {
                    &&& p.0@ == namespace@
                    &&& amap(p.1@) == old(self).table()[namespace@]
                    &&& pdistinct(p.1@, |e: (String, String)| pair_key(e))
                }
                &&& final (self).table() == old(self).table().remove(namespace@)
                &&& final (self).current() == if old(self).current() == namespace@ {
                    "default"@
                } else {
                    old(self).current()
                }
            },
            !old(self).table().contains_key(namespace@) ==> {
                &&& r matches Err(e) && e matches Error::NamespaceNotFound(t) && t@ == namespace@
                &&& final (self).table() == old(self).table()
                &&& final (self).current() == old(self).current()
            },
    {
        let ghost nk = |e: (String, Vec<(String, String)>)| ns_key(e);
        let ghost nv = |e: (String, Vec<(String, String)>)| ns_val(e);
        proof {
            lemma_pmap_domain(self.alias@, nk, nv);
        }
        match self.find_ns(namespace) {
            Some(i) => {
                proof {
                    lemma_pmap_index(self.alias@, nk, nv, i as int);
                }
                let ghost pre = self.alias@;
                let key: String = namespace.to_owned();
                if self.namespace == key {
                    self.namespace = "default".to_owned();
                }
                let entry = self.alias.remove(i);
                proof {
                    lemma_pmap_remove(pre, nk, nv, i as int);
                    lemma_pdistinct_remove(pre, nk, i as int);
                    lemma_pmap_domain(final (self).alias@, nk, nv);
                    lemma_pmap_domain(pre, nk, nv);
                }
                Ok((entry.0, entry.1))
            },
            None => Err(Error::NamespaceNotFound(namespace.to_owned())),
        }
    }

    /// Returns the names of all declared namespaces, without duplicates and
    /// in no specified order.
    pub fn namespaces(&self) -> (r: Vec<String>)
        requires
            self.wf(),
        ensures
            forall|x: int| 0 <= x < r@.len() ==> self.table().contains_key((#[trigger] r@[x])@),
            forall|k: Seq<char>|
                #[trigger] self.table().contains_key(k) ==> exists|x: int|
                    0 <= x < r@.len() && r@[x]@ == k,
            forall|x: int, y: int| 0 <= x < y < r@.len() ==> r@[x]@ != r@[y]@,
    {
        let ghost nk = |e: (String, Vec<(String, String)>)| ns_key(e);
        let ghost nv = |e: (String, Vec<(String, String)>)| ns_val(e);
        let n = self.alias.len();
        let mut out: Vec<String> = Vec::new();
        let mut i: usize = 0;
        while i < n
            invariant
                n == self.alias@.len(),
                0 <= i <= n,
                out@.len() == i,
                forall|y: int| 0 <= y < i ==> out@[y]@ == (#[trigger] self.alias@[y]).0@,
            decreases n - i,
        {
            out.push(self.alias[i].0.clone());
            i += 1;
        }
        proof {
            lemma_pmap_domain(self.alias@, nk, nv);
            assert forall|k: Seq<char>| #[trigger] self.table().contains_key(k) implies exists|x: int|
                0 <= x < out@.len() && out@[x]@ == k by {
                let x = choose|x: int| 0 <= x < self.alias@.len() && nk(self.alias@[x]) == k;
                assert(out@[x]@ == k);
            }
            assert forall|x: int| 0 <= x < out@.len() implies self.table().contains_key(
                (#[trigger] out@[x])@,
            ) by {
                assert(nk(self.alias@[x]) == out@[x]@);
            }
            assert forall|x: int, y: int| 0 <= x < y < out@.len() implies out@[x]@ != out@[y]@ by {
                assert(nk(self.alias@[x]) == out@[x]@);
                assert(nk(self.alias@[y]) == out@[y]@);
            }
        }
        out
    }

    /// Changes the current namespace; if the name does not exist, nothing
    /// changes.
    pub fn namespace_mut(&mut self, namespace: &str)
        requires
            old(self).wf(),
        ensures
            final (self).wf(),
            final (self).table() == old(self).table(),
            final (self).current() == if old(self).table().contains_key(namespace@) {
                namespace@
            } else {
                old(self).current()
            },
    {
        proof {
            lemma_pmap_domain(
                self.alias@,
                |e: (String, Vec<(String, String)>)| ns_key(e),
                |e: (String, Vec<(String, String)>)| ns_val(e),
            );
        }
        match self.find_ns(namespace) {
            Some(i) => {
                proof {
                    assert(ns_key(self.alias@[i as int]) == namespace@);
                }
                self.namespace = namespace.to_owned();
            },
            None => {},
        }
    }

    /// Switches the current namespace to `namespace`, reporting
    /// `NamespaceNotFound` when no such namespace exists; the prior active
    /// namespace is kept intact on failure.
    pub fn switch_namespace(&mut self, namespace: &str) -> (r: Result<(), Error>)
        requires
            old(self).wf(),
        ensures
            final (self).wf(),
            final (self).table() == old(self).table(),
            old(self).table().contains_key(namespace@) ==> r is Ok && final (self).current()
                == namespace@,
            !old(self).table().contains_key(namespace@) ==> {
                &&& r matches Err(e) && e matches Error::NamespaceNotFound(t) && t@ == namespace@
                &&& final (self).current() == old(self).current()
            },
    {
        proof {
            lemma_pmap_domain(
                self.alias@,
                |e: (String, Vec<(String, String)>)| ns_key(e),
                |e: (String, Vec<(String, String)>)| ns_val(e),
            );
        }
        match self.find_ns(namespace) {
            Some(i) => {
                proof {
                    assert(ns_key(self.alias@[i as int]) == namespace@);
                }
                self.namespace = namespace.to_owned();
                Ok(())
            },
            None => Err(Error::NamespaceNotFound(namespace.to_owned())),
        }
    }

    /// Creates a namespace, rejecting a name that is already taken; the
    /// rejection protects the aliases stored under the existing name.
    pub fn create_namespace(&mut self, namespace: &str) -> (r: Result<(), Error>)
        requires
            old(self).wf(),
            namespace@.len() > 0,
        ensures
            final (self).wf(),
            final (self).current() == old(self).current(),
            !old(self).table().contains_key(namespace@) ==> r is Ok && final (self).table()
                == old(self).table().insert(namespace@, Map::<Seq<char>, Seq<char>>::empty()),
            old(self).table().contains_key(namespace@) ==> {
                &&& r matches Err(e) && e matches Error::Simple(m) && m@
                    == "cannot rewrite over an existing namespace"@
                &&& final (self).table() == old(self).table()
            },
    {
        proof {
            lemma_pmap_domain(
                self.alias@,
                |e: (String, Vec<(String, String)>)| ns_key(e),
                |e: (String, Vec<(String, String)>)| ns_val(e),
            );
        }
        match self.find_ns(namespace) {
            Some(_) => Err(Error::Simple("cannot rewrite over an existing namespace")),
            None => {
                self.add_namespace(namespace);
                Ok(())
            },
        }
    }

    /// Deletes a namespace as [`User::remove_namespace`] does, additionally
    /// rejecting the protected `"default"` namespace.
    pub fn delete_namespace(&mut self, namespace: &str) -> (r: Result<
        (String, Vec<(String, String)>),
        Error,
    >)
        requires
            old(self).wf(),
        ensures
            final (self).wf(),
            namespace@ == "default"@ ==> {
                &&& r matches Err(e) && e matches Error::Simple(m) && m@
                    == "cannot drop default namespace"@
                &&& final (self).table() == old(self).table()
                &&& final (self).current() == old(self).current()
            },
            namespace@ != "default"@ && old(self).table().contains_key(namespace@) ==> {
                &&& r matches Ok(p) && {
                    &&& p.0@ == namespace@
                    &&& amap(p.1@) == old(self).table()[namespace@]
                    &&& pdistinct(p.1@, |e: (String, String)| pair_key(e))
                }
                &&& final (self).table() == old(self).table().remove(namespace@)
                &&& final (self).current() == if old(self).current() == namespace@ {
                    "default"@
                } else {
                    old(self).current()
                }
            },
            namespace@ != "default"@ && !old(self).table().contains_key(namespace@) ==> {
                &&& r matches Err(e) && e matches Error::NamespaceNotFound(t) && t@ == namespace@
                &&& final (self).table() == old(self).table()
                &&& final (self).current() == old(self).current()
            },
    {
        let protected: String = "default".to_owned();
        let key: String = namespace.to_owned();
        if key == protected {
            Err(Error::Simple("cannot drop default namespace"))
        } else {
            self.remove_namespace(namespace)
        }
    }
}

/// Adding a namespace and then switching to it makes it current: the table
/// after `add_namespace` contains the name, and `switch_namespace` on a
/// contained name ends with that name current (per its contract).
pub proof fn law_add_then_switch(t: Map<Seq<char>, Map<Seq<char>, Seq<char>>>, name: Seq<char>)
    ensures
        add_namespace_model(t, name).contains_key(name),
{
}

/// Adding a namespace twice equals adding it once, and adding never clears
/// the aliases already stored under any existing namespace.
pub proof fn law_add_namespace_idempotent(
    t: Map<Seq<char>, Map<Seq<char>, Seq<char>>>,
    name: Seq<char>,
)
    ensures
        add_namespace_model(add_namespace_model(t, name), name) == add_namespace_model(t, name),
        forall|m: Seq<char>|
            t.contains_key(m) ==> add_namespace_model(t, name)[m] == #[trigger] t[m],
{
}

/// Setting an alias then reading the token yields the value just set, and a
/// second set of the same token overwrites it: over the state change that
/// `alias_mut`'s contract pins — for a non-empty token, which the store asks
/// of every token, and an active namespace the table contains, which the
/// store's invariant keeps — a following `alias` returns the latest value.
pub proof fn law_set_then_get_alias(
    t: Map<Seq<char>, Map<Seq<char>, Seq<char>>>,
    cur: Seq<char>,
    k: Seq<char>,
    v: Seq<char>,
    v2: Seq<char>,
)
    requires
        k.len() > 0,
        t.contains_key(cur),
    ensures
        ({
            let t1 = t.insert(cur, t[cur].insert(k, v));
            t1.contains_key(cur) && t1[cur].contains_key(k) && t1[cur][k] == v
        }),
        ({
            let t1 = t.insert(cur, t[cur].insert(k, v));
            let t2 = t1.insert(cur, t1[cur].insert(k, v2));
            t2.contains_key(cur) && t2[cur].contains_key(k) && t2[cur][k] == v2
        }),
{
}

/// Removing a namespace removes exactly its key: over the table change that
/// `remove_namespace`'s contract pins — for a name other than the protected
/// `"default"`, which callers reject beforehand — the name is gone and every
/// other namespace keeps its alias map unchanged.  The same contract returns
/// the removed namespace's exact alias map and resets the current namespace
/// to `"default"` exactly when the removed one was current.
pub proof fn law_remove_namespace(t: Map<Seq<char>, Map<Seq<char>, Seq<char>>>, name: Seq<char>)
    requires
        name != "default"@,
        t.contains_key(name),
    ensures
        !t.remove(name).contains_key(name),
        forall|o: Seq<char>|
            o != name ==> (#[trigger] t.remove(name).contains_key(o)) == t.contains_key(o),
        forall|o: Seq<char>|
            o != name && t.contains_key(o) ==> (#[trigger] t.remove(name)[o]) == t[o],
{
}

/// After the removal that `remove_alias` performs, the token is gone, so a
/// following lookup fails (per `alias`'s contract).
pub proof fn law_removed_alias_gone(m: Map<Seq<char>, Seq<char>>, k: Seq<char>)
    ensures
        !m.remove(k).contains_key(k),
{
}

} // verus!
