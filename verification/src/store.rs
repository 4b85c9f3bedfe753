//! The in-memory identity store: an ordered map from key bytes to identities,
//! kept as a vector of entries sorted by key byte value, the order a
//! `BTreeMap` over byte-string keys would keep.

use vstd::prelude::*;
use crate::bytes::{lex_lt, lex_less, bytes_eq, lemma_lex_total, lemma_lex_irrefl,
    lemma_lex_trans};
use crate::identity::{IdentityPerf, IdentityView, StoreError, UpdateRequest, views_of,
    updated_identity, clone_bytes, list_contains, apply_update};

verus! {

/// One store entry in the model: key bytes and the identity bound to them.
pub type EntryView = (Seq<u8>, IdentityView);

/// The sequence of entry models of a sequence of store entries.
pub open spec fn entry_views(s: Seq<(Vec<u8>, IdentityPerf)>) -> Seq<EntryView> {
    Seq::new(s.len(), |i: int| (s[i].0@, s[i].1@))
}

/// Keys strictly increase in byte-value order; this also makes them unique.
pub open spec fn sorted_by_key(entries: Seq<EntryView>) -> bool {
    forall|i: int, j: int|
        0 <= i < j < entries.len() ==> lex_lt(#[trigger] entries[i].0, #[trigger] entries[j].0)
}

/// Whether some entry binds key `k`.
pub open spec fn has_key(entries: Seq<EntryView>, k: Seq<u8>) -> bool {
    exists|i: int| 0 <= i < entries.len() && (#[trigger] entries[i]).0 == k
}

/// The position of some entry binding key `k`; meaningful when `has_key`
/// holds, and unique when the keys are sorted.
pub open spec fn index_of_key(entries: Seq<EntryView>, k: Seq<u8>) -> int {
    choose|i: int| 0 <= i < entries.len() && (#[trigger] entries[i]).0 == k
}

/// The identity bound to key `k`; meaningful when `has_key` holds.
pub open spec fn value_of(entries: Seq<EntryView>, k: Seq<u8>) -> IdentityView {
    entries[index_of_key(entries, k)].1
}

/// Where a fresh key `k` lands in a sorted entry sequence: the first index
/// whose key is not below `k`.
pub open spec fn insert_index(entries: Seq<EntryView>, k: Seq<u8>) -> int
    decreases entries.len(),
{
    if entries.len() == 0 {
        0
    } else if lex_lt(entries[0].0, k) {
        1 + insert_index(entries.drop_first(), k)
    } else {
        0
    }
}

/// The entry sequence after a sorted insertion of `k`.
pub open spec fn store_insert(entries: Seq<EntryView>, k: Seq<u8>, id: IdentityView) -> Seq<
    EntryView,
> {
    entries.insert(insert_index(entries, k), (k, id))
}

/// `insert_index` is exactly the split point: everything below `k` on the
/// left, nothing below `k` at the right boundary.
pub proof fn lemma_insert_index_is(entries: Seq<EntryView>, k: Seq<u8>, i: int)
    requires
        0 <= i <= entries.len(),
        forall|j: int| 0 <= j < i ==> lex_lt(#[trigger] entries[j].0, k),
        i < entries.len() ==> !lex_lt(entries[i].0, k),
    ensures
        insert_index(entries, k) == i,
    decreases entries.len(),
{
    if entries.len() == 0 {
    } else if i == 0 {
    } else {
        assert(lex_lt(entries[0].0, k));
        let d = entries.drop_first();
        assert forall|j: int| 0 <= j < i - 1 implies lex_lt(#[trigger] d[j].0, k) by {
            assert(d[j] == entries[j + 1]);
        }
        if i - 1 < d.len() {
            assert(d[i - 1] == entries[i]);
        }
        lemma_insert_index_is(d, k, i - 1);
    }
}

/// In a sorted entry sequence a key occurs at most once.
pub proof fn lemma_key_unique(entries: Seq<EntryView>, i: int, j: int)
    requires
        sorted_by_key(entries),
        0 <= i < entries.len(),
        0 <= j < entries.len(),
        entries[i].0 == entries[j].0,
    ensures
        i == j,
{
    if i < j {
        lemma_lex_irrefl(entries[i].0);
    }
    if j < i {
        lemma_lex_irrefl(entries[i].0);
    }
}

/// When entry `i` carries key `k`, `value_of` picks exactly that entry.
pub proof fn lemma_value_at(entries: Seq<EntryView>, k: Seq<u8>, at: int)
    requires
        sorted_by_key(entries),
        0 <= at < entries.len(),
        entries[at].0 == k,
    ensures
        has_key(entries, k),
        value_of(entries, k) == entries[at].1,
{
    assert(has_key(entries, k));
    let c = index_of_key(entries, k);
    assert(0 <= c < entries.len() && entries[c].0 == k);
    lemma_key_unique(entries, at, c);
}

/// The identity store: an ordered mapping with unique keys, held wholly in
/// memory. On disk the same records may sit in any order between comment
/// lines; in memory they are sorted by key byte value.
#[derive(Debug)]
pub struct LocalAuthorStoragePerf {
    pub identities: Vec<(Vec<u8>, IdentityPerf)>,
}

impl View for LocalAuthorStoragePerf {
    type V = Seq<EntryView>;

    open spec fn view(&self) -> Seq<EntryView> {
        entry_views(self.identities@)
    }
}

impl LocalAuthorStoragePerf {
    /// Keys strictly increase; every operation preserves this.
    pub open spec fn wf(self) -> bool {
        sorted_by_key(self@)
    }

    /// An empty store.
    pub fn new() -> (r: Self)
        ensures
            r@ == Seq::<EntryView>::empty(),
            r.wf(),
    {
        let r = Self { identities: Vec::new() };
        proof {
            assert(r@ =~= Seq::<EntryView>::empty());
        }
        r
    }

    /// The first position whose key is not below `key`, and whether the key
    /// at that position equals `key`.
    fn search(&self, key: &[u8]) -> (r: (usize, bool))
        requires
            self.wf(),
        ensures
            r.0 == insert_index(self@, key@),
            0 <= r.0 <= self@.len(),
            r.1 == has_key(self@, key@),
            r.1 ==> r.0 < self@.len() && self@[r.0 as int].0 == key@,
            forall|j: int| 0 <= j < r.0 ==> lex_lt(#[trigger] self@[j].0, key@),
            r.0 < self@.len() ==> !lex_lt(self@[r.0 as int].0, key@),
    {
        let n = self.identities.len();
        let mut i: usize = 0;
        while i < n
            invariant
                self.wf(),
                n == self@.len(),
                i <= n,
                forall|j: int| 0 <= j < i ==> lex_lt(#[trigger] self@[j].0, key@),
            decreases n - i,
        {
            if !lex_less(self.identities[i].0.as_slice(), key) {
                let eq = bytes_eq(self.identities[i].0.as_slice(), key);
                proof {
                    lemma_insert_index_is(self@, key@, i as int);
                    if eq {
                        assert(has_key(self@, key@));
                    } else {
                        assert forall|j: int| 0 <= j < self@.len() implies (#[trigger] self@[j]).0
                            != key@ by {
                            if j < i {
                                lemma_lex_irrefl(key@);
                            } else if j == i as int {
                            } else {
                                lemma_lex_total(self@[i as int].0, key@);
                                lemma_lex_trans(key@, self@[i as int].0, self@[j].0);
                                lemma_lex_irrefl(key@);
                            }
                        }
                    }
                }
                return (i, eq);
            }
            i = i + 1;
        }
        proof {
            lemma_insert_index_is(self@, key@, n as int);
            assert forall|j: int| 0 <= j < self@.len() implies (#[trigger] self@[j]).0 != key@ by {
                lemma_lex_irrefl(key@);
            }
        }
        (n, false)
    }

    /// Binds `key` to a copy of `identity`. Fails, leaving the store
    /// untouched, exactly when the key is already taken.
    pub fn add_identity(&mut self, key: Vec<u8>, identity: &IdentityPerf) -> (r: Result<
        (),
        String,
    >)
        requires
            old(self).wf(),
        ensures
            final(self).wf(),
            match r {
                Ok(()) => !has_key(old(self)@, key@) && final(self)@ == store_insert(
                    old(self)@,
                    key@,
                    identity@,
                ),
                Err(_) => has_key(old(self)@, key@) && final(self)@ == old(self)@,
            },
    {
        let (pos, present) = self.search(key.as_slice());
        if present {
            return Err(key_exists_message());
        }
        let entry = (key, identity.duplicate());
        self.identities.insert(pos, entry);
        proof {
            let ghost k = entry.0@;
            let old_entries = old(self)@;
            assert(self@ =~= old_entries.insert(pos as int, (k, identity@)));
            assert forall|a: int, b: int|
                0 <= a < b < self@.len() implies lex_lt(
                #[trigger] self@[a].0,
                #[trigger] self@[b].0,
            ) by {
                let n = old_entries.len();
                let p = pos as int;
                assert forall|j: int| p <= j < n implies lex_lt(
                    k,
                    #[trigger] old_entries[j].0,
                ) by {
                    assert(!lex_lt(old_entries[p].0, k));
                    assert(old_entries[p].0 != k);
                    lemma_lex_total(old_entries[p].0, k);
                    if j > p {
                        lemma_lex_trans(k, old_entries[p].0, old_entries[j].0);
                    }
                }
                if a < p && b < p {
                } else if a < p && b == p {
                } else if a < p && b > p {
                } else if a == p {
                } else {
                }
            }
        }
        Ok(())
    }

    /// The identity bound to `key`, when the key is present.
    pub fn lookup_id(&self, key: &[u8]) -> (r: Option<&IdentityPerf>)
        requires
            self.wf(),
        ensures
            match r {
                Some(id) => has_key(self@, key@) && id@ == value_of(self@, key@),
                None => !has_key(self@, key@),
            },
    {
        let (pos, present) = self.search(key);
        if present {
            proof {
                lemma_value_at(self@, key@, pos as int);
            }
            Some(&self.identities[pos].1)
        } else {
            None
        }
    }
}

/// The message `add_identity` reports for a taken key.
fn key_exists_message() -> (r: String)
    ensures
        r@ == "Key already exists"@,
{
    "Key already exists".to_owned()
}

/// Whether the identity carries at least one of the given usernames or at
/// least one of the given emails.
pub open spec fn matches_any(id: IdentityView, us: Seq<Seq<u8>>, es: Seq<Seq<u8>>) -> bool {
    ||| exists|i: int| 0 <= i < us.len() && id.usernames.contains(#[trigger] us[i])
    ||| exists|i: int| 0 <= i < es.len() && id.emails.contains(#[trigger] es[i])
}

/// The entry predicate `find_any` filters with.
pub open spec fn match_pred(us: Seq<Seq<u8>>, es: Seq<Seq<u8>>) -> spec_fn(EntryView) -> bool {
    |e: EntryView| matches_any(e.1, us, es)
}

/// Whether `id` matches any of the username or email queries.
fn matches_queries(id: &IdentityPerf, usernames: &Vec<Vec<u8>>, emails: &Vec<Vec<u8>>) -> (r:
    bool)
    ensures
        r == matches_any(id@, views_of(usernames@), views_of(emails@)),
{
    let mut i: usize = 0;
    while i < usernames.len()
        invariant
            i <= usernames@.len(),
            forall|j: int|
                0 <= j < i ==> !id@.usernames.contains(#[trigger] views_of(usernames@)[j]),
        decreases usernames@.len() - i,
    {
        if list_contains(&id.usernames, &usernames[i]) {
            assert(id@.usernames.contains(views_of(usernames@)[i as int]));
            return true;
        }
        i = i + 1;
    }
    let mut i: usize = 0;
    while i < emails.len()
        invariant
            i <= emails@.len(),
            forall|j: int| 0 <= j < i ==> !id@.emails.contains(#[trigger] views_of(emails@)[j]),
        decreases emails@.len() - i,
    {
        if list_contains(&id.emails, &emails[i]) {
            assert(id@.emails.contains(views_of(emails@)[i as int]));
            return true;
        }
        i = i + 1;
    }
    false
}

/// The key an update leaves the record under: the rename target when one is
/// given, the looked-up key otherwise.
pub open spec fn upd_key(req: crate::identity::UpdateRequestView, k: Seq<u8>) -> Seq<u8> {
    match req.change_identity {
        Some(k2) => k2,
        None => k,
    }
}

/// Removing entry `i` keeps the order and affects no other key.
pub proof fn lemma_remove_semantics(entries: Seq<EntryView>, i: int)
    requires
        sorted_by_key(entries),
        0 <= i < entries.len(),
    ensures
        sorted_by_key(entries.remove(i)),
        !has_key(entries.remove(i), entries[i].0),
        forall|k2: Seq<u8>|
            k2 != entries[i].0 ==> #[trigger] has_key(entries.remove(i), k2) == has_key(
                entries,
                k2,
            ),
        forall|k2: Seq<u8>|
            k2 != entries[i].0 && has_key(entries, k2) ==> #[trigger] value_of(
                entries.remove(i),
                k2,
            ) == value_of(entries, k2),
{
    let n = entries.len();
    let rem = entries.remove(i);
    entries.remove_ensures(i);
    assert forall|a: int, b: int|
        0 <= a < b < rem.len() implies lex_lt(#[trigger] rem[a].0, #[trigger] rem[b].0) by {
        let a2 = if a < i { a } else { a + 1 };
        let b2 = if b < i { b } else { b + 1 };
        assert(rem[a] == entries[a2]);
        assert(rem[b] == entries[b2]);
    }
    assert forall|j: int| 0 <= j < rem.len() implies (#[trigger] rem[j]).0 != entries[i].0 by {
        let j2 = if j < i { j } else { j + 1 };
        assert(rem[j] == entries[j2]);
        if rem[j].0 == entries[i].0 {
            lemma_key_unique(entries, j2, i);
        }
    }
    assert forall|k2: Seq<u8>| k2 != entries[i].0 implies #[trigger] has_key(rem, k2) == has_key(
        entries,
        k2,
    ) by {
        if has_key(rem, k2) {
            let j = choose|j: int| 0 <= j < rem.len() && (#[trigger] rem[j]).0 == k2;
            let j2 = if j < i { j } else { j + 1 };
            assert(rem[j] == entries[j2]);
            assert(has_key(entries, k2));
        }
        if has_key(entries, k2) {
            let j2 = choose|j: int| 0 <= j < entries.len() && (#[trigger] entries[j]).0 == k2;
            let j = if j2 < i { j2 } else { j2 - 1 };
            assert(rem[j] == entries[j2]);
            assert(has_key(rem, k2));
        }
    }
    assert forall|k2: Seq<u8>| k2 != entries[i].0 && has_key(entries, k2) implies #[trigger] value_of(
        rem,
        k2,
    ) == value_of(entries, k2) by {
        let j2 = choose|j: int| 0 <= j < entries.len() && (#[trigger] entries[j]).0 == k2;
        let j = if j2 < i { j2 } else { j2 - 1 };
        assert(rem[j] == entries[j2]);
        lemma_value_at(entries, k2, j2);
        lemma_value_at(rem, k2, j);
    }
}

/// A sorted insertion of a fresh key binds it and affects no other key.
pub proof fn lemma_insert_semantics(entries: Seq<EntryView>, k: Seq<u8>, id: IdentityView)
    requires
        sorted_by_key(entries),
        sorted_by_key(store_insert(entries, k, id)),
        !has_key(entries, k),
    ensures
        has_key(store_insert(entries, k, id), k),
        value_of(store_insert(entries, k, id), k) == id,
        forall|k2: Seq<u8>|
            k2 != k ==> #[trigger] has_key(store_insert(entries, k, id), k2) == has_key(
                entries,
                k2,
            ),
        forall|k2: Seq<u8>|
            k2 != k && has_key(entries, k2) ==> #[trigger] value_of(
                store_insert(entries, k, id),
                k2,
            ) == value_of(entries, k2),
{
    let p = insert_index(entries, k);
    lemma_insert_index_bounds(entries, k);
    let ins = store_insert(entries, k, id);
    entries.insert_ensures(p, (k, id));
    assert(ins[p] == (k, id));
    lemma_value_at(ins, k, p);
    assert forall|k2: Seq<u8>| k2 != k implies #[trigger] has_key(ins, k2) == has_key(
        entries,
        k2,
    ) by {
        if has_key(ins, k2) {
            let j = choose|j: int| 0 <= j < ins.len() && (#[trigger] ins[j]).0 == k2;
            let j2 = if j < p { j } else { j - 1 };
            assert(ins[j] == entries[j2]);
            assert(has_key(entries, k2));
        }
        if has_key(entries, k2) {
            let j2 = choose|j: int| 0 <= j < entries.len() && (#[trigger] entries[j]).0 == k2;
            let j = if j2 < p { j2 } else { j2 + 1 };
            assert(ins[j] == entries[j2]);
            assert(has_key(ins, k2));
        }
    }
    assert forall|k2: Seq<u8>| k2 != k && has_key(entries, k2) implies #[trigger] value_of(
        ins,
        k2,
    ) == value_of(entries, k2) by {
        let j2 = choose|j: int| 0 <= j < entries.len() && (#[trigger] entries[j]).0 == k2;
        let j = if j2 < p { j2 } else { j2 + 1 };
        assert(ins[j] == entries[j2]);
        lemma_value_at(entries, k2, j2);
        lemma_value_at(ins, k2, j);
    }
}

/// The insertion point lies inside the sequence bounds.
pub proof fn lemma_insert_index_bounds(entries: Seq<EntryView>, k: Seq<u8>)
    ensures
        0 <= insert_index(entries, k) <= entries.len(),
    decreases entries.len(),
{
    if entries.len() != 0 && lex_lt(entries[0].0, k) {
        lemma_insert_index_bounds(entries.drop_first(), k);
    }
}

impl LocalAuthorStoragePerf {
    /// Inserts a fresh key at its sorted position.
    fn insert_at_sorted(&mut self, key: Vec<u8>, id: IdentityPerf)
        requires
            old(self).wf(),
            !has_key(old(self)@, key@),
        ensures
            final(self).wf(),
            final(self)@ == store_insert(old(self)@, key@, id@),
    {
        let ghost id_view = id@;
        let (pos, present) = self.search(key.as_slice());
        let entry = (key, id);
        self.identities.insert(pos, entry);
        proof {
            let ghost k = entry.0@;
            let old_entries = old(self)@;
            assert(self@ =~= old_entries.insert(pos as int, (k, id_view)));
            assert forall|a: int, b: int|
                0 <= a < b < self@.len() implies lex_lt(
                #[trigger] self@[a].0,
                #[trigger] self@[b].0,
            ) by {
                let n = old_entries.len();
                let p = pos as int;
                assert forall|j: int| p <= j < n implies lex_lt(
                    k,
                    #[trigger] old_entries[j].0,
                ) by {
                    assert(!lex_lt(old_entries[p].0, k));
                    assert(old_entries[p].0 != k);
                    lemma_lex_total(old_entries[p].0, k);
                    if j > p {
                        lemma_lex_trans(k, old_entries[p].0, old_entries[j].0);
                    }
                }
            }
        }
    }

    /// Removes the identity bound to `key`. Fails, leaving the store
    /// untouched, exactly when the key is absent.
    pub fn delete_identity(&mut self, key: &[u8]) -> (r: Result<(), StoreError>)
        requires
            old(self).wf(),
        ensures
            final(self).wf(),
            match r {
                Ok(()) => {
                    &&& has_key(old(self)@, key@)
                    &&& final(self)@ == old(self)@.remove(index_of_key(old(self)@, key@))
                    &&& !has_key(final(self)@, key@)
                    &&& forall|k2: Seq<u8>|
                        k2 != key@ ==> #[trigger] has_key(final(self)@, k2) == has_key(
                            old(self)@,
                            k2,
                        )
                    &&& forall|k2: Seq<u8>|
                        k2 != key@ && has_key(old(self)@, k2) ==> #[trigger] value_of(
                            final(self)@,
                            k2,
                        ) == value_of(old(self)@, k2)
                },
                Err(e) => e == StoreError::NotFound && !has_key(old(self)@, key@) && final(self)@
                    == old(self)@,
            },
    {
        let (pos, present) = self.search(key);
        if !present {
            return Err(StoreError::NotFound);
        }
        proof {
            lemma_key_unique(old(self)@, pos as int, index_of_key(old(self)@, key@));
            lemma_remove_semantics(old(self)@, pos as int);
        }
        self.identities.remove(pos);
        proof {
            assert(self@ =~= old(self)@.remove(pos as int));
        }
        Ok(())
    }

    /// Applies one update request to the identity under `key`: optional
    /// rename, list removals or clears, then list additions.
    pub fn update_identity(&mut self, key: &[u8], req: &UpdateRequest) -> (r: Result<
        (),
        StoreError,
    >)
        requires
            old(self).wf(),
        ensures
            final(self).wf(),
            match r {
                Ok(()) => {
                    let nk = upd_key(req@, key@);
                    &&& req.consistent()
                    &&& has_key(old(self)@, key@)
                    &&& (nk == key@ || !has_key(old(self)@, nk))
                    &&& has_key(final(self)@, nk)
                    &&& value_of(final(self)@, nk) == updated_identity(
                        value_of(old(self)@, key@),
                        req@,
                    )
                    &&& (nk != key@ ==> !has_key(final(self)@, key@))
                    &&& forall|k2: Seq<u8>|
                        k2 != key@ && k2 != upd_key(req@, key@) ==> #[trigger] has_key(
                            final(self)@,
                            k2,
                        ) == has_key(old(self)@, k2)
                    &&& forall|k2: Seq<u8>|
                        k2 != key@ && k2 != upd_key(req@, key@) && has_key(old(self)@, k2)
                            ==> #[trigger] value_of(final(self)@, k2) == value_of(old(self)@, k2)
                },
                Err(e) => {
                    &&& final(self)@ == old(self)@
                    &&& if !req.consistent() {
                        e == StoreError::Argument
                    } else if !has_key(old(self)@, key@) {
                        e == StoreError::NotFound
                    } else {
                        &&& e == StoreError::AlreadyExists
                        &&& upd_key(req@, key@) != key@
                        &&& has_key(old(self)@, upd_key(req@, key@))
                    }
                },
            },
    {
        if (req.remove_all_usernames && req.remove_usernames.len() > 0) || (req.remove_all_emails
            && req.remove_emails.len() > 0) {
            return Err(StoreError::Argument);
        }
        let (pos, present) = self.search(key);
        if !present {
            return Err(StoreError::NotFound);
        }
        proof {
            lemma_value_at(old(self)@, key@, pos as int);
        }
        let updated = apply_update(&self.identities[pos].1, req);
        match &req.change_identity {
            None => {
                let k0 = clone_bytes(&self.identities[pos].0);
                self.identities.set(pos, (k0, updated));
                proof {
                    self.lemma_after_value_update(old(self)@, pos as int, key@);
                }
                Ok(())
            },
            Some(k2) => {
                if bytes_eq(k2.as_slice(), key) {
                    let k0 = clone_bytes(&self.identities[pos].0);
                    self.identities.set(pos, (k0, updated));
                    proof {
                        self.lemma_after_value_update(old(self)@, pos as int, key@);
                    }
                    Ok(())
                } else {
                    let (_, conflict) = self.search(k2.as_slice());
                    if conflict {
                        return Err(StoreError::AlreadyExists);
                    }
                    proof {
                        lemma_remove_semantics(old(self)@, pos as int);
                    }
                    self.identities.remove(pos);
                    proof {
                        assert(self@ =~= old(self)@.remove(pos as int));
                    }
                    let nk = clone_bytes(k2);
                    let ghost mid = self@;
                    self.insert_at_sorted(nk, updated);
                    proof {
                        lemma_insert_semantics(mid, k2@, updated@);
                    }
                    Ok(())
                }
            },
        }
    }

    /// Every entry whose identity carries at least one of the given
    /// usernames or at least one of the given emails, in store order.
    pub fn find_any(&self, usernames: &Vec<Vec<u8>>, emails: &Vec<Vec<u8>>) -> (r: Vec<
        (Vec<u8>, IdentityPerf),
    >)
        ensures
            entry_views(r@) == self@.filter(
                match_pred(views_of(usernames@), views_of(emails@)),
            ),
    {
        let ghost pred = match_pred(views_of(usernames@), views_of(emails@));
        let mut r: Vec<(Vec<u8>, IdentityPerf)> = Vec::new();
        let mut i: usize = 0;
        proof {
            reveal_with_fuel(Seq::filter, 2);
            assert(self@.subrange(0, 0) =~= Seq::<EntryView>::empty());
            assert(entry_views(r@) =~= Seq::<EntryView>::empty());
        }
        while i < self.identities.len()
            invariant
                i <= self@.len(),
                self@.len() == self.identities@.len(),
                r@.len() == self@.subrange(0, i as int).filter(
                    match_pred(views_of(usernames@), views_of(emails@)),
                ).len(),
                entry_views(r@) == self@.subrange(0, i as int).filter(
                    match_pred(views_of(usernames@), views_of(emails@)),
                ),
            decreases self@.len() - i,
        {
            let ghost pred = match_pred(views_of(usernames@), views_of(emails@));
            let ghost prefix = self@.subrange(0, i as int);
            let ghost elem = self@[i as int];
            let ghost prev = entry_views(r@);
            let hit = matches_queries(&self.identities[i].1, usernames, emails);
            if hit {
                let k = clone_bytes(&self.identities[i].0);
                let id = self.identities[i].1.duplicate();
                let ghost kv = k@;
                let ghost idv = id@;
                r.push((k, id));
                proof {
                    assert((kv, idv) == elem);
                    assert(entry_views(r@) =~= prev.push(elem));
                }
            }
            i = i + 1;
            proof {
                reveal_with_fuel(Seq::filter, 2);
                assert(self@.subrange(0, i as int) =~= prefix + seq![elem]);
                Seq::filter_distributes_over_add(prefix, seq![elem], pred);
                assert(seq![elem].drop_last() =~= Seq::<EntryView>::empty());
                if hit {
                    assert(seq![elem].filter(pred) =~= seq![elem]);
                    assert(entry_views(r@) =~= prefix.filter(pred) + seq![elem]);
                } else {
                    assert(seq![elem].filter(pred) =~= Seq::<EntryView>::empty());
                    assert(prefix.filter(pred) + Seq::<EntryView>::empty() =~= prefix.filter(
                        pred,
                    ));
                }
            }
        }
        proof {
            assert(self@.subrange(0, self@.len() as int) =~= self@);
        }
        r
    }

    /// After replacing the identity at `pos` while keeping its key, the store
    /// is still sorted and only that key's value changed.
    proof fn lemma_after_value_update(self, prev: Seq<EntryView>, pos: int, k: Seq<u8>)
        requires
            sorted_by_key(prev),
            0 <= pos < prev.len(),
            prev[pos].0 == k,
            self@.len() == prev.len(),
            self@[pos].0 == k,
            forall|j: int| 0 <= j < prev.len() && j != pos ==> #[trigger] self@[j] == prev[j],
        ensures
            self.wf(),
            has_key(self@, k),
            value_of(self@, k) == self@[pos].1,
            forall|k2: Seq<u8>|
                k2 != k ==> #[trigger] has_key(self@, k2) == has_key(prev, k2),
            forall|k2: Seq<u8>|
                k2 != k && has_key(prev, k2) ==> #[trigger] value_of(self@, k2) == value_of(
                    prev,
                    k2,
                ),
    {
        let cur = self@;
        assert forall|a: int, b: int|
            0 <= a < b < cur.len() implies lex_lt(#[trigger] cur[a].0, #[trigger] cur[b].0) by {
            assert(cur[a].0 == prev[a].0);
            assert(cur[b].0 == prev[b].0);
        }
        lemma_value_at(cur, k, pos);
        assert forall|k2: Seq<u8>| k2 != k implies #[trigger] has_key(cur, k2) == has_key(
            prev,
            k2,
        ) by {
            if has_key(cur, k2) {
                let j = choose|j: int| 0 <= j < cur.len() && (#[trigger] cur[j]).0 == k2;
                assert(prev[j].0 == k2);
                assert(has_key(prev, k2));
            }
            if has_key(prev, k2) {
                let j = choose|j: int| 0 <= j < prev.len() && (#[trigger] prev[j]).0 == k2;
                assert(cur[j].0 == k2);
                assert(has_key(cur, k2));
            }
        }
        assert forall|k2: Seq<u8>| k2 != k && has_key(prev, k2) implies #[trigger] value_of(
            cur,
            k2,
        ) == value_of(prev, k2) by {
            let j = choose|j: int| 0 <= j < prev.len() && (#[trigger] prev[j]).0 == k2;
            assert(cur[j] == prev[j]);
            lemma_value_at(prev, k2, j);
            lemma_value_at(cur, k2, j);
        }
    }
}

} // verus!
