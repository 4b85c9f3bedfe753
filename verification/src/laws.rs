//! The store's laws: proofs that chain the operation contracts together the
//! way a caller would run them — add then look up, update then look up,
//! rename, and search.

use vstd::prelude::*;
use crate::bytes::{lex_lt, lemma_lex_total, lemma_lex_trans};
use crate::identity::{IdentityView, UpdateRequestView, updated_list, updated_identity, keep_pred};
use crate::store::{EntryView, sorted_by_key, has_key, value_of, store_insert, insert_index,
    lemma_insert_index_bounds, lemma_insert_semantics, matches_any, match_pred};

verus! {

/// Everything left of the insertion point is below `k`; the boundary entry,
/// when there is one, is not.
proof fn lemma_insert_index_split(entries: Seq<EntryView>, k: Seq<u8>)
    ensures
        forall|j: int| 0 <= j < insert_index(entries, k) ==> lex_lt(#[trigger] entries[j].0, k),
        insert_index(entries, k) < entries.len() ==> !lex_lt(
            entries[insert_index(entries, k)].0,
            k,
        ),
    decreases entries.len(),
{
    lemma_insert_index_bounds(entries, k);
    if entries.len() != 0 && lex_lt(entries[0].0, k) {
        let d = entries.drop_first();
        lemma_insert_index_split(d, k);
        lemma_insert_index_bounds(d, k);
        assert forall|j: int| 0 <= j < insert_index(entries, k) implies lex_lt(
            #[trigger] entries[j].0,
            k,
        ) by {
            if j > 0 {
                assert(d[j - 1] == entries[j]);
            }
        }
        if insert_index(entries, k) < entries.len() {
            assert(d[insert_index(d, k)] == entries[insert_index(entries, k)]);
        }
    }
}

/// A sorted insertion of a fresh key leaves the entries sorted.
pub proof fn lemma_store_insert_sorted(entries: Seq<EntryView>, k: Seq<u8>, id: IdentityView)
    requires
        sorted_by_key(entries),
        !has_key(entries, k),
    ensures
        sorted_by_key(store_insert(entries, k, id)),
{
    let p = insert_index(entries, k);
    lemma_insert_index_bounds(entries, k);
    lemma_insert_index_split(entries, k);
    let ins = store_insert(entries, k, id);
    entries.insert_ensures(p, (k, id));
    assert forall|j: int| p <= j < entries.len() implies lex_lt(k, #[trigger] entries[j].0) by {
        assert(!lex_lt(entries[p].0, k));
        assert(entries[p].0 != k);
        lemma_lex_total(entries[p].0, k);
        if j > p {
            lemma_lex_trans(k, entries[p].0, entries[j].0);
        }
    }
    assert forall|a: int, b: int|
        0 <= a < b < ins.len() implies lex_lt(#[trigger] ins[a].0, #[trigger] ins[b].0) by {}
}

/// Adding a fresh key then looking it up returns exactly the added identity;
/// the key is then taken, so a second add of it must fail and, by
/// `add_identity`'s contract, leave the store unchanged.
pub proof fn law_add_then_lookup(entries: Seq<EntryView>, k: Seq<u8>, id: IdentityView)
    requires
        sorted_by_key(entries),
        !has_key(entries, k),
    ensures
        has_key(store_insert(entries, k, id), k),
        value_of(store_insert(entries, k, id), k) == id,
        forall|k2: Seq<u8>|
            k2 != k ==> #[trigger] has_key(store_insert(entries, k, id), k2) == has_key(
                entries,
                k2,
            ),
{
    lemma_store_insert_sorted(entries, k, id);
    lemma_insert_semantics(entries, k, id);
}

/// A list whose head survives a filter keeps it as head.
proof fn lemma_filter_keeps_head(s: Seq<Seq<u8>>, pred: spec_fn(Seq<u8>) -> bool)
    requires
        s.len() > 0,
        pred(s[0]),
    ensures
        s.filter(pred).len() > 0,
        s.filter(pred)[0] == s[0],
    decreases s.len(),
{
    reveal_with_fuel(Seq::filter, 2);
    if s.len() == 1 {
        assert(s.drop_last() =~= Seq::<Seq<u8>>::empty());
    } else {
        lemma_filter_keeps_head(s.drop_last(), pred);
    }
}

/// A filter that keeps everything changes nothing.
proof fn lemma_filter_true(s: Seq<Seq<u8>>, pred: spec_fn(Seq<u8>) -> bool)
    requires
        forall|i: int| 0 <= i < s.len() ==> pred(#[trigger] s[i]),
    ensures
        s.filter(pred) == s,
    decreases s.len(),
{
    reveal_with_fuel(Seq::filter, 2);
    if s.len() > 0 {
        lemma_filter_true(s.drop_last(), pred);
        assert(s.filter(pred) =~= s);
    } else {
        assert(s.filter(pred) =~= s);
    }
}

/// An updated email (or username) list behaves as the update command
/// promises: an added value is present; a removed value is absent; the
/// default survives a removal of some other value; clearing empties the
/// list; and clearing combined with additions yields exactly the additions.
pub proof fn law_update_membership(old_list: Seq<Seq<u8>>, v: Seq<u8>, add: Seq<Seq<u8>>)
    ensures
        updated_list(old_list, seq![v], Seq::empty(), false).contains(v),
        !updated_list(old_list, Seq::empty(), seq![v], false).contains(v),
        old_list.len() > 0 && old_list[0] != v ==> {
            let after = updated_list(old_list, Seq::empty(), seq![v], false);
            after.len() > 0 && after[0] == old_list[0]
        },
        updated_list(old_list, Seq::empty(), Seq::empty(), true) == Seq::<Seq<u8>>::empty(),
        updated_list(old_list, add, Seq::empty(), true) == add,
{
    broadcast use vstd::seq_lib::group_filter_ensures;

    let pred = keep_pred(seq![v]);
    let added = updated_list(old_list, seq![v], Seq::empty(), false);
    assert(added[added.len() - 1] == v);
    assert(added.contains(v));
    let removed = updated_list(old_list, Seq::empty(), seq![v], false);
    assert(removed =~= old_list.filter(pred));
    assert forall|i: int| 0 <= i < removed.len() implies removed[i] != v by {
        assert(pred(old_list.filter(pred)[i]));
        assert(seq![v].contains(v));
    }
    if old_list.len() > 0 && old_list[0] != v {
        assert(pred(old_list[0])) by {
            if seq![v].contains(old_list[0]) {
                assert(seq![v][0] == v);
            }
        }
        lemma_filter_keeps_head(old_list, pred);
    }
    assert(updated_list(old_list, Seq::empty(), Seq::empty(), true) =~= Seq::<Seq<u8>>::empty());
    assert(updated_list(old_list, add, Seq::empty(), true) =~= add);
}

/// A request that only renames carries the identity over untouched: with
/// `update_identity`'s contract, the new key then answers lookups with the
/// old key's prior data and the old key is gone.
pub proof fn law_rename_preserves_identity(id: IdentityView, req: UpdateRequestView)
    requires
        req.add_usernames.len() == 0,
        req.add_emails.len() == 0,
        req.remove_usernames.len() == 0,
        req.remove_emails.len() == 0,
        !req.remove_all_usernames,
        !req.remove_all_emails,
    ensures
        updated_identity(id, req) == id,
{
    assert forall|i: int| 0 <= i < id.usernames.len() implies keep_pred(req.remove_usernames)(
        #[trigger] id.usernames[i],
    ) by {}
    assert forall|i: int| 0 <= i < id.emails.len() implies keep_pred(req.remove_emails)(
        #[trigger] id.emails[i],
    ) by {}
    lemma_filter_true(id.usernames, keep_pred(req.remove_usernames));
    lemma_filter_true(id.emails, keep_pred(req.remove_emails));
    assert(updated_identity(id, req).usernames =~= id.usernames);
    assert(updated_identity(id, req).emails =~= id.emails);
}

/// A username search keeps exactly the entries whose username list carries
/// the searched value, whatever their emails hold.
pub proof fn law_find_by_username(entries: Seq<EntryView>, u: Seq<u8>)
    ensures
        ({
            let r = entries.filter(match_pred(seq![u], Seq::empty()));
            &&& forall|i: int| 0 <= i < r.len() ==> (#[trigger] r[i]).1.usernames.contains(u)
            &&& forall|i: int|
                0 <= i < entries.len() && (#[trigger] entries[i]).1.usernames.contains(u)
                    ==> r.contains(entries[i])
        }),
{
    broadcast use vstd::seq_lib::group_filter_ensures;

    let pred = match_pred(seq![u], Seq::empty());
    let r = entries.filter(pred);
    assert forall|i: int| 0 <= i < r.len() implies (#[trigger] r[i]).1.usernames.contains(u) by {
        assert(pred(r[i]));
        assert(matches_any(r[i].1, seq![u], Seq::empty()));
        let w = choose|j: int| 0 <= j < seq![u].len() && r[i].1.usernames.contains(
            #[trigger] seq![u][j],
        );
        assert(seq![u][w] == u);
    }
    assert forall|i: int|
        0 <= i < entries.len() && (#[trigger] entries[i]).1.usernames.contains(u) implies r.contains(
        entries[i],
    ) by {
        assert(seq![u][0] == u);
        assert(matches_any(entries[i].1, seq![u], Seq::empty()));
        assert(pred(entries[i]));
    }
}

} // verus!
