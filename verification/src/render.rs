//! Human-readable listings of identities, rendered as bytes for the caller
//! to write out. The verbose form prints a framed block per identity; the
//! terse form packs each identity into three display lines.

use vstd::prelude::*;
use vstd::string::StringSliceAdditionalSpecFns;
use crate::identity::{IdentityPerf, IdentityView, StoreError, views_of};
use crate::store::{EntryView, LocalAuthorStoragePerf, has_key, value_of, lemma_value_at};
use crate::parse::push_bytes;

verus! {

/// The bytes of a piece of display text.
pub open spec fn text_bytes(s: &str) -> Seq<u8> {
    s.spec_bytes()
}

/// The verbose listing's one-per-line values: `    - "value"` lines.
pub open spec fn listed_values(vs: Seq<Seq<u8>>) -> Seq<u8>
    decreases vs.len(),
{
    if vs.len() == 0 {
        Seq::empty()
    } else {
        text_bytes("    - \"") + vs[0] + text_bytes("\"\n") + listed_values(vs.drop_first())
    }
}

/// The terse listing's packed extras: each value quoted, nothing between.
pub open spec fn joined_quoted(vs: Seq<Seq<u8>>) -> Seq<u8>
    decreases vs.len(),
{
    if vs.len() == 0 {
        Seq::empty()
    } else {
        text_bytes("\"") + vs[0] + text_bytes("\"") + joined_quoted(vs.drop_first())
    }
}

/// One identity's listing. The default username and email are the heads of
/// their lists, so both lists must be populated.
pub open spec fn render_pretty(k: Seq<u8>, id: IdentityView, verbose: bool) -> Seq<u8> {
    if verbose {
        text_bytes("================================\n") + text_bytes("Identity: \"") + k
            + text_bytes("\"\n") + text_bytes("--------------------------------\n") + text_bytes(
            "Usernames:\n  Default: \"",
        ) + id.usernames[0] + text_bytes("\"\n  All:\n") + listed_values(id.usernames)
            + text_bytes("\nEmails:\n  Default: \"") + id.emails[0] + text_bytes("\"\n  All:\n")
            + listed_values(id.emails) + text_bytes("================================\n\n")
    } else {
        text_bytes("Identity: \"") + k + text_bytes("\"\n") + text_bytes(
            "Usernames: | Default: \"",
        ) + id.usernames[0] + text_bytes("\" | ") + joined_quoted(id.usernames.drop_first())
            + text_bytes("\n") + text_bytes("Emails: | Default: \"") + id.emails[0] + text_bytes(
            "\" | ",
        ) + joined_quoted(id.emails.drop_first()) + text_bytes(" \n\n") + text_bytes("\n")
    }
}

/// The listing of every entry, in store order.
pub open spec fn render_pretty_all(entries: Seq<EntryView>, verbose: bool) -> Seq<u8>
    decreases entries.len(),
{
    if entries.len() == 0 {
        Seq::empty()
    } else {
        render_pretty(entries[0].0, entries[0].1, verbose) + render_pretty_all(
            entries.drop_first(),
            verbose,
        )
    }
}

/// Every entry's identity has a default username and a default email.
pub open spec fn entries_populated(entries: Seq<EntryView>) -> bool {
    forall|i: int|
        0 <= i < entries.len() ==> (#[trigger] entries[i]).1.usernames.len() > 0 && entries[
            i
        ].1.emails.len() > 0
}

/// One more value extends the one-per-line listing at its end.
proof fn lemma_listed_snoc(vs: Seq<Seq<u8>>, x: Seq<u8>)
    ensures
        listed_values(vs.push(x)) == listed_values(vs) + (text_bytes("    - \"") + x + text_bytes(
            "\"\n",
        )),
    decreases vs.len(),
{
    let p = vs.push(x);
    if vs.len() == 0 {
        reveal_with_fuel(listed_values, 2);
        assert(p[0] == x);
        assert(p.drop_first() =~= Seq::<Seq<u8>>::empty());
        assert(listed_values(p) =~= listed_values(vs) + (text_bytes("    - \"") + x + text_bytes(
            "\"\n",
        )));
    } else {
        lemma_listed_snoc(vs.drop_first(), x);
        assert(p.drop_first() =~= vs.drop_first().push(x));
        assert(p[0] == vs[0]);
        assert(listed_values(p) =~= listed_values(vs) + (text_bytes("    - \"") + x + text_bytes(
            "\"\n",
        )));
    }
}

/// One more value extends the packed listing at its end.
proof fn lemma_joined_snoc(vs: Seq<Seq<u8>>, x: Seq<u8>)
    ensures
        joined_quoted(vs.push(x)) == joined_quoted(vs) + (text_bytes("\"") + x + text_bytes(
            "\"",
        )),
    decreases vs.len(),
{
    let p = vs.push(x);
    if vs.len() == 0 {
        reveal_with_fuel(joined_quoted, 2);
        assert(p[0] == x);
        assert(p.drop_first() =~= Seq::<Seq<u8>>::empty());
        assert(joined_quoted(p) =~= joined_quoted(vs) + (text_bytes("\"") + x + text_bytes(
            "\"",
        )));
    } else {
        lemma_joined_snoc(vs.drop_first(), x);
        assert(p.drop_first() =~= vs.drop_first().push(x));
        assert(p[0] == vs[0]);
        assert(joined_quoted(p) =~= joined_quoted(vs) + (text_bytes("\"") + x + text_bytes(
            "\"",
        )));
    }
}

/// Appends the one-per-line value listing.
fn write_listed(out: &mut Vec<u8>, vs: &Vec<Vec<u8>>)
    ensures
        final(out)@ == old(out)@ + listed_values(views_of(vs@)),
{
    let ghost init = out@;
    let mut i: usize = 0;
    proof {
        assert(views_of(vs@).subrange(0, 0) =~= Seq::<Seq<u8>>::empty());
        assert(init + Seq::<u8>::empty() =~= init);
    }
    while i < vs.len()
        invariant
            i <= vs@.len(),
            out@ == init + listed_values(views_of(vs@).subrange(0, i as int)),
        decreases vs@.len() - i,
    {
        let ghost prefix = views_of(vs@).subrange(0, i as int);
        let ghost mid = out@;
        push_bytes(out, "    - \"".as_bytes());
        push_bytes(out, vs[i].as_slice());
        push_bytes(out, "\"\n".as_bytes());
        proof {
            let x = views_of(vs@)[i as int];
            lemma_listed_snoc(prefix, x);
            assert(views_of(vs@).subrange(0, i + 1) =~= prefix.push(x));
            assert(out@ =~= mid + (text_bytes("    - \"") + x + text_bytes("\"\n")));
            assert(out@ =~= init + listed_values(prefix.push(x)));
        }
        i = i + 1;
    }
    proof {
        assert(views_of(vs@).subrange(0, vs@.len() as int) =~= views_of(vs@));
    }
}

/// Appends the packed value listing for every value past the first.
fn write_joined_rest(out: &mut Vec<u8>, vs: &Vec<Vec<u8>>)
    requires
        vs@.len() > 0,
    ensures
        final(out)@ == old(out)@ + joined_quoted(views_of(vs@).drop_first()),
{
    let ghost init = out@;
    let ghost tail = views_of(vs@).drop_first();
    let mut i: usize = 1;
    proof {
        assert(tail.subrange(0, 0) =~= Seq::<Seq<u8>>::empty());
        assert(init + Seq::<u8>::empty() =~= init);
    }
    while i < vs.len()
        invariant
            1 <= i <= vs@.len(),
            tail == views_of(vs@).drop_first(),
            out@ == init + joined_quoted(tail.subrange(0, i - 1)),
        decreases vs@.len() - i,
    {
        let ghost prefix = tail.subrange(0, i - 1);
        let ghost mid = out@;
        push_bytes(out, "\"".as_bytes());
        push_bytes(out, vs[i].as_slice());
        push_bytes(out, "\"".as_bytes());
        proof {
            let x = tail[i - 1];
            assert(x == views_of(vs@)[i as int]);
            lemma_joined_snoc(prefix, x);
            assert(tail.subrange(0, i as int) =~= prefix.push(x));
            assert(out@ =~= mid + (text_bytes("\"") + x + text_bytes("\"")));
            assert(out@ =~= init + joined_quoted(prefix.push(x)));
        }
        i = i + 1;
    }
    proof {
        assert(tail.subrange(0, tail.len() as int) =~= tail);
    }
}

impl LocalAuthorStoragePerf {
    /// One identity's listing, rendered as display bytes. The caller writes
    /// them out; the identity must carry its defaults.
    pub fn pretty_print(&self, k: &[u8], v: &IdentityPerf, verbose: bool) -> (r: Vec<u8>)
        requires
            v@.usernames.len() > 0,
            v@.emails.len() > 0,
        ensures
            r@ == render_pretty(k@, v@, verbose),
    {
        let mut out: Vec<u8> = Vec::new();
        proof {
            assert(out@ =~= Seq::<u8>::empty());
        }
        if verbose {
            push_bytes(&mut out, "================================\n".as_bytes());
            push_bytes(&mut out, "Identity: \"".as_bytes());
            push_bytes(&mut out, k);
            push_bytes(&mut out, "\"\n".as_bytes());
            push_bytes(&mut out, "--------------------------------\n".as_bytes());
            push_bytes(&mut out, "Usernames:\n  Default: \"".as_bytes());
            push_bytes(&mut out, v.usernames[0].as_slice());
            push_bytes(&mut out, "\"\n  All:\n".as_bytes());
            write_listed(&mut out, &v.usernames);
            push_bytes(&mut out, "\nEmails:\n  Default: \"".as_bytes());
            push_bytes(&mut out, v.emails[0].as_slice());
            push_bytes(&mut out, "\"\n  All:\n".as_bytes());
            write_listed(&mut out, &v.emails);
            push_bytes(&mut out, "================================\n\n".as_bytes());
            proof {
                assert(out@ =~= render_pretty(k@, v@, verbose));
            }
        } else {
            push_bytes(&mut out, "Identity: \"".as_bytes());
            push_bytes(&mut out, k);
            push_bytes(&mut out, "\"\n".as_bytes());
            push_bytes(&mut out, "Usernames: | Default: \"".as_bytes());
            push_bytes(&mut out, v.usernames[0].as_slice());
            push_bytes(&mut out, "\" | ".as_bytes());
            write_joined_rest(&mut out, &v.usernames);
            push_bytes(&mut out, "\n".as_bytes());
            push_bytes(&mut out, "Emails: | Default: \"".as_bytes());
            push_bytes(&mut out, v.emails[0].as_slice());
            push_bytes(&mut out, "\" | ".as_bytes());
            write_joined_rest(&mut out, &v.emails);
            push_bytes(&mut out, " \n\n".as_bytes());
            push_bytes(&mut out, "\n".as_bytes());
            proof {
                assert(out@ =~= render_pretty(k@, v@, verbose));
            }
        }
        out
    }

    /// The listing of every identity, in store order.
    pub fn pretty_print_all(&self, verbose: bool) -> (r: Vec<u8>)
        requires
            entries_populated(self@),
        ensures
            r@ == render_pretty_all(self@, verbose),
    {
        let mut out: Vec<u8> = Vec::new();
        let mut i: usize = 0;
        proof {
            assert(self@.subrange(0, 0) =~= Seq::<EntryView>::empty());
            assert(out@ =~= Seq::<u8>::empty());
        }
        while i < self.identities.len()
            invariant
                i <= self@.len(),
                self@.len() == self.identities@.len(),
                entries_populated(self@),
                out@ == render_pretty_all(self@.subrange(0, i as int), verbose),
            decreases self@.len() - i,
        {
            let ghost mid = out@;
            let ghost e = self@[i as int];
            let one = self.pretty_print(
                self.identities[i].0.as_slice(),
                &self.identities[i].1,
                verbose,
            );
            push_bytes(&mut out, one.as_slice());
            proof {
                lemma_render_pretty_all_snoc(self@, i as int, verbose);
                assert(out@ == mid + render_pretty(e.0, e.1, verbose));
            }
            i = i + 1;
        }
        proof {
            assert(self@.subrange(0, self@.len() as int) =~= self@);
        }
        out
    }

    /// The listing of the identity under `key`, when the key is present.
    pub fn pretty_print_id(&self, key: &[u8], verbose: bool) -> (r: Result<Vec<u8>, StoreError>)
        requires
            self.wf(),
            entries_populated(self@),
        ensures
            match r {
                Ok(out) => has_key(self@, key@) && out@ == render_pretty(
                    key@,
                    value_of(self@, key@),
                    verbose,
                ),
                Err(e) => e == StoreError::NotFound && !has_key(self@, key@),
            },
    {
        let pos = match self.lookup_index(key) {
            Some(pos) => pos,
            None => {
                return Err(StoreError::NotFound);
            },
        };
        proof {
            lemma_value_at(self@, key@, pos as int);
        }
        Ok(self.pretty_print(key, &self.identities[pos].1, verbose))
    }

    /// The index of the entry bound to `key`, when the key is present.
    pub fn lookup_index(&self, key: &[u8]) -> (r: Option<usize>)
        requires
            self.wf(),
        ensures
            match r {
                Some(i) => has_key(self@, key@) && i < self@.len() && self@[i as int].0 == key@,
                None => !has_key(self@, key@),
            },
    {
        let mut i: usize = 0;
        while i < self.identities.len()
            invariant
                i <= self@.len(),
                self@.len() == self.identities@.len(),
                forall|j: int| 0 <= j < i ==> (#[trigger] self@[j]).0 != key@,
            decreases self@.len() - i,
        {
            if crate::bytes::bytes_eq(self.identities[i].0.as_slice(), key) {
                assert(self@[i as int].0 == key@);
                return Some(i);
            }
            i = i + 1;
        }
        None
    }
}

/// A prefix of the full listing grows by exactly one identity's listing.
proof fn lemma_render_pretty_all_snoc(entries: Seq<EntryView>, i: int, verbose: bool)
    requires
        0 <= i < entries.len(),
    ensures
        render_pretty_all(entries.subrange(0, i + 1), verbose) == render_pretty_all(
            entries.subrange(0, i),
            verbose,
        ) + render_pretty(entries[i].0, entries[i].1, verbose),
    decreases i,
{
    let a = entries.subrange(0, i + 1);
    let b = entries.subrange(0, i);
    if i == 0 {
        assert(b =~= Seq::<EntryView>::empty());
        assert(a.drop_first() =~= Seq::<EntryView>::empty());
        assert(a[0] == entries[0]);
        assert(render_pretty_all(a, verbose) =~= render_pretty_all(b, verbose) + render_pretty(
            entries[0].0,
            entries[0].1,
            verbose,
        ));
    } else {
        let d = entries.drop_first();
        lemma_render_pretty_all_snoc(d, i - 1, verbose);
        assert(a.drop_first() =~= d.subrange(0, i));
        assert(b.drop_first() =~= d.subrange(0, i - 1));
        assert(a[0] == entries[0]);
        assert(b[0] == entries[0]);
        assert(d[i - 1] == entries[i]);
        assert(render_pretty_all(a, verbose) =~= render_pretty_all(b, verbose) + render_pretty(
            entries[i].0,
            entries[i].1,
            verbose,
        ));
    }
}

} // verus!
