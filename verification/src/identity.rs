//! Identities: a keyed authorship profile holding ordered username and email
//! lists (index 0 is the default entry of each list), plus the update
//! operation that edits those lists.

use vstd::prelude::*;

verus! {

/// The error kinds the store operations surface. Input/output failures are
/// handled by the callers that do the input/output.
#[derive(Clone, Copy, Debug, PartialEq, Eq, Structural)]
pub enum StoreError {
    /// Mutually exclusive options were combined.
    Argument,
    /// No store path is configured: the trailer is absent or malformed and no
    /// override was given.
    PathResolution,
    /// The store file violates the line-record grammar.
    Format,
    /// The named identity does not exist.
    NotFound,
    /// The identity key is already taken.
    AlreadyExists,
    /// An open, read, write, resize or child-process step failed; raised by
    /// the callers that perform those steps.
    Io,
}

/// The sequence of views of a sequence of byte vectors.
pub open spec fn views_of(s: Seq<Vec<u8>>) -> Seq<Seq<u8>> {
    Seq::new(s.len(), |i: int| s[i]@)
}

/// Mathematical model of an identity: the two lists as sequences of byte
/// strings.
#[verifier::ext_equal]
pub struct IdentityView {
    pub usernames: Seq<Seq<u8>>,
    pub emails: Seq<Seq<u8>>,
}

/// An authorship identity: ordered usernames and emails, each stored as raw
/// bytes. The first entry of each list is the default.
#[derive(Debug)]
pub struct IdentityPerf {
    pub usernames: Vec<Vec<u8>>,
    pub emails: Vec<Vec<u8>>,
}

impl View for IdentityPerf {
    type V = IdentityView;

    open spec fn view(&self) -> IdentityView {
        IdentityView { usernames: views_of(self.usernames@), emails: views_of(self.emails@) }
    }
}

impl IdentityPerf {
    /// An identity with no usernames and no emails yet.
    pub fn new() -> (r: Self)
        ensures
            r@.usernames == Seq::<Seq<u8>>::empty(),
            r@.emails == Seq::<Seq<u8>>::empty(),
    {
        let r = Self { usernames: Vec::new(), emails: Vec::new() };
        proof {
            assert(r@.usernames =~= Seq::<Seq<u8>>::empty());
            assert(r@.emails =~= Seq::<Seq<u8>>::empty());
        }
        r
    }

    /// Appends a username at the end of the list.
    pub fn add_username(&mut self, username: Vec<u8>)
        ensures
            final(self)@.usernames == old(self)@.usernames.push(username@),
            final(self)@.emails == old(self)@.emails,
    {
        self.usernames.push(username);
        proof {
            assert(self@.usernames =~= old(self)@.usernames.push(username@));
            assert(self@.emails =~= old(self)@.emails);
        }
    }

    /// Appends an email at the end of the list.
    pub fn add_email(&mut self, email: Vec<u8>)
        ensures
            final(self)@.usernames == old(self)@.usernames,
            final(self)@.emails == old(self)@.emails.push(email@),
    {
        self.emails.push(email);
        proof {
            assert(self@.emails =~= old(self)@.emails.push(email@));
            assert(self@.usernames =~= old(self)@.usernames);
        }
    }

    /// A copy of this identity with the same lists.
    pub fn duplicate(&self) -> (r: Self)
        ensures
            r@ == self@,
    {
        let r = Self {
            usernames: clone_byte_lists(&self.usernames),
            emails: clone_byte_lists(&self.emails),
        };
        r
    }
}

/// A copy of a byte vector with the same bytes.
pub fn clone_bytes(v: &Vec<u8>) -> (r: Vec<u8>)
    ensures
        r@ == v@,
{
    let mut r: Vec<u8> = Vec::new();
    let mut i: usize = 0;
    while i < v.len()
        invariant
            i <= v@.len(),
            r@.len() == i,
            r@ == v@.subrange(0, i as int),
        decreases v@.len() - i,
    {
        r.push(v[i]);
        i = i + 1;
        proof {
            assert(r@ =~= v@.subrange(0, i as int));
        }
    }
    proof {
        assert(v@.subrange(0, v@.len() as int) =~= v@);
    }
    r
}

/// A copy of a list of byte vectors with the same contents.
pub fn clone_byte_lists(v: &Vec<Vec<u8>>) -> (r: Vec<Vec<u8>>)
    ensures
        views_of(r@) == views_of(v@),
{
    let mut r: Vec<Vec<u8>> = Vec::new();
    let mut i: usize = 0;
    while i < v.len()
        invariant
            i <= v@.len(),
            r@.len() == i,
            views_of(r@) == views_of(v@).subrange(0, i as int),
        decreases v@.len() - i,
    {
        let c = clone_bytes(&v[i]);
        r.push(c);
        i = i + 1;
        proof {
            assert(views_of(r@) =~= views_of(v@).subrange(0, i as int));
        }
    }
    proof {
        assert(views_of(v@).subrange(0, v@.len() as int) =~= views_of(v@));
    }
    r
}

/// Whether the list contains a byte string equal to `x`.
pub fn list_contains(v: &Vec<Vec<u8>>, x: &Vec<u8>) -> (r: bool)
    ensures
        r == views_of(v@).contains(x@),
{
    let mut i: usize = 0;
    while i < v.len()
        invariant
            i <= v@.len(),
            forall|j: int| 0 <= j < i ==> views_of(v@)[j] != x@,
        decreases v@.len() - i,
    {
        if crate::bytes::bytes_eq(v[i].as_slice(), x.as_slice()) {
            assert(views_of(v@)[i as int] == x@);
            return true;
        }
        i = i + 1;
    }
    false
}

/// One update request against a stored identity, mirroring the update
/// command's flags. A `remove_all` flag clears the corresponding list before
/// any additions are appended.
pub struct UpdateRequest {
    pub change_identity: Option<Vec<u8>>,
    pub add_usernames: Vec<Vec<u8>>,
    pub add_emails: Vec<Vec<u8>>,
    pub remove_usernames: Vec<Vec<u8>>,
    pub remove_emails: Vec<Vec<u8>>,
    pub remove_all_usernames: bool,
    pub remove_all_emails: bool,
}

impl UpdateRequest {
    /// A request that changes nothing.
    pub fn new() -> (r: Self)
        ensures
            r@ == (UpdateRequestView {
                change_identity: None,
                add_usernames: Seq::empty(),
                add_emails: Seq::empty(),
                remove_usernames: Seq::empty(),
                remove_emails: Seq::empty(),
                remove_all_usernames: false,
                remove_all_emails: false,
            }),
    {
        let r = Self {
            change_identity: None,
            add_usernames: Vec::new(),
            add_emails: Vec::new(),
            remove_usernames: Vec::new(),
            remove_emails: Vec::new(),
            remove_all_usernames: false,
            remove_all_emails: false,
        };
        proof {
            assert(r@.add_usernames =~= Seq::<Seq<u8>>::empty());
            assert(r@.add_emails =~= Seq::<Seq<u8>>::empty());
            assert(r@.remove_usernames =~= Seq::<Seq<u8>>::empty());
            assert(r@.remove_emails =~= Seq::<Seq<u8>>::empty());
        }
        r
    }

    /// A clear flag combined with the matching explicit remove list is
    /// rejected by the update operations.
    pub open spec fn consistent(self) -> bool {
        &&& !(self.remove_all_usernames && self@.remove_usernames.len() > 0)
        &&& !(self.remove_all_emails && self@.remove_emails.len() > 0)
    }
}

/// Mathematical model of an update request.
#[verifier::ext_equal]
pub struct UpdateRequestView {
    pub change_identity: Option<Seq<u8>>,
    pub add_usernames: Seq<Seq<u8>>,
    pub add_emails: Seq<Seq<u8>>,
    pub remove_usernames: Seq<Seq<u8>>,
    pub remove_emails: Seq<Seq<u8>>,
    pub remove_all_usernames: bool,
    pub remove_all_emails: bool,
}

impl View for UpdateRequest {
    type V = UpdateRequestView;

    open spec fn view(&self) -> UpdateRequestView {
        UpdateRequestView {
            change_identity: match self.change_identity {
                Some(ref k) => Some(k@),
                None => None,
            },
            add_usernames: views_of(self.add_usernames@),
            add_emails: views_of(self.add_emails@),
            remove_usernames: views_of(self.remove_usernames@),
            remove_emails: views_of(self.remove_emails@),
            remove_all_usernames: self.remove_all_usernames,
            remove_all_emails: self.remove_all_emails,
        }
    }
}

/// The predicate that keeps a list entry: it is not among the removed values.
pub open spec fn keep_pred(remove: Seq<Seq<u8>>) -> spec_fn(Seq<u8>) -> bool {
    |x: Seq<u8>| !remove.contains(x)
}

/// The list an update leaves behind: cleared or filtered of the removed
/// values, then extended with the added ones.
pub open spec fn updated_list(
    old_list: Seq<Seq<u8>>,
    add: Seq<Seq<u8>>,
    remove: Seq<Seq<u8>>,
    clear: bool,
) -> Seq<Seq<u8>> {
    (if clear {
        Seq::<Seq<u8>>::empty()
    } else {
        old_list.filter(keep_pred(remove))
    }) + add
}

/// The identity an update request leaves behind.
pub open spec fn updated_identity(id: IdentityView, req: UpdateRequestView) -> IdentityView {
    IdentityView {
        usernames: updated_list(
            id.usernames,
            req.add_usernames,
            req.remove_usernames,
            req.remove_all_usernames,
        ),
        emails: updated_list(id.emails, req.add_emails, req.remove_emails, req.remove_all_emails),
    }
}

/// Removes every occurrence of the listed values, or everything when `clear`
/// is set, then appends the additions.
fn apply_to_list(
    old_list: &Vec<Vec<u8>>,
    add: &Vec<Vec<u8>>,
    remove: &Vec<Vec<u8>>,
    clear: bool,
) -> (r: Vec<Vec<u8>>)
    ensures
        views_of(r@) == updated_list(views_of(old_list@), views_of(add@), views_of(remove@), clear),
{
    let ghost pred = keep_pred(views_of(remove@));
    let mut r: Vec<Vec<u8>> = Vec::new();
    if !clear {
        let mut i: usize = 0;
        proof {
            reveal_with_fuel(Seq::filter, 2);
            assert(views_of(old_list@).subrange(0, 0) =~= Seq::<Seq<u8>>::empty());
            assert(views_of(r@) =~= Seq::<Seq<u8>>::empty());
        }
        while i < old_list.len()
            invariant
                i <= old_list@.len(),
                r@.len() == views_of(old_list@).subrange(0, i as int).filter(
                    keep_pred(views_of(remove@)),
                ).len(),
                views_of(r@) == views_of(old_list@).subrange(0, i as int).filter(
                    keep_pred(views_of(remove@)),
                ),
            decreases old_list@.len() - i,
        {
            let ghost pred = keep_pred(views_of(remove@));
            let ghost prefix = views_of(old_list@).subrange(0, i as int);
            let ghost elem = views_of(old_list@)[i as int];
            let keep = !list_contains(remove, &old_list[i]);
            if keep {
                r.push(clone_bytes(&old_list[i]));
            }
            i = i + 1;
            proof {
                reveal_with_fuel(Seq::filter, 2);
                assert(views_of(old_list@).subrange(0, i as int) =~= prefix + seq![elem]);
                Seq::filter_distributes_over_add(prefix, seq![elem], pred);
                assert(seq![elem].drop_last() =~= Seq::<Seq<u8>>::empty());
                if keep {
                    assert(seq![elem].filter(pred) =~= seq![elem]);
                    assert(views_of(r@) =~= prefix.filter(pred) + seq![elem]);
                } else {
                    assert(seq![elem].filter(pred) =~= Seq::<Seq<u8>>::empty());
                    assert(prefix.filter(pred) + Seq::<Seq<u8>>::empty() =~= prefix.filter(pred));
                    assert(views_of(r@) =~= prefix.filter(pred));
                }
            }
        }
        proof {
            assert(views_of(old_list@).subrange(0, old_list@.len() as int) =~= views_of(
                old_list@,
            ));
        }
    }
    let ghost kept = views_of(r@);
    let ghost klen = r@.len() as int;
    let mut i: usize = 0;
    proof {
        assert(kept + views_of(add@).subrange(0, 0) =~= kept);
        assert(kept.len() == klen);
    }
    while i < add.len()
        invariant
            i <= add@.len(),
            kept.len() == klen,
            r@.len() == klen + i,
            views_of(r@) == kept + views_of(add@).subrange(0, i as int),
        decreases add@.len() - i,
    {
        let ghost prev = views_of(r@);
        let c = clone_bytes(&add[i]);
        r.push(c);
        i = i + 1;
        proof {
            assert(views_of(r@) =~= prev.push(c@));
            assert(prev.push(c@) =~= kept + views_of(add@).subrange(0, i as int));
        }
    }
    proof {
        assert(views_of(add@).subrange(0, add@.len() as int) =~= views_of(add@));
        if clear {
            assert(kept =~= Seq::<Seq<u8>>::empty());
        }
        assert(views_of(r@) =~= updated_list(
            views_of(old_list@),
            views_of(add@),
            views_of(remove@),
            clear,
        ));
    }
    r
}

/// The identity that `req` turns `id` into; the stored key is not this
/// function's concern.
pub fn apply_update(id: &IdentityPerf, req: &UpdateRequest) -> (r: IdentityPerf)
    ensures
        r@ == updated_identity(id@, req@),
{
    IdentityPerf {
        usernames: apply_to_list(
            &id.usernames,
            &req.add_usernames,
            &req.remove_usernames,
            req.remove_all_usernames,
        ),
        emails: apply_to_list(
            &id.emails,
            &req.add_emails,
            &req.remove_emails,
            req.remove_all_emails,
        ),
    }
}

} // verus!
