//! Whole-file textual rewrites. Comments are not part of the in-memory map,
//! so deleting, updating or adding a record rewrites the file line by line:
//! comment lines and other records are copied verbatim, only the matched
//! record's three lines are dropped or replaced, and an added record is
//! appended. Every line must end with a newline byte; trailing bytes without
//! one are a format error here, since dropping them silently would lose file
//! content.

use vstd::prelude::*;
use vstd::slice::slice_subrange;
use crate::bytes::{find_from, find_byte, lemma_find_from_is, lemma_find_from_none,
    lemma_find_from_spec, bytes_eq};
use crate::identity::{IdentityPerf, IdentityView, StoreError, UpdateRequest, UpdateRequestView,
    updated_identity, apply_update};
use crate::store::upd_key;
use crate::parse::{NEW_LINE_BITS, POUND_BITS, K_BITS, U_BITS, E_BITS, DOUBLE_QUOTE_BITS,
    key_of_line, line_spans, render_record, push_bytes, write_record, scan_spans};

verus! {

/// The first newline-terminated line of `rest` and what follows it; `None`
/// when `rest` is empty or its tail is unterminated.
pub open spec fn next_line(rest: Seq<u8>) -> Option<(Seq<u8>, Seq<u8>)> {
    let nl = find_from(rest, NEW_LINE_BITS, 0);
    if rest.len() == 0 || nl < 0 || nl >= rest.len() {
        None
    } else {
        Some((rest.subrange(0, nl + 1), rest.subrange(nl + 1, rest.len() as int)))
    }
}

/// The file after the record keyed `key` is removed, and whether one was
/// found: comments are copied, a key line consumes its two following lines,
/// a matched record's three lines are dropped, everything else is copied
/// byte for byte. `None` is a format error: an unterminated tail, a key line
/// with no closing quote or with fewer than two lines after it, or an
/// unrecognized marker.
pub open spec fn spec_delete(rest: Seq<u8>, key: Seq<u8>) -> Option<(Seq<u8>, bool)>
    decreases rest.len(),
{
    if rest.len() == 0 {
        Some((Seq::empty(), false))
    } else {
        match next_line(rest) {
            None => None,
            Some((line, after)) => {
                if line[0] == POUND_BITS {
                    match spec_delete(after, key) {
                        None => None,
                        Some(p) => Some((line + p.0, p.1)),
                    }
                } else if line[0] == K_BITS {
                    match key_of_line(line) {
                        None => None,
                        Some(k) => match next_line(after) {
                            None => None,
                            Some((uline, after2)) => match next_line(after2) {
                                None => None,
                                Some((eline, after3)) => match spec_delete(after3, key) {
                                    None => None,
                                    Some(p) => if k == key {
                                        Some((p.0, true))
                                    } else {
                                        Some((line + uline + eline + p.0, p.1))
                                    },
                                },
                            },
                        },
                    }
                } else {
                    None
                }
            },
        }
    }
}

/// The file after the record keyed `key` is rewritten in place, and whether
/// one was found. The matched record's username and email lines are parsed,
/// the request is applied to the lists, and the record is written back under
/// its (possibly renamed) key; everything else is copied byte for byte.
pub open spec fn spec_update(rest: Seq<u8>, key: Seq<u8>, req: UpdateRequestView) -> Option<
    (Seq<u8>, bool),
>
    decreases rest.len(),
{
    if rest.len() == 0 {
        Some((Seq::empty(), false))
    } else {
        match next_line(rest) {
            None => None,
            Some((line, after)) => {
                if line[0] == POUND_BITS {
                    match spec_update(after, key, req) {
                        None => None,
                        Some(p) => Some((line + p.0, p.1)),
                    }
                } else if line[0] == K_BITS {
                    match key_of_line(line) {
                        None => None,
                        Some(k) => match next_line(after) {
                            None => None,
                            Some((uline, after2)) => match next_line(after2) {
                                None => None,
                                Some((eline, after3)) => match spec_update(after3, key, req) {
                                    None => None,
                                    Some(p) => if k == key {
                                        if uline[0] != U_BITS || eline[0] != E_BITS {
                                            None
                                        } else {
                                            match (line_spans(uline, 2), line_spans(eline, 2)) {
                                                (Some(us), Some(es)) => {
                                                    let id = updated_identity(
                                                        IdentityView { usernames: us, emails: es },
                                                        req,
                                                    );
                                                    Some(
                                                        (
                                                            render_record(upd_key(req, k), id)
                                                                + p.0,
                                                            true,
                                                        ),
                                                    )
                                                },
                                                _ => None,
                                            }
                                        }
                                    } else {
                                        Some((line + uline + eline + p.0, p.1))
                                    },
                                },
                            },
                        },
                    }
                } else {
                    None
                }
            },
        }
    }
}

/// Removes the record keyed `key` from the file content, copying everything
/// else verbatim.
#[verifier::rlimit(80)]
pub fn delete_record(content: &[u8], key: &[u8]) -> (r: Result<Vec<u8>, StoreError>)
    ensures
        match r {
            Ok(out) => spec_delete(content@, key@) == Some((out@, true)),
            Err(e) => {
                &&& (e == StoreError::Format || e == StoreError::NotFound)
                &&& (e == StoreError::Format <==> spec_delete(content@, key@) is None)
                &&& (e == StoreError::NotFound ==> (spec_delete(content@, key@) matches Some(p)
                    && !p.1))
            },
        },
{
    let mut out: Vec<u8> = Vec::new();
    let mut found = false;
    let mut s: usize = 0;
    proof {
        assert(content@.subrange(0, content@.len() as int) =~= content@);
        assert(out@ =~= Seq::<u8>::empty());
    }
    loop
        invariant
            s <= content@.len(),
            spec_delete(content@, key@) == (match spec_delete(
                content@.subrange(s as int, content@.len() as int),
                key@,
            ) {
                None => None::<(Seq<u8>, bool)>,
                Some(p) => Some((out@ + p.0, found || p.1)),
            }),
        decreases content@.len() - s,
    {
        let ghost rest = content@.subrange(s as int, content@.len() as int);
        let n = content.len();
        if s == n {
            proof {
                assert(rest =~= Seq::<u8>::empty());
                assert(out@ + Seq::<u8>::empty() =~= out@);
            }
            if !found {
                return Err(StoreError::NotFound);
            }
            return Ok(out);
        }
        let nl = match find_byte(content, NEW_LINE_BITS, s) {
            Some(nl) => nl,
            None => {
                proof {
                    lemma_find_from_spec(content@, NEW_LINE_BITS, s as int);
                    lemma_find_from_none(rest, NEW_LINE_BITS, 0);
                }
                return Err(StoreError::Format);
            },
        };
        proof {
            lemma_find_from_spec(content@, NEW_LINE_BITS, s as int);
            lemma_find_from_is(rest, NEW_LINE_BITS, 0, nl - s);
            assert(rest.subrange(0, nl - s + 1) =~= content@.subrange(s as int, nl + 1));
            assert(rest.subrange(nl - s + 1, rest.len() as int) =~= content@.subrange(
                nl + 1,
                content@.len() as int,
            ));
        }
        assert(nl < n);
        let line = slice_subrange(content, s, nl + 1);
        let b = line[0];
        if b == POUND_BITS {
            push_bytes(&mut out, line);
            s = nl + 1;
        } else if b == K_BITS {
            if line.len() < 3 {
                return Err(StoreError::Format);
            }
            let q = match find_byte(line, DOUBLE_QUOTE_BITS, 3) {
                Some(q) => q,
                None => {
                    return Err(StoreError::Format);
                },
            };
            let ghost after = content@.subrange(nl + 1, content@.len() as int);
            let nl2 = match find_byte(content, NEW_LINE_BITS, nl + 1) {
                Some(nl2) => nl2,
                None => {
                    proof {
                        lemma_find_from_spec(content@, NEW_LINE_BITS, nl + 1);
                        lemma_find_from_none(after, NEW_LINE_BITS, 0);
                    }
                    return Err(StoreError::Format);
                },
            };
            proof {
                lemma_find_from_spec(content@, NEW_LINE_BITS, nl + 1);
                lemma_find_from_is(after, NEW_LINE_BITS, 0, nl2 - (nl + 1));
                assert(after.subrange(0, nl2 - (nl + 1) + 1) =~= content@.subrange(
                    nl + 1,
                    nl2 + 1,
                ));
                assert(after.subrange(nl2 - (nl + 1) + 1, after.len() as int) =~= content@.subrange(
                    nl2 + 1,
                    content@.len() as int,
                ));
            }
            let ghost after2 = content@.subrange(nl2 + 1, content@.len() as int);
            let nl3 = match find_byte(content, NEW_LINE_BITS, nl2 + 1) {
                Some(nl3) => nl3,
                None => {
                    proof {
                        lemma_find_from_spec(content@, NEW_LINE_BITS, nl2 + 1);
                        lemma_find_from_none(after2, NEW_LINE_BITS, 0);
                    }
                    return Err(StoreError::Format);
                },
            };
            proof {
                lemma_find_from_spec(content@, NEW_LINE_BITS, nl2 + 1);
                lemma_find_from_is(after2, NEW_LINE_BITS, 0, nl3 - (nl2 + 1));
                assert(after2.subrange(0, nl3 - (nl2 + 1) + 1) =~= content@.subrange(
                    nl2 + 1,
                    nl3 + 1,
                ));
                assert(after2.subrange(nl3 - (nl2 + 1) + 1, after2.len() as int)
                    =~= content@.subrange(nl3 + 1, content@.len() as int));
            }
            assert(nl3 < n);
            let uline = slice_subrange(content, nl + 1, nl2 + 1);
            let eline = slice_subrange(content, nl2 + 1, nl3 + 1);
            let k_slice = slice_subrange(line, 3, q);
            if bytes_eq(k_slice, key) {
                found = true;
            } else {
                push_bytes(&mut out, line);
                push_bytes(&mut out, uline);
                push_bytes(&mut out, eline);
            }
            s = nl3 + 1;
        } else {
            return Err(StoreError::Format);
        }
    }
}

/// Equal sequences under the same prefix are equal.
proof fn lemma_prefix_cancel(l: Seq<u8>, x: Seq<u8>, y: Seq<u8>)
    requires
        l + x == l + y,
    ensures
        x == y,
{
    assert((l + x).len() == l.len() + x.len());
    assert((l + y).len() == l.len() + y.len());
    assert((l + x).len() == (l + y).len());
    assert(x.len() == y.len());
    assert forall|j: int| 0 <= j < x.len() implies x[j] == y[j] by {
        assert((l + x)[l.len() + j] == x[j]);
        assert((l + y)[l.len() + j] == y[j]);
    }
    assert(x =~= y);
}

/// Walking a concatenation whose first part the delete walk copies verbatim
/// copies that part and continues on the second.
#[verifier::rlimit(100)]
proof fn lemma_delete_compose(a: Seq<u8>, b: Seq<u8>, key: Seq<u8>)
    requires
        spec_delete(a, key) == Some((a, false)),
    ensures
        spec_delete(a + b, key) == (match spec_delete(b, key) {
            None => None::<(Seq<u8>, bool)>,
            Some(p) => Some((a + p.0, p.1)),
        }),
    decreases a.len(),
{
    if a.len() == 0 {
        assert(a + b =~= b);
        match spec_delete(b, key) {
            None => {},
            Some(p) => {
                assert(a + p.0 =~= p.0);
                assert((a + p.0, p.1) == p);
            },
        }
    } else {
        let nl = find_from(a, NEW_LINE_BITS, 0);
        assert(next_line(a) is Some);
        let l = a.subrange(0, nl + 1);
        let a1 = a.subrange(nl + 1, a.len() as int);
        lemma_find_from_spec(a, NEW_LINE_BITS, 0);
        lemma_find_from_is(a + b, NEW_LINE_BITS, 0, nl);
        assert((a + b).subrange(0, nl + 1) =~= l);
        assert((a + b).subrange(nl + 1, (a + b).len() as int) =~= a1 + b);
        if l[0] == POUND_BITS {
            let p1 = spec_delete(a1, key)->Some_0;
            assert(l + p1.0 == a && !p1.1);
            assert(a =~= l + a1);
            lemma_prefix_cancel(l, p1.0, a1);
            assert(spec_delete(a1, key) == Some((a1, false)));
            lemma_delete_compose(a1, b, key);
            match spec_delete(b, key) {
                None => {},
                Some(p) => {
                    assert(l + (a1 + p.0) =~= a + p.0);
                },
            }
        } else {
            // the key line of an unmatched record and its two lines
            let k = key_of_line(l)->Some_0;
            let ul = next_line(a1)->Some_0.0;
            let a2 = next_line(a1)->Some_0.1;
            let el = next_line(a2)->Some_0.0;
            let a3 = next_line(a2)->Some_0.1;
            assert(k != key);
            let p1 = spec_delete(a3, key)->Some_0;
            assert(l + ul + el + p1.0 == a && !p1.1);
            let nl2 = find_from(a1, NEW_LINE_BITS, 0);
            let nl3 = find_from(a2, NEW_LINE_BITS, 0);
            lemma_find_from_spec(a1, NEW_LINE_BITS, 0);
            lemma_find_from_spec(a2, NEW_LINE_BITS, 0);
            lemma_find_from_is(a1 + b, NEW_LINE_BITS, 0, nl2);
            assert((a1 + b).subrange(0, nl2 + 1) =~= ul);
            assert((a1 + b).subrange(nl2 + 1, (a1 + b).len() as int) =~= a2 + b);
            lemma_find_from_is(a2 + b, NEW_LINE_BITS, 0, nl3);
            assert((a2 + b).subrange(0, nl3 + 1) =~= el);
            assert((a2 + b).subrange(nl3 + 1, (a2 + b).len() as int) =~= a3 + b);
            assert(a =~= l + ul + el + a3);
            assert(l + ul + el + p1.0 =~= l + (ul + el + p1.0));
            assert(l + ul + el + a3 =~= l + (ul + el + a3));
            lemma_prefix_cancel(l, ul + el + p1.0, ul + el + a3);
            assert(ul + el + p1.0 =~= ul + (el + p1.0));
            assert(ul + el + a3 =~= ul + (el + a3));
            lemma_prefix_cancel(ul, el + p1.0, el + a3);
            lemma_prefix_cancel(el, p1.0, a3);
            assert(spec_delete(a3, key) == Some((a3, false)));
            lemma_delete_compose(a3, b, key);
            match spec_delete(b, key) {
                None => {},
                Some(p) => {
                    assert(l + ul + el + (a3 + p.0) =~= a + p.0);
                },
            }
        }
    }
}

/// The delete walk drops exactly the three rendered lines of the matched
/// record and goes on.
#[verifier::rlimit(100)]
proof fn lemma_delete_record_hit(k: Seq<u8>, id: IdentityView, b: Seq<u8>)
    requires
        crate::parse::clean_bytes(k),
        crate::parse::clean_list(id.usernames),
        crate::parse::clean_list(id.emails),
    ensures
        spec_delete(render_record(k, id) + b, k) == (match spec_delete(b, k) {
            None => None::<(Seq<u8>, bool)>,
            Some(p) => Some((p.0, true)),
        }),
{
    let bytes = render_record(k, id) + b;
    let uline = seq![U_BITS, crate::parse::COLON_BITS] + crate::parse::spans_text(id.usernames)
        + seq![NEW_LINE_BITS];
    let eline = seq![E_BITS, crate::parse::COLON_BITS] + crate::parse::spans_text(id.emails)
        + seq![NEW_LINE_BITS];
    let kline = seq![K_BITS, crate::parse::COLON_BITS] + crate::parse::quoted(k) + seq![
        NEW_LINE_BITS,
    ];
    assert(bytes =~= kline + uline + eline + b);
    crate::parse::lemma_spans_text_no_newline(id.usernames);
    crate::parse::lemma_spans_text_no_newline(id.emails);
    let nl1 = k.len() + 4int;
    assert(bytes[nl1] == NEW_LINE_BITS);
    assert forall|j: int| 0 <= j < nl1 implies bytes[j] != NEW_LINE_BITS by {
        if 3 <= j < 3 + k.len() {
            assert(bytes[j] == k[j - 3]);
        }
    }
    lemma_find_from_is(bytes, NEW_LINE_BITS, 0, nl1);
    let line1 = bytes.subrange(0, nl1 + 1);
    assert(line1 =~= kline);
    assert(line1[0] == K_BITS);
    assert(line1[3 + k.len() as int] == DOUBLE_QUOTE_BITS);
    assert forall|j: int| 3 <= j < 3 + k.len() implies line1[j] != DOUBLE_QUOTE_BITS by {
        assert(line1[j] == k[j - 3]);
    }
    lemma_find_from_is(line1, DOUBLE_QUOTE_BITS, 3, 3 + k.len() as int);
    assert(line1.subrange(3, 3 + k.len() as int) =~= k);
    assert(key_of_line(line1) == Some(k));
    let rest1 = bytes.subrange(nl1 + 1, bytes.len() as int);
    assert(rest1 =~= uline + eline + b);
    let nl2: int = 2 + crate::parse::spans_text(id.usernames).len() as int;
    assert(rest1[nl2] == NEW_LINE_BITS);
    assert forall|j: int| 0 <= j < nl2 implies rest1[j] != NEW_LINE_BITS by {
        if j >= 2 {
            assert(rest1[j] == crate::parse::spans_text(id.usernames)[j - 2]);
        }
    }
    lemma_find_from_is(rest1, NEW_LINE_BITS, 0, nl2);
    assert(rest1.subrange(0, nl2 + 1) =~= uline);
    let rest2 = rest1.subrange(nl2 + 1, rest1.len() as int);
    assert(rest2 =~= eline + b);
    let nl3: int = 2 + crate::parse::spans_text(id.emails).len() as int;
    assert(rest2[nl3] == NEW_LINE_BITS);
    assert forall|j: int| 0 <= j < nl3 implies rest2[j] != NEW_LINE_BITS by {
        if j >= 2 {
            assert(rest2[j] == crate::parse::spans_text(id.emails)[j - 2]);
        }
    }
    lemma_find_from_is(rest2, NEW_LINE_BITS, 0, nl3);
    assert(rest2.subrange(0, nl3 + 1) =~= eline);
    assert(rest2.subrange(nl3 + 1, rest2.len() as int) =~= b);
}

/// The deleted file is byte-identical to the original minus the matched
/// record's three lines: comments and other records survive untouched. The
/// regions before and after the record must themselves walk cleanly without
/// carrying the key, which the walk states as copying them verbatim.
pub proof fn law_delete_removes_record(pre: Seq<u8>, k: Seq<u8>, id: IdentityView, post: Seq<u8>)
    requires
        crate::parse::clean_bytes(k),
        crate::parse::clean_list(id.usernames),
        crate::parse::clean_list(id.emails),
        spec_delete(pre, k) == Some((pre, false)),
        spec_delete(post, k) == Some((post, false)),
    ensures
        spec_delete(pre + render_record(k, id) + post, k) == Some((pre + post, true)),
{
    lemma_delete_compose(pre, render_record(k, id) + post, k);
    lemma_delete_record_hit(k, id, post);
    assert(pre + render_record(k, id) + post =~= pre + (render_record(k, id) + post));
}

/// Rewrites the record keyed `key` in place: the request is applied to its
/// parsed lists, the three lines are written back under the (possibly
/// renamed) key, and everything else is copied verbatim.
#[verifier::rlimit(100)]
pub fn update_record(content: &[u8], key: &[u8], req: &UpdateRequest) -> (r: Result<
    Vec<u8>,
    StoreError,
>)
    ensures
        match r {
            Ok(out) => spec_update(content@, key@, req@) == Some((out@, true)),
            Err(e) => {
                &&& (e == StoreError::Format || e == StoreError::NotFound)
                &&& (e == StoreError::Format <==> spec_update(content@, key@, req@) is None)
                &&& (e == StoreError::NotFound ==> (spec_update(content@, key@, req@)
                    matches Some(p) && !p.1))
            },
        },
{
    let mut out: Vec<u8> = Vec::new();
    let mut found = false;
    let mut s: usize = 0;
    proof {
        assert(content@.subrange(0, content@.len() as int) =~= content@);
        assert(out@ =~= Seq::<u8>::empty());
    }
    loop
        invariant
            s <= content@.len(),
            spec_update(content@, key@, req@) == (match spec_update(
                content@.subrange(s as int, content@.len() as int),
                key@,
                req@,
            ) {
                None => None::<(Seq<u8>, bool)>,
                Some(p) => Some((out@ + p.0, found || p.1)),
            }),
        decreases content@.len() - s,
    {
        let ghost rest = content@.subrange(s as int, content@.len() as int);
        let n = content.len();
        if s == n {
            proof {
                assert(rest =~= Seq::<u8>::empty());
                assert(out@ + Seq::<u8>::empty() =~= out@);
            }
            if !found {
                return Err(StoreError::NotFound);
            }
            return Ok(out);
        }
        let nl = match find_byte(content, NEW_LINE_BITS, s) {
            Some(nl) => nl,
            None => {
                proof {
                    lemma_find_from_spec(content@, NEW_LINE_BITS, s as int);
                    lemma_find_from_none(rest, NEW_LINE_BITS, 0);
                }
                return Err(StoreError::Format);
            },
        };
        proof {
            lemma_find_from_spec(content@, NEW_LINE_BITS, s as int);
            lemma_find_from_is(rest, NEW_LINE_BITS, 0, nl - s);
            assert(rest.subrange(0, nl - s + 1) =~= content@.subrange(s as int, nl + 1));
            assert(rest.subrange(nl - s + 1, rest.len() as int) =~= content@.subrange(
                nl + 1,
                content@.len() as int,
            ));
        }
        assert(nl < n);
        let line = slice_subrange(content, s, nl + 1);
        let b = line[0];
        if b == POUND_BITS {
            push_bytes(&mut out, line);
            s = nl + 1;
        } else if b == K_BITS {
            if line.len() < 3 {
                return Err(StoreError::Format);
            }
            let q = match find_byte(line, DOUBLE_QUOTE_BITS, 3) {
                Some(q) => q,
                None => {
                    return Err(StoreError::Format);
                },
            };
            let ghost after = content@.subrange(nl + 1, content@.len() as int);
            let nl2 = match find_byte(content, NEW_LINE_BITS, nl + 1) {
                Some(nl2) => nl2,
                None => {
                    proof {
                        lemma_find_from_spec(content@, NEW_LINE_BITS, nl + 1);
                        lemma_find_from_none(after, NEW_LINE_BITS, 0);
                    }
                    return Err(StoreError::Format);
                },
            };
            proof {
                lemma_find_from_spec(content@, NEW_LINE_BITS, nl + 1);
                lemma_find_from_is(after, NEW_LINE_BITS, 0, nl2 - (nl + 1));
                assert(after.subrange(0, nl2 - (nl + 1) + 1) =~= content@.subrange(
                    nl + 1,
                    nl2 + 1,
                ));
                assert(after.subrange(nl2 - (nl + 1) + 1, after.len() as int) =~= content@.subrange(
                    nl2 + 1,
                    content@.len() as int,
                ));
            }
            let ghost after2 = content@.subrange(nl2 + 1, content@.len() as int);
            let nl3 = match find_byte(content, NEW_LINE_BITS, nl2 + 1) {
                Some(nl3) => nl3,
                None => {
                    proof {
                        lemma_find_from_spec(content@, NEW_LINE_BITS, nl2 + 1);
                        lemma_find_from_none(after2, NEW_LINE_BITS, 0);
                    }
                    return Err(StoreError::Format);
                },
            };
            proof {
                lemma_find_from_spec(content@, NEW_LINE_BITS, nl2 + 1);
                lemma_find_from_is(after2, NEW_LINE_BITS, 0, nl3 - (nl2 + 1));
                assert(after2.subrange(0, nl3 - (nl2 + 1) + 1) =~= content@.subrange(
                    nl2 + 1,
                    nl3 + 1,
                ));
                assert(after2.subrange(nl3 - (nl2 + 1) + 1, after2.len() as int)
                    =~= content@.subrange(nl3 + 1, content@.len() as int));
            }
            assert(nl3 < n);
            let uline = slice_subrange(content, nl + 1, nl2 + 1);
            let eline = slice_subrange(content, nl2 + 1, nl3 + 1);
            let k_slice = slice_subrange(line, 3, q);
            if bytes_eq(k_slice, key) {
                if uline[0] != U_BITS || eline[0] != E_BITS {
                    return Err(StoreError::Format);
                }
                let us = match scan_spans(uline, 2) {
                    Some(v) => v,
                    None => {
                        return Err(StoreError::Format);
                    },
                };
                let es = match scan_spans(eline, 2) {
                    Some(v) => v,
                    None => {
                        return Err(StoreError::Format);
                    },
                };
                let parsed = IdentityPerf { usernames: us, emails: es };
                let updated = apply_update(&parsed, req);
                match &req.change_identity {
                    Some(k2) => {
                        write_record(&mut out, k2.as_slice(), &updated);
                    },
                    None => {
                        write_record(&mut out, k_slice, &updated);
                    },
                }
                found = true;
            } else {
                push_bytes(&mut out, line);
                push_bytes(&mut out, uline);
                push_bytes(&mut out, eline);
            }
            s = nl3 + 1;
        } else {
            return Err(StoreError::Format);
        }
    }
}

/// Appends a record for a fresh key at the end of the file; an existing
/// record under the same key fails the add and leaves the content alone.
pub fn add_record(content: &[u8], key: &[u8], id: &IdentityPerf) -> (r: Result<
    Vec<u8>,
    StoreError,
>)
    ensures
        match r {
            Ok(out) => {
                &&& (spec_delete(content@, key@) matches Some(p) && !p.1)
                &&& out@ == content@ + render_record(key@, id@)
            },
            Err(e) => {
                &&& (e == StoreError::AlreadyExists || e == StoreError::Format)
                &&& (e == StoreError::Format <==> spec_delete(content@, key@) is None)
                &&& (e == StoreError::AlreadyExists ==> (spec_delete(content@, key@)
                    matches Some(p) && p.1))
            },
        },
{
    match delete_record(content, key) {
        Ok(_) => Err(StoreError::AlreadyExists),
        Err(StoreError::NotFound) => {
            let mut out = vstd::slice::slice_to_vec(content);
            write_record(&mut out, key, id);
            Ok(out)
        },
        Err(StoreError::Format) => Err(StoreError::Format),
        Err(_) => {
            proof {
                assert(false);
            }
            Err(StoreError::Format)
        },
    }
}

} // verus!
