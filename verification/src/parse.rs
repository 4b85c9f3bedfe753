//! The store file grammar and its parser. A store file is line-oriented:
//! `#` starts a comment line; `K:"key"` opens a record; `U:` and `E:` lines
//! carry the record's double-quoted, space-separated usernames and emails.
//! Every line ends with a newline byte; bytes after the last newline are
//! ignored. An `E:` line closes the most recently opened record.

use vstd::prelude::*;
use vstd::slice::{slice_to_vec, slice_subrange};
use crate::bytes::{find_from, find_byte, lemma_find_from_is, lemma_find_from_none,
    lemma_find_from_spec};
use crate::identity::{IdentityPerf, IdentityView, StoreError, views_of};
use crate::store::{EntryView, LocalAuthorStoragePerf, has_key, store_insert, sorted_by_key};

verus! {

pub const DOUBLE_QUOTE_BITS: u8 = 34u8;

pub const NEW_LINE_BITS: u8 = 10u8;

pub const POUND_BITS: u8 = 35u8;

pub const SPACE_BITS: u8 = 32u8;

pub const COLON_BITS: u8 = 58u8;

pub const K_BITS: u8 = 75u8;

pub const U_BITS: u8 = 85u8;

pub const E_BITS: u8 = 69u8;

/// Free of the two bytes the grammar reserves: double quote and newline.
pub open spec fn clean_bytes(s: Seq<u8>) -> bool {
    forall|i: int|
        0 <= i < s.len() ==> #[trigger] s[i] != DOUBLE_QUOTE_BITS && s[i] != NEW_LINE_BITS
}

/// Every byte string of the list is clean.
pub open spec fn clean_list(ss: Seq<Seq<u8>>) -> bool {
    forall|i: int| 0 <= i < ss.len() ==> clean_bytes(#[trigger] ss[i])
}

/// The quoted spans of a marker line from `cursor` on: between spans, a
/// newline ends the scan; then everything up to the next quote is skipped,
/// and the span runs to the quote after that. A quote that never closes
/// before the line's terminating newline, or a stretch with no quote and no
/// newline, is a format error (`None`).
pub open spec fn line_spans(line: Seq<u8>, cursor: int) -> Option<Seq<Seq<u8>>>
    decreases line.len() - cursor, 1int,
{
    if cursor < 0 || cursor >= line.len() {
        Some(Seq::empty())
    } else if line[cursor] == NEW_LINE_BITS {
        Some(Seq::empty())
    } else {
        open_quote_spans(line, cursor)
    }
}

/// Scans for the opening quote of the next span.
pub open spec fn open_quote_spans(line: Seq<u8>, cursor: int) -> Option<Seq<Seq<u8>>>
    decreases line.len() - cursor, 0int,
{
    if cursor < 0 || cursor >= line.len() {
        None
    } else if line[cursor] == DOUBLE_QUOTE_BITS {
        close_quote_spans(line, cursor + 1, cursor + 1)
    } else {
        open_quote_spans(line, cursor + 1)
    }
}

/// Scans for the closing quote of the span that opened at `start - 1`.
pub open spec fn close_quote_spans(line: Seq<u8>, start: int, j: int) -> Option<Seq<Seq<u8>>>
    decreases line.len() - j, 2int,
{
    if j < 0 || j >= line.len() {
        None
    } else if line[j] == DOUBLE_QUOTE_BITS {
        match line_spans(line, j + 1) {
            None => None,
            Some(rest) => Some(seq![line.subrange(start, j)] + rest),
        }
    } else {
        close_quote_spans(line, start, j + 1)
    }
}

/// The key of a `K:` line: the bytes from position 3 up to the next quote.
pub open spec fn key_of_line(line: Seq<u8>) -> Option<Seq<u8>> {
    let q = find_from(line, DOUBLE_QUOTE_BITS, 3);
    if q < 0 {
        None
    } else {
        Some(line.subrange(3, q))
    }
}

/// The parser's state between lines: the entries bound so far, the keys
/// opened by `K:` lines and not yet closed, and the usernames collected for
/// the record being read.
#[verifier::ext_equal]
pub struct ParseState {
    pub entries: Seq<EntryView>,
    pub pending_keys: Seq<Seq<u8>>,
    pub pending_usernames: Seq<Seq<u8>>,
}

/// The state before any line is read.
pub open spec fn initial_state() -> ParseState {
    ParseState {
        entries: Seq::empty(),
        pending_keys: Seq::empty(),
        pending_usernames: Seq::empty(),
    }
}

/// One line's effect on the parser state; `None` is a format error.
pub open spec fn parse_line(st: ParseState, line: Seq<u8>) -> Option<ParseState> {
    if line.len() == 0 {
        None
    } else if line[0] == POUND_BITS {
        Some(st)
    } else if line[0] == K_BITS {
        match key_of_line(line) {
            None => None,
            Some(k) => Some(
                ParseState { pending_keys: st.pending_keys.push(k), ..st },
            ),
        }
    } else if line[0] == U_BITS {
        match line_spans(line, 2) {
            None => None,
            Some(us) => Some(
                ParseState { pending_usernames: st.pending_usernames + us, ..st },
            ),
        }
    } else if line[0] == E_BITS {
        match line_spans(line, 2) {
            None => None,
            Some(es) => {
                if st.pending_keys.len() == 0 {
                    None
                } else {
                    let k = st.pending_keys.last();
                    if has_key(st.entries, k) {
                        None
                    } else {
                        Some(
                            ParseState {
                                entries: store_insert(
                                    st.entries,
                                    k,
                                    IdentityView { usernames: st.pending_usernames, emails: es },
                                ),
                                pending_keys: st.pending_keys.drop_last(),
                                pending_usernames: Seq::empty(),
                            },
                        )
                    }
                }
            },
        }
    } else {
        None
    }
}

/// Folds `parse_line` over the newline-terminated lines of `rest`; bytes
/// after the last newline are ignored.
pub open spec fn parse_lines(st: ParseState, rest: Seq<u8>) -> Option<ParseState>
    decreases rest.len(),
{
    let nl = find_from(rest, NEW_LINE_BITS, 0);
    if nl < 0 || nl >= rest.len() {
        Some(st)
    } else {
        let line = rest.subrange(0, nl + 1);
        match parse_line(st, line) {
            None => None,
            Some(st2) => parse_lines(st2, rest.subrange(nl + 1, rest.len() as int)),
        }
    }
}

/// What a whole store file denotes: its entries, or a format error. A key
/// left open at the end of the file — its username or email lines never
/// came — is a format error too.
pub open spec fn parse_store(bytes: Seq<u8>) -> Option<Seq<EntryView>> {
    match parse_lines(initial_state(), bytes) {
        None => None,
        Some(st) => if st.pending_keys.len() == 0 && st.pending_usernames.len() == 0 {
            Some(st.entries)
        } else {
            None
        },
    }
}

/// When the first quote at or past `c` sits at `q`, the opening-quote scan
/// reaches it.
proof fn lemma_open_scan(line: Seq<u8>, c: int, q: int)
    requires
        0 <= c <= q < line.len(),
        line[q] == DOUBLE_QUOTE_BITS,
        forall|j: int| c <= j < q ==> line[j] != DOUBLE_QUOTE_BITS,
    ensures
        open_quote_spans(line, c) == close_quote_spans(line, q + 1, q + 1),
    decreases q - c,
{
    if c < q {
        lemma_open_scan(line, c + 1, q);
    }
}

/// With no quote at or past `c`, the opening-quote scan fails.
proof fn lemma_open_scan_none(line: Seq<u8>, c: int)
    requires
        0 <= c,
        forall|j: int| c <= j < line.len() ==> line[j] != DOUBLE_QUOTE_BITS,
    ensures
        open_quote_spans(line, c) == None::<Seq<Seq<u8>>>,
    decreases line.len() - c,
{
    if c < line.len() {
        lemma_open_scan_none(line, c + 1);
    }
}

/// When the first quote at or past `j` sits at `q`, the closing-quote scan
/// ends the span there.
proof fn lemma_close_scan(line: Seq<u8>, start: int, j: int, q: int)
    requires
        0 <= start <= j <= q < line.len(),
        line[q] == DOUBLE_QUOTE_BITS,
        forall|t: int| j <= t < q ==> line[t] != DOUBLE_QUOTE_BITS,
    ensures
        close_quote_spans(line, start, j) == match line_spans(line, q + 1) {
            None => None::<Seq<Seq<u8>>>,
            Some(rest) => Some(seq![line.subrange(start, q)] + rest),
        },
    decreases q - j,
{
    if j < q {
        lemma_close_scan(line, start, j + 1, q);
    }
}

/// With no quote at or past `j`, the closing-quote scan fails.
proof fn lemma_close_scan_none(line: Seq<u8>, start: int, j: int)
    requires
        0 <= start <= j,
        forall|t: int| j <= t < line.len() ==> line[t] != DOUBLE_QUOTE_BITS,
    ensures
        close_quote_spans(line, start, j) == None::<Seq<Seq<u8>>>,
    decreases line.len() - j,
{
    if j < line.len() {
        lemma_close_scan_none(line, start, j + 1);
    }
}

/// Collects the quoted spans of a marker line, starting at `start`.
pub(crate) fn scan_spans(line: &[u8], start: usize) -> (r: Option<Vec<Vec<u8>>>)
    ensures
        match r {
            Some(v) => line_spans(line@, start as int) == Some(views_of(v@)),
            None => line_spans(line@, start as int) is None,
        },
{
    let mut spans: Vec<Vec<u8>> = Vec::new();
    let mut cursor = start;
    proof {
        assert(views_of(spans@) =~= Seq::<Seq<u8>>::empty());
    }
    loop
        invariant
            cursor >= 0,
            spans@.len() == views_of(spans@).len(),
            line_spans(line@, start as int) == (match line_spans(line@, cursor as int) {
                None => None::<Seq<Seq<u8>>>,
                Some(rest) => Some(views_of(spans@) + rest),
            }),
        decreases line@.len() - cursor,
    {
        if cursor >= line.len() {
            proof {
                assert(views_of(spans@) + Seq::<Seq<u8>>::empty() =~= views_of(spans@));
            }
            return Some(spans);
        }
        if line[cursor] == NEW_LINE_BITS {
            proof {
                assert(views_of(spans@) + Seq::<Seq<u8>>::empty() =~= views_of(spans@));
            }
            return Some(spans);
        }
        let q1 = match find_byte(line, DOUBLE_QUOTE_BITS, cursor) {
            Some(q1) => q1,
            None => {
                proof {
                    lemma_find_from_spec(line@, DOUBLE_QUOTE_BITS, cursor as int);
                    lemma_open_scan_none(line@, cursor as int);
                }
                return None;
            },
        };
        proof {
            lemma_find_from_spec(line@, DOUBLE_QUOTE_BITS, cursor as int);
            lemma_open_scan(line@, cursor as int, q1 as int);
        }
        let q2 = match find_byte(line, DOUBLE_QUOTE_BITS, q1 + 1) {
            Some(q2) => q2,
            None => {
                proof {
                    lemma_find_from_spec(line@, DOUBLE_QUOTE_BITS, q1 + 1);
                    lemma_close_scan_none(line@, q1 + 1, q1 + 1);
                }
                return None;
            },
        };
        proof {
            lemma_find_from_spec(line@, DOUBLE_QUOTE_BITS, q1 + 1);
            lemma_close_scan(line@, q1 + 1, q1 + 1, q2 as int);
        }
        let ghost prev = views_of(spans@);
        let span = slice_to_vec(slice_subrange(line, q1 + 1, q2));
        spans.push(span);
        proof {
            assert(views_of(spans@) =~= prev.push(line@.subrange(q1 + 1, q2 as int)));
            if line_spans(line@, q2 + 1) is Some {
                let rest2 = line_spans(line@, q2 + 1)->Some_0;
                assert(prev + (seq![line@.subrange(q1 + 1, q2 as int)] + rest2) =~= views_of(
                    spans@,
                ) + rest2);
            }
        }
        cursor = q2 + 1;
    }
}

/// A byte string wrapped in double quotes.
pub open spec fn quoted(s: Seq<u8>) -> Seq<u8> {
    seq![DOUBLE_QUOTE_BITS] + s + seq![DOUBLE_QUOTE_BITS]
}

/// Quoted spans separated by single spaces, as a `U:` or `E:` line carries
/// them after its marker.
pub open spec fn spans_text(spans: Seq<Seq<u8>>) -> Seq<u8>
    decreases spans.len(),
{
    if spans.len() == 0 {
        Seq::empty()
    } else if spans.len() == 1 {
        quoted(spans[0])
    } else {
        quoted(spans[0]) + seq![SPACE_BITS] + spans_text(spans.drop_first())
    }
}

/// The three lines of one record.
pub open spec fn render_record(k: Seq<u8>, id: IdentityView) -> Seq<u8> {
    seq![K_BITS, COLON_BITS] + quoted(k) + seq![NEW_LINE_BITS] + seq![U_BITS, COLON_BITS]
        + spans_text(id.usernames) + seq![NEW_LINE_BITS] + seq![E_BITS, COLON_BITS] + spans_text(
        id.emails,
    ) + seq![NEW_LINE_BITS]
}

/// The records of the whole store, in entry order.
pub open spec fn render_store(entries: Seq<EntryView>) -> Seq<u8>
    decreases entries.len(),
{
    if entries.len() == 0 {
        Seq::empty()
    } else {
        render_record(entries[0].0, entries[0].1) + render_store(entries.drop_first())
    }
}

/// Appends the bytes of `s`.
pub fn push_bytes(out: &mut Vec<u8>, s: &[u8])
    ensures
        final(out)@ == old(out)@ + s@,
{
    let mut i: usize = 0;
    while i < s.len()
        invariant
            i <= s@.len(),
            out@.len() == old(out)@.len() + i,
            out@ == old(out)@ + s@.subrange(0, i as int),
        decreases s@.len() - i,
    {
        out.push(s[i]);
        i = i + 1;
        proof {
            assert(out@ =~= old(out)@ + s@.subrange(0, i as int));
        }
    }
    proof {
        assert(old(out)@ + s@.subrange(0, s@.len() as int) =~= old(out)@ + s@);
    }
}

/// Appending one more span extends the text with a separator (when the list
/// was not empty) and the quoted span.
proof fn lemma_spans_text_push(spans: Seq<Seq<u8>>, x: Seq<u8>)
    ensures
        spans_text(spans.push(x)) == if spans.len() == 0 {
            quoted(x)
        } else {
            spans_text(spans) + seq![SPACE_BITS] + quoted(x)
        },
    decreases spans.len(),
{
    let p = spans.push(x);
    if spans.len() == 0 {
        assert(p[0] == x);
    } else if spans.len() == 1 {
        assert(p.drop_first() =~= seq![x]);
        assert(spans_text(seq![x]) == quoted(x));
        assert(p[0] == spans[0]);
        assert(spans_text(p) =~= spans_text(spans) + seq![SPACE_BITS] + quoted(x));
    } else {
        lemma_spans_text_push(spans.drop_first(), x);
        assert(p.drop_first() =~= spans.drop_first().push(x));
        assert(p[0] == spans[0]);
        assert(spans_text(p) =~= spans_text(spans) + seq![SPACE_BITS] + quoted(x));
    }
}

/// Writes the spans of one marker line: each double-quoted, single spaces
/// between them.
fn write_spans(out: &mut Vec<u8>, spans: &Vec<Vec<u8>>)
    ensures
        final(out)@ == old(out)@ + spans_text(views_of(spans@)),
{
    let ghost init = out@;
    let mut i: usize = 0;
    proof {
        assert(views_of(spans@).subrange(0, 0) =~= Seq::<Seq<u8>>::empty());
        assert(init + Seq::<u8>::empty() =~= init);
    }
    while i < spans.len()
        invariant
            i <= spans@.len(),
            out@ == init + spans_text(views_of(spans@).subrange(0, i as int)),
        decreases spans@.len() - i,
    {
        let ghost prefix = views_of(spans@).subrange(0, i as int);
        let ghost mid = out@;
        if i > 0 {
            out.push(SPACE_BITS);
        }
        out.push(DOUBLE_QUOTE_BITS);
        push_bytes(out, spans[i].as_slice());
        out.push(DOUBLE_QUOTE_BITS);
        proof {
            let x = views_of(spans@)[i as int];
            lemma_spans_text_push(prefix, x);
            assert(views_of(spans@).subrange(0, i + 1) =~= prefix.push(x));
            if i > 0 {
                assert(out@ =~= mid + seq![SPACE_BITS] + quoted(x));
                assert(out@ =~= init + spans_text(prefix.push(x)));
            } else {
                assert(prefix =~= Seq::<Seq<u8>>::empty());
                assert(out@ =~= mid + quoted(x));
                assert(out@ =~= init + spans_text(prefix.push(x)));
            }
        }
        i = i + 1;
    }
    proof {
        assert(views_of(spans@).subrange(0, spans@.len() as int) =~= views_of(spans@));
    }
}

/// A prefix of the rendered store grows by exactly one rendered record.
proof fn lemma_render_store_snoc(entries: Seq<EntryView>, i: int)
    requires
        0 <= i < entries.len(),
    ensures
        render_store(entries.subrange(0, i + 1)) == render_store(entries.subrange(0, i))
            + render_record(entries[i].0, entries[i].1),
    decreases i,
{
    let a = entries.subrange(0, i + 1);
    let b = entries.subrange(0, i);
    if i == 0 {
        assert(b =~= Seq::<EntryView>::empty());
        assert(a.drop_first() =~= Seq::<EntryView>::empty());
        assert(a[0] == entries[0]);
        assert(render_store(a) =~= render_store(b) + render_record(entries[0].0, entries[0].1));
    } else {
        let d = entries.drop_first();
        lemma_render_store_snoc(d, i - 1);
        assert(a.drop_first() =~= d.subrange(0, i));
        assert(b.drop_first() =~= d.subrange(0, i - 1));
        assert(a[0] == entries[0]);
        assert(b[0] == entries[0]);
        assert(d[i - 1] == entries[i]);
        assert(render_store(a) =~= render_store(b) + render_record(entries[i].0, entries[i].1));
    }
}

/// Appends one record's three lines.
pub fn write_record(out: &mut Vec<u8>, key: &[u8], id: &IdentityPerf)
    ensures
        final(out)@ == old(out)@ + render_record(key@, id@),
{
    let ghost mid = out@;
    out.push(K_BITS);
    out.push(COLON_BITS);
    out.push(DOUBLE_QUOTE_BITS);
    push_bytes(out, key);
    out.push(DOUBLE_QUOTE_BITS);
    out.push(NEW_LINE_BITS);
    out.push(U_BITS);
    out.push(COLON_BITS);
    write_spans(out, &id.usernames);
    out.push(NEW_LINE_BITS);
    out.push(E_BITS);
    out.push(COLON_BITS);
    write_spans(out, &id.emails);
    out.push(NEW_LINE_BITS);
    proof {
        assert(out@ =~= mid + render_record(key@, id@));
    }
}

impl LocalAuthorStoragePerf {
    /// The full on-disk text of this store's records, in entry order. A
    /// rewrite that must keep comments goes through the line-wise rewriters
    /// instead.
    pub fn serialize(&self) -> (r: Vec<u8>)
        ensures
            r@ == render_store(self@),
    {
        let mut out: Vec<u8> = Vec::new();
        let mut i: usize = 0;
        proof {
            assert(self@.subrange(0, 0) =~= Seq::<EntryView>::empty());
            assert(out@ =~= Seq::<u8>::empty());
        }
        while i < self.identities.len()
            invariant
                i <= self@.len(),
                self@.len() == self.identities@.len(),
                out@ == render_store(self@.subrange(0, i as int)),
            decreases self@.len() - i,
        {
            let ghost mid = out@;
            let ghost e = self@[i as int];
            write_record(&mut out, self.identities[i].0.as_slice(), &self.identities[i].1);
            proof {
                lemma_render_store_snoc(self@, i as int);
                assert(out@ == mid + render_record(e.0, e.1));
            }
            i = i + 1;
        }
        proof {
            assert(self@.subrange(0, self@.len() as int) =~= self@);
        }
        out
    }
}

/// Parses a whole store file image into the in-memory store: a single
/// forward scan over the newline-terminated lines. Where the file breaks the
/// grammar — an unterminated quote, an unrecognized marker, an email line
/// with no open key, a duplicate key, or a key left open at the end — the
/// scan stops with a format error.
pub fn process_las(memmap: &[u8]) -> (r: Result<LocalAuthorStoragePerf, StoreError>)
    ensures
        match r {
            Ok(las) => parse_store(memmap@) == Some(las@) && las.wf(),
            Err(e) => e == StoreError::Format && parse_store(memmap@) is None,
        },
{
    let mut las = LocalAuthorStoragePerf::new();
    let mut key_buf: Vec<Vec<u8>> = Vec::new();
    let mut uname_buf: Vec<Vec<u8>> = Vec::new();
    let mut s: usize = 0;
    proof {
        assert(views_of(key_buf@) =~= Seq::<Seq<u8>>::empty());
        assert(views_of(uname_buf@) =~= Seq::<Seq<u8>>::empty());
        assert(memmap@.subrange(0, memmap@.len() as int) =~= memmap@);
    }
    loop
        invariant
            s <= memmap@.len(),
            las.wf(),
            parse_lines(initial_state(), memmap@) == parse_lines(
                ParseState {
                    entries: las@,
                    pending_keys: views_of(key_buf@),
                    pending_usernames: views_of(uname_buf@),
                },
                memmap@.subrange(s as int, memmap@.len() as int),
            ),
        decreases memmap@.len() - s,
    {
        let ghost rest = memmap@.subrange(s as int, memmap@.len() as int);
        let ghost st = ParseState {
            entries: las@,
            pending_keys: views_of(key_buf@),
            pending_usernames: views_of(uname_buf@),
        };
        let nl = match find_byte(memmap, NEW_LINE_BITS, s) {
            Some(nl) => nl,
            None => {
                proof {
                    lemma_find_from_spec(memmap@, NEW_LINE_BITS, s as int);
                    lemma_find_from_none(rest, NEW_LINE_BITS, 0);
                    assert(parse_lines(st, rest) == Some(st));
                }
                if key_buf.len() > 0 || uname_buf.len() > 0 {
                    proof {
                        assert(views_of(key_buf@).len() == key_buf@.len());
                        assert(views_of(uname_buf@).len() == uname_buf@.len());
                    }
                    return Err(StoreError::Format);
                }
                proof {
                    assert(views_of(key_buf@).len() == 0);
                    assert(views_of(uname_buf@).len() == 0);
                }
                return Ok(las);
            },
        };
        proof {
            lemma_find_from_spec(memmap@, NEW_LINE_BITS, s as int);
            lemma_find_from_is(rest, NEW_LINE_BITS, 0, nl - s);
            assert(rest.subrange(0, nl - s + 1) =~= memmap@.subrange(s as int, nl + 1));
            assert(rest.subrange(nl - s + 1, rest.len() as int) =~= memmap@.subrange(
                nl + 1,
                memmap@.len() as int,
            ));
        }
        let n = memmap.len();
        assert(nl < n);
        let line = slice_subrange(memmap, s, nl + 1);
        let ghost lv = line@;
        let b = line[0];
        if b == POUND_BITS {
            // comment line: no effect on the state
        } else if b == K_BITS {
            if line.len() < 3 {
                return Err(StoreError::Format);
            }
            match find_byte(line, DOUBLE_QUOTE_BITS, 3) {
                Some(q) => {
                    let ghost prev_keys = views_of(key_buf@);
                    let key = slice_to_vec(slice_subrange(line, 3, q));
                    key_buf.push(key);
                    proof {
                        assert(views_of(key_buf@) =~= prev_keys.push(lv.subrange(3, q as int)));
                    }
                },
                None => {
                    return Err(StoreError::Format);
                },
            }
        } else if b == U_BITS {
            match scan_spans(line, 2) {
                Some(mut vs) => {
                    let ghost prev_unames = views_of(uname_buf@);
                    let ghost added = views_of(vs@);
                    uname_buf.append(&mut vs);
                    proof {
                        assert(views_of(uname_buf@) =~= prev_unames + added);
                    }
                },
                None => {
                    return Err(StoreError::Format);
                },
            }
        } else if b == E_BITS {
            let es = match scan_spans(line, 2) {
                Some(v) => v,
                None => {
                    return Err(StoreError::Format);
                },
            };
            let k = match key_buf.pop() {
                Some(k) => k,
                None => {
                    proof {
                        assert(views_of(key_buf@).len() == key_buf@.len());
                    }
                    return Err(StoreError::Format);
                },
            };
            proof {
                let ghost old_keys = st.pending_keys;
                assert(old_keys.len() == key_buf@.len() + 1);
                assert(old_keys.last() == k@);
                assert(views_of(key_buf@) =~= old_keys.drop_last());
            }
            let id = IdentityPerf { usernames: uname_buf, emails: es };
            uname_buf = Vec::new();
            proof {
                assert(views_of(uname_buf@) =~= Seq::<Seq<u8>>::empty());
            }
            match las.add_identity(k, &id) {
                Ok(()) => {},
                Err(_) => {
                    return Err(StoreError::Format);
                },
            }
        } else {
            return Err(StoreError::Format);
        }
        s = nl + 1;
    }
}

/// Keys and every username and email of every entry are clean: no embedded
/// double quote, no embedded newline.
pub open spec fn clean_entries(entries: Seq<EntryView>) -> bool {
    forall|i: int|
        0 <= i < entries.len() ==> clean_bytes((#[trigger] entries[i]).0) && clean_list(
            entries[i].1.usernames,
        ) && clean_list(entries[i].1.emails)
}

/// Rendered spans contain no newline byte.
pub proof fn lemma_spans_text_no_newline(spans: Seq<Seq<u8>>)
    requires
        clean_list(spans),
    ensures
        forall|i: int| 0 <= i < spans_text(spans).len() ==> #[trigger] spans_text(spans)[i]
            != NEW_LINE_BITS,
    decreases spans.len(),
{
    if spans.len() == 0 {
    } else if spans.len() == 1 {
        assert(clean_bytes(spans[0]));
        let s0 = spans[0];
        assert forall|i: int| 0 <= i < spans_text(spans).len() implies #[trigger] spans_text(
            spans,
        )[i] != NEW_LINE_BITS by {
            if 1 <= i <= s0.len() {
                assert(quoted(s0)[i] == s0[i - 1]);
            }
        }
    } else {
        assert(clean_bytes(spans[0]));
        let s0 = spans[0];
        let rest = spans.drop_first();
        assert(clean_list(rest)) by {
            assert(forall|i: int| 0 <= i < rest.len() ==> #[trigger] rest[i] == spans[i + 1]);
        }
        lemma_spans_text_no_newline(rest);
        let head = quoted(s0) + seq![SPACE_BITS];
        assert forall|i: int| 0 <= i < spans_text(spans).len() implies #[trigger] spans_text(
            spans,
        )[i] != NEW_LINE_BITS by {
            assert(spans_text(spans) =~= head + spans_text(rest));
            if i < head.len() {
                assert(spans_text(spans)[i] == head[i]);
                if 1 <= i <= s0.len() {
                    assert(head[i] == s0[i - 1]);
                }
            } else {
                assert(spans_text(spans)[i] == spans_text(rest)[i - head.len()]);
            }
        }
    }
}

/// A rendered span list, followed by the line's newline, parses back to
/// exactly those spans, whether or not a separating space leads in.
proof fn lemma_spans_text_parses(line: Seq<u8>, c: int, ss: Seq<Seq<u8>>, lead: bool)
    requires
        clean_list(ss),
        0 <= c <= line.len(),
        line.subrange(c, line.len() as int) == (if lead && ss.len() > 0 {
            seq![SPACE_BITS]
        } else {
            Seq::<u8>::empty()
        }) + spans_text(ss) + seq![NEW_LINE_BITS],
    ensures
        line_spans(line, c) == Some(ss),
    decreases ss.len(),
{
    let suffix = line.subrange(c, line.len() as int);
    if ss.len() == 0 {
        assert(suffix =~= seq![NEW_LINE_BITS]);
        assert(line.len() - c == 1);
        assert(line[c] == suffix[0]);
        assert(line_spans(line, c) == Some(Seq::<Seq<u8>>::empty()));
        assert(ss =~= Seq::<Seq<u8>>::empty());
    } else {
        let s0 = ss[0];
        assert(clean_bytes(s0));
        let pad: int = if lead { 1 } else { 0 };
        let tail: Seq<u8> = if ss.len() == 1 {
            Seq::empty()
        } else {
            seq![SPACE_BITS] + spans_text(ss.drop_first())
        };
        assert(spans_text(ss) =~= quoted(s0) + tail);
        assert(suffix =~= (if lead {
            seq![SPACE_BITS]
        } else {
            Seq::<u8>::empty()
        }) + quoted(s0) + tail + seq![NEW_LINE_BITS]);
        // layout: [pad?] DQ s0 DQ tail NL
        let start = c + pad + 1;
        let q = start + s0.len();
        assert(line.len() == c + pad + s0.len() + 2 + tail.len() + 1);
        assert forall|t: int| start <= t < q implies line[t] == s0[t - start] by {
            assert(line[t] == suffix[t - c]);
        }
        assert(line[c + pad] == suffix[pad]);
        assert(suffix[pad] == DOUBLE_QUOTE_BITS);
        assert(line[q] == suffix[q - c]);
        assert(suffix[q - c] == DOUBLE_QUOTE_BITS);
        assert forall|t: int| start <= t < q implies line[t] != DOUBLE_QUOTE_BITS by {
            assert(line[t] == s0[t - start]);
        }
        if lead {
            assert(line[c] == suffix[0]);
            assert(suffix[0] == SPACE_BITS);
            assert(line_spans(line, c) == open_quote_spans(line, c));
            assert(open_quote_spans(line, c) == open_quote_spans(line, c + 1));
            assert(open_quote_spans(line, c + 1) == close_quote_spans(line, start, start));
        } else {
            assert(line[c] == DOUBLE_QUOTE_BITS);
            assert(line_spans(line, c) == open_quote_spans(line, c));
            assert(open_quote_spans(line, c) == close_quote_spans(line, start, start));
        }
        lemma_close_scan(line, start, start, q);
        assert(line.subrange(start, q) =~= s0);
        // the rest of the line parses to the remaining spans
        let rest = ss.drop_first();
        assert(clean_list(rest)) by {
            assert(forall|i: int| 0 <= i < rest.len() ==> #[trigger] rest[i] == ss[i + 1]);
        }
        assert(line.subrange(q + 1, line.len() as int) =~= suffix.subrange(
            q + 1 - c,
            suffix.len() as int,
        ));
        assert(suffix.subrange(q + 1 - c, suffix.len() as int) =~= tail + seq![NEW_LINE_BITS]);
        if rest.len() > 0 {
            assert((seq![SPACE_BITS] + spans_text(rest)) + seq![NEW_LINE_BITS] =~= tail + seq![
                NEW_LINE_BITS,
            ]);
        } else {
            assert(spans_text(rest) =~= Seq::<u8>::empty());
            assert((Seq::<u8>::empty() + spans_text(rest)) + seq![NEW_LINE_BITS] =~= tail + seq![
                NEW_LINE_BITS,
            ]);
        }
        assert(line.subrange(q + 1, line.len() as int) == (if rest.len() > 0 {
            seq![SPACE_BITS]
        } else {
            Seq::<u8>::empty()
        }) + spans_text(rest) + seq![NEW_LINE_BITS]);
        lemma_spans_text_parses(line, q + 1, rest, true);
        assert(line_spans(line, q + 1) == Some(rest));
        assert(seq![s0] + rest =~= ss);
        assert(line_spans(line, c) == Some(seq![line.subrange(start, q)] + rest));
    }
}

/// One rendered record advances the parser by exactly its insertion.
#[verifier::rlimit(60)]
proof fn lemma_record_parses(st: ParseState, k: Seq<u8>, id: IdentityView, rest: Seq<u8>)
    requires
        clean_bytes(k),
        clean_list(id.usernames),
        clean_list(id.emails),
        !has_key(st.entries, k),
        st.pending_usernames == Seq::<Seq<u8>>::empty(),
    ensures
        parse_lines(st, render_record(k, id) + rest) == parse_lines(
            ParseState {
                entries: store_insert(st.entries, k, id),
                pending_keys: st.pending_keys,
                pending_usernames: Seq::empty(),
            },
            rest,
        ),
{
    let bytes = render_record(k, id) + rest;
    let uline = seq![U_BITS, COLON_BITS] + spans_text(id.usernames) + seq![NEW_LINE_BITS];
    let eline = seq![E_BITS, COLON_BITS] + spans_text(id.emails) + seq![NEW_LINE_BITS];
    let kline = seq![K_BITS, COLON_BITS] + quoted(k) + seq![NEW_LINE_BITS];
    assert(bytes =~= kline + uline + eline + rest);
    lemma_spans_text_no_newline(id.usernames);
    lemma_spans_text_no_newline(id.emails);

    // line one: the key line
    let nl1 = k.len() + 4int;
    assert(bytes[nl1] == NEW_LINE_BITS);
    assert forall|j: int| 0 <= j < nl1 implies bytes[j] != NEW_LINE_BITS by {
        if 3 <= j < 3 + k.len() {
            assert(bytes[j] == k[j - 3]);
        }
    }
    lemma_find_from_is(bytes, NEW_LINE_BITS, 0, nl1);
    let line1 = bytes.subrange(0, nl1 + 1);
    assert(line1 =~= kline);
    assert(line1[0] == K_BITS);
    assert(line1[3 + k.len() as int] == DOUBLE_QUOTE_BITS);
    assert forall|j: int| 3 <= j < 3 + k.len() implies line1[j] != DOUBLE_QUOTE_BITS by {
        assert(line1[j] == k[j - 3]);
    }
    lemma_find_from_is(line1, DOUBLE_QUOTE_BITS, 3, 3 + k.len() as int);
    assert(line1.subrange(3, 3 + k.len() as int) =~= k);
    assert(key_of_line(line1) == Some(k));
    let st1 = ParseState { pending_keys: st.pending_keys.push(k), ..st };
    assert(parse_line(st, line1) == Some(st1));
    let rest1 = bytes.subrange(nl1 + 1, bytes.len() as int);
    assert(rest1 =~= uline + eline + rest);
    assert(parse_lines(st, bytes) == parse_lines(st1, rest1));

    // line two: the usernames line
    let nl2: int = 2 + spans_text(id.usernames).len() as int;
    assert(rest1[nl2] == NEW_LINE_BITS);
    assert forall|j: int| 0 <= j < nl2 implies rest1[j] != NEW_LINE_BITS by {
        if j >= 2 {
            assert(rest1[j] == spans_text(id.usernames)[j - 2]);
        }
    }
    lemma_find_from_is(rest1, NEW_LINE_BITS, 0, nl2);
    let line2 = rest1.subrange(0, nl2 + 1);
    assert(line2 =~= uline);
    assert(line2[0] == U_BITS);
    assert(line2.subrange(2, line2.len() as int) =~= spans_text(id.usernames) + seq![
        NEW_LINE_BITS,
    ]);
    lemma_spans_text_parses(line2, 2, id.usernames, false);
    let st2 = ParseState { pending_usernames: st1.pending_usernames + id.usernames, ..st1 };
    assert(parse_line(st1, line2) == Some(st2));
    let rest2 = rest1.subrange(nl2 + 1, rest1.len() as int);
    assert(rest2 =~= eline + rest);
    assert(parse_lines(st1, rest1) == parse_lines(st2, rest2));

    // line three: the emails line
    let nl3: int = 2 + spans_text(id.emails).len() as int;
    assert(rest2[nl3] == NEW_LINE_BITS);
    assert forall|j: int| 0 <= j < nl3 implies rest2[j] != NEW_LINE_BITS by {
        if j >= 2 {
            assert(rest2[j] == spans_text(id.emails)[j - 2]);
        }
    }
    lemma_find_from_is(rest2, NEW_LINE_BITS, 0, nl3);
    let line3 = rest2.subrange(0, nl3 + 1);
    assert(line3 =~= eline);
    assert(line3[0] == E_BITS);
    assert(line3.subrange(2, line3.len() as int) =~= spans_text(id.emails) + seq![NEW_LINE_BITS]);
    lemma_spans_text_parses(line3, 2, id.emails, false);
    assert(st2.pending_keys.len() > 0);
    assert(st2.pending_keys.last() == k);
    assert(st2.pending_usernames =~= id.usernames);
    assert(IdentityView { usernames: st2.pending_usernames, emails: id.emails } =~= id);
    let st3 = ParseState {
        entries: store_insert(st.entries, k, id),
        pending_keys: st.pending_keys,
        pending_usernames: Seq::empty(),
    };
    assert(st2.pending_keys.drop_last() =~= st.pending_keys);
    assert(parse_line(st2, line3) == Some(st3));
    let rest3 = rest2.subrange(nl3 + 1, rest2.len() as int);
    assert(rest3 =~= rest);
    assert(parse_lines(st2, rest2) == parse_lines(st3, rest3));
}

/// Parsing the rendered records extends the accumulated entries by exactly
/// those records, as long as every accumulated key sorts below every
/// rendered one.
proof fn lemma_render_parses(acc: Seq<EntryView>, entries: Seq<EntryView>)
    requires
        sorted_by_key(acc),
        sorted_by_key(entries),
        clean_entries(entries),
        forall|a: int, b: int|
            0 <= a < acc.len() && 0 <= b < entries.len() ==> crate::bytes::lex_lt(
                (#[trigger] acc[a]).0,
                (#[trigger] entries[b]).0,
            ),
    ensures
        parse_lines(
            ParseState { entries: acc, pending_keys: Seq::empty(), pending_usernames: Seq::empty() },
            render_store(entries),
        ) == Some(
            ParseState {
                entries: acc + entries,
                pending_keys: Seq::empty(),
                pending_usernames: Seq::empty(),
            },
        ),
    decreases entries.len(),
{
    let st = ParseState {
        entries: acc,
        pending_keys: Seq::<Seq<u8>>::empty(),
        pending_usernames: Seq::<Seq<u8>>::empty(),
    };
    if entries.len() == 0 {
        assert(render_store(entries) =~= Seq::<u8>::empty());
        assert(find_from(Seq::<u8>::empty(), NEW_LINE_BITS, 0) == -1);
        assert(parse_lines(st, Seq::<u8>::empty()) == Some(st));
        assert(acc + entries =~= acc);
        assert(st =~= ParseState {
            entries: acc + entries,
            pending_keys: Seq::empty(),
            pending_usernames: Seq::empty(),
        });
    } else {
        let e0 = entries[0];
        let d = entries.drop_first();
        assert(!has_key(acc, e0.0)) by {
            assert forall|i: int| 0 <= i < acc.len() implies (#[trigger] acc[i]).0 != e0.0 by {
                crate::bytes::lemma_lex_irrefl(e0.0);
            }
        }
        assert(clean_bytes(e0.0) && clean_list(e0.1.usernames) && clean_list(e0.1.emails));
        lemma_record_parses(st, e0.0, e0.1, render_store(d));
        // the fresh key lands at the end of the accumulated entries
        crate::store::lemma_insert_index_is(acc, e0.0, acc.len() as int);
        let acc2 = store_insert(acc, e0.0, e0.1);
        assert(acc2 =~= acc.push(e0));
        assert(sorted_by_key(acc2)) by {
            assert forall|a: int, b: int|
                0 <= a < b < acc2.len() implies crate::bytes::lex_lt(
                (#[trigger] acc2[a]).0,
                (#[trigger] acc2[b]).0,
            ) by {
                if b == acc2.len() - 1 {
                    assert(acc2[a] == acc[a]);
                    assert(acc2[b] == e0);
                } else {
                    assert(acc2[a] == acc[a]);
                    assert(acc2[b] == acc[b]);
                }
            }
        }
        assert(sorted_by_key(d)) by {
            assert(forall|i: int| 0 <= i < d.len() ==> #[trigger] d[i] == entries[i + 1]);
        }
        assert(clean_entries(d)) by {
            assert(forall|i: int| 0 <= i < d.len() ==> #[trigger] d[i] == entries[i + 1]);
        }
        assert forall|a: int, b: int|
            0 <= a < acc2.len() && 0 <= b < d.len() implies crate::bytes::lex_lt(
            (#[trigger] acc2[a]).0,
            (#[trigger] d[b]).0,
        ) by {
            assert(d[b] == entries[b + 1]);
            if a < acc.len() {
                assert(acc2[a] == acc[a]);
            } else {
                assert(acc2[a] == e0);
            }
        }
        lemma_render_parses(acc2, d);
        assert(render_store(entries) =~= render_record(e0.0, e0.1) + render_store(d));
        assert(acc2 + d =~= acc + entries);
    }
}

/// Round trip: a well-formed store whose keys, usernames and emails embed no
/// double quote and no newline, and whose lists each hold at least one
/// entry, is reproduced exactly by parsing its own rendering.
pub proof fn law_store_round_trip(entries: Seq<EntryView>)
    requires
        sorted_by_key(entries),
        clean_entries(entries),
        forall|i: int|
            0 <= i < entries.len() ==> (#[trigger] entries[i]).1.usernames.len() > 0 && entries[
                i
            ].1.emails.len() > 0,
    ensures
        parse_store(render_store(entries)) == Some(entries),
{
    lemma_render_parses(Seq::empty(), entries);
    assert(initial_state() =~= ParseState {
        entries: Seq::empty(),
        pending_keys: Seq::empty(),
        pending_usernames: Seq::empty(),
    });
    assert(Seq::<EntryView>::empty() + entries =~= entries);
}

} // verus!
