//! The storage format: a JSON-shaped snapshot
//! `{"list":[{"content":"...","state":"NotFinished"|"Finished"},...]}`.
//! The writer and the reader are both specified against the spec-level
//! grammar below, and parsing a written snapshot is proved to yield exactly
//! the items that were written.

use vstd::prelude::*;

use crate::error::TodoError;
use crate::text::push_char;
use crate::todo::TodoItem;
use crate::todo::TodoItemState;
use crate::todo::TodoList;

verus! {

// ---------------------------------------------------------------------------
// The written form.
// ---------------------------------------------------------------------------
/// How one character of item text is written: quotes and backslashes get a
/// backslash escape, everything else stands for itself.
pub open spec fn esc_char(c: char) -> Seq<char> {
    if c == '"' || c == '\\' {
        seq!['\\', c]
    } else {
        seq![c]
    }
}

/// The written form of a piece of item text.
pub open spec fn esc_string(s: Seq<char>) -> Seq<char>
    decreases s.len(),
{
    if s.len() == 0 {
        Seq::empty()
    } else {
        esc_char(s[0]) + esc_string(s.drop_first())
    }
}

/// The word naming a completion state.
pub open spec fn state_word(done: bool) -> Seq<char> {
    if done {
        seq!['F', 'i', 'n', 'i', 's', 'h', 'e', 'd']
    } else {
        seq!['N', 'o', 't', 'F', 'i', 'n', 'i', 's', 'h', 'e', 'd']
    }
}

pub open spec fn tok_item_open() -> Seq<char> {
    seq!['{', '"', 'c', 'o', 'n', 't', 'e', 'n', 't', '"', ':', '"']
}

pub open spec fn tok_item_mid() -> Seq<char> {
    seq![',', '"', 's', 't', 'a', 't', 'e', '"', ':', '"']
}

pub open spec fn tok_item_close() -> Seq<char> {
    seq!['"', '}']
}

pub open spec fn tok_list_open() -> Seq<char> {
    seq!['{', '"', 'l', 'i', 's', 't', '"', ':', '[']
}

/// The written form of one item.
pub open spec fn ser_item(m: (Seq<char>, bool)) -> Seq<char> {
    tok_item_open() + esc_string(m.0) + seq!['"'] + tok_item_mid() + state_word(m.1)
        + tok_item_close()
}

/// The written forms of the items, separated by commas.
pub open spec fn ser_items(ms: Seq<(Seq<char>, bool)>) -> Seq<char>
    decreases ms.len(),
{
    if ms.len() == 0 {
        Seq::empty()
    } else if ms.len() == 1 {
        ser_item(ms[0])
    } else {
        ser_item(ms[0]) + seq![','] + ser_items(ms.drop_first())
    }
}

/// The written form of a whole list.
pub open spec fn ser_list(ms: Seq<(Seq<char>, bool)>) -> Seq<char> {
    tok_list_open() + ser_items(ms) + seq![']', '}']
}

// ---------------------------------------------------------------------------
// Reading the written form back.  Each function takes the text still to be
// read and yields the parsed value together with the text left over.
// ---------------------------------------------------------------------------
pub open spec fn is_ws(c: char) -> bool {
    c == ' ' || c == '\n' || c == '\r' || c == '\t'
}

/// The text with its leading whitespace dropped.
pub open spec fn trim_front(s: Seq<char>) -> Seq<char>
    decreases s.len(),
{
    if s.len() > 0 && is_ws(s[0]) {
        trim_front(s.drop_first())
    } else {
        s
    }
}

pub open spec fn starts_with(s: Seq<char>, tok: Seq<char>) -> bool {
    tok.len() <= s.len() && s.take(tok.len() as int) == tok
}

/// Reads a string body up to and including its closing quote, undoing the
/// escapes; fails on a stray backslash or a missing closing quote.
pub open spec fn p_strbody(s: Seq<char>) -> Option<(Seq<char>, Seq<char>)>
    decreases s.len(),
{
    if s.len() == 0 {
        None
    } else if s[0] == '"' {
        Some((Seq::empty(), s.drop_first()))
    } else if s[0] == '\\' {
        if s.len() >= 2 && (s[1] == '"' || s[1] == '\\') {
            match p_strbody(s.skip(2)) {
                Some((c, r)) => Some((seq![s[1]] + c, r)),
                None => None,
            }
        } else {
            None
        }
    } else {
        match p_strbody(s.drop_first()) {
            Some((c, r)) => Some((seq![s[0]] + c, r)),
            None => None,
        }
    }
}

/// Reads one item.
pub open spec fn p_item(s: Seq<char>) -> Option<((Seq<char>, bool), Seq<char>)> {
    if !starts_with(s, tok_item_open()) {
        None
    } else {
        match p_strbody(s.skip(tok_item_open().len() as int)) {
            Some((content, r1)) => {
                if !starts_with(r1, tok_item_mid()) {
                    None
                } else {
                    let r2 = r1.skip(tok_item_mid().len() as int);
                    let fin = state_word(true) + tok_item_close();
                    let notfin = state_word(false) + tok_item_close();
                    if starts_with(r2, fin) {
                        Some(((content, true), r2.skip(fin.len() as int)))
                    } else if starts_with(r2, notfin) {
                        Some(((content, false), r2.skip(notfin.len() as int)))
                    } else {
                        None
                    }
                }
            },
            None => None,
        }
    }
}

/// Reads a non-empty comma-separated run of items up to and including the
/// closing bracket.
pub open spec fn p_items_ne(s: Seq<char>) -> Option<(Seq<(Seq<char>, bool)>, Seq<char>)>
    decreases s.len(),
{
    match p_item(s) {
        Some((m, r)) => {
            if r.len() < s.len() {
                if r.len() > 0 && r[0] == ',' {
                    match p_items_ne(r.drop_first()) {
                        Some((ms, r2)) => Some((seq![m] + ms, r2)),
                        None => None,
                    }
                } else if r.len() > 0 && r[0] == ']' {
                    Some((seq![m], r.drop_first()))
                } else {
                    None
                }
            } else {
                None
            }
        },
        None => None,
    }
}

/// Reads the items between `[` and `]`, the brackets' inside already started.
pub open spec fn p_items(s: Seq<char>) -> Option<(Seq<(Seq<char>, bool)>, Seq<char>)> {
    if s.len() > 0 && s[0] == ']' {
        Some((Seq::empty(), s.drop_first()))
    } else {
        p_items_ne(s)
    }
}

/// Reads a whole stored snapshot: optional surrounding whitespace, then
/// exactly one list object.
pub open spec fn p_list(s: Seq<char>) -> Option<Seq<(Seq<char>, bool)>> {
    let t = trim_front(s);
    if !starts_with(t, tok_list_open()) {
        None
    } else {
        match p_items(t.skip(tok_list_open().len() as int)) {
            Some((ms, r)) => {
                if r.len() > 0 && r[0] == '}' && trim_front(r.drop_first()).len() == 0 {
                    Some(ms)
                } else {
                    None
                }
            },
            None => None,
        }
    }
}

// ---------------------------------------------------------------------------
// Round trip: reading back what was written yields the same items.
// ---------------------------------------------------------------------------
proof fn lemma_rt_strbody(c: Seq<char>, tail: Seq<char>)
    ensures
        p_strbody(esc_string(c) + seq!['"'] + tail) == Some((c, tail)),
    decreases c.len(),
{
    let s = esc_string(c) + seq!['"'] + tail;
    if c.len() == 0 {
        assert(s =~= seq!['"'] + tail);
        assert(s[0] == '"');
        assert(s.drop_first() =~= tail);
        assert(Seq::<char>::empty() =~= c);
    } else {
        let c0 = c[0];
        let rest = c.drop_first();
        lemma_rt_strbody(rest, tail);
        assert(esc_string(c) == esc_char(c0) + esc_string(rest));
        if c0 == '"' || c0 == '\\' {
            assert(s[0] == '\\');
            assert(s[1] == c0);
            assert(s.len() >= 2);
            assert(s.skip(2) =~= esc_string(rest) + seq!['"'] + tail);
            assert(seq![c0] + rest =~= c);
        } else {
            assert(s[0] == c0);
            assert(s.drop_first() =~= esc_string(rest) + seq!['"'] + tail);
            assert(seq![c0] + rest =~= c);
        }
    }
}

proof fn lemma_rt_item(m: (Seq<char>, bool), tail: Seq<char>)
    ensures
        p_item(ser_item(m) + tail) == Some((m, tail)),
        ser_item(m).len() >= 1,
        (ser_item(m) + tail)[0] == '{',
{
    let s = ser_item(m) + tail;
    assert(s.take(tok_item_open().len() as int) =~= tok_item_open());
    assert(starts_with(s, tok_item_open()));
    let strtail = tok_item_mid() + state_word(m.1) + tok_item_close() + tail;
    assert(s.skip(tok_item_open().len() as int) =~= esc_string(m.0) + seq!['"'] + strtail);
    lemma_rt_strbody(m.0, strtail);
    assert(p_strbody(s.skip(tok_item_open().len() as int)) == Some((m.0, strtail)));
    assert(strtail.take(tok_item_mid().len() as int) =~= tok_item_mid());
    assert(starts_with(strtail, tok_item_mid()));
    let r2 = state_word(m.1) + tok_item_close() + tail;
    assert(strtail.skip(tok_item_mid().len() as int) =~= r2);
    let fin = state_word(true) + tok_item_close();
    let notfin = state_word(false) + tok_item_close();
    if m.1 {
        assert(r2.take(fin.len() as int) =~= fin);
        assert(starts_with(r2, fin));
        assert(r2.skip(fin.len() as int) =~= tail);
        assert(m == (m.0, true));
    } else {
        if starts_with(r2, fin) {
            assert(r2.take(fin.len() as int)[0] == fin[0]);
            assert(r2[0] == 'N');
            assert(fin[0] == 'F');
            assert(false);
        }
        assert(r2.take(notfin.len() as int) =~= notfin);
        assert(starts_with(r2, notfin));
        assert(r2.skip(notfin.len() as int) =~= tail);
        assert(m == (m.0, false));
    }
    assert(s[0] == '{');
}

proof fn lemma_rt_items_ne(ms: Seq<(Seq<char>, bool)>, tail: Seq<char>)
    requires
        ms.len() >= 1,
    ensures
        p_items_ne(ser_items(ms) + seq![']'] + tail) == Some((ms, tail)),
    decreases ms.len(),
{
    let s = ser_items(ms) + seq![']'] + tail;
    if ms.len() == 1 {
        let r = seq![']'] + tail;
        lemma_rt_item(ms[0], r);
        assert(s =~= ser_item(ms[0]) + r);
        assert(p_item(s) == Some((ms[0], r)));
        assert(r.len() < s.len());
        assert(r[0] == ']');
        assert(r.drop_first() =~= tail);
        assert(seq![ms[0]] =~= ms);
    } else {
        let r = seq![','] + ser_items(ms.drop_first()) + seq![']'] + tail;
        lemma_rt_item(ms[0], r);
        assert(s =~= ser_item(ms[0]) + r);
        assert(p_item(s) == Some((ms[0], r)));
        assert(r.len() < s.len());
        assert(r[0] == ',');
        assert(r.drop_first() =~= ser_items(ms.drop_first()) + seq![']'] + tail);
        lemma_rt_items_ne(ms.drop_first(), tail);
        assert(seq![ms[0]] + ms.drop_first() =~= ms);
    }
}

proof fn lemma_rt_items(ms: Seq<(Seq<char>, bool)>, tail: Seq<char>)
    ensures
        p_items(ser_items(ms) + seq![']'] + tail) == Some((ms, tail)),
{
    let s = ser_items(ms) + seq![']'] + tail;
    if ms.len() == 0 {
        assert(s =~= seq![']'] + tail);
        assert(s[0] == ']');
        assert(s.drop_first() =~= tail);
        assert(Seq::<(Seq<char>, bool)>::empty() =~= ms);
    } else {
        lemma_rt_item(ms[0], if ms.len() == 1 {
            seq![']'] + tail
        } else {
            seq![','] + ser_items(ms.drop_first()) + seq![']'] + tail
        });
        assert(ser_item(ms[0])[0] == '{');
        assert(s[0] == '{');
        lemma_rt_items_ne(ms, tail);
    }
}

// ---------------------------------------------------------------------------
// The writer.
// ---------------------------------------------------------------------------
proof fn lemma_esc_string_snoc(s: Seq<char>, j: int)
    requires
        0 <= j < s.len(),
    ensures
        esc_string(s.take(j + 1)) == esc_string(s.take(j)) + esc_char(s[j]),
    decreases j,
{
    if j == 0 {
        assert(s.take(1) =~= seq![s[0]]);
        assert(s.take(1).drop_first() =~= Seq::<char>::empty());
        assert(s.take(0) =~= Seq::<char>::empty());
        assert(Seq::<char>::empty() + esc_char(s[0]) =~= esc_char(s[0]) + Seq::<char>::empty());
        assert(esc_string(s.take(1)) =~= esc_string(s.take(0)) + esc_char(s[0]));
    } else {
        let d = s.drop_first();
        lemma_esc_string_snoc(d, j - 1);
        assert(s.take(j + 1).drop_first() =~= d.take(j));
        assert(s.take(j).drop_first() =~= d.take(j - 1));
        assert(s.take(j + 1)[0] == s[0]);
        assert(s.take(j)[0] == s[0]);
        assert(d[j - 1] == s[j]);
        assert(esc_string(s.take(j + 1)) == esc_char(s[0]) + (esc_string(d.take(j - 1))
            + esc_char(s[j])));
        assert(esc_char(s[0]) + (esc_string(d.take(j - 1)) + esc_char(s[j])) =~= (esc_char(s[0])
            + esc_string(d.take(j - 1))) + esc_char(s[j]));
    }
}

proof fn lemma_ser_items_snoc(ms: Seq<(Seq<char>, bool)>, i: int)
    requires
        0 <= i < ms.len(),
    ensures
        ser_items(ms.take(i + 1)) == if i == 0 {
            ser_item(ms[0])
        } else {
            ser_items(ms.take(i)) + seq![','] + ser_item(ms[i])
        },
    decreases i,
{
    if i == 0 {
        assert(ms.take(1) =~= seq![ms[0]]);
        assert(ms.take(1)[0] == ms[0]);
    } else {
        let d = ms.drop_first();
        lemma_ser_items_snoc(d, i - 1);
        assert(ms.take(i + 1).drop_first() =~= d.take(i));
        assert(ms.take(i).drop_first() =~= d.take(i - 1));
        assert(ms.take(i + 1)[0] == ms[0]);
        assert(ms.take(i)[0] == ms[0]);
        assert(d[i - 1] == ms[i]);
        assert(ser_items(ms.take(i + 1)) == ser_item(ms[0]) + seq![','] + ser_items(d.take(i)));
        if i == 1 {
            assert(ser_items(d.take(1)) == ser_item(ms[1]));
            assert(ser_item(ms[0]) + seq![','] + ser_items(d.take(1)) =~= ser_items(ms.take(1))
                + seq![','] + ser_item(ms[1]));
        } else {
            assert(ser_items(d.take(i)) == ser_items(d.take(i - 1)) + seq![','] + ser_item(
                ms[i],
            ));
            assert(ser_items(ms.take(i)) == ser_item(ms[0]) + seq![','] + ser_items(
                d.take(i - 1),
            ));
            assert(ser_item(ms[0]) + seq![','] + (ser_items(d.take(i - 1)) + seq![','] + ser_item(
                ms[i],
            )) =~= (ser_item(ms[0]) + seq![','] + ser_items(d.take(i - 1))) + seq![','] + ser_item(
                ms[i],
            ));
        }
    }
}

/// Appends the escaped form of `content` to `out`.
fn push_escaped(out: &mut String, content: &str)
    ensures
        final(out)@ == old(out)@ + esc_string(content@),
{
    let n = content.unicode_len();
    let mut j: usize = 0;
    while j < n
        invariant
            j <= n,
            n == content@.len(),
            out@ == old(out)@ + esc_string(content@.take(j as int)),
        decreases n - j,
    {
        let c = content.get_char(j);
        if c == '"' || c == '\\' {
            push_char(out, '\\');
            push_char(out, c);
        } else {
            push_char(out, c);
        }
        proof {
            lemma_esc_string_snoc(content@, j as int);
            assert(out@ =~= old(out)@ + esc_string(content@.take(j + 1)));
        }
        j += 1;
    }
    proof {
        assert(content@.take(n as int) =~= content@);
    }
}

/// Appends the written form of one item to `out`.
fn push_item(out: &mut String, it: &TodoItem)
    ensures
        final(out)@ == old(out)@ + ser_item(it@),
{
    out.append("{\"content\":\"");
    push_escaped(out, it.content.as_str());
    out.append("\",\"state\":\"");
    match it.state {
        TodoItemState::Finished => out.append("Finished\"}"),
        TodoItemState::NotFinished => out.append("NotFinished\"}"),
    }
    proof {
        reveal_strlit("{\"content\":\"");
        reveal_strlit("\",\"state\":\"");
        reveal_strlit("Finished\"}");
        reveal_strlit("NotFinished\"}");
        assert("{\"content\":\""@ =~= tok_item_open());
        assert("\",\"state\":\""@ =~= seq!['"'] + tok_item_mid());
        if it.state is Finished {
            assert("Finished\"}"@ =~= state_word(true) + tok_item_close());
        } else {
            assert("NotFinished\"}"@ =~= state_word(false) + tok_item_close());
        }
        assert(out@ =~= old(out)@ + ser_item(it@));
    }
}

impl TodoList {
    /// Writes the whole list in its stored form.
    pub fn serialize(&self) -> (r: String)
        ensures
            r@ == ser_list(self@),
    {
        let mut out = String::new();
        out.append("{\"list\":[");
        proof {
            reveal_strlit("{\"list\":[");
            assert("{\"list\":["@ =~= tok_list_open());
            assert(self@.take(0) =~= Seq::<(Seq<char>, bool)>::empty());
            assert(out@ =~= tok_list_open() + ser_items(self@.take(0)));
        }
        let mut i: usize = 0;
        while i < self.list.len()
            invariant
                i <= self.list@.len(),
                self@.len() == self.list@.len(),
                out@ == tok_list_open() + ser_items(self@.take(i as int)),
            decreases self.list@.len() - i,
        {
            if i > 0 {
                out.append(",");
            }
            push_item(&mut out, &self.list[i]);
            proof {
                reveal_strlit(",");
                assert(","@ =~= seq![',']);
                lemma_ser_items_snoc(self@, i as int);
                assert(self@[i as int] == self.list@[i as int]@);
                assert(out@ =~= tok_list_open() + ser_items(self@.take(i + 1)));
            }
            i += 1;
        }
        out.append("]}");
        proof {
            reveal_strlit("]}");
            assert("]}"@ =~= seq![']', '}']);
            assert(self@.take(self@.len() as int) =~= self@);
            assert(out@ =~= ser_list(self@));
        }
        out
    }
}

/// Law: a stored snapshot written for any sequence of items reads back as
/// exactly that sequence, text and completion flags alike.
pub proof fn lemma_round_trip(ms: Seq<(Seq<char>, bool)>)
    ensures
        p_list(ser_list(ms)) == Some(ms),
{
    let s = ser_list(ms);
    assert(s[0] == '{');
    assert(!is_ws(s[0]));
    assert(trim_front(s) == s);
    assert(s.take(tok_list_open().len() as int) =~= tok_list_open());
    assert(starts_with(s, tok_list_open()));
    assert(s.skip(tok_list_open().len() as int) =~= ser_items(ms) + seq![']'] + seq!['}']);
    lemma_rt_items(ms, seq!['}']);
    let r = seq!['}'];
    assert(r[0] == '}');
    assert(r.drop_first() =~= Seq::<char>::empty());
    assert(trim_front(r.drop_first()).len() == 0);
}

// ---------------------------------------------------------------------------
// The reader.
// ---------------------------------------------------------------------------
/// Whether the text at position `i` of `s` starts with `tok`.
fn match_at(s: &str, i: usize, tok: &str) -> (b: bool)
    requires
        i <= s@.len(),
    ensures
        b == starts_with(s@.skip(i as int), tok@),
{
    let n = s.unicode_len();
    let tn = tok.unicode_len();
    if tn > n - i {
        return false;
    }
    let mut k: usize = 0;
    while k < tn
        invariant
            k <= tn,
            i + tn <= n,
            n == s@.len(),
            tn == tok@.len(),
            forall|t: int| 0 <= t < k ==> s@[i + t] == tok@[t],
        decreases tn - k,
    {
        if s.get_char(i + k) != tok.get_char(k) {
            proof {
                if starts_with(s@.skip(i as int), tok@) {
                    assert(s@.skip(i as int).take(tok@.len() as int)[k as int] == tok@[k as int]);
                    assert(s@[i + k] == tok@[k as int]);
                }
            }
            return false;
        }
        k += 1;
    }
    proof {
        assert(s@.skip(i as int).take(tok@.len() as int) =~= tok@);
    }
    true
}

/// The position of the first non-whitespace character at or after `i`.
fn skip_ws(s: &str, i: usize) -> (j: usize)
    requires
        i <= s@.len(),
    ensures
        i <= j <= s@.len(),
        trim_front(s@.skip(i as int)) == s@.skip(j as int),
{
    let n = s.unicode_len();
    let mut j: usize = i;
    while j < n
        invariant_except_break
            i <= j <= n,
            n == s@.len(),
            trim_front(s@.skip(i as int)) == trim_front(s@.skip(j as int)),
        ensures
            i <= j <= n,
            n == s@.len(),
            trim_front(s@.skip(i as int)) == s@.skip(j as int),
        decreases n - j,
    {
        let c = s.get_char(j);
        if !(c == ' ' || c == '\n' || c == '\r' || c == '\t') {
            proof {
                assert(s@.skip(j as int)[0] == c);
                assert(!is_ws(s@.skip(j as int)[0]));
            }
            break;
        }
        proof {
            assert(s@.skip(j as int)[0] == c);
            assert(is_ws(s@.skip(j as int)[0]));
            assert(s@.skip(j as int).drop_first() =~= s@.skip(j + 1));
        }
        j += 1;
    }
    j
}

/// Reads a string body starting at `i`, undoing the escapes, up to and
/// including the closing quote.
fn parse_string_body(s: &str, i: usize) -> (r: Option<(String, usize)>)
    requires
        i <= s@.len(),
    ensures
        match r {
            Some(cj) => i < cj.1 <= s@.len() && p_strbody(s@.skip(i as int)) == Some(
                (cj.0@, s@.skip(cj.1 as int)),
            ),
            None => p_strbody(s@.skip(i as int)) is None,
        },
{
    let n = s.unicode_len();
    let mut out = String::new();
    let mut k: usize = i;
    while k < n
        invariant_except_break
            i <= k <= n,
            n == s@.len(),
            match p_strbody(s@.skip(k as int)) {
                Some(cr) => p_strbody(s@.skip(i as int)) == Some((out@ + cr.0, cr.1)),
                None => p_strbody(s@.skip(i as int)) is None,
            },
        ensures
            p_strbody(s@.skip(i as int)) is None,
        decreases n - k,
    {
        let c = s.get_char(k);
        proof {
            assert(s@.skip(k as int)[0] == c);
        }
        if c == '"' {
            proof {
                assert(s@.skip(k as int).drop_first() =~= s@.skip(k + 1));
                assert(p_strbody(s@.skip(k as int)) == Some(
                    (Seq::<char>::empty(), s@.skip(k + 1)),
                ));
                assert(out@ + Seq::<char>::empty() =~= out@);
            }
            return Some((out, k + 1));
        } else if c == '\\' {
            if k + 1 < n {
                let c2 = s.get_char(k + 1);
                proof {
                    assert(s@.skip(k as int).len() >= 2);
                    assert(s@.skip(k as int)[1] == c2);
                }
                if c2 == '"' || c2 == '\\' {
                    push_char(&mut out, c2);
                    proof {
                        assert(s@.skip(k as int).skip(2) =~= s@.skip(k + 2));
                        if p_strbody(s@.skip(k + 2)) is Some {
                            let c_rest = p_strbody(s@.skip(k + 2)).unwrap().0;
                            assert(p_strbody(s@.skip(k as int)).unwrap().0 == seq![c2] + c_rest);
                            assert(out@ + c_rest =~= (out@.drop_last() + (seq![c2] + c_rest)));
                            assert(out@.drop_last() =~= out@.subrange(0, out@.len() - 1));
                        }
                    }
                    k = k + 2;
                } else {
                    return None;
                }
            } else {
                proof {
                    assert(s@.skip(k as int).len() == 1);
                }
                return None;
            }
        } else {
            push_char(&mut out, c);
            proof {
                assert(s@.skip(k as int).drop_first() =~= s@.skip(k + 1));
                if p_strbody(s@.skip(k + 1)) is Some {
                    let c_rest = p_strbody(s@.skip(k + 1)).unwrap().0;
                    assert(p_strbody(s@.skip(k as int)).unwrap().0 == seq![c] + c_rest);
                    assert(out@ + c_rest =~= (out@.drop_last() + (seq![c] + c_rest)));
                }
            }
            k += 1;
        }
    }
    proof {
        assert(s@.skip(n as int).len() == 0);
    }
    None
}

/// Reads one item starting at `i`.
fn parse_item(s: &str, i: usize) -> (r: Option<(TodoItem, usize)>)
    requires
        i <= s@.len(),
    ensures
        match r {
            Some(itj) => i < itj.1 <= s@.len() && p_item(s@.skip(i as int)) == Some(
                (itj.0@, s@.skip(itj.1 as int)),
            ),
            None => p_item(s@.skip(i as int)) is None,
        },
{
    proof {
        reveal_strlit("{\"content\":\"");
        reveal_strlit(",\"state\":\"");
        reveal_strlit("Finished\"}");
        reveal_strlit("NotFinished\"}");
        assert("{\"content\":\""@ =~= tok_item_open());
        assert(",\"state\":\""@ =~= tok_item_mid());
        assert("Finished\"}"@ =~= state_word(true) + tok_item_close());
        assert("NotFinished\"}"@ =~= state_word(false) + tok_item_close());
    }
    let n = s.unicode_len();
    if !match_at(s, i, "{\"content\":\"") {
        return None;
    }
    assert(i + 12 <= n);
    let i2 = i + 12;
    proof {
        assert(s@.skip(i as int).skip(12) =~= s@.skip(i2 as int));
    }
    match parse_string_body(s, i2) {
        None => {
            return None;
        },
        Some((content, j)) => {
            if !match_at(s, j, ",\"state\":\"") {
                return None;
            }
            assert(j + 10 <= n);
            let j2 = j + 10;
            proof {
                assert(s@.skip(j as int).skip(10) =~= s@.skip(j2 as int));
            }
            if match_at(s, j2, "Finished\"}") {
                proof {
                    assert(s@.skip(j2 as int).skip(10) =~= s@.skip(j2 + 10));
                }
                let it = TodoItem { content, state: TodoItemState::Finished };
                return Some((it, j2 + 10));
            }
            if match_at(s, j2, "NotFinished\"}") {
                proof {
                    assert(s@.skip(j2 as int).skip(13) =~= s@.skip(j2 + 13));
                }
                let it = TodoItem { content, state: TodoItemState::NotFinished };
                return Some((it, j2 + 13));
            }
            None
        },
    }
}

/// Reads a whole stored snapshot.
fn parse_list(s: &str) -> (r: Option<Vec<TodoItem>>)
    ensures
        match r {
            Some(v) => p_list(s@) == Some(v@.map_values(|it: TodoItem| it@)),
            None => p_list(s@) is None,
        },
{
    proof {
        reveal_strlit("{\"list\":[");
        assert("{\"list\":["@ =~= tok_list_open());
        assert(s@.skip(0) =~= s@);
    }
    let n = s.unicode_len();
    let start = skip_ws(s, 0);
    if !match_at(s, start, "{\"list\":[") {
        return None;
    }
    let mut i = start + 9;
    proof {
        assert(s@.skip(start as int).skip(9) =~= s@.skip(i as int));
    }
    let ghost base = s@.skip(i as int);
    let mut items: Vec<TodoItem> = Vec::new();
    if i >= n {
        proof {
            assert(base.len() == 0);
        }
        return None;
    }
    let c = s.get_char(i);
    proof {
        assert(base[0] == c);
    }
    if c == ']' {
        i += 1;
        proof {
            assert(base.drop_first() =~= s@.skip(i as int));
            assert(p_items(base) == Some((Seq::<(Seq<char>, bool)>::empty(), s@.skip(i as int))));
            assert(items@.map_values(|it: TodoItem| it@) =~= Seq::<(Seq<char>, bool)>::empty());
        }
    } else {
        proof {
            assert(p_items(base) == p_items_ne(base));
        }
        loop
            invariant_except_break
                i <= n,
                n == s@.len(),
                start as int + 9 <= n as int,
                base == s@.skip(start as int + 9),
                trim_front(s@) == s@.skip(start as int),
                starts_with(s@.skip(start as int), tok_list_open()),
                p_items(base) == p_items_ne(base),
                match p_items_ne(s@.skip(i as int)) {
                    Some(msr) => p_items_ne(base) == Some(
                        (items@.map_values(|it: TodoItem| it@) + msr.0, msr.1),
                    ),
                    None => p_items_ne(base) is None,
                },
            ensures
                i <= n,
                n == s@.len(),
                p_items(base) == Some((items@.map_values(|it: TodoItem| it@), s@.skip(i as int))),
            decreases n - i,
        {
            let ghost items_before = items@;
            match parse_item(s, i) {
                None => {
                    proof {
                        assert(s@.skip(start as int).skip(9) =~= s@.skip(start as int + 9));
                        assert(p_list(s@) is None);
                    }
                    return None;
                },
                Some((it, j)) => {
                    let ghost itv = it@;
                    items.push(it);
                    proof {
                        assert(items@.map_values(|x: TodoItem| x@) =~= items_before.map_values(
                            |x: TodoItem| x@,
                        ).push(itv));
                    }
                    if j >= n {
                        proof {
                            assert(s@.skip(j as int).len() == 0);
                            assert(s@.skip(j as int).len() < s@.skip(i as int).len());
                            assert(s@.skip(start as int).skip(9) =~= s@.skip(start as int + 9));
                            assert(p_list(s@) is None);
                        }
                        return None;
                    }
                    let c2 = s.get_char(j);
                    proof {
                        assert(s@.skip(j as int)[0] == c2);
                        assert(s@.skip(j as int).len() < s@.skip(i as int).len());
                    }
                    if c2 == ',' {
                        proof {
                            assert(s@.skip(j as int).drop_first() =~= s@.skip(j + 1));
                            if p_items_ne(s@.skip(j + 1)) is Some {
                                let ms_rest = p_items_ne(s@.skip(j + 1)).unwrap().0;
                                assert(p_items_ne(s@.skip(i as int)).unwrap().0 == seq![itv]
                                    + ms_rest);
                                assert(items_before.map_values(|x: TodoItem| x@) + (seq![itv]
                                    + ms_rest) =~= items@.map_values(|x: TodoItem| x@) + ms_rest);
                            }
                        }
                        i = j + 1;
                    } else if c2 == ']' {
                        proof {
                            assert(s@.skip(j as int).drop_first() =~= s@.skip(j + 1));
                            assert(p_items_ne(s@.skip(i as int)) == Some(
                                (seq![itv], s@.skip(j + 1)),
                            ));
                            assert(items_before.map_values(|x: TodoItem| x@) + seq![itv]
                                =~= items@.map_values(|x: TodoItem| x@));
                        }
                        i = j + 1;
                        break;
                    } else {
                        proof {
                            assert(s@.skip(start as int).skip(9) =~= s@.skip(start as int + 9));
                            assert(p_list(s@) is None);
                        }
                        return None;
                    }
                },
            }
        }
    }
    // after the items: a closing brace, then nothing but whitespace
    if i >= n {
        proof {
            assert(s@.skip(i as int).len() == 0);
        }
        return None;
    }
    let c3 = s.get_char(i);
    proof {
        assert(s@.skip(i as int)[0] == c3);
    }
    if c3 != '}' {
        return None;
    }
    proof {
        assert(s@.skip(i as int).drop_first() =~= s@.skip(i + 1));
    }
    let j = skip_ws(s, i + 1);
    if j < n {
        proof {
            assert(trim_front(s@.skip(i + 1)).len() > 0);
        }
        return None;
    }
    proof {
        assert(trim_front(s@.skip(i + 1)) =~= s@.skip(j as int));
        assert(s@.skip(j as int).len() == 0);
    }
    Some(items)
}

/// What loading stored content yields: absent or empty content is an empty
/// list, anything else is read as a snapshot and rejected if malformed.
pub open spec fn load_spec(content: Option<Seq<char>>) -> Result<Seq<(Seq<char>, bool)>, TodoError> {
    match content {
        None => Ok(Seq::empty()),
        Some(cs) => {
            if cs.len() == 0 {
                Ok(Seq::empty())
            } else {
                match p_list(cs) {
                    Some(ms) => Ok(ms),
                    None => Err(TodoError::ParseError),
                }
            }
        },
    }
}

/// Law: what `serialize` writes for any sequence of items, `load` accepts
/// and maps back to exactly that sequence.
pub proof fn lemma_load_of_serialized(ms: Seq<(Seq<char>, bool)>)
    ensures
        load_spec(Some(ser_list(ms))) == Ok::<Seq<(Seq<char>, bool)>, TodoError>(ms),
{
    lemma_round_trip(ms);
    assert(ser_list(ms).len() > 0);
}

impl TodoList {
    /// Builds the list a stored snapshot describes.  `None` stands for
    /// storage that does not exist yet and yields an empty list, as does a
    /// zero-length snapshot; other content is parsed and a malformed
    /// snapshot is rejected.
    pub fn load(content: Option<&str>) -> (r: Result<TodoList, TodoError>)
        ensures
            match r {
                Ok(l) => ({
                    match content {
                        None => load_spec(None) == Ok::<Seq<(Seq<char>, bool)>, TodoError>(l@),
                        Some(s) => load_spec(Some(s@)) == Ok::<Seq<(Seq<char>, bool)>, TodoError>(
                            l@,
                        ),
                    }
                }),
                Err(e) => ({
                    match content {
                        None => load_spec(None) == Err::<Seq<(Seq<char>, bool)>, TodoError>(e),
                        Some(s) => load_spec(Some(s@)) == Err::<Seq<(Seq<char>, bool)>, TodoError>(
                            e,
                        ),
                    }
                }),
            },
    {
        match content {
            None => Ok(TodoList::new()),
            Some(s) => {
                if s.unicode_len() == 0 {
                    Ok(TodoList::new())
                } else {
                    match parse_list(s) {
                        Some(items) => {
                            let l = TodoList { list: items };
                            proof {
                                assert(l@ == items@.map_values(|it: TodoItem| it@));
                            }
                            Ok(l)
                        },
                        None => Err(TodoError::ParseError),
                    }
                }
            },
        }
    }
}

} // verus!
