//! The text codec of the persisted file.
//!
//! A collection is persisted as one structured document: an array of task
//! records, each holding the order number, the description (with `"` and
//! `\` escaped), and the completion flag, in that order. The serializer
//! writes the canonical form; the parser reads exactly the canonical form
//! back and is proved to recover whatever the serializer wrote.

use vstd::prelude::*;
use crate::task::{Todo, TaskModel, models};
use crate::text::{dec_digits, is_digit, sp_number, parse_number, fmt_usize};
use crate::store::{TodoList, wf_model};

verus! {

// --- the serialized form, as a spec ---

/// How one description character is written: `"` and `\` get a leading
/// backslash, everything else stands as itself.
pub open spec fn esc_char(c: char) -> Seq<char> {
    if c == '"' || c == '\\' {
        seq!['\\', c]
    } else {
        seq![c]
    }
}

/// A description with its escapes.
pub open spec fn esc(s: Seq<char>) -> Seq<char>
    decreases s.len(),
{
    if s.len() == 0 {
        Seq::empty()
    } else {
        esc_char(s[0]) + esc(s.drop_first())
    }
}

/// How a completion flag is written.
pub open spec fn ser_bool(b: bool) -> Seq<char> {
    if b {
        "true"@
    } else {
        "false"@
    }
}

/// How one task record is written.
pub open spec fn ser_task(t: TaskModel) -> Seq<char> {
    "{\"order_number\":"@ + dec_digits(t.order_number) + ",\"description\":\""@ + esc(
        t.description,
    ) + "\",\"done\":"@ + ser_bool(t.done) + "}"@
}

/// The records from position `j` on, each preceded by its separating comma.
pub open spec fn tail_items(m: Seq<TaskModel>, j: int) -> Seq<char>
    decreases m.len() - j,
{
    if j < 0 || j >= m.len() {
        Seq::empty()
    } else {
        ","@ + ser_task(m[j]) + tail_items(m, j + 1)
    }
}

/// How a whole collection is written.
pub open spec fn ser_model(m: Seq<TaskModel>) -> Seq<char> {
    if m.len() == 0 {
        "[]"@
    } else {
        "["@ + ser_task(m[0]) + tail_items(m, 1) + "]"@
    }
}

// --- the serializer ---

/// Appends `s` with its escapes.
fn append_escaped(out: &mut String, s: &str)
    ensures
        final(out)@ == old(out)@ + esc(s@),
{
    let len = s.unicode_len();
    proof {
        assert(s@.subrange(0, len as int) =~= s@);
    }
    let mut i: usize = 0;
    while i < len
        invariant
            i <= len,
            len == s@.len(),
            old(out)@ + esc(s@) == out@ + esc(s@.subrange(i as int, len as int)),
        decreases len - i,
    {
        let ghost prev = out@;
        let c = s.get_char(i);
        if c == '"' {
            out.append("\\\"");
        } else if c == '\\' {
            out.append("\\\\");
        } else {
            out.append(s.substring_char(i, i + 1));
        }
        proof {
            reveal_strlit("\\\"");
            reveal_strlit("\\\\");
            let cur = s@.subrange(i as int, len as int);
            let next = s@.subrange(i + 1, len as int);
            assert(cur.drop_first() =~= next);
            assert(out@ =~= prev + esc_char(s@[i as int]));
            assert(prev + (esc_char(s@[i as int]) + esc(next)) =~= (prev + esc_char(
                s@[i as int],
            )) + esc(next));
        }
        i = i + 1;
    }
    proof {
        assert(s@.subrange(len as int, len as int) =~= Seq::<char>::empty());
        assert(out@ + Seq::<char>::empty() =~= out@);
    }
}

/// Appends one task record in its written form.
fn append_task(out: &mut String, t: &Todo)
    ensures
        final(out)@ == old(out)@ + ser_task(t@),
{
    out.append("{\"order_number\":");
    let num = fmt_usize(t.order_number);
    out.append(num.as_str());
    out.append(",\"description\":\"");
    append_escaped(out, t.description.as_str());
    out.append("\",\"done\":");
    if t.done {
        out.append("true");
    } else {
        out.append("false");
    }
    out.append("}");
    proof {
        assert(out@ =~= old(out)@ + ser_task(t@));
    }
}

/// Writes the whole collection in its canonical persisted form.
pub fn save_to_string(l: &TodoList) -> (r: String)
    ensures
        r@ == ser_model(l@),
{
    let n = l.len();
    if n == 0 {
        return "[]".to_owned();
    }
    let mut out = String::new();
    out.append("[");
    append_task(&mut out, l.task_at(0));
    let mut i: usize = 1;
    while i < n
        invariant
            1 <= i <= n,
            n == l@.len(),
            out@ + tail_items(l@, i as int) + "]"@ == ser_model(l@),
        decreases n - i,
    {
        let ghost prev = out@;
        out.append(",");
        append_task(&mut out, l.task_at(i));
        proof {
            assert(out@ =~= prev + (","@ + ser_task(l@[i as int])));
            assert((prev + (","@ + ser_task(l@[i as int]))) + tail_items(l@, i + 1) + "]"@
                =~= prev + (","@ + ser_task(l@[i as int]) + tail_items(l@, i + 1)) + "]"@);
        }
        i = i + 1;
    }
    out.append("]");
    proof {
        assert(tail_items(l@, n as int) == Seq::<char>::empty());
        assert(ser_model(l@) =~= out@);
    }
    out
}

// --- the accepted form, as a spec ---

/// What expecting the literal `lit` at position `i` yields: the position
/// after it, where it stands there letter for letter.
pub open spec fn sp_expect(s: Seq<char>, i: int, lit: Seq<char>) -> Option<int> {
    if 0 <= i && i + lit.len() <= s.len() && s.subrange(i, i + lit.len()) == lit {
        Some(i + lit.len())
    } else {
        None
    }
}

/// What reading an escaped description at position `i` yields: the
/// description and the position of its closing quote. The quote itself is
/// not consumed; a backslash must be followed by `"` or `\`.
pub open spec fn sp_string_body(s: Seq<char>, i: int) -> Option<(Seq<char>, int)>
    decreases s.len() - i,
{
    if i < 0 || i >= s.len() {
        None
    } else if s[i] == '"' {
        Some((Seq::empty(), i))
    } else if s[i] == '\\' {
        if i + 1 < s.len() && (s[i + 1] == '"' || s[i + 1] == '\\') {
            match sp_string_body(s, i + 2) {
                Some((c, e)) => Some((seq![s[i + 1]] + c, e)),
                None => None,
            }
        } else {
            None
        }
    } else {
        match sp_string_body(s, i + 1) {
            Some((c, e)) => Some((seq![s[i]] + c, e)),
            None => None,
        }
    }
}

/// What reading a completion flag at position `i` yields.
pub open spec fn sp_bool(s: Seq<char>, i: int) -> Option<(bool, int)> {
    match sp_expect(s, i, "true"@) {
        Some(e) => Some((true, e)),
        None => match sp_expect(s, i, "false"@) {
            Some(e) => Some((false, e)),
            None => None,
        },
    }
}

/// What reading one task record at position `i` yields: its fields stand in
/// fixed order between fixed punctuation.
pub open spec fn sp_task(s: Seq<char>, i: int) -> Option<(TaskModel, int)> {
    match sp_expect(s, i, "{\"order_number\":"@) {
        Some(e1) => match sp_number(s, e1) {
            Some((n, e2)) => match sp_expect(s, e2, ",\"description\":\""@) {
                Some(e3) => match sp_string_body(s, e3) {
                    Some((d, e4)) => match sp_expect(s, e4, "\",\"done\":"@) {
                        Some(e5) => match sp_bool(s, e5) {
                            Some((b, e6)) => match sp_expect(s, e6, "}"@) {
                                Some(e7) => Some(
                                    (TaskModel { order_number: n, description: d, done: b }, e7),
                                ),
                                None => None,
                            },
                            None => None,
                        },
                        None => None,
                    },
                    None => None,
                },
                None => None,
            },
            None => None,
        },
        None => None,
    }
}

/// What reading the records after the first one yields: either the closing
/// bracket, or a comma and a record and more of the same.
pub open spec fn sp_rest(s: Seq<char>, i: int) -> Option<(Seq<TaskModel>, int)>
    decreases s.len() - i,
{
    match sp_expect(s, i, "]"@) {
        Some(e) => Some((Seq::empty(), e)),
        None => match sp_expect(s, i, ","@) {
            Some(e1) => match sp_task(s, e1) {
                Some((t, e2)) => if i < e2 <= s.len() {
                    match sp_rest(s, e2) {
                        Some((ts, e3)) => Some((seq![t] + ts, e3)),
                        None => None,
                    }
                } else {
                    None
                },
                None => None,
            },
            None => None,
        },
    }
}

/// What the whole document denotes, where it is exactly one well-written
/// collection and nothing follows it.
pub open spec fn sp_parse(s: Seq<char>) -> Option<Seq<TaskModel>> {
    match sp_expect(s, 0, "["@) {
        Some(e0) => match sp_expect(s, e0, "]"@) {
            Some(e) => if e == s.len() {
                Some(Seq::empty())
            } else {
                None
            },
            None => match sp_task(s, e0) {
                Some((t, e1)) => if 0 < e1 <= s.len() {
                    match sp_rest(s, e1) {
                        Some((ts, e2)) => if e2 == s.len() {
                            Some(seq![t] + ts)
                        } else {
                            None
                        },
                        None => None,
                    }
                } else {
                    None
                },
                None => None,
            },
        },
        None => None,
    }
}

// --- the parser ---

/// Reads the literal `lit` at position `i`.
fn expect_lit(s: &str, i: usize, lit: &str) -> (r: Option<usize>)
    requires
        i <= s@.len(),
    ensures
        match r {
            Some(e) => sp_expect(s@, i as int, lit@) == Some(e as int) && i <= e <= s@.len()
                && e == i + lit@.len(),
            None => sp_expect(s@, i as int, lit@) is None,
        },
{
    let len = s.unicode_len();
    let ll = lit.unicode_len();
    if ll > len - i {
        return None;
    }
    let mut j: usize = 0;
    while j < ll
        invariant
            j <= ll,
            i + ll <= len,
            len == s@.len(),
            ll == lit@.len(),
            forall|k: int| 0 <= k < j ==> s@[i + k] == lit@[k],
        decreases ll - j,
    {
        let a = s.get_char(i + j);
        let b = lit.get_char(j);
        if a != b {
            proof {
                if sp_expect(s@, i as int, lit@) is Some {
                    assert(s@.subrange(i as int, i + lit@.len()) == lit@);
                    assert(s@.subrange(i as int, i + lit@.len())[j as int] == lit@[j as int]);
                }
            }
            return None;
        }
        j = j + 1;
    }
    proof {
        assert(s@.subrange(i as int, i + lit@.len()) =~= lit@);
    }
    Some(i + ll)
}

/// Reads an escaped description up to, not past, its closing quote.
fn parse_string_body(s: &str, start: usize) -> (r: Option<(String, usize)>)
    requires
        start <= s@.len(),
    ensures
        match r {
            Some((d, e)) => sp_string_body(s@, start as int) == Some((d@, e as int)) && start <= e
                <= s@.len(),
            None => sp_string_body(s@, start as int) is None,
        },
{
    let len = s.unicode_len();
    let mut i = start;
    let mut out = String::new();
    loop
        invariant
            start <= i <= len,
            len == s@.len(),
            match sp_string_body(s@, i as int) {
                Some((c, e)) => sp_string_body(s@, start as int) == Some((out@ + c, e)),
                None => sp_string_body(s@, start as int) is None,
            },
        decreases len - i,
    {
        if i >= len {
            return None;
        }
        let c = s.get_char(i);
        if c == '"' {
            proof {
                assert(out@ + Seq::<char>::empty() =~= out@);
            }
            return Some((out, i));
        }
        let ghost prev = out@;
        if c == '\\' {
            if i + 1 >= len {
                return None;
            }
            let c2 = s.get_char(i + 1);
            if !(c2 == '"' || c2 == '\\') {
                return None;
            }
            out.append(s.substring_char(i + 1, i + 2));
            proof {
                assert(out@ =~= prev + seq![s@[i + 1]]);
                if sp_string_body(s@, i + 2) is Some {
                    let ce = sp_string_body(s@, i + 2)->Some_0;
                    assert(sp_string_body(s@, i as int) == Some(
                        (seq![s@[i + 1]] + ce.0, ce.1),
                    ));
                    assert(prev + (seq![s@[i + 1]] + ce.0) =~= out@ + ce.0);
                }
            }
            i = i + 2;
        } else {
            out.append(s.substring_char(i, i + 1));
            proof {
                assert(out@ =~= prev + seq![s@[i as int]]);
                if sp_string_body(s@, i + 1) is Some {
                    let ce = sp_string_body(s@, i + 1)->Some_0;
                    assert(sp_string_body(s@, i as int) == Some((seq![s@[i as int]] + ce.0, ce.1)));
                    assert(prev + (seq![s@[i as int]] + ce.0) =~= out@ + ce.0);
                }
            }
            i = i + 1;
        }
    }
}

/// Reads a completion flag.
fn parse_bool(s: &str, start: usize) -> (r: Option<(bool, usize)>)
    requires
        start <= s@.len(),
    ensures
        match r {
            Some((b, e)) => sp_bool(s@, start as int) == Some((b, e as int)) && start <= e
                <= s@.len(),
            None => sp_bool(s@, start as int) is None,
        },
{
    if let Some(e) = expect_lit(s, start, "true") {
        return Some((true, e));
    }
    if let Some(e) = expect_lit(s, start, "false") {
        return Some((false, e));
    }
    None
}

/// Reads one task record.
fn parse_task(s: &str, start: usize) -> (r: Option<(Todo, usize)>)
    requires
        start <= s@.len(),
    ensures
        match r {
            Some((t, e)) => sp_task(s@, start as int) == Some((t@, e as int)) && start <= e
                <= s@.len(),
            None => sp_task(s@, start as int) is None,
        },
{
    let e1 = match expect_lit(s, start, "{\"order_number\":") {
        Some(e) => e,
        None => {
            return None;
        },
    };
    let (n, e2) = match parse_number(s, e1) {
        Some(x) => x,
        None => {
            return None;
        },
    };
    let e3 = match expect_lit(s, e2, ",\"description\":\"") {
        Some(e) => e,
        None => {
            return None;
        },
    };
    let (d, e4) = match parse_string_body(s, e3) {
        Some(x) => x,
        None => {
            return None;
        },
    };
    let e5 = match expect_lit(s, e4, "\",\"done\":") {
        Some(e) => e,
        None => {
            return None;
        },
    };
    let (b, e6) = match parse_bool(s, e5) {
        Some(x) => x,
        None => {
            return None;
        },
    };
    let e7 = match expect_lit(s, e6, "}") {
        Some(e) => e,
        None => {
            return None;
        },
    };
    Some((Todo { order_number: n, description: d, done: b }, e7))
}

/// Reads a whole document; yields the tasks it denotes, or nothing where
/// the document is not exactly one well-written collection.
pub fn parse_tasks(s: &str) -> (r: Option<Vec<Todo>>)
    ensures
        match r {
            Some(v) => sp_parse(s@) == Some(models(v@)),
            None => sp_parse(s@) is None,
        },
{
    let len = s.unicode_len();
    let e0 = match expect_lit(s, 0, "[") {
        Some(e) => e,
        None => {
            return None;
        },
    };
    if let Some(e) = expect_lit(s, e0, "]") {
        if e == len {
            let v: Vec<Todo> = Vec::new();
            proof {
                assert(models(v@) =~= Seq::<TaskModel>::empty());
            }
            return Some(v);
        } else {
            return None;
        }
    }
    let (t0, first_end) = match parse_task(s, e0) {
        Some(x) => x,
        None => {
            return None;
        },
    };
    proof {
        reveal_strlit("[");
    }
    let mut v: Vec<Todo> = Vec::new();
    v.push(t0);
    let mut i = first_end;
    proof {
        assert(models(v@) =~= seq![t0@]);
    }
    loop
        invariant
            i <= len,
            len == s@.len(),
            sp_parse(s@) == match sp_rest(s@, i as int) {
                Some((ts, e2)) => if e2 == s@.len() {
                    Some(models(v@) + ts)
                } else {
                    None::<Seq<TaskModel>>
                },
                None => None::<Seq<TaskModel>>,
            },
        decreases len - i,
    {
        if let Some(e) = expect_lit(s, i, "]") {
            if e == len {
                proof {
                    assert(models(v@) + Seq::<TaskModel>::empty() =~= models(v@));
                }
                return Some(v);
            } else {
                return None;
            }
        }
        let e1 = match expect_lit(s, i, ",") {
            Some(e) => e,
            None => {
                return None;
            },
        };
        let (t, e2) = match parse_task(s, e1) {
            Some(x) => x,
            None => {
                return None;
            },
        };
        proof {
            reveal_strlit(",");
            let ghost old_v = v@;
            if sp_rest(s@, e2 as int) is Some {
                let te = sp_rest(s@, e2 as int)->Some_0;
                assert(sp_rest(s@, i as int) == Some((seq![t@] + te.0, te.1)));
            }
        }
        let ghost old_models = models(v@);
        v.push(t);
        proof {
            assert(models(v@) =~= old_models + seq![t@]);
            if sp_rest(s@, e2 as int) is Some {
                let te = sp_rest(s@, e2 as int)->Some_0;
                assert(old_models + (seq![t@] + te.0) =~= models(v@) + te.0);
            }
        }
        i = e2;
    }
}

// --- the round trip ---

/// A region of `s` that holds `a + b` splits into a region holding `a` and
/// one holding `b`.
proof fn lemma_split_concat(s: Seq<char>, i: int, a: Seq<char>, b: Seq<char>)
    requires
        0 <= i,
        i + a.len() + b.len() <= s.len(),
        s.subrange(i, i + a.len() + b.len()) == a + b,
    ensures
        s.subrange(i, i + a.len()) == a,
        s.subrange(i + a.len(), i + a.len() + b.len()) == b,
{
    assert forall|k: int| 0 <= k < a.len() implies s[i + k] == a[k] by {
        assert(s.subrange(i, i + a.len() + b.len())[k] == s[i + k]);
        assert((a + b)[k] == a[k]);
    }
    assert forall|k: int| 0 <= k < b.len() implies s[i + a.len() + k] == b[k] by {
        assert(s.subrange(i, i + a.len() + b.len())[a.len() + k] == s[i + a.len() + k]);
        assert((a + b)[a.len() + k] == b[k]);
    }
    assert(s.subrange(i, i + a.len()) =~= a);
    assert(s.subrange(i + a.len(), i + a.len() + b.len()) =~= b);
}

/// Where a region holds the decimal notation of `n` and a non-digit
/// follows, reading a number there yields `n`.
proof fn lemma_sp_number_at(s: Seq<char>, i: int, n: nat)
    requires
        n <= usize::MAX,
        0 <= i,
        i + dec_digits(n).len() < s.len(),
        s.subrange(i, i + dec_digits(n).len()) == dec_digits(n),
        !is_digit(s[i + dec_digits(n).len()]),
    ensures
        sp_number(s, i) == Some((n, i + dec_digits(n).len())),
{
    crate::text::lemma_dec_digits(n);
    let d = dec_digits(n);
    let j = i + d.len();
    assert forall|k: int| i <= k < j implies is_digit(#[trigger] s[k]) by {
        assert(s.subrange(i, j)[k - i] == d[k - i]);
    }
    crate::text::lemma_digits_end_of_run(s, i, j);
    assert(s[i] == d[0]);
    if s[i] == '0' {
        assert(n == 0);
        assert(d.len() == 1);
    }
}

/// Where a region holds an escaped description and the closing quote
/// follows, reading a description there yields it back, unescaped.
proof fn lemma_sp_string_at(s: Seq<char>, i: int, d: Seq<char>)
    requires
        0 <= i,
        i + esc(d).len() < s.len(),
        s.subrange(i, i + esc(d).len()) == esc(d),
        s[i + esc(d).len()] == '"',
    ensures
        sp_string_body(s, i) == Some((d, i + esc(d).len())),
    decreases d.len(),
{
    if d.len() == 0 {
        assert(esc(d).len() == 0);
        assert(d =~= Seq::<char>::empty());
    } else {
        let c = d[0];
        let rest = d.drop_first();
        assert(esc(d) == esc_char(c) + esc(rest));
        lemma_split_concat(s, i, esc_char(c), esc(rest));
        lemma_sp_string_at(s, i + esc_char(c).len(), rest);
        assert(seq![c] + rest =~= d);
        if c == '"' || c == '\\' {
            assert(s.subrange(i, i + 2)[0] == '\\');
            assert(s.subrange(i, i + 2)[1] == c);
        } else {
            assert(s.subrange(i, i + 1)[0] == c);
        }
    }
}

/// Where a region holds a written completion flag, reading one there
/// yields it.
proof fn lemma_sp_bool_at(s: Seq<char>, i: int, b: bool)
    requires
        0 <= i,
        i + ser_bool(b).len() <= s.len(),
        s.subrange(i, i + ser_bool(b).len()) == ser_bool(b),
    ensures
        sp_bool(s, i) == Some((b, i + ser_bool(b).len())),
{
    reveal_strlit("true");
    reveal_strlit("false");
    if b {
    } else {
        assert(s.subrange(i, i + ser_bool(b).len())[0] == 'f');
        if sp_expect(s, i, "true"@) is Some {
            assert(s.subrange(i, i + "true"@.len()) == "true"@);
            assert(s.subrange(i, i + "true"@.len())[0] == 't');
        }
    }
}

/// Where a region holds one written task record, reading a record there
/// yields that task.
proof fn lemma_sp_task_at(s: Seq<char>, i: int, t: TaskModel)
    requires
        t.order_number <= usize::MAX,
        0 <= i,
        i + ser_task(t).len() <= s.len(),
        s.subrange(i, i + ser_task(t).len()) == ser_task(t),
    ensures
        sp_task(s, i) == Some((t, i + ser_task(t).len())),
{
    let l1 = "{\"order_number\":"@;
    let nd = dec_digits(t.order_number);
    let l2 = ",\"description\":\""@;
    let ed = esc(t.description);
    let l3 = "\",\"done\":"@;
    let sb = ser_bool(t.done);
    let l4 = "}"@;
    reveal_strlit("{\"order_number\":");
    reveal_strlit(",\"description\":\"");
    reveal_strlit("\",\"done\":");
    reveal_strlit("}");
    assert(ser_task(t) =~= l1 + (nd + (l2 + (ed + (l3 + (sb + l4))))));
    let o1 = i + l1.len();
    let o2 = o1 + nd.len();
    let o3 = o2 + l2.len();
    let o4 = o3 + ed.len();
    let o5 = o4 + l3.len();
    let o6 = o5 + sb.len();
    let o7 = o6 + l4.len();
    lemma_split_concat(s, i, l1, nd + (l2 + (ed + (l3 + (sb + l4)))));
    lemma_split_concat(s, o1, nd, l2 + (ed + (l3 + (sb + l4))));
    lemma_split_concat(s, o2, l2, ed + (l3 + (sb + l4)));
    lemma_split_concat(s, o3, ed, l3 + (sb + l4));
    lemma_split_concat(s, o4, l3, sb + l4);
    lemma_split_concat(s, o5, sb, l4);
    assert(sp_expect(s, i, l1) == Some(o1));
    assert(s[o2] == s.subrange(o2, o3)[0]);
    assert(s[o2] == ',');
    assert(!is_digit(','));
    lemma_sp_number_at(s, o1, t.order_number);
    assert(sp_expect(s, o2, l2) == Some(o3));
    assert(s[o4] == s.subrange(o4, o5)[0]);
    assert(s[o4] == '"');
    lemma_sp_string_at(s, o3, t.description);
    assert(sp_expect(s, o4, l3) == Some(o5));
    lemma_sp_bool_at(s, o5, t.done);
    assert(sp_expect(s, o6, l4) == Some(o7));
    assert(sp_task(s, i) == Some((t, o7)));
}

/// Where a region holds the written records from position `j` on and the
/// closing bracket, reading the rest there yields those tasks.
proof fn lemma_sp_rest_at(s: Seq<char>, i: int, m: Seq<TaskModel>, j: int)
    requires
        0 <= j <= m.len(),
        forall|k: int| 0 <= k < m.len() ==> (#[trigger] m[k]).order_number <= usize::MAX,
        0 <= i,
        i + tail_items(m, j).len() + "]"@.len() <= s.len(),
        s.subrange(i, i + tail_items(m, j).len() + "]"@.len()) == tail_items(m, j) + "]"@,
    ensures
        sp_rest(s, i) == Some(
            (m.subrange(j, m.len() as int), i + tail_items(m, j).len() + "]"@.len()),
        ),
    decreases m.len() - j,
{
    reveal_strlit("]");
    reveal_strlit(",");
    if j == m.len() {
        assert(tail_items(m, j) == Seq::<char>::empty());
        assert(tail_items(m, j) + "]"@ =~= "]"@);
        assert(sp_expect(s, i, "]"@) == Some(i + 1));
        assert(m.subrange(j, m.len() as int) =~= Seq::<TaskModel>::empty());
    } else {
        let st = ser_task(m[j]);
        let rest = tail_items(m, j + 1) + "]"@;
        assert(tail_items(m, j) + "]"@ =~= ","@ + (st + rest));
        lemma_split_concat(s, i, ","@, st + rest);
        lemma_split_concat(s, i + 1, st, rest);
        assert(s[i] == s.subrange(i, i + 1)[0]);
        assert(s[i] == ',');
        if sp_expect(s, i, "]"@) is Some {
            assert(s.subrange(i, i + 1) == "]"@);
            assert(s[i] == ']');
        }
        assert(sp_expect(s, i, ","@) == Some(i + 1));
        lemma_sp_task_at(s, i + 1, m[j]);
        let e2 = i + 1 + st.len();
        lemma_sp_rest_at(s, e2, m, j + 1);
        assert(seq![m[j]] + m.subrange(j + 1, m.len() as int) =~= m.subrange(j, m.len() as int));
    }
}

/// A written task record starts with its opening brace.
proof fn lemma_ser_task_first(t: TaskModel)
    ensures
        ser_task(t).len() > 0,
        ser_task(t)[0] == '{',
{
    reveal_strlit("{\"order_number\":");
    let l1 = "{\"order_number\":"@;
    assert((l1 + dec_digits(t.order_number))[0] == l1[0]);
    assert(((l1 + dec_digits(t.order_number)) + ",\"description\":\""@)[0] == l1[0]);
    assert((((l1 + dec_digits(t.order_number)) + ",\"description\":\""@) + esc(t.description))[0]
        == l1[0]);
    assert(((((l1 + dec_digits(t.order_number)) + ",\"description\":\""@) + esc(t.description))
        + "\",\"done\":"@)[0] == l1[0]);
    assert((((((l1 + dec_digits(t.order_number)) + ",\"description\":\""@) + esc(t.description))
        + "\",\"done\":"@) + ser_bool(t.done))[0] == l1[0]);
    assert(ser_task(t)[0] == l1[0]);
}

/// Round trip of the codec: reading what the serializer wrote yields the
/// very collection it was given, for every collection whose order numbers
/// fit the machine word.
#[verifier::rlimit(50)]
pub proof fn lemma_parse_of_serialize(m: Seq<TaskModel>)
    requires
        forall|k: int| 0 <= k < m.len() ==> (#[trigger] m[k]).order_number <= usize::MAX,
    ensures
        sp_parse(ser_model(m)) == Some(m),
{
    let s = ser_model(m);
    reveal_strlit("[");
    reveal_strlit("]");
    reveal_strlit("[]");
    reveal_strlit("{\"order_number\":");
    if m.len() == 0 {
        assert(s == "[]"@);
        assert(s.subrange(0, 1) =~= "["@);
        assert(s.subrange(1, 2) =~= "]"@);
        assert(sp_expect(s, 0, "["@) == Some(1int));
        assert(sp_expect(s, 1, "]"@) == Some(2int));
        assert(m =~= Seq::<TaskModel>::empty());
    } else {
        let st = ser_task(m[0]);
        let rest = tail_items(m, 1) + "]"@;
        assert(s =~= "["@ + (st + rest));
        assert(s.subrange(0, s.len() as int) =~= s);
        lemma_split_concat(s, 0, "["@, st + rest);
        lemma_split_concat(s, 1, st, rest);
        assert(sp_expect(s, 0, "["@) == Some(1int));
        assert(s[1] == s.subrange(1, 1 + st.len() as int)[0]);
        lemma_ser_task_first(m[0]);
        assert(s[1] == '{');
        if sp_expect(s, 1, "]"@) is Some {
            assert(s.subrange(1, 2) == "]"@);
            assert(s[1] == ']');
        }
        lemma_sp_task_at(s, 1, m[0]);
        let e1 = 1 + st.len() as int;
        lemma_sp_rest_at(s, e1, m, 1);
        assert(seq![m[0]] + m.subrange(1, m.len() as int) =~= m);
    }
}

/// Round trip for a well-formed collection: what saving writes, loading
/// reads back unchanged.
pub proof fn lemma_round_trip(m: Seq<TaskModel>)
    requires
        wf_model(m),
        m.len() <= usize::MAX,
    ensures
        sp_parse(ser_model(m)) == Some(m),
{
    assert forall|k: int| 0 <= k < m.len() implies (#[trigger] m[k]).order_number
        <= usize::MAX by {
        assert(m[k].order_number == k + 1);
    }
    lemma_parse_of_serialize(m);
}

// --- loading ---

/// Why a persisted document was rejected.
#[derive(PartialEq, Eq, Structural, Clone, Copy, Debug)]
pub enum ParseError {
    /// The document is not one well-written collection.
    Malformed,
    /// The document reads as a collection, but its order numbers are not
    /// the contiguous range a valid collection carries.
    Misnumbered,
}

/// Reads a persisted document into a collection, rejecting a document that
/// does not denote a well-formed one.
pub fn load_from_string(s: &str) -> (r: Result<TodoList, ParseError>)
    ensures
        match r {
            Ok(l) => sp_parse(s@) == Some(l@) && l.wf(),
            Err(ParseError::Malformed) => sp_parse(s@) is None,
            Err(ParseError::Misnumbered) => sp_parse(s@) is Some && !wf_model(
                sp_parse(s@)->Some_0,
            ),
        },
{
    let v = match parse_tasks(s) {
        Some(v) => v,
        None => {
            return Err(ParseError::Malformed);
        },
    };
    let n = v.len();
    let mut i: usize = 0;
    while i < n
        invariant
            i <= n,
            n == v@.len(),
            sp_parse(s@) == Some(models(v@)),
            forall|k: int| 0 <= k < i ==> models(v@)[k].order_number == k + 1,
        decreases n - i,
    {
        if v[i].order_number != i + 1 {
            proof {
                let m = models(v@);
                assert(m[i as int].order_number != i + 1);
                assert(!wf_model(m));
            }
            return Err(ParseError::Misnumbered);
        }
        i = i + 1;
    }
    Ok(TodoList::from_tasks(v))
}

} // verus!
