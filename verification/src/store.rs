//! Serialization of a `Problem` to a human-readable key/value text file and
//! the parse that reads it back.
//!
//! The file holds one `key = "value"` line per scalar field, then one
//! nested-table block per example:
//!
//! ```text
//! id = "1000"
//! url = "https://www.acmicpc.net/problem/1000"
//! title = "A+B"
//!
//! [[examples]]
//! input = "1 2"
//! output = "3"
//! ```
//!
//! Values are quoted, with backslash escapes for the quote, the backslash
//! and the control characters that would break the line structure, so that
//! every string round-trips exactly.

use vstd::prelude::*;
use vstd::string::*;
use crate::problem::{Example, ExampleView, Problem, ProblemView};

verus! {

/// Why a stored problem could not be returned.
#[derive(Debug, Clone, Copy, PartialEq, Eq)]
pub enum StoreError {
    /// No stored file exists for the requested identifier.
    NotFound,
    /// The stored file does not parse into the expected shape.
    Corrupt,
    /// The stored record's embedded identifier differs from the requested one.
    IdentityMismatch,
}

/// The escape sequence a character is written as inside a quoted value.
pub open spec fn escape_char(c: char) -> Seq<char> {
    if c == '\\' {
        seq!['\\', '\\']
    } else if c == '"' {
        seq!['\\', '"']
    } else if c == '\n' {
        seq!['\\', 'n']
    } else if c == '\r' {
        seq!['\\', 'r']
    } else if c == '\t' {
        seq!['\\', 't']
    } else {
        seq![c]
    }
}

/// A string as it is written inside a quoted value.
pub open spec fn escape(s: Seq<char>) -> Seq<char>
    decreases s.len(),
{
    if s.len() == 0 {
        Seq::empty()
    } else {
        escape_char(s[0]) + escape(s.drop_first())
    }
}

/// The character an escape code stands for, if it is a valid code.
pub open spec fn unescape_code(c: char) -> Option<char> {
    if c == '\\' {
        Some('\\')
    } else if c == '"' {
        Some('"')
    } else if c == 'n' {
        Some('\n')
    } else if c == 'r' {
        Some('\r')
    } else if c == 't' {
        Some('\t')
    } else {
        None
    }
}

/// Inverse of `escape`: `None` on a dangling backslash or an unknown code.
pub open spec fn unescape(s: Seq<char>) -> Option<Seq<char>>
    decreases s.len(),
{
    if s.len() == 0 {
        Some(Seq::empty())
    } else if s[0] == '\\' {
        if s.len() >= 2 {
            match (unescape_code(s[1]), unescape(s.skip(2))) {
                (Some(c), Some(r)) => Some(seq![c] + r),
                _ => None,
            }
        } else {
            None
        }
    } else {
        match unescape(s.drop_first()) {
            Some(r) => Some(seq![s[0]] + r),
            None => None,
        }
    }
}

/// Unescaping undoes escaping exactly.
pub proof fn lemma_unescape_escape(s: Seq<char>)
    ensures
        unescape(escape(s)) == Some(s),
    decreases s.len(),
{
    if s.len() == 0 {
        assert(escape(s) == Seq::<char>::empty());
        assert(s =~= Seq::<char>::empty());
    } else {
        let c = s[0];
        let rest = s.drop_first();
        lemma_unescape_escape(rest);
        let e = escape(s);
        if c == '\\' || c == '"' || c == '\n' || c == '\r' || c == '\t' {
            assert(e[0] == '\\');
            assert(unescape_code(e[1]) == Some(c));
            assert(e.skip(2) =~= escape(rest));
            assert(seq![c] + rest =~= s);
        } else {
            assert(e[0] == c);
            assert(e.drop_first() =~= escape(rest));
            assert(seq![c] + rest =~= s);
        }
    }
}

/// True of text that fits on one line of the stored file.
pub open spec fn no_newline(s: Seq<char>) -> bool {
    forall|i: int| 0 <= i < s.len() ==> s[i] != '\n'
}

/// Escaped text never contains a raw line break.
pub proof fn lemma_escape_no_newline(s: Seq<char>)
    ensures
        no_newline(escape(s)),
    decreases s.len(),
{
    if s.len() == 0 {
    } else {
        lemma_escape_no_newline(s.drop_first());
        assert forall|i: int| 0 <= i < escape(s).len() implies escape(s)[i] != '\n' by {
            let head = escape_char(s[0]);
            if i < head.len() {
                assert(escape(s)[i] == head[i]);
            } else {
                assert(escape(s)[i] == escape(s.drop_first())[i - head.len()]);
            }
        }
    }
}

/// The lines of the file, each followed by one line-feed.
pub open spec fn join_lines(ls: Seq<Seq<char>>) -> Seq<char>
    decreases ls.len(),
{
    if ls.len() == 0 {
        Seq::empty()
    } else {
        ls[0] + seq!['\n'] + join_lines(ls.drop_first())
    }
}

/// Distance to the first line-feed, or the whole length if there is none.
pub open spec fn line_break(s: Seq<char>) -> nat
    decreases s.len(),
{
    if s.len() == 0 {
        0
    } else if s[0] == '\n' {
        0
    } else {
        1 + line_break(s.drop_first())
    }
}

/// The text cut at each line-feed; a trailing unterminated line still counts.
pub open spec fn split_lines(s: Seq<char>) -> Seq<Seq<char>>
    decreases s.len(),
{
    if s.len() == 0 {
        Seq::empty()
    } else {
        let i = line_break(s);
        if i >= s.len() {
            seq![s]
        } else {
            seq![s.subrange(0, i as int)] + split_lines(s.skip(i as int + 1))
        }
    }
}

pub proof fn lemma_line_break_of(l: Seq<char>, tail: Seq<char>)
    requires
        no_newline(l),
    ensures
        line_break(l + seq!['\n'] + tail) == l.len(),
    decreases l.len(),
{
    let s = l + seq!['\n'] + tail;
    if l.len() == 0 {
        assert(s[0] == '\n');
    } else {
        assert(s[0] == l[0]);
        lemma_line_break_of(l.drop_first(), tail);
        assert(s.drop_first() =~= l.drop_first() + seq!['\n'] + tail);
    }
}

/// Splitting undoes joining, as long as no line holds a raw line-feed.
pub proof fn lemma_split_join(ls: Seq<Seq<char>>)
    requires
        forall|k: int| 0 <= k < ls.len() ==> no_newline(#[trigger] ls[k]),
    ensures
        split_lines(join_lines(ls)) == ls,
    decreases ls.len(),
{
    if ls.len() == 0 {
        assert(split_lines(join_lines(ls)) =~= ls);
    } else {
        let l0 = ls[0];
        let rest = ls.drop_first();
        let s = join_lines(ls);
        lemma_line_break_of(l0, join_lines(rest));
        let i = line_break(s);
        assert(i == l0.len());
        assert(i < s.len());
        assert(s.subrange(0, i as int) =~= l0);
        assert(s.skip(i as int + 1) =~= join_lines(rest));
        lemma_split_join(rest);
        assert(seq![l0] + rest =~= ls);
    }
}

/// `key = "` for each field, as it opens its line.
pub open spec fn key_id() -> Seq<char> {
    seq!['i', 'd', ' ', '=', ' ', '"']
}

pub open spec fn key_url() -> Seq<char> {
    seq!['u', 'r', 'l', ' ', '=', ' ', '"']
}

pub open spec fn key_title() -> Seq<char> {
    seq!['t', 'i', 't', 'l', 'e', ' ', '=', ' ', '"']
}

pub open spec fn key_input() -> Seq<char> {
    seq!['i', 'n', 'p', 'u', 't', ' ', '=', ' ', '"']
}

pub open spec fn key_output() -> Seq<char> {
    seq!['o', 'u', 't', 'p', 'u', 't', ' ', '=', ' ', '"']
}

/// The line that opens each example's nested table.
pub open spec fn header_line() -> Seq<char> {
    seq!['[', '[', 'e', 'x', 'a', 'm', 'p', 'l', 'e', 's', ']', ']']
}

/// One `key = "escaped value"` line.
pub open spec fn kv_line(key: Seq<char>, v: Seq<char>) -> Seq<char> {
    key + escape(v) + seq!['"']
}

/// Reads the value back out of a `key = "escaped value"` line.
pub open spec fn parse_kv(line: Seq<char>, key: Seq<char>) -> Option<Seq<char>> {
    if line.len() > key.len() && line.subrange(0, key.len() as int) == key && line[line.len()
        - 1] == '"' {
        unescape(line.subrange(key.len() as int, line.len() - 1))
    } else {
        None
    }
}

pub proof fn lemma_parse_kv_round(key: Seq<char>, v: Seq<char>)
    ensures
        parse_kv(kv_line(key, v), key) == Some(v),
{
    let line = kv_line(key, v);
    lemma_unescape_escape(v);
    assert(line.len() == key.len() + escape(v).len() + 1);
    assert(line.subrange(0, key.len() as int) =~= key);
    assert(line[line.len() - 1] == '"');
    assert(line.subrange(key.len() as int, line.len() - 1) =~= escape(v));
}

pub proof fn lemma_kv_no_newline(key: Seq<char>, v: Seq<char>)
    requires
        no_newline(key),
    ensures
        no_newline(kv_line(key, v)),
{
    lemma_escape_no_newline(v);
    assert forall|i: int| 0 <= i < kv_line(key, v).len() implies kv_line(key, v)[i] != '\n' by {
        let e = escape(v);
        if i < key.len() {
            assert(kv_line(key, v)[i] == key[i]);
        } else if i < key.len() + e.len() {
            assert(kv_line(key, v)[i] == e[i - key.len()]);
        } else {
            assert(kv_line(key, v)[i] == '"');
        }
    }
}

/// The four lines each example contributes to the file.
pub open spec fn example_lines(es: Seq<ExampleView>) -> Seq<Seq<char>>
    decreases es.len(),
{
    if es.len() == 0 {
        Seq::empty()
    } else {
        seq![
            Seq::<char>::empty(),
            header_line(),
            kv_line(key_input(), es[0].input),
            kv_line(key_output(), es[0].output),
        ] + example_lines(es.drop_first())
    }
}

/// The three scalar-field lines that open the stored file.
pub open spec fn base_lines(p: ProblemView) -> Seq<Seq<char>> {
    seq![
        kv_line(key_id(), p.id),
        kv_line(key_url(), p.url),
        kv_line(key_title(), p.title),
    ]
}

/// All lines of the stored file for a problem.
pub open spec fn lines_of(p: ProblemView) -> Seq<Seq<char>> {
    base_lines(p) + example_lines(p.examples)
}

/// The full text of the stored file for a problem.
pub open spec fn encode_spec(p: ProblemView) -> Seq<char> {
    join_lines(lines_of(p))
}

/// Reads the examples back out of their nested-table line groups.
pub open spec fn parse_examples(ls: Seq<Seq<char>>) -> Option<Seq<ExampleView>>
    decreases ls.len(),
{
    if ls.len() == 0 {
        Some(Seq::empty())
    } else if ls.len() >= 4 && ls[0] == Seq::<char>::empty() && ls[1] == header_line() {
        match (parse_kv(ls[2], key_input()), parse_kv(ls[3], key_output()), parse_examples(
            ls.skip(4),
        )) {
            (Some(i), Some(o), Some(r)) => Some(seq![ExampleView { input: i, output: o }] + r),
            _ => None,
        }
    } else {
        None
    }
}

/// Parses a whole stored file back into a problem record, if it is well
/// formed.
pub open spec fn decode_spec(s: Seq<char>) -> Option<ProblemView> {
    let ls = split_lines(s);
    if ls.len() >= 3 {
        match (parse_kv(ls[0], key_id()), parse_kv(ls[1], key_url()), parse_kv(
            ls[2],
            key_title(),
        ), parse_examples(ls.skip(3))) {
            (Some(id), Some(url), Some(title), Some(es)) => Some(
                ProblemView { id, url, title, examples: es },
            ),
            _ => None,
        }
    } else {
        None
    }
}

/// What reading a stored file under a requested identifier yields.
pub open spec fn read_spec(id: Seq<char>, contents: Seq<char>) -> Result<ProblemView, StoreError> {
    match decode_spec(contents) {
        Some(pv) => if pv.id == id {
            Ok(pv)
        } else {
            Err(StoreError::IdentityMismatch)
        },
        None => Err(StoreError::Corrupt),
    }
}

pub proof fn lemma_parse_examples_round(es: Seq<ExampleView>)
    ensures
        parse_examples(example_lines(es)) == Some(es),
    decreases es.len(),
{
    if es.len() == 0 {
        assert(parse_examples(example_lines(es)) == Some(Seq::<ExampleView>::empty()));
        assert(Seq::<ExampleView>::empty() =~= es);
    } else {
        let ls = example_lines(es);
        lemma_parse_examples_round(es.drop_first());
        lemma_parse_kv_round(key_input(), es[0].input);
        lemma_parse_kv_round(key_output(), es[0].output);
        assert(ls.len() >= 4);
        assert(ls.skip(4) =~= example_lines(es.drop_first()));
        assert(seq![ExampleView { input: es[0].input, output: es[0].output }] + es.drop_first()
            =~~= es);
    }
}

pub proof fn lemma_example_lines_no_newline(es: Seq<ExampleView>)
    ensures
        forall|k: int|
            0 <= k < example_lines(es).len() ==> no_newline(#[trigger] example_lines(es)[k]),
    decreases es.len(),
{
    if es.len() == 0 {
    } else {
        lemma_example_lines_no_newline(es.drop_first());
        lemma_kv_no_newline(key_input(), es[0].input);
        lemma_kv_no_newline(key_output(), es[0].output);
        assert forall|k: int| 0 <= k < example_lines(es).len() implies no_newline(
            #[trigger] example_lines(es)[k],
        ) by {
            if k >= 4 {
                assert(example_lines(es)[k] == example_lines(es.drop_first())[k - 4]);
            }
        }
    }
}

/// Decoding undoes encoding exactly.
pub proof fn lemma_decode_encode(p: ProblemView)
    ensures
        decode_spec(encode_spec(p)) == Some(p),
{
    let ls = lines_of(p);
    lemma_example_lines_no_newline(p.examples);
    lemma_kv_no_newline(key_id(), p.id);
    lemma_kv_no_newline(key_url(), p.url);
    lemma_kv_no_newline(key_title(), p.title);
    assert forall|k: int| 0 <= k < ls.len() implies no_newline(#[trigger] ls[k]) by {
        if k >= 3 {
            assert(ls[k] == example_lines(p.examples)[k - 3]);
        }
    }
    lemma_split_join(ls);
    lemma_parse_kv_round(key_id(), p.id);
    lemma_parse_kv_round(key_url(), p.url);
    lemma_parse_kv_round(key_title(), p.title);
    assert(ls.skip(3) =~= example_lines(p.examples));
    lemma_parse_examples_round(p.examples);
    assert(decode_spec(encode_spec(p)) == Some(
        ProblemView { id: p.id, url: p.url, title: p.title, examples: p.examples },
    ));
    assert(ProblemView { id: p.id, url: p.url, title: p.title, examples: p.examples } =~= p);
}

/// Law: reading a saved problem back under its own identifier yields a
/// record structurally equal to the one saved.
pub proof fn round_trip(p: ProblemView)
    ensures
        read_spec(p.id, encode_spec(p)) == Ok::<ProblemView, StoreError>(p),
{
    lemma_decode_encode(p);
}

/// Law: a stored record whose embedded identifier differs from the requested
/// one is never returned; the read fails with an identity mismatch.
pub proof fn identity_guard(id: Seq<char>, contents: Seq<char>)
    requires
        decode_spec(contents) matches Some(pv) && pv.id != id,
    ensures
        read_spec(id, contents) == Err::<ProblemView, StoreError>(StoreError::IdentityMismatch),
{
}

/// Relies on `String::push` of std: it appends the one character.
pub assume_specification[ String::push ](s: &mut String, c: char)
    ensures
        final(s)@ == old(s)@.push(c),
;

pub proof fn lemma_join_app(a: Seq<Seq<char>>, b: Seq<Seq<char>>)
    ensures
        join_lines(a + b) == join_lines(a) + join_lines(b),
    decreases a.len(),
{
    if a.len() == 0 {
        assert(a + b =~= b);
        assert(join_lines(a) + join_lines(b) =~= join_lines(b));
    } else {
        lemma_join_app(a.drop_first(), b);
        assert((a + b).drop_first() =~= a.drop_first() + b);
        assert((a + b)[0] == a[0]);
        assert(join_lines(a + b) =~= join_lines(a) + join_lines(b));
    }
}

pub proof fn lemma_example_lines_app(a: Seq<ExampleView>, b: Seq<ExampleView>)
    ensures
        example_lines(a + b) == example_lines(a) + example_lines(b),
    decreases a.len(),
{
    if a.len() == 0 {
        assert(a + b =~= b);
        assert(example_lines(a) + example_lines(b) =~= example_lines(b));
    } else {
        lemma_example_lines_app(a.drop_first(), b);
        assert((a + b).drop_first() =~= a.drop_first() + b);
        assert((a + b)[0] == a[0]);
        assert(example_lines(a + b) =~= example_lines(a) + example_lines(b));
    }
}

pub proof fn lemma_join3(a: Seq<char>, b: Seq<char>, c: Seq<char>)
    ensures
        join_lines(seq![a, b, c]) == a + seq!['\n'] + b + seq!['\n'] + c + seq!['\n'],
{
    let t1: Seq<Seq<char>> = seq![b, c];
    let t2: Seq<Seq<char>> = seq![c];
    assert(seq![a, b, c].drop_first() =~= t1);
    assert(t1.drop_first() =~= t2);
    assert(t2.drop_first() =~= Seq::<Seq<char>>::empty());
    assert(join_lines(t2) == c + seq!['\n'] + join_lines(Seq::<Seq<char>>::empty()));
    assert(join_lines(t1) == b + seq!['\n'] + join_lines(t2));
    assert(join_lines(seq![a, b, c]) =~= a + seq!['\n'] + b + seq!['\n'] + c + seq!['\n']);
}

pub proof fn lemma_join4(a: Seq<char>, b: Seq<char>, c: Seq<char>, d: Seq<char>)
    ensures
        join_lines(seq![a, b, c, d]) == a + seq!['\n'] + b + seq!['\n'] + c + seq!['\n'] + d
            + seq!['\n'],
{
    let t1: Seq<Seq<char>> = seq![b, c, d];
    assert(seq![a, b, c, d].drop_first() =~= t1);
    lemma_join3(b, c, d);
    assert(join_lines(seq![a, b, c, d]) =~= a + seq!['\n'] + b + seq!['\n'] + c + seq!['\n'] + d
        + seq!['\n']);
}

/// The escape sequence a character is written as, executably.
fn escape_char_exec(c: char) -> (r: String)
    ensures
        r@ == escape_char(c),
{
    if c == '\\' {
        let r: String = "\\\\".to_owned();
        proof {
            reveal_strlit("\\\\");
            assert(r@ =~= escape_char(c));
        }
        r
    } else if c == '"' {
        let r: String = "\\\"".to_owned();
        proof {
            reveal_strlit("\\\"");
            assert(r@ =~= escape_char(c));
        }
        r
    } else if c == '\n' {
        let r: String = "\\n".to_owned();
        proof {
            reveal_strlit("\\n");
            assert(r@ =~= escape_char(c));
        }
        r
    } else if c == '\r' {
        let r: String = "\\r".to_owned();
        proof {
            reveal_strlit("\\r");
            assert(r@ =~= escape_char(c));
        }
        r
    } else if c == '\t' {
        let r: String = "\\t".to_owned();
        proof {
            reveal_strlit("\\t");
            assert(r@ =~= escape_char(c));
        }
        r
    } else {
        let mut r = String::new();
        r.push(c);
        proof {
            assert(r@ =~= escape_char(c));
        }
        r
    }
}

/// The tail of `s` from position `i` on, escaped.
fn escape_from(s: &str, i: usize) -> (r: String)
    requires
        i <= s@.len(),
    ensures
        r@ == escape(s@.skip(i as int)),
    decreases s@.len() - i,
{
    let n = s.unicode_len();
    if i == n {
        let r = String::new();
        proof {
            assert(s@.skip(i as int) =~= Seq::<char>::empty());
        }
        r
    } else {
        let c = s.get_char(i);
        let mut r = escape_char_exec(c);
        let tail = escape_from(s, i + 1);
        r.append(tail.as_str());
        proof {
            let sk = s@.skip(i as int);
            assert(sk[0] == s@[i as int]);
            assert(sk.drop_first() =~= s@.skip(i as int + 1));
        }
        r
    }
}

impl Problem {
    /// The full text under which this problem is stored: the serialization
    /// half of the save operation. Writing it to the stored file is the
    /// caller's part.
    pub fn encode(&self) -> (r: String)
        ensures
            r@ == encode_spec(self@),
    {
        let mut out = String::new();
        out.append("id = \"");
        let e_id = escape_from(self.id.as_str(), 0);
        out.append(e_id.as_str());
        out.append("\"\n");
        out.append("url = \"");
        let e_url = escape_from(self.url.as_str(), 0);
        out.append(e_url.as_str());
        out.append("\"\n");
        out.append("title = \"");
        let e_title = escape_from(self.title.as_str(), 0);
        out.append(e_title.as_str());
        out.append("\"\n");
        proof {
            reveal_strlit("id = \"");
            reveal_strlit("url = \"");
            reveal_strlit("title = \"");
            reveal_strlit("\"\n");
            assert(("id = \"")@ =~= key_id());
            assert(("url = \"")@ =~= key_url());
            assert(("title = \"")@ =~= key_title());
            assert(self.id@.skip(0) =~= self.id@);
            assert(self.url@.skip(0) =~= self.url@);
            assert(self.title@.skip(0) =~= self.title@);
            lemma_join3(
                kv_line(key_id(), self@.id),
                kv_line(key_url(), self@.url),
                kv_line(key_title(), self@.title),
            );
            assert(out@ =~= join_lines(base_lines(self@)));
            assert(self@.examples.take(0) =~= Seq::<ExampleView>::empty());
            assert(example_lines(Seq::<ExampleView>::empty()) =~= Seq::<Seq<char>>::empty());
            assert(base_lines(self@) + Seq::<Seq<char>>::empty() =~= base_lines(self@));
        }
        let n = self.examples.len();
        let mut k: usize = 0;
        while k < n
            invariant
                n == self.examples.len(),
                k <= n,
                out@ == join_lines(
                    base_lines(self@) + example_lines(self@.examples.take(k as int)),
                ),
            decreases n - k,
        {
            out.append("\n[[examples]]\n");
            out.append("input = \"");
            let e_in = escape_from(self.examples[k].input.as_str(), 0);
            out.append(e_in.as_str());
            out.append("\"\n");
            out.append("output = \"");
            let e_out = escape_from(self.examples[k].output.as_str(), 0);
            out.append(e_out.as_str());
            out.append("\"\n");
            proof {
                reveal_strlit("\n[[examples]]\n");
                reveal_strlit("input = \"");
                reveal_strlit("output = \"");
                reveal_strlit("\"\n");
                let ev = self@.examples[k as int];
                assert(self.examples@[k as int]@ == ev);
                assert(ev.input.skip(0) =~= ev.input);
                assert(ev.output.skip(0) =~= ev.output);
                assert(("\n[[examples]]\n")@ =~= seq!['\n'] + header_line() + seq!['\n']);
                assert(("input = \"")@ =~= key_input());
                assert(("output = \"")@ =~= key_output());
                let ex4: Seq<Seq<char>> = seq![
                    Seq::<char>::empty(),
                    header_line(),
                    kv_line(key_input(), ev.input),
                    kv_line(key_output(), ev.output),
                ];
                lemma_join4(
                    Seq::<char>::empty(),
                    header_line(),
                    kv_line(key_input(), ev.input),
                    kv_line(key_output(), ev.output),
                );
                lemma_example_lines_app(self@.examples.take(k as int), seq![ev]);
                assert(self@.examples.take(k as int + 1) =~= self@.examples.take(k as int)
                    + seq![ev]);
                assert(seq![ev].drop_first() =~= Seq::<ExampleView>::empty());
                assert(example_lines(Seq::<ExampleView>::empty()) == Seq::<Seq<char>>::empty());
                assert(seq![ev][0] == ev);
                assert(example_lines(seq![ev]) == ex4 + example_lines(seq![ev].drop_first()));
                assert(example_lines(seq![ev]) =~= ex4);
                lemma_join_app(
                    base_lines(self@) + example_lines(self@.examples.take(k as int)),
                    ex4,
                );
                assert(base_lines(self@) + example_lines(self@.examples.take(k as int + 1)) =~= (
                base_lines(self@) + example_lines(self@.examples.take(k as int))) + ex4);
                assert(out@ =~= join_lines(
                    base_lines(self@) + example_lines(self@.examples.take(k as int + 1)),
                ));
            }
            k = k + 1;
        }
        proof {
            assert(self@.examples.take(n as int) =~= self@.examples);
        }
        out
    }
}

/// The characters of a string slice, one by one.
fn chars_of(s: &str) -> (r: Vec<char>)
    ensures
        r@ == s@,
{
    let n = s.unicode_len();
    let mut r: Vec<char> = Vec::new();
    let mut i: usize = 0;
    while i < n
        invariant
            n == s@.len(),
            i <= n,
            r@ == s@.take(i as int),
        decreases n - i,
    {
        r.push(s.get_char(i));
        proof {
            assert(s@.take(i as int + 1) =~= s@.take(i as int).push(s@[i as int]));
        }
        i = i + 1;
    }
    proof {
        assert(s@.take(n as int) =~= s@);
    }
    r
}

/// A string built back from characters.
fn string_of(cs: &Vec<char>) -> (r: String)
    ensures
        r@ == cs@,
{
    let mut r = String::new();
    let mut i: usize = 0;
    while i < cs.len()
        invariant
            i <= cs.len(),
            r@ == cs@.take(i as int),
        decreases cs.len() - i,
    {
        r.push(cs[i]);
        proof {
            assert(cs@.take(i as int + 1) =~= cs@.take(i as int).push(cs@[i as int]));
        }
        i = i + 1;
    }
    proof {
        assert(cs@.take(cs.len() as int) =~= cs@);
    }
    r
}

/// A copy of the characters in `[a, b)`.
fn subvec(cs: &Vec<char>, a: usize, b: usize) -> (r: Vec<char>)
    requires
        a <= b <= cs.len(),
    ensures
        r@ == cs@.subrange(a as int, b as int),
{
    let mut r: Vec<char> = Vec::new();
    let mut i: usize = a;
    while i < b
        invariant
            a <= i <= b <= cs.len(),
            r@ == cs@.subrange(a as int, i as int),
        decreases b - i,
    {
        r.push(cs[i]);
        proof {
            assert(cs@.subrange(a as int, i as int + 1) =~= cs@.subrange(
                a as int,
                i as int,
            ).push(cs@[i as int]));
        }
        i = i + 1;
    }
    r
}

/// Position of the next line-feed at or after `from`, or the end.
fn find_break(cs: &Vec<char>, from: usize) -> (r: usize)
    requires
        from <= cs.len(),
    ensures
        from <= r <= cs.len(),
        r - from == line_break(cs@.skip(from as int)),
    decreases cs.len() - from,
{
    if from == cs.len() {
        proof {
            assert(cs@.skip(from as int) =~= Seq::<char>::empty());
        }
        from
    } else if cs[from] == '\n' {
        proof {
            assert(cs@.skip(from as int)[0] == cs@[from as int]);
        }
        from
    } else {
        let r = find_break(cs, from + 1);
        proof {
            assert(cs@.skip(from as int)[0] == cs@[from as int]);
            assert(cs@.skip(from as int).drop_first() =~= cs@.skip(from as int + 1));
        }
        r
    }
}

/// The views of a sequence of character vectors.
pub open spec fn views_of(ls: Seq<Vec<char>>) -> Seq<Seq<char>> {
    Seq::new(ls.len(), |i: int| ls[i]@)
}

/// The lines of the text from position `from` on.
fn split_lines_exec(cs: &Vec<char>, from: usize) -> (r: Vec<Vec<char>>)
    requires
        from <= cs.len(),
    ensures
        views_of(r@) == split_lines(cs@.skip(from as int)),
    decreases cs.len() - from,
{
    if from == cs.len() {
        let r: Vec<Vec<char>> = Vec::new();
        proof {
            assert(cs@.skip(from as int) =~= Seq::<char>::empty());
            assert(views_of(r@) =~= split_lines(cs@.skip(from as int)));
        }
        r
    } else {
        let brk = find_break(cs, from);
        let line = subvec(cs, from, brk);
        if brk == cs.len() {
            let mut r: Vec<Vec<char>> = Vec::new();
            r.push(line);
            proof {
                let sk = cs@.skip(from as int);
                assert(line_break(sk) >= sk.len());
                assert(cs@.subrange(from as int, brk as int) =~= sk);
                assert(views_of(r@) =~= seq![sk]);
            }
            r
        } else {
            let mut r: Vec<Vec<char>> = Vec::new();
            r.push(line);
            let mut rest = split_lines_exec(cs, brk + 1);
            r.append(&mut rest);
            proof {
                let sk = cs@.skip(from as int);
                let i = line_break(sk) as int;
                assert(i == brk - from);
                assert(i < sk.len());
                assert(sk.subrange(0, i) =~= cs@.subrange(from as int, brk as int));
                assert(sk.skip(i + 1) =~= cs@.skip(brk as int + 1));
                assert(views_of(r@) =~= seq![sk.subrange(0, i)] + split_lines(sk.skip(i + 1)));
            }
            r
        }
    }
}

/// The character an escape code stands for, executably.
fn unescape_code_exec(c: char) -> (r: Option<char>)
    ensures
        r == unescape_code(c),
{
    if c == '\\' {
        Some('\\')
    } else if c == '"' {
        Some('"')
    } else if c == 'n' {
        Some('\n')
    } else if c == 'r' {
        Some('\r')
    } else if c == 't' {
        Some('\t')
    } else {
        None
    }
}

/// Undoes the escapes in the tail of `cs` from position `i` on.
fn unescape_from(cs: &Vec<char>, i: usize) -> (r: Option<Vec<char>>)
    requires
        i <= cs.len(),
    ensures
        match r {
            Some(v) => unescape(cs@.skip(i as int)) == Some(v@),
            None => unescape(cs@.skip(i as int)) is None,
        },
    decreases cs.len() - i,
{
    if i == cs.len() {
        let v: Vec<char> = Vec::new();
        proof {
            assert(cs@.skip(i as int) =~= Seq::<char>::empty());
            assert(v@ =~= Seq::<char>::empty());
        }
        Some(v)
    } else {
        let c = cs[i];
        proof {
            assert(cs@.skip(i as int)[0] == cs@[i as int]);
        }
        if c == '\\' {
            if i + 1 < cs.len() {
                proof {
                    assert(cs@.skip(i as int)[1] == cs@[i as int + 1]);
                    assert(cs@.skip(i as int).skip(2) =~= cs@.skip(i as int + 2));
                }
                match unescape_code_exec(cs[i + 1]) {
                    Some(c2) => match unescape_from(cs, i + 2) {
                        Some(mut v) => {
                            v.insert(0, c2);
                            proof {
                                assert(v@ =~= seq![c2] + v@.drop_first());
                            }
                            Some(v)
                        },
                        None => None,
                    },
                    None => None,
                }
            } else {
                None
            }
        } else {
            proof {
                assert(cs@.skip(i as int).drop_first() =~= cs@.skip(i as int + 1));
            }
            match unescape_from(cs, i + 1) {
                Some(mut v) => {
                    v.insert(0, c);
                    proof {
                        assert(v@ =~= seq![c] + v@.drop_first());
                    }
                    Some(v)
                },
                None => None,
            }
        }
    }
}

/// Whether `key` is a character-for-character prefix of `line`, from
/// position `i` on.
fn prefix_matches(line: &Vec<char>, key: &Vec<char>, i: usize) -> (r: bool)
    requires
        key.len() <= line.len(),
        i <= key.len(),
    ensures
        r == (line@.subrange(i as int, key@.len() as int) == key@.subrange(
            i as int,
            key@.len() as int,
        )),
    decreases key.len() - i,
{
    if i == key.len() {
        proof {
            assert(line@.subrange(i as int, key@.len() as int) =~= key@.subrange(
                i as int,
                key@.len() as int,
            ));
        }
        true
    } else if line[i] == key[i] {
        let r = prefix_matches(line, key, i + 1);
        proof {
            let n = key@.len() as int;
            let l_sub = line@.subrange(i as int, n);
            let k_sub = key@.subrange(i as int, n);
            assert(l_sub[0] == line@[i as int]);
            assert(k_sub[0] == key@[i as int]);
            assert(l_sub.drop_first() =~= line@.subrange(i as int + 1, n));
            assert(k_sub.drop_first() =~= key@.subrange(i as int + 1, n));
            if r {
                assert(l_sub =~= seq![line@[i as int]] + line@.subrange(i as int + 1, n));
                assert(k_sub =~= seq![key@[i as int]] + key@.subrange(i as int + 1, n));
            } else {
                if l_sub == k_sub {
                    assert(l_sub.drop_first() == k_sub.drop_first());
                }
            }
        }
        r
    } else {
        proof {
            let n = key@.len() as int;
            if line@.subrange(i as int, n) == key@.subrange(i as int, n) {
                assert(line@.subrange(i as int, n)[0] == key@.subrange(i as int, n)[0]);
            }
        }
        false
    }
}

/// Whether two character vectors hold the same text.
fn vec_eq(a: &Vec<char>, b: &Vec<char>) -> (r: bool)
    ensures
        r == (a@ == b@),
{
    if a.len() != b.len() {
        proof {
            if a@ == b@ {
                assert(a@.len() == b@.len());
            }
        }
        false
    } else {
        let r = prefix_matches(a, b, 0);
        proof {
            assert(a@.subrange(0, b@.len() as int) =~= a@);
            assert(b@.subrange(0, b@.len() as int) =~= b@);
        }
        r
    }
}

/// Reads the value out of a `key = "escaped value"` line, executably.
fn parse_kv_exec(line: &Vec<char>, key: &Vec<char>) -> (r: Option<String>)
    ensures
        match r {
            Some(v) => parse_kv(line@, key@) == Some(v@),
            None => parse_kv(line@, key@) is None,
        },
{
    if line.len() <= key.len() {
        return None;
    }
    if !prefix_matches(line, key, 0) {
        proof {
            assert(line@.subrange(0, key@.len() as int) != key@.subrange(0, key@.len() as int));
            assert(key@.subrange(0, key@.len() as int) =~= key@);
        }
        return None;
    }
    proof {
        assert(key@.subrange(0, key@.len() as int) =~= key@);
    }
    if line[line.len() - 1] != '"' {
        return None;
    }
    let middle = subvec(line, key.len(), line.len() - 1);
    match unescape_from(&middle, 0) {
        Some(v) => {
            let s = string_of(&v);
            proof {
                assert(middle@.skip(0) =~= middle@);
            }
            Some(s)
        },
        None => {
            proof {
                assert(middle@.skip(0) =~= middle@);
            }
            None
        },
    }
}

fn key_id_exec() -> (r: Vec<char>)
    ensures
        r@ == key_id(),
{
    let r = chars_of("id = \"");
    proof {
        reveal_strlit("id = \"");
        assert(r@ =~= key_id());
    }
    r
}

fn key_url_exec() -> (r: Vec<char>)
    ensures
        r@ == key_url(),
{
    let r = chars_of("url = \"");
    proof {
        reveal_strlit("url = \"");
        assert(r@ =~= key_url());
    }
    r
}

fn key_title_exec() -> (r: Vec<char>)
    ensures
        r@ == key_title(),
{
    let r = chars_of("title = \"");
    proof {
        reveal_strlit("title = \"");
        assert(r@ =~= key_title());
    }
    r
}

fn key_input_exec() -> (r: Vec<char>)
    ensures
        r@ == key_input(),
{
    let r = chars_of("input = \"");
    proof {
        reveal_strlit("input = \"");
        assert(r@ =~= key_input());
    }
    r
}

fn key_output_exec() -> (r: Vec<char>)
    ensures
        r@ == key_output(),
{
    let r = chars_of("output = \"");
    proof {
        reveal_strlit("output = \"");
        assert(r@ =~= key_output());
    }
    r
}

fn header_exec() -> (r: Vec<char>)
    ensures
        r@ == header_line(),
{
    let r = chars_of("[[examples]]");
    proof {
        reveal_strlit("[[examples]]");
        assert(r@ =~= header_line());
    }
    r
}

/// Reads the examples back out of their line groups, executably.
fn parse_examples_exec(
    lines: &Vec<Vec<char>>,
    from: usize,
    k_in: &Vec<char>,
    k_out: &Vec<char>,
    header: &Vec<char>,
) -> (r: Option<Vec<Example>>)
    requires
        from <= lines.len(),
        k_in@ == key_input(),
        k_out@ == key_output(),
        header@ == header_line(),
    ensures
        match r {
            Some(es) => parse_examples(views_of(lines@).skip(from as int)) == Some(
                crate::problem::examples_view(es@),
            ),
            None => parse_examples(views_of(lines@).skip(from as int)) is None,
        },
    decreases lines.len() - from,
{
    let ghost ls = views_of(lines@).skip(from as int);
    if from == lines.len() {
        let es: Vec<Example> = Vec::new();
        proof {
            assert(ls =~= Seq::<Seq<char>>::empty());
            assert(crate::problem::examples_view(es@) =~= Seq::<ExampleView>::empty());
        }
        Some(es)
    } else if lines.len() - from >= 4 {
        proof {
            assert(ls.len() == lines.len() - from);
            assert(ls[0] == lines@[from as int]@);
            assert(ls[1] == lines@[from as int + 1]@);
            assert(ls[2] == lines@[from as int + 2]@);
            assert(ls[3] == lines@[from as int + 3]@);
        }
        if lines[from].len() != 0 {
            proof {
                if ls[0] == Seq::<char>::empty() {
                    assert(ls[0].len() == 0);
                }
            }
            return None;
        }
        proof {
            assert(ls[0] =~= Seq::<char>::empty());
        }
        if !vec_eq(&lines[from + 1], header) {
            return None;
        }
        let i_v = match parse_kv_exec(&lines[from + 2], k_in) {
            Some(v) => v,
            None => {
                return None;
            },
        };
        let o_v = match parse_kv_exec(&lines[from + 3], k_out) {
            Some(v) => v,
            None => {
                return None;
            },
        };
        proof {
            assert(ls.skip(4) =~= views_of(lines@).skip(from as int + 4));
        }
        match parse_examples_exec(lines, from + 4, k_in, k_out, header) {
            Some(mut es) => {
                let e = Example { input: i_v, output: o_v };
                es.insert(0, e);
                proof {
                    let tail = es@.drop_first();
                    assert(es@ =~= seq![e] + tail);
                    assert(crate::problem::examples_view(es@) =~= seq![
                        ExampleView { input: e.input@, output: e.output@ },
                    ] + crate::problem::examples_view(tail));
                }
                Some(es)
            },
            None => None,
        }
    } else {
        None
    }
}

impl Problem {
    /// Reads a stored problem file back: the parse-and-validate half of the
    /// load operation. The caller reads the stored file for `id` and passes
    /// its text; a missing file is its `NotFound` case.
    pub fn read(id: &str, contents: &str) -> (r: Result<Problem, StoreError>)
        ensures
            match r {
                Ok(p) => read_spec(id@, contents@) == Ok::<ProblemView, StoreError>(p@),
                Err(e) => read_spec(id@, contents@) == Err::<ProblemView, StoreError>(e),
            },
    {
        let cs = chars_of(contents);
        let lines = split_lines_exec(&cs, 0);
        proof {
            assert(cs@.skip(0) =~= contents@);
        }
        if lines.len() < 3 {
            return Err(StoreError::Corrupt);
        }
        let kid = key_id_exec();
        let kurl = key_url_exec();
        let ktitle = key_title_exec();
        proof {
            let ls = views_of(lines@);
            assert(ls[0] == lines@[0]@);
            assert(ls[1] == lines@[1]@);
            assert(ls[2] == lines@[2]@);
        }
        let id_v = match parse_kv_exec(&lines[0], &kid) {
            Some(v) => v,
            None => {
                return Err(StoreError::Corrupt);
            },
        };
        let url_v = match parse_kv_exec(&lines[1], &kurl) {
            Some(v) => v,
            None => {
                return Err(StoreError::Corrupt);
            },
        };
        let title_v = match parse_kv_exec(&lines[2], &ktitle) {
            Some(v) => v,
            None => {
                return Err(StoreError::Corrupt);
            },
        };
        let kin = key_input_exec();
        let kout = key_output_exec();
        let hdr = header_exec();
        let es = match parse_examples_exec(&lines, 3, &kin, &kout, &hdr) {
            Some(es) => es,
            None => {
                return Err(StoreError::Corrupt);
            },
        };
        let p = Problem { id: id_v, url: url_v, title: title_v, examples: es };
        proof {
            assert(decode_spec(contents@) == Some(p@));
        }
        let id_owned: String = id.to_owned();
        if !p.id.eq(&id_owned) {
            return Err(StoreError::IdentityMismatch);
        }
        Ok(p)
    }
}

} // verus!
