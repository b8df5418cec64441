//! Documents: an id and the set of normalized tokens of one line of text.
//! A token is a whitespace-separated word with its leading and trailing
//! non-alphanumeric characters removed, lower-cased.

use vstd::prelude::*;
use vstd::string::StringExecFns;
use vstd::std_specs::iter::IteratorSpec;
use crate::plan::views;

verus! {

broadcast use vstd::string::group_string_axioms;

/// A document id and its tokens, each token once.
pub type Document = (u64, Vec<String>);

/// Whether a character is whitespace: it has the Unicode `White_Space`
/// property, as `char::is_whitespace` decides.
pub open spec fn is_space(c: char) -> bool {
    let u = c as u32;
    ||| 0x09 <= u <= 0x0d
    ||| u == 0x20
    ||| u == 0x85
    ||| u == 0xa0
    ||| u == 0x1680
    ||| 0x2000 <= u <= 0x200a
    ||| u == 0x2028
    ||| u == 0x2029
    ||| u == 0x202f
    ||| u == 0x205f
    ||| u == 0x3000
}

/// Whether std counts a character as alphanumeric.
pub uninterp spec fn is_word_char(c: char) -> bool;

/// What std's lower-casing makes of a text.
pub uninterp spec fn lower_of(s: Seq<char>) -> Seq<char>;

/// Whether a character is whitespace.
fn char_is_space(c: char) -> (r: bool)
    ensures
        r == is_space(c),
{
    let u = c as u32;
    (0x09 <= u && u <= 0x0d) || u == 0x20 || u == 0x85 || u == 0xa0 || u == 0x1680 || (0x2000 <= u
        && u <= 0x200a) || u == 0x2028 || u == 0x2029 || u == 0x202f || u == 0x205f || u == 0x3000
}

/// Relies on `char::is_alphanumeric`, which depends on the character alone.
#[verifier::external_body]
fn char_is_word_char(c: char) -> (r: bool)
    ensures
        r == is_word_char(c),
{
    c.is_alphanumeric()
}

/// Relies on `str::to_lowercase`, whose result depends on the text alone;
/// each character lowers to one or more characters.
#[verifier::external_body]
fn lowercase(s: &str) -> (r: String)
    ensures
        r@ == lower_of(s@),
        (s@.len() == 0) == (r@.len() == 0),
{
    s.to_lowercase()
}

/// Relies on `String::push`, which appends one character.
#[verifier::external_body]
fn push_char(s: &mut String, c: char)
    ensures
        final(s)@ == old(s)@.push(c),
{
    s.push(c)
}

/// The words of a text: its maximal runs of non-whitespace characters.
pub open spec fn words(s: Seq<char>) -> Seq<Seq<char>>
    decreases s.len(),
{
    if s.len() == 0 {
        Seq::empty()
    } else {
        let w = words(s.drop_last());
        let c = s.last();
        if is_space(c) {
            w
        } else if s.len() >= 2 && !is_space(s[s.len() - 2]) {
            w.update(w.len() - 1, w.last().push(c))
        } else {
            w.push(seq![c])
        }
    }
}

/// A word without its leading non-alphanumeric characters.
pub open spec fn trim_start(w: Seq<char>) -> Seq<char>
    decreases w.len(),
{
    if w.len() > 0 && !is_word_char(w[0]) {
        trim_start(w.drop_first())
    } else {
        w
    }
}

/// A word without its trailing non-alphanumeric characters.
pub open spec fn trim_end(w: Seq<char>) -> Seq<char>
    decreases w.len(),
{
    if w.len() > 0 && !is_word_char(w.last()) {
        trim_end(w.drop_last())
    } else {
        w
    }
}

pub open spec fn trim(w: Seq<char>) -> Seq<char> {
    trim_end(trim_start(w))
}

/// The normalized words of a word sequence: each word trimmed, empty ones
/// dropped, the rest lower-cased.
pub open spec fn normalized_words(ws: Seq<Seq<char>>) -> Seq<Seq<char>>
    decreases ws.len(),
{
    if ws.len() == 0 {
        Seq::empty()
    } else {
        let previous = normalized_words(ws.drop_last());
        let t = trim(ws.last());
        if t.len() == 0 {
            previous
        } else {
            previous.push(lower_of(t))
        }
    }
}

/// A sequence with each value kept once, where it first appears.
pub open spec fn distinct(ts: Seq<Seq<char>>) -> Seq<Seq<char>>
    decreases ts.len(),
{
    if ts.len() == 0 {
        Seq::empty()
    } else {
        let previous = distinct(ts.drop_last());
        if previous.contains(ts.last()) {
            previous
        } else {
            previous.push(ts.last())
        }
    }
}

/// The tokens of a word sequence: its normalized words, each kept once.
pub open spec fn tokens_of_words(ws: Seq<Seq<char>>) -> Seq<Seq<char>> {
    distinct(normalized_words(ws))
}

/// The tokens of a text.
pub open spec fn tokens_of(s: Seq<char>) -> Seq<Seq<char>> {
    tokens_of_words(words(s))
}

pub open spec fn char_views(v: Seq<Vec<char>>) -> Seq<Seq<char>> {
    v.map_values(|x: Vec<char>| x@)
}

/// The characters of a text.
fn chars_of(s: &str) -> (r: Vec<char>)
    ensures
        r@ == s@,
{
    let mut it = s.chars();
    let mut out: Vec<char> = Vec::new();
    loop
        invariant
            out@ + it.remaining() == s@,
            it.decrease() is Some,
        ensures
            out@ == s@,
        decreases it.decrease()->0,
    {
        match it.next() {
            Some(c) => {
                out.push(c);
            },
            None => {
                assert(out@ + it.remaining() =~= out@);
                break;
            },
        }
    }
    out
}

proof fn lemma_words_end_in_word(s: Seq<char>)
    requires
        s.len() > 0,
        !is_space(s.last()),
    ensures
        words(s).len() > 0,
    decreases s.len(),
{
    if s.len() >= 2 && !is_space(s[s.len() - 2]) {
        lemma_words_end_in_word(s.drop_last());
    }
}

/// Splits a character sequence into its words.
fn split_words(chars: &Vec<char>) -> (r: Vec<Vec<char>>)
    ensures
        char_views(r@) == words(chars@),
{
    let mut out: Vec<Vec<char>> = Vec::new();
    let mut i: usize = 0;
    while i < chars.len()
        invariant
            i <= chars@.len(),
            char_views(out@) == words(chars@.take(i as int)),
        decreases chars@.len() - i,
    {
        let c = chars[i];
        let ghost before = out@;
        let ghost s = chars@.take(i + 1);
        assert(s.drop_last() =~= chars@.take(i as int));
        if !char_is_space(c) {
            if i >= 1 && !char_is_space(chars[i - 1]) {
                proof {
                    lemma_words_end_in_word(chars@.take(i as int));
                }
                let last = out.len() - 1;
                out[last].push(c);
                assert(char_views(out@) =~= words(s));
            } else {
                let mut w: Vec<char> = Vec::new();
                w.push(c);
                out.push(w);
                assert(char_views(out@) =~= words(s));
            }
        }
        i = i + 1;
    }
    assert(chars@.take(chars@.len() as int) =~= chars@);
    out
}

/// Whether a list holds a token.
pub(crate) fn contains_token(list: &Vec<String>, token: &String) -> (r: bool)
    ensures
        r == views(list@).contains(token@),
{
    let mut i: usize = 0;
    while i < list.len()
        invariant
            i <= list@.len(),
            forall|k: int| 0 <= k < i ==> list@[k]@ != token@,
        decreases list@.len() - i,
    {
        if list[i] == *token {
            assert(views(list@)[i as int] == token@);
            return true;
        }
        i = i + 1;
    }
    proof {
        if views(list@).contains(token@) {
            let k = choose|k: int| 0 <= k < views(list@).len() && views(list@)[k] == token@;
            assert(list@[k]@ == token@);
        }
    }
    false
}

proof fn lemma_trim_start_step(w: Seq<char>, a: int)
    requires
        0 <= a < w.len(),
        !is_word_char(w[a]),
    ensures
        trim_start(w.skip(a)) == trim_start(w.skip(a + 1)),
{
    assert(w.skip(a).drop_first() =~= w.skip(a + 1));
}

proof fn lemma_trim_end_step(w: Seq<char>, a: int, b: int)
    requires
        0 <= a < b <= w.len(),
        !is_word_char(w[b - 1]),
    ensures
        trim_end(w.subrange(a, b)) == trim_end(w.subrange(a, b - 1)),
{
    assert(w.subrange(a, b).drop_last() =~= w.subrange(a, b - 1));
}

/// The bounds of a word once trimmed.
fn trim_bounds(w: &Vec<char>) -> (r: (usize, usize))
    ensures
        r.0 <= r.1 <= w@.len(),
        w@.subrange(r.0 as int, r.1 as int) == trim(w@),
{
    let n = w.len();
    let mut a: usize = 0;
    assert(w@.skip(0) =~= w@);
    while a < n && !char_is_word_char(w[a])
        invariant
            n == w@.len(),
            a <= n,
            trim_start(w@) == trim_start(w@.skip(a as int)),
        decreases n - a,
    {
        proof {
            lemma_trim_start_step(w@, a as int);
        }
        a = a + 1;
    }
    assert(trim_start(w@.skip(a as int)) == w@.skip(a as int));
    assert(w@.skip(a as int) =~= w@.subrange(a as int, n as int));
    let mut b: usize = n;
    while b > a && !char_is_word_char(w[b - 1])
        invariant
            n == w@.len(),
            a <= b <= n,
            trim(w@) == trim_end(w@.subrange(a as int, b as int)),
        decreases b,
    {
        proof {
            lemma_trim_end_step(w@, a as int, b as int);
        }
        b = b - 1;
    }
    proof {
        let t = w@.subrange(a as int, b as int);
        if b > a {
            assert(t.last() == w@[b - 1]);
        }
        assert(trim_end(t) == t);
    }
    (a, b)
}

/// The characters `a..b` as a string.
fn string_of(chars: &Vec<char>, a: usize, b: usize) -> (r: String)
    requires
        a <= b <= chars@.len(),
    ensures
        r@ == chars@.subrange(a as int, b as int),
{
    let mut s = String::new();
    let mut i: usize = a;
    while i < b
        invariant
            a <= i <= b,
            b <= chars@.len(),
            s@ == chars@.subrange(a as int, i as int),
        decreases b - i,
    {
        push_char(&mut s, chars[i]);
        assert(s@ =~= chars@.subrange(a as int, i + 1));
        i = i + 1;
    }
    s
}

/// The normalized words of a character sequence.
fn normalize_words(chars: &Vec<char>) -> (r: Vec<String>)
    ensures
        views(r@) == normalized_words(words(chars@)),
        forall|i: int| 0 <= i < r@.len() ==> (#[trigger] r@[i])@.len() > 0,
{
    let ws = split_words(chars);
    let ghost wv = char_views(ws@);
    let mut out: Vec<String> = Vec::new();
    let mut k: usize = 0;
    while k < ws.len()
        invariant
            wv == char_views(ws@),
            wv == words(chars@),
            k <= ws@.len(),
            views(out@) == normalized_words(wv.take(k as int)),
            forall|i: int| 0 <= i < out@.len() ==> (#[trigger] out@[i])@.len() > 0,
        decreases ws@.len() - k,
    {
        let ghost before = out@;
        assert(wv.take(k + 1).drop_last() =~= wv.take(k as int));
        assert(wv.take(k + 1).last() == ws@[k as int]@);
        let (a, b) = trim_bounds(&ws[k]);
        if a < b {
            let word = string_of(&ws[k], a, b);
            let token = lowercase(word.as_str());
            out.push(token);
            assert(views(out@) =~= views(before).push(token@));
        }
        k = k + 1;
    }
    assert(wv.take(ws@.len() as int) =~= wv);
    out
}

/// The given tokens with each kept once, where it first appears.
pub fn distinct_tokens(tokens: &Vec<String>) -> (r: Vec<String>)
    ensures
        views(r@) == distinct(views(tokens@)),
        views(r@).no_duplicates(),
{
    let ghost tv = views(tokens@);
    let mut out: Vec<String> = Vec::new();
    let mut k: usize = 0;
    while k < tokens.len()
        invariant
            tv == views(tokens@),
            k <= tokens@.len(),
            views(out@) == distinct(tv.take(k as int)),
        decreases tokens@.len() - k,
    {
        let ghost before = out@;
        assert(tv.take(k + 1).drop_last() =~= tv.take(k as int));
        assert(tv.take(k + 1).last() == tokens@[k as int]@);
        if !contains_token(&out, &tokens[k]) {
            out.push(tokens[k].clone());
            assert(views(out@) =~= views(before).push(tokens@[k as int]@));
        }
        k = k + 1;
    }
    assert(tv.take(tokens@.len() as int) =~= tv);
    proof {
        lemma_distinct_unique(tv);
    }
    out
}

/// No value appears twice in `distinct(ts)`, and each comes from `ts`.
pub proof fn lemma_distinct_unique(ts: Seq<Seq<char>>)
    ensures
        distinct(ts).no_duplicates(),
        forall|x: Seq<char>| distinct(ts).contains(x) ==> ts.contains(x),
    decreases ts.len(),
{
    if ts.len() > 0 {
        lemma_distinct_unique(ts.drop_last());
        let d = distinct(ts);
        assert forall|x: Seq<char>| d.contains(x) implies ts.contains(x) by {
            let i = choose|i: int| 0 <= i < d.len() && d[i] == x;
            let prev = distinct(ts.drop_last());
            if i < prev.len() {
                assert(prev[i] == x);
                assert(prev.contains(x));
                assert(ts.drop_last().contains(x));
                let j = choose|j: int| 0 <= j < ts.drop_last().len() && ts.drop_last()[j] == x;
                assert(ts[j] == x);
            } else {
                assert(ts[ts.len() - 1] == x);
            }
        }
    }
}

/// The tokens of a character sequence.
fn tokenize_chars(chars: &Vec<char>) -> (r: Vec<String>)
    ensures
        views(r@) == tokens_of(chars@),
        views(r@).no_duplicates(),
        forall|i: int| 0 <= i < r@.len() ==> (#[trigger] r@[i])@.len() > 0,
{
    let normalized = normalize_words(chars);
    let r = distinct_tokens(&normalized);
    proof {
        lemma_distinct_unique(views(normalized@));
        assert forall|i: int| 0 <= i < r@.len() implies (#[trigger] r@[i])@.len() > 0 by {
            assert(views(r@)[i] == r@[i]@);
            assert(distinct(views(normalized@)).contains(r@[i]@));
            assert(views(normalized@).contains(r@[i]@));
            let j = choose|j: int| 0 <= j < normalized@.len() && views(normalized@)[j] == r@[i]@;
            assert(normalized@[j]@.len() > 0);
        }
    }
    r
}

/// The tokens of a text: its whitespace-separated words with leading and
/// trailing non-alphanumeric characters removed, empty words dropped, the
/// rest lower-cased, and each distinct token kept once.
pub fn tokenize(document: &str) -> (r: Vec<String>)
    ensures
        views(r@) == tokens_of(document@),
        views(r@).no_duplicates(),
        forall|i: int| 0 <= i < r@.len() ==> (#[trigger] r@[i])@.len() > 0,
{
    let chars = chars_of(document);
    tokenize_chars(&chars)
}

/// No token appears twice.
pub proof fn lemma_tokens_unique(ws: Seq<Seq<char>>)
    ensures
        tokens_of_words(ws).no_duplicates(),
{
    lemma_distinct_unique(normalized_words(ws));
}

/// A line without its final carriage return, if it has one.
pub open spec fn strip_cr(l: Seq<char>) -> Seq<char> {
    if l.len() > 0 && l.last() == '\r' {
        l.drop_last()
    } else {
        l
    }
}

/// The finished lines of a text, and the characters after its last line
/// feed.
pub open spec fn line_scan(s: Seq<char>) -> (Seq<Seq<char>>, Seq<char>)
    decreases s.len(),
{
    if s.len() == 0 {
        (Seq::empty(), Seq::empty())
    } else {
        let (done, current) = line_scan(s.drop_last());
        if s.last() == '\n' {
            (done.push(strip_cr(current)), Seq::empty())
        } else {
            (done, current.push(s.last()))
        }
    }
}

/// The lines of a text: split at each line feed, a carriage return before
/// it removed, and no empty line after a final line feed.
pub open spec fn lines_of(s: Seq<char>) -> Seq<Seq<char>> {
    let (done, current) = line_scan(s);
    if current.len() == 0 {
        done
    } else {
        done.push(current)
    }
}

/// Splits a character sequence into its lines.
fn split_lines(chars: &Vec<char>) -> (r: Vec<Vec<char>>)
    ensures
        char_views(r@) == lines_of(chars@),
{
    let mut done: Vec<Vec<char>> = Vec::new();
    let mut current: Vec<char> = Vec::new();
    let mut i: usize = 0;
    while i < chars.len()
        invariant
            i <= chars@.len(),
            (char_views(done@), current@) == line_scan(chars@.take(i as int)),
        decreases chars@.len() - i,
    {
        let c = chars[i];
        let ghost s = chars@.take(i + 1);
        assert(s.drop_last() =~= chars@.take(i as int));
        let ghost before = done@;
        if c == '\n' {
            let n = current.len();
            if n > 0 && current[n - 1] == '\r' {
                current.pop();
            }
            let mut line: Vec<char> = Vec::new();
            std::mem::swap(&mut line, &mut current);
            done.push(line);
            assert(char_views(done@) =~= char_views(before).push(line@));
        } else {
            current.push(c);
        }
        i = i + 1;
    }
    assert(chars@.take(chars@.len() as int) =~= chars@);
    if current.len() > 0 {
        let ghost before = done@;
        done.push(current);
        assert(char_views(done@) =~= char_views(before).push(current@));
    }
    done
}

/// The document made from line `r % lines.len()`: id `r` and the tokens of
/// that line.
pub open spec fn document_of(lines: Seq<Seq<char>>, r: int) -> (u64, Seq<Seq<char>>) {
    (r as u64, tokens_of(lines[r % (lines.len() as int)]))
}

/// A text split into lines, from which documents are made on demand.
pub struct Corpus {
    lines: Vec<Vec<char>>,
}

impl Corpus {
    /// The lines of the text.
    pub closed spec fn lines(&self) -> Seq<Seq<char>> {
        char_views(self.lines@)
    }

    /// Splits a text into its lines.
    pub fn new(text: &str) -> (r: Corpus)
        ensures
            r.lines() == lines_of(text@),
    {
        let chars = chars_of(text);
        Corpus { lines: split_lines(&chars) }
    }

    /// The documents with ids `start..end`, cycling through the lines:
    /// document `r` has id `r` and the tokens of line `r` modulo the number
    /// of lines. A corpus without lines gives no documents.
    pub fn documents(&self, start: usize, end: usize) -> (r: Vec<Document>)
        requires
            start <= end,
        ensures
            r@.len() == if self.lines().len() == 0 { 0 } else { end - start },
            forall|i: int| 0 <= i < r@.len() ==> (#[trigger] r@[i]).0 == (start + i) as u64 && views(r@[i].1@)
                == document_of(self.lines(), start + i).1,
            forall|i: int| 0 <= i < r@.len() ==> views((#[trigger] r@[i]).1@).no_duplicates(),
    {
        let mut docs: Vec<Document> = Vec::new();
        if self.lines.len() == 0 {
            return docs;
        }
        let mut i: usize = start;
        while i < end
            invariant
                self.lines@.len() > 0,
                start <= i <= end,
                docs@.len() == i - start,
                forall|k: int| 0 <= k < docs@.len() ==> (#[trigger] docs@[k]).0 == (start + k) as u64 && views(
                    docs@[k].1@,
                ) == document_of(self.lines(), start + k).1,
                forall|k: int| 0 <= k < docs@.len() ==> views((#[trigger] docs@[k]).1@).no_duplicates(),
            decreases end - i,
        {
            let line = &self.lines[i % self.lines.len()];
            let tokens = tokenize_chars(line);
            docs.push((i as u64, tokens));
            i = i + 1;
        }
        docs
    }
}

/// The first `doc_count` documents of a corpus, cycling through its lines:
/// document `r` has id `r` and the tokens of line `r` modulo the number of
/// lines. A corpus without lines gives no documents.
pub fn documents(corpus: &str, doc_count: usize) -> (r: Vec<Document>)
    ensures
        r@.len() == if lines_of(corpus@).len() == 0 { 0 } else { doc_count as int },
        forall|i: int| 0 <= i < r@.len() ==> (#[trigger] r@[i]).0 == i as u64 && views(r@[i].1@)
            == document_of(lines_of(corpus@), i).1,
        forall|i: int| 0 <= i < r@.len() ==> views((#[trigger] r@[i]).1@).no_duplicates(),
{
    Corpus::new(corpus).documents(0, doc_count)
}

/// The tokens of the given documents, one after the other.
pub open spec fn all_tokens(docs: Seq<Document>) -> Seq<Seq<char>>
    decreases docs.len(),
{
    if docs.len() == 0 {
        Seq::empty()
    } else {
        all_tokens(docs.drop_last()) + views(docs.last().1@)
    }
}

/// The token sample the bucket planner works from: the tokens of the
/// given documents, one after the other.
pub fn sample_tokens(docs: &Vec<Document>) -> (r: Vec<String>)
    ensures
        views(r@) == all_tokens(docs@),
{
    let mut out: Vec<String> = Vec::new();
    let mut k: usize = 0;
    while k < docs.len()
        invariant
            k <= docs@.len(),
            views(out@) == all_tokens(docs@.take(k as int)),
        decreases docs@.len() - k,
    {
        let ghost base = out@;
        let tokens = &docs[k].1;
        let mut j: usize = 0;
        while j < tokens.len()
            invariant
                k < docs@.len(),
                *tokens == docs@[k as int].1,
                j <= tokens@.len(),
                out@ == base + tokens@.take(j as int),
            decreases tokens@.len() - j,
        {
            out.push(tokens[j].clone());
            assert(out@ =~= base + tokens@.take(j + 1));
            j = j + 1;
        }
        proof {
            assert(tokens@.take(tokens@.len() as int) =~= tokens@);
            assert(docs@.take(k + 1).drop_last() =~= docs@.take(k as int));
            assert(views(out@) =~= views(base) + views(tokens@));
        }
        k = k + 1;
    }
    assert(docs@.take(docs@.len() as int) =~= docs@);
    out
}

/// The tokens joined by single spaces.
pub open spec fn joined(ts: Seq<Seq<char>>) -> Seq<char>
    decreases ts.len(),
{
    if ts.len() == 0 {
        Seq::empty()
    } else if ts.len() == 1 {
        ts[0]
    } else {
        joined(ts.drop_last()) + seq![' '] + ts.last()
    }
}

/// The text of a document for a full-text engine: its tokens joined by
/// single spaces.
pub fn document_text(tokens: &Vec<String>) -> (r: String)
    ensures
        r@ == joined(views(tokens@)),
{
    let mut text = String::new();
    let ghost tv = views(tokens@);
    let mut k: usize = 0;
    while k < tokens.len()
        invariant
            tv == views(tokens@),
            k <= tokens@.len(),
            text@ == joined(tv.take(k as int)),
        decreases tokens@.len() - k,
    {
        proof {
            reveal_strlit(" ");
            assert(tv.take(k + 1).drop_last() =~= tv.take(k as int));
        }
        if k > 0 {
            text.append(" ");
        }
        text.append(tokens[k].as_str());
        proof {
            if k == 0 {
                assert(text@ =~= tv.take(1)[0]);
            } else {
                assert(text@ =~= joined(tv.take(k + 1)));
            }
        }
        k = k + 1;
    }
    assert(tv.take(tokens@.len() as int) =~= tv);
    text
}

} // verus!
