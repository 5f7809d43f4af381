//! Text as sequences of characters: trimming, splitting and searching.
use vstd::prelude::*;
use vstd::slice::slice_subrange;

verus! {

/// `String::push` appends one character to the end of the string.
pub assume_specification[ String::push ](s: &mut String, c: char)
    ensures
        final(s)@ == old(s)@.push(c),
;

/// The lowercase form of a text with characters outside ASCII, as
/// `str::to_lowercase` gives it.
pub uninterp spec fn unicode_lowercase(s: Seq<char>) -> Seq<char>;

/// Lowercase form of an ASCII character: `A` to `Z` become `a` to `z`.
pub open spec fn ascii_lower(c: char) -> char {
    if 'A' <= c && c <= 'Z' {
        (c as u32 + 32) as char
    } else {
        c
    }
}

/// The lowercase form of a text.
pub open spec fn lowercase(s: Seq<char>) -> Seq<char> {
    if vstd::utf8::is_ascii_chars(s) {
        s.map_values(|c: char| ascii_lower(c))
    } else {
        unicode_lowercase(s)
    }
}

/// Calls `str::to_lowercase`. The result depends on the text alone; for an
/// ASCII text it is the text with each of `A` to `Z` replaced by its small
/// letter. What happens to a text with other characters follows the Unicode
/// tables and is left to the name `unicode_lowercase`, but for two things. Every
/// character becomes one or more characters, so only the empty text becomes
/// empty. A dot is the lowercase form of a dot alone, so the result ends in a dot
/// only where the text does.
#[verifier::external_body]
pub(crate) fn to_lowercase(s: &str) -> (r: String)
    ensures
        vstd::utf8::is_ascii_chars(s@) ==> r@ == s@.map_values(|c: char| ascii_lower(c)),
        !vstd::utf8::is_ascii_chars(s@) ==> r@ == unicode_lowercase(s@),
        s@.len() > 0 ==> r@.len() > 0,
        s@.len() > 0 && s@.last() != '.' ==> r@.last() != '.',
{
    s.to_lowercase()
}

/// Characters with the Unicode property White_Space.
pub open spec fn is_white(c: char) -> bool {
    let v = c as u32;
    ||| 0x09 <= v <= 0x0D
    ||| v == 0x20
    ||| v == 0x85
    ||| v == 0xA0
    ||| v == 0x1680
    ||| 0x2000 <= v <= 0x200A
    ||| v == 0x2028
    ||| v == 0x2029
    ||| v == 0x202F
    ||| v == 0x205F
    ||| v == 0x3000
}

/// Whether `c` is white space.
pub fn is_whitespace(c: char) -> (r: bool)
    ensures
        r == is_white(c),
{
    let v: u32 = c as u32;
    (0x09 <= v && v <= 0x0D) || v == 0x20 || v == 0x85 || v == 0xA0 || v == 0x1680 || (0x2000 <= v
        && v <= 0x200A) || v == 0x2028 || v == 0x2029 || v == 0x202F || v == 0x205F || v == 0x3000
}

/// The characters of a text, in order.
pub fn chars_of(s: &str) -> (v: Vec<char>)
    ensures
        v@ == s@,
{
    let mut v: Vec<char> = Vec::new();
    for c in it: s.chars()
        invariant
            it.seq() == s@,
            v@ == it.seq().take(it.index()),
    {
        v.push(c);
    }
    v
}

/// The text made of the given characters.
pub fn text_of(v: &[char]) -> (s: String)
    ensures
        s@ == v@,
{
    let mut s = String::new();
    for i in 0..v.len()
        invariant
            s@ == v@.take(i as int),
    {
        s.push(v[i]);
    }
    s
}

/// Whether two runs of characters are the same.
pub fn same_chars(a: &[char], b: &[char]) -> (r: bool)
    ensures
        r == (a@ == b@),
{
    if a.len() != b.len() {
        return false;
    }
    for i in 0..a.len()
        invariant
            a.len() == b.len(),
            forall|j: int| 0 <= j < i ==> a@[j] == b@[j],
    {
        if a[i] != b[i] {
            return false;
        }
    }
    assert(a@ =~= b@);
    true
}

/// Whether two texts are the same.
pub fn same_text(a: &str, b: &str) -> (r: bool)
    ensures
        r == (a@ == b@),
{
    let x = a.as_bytes();
    let y = b.as_bytes();
    proof {
        vstd::utf8::encode_utf8_decode_utf8(a@);
        vstd::utf8::encode_utf8_decode_utf8(b@);
    }
    if x.len() != y.len() {
        return false;
    }
    for i in 0..x.len()
        invariant
            x@.len() == y@.len(),
            forall|j: int| 0 <= j < i ==> x@[j] == y@[j],
            x@ == vstd::utf8::encode_utf8(a@),
            y@ == vstd::utf8::encode_utf8(b@),
    {
        if x[i] != y[i] {
            return false;
        }
    }
    assert(x@ =~= y@);
    true
}

/// `s` without leading white space.
pub open spec fn trimmed_start(s: Seq<char>) -> Seq<char>
    decreases s.len(),
{
    if s.len() > 0 && is_white(s[0]) {
        trimmed_start(s.drop_first())
    } else {
        s
    }
}

/// `s` without trailing white space.
pub open spec fn trimmed_end(s: Seq<char>) -> Seq<char>
    decreases s.len(),
{
    if s.len() > 0 && is_white(s.last()) {
        trimmed_end(s.drop_last())
    } else {
        s
    }
}

/// `s` without leading and trailing white space.
pub open spec fn trimmed(s: Seq<char>) -> Seq<char> {
    trimmed_end(trimmed_start(s))
}

/// `s` without its trailing characters `c`.
pub open spec fn without_trailing(s: Seq<char>, c: char) -> Seq<char>
    decreases s.len(),
{
    if s.len() > 0 && s.last() == c {
        without_trailing(s.drop_last(), c)
    } else {
        s
    }
}

/// What is left without trailing characters `c` does not end in one.
pub proof fn lemma_without_trailing(s: Seq<char>, c: char)
    ensures
        without_trailing(s, c).len() > 0 ==> without_trailing(s, c).last() != c,
    decreases s.len(),
{
    if s.len() > 0 && s.last() == c {
        lemma_without_trailing(s.drop_last(), c);
    }
}

/// Removes leading and trailing white space.
pub fn trim(s: &[char]) -> (r: &[char])
    ensures
        r@ == trimmed(s@),
{
    let mut i: usize = 0;
    assert(s@.skip(0) =~= s@);
    while i < s.len() && is_whitespace(s[i])
        invariant
            i <= s.len(),
            trimmed_start(s@) == trimmed_start(s@.skip(i as int)),
        decreases s.len() - i,
    {
        assert(s@.skip(i as int).drop_first() =~= s@.skip(i + 1));
        i = i + 1;
    }
    let ghost left = s@.skip(i as int);
    assert(trimmed_start(s@) == left);
    let mut j: usize = s.len();
    assert(s@.subrange(i as int, j as int) =~= left);
    while i < j && is_whitespace(s[j - 1])
        invariant
            i <= j <= s.len(),
            trimmed_end(left) == trimmed_end(s@.subrange(i as int, j as int)),
        decreases j,
    {
        assert(s@.subrange(i as int, j as int).drop_last() =~= s@.subrange(i as int, j - 1));
        j = j - 1;
    }
    slice_subrange(s, i, j)
}

/// Removes the trailing characters `c`.
pub fn trim_end_char(s: &[char], c: char) -> (r: &[char])
    ensures
        r@ == without_trailing(s@, c),
{
    let mut j: usize = s.len();
    assert(s@.subrange(0, j as int) =~= s@);
    while 0 < j && s[j - 1] == c
        invariant
            j <= s.len(),
            without_trailing(s@, c) == without_trailing(s@.subrange(0, j as int), c),
        decreases j,
    {
        assert(s@.subrange(0, j as int).drop_last() =~= s@.subrange(0, j - 1));
        j = j - 1;
    }
    slice_subrange(s, 0, j)
}

/// Whether `s` begins with the characters of `p`.
pub fn starts_with(s: &[char], p: &[char]) -> (r: bool)
    ensures
        r == p@.is_prefix_of(s@),
{
    if s.len() < p.len() {
        return false;
    }
    let head = slice_subrange(s, 0, p.len());
    same_chars(head, p)
}

/// `s` with every leading copy of `p` removed.
pub open spec fn without_prefixes(s: Seq<char>, p: Seq<char>) -> Seq<char>
    decreases s.len(),
{
    if 0 < p.len() && p.is_prefix_of(s) {
        without_prefixes(s.skip(p.len() as int), p)
    } else {
        s
    }
}

/// Removes every leading copy of `p`.
pub fn trim_start_text<'a>(s: &'a [char], p: &[char]) -> (r: &'a [char])
    requires
        p@.len() > 0,
    ensures
        r@ == without_prefixes(s@, p@),
{
    let mut i: usize = 0;
    assert(s@.skip(0) =~= s@);
    loop
        invariant
            i <= s.len(),
            p@.len() > 0,
            without_prefixes(s@, p@) == without_prefixes(s@.skip(i as int), p@),
        decreases s.len() - i,
    {
        let rest = slice_subrange(s, i, s.len());
        assert(rest@ =~= s@.skip(i as int));
        if !starts_with(rest, p) {
            return rest;
        }
        assert(s@.skip(i as int).skip(p@.len() as int) =~= s@.skip(i + p@.len()));
        i = i + p.len();
    }
}

/// The part of `s` before its first `c`, or all of `s` where there is none.
pub open spec fn before(s: Seq<char>, c: char) -> Seq<char>
    decreases s.len(),
{
    if s.len() == 0 || s[0] == c {
        Seq::empty()
    } else {
        seq![s[0]] + before(s.drop_first(), c)
    }
}

proof fn lemma_before(s: Seq<char>, c: char, n: int)
    requires
        0 <= n <= s.len(),
        forall|j: int| 0 <= j < n ==> s[j] != c,
        n == s.len() || s[n] == c,
    ensures
        before(s, c) == s.take(n),
    decreases s.len(),
{
    if n > 0 {
        lemma_before(s.drop_first(), c, n - 1);
        assert(s.take(n) =~= seq![s[0]] + s.drop_first().take(n - 1));
    } else {
        assert(s.take(0) =~= Seq::empty());
    }
}

/// The part of `s` before its first `c`.
pub fn take_before(s: &[char], c: char) -> (r: &[char])
    ensures
        r@ == before(s@, c),
{
    let mut n: usize = 0;
    while n < s.len() && s[n] != c
        invariant
            n <= s.len(),
            forall|j: int| 0 <= j < n ==> s@[j] != c,
        decreases s.len() - n,
    {
        n = n + 1;
    }
    proof {
        lemma_before(s@, c, n as int);
    }
    let r = slice_subrange(s, 0, n);
    assert(r@ =~= s@.take(n as int));
    r
}

/// The longest run of characters at the end of `s` that holds no white space:
/// the last word of a text that does not end in white space.
pub open spec fn last_word(s: Seq<char>) -> Seq<char>
    decreases s.len(),
{
    if s.len() == 0 || is_white(s.last()) {
        Seq::empty()
    } else {
        last_word(s.drop_last()).push(s.last())
    }
}

proof fn lemma_last_word(s: Seq<char>, i: int)
    requires
        0 <= i <= s.len(),
        forall|j: int| i <= j < s.len() ==> !is_white(s[j]),
        i == 0 || is_white(s[i - 1]),
    ensures
        last_word(s) == s.skip(i),
    decreases s.len(),
{
    if i < s.len() {
        lemma_last_word(s.drop_last(), i);
        assert(s.skip(i) =~= s.drop_last().skip(i).push(s.last()));
    } else {
        assert(s.skip(i) =~= Seq::empty());
    }
}

/// The last word of a text that does not end in white space.
pub fn take_last_word(s: &[char]) -> (r: &[char])
    ensures
        r@ == last_word(s@),
{
    let mut i: usize = s.len();
    while 0 < i && !is_whitespace(s[i - 1])
        invariant
            i <= s.len(),
            forall|j: int| i <= j < s.len() ==> !is_white(s@[j]),
        decreases i,
    {
        i = i - 1;
    }
    proof {
        lemma_last_word(s@, i as int);
    }
    let r = slice_subrange(s, i, s.len());
    assert(r@ =~= s@.skip(i as int));
    r
}

/// The pieces of `s` between the separators `c`: one more than there are
/// separators, some of them possibly empty.
pub open spec fn pieces(s: Seq<char>, c: char) -> Seq<Seq<char>>
    decreases s.len(),
{
    if s.len() == 0 {
        seq![Seq::empty()]
    } else {
        let front = pieces(s.drop_last(), c);
        if s.last() == c {
            front.push(Seq::empty())
        } else {
            front.drop_last().push(front.last().push(s.last()))
        }
    }
}

/// A text has at least one piece.
pub proof fn lemma_pieces_nonempty(s: Seq<char>, c: char)
    ensures
        pieces(s, c).len() > 0,
    decreases s.len(),
{
    if s.len() > 0 {
        lemma_pieces_nonempty(s.drop_last(), c);
    }
}

/// Splitting two texts with a separator between them gives the pieces of the
/// one, then those of the other.
pub proof fn lemma_pieces_concat(a: Seq<char>, b: Seq<char>, c: char)
    ensures
        pieces(a.push(c) + b, c) == pieces(a, c) + pieces(b, c),
    decreases b.len(),
{
    let whole = a.push(c) + b;
    lemma_pieces_nonempty(a, c);
    if b.len() == 0 {
        assert(whole.drop_last() =~= a);
        assert(pieces(whole, c) =~= pieces(a, c) + pieces(b, c));
    } else {
        lemma_pieces_concat(a, b.drop_last(), c);
        lemma_pieces_nonempty(b.drop_last(), c);
        assert(whole.drop_last() =~= a.push(c) + b.drop_last());
        assert(pieces(whole, c) =~= pieces(a, c) + pieces(b, c));
    }
}

/// A text without separators is its only piece.
pub proof fn lemma_pieces_single(s: Seq<char>, c: char)
    requires
        forall|i: int| 0 <= i < s.len() ==> s[i] != c,
    ensures
        pieces(s, c) == seq![s],
    decreases s.len(),
{
    if s.len() == 0 {
        assert(s =~= Seq::empty());
    } else {
        lemma_pieces_single(s.drop_last(), c);
        assert(s.drop_last().push(s.last()) =~= s);
        assert(pieces(s, c) =~= seq![s]);
    }
}

/// Views of a vector of texts.
pub open spec fn texts(v: Seq<String>) -> Seq<Seq<char>> {
    v.map_values(|s: String| s@)
}

/// Splits a text at every `c`.
pub fn split(s: &[char], c: char) -> (r: Vec<String>)
    ensures
        texts(r@) == pieces(s@, c),
{
    let mut done: Vec<String> = Vec::new();
    let mut cur = String::new();
    assert(texts(done@).push(cur@) =~= pieces(s@.take(0), c)) by {
        assert(s@.take(0) =~= Seq::empty());
    }
    for i in 0..s.len()
        invariant
            texts(done@).push(cur@) == pieces(s@.take(i as int), c),
    {
        let x = s[i];
        let ghost front = pieces(s@.take(i as int), c);
        assert(s@.take(i + 1).drop_last() =~= s@.take(i as int));
        assert(front.last() == cur@ && front.drop_last() =~= texts(done@));
        if x == c {
            let ghost before_push = done@;
            done.push(cur);
            cur = String::new();
            assert(texts(done@) =~= front);
        } else {
            cur.push(x);
        }
    }
    let ghost before_push = done@;
    let ghost last = cur@;
    done.push(cur);
    assert(s@.take(s@.len() as int) =~= s@);
    assert(texts(done@) =~= texts(before_push).push(last));
    done
}

/// A line without the carriage return that ended it.
pub open spec fn without_cr(s: Seq<char>) -> Seq<char> {
    if s.len() > 0 && s.last() == '\r' {
        s.drop_last()
    } else {
        s
    }
}

/// The lines of a text. A line ends at a line feed, alone or after a carriage
/// return; the text after the last line feed is a line unless it is empty.
pub open spec fn lines(s: Seq<char>) -> Seq<Seq<char>> {
    let p = pieces(s, '\n');
    let ended = p.drop_last().map_values(|l: Seq<char>| without_cr(l));
    if p.last().len() == 0 {
        ended
    } else {
        ended.push(p.last())
    }
}

/// Splits a text into its lines.
pub fn split_lines(s: &str) -> (r: Vec<String>)
    ensures
        texts(r@) == lines(s@),
{
    let chars = chars_of(s);
    let parts = split(&chars, '\n');
    let ghost p = pieces(s@, '\n');
    proof {
        lemma_pieces_nonempty(s@, '\n');
    }
    assert(forall|k: int| 0 <= k < parts@.len() ==> #[trigger] parts@[k]@ == p[k]) by {
        assert forall|k: int| 0 <= k < parts@.len() implies #[trigger] parts@[k]@ == p[k] by {
            assert(texts(parts@)[k] == p[k]);
        }
    }
    assert(parts@.len() == p.len()) by {
        assert(texts(parts@).len() == p.len());
    }
    let ghost ended = p.drop_last().map_values(|l: Seq<char>| without_cr(l));
    let mut out: Vec<String> = Vec::new();
    let n: usize = parts.len() - 1;
    for i in 0..n
        invariant
            n + 1 == parts@.len(),
            parts@.len() == p.len(),
            forall|k: int| 0 <= k < parts@.len() ==> #[trigger] parts@[k]@ == p[k],
            ended == p.drop_last().map_values(|l: Seq<char>| without_cr(l)),
            texts(out@) == ended.take(i as int),
    {
        let line = chars_of(parts[i].as_str());
        let len: usize = line.len();
        let ghost before_push = out@;
        if len > 0 && line[len - 1] == '\r' {
            let cut = slice_subrange(&line, 0, len - 1);
            assert(cut@ =~= p[i as int].drop_last());
            out.push(text_of(cut));
        } else {
            out.push(text_of(&line));
        }
        assert(out@.last()@ == without_cr(p[i as int]));
        assert(texts(out@) =~= texts(before_push).push(without_cr(p[i as int])));
        assert(ended.take(i + 1) =~= ended.take(i as int).push(ended[i as int]));
    }
    assert(ended.take(n as int) =~= ended);
    if !parts[n].as_str().is_empty() {
        let ghost before_push = out@;
        out.push(parts[n].clone());
        assert(texts(out@) =~= texts(before_push).push(p[n as int]));
    }
    out
}

/// Whether `needle` occurs somewhere in `s`.
pub open spec fn occurs_in(needle: Seq<char>, s: Seq<char>) -> bool {
    exists|i: int|
        0 <= i <= s.len() - needle.len() && #[trigger] s.subrange(i, i + needle.len()) == needle
}

/// Whether `needle` occurs somewhere in `s`.
pub fn contains_text(s: &str, needle: &str) -> (r: bool)
    ensures
        r == occurs_in(needle@, s@),
{
    let text = chars_of(s);
    let want = chars_of(needle);
    let n: usize = want.len();
    if text.len() < n {
        return false;
    }
    let len: usize = text.len();
    let last: usize = len - n;
    let mut i: usize = 0;
    loop
        invariant
            text@ == s@,
            want@ == needle@,
            n == want@.len(),
            len == text@.len(),
            last == len - n,
            i <= last,
            forall|k: int| 0 <= k < i ==> #[trigger] s@.subrange(k, k + n) != needle@,
        decreases last - i,
    {
        if same_chars(slice_subrange(&text, i, i + n), &want) {
            assert(s@.subrange(i as int, i + needle@.len()) == needle@);
            return true;
        }
        if i == last {
            return false;
        }
        i = i + 1;
    }
}

// ---------------------------------------------------------------------------
// What trimming, splitting and searching promise
// ---------------------------------------------------------------------------

/// A text of white space alone.
pub open spec fn all_white(s: Seq<char>) -> bool {
    forall|i: int| 0 <= i < s.len() ==> is_white(#[trigger] s[i])
}

/// A text that holds no white space.
pub open spec fn no_white(s: Seq<char>) -> bool {
    forall|i: int| 0 <= i < s.len() ==> !is_white(#[trigger] s[i])
}

/// A text that does not hold `c`.
pub open spec fn free_of(s: Seq<char>, c: char) -> bool {
    forall|i: int| 0 <= i < s.len() ==> #[trigger] s[i] != c
}

/// A text that neither begins nor ends in white space.
pub open spec fn tight(s: Seq<char>) -> bool {
    s.len() > 0 ==> !is_white(s[0]) && !is_white(s.last())
}

proof fn lemma_trimmed_start_white(w: Seq<char>, s: Seq<char>)
    requires
        all_white(w),
    ensures
        trimmed_start(w + s) == trimmed_start(s),
    decreases w.len(),
{
    if w.len() == 0 {
        assert(w + s =~= s);
    } else {
        assert(is_white(w[0]));
        assert((w + s)[0] == w[0]);
        let rest = w.drop_first();
        assert forall|i: int| 0 <= i < rest.len() implies is_white(#[trigger] rest[i]) by {
            assert(rest[i] == w[i + 1]);
        }
        lemma_trimmed_start_white(rest, s);
        assert((w + s).drop_first() =~= rest + s);
    }
}

proof fn lemma_trimmed_end_white(s: Seq<char>, w: Seq<char>)
    requires
        all_white(w),
    ensures
        trimmed_end(s + w) == trimmed_end(s),
    decreases w.len(),
{
    if w.len() == 0 {
        assert(s + w =~= s);
    } else {
        assert(is_white(w[w.len() - 1]));
        assert((s + w).last() == w.last());
        let rest = w.drop_last();
        assert forall|i: int| 0 <= i < rest.len() implies is_white(#[trigger] rest[i]) by {
            assert(rest[i] == w[i]);
        }
        lemma_trimmed_end_white(s, rest);
        assert((s + w).drop_last() =~= s + rest);
    }
}

/// A text is the white space before it, what trimming leaves, and the white space
/// behind it.
pub proof fn lemma_trimmed_parts(s: Seq<char>) -> (parts: (Seq<char>, Seq<char>))
    ensures
        s == parts.0 + trimmed(s) + parts.1,
        all_white(parts.0),
        all_white(parts.1),
        tight(trimmed(s)),
        trimmed_start(s) == trimmed(s) + parts.1,
    decreases s.len(),
{
    let none = Seq::<char>::empty();
    if s.len() > 0 && is_white(s[0]) {
        let (a, b) = lemma_trimmed_parts(s.drop_first());
        let lead = seq![s[0]] + a;
        assert forall|i: int| 0 <= i < lead.len() implies is_white(#[trigger] lead[i]) by {
            if i > 0 {
                assert(lead[i] == a[i - 1]);
            }
        }
        assert(s =~= seq![s[0]] + s.drop_first());
        assert(s =~= lead + trimmed(s) + b);
        (lead, b)
    } else {
        let b = lemma_trimmed_end_parts(s);
        if trimmed_end(s).len() > 0 {
            assert(trimmed_end(s)[0] == s[0]);
        }
        assert(s =~= none + trimmed(s) + b);
        (none, b)
    }
}

proof fn lemma_trimmed_end_parts(s: Seq<char>) -> (b: Seq<char>)
    ensures
        s == trimmed_end(s) + b,
        all_white(b),
        trimmed_end(s).len() > 0 ==> !is_white(trimmed_end(s).last()),
    decreases s.len(),
{
    if s.len() > 0 && is_white(s.last()) {
        let a = lemma_trimmed_end_parts(s.drop_last());
        let b = a.push(s.last());
        assert(s =~= s.drop_last().push(s.last()));
        assert(s =~= trimmed_end(s) + b);
        b
    } else {
        assert(s =~= s + Seq::<char>::empty());
        Seq::empty()
    }
}

/// Trimming takes white space off both ends, all of it and nothing else.
pub proof fn law_trimmed(before: Seq<char>, s: Seq<char>, behind: Seq<char>)
    requires
        all_white(before),
        all_white(behind),
        tight(s),
    ensures
        trimmed(before + s + behind) == s,
{
    let whole = before + s + behind;
    assert(whole =~= before + (s + behind));
    lemma_trimmed_start_white(before, s + behind);
    if s.len() == 0 {
        assert(s + behind =~= behind + Seq::empty());
        lemma_trimmed_start_white(behind, Seq::empty());
        assert(trimmed_start(s + behind) =~= Seq::<char>::empty());
        assert(s =~= Seq::empty());
    } else {
        assert((s + behind)[0] == s[0]);
        assert(trimmed_start(s + behind) == s + behind);
        lemma_trimmed_end_white(s, behind);
    }
}

/// White space around a text makes no difference to what trimming leaves.
pub proof fn law_trimmed_again(before: Seq<char>, s: Seq<char>, behind: Seq<char>)
    requires
        all_white(before),
        all_white(behind),
    ensures
        trimmed(before + s + behind) == trimmed(s),
{
    let (a, b) = lemma_trimmed_parts(s);
    let t = trimmed(s);
    assert(before + s + behind =~= (before + a) + t + (b + behind));
    assert forall|i: int| 0 <= i < (before + a).len() implies is_white(
        #[trigger] (before + a)[i],
    ) by {
        if i >= before.len() {
            assert((before + a)[i] == a[i - before.len()]);
        } else {
            assert((before + a)[i] == before[i]);
        }
    }
    assert forall|i: int| 0 <= i < (b + behind).len() implies is_white(
        #[trigger] (b + behind)[i],
    ) by {
        if i >= b.len() {
            assert((b + behind)[i] == behind[i - b.len()]);
        } else {
            assert((b + behind)[i] == b[i]);
        }
    }
    law_trimmed(before + a, t, b + behind);
}

/// What stands before the first `c` is all that holds no `c`.
pub proof fn law_before(a: Seq<char>, c: char, b: Seq<char>)
    requires
        free_of(a, c),
    ensures
        before(a, c) == a,
        before(a.push(c) + b, c) == a,
{
    lemma_before(a, c, a.len() as int);
    assert(a.take(a.len() as int) =~= a);
    let whole = a.push(c) + b;
    lemma_before(whole, c, a.len() as int);
    assert(whole.take(a.len() as int) =~= a);
}

/// The last word is what stands behind the last white space.
pub proof fn law_last_word(a: Seq<char>, w: char, word: Seq<char>)
    requires
        is_white(w),
        no_white(word),
    ensures
        last_word(word) == word,
        last_word(a.push(w) + word) == word,
{
    lemma_last_word(word, 0);
    assert(word.skip(0) =~= word);
    let whole = a.push(w) + word;
    lemma_last_word(whole, a.len() as int + 1);
    assert(whole.skip(a.len() as int + 1) =~= word);
}

/// Trailing characters are taken off, all of them and nothing else.
pub proof fn law_without_trailing(s: Seq<char>, c: char)
    ensures
        without_trailing(s.push(c), c) == without_trailing(s, c),
        s.len() == 0 || s.last() != c ==> without_trailing(s, c) == s,
{
    assert(s.push(c).drop_last() =~= s);
}

/// Leading copies are taken off, all of them and nothing else.
pub proof fn law_without_prefixes(s: Seq<char>, p: Seq<char>)
    requires
        p.len() > 0,
    ensures
        without_prefixes(p + s, p) == without_prefixes(s, p),
        !p.is_prefix_of(s) ==> without_prefixes(s, p) == s,
{
    assert((p + s).subrange(0, p.len() as int) =~= p);
    assert((p + s).skip(p.len() as int) =~= s);
}

/// A text occurs in another exactly where the other is something, the text, and
/// something.
pub proof fn law_occurs(needle: Seq<char>, s: Seq<char>)
    ensures
        occurs_in(needle, s) <==> exists|a: Seq<char>, b: Seq<char>| #[trigger]
            (a + needle + b) == s,
{
    if occurs_in(needle, s) {
        let i = choose|i: int|
            0 <= i <= s.len() - needle.len() && #[trigger] s.subrange(i, i + needle.len())
                == needle;
        let a = s.subrange(0, i);
        let b = s.subrange(i + needle.len(), s.len() as int);
        assert(a + s.subrange(i, i + needle.len()) + b =~= s);
        assert(a + needle + b == s);
    }
    if exists|a: Seq<char>, b: Seq<char>| #[trigger] (a + needle + b) == s {
        let (a, b) = choose|a: Seq<char>, b: Seq<char>| #[trigger] (a + needle + b) == s;
        let i = a.len() as int;
        assert(s.subrange(i, i + needle.len()) =~= needle);
    }
}

/// A line as it stands in a text: without a line feed, and without a carriage
/// return at its end.
pub open spec fn plain_line(l: Seq<char>) -> bool {
    free_of(l, '\n') && (l.len() > 0 ==> l.last() != '\r')
}

/// The first line of a text ends at the first line feed, alone or behind a carriage
/// return, and the other lines are those of what follows it.
pub proof fn law_lines_first(l: Seq<char>, rest: Seq<char>)
    requires
        free_of(l, '\n'),
    ensures
        plain_line(l) ==> lines(l.push('\n') + rest) == seq![l] + lines(rest),
        lines(l.push('\r').push('\n') + rest) == seq![l] + lines(rest),
{
    lemma_lines_first(l, rest);
    lemma_lines_first(l.push('\r'), rest);
    assert(l.push('\r').drop_last() =~= l);
}

proof fn lemma_lines_first(l: Seq<char>, rest: Seq<char>)
    requires
        free_of(l, '\n'),
    ensures
        lines(l.push('\n') + rest) == seq![without_cr(l)] + lines(rest),
{
    lemma_pieces_concat(l, rest, '\n');
    lemma_pieces_single(l, '\n');
    lemma_pieces_nonempty(rest, '\n');
    let p = pieces(rest, '\n');
    let q = seq![l] + p;
    assert(q.last() == p.last());
    assert(q.drop_last() =~= seq![l] + p.drop_last());
    let f = |x: Seq<char>| without_cr(x);
    assert(q.drop_last().map_values(f) =~= seq![without_cr(l)] + p.drop_last().map_values(f));
    assert(lines(l.push('\n') + rest) =~= seq![without_cr(l)] + lines(rest));
}

/// A text without a line feed is one line, and the empty text has none.
pub proof fn law_lines_last(l: Seq<char>)
    requires
        free_of(l, '\n'),
    ensures
        lines(l) == if l.len() == 0 {
            Seq::empty()
        } else {
            seq![l]
        },
{
    lemma_pieces_single(l, '\n');
    let p = seq![l];
    let f = |x: Seq<char>| without_cr(x);
    assert(p.drop_last().map_values(f) =~= Seq::empty());
    assert(lines(l) =~= if l.len() == 0 {
        Seq::empty()
    } else {
        seq![l]
    });
}

/// Which characters are white space: of ASCII the space and the five controls from the
/// tab to the carriage return, and beyond it the spaces and line breaks of Unicode.
pub proof fn law_white(c: char)
    ensures
        (c as int) < 128 ==> (is_white(c) <==> c == ' ' || 9 <= c as int <= 13),
        128 <= c as int ==> (is_white(c) <==> c as int == 133 || c as int == 160 || c as int == 5760
            || 8192 <= c as int <= 8202 || c as int == 8232 || c as int == 8233 || c as int == 8239
            || c as int == 8287 || c as int == 12288),
        is_white('\t') && is_white('\n') && is_white('\r'),
{
}

/// A capital letter of ASCII becomes the small letter 32 places on, and every other
/// character of ASCII stays.
pub proof fn law_lowercase(s: Seq<char>, i: int)
    requires
        vstd::utf8::is_ascii_chars(s),
        0 <= i < s.len(),
    ensures
        lowercase(s).len() == s.len(),
        65 <= s[i] as int <= 90 ==> lowercase(s)[i] as int == s[i] as int + 32,
        !(65 <= s[i] as int <= 90) ==> lowercase(s)[i] == s[i],
{
}

} // verus!
