//! Text as sequences of characters: searching, trimming, splitting and
//! building strings.
use vstd::prelude::*;
use vstd::slice::slice_subrange;
use vstd::string::*;
use vstd::utf8::encode_utf8;

verus! {

/// `String::push` appends the character to the end of the string.
pub assume_specification[ String::push ](s: &mut String, c: char)
    ensures
        final(s)@ == old(s)@.push(c),
;

/// The characters of `s`, in order.
pub fn chars_of(s: &str) -> (r: Vec<char>)
    ensures
        r@ == s@,
{
    let mut out: Vec<char> = Vec::new();
    for c in it: s.chars()
        invariant
            it.seq() == s@,
            out@ == s@.take(it.index() as int),
    {
        out.push(c);
    }
    out
}

/// The string made of `chars`.
pub fn string_of(chars: &[char]) -> (r: String)
    ensures
        r@ == chars@,
{
    let mut out = String::new();
    let mut i: usize = 0;
    while i < chars.len()
        invariant
            i <= chars@.len(),
            out@ == chars@.take(i as int),
        decreases chars@.len() - i,
    {
        out.push(chars[i]);
        i += 1;
    }
    out
}

/// A copy of `s`.
pub fn copy_text(s: &str) -> (r: String)
    ensures
        r@ == s@,
{
    let mut out = String::new();
    out.append(s);
    out
}

/// Whether `a` and `b` hold the same characters.
pub fn same_text(a: &str, b: &str) -> (r: bool)
    ensures
        r == (a@ == b@),
{
    let x = a.as_bytes();
    let y = b.as_bytes();
    proof {
        vstd::utf8::encode_utf8_decode_utf8(a@);
        vstd::utf8::encode_utf8_decode_utf8(b@);
    }
    if x.len() != y.len() {
        return false;
    }
    let mut i: usize = 0;
    while i < x.len()
        invariant
            i <= x@.len(),
            x@.len() == y@.len(),
            x@ == encode_utf8(a@),
            y@ == encode_utf8(b@),
            x@.take(i as int) == y@.take(i as int),
        decreases x@.len() - i,
    {
        if x[i] != y[i] {
            return false;
        }
        i += 1;
    }
    assert(x@.take(i as int) =~= x@);
    assert(y@.take(i as int) =~= y@);
    true
}

/// Whether the characters `a` are those of `b`.
pub fn is_text(a: &[char], b: &str) -> (r: bool)
    ensures
        r == (a@ == b@),
{
    let y = chars_of(b);
    if a.len() != y.len() {
        return false;
    }
    let mut i: usize = 0;
    while i < a.len()
        invariant
            i <= a@.len(),
            a@.len() == y@.len(),
            y@ == b@,
            forall|k: int| 0 <= k < i ==> a@[k] == y@[k],
        decreases a@.len() - i,
    {
        if a[i] != y[i] {
            return false;
        }
        i += 1;
    }
    assert(a@ =~= y@);
    true
}

/// Whether `s` starts with `prefix`.
pub open spec fn starts_with(s: Seq<char>, prefix: Seq<char>) -> bool {
    prefix.len() <= s.len() && s.take(prefix.len() as int) == prefix
}

/// Whether `s` ends with `suffix`.
pub open spec fn ends_with(s: Seq<char>, suffix: Seq<char>) -> bool {
    suffix.len() <= s.len() && s.skip(s.len() - suffix.len()) == suffix
}

/// Whether `prefix` occurs in `s` at `at`.
pub open spec fn occurs_at(s: Seq<char>, prefix: Seq<char>, at: int) -> bool {
    0 <= at && at + prefix.len() <= s.len() && s.subrange(at, at + prefix.len()) == prefix
}

/// Whether `pattern` occurs in `s` at `at`.
pub fn text_at(s: &[char], pattern: &str, at: usize) -> (r: bool)
    ensures
        r == occurs_at(s@, pattern@, at as int),
{
    let p = chars_of(pattern);
    if at > s.len() || s.len() - at < p.len() {
        return false;
    }
    let mut i: usize = 0;
    while i < p.len()
        invariant
            i <= p@.len(),
            at + p@.len() <= s@.len() <= usize::MAX,
            p@ == pattern@,
            forall|k: int| 0 <= k < i ==> s@[at + k] == p@[k],
        decreases p@.len() - i,
    {
        if s[at + i] != p[i] {
            return false;
        }
        i += 1;
    }
    assert(s@.subrange(at as int, at + p@.len()) =~= p@);
    true
}

/// Whether `s` starts with `prefix`.
pub fn has_prefix(s: &[char], prefix: &str) -> (r: bool)
    ensures
        r == starts_with(s@, prefix@),
{
    let r = text_at(s, prefix, 0);
    r
}

/// Whether `s` ends with `suffix`.
pub fn has_suffix(s: &[char], suffix: &str) -> (r: bool)
    ensures
        r == ends_with(s@, suffix@),
{
    let n: usize = suffix.unicode_len();
    if n > s.len() {
        return false;
    }
    let r = text_at(s, suffix, s.len() - n);
    r
}

/// The first position of `c` in `s`, or the length of `s`.
pub open spec fn find(s: Seq<char>, c: char) -> int
    decreases s.len(),
{
    if s.len() == 0 || s[0] == c {
        0
    } else {
        1 + find(s.skip(1), c)
    }
}

/// What singles out the first position of `c`.
pub open spec fn is_first(s: Seq<char>, c: char, i: int) -> bool {
    &&& 0 <= i <= s.len()
    &&& forall|j: int| 0 <= j < i ==> s[j] != c
    &&& i < s.len() ==> s[i] == c
}

pub proof fn lemma_find(s: Seq<char>, c: char)
    ensures
        is_first(s, c, find(s, c)),
    decreases s.len(),
{
    if !(s.len() == 0 || s[0] == c) {
        lemma_find(s.skip(1), c);
        let i = find(s.skip(1), c);
        assert forall|j: int| 0 <= j < i + 1 implies s[j] != c by {
            if j > 0 {
                assert(s.skip(1)[j - 1] != c);
            }
        }
    }
}

pub proof fn lemma_find_unique(s: Seq<char>, c: char, i: int)
    requires
        is_first(s, c, i),
    ensures
        find(s, c) == i,
{
    lemma_find(s, c);
}

/// The first position of `c` in `s` at or after `from`.
pub fn find_from(s: &[char], c: char, from: usize) -> (r: usize)
    requires
        from <= s@.len(),
    ensures
        r == from + find(s@.skip(from as int), c),
        from <= r <= s@.len(),
        r < s@.len() ==> s@[r as int] == c,
        forall|j: int| from <= j < r ==> s@[j] != c,
{
    let mut i: usize = from;
    while i < s.len() && s[i] != c
        invariant
            from <= i <= s@.len(),
            forall|j: int| from <= j < i ==> s@[j] != c,
        decreases s@.len() - i,
    {
        i += 1;
    }
    proof {
        let t = s@.skip(from as int);
        assert(is_first(t, c, i - from)) by {
            assert forall|j: int| 0 <= j < i - from implies t[j] != c by {}
        }
        lemma_find_unique(t, c, i - from);
    }
    i
}

/// The last position of `c` in `s`, or -1.
pub open spec fn find_last(s: Seq<char>, c: char) -> int
    decreases s.len(),
{
    if s.len() == 0 {
        -1
    } else if s.last() == c {
        s.len() - 1
    } else {
        find_last(s.drop_last(), c)
    }
}

/// The last position of `c` in `s`.
pub fn rfind(s: &[char], c: char) -> (r: Option<usize>)
    ensures
        match r {
            Some(i) => i == find_last(s@, c) && i < s@.len(),
            None => find_last(s@, c) == -1,
        },
{
    let mut n: usize = s.len();
    assert(s@.take(n as int) =~= s@);
    while n > 0
        invariant
            n <= s@.len(),
            find_last(s@, c) == find_last(s@.take(n as int), c),
        decreases n,
    {
        if s[n - 1] == c {
            return Some(n - 1);
        }
        assert(s@.take(n as int).drop_last() =~= s@.take(n - 1));
        n -= 1;
    }
    None
}

/// The text after the last `c`, or all of `s` where there is none.
pub open spec fn after_last(s: Seq<char>, c: char) -> Seq<char> {
    s.skip(find_last(s, c) + 1)
}

/// The text after the last `c`, or all of `s` where there is none.
pub fn tail_after(s: &[char], c: char) -> (r: &[char])
    ensures
        r@ == after_last(s@, c),
{
    let n: usize = s.len();
    let from: usize = match rfind(s, c) {
        Some(i) => i + 1,
        None => 0,
    };
    let r = slice_subrange(s, from, n);
    r
}

/// The text before the first `c`, or all of `s` where there is none.
pub open spec fn before_first(s: Seq<char>, c: char) -> Seq<char> {
    s.take(find(s, c))
}

/// The text before the first `c`, or all of `s` where there is none.
pub fn head_before(s: &[char], c: char) -> (r: &[char])
    ensures
        r@ == before_first(s@, c),
{
    let i: usize = find_from(s, c, 0);
    assert(s@.skip(0) =~= s@);
    let r = slice_subrange(s, 0, i);
    r
}

/// A character with the Unicode property `White_Space`.
pub open spec fn is_white(c: char) -> bool {
    ||| '\u{9}' <= c <= '\u{d}'
    ||| c == ' '
    ||| c == '\u{85}'
    ||| c == '\u{a0}'
    ||| c == '\u{1680}'
    ||| '\u{2000}' <= c <= '\u{200a}'
    ||| c == '\u{2028}'
    ||| c == '\u{2029}'
    ||| c == '\u{202f}'
    ||| c == '\u{205f}'
    ||| c == '\u{3000}'
}

/// Whether `c` has the Unicode property `White_Space`.
pub fn white(c: char) -> (r: bool)
    ensures
        r == is_white(c),
{
    ('\u{9}' <= c && c <= '\u{d}') || c == ' ' || c == '\u{85}' || c == '\u{a0}' || c == '\u{1680}'
        || ('\u{2000}' <= c && c <= '\u{200a}') || c == '\u{2028}' || c == '\u{2029}' || c
        == '\u{202f}' || c == '\u{205f}' || c == '\u{3000}'
}

/// `s` without its leading white space.
pub open spec fn trim_start(s: Seq<char>) -> Seq<char>
    decreases s.len(),
{
    if s.len() > 0 && is_white(s[0]) {
        trim_start(s.skip(1))
    } else {
        s
    }
}

/// `s` without its trailing white space.
pub open spec fn trim_end(s: Seq<char>) -> Seq<char>
    decreases s.len(),
{
    if s.len() > 0 && is_white(s.last()) {
        trim_end(s.drop_last())
    } else {
        s
    }
}

/// `s` without leading and trailing white space.
pub open spec fn trim(s: Seq<char>) -> Seq<char> {
    trim_end(trim_start(s))
}

/// `s` without its leading white space.
pub fn trimmed_start(s: &[char]) -> (r: &[char])
    ensures
        r@ == trim_start(s@),
{
    let mut i: usize = 0;
    assert(s@.skip(0) =~= s@);
    while i < s.len() && white(s[i])
        invariant
            i <= s@.len(),
            trim_start(s@) == trim_start(s@.skip(i as int)),
        decreases s@.len() - i,
    {
        assert(s@.skip(i as int).skip(1) =~= s@.skip(i + 1));
        i += 1;
    }
    let r = slice_subrange(s, i, s.len());
    r
}

/// `s` without its trailing white space.
pub fn trimmed_end(s: &[char]) -> (r: &[char])
    ensures
        r@ == trim_end(s@),
{
    let mut n: usize = s.len();
    assert(s@.take(n as int) =~= s@);
    while n > 0 && white(s[n - 1])
        invariant
            n <= s@.len(),
            trim_end(s@) == trim_end(s@.take(n as int)),
        decreases n,
    {
        assert(s@.take(n as int).drop_last() =~= s@.take(n - 1));
        n -= 1;
    }
    let r = slice_subrange(s, 0, n);
    r
}

/// `s` without leading and trailing white space.
pub fn trimmed(s: &[char]) -> (r: &[char])
    ensures
        r@ == trim(s@),
{
    trimmed_end(trimmed_start(s))
}

/// `s` without the characters `c` that it starts with.
pub open spec fn strip_start(s: Seq<char>, c: char) -> Seq<char>
    decreases s.len(),
{
    if s.len() > 0 && s[0] == c {
        strip_start(s.skip(1), c)
    } else {
        s
    }
}

/// `s` without the characters `c` that it ends with.
pub open spec fn strip_end(s: Seq<char>, c: char) -> Seq<char>
    decreases s.len(),
{
    if s.len() > 0 && s.last() == c {
        strip_end(s.drop_last(), c)
    } else {
        s
    }
}

/// `s` without the characters `c` that it starts with.
pub fn stripped_start(s: &[char], c: char) -> (r: &[char])
    ensures
        r@ == strip_start(s@, c),
{
    let mut i: usize = 0;
    assert(s@.skip(0) =~= s@);
    while i < s.len() && s[i] == c
        invariant
            i <= s@.len(),
            strip_start(s@, c) == strip_start(s@.skip(i as int), c),
        decreases s@.len() - i,
    {
        assert(s@.skip(i as int).skip(1) =~= s@.skip(i + 1));
        i += 1;
    }
    let r = slice_subrange(s, i, s.len());
    r
}

/// `s` without the characters `c` that it ends with.
pub fn stripped_end(s: &[char], c: char) -> (r: &[char])
    ensures
        r@ == strip_end(s@, c),
{
    let mut n: usize = s.len();
    assert(s@.take(n as int) =~= s@);
    while n > 0 && s[n - 1] == c
        invariant
            n <= s@.len(),
            strip_end(s@, c) == strip_end(s@.take(n as int), c),
        decreases n,
    {
        assert(s@.take(n as int).drop_last() =~= s@.take(n - 1));
        n -= 1;
    }
    let r = slice_subrange(s, 0, n);
    r
}

/// The characters behind the last white space of `s`.
pub open spec fn after_white(s: Seq<char>) -> Seq<char>
    decreases s.len(),
{
    if s.len() == 0 || is_white(s.last()) {
        Seq::empty()
    } else {
        after_white(s.drop_last()).push(s.last())
    }
}

/// The last word of `s`, words being separated by white space.
pub open spec fn last_word(s: Seq<char>) -> Option<Seq<char>> {
    if trim_end(s).len() == 0 {
        None
    } else {
        Some(after_white(trim_end(s)))
    }
}

/// The last word of `s`.
pub fn final_word(s: &[char]) -> (r: Option<&[char]>)
    ensures
        match r {
            Some(w) => last_word(s@) == Some(w@),
            None => last_word(s@) is None,
        },
{
    let t = trimmed_end(s);
    if t.len() == 0 {
        return None;
    }
    let mut n: usize = t.len();
    assert(t@.take(n as int) =~= t@);
    while n > 0 && !white(t[n - 1])
        invariant
            n <= t@.len(),
            after_white(t@) == after_white(t@.take(n as int)) + t@.skip(n as int),
        decreases n,
    {
        assert(t@.take(n as int).drop_last() =~= t@.take(n - 1));
        n -= 1;
    }
    let w = slice_subrange(t, n, t.len());
    Some(w)
}

/// The number of characters before the first white space.
pub open spec fn word_len(s: Seq<char>) -> int
    decreases s.len(),
{
    if s.len() == 0 || is_white(s[0]) {
        0
    } else {
        1 + word_len(s.skip(1))
    }
}

/// The words of `s`, separated by white space.
pub open spec fn words(s: Seq<char>) -> Seq<Seq<char>>
    decreases s.len(),
    via words_decreases
{
    let t = trim_start(s);
    if t.len() == 0 {
        Seq::empty()
    } else {
        seq![t.take(word_len(t))] + words(t.skip(word_len(t)))
    }
}

#[via_fn]
proof fn words_decreases(s: Seq<char>) {
    lemma_trim_start_len(s);
    let t = trim_start(s);
    if t.len() > 0 {
        lemma_word_len(t);
    }
}

proof fn lemma_trim_start_len(s: Seq<char>)
    ensures
        trim_start(s).len() <= s.len(),
        trim_start(s).len() > 0 ==> !is_white(trim_start(s)[0]),
    decreases s.len(),
{
    if s.len() > 0 && is_white(s[0]) {
        lemma_trim_start_len(s.skip(1));
    }
}

proof fn lemma_word_len(s: Seq<char>)
    ensures
        0 <= word_len(s) <= s.len(),
        s.len() > 0 && !is_white(s[0]) ==> word_len(s) >= 1,
    decreases s.len(),
{
    if s.len() > 0 && !is_white(s[0]) {
        lemma_word_len(s.skip(1));
    }
}

/// The words of `s`, separated by white space.
pub fn words_of(s: &[char]) -> (r: Vec<String>)
    ensures
        texts(r@) == words(s@),
{
    broadcast use lemma_texts_push;

    let n: usize = s.len();
    let mut out: Vec<String> = Vec::new();
    let mut pos: usize = 0;
    assert(s@.skip(0) =~= s@);
    loop
        invariant
            pos <= n,
            n == s@.len(),
            texts(out@) + words(s@.skip(pos as int)) == words(s@),
        decreases n - pos,
    {
        let ghost rest = s@.skip(pos as int);
        let mut from: usize = pos;
        while from < n && white(s[from])
            invariant
                pos <= from <= n,
                n == s@.len(),
                rest == s@.skip(pos as int),
                trim_start(rest) == trim_start(s@.skip(from as int)),
            decreases n - from,
        {
            assert(s@.skip(from as int).skip(1) =~= s@.skip(from + 1));
            from += 1;
        }
        let ghost t = s@.skip(from as int);
        if from >= n {
            return out;
        }
        let mut to: usize = from;
        while to < n && !white(s[to])
            invariant
                from <= to <= n,
                n == s@.len(),
                t == s@.skip(from as int),
                word_len(t) == (to - from) + word_len(s@.skip(to as int)),
            decreases n - to,
        {
            assert(s@.skip(to as int).skip(1) =~= s@.skip(to + 1));
            to += 1;
        }
        let w = slice_subrange(s, from, to);
        out.push(string_of(w));
        proof {
            assert(w@ =~= t.take(to - from));
            assert(t.skip(to - from) =~= s@.skip(to as int));
            lemma_word_len(t);
        }
        pos = to;
    }
}

/// `c` in lower case where it is an ASCII capital.
pub open spec fn lower(c: char) -> char {
    if 'A' <= c <= 'Z' {
        ((c as u8 + 32) as u8) as char
    } else {
        c
    }
}

/// `s` with its ASCII capitals in lower case.
pub open spec fn ascii_lower(s: Seq<char>) -> Seq<char> {
    s.map_values(|c: char| lower(c))
}

/// `s` with its ASCII capitals in lower case.
pub fn lowered(s: &[char]) -> (r: Vec<char>)
    ensures
        r@ == ascii_lower(s@),
{
    let mut out: Vec<char> = Vec::new();
    let mut i: usize = 0;
    while i < s.len()
        invariant
            i <= s@.len(),
            out@ == ascii_lower(s@.take(i as int)),
        decreases s@.len() - i,
    {
        let c = s[i];
        if 'A' <= c && c <= 'Z' {
            out.push(((c as u8) + 32) as char);
        } else {
            out.push(c);
        }
        i += 1;
    }
    out
}

/// The pieces of `s` between the occurrences of `c`.
pub open spec fn split(s: Seq<char>, c: char) -> Seq<Seq<char>>
    decreases s.len(),
{
    let i = find(s, c);
    if 0 <= i < s.len() {
        seq![s.take(i)] + split(s.skip(i + 1), c)
    } else {
        seq![s]
    }
}

/// A line without the carriage return that ends it.
pub open spec fn without_cr(s: Seq<char>) -> Seq<char> {
    if s.len() > 0 && s.last() == '\r' {
        s.drop_last()
    } else {
        s
    }
}

/// The lines of `s`: a line ends at a line feed, or at a carriage return and
/// a line feed; nothing follows a last line feed.
pub open spec fn lines(s: Seq<char>) -> Seq<Seq<char>>
    decreases s.len(),
{
    if s.len() == 0 {
        Seq::empty()
    } else {
        let i = find(s, '\n');
        if 0 <= i < s.len() {
            seq![without_cr(s.take(i))] + lines(s.skip(i + 1))
        } else {
            seq![s]
        }
    }
}

/// What the strings of `v` hold.
pub open spec fn texts(v: Seq<String>) -> Seq<Seq<char>> {
    v.map_values(|s: String| s@)
}

pub broadcast proof fn lemma_texts_push(v: Seq<String>, s: String)
    ensures
        #[trigger] texts(v.push(s)) == texts(v).push(s@),
{
}

/// The lines of `s`.
pub fn lines_of(s: &[char]) -> (r: Vec<String>)
    ensures
        texts(r@) == lines(s@),
{
    broadcast use lemma_texts_push;

    let mut out: Vec<String> = Vec::new();
    let mut from: usize = 0;
    let n: usize = s.len();
    assert(s@.skip(0) =~= s@);
    while from < n
        invariant
            from <= n,
            n == s@.len(),
            texts(out@) + lines(s@.skip(from as int)) == lines(s@),
        decreases n - from,
    {
        let ghost rest = s@.skip(from as int);
        let i: usize = find_from(s, '\n', from);
        let mut end: usize = i;
        if i < n && end > from && s[end - 1] == '\r' {
            end -= 1;
        }
        let line = slice_subrange(s, from, end);
        out.push(string_of(line));
        if i < n {
            assert(line@ =~= without_cr(rest.take(i - from)));
            assert(rest.skip(i - from + 1) =~= s@.skip(i + 1));
            from = i + 1;
        } else {
            from = n;
        }
    }
    out
}

/// The pieces of `s` between the occurrences of `c`.
pub fn pieces(s: &[char], c: char) -> (r: Vec<String>)
    ensures
        texts(r@) == split(s@, c),
{
    broadcast use lemma_texts_push;

    let mut out: Vec<String> = Vec::new();
    let mut from: usize = 0;
    let n: usize = s.len();
    assert(s@.skip(0) =~= s@);
    loop
        invariant
            from <= n,
            n == s@.len(),
            texts(out@) + split(s@.skip(from as int), c) == split(s@, c),
        decreases n - from,
    {
        let ghost rest = s@.skip(from as int);
        let i: usize = find_from(s, c, from);
        let piece = slice_subrange(s, from, i);
        out.push(string_of(piece));
        if i < n {
            assert(piece@ =~= rest.take(i - from));
            assert(rest.skip(i - from + 1) =~= s@.skip(i + 1));
            from = i + 1;
        } else {
            return out;
        }
    }
}

/// `n` in decimal digits.
pub open spec fn decimal(n: nat) -> Seq<char>
    decreases n,
{
    let digit = ((48 + n % 10) as u8) as char;
    if n < 10 {
        seq![digit]
    } else {
        decimal(n / 10).push(digit)
    }
}

/// Appends `n` in decimal digits.
pub fn push_decimal(s: &mut String, n: u64)
    ensures
        final(s)@ == old(s)@ + decimal(n as nat),
    decreases n,
{
    if n >= 10 {
        push_decimal(s, n / 10);
    }
    s.push((48 + (n % 10) as u8) as char);
}

/// A decimal digit.
pub open spec fn is_digit(c: char) -> bool {
    '0' <= c <= '9'
}

/// The number that decimal digits spell.
pub open spec fn digits_value(s: Seq<char>) -> nat
    decreases s.len(),
{
    if s.len() == 0 {
        0
    } else {
        digits_value(s.drop_last()) * 10 + (s.last() as nat - 48) as nat
    }
}

/// `s` without a leading plus sign.
pub open spec fn without_plus(s: Seq<char>) -> Seq<char> {
    if s.len() > 0 && s[0] == '+' {
        s.skip(1)
    } else {
        s
    }
}

/// The natural number that `s` is: digits, with or without a plus sign.
pub open spec fn natural(s: Seq<char>) -> Option<nat> {
    let d = without_plus(s);
    if d.len() > 0 && forall|i: int| 0 <= i < d.len() ==> is_digit(#[trigger] d[i]) {
        Some(digits_value(d))
    } else {
        None
    }
}

/// The number that `s` is, where it is one below 2 to the 64th.
pub fn parse_u64(s: &[char]) -> (r: Option<u64>)
    ensures
        match r {
            Some(n) => natural(s@) == Some(n as nat),
            None => match natural(s@) {
                Some(n) => n > u64::MAX,
                None => true,
            },
        },
{
    let from: usize = if s.len() > 0 && s[0] == '+' {
        1
    } else {
        0
    };
    let d = slice_subrange(s, from, s.len());
    if d.len() == 0 {
        return None;
    }
    let mut v: u64 = 0;
    let mut i: usize = 0;
    let mut over = false;
    while i < d.len()
        invariant
            i <= d@.len(),
            d@ == without_plus(s@),
            forall|k: int| 0 <= k < i ==> is_digit(#[trigger] d@[k]),
            !over ==> v == digits_value(d@.take(i as int)),
            over ==> digits_value(d@.take(i as int)) > u64::MAX,
        decreases d@.len() - i,
    {
        let c = d[i];
        if c < '0' || c > '9' {
            return None;
        }
        let x: u64 = (c as u8 - 48) as u64;
        assert(d@.take(i + 1).drop_last() =~= d@.take(i as int));
        if !over {
            if v > (u64::MAX - x) / 10 {
                over = true;
            } else {
                v = v * 10 + x;
            }
        }
        i += 1;
    }
    assert(d@.take(i as int) =~= d@);
    if over {
        None
    } else {
        Some(v)
    }
}

pub proof fn lemma_decimal(n: nat)
    ensures
        decimal(n).len() > 0,
        forall|i: int| 0 <= i < decimal(n).len() ==> is_digit(#[trigger] decimal(n)[i]),
        digits_value(decimal(n)) == n,
    decreases n,
{
    let d = decimal(n);
    if n < 10 {
        assert(digits_value(d.drop_last()) == 0);
    } else {
        lemma_decimal(n / 10);
        assert(d.drop_last() =~= decimal(n / 10));
    }
}

/// Reading a number gives back what writing it put down.
pub proof fn law_number_reads_back(n: nat)
    ensures
        natural(decimal(n)) == Some(n),
{
    lemma_decimal(n);
}

/// Whether `pattern` occurs anywhere in `s`.
pub open spec fn holds(s: Seq<char>, pattern: Seq<char>) -> bool {
    exists|i: int| 0 <= i <= s.len() && #[trigger] occurs_at(s, pattern, i)
}

/// Whether `pattern` occurs anywhere in `s`.
pub fn contains_text(s: &[char], pattern: &str) -> (r: bool)
    ensures
        r == holds(s@, pattern@),
{
    let n: usize = s.len();
    let mut i: usize = 0;
    loop
        invariant
            n == s@.len(),
            i <= n,
            forall|j: int| 0 <= j < i ==> !#[trigger] occurs_at(s@, pattern@, j),
        ensures
            i == n,
            forall|j: int| 0 <= j <= n ==> !#[trigger] occurs_at(s@, pattern@, j),
        decreases n - i,
    {
        if text_at(s, pattern, i) {
            return true;
        }
        if i == n {
            break;
        }
        i += 1;
    }
    false
}

/// Whether `s` is among the texts of `v`.
pub fn is_among(s: &str, v: &Vec<String>) -> (r: bool)
    ensures
        r == texts(v@).contains(s@),
{
    let ghost all = texts(v@);
    let mut i: usize = 0;
    while i < v.len()
        invariant
            i <= v@.len(),
            all == texts(v@),
            forall|j: int| 0 <= j < i ==> #[trigger] all[j] != s@,
        decreases v@.len() - i,
    {
        assert(all[i as int] == v@[i as int]@);
        if same_text(v[i].as_str(), s) {
            return true;
        }
        i += 1;
    }
    false
}

/// Trimming leaves nothing exactly of a text that is all white space.
pub proof fn law_trim_leaves_nothing_of_blanks(s: Seq<char>)
    ensures
        trim(s).len() == 0 <==> forall|i: int| 0 <= i < s.len() ==> is_white(#[trigger] s[i]),
{
    law_trim_takes_white_space_alone(s);
    let t = trim(s);
    let (a, b) = choose|a: int, b: int| #[trigger]
        is_trimmed_at(s, a, b) && t == s.subrange(a, b);
    if t.len() > 0 {
        assert(!is_white(s[a]));
    } else {
        assert forall|i: int| 0 <= i < s.len() implies is_white(#[trigger] s[i]) by {}
    }
}

/// Whether nothing but white space stands before `a` and from `b` on, and
/// neither end of what is between is white space.
pub open spec fn is_trimmed_at(s: Seq<char>, a: int, b: int) -> bool {
    &&& 0 <= a <= b <= s.len()
    &&& forall|i: int| 0 <= i < a ==> is_white(#[trigger] s[i])
    &&& forall|i: int| b <= i < s.len() ==> is_white(#[trigger] s[i])
    &&& a < b ==> !is_white(s[a]) && !is_white(s[b - 1])
}

/// Trimming takes away white space at either end, all of it and nothing else.
pub proof fn law_trim_takes_white_space_alone(s: Seq<char>)
    ensures
        exists|a: int, b: int| #[trigger] is_trimmed_at(s, a, b) && trim(s) == s.subrange(a, b),
{
    let a = lemma_trim_start_at(s);
    let t = s.skip(a);
    let n = lemma_trim_end_at(t);
    let b = a + n;
    assert(trim(s) =~= s.subrange(a, b));
    assert forall|i: int| b <= i < s.len() implies is_white(#[trigger] s[i]) by {
        assert(t[i - a] == s[i]);
    }
    if a < b {
        assert(t[0] == s[a]);
        assert(t[n - 1] == s[b - 1]);
    }
    assert(is_trimmed_at(s, a, b));
}

proof fn lemma_trim_start_at(s: Seq<char>) -> (a: int)
    ensures
        0 <= a <= s.len(),
        trim_start(s) == s.skip(a),
        forall|i: int| 0 <= i < a ==> is_white(#[trigger] s[i]),
        a < s.len() ==> !is_white(s[a]),
    decreases s.len(),
{
    if s.len() > 0 && is_white(s[0]) {
        let rest = s.skip(1);
        let k = lemma_trim_start_at(rest);
        assert(s.skip(k + 1) =~= rest.skip(k));
        assert forall|i: int| 0 <= i < k + 1 implies is_white(#[trigger] s[i]) by {
            if i > 0 {
                assert(rest[i - 1] == s[i]);
            }
        }
        if k < rest.len() {
            assert(rest[k] == s[k + 1]);
        }
        k + 1
    } else {
        assert(s.skip(0) =~= s);
        0
    }
}

proof fn lemma_trim_end_at(s: Seq<char>) -> (n: int)
    ensures
        0 <= n <= s.len(),
        trim_end(s) == s.take(n),
        forall|i: int| n <= i < s.len() ==> is_white(#[trigger] s[i]),
        n > 0 ==> !is_white(s[n - 1]),
    decreases s.len(),
{
    if s.len() > 0 && is_white(s.last()) {
        let rest = s.drop_last();
        let n = lemma_trim_end_at(rest);
        assert(s.take(n) =~= rest.take(n));
        assert forall|i: int| n <= i < s.len() implies is_white(#[trigger] s[i]) by {
            if i < rest.len() {
                assert(rest[i] == s[i]);
            }
        }
        n
    } else {
        assert(s.take(s.len() as int) =~= s);
        s.len() as int
    }
}

/// The text with each of `pieces` between separators.
pub open spec fn joined_by(pieces: Seq<Seq<char>>, c: char) -> Seq<char>
    decreases pieces.len(),
{
    if pieces.len() == 0 {
        Seq::empty()
    } else if pieces.len() == 1 {
        pieces[0]
    } else {
        pieces[0] + seq![c] + joined_by(pieces.skip(1), c)
    }
}

/// The pieces of a text hold no separator, and with separators between them
/// they make up the text again.
pub proof fn law_pieces_make_up_the_text(s: Seq<char>, c: char)
    ensures
        split(s, c).len() > 0,
        joined_by(split(s, c), c) == s,
        forall|i: int, j: int|
            0 <= i < split(s, c).len() && 0 <= j < split(s, c)[i].len() ==> (
            #[trigger] split(s, c)[i][j]) != c,
    decreases s.len(),
{
    let i = find(s, c);
    lemma_find(s, c);
    let p = split(s, c);
    if i < s.len() {
        let rest = s.skip(i + 1);
        law_pieces_make_up_the_text(rest, c);
        assert(p.skip(1) =~= split(rest, c));
        assert(s =~= s.take(i) + seq![c] + rest);
        assert forall|a: int, j: int| 0 <= a < p.len() && 0 <= j < p[a].len() implies (
        #[trigger] p[a][j]) != c by {
            if a > 0 {
                assert(p[a] == split(rest, c)[a - 1]);
                assert(split(rest, c)[a - 1][j] != c);
            }
        }
    }
}

/// A text of lines: each but the last ends in a line feed, with a carriage
/// return before it or none, and holds no line feed itself.
pub proof fn law_lines_end_at_line_feeds(line: Seq<char>, rest: Seq<char>)
    requires
        forall|i: int| 0 <= i < line.len() ==> (#[trigger] line[i]) != '\n',
    ensures
        lines(Seq::empty()) == Seq::<Seq<char>>::empty(),
        line.len() > 0 ==> lines(line) == seq![line],
        line.len() == 0 || line.last() != '\r' ==> lines(line + seq!['\n'] + rest) == seq![line]
            + lines(rest),
        lines(line + seq!['\r', '\n'] + rest) == seq![line] + lines(rest),
{
    if line.len() > 0 {
        lemma_find_unique(line, '\n', line.len() as int);
    }
    let a = line + seq!['\n'] + rest;
    assert forall|j: int| 0 <= j < line.len() implies a[j] != '\n' by {
        assert(a[j] == line[j]);
    }
    lemma_find_unique(a, '\n', line.len() as int);
    assert(a.take(line.len() as int) =~= line);
    assert(a.skip(line.len() as int + 1) =~= rest);
    let with = line + seq!['\r'];
    let b = line + seq!['\r', '\n'] + rest;
    let n = line.len() as int + 1;
    assert forall|j: int| 0 <= j < n implies b[j] != '\n' by {
        if j < line.len() {
            assert(b[j] == line[j]);
        }
    }
    lemma_find_unique(b, '\n', n);
    assert(b.take(n) =~= with);
    assert(with.drop_last() =~= line);
    assert(b.skip(n + 1) =~= rest);
}

/// A word is what stands between white space: leading white space is passed
/// over, and the words behind it follow.
pub proof fn law_words_stand_between_white_space(
    blank: Seq<char>,
    word: Seq<char>,
    gap: char,
    rest: Seq<char>,
)
    requires
        forall|i: int| 0 <= i < blank.len() ==> is_white(#[trigger] blank[i]),
        word.len() > 0,
        forall|i: int| 0 <= i < word.len() ==> !is_white(#[trigger] word[i]),
        is_white(gap),
    ensures
        words(blank) == Seq::<Seq<char>>::empty(),
        words(blank + word) == seq![word],
        words(blank + word + seq![gap] + rest) == seq![word] + words(rest),
{
    lemma_blank_start(blank, Seq::empty());
    assert(blank + Seq::<char>::empty() =~= blank);
    assert(trim_start(Seq::<char>::empty()) == Seq::<char>::empty());
    lemma_blank_start(blank, word);
    assert(trim_start(word) == word);
    lemma_word_is(word, Seq::empty());
    assert(word + Seq::<char>::empty() =~= word);
    assert(word.take(word.len() as int) =~= word);
    assert(word.skip(word.len() as int) =~= Seq::<char>::empty());
    let none = Seq::<char>::empty();
    assert(words(none) == Seq::<Seq<char>>::empty());
    assert(words(blank + word) =~= seq![word]);
    let tail = seq![gap] + rest;
    let t = word + tail;
    let s = blank + word + seq![gap] + rest;
    assert(s =~= blank + t);
    lemma_blank_start(blank, t);
    assert(t[0] == word[0]);
    assert(trim_start(t) == t);
    lemma_word_is(word, tail);
    assert(t.take(word.len() as int) =~= word);
    assert(t.skip(word.len() as int) =~= tail);
    lemma_blank_start(seq![gap], rest);
    assert(trim_start(tail) == trim_start(rest));
    assert(words(tail) == words(rest));
}

proof fn lemma_blank_start(blank: Seq<char>, s: Seq<char>)
    requires
        forall|i: int| 0 <= i < blank.len() ==> is_white(#[trigger] blank[i]),
    ensures
        trim_start(blank + s) == trim_start(s),
    decreases blank.len(),
{
    if blank.len() > 0 {
        let rest = blank.skip(1);
        assert((blank + s)[0] == blank[0]);
        assert((blank + s).skip(1) =~= rest + s);
        assert forall|i: int| 0 <= i < rest.len() implies is_white(#[trigger] rest[i]) by {
            assert(rest[i] == blank[i + 1]);
        }
        lemma_blank_start(rest, s);
    } else {
        assert(blank + s =~= s);
    }
}

proof fn lemma_word_is(word: Seq<char>, tail: Seq<char>)
    requires
        forall|i: int| 0 <= i < word.len() ==> !is_white(#[trigger] word[i]),
        tail.len() > 0 ==> is_white(tail[0]),
    ensures
        word_len(word + tail) == word.len(),
    decreases word.len(),
{
    let s = word + tail;
    if word.len() > 0 {
        let rest = word.skip(1);
        assert(s[0] == word[0]);
        assert(s.skip(1) =~= rest + tail);
        assert forall|i: int| 0 <= i < rest.len() implies !is_white(#[trigger] rest[i]) by {
            assert(rest[i] == word[i + 1]);
        }
        lemma_word_is(rest, tail);
    } else {
        assert(s =~= tail);
    }
}

/// The last word is what stands behind the last white space, whatever white
/// space follows it.
pub proof fn law_last_word_ends_the_text(
    head: Seq<char>,
    gap: char,
    word: Seq<char>,
    blank: Seq<char>,
)
    requires
        is_white(gap),
        word.len() > 0,
        forall|i: int| 0 <= i < word.len() ==> !is_white(#[trigger] word[i]),
        forall|i: int| 0 <= i < blank.len() ==> is_white(#[trigger] blank[i]),
    ensures
        last_word(word + blank) == Some(word),
        last_word(head + seq![gap] + word + blank) == Some(word),
        last_word(blank) is None,
{
    let none = Seq::<char>::empty();
    lemma_blank_end(word, blank);
    lemma_after_white(none, word);
    assert(none + word =~= word);
    assert(trim_end(word) == word);
    let s = head + seq![gap] + word;
    lemma_blank_end(s, blank);
    assert(s.last() == word.last());
    assert(trim_end(s) == s);
    lemma_after_white(head + seq![gap], word);
    lemma_blank_end(none, blank);
    assert(none + blank =~= blank);
}

proof fn lemma_blank_end(s: Seq<char>, blank: Seq<char>)
    requires
        forall|i: int| 0 <= i < blank.len() ==> is_white(#[trigger] blank[i]),
    ensures
        trim_end(s + blank) == trim_end(s),
    decreases blank.len(),
{
    if blank.len() > 0 {
        assert((s + blank).last() == blank.last());
        assert((s + blank).drop_last() =~= s + blank.drop_last());
        lemma_blank_end(s, blank.drop_last());
    } else {
        assert(s + blank =~= s);
    }
}

proof fn lemma_after_white(head: Seq<char>, word: Seq<char>)
    requires
        head.len() > 0 ==> is_white(head.last()),
        forall|i: int| 0 <= i < word.len() ==> !is_white(#[trigger] word[i]),
    ensures
        after_white(head + word) == word,
    decreases word.len(),
{
    let s = head + word;
    if word.len() > 0 {
        assert(s.last() == word.last());
        assert(s.drop_last() =~= head + word.drop_last());
        lemma_after_white(head, word.drop_last());
        assert(word.drop_last().push(word.last()) =~= word);
    } else {
        assert(s =~= head);
    }
}

/// White space around a text is taken away, and a text without any is left as
/// it is.
pub proof fn law_blanks_around_a_text_are_trimmed(
    before: Seq<char>,
    s: Seq<char>,
    behind: Seq<char>,
)
    requires
        forall|i: int| 0 <= i < before.len() ==> is_white(#[trigger] before[i]),
        forall|i: int| 0 <= i < behind.len() ==> is_white(#[trigger] behind[i]),
        s.len() > 0 ==> !is_white(s[0]) && !is_white(s.last()),
    ensures
        trim(before + s + behind) == s,
{
    assert(before + s + behind =~= before + (s + behind));
    lemma_blank_start(before, s + behind);
    if s.len() > 0 {
        assert((s + behind)[0] == s[0]);
        assert(trim_start(s + behind) == s + behind);
        lemma_blank_end(s, behind);
    } else {
        assert(s + behind =~= behind);
        assert(behind + s =~= behind);
        lemma_blank_start(behind, s);
    }
}

/// The text behind the last of a character holds none of it; a text without
/// the character is taken whole.
pub proof fn law_tail_follows_the_last(head: Seq<char>, c: char, tail: Seq<char>)
    requires
        forall|i: int| 0 <= i < tail.len() ==> (#[trigger] tail[i]) != c,
    ensures
        after_last(head + seq![c] + tail, c) == tail,
        after_last(tail, c) == tail,
{
    lemma_find_before(head + seq![c], c, tail);
    lemma_find_before(Seq::empty(), c, tail);
    assert(Seq::<char>::empty() + tail =~= tail);
    let s = head + seq![c] + tail;
    assert((head + seq![c]).last() == c);
    assert(s.skip(head.len() as int + 1) =~= tail);
    assert(tail.skip(0) =~= tail);
}

proof fn lemma_find_before(head: Seq<char>, c: char, tail: Seq<char>)
    requires
        forall|i: int| 0 <= i < tail.len() ==> (#[trigger] tail[i]) != c,
    ensures
        find_last(head + tail, c) == find_last(head, c),
    decreases tail.len(),
{
    if tail.len() > 0 {
        assert((head + tail).last() == tail.last());
        assert((head + tail).drop_last() =~= head + tail.drop_last());
        lemma_find_before(head, c, tail.drop_last());
    } else {
        assert(head + tail =~= head);
    }
}

/// The last position of a character is one where it stands.
pub proof fn lemma_last_is_found(s: Seq<char>, c: char)
    ensures
        -1 <= find_last(s, c) < s.len(),
        find_last(s, c) >= 0 ==> s[find_last(s, c)] == c,
    decreases s.len(),
{
    if s.len() > 0 && s.last() != c {
        lemma_last_is_found(s.drop_last(), c);
    }
}

} // verus!
