//! Paths as text: Windows prefixes and drive letters, the parts of a path,
//! file addresses.
use vstd::prelude::*;
use vstd::slice::slice_subrange;
use vstd::string::*;
use vstd::utf8::{decode_utf8, encode_utf8, valid_utf8};
use crate::text::{
    chars_of, copy_text, find_last, has_prefix, is_text, rfind, starts_with, string_of,
};

verus! {

/// A path without the prefix that Windows puts before a canonical path. A
/// network path keeps the two backslashes that it starts with.
pub open spec fn without_verbatim(s: Seq<char>) -> Seq<char> {
    if starts_with(s, "\\\\?\\UNC\\"@) {
        "\\\\"@ + s.skip(8)
    } else if starts_with(s, "\\\\?\\"@) {
        s.skip(4)
    } else {
        s
    }
}

/// A path without the prefix that Windows puts before a canonical path; any
/// other path as it is.
pub fn strip_windows_verbatim_prefix(s: &str) -> (r: String)
    ensures
        r@ == without_verbatim(s@),
{
    let chars = chars_of(s);
    let n: usize = chars.len();
    proof {
        reveal_strlit("\\\\?\\UNC\\");
        reveal_strlit("\\\\?\\");
    }
    if has_prefix(chars.as_slice(), "\\\\?\\UNC\\") {
        let rest = slice_subrange(chars.as_slice(), 8, n);
        let mut out = String::new();
        out.append("\\\\");
        out.append(string_of(rest).as_str());
        out
    } else if has_prefix(chars.as_slice(), "\\\\?\\") {
        let rest = slice_subrange(chars.as_slice(), 4, n);
        string_of(rest)
    } else {
        copy_text(s)
    }
}

/// A path without the Windows prefix is left as it is.
pub proof fn law_plain_path_stays(s: Seq<char>)
    requires
        !starts_with(s, "\\\\?\\"@),
    ensures
        without_verbatim(s) == s,
{
    reveal_strlit("\\\\?\\UNC\\");
    reveal_strlit("\\\\?\\");
    if starts_with(s, "\\\\?\\UNC\\"@) {
        assert(s.take(4) =~= "\\\\?\\"@);
    }
}

/// `s` with a slash for every backslash.
pub open spec fn forward(s: Seq<char>) -> Seq<char> {
    s.map_values(
        |c: char|
            if c == '\\' {
                '/'
            } else {
                c
            },
    )
}

/// `s` with a slash for every backslash.
pub fn forward_slashes(s: &str) -> (r: String)
    ensures
        r@ == forward(s@),
{
    let chars = chars_of(s);
    let mut out = String::new();
    let mut i: usize = 0;
    while i < chars.len()
        invariant
            i <= chars@.len(),
            chars@ == s@,
            out@ == forward(s@.take(i as int)),
        decreases chars@.len() - i,
    {
        let c = chars[i];
        out.push(if c == '\\' { '/' } else { c });
        i += 1;
    }
    out
}

/// An ASCII letter.
pub open spec fn is_letter(c: char) -> bool {
    'A' <= c <= 'Z' || 'a' <= c <= 'z'
}

/// A path that starts with a drive letter and a colon.
pub open spec fn has_drive(s: Seq<char>) -> bool {
    s.len() >= 2 && is_letter(s[0]) && s[1] == ':'
}

fn drive(s: &[char]) -> (r: bool)
    ensures
        r == has_drive(s@),
{
    s.len() >= 2 && (('A' <= s[0] && s[0] <= 'Z') || ('a' <= s[0] && s[0] <= 'z')) && s[1] == ':'
}

/// Whether a path starts with a drive letter and a colon.
pub fn starts_with_drive_letter(s: &str) -> (r: bool)
    ensures
        r == has_drive(s@),
{
    let chars = chars_of(s);
    drive(chars.as_slice())
}

/// `c` as a capital where it is a small ASCII letter.
pub open spec fn upper(c: char) -> char {
    if 'a' <= c <= 'z' {
        ((c as u8 - 32) as u8) as char
    } else {
        c
    }
}

/// A path with its drive letter, where it has one, as a capital.
pub open spec fn with_capital_drive(s: Seq<char>) -> Seq<char> {
    if has_drive(s) {
        s.update(0, upper(s[0]))
    } else {
        s
    }
}

/// A path with its drive letter, where it has one, as a capital.
pub fn normalize_drive_letter(s: &str) -> (r: String)
    ensures
        r@ == with_capital_drive(s@),
{
    let mut chars = chars_of(s);
    if drive(chars.as_slice()) && 'a' <= chars[0] && chars[0] <= 'z' {
        let c = ((chars[0] as u8) - 32) as char;
        chars.set(0, c);
        return string_of(chars.as_slice());
    }
    copy_text(s)
}

/// The character for a hexadecimal digit.
pub open spec fn hex_digit(n: int) -> char {
    if n < 10 {
        ((48 + n) as u8) as char
    } else {
        ((55 + n) as u8) as char
    }
}

/// A byte that a file address holds as it is.
pub open spec fn plain_byte(b: u8) -> bool {
    65 <= b <= 90 || 97 <= b <= 122 || 48 <= b <= 57 || b == 45 || b == 46 || b == 95 || b == 126
        || b == 47 || b == 58
}

/// A byte in a file address.
pub open spec fn escaped(b: u8) -> Seq<char> {
    if plain_byte(b) {
        seq![b as char]
    } else {
        seq!['%', hex_digit(b as int / 16), hex_digit(b as int % 16)]
    }
}

/// Bytes in a file address.
pub open spec fn percent(b: Seq<u8>) -> Seq<char>
    decreases b.len(),
{
    if b.len() == 0 {
        Seq::empty()
    } else {
        percent(b.drop_last()) + escaped(b.last())
    }
}

fn hex_char(n: u8) -> (r: char)
    requires
        n < 16,
    ensures
        r == hex_digit(n as int),
{
    if n < 10 {
        (48 + n) as char
    } else {
        (55 + n) as char
    }
}

/// A path as it stands in a file address: every byte but letters, digits,
/// `-._~` and the `/` and `:` of paths is escaped.
pub fn percent_encode_path(s: &str) -> (r: String)
    ensures
        r@ == percent(encode_utf8(s@)),
{
    let bytes = s.as_bytes();
    let mut out = String::new();
    let mut i: usize = 0;
    while i < bytes.len()
        invariant
            i <= bytes@.len(),
            out@ == percent(bytes@.take(i as int)),
        decreases bytes@.len() - i,
    {
        let b: u8 = bytes[i];
        if (65 <= b && b <= 90) || (97 <= b && b <= 122) || (48 <= b && b <= 57) || b == 45 || b == 46
            || b == 95 || b == 126 || b == 47 || b == 58 {
            out.push(b as char);
        } else {
            out.push('%');
            out.push(hex_char(b / 16));
            out.push(hex_char(b % 16));
        }
        i += 1;
        assert(bytes@.take(i as int).drop_last() =~= bytes@.take(i - 1));
    }
    assert(bytes@.take(i as int) =~= bytes@);
    out
}

/// The value of a hexadecimal digit, of either case.
pub open spec fn hex_value(b: u8) -> Option<int> {
    if 48 <= b <= 57 {
        Some(b - 48)
    } else if 65 <= b <= 70 {
        Some(b - 55)
    } else if 97 <= b <= 102 {
        Some(b - 87)
    } else {
        None
    }
}

/// The bytes that an address holds: an escape is one byte, everything else
/// stands for itself.
pub open spec fn unpercent(b: Seq<u8>) -> Seq<u8>
    decreases b.len(),
{
    if b.len() == 0 {
        Seq::empty()
    } else if b[0] == 37 && b.len() > 2 && hex_value(b[1]) is Some && hex_value(b[2]) is Some {
        seq![(hex_value(b[1])->0 * 16 + hex_value(b[2])->0) as u8] + unpercent(b.skip(3))
    } else {
        seq![b[0]] + unpercent(b.skip(1))
    }
}

fn hex_number(b: u8) -> (r: Option<u8>)
    ensures
        match r {
            Some(n) => hex_value(b) == Some(n as int) && n < 16,
            None => hex_value(b) is None,
        },
{
    if 48 <= b && b <= 57 {
        Some(b - 48)
    } else if 65 <= b && b <= 70 {
        Some(b - 55)
    } else if 97 <= b && b <= 102 {
        Some(b - 87)
    } else {
        None
    }
}

/// What `String::from_utf8_lossy` makes of bytes.
pub uninterp spec fn lossy_text(bytes: Seq<u8>) -> Seq<char>;

/// `String::from_utf8_lossy` gives the characters that valid UTF-8 encodes,
/// and puts replacement characters in place of what is invalid.
#[verifier::external_body]
fn from_lossy(bytes: &[u8]) -> (r: String)
    ensures
        r@ == lossy_text(bytes@),
        valid_utf8(bytes@) ==> r@ == decode_utf8(bytes@),
{
    String::from_utf8_lossy(bytes).into_owned()
}

/// The text of bytes: what they encode where they are valid UTF-8.
pub open spec fn decoded_text(bytes: Seq<u8>) -> Seq<char> {
    if valid_utf8(bytes) {
        decode_utf8(bytes)
    } else {
        lossy_text(bytes)
    }
}

/// The bytes that the escapes of an address stand for.
pub fn unescaped(bytes: &[u8]) -> (r: Vec<u8>)
    ensures
        r@ == unpercent(bytes@),
{
    let mut out: Vec<u8> = Vec::new();
    let n: usize = bytes.len();
    let mut i: usize = 0;
    assert(bytes@.skip(0) =~= bytes@);
    while i < n
        invariant
            i <= n,
            n == bytes@.len(),
            out@ + unpercent(bytes@.skip(i as int)) == unpercent(bytes@),
        decreases n - i,
    {
        let ghost rest = bytes@.skip(i as int);
        let mut step: usize = 1;
        let mut byte: u8 = bytes[i];
        if byte == 37 && n - i > 2 {
            if let (Some(hi), Some(lo)) = (hex_number(bytes[i + 1]), hex_number(bytes[i + 2])) {
                byte = hi * 16 + lo;
                step = 3;
            }
        }
        out.push(byte);
        proof {
            assert(rest.skip(step as int) =~= bytes@.skip(i + step));
        }
        i += step;
    }
    out
}

/// The text that an address stands for.
pub fn percent_decode(s: &str) -> (r: String)
    ensures
        r@ == decoded_text(unpercent(encode_utf8(s@))),
{
    let bytes = unescaped(s.as_bytes());
    from_lossy(bytes.as_slice())
}

proof fn lemma_hex_round_trip(b: u8)
    ensures
        hex_value(hex_digit(b as int / 16) as u8) == Some(b as int / 16),
        hex_value(hex_digit(b as int % 16) as u8) == Some(b as int % 16),
        (hex_digit(b as int / 16) as u32) < 128,
        (hex_digit(b as int % 16) as u32) < 128,
{
}

/// The bytes of ASCII text.
pub open spec fn ascii_bytes(s: Seq<char>) -> Seq<u8> {
    s.map_values(|c: char| c as u8)
}

proof fn lemma_percent_is_ascii(b: Seq<u8>)
    ensures
        vstd::utf8::is_ascii_chars(percent(b)),
    decreases b.len(),
{
    if b.len() > 0 {
        lemma_percent_is_ascii(b.drop_last());
        lemma_hex_round_trip(b.last());
        let p = percent(b.drop_last());
        let e = escaped(b.last());
        assert forall|i: int| 0 <= i < (p + e).len() implies #[trigger] (p + e)[i] as u32 <= 0x7f by {}
    }
}

proof fn lemma_percent_front(b: Seq<u8>)
    requires
        b.len() > 0,
    ensures
        percent(b) == escaped(b[0]) + percent(b.skip(1)),
    decreases b.len(),
{
    let rest = b.skip(1);
    if b.len() == 1 {
        assert(b.drop_last() =~= Seq::<u8>::empty());
        assert(rest =~= Seq::<u8>::empty());
    } else {
        let head = b.drop_last();
        lemma_percent_front(head);
        assert(head.skip(1) =~= rest.drop_last());
    }
}

proof fn lemma_unpercent_percent(b: Seq<u8>)
    ensures
        unpercent(ascii_bytes(percent(b))) == b,
    decreases b.len(),
{
    let t = ascii_bytes(percent(b));
    if b.len() != 0 {
        lemma_percent_front(b);
        lemma_hex_round_trip(b[0]);
        let rest = b.skip(1);
        lemma_unpercent_percent(rest);
        let e = escaped(b[0]);
        let tail = ascii_bytes(percent(rest));
        assert(t.skip(e.len() as int) =~= tail);
        assert(seq![b[0]] + rest =~= b);
    }
}

/// Decoding gives back what was encoded.
pub proof fn law_decode_undoes_encode(s: Seq<char>)
    ensures
        decoded_text(unpercent(encode_utf8(percent(encode_utf8(s))))) == s,
{
    let b = encode_utf8(s);
    let p = percent(b);
    lemma_percent_is_ascii(b);
    vstd::utf8::is_ascii_chars_encode_utf8(p);
    assert(encode_utf8(p) =~= ascii_bytes(p));
    lemma_unpercent_percent(b);
    vstd::utf8::encode_utf8_valid_utf8(s);
    vstd::utf8::encode_utf8_decode_utf8(s);
}

/// The extension of a file's name: what follows its last dot, unless that is
/// its first character.
pub open spec fn name_extension(name: Seq<char>) -> Option<Seq<char>> {
    let i = find_last(name, '.');
    if name == ".."@ || i <= 0 {
        None
    } else {
        Some(name.skip(i + 1))
    }
}

/// The extension of a file's name.
pub fn file_extension(name: &str) -> (r: Option<String>)
    ensures
        match r {
            Some(e) => name_extension(name@) == Some(e@),
            None => name_extension(name@) is None,
        },
{
    let chars = chars_of(name);
    let n: usize = chars.len();
    if is_text(chars.as_slice(), "..") {
        return None;
    }
    match rfind(chars.as_slice(), '.') {
        Some(i) => if i == 0 {
            None
        } else {
            let rest = slice_subrange(chars.as_slice(), i + 1, n);
            Some(string_of(rest))
        },
        None => None,
    }
}

/// A path that starts at a root.
pub open spec fn is_absolute(s: Seq<char>) -> bool {
    s.len() > 0 && s[0] == '/'
}

/// Whether the piece at `i` between the slashes of a path is a part of it:
/// neither empty nor, but at the start, a dot.
pub open spec fn is_part(pieces: Seq<Seq<char>>, i: int) -> bool {
    pieces[i].len() > 0 && (i == 0 || pieces[i] != "."@)
}

/// The parts among the first `n` pieces of a path.
pub open spec fn path_parts(pieces: Seq<Seq<char>>, n: nat) -> Seq<Seq<char>>
    decreases n,
{
    if n == 0 {
        Seq::empty()
    } else if is_part(pieces, n - 1) {
        path_parts(pieces, (n - 1) as nat).push(pieces[n - 1])
    } else {
        path_parts(pieces, (n - 1) as nat)
    }
}

/// The position behind the parts `parts[j..]`, where the pieces from `k` on
/// start with them.
pub open spec fn behind_parts(
    pieces: Seq<Seq<char>>,
    k: int,
    parts: Seq<Seq<char>>,
    j: int,
) -> Option<int>
    decreases pieces.len() - k,
{
    if j >= parts.len() {
        Some(k)
    } else if k < 0 || k >= pieces.len() {
        None
    } else if !is_part(pieces, k) {
        behind_parts(pieces, k + 1, parts, j)
    } else if pieces[k] == parts[j] {
        behind_parts(pieces, k + 1, parts, j + 1)
    } else {
        None
    }
}

/// The first part at or behind `k`.
pub open spec fn first_part(pieces: Seq<Seq<char>>, k: int) -> int
    decreases pieces.len() - k,
{
    if k < 0 || k >= pieces.len() || is_part(pieces, k) {
        k
    } else {
        first_part(pieces, k + 1)
    }
}

/// The position behind the last part among the first `n` pieces.
pub open spec fn behind_last_part(pieces: Seq<Seq<char>>, n: int) -> int
    decreases n,
{
    if n <= 0 || is_part(pieces, n - 1) {
        n
    } else {
        behind_last_part(pieces, n - 1)
    }
}

/// Pieces with slashes between them.
pub open spec fn join_pieces(pieces: Seq<Seq<char>>) -> Seq<char>
    decreases pieces.len(),
{
    if pieces.len() == 0 {
        Seq::empty()
    } else if pieces.len() == 1 {
        pieces[0]
    } else {
        join_pieces(pieces.drop_last()) + seq!['/'] + pieces.last()
    }
}

/// The pieces from `k` on with slashes between them, without those before the
/// first part and behind the last.
pub open spec fn rest_of_path(pieces: Seq<Seq<char>>, k: int) -> Seq<char> {
    let lo = first_part(pieces, k);
    let hi = behind_last_part(pieces, pieces.len() as int);
    if lo < hi {
        join_pieces(pieces.subrange(lo, hi))
    } else {
        Seq::empty()
    }
}

/// A path without the empty pieces and the dots behind its last part.
pub open spec fn trimmed_path(pieces: Seq<Seq<char>>, absolute: bool) -> Seq<char> {
    let hi = behind_last_part(pieces, pieces.len() as int);
    if hi > 0 {
        join_pieces(pieces.subrange(0, hi))
    } else if absolute {
        seq!['/']
    } else {
        Seq::empty()
    }
}

/// What is left of `path` below the directory `root`; none where it lies
/// elsewhere. An empty directory holds every path as it is, but for what ends
/// it.
pub open spec fn below(path: Seq<char>, root: Seq<char>) -> Option<Seq<char>> {
    let pieces = crate::text::split(path, '/');
    let root_pieces = crate::text::split(root, '/');
    let parts = path_parts(root_pieces, root_pieces.len());
    if !is_absolute(root) && parts.len() == 0 {
        Some(trimmed_path(pieces, is_absolute(path)))
    } else if is_absolute(path) != is_absolute(root) {
        None
    } else {
        match behind_parts(pieces, 0, parts, 0) {
            Some(k) => Some(rest_of_path(pieces, k)),
            None => None,
        }
    }
}

fn part_at(pieces: &Vec<String>, i: usize) -> (r: bool)
    requires
        i < pieces@.len(),
    ensures
        r == is_part(crate::text::texts(pieces@), i as int),
{
    pieces[i].as_str().unicode_len() > 0 && (i == 0 || !crate::text::same_text(
        pieces[i].as_str(),
        ".",
    ))
}

pub(crate) fn parts_of(pieces: &Vec<String>) -> (r: Vec<String>)
    ensures
        crate::text::texts(r@) == path_parts(crate::text::texts(pieces@), pieces@.len()),
{
    broadcast use crate::text::lemma_texts_push;

    let mut out: Vec<String> = Vec::new();
    let mut i: usize = 0;
    while i < pieces.len()
        invariant
            i <= pieces@.len(),
            crate::text::texts(out@) == path_parts(crate::text::texts(pieces@), i as nat),
        decreases pieces@.len() - i,
    {
        if part_at(pieces, i) {
            out.push(copy_text(pieces[i].as_str()));
        }
        i += 1;
    }
    out
}

fn end_of_parts(pieces: &Vec<String>) -> (r: usize)
    ensures
        r <= pieces@.len(),
        r == behind_last_part(crate::text::texts(pieces@), pieces@.len() as int),
{
    let ghost all = crate::text::texts(pieces@);
    let mut hi: usize = pieces.len();
    while hi > 0 && !part_at(pieces, hi - 1)
        invariant
            hi <= pieces@.len(),
            all == crate::text::texts(pieces@),
            behind_last_part(all, all.len() as int) == behind_last_part(all, hi as int),
        decreases hi,
    {
        hi -= 1;
    }
    hi
}

fn joined_range(pieces: &Vec<String>, lo: usize, hi: usize) -> (r: String)
    requires
        lo <= hi <= pieces@.len(),
    ensures
        r@ == join_pieces(crate::text::texts(pieces@).subrange(lo as int, hi as int)),
{
    let ghost all = crate::text::texts(pieces@);
    let mut out = String::new();
    let mut i: usize = lo;
    while i < hi
        invariant
            lo <= i <= hi <= pieces@.len(),
            all == crate::text::texts(pieces@),
            out@ == join_pieces(all.subrange(lo as int, i as int)),
        decreases hi - i,
    {
        let ghost before = all.subrange(lo as int, i as int);
        if i > lo {
            out.push('/');
        }
        out.append(pieces[i].as_str());
        i += 1;
        proof {
            let now = all.subrange(lo as int, i as int);
            assert(now.drop_last() =~= before);
        }
    }
    out
}

fn rest_from(pieces: &Vec<String>, k: usize) -> (r: String)
    requires
        k <= pieces@.len(),
    ensures
        r@ == rest_of_path(crate::text::texts(pieces@), k as int),
{
    let ghost all = crate::text::texts(pieces@);
    let mut lo: usize = k;
    while lo < pieces.len() && !part_at(pieces, lo)
        invariant
            k <= lo <= pieces@.len(),
            all == crate::text::texts(pieces@),
            first_part(all, k as int) == first_part(all, lo as int),
        decreases pieces@.len() - lo,
    {
        lo += 1;
    }
    let hi: usize = end_of_parts(pieces);
    if lo < hi {
        joined_range(pieces, lo, hi)
    } else {
        String::new()
    }
}

/// What is left of `path` below the directory `root`.
pub fn path_below(path: &str, root: &str) -> (r: Option<String>)
    ensures
        match r {
            Some(s) => below(path@, root@) == Some(s@),
            None => below(path@, root@) is None,
        },
{
    let path_chars = chars_of(path);
    let root_chars = chars_of(root);
    let pieces = crate::text::pieces(path_chars.as_slice(), '/');
    let root_pieces = crate::text::pieces(root_chars.as_slice(), '/');
    let parts = parts_of(&root_pieces);
    let ghost all = crate::text::texts(pieces@);
    let ghost want = crate::text::texts(parts@);
    let absolute = path_chars.len() > 0 && path_chars[0] == '/';
    let root_absolute = root_chars.len() > 0 && root_chars[0] == '/';
    if !root_absolute && parts.len() == 0 {
        let hi: usize = end_of_parts(&pieces);
        if hi > 0 {
            return Some(joined_range(&pieces, 0, hi));
        }
        let mut out = String::new();
        if absolute {
            out.push('/');
        }
        return Some(out);
    }
    if absolute != root_absolute {
        return None;
    }
    let mut k: usize = 0;
    let mut j: usize = 0;
    while j < parts.len()
        invariant
            k <= pieces@.len(),
            j <= parts@.len(),
            all == crate::text::texts(pieces@),
            want == crate::text::texts(parts@),
            behind_parts(all, 0, want, 0) == behind_parts(all, k as int, want, j as int),
            below(path@, root@) == match behind_parts(all, 0, want, 0) {
                Some(k) => Some(rest_of_path(all, k)),
                None => None,
            },
        decreases pieces@.len() - k,
    {
        if k >= pieces.len() {
            return None;
        }
        if part_at(&pieces, k) {
            if !crate::text::same_text(pieces[k].as_str(), parts[j].as_str()) {
                return None;
            }
            j += 1;
        }
        k += 1;
    }
    Some(rest_from(&pieces, k))
}

/// A path that starts with a drive letter, behind a slash.
pub open spec fn rooted(s: Seq<char>) -> Seq<char> {
    if has_drive(s) {
        seq!['/'] + s
    } else {
        s
    }
}

/// The address of a file.
pub open spec fn file_uri(path: Seq<char>) -> Seq<char> {
    "file://"@ + percent(encode_utf8(rooted(forward(without_verbatim(path)))))
}

/// The address of a file.
pub fn path_to_uri(path: &str) -> (r: String)
    ensures
        r@ == file_uri(path@),
{
    let plain = strip_windows_verbatim_prefix(path);
    let s = forward_slashes(plain.as_str());
    let mut full = String::new();
    if starts_with_drive_letter(s.as_str()) {
        full.push('/');
    }
    full.append(s.as_str());
    let mut out = String::new();
    out.append("file://");
    out.append(percent_encode_path(full.as_str()).as_str());
    out
}

/// A path without the slash before its drive letter.
pub open spec fn unrooted(s: Seq<char>) -> Seq<char> {
    if s.len() > 0 && s[0] == '/' && has_drive(s.skip(1)) {
        s.skip(1)
    } else {
        s
    }
}

/// The path below the directory `root` that an address names.
pub open spec fn uri_below(root: Seq<char>, uri: Seq<char>) -> Option<Seq<char>> {
    if starts_with(uri, "file://"@) {
        below(
            with_capital_drive(unrooted(decoded_text(unpercent(encode_utf8(uri.skip(7)))))),
            with_capital_drive(forward(without_verbatim(root))),
        )
    } else {
        None
    }
}

/// The path below the directory `root` that an address names; none for
/// anything that lies elsewhere, or is no file.
pub fn uri_to_rel(root: &str, uri: &str) -> (r: Option<String>)
    ensures
        match r {
            Some(s) => uri_below(root@, uri@) == Some(s@),
            None => uri_below(root@, uri@) is None,
        },
{
    let chars = chars_of(uri);
    if !has_prefix(chars.as_slice(), "file://") {
        return None;
    }
    proof {
        reveal_strlit("file://");
    }
    let n: usize = chars.len();
    let body = slice_subrange(chars.as_slice(), 7, n);
    let decoded = percent_decode(string_of(body).as_str());
    let d = chars_of(decoded.as_str());
    let m: usize = d.len();
    let from: usize = if m > 0 && d[0] == '/' {
        let rest = slice_subrange(d.as_slice(), 1, m);
        if drive(rest) {
            1
        } else {
            0
        }
    } else {
        0
    };
    let path = string_of(slice_subrange(d.as_slice(), from, m));
    assert(path@ =~= unrooted(decoded@));
    let path = normalize_drive_letter(path.as_str());
    let plain = strip_windows_verbatim_prefix(root);
    let base = forward_slashes(plain.as_str());
    let base = normalize_drive_letter(base.as_str());
    path_below(path.as_str(), base.as_str())
}

proof fn lemma_find_concat(a: Seq<char>, c: char, b: Seq<char>)
    ensures
        crate::text::find(a + seq![c] + b, c) == crate::text::find(a, c),
{
    let s = a + seq![c] + b;
    let i = crate::text::find(a, c);
    crate::text::lemma_find(a, c);
    assert forall|j: int| 0 <= j < i implies s[j] != c by {}
    crate::text::lemma_find_unique(s, c, i);
}

/// Splitting works on either side of a separator.
pub proof fn lemma_split_concat(a: Seq<char>, c: char, b: Seq<char>)
    ensures
        crate::text::split(a + seq![c] + b, c) == crate::text::split(a, c) + crate::text::split(
            b,
            c,
        ),
    decreases a.len(),
{
    let s = a + seq![c] + b;
    let i = crate::text::find(a, c);
    lemma_find_concat(a, c, b);
    crate::text::lemma_find(a, c);
    if i < a.len() {
        let rest = a.skip(i + 1);
        lemma_split_concat(rest, c, b);
        assert(s.skip(i + 1) =~= rest + seq![c] + b);
        assert(s.take(i) =~= a.take(i));
    } else {
        assert(s.skip(i + 1) =~= b);
        assert(s.take(i) =~= a);
    }
}

proof fn lemma_split_nonempty(s: Seq<char>, c: char)
    ensures
        crate::text::split(s, c).len() >= 1,
{
}

proof fn lemma_join_front(p: Seq<Seq<char>>)
    requires
        p.len() >= 2,
    ensures
        join_pieces(p) == p[0] + seq!['/'] + join_pieces(p.skip(1)),
    decreases p.len(),
{
    let rest = p.skip(1);
    if p.len() == 2 {
        assert(join_pieces(p.drop_last()) == p[0]);
    } else {
        lemma_join_front(p.drop_last());
        assert(p.drop_last().skip(1) =~= rest.drop_last());
    }
}

/// Joining the pieces of a path gives the path back.
pub proof fn lemma_join_split(s: Seq<char>)
    ensures
        join_pieces(crate::text::split(s, '/')) == s,
    decreases s.len(),
{
    let i = crate::text::find(s, '/');
    crate::text::lemma_find(s, '/');
    let p = crate::text::split(s, '/');
    if i < s.len() {
        let rest = s.skip(i + 1);
        lemma_join_split(rest);
        lemma_split_nonempty(rest, '/');
        lemma_join_front(p);
        assert(p.skip(1) =~= crate::text::split(rest, '/'));
    }
}

proof fn lemma_parts_prefix(p: Seq<Seq<char>>, i: nat, m: nat)
    requires
        i <= m,
    ensures
        path_parts(p, i).len() <= path_parts(p, m).len(),
        path_parts(p, m).take(path_parts(p, i).len() as int) == path_parts(p, i),
        path_parts(p, i).len() == path_parts(p, m).len() ==> forall|k: int|
            i <= k < m ==> !is_part(p, k),
    decreases m,
{
    if i < m {
        lemma_parts_prefix(p, i, (m - 1) as nat);
    }
}

proof fn lemma_behind_own_parts(p: Seq<Seq<char>>, q: Seq<Seq<char>>, i: nat)
    requires
        i <= p.len(),
    ensures
        ({
            let all = p + q;
            let parts = path_parts(p, p.len());
            behind_parts(all, i as int, parts, path_parts(p, i).len() as int) matches Some(k)
                && i <= k <= p.len() && forall|x: int| k <= x < p.len() ==> !is_part(p, x)
        }),
    decreases p.len() - i,
{
    let m = p.len();
    let parts = path_parts(p, m);
    let j = path_parts(p, i).len() as int;
    lemma_parts_prefix(p, i, m);
    if j < parts.len() {
        assert(i < m);
        lemma_behind_own_parts(p, q, i + 1);
        if is_part(p, i as int) {
            lemma_parts_prefix(p, i + 1, m);
            assert(parts.take(path_parts(p, i + 1).len() as int)[j] == p[i as int]);
        }
    }
}

proof fn lemma_first_part(p: Seq<Seq<char>>, k: int, m: int)
    requires
        0 <= k <= m < p.len(),
        forall|x: int| k <= x < m ==> !is_part(p, x),
        is_part(p, m),
    ensures
        first_part(p, k) == m,
    decreases m - k,
{
    if k < m {
        lemma_first_part(p, k + 1, m);
    }
}

/// A path below `base`: what is left of it behind `base` and a slash.
proof fn lemma_below(base: Seq<char>, rel: Seq<char>)
    requires
        base.len() > 0,
        ({
            let q = crate::text::split(rel, '/');
            &&& q[0].len() > 0 && q[0] != "."@
            &&& q.last().len() > 0 && q.last() != "."@
        }),
    ensures
        below(base + seq!['/'] + rel, base) == Some(rel),
{
    let p = crate::text::split(base, '/');
    let q = crate::text::split(rel, '/');
    let all = p + q;
    let m = p.len() as int;
    lemma_split_concat(base, '/', rel);
    lemma_behind_own_parts(p, q, 0);
    let parts = path_parts(p, p.len());
    let k = behind_parts(all, 0, parts, 0)->0;
    assert forall|x: int| k <= x < m implies !is_part(all, x) by {
        assert(!is_part(p, x));
    }
    lemma_first_part(all, k, m);
    assert(all.subrange(m, all.len() as int) =~= q);
    lemma_join_split(rel);
    if parts.len() == 0 && !is_absolute(base) {
        // a relative path that is not empty has a part at its start
        assert(p[0].len() == 0) by {
            lemma_parts_prefix(p, 0, p.len());
        }
        crate::text::lemma_find(base, '/');
    }
}

proof fn lemma_verbatim_concat(a: Seq<char>, b: Seq<char>)
    ensures
        without_verbatim(a + seq!['/'] + b) == without_verbatim(a) + seq!['/'] + b,
{
    let s = a + seq!['/'] + b;
    reveal_strlit("\\\\?\\UNC\\");
    reveal_strlit("\\\\?\\");
    reveal_strlit("\\\\");
    let unc = "\\\\?\\UNC\\"@;
    let plain = "\\\\?\\"@;
    assert(starts_with(a, unc) == starts_with(s, unc)) by {
        if a.len() >= 8 {
            assert(s.take(8) =~= a.take(8));
        } else if s.len() >= 8 {
            assert(s.take(8)[a.len() as int] == '/');
        }
    }
    assert(starts_with(a, plain) == starts_with(s, plain)) by {
        if a.len() >= 4 {
            assert(s.take(4) =~= a.take(4));
        } else if s.len() >= 4 {
            assert(s.take(4)[a.len() as int] == '/');
        }
    }
    if !starts_with(a, unc) && starts_with(a, plain) {
        assert(s.skip(4) =~= a.skip(4) + seq!['/'] + b);
    }
}

/// The address of a file below `root` leads back to its path below `root`.
/// Left out are roots that name no directory, roots whose first directory
/// looks like a drive (`/d:`), and relative paths that start or end with a
/// slash or a dot between slashes.
pub proof fn law_address_leads_back(root: Seq<char>, rel: Seq<char>)
    requires
        ({
            let base = forward(without_verbatim(root));
            let q = crate::text::split(forward(rel), '/');
            &&& base.len() > 0
            &&& !(base[0] == '/' && has_drive(base.skip(1)))
            &&& q[0].len() > 0 && q[0] != "."@
            &&& q.last().len() > 0 && q.last() != "."@
        }),
    ensures
        uri_below(root, file_uri(root + seq!['/'] + rel)) == Some(forward(rel)),
{
    let path = root + seq!['/'] + rel;
    let base = forward(without_verbatim(root));
    let fr = forward(rel);
    let full = forward(without_verbatim(path));
    lemma_verbatim_concat(root, rel);
    let uri = file_uri(path);
    reveal_strlit("file://");
    let body = percent(encode_utf8(rooted(full)));
    assert(uri.take(7) =~= "file://"@);
    assert(uri.skip(7) =~= body);
    law_decode_undoes_encode(rooted(full));
    if has_drive(full) {
        assert(rooted(full).skip(1) =~= full);
    } else {
        assert(unrooted(full) == full);
    }
    assert(with_capital_drive(full) =~= with_capital_drive(base) + seq!['/'] + fr);
    lemma_below(with_capital_drive(base), fr);
}

/// Whether two paths have the same parts.
pub open spec fn same_path(a: Seq<char>, b: Seq<char>) -> bool {
    let p = crate::text::split(a, '/');
    let q = crate::text::split(b, '/');
    is_absolute(a) == is_absolute(b) && path_parts(p, p.len()) == path_parts(q, q.len())
}

/// Whether two paths have the same parts.
pub fn is_same_path(a: &str, b: &str) -> (r: bool)
    ensures
        r == same_path(a@, b@),
{
    let x = chars_of(a);
    let y = chars_of(b);
    if (x.len() > 0 && x[0] == '/') != (y.len() > 0 && y[0] == '/') {
        return false;
    }
    let p = parts_of(&crate::text::pieces(x.as_slice(), '/'));
    let q = parts_of(&crate::text::pieces(y.as_slice(), '/'));
    same_texts(&p, &q)
}

/// Whether two lists hold the same texts.
pub(crate) fn same_texts(p: &Vec<String>, q: &Vec<String>) -> (r: bool)
    ensures
        r == (crate::text::texts(p@) == crate::text::texts(q@)),
{
    let ghost a = crate::text::texts(p@);
    let ghost b = crate::text::texts(q@);
    if p.len() != q.len() {
        assert(a.len() != b.len());
        return false;
    }
    let mut i: usize = 0;
    while i < p.len()
        invariant
            i <= p@.len(),
            p@.len() == q@.len(),
            a == crate::text::texts(p@),
            b == crate::text::texts(q@),
            forall|j: int| 0 <= j < i ==> a[j] == b[j],
        decreases p@.len() - i,
    {
        if !crate::text::same_text(p[i].as_str(), q[i].as_str()) {
            assert(a[i as int] != b[i as int]);
            return false;
        }
        i += 1;
    }
    assert(a =~= b);
    true
}

/// What lies in a directory is below it: what is left of its path is what
/// stands behind the directory and a slash.
pub proof fn law_directory_holds_its_files(base: Seq<char>, rel: Seq<char>)
    requires
        base.len() > 0,
        ({
            let q = crate::text::split(rel, '/');
            &&& q[0].len() > 0 && q[0] != "."@
            &&& q.last().len() > 0 && q.last() != "."@
        }),
    ensures
        below(base + seq!['/'] + rel, base) == Some(rel),
        base[0] == '/' ==> below(rel, base) is None,
{
    lemma_below(base, rel);
    crate::text::lemma_find(rel, '/');
    assert(!is_absolute(rel)) by {
        if is_absolute(rel) {
            assert(crate::text::find(rel, '/') == 0);
        }
    }
}

proof fn lemma_split_extend(a: Seq<char>, x: Seq<char>)
    requires
        forall|i: int| 0 <= i < x.len() ==> (#[trigger] x[i]) != '/',
    ensures
        ({
            let p = crate::text::split(a, '/');
            crate::text::split(a + x, '/') == p.update(p.len() - 1, p.last() + x)
        }),
    decreases a.len(),
{
    let s = a + x;
    let i = crate::text::find(a, '/');
    crate::text::lemma_find(a, '/');
    let p = crate::text::split(a, '/');
    if i < a.len() {
        let rest = a.skip(i + 1);
        lemma_split_extend(rest, x);
        assert forall|j: int| 0 <= j < i implies s[j] != '/' by {
            assert(a[j] != '/');
        }
        assert(s[i] == '/');
        crate::text::lemma_find_unique(s, '/', i);
        assert(s.skip(i + 1) =~= rest + x);
        assert(s.take(i) =~= a.take(i));
        let r = crate::text::split(rest, '/');
        lemma_split_nonempty(rest, '/');
        assert(p.update(p.len() - 1, p.last() + x) =~= seq![a.take(i)] + r.update(
            r.len() - 1,
            r.last() + x,
        ));
    } else {
        assert forall|j: int| 0 <= j < s.len() implies s[j] != '/' by {
            if j < a.len() {
                assert(a[j] != '/');
            } else {
                assert(s[j] == x[j - a.len()]);
            }
        }
        crate::text::lemma_find_unique(s, '/', s.len() as int);
        assert(p.update(p.len() - 1, p.last() + x) =~= seq![s]);
    }
}

proof fn lemma_parts_same(p: Seq<Seq<char>>, q: Seq<Seq<char>>, n: nat)
    requires
        n <= p.len(),
        n <= q.len(),
        forall|i: int| 0 <= i < n ==> p[i] == q[i],
    ensures
        path_parts(p, n) == path_parts(q, n),
    decreases n,
{
    if n > 0 {
        lemma_parts_same(p, q, (n - 1) as nat);
    }
}

proof fn lemma_other_last(
    all: Seq<Seq<char>>,
    parts: Seq<Seq<char>>,
    m: int,
    i: int,
)
    requires
        0 <= i < m <= all.len(),
        is_part(all, m - 1),
        parts.len() == path_parts(all, m as nat).len(),
        parts.drop_last() == path_parts(all, (m - 1) as nat),
        parts.len() > 0,
        parts.last() != all[m - 1],
    ensures
        behind_parts(all, i, parts, path_parts(all, i as nat).len() as int) is None,
    decreases m - i,
{
    let j = path_parts(all, i as nat).len() as int;
    lemma_parts_prefix(all, i as nat, (m - 1) as nat);
    assert(j < parts.len());
    if i < m - 1 {
        lemma_other_last(all, parts, m, i + 1);
        if is_part(all, i) {
            lemma_parts_prefix(all, (i + 1) as nat, (m - 1) as nat);
            let most = path_parts(all, (m - 1) as nat);
            assert(most.take(path_parts(all, (i + 1) as nat).len() as int)[j] == all[i]);
            assert(parts[j] == parts.drop_last()[j]);
        }
    }
}

/// A directory whose name only starts with that of another is another one:
/// nothing in it is below the first.
pub proof fn law_longer_name_is_another_directory(base: Seq<char>, x: Seq<char>, rel: Seq<char>)
    requires
        base.len() > 0,
        base.last() != '/',
        base.last() != '.',
        x.len() > 0,
        forall|i: int| 0 <= i < x.len() ==> (#[trigger] x[i]) != '/',
    ensures
        below(base + x + seq!['/'] + rel, base) is None,
{
    let p = crate::text::split(base, '/');
    let ext = base + x;
    let path = ext + seq!['/'] + rel;
    let m = p.len() as int;
    lemma_split_nonempty(base, '/');
    lemma_split_extend(base, x);
    lemma_split_concat(ext, '/', rel);
    lemma_split_last(base);
    let all = crate::text::split(path, '/');
    assert(all[m - 1] == p.last() + x);
    reveal_strlit(".");
    let parts = path_parts(p, p.len());
    assert(p.last().len() > 0);
    assert(p.last() != "."@) by {
        if p.last() == "."@ {
            assert(p.last().last() == '.');
        }
    }
    assert(is_part(p, m - 1));
    lemma_parts_same(p, all, (m - 1) as nat);
    assert(p.last() + x != "."@) by {
        assert((p.last() + x).len() >= 2);
    }
    assert(is_part(all, m - 1));
    assert(parts.drop_last() =~= path_parts(p, (m - 1) as nat));
    assert(parts.last() != all[m - 1]) by {
        assert((p.last() + x).len() > p.last().len());
    }
    assert(path_parts(all, 0).len() == 0);
    lemma_other_last(all, parts, m, 0);
    assert(is_absolute(path) == is_absolute(base)) by {
        assert(path[0] == base[0]);
    }
}

proof fn lemma_split_last(s: Seq<char>)
    requires
        s.len() > 0,
        s.last() != '/',
    ensures
        crate::text::split(s, '/').last().len() > 0,
        crate::text::split(s, '/').last().last() == s.last(),
    decreases s.len(),
{
    let i = crate::text::find(s, '/');
    crate::text::lemma_find(s, '/');
    if i < s.len() {
        let rest = s.skip(i + 1);
        assert(rest.len() > 0) by {
            if i + 1 == s.len() {
                assert(s[i] == '/');
            }
        }
        lemma_split_last(rest);
        lemma_split_nonempty(rest, '/');
        assert(crate::text::split(s, '/').last() == crate::text::split(rest, '/').last());
    }
}

/// The extension of a file is what follows the last dot of its name, which is
/// no extension where nothing stands before the dot.
pub proof fn law_extension_follows_the_last_dot(stem: Seq<char>, ext: Seq<char>)
    requires
        forall|i: int| 0 <= i < ext.len() ==> (#[trigger] ext[i]) != '.',
    ensures
        stem.len() > 0 && stem + seq!['.'] + ext != ".."@ ==> name_extension(
            stem + seq!['.'] + ext,
        ) == Some(ext),
        stem.len() == 0 ==> name_extension(stem + seq!['.'] + ext) is None,
        name_extension(ext) is None,
{
    let name = stem + seq!['.'] + ext;
    lemma_last_dot(stem, ext);
    lemma_no_dot(ext);
    assert(name.skip(stem.len() as int + 1) =~= ext);
}

proof fn lemma_last_dot(stem: Seq<char>, ext: Seq<char>)
    requires
        forall|i: int| 0 <= i < ext.len() ==> (#[trigger] ext[i]) != '.',
    ensures
        find_last(stem + seq!['.'] + ext, '.') == stem.len(),
    decreases ext.len(),
{
    let name = stem + seq!['.'] + ext;
    if ext.len() == 0 {
        assert(name.last() == '.');
    } else {
        assert(name.last() == ext[ext.len() - 1]);
        assert(name.drop_last() =~= stem + seq!['.'] + ext.drop_last());
        lemma_last_dot(stem, ext.drop_last());
    }
}

proof fn lemma_no_dot(s: Seq<char>)
    requires
        forall|i: int| 0 <= i < s.len() ==> (#[trigger] s[i]) != '.',
    ensures
        find_last(s, '.') == -1,
    decreases s.len(),
{
    if s.len() > 0 {
        assert(s.last() == s[s.len() - 1]);
        lemma_no_dot(s.drop_last());
    }
}

/// A slash at the end of a path makes no other path of it, and a part at the
/// end does.
pub proof fn law_same_path_whatever_the_slashes(a: Seq<char>, part: Seq<char>)
    requires
        a.len() > 0,
        part.len() > 0,
        part != "."@,
        forall|i: int| 0 <= i < part.len() ==> (#[trigger] part[i]) != '/',
    ensures
        same_path(a, a),
        same_path(a + seq!['/'], a),
        same_path(a, a + seq!['/']),
        !same_path(a + seq!['/'] + part, a),
        !same_path(a, a + seq!['/'] + part),
        same_path(a + seq!['/'] + seq!['/'] + part, a + seq!['/'] + part),
{
    let none = Seq::<char>::empty();
    let p = crate::text::split(a, '/');
    lemma_split_concat(a, '/', none);
    assert(a + seq!['/'] + none =~= a + seq!['/']);
    assert(crate::text::split(none, '/') =~= seq![none]);
    lemma_parts_of_more(p, seq![none], p.len());
    lemma_split_concat(a, '/', part);
    crate::text::lemma_find_unique(part, '/', part.len() as int);
    assert(crate::text::split(part, '/') =~= seq![part]);
    lemma_parts_of_more(p, seq![part], p.len());
    let b = a + seq!['/'];
    let q = crate::text::split(b, '/');
    lemma_split_concat(b, '/', part);
    lemma_parts_of_more(q, seq![part], q.len());
    lemma_split_nonempty(a, '/');
    let longer = crate::text::split(a + seq!['/'] + part, '/');
    assert(longer.last() == part);
    assert(path_parts(longer, longer.len()) == path_parts(p, p.len()).push(part));
    assert(path_parts(longer, longer.len()).len() == path_parts(p, p.len()).len() + 1);
    assert(b[0] == a[0]);
    assert((a + seq!['/'] + part)[0] == a[0]);
    assert((b + seq!['/'] + part)[0] == a[0]);
}

proof fn lemma_parts_of_more(p: Seq<Seq<char>>, more: Seq<Seq<char>>, n: nat)
    requires
        n <= p.len(),
    ensures
        path_parts(p + more, n) == path_parts(p, n),
    decreases n,
{
    if n > 0 {
        lemma_parts_of_more(p, more, (n - 1) as nat);
        assert((p + more)[n - 1] == p[n - 1]);
    }
}

} // verus!
