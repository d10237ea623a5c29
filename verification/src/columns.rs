//! Columns of occurrences: what a producer counts, and the byte column that
//! the graph keeps.
use vstd::hash_map::StringHashMap;
use vstd::prelude::*;
use vstd::utf8::{encode_scalar, encode_utf8, is_char_boundary, pop_first_scalar, valid_utf8};
use crate::text::{chars_of, copy_text, lines, lines_of, texts};

verus! {

/// What a producer's reported column counts.
#[derive(Debug, Clone, Copy, PartialEq, Eq, Structural)]
pub enum ColUnit {
    /// UTF-8 bytes.
    Utf8,
    /// UTF-16 code units.
    Utf16,
    /// Not declared, or declared as something unknown.
    Unknown,
}

impl ColUnit {
    /// What a declaration of the unit means.
    pub open spec fn declared(declared: Option<Seq<char>>) -> ColUnit {
        if declared == Some("utf8"@) {
            ColUnit::Utf8
        } else if declared == Some("utf16"@) {
            ColUnit::Utf16
        } else {
            ColUnit::Unknown
        }
    }

    /// Reads a producer's declaration. Anything unrecognised, or absent, is
    /// `Unknown`.
    pub fn parse(declared: Option<&str>) -> (r: Self)
        ensures
            r == Self::declared(
                match declared {
                    Some(d) => Some(d@),
                    None => None,
                },
            ),
    {
        match declared {
            Some(d) => if crate::text::same_text(d, "utf8") {
                ColUnit::Utf8
            } else if crate::text::same_text(d, "utf16") {
                ColUnit::Utf16
            } else {
                ColUnit::Unknown
            },
            None => ColUnit::Unknown,
        }
    }
}

/// The number of bytes that `s` takes in UTF-8.
pub open spec fn utf8_len(s: Seq<char>) -> nat {
    encode_utf8(s).len()
}

/// The number of code units that `s` takes in UTF-16.
pub open spec fn utf16_len(s: Seq<char>) -> nat
    decreases s.len(),
{
    if s.len() == 0 {
        0
    } else {
        utf16_len(s.drop_last()) + utf16_width(s.last())
    }
}

/// The number of code units that `c` takes in UTF-16.
pub open spec fn utf16_width(c: char) -> nat {
    if c as u32 > 0xffff {
        2
    } else {
        1
    }
}

/// The first `character` bytes of `line` are all ASCII: there, every encoding
/// counts the same.
pub open spec fn ascii_before(line: Seq<char>, character: int) -> bool {
    &&& 0 <= character <= utf8_len(line)
    &&& forall|i: int| 0 <= i < character ==> encode_utf8(line)[i] < 128
}

/// The column that means the same under every encoding.
pub open spec fn agnostic_col(line: Seq<char>, character: int) -> Option<u32> {
    if ascii_before(line, character) {
        Some(character as u32)
    } else {
        None
    }
}

/// The first `k` characters of `line` make up `character` units.
pub open spec fn reaches(line: Seq<char>, character: int, unit: ColUnit, k: int) -> bool {
    0 <= k <= line.len() && character == match unit {
        ColUnit::Utf8 => utf8_len(line.take(k)),
        ColUnit::Utf16 => utf16_len(line.take(k)),
        ColUnit::Unknown => k as nat,
    }
}

/// The byte column of the position that lies `character` units into `line`;
/// none where no character starts or ends there.
pub open spec fn unit_col(line: Seq<char>, character: int, unit: ColUnit) -> Option<u32> {
    if unit == ColUnit::Unknown {
        agnostic_col(line, character)
    } else if exists|k: int| reaches(line, character, unit, k) {
        Some(utf8_len(line.take(choose|k: int| reaches(line, character, unit, k))) as u32)
    } else {
        None
    }
}

/// Encoding works piece by piece.
pub proof fn lemma_encode_concat(a: Seq<char>, b: Seq<char>)
    ensures
        encode_utf8(a + b) == encode_utf8(a) + encode_utf8(b),
    decreases a.len(),
{
    if a.len() != 0 {
        assert((a + b).drop_first() =~= a.drop_first() + b);
        lemma_encode_concat(a.drop_first(), b);
    }
}

/// The number of bytes that `c` takes in UTF-8.
pub open spec fn utf8_width(c: char) -> nat {
    if (c as u32) < 0x80 {
        1
    } else if (c as u32) < 0x800 {
        2
    } else if (c as u32) < 0x10000 {
        3
    } else {
        4
    }
}

pub proof fn lemma_utf8_push(s: Seq<char>, c: char)
    ensures
        encode_utf8(s.push(c)) == encode_utf8(s) + encode_scalar(c as u32),
        encode_scalar(c as u32).len() == utf8_width(c),
        utf8_len(s.push(c)) == utf8_len(s) + utf8_width(c),
{
    vstd::utf8::char_is_scalar(c);
    let one = seq![c];
    assert(s.push(c) =~= s + one);
    lemma_encode_concat(s, one);
    assert(one.drop_first() =~= Seq::<char>::empty());
    assert(encode_utf8(one) =~= encode_scalar(c as u32)) by {
        reveal_with_fuel(encode_utf8, 2);
    }
}

pub proof fn lemma_utf8_take(s: Seq<char>, k: int)
    requires
        0 <= k < s.len(),
    ensures
        utf8_len(s.take(k + 1)) == utf8_len(s.take(k)) + utf8_width(s[k]),
        utf16_len(s.take(k + 1)) == utf16_len(s.take(k)) + utf16_width(s[k]),
{
    assert(s.take(k + 1) =~= s.take(k).push(s[k]));
    lemma_utf8_push(s.take(k), s[k]);
    assert(s.take(k).push(s[k]).drop_last() =~= s.take(k));
}

/// A longer prefix has more units in it.
pub proof fn lemma_prefix_grows(s: Seq<char>, i: int, j: int)
    requires
        0 <= i < j <= s.len(),
    ensures
        utf8_len(s.take(i)) < utf8_len(s.take(j)),
        utf16_len(s.take(i)) < utf16_len(s.take(j)),
    decreases j - i,
{
    lemma_utf8_take(s, j - 1);
    if i < j - 1 {
        lemma_prefix_grows(s, i, j - 1);
    }
}

/// At most one prefix of a line has a given number of units.
pub proof fn lemma_reaches_unique(s: Seq<char>, character: int, unit: ColUnit, i: int, j: int)
    requires
        reaches(s, character, unit, i),
        reaches(s, character, unit, j),
    ensures
        i == j,
{
    if i < j {
        lemma_prefix_grows(s, i, j);
    } else if j < i {
        lemma_prefix_grows(s, j, i);
    }
}

/// The character boundaries of the encoding are the ends of its prefixes.
pub proof fn lemma_boundary(s: Seq<char>, t: int)
    ensures
        is_char_boundary(encode_utf8(s), t) <==> exists|k: int|
            reaches(s, t, ColUnit::Utf8, k),
    decreases s.len(),
{
    let b = encode_utf8(s);
    vstd::utf8::encode_utf8_valid_utf8(s);
    if t == 0 {
        assert(reaches(s, t, ColUnit::Utf8, 0));
    } else if s.len() == 0 {
        assert forall|k: int| !reaches(s, t, ColUnit::Utf8, k) by {}
    } else {
        let rest = s.drop_first();
        let w = encode_scalar(s[0] as u32).len();
        vstd::utf8::encode_utf8_first_scalar(s);
        assert(pop_first_scalar(b) =~= encode_utf8(rest));
        let u = t - w;
        lemma_boundary(rest, u);
        assert forall|k: int| 0 <= k < s.len() implies #[trigger] utf8_len(rest.take(k)) + w
            == utf8_len(s.take(k + 1)) by {
            assert(s.take(k + 1).drop_first() =~= rest.take(k));
        }
        if exists|k: int| reaches(rest, u, ColUnit::Utf8, k) {
            let k = choose|k: int| reaches(rest, u, ColUnit::Utf8, k);
            assert(reaches(s, t, ColUnit::Utf8, k + 1));
        }
        if exists|k: int| reaches(s, t, ColUnit::Utf8, k) {
            let k = choose|k: int| reaches(s, t, ColUnit::Utf8, k);
            if k > 0 {
                assert(reaches(rest, u, ColUnit::Utf8, k - 1));
            }
            if k < s.len() {
                lemma_prefix_grows(s, k, s.len() as int);
            }
        }
    }
}

/// The occurrence column, but only when it means the same thing under every
/// encoding: `Some` exactly when everything before it on the line is ASCII.
pub fn encoding_agnostic_col(line: &str, character: i32) -> (r: Option<u32>)
    ensures
        r == agnostic_col(line@, character as int),
{
    if character < 0 {
        return None;
    }
    let bytes = line.as_bytes();
    if character as u64 > bytes.len() as u64 {
        return None;
    }
    let col: usize = character as usize;
    let mut i: usize = 0;
    while i < col
        invariant
            i <= col <= bytes@.len(),
            bytes@ == encode_utf8(line@),
            col == character,
            forall|j: int| 0 <= j < i ==> bytes@[j] < 128,
        decreases col - i,
    {
        if bytes[i] >= 128 {
            return None;
        }
        i += 1;
    }
    Some(col as u32)
}

/// The byte column, counted from zero, for `character` on `line`, given what
/// the producer says `character` counts. `None` where the position does not
/// exist on this line, or lies inside a character.
pub fn col_in_unit(line: &str, character: i32, unit: ColUnit) -> (r: Option<u32>)
    ensures
        r == unit_col(line@, character as int, unit),
{
    if unit == ColUnit::Unknown {
        return encoding_agnostic_col(line, character);
    }
    if character < 0 {
        return None;
    }
    if unit == ColUnit::Utf8 {
        proof {
            lemma_boundary(line@, character as int);
        }
        if character as u64 <= line.as_bytes().len() as u64 && line.is_char_boundary(character as usize) {
            return Some(character as u32);
        }
        proof {
            if exists|k: int| reaches(line@, character as int, unit, k) {
                let k = choose|k: int| reaches(line@, character as int, unit, k);
                if k < line@.len() {
                    lemma_prefix_grows(line@, k, line@.len() as int);
                }
                assert(line@.take(line@.len() as int) =~= line@);
            }
        }
        return None;
    }
    let target: u64 = character as u64;
    let chars = chars_of(line);
    let mut units: u64 = 0;
    let mut bytes: u64 = 0;
    let mut i: usize = 0;
    while i < chars.len()
        invariant
            i <= chars@.len(),
            chars@ == line@,
            target == character <= i32::MAX,
            unit == ColUnit::Utf16,
            units <= target,
            units == utf16_len(line@.take(i as int)),
            bytes == utf8_len(line@.take(i as int)),
            bytes <= 4 * units,
        decreases chars@.len() - i,
    {
        if units == target {
            proof {
                let k = choose|k: int| reaches(line@, character as int, unit, k);
                assert(reaches(line@, character as int, unit, i as int));
                lemma_reaches_unique(line@, character as int, unit, i as int, k);
            }
            return Some(bytes as u32);
        }
        proof {
            lemma_utf8_take(line@, i as int);
        }
        let c: u32 = chars[i] as u32;
        units = units + if c > 0xffff { 2 } else { 1 };
        if units > target {
            proof {
                assert forall|k: int| !reaches(line@, character as int, unit, k) by {
                    if reaches(line@, character as int, unit, k) {
                        if k < i {
                            lemma_prefix_grows(line@, k, i as int);
                        } else if k > i + 1 {
                            lemma_prefix_grows(line@, i + 1, k);
                        }
                    }
                }
            }
            return None;
        }
        bytes = bytes + if c < 0x80 { 1 } else if c < 0x800 { 2 } else if c < 0x10000 { 3 } else { 4 };
        i += 1;
    }
    if units == target {
        proof {
            let k = choose|k: int| reaches(line@, character as int, unit, k);
            assert(reaches(line@, character as int, unit, i as int));
            lemma_reaches_unique(line@, character as int, unit, i as int, k);
        }
        Some(bytes as u32)
    } else {
        proof {
            assert forall|k: int| !reaches(line@, character as int, unit, k) by {
                if reaches(line@, character as int, unit, k) && k < line@.len() {
                    lemma_prefix_grows(line@, k, line@.len() as int);
                }
            }
        }
        None
    }
}

/// The lines of the files that occurrences lie in, each file read at most
/// once.
pub struct SourceCache {
    files: StringHashMap<Option<Vec<String>>>,
}

/// What a cache knows of a file: its lines, or that it could not be read.
pub open spec fn file_lines(text: Option<Seq<char>>) -> Option<Seq<Seq<char>>> {
    match text {
        Some(t) => Some(lines(t)),
        None => None,
    }
}

impl View for SourceCache {
    type V = Map<Seq<char>, Option<Seq<Seq<char>>>>;

    closed spec fn view(&self) -> Map<Seq<char>, Option<Seq<Seq<char>>>> {
        self.files@.map_values(
            |f: Option<Vec<String>>|
                match f {
                    Some(v) => Some(texts(v@)),
                    None => None,
                },
        )
    }
}

/// A cache after `path` was read with the result `text`.
pub open spec fn loaded(
    cache: Map<Seq<char>, Option<Seq<Seq<char>>>>,
    path: Seq<char>,
    text: Option<Seq<char>>,
) -> Map<Seq<char>, Option<Seq<Seq<char>>>> {
    if cache.contains_key(path) {
        cache
    } else {
        cache.insert(path, file_lines(text))
    }
}

/// The column of `character` on `line`, counted from one, of a file with
/// `file` for its lines.
pub open spec fn file_col(
    file: Option<Seq<Seq<char>>>,
    line: u32,
    character: int,
    unit: ColUnit,
) -> Option<u32> {
    match file {
        Some(v) => if 0 < line <= v.len() {
            unit_col(v[line - 1], character, unit)
        } else {
            None
        },
        None => None,
    }
}

impl SourceCache {
    /// A cache that knows no file.
    pub fn new() -> (r: Self)
        ensures
            r@ == Map::<Seq<char>, Option<Seq<Seq<char>>>>::empty(),
    {
        let r = SourceCache { files: StringHashMap::new() };
        r
    }

    /// Whether `path` is known, readable or not.
    pub fn knows(&self, path: &str) -> (r: bool)
        ensures
            r == self@.contains_key(path@),
    {
        self.files.contains_key(path)
    }

    /// Takes note of what reading `path` gave. What is known of a file stays.
    pub fn load(&mut self, path: &str, text: Option<&str>)
        ensures
            final(self)@ == loaded(
                old(self)@,
                path@,
                match text {
                    Some(t) => Some(t@),
                    None => None,
                },
            ),
    {
        if self.files.contains_key(path) {
            return;
        }
        let entry = match text {
            Some(t) => {
                let chars = chars_of(t);
                Some(lines_of(chars.as_slice()))
            },
            None => None,
        };
        self.files.insert(copy_text(path), entry);
    }

    /// The byte column for `character` on `line`, counted from one, of
    /// `path`, given what the producer counts. `None` where the file is
    /// unknown or was unreadable, or the line or the position is missing.
    pub fn col_in(&self, path: &str, line: u32, character: i32, unit: ColUnit) -> (r: Option<u32>)
        ensures
            r == if self@.contains_key(path@) {
                file_col(self@[path@], line, character as int, unit)
            } else {
                None
            },
    {
        match self.files.get(path) {
            Some(entry) => match entry {
                Some(v) => {
                    if line == 0 || line as u64 > v.len() as u64 {
                        return None;
                    }
                    let i: usize = (line - 1) as usize;
                    col_in_unit(v[i].as_str(), character, unit)
                },
                None => None,
            },
            None => None,
        }
    }

    /// The byte column for `character` on `line`, counted from one, of
    /// `path`, where every encoding agrees on it.
    pub fn col(&self, path: &str, line: u32, character: i32) -> (r: Option<u32>)
        ensures
            r == if self@.contains_key(path@) {
                file_col(self@[path@], line, character as int, ColUnit::Unknown)
            } else {
                None
            },
    {
        self.col_in(path, line, character, ColUnit::Unknown)
    }
}

/// A column that is kept without knowing the unit is the column under every
/// unit.
pub proof fn law_agnostic_agrees(line: Seq<char>, character: i32, unit: ColUnit)
    requires
        agnostic_col(line, character as int) is Some,
    ensures
        unit_col(line, character as int, unit) == Some(character as u32),
{
    let n = character as int;
    lemma_ascii_prefix(line, n);
    if unit != ColUnit::Unknown {
        let k = choose|k: int| reaches(line, n, unit, k);
        lemma_reaches_unique(line, n, unit, n, k);
    }
}

proof fn lemma_ascii_prefix(line: Seq<char>, n: int)
    requires
        ascii_before(line, n),
    ensures
        n <= line.len(),
        utf8_len(line.take(n)) == n,
        utf16_len(line.take(n)) == n,
    decreases n,
{
    if n != 0 {
        lemma_ascii_prefix(line, n - 1);
        let head = line.take(n - 1);
        let rest = line.skip(n - 1);
        assert(head + rest =~= line);
        lemma_encode_concat(head, rest);
        assert(encode_utf8(line)[n - 1] == encode_utf8(rest)[0]);
        vstd::utf8::encode_utf8_first_scalar(rest);
        lemma_utf8_take(line, n - 1);
        lemma_utf8_push(Seq::empty(), rest[0]);
    }
}

/// A declared position is found exactly where a prefix of the line has that
/// many units, and its column is the length of that prefix in bytes: it never
/// lies inside a character.
pub proof fn law_column_ends_a_prefix(line: Seq<char>, character: i32, unit: ColUnit, k: int)
    requires
        unit != ColUnit::Unknown,
        reaches(line, character as int, unit, k),
    ensures
        unit_col(line, character as int, unit) == Some(utf8_len(line.take(k)) as u32),
{
    let j = choose|j: int| reaches(line, character as int, unit, j);
    lemma_reaches_unique(line, character as int, unit, j, k);
}

/// A file is read at most once: what a cache knows of it is not changed by a
/// later read.
pub proof fn law_known_file_stays(
    cache: Map<Seq<char>, Option<Seq<Seq<char>>>>,
    path: Seq<char>,
    other: Seq<char>,
    text: Option<Seq<char>>,
)
    requires
        cache.contains_key(path),
    ensures
        loaded(cache, other, text).contains_key(path),
        loaded(cache, other, text)[path] == cache[path],
{
}

proof fn lemma_ascii_chars(line: Seq<char>, n: int)
    requires
        0 <= n <= line.len(),
        forall|i: int| 0 <= i < n ==> (#[trigger] line[i] as u32) < 128,
    ensures
        utf8_len(line.take(n)) == n,
        utf16_len(line.take(n)) == n,
        forall|i: int| 0 <= i < n ==> (#[trigger] encode_utf8(line.take(n))[i]) < 128,
    decreases n,
{
    if n > 0 {
        lemma_ascii_chars(line, n - 1);
        lemma_utf8_take(line, n - 1);
        let head = line.take(n - 1);
        let c = line[n - 1];
        assert(line.take(n) =~= head.push(c));
        lemma_utf8_push(head, c);
        vstd::utf8::char_is_scalar(c);
        let b = encode_utf8(line.take(n));
        let code = c as u32;
        assert(code < 128 ==> ((code & 0x7f) as u8) < 128) by (bit_vector);
        assert(encode_scalar(code)[0] < 128);
        assert forall|i: int| 0 <= i < n implies (#[trigger] b[i]) < 128 by {
            if i < n - 1 {
                assert(b[i] == encode_utf8(head)[i]);
            } else {
                assert(b[i] == encode_scalar(code)[0]);
            }
        }
    } else {
        assert(line.take(0) =~= Seq::<char>::empty());
    }
}

/// Behind nothing but ASCII, a column is the number of characters before it,
/// whatever the producer counts.
pub proof fn law_ascii_column_is_kept(line: Seq<char>, n: int, unit: ColUnit)
    requires
        0 <= n <= line.len(),
        n <= i32::MAX,
        forall|i: int| 0 <= i < n ==> (#[trigger] line[i] as u32) < 128,
    ensures
        unit_col(line, n, unit) == Some(n as u32),
        agnostic_col(line, n) == Some(n as u32),
{
    lemma_ascii_chars(line, n);
    let head = line.take(n);
    let rest = line.skip(n);
    assert(head + rest =~= line);
    lemma_encode_concat(head, rest);
    assert forall|i: int| 0 <= i < n implies encode_utf8(line)[i] < 128 by {
        assert(encode_utf8(line)[i] == encode_utf8(head)[i]);
    }
    assert(ascii_before(line, n));
    law_agnostic_agrees(line, n as i32, unit);
}

/// Where the unit is not known, a column behind a character outside ASCII is
/// dropped.
pub proof fn law_unknown_column_behind_non_ascii_is_dropped(line: Seq<char>, i: int, n: int)
    requires
        0 <= i < line.len(),
        i < n,
        (line[i] as u32) >= 128,
    ensures
        unit_col(line, n, ColUnit::Unknown) is None,
        agnostic_col(line, n) is None,
{
    if ascii_before(line, n) {
        assert(ascii_before(line, i));
        assert(ascii_before(line, i + 1));
        lemma_ascii_prefix(line, i);
        lemma_ascii_prefix(line, i + 1);
        lemma_utf8_take(line, i);
    }
}

/// How many code units of UTF-16 a text takes: one for each character, and one
/// more for each beyond the first plane.
pub open spec fn code_units(s: Seq<char>) -> nat {
    s.len() + s.filter(|c: char| c as u32 >= 0x1_0000).len()
}

proof fn lemma_code_units(s: Seq<char>)
    ensures
        utf16_len(s) == code_units(s),
    decreases s.len(),
{
    reveal(Seq::filter);
    if s.len() > 0 {
        lemma_code_units(s.drop_last());
    }
}

/// A column in declared units is that of the character that so many units
/// stand before, counted in bytes; where a number of units ends inside a
/// character there is no column.
pub proof fn law_declared_column(line: Seq<char>, k: int)
    requires
        0 <= k <= line.len(),
    ensures
        unit_col(line, code_units(line.take(k)) as int, ColUnit::Utf16) == Some(
            encode_utf8(line.take(k)).len() as u32,
        ),
        unit_col(line, encode_utf8(line.take(k)).len() as int, ColUnit::Utf8) == Some(
            encode_utf8(line.take(k)).len() as u32,
        ),
        forall|n: int|
            #![trigger unit_col(line, n, ColUnit::Utf16)]
            k < line.len() && code_units(line.take(k)) < n < code_units(line.take(k + 1))
                ==> unit_col(line, n, ColUnit::Utf16) is None,
        forall|n: int|
            #![trigger unit_col(line, n, ColUnit::Utf8)]
            k < line.len() && encode_utf8(line.take(k)).len() < n < encode_utf8(
                line.take(k + 1),
            ).len() ==> unit_col(line, n, ColUnit::Utf8) is None,
{
    lemma_code_units(line.take(k));
    let a = code_units(line.take(k)) as int;
    let b = utf8_len(line.take(k)) as int;
    assert(reaches(line, a, ColUnit::Utf16, k));
    let i = choose|i: int| reaches(line, a, ColUnit::Utf16, i);
    lemma_reaches_unique(line, a, ColUnit::Utf16, i, k);
    assert(reaches(line, b, ColUnit::Utf8, k));
    let j = choose|j: int| reaches(line, b, ColUnit::Utf8, j);
    lemma_reaches_unique(line, b, ColUnit::Utf8, j, k);
    if k < line.len() {
        lemma_code_units(line.take(k + 1));
        assert forall|n: int|
            #![trigger unit_col(line, n, ColUnit::Utf16)]
            a < n < code_units(line.take(k + 1)) implies unit_col(
            line,
            n,
            ColUnit::Utf16,
        ) is None by {
            if exists|m: int| reaches(line, n, ColUnit::Utf16, m) {
                let m = choose|m: int| reaches(line, n, ColUnit::Utf16, m);
                if m < k {
                    lemma_prefix_grows(line, m, k);
                } else if m > k + 1 {
                    lemma_prefix_grows(line, k + 1, m);
                }
            }
        }
        assert forall|n: int|
            #![trigger unit_col(line, n, ColUnit::Utf8)]
            b < n < utf8_len(line.take(k + 1)) implies unit_col(line, n, ColUnit::Utf8) is None by {
            if exists|m: int| reaches(line, n, ColUnit::Utf8, m) {
                let m = choose|m: int| reaches(line, n, ColUnit::Utf8, m);
                if m < k {
                    lemma_prefix_grows(line, m, k);
                } else if m > k + 1 {
                    lemma_prefix_grows(line, k + 1, m);
                }
            }
        }
    }
}

/// Whether `col` is the column `c`, counted from zero, of a line of the file
/// `path` that is known to hold nothing but ASCII before it; none where the
/// file is not known, or cannot be read.
pub open spec fn keeps_ascii_column(
    col: Option<u32>,
    sources: Map<Seq<char>, Option<Seq<Seq<char>>>>,
    path: Seq<char>,
    line: int,
    c: int,
) -> bool {
    &&& !sources.contains_key(path) ==> col is None
    &&& sources.contains_key(path) && sources[path] is None ==> col is None
    &&& sources.contains_key(path) && sources[path] is Some ==> {
        let v = sources[path]->0;
        0 < line <= v.len() && 0 <= c <= v[line - 1].len() && c <= i32::MAX && (forall|q: int|
            0 <= q < c ==> (#[trigger] v[line - 1][q] as u32) < 128) ==> col == Some(c as u32)
    }
}

/// What a cache knows of a file gives the column of an ASCII line, whatever
/// the producer counts.
pub proof fn law_file_column_is_kept(
    sources: Map<Seq<char>, Option<Seq<Seq<char>>>>,
    path: Seq<char>,
    line: u32,
    c: int,
    unit: ColUnit,
)
    ensures
        keeps_ascii_column(
            if sources.contains_key(path) {
                file_col(sources[path], line, c, unit)
            } else {
                None
            },
            sources,
            path,
            line as int,
            c,
        ),
{
    if sources.contains_key(path) && sources[path] is Some {
        let v = sources[path]->0;
        if 0 < line <= v.len() && 0 <= c <= v[line - 1].len() && c <= i32::MAX && (forall|q: int|
            0 <= q < c ==> (#[trigger] v[line - 1][q] as u32) < 128) {
            law_ascii_column_is_kept(v[line - 1], c, unit);
        }
    }
}

} // verus!
