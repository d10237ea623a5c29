//! Objective-C symbols: `objc . <package> 0.0.0 <descriptor>`, where the
//! descriptor tells a class (`Name#`), a protocol (`Name/`), a method
//! (`Class#selector:().`), a property (`Class#name.`) or a function (`name.`).
use vstd::prelude::*;
use vstd::string::*;
use crate::text::{chars_of, copy_text, ends_with};

verus! {

/// The package of a symbol: the corpus, or a dot where there is none.
pub open spec fn package(corpus: Seq<char>) -> Seq<char> {
    if corpus.len() == 0 {
        "."@
    } else {
        corpus
    }
}

/// A character that means something in a descriptor.
pub open spec fn is_special(c: char) -> bool {
    c == ' ' || c == '`' || c == '#' || c == '/' || c == '.' || c == '(' || c == ')'
}

/// Whether a name needs backticks around it.
pub open spec fn needs_escape(s: Seq<char>) -> bool {
    exists|i: int| 0 <= i < s.len() && is_special(#[trigger] s[i])
}

/// `s` with two backticks for each.
pub open spec fn doubled(s: Seq<char>) -> Seq<char>
    decreases s.len(),
{
    if s.len() == 0 {
        Seq::empty()
    } else if s.last() == '`' {
        doubled(s.drop_last()).push('`').push('`')
    } else {
        doubled(s.drop_last()).push(s.last())
    }
}

/// A name in a descriptor.
pub open spec fn escaped(s: Seq<char>) -> Seq<char> {
    if needs_escape(s) {
        seq!['`'] + doubled(s) + seq!['`']
    } else {
        s
    }
}

/// What every symbol of a corpus starts with.
pub open spec fn symbol_head(corpus: Seq<char>) -> Seq<char> {
    "objc . "@ + package(corpus) + " 0.0.0 "@
}

/// The package of a symbol.
pub fn pkg(corpus: &str) -> (r: &str)
    ensures
        r@ == package(corpus@),
{
    if corpus.unicode_len() == 0 {
        "."
    } else {
        corpus
    }
}

/// A name in a descriptor: between backticks where it holds a character that
/// means something there.
pub fn escape(s: &str) -> (r: String)
    ensures
        r@ == escaped(s@),
{
    let chars = chars_of(s);
    let n: usize = chars.len();
    let mut special = false;
    let mut i: usize = 0;
    while i < n && !special
        invariant
            i <= n,
            n == chars@.len(),
            special ==> i > 0 && is_special(chars@[i - 1]),
            !special ==> forall|k: int| 0 <= k < i ==> !is_special(#[trigger] chars@[k]),
        decreases n - i,
    {
        let c = chars[i];
        special = c == ' ' || c == '`' || c == '#' || c == '/' || c == '.' || c == '(' || c == ')';
        i += 1;
    }
    if !special {
        return copy_text(s);
    }
    let mut out = String::new();
    out.push('`');
    let ghost head = out@;
    let mut j: usize = 0;
    while j < n
        invariant
            j <= n,
            n == chars@.len(),
            head == seq!['`'],
            out@ == head + doubled(chars@.take(j as int)),
        decreases n - j,
    {
        let c = chars[j];
        if c == '`' {
            out.push('`');
        }
        out.push(c);
        j += 1;
        assert(chars@.take(j as int).drop_last() =~= chars@.take(j - 1));
    }
    out.push('`');
    assert(chars@.take(n as int) =~= chars@);
    out
}

fn head(corpus: &str) -> (r: String)
    ensures
        r@ == symbol_head(corpus@),
{
    let mut s = String::new();
    s.append("objc . ");
    s.append(pkg(corpus));
    s.append(" 0.0.0 ");
    s
}

/// The symbol of a class.
pub open spec fn class_text(corpus: Seq<char>, class: Seq<char>) -> Seq<char> {
    symbol_head(corpus) + escaped(class) + "#"@
}

/// The symbol of a class, be it its interface or its implementation.
pub fn class_symbol(corpus: &str, class_name: &str) -> (r: String)
    ensures
        r@ == class_text(corpus@, class_name@),
{
    let mut s = head(corpus);
    s.append(escape(class_name).as_str());
    s.append("#");
    s
}

/// The symbol of a protocol.
pub open spec fn protocol_text(corpus: Seq<char>, protocol: Seq<char>) -> Seq<char> {
    symbol_head(corpus) + escaped(protocol) + "/"@
}

/// The symbol of a protocol.
pub fn protocol_symbol(corpus: &str, protocol_name: &str) -> (r: String)
    ensures
        r@ == protocol_text(corpus@, protocol_name@),
{
    let mut s = head(corpus);
    s.append(escape(protocol_name).as_str());
    s.append("/");
    s
}

/// The symbol of a method: its selector stands as it is, colons and all.
pub open spec fn method_text(corpus: Seq<char>, class: Seq<char>, selector: Seq<char>) -> Seq<char> {
    symbol_head(corpus) + escaped(class) + "#"@ + selector + "()."@
}

/// The symbol of a method. A method of a category belongs to the class that
/// the category extends.
pub fn method_symbol(corpus: &str, class_name: &str, selector: &str) -> (r: String)
    ensures
        r@ == method_text(corpus@, class_name@, selector@),
{
    let mut s = head(corpus);
    s.append(escape(class_name).as_str());
    s.append("#");
    s.append(selector);
    s.append("().");
    s
}

/// The symbol of a property.
pub open spec fn property_text(corpus: Seq<char>, class: Seq<char>, property: Seq<char>) -> Seq<
    char,
> {
    symbol_head(corpus) + escaped(class) + "#"@ + escaped(property) + "."@
}

/// The symbol of a property.
pub fn property_symbol(corpus: &str, class_name: &str, property_name: &str) -> (r: String)
    ensures
        r@ == property_text(corpus@, class_name@, property_name@),
{
    let mut s = head(corpus);
    s.append(escape(class_name).as_str());
    s.append("#");
    s.append(escape(property_name).as_str());
    s.append(".");
    s
}

/// The symbol of a function.
pub open spec fn function_text(corpus: Seq<char>, func: Seq<char>) -> Seq<char> {
    symbol_head(corpus) + escaped(func) + "."@
}

/// The symbol of a C function.
pub fn function_symbol(corpus: &str, func_name: &str) -> (r: String)
    ensures
        r@ == function_text(corpus@, func_name@),
{
    let mut s = head(corpus);
    s.append(escape(func_name).as_str());
    s.append(".");
    s
}

proof fn lemma_doubled_injective(a: Seq<char>, b: Seq<char>)
    requires
        doubled(a) == doubled(b),
    ensures
        a == b,
    decreases a.len(),
{
    lemma_doubled_last(b);
    if !(a.len() == 0 || b.len() == 0) {
        let x = doubled(a);
        if a.last() == '`' {
            assert(doubled(a.drop_last()) =~= x.drop_last().drop_last());
            assert(doubled(b.drop_last()) =~= x.drop_last().drop_last());
        } else {
            assert(doubled(a.drop_last()) =~= x.drop_last());
            assert(doubled(b.drop_last()) =~= x.drop_last());
        }
        lemma_doubled_injective(a.drop_last(), b.drop_last());
        assert(a =~= a.drop_last().push(a.last()));
    }
}

proof fn lemma_doubled_last(s: Seq<char>)
    ensures
        doubled(s).len() >= s.len(),
        s.len() > 0 ==> doubled(s).last() == s.last(),
    decreases s.len(),
{
    if s.len() > 0 {
        lemma_doubled_last(s.drop_last());
    }
}

/// Two names that differ stay apart in descriptors.
pub proof fn law_escape_keeps_names_apart(a: Seq<char>, b: Seq<char>)
    requires
        escaped(a) == escaped(b),
    ensures
        a == b,
{
    if needs_escape(a) && needs_escape(b) {
        let x = escaped(a);
        assert(doubled(a) =~= x.subrange(1, x.len() - 1));
        assert(doubled(b) =~= x.subrange(1, x.len() - 1));
        lemma_doubled_injective(a, b);
    } else if needs_escape(a) {
        assert(escaped(b)[0] == '`');
    }
}

/// The end of a symbol tells what it stands for: a class, a protocol, or a
/// method; a property never looks like a method.
pub proof fn law_suffix_tells_kind(
    corpus: Seq<char>,
    class: Seq<char>,
    other: Seq<char>,
    selector: Seq<char>,
)
    ensures
        class_text(corpus, class).last() == '#',
        protocol_text(corpus, other).last() == '/',
        ends_with(method_text(corpus, class, selector), "()."@),
        property_text(corpus, class, other).last() == '.',
        !ends_with(property_text(corpus, class, other), "()."@),
        function_text(corpus, other).last() == '.',
        !ends_with(function_text(corpus, other), "()."@),
{
    reveal_strlit("#");
    reveal_strlit("/");
    reveal_strlit(".");
    reveal_strlit("().");
    reveal_strlit(" 0.0.0 ");
    let m = method_text(corpus, class, selector);
    assert(m.skip(m.len() - 3) =~= "()."@);
    let e = escaped(other);
    assert(e.len() > 0 ==> e.last() != ')');
    let p = property_text(corpus, class, other);
    if ends_with(p, "()."@) {
        assert(p.skip(p.len() - 3)[1] == p[p.len() - 2]);
    }
    let f = function_text(corpus, other);
    if ends_with(f, "()."@) {
        assert(f.skip(f.len() - 3)[1] == f[f.len() - 2]);
    }
}

/// A symbol is spelled out of its corpus and of names without characters that
/// mean something in a descriptor.
pub proof fn law_plain_names_stand_as_they_are(
    corpus: Seq<char>,
    class: Seq<char>,
    other: Seq<char>,
    selector: Seq<char>,
)
    requires
        corpus.len() > 0,
        forall|i: int|
            0 <= i < class.len() ==> !" `#/.()"@.contains(#[trigger] class[i]),
        forall|i: int|
            0 <= i < other.len() ==> !" `#/.()"@.contains(#[trigger] other[i]),
    ensures
        ({
            let head = "objc . "@ + corpus + " 0.0.0 "@;
            &&& class_text(corpus, class) == head + class + "#"@
            &&& protocol_text(corpus, other) == head + other + "/"@
            &&& method_text(corpus, class, selector) == head + class + "#"@ + selector + "()."@
            &&& property_text(corpus, class, other) == head + class + "#"@ + other + "."@
            &&& function_text(corpus, other) == head + other + "."@
            &&& class_text(""@, class) == "objc . "@ + "."@ + " 0.0.0 "@ + class + "#"@
        }),
{
    reveal_strlit(" `#/.()");
    reveal_strlit("");
    let marks = " `#/.()"@;
    assert(marks[0] == ' ' && marks[1] == '`' && marks[2] == '#' && marks[3] == '/' && marks[4] == '.'
        && marks[5] == '(' && marks[6] == ')');
    assert(!needs_escape(class)) by {
        if needs_escape(class) {
            let i = choose|i: int| 0 <= i < class.len() && is_special(#[trigger] class[i]);
            assert(marks.contains(class[i]));
        }
    }
    assert(!needs_escape(other)) by {
        if needs_escape(other) {
            let i = choose|i: int| 0 <= i < other.len() && is_special(#[trigger] other[i]);
            assert(marks.contains(other[i]));
        }
    }
}

/// A name with a character that means something in a descriptor stands between
/// backticks, and each backtick of its own is doubled.
pub proof fn law_other_names_stand_between_backticks(name: Seq<char>, i: int)
    requires
        0 <= i < name.len(),
        " `#/.()"@.contains(name[i]),
    ensures
        ({
            let e = escaped(name);
            &&& e.len() >= name.len() + 2
            &&& e[0] == '`' && e.last() == '`'
            &&& (forall|k: int| 0 <= k < name.len() ==> (#[trigger] name[k]) != '`') ==> e == seq![
                '`',
            ] + name + seq!['`']
        }),
{
    reveal_strlit(" `#/.()");
    assert(is_special(name[i]));
    lemma_doubled_last(name);
    if forall|k: int| 0 <= k < name.len() ==> (#[trigger] name[k]) != '`' {
        lemma_doubled_plain(name);
    }
}

proof fn lemma_doubled_plain(s: Seq<char>)
    requires
        forall|k: int| 0 <= k < s.len() ==> (#[trigger] s[k]) != '`',
    ensures
        doubled(s) == s,
    decreases s.len(),
{
    if s.len() > 0 {
        assert(s.last() == s[s.len() - 1]);
        lemma_doubled_plain(s.drop_last());
        assert(s.drop_last().push(s.last()) =~= s);
    }
}

} // verus!
