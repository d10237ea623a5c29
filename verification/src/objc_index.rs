//! Gathers the occurrences and symbols of Objective-C sources into an index,
//! and recovers the sends that an erroneous source hides.
use vstd::prelude::*;
use vstd::string::*;
use crate::columns::utf8_len;
use crate::objc_sends::{candidate_views, CandidateView, SendCandidate};
use crate::objc_symbol::{method_symbol, method_text};
use crate::order::{
    ascending, comes_before, law_ascending_order_is_unique, lemma_before_irreflexive,
    lemma_before_total, lemma_before_transitive, text_before,
};
use crate::scip_index::{
    DocumentView, IndexView, OccurrenceView, ScipDocument, ScipIndex, ScipOccurrence, ScipSymbol,
    SymbolView,
};
use crate::text::{copy_text, same_text};

verus! {

/// What was gathered of a source.
#[derive(Debug)]
pub struct DocEntry {
    pub path: String,
    pub occs: Vec<ScipOccurrence>,
    pub syms: Vec<ScipSymbol>,
}

/// What a `DocEntry` holds.
pub struct DocEntryView {
    pub path: Seq<char>,
    pub occs: Seq<OccurrenceView>,
    pub syms: Seq<SymbolView>,
}

impl View for DocEntry {
    type V = DocEntryView;

    open spec fn view(&self) -> DocEntryView {
        DocEntryView {
            path: self.path@,
            occs: self.occs@.map_values(|o: ScipOccurrence| o@),
            syms: self.syms@.map_values(|s: ScipSymbol| s@),
        }
    }
}

pub open spec fn entry_views(v: Seq<DocEntry>) -> Seq<DocEntryView> {
    v.map_values(|e: DocEntry| e@)
}

/// The paths of entries.
pub open spec fn entry_paths(docs: Seq<DocEntryView>) -> Seq<Seq<char>> {
    docs.map_values(|d: DocEntryView| d.path)
}

/// Where the entry for `path` belongs, at or behind `i`.
pub open spec fn place_from(docs: Seq<DocEntryView>, path: Seq<char>, i: int) -> int
    decreases docs.len() - i,
{
    if i < 0 || i >= docs.len() || !text_before(docs[i].path, path) {
        i
    } else {
        place_from(docs, path, i + 1)
    }
}

/// Where the entry for `path` belongs.
pub open spec fn place_of(docs: Seq<DocEntryView>, path: Seq<char>) -> int {
    place_from(docs, path, 0)
}

/// Whether there is an entry for `path`.
pub open spec fn has_entry(docs: Seq<DocEntryView>, path: Seq<char>) -> bool {
    let p = place_of(docs, path);
    0 <= p < docs.len() && docs[p].path == path
}

/// The entries, with one for `path`.
pub open spec fn with_entry(docs: Seq<DocEntryView>, path: Seq<char>) -> Seq<DocEntryView> {
    if has_entry(docs, path) {
        docs
    } else {
        docs.insert(
            place_of(docs, path),
            DocEntryView { path, occs: Seq::empty(), syms: Seq::empty() },
        )
    }
}

/// The entries after an occurrence in the source `path`.
pub open spec fn with_occurrence(
    docs: Seq<DocEntryView>,
    path: Seq<char>,
    occ: OccurrenceView,
) -> Seq<DocEntryView> {
    let all = with_entry(docs, path);
    let p = place_of(docs, path);
    all.update(p, DocEntryView { occs: all[p].occs.push(occ), ..all[p] })
}

/// The entries after a symbol of the source `path`.
pub open spec fn with_symbol(docs: Seq<DocEntryView>, path: Seq<char>, sym: SymbolView) -> Seq<
    DocEntryView,
> {
    let all = with_entry(docs, path);
    let p = place_of(docs, path);
    all.update(p, DocEntryView { syms: all[p].syms.push(sym), ..all[p] })
}

proof fn lemma_place_from(docs: Seq<DocEntryView>, path: Seq<char>, i: int)
    requires
        0 <= i <= docs.len(),
    ensures
        i <= place_from(docs, path, i) <= docs.len(),
        forall|k: int|
            i <= k < place_from(docs, path, i) ==> text_before(#[trigger] docs[k].path, path),
        place_from(docs, path, i) < docs.len() ==> !text_before(
            docs[place_from(docs, path, i)].path,
            path,
        ),
    decreases docs.len() - i,
{
    if i < docs.len() && text_before(docs[i].path, path) {
        lemma_place_from(docs, path, i + 1);
    }
}

/// The entries stay in ascending order of their paths.
proof fn lemma_with_entry_ascending(docs: Seq<DocEntryView>, path: Seq<char>)
    requires
        ascending(entry_paths(docs)),
    ensures
        ascending(entry_paths(with_entry(docs, path))),
        0 <= place_of(docs, path) < with_entry(docs, path).len(),
        with_entry(docs, path)[place_of(docs, path)].path == path,
{
    lemma_place_from(docs, path, 0);
    let p = place_of(docs, path);
    if !has_entry(docs, path) {
        let old_paths = entry_paths(docs);
        let all = with_entry(docs, path);
        let paths = entry_paths(all);
        assert forall|i: int, j: int| 0 <= i < j < paths.len() implies text_before(
            #[trigger] paths[i],
            #[trigger] paths[j],
        ) by {
            if i == p {
                lemma_before_total(docs[p].path, path);
                if j - 1 > p {
                    assert(text_before(old_paths[p], old_paths[j - 1]));
                    lemma_before_transitive(path, docs[p].path, docs[j - 1].path);
                }
            } else if j != p {
                let a = if i < p {
                    i
                } else {
                    i - 1
                };
                let b = if j < p {
                    j
                } else {
                    j - 1
                };
                assert(text_before(old_paths[a], old_paths[b]));
            }
        }
    }
}

/// Gathers occurrences and symbols by source.
pub struct IndexBuilder {
    corpus: String,
    docs: Vec<DocEntry>,
}

/// What an `IndexBuilder` holds: its corpus, and its entries in ascending
/// order of their paths.
pub struct BuilderView {
    pub corpus: Seq<char>,
    pub docs: Seq<DocEntryView>,
}

impl View for IndexBuilder {
    type V = BuilderView;

    closed spec fn view(&self) -> BuilderView {
        BuilderView { corpus: self.corpus@, docs: entry_views(self.docs@) }
    }
}

/// The index of entries.
pub open spec fn entries_index(docs: Seq<DocEntryView>) -> IndexView {
    IndexView {
        project_root: Seq::empty(),
        documents: docs.map_values(
            |d: DocEntryView|
                DocumentView {
                    relative_path: d.path,
                    language: "objective-c"@,
                    text: Seq::empty(),
                    occurrences: d.occs,
                    symbols: d.syms,
                },
        ),
    }
}

impl IndexBuilder {
    /// The entries are in strictly ascending order of their paths.
    pub open spec fn wf(&self) -> bool {
        ascending(entry_paths(self@.docs))
    }

    /// A builder that has gathered nothing.
    pub fn new(corpus: &str) -> (r: IndexBuilder)
        ensures
            r@ == (BuilderView { corpus: corpus@, docs: Seq::empty() }),
            r.wf(),
    {
        let r = IndexBuilder { corpus: copy_text(corpus), docs: Vec::new() };
        assert(r@.docs =~= Seq::<DocEntryView>::empty());
        r
    }

    fn entry(&mut self, path: &str) -> (r: usize)
        requires
            old(self).wf(),
        ensures
            final(self)@ == (BuilderView {
                docs: with_entry(old(self)@.docs, path@),
                ..old(self)@
            }),
            final(self).wf(),
            r == place_of(old(self)@.docs, path@),
            r < final(self)@.docs.len(),
    {
        let n: usize = self.docs.len();
        let mut i: usize = 0;
        while i < n && comes_before(self.docs[i].path.as_str(), path)
            invariant
                i <= n,
                n == self.docs@.len(),
                self@ == old(self)@,
                place_of(self@.docs, path@) == place_from(self@.docs, path@, i as int),
            decreases n - i,
        {
            i += 1;
        }
        proof {
            lemma_with_entry_ascending(self@.docs, path@);
        }
        if i < n && same_text(self.docs[i].path.as_str(), path) {
            return i;
        }
        let e = DocEntry { path: copy_text(path), occs: Vec::new(), syms: Vec::new() };
        assert(e@.occs =~= Seq::<OccurrenceView>::empty());
        assert(e@.syms =~= Seq::<SymbolView>::empty());
        self.docs.insert(i, e);
        assert(self@.docs =~= old(self)@.docs.insert(i as int, e@));
        i
    }

    /// Takes note of an occurrence in the source `rel_path`.
    pub fn add_occurrence(&mut self, rel_path: &str, occ: ScipOccurrence)
        requires
            old(self).wf(),
        ensures
            final(self)@ == (BuilderView {
                docs: with_occurrence(old(self)@.docs, rel_path@, occ@),
                ..old(self)@
            }),
            final(self).wf(),
    {
        let i: usize = self.entry(rel_path);
        let ghost all = self@.docs;
        let mut e = self.docs.remove(i);
        let ghost had = e@;
        e.occs.push(occ);
        assert(e@.occs =~= had.occs.push(occ@));
        self.docs.insert(i, e);
        assert(self@.docs =~= all.update(i as int, e@));
        assert(entry_paths(self@.docs) =~= entry_paths(all));
    }

    /// Takes note of a symbol of the source `rel_path`.
    pub fn add_symbol_info(&mut self, rel_path: &str, si: ScipSymbol)
        requires
            old(self).wf(),
        ensures
            final(self)@ == (BuilderView {
                docs: with_symbol(old(self)@.docs, rel_path@, si@),
                ..old(self)@
            }),
            final(self).wf(),
    {
        let i: usize = self.entry(rel_path);
        let ghost all = self@.docs;
        let mut e = self.docs.remove(i);
        let ghost had = e@;
        e.syms.push(si);
        assert(e@.syms =~= had.syms.push(si@));
        self.docs.insert(i, e);
        assert(self@.docs =~= all.update(i as int, e@));
        assert(entry_paths(self@.docs) =~= entry_paths(all));
    }

    /// The index: a document for every source, in ascending order of their
    /// paths, whatever the order in which they came up.
    pub fn finish(self) -> (r: ScipIndex)
        requires
            self.wf(),
        ensures
            r@ == entries_index(self@.docs),
            ascending(r@.documents.map_values(|d: DocumentView| d.relative_path)),
    {
        let ghost all = self@.docs;
        let mut documents: Vec<ScipDocument> = Vec::new();
        for e in it: self.docs
            invariant
                all == entry_views(it.seq()),
                documents@.len() == it.index(),
                forall|k: int|
                    0 <= k < documents@.len() ==> (#[trigger] documents@[k])@ == entries_index(
                        all,
                    ).documents[k],
        {
            let d = ScipDocument {
                relative_path: e.path,
                language: copy_text("objective-c"),
                text: String::new(),
                occurrences: e.occs,
                symbols: e.syms,
            };
            documents.push(d);
        }
        let r = ScipIndex { project_root: String::new(), documents };
        assert(r@.documents =~= entries_index(all).documents);
        assert(r@.documents.map_values(|d: DocumentView| d.relative_path) =~= entry_paths(all));
        r
    }
}

/// Whether an entry has the symbol `s`.
pub open spec fn defines(docs: Seq<DocEntryView>, s: Seq<char>) -> bool {
    exists|i: int, j: int|
        0 <= i < docs.len() && 0 <= j < docs[i].syms.len() && (#[trigger] docs[i].syms[j]).symbol
            == s
}

/// Whether the entry for `path` has an occurrence of `symbol` on `line`.
pub open spec fn is_noted(
    docs: Seq<DocEntryView>,
    path: Seq<char>,
    symbol: Seq<char>,
    line: i32,
) -> bool {
    exists|i: int, j: int|
        0 <= i < docs.len() && docs[i].path == path && 0 <= j < docs[i].occs.len() && on_line(
            #[trigger] docs[i].occs[j],
            symbol,
            line,
        )
}

/// Whether an occurrence is one of `symbol` on `line`.
pub open spec fn on_line(o: OccurrenceView, symbol: Seq<char>, line: i32) -> bool {
    o.symbol == symbol && o.range.len() > 0 && o.range[0] == line
}

/// The reference that a recovered send is.
pub open spec fn recovered_occurrence(c: CandidateView, target: Seq<char>) -> OccurrenceView {
    OccurrenceView {
        symbol: target,
        symbol_roles: 0,
        range: seq![
            (c.line - 1) as i32,
            (c.col - 1) as i32,
            (c.col - 1 + utf8_len(c.selector)) as i32,
        ],
        enclosing_range: Seq::empty(),
        unknown: Seq::empty(),
    }
}

/// The entries after a recovered send: it counts only where the index defines
/// the method, and does not have the call on that line already.
pub open spec fn with_candidate(docs: Seq<DocEntryView>, corpus: Seq<char>, c: CandidateView) -> Seq<
    DocEntryView,
> {
    let target = method_text(corpus, c.receiver, c.selector);
    if counts(docs, corpus, c) {
        with_occurrence(docs, c.rel_path, recovered_occurrence(c, target))
    } else {
        docs
    }
}

/// Whether a recovered send counts.
pub open spec fn counts(docs: Seq<DocEntryView>, corpus: Seq<char>, c: CandidateView) -> bool {
    let target = method_text(corpus, c.receiver, c.selector);
    defines(docs, target) && !is_noted(docs, c.rel_path, target, (c.line - 1) as i32)
}

/// How many of the first `n` recovered sends count.
pub open spec fn counted(
    docs: Seq<DocEntryView>,
    corpus: Seq<char>,
    cs: Seq<CandidateView>,
    n: nat,
) -> nat
    decreases n,
{
    if n == 0 {
        0
    } else {
        counted(docs, corpus, cs, (n - 1) as nat) + if counts(
            with_candidates(docs, corpus, cs, (n - 1) as nat),
            corpus,
            cs[n - 1],
        ) {
            1nat
        } else {
            0nat
        }
    }
}

/// The entries after the first `n` recovered sends.
pub open spec fn with_candidates(
    docs: Seq<DocEntryView>,
    corpus: Seq<char>,
    cs: Seq<CandidateView>,
    n: nat,
) -> Seq<DocEntryView>
    decreases n,
{
    if n == 0 {
        docs
    } else {
        with_candidate(with_candidates(docs, corpus, cs, (n - 1) as nat), corpus, cs[n - 1])
    }
}

impl IndexBuilder {
    fn defines_symbol(&self, s: &str) -> (r: bool)
        ensures
            r == defines(self@.docs, s@),
    {
        let n: usize = self.docs.len();
        let mut i: usize = 0;
        while i < n
            invariant
                i <= n,
                n == self.docs@.len(),
                forall|a: int, b: int|
                    0 <= a < i && 0 <= b < self@.docs[a].syms.len()
                        ==> (#[trigger] self@.docs[a].syms[b]).symbol != s@,
            decreases n - i,
        {
            let e = &self.docs[i];
            let m: usize = e.syms.len();
            let mut j: usize = 0;
            while j < m
                invariant
                    j <= m,
                    m == e.syms@.len(),
                    i < self.docs@.len(),
                    self@.docs[i as int] == e@,
                    forall|b: int| 0 <= b < j ==> (#[trigger] e@.syms[b]).symbol != s@,
                decreases m - j,
            {
                assert(e@.syms[j as int] == e.syms@[j as int]@);
                if same_text(e.syms[j].symbol.as_str(), s) {
                    return true;
                }
                j += 1;
            }
            i += 1;
        }
        false
    }

    fn notes(&self, path: &str, symbol: &str, line: i32) -> (r: bool)
        ensures
            r == is_noted(self@.docs, path@, symbol@, line),
    {
        let n: usize = self.docs.len();
        let mut i: usize = 0;
        while i < n
            invariant
                i <= n,
                n == self.docs@.len(),
                forall|a: int, b: int|
                    0 <= a < i && self@.docs[a].path == path@ && 0 <= b < self@.docs[a].occs.len()
                        ==> !on_line(#[trigger] self@.docs[a].occs[b], symbol@, line),
            decreases n - i,
        {
            let e = &self.docs[i];
            if same_text(e.path.as_str(), path) {
                let m: usize = e.occs.len();
                let mut j: usize = 0;
                while j < m
                    invariant
                        j <= m,
                        m == e.occs@.len(),
                        i < self.docs@.len(),
                        e@.path == path@,
                        self@.docs[i as int] == e@,
                        forall|b: int| 0 <= b < j ==> !on_line(#[trigger] e@.occs[b], symbol@, line),
                    decreases m - j,
                {
                    let o = &e.occs[j];
                    assert(e@.occs[j as int] == o@);
                    if o.range.len() > 0 && o.range[0] == line && same_text(
                        o.symbol.as_str(),
                        symbol,
                    ) {
                        return true;
                    }
                    j += 1;
                }
            }
            i += 1;
        }
        false
    }

    /// Turns recovered sends into references: those of methods that the index
    /// defines, and that it does not refer to on the same line already.
    /// Returns how many were added.
    pub fn apply_error_tu_recovery(&mut self, candidates: &Vec<SendCandidate>) -> (r: usize)
        requires
            old(self).wf(),
        ensures
            final(self)@ == (BuilderView {
                docs: with_candidates(
                    old(self)@.docs,
                    old(self)@.corpus,
                    candidate_views(candidates@),
                    candidates@.len(),
                ),
                ..old(self)@
            }),
            final(self).wf(),
            r == counted(
                old(self)@.docs,
                old(self)@.corpus,
                candidate_views(candidates@),
                candidates@.len(),
            ),
    {
        let ghost cs = candidate_views(candidates@);
        let n: usize = candidates.len();
        let mut added: usize = 0;
        let mut i: usize = 0;
        while i < n
            invariant
                i <= n,
                n == candidates@.len(),
                cs == candidate_views(candidates@),
                added <= i,
                added == counted(old(self)@.docs, old(self)@.corpus, cs, i as nat),
                self.wf(),
                self@ == (BuilderView {
                    docs: with_candidates(old(self)@.docs, old(self)@.corpus, cs, i as nat),
                    ..old(self)@
                }),
            decreases n - i,
        {
            let c = &candidates[i];
            let target = method_symbol(
                self.corpus.as_str(),
                c.receiver.as_str(),
                c.selector.as_str(),
            );
            #[verifier::truncate]
            let line: i32 = (c.line as i128 - 1) as i32;
            if self.defines_symbol(target.as_str()) && !self.notes(
                c.rel_path.as_str(),
                target.as_str(),
                line,
            ) {
                let len: usize = c.selector.as_str().as_bytes().len();
                #[verifier::truncate]
                let start: i32 = (c.col as i128 - 1) as i32;
                #[verifier::truncate]
                let end: i32 = (c.col as i128 - 1 + len as i128) as i32;
                let mut range: Vec<i32> = Vec::new();
                range.push(line);
                range.push(start);
                range.push(end);
                let occ = ScipOccurrence {
                    symbol: target,
                    symbol_roles: 0,
                    range,
                    enclosing_range: Vec::new(),
                    unknown: Vec::new(),
                };
                proof {
                    let want = recovered_occurrence(c@, target@);
                    assert(occ@.range =~= want.range);
                    assert(occ@.unknown =~= want.unknown);
                }
                self.add_occurrence(c.rel_path.as_str(), occ);
                added += 1;
            }
            i += 1;
        }
        added
    }
}

/// What a builder takes note of.
pub enum Addition {
    Occurrence(Seq<char>, OccurrenceView),
    Symbol(Seq<char>, SymbolView),
}

impl Addition {
    /// The source that it belongs to.
    pub open spec fn path(self) -> Seq<char> {
        match self {
            Addition::Occurrence(path, _) => path,
            Addition::Symbol(path, _) => path,
        }
    }
}

/// The entries after one addition.
pub open spec fn with_addition(docs: Seq<DocEntryView>, a: Addition) -> Seq<DocEntryView> {
    match a {
        Addition::Occurrence(path, occ) => with_occurrence(docs, path, occ),
        Addition::Symbol(path, sym) => with_symbol(docs, path, sym),
    }
}

/// The entries of a new builder after these additions.
pub open spec fn built(adds: Seq<Addition>) -> Seq<DocEntryView>
    decreases adds.len(),
{
    if adds.len() == 0 {
        Seq::empty()
    } else {
        with_addition(built(adds.drop_last()), adds.last())
    }
}

/// Whether one of the additions belongs to the source `path`.
pub open spec fn is_added(adds: Seq<Addition>, path: Seq<char>) -> bool {
    exists|i: int| 0 <= i < adds.len() && (#[trigger] adds[i]).path() == path
}

/// The occurrences in the source `path` among the additions, in order.
pub open spec fn added_occs(adds: Seq<Addition>, path: Seq<char>) -> Seq<OccurrenceView>
    decreases adds.len(),
{
    if adds.len() == 0 {
        Seq::empty()
    } else {
        let before = added_occs(adds.drop_last(), path);
        match adds.last() {
            Addition::Occurrence(p, occ) if p == path => before.push(occ),
            _ => before,
        }
    }
}

/// The symbols of the source `path` among the additions, in order.
pub open spec fn added_syms(adds: Seq<Addition>, path: Seq<char>) -> Seq<SymbolView>
    decreases adds.len(),
{
    if adds.len() == 0 {
        Seq::empty()
    } else {
        let before = added_syms(adds.drop_last(), path);
        match adds.last() {
            Addition::Symbol(p, sym) if p == path => before.push(sym),
            _ => before,
        }
    }
}

/// Whether an entry holds exactly what was added for its source.
pub open spec fn holds_added(e: DocEntryView, adds: Seq<Addition>) -> bool {
    e == (DocEntryView {
        path: e.path,
        occs: added_occs(adds, e.path),
        syms: added_syms(adds, e.path),
    })
}

/// Where a source has no entry at its place, it has none at all.
proof fn lemma_no_other_entry(docs: Seq<DocEntryView>, path: Seq<char>, i: int)
    requires
        ascending(entry_paths(docs)),
        0 <= i < docs.len(),
        docs[i].path == path,
    ensures
        place_of(docs, path) == i,
{
    lemma_place_from(docs, path, 0);
    let p = place_of(docs, path);
    let paths = entry_paths(docs);
    if i < p {
        assert(text_before(docs[i].path, path));
        lemma_before_irreflexive(path);
    } else if p < i {
        assert(text_before(paths[p], paths[i]));
    }
}

proof fn lemma_nothing_added(adds: Seq<Addition>, path: Seq<char>)
    requires
        !is_added(adds, path),
    ensures
        added_occs(adds, path) == Seq::<OccurrenceView>::empty(),
        added_syms(adds, path) == Seq::<SymbolView>::empty(),
    decreases adds.len(),
{
    if adds.len() > 0 {
        let rest = adds.drop_last();
        assert forall|i: int| 0 <= i < rest.len() implies (#[trigger] rest[i]).path() != path by {
            assert(adds[i] == rest[i]);
        }
        lemma_nothing_added(rest, path);
        assert(adds[adds.len() - 1].path() != path);
    }
}

proof fn lemma_built(adds: Seq<Addition>)
    ensures
        ascending(entry_paths(built(adds))),
        forall|path: Seq<char>| entry_paths(built(adds)).contains(path) <==> is_added(adds, path),
        forall|k: int| 0 <= k < built(adds).len() ==> holds_added(#[trigger] built(adds)[k], adds),
    decreases adds.len(),
{
    if adds.len() > 0 {
        let rest = adds.drop_last();
        let a = adds.last();
        let path = a.path();
        let docs = built(rest);
        let all = with_entry(docs, path);
        let now = built(adds);
        let p = place_of(docs, path);
        lemma_built(rest);
        lemma_with_entry_ascending(docs, path);
        lemma_place_from(docs, path, 0);
        assert(entry_paths(now) =~= entry_paths(all));
        assert(adds[adds.len() - 1].path() == path);
        assert forall|x: Seq<char>| is_added(adds, x) <==> (is_added(rest, x) || x == path) by {
            if is_added(rest, x) {
                let i = choose|i: int| 0 <= i < rest.len() && (#[trigger] rest[i]).path() == x;
                assert(adds[i].path() == x);
            }
            if is_added(adds, x) && x != path {
                let i = choose|i: int| 0 <= i < adds.len() && (#[trigger] adds[i]).path() == x;
                assert(rest[i].path() == x);
            }
        }
        assert forall|x: Seq<char>| entry_paths(all).contains(x) <==> (entry_paths(docs).contains(x)
            || x == path) by {
            let was = entry_paths(docs);
            let is = entry_paths(all);
            assert(is[p] == path);
            if was.contains(x) {
                let k = choose|k: int| 0 <= k < was.len() && was[k] == x;
                assert(is[if has_entry(docs, path) || k < p {
                    k
                } else {
                    k + 1
                }] == x);
            }
            if is.contains(x) && x != path {
                let k = choose|k: int| 0 <= k < is.len() && is[k] == x;
                assert(was[if has_entry(docs, path) || k < p {
                    k
                } else {
                    k - 1
                }] == x);
            }
        }
        assert forall|k: int| 0 <= k < now.len() implies holds_added(#[trigger] now[k], adds) by {
            if k == p {
                if !has_entry(docs, path) {
                    if is_added(rest, path) {
                        let i = choose|i: int|
                            0 <= i < entry_paths(docs).len() && entry_paths(docs)[i] == path;
                        lemma_no_other_entry(docs, path, i);
                    }
                    lemma_nothing_added(rest, path);
                }
            } else {
                let j = if has_entry(docs, path) || k < p {
                    k
                } else {
                    k - 1
                };
                assert(now[k] == docs[j]);
                if docs[j].path == path {
                    lemma_no_other_entry(docs, path, j);
                }
            }
        }
    }
}

/// A finished index has one document for each source that something was added
/// for, with what was added, in the order in which it was.
pub proof fn law_index_holds_what_was_added(adds: Seq<Addition>)
    ensures
        ({
            let documents = entries_index(built(adds)).documents;
            let paths = documents.map_values(|d: DocumentView| d.relative_path);
            &&& ascending(paths)
            &&& forall|path: Seq<char>| paths.contains(path) <==> is_added(adds, path)
            &&& forall|k: int|
                0 <= k < documents.len() ==> {
                    let d = #[trigger] documents[k];
                    &&& d.language == "objective-c"@
                    &&& d.occurrences == added_occs(adds, d.relative_path)
                    &&& d.symbols == added_syms(adds, d.relative_path)
                }
        }),
{
    lemma_built(adds);
    let documents = entries_index(built(adds)).documents;
    assert(documents.map_values(|d: DocumentView| d.relative_path) =~= entry_paths(built(adds)));
    assert forall|k: int| 0 <= k < documents.len() implies {
        let d = #[trigger] documents[k];
        &&& d.language == "objective-c"@
        &&& d.occurrences == added_occs(adds, d.relative_path)
        &&& d.symbols == added_syms(adds, d.relative_path)
    } by {
        assert(holds_added(built(adds)[k], adds));
    }
}

/// Two builders that took note of the same sources, in whatever order, list
/// the same documents in the same order.
pub proof fn law_documents_keep_their_order(a: Seq<Addition>, b: Seq<Addition>)
    requires
        forall|path: Seq<char>| is_added(a, path) <==> is_added(b, path),
    ensures
        entries_index(built(a)).documents.map_values(|d: DocumentView| d.relative_path)
            == entries_index(built(b)).documents.map_values(|d: DocumentView| d.relative_path),
{
    law_index_holds_what_was_added(a);
    law_index_holds_what_was_added(b);
    law_ascending_order_is_unique(
        entries_index(built(a)).documents.map_values(|d: DocumentView| d.relative_path),
        entries_index(built(b)).documents.map_values(|d: DocumentView| d.relative_path),
    );
}

/// A send that was recovered refers to a method that the index defines; one
/// that it does not define changes nothing.
pub proof fn law_recovery_needs_a_definition(
    docs: Seq<DocEntryView>,
    corpus: Seq<char>,
    c: CandidateView,
)
    requires
        !defines(docs, method_text(corpus, c.receiver, c.selector)),
    ensures
        with_candidate(docs, corpus, c) == docs,
{
}

/// A call that the index has on a line is not counted there again.
pub proof fn law_recovery_never_counts_twice(
    docs: Seq<DocEntryView>,
    corpus: Seq<char>,
    c: CandidateView,
)
    requires
        ascending(entry_paths(docs)),
    ensures
        with_candidate(with_candidate(docs, corpus, c), corpus, c) == with_candidate(
            docs,
            corpus,
            c,
        ),
{
    let target = method_text(corpus, c.receiver, c.selector);
    let now = with_candidate(docs, corpus, c);
    if counts(docs, corpus, c) {
        let p = place_of(docs, c.rel_path);
        lemma_with_entry_ascending(docs, c.rel_path);
        let o = recovered_occurrence(c, target);
        assert(now[p].occs.last() == o);
    }
}

/// Whether the source `path` has the occurrence `o`.
pub open spec fn has_occurrence(docs: Seq<DocEntryView>, path: Seq<char>, o: OccurrenceView) -> bool {
    exists|i: int|
        #![trigger docs[i]]
        0 <= i < docs.len() && docs[i].path == path && docs[i].occs.contains(o)
}

/// Whether the source `path` has the symbol `s`.
pub open spec fn has_symbol(docs: Seq<DocEntryView>, path: Seq<char>, s: SymbolView) -> bool {
    exists|i: int|
        #![trigger docs[i]]
        0 <= i < docs.len() && docs[i].path == path && docs[i].syms.contains(s)
}

/// An occurrence that is added joins those of its source, and nothing else
/// changes.
pub proof fn lemma_occurrence_joins(docs: Seq<DocEntryView>, path: Seq<char>, occ: OccurrenceView)
    ensures
        ({
            let now = with_occurrence(docs, path, occ);
            &&& forall|p: Seq<char>, o: OccurrenceView| #[trigger]
                has_occurrence(now, p, o) <==> has_occurrence(docs, p, o) || (p == path && o == occ)
            &&& forall|p: Seq<char>, s: SymbolView| #[trigger]
                has_symbol(now, p, s) <==> has_symbol(docs, p, s)
        }),
{
    let all = with_entry(docs, path);
    let at = place_of(docs, path);
    let now = with_occurrence(docs, path, occ);
    let known = has_entry(docs, path);
    lemma_place_from(docs, path, 0);
    assert(now[at].occs.last() == occ);
    assert forall|k: int| 0 <= k < docs.len() implies {
        let j = if known || k < at {
            k
        } else {
            k + 1
        };
        &&& 0 <= j < now.len()
        &&& now[j].path == docs[k].path && now[j].syms == docs[k].syms
        &&& (known && k == at) || now[j].occs == #[trigger] docs[k].occs
    } by {}
    assert forall|p: Seq<char>, o: OccurrenceView| #[trigger]
        has_occurrence(now, p, o) <==> has_occurrence(docs, p, o) || (p == path && o == occ) by {
        if has_occurrence(docs, p, o) {
            let k = choose|k: int|
                #![trigger docs[k]]
                0 <= k < docs.len() && docs[k].path == p && docs[k].occs.contains(o);
            let j = if known || k < at {
                k
            } else {
                k + 1
            };
            if known && k == at {
                let q = choose|q: int| 0 <= q < docs[k].occs.len() && docs[k].occs[q] == o;
                assert(now[at].occs[q] == o);
            }
            assert(now[j].occs.contains(o));
        }
        if p == path && o == occ {
            assert(now[at].occs[now[at].occs.len() - 1] == o);
            assert(now[at].occs.contains(o));
        }
        if has_occurrence(now, p, o) && !(p == path && o == occ) {
            let j = choose|j: int|
                #![trigger now[j]]
                0 <= j < now.len() && now[j].path == p && now[j].occs.contains(o);
            let q = choose|q: int| 0 <= q < now[j].occs.len() && now[j].occs[q] == o;
            if j == at {
                assert(all[at].occs[q] == o);
                assert(known);
                assert(docs[at].occs.contains(o));
            } else {
                let k = if known || j < at {
                    j
                } else {
                    j - 1
                };
                assert(now[j] == docs[k]);
            }
        }
    }
    assert forall|p: Seq<char>, s: SymbolView| #[trigger]
        has_symbol(now, p, s) <==> has_symbol(docs, p, s) by {
        if has_symbol(docs, p, s) {
            let k = choose|k: int|
                #![trigger docs[k]]
                0 <= k < docs.len() && docs[k].path == p && docs[k].syms.contains(s);
            let j = if known || k < at {
                k
            } else {
                k + 1
            };
            assert(now[j].syms == docs[k].syms);
        }
        if has_symbol(now, p, s) {
            let j = choose|j: int|
                #![trigger now[j]]
                0 <= j < now.len() && now[j].path == p && now[j].syms.contains(s);
            if j == at {
                assert(known);
                assert(docs[at].syms.contains(s));
            } else {
                let k = if known || j < at {
                    j
                } else {
                    j - 1
                };
                assert(now[j] == docs[k]);
            }
        }
    }
}

/// A symbol that is added joins those of its source, and nothing else
/// changes.
pub proof fn lemma_symbol_joins(docs: Seq<DocEntryView>, path: Seq<char>, sym: SymbolView)
    ensures
        ({
            let now = with_symbol(docs, path, sym);
            &&& forall|p: Seq<char>, o: OccurrenceView| #[trigger]
                has_occurrence(now, p, o) <==> has_occurrence(docs, p, o)
            &&& forall|p: Seq<char>, s: SymbolView| #[trigger]
                has_symbol(now, p, s) <==> has_symbol(docs, p, s) || (p == path && s == sym)
        }),
{
    let all = with_entry(docs, path);
    let at = place_of(docs, path);
    let now = with_symbol(docs, path, sym);
    let known = has_entry(docs, path);
    lemma_place_from(docs, path, 0);
    assert(now[at].syms.last() == sym);
    assert forall|p: Seq<char>, o: SymbolView| #[trigger]
        has_symbol(now, p, o) <==> has_symbol(docs, p, o) || (p == path && o == sym) by {
        if has_symbol(docs, p, o) {
            let k = choose|k: int|
                #![trigger docs[k]]
                0 <= k < docs.len() && docs[k].path == p && docs[k].syms.contains(o);
            let j = if known || k < at {
                k
            } else {
                k + 1
            };
            if known && k == at {
                let q = choose|q: int| 0 <= q < docs[k].syms.len() && docs[k].syms[q] == o;
                assert(now[at].syms[q] == o);
            } else {
                assert(now[j] == docs[k]);
            }
            assert(now[j].syms.contains(o));
        }
        if p == path && o == sym {
            assert(now[at].syms[now[at].syms.len() - 1] == o);
            assert(now[at].syms.contains(o));
        }
        if has_symbol(now, p, o) && !(p == path && o == sym) {
            let j = choose|j: int|
                #![trigger now[j]]
                0 <= j < now.len() && now[j].path == p && now[j].syms.contains(o);
            let q = choose|q: int| 0 <= q < now[j].syms.len() && now[j].syms[q] == o;
            if j == at {
                assert(all[at].syms[q] == o);
                assert(known);
                assert(docs[at].syms.contains(o));
            } else {
                let k = if known || j < at {
                    j
                } else {
                    j - 1
                };
                assert(now[j] == docs[k]);
            }
        }
    }
    assert forall|p: Seq<char>, s: OccurrenceView| #[trigger]
        has_occurrence(now, p, s) <==> has_occurrence(docs, p, s) by {
        if has_occurrence(docs, p, s) {
            let k = choose|k: int|
                #![trigger docs[k]]
                0 <= k < docs.len() && docs[k].path == p && docs[k].occs.contains(s);
            let j = if known || k < at {
                k
            } else {
                k + 1
            };
            if !(known && k == at) {
                assert(now[j] == docs[k]);
            }
            assert(now[j].occs == docs[k].occs);
        }
        if has_occurrence(now, p, s) {
            let j = choose|j: int|
                #![trigger now[j]]
                0 <= j < now.len() && now[j].path == p && now[j].occs.contains(s);
            if j == at {
                assert(known);
                assert(docs[at].occs.contains(s));
            } else {
                let k = if known || j < at {
                    j
                } else {
                    j - 1
                };
                assert(now[j] == docs[k]);
            }
        }
    }
}

/// The sends that are recovered add occurrences alone: each is one of a
/// method that a source has the symbol of, and nothing is taken away.
pub proof fn lemma_candidates_join(
    docs: Seq<DocEntryView>,
    corpus: Seq<char>,
    cs: Seq<CandidateView>,
    n: nat,
)
    requires
        n <= cs.len(),
    ensures
        ({
            let now = with_candidates(docs, corpus, cs, n);
            &&& forall|p: Seq<char>, s: SymbolView| #[trigger]
                has_symbol(now, p, s) <==> has_symbol(docs, p, s)
            &&& forall|p: Seq<char>, o: OccurrenceView|
                has_occurrence(docs, p, o) ==> #[trigger] has_occurrence(now, p, o)
            &&& forall|p: Seq<char>, o: OccurrenceView| #[trigger]
                has_occurrence(now, p, o) ==> has_occurrence(docs, p, o) || o.symbol_roles == 0
        }),
    decreases n,
{
    if n > 0 {
        lemma_candidates_join(docs, corpus, cs, (n - 1) as nat);
        let before = with_candidates(docs, corpus, cs, (n - 1) as nat);
        let c = cs[n - 1];
        lemma_occurrence_joins(
            before,
            c.rel_path,
            recovered_occurrence(c, method_text(corpus, c.receiver, c.selector)),
        );
    }
}

proof fn lemma_noted_stays(
    docs: Seq<DocEntryView>,
    corpus: Seq<char>,
    c: CandidateView,
    path: Seq<char>,
    symbol: Seq<char>,
    line: i32,
)
    ensures
        is_noted(docs, path, symbol, line) ==> is_noted(
            with_candidate(docs, corpus, c),
            path,
            symbol,
            line,
        ),
        defines(docs, symbol) ==> defines(with_candidate(docs, corpus, c), symbol),
{
    let now = with_candidate(docs, corpus, c);
    let o = recovered_occurrence(c, method_text(corpus, c.receiver, c.selector));
    lemma_occurrence_joins(docs, c.rel_path, o);
    if is_noted(docs, path, symbol, line) {
        let (i, j) = choose|i: int, j: int|
            0 <= i < docs.len() && docs[i].path == path && 0 <= j < docs[i].occs.len() && on_line(
                #[trigger] docs[i].occs[j],
                symbol,
                line,
            );
        let x = docs[i].occs[j];
        assert(docs[i].occs.contains(x));
        assert(has_occurrence(docs, path, x));
        assert(has_occurrence(now, path, x));
        let a = choose|a: int|
            #![trigger now[a]]
            0 <= a < now.len() && now[a].path == path && now[a].occs.contains(x);
        let b = choose|b: int| 0 <= b < now[a].occs.len() && now[a].occs[b] == x;
        assert(on_line(now[a].occs[b], symbol, line));
    }
    if defines(docs, symbol) {
        let (i, j) = choose|i: int, j: int|
            0 <= i < docs.len() && 0 <= j < docs[i].syms.len() && (
            #[trigger] docs[i].syms[j]).symbol == symbol;
        let x = docs[i].syms[j];
        assert(docs[i].syms.contains(x));
        assert(has_symbol(docs, docs[i].path, x));
        assert(has_symbol(now, docs[i].path, x));
        let a = choose|a: int|
            #![trigger now[a]]
            0 <= a < now.len() && now[a].path == docs[i].path && now[a].syms.contains(x);
        let b = choose|b: int| 0 <= b < now[a].syms.len() && now[a].syms[b] == x;
        assert(now[a].syms[b].symbol == symbol);
    }
}

/// Every recovered send to a method that a source has the symbol of is noted
/// in its source, on its line.
pub proof fn law_recovered_send_is_noted(
    docs: Seq<DocEntryView>,
    corpus: Seq<char>,
    cs: Seq<CandidateView>,
    n: nat,
    k: int,
)
    requires
        0 <= k < n <= cs.len(),
        defines(docs, method_text(corpus, cs[k].receiver, cs[k].selector)),
    ensures
        is_noted(
            with_candidates(docs, corpus, cs, n),
            cs[k].rel_path,
            method_text(corpus, cs[k].receiver, cs[k].selector),
            (cs[k].line - 1) as i32,
        ),
    decreases n,
{
    let c = cs[k];
    let target = method_text(corpus, c.receiver, c.selector);
    let line = (c.line - 1) as i32;
    let before = with_candidates(docs, corpus, cs, (n - 1) as nat);
    if k < n - 1 {
        law_recovered_send_is_noted(docs, corpus, cs, (n - 1) as nat, k);
        lemma_noted_stays(before, corpus, cs[n - 1], c.rel_path, target, line);
    } else {
        lemma_defines_stays(docs, corpus, cs, (n - 1) as nat, target);
        if counts(before, corpus, c) {
            let now = with_candidate(before, corpus, c);
            let o = recovered_occurrence(c, target);
            lemma_occurrence_joins(before, c.rel_path, o);
            assert(has_occurrence(now, c.rel_path, o));
            let a = choose|a: int|
                #![trigger now[a]]
                0 <= a < now.len() && now[a].path == c.rel_path && now[a].occs.contains(o);
            let b = choose|b: int| 0 <= b < now[a].occs.len() && now[a].occs[b] == o;
            assert(on_line(now[a].occs[b], target, line));
        }
    }
}

proof fn lemma_defines_stays(
    docs: Seq<DocEntryView>,
    corpus: Seq<char>,
    cs: Seq<CandidateView>,
    n: nat,
    symbol: Seq<char>,
)
    requires
        defines(docs, symbol),
        n <= cs.len(),
    ensures
        defines(with_candidates(docs, corpus, cs, n), symbol),
    decreases n,
{
    if n > 0 {
        lemma_defines_stays(docs, corpus, cs, (n - 1) as nat, symbol);
        lemma_noted_stays(
            with_candidates(docs, corpus, cs, (n - 1) as nat),
            corpus,
            cs[n - 1],
            symbol,
            symbol,
            0,
        );
    }
}

} // verus!
