//! Per-document tables of symbols, kept sorted by position, with point queries.

use vstd::prelude::*;

use crate::position::{Position, Range};

verus! {

/// A named, typed entity of a program, on a single line.
#[derive(Debug)]
pub struct Symbol {
    pub name: String,
    pub ty: String,
    pub range: Range,
}

impl Clone for Symbol {
    fn clone(&self) -> (r: Self)
        ensures
            r == *self,
    {
        Symbol { name: self.name.clone(), ty: self.ty.clone(), range: self.range }
    }
}

/// `p` lies in the range of `s`: on its start line, from its start character
/// up to, not including, its end character.
pub open spec fn contains(s: Symbol, p: Position) -> bool {
    p.line == s.range.start.line && s.range.start.character <= p.character
        < s.range.end.character
}

/// `a` ends no later than `b` starts, both on one line or on lines in order.
pub open spec fn before(a: Symbol, b: Symbol) -> bool {
    a.range.start.line < b.range.start.line || (a.range.start.line == b.range.start.line
        && a.range.end.character <= b.range.start.character)
}

/// The range of `s` stays on one line and does not end before it starts.
pub open spec fn single_line(s: Symbol) -> bool {
    s.range.start.line == s.range.end.line && s.range.start.character <= s.range.end.character
}

/// Sorted by start, no two ranges overlapping, each on one line.
pub open spec fn symbols_valid(s: Seq<Symbol>) -> bool {
    &&& forall|i: int| 0 <= i < s.len() ==> single_line(#[trigger] s[i])
    &&& forall|i: int, j: int| 0 <= i < j < s.len() ==> before(#[trigger] s[i], #[trigger] s[j])
}

/// In a valid sequence at most one symbol contains a position.
pub proof fn lemma_unique_match(s: Seq<Symbol>, p: Position, i: int, j: int)
    requires
        symbols_valid(s),
        0 <= i < s.len(),
        0 <= j < s.len(),
        contains(s[i], p),
        contains(s[j], p),
    ensures
        i == j,
{
    if i < j {
        assert(before(s[i], s[j]));
    } else if j < i {
        assert(before(s[j], s[i]));
    }
}

/// The symbol of `s` whose range contains `p`, if any.
pub open spec fn lookup(s: Seq<Symbol>, p: Position) -> Option<Symbol> {
    if exists|i: int| 0 <= i < s.len() && contains(#[trigger] s[i], p) {
        Some(s[choose|i: int| 0 <= i < s.len() && contains(#[trigger] s[i], p)])
    } else {
        None
    }
}

/// Binary search of a valid sequence for the symbol that contains `p`.
/// Whether a symbol lies wholly before `p` or wholly after it decides the
/// half: a symbol ending exactly at `p` lies before it, so at a boundary
/// shared by two symbols `p` belongs to the one that starts there.
pub fn search(s: &Vec<Symbol>, p: Position) -> (r: Option<Symbol>)
    requires
        symbols_valid(s@),
    ensures
        r == lookup(s@, p),
{
    let mut lo: usize = 0;
    let mut hi: usize = s.len();
    while lo < hi
        invariant
            symbols_valid(s@),
            lo <= hi <= s@.len(),
            forall|i: int| 0 <= i < lo ==> !contains(#[trigger] s@[i], p),
            forall|i: int| hi <= i < s@.len() ==> !contains(#[trigger] s@[i], p),
        decreases hi - lo,
    {
        let mid = lo + (hi - lo) / 2;
        let c = &s[mid];
        if c.range.start.line < p.line || (c.range.start.line == p.line && c.range.end.character
            <= p.character) {
            proof {
                assert forall|i: int| 0 <= i <= mid implies !contains(#[trigger] s@[i], p) by {
                    if i < mid {
                        assert(before(s@[i], s@[mid as int]));
                    }
                }
            }
            lo = mid + 1;
        } else if c.range.start.line > p.line || (c.range.start.line == p.line
            && c.range.start.character > p.character) {
            proof {
                assert forall|i: int| mid <= i < s@.len() implies !contains(#[trigger] s@[i], p) by {
                    if i > mid {
                        assert(before(s@[mid as int], s@[i]));
                        assert(single_line(s@[i]));
                    }
                }
            }
            hi = mid;
        } else {
            proof {
                assert(contains(s@[mid as int], p));
                let k = choose|i: int| 0 <= i < s@.len() && contains(#[trigger] s@[i], p);
                lemma_unique_match(s@, p, k, mid as int);
            }
            return Some(c.clone());
        }
    }
    None
}

} // verus!

verus! {

/// The symbols of one document.
struct DocumentSymbols {
    uri: String,
    symbols: Vec<Symbol>,
}

/// The map that a list of documents stands for, later entries winning.
spec fn map_of(es: Seq<DocumentSymbols>) -> Map<Seq<char>, Seq<Symbol>>
    decreases es.len(),
{
    if es.len() == 0 {
        Map::empty()
    } else {
        map_of(es.drop_last()).insert(es.last().uri@, es.last().symbols@)
    }
}

spec fn uris_unique(es: Seq<DocumentSymbols>) -> bool {
    forall|i: int, j: int|
        0 <= i < j < es.len() ==> (#[trigger] es[i]).uri@ != (#[trigger] es[j]).uri@
}

proof fn lemma_map_of(es: Seq<DocumentSymbols>, k: Seq<char>)
    requires
        uris_unique(es),
    ensures
        map_of(es).contains_key(k) <==> exists|i: int| 0 <= i < es.len() && (#[trigger] es[i]).uri@ == k,
        forall|i: int| 0 <= i < es.len() && (#[trigger] es[i]).uri@ == k ==> map_of(es)[k] == es[i].symbols@,
    decreases es.len(),
{
    if es.len() > 0 {
        let init = es.drop_last();
        assert(uris_unique(init)) by {
            assert forall|i: int, j: int| 0 <= i < j < init.len() implies (#[trigger] init[i]).uri@
                != (#[trigger] init[j]).uri@ by {
                assert(init[i] == es[i] && init[j] == es[j]);
            }
        }
        lemma_map_of(init, k);
        if map_of(es).contains_key(k) && es.last().uri@ != k {
            let i = choose|i: int| 0 <= i < init.len() && (#[trigger] init[i]).uri@ == k;
            assert(es[i] == init[i]);
        }
        assert forall|i: int| 0 <= i < es.len() && (#[trigger] es[i]).uri@ == k implies map_of(es)[k]
            == es[i].symbols@ by {
            if i < es.len() - 1 {
                assert(es[i] == init[i]);
                assert(es.last() == es[es.len() - 1]);
            }
        }
        if exists|i: int| 0 <= i < es.len() && (#[trigger] es[i]).uri@ == k {
            let i = choose|i: int| 0 <= i < es.len() && (#[trigger] es[i]).uri@ == k;
            if i < es.len() - 1 {
                assert(es[i] == init[i]);
            }
        }
    }
}

/// The symbols of each document of `m` form a valid sequence.
pub open spec fn table_valid(m: Map<Seq<char>, Seq<Symbol>>) -> bool {
    forall|k: Seq<char>| m.contains_key(k) ==> symbols_valid(#[trigger] m[k])
}

/// Symbols of the documents of a workspace, as the last analysis found them.
pub struct SymbolTable {
    entries: Vec<DocumentSymbols>,
}

impl View for SymbolTable {
    type V = Map<Seq<char>, Seq<Symbol>>;

    closed spec fn view(&self) -> Map<Seq<char>, Seq<Symbol>> {
        map_of(self.entries@)
    }
}

impl SymbolTable {
    /// Each document appears once, with a valid sequence of symbols.
    pub closed spec fn wf(&self) -> bool {
        &&& uris_unique(self.entries@)
        &&& forall|i: int|
            0 <= i < self.entries@.len() ==> symbols_valid(#[trigger] self.entries@[i].symbols@)
    }

    /// What a well-formed table holds is valid.
    pub proof fn lemma_wf_valid(&self)
        requires
            self.wf(),
        ensures
            table_valid(self@),
    {
        assert forall|k: Seq<char>| self@.contains_key(k) implies symbols_valid(
            #[trigger] self@[k],
        ) by {
            lemma_map_of(self.entries@, k);
            let i = choose|i: int|
                0 <= i < self.entries@.len() && (#[trigger] self.entries@[i]).uri@ == k;
        }
    }

    /// A table with no documents.
    pub fn new() -> (t: SymbolTable)
        ensures
            t.wf(),
            t@ == Map::<Seq<char>, Seq<Symbol>>::empty(),
    {
        SymbolTable { entries: Vec::new() }
    }

    /// The index of the entry of `uri`, if there is one.
    fn find(&self, uri: &String) -> (r: Option<usize>)
        requires
            self.wf(),
        ensures
            match r {
                Some(i) => i < self.entries@.len() && self.entries@[i as int].uri@ == uri@,
                None => !self@.contains_key(uri@),
            },
    {
        let mut i: usize = 0;
        while i < self.entries.len()
            invariant
                i <= self.entries@.len(),
                forall|j: int| 0 <= j < i ==> (#[trigger] self.entries@[j]).uri@ != uri@,
            decreases self.entries@.len() - i,
        {
            if self.entries[i].uri == *uri {
                return Some(i);
            }
            i = i + 1;
        }
        proof {
            lemma_map_of(self.entries@, uri@);
        }
        None
    }

    /// The symbol of document `uri` whose range contains `position`.
    pub fn query(&self, uri: &String, position: Position) -> (r: Option<Symbol>)
        requires
            self.wf(),
        ensures
            r == (if self@.contains_key(uri@) {
                lookup(self@[uri@], position)
            } else {
                None
            }),
    {
        match self.find(uri) {
            Some(i) => {
                proof {
                    lemma_map_of(self.entries@, uri@);
                }
                search(&self.entries[i].symbols, position)
            },
            None => None,
        }
    }

    /// Installs `symbols` as the whole sequence of document `uri`, in place
    /// of whatever it had.
    pub fn replace_all(&mut self, uri: String, symbols: Vec<Symbol>)
        requires
            old(self).wf(),
            symbols_valid(symbols@),
        ensures
            final(self).wf(),
            final(self)@ == old(self)@.insert(uri@, symbols@),
    {
        let ghost es = self.entries@;
        match self.find(&uri) {
            Some(i) => {
                let e = DocumentSymbols { uri, symbols };
                self.entries.set(i, e);
                proof {
                    let es2 = self.entries@;
                    assert(uris_unique(es2)) by {
                        assert forall|a: int, b: int| 0 <= a < b < es2.len() implies (
                        #[trigger] es2[a]).uri@ != (#[trigger] es2[b]).uri@ by {
                            assert(es[a].uri@ != es[b].uri@);
                        }
                    }
                    let target = old(self)@.insert(e.uri@, e.symbols@);
                    assert forall|k: Seq<char>| #[trigger] map_of(es2).contains_key(k)
                        == target.contains_key(k) && (map_of(es2).contains_key(k) ==> map_of(
                        es2,
                    )[k] == target[k]) by {
                        lemma_map_of(es, k);
                        lemma_map_of(es2, k);
                        if k != e.uri@ && map_of(es).contains_key(k) {
                            let j = choose|j: int| 0 <= j < es.len() && (#[trigger] es[j]).uri@ == k;
                            assert(es2[j] == es[j]);
                        }
                        if k != e.uri@ && map_of(es2).contains_key(k) {
                            let j = choose|j: int| 0 <= j < es2.len() && (#[trigger] es2[j]).uri@ == k;
                            assert(es2[j] == es[j]);
                        }
                        if k == e.uri@ {
                            assert(es2[i as int] == e);
                        }
                    }
                    assert(map_of(es2) =~= old(self)@.insert(e.uri@, e.symbols@));
                }
            },
            None => {
                let ghost u = uri@;
                self.entries.push(DocumentSymbols { uri, symbols });
                proof {
                    let es2 = self.entries@;
                    assert(es2.drop_last() =~= es);
                    assert(uris_unique(es2)) by {
                        assert forall|a: int, b: int| 0 <= a < b < es2.len() implies (
                        #[trigger] es2[a]).uri@ != (#[trigger] es2[b]).uri@ by {
                            if b == es2.len() - 1 {
                                lemma_map_of(es, u);
                                assert(es[a] == es2[a]);
                            } else {
                                assert(es[a] == es2[a] && es[b] == es2[b]);
                            }
                        }
                    }
                }
            },
        }
    }

    /// Replaces, document by document, the sequences of this table by those
    /// of `other`; documents that `other` lacks keep theirs.
    pub fn merge_replace(&mut self, other: SymbolTable)
        requires
            old(self).wf(),
            other.wf(),
        ensures
            final(self).wf(),
            final(self)@ == old(self)@.union_prefer_right(other@),
    {
        let ghost all = other.entries@;
        let n = other.entries.len();
        let mut rest = other.entries;
        let mut k: usize = 0;
        proof {
            assert(map_of(all.take(0)) =~= Map::<Seq<char>, Seq<Symbol>>::empty());
            assert(old(self)@.union_prefer_right(map_of(all.take(0))) =~= old(self)@);
        }
        while rest.len() > 0
            invariant
                self.wf(),
                uris_unique(all),
                forall|i: int| 0 <= i < all.len() ==> symbols_valid(#[trigger] all[i].symbols@),
                k <= all.len(),
                n == all.len(),
                rest@ == all.skip(k as int),
                self@ == old(self)@.union_prefer_right(map_of(all.take(k as int))),
            decreases rest@.len(),
        {
            let e = rest.remove(0);
            proof {
                assert(k < all.len());
                assert(e == all[k as int]);
                assert(all.take(k + 1).drop_last() =~= all.take(k as int));
                assert(all.skip(k + 1) =~= all.skip(k as int).drop_first());
            }
            self.replace_all(e.uri, e.symbols);
            proof {
                assert(self@ =~= old(self)@.union_prefer_right(map_of(all.take(k + 1))));
            }
            k = k + 1;
        }
        proof {
            assert(all.take(k as int) =~= all);
        }
    }
}

} // verus!

verus! {

/// What a hover shows: a symbol's range, and `name: type`.
#[derive(Debug)]
pub struct HoverInfo {
    pub range: Range,
    pub contents: String,
}

/// The text a hover shows for `s`.
pub open spec fn hover_text(s: Symbol) -> Seq<char> {
    s.name@ + ": "@ + s.ty@
}

/// The hover for `position` of document `uri`: the symbol there, if any.
pub fn handle_hover(table: &SymbolTable, uri: &String, position: Position) -> (r: Option<HoverInfo>)
    requires
        table.wf(),
    ensures
        ({
            let found = if table@.contains_key(uri@) {
                lookup(table@[uri@], position)
            } else {
                None
            };
            match found {
                Some(s) => r is Some && r->0.range == s.range && r->0.contents@ == hover_text(s),
                None => r is None,
            }
        }),
{
    match table.query(uri, position) {
        Some(s) => {
            let mut contents = s.name.clone();
            contents.append(": ");
            contents.append(s.ty.as_str());
            Some(HoverInfo { range: s.range, contents })
        },
        None => None,
    }
}

} // verus!

verus! {

/// Index exactness: in a valid sequence, the lookup finds the one symbol
/// whose range contains `p` on its start line, and finds nothing exactly
/// when no range contains `p`.
pub proof fn lemma_index_exact(s: Seq<Symbol>, p: Position)
    requires
        symbols_valid(s),
    ensures
        lookup(s, p) is None <==> forall|i: int| 0 <= i < s.len() ==> !contains(#[trigger] s[i], p),
        forall|i: int| 0 <= i < s.len() && contains(#[trigger] s[i], p) ==> lookup(s, p) == Some(s[i]),
{
    assert forall|i: int| 0 <= i < s.len() && contains(#[trigger] s[i], p) implies lookup(s, p)
        == Some(s[i]) by {
        let k = choose|k: int| 0 <= k < s.len() && contains(#[trigger] s[k], p);
        lemma_unique_match(s, p, i, k);
    }
}

/// Atomic replace: once a table is merged with `incoming`, a document of
/// `incoming` answers every query from its new sequence alone, and any
/// other document from its old one.
pub proof fn lemma_atomic_replace(
    before: Map<Seq<char>, Seq<Symbol>>,
    incoming: Map<Seq<char>, Seq<Symbol>>,
    uri: Seq<char>,
    p: Position,
)
    ensures
        incoming.contains_key(uri) ==> lookup(before.union_prefer_right(incoming)[uri], p) == lookup(
            incoming[uri],
            p,
        ),
        !incoming.contains_key(uri) && before.contains_key(uri) ==> lookup(
            before.union_prefer_right(incoming)[uri],
            p,
        ) == lookup(before[uri], p),
{
}

} // verus!

verus! {

/// `a` starts no later than `b`.
pub open spec fn starts_no_later(a: Symbol, b: Symbol) -> bool {
    a.range.start.line < b.range.start.line || (a.range.start.line == b.range.start.line
        && a.range.start.character <= b.range.start.character)
}

/// `s` with `x` placed after the last symbol, counting from the back past
/// those that start later than `x`: a stable insertion.
pub open spec fn insert_sorted(s: Seq<Symbol>, x: Symbol) -> Seq<Symbol>
    decreases s.len(),
{
    if s.len() == 0 {
        seq![x]
    } else if starts_no_later(s.last(), x) {
        s.push(x)
    } else {
        insert_sorted(s.drop_last(), x).push(s.last())
    }
}

/// `s` sorted by start position; symbols with equal starts keep their order.
pub open spec fn sorted_by_start(s: Seq<Symbol>) -> Seq<Symbol>
    decreases s.len(),
{
    if s.len() == 0 {
        seq![]
    } else {
        insert_sorted(sorted_by_start(s.drop_last()), s.last())
    }
}

/// The symbols of `s` kept from the front: each on a single line and
/// starting no earlier than the end of the last one kept.
pub open spec fn keep_disjoint(s: Seq<Symbol>) -> Seq<Symbol>
    decreases s.len(),
{
    if s.len() == 0 {
        seq![]
    } else {
        let k = keep_disjoint(s.drop_last());
        let x = s.last();
        if single_line(x) && (k.len() == 0 || before(k.last(), x)) {
            k.push(x)
        } else {
            k
        }
    }
}

/// The symbols recorded for document `uri`, in order.
pub open spec fn recorded_for(records: Seq<(String, Symbol)>, uri: Seq<char>) -> Seq<Symbol>
    decreases records.len(),
{
    if records.len() == 0 {
        seq![]
    } else {
        let prev = recorded_for(records.drop_last(), uri);
        if records.last().0@ == uri {
            prev.push(records.last().1)
        } else {
            prev
        }
    }
}

/// Some record names document `uri`.
pub open spec fn recorded(records: Seq<(String, Symbol)>, uri: Seq<char>) -> bool {
    exists|i: int| 0 <= i < records.len() && (#[trigger] records[i]).0@ == uri
}

/// The table that analysis records make: each document recorded maps to
/// its symbols sorted by start, those that overlap an earlier one or span
/// several lines left out.
pub open spec fn table_of(records: Seq<(String, Symbol)>) -> Map<Seq<char>, Seq<Symbol>> {
    Map::new(
        |u: Seq<char>| recorded(records, u),
        |u: Seq<char>| keep_disjoint(sorted_by_start(recorded_for(records, u))),
    )
}

/// What `keep_disjoint` keeps is a valid sequence.
pub proof fn lemma_keep_valid(s: Seq<Symbol>)
    ensures
        symbols_valid(keep_disjoint(s)),
    decreases s.len(),
{
    if s.len() > 0 {
        let k = keep_disjoint(s.drop_last());
        lemma_keep_valid(s.drop_last());
        let x = s.last();
        if single_line(x) && (k.len() == 0 || before(k.last(), x)) {
            let r = k.push(x);
            assert forall|i: int, j: int| 0 <= i < j < r.len() implies before(
                #[trigger] r[i],
                #[trigger] r[j],
            ) by {
                if j == r.len() - 1 && i < k.len() - 1 {
                    assert(before(k[i], k[k.len() - 1]));
                    assert(single_line(k[k.len() - 1]));
                }
            }
        }
    }
}

fn starts_no_later_exec(a: &Symbol, b: &Symbol) -> (r: bool)
    ensures
        r == starts_no_later(*a, *b),
{
    a.range.start.line < b.range.start.line || (a.range.start.line == b.range.start.line
        && a.range.start.character <= b.range.start.character)
}

/// Inserts `x` into `v` as `insert_sorted` says.
fn insert_by_start(v: &mut Vec<Symbol>, x: Symbol)
    ensures
        final(v)@ == insert_sorted(old(v)@, x),
{
    let ghost s = v@;
    let mut j = v.len();
    proof {
        assert(s.take(j as int) =~= s);
        assert(s.skip(j as int) =~= Seq::<Symbol>::empty());
        assert(insert_sorted(s, x) =~= insert_sorted(s.take(j as int), x) + s.skip(j as int));
    }
    while j > 0 && !starts_no_later_exec(&v[j - 1], &x)
        invariant
            v@ == s,
            j <= s.len(),
            insert_sorted(s, x) == insert_sorted(s.take(j as int), x) + s.skip(j as int),
        decreases j,
    {
        proof {
            let t = s.take(j as int);
            assert(t.drop_last() =~= s.take(j - 1));
            assert(t.last() == s[j - 1]);
            assert(s.skip(j - 1) =~= seq![s[j - 1]] + s.skip(j as int));
            assert(insert_sorted(s.take(j - 1), x).push(s[j - 1]) + s.skip(j as int)
                =~= insert_sorted(s.take(j - 1), x) + s.skip(j - 1));
        }
        j = j - 1;
    }
    proof {
        if j > 0 {
            assert(s.take(j as int).last() == s[j - 1]);
        } else {
            assert(s.take(0) =~= Seq::<Symbol>::empty());
        }
    }
    v.insert(j, x);
    proof {
        assert(v@ =~= insert_sorted(s, x));
    }
}

/// The symbols of `s` that `keep_disjoint` keeps.
fn keep_disjoint_exec(s: &Vec<Symbol>) -> (r: Vec<Symbol>)
    ensures
        r@ == keep_disjoint(s@),
{
    let mut r: Vec<Symbol> = Vec::new();
    let mut i: usize = 0;
    proof {
        assert(s@.take(0) =~= Seq::<Symbol>::empty());
    }
    while i < s.len()
        invariant
            i <= s@.len(),
            r@ == keep_disjoint(s@.take(i as int)),
        decreases s@.len() - i,
    {
        proof {
            assert(s@.take(i + 1).drop_last() =~= s@.take(i as int));
            assert(s@.take(i + 1).last() == s@[i as int]);
        }
        let x = &s[i];
        let single = x.range.start.line == x.range.end.line && x.range.start.character
            <= x.range.end.character;
        let after_last = if r.len() == 0 {
            true
        } else {
            let l = &r[r.len() - 1];
            l.range.start.line < x.range.start.line || (l.range.start.line == x.range.start.line
                && l.range.end.character <= x.range.start.character)
        };
        if single && after_last {
            r.push(x.clone());
        }
        i = i + 1;
    }
    proof {
        assert(s@.take(s@.len() as int) =~= s@);
    }
    r
}

} // verus!

verus! {

/// The documents that `records` name, each once.
fn recorded_uris(records: &Vec<(String, Symbol)>) -> (r: Vec<String>)
    ensures
        forall|a: int, b: int| 0 <= a < b < r@.len() ==> (#[trigger] r@[a])@ != (#[trigger] r@[b])@,
        forall|u: Seq<char>|
            recorded(records@, u) <==> exists|a: int| 0 <= a < r@.len() && (#[trigger] r@[a])@ == u,
{
    let mut r: Vec<String> = Vec::new();
    let mut i: usize = 0;
    while i < records.len()
        invariant
            i <= records@.len(),
            forall|a: int, b: int| 0 <= a < b < r@.len() ==> (#[trigger] r@[a])@ != (#[trigger] r@[b])@,
            forall|u: Seq<char>|
                recorded(records@.take(i as int), u) <==> exists|a: int|
                    0 <= a < r@.len() && (#[trigger] r@[a])@ == u,
        decreases records@.len() - i,
    {
        let uri = &records[i].0;
        let mut found = false;
        let mut j: usize = 0;
        while j < r.len()
            invariant
                j <= r@.len(),
                found <==> exists|a: int| 0 <= a < j && (#[trigger] r@[a])@ == uri@,
            decreases r@.len() - j,
        {
            if r[j] == *uri {
                found = true;
            }
            j = j + 1;
        }
        let ghost before = r@;
        proof {
            let rs = records@;
            assert forall|u: Seq<char>| recorded(rs.take(i + 1), u) <==> (recorded(rs.take(i as int), u)
                || u == uri@) by {
                if recorded(rs.take(i + 1), u) && u != uri@ {
                    let k = choose|k: int| 0 <= k < i + 1 && (#[trigger] rs.take(i + 1)[k]).0@ == u;
                    assert(rs.take(i as int)[k] == rs.take(i + 1)[k]);
                }
                if recorded(rs.take(i as int), u) {
                    let k = choose|k: int| 0 <= k < i && (#[trigger] rs.take(i as int)[k]).0@ == u;
                    assert(rs.take(i as int)[k] == rs.take(i + 1)[k]);
                }
                if u == uri@ {
                    assert(rs.take(i + 1)[i as int].0@ == u);
                }
            }
        }
        if !found {
            r.push(uri.clone());
            proof {
                assert forall|u: Seq<char>| #[trigger] recorded(records@.take(i + 1), u) <==> exists|a: int|
                    0 <= a < r@.len() && (#[trigger] r@[a])@ == u by {
                    assert(recorded(records@.take(i + 1), u) <==> (recorded(records@.take(i as int), u)
                        || u == uri@));
                    assert(recorded(records@.take(i as int), u) <==> exists|a: int|
                        0 <= a < before.len() && (#[trigger] before[a])@ == u);
                    if exists|a: int| 0 <= a < before.len() && (#[trigger] before[a])@ == u {
                        let a = choose|a: int| 0 <= a < before.len() && (#[trigger] before[a])@ == u;
                        assert(r@[a] == before[a]);
                    }
                    if exists|a: int| 0 <= a < r@.len() && (#[trigger] r@[a])@ == u {
                        let a = choose|a: int| 0 <= a < r@.len() && (#[trigger] r@[a])@ == u;
                        if a < before.len() {
                            assert(r@[a] == before[a]);
                        }
                    }
                    if u == uri@ {
                        assert(r@[before.len() as int]@ == u);
                    }
                }
            }
        } else {
            proof {
                assert forall|u: Seq<char>| #[trigger] recorded(records@.take(i + 1), u) <==> exists|a: int|
                    0 <= a < r@.len() && (#[trigger] r@[a])@ == u by {
                    assert(recorded(records@.take(i + 1), u) <==> (recorded(records@.take(i as int), u)
                        || u == uri@));
                    assert(recorded(records@.take(i as int), u) <==> exists|a: int|
                        0 <= a < r@.len() && (#[trigger] r@[a])@ == u);
                }
            }
        }
        i = i + 1;
    }
    proof {
        assert(records@.take(records@.len() as int) =~= records@);
    }
    r
}

impl SymbolTable {
    /// Builds the table that analysis records make, as `table_of` says.
    pub fn from_records(records: &Vec<(String, Symbol)>) -> (t: SymbolTable)
        ensures
            t.wf(),
            t@ == table_of(records@),
    {
        let uris = recorded_uris(records);
        let mut entries: Vec<DocumentSymbols> = Vec::new();
        let mut j: usize = 0;
        while j < uris.len()
            invariant
                j <= uris@.len(),
                entries@.len() == j,
                forall|a: int, b: int|
                    0 <= a < b < uris@.len() ==> (#[trigger] uris@[a])@ != (#[trigger] uris@[b])@,
                forall|a: int| 0 <= a < j ==> (#[trigger] entries@[a]).uri@ == uris@[a]@,
                forall|a: int|
                    0 <= a < j ==> (#[trigger] entries@[a]).symbols@ == keep_disjoint(
                        sorted_by_start(recorded_for(records@, uris@[a]@)),
                    ),
                forall|a: int| 0 <= a < j ==> symbols_valid(#[trigger] entries@[a].symbols@),
            decreases uris@.len() - j,
        {
            let uri = &uris[j];
            let mut v: Vec<Symbol> = Vec::new();
            let mut k: usize = 0;
            proof {
                assert(records@.take(0) =~= Seq::<(String, Symbol)>::empty());
            }
            while k < records.len()
                invariant
                    k <= records@.len(),
                    v@ == sorted_by_start(recorded_for(records@.take(k as int), uri@)),
                decreases records@.len() - k,
            {
                proof {
                    assert(records@.take(k + 1).drop_last() =~= records@.take(k as int));
                    assert(records@.take(k + 1).last() == records@[k as int]);
                }
                if records[k].0 == *uri {
                    let x = records[k].1.clone();
                    proof {
                        let p = recorded_for(records@.take(k as int), uri@);
                        assert(p.push(x).drop_last() =~= p);
                    }
                    insert_by_start(&mut v, x);
                }
                k = k + 1;
            }
            proof {
                assert(records@.take(records@.len() as int) =~= records@);
            }
            let kept = keep_disjoint_exec(&v);
            proof {
                lemma_keep_valid(v@);
            }
            entries.push(DocumentSymbols { uri: uri.clone(), symbols: kept });
            j = j + 1;
        }
        let t = SymbolTable { entries };
        proof {
            let es = t.entries@;
            assert(uris_unique(es)) by {
                assert forall|a: int, b: int| 0 <= a < b < es.len() implies (#[trigger] es[a]).uri@
                    != (#[trigger] es[b]).uri@ by {
                    assert(uris@[a]@ != uris@[b]@);
                }
            }
            assert forall|u: Seq<char>| #[trigger] t@.contains_key(u) == table_of(records@).contains_key(u)
                && (t@.contains_key(u) ==> t@[u] == table_of(records@)[u]) by {
                lemma_map_of(es, u);
                if recorded(records@, u) {
                    let a = choose|a: int| 0 <= a < uris@.len() && (#[trigger] uris@[a])@ == u;
                    assert(es[a].uri@ == u);
                }
                if t@.contains_key(u) {
                    let a = choose|a: int| 0 <= a < es.len() && (#[trigger] es[a]).uri@ == u;
                    assert(uris@[a]@ == u);
                }
            }
            assert(t@ =~= table_of(records@));
        }
        t
    }
}

} // verus!
