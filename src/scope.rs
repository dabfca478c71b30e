//! The definitions visible at library scope, and their construction.

use vstd::prelude::*;
use crate::diag::Diag;
use crate::refs::Def;
use crate::syntax::Span;

verus! {

/// A name bound to a definition, declared at a span.
#[derive(Debug)]
pub struct ScopeEntry {
    pub name: String,
    pub def: Def,
    pub span: Span,
}

/// The definitions of a scope, in the order in which they were declared.
/// The definitions of one name, in that order, are the entries that carry it.
#[derive(Debug)]
pub struct Scope {
    pub entries: Vec<ScopeEntry>,
}

/// The spans at which `n` is declared in `s`, in order.
pub open spec fn spans_named(s: Seq<ScopeEntry>, n: Seq<char>) -> Seq<Span>
    decreases s.len(),
{
    if s.len() == 0 {
        Seq::empty()
    } else {
        spans_named(s.drop_last(), n) + if s.last().name@ == n {
            seq![s.last().span]
        } else {
            Seq::empty()
        }
    }
}

/// Whether entry `i` is the first one that carries its name.
pub open spec fn is_first(s: Seq<ScopeEntry>, i: int) -> bool {
    forall|j: int| 0 <= j < i ==> s[j].name@ != s[i].name@
}

/// Whether entry `i` is the first one of a name declared more than once.
pub open spec fn starts_collision(s: Seq<ScopeEntry>, i: int) -> bool {
    is_first(s, i) && spans_named(s, s[i].name@).len() > 1
}

/// The names declared more than once among `s`, looking at the first `k`
/// entries for their first declaration, in the order of those.
pub open spec fn colliding_names(s: Seq<ScopeEntry>, k: int) -> Seq<Seq<char>>
    decreases k,
{
    if k <= 0 {
        Seq::empty()
    } else {
        colliding_names(s, k - 1) + if starts_collision(s, k - 1) {
            seq![s[k - 1].name@]
        } else {
            Seq::empty()
        }
    }
}

/// All the names declared more than once in `s`.
pub open spec fn collisions(s: Seq<ScopeEntry>) -> Seq<Seq<char>> {
    colliding_names(s, s.len() as int)
}

/// The entry that `n` resolves to: the last one declared under it.
pub open spec fn lookup(s: Seq<ScopeEntry>, n: Seq<char>) -> Option<ScopeEntry>
    decreases s.len(),
{
    if s.len() == 0 {
        None
    } else if s.last().name@ == n {
        Some(s.last())
    } else {
        lookup(s.drop_last(), n)
    }
}

/// Whether `ds` reports each name of `names`, in order, with every span at
/// which it is declared in `s`.
pub open spec fn reports_collisions(ds: Seq<Diag>, s: Seq<ScopeEntry>, names: Seq<Seq<char>>) -> bool {
    &&& ds.len() == names.len()
    &&& forall|i: int| 0 <= i < ds.len() ==> #[trigger] ds[i].is_duplicate_def(names[i], spans_named(s, names[i]))
}

/// Taking one more element of a sequence appends that element.
pub proof fn lemma_take_last<T>(s: Seq<T>, i: int)
    requires
        0 <= i < s.len(),
    ensures
        s.take(i + 1).drop_last() == s.take(i),
        s.take(i + 1).last() == s[i],
        s.take(s.len() as int) == s,
{
    assert(s.take(i + 1).drop_last() =~= s.take(i));
    assert(s.take(s.len() as int) =~= s);
}

/// A name has a span in `s` exactly when some entry carries it.
pub proof fn lemma_spans_named_nonempty(s: Seq<ScopeEntry>, n: Seq<char>)
    ensures
        (spans_named(s, n).len() > 0) == (exists|i: int| 0 <= i < s.len() && s[i].name@ == n),
    decreases s.len(),
{
    if s.len() > 0 {
        lemma_spans_named_nonempty(s.drop_last(), n);
        if exists|i: int| 0 <= i < s.len() && s[i].name@ == n {
            let i = choose|i: int| 0 <= i < s.len() && s[i].name@ == n;
            if i < s.len() - 1 {
                assert(s.drop_last()[i].name@ == n);
            }
        }
        if exists|i: int| 0 <= i < s.drop_last().len() && s.drop_last()[i].name@ == n {
            let i = choose|i: int| 0 <= i < s.drop_last().len() && s.drop_last()[i].name@ == n;
            assert(s[i].name@ == n);
        }
    }
}

/// A name occurs among the first `k` collisions exactly when it is declared
/// more than once and its first declaration is among the first `k` entries;
/// and no name occurs twice.
proof fn lemma_colliding_names(s: Seq<ScopeEntry>, k: int, n: Seq<char>)
    requires
        0 <= k <= s.len(),
    ensures
        colliding_names(s, k).contains(n) == (spans_named(s, n).len() > 1 && exists|i: int|
            0 <= i < k && s[i].name@ == n),
        colliding_names(s, k).no_duplicates(),
        forall|m: Seq<char>| #[trigger] colliding_names(s, k).contains(m) ==> exists|i: int|
            0 <= i < k && s[i].name@ == m,
    decreases k,
{
    if k > 0 {
        lemma_colliding_names(s, k - 1, n);
        let prev = colliding_names(s, k - 1);
        let cur = colliding_names(s, k);
        let nk = s[k - 1].name@;
        lemma_colliding_names(s, k - 1, nk);
        if starts_collision(s, k - 1) {
            assert(cur == prev.push(nk));
            assert(!prev.contains(nk)) by {
                if prev.contains(nk) {
                    let i = choose|i: int| 0 <= i < k - 1 && s[i].name@ == nk;
                    assert(s[i].name@ != s[k - 1].name@);
                }
            }
            assert forall|m: Seq<char>| #[trigger] cur.contains(m) implies exists|i: int|
                0 <= i < k && s[i].name@ == m by {
                if m != nk {
                    assert(prev.contains(m)) by {
                        let j = choose|j: int| 0 <= j < cur.len() && cur[j] == m;
                        assert(prev[j] == m);
                    }
                }
            }
            assert forall|a: int, b: int| 0 <= a < b < cur.len() implies cur[a] != cur[b] by {
                if b == cur.len() - 1 {
                    assert(prev.contains(cur[a]));
                }
            }
            assert(cur[cur.len() - 1] == nk);
            if n == nk {
                assert(s[k - 1].name@ == n);
                assert(cur.contains(n));
            } else {
                if exists|i: int| 0 <= i < k && s[i].name@ == n {
                    let i = choose|i: int| 0 <= i < k && s[i].name@ == n;
                    assert(i != k - 1);
                    if spans_named(s, n).len() > 1 {
                        assert(prev.contains(n));
                        let j = choose|j: int| 0 <= j < prev.len() && prev[j] == n;
                        assert(cur[j] == n);
                    }
                }
                if cur.contains(n) {
                    let j = choose|j: int| 0 <= j < cur.len() && cur[j] == n;
                    assert(prev[j] == n);
                    assert(prev.contains(n));
                }
            }
        } else {
            assert(cur == prev);
            if n == nk && spans_named(s, n).len() > 1 {
                // Entry k - 1 is not the first of its name: an earlier one is.
                assert(!is_first(s, k - 1));
                let j = choose|j: int| 0 <= j < k - 1 && (#[trigger] s[j]).name@ == nk;
                assert(0 <= j < k - 1 && s[j].name@ == n);
            }
            if exists|i: int| 0 <= i < k && s[i].name@ == n {
                let i = choose|i: int| 0 <= i < k && s[i].name@ == n;
                if i == k - 1 {
                    assert(n == nk);
                } else {
                    assert(exists|i: int| 0 <= i < k - 1 && s[i].name@ == n);
                }
            }
            if exists|i: int| 0 <= i < k - 1 && s[i].name@ == n {
                let i = choose|i: int| 0 <= i < k - 1 && s[i].name@ == n;
                assert(0 <= i < k && s[i].name@ == n);
            }
        }
    }
}

/// Each name declared more than once is reported exactly once, and no other
/// name is reported.
pub proof fn lemma_one_report_per_collision(s: Seq<ScopeEntry>, n: Seq<char>)
    ensures
        collisions(s).no_duplicates(),
        collisions(s).contains(n) == (spans_named(s, n).len() > 1),
{
    lemma_colliding_names(s, s.len() as int, n);
    lemma_spans_named_nonempty(s, n);
}

/// Two entries carrying one name make it collide.
pub proof fn lemma_two_make_collision(s: Seq<ScopeEntry>, i: int, j: int)
    requires
        0 <= i < j < s.len(),
        s[i].name@ == s[j].name@,
    ensures
        spans_named(s, s[j].name@).len() > 1,
        collisions(s).contains(s[j].name@),
        collisions(s).len() > 0,
    decreases s.len(),
{
    let n = s[j].name@;
    if j == s.len() - 1 {
        assert(s.drop_last()[i].name@ == n);
        lemma_spans_named_nonempty(s.drop_last(), n);
    } else {
        assert(s.drop_last()[i] == s[i] && s.drop_last()[j] == s[j]);
        lemma_two_make_collision(s.drop_last(), i, j);
    }
    lemma_one_report_per_collision(s, n);
}

/// A name resolves to the last entry that carries it.
pub proof fn lemma_lookup_last(s: Seq<ScopeEntry>, j: int)
    requires
        0 <= j < s.len(),
        forall|k: int| j < k < s.len() ==> (#[trigger] s[k]).name@ != s[j].name@,
    ensures
        lookup(s, s[j].name@) == Some(s[j]),
    decreases s.len(),
{
    if j < s.len() - 1 {
        assert(s.drop_last()[j] == s[j]);
        assert forall|k: int| j < k < s.drop_last().len() implies (#[trigger] s.drop_last()[k]).name@ != s.drop_last()[j].name@ by {
            assert(s.drop_last()[k] == s[k]);
        }
        lemma_lookup_last(s.drop_last(), j);
    }
}

/// What a name resolves to is one of the entries.
pub proof fn lemma_lookup_found(s: Seq<ScopeEntry>, n: Seq<char>)
    requires
        lookup(s, n) is Some,
    ensures
        exists|i: int| 0 <= i < s.len() && s[i] == lookup(s, n)->Some_0,
    decreases s.len(),
{
    if s.last().name@ != n {
        lemma_lookup_found(s.drop_last(), n);
        let i = choose|i: int| 0 <= i < s.drop_last().len() && s.drop_last()[i] == lookup(s.drop_last(), n)->Some_0;
        assert(s[i] == s.drop_last()[i]);
    } else {
        assert(s[s.len() - 1] == s.last());
    }
}

/// The spans at which `name` is declared in `entries`.
fn collect_spans(entries: &Vec<ScopeEntry>, name: &String) -> (r: Vec<Span>)
    ensures
        r@ == spans_named(entries@, name@),
{
    let mut spans: Vec<Span> = Vec::new();
    let mut j: usize = 0;
    while j < entries.len()
        invariant
            0 <= j <= entries@.len(),
            spans@ == spans_named(entries@.take(j as int), name@),
        decreases entries@.len() - j,
    {
        proof {
            lemma_take_last(entries@, j as int);
        }
        if entries[j].name == *name {
            spans.push(entries[j].span);
        }
        j = j + 1;
    }
    proof {
        assert(entries@.take(entries@.len() as int) =~= entries@);
    }
    spans
}

/// Whether entry `i` is the first one that carries its name.
fn first_of_name(entries: &Vec<ScopeEntry>, i: usize) -> (r: bool)
    requires
        i < entries@.len(),
    ensures
        r == is_first(entries@, i as int),
{
    let mut j: usize = 0;
    while j < i
        invariant
            i < entries@.len(),
            0 <= j <= i,
            forall|k: int| 0 <= k < j ==> entries@[k].name@ != entries@[i as int].name@,
        decreases i - j,
    {
        if entries[j].name == entries[i].name {
            return false;
        }
        j = j + 1;
    }
    true
}

/// The diagnostics for every name declared more than once in `entries`: one
/// for each such name, listing every span at which it is declared.
pub fn collision_reports(entries: &Vec<ScopeEntry>) -> (r: Vec<Diag>)
    ensures
        reports_collisions(r@, entries@, collisions(entries@)),
{
    let mut ds: Vec<Diag> = Vec::new();
    let mut i: usize = 0;
    while i < entries.len()
        invariant
            0 <= i <= entries@.len(),
            reports_collisions(ds@, entries@, colliding_names(entries@, i as int)),
        decreases entries@.len() - i,
    {
        let first = first_of_name(entries, i);
        if first {
            let spans = collect_spans(entries, &entries[i].name);
            if spans.len() > 1 {
                let d = Diag::duplicate_def(&entries[i].name, spans);
                ds.push(d);
            }
        }
        proof {
            let s = entries@;
            assert(colliding_names(s, i + 1) == colliding_names(s, i as int) + if starts_collision(s, i as int) {
                seq![s[i as int].name@]
            } else {
                Seq::empty()
            });
        }
        i = i + 1;
    }
    ds
}

/// Builds the scope of `entries`. Unless duplicates are tolerated, a name
/// declared more than once fails the construction, with one report for each
/// such name; a tolerated duplicate resolves to its last declaration.
pub fn build_scope(entries: Vec<ScopeEntry>, tolerate_duplicates: bool) -> (r: Result<Scope, Vec<Diag>>)
    ensures
        match r {
            Ok(scope) => scope.entries@ == entries@ && (tolerate_duplicates || collisions(entries@).len() == 0),
            Err(ds) => !tolerate_duplicates && collisions(entries@).len() > 0
                && reports_collisions(ds@, entries@, collisions(entries@)),
        },
{
    if tolerate_duplicates {
        return Ok(Scope { entries });
    }
    let ds = collision_reports(&entries);
    if ds.len() > 0 {
        Err(ds)
    } else {
        Ok(Scope { entries })
    }
}

impl Scope {
    /// The position of the entry that `name` resolves to: the last one
    /// declared under it.
    pub fn find(&self, name: &String) -> (r: Option<usize>)
        ensures
            match r {
                Some(k) => k < self.entries@.len() && lookup(self.entries@, name@) == Some(self.entries@[k as int]),
                None => lookup(self.entries@, name@) is None,
            },
    {
        let mut i: usize = self.entries.len();
        proof {
            assert(self.entries@.take(i as int) =~= self.entries@);
        }
        while i > 0
            invariant
                0 <= i <= self.entries@.len(),
                lookup(self.entries@, name@) == lookup(self.entries@.take(i as int), name@),
            decreases i,
        {
            proof {
                lemma_take_last(self.entries@, i - 1);
            }
            if self.entries[i - 1].name == *name {
                return Some(i - 1);
            }
            i = i - 1;
        }
        None
    }
}

} // verus!
