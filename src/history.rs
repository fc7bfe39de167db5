use vstd::prelude::*;

use crate::path::{file_name, file_name_of, stem_of, stem_of_name};
use crate::text::{
    chars_of, contains, contains_chars, decimal, decimal_chars, parse_unsigned, parse_usize,
    same_chars, string_of,
};

verus! {

/// One tracked file: its canonical path and how many times it was opened.
pub struct FileEntry {
    pub path: String,
    pub rank: usize,
}

/// The access history: one entry per distinct path, in the order in which
/// the paths were first recorded.
pub struct History {
    entries: Vec<FileEntry>,
}

/// A record as the contracts see it: a path and its rank.
pub open spec fn record_of(e: FileEntry) -> (Seq<char>, usize) {
    (e.path@, e.rank)
}

/// No path occurs twice.
pub open spec fn unique_paths(s: Seq<(Seq<char>, usize)>) -> bool {
    forall|i: int, j: int| 0 <= i < j < s.len() ==> #[trigger] s[i].0 != #[trigger] s[j].0
}

/// The position of the record for path `p`, or -1.
pub open spec fn find_path(s: Seq<(Seq<char>, usize)>, p: Seq<char>) -> int
    decreases s.len(),
{
    if s.len() == 0 {
        -1
    } else if s.last().0 == p {
        s.len() - 1
    } else {
        find_path(s.drop_last(), p)
    }
}

/// The rank recorded for path `p`; 0 for a path never recorded.
pub open spec fn rank_of(s: Seq<(Seq<char>, usize)>, p: Seq<char>) -> nat {
    let i = find_path(s, p);
    if i >= 0 {
        s[i].1 as nat
    } else {
        0
    }
}

/// `s` with the rank of `p` set to `r`: in place where `p` is recorded,
/// else as a new last record.
pub open spec fn put_record(s: Seq<(Seq<char>, usize)>, p: Seq<char>, r: usize) -> Seq<
    (Seq<char>, usize),
> {
    let i = find_path(s, p);
    if i >= 0 {
        s.update(i, (p, r))
    } else {
        s.push((p, r))
    }
}

/// `s` after one more opening of `p`: its rank goes up by one, and a path
/// not yet recorded enters with rank 1. A rank already at `usize::MAX` stays.
pub open spec fn bumped(s: Seq<(Seq<char>, usize)>, p: Seq<char>) -> Seq<(Seq<char>, usize)> {
    let cur = rank_of(s, p);
    put_record(s, p, if cur < usize::MAX { (cur + 1) as usize } else { usize::MAX })
}

/// `s` after an opening of `p`, which counts only where `p` exists on disk.
pub open spec fn updated(s: Seq<(Seq<char>, usize)>, p: Seq<char>, exists: bool) -> Seq<
    (Seq<char>, usize),
> {
    if exists {
        bumped(s, p)
    } else {
        s
    }
}

pub proof fn lemma_find_path(s: Seq<(Seq<char>, usize)>, p: Seq<char>)
    ensures
        -1 <= find_path(s, p) < s.len(),
        find_path(s, p) >= 0 ==> s[find_path(s, p)].0 == p,
        find_path(s, p) < 0 ==> forall|j: int| 0 <= j < s.len() ==> #[trigger] s[j].0 != p,
    decreases s.len(),
{
    if s.len() > 0 && s.last().0 != p {
        lemma_find_path(s.drop_last(), p);
        assert forall|j: int| 0 <= j < s.len() - 1 implies #[trigger] s[j] == s.drop_last()[j] by {}
    }
}

pub proof fn lemma_find_unique(s: Seq<(Seq<char>, usize)>, i: int)
    requires
        unique_paths(s),
        0 <= i < s.len(),
    ensures
        find_path(s, s[i].0) == i,
{
    let p = s[i].0;
    lemma_find_path(s, p);
    let k = find_path(s, p);
    if k != i {
        if k < i {
            assert(s[k].0 != s[i].0);
        } else {
            assert(s[i].0 != s[k].0);
        }
    }
}

pub proof fn lemma_put_record(s: Seq<(Seq<char>, usize)>, p: Seq<char>, r: usize)
    requires
        unique_paths(s),
    ensures
        unique_paths(put_record(s, p, r)),
        rank_of(put_record(s, p, r), p) == r,
{
    lemma_find_path(s, p);
    let t = put_record(s, p, r);
    let i = find_path(s, p);
    if i >= 0 {
        assert forall|a: int, b: int| 0 <= a < b < t.len() implies #[trigger] t[a].0
            != #[trigger] t[b].0 by {
            assert(s[a].0 != s[b].0);
        }
        assert(unique_paths(t));
        lemma_find_unique(t, i);
    } else {
        assert forall|a: int, b: int| 0 <= a < b < t.len() implies #[trigger] t[a].0
            != #[trigger] t[b].0 by {
            if b < s.len() {
                assert(s[a].0 != s[b].0);
            }
        }
        lemma_find_unique(t, s.len() as int);
    }
}

/// The position of the first `c` in `s`, or -1.
pub open spec fn first_index(s: Seq<char>, c: char) -> int
    decreases s.len(),
{
    if s.len() == 0 {
        -1
    } else {
        let r = first_index(s.drop_last(), c);
        if r >= 0 {
            r
        } else if s.last() == c {
            s.len() - 1
        } else {
            -1
        }
    }
}

pub proof fn lemma_first_index(s: Seq<char>, c: char)
    ensures
        -1 <= first_index(s, c) < s.len(),
        first_index(s, c) >= 0 ==> s[first_index(s, c)] == c,
        forall|j: int|
            0 <= j < s.len() && (first_index(s, c) < 0 || j < first_index(s, c)) ==> #[trigger] s[j]
                != c,
    decreases s.len(),
{
    if s.len() > 0 {
        lemma_first_index(s.drop_last(), c);
        assert forall|j: int| 0 <= j < s.len() - 1 implies #[trigger] s[j] == s.drop_last()[j] by {}
    }
}

/// The first `c` of `s` stands at `k`.
pub proof fn lemma_first_index_at(s: Seq<char>, c: char, k: int)
    requires
        0 <= k < s.len(),
        s[k] == c,
        forall|j: int| 0 <= j < k ==> s[j] != c,
    ensures
        first_index(s, c) == k,
{
    lemma_first_index(s, c);
}

/// `line` without one trailing carriage return.
pub open spec fn strip_cr(line: Seq<char>) -> Seq<char> {
    if line.len() > 0 && line.last() == '\r' {
        line.drop_last()
    } else {
        line
    }
}

/// The record that one line of the history file holds: the text before its
/// first tab is the path, the text after it the rank. None where the line has
/// no tab, or what follows the tab is no unsigned integer (which covers a
/// second tab).
pub open spec fn line_record(line: Seq<char>) -> Option<(Seq<char>, usize)> {
    let j = first_index(line, '\t');
    if j >= 0 {
        match parse_unsigned(line.skip(j + 1)) {
            Some(n) => Some((line.take(j), n)),
            None => None,
        }
    } else {
        None
    }
}

/// `acc` after reading one line: a record replaces the rank of its path, or
/// enters as a new last record; any other line is skipped.
pub open spec fn apply_line(acc: Seq<(Seq<char>, usize)>, line: Seq<char>) -> Seq<
    (Seq<char>, usize),
> {
    match line_record(line) {
        Some(r) => put_record(acc, r.0, r.1),
        None => acc,
    }
}

/// Reads the rest `t` of a history file into `acc`, where `line` holds the
/// characters read so far of the current line. Lines end at `\n`, after which
/// one `\r` is dropped; the last line needs no `\n`.
pub open spec fn read_chars(acc: Seq<(Seq<char>, usize)>, line: Seq<char>, t: Seq<char>) -> Seq<
    (Seq<char>, usize),
>
    decreases t.len(),
{
    if t.len() == 0 {
        if line.len() == 0 {
            acc
        } else {
            apply_line(acc, line)
        }
    } else if t[0] == '\n' {
        read_chars(apply_line(acc, strip_cr(line)), Seq::empty(), t.drop_first())
    } else {
        read_chars(acc, line.push(t[0]), t.drop_first())
    }
}

/// The history that the text `t` of a history file holds.
pub open spec fn parsed(t: Seq<char>) -> Seq<(Seq<char>, usize)> {
    read_chars(Seq::empty(), Seq::empty(), t)
}

/// The line of the history file for one record: path, tab, rank, newline.
pub open spec fn entry_line(e: (Seq<char>, usize)) -> Seq<char> {
    e.0 + seq!['\t'] + decimal(e.1 as nat) + seq!['\n']
}

/// The text of the history file for `s`: one line per record, in order.
pub open spec fn rendered(s: Seq<(Seq<char>, usize)>) -> Seq<char>
    decreases s.len(),
{
    if s.len() == 0 {
        Seq::empty()
    } else {
        entry_line(s[0]) + rendered(s.drop_first())
    }
}

pub proof fn lemma_rendered_push(s: Seq<(Seq<char>, usize)>, e: (Seq<char>, usize))
    ensures
        rendered(s.push(e)) == rendered(s) + entry_line(e),
    decreases s.len(),
{
    if s.len() == 0 {
        assert(s.push(e).drop_first() =~= Seq::<(Seq<char>, usize)>::empty());
        assert(rendered(s.push(e).drop_first()) == Seq::<char>::empty());
        assert(s.push(e)[0] == e);
        assert(rendered(s.push(e)) =~= rendered(s) + entry_line(e));
    } else {
        assert(s.push(e).drop_first() =~= s.drop_first().push(e));
        lemma_rendered_push(s.drop_first(), e);
        assert(s.push(e)[0] == s[0]);
        assert(rendered(s.push(e)) =~= rendered(s) + entry_line(e));
    }
}

/// The path's file name without extension is exactly `q`.
pub open spec fn exact_match(p: Seq<char>, q: Seq<char>) -> bool {
    match file_name(p) {
        Some(n) => stem_of_name(n) == q,
        None => false,
    }
}

/// The path's file name, with or without its extension, contains `q`.
pub open spec fn substring_match(p: Seq<char>, q: Seq<char>) -> bool {
    match file_name(p) {
        Some(n) => contains(stem_of_name(n), q) || contains(n, q),
        None => false,
    }
}

/// The positions of the records whose path matches `q` exactly.
pub open spec fn exact_pick(s: Seq<(Seq<char>, usize)>, q: Seq<char>) -> spec_fn(int) -> bool {
    |i: int| exact_match(s[i].0, q)
}

/// The positions of the records whose path contains `q` and, as `live`
/// tells, still exists on disk.
pub open spec fn live_substring_pick(
    s: Seq<(Seq<char>, usize)>,
    q: Seq<char>,
    live: Seq<bool>,
) -> spec_fn(int) -> bool {
    |i: int| live[i] && substring_match(s[i].0, q)
}

/// Among the first `n` records, the position of the highest-ranked one that
/// `pick` admits, the earliest among equal ranks; -1 where it admits none.
pub open spec fn best_index(s: Seq<(Seq<char>, usize)>, pick: spec_fn(int) -> bool, n: int) -> int
    decreases n,
{
    if n <= 0 {
        -1
    } else {
        let b = best_index(s, pick, n - 1);
        if pick(n - 1) && (b < 0 || s[n - 1].1 > s[b].1) {
            n - 1
        } else {
            b
        }
    }
}

/// What a query resolves to. In order: the query itself where it names an
/// existing path; the best record whose file stem equals the query; the best
/// record, among those still on disk, whose file stem or file name contains
/// the query; and else the query itself. "Best" is the highest rank, the
/// earliest record among equal ranks.
pub open spec fn resolved(
    s: Seq<(Seq<char>, usize)>,
    q: Seq<char>,
    query_exists: bool,
    live: Seq<bool>,
) -> Seq<char> {
    if query_exists {
        q
    } else {
        let e = best_index(s, exact_pick(s, q), s.len() as int);
        if e >= 0 {
            s[e].0
        } else {
            ranked_substring(s, q, live)
        }
    }
}

/// The best record, among those still on disk, whose file stem or file name
/// contains `q`; else `q` itself.
pub open spec fn ranked_substring(s: Seq<(Seq<char>, usize)>, q: Seq<char>, live: Seq<bool>) -> Seq<
    char,
> {
    let k = best_index(s, live_substring_pick(s, q, live), s.len() as int);
    if k >= 0 {
        s[k].0
    } else {
        q
    }
}

pub proof fn lemma_best_index(s: Seq<(Seq<char>, usize)>, pick: spec_fn(int) -> bool, n: int)
    requires
        0 <= n <= s.len(),
    ensures
        -1 <= best_index(s, pick, n) < n,
        best_index(s, pick, n) >= 0 ==> pick(best_index(s, pick, n)),
        best_index(s, pick, n) >= 0 ==> forall|j: int|
            0 <= j < n && #[trigger] pick(j) ==> s[j].1 <= s[best_index(s, pick, n)].1,
        best_index(s, pick, n) < 0 ==> forall|j: int| 0 <= j < n ==> !#[trigger] pick(j),
    decreases n,
{
    if n > 0 {
        lemma_best_index(s, pick, n - 1);
    }
}

pub proof fn lemma_put_record_other(
    s: Seq<(Seq<char>, usize)>,
    p: Seq<char>,
    r: usize,
    k: Seq<char>,
)
    requires
        unique_paths(s),
        k != p,
    ensures
        rank_of(put_record(s, p, r), k) == rank_of(s, k),
{
    lemma_find_path(s, p);
    lemma_find_path(s, k);
    lemma_put_record(s, p, r);
    let t = put_record(s, p, r);
    lemma_find_path(t, k);
    let i = find_path(s, k);
    if i >= 0 {
        assert(t[i].0 == k);
        lemma_find_unique(t, i);
    } else {
        assert forall|j: int| 0 <= j < t.len() implies #[trigger] t[j].0 != k by {
            if j < s.len() {
                assert(s[j].0 != k);
            }
        }
    }
}

impl View for History {
    type V = Seq<(Seq<char>, usize)>;

    closed spec fn view(&self) -> Seq<(Seq<char>, usize)> {
        self.entries@.map_values(|e: FileEntry| record_of(e))
    }
}

impl History {
    #[verifier::type_invariant]
    closed spec fn paths_unique(self) -> bool {
        unique_paths(self@)
    }

    /// Well-formed: no path is recorded twice. Every history is.
    pub open spec fn wf(&self) -> bool {
        unique_paths(self@)
    }

    /// An empty history.
    pub fn new() -> (r: History)
        ensures
            r@ == Seq::<(Seq<char>, usize)>::empty(),
            r.wf(),
    {
        let r = History { entries: Vec::new() };
        assert(r@ =~= Seq::<(Seq<char>, usize)>::empty());
        r
    }

    /// The entries, in order.
    pub fn entries(&self) -> (r: &Vec<FileEntry>)
        ensures
            r@.map_values(|e: FileEntry| record_of(e)) == self@,
    {
        &self.entries
    }

    /// The number of entries.
    pub fn len(&self) -> (r: usize)
        ensures
            r == self@.len(),
    {
        self.entries.len()
    }

    /// Where the entry for `p` stands, if there is one.
    fn position_of(&self, p: &Vec<char>) -> (r: Option<usize>)
        ensures
            r matches Some(i) ==> find_path(self@, p@) == i,
            r is None ==> find_path(self@, p@) == -1,
    {
        proof {
            lemma_find_path(self@, p@);
        }
        let mut i: usize = self.entries.len();
        assert(self@.take(i as int) =~= self@);
        while i > 0
            invariant
                i <= self@.len(),
                self@.len() == self.entries@.len(),
                find_path(self@, p@) == find_path(self@.take(i as int), p@),
            decreases i,
        {
            let c = chars_of(self.entries[i - 1].path.as_str());
            assert(self@.take(i as int).drop_last() =~= self@.take(i - 1));
            assert(self@[i - 1] == record_of(self.entries@[i - 1]));
            if same_chars(&c, p) {
                return Some(i - 1);
            }
            i = i - 1;
        }
        None
    }

    /// Sets the rank of `p` to `r`, as `put_record` says.
    fn put(&mut self, p: &Vec<char>, path: String, r: usize)
        requires
            path@ == p@,
        ensures
            final(self)@ == put_record(old(self)@, p@, r),
            final(self).wf(),
    {
        proof {
            use_type_invariant(&*self);
            lemma_find_path(self@, p@);
            lemma_put_record(self@, p@, r);
        }
        let pos = self.position_of(p);
        let mut current = History::new();
        std::mem::swap(self, &mut current);
        let mut entries = current.entries;
        match pos {
            Some(i) => {
                entries[i] = FileEntry { path, rank: r };
            },
            None => {
                entries.push(FileEntry { path, rank: r });
            },
        }
        assert(entries@.map_values(|e: FileEntry| record_of(e)) =~= put_record(old(self)@, p@, r));
        let next = History { entries };
        *self = next;
    }
}

impl History {
    /// Reads one line of the history file into the history.
    fn read_line(&mut self, line: &Vec<char>)
        ensures
            final(self)@ == apply_line(old(self)@, line@),
            final(self).wf(),
    {
        proof {
            use_type_invariant(&*self);
            lemma_first_index(line@, '\t');
        }
        let n: usize = line.len();
        let mut k: usize = 0;
        while k < n && line[k] != '\t'
            invariant
                k <= n,
                n == line@.len(),
                forall|j: int| 0 <= j < k ==> line@[j] != '\t',
            decreases n - k,
        {
            k = k + 1;
        }
        if k == n {
            assert(first_index(line@, '\t') < 0);
            return ;
        }
        proof {
            lemma_first_index_at(line@, '\t', k as int);
        }
        let mut path: Vec<char> = Vec::new();
        let mut i: usize = 0;
        while i < k
            invariant
                i <= k < n,
                n == line@.len(),
                path@ =~= line@.take(i as int),
            decreases k - i,
        {
            path.push(line[i]);
            i = i + 1;
        }
        let mut digits: Vec<char> = Vec::new();
        let mut i: usize = k + 1;
        while i < n
            invariant
                k < i <= n,
                n == line@.len(),
                digits@ =~= line@.subrange(k + 1, i as int),
            decreases n - i,
        {
            digits.push(line[i]);
            i = i + 1;
        }
        assert(digits@ =~= line@.skip(k + 1));
        match parse_usize(&digits) {
            Some(r) => {
                let s = string_of(&path);
                self.put(&path, s, r);
            },
            None => {},
        }
    }
}

/// The history held by the text of a history file; lines that hold no
/// record are skipped.
pub fn parse_history(contents: &str) -> (r: History)
    ensures
        r@ == parsed(contents@),
        r.wf(),
{
    let t = chars_of(contents);
    let mut db = History::new();
    let mut line: Vec<char> = Vec::new();
    let n: usize = t.len();
    let mut i: usize = 0;
    assert(t@.skip(0) =~= t@);
    while i < n
        invariant
            i <= n,
            n == t@.len(),
            t@ == contents@,
            read_chars(db@, line@, t@.skip(i as int)) == parsed(contents@),
        decreases n - i,
    {
        let c = t[i];
        assert(t@.skip(i as int).drop_first() =~= t@.skip(i + 1));
        assert(t@.skip(i as int)[0] == c);
        if c == '\n' {
            let ghost whole = line@;
            let m = line.len();
            if m > 0 && line[m - 1] == '\r' {
                line.pop();
            }
            assert(line@ =~= strip_cr(whole));
            db.read_line(&line);
            line = Vec::new();
        } else {
            line.push(c);
        }
        i = i + 1;
    }
    assert(t@.skip(i as int) =~= Seq::<char>::empty());
    if line.len() > 0 {
        db.read_line(&line);
    }
    proof {
        use_type_invariant(&db);
    }
    db
}

/// The text of the history file for `db`: for each entry, in order, its
/// path, a tab, its rank in decimal and a newline.
pub fn render_history(db: &History) -> (r: String)
    ensures
        r@ == rendered(db@),
{
    let entries = db.entries();
    let mut out: Vec<char> = Vec::new();
    let mut i: usize = 0;
    assert(db@.take(0) =~= Seq::<(Seq<char>, usize)>::empty());
    while i < entries.len()
        invariant
            i <= entries@.len(),
            entries@.map_values(|e: FileEntry| record_of(e)) == db@,
            out@ == rendered(db@.take(i as int)),
        decreases entries@.len() - i,
    {
        let e = &entries[i];
        let p = chars_of(e.path.as_str());
        let d = decimal_chars(e.rank);
        let ghost before = out@;
        let mut k: usize = 0;
        while k < p.len()
            invariant
                k <= p@.len(),
                out@ == before + p@.take(k as int),
            decreases p@.len() - k,
        {
            out.push(p[k]);
            k = k + 1;
        }
        out.push('\t');
        let mut k: usize = 0;
        while k < d.len()
            invariant
                k <= d@.len(),
                out@ == before + p@ + seq!['\t'] + d@.take(k as int),
            decreases d@.len() - k,
        {
            out.push(d[k]);
            k = k + 1;
        }
        out.push('\n');
        proof {
            assert(db@[i as int] == record_of(entries@[i as int]));
            assert(db@.take(i + 1) =~= db@.take(i as int).push(db@[i as int]));
            lemma_rendered_push(db@.take(i as int), db@[i as int]);
            assert(out@ =~= before + entry_line(db@[i as int]));
        }
        i = i + 1;
    }
    assert(db@.take(i as int) =~= db@);
    string_of(&out)
}

/// What the entry `e` says of the query `q`: (exact match, substring match).
fn match_entry(e: &FileEntry, q: &Vec<char>) -> (r: (bool, bool))
    ensures
        r.0 == exact_match(e.path@, q@),
        r.1 == substring_match(e.path@, q@),
{
    let p = chars_of(e.path.as_str());
    match file_name_of(&p) {
        Some(n) => {
            let stem = stem_of(&n);
            let exact = same_chars(&stem, q);
            let sub = contains_chars(&stem, q) || contains_chars(&n, q);
            (exact, sub)
        },
        None => (false, false),
    }
}

/// The positions of the best exact match and of the best live substring
/// match of `q`, as `best_index` chooses them.
pub(crate) fn best_matches(db: &History, q: &Vec<char>, live: &Vec<bool>) -> (r: (
    Option<usize>,
    Option<usize>,
))
    requires
        live@.len() == db@.len(),
    ensures
        match r.0 {
            Some(b) => best_index(db@, exact_pick(db@, q@), db@.len() as int) == b,
            None => best_index(db@, exact_pick(db@, q@), db@.len() as int) == -1,
        },
        match r.1 {
            Some(b) => best_index(db@, live_substring_pick(db@, q@, live@), db@.len() as int)
                == b,
            None => best_index(db@, live_substring_pick(db@, q@, live@), db@.len() as int)
                == -1,
        },
{
    let entries = db.entries();
    let ghost s = db@;
    let mut best_exact: Option<usize> = None;
    let mut best_sub: Option<usize> = None;
    let mut i: usize = 0;
    while i < entries.len()
        invariant
            i <= entries@.len(),
            entries@.map_values(|e: FileEntry| record_of(e)) == s,
            s == db@,
            live@.len() == s.len(),
            match best_exact {
                Some(b) => best_index(s, exact_pick(s, q@), i as int) == b,
                None => best_index(s, exact_pick(s, q@), i as int) == -1,
            },
            match best_sub {
                Some(b) => best_index(s, live_substring_pick(s, q@, live@), i as int) == b,
                None => best_index(s, live_substring_pick(s, q@, live@), i as int) == -1,
            },
        decreases entries@.len() - i,
    {
        proof {
            lemma_best_index(s, exact_pick(s, q@), i as int);
            lemma_best_index(s, live_substring_pick(s, q@, live@), i as int);
        }
        let e = &entries[i];
        assert(s[i as int] == record_of(entries@[i as int]));
        let (exact, sub) = match_entry(e, q);
        if exact {
            match best_exact {
                Some(b) => {
                    if e.rank > entries[b].rank {
                        best_exact = Some(i);
                    }
                },
                None => {
                    best_exact = Some(i);
                },
            }
        }
        if sub && live[i] {
            match best_sub {
                Some(b) => {
                    if e.rank > entries[b].rank {
                        best_sub = Some(i);
                    }
                },
                None => {
                    best_sub = Some(i);
                },
            }
        }
        i = i + 1;
    }
    (best_exact, best_sub)
}

/// The path of the entry at `b`, a position that `best_index` gave.
fn path_at(db: &History, b: usize) -> (r: String)
    requires
        b < db@.len(),
    ensures
        r@ == db@[b as int].0,
{
    let entries = db.entries();
    assert(db@[b as int] == record_of(entries@[b as int]));
    entries[b].path.clone()
}

/// Resolves `query` by substring alone, as `ranked_substring` says.
pub(crate) fn substring_match_of(db: &History, query: &str, live: &Vec<bool>) -> (r: String)
    requires
        live@.len() == db@.len(),
    ensures
        r@ == ranked_substring(db@, query@, live@),
{
    let q = chars_of(query);
    let (_, best_sub) = best_matches(db, &q, live);
    proof {
        lemma_best_index(db@, live_substring_pick(db@, query@, live@), db@.len() as int);
    }
    match best_sub {
        Some(b) => path_at(db, b),
        None => query.to_owned(),
    }
}

/// Resolves `query` against the history, as `resolved` says. `query_exists`
/// tells whether the query names an existing path, and `live[i]` whether the
/// path of the `i`-th entry still exists. There is always an answer: at worst
/// the query itself.
pub fn find_best_match(db: &History, query: &str, query_exists: bool, live: &Vec<bool>) -> (r:
    Option<String>)
    requires
        live@.len() == db@.len(),
    ensures
        r matches Some(p) && p@ == resolved(db@, query@, query_exists, live@),
{
    if query_exists {
        return Some(query.to_owned());
    }
    let q = chars_of(query);
    let (best_exact, best_sub) = best_matches(db, &q, live);
    proof {
        lemma_best_index(db@, exact_pick(db@, query@), db@.len() as int);
        lemma_best_index(db@, live_substring_pick(db@, query@, live@), db@.len() as int);
    }
    match (best_exact, best_sub) {
        (Some(b), _) => Some(path_at(db, b)),
        (None, Some(b)) => Some(path_at(db, b)),
        (None, None) => Some(query.to_owned()),
    }
}

/// Records one opening of `path`, the canonical form of the file that was
/// opened, when `exists` tells that it exists on disk; otherwise leaves the
/// history as it was.
pub fn update_history(db: &mut History, path: &str, exists: bool)
    ensures
        final(db)@ == updated(old(db)@, path@, exists),
        final(db).wf(),
{
    proof {
        use_type_invariant(&*db);
    }
    if !exists {
        return ;
    }
    let p = chars_of(path);
    let pos = db.position_of(&p);
    proof {
        lemma_find_path(db@, path@);
    }
    let cur: usize = match pos {
        Some(i) => db.entries[i].rank,
        None => 0,
    };
    let next: usize = if cur < usize::MAX {
        cur + 1
    } else {
        usize::MAX
    };
    db.put(&p, path.to_owned(), next);
}

} // verus!

verus! {

/// A path that the history file can hold: it has no tab and no newline.
pub open spec fn path_storable(p: Seq<char>) -> bool {
    forall|j: int| 0 <= j < p.len() ==> #[trigger] p[j] != '\t' && p[j] != '\n'
}

/// Every path of `s` can be stored.
pub open spec fn storable(s: Seq<(Seq<char>, usize)>) -> bool {
    forall|i: int| 0 <= i < s.len() ==> path_storable(#[trigger] s[i].0)
}

proof fn lemma_read_segment(
    acc: Seq<(Seq<char>, usize)>,
    line: Seq<char>,
    seg: Seq<char>,
    rest: Seq<char>,
)
    requires
        forall|j: int| 0 <= j < seg.len() ==> #[trigger] seg[j] != '\n',
    ensures
        read_chars(acc, line, seg + rest) == read_chars(acc, line + seg, rest),
    decreases seg.len(),
{
    if seg.len() == 0 {
        assert(seg + rest =~= rest);
        assert(line + seg =~= line);
    } else {
        let t = seg + rest;
        assert(t[0] == seg[0]);
        assert(t.drop_first() =~= seg.drop_first() + rest);
        assert(line.push(seg[0]) + seg.drop_first() =~= line + seg);
        lemma_read_segment(acc, line.push(seg[0]), seg.drop_first(), rest);
    }
}

proof fn lemma_line_record(e: (Seq<char>, usize))
    requires
        path_storable(e.0),
    ensures
        line_record(e.0 + seq!['\t'] + decimal(e.1 as nat)) == Some(e),
        strip_cr(e.0 + seq!['\t'] + decimal(e.1 as nat)) == e.0 + seq!['\t'] + decimal(
            e.1 as nat,
        ),
{
    let d = decimal(e.1 as nat);
    let l = e.0 + seq!['\t'] + d;
    crate::text::lemma_decimal(e.1 as nat);
    crate::text::lemma_parse_decimal(e.1);
    assert forall|j: int| 0 <= j < e.0.len() implies l[j] != '\t' by {
        assert(l[j] == e.0[j]);
    }
    lemma_first_index_at(l, '\t', e.0.len() as int);
    assert(l.skip(e.0.len() + 1 as int) =~= d);
    assert(l.take(e.0.len() as int) =~= e.0);
    assert(l.last() == d[d.len() - 1]);
    assert(crate::text::is_digit(d[d.len() - 1]));
}

proof fn lemma_read_rendered(acc: Seq<(Seq<char>, usize)>, s: Seq<(Seq<char>, usize)>)
    requires
        unique_paths(acc + s),
        storable(s),
    ensures
        read_chars(acc, Seq::empty(), rendered(s)) == acc + s,
    decreases s.len(),
{
    if s.len() == 0 {
        assert(acc + s =~= acc);
    } else {
        let e = s[0];
        let l = e.0 + seq!['\t'] + decimal(e.1 as nat);
        let r = rendered(s.drop_first());
        assert(path_storable(e.0));
        crate::text::lemma_decimal(e.1 as nat);
        assert forall|j: int| 0 <= j < l.len() implies #[trigger] l[j] != '\n' by {
            if j < e.0.len() {
                assert(l[j] == e.0[j]);
            } else if j > e.0.len() {
                assert(l[j] == decimal(e.1 as nat)[j - e.0.len() - 1]);
                assert(crate::text::is_digit(decimal(e.1 as nat)[j - e.0.len() - 1]));
            }
        }
        assert(rendered(s) =~= l + (seq!['\n'] + r));
        lemma_read_segment(acc, Seq::empty(), l, seq!['\n'] + r);
        assert(Seq::<char>::empty() + l =~= l);
        assert((seq!['\n'] + r).drop_first() =~= r);
        lemma_line_record(e);
        lemma_find_path(acc, e.0);
        assert forall|j: int| 0 <= j < acc.len() implies #[trigger] acc[j].0 != e.0 by {
            assert((acc + s)[j] == acc[j]);
            assert((acc + s)[acc.len() as int] == e);
        }
        let acc2 = acc.push(e);
        assert(acc2 + s.drop_first() =~= acc + s);
        lemma_read_rendered(acc2, s.drop_first());
    }
}

/// Reading back what was written gives the same history, and writing that
/// again gives the same text: for a history without repeated paths whose
/// paths hold no tab and no newline.
pub proof fn lemma_round_trip(s: Seq<(Seq<char>, usize)>)
    requires
        unique_paths(s),
        storable(s),
    ensures
        parsed(rendered(s)) == s,
        rendered(parsed(rendered(s))) == rendered(s),
{
    assert(Seq::<(Seq<char>, usize)>::empty() + s =~= s);
    lemma_read_rendered(Seq::empty(), s);
}

/// Recording an opening of an existing file, then writing and reading back
/// the history, shows that file's rank one higher than before (for a rank
/// below `usize::MAX`, where ranks stop growing), and every other path with
/// the rank it had.
pub proof fn lemma_increment_reload(s: Seq<(Seq<char>, usize)>, p: Seq<char>)
    requires
        unique_paths(s),
        storable(s),
        path_storable(p),
        rank_of(s, p) < usize::MAX,
    ensures
        rank_of(parsed(rendered(updated(s, p, true))), p) == rank_of(s, p) + 1,
        forall|k: Seq<char>|
            k != p ==> #[trigger] rank_of(parsed(rendered(updated(s, p, true))), k) == rank_of(
                s,
                k,
            ),
{
    let t = updated(s, p, true);
    let cur = rank_of(s, p);
    lemma_put_record(s, p, (cur + 1) as usize);
    lemma_find_path(s, p);
    assert forall|i: int| 0 <= i < t.len() implies path_storable(#[trigger] t[i].0) by {
        if i < s.len() && t[i] == s[i] {
            assert(path_storable(s[i].0));
        }
    }
    lemma_round_trip(t);
    assert forall|k: Seq<char>| k != p implies #[trigger] rank_of(t, k) == rank_of(s, k) by {
        lemma_put_record_other(s, p, (cur + 1) as usize, k);
    }
}

/// Recording an opening of a path that does not exist leaves the history,
/// and so the text written for it, as they were.
pub proof fn lemma_absent_path_unchanged(s: Seq<(Seq<char>, usize)>, p: Seq<char>)
    ensures
        updated(s, p, false) == s,
        rendered(updated(s, p, false)) == rendered(s),
        parsed(rendered(updated(s, p, false))) == parsed(rendered(s)),
{
}

/// A query that names an existing path resolves to itself, whatever the
/// history holds.
pub proof fn lemma_existing_query(s: Seq<(Seq<char>, usize)>, q: Seq<char>, live: Seq<bool>)
    ensures
        resolved(s, q, true, live) == q,
{
}

/// Where some record's file stem equals the query, the query resolves to
/// such a record, the highest ranked of them, even where records that only
/// contain the query rank higher.
pub proof fn lemma_exact_first(s: Seq<(Seq<char>, usize)>, q: Seq<char>, live: Seq<bool>)
    requires
        exists|i: int| 0 <= i < s.len() && exact_match(#[trigger] s[i].0, q),
    ensures
        exists|k: int|
            0 <= k < s.len() && resolved(s, q, false, live) == s[k].0 && exact_match(
                #[trigger] s[k].0,
                q,
            ) && forall|j: int|
                0 <= j < s.len() && exact_match(#[trigger] s[j].0, q) ==> s[j].1 <= s[k].1,
{
    let pick = exact_pick(s, q);
    lemma_best_index(s, pick, s.len() as int);
    let i = choose|i: int| 0 <= i < s.len() && exact_match(#[trigger] s[i].0, q);
    assert(pick(i));
    let k = best_index(s, pick, s.len() as int);
    assert(k >= 0);
    assert forall|j: int| 0 <= j < s.len() && exact_match(#[trigger] s[j].0, q) implies s[j].1
        <= s[k].1 by {
        assert(pick(j));
    }
    assert(exact_match(s[k].0, q));
}

/// With no record whose stem equals the query, and some record still on
/// disk whose file name contains it, the query resolves to such a record of
/// the highest rank among them.
pub proof fn lemma_highest_rank_wins(s: Seq<(Seq<char>, usize)>, q: Seq<char>, live: Seq<bool>)
    requires
        live.len() == s.len(),
        forall|i: int| 0 <= i < s.len() ==> !exact_match(#[trigger] s[i].0, q),
        exists|i: int| 0 <= i < s.len() && live[i] && substring_match(#[trigger] s[i].0, q),
    ensures
        exists|k: int|
            0 <= k < s.len() && resolved(s, q, false, live) == s[k].0 && live[k]
                && substring_match(#[trigger] s[k].0, q) && forall|j: int|
                0 <= j < s.len() && live[j] && substring_match(#[trigger] s[j].0, q) ==> s[j].1
                    <= s[k].1,
{
    let ep = exact_pick(s, q);
    let sp = live_substring_pick(s, q, live);
    lemma_best_index(s, ep, s.len() as int);
    lemma_best_index(s, sp, s.len() as int);
    if best_index(s, ep, s.len() as int) >= 0 {
        let b = best_index(s, ep, s.len() as int);
        assert(ep(b));
        assert(!exact_match(s[b].0, q));
    }
    let i = choose|i: int| 0 <= i < s.len() && live[i] && substring_match(#[trigger] s[i].0, q);
    assert(sp(i));
    let k = best_index(s, sp, s.len() as int);
    assert forall|j: int|
        0 <= j < s.len() && live[j] && substring_match(#[trigger] s[j].0, q) implies s[j].1
        <= s[k].1 by {
        assert(sp(j));
    }
    assert(sp(k));
}

/// A query that names no existing path, and that no record matches, resolves
/// to itself.
pub proof fn lemma_no_match(s: Seq<(Seq<char>, usize)>, q: Seq<char>, live: Seq<bool>)
    requires
        live.len() == s.len(),
        forall|i: int| 0 <= i < s.len() ==> !exact_match(#[trigger] s[i].0, q),
        forall|i: int| 0 <= i < s.len() && live[i] ==> !substring_match(#[trigger] s[i].0, q),
    ensures
        resolved(s, q, false, live) == q,
{
    let ep = exact_pick(s, q);
    let sp = live_substring_pick(s, q, live);
    lemma_best_index(s, ep, s.len() as int);
    lemma_best_index(s, sp, s.len() as int);
    if best_index(s, ep, s.len() as int) >= 0 {
        let b = best_index(s, ep, s.len() as int);
        assert(ep(b));
    }
    if best_index(s, sp, s.len() as int) >= 0 {
        let b = best_index(s, sp, s.len() as int);
        assert(sp(b));
    }
}

} // verus!
