use vstd::prelude::*;

verus! {

/// Whether `p` ends in a separator or in a `.` component after one.
pub open spec fn ends_in_separator_or_dot(p: Seq<char>) -> bool {
    (p.len() > 0 && p.last() == '/') || (p.len() >= 2 && p.last() == '.' && p[p.len() - 2] == '/')
}

/// `p` without its trailing separators and the `.` components among them,
/// which name no file of their own.
pub open spec fn trim_tail(p: Seq<char>) -> Seq<char>
    decreases p.len(),
{
    if ends_in_separator_or_dot(p) {
        trim_tail(p.drop_last())
    } else {
        p
    }
}

/// What follows the last `/` of `t` (all of `t` when it holds none).
pub open spec fn last_segment(t: Seq<char>) -> Seq<char>
    decreases t.len(),
{
    if t.len() == 0 {
        t
    } else if t.last() == '/' {
        Seq::empty()
    } else {
        last_segment(t.drop_last()).push(t.last())
    }
}

/// The final component of a path: its last `/`-separated segment, trailing
/// separators and `.` components ignored; none when that segment is empty,
/// `.` or `..`. This is what `std::path::Path::file_name` gives.
pub open spec fn file_name(p: Seq<char>) -> Option<Seq<char>> {
    let seg = last_segment(trim_tail(p));
    if seg.len() == 0 || seg == seq!['.'] || seg == seq!['.', '.'] {
        None
    } else {
        Some(seg)
    }
}

/// The position of the last `.` in `s`, or -1.
pub open spec fn last_dot(s: Seq<char>) -> int
    decreases s.len(),
{
    if s.len() == 0 {
        -1
    } else if s.last() == '.' {
        s.len() - 1
    } else {
        last_dot(s.drop_last())
    }
}

/// A file name without its extension: what stands before the last `.`,
/// unless that `.` is the first character or there is none.
pub open spec fn stem_of_name(name: Seq<char>) -> Seq<char> {
    let k = last_dot(name);
    if k <= 0 {
        name
    } else {
        name.take(k)
    }
}

/// The final component of a path without its extension.
pub open spec fn file_stem(p: Seq<char>) -> Option<Seq<char>> {
    match file_name(p) {
        Some(n) => Some(stem_of_name(n)),
        None => None,
    }
}

/// Computes `file_name`.
pub fn file_name_of(p: &Vec<char>) -> (r: Option<Vec<char>>)
    ensures
        r matches Some(v) ==> file_name(p@) == Some(v@),
        r is None ==> file_name(p@) is None,
{
    let mut end: usize = p.len();
    assert(p@.take(end as int) =~= p@);
    while end > 0 && (p[end - 1] == '/' || (end >= 2 && p[end - 1] == '.' && p[end - 2] == '/'))
        invariant
            end <= p@.len(),
            trim_tail(p@) == trim_tail(p@.take(end as int)),
        decreases end,
    {
        assert(p@.take(end as int).drop_last() =~= p@.take(end - 1));
        end = end - 1;
    }
    assert(trim_tail(p@.take(end as int)) == p@.take(end as int));
    let mut start: usize = end;
    while start > 0 && p[start - 1] != '/'
        invariant
            start <= end <= p@.len(),
            last_segment(p@.take(end as int)) == last_segment(p@.take(start as int)) + p@.subrange(
                start as int,
                end as int,
            ),
        decreases start,
    {
        assert(p@.take(start as int).drop_last() =~= p@.take(start - 1));
        assert(p@.subrange(start - 1, end as int) =~= p@.subrange(start as int, end as int).insert(
            0,
            p@[start - 1],
        ));
        assert(last_segment(p@.take(start - 1)) + p@.subrange(start - 1, end as int) =~= last_segment(
            p@.take(start - 1),
        ).push(p@[start - 1]) + p@.subrange(start as int, end as int));
        start = start - 1;
    }
    assert(last_segment(p@.take(start as int)) =~= Seq::<char>::empty());
    let mut seg: Vec<char> = Vec::new();
    let mut i: usize = start;
    while i < end
        invariant
            start <= i <= end <= p@.len(),
            seg@ =~= p@.subrange(start as int, i as int),
        decreases end - i,
    {
        seg.push(p[i]);
        i = i + 1;
    }
    assert(seg@ =~= last_segment(trim_tail(p@)));
    let n = seg.len();
    if n == 0 || (n == 1 && seg[0] == '.') || (n == 2 && seg[0] == '.' && seg[1] == '.') {
        assert(n == 1 && seg[0] == '.' ==> seg@ =~= seq!['.']);
        assert(n == 2 && seg[0] == '.' && seg[1] == '.' ==> seg@ =~= seq!['.', '.']);
        None
    } else {
        Some(seg)
    }
}

/// Computes `stem_of_name`.
pub fn stem_of(name: &Vec<char>) -> (r: Vec<char>)
    ensures
        r@ == stem_of_name(name@),
{
    let mut k: usize = name.len();
    assert(name@.take(k as int) =~= name@);
    while k > 0 && name[k - 1] != '.'
        invariant
            k <= name@.len(),
            last_dot(name@) == last_dot(name@.take(k as int)),
        decreases k,
    {
        assert(name@.take(k as int).drop_last() =~= name@.take(k - 1));
        k = k - 1;
    }
    if k <= 1 {
        proof {
            if k == 1 {
                assert(name@.take(1).last() == '.');
            }
        }
        let mut all: Vec<char> = Vec::new();
        let mut i: usize = 0;
        while i < name.len()
            invariant
                i <= name@.len(),
                all@ =~= name@.take(i as int),
            decreases name@.len() - i,
        {
            all.push(name[i]);
            i = i + 1;
        }
        assert(all@ =~= name@);
        all
    } else {
        assert(last_dot(name@.take(k as int)) == k - 1);
        let mut head: Vec<char> = Vec::new();
        let mut i: usize = 0;
        while i < k - 1
            invariant
                i <= k - 1,
                k <= name@.len(),
                head@ =~= name@.take(i as int),
            decreases k - 1 - i,
        {
            head.push(name[i]);
            i = i + 1;
        }
        head
    }
}

} // verus!
