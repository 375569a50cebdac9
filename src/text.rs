//! Character-level helpers on strings.

use vstd::prelude::*;

verus! {

/// Whether `a` and `b` hold the same characters.
pub fn str_equal(a: &str, b: &str) -> (r: bool)
    ensures
        r == (a@ == b@),
{
    let n = a.unicode_len();
    if n != b.unicode_len() {
        return false;
    }
    let mut i: usize = 0;
    while i < n
        invariant
            n == a@.len(),
            n == b@.len(),
            i <= n,
            forall|j: int| 0 <= j < i ==> a@[j] == b@[j],
        decreases n - i,
    {
        if a.get_char(i) != b.get_char(i) {
            return false;
        }
        i = i + 1;
    }
    assert(a@ =~= b@);
    true
}

/// The characters of `s`.
pub fn chars_of(s: &str) -> (r: Vec<char>)
    ensures
        r@ == s@,
{
    let n = s.unicode_len();
    let mut r: Vec<char> = Vec::new();
    let mut i: usize = 0;
    while i < n
        invariant
            n == s@.len(),
            i <= n,
            r@ == s@.subrange(0, i as int),
        decreases n - i,
    {
        r.push(s.get_char(i));
        i = i + 1;
        assert(r@ =~= s@.subrange(0, i as int));
    }
    assert(r@ =~= s@);
    r
}

} // verus!

verus! {

/// `t` occurs in `s` at index `i`.
pub open spec fn occurs_at(s: Seq<char>, t: Seq<char>, i: int) -> bool {
    0 <= i && i + t.len() <= s.len() && s.subrange(i, i + t.len()) == t
}

/// `t` occurs somewhere in `s`.
pub open spec fn has_sub(s: Seq<char>, t: Seq<char>) -> bool {
    exists|i: int| occurs_at(s, t, i)
}

/// Whether `t` occurs in `s` at index `i`.
pub fn occurs_at_exec(s: &Vec<char>, t: &Vec<char>, i: usize) -> (r: bool)
    ensures
        r == occurs_at(s@, t@, i as int),
{
    if i > s.len() || t.len() > s.len() - i {
        return false;
    }
    let n = s.len();
    let mut k: usize = 0;
    while k < t.len()
        invariant
            n == s@.len(),
            i + t@.len() <= s@.len(),
            k <= t@.len(),
            forall|x: int| 0 <= x < k ==> s@[i + x] == t@[x],
        decreases t@.len() - k,
    {
        if s[i + k] != t[k] {
            assert(s@.subrange(i as int, i + t@.len())[k as int] != t@[k as int]);
            return false;
        }
        k = k + 1;
    }
    assert(s@.subrange(i as int, i + t@.len()) =~= t@);
    true
}

/// Whether `t` occurs in `s`.
pub fn contains_seq(s: &Vec<char>, t: &Vec<char>) -> (r: bool)
    ensures
        r == has_sub(s@, t@),
{
    let mut i: usize = 0;
    while i < s.len()
        invariant
            i <= s@.len(),
            forall|x: int| 0 <= x < i ==> !occurs_at(s@, t@, x),
        decreases s@.len() - i,
    {
        if occurs_at_exec(s, t, i) {
            return true;
        }
        i = i + 1;
    }
    if occurs_at_exec(s, t, i) {
        return true;
    }
    assert forall|x: int| !occurs_at(s@, t@, x) by {
        if x > i {
            assert(x + t@.len() > s@.len());
        }
    }
    false
}

/// The pieces of `s` between occurrences of `c`, as `str::split` gives them.
pub open spec fn split_char(s: Seq<char>, c: char) -> Seq<Seq<char>>
    decreases s.len(),
{
    if s.len() == 0 {
        seq![Seq::<char>::empty()]
    } else {
        let rest = split_char(s.drop_first(), c);
        if s[0] == c {
            seq![Seq::<char>::empty()] + rest
        } else {
            rest.update(0, seq![s[0]] + rest[0])
        }
    }
}

/// Bounds of the pieces of `v[i..]` split at `c`, as index pairs into `v`.
pub fn split_bounds(v: &Vec<char>, c: char, i: usize) -> (r: Vec<(usize, usize)>)
    requires
        i <= v@.len(),
    ensures
        r@.len() == split_char(v@.subrange(i as int, v@.len() as int), c).len(),
        r@.len() >= 1,
        r@[0].0 == i,
        forall|k: int|
            0 <= k < r@.len() ==> i <= (#[trigger] r@[k]).0 <= r@[k].1 <= v@.len() && v@.subrange(
                r@[k].0 as int,
                r@[k].1 as int,
            ) == split_char(v@.subrange(i as int, v@.len() as int), c)[k],
    decreases v@.len() - i,
{
    let ghost s = v@.subrange(i as int, v@.len() as int);
    if i == v.len() {
        let mut r: Vec<(usize, usize)> = Vec::new();
        r.push((i, i));
        assert(s =~= Seq::<char>::empty());
        assert(v@.subrange(i as int, i as int) =~= Seq::<char>::empty());
        return r;
    }
    let mut rest = split_bounds(v, c, i + 1);
    let ghost rs = split_char(v@.subrange(i + 1, v@.len() as int), c);
    assert(s.drop_first() =~= v@.subrange(i + 1, v@.len() as int));
    assert(s[0] == v@[i as int]);
    if v[i] == c {
        rest.insert(0, (i, i));
        assert(v@.subrange(i as int, i as int) =~= Seq::<char>::empty());
        assert forall|k: int| 0 <= k < rest@.len() implies i <= (#[trigger] rest@[k]).0 <= rest@[k].1
            <= v@.len() && v@.subrange(rest@[k].0 as int, rest@[k].1 as int) == split_char(s, c)[k] by {
            if k > 0 {
                assert(split_char(s, c)[k] == rs[k - 1]);
            }
        }
        rest
    } else {
        let (_, e) = rest[0];
        rest.set(0, (i, e));
        assert(v@.subrange(i as int, e as int) =~= seq![v@[i as int]] + v@.subrange(i + 1, e as int));
        assert forall|k: int| 0 <= k < rest@.len() implies i <= (#[trigger] rest@[k]).0 <= rest@[k].1
            <= v@.len() && v@.subrange(rest@[k].0 as int, rest@[k].1 as int) == split_char(s, c)[k] by {
        }
        rest
    }
}

} // verus!
