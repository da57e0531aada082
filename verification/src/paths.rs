//! Unix path rules on paths held as text.
use vstd::prelude::*;

use crate::strings::chars_of;

verus! {

/// A path is absolute when it starts at the root, `/` (`Path::is_absolute`
/// on Unix).
pub open spec fn is_absolute(p: Seq<char>) -> bool {
    p.len() > 0 && p[0] == '/'
}

/// `base` joined with `p`, as `Path::join` does on Unix: an absolute `p`
/// replaces `base`; otherwise `p` is appended, with a `/` between the two
/// unless `base` is empty or already ends with one.
pub open spec fn join(base: Seq<char>, p: Seq<char>) -> Seq<char> {
    if is_absolute(p) {
        p
    } else if base.len() > 0 && base.last() != '/' {
        base + seq!['/'] + p
    } else {
        base + p
    }
}

/// Whether a path is absolute.
pub fn path_is_absolute(p: &str) -> (r: bool)
    ensures
        r == is_absolute(p@),
{
    p.unicode_len() > 0 && p.get_char(0) == '/'
}

/// `base` joined with `p`.
pub fn join_path(base: &str, p: &str) -> (r: String)
    ensures
        r@ == join(base@, p@),
{
    if path_is_absolute(p) {
        return String::from_str(p);
    }
    let n = base.unicode_len();
    let s = String::from_str(base);
    if n > 0 && base.get_char(n - 1) != '/' {
        let s = s.concat("/");
        proof {
            reveal_strlit("/");
        }
        let r = s.concat(p);
        assert(r@ =~= join(base@, p@));
        r
    } else {
        let r = s.concat(p);
        assert(r@ =~= join(base@, p@));
        r
    }
}

/// How a path component moves a walk down from where it stands: `..` goes
/// up one directory, an empty component or `.` stays, any other name goes
/// down one.
pub open spec fn component_step(c: Seq<char>) -> int {
    if c.len() == 2 && c[0] == '.' && c[1] == '.' {
        -1
    } else if c.len() == 0 || (c.len() == 1 && c[0] == '.') {
        0
    } else {
        1
    }
}

/// The walk along the first `n` characters of the relative path `p`, read
/// component by component: the depth reached below the starting directory
/// by the components ended so far, the component being read, and whether
/// the walk ever went above the starting directory.
pub open spec fn climb(p: Seq<char>, n: int) -> (int, Seq<char>, bool)
    decreases n,
{
    if n <= 0 {
        (0, Seq::empty(), false)
    } else {
        let (d, c, up) = climb(p, n - 1);
        if p[n - 1] == '/' {
            let d2 = d + component_step(c);
            (d2, Seq::empty(), up || d2 < 0)
        } else {
            (d, c.push(p[n - 1]), up)
        }
    }
}

/// Whether the relative path `p`, normalised component by component, leaves
/// the directory it starts from: some prefix of it climbs above that
/// directory with `..` (as `a/../..` and `../b` do, while `a/../b` stays).
pub open spec fn leaves_base(p: Seq<char>) -> bool {
    let (d, c, up) = climb(p, p.len() as int);
    up || d + component_step(c) < 0
}

proof fn lemma_climb_up_stays(p: Seq<char>, k: int, m: int)
    requires
        0 <= k <= m,
        climb(p, k).2,
    ensures
        climb(p, m).2,
    decreases m - k,
{
    if k < m {
        lemma_climb_up_stays(p, k, m - 1);
    }
}

/// How the component `v[lo..hi]` moves a walk.
fn step_of(v: &Vec<char>, lo: usize, hi: usize) -> (r: i8)
    requires
        lo <= hi <= v@.len(),
    ensures
        r == component_step(v@.subrange(lo as int, hi as int)),
{
    let n = hi - lo;
    if n == 2 && v[lo] == '.' && v[lo + 1] == '.' {
        -1
    } else if n == 0 || (n == 1 && v[lo] == '.') {
        0
    } else {
        1
    }
}

/// Whether the relative path `p` leaves the directory it starts from.
pub fn path_leaves_base(p: &str) -> (r: bool)
    ensures
        r == leaves_base(p@),
{
    let v = chars_of(p);
    let n = v.len();
    let mut depth: usize = 0;
    let mut start: usize = 0;
    let mut i: usize = 0;
    while i < n
        invariant
            n == v@.len(),
            v@ == p@,
            start <= i <= n,
            depth <= i,
            climb(p@, i as int) == (depth as int, p@.subrange(start as int, i as int), false),
        decreases n - i,
    {
        if v[i] == '/' {
            let s = step_of(&v, start, i);
            if s < 0 && depth == 0 {
                proof {
                    lemma_climb_up_stays(p@, i + 1, p@.len() as int);
                }
                return true;
            }
            if s < 0 {
                depth = depth - 1;
            } else if s > 0 {
                depth = depth + 1;
            }
            start = i + 1;
            proof {
                assert(p@.subrange(start as int, i + 1) =~= Seq::<char>::empty());
            }
        } else {
            proof {
                assert(p@.subrange(start as int, i + 1) =~= p@.subrange(start as int, i as int).push(p@[i as int]));
            }
        }
        i = i + 1;
    }
    let s = step_of(&v, start, n);
    s < 0 && depth == 0
}

} // verus!
