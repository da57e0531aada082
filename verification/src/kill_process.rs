//! Ending a task's process: the ids of its children, read from the listing
//! `ps -o pid= --ppid <pid>` prints, are killed before the process itself.
use vstd::prelude::*;

use crate::env::{find_char_in, strip_cr, text_lines};
use crate::strings::{chars_of, first_index_of, lemma_first_index_of, trim, trim_bounds};

verus! {

/// An ASCII decimal digit.
pub open spec fn is_digit(c: char) -> bool {
    '0' <= c && c <= '9'
}

/// The number the ASCII decimal digits `s` stand for.
pub open spec fn digits_value(s: Seq<char>) -> nat
    decreases s.len(),
{
    if s.len() == 0 {
        0
    } else {
        digits_value(s.drop_last()) * 10 + ((s.last() as u32) - ('0' as u32)) as nat
    }
}

/// One or more ASCII digits whose value fits in a `u32`: that value.
pub open spec fn digits_parse(d: Seq<char>) -> Option<u32> {
    if d.len() > 0 && (forall|i: int| 0 <= i < d.len() ==> is_digit(#[trigger] d[i])) && digits_value(d)
        <= u32::MAX {
        Some(digits_value(d) as u32)
    } else {
        None
    }
}

/// `str::parse::<u32>`: an optional `+`, then one or more ASCII digits whose
/// value fits in a `u32`.
pub open spec fn parse_u32(s: Seq<char>) -> Option<u32> {
    digits_parse(
        if s.len() > 0 && s[0] == '+' {
            s.drop_first()
        } else {
            s
        },
    )
}

/// The process ids of a listing: each line, trimmed, that parses as a
/// `u32`, in order; other lines are skipped.
pub open spec fn listed_pids(lines: Seq<Seq<char>>) -> Seq<u32>
    decreases lines.len(),
{
    if lines.len() == 0 {
        Seq::empty()
    } else {
        let rest = listed_pids(lines.drop_first());
        match parse_u32(trim(lines[0])) {
            Some(p) => seq![p] + rest,
            None => rest,
        }
    }
}

proof fn lemma_digits_value_grows(s: Seq<char>, k: int)
    requires
        0 <= k <= s.len(),
        forall|i: int| 0 <= i < s.len() ==> is_digit(#[trigger] s[i]),
    ensures
        digits_value(s.take(k)) <= digits_value(s),
    decreases s.len() - k,
{
    if k < s.len() {
        assert(s.drop_last().take(k) =~= s.take(k)) by {
            assert(k <= s.drop_last().len());
        }
        if k < s.len() - 1 {
            lemma_digits_value_grows(s.drop_last(), k);
        } else {
            assert(s.drop_last() =~= s.take(k));
        }
        assert(is_digit(s.last()));
    } else {
        assert(s.take(k) =~= s);
    }
}

/// Parses `v[from..to]` as `str::parse::<u32>` does.
pub(crate) fn parse_u32_at(v: &Vec<char>, from: usize, to: usize) -> (r: Option<u32>)
    requires
        from <= to <= v.len(),
    ensures
        r == parse_u32(v@.subrange(from as int, to as int)),
{
    let ghost s = v@.subrange(from as int, to as int);
    let mut start = from;
    if start < to && v[start] == '+' {
        start = start + 1;
    }
    let ghost d = v@.subrange(start as int, to as int);
    proof {
        if from < to && v@[from as int] == '+' {
            assert(d =~= s.drop_first());
        } else {
            assert(d =~= s);
        }
    }
    assert(d == (if s.len() > 0 && s[0] == '+' {
        s.drop_first()
    } else {
        s
    }));
    if start == to {
        return None;
    }
    let mut value: u64 = 0;
    let mut i = start;
    while i < to
        invariant
            start <= i <= to <= v.len(),
            d == v@.subrange(start as int, to as int),
            parse_u32(v@.subrange(from as int, to as int)) == digits_parse(d),
            forall|j: int| start <= j < i ==> is_digit(v@[j]),
            value == digits_value(v@.subrange(start as int, i as int)),
            value <= u32::MAX,
        decreases to - i,
    {
        let c = v[i];
        if !('0' <= c && c <= '9') {
            proof {
                assert(d[i - start] == c);
            }
            return None;
        }
        let digit = (c as u32 - '0' as u32) as u64;
        let next = value * 10 + digit;
        proof {
            let t = v@.subrange(start as int, i + 1);
            assert(t.drop_last() =~= v@.subrange(start as int, i as int));
            assert(t.last() == c);
        }
        if next > 0xffff_ffff {
            proof {
                let t = v@.subrange(start as int, i + 1);
                if forall|j: int| 0 <= j < d.len() ==> is_digit(#[trigger] d[j]) {
                    assert(d.take(i + 1 - start) =~= t);
                    lemma_digits_value_grows(d, i + 1 - start);
                }
            }
            return None;
        }
        value = next;
        i = i + 1;
    }
    proof {
        assert(v@.subrange(start as int, i as int) =~= d);
        assert forall|j: int| 0 <= j < d.len() implies is_digit(#[trigger] d[j]) by {
            assert(d[j] == v@[start + j]);
        }
    }
    Some(value as u32)
}

/// The process ids listed in `output`, one per line: each line is trimmed
/// and kept when it parses as a `u32`; other lines are skipped.
pub fn child_pids(output: &str) -> (r: Vec<u32>)
    ensures
        r@ == listed_pids(text_lines(output@)),
{
    let v = chars_of(output);
    let n = v.len();
    let mut pids: Vec<u32> = Vec::new();
    let mut pos: usize = 0;
    proof {
        assert(v@.skip(0) =~= v@);
    }
    while pos < n
        invariant
            n == v@.len(),
            v@ == output@,
            pos <= n,
            pids@ + listed_pids(text_lines(v@.skip(pos as int))) == listed_pids(text_lines(output@)),
        decreases n - pos,
    {
        let ghost rest = v@.skip(pos as int);
        let nl = find_char_in(&v, '\n', pos, n);
        proof {
            assert(v@.subrange(pos as int, n as int) =~= rest);
            lemma_first_index_of(rest, '\n');
        }
        let mut end = nl;
        if nl < n && end > pos && v[end - 1] == '\r' {
            end = end - 1;
        }
        let ghost first = if nl < n {
            strip_cr(rest.take(nl - pos))
        } else {
            rest
        };
        proof {
            assert(v@.subrange(pos as int, end as int) =~= first) by {
                if nl < n {
                    if nl > pos {
                        assert(rest.take(nl - pos).last() == v@[nl - 1]);
                    }
                } else {
                    assert(rest =~= v@.subrange(pos as int, n as int));
                }
            }
            assert(text_lines(rest)[0] == first);
            if nl < n {
                assert(first_index_of(rest, '\n') == nl - pos);
                assert(rest.skip(nl - pos + 1) =~= v@.skip(nl + 1));
                assert(text_lines(rest).drop_first() =~= text_lines(v@.skip(nl + 1)));
            } else {
                assert(text_lines(rest).drop_first() =~= text_lines(v@.skip(n as int)));
            }
        }
        let (lo, hi) = trim_bounds(&v, pos, end);
        let ghost before = pids@;
        match parse_u32_at(&v, lo, hi) {
            Some(p) => {
                pids.push(p);
                proof {
                    assert(pids@ + listed_pids(text_lines(rest).drop_first()) =~= before + listed_pids(text_lines(rest)));
                }
            },
            None => {},
        }
        pos = if nl < n {
            nl + 1
        } else {
            n
        };
    }
    proof {
        assert(v@.skip(n as int) =~= Seq::<char>::empty());
        assert(text_lines(v@.skip(n as int)) =~= Seq::<Seq<char>>::empty());
        assert(pids@ + Seq::<u32>::empty() =~= pids@);
    }
    pids
}

} // verus!
