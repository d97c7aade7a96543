//! Text maps: one grid row per non-empty line, the last line being `y == 0`.
use vstd::prelude::*;
use crate::bindings::chars_of;

verus! {

/// A line without the carriage return that may end it.
pub open spec fn strip_cr(l: Seq<char>) -> Seq<char> {
    if l.len() > 0 && l.last() == '\r' {
        l.drop_last()
    } else {
        l
    }
}

/// The non-empty lines of `s`, split at `'\n'` with a `'\r'` before the
/// `'\n'` dropped, when `cur` holds the line begun before `s`.
pub open spec fn rows_from(s: Seq<char>, cur: Seq<char>) -> Seq<Seq<char>>
    decreases s.len(),
{
    if s.len() == 0 {
        if cur.len() == 0 {
            seq![]
        } else {
            seq![cur]
        }
    } else if s[0] == '\n' {
        if strip_cr(cur).len() == 0 {
            rows_from(s.drop_first(), seq![])
        } else {
            seq![strip_cr(cur)] + rows_from(s.drop_first(), seq![])
        }
    } else {
        rows_from(s.drop_first(), cur.push(s[0]))
    }
}

/// The non-empty lines of a text.
pub open spec fn text_rows(s: Seq<char>) -> Seq<Seq<char>> {
    rows_from(s, seq![])
}

/// The length of the longest row.
pub open spec fn max_len(rows: Seq<Seq<char>>) -> int
    decreases rows.len(),
{
    if rows.len() == 0 {
        0
    } else {
        let m = max_len(rows.drop_last());
        if rows.last().len() > m {
            rows.last().len() as int
        } else {
            m
        }
    }
}

/// The character drawn at cell `(x, y)` of a text map with these rows, if
/// its row reaches that far.
pub open spec fn cell_char(rows: Seq<Seq<char>>, x: int, y: int) -> Option<char> {
    let k = rows.len() - 1 - y;
    if 0 <= k < rows.len() && 0 <= x < rows[k].len() {
        Some(rows[k][x])
    } else {
        None
    }
}

pub open spec fn rows_view(rows: Seq<Vec<char>>) -> Seq<Seq<char>> {
    rows.map_values(|r: Vec<char>| r@)
}

pub(crate) proof fn lemma_max_len(rows: Seq<Seq<char>>)
    ensures
        forall|k: int| 0 <= k < rows.len() ==> #[trigger] rows[k].len() <= max_len(rows),
        max_len(rows) >= 0,
        rows.len() > 0 ==> exists|k: int| 0 <= k < rows.len() && #[trigger] rows[k].len() == max_len(rows),
    decreases rows.len(),
{
    if rows.len() > 0 {
        lemma_max_len(rows.drop_last());
        if rows.len() > 1 && max_len(rows.drop_last()) >= rows.last().len() {
            let k = choose|k: int| 0 <= k < rows.drop_last().len() && #[trigger] rows.drop_last()[k].len()
                == max_len(rows.drop_last());
            assert(rows[k].len() == max_len(rows));
        } else {
            assert(rows[rows.len() - 1].len() <= max_len(rows));
        }
        assert forall|k: int| 0 <= k < rows.len() implies #[trigger] rows[k].len() <= max_len(rows) by {
            if k < rows.len() - 1 {
                assert(rows.drop_last()[k] == rows[k]);
            }
        }
    }
}

/// Whether every row has length `width`.
pub fn rows_of_len(rows: &Vec<Vec<char>>, width: usize) -> (r: bool)
    ensures
        r == forall|k: int| 0 <= k < rows@.len() ==> #[trigger] rows_view(rows@)[k].len() == width,
{
    let mut k: usize = 0;
    while k < rows.len()
        invariant
            k <= rows@.len(),
            forall|i: int| 0 <= i < k ==> #[trigger] rows_view(rows@)[i].len() == width,
        decreases rows@.len() - k,
    {
        if rows[k].len() != width {
            proof {
                assert(rows_view(rows@)[k as int] == rows@[k as int]@);
            }
            return false;
        }
        proof {
            assert(rows_view(rows@)[k as int] == rows@[k as int]@);
        }
        k += 1;
    }
    true
}

/// The non-empty lines of `s` and the length of the longest.
pub fn split_rows(s: &str) -> (r: (Vec<Vec<char>>, usize))
    ensures
        rows_view(r.0@) == text_rows(s@),
        r.1 == max_len(text_rows(s@)),
{
    let chars = chars_of(s);
    let n = chars.len();
    let mut rows: Vec<Vec<char>> = Vec::new();
    let mut cur: Vec<char> = Vec::new();
    let mut i: usize = 0;
    proof {
        assert(rows_view(rows@) =~= Seq::<Seq<char>>::empty());
        assert(chars@.skip(0) =~= chars@);
        assert(cur@ =~= Seq::<char>::empty());
        assert(rows_view(rows@) + rows_from(chars@.skip(0), cur@) =~= rows_from(s@, seq![]));
    }
    while i < n
        invariant
            n == chars@.len(),
            chars@ == s@,
            i <= n,
            rows_view(rows@) + rows_from(chars@.skip(i as int), cur@) == text_rows(s@),
        decreases n - i,
    {
        let c = chars[i];
        let ghost rest = chars@.skip(i as int);
        proof {
            assert(rest[0] == c);
            assert(rest.drop_first() =~= chars@.skip(i as int + 1));
        }
        if c == '\n' {
            let mut line = cur;
            let len = line.len();
            if len > 0 && line[len - 1] == '\r' {
                line.pop();
            }
            proof {
                assert(line@ == strip_cr(cur@));
            }
            if line.len() > 0 {
                let ghost before = rows@;
                rows.push(line);
                proof {
                    assert(rows_view(rows@) =~= rows_view(before).push(line@));
                    assert(rows_view(rows@) + rows_from(chars@.skip(i as int + 1), seq![]) =~= rows_view(before)
                        + (seq![line@] + rows_from(chars@.skip(i as int + 1), seq![])));
                }
            }
            cur = Vec::new();
            proof {
                assert(cur@ =~= Seq::<char>::empty());
            }
        } else {
            cur.push(c);
        }
        i += 1;
    }
    proof {
        assert(chars@.skip(n as int) =~= Seq::<char>::empty());
    }
    if cur.len() > 0 {
        let ghost before = rows@;
        rows.push(cur);
        proof {
            assert(rows_view(rows@) =~= rows_view(before).push(cur@));
        }
    } else {
        proof {
            assert(rows_view(rows@) =~= rows_view(rows@) + Seq::<Seq<char>>::empty());
        }
    }
    let ghost rv = rows_view(rows@);
    let mut width: usize = 0;
    let mut k: usize = 0;
    while k < rows.len()
        invariant
            rv == rows_view(rows@),
            rv == text_rows(s@),
            k <= rows@.len(),
            width == max_len(rv.take(k as int)),
        decreases rows@.len() - k,
    {
        proof {
            assert(rv.take(k as int + 1).drop_last() =~= rv.take(k as int));
            assert(rv.take(k as int + 1).last() == rows@[k as int]@);
        }
        if rows[k].len() > width {
            width = rows[k].len();
        }
        k += 1;
    }
    proof {
        assert(rv.take(rows@.len() as int) =~= rv);
    }
    (rows, width)
}

} // verus!
