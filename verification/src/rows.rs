//! Text files read row by row: each line is skipped, kept as a row, or fails
//! the file.

use vstd::prelude::*;

verus! {

/// What one line comes to.
pub enum Row<T> {
    Skip,
    Keep(T),
    Fail(Seq<char>),
}

/// The rows of a file: what its lines come to, in order, up to the first that
/// fails. `row` is given the line's position and its text.
pub open spec fn rows<T>(
    lines: Seq<Seq<char>>,
    row: spec_fn(int, Seq<char>) -> Row<T>,
) -> Result<Seq<T>, Seq<char>>
    decreases lines.len(),
{
    if lines.len() == 0 {
        Ok(seq![])
    } else {
        match rows(lines.drop_last(), row) {
            Ok(kept) => match row(lines.len() - 1, lines.last()) {
                Row::Skip => Ok(kept),
                Row::Keep(t) => Ok(kept.push(t)),
                Row::Fail(m) => Err(m),
            },
            Err(m) => Err(m),
        }
    }
}

/// The rows of the first `n + 1` lines are those of the first `n` and what
/// line `n` comes to.
pub proof fn lemma_next_row<T>(
    lines: Seq<Seq<char>>,
    row: spec_fn(int, Seq<char>) -> Row<T>,
    n: int,
)
    requires
        0 <= n < lines.len(),
    ensures
        rows(lines.take(n + 1), row) == match rows(lines.take(n), row) {
            Ok(kept) => match row(n, lines[n]) {
                Row::Skip => Ok(kept),
                Row::Keep(t) => Ok(kept.push(t)),
                Row::Fail(m) => Err(m),
            },
            Err(m) => Err(m),
        },
{
    assert(lines.take(n + 1).drop_last() =~= lines.take(n));
}

/// A line that fails the file does so whatever follows it.
pub proof fn lemma_failed_row<T>(
    lines: Seq<Seq<char>>,
    row: spec_fn(int, Seq<char>) -> Row<T>,
    n: int,
)
    requires
        0 <= n <= lines.len(),
        rows(lines.take(n), row) is Err,
    ensures
        rows(lines, row) == rows(lines.take(n), row),
    decreases lines.len() - n,
{
    if n == lines.len() {
        assert(lines.take(n) =~= lines);
    } else {
        lemma_next_row(lines, row, n);
        lemma_failed_row(lines, row, n + 1);
    }
}

/// Where every line is kept, the rows are what the lines come to, in order.
pub proof fn every_line_is_a_row<T>(
    lines: Seq<Seq<char>>,
    row: spec_fn(int, Seq<char>) -> Row<T>,
    kept: Seq<T>,
)
    requires
        kept.len() == lines.len(),
        forall|i: int| 0 <= i < lines.len() ==> row(i, #[trigger] lines[i]) == Row::Keep(kept[i]),
    ensures
        rows(lines, row) == Ok::<_, Seq<char>>(kept),
    decreases lines.len(),
{
    if lines.len() == 0 {
        assert(kept =~= seq![]);
    } else {
        let n = lines.len() - 1;
        let front = lines.drop_last();
        assert forall|i: int| 0 <= i < front.len() implies row(i, #[trigger] front[i])
            == Row::Keep(kept.drop_last()[i]) by {
            assert(front[i] == lines[i]);
        }
        every_line_is_a_row(front, row, kept.drop_last());
        assert(row(n, lines[n]) == Row::Keep(kept[n]));
        assert(kept.drop_last().push(kept.last()) =~= kept);
    }
}

/// A file fails if and only if one of its lines does, with the message of the
/// first that does.
pub proof fn the_first_fault_fails_the_file<T>(
    lines: Seq<Seq<char>>,
    row: spec_fn(int, Seq<char>) -> Row<T>,
)
    ensures
        rows(lines, row) is Ok <==> forall|i: int|
            0 <= i < lines.len() ==> !(row(i, #[trigger] lines[i]) is Fail),
        forall|k: int|
            #![trigger lines[k]]
            0 <= k < lines.len() && row(k, lines[k]) is Fail && (forall|i: int|
                0 <= i < k ==> !(row(i, #[trigger] lines[i]) is Fail)) ==> rows(lines, row) == Err::<
                Seq<T>,
                _,
            >(row(k, lines[k])->Fail_0),
    decreases lines.len(),
{
    if lines.len() > 0 {
        let n = lines.len() - 1;
        let front = lines.drop_last();
        the_first_fault_fails_the_file(front, row);
        assert(lines[n] == lines.last());
        assert(forall|i: int| 0 <= i < n ==> #[trigger] lines[i] == front[i]);
        assert(forall|i: int| 0 <= i < n ==> lines[i] == #[trigger] front[i]);
        assert forall|k: int|
            #![trigger lines[k]]
            0 <= k < lines.len() && row(k, lines[k]) is Fail && (forall|i: int|
                0 <= i < k ==> !(row(i, #[trigger] lines[i]) is Fail)) implies rows(lines, row)
            == Err::<Seq<T>, _>(row(k, lines[k])->Fail_0) by {
            if k < n {
                assert(front[k] == lines[k]);
                assert forall|i: int| 0 <= i < k implies !(row(i, #[trigger] front[i]) is Fail) by {
                    assert(front[i] == lines[i]);
                }
            } else {
                assert forall|i: int| 0 <= i < n implies !(row(i, #[trigger] front[i]) is Fail) by {
                    assert(front[i] == lines[i]);
                }
            }
        }
        if rows(lines, row) is Ok {
            assert(rows(front, row) is Ok);
            assert forall|i: int| 0 <= i < lines.len() implies !(row(
                i,
                #[trigger] lines[i],
            ) is Fail) by {
                if i < n {
                    assert(front[i] == lines[i]);
                }
            }
        } else if rows(front, row) is Ok {
            assert(row(n, lines[n]) is Fail);
        }
    }
}

/// The positions of the lines of which `p` holds, in order.
pub open spec fn positions(lines: Seq<Seq<char>>, p: spec_fn(Seq<char>) -> bool) -> Seq<int>
    decreases lines.len(),
{
    if lines.len() == 0 {
        seq![]
    } else {
        let before = positions(lines.drop_last(), p);
        if p(lines.last()) {
            before.push(lines.len() - 1)
        } else {
            before
        }
    }
}

/// Positions are those of lines of which `p` holds, each once and in order.
pub proof fn lemma_positions(lines: Seq<Seq<char>>, p: spec_fn(Seq<char>) -> bool)
    ensures
        forall|i: int|
            0 <= i < positions(lines, p).len() ==> 0 <= #[trigger] positions(lines, p)[i]
                < lines.len() && p(lines[positions(lines, p)[i]]),
        forall|i: int, j: int|
            0 <= i < j < positions(lines, p).len() ==> #[trigger] positions(lines, p)[i]
                < #[trigger] positions(lines, p)[j],
        forall|k: int|
            0 <= k < lines.len() && p(#[trigger] lines[k]) ==> positions(lines, p).contains(k),
    decreases lines.len(),
{
    if lines.len() > 0 {
        let front = lines.drop_last();
        lemma_positions(front, p);
        let before = positions(front, p);
        let all = positions(lines, p);
        assert forall|i: int| 0 <= i < all.len() implies 0 <= #[trigger] all[i] < lines.len()
            && p(lines[all[i]]) by {
            if i < before.len() {
                assert(all[i] == before[i]);
                assert(front[before[i]] == lines[before[i]]);
            }
        }
        assert forall|i: int, j: int| 0 <= i < j < all.len() implies #[trigger] all[i]
            < #[trigger] all[j] by {
            if j < before.len() {
                assert(all[i] == before[i] && all[j] == before[j]);
            } else {
                assert(all[i] == before[i]);
            }
        }
        assert forall|k: int| 0 <= k < lines.len() && p(#[trigger] lines[k]) implies all.contains(
            k,
        ) by {
            if k < front.len() {
                assert(front[k] == lines[k]);
                assert(before.contains(k));
                let i = choose|i: int| 0 <= i < before.len() && before[i] == k;
                assert(all[i] == k);
            } else {
                assert(all[all.len() - 1] == k);
            }
        }
    }
}

/// The rows of a file that does not fail are those of the lines that are kept,
/// in order.
pub proof fn kept_lines_are_the_rows<T>(
    lines: Seq<Seq<char>>,
    row: spec_fn(int, Seq<char>) -> Row<T>,
    p: spec_fn(Seq<char>) -> bool,
)
    requires
        rows(lines, row) is Ok,
        forall|k: int|
            0 <= k < lines.len() ==> (#[trigger] p(lines[k]) <==> !(row(k, lines[k]) is Skip)),
    ensures
        rows(lines, row)->Ok_0.len() == positions(lines, p).len(),
        forall|i: int|
            #![trigger rows(lines, row)->Ok_0[i]]
            0 <= i < positions(lines, p).len() ==> row(
                positions(lines, p)[i],
                lines[positions(lines, p)[i]],
            ) == Row::Keep(rows(lines, row)->Ok_0[i]),
    decreases lines.len(),
{
    if lines.len() > 0 {
        let n = lines.len() - 1;
        let front = lines.drop_last();
        assert forall|k: int| 0 <= k < front.len() implies (#[trigger] p(front[k]) <==> !(row(
            k,
            front[k],
        ) is Skip)) by {
            assert(front[k] == lines[k]);
        }
        kept_lines_are_the_rows(front, row, p);
        lemma_positions(front, p);
        let before = positions(front, p);
        let all = positions(lines, p);
        let kept = rows(lines, row)->Ok_0;
        assert(lines[n] == lines.last());
        assert(p(lines[n]) <==> !(row(n, lines[n]) is Skip));
        assert forall|i: int|
            #![trigger kept[i]]
            0 <= i < all.len() implies row(all[i], lines[all[i]]) == Row::Keep(kept[i]) by {
            if i < before.len() {
                assert(all[i] == before[i]);
                assert(front[before[i]] == lines[before[i]]);
                assert(kept[i] == rows(front, row)->Ok_0[i]);
            }
        }
    }
}

/// The rows of a file that does not fail are those of the lines that are not
/// skipped, in order. The result is the positions of those lines.
pub proof fn rows_come_of_their_lines<T>(
    lines: Seq<Seq<char>>,
    row: spec_fn(int, Seq<char>) -> Row<T>,
) -> (at: Seq<int>)
    requires
        rows(lines, row) is Ok,
    ensures
        at.len() == rows(lines, row)->Ok_0.len(),
        forall|i: int|
            0 <= i < at.len() ==> 0 <= #[trigger] at[i] < lines.len() && row(at[i], lines[at[i]])
                == Row::Keep(rows(lines, row)->Ok_0[i]),
        forall|i: int, j: int| 0 <= i < j < at.len() ==> #[trigger] at[i] < #[trigger] at[j],
        forall|k: int|
            #![trigger lines[k]]
            0 <= k < lines.len() ==> (at.contains(k) <==> !(row(k, lines[k]) is Skip)),
    decreases lines.len(),
{
    if lines.len() == 0 {
        Seq::<int>::empty()
    } else {
        let n = lines.len() - 1;
        let front = lines.drop_last();
        let before = rows_come_of_their_lines(front, row);
        let kept = rows(lines, row)->Ok_0;
        assert(lines[n] == lines.last());
        let at = if row(n, lines[n]) is Skip {
            before
        } else {
            before.push(n)
        };
        assert(forall|k: int| 0 <= k < n ==> front[k] == #[trigger] lines[k]);
        assert forall|i: int| 0 <= i < at.len() implies 0 <= #[trigger] at[i] < lines.len() && row(
            at[i],
            lines[at[i]],
        ) == Row::Keep(kept[i]) by {
            if i < before.len() {
                assert(at[i] == before[i]);
                assert(front[before[i]] == lines[before[i]]);
            }
        }
        assert forall|i: int, j: int| 0 <= i < j < at.len() implies #[trigger] at[i]
            < #[trigger] at[j] by {
            assert(at[i] == before[i]);
            if j < before.len() {
                assert(at[j] == before[j]);
            }
        }
        assert forall|k: int| #![trigger lines[k]] 0 <= k < lines.len() implies (at.contains(k)
            <==> !(row(k, lines[k]) is Skip)) by {
            if k < n {
                assert(front[k] == lines[k]);
                assert(before.contains(k) <==> !(row(k, front[k]) is Skip));
                if before.contains(k) {
                    let i = choose|i: int| 0 <= i < before.len() && before[i] == k;
                    assert(at[i] == k);
                }
                if at.contains(k) {
                    let i = choose|i: int| 0 <= i < at.len() && at[i] == k;
                    assert(before[i] == k);
                }
            } else if row(n, lines[n]) is Skip {
                if at.contains(n) {
                    let i = choose|i: int| 0 <= i < at.len() && at[i] == n;
                    assert(before[i] < n);
                }
            } else {
                assert(at[before.len() as int] == n);
            }
        }
        at
    }
}

/// Holds of the lines that are not empty.
pub open spec fn filled() -> spec_fn(Seq<char>) -> bool {
    |line: Seq<char>| line.len() > 0
}

/// Where a row skips the empty lines alone, the rows of a file that does not fail
/// are those of all its other lines, in order.
pub proof fn filled_lines_are_the_rows<T>(
    lines: Seq<Seq<char>>,
    row: spec_fn(int, Seq<char>) -> Row<T>,
)
    requires
        rows(lines, row) is Ok,
        forall|k: int|
            0 <= k < lines.len() ==> ((#[trigger] lines[k]).len() > 0 <==> !(row(
                k,
                lines[k],
            ) is Skip)),
    ensures
        rows(lines, row)->Ok_0.len() == positions(lines, filled()).len(),
        forall|i: int|
            #![trigger rows(lines, row)->Ok_0[i]]
            0 <= i < positions(lines, filled()).len() ==> row(
                positions(lines, filled())[i],
                lines[positions(lines, filled())[i]],
            ) == Row::Keep(rows(lines, row)->Ok_0[i]),
{
    assert forall|k: int| 0 <= k < lines.len() implies (#[trigger] filled()(lines[k]) <==> !(row(
        k,
        lines[k],
    ) is Skip)) by {
        assert(lines[k].len() > 0 <==> !(row(k, lines[k]) is Skip));
    }
    kept_lines_are_the_rows(lines, row, filled());
}

/// Where every row comes to the same number of things, they stand one row after
/// the other.
pub proof fn rows_of_equal_length<T, U>(rows: Seq<T>, f: spec_fn(T) -> Seq<U>, n: int)
    requires
        n >= 0,
        forall|i: int| 0 <= i < rows.len() ==> f(#[trigger] rows[i]).len() == n,
    ensures
        per_row(rows, f).len() == n * rows.len(),
        forall|i: int, j: int|
            0 <= i < rows.len() && 0 <= j < n ==> #[trigger] item_at(per_row(rows, f), n, i, j)
                == f(rows[i])[j],
    decreases rows.len(),
{
    let whole = per_row(rows, f);
    if rows.len() > 0 {
        let front = rows.drop_last();
        let m = front.len() as int;
        assert forall|i: int| 0 <= i < front.len() implies f(#[trigger] front[i]).len() == n by {
            assert(front[i] == rows[i]);
        }
        rows_of_equal_length(front, f, n);
        assert(rows[m] == rows.last());
        assert(n * (m + 1) == n * m + n) by (nonlinear_arith);
        assert forall|i: int, j: int| 0 <= i < rows.len() && 0 <= j < n implies #[trigger] item_at(
            whole,
            n,
            i,
            j,
        ) == f(rows[i])[j] by {
            assert(n * i + j >= 0) by (nonlinear_arith)
                requires
                    n >= 0,
                    i >= 0,
                    j >= 0,
            ;
            if i < m {
                assert(n * i + j < n * m) by (nonlinear_arith)
                    requires
                        i < m,
                        j < n,
                        n >= 0,
                ;
                assert(item_at(per_row(front, f), n, i, j) == f(front[i])[j]);
                assert(front[i] == rows[i]);
            }
        }
    } else {
        assert(n * 0 == 0) by (nonlinear_arith);
    }
}

/// Item `j` of row `i`, where every row has `n`.
pub open spec fn item_at<U>(items: Seq<U>, n: int, i: int, j: int) -> U {
    items[n * i + j]
}

/// What each row comes to, one after the other.
pub open spec fn per_row<T, U>(rows: Seq<T>, f: spec_fn(T) -> Seq<U>) -> Seq<U>
    decreases rows.len(),
{
    if rows.len() == 0 {
        seq![]
    } else {
        per_row(rows.drop_last(), f) + f(rows.last())
    }
}

/// The sequences one after the other.
pub open spec fn joined<U>(parts: Seq<Seq<U>>) -> Seq<U>
    decreases parts.len(),
{
    if parts.len() == 0 {
        seq![]
    } else {
        joined(parts.drop_last()) + parts.last()
    }
}

/// What rows come to is what the first come to, then what the others come to.
pub proof fn lemma_per_row_splits<T, U>(rows: Seq<T>, f: spec_fn(T) -> Seq<U>, i: int)
    requires
        0 <= i <= rows.len(),
    ensures
        per_row(rows, f) == per_row(rows.take(i), f) + per_row(rows.skip(i), f),
    decreases rows.len(),
{
    if i == rows.len() {
        assert(rows.take(i) =~= rows);
        assert(rows.skip(i) =~= seq![]);
        assert(per_row(rows, f) + seq![] =~= per_row(rows, f));
    } else {
        let front = rows.drop_last();
        lemma_per_row_splits(front, f, i);
        assert(front.take(i) =~= rows.take(i));
        assert(rows.skip(i).drop_last() =~= front.skip(i));
        assert(rows.skip(i).last() == rows.last());
        let a = per_row(rows.take(i), f);
        let b = per_row(front.skip(i), f);
        assert(a + b + f(rows.last()) =~= a + (b + f(rows.last())));
    }
}

/// What a row comes to is among what the rows come to.
pub proof fn lemma_per_row_contains<T, U>(rows: Seq<T>, f: spec_fn(T) -> Seq<U>, i: int, j: int)
    requires
        0 <= i < rows.len(),
        0 <= j < f(rows[i]).len(),
    ensures
        per_row(rows, f).contains(f(rows[i])[j]),
    decreases rows.len(),
{
    let front = rows.drop_last();
    let whole = per_row(rows, f);
    let x = f(rows[i])[j];
    if i < front.len() {
        assert(front[i] == rows[i]);
        lemma_per_row_contains(front, f, i, j);
        let k = choose|k: int| 0 <= k < per_row(front, f).len() && per_row(front, f)[k] == x;
        assert(whole[k] == x);
    } else {
        assert(whole[per_row(front, f).len() + j] == x);
    }
}

/// What an element is mapped to is among what the elements are mapped to.
pub proof fn lemma_filter_map_holds<T, U>(s: Seq<T>, f: spec_fn(T) -> Option<U>, k: int)
    requires
        0 <= k < s.len(),
        f(s[k]) is Some,
    ensures
        s.filter_map(f).contains(f(s[k])->0),
    decreases s.len(),
{
    let front = s.drop_last();
    let before = front.filter_map(f);
    let all = s.filter_map(f);
    let x = f(s[k])->0;
    if k < front.len() {
        assert(front[k] == s[k]);
        lemma_filter_map_holds(front, f, k);
        let i = choose|i: int| 0 <= i < before.len() && before[i] == x;
        assert(all[i] == x);
    } else {
        assert(all[before.len() as int] == x);
    }
}

/// A row that comes to nothing can be left out.
pub proof fn lemma_per_row_insert<T, U>(rows: Seq<T>, f: spec_fn(T) -> Seq<U>, k: int, x: T)
    requires
        0 <= k <= rows.len(),
        f(x) == Seq::<U>::empty(),
    ensures
        per_row(rows.insert(k, x), f) == per_row(rows, f),
{
    let more = rows.insert(k, x);
    lemma_per_row_splits(rows, f, k);
    lemma_per_row_splits(more, f, k + 1);
    assert(more.take(k + 1).drop_last() =~= rows.take(k));
    assert(more.take(k + 1).last() == x);
    assert(more.skip(k + 1) =~= rows.skip(k));
    assert(per_row(rows.take(k), f) + f(x) =~= per_row(rows.take(k), f));
}

/// Joined sequences hold each of them, one after the other.
pub proof fn joined_parts_follow_each_other<U>(parts: Seq<Seq<U>>, i: int)
    requires
        0 <= i < parts.len(),
    ensures
        joined(parts.take(i)).len() + parts[i].len() <= joined(parts).len(),
        joined(parts).subrange(
            joined(parts.take(i)).len() as int,
            (joined(parts.take(i)).len() + parts[i].len()) as int,
        ) == parts[i],
        i + 1 == parts.len() ==> joined(parts.take(i)).len() + parts[i].len() == joined(
            parts,
        ).len(),
        joined(parts.take(0)).len() == 0,
    decreases parts.len(),
{
    let front = parts.drop_last();
    assert(parts.take(0) =~= seq![]);
    let a = joined(parts.take(i)).len() as int;
    let b = a + parts[i].len();
    if i == front.len() {
        assert(parts.take(i) =~= front);
        assert(joined(parts).subrange(a, b) =~= parts[i]);
    } else {
        joined_parts_follow_each_other(front, i);
        assert(front.take(i) =~= parts.take(i));
        assert(joined(parts).subrange(a, b) =~= joined(front).subrange(a, b));
    }
}

} // verus!
