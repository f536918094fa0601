use vstd::prelude::*;
use vstd::multiset::Multiset;

use crate::ast::{OrderByExpr, SqlExpr};
use crate::error::{Error, ErrorKind};
use crate::expression::{eval_spec, first_column, parse_fail, parses, Expression};
use crate::ops::{batch_len, rows_view, Output, BATCH_SIZE};
use crate::schema::Schema;
use crate::types::{comparable, text_lt, value_eq, value_lt, values_eq, Row, Value};

verus! {

/// Text order is a strict order.
proof fn lemma_text_lt(a: Seq<char>, b: Seq<char>, c: Seq<char>)
    ensures
        text_lt(a, b) ==> !text_lt(b, a),
        text_lt(a, b) && text_lt(b, c) ==> text_lt(a, c),
        !text_lt(a, a),
    decreases a.len(),
{
    if a.len() > 0 && b.len() > 0 && c.len() > 0 {
        lemma_text_lt(a.drop_first(), b.drop_first(), c.drop_first());
    }
    if a.len() > 0 && b.len() > 0 {
        lemma_text_lt(a.drop_first(), b.drop_first(), b.drop_first());
    }
    if a.len() > 0 {
        lemma_text_lt(a.drop_first(), a.drop_first(), a.drop_first());
    }
}

/// Value order is a strict order, compatible with value equality.
proof fn lemma_value_lt(a: Value, b: Value, c: Value)
    ensures
        value_lt(a, b) ==> !value_lt(b, a),
        value_lt(a, b) && value_lt(b, c) ==> value_lt(a, c),
        value_lt(a, b) ==> !value_eq(a, b),
        value_eq(a, b) && value_lt(b, c) ==> value_lt(a, c),
        value_eq(b, c) && value_lt(a, b) ==> value_lt(a, c),
        value_eq(a, b) ==> value_eq(b, a),
        value_eq(a, b) && value_eq(b, c) ==> value_eq(a, c),
{
    match (a, b, c) {
        (Value::String(x), Value::String(y), Value::String(z)) => {
            lemma_text_lt(x@, y@, z@);
            lemma_text_lt(x@, x@, x@);
        },
        (Value::String(x), Value::String(y), _) => {
            lemma_text_lt(x@, y@, y@);
            lemma_text_lt(x@, x@, x@);
        },
        _ => {},
    }
}

/// Lexicographic order on sort keys.
pub open spec fn key_lt(a: Seq<Value>, b: Seq<Value>) -> bool
    decreases a.len(),
{
    if a.len() == 0 || b.len() == 0 {
        false
    } else if value_eq(a[0], b[0]) {
        key_lt(a.drop_first(), b.drop_first())
    } else {
        value_lt(a[0], b[0])
    }
}

proof fn lemma_values_eq_tail(a: Seq<Value>, b: Seq<Value>)
    requires
        a.len() > 0,
        values_eq(a, b),
    ensures
        values_eq(a.drop_first(), b.drop_first()),
        value_eq(a[0], b[0]),
{
    assert forall|i: int| 0 <= i < a.len() - 1 implies value_eq(
        #[trigger] a.drop_first()[i],
        b.drop_first()[i],
    ) by {
        assert(value_eq(a[i + 1], b[i + 1]));
    }
}

pub(crate) proof fn lemma_values_eq_cons(a: Seq<Value>, b: Seq<Value>)
    requires
        a.len() > 0,
        a.len() == b.len(),
        values_eq(a.drop_first(), b.drop_first()),
        value_eq(a[0], b[0]),
    ensures
        values_eq(a, b),
{
    assert forall|i: int| 0 <= i < a.len() implies value_eq(#[trigger] a[i], b[i]) by {
        if i > 0 {
            assert(value_eq(a.drop_first()[i - 1], b.drop_first()[i - 1]));
        }
    }
}

/// Key order is a strict order, compatible with key equality.
proof fn lemma_key_lt(a: Seq<Value>, b: Seq<Value>, c: Seq<Value>)
    ensures
        key_lt(a, b) ==> !key_lt(b, a),
        key_lt(a, b) ==> !values_eq(b, a),
        key_lt(a, b) && key_lt(b, c) ==> key_lt(a, c),
        values_eq(a, b) && key_lt(b, c) ==> key_lt(a, c),
        values_eq(b, c) && key_lt(a, b) ==> key_lt(a, c),
        values_eq(a, b) && values_eq(b, c) ==> values_eq(a, c),
        values_eq(a, b) ==> values_eq(b, a),
    decreases a.len(),
{
    if values_eq(a, b) {
        assert forall|i: int| 0 <= i < b.len() implies value_eq(#[trigger] b[i], a[i]) by {
            lemma_value_lt(a[i], b[i], a[i]);
        }
    }
    if values_eq(a, b) && values_eq(b, c) {
        assert forall|i: int| 0 <= i < a.len() implies value_eq(#[trigger] a[i], c[i]) by {
            lemma_value_lt(a[i], b[i], c[i]);
        }
    }
    if a.len() > 0 && b.len() > 0 {
        lemma_value_lt(a[0], b[0], a[0]);
        lemma_value_lt(b[0], a[0], b[0]);
        if c.len() > 0 {
            lemma_value_lt(a[0], b[0], c[0]);
            lemma_key_lt(a.drop_first(), b.drop_first(), c.drop_first());
            if values_eq(a, b) {
                lemma_values_eq_tail(a, b);
            }
            if values_eq(b, c) {
                lemma_values_eq_tail(b, c);
            }
            if values_eq(b, a) {
                lemma_values_eq_tail(b, a);
            }
        } else {
            lemma_key_lt(a.drop_first(), b.drop_first(), b.drop_first());
            if values_eq(b, a) {
                lemma_values_eq_tail(b, a);
            }
        }
    }
}

/// Row `i` sorts before row `j`: by key, then by arrival (which makes the sort stable).
pub open spec fn before(keys: Seq<Seq<Value>>, i: usize, j: usize) -> bool {
    key_lt(keys[i as int], keys[j as int]) || (values_eq(keys[i as int], keys[j as int]) && i < j)
}

proof fn lemma_before(keys: Seq<Seq<Value>>, i: usize, j: usize, k: usize)
    ensures
        before(keys, i, j) ==> !before(keys, j, i),
        before(keys, i, j) && before(keys, j, k) ==> before(keys, i, k),
{
    let (a, b, c) = (keys[i as int], keys[j as int], keys[k as int]);
    lemma_key_lt(a, b, c);
    lemma_key_lt(b, a, c);
    lemma_key_lt(a, b, a);
    lemma_key_lt(b, a, b);
}

/// No element sorts before the one ahead of it.
pub open spec fn sorted_by(keys: Seq<Seq<Value>>, s: Seq<usize>) -> bool {
    forall|a: int| 0 < a < s.len() ==> !before(keys, #[trigger] s[a], s[a - 1])
}

/// Every element indexes a key.
pub open spec fn in_bounds(keys: Seq<Seq<Value>>, s: Seq<usize>) -> bool {
    forall|a: int| 0 <= a < s.len() ==> #[trigger] s[a] < keys.len()
}

/// The positions `lo..hi`, in order.
pub open spec fn span(lo: nat, hi: nat) -> Seq<usize> {
    Seq::new((hi - lo) as nat, |k: int| (lo + k) as usize)
}

fn key_less(a: &Row, b: &Row) -> (r: bool)
    ensures
        r == key_lt(a@, b@),
{
    let mut i: usize = 0;
    assert(a@.skip(0) =~= a@);
    assert(b@.skip(0) =~= b@);
    while i < a.len() && i < b.len()
        invariant
            i <= a@.len(),
            i <= b@.len(),
            key_lt(a@, b@) == key_lt(a@.skip(i as int), b@.skip(i as int)),
        decreases a@.len() - i,
    {
        if !a.get(i).equals(b.get(i)) {
            return a.get(i).less(b.get(i));
        }
        assert(a@.skip(i as int).drop_first() =~= a@.skip(i + 1));
        assert(b@.skip(i as int).drop_first() =~= b@.skip(i + 1));
        i = i + 1;
    }
    false
}

fn before_exec(keys: &Vec<Row>, i: usize, j: usize) -> (r: bool)
    requires
        i < keys@.len(),
        j < keys@.len(),
    ensures
        r == before(rows_view(keys@), i, j),
{
    key_less(&keys[i], &keys[j]) || (keys[i].equals(&keys[j]) && i < j)
}

/// Sorts the positions `lo..hi` by their keys.
fn sort_run(keys: &Vec<Row>, lo: usize, hi: usize) -> (r: Vec<usize>)
    requires
        lo <= hi <= keys@.len(),
    ensures
        sorted_by(rows_view(keys@), r@),
        in_bounds(rows_view(keys@), r@),
        r@.to_multiset() == span(lo as nat, hi as nat).to_multiset(),
        r@.len() == hi - lo,
{
    let ghost kv = rows_view(keys@);
    let mut out: Vec<usize> = Vec::new();
    let mut x: usize = lo;
    proof {
        assert(span(lo as nat, lo as nat) =~= Seq::<usize>::empty());
    }
    while x < hi
        invariant
            lo <= x <= hi,
            hi <= keys@.len(),
            kv == rows_view(keys@),
            sorted_by(kv, out@),
            in_bounds(kv, out@),
            out@.len() == x - lo,
            out@.to_multiset() == span(lo as nat, x as nat).to_multiset(),
        decreases hi - x,
    {
        let mut p: usize = out.len();
        while p > 0 && before_exec(keys, x, out[p - 1])
            invariant
                p <= out@.len(),
                x < keys@.len(),
                kv == rows_view(keys@),
                in_bounds(kv, out@),
                p < out@.len() ==> before(kv, x, out@[p as int]),
            decreases p,
        {
            p = p - 1;
        }
        let ghost old_out = out@;
        out.insert(p, x);
        proof {
            broadcast use vstd::seq_lib::to_multiset_insert, vstd::seq_lib::to_multiset_build;

            assert(out@ == old_out.insert(p as int, x));
            assert(span(lo as nat, (x + 1) as nat) =~= span(lo as nat, x as nat).push(x));
            assert forall|a: int| 0 < a < out@.len() implies !before(kv, #[trigger] out@[a], out@[a - 1]) by {
                if a < p {
                    assert(out@[a] == old_out[a] && out@[a - 1] == old_out[a - 1]);
                } else if a == p {
                } else if a == p + 1 {
                    lemma_before(kv, x, old_out[p as int], x);
                } else {
                    assert(out@[a] == old_out[a - 1] && out@[a - 1] == old_out[a - 2]);
                }
            }
        }
        x = x + 1;
    }
    out
}

/// The contents of each run.
pub open spec fn runs_view(runs: Seq<Vec<usize>>) -> Seq<Seq<usize>> {
    runs.map_values(|v: Vec<usize>| v@)
}

/// Everything the runs hold, with multiplicity.
pub open spec fn runs_multiset(runs: Seq<Seq<usize>>) -> Multiset<usize>
    decreases runs.len(),
{
    if runs.len() == 0 {
        Multiset::empty()
    } else {
        runs_multiset(runs.drop_last()).add(runs.last().to_multiset())
    }
}

/// What each run holds from its position on.
pub open spec fn rest(runs: Seq<Seq<usize>>, pos: Seq<usize>) -> Seq<Seq<usize>> {
    Seq::new(runs.len(), |r: int| runs[r].skip(pos[r] as int))
}

proof fn lemma_runs_multiset_append(a: Seq<Seq<usize>>, b: Seq<Seq<usize>>)
    ensures
        runs_multiset(a + b) == runs_multiset(a).add(runs_multiset(b)),
    decreases b.len(),
{
    if b.len() == 0 {
        assert(a + b =~= a);
        assert(runs_multiset(a).add(Multiset::empty()) =~= runs_multiset(a));
    } else {
        lemma_runs_multiset_append(a, b.drop_last());
        assert((a + b).drop_last() =~= a + b.drop_last());
        assert(runs_multiset(a + b) =~= runs_multiset(a).add(runs_multiset(b)));
    }
}

proof fn lemma_runs_multiset_advance(rs: Seq<Seq<usize>>, m: int)
    requires
        0 <= m < rs.len(),
        rs[m].len() > 0,
    ensures
        runs_multiset(rs) == runs_multiset(rs.update(m, rs[m].drop_first())).insert(rs[m][0]),
    decreases rs.len(),
{
    broadcast use vstd::seq_lib::to_multiset_build;

    let t = rs[m].drop_first();
    assert(t.insert(0, rs[m][0]) =~= rs[m]);
    vstd::seq_lib::to_multiset_insert(t, 0, rs[m][0]);
    if m == rs.len() - 1 {
        assert(rs.update(m, t).drop_last() =~= rs.drop_last());
        assert(runs_multiset(rs) =~= runs_multiset(rs.update(m, t)).insert(rs[m][0]));
    } else {
        lemma_runs_multiset_advance(rs.drop_last(), m);
        assert(rs.update(m, t).drop_last() =~= rs.drop_last().update(m, t));
        assert(runs_multiset(rs) =~= runs_multiset(rs.update(m, t)).insert(rs[m][0]));
    }
}

/// Merges the runs `lo..hi` into one, by repeatedly taking the smallest head.
fn nway_merge(keys: &Vec<Row>, runs: &Vec<Vec<usize>>, lo: usize, hi: usize) -> (r: Vec<usize>)
    requires
        lo <= hi <= runs@.len(),
        forall|k: int| 0 <= k < runs@.len() ==> sorted_by(rows_view(keys@), #[trigger] runs@[k]@),
        forall|k: int| 0 <= k < runs@.len() ==> in_bounds(rows_view(keys@), #[trigger] runs@[k]@),
    ensures
        sorted_by(rows_view(keys@), r@),
        in_bounds(rows_view(keys@), r@),
        r@.to_multiset() == runs_multiset(runs_view(runs@).subrange(lo as int, hi as int)),
{
    let ghost kv = rows_view(keys@);
    let ghost group = runs_view(runs@).subrange(lo as int, hi as int);
    let n = hi - lo;
    let mut pos: Vec<usize> = Vec::new();
    while pos.len() < n
        invariant
            pos@.len() <= n,
            forall|k: int| 0 <= k < pos@.len() ==> #[trigger] pos@[k] == 0,
        decreases n - pos@.len(),
    {
        pos.push(0);
    }
    proof {
        assert(rest(group, pos@) =~= group) by {
            assert forall|k: int| 0 <= k < group.len() implies #[trigger] rest(group, pos@)[k] == group[k] by {
                assert(group[k].skip(0) =~= group[k]);
            }
        }
        lemma_empty_multiset();
        assert(Multiset::<usize>::empty().add(runs_multiset(group)) =~= runs_multiset(group));
    }
    let mut out: Vec<usize> = Vec::new();
    loop
        invariant
            n == hi - lo,
            lo <= hi <= runs@.len(),
            group == runs_view(runs@).subrange(lo as int, hi as int),
            kv == rows_view(keys@),
            forall|k: int| 0 <= k < runs@.len() ==> sorted_by(kv, #[trigger] runs@[k]@),
            forall|k: int| 0 <= k < runs@.len() ==> in_bounds(kv, #[trigger] runs@[k]@),
            pos@.len() == n,
            forall|k: int| 0 <= k < n ==> #[trigger] pos@[k] <= runs@[lo + k]@.len(),
            sorted_by(kv, out@),
            in_bounds(kv, out@),
            out@.to_multiset().add(runs_multiset(rest(group, pos@))) == runs_multiset(group),
            out@.len() > 0 ==> forall|k: int|
                0 <= k < n && pos@[k] < runs@[lo + k]@.len() ==> !before(
                    kv,
                    #[trigger] runs@[lo + k]@[pos@[k] as int],
                    out@.last(),
                ),
        decreases runs_multiset(rest(group, pos@)).len(),
    {
        let mut best: usize = n;
        let mut k: usize = 0;
        while k < n
            invariant
                n == hi - lo,
                lo <= hi <= runs@.len(),
                kv == rows_view(keys@),
                pos@.len() == n,
                forall|j: int| 0 <= j < n ==> #[trigger] pos@[j] <= runs@[lo + j]@.len(),
                forall|j: int| 0 <= j < runs@.len() ==> in_bounds(kv, #[trigger] runs@[j]@),
                k <= n,
                best == n || (best < k && pos@[best as int] < runs@[lo + best]@.len()),
                best == n ==> forall|j: int| 0 <= j < k ==> #[trigger] pos@[j] == runs@[lo + j]@.len(),
                best < n ==> forall|j: int|
                    0 <= j < k && pos@[j] < runs@[lo + j]@.len() ==> !before(
                        kv,
                        #[trigger] runs@[lo + j]@[pos@[j] as int],
                        runs@[lo + best]@[pos@[best as int] as int],
                    ),
            decreases n - k,
        {
            if pos[k] < runs[lo + k].len() {
                if best == n {
                    proof {
                        let h = runs@[lo + k]@[pos@[k as int] as int];
                        lemma_before(kv, h, h, h);
                    }
                    best = k;
                } else {
                    let h = runs[lo + k][pos[k]];
                    let cur = runs[lo + best][pos[best]];
                    if before_exec(keys, h, cur) {
                        proof {
                            assert forall|j: int|
                                0 <= j < k + 1 && pos@[j] < runs@[lo + j]@.len() implies !before(
                                kv,
                                #[trigger] runs@[lo + j]@[pos@[j] as int],
                                h,
                            ) by {
                                lemma_before(kv, runs@[lo + j]@[pos@[j] as int], h, cur);
                                lemma_before(kv, h, cur, h);
                            }
                        }
                        best = k;
                    }
                }
            }
            k = k + 1;
        }
        if best == n {
            proof {
                assert(rest(group, pos@) =~= Seq::new(n as nat, |j: int| Seq::<usize>::empty())) by {
                    assert forall|j: int| 0 <= j < n implies #[trigger] rest(group, pos@)[j] =~= Seq::<usize>::empty() by {
                        assert(pos@[j] == runs@[lo + j]@.len());
                    }
                }
                lemma_runs_multiset_empty(n as nat);
                assert(out@.to_multiset().add(Multiset::empty()) =~= out@.to_multiset());
            }
            return out;
        }
        let run_len = runs[lo + best].len();
        assert(pos@[best as int] < run_len);
        let h = runs[lo + best][pos[best]];
        let ghost old_out = out@;
        let ghost old_rest = rest(group, pos@);
        let ghost old_pos = pos@;
        out.push(h);
        let next = pos[best] + 1;
        pos.set(best, next);
        proof {
            broadcast use vstd::seq_lib::to_multiset_build;

            let b = best as int;
            assert(old_rest[b] == runs@[lo + b]@.skip(old_pos[b] as int));
            assert(old_rest[b][0] == h);
            assert(rest(group, pos@) =~= old_rest.update(b, old_rest[b].drop_first())) by {
                assert(runs@[lo + b]@.skip(old_pos[b] as int).drop_first() =~= runs@[lo + b]@.skip(next as int));
            }
            lemma_runs_multiset_advance(old_rest, b);
            assert(out@.to_multiset() =~= old_out.to_multiset().insert(h));
            assert(out@.to_multiset().add(runs_multiset(rest(group, pos@))) =~= runs_multiset(group));
            assert(runs_multiset(old_rest).len() == runs_multiset(rest(group, pos@)).len() + 1);
            assert forall|a: int| 0 < a < out@.len() implies !before(kv, #[trigger] out@[a], out@[a - 1]) by {
                if a < out@.len() - 1 {
                    assert(out@[a] == old_out[a] && out@[a - 1] == old_out[a - 1]);
                }
            }
            assert forall|j: int|
                0 <= j < n && pos@[j] < runs@[lo + j]@.len() implies !before(
                kv,
                #[trigger] runs@[lo + j]@[pos@[j] as int],
                out@.last(),
            ) by {
                if j == b {
                    assert(sorted_by(kv, runs@[lo + b]@));
                    assert(runs@[lo + b]@[next as int - 1] == h);
                }
            }
            assert(in_bounds(kv, runs@[lo + b]@));
        }
    }
}

proof fn lemma_runs_multiset_empty(n: nat)
    ensures
        runs_multiset(Seq::new(n, |j: int| Seq::<usize>::empty())) =~= Multiset::empty(),
    decreases n,
{
    if n > 0 {
        lemma_runs_multiset_empty((n - 1) as nat);
        lemma_empty_multiset();
        let s = Seq::new(n, |j: int| Seq::<usize>::empty());
        assert(s.drop_last() =~= Seq::new((n - 1) as nat, |j: int| Seq::<usize>::empty()));
        assert(s.last() == Seq::<usize>::empty());
        assert(Multiset::<usize>::empty().add(Multiset::empty()) =~= Multiset::<usize>::empty());
    }
}

proof fn lemma_empty_multiset()
    ensures
        Seq::<usize>::empty().to_multiset() =~= Multiset::<usize>::empty(),
{
    vstd::seq_lib::to_multiset_len(Seq::<usize>::empty());
    vstd::multiset::lemma_multiset_empty_len(Seq::<usize>::empty().to_multiset());
}

/// Merges all runs into one, in passes over groups of up to sixteen runs.
fn merge_runs(keys: &Vec<Row>, runs: Vec<Vec<usize>>) -> (r: Vec<usize>)
    requires
        forall|k: int| 0 <= k < runs@.len() ==> sorted_by(rows_view(keys@), #[trigger] runs@[k]@),
        forall|k: int| 0 <= k < runs@.len() ==> in_bounds(rows_view(keys@), #[trigger] runs@[k]@),
    ensures
        sorted_by(rows_view(keys@), r@),
        in_bounds(rows_view(keys@), r@),
        r@.to_multiset() == runs_multiset(runs_view(runs@)),
{
    let ghost kv = rows_view(keys@);
    let ghost total = runs_multiset(runs_view(runs@));
    let mut runs = runs;
    if runs.len() == 0 {
        proof {
            lemma_empty_multiset();
            assert(runs_view(runs@) =~= Seq::<Seq<usize>>::empty());
        }
        return Vec::new();
    }
    while runs.len() > 1
        invariant
            runs@.len() >= 1,
            kv == rows_view(keys@),
            forall|k: int| 0 <= k < runs@.len() ==> sorted_by(kv, #[trigger] runs@[k]@),
            forall|k: int| 0 <= k < runs@.len() ==> in_bounds(kv, #[trigger] runs@[k]@),
            runs_multiset(runs_view(runs@)) == total,
        decreases runs@.len(),
    {
        let mut next: Vec<Vec<usize>> = Vec::new();
        let mut start: usize = 0;
        proof {
            assert(runs_view(runs@).take(0) =~= Seq::<Seq<usize>>::empty());
            assert(runs_view(next@) =~= Seq::<Seq<usize>>::empty());
        }
        while start < runs.len()
            invariant
                start <= runs@.len(),
                runs@.len() >= 2,
                kv == rows_view(keys@),
                forall|k: int| 0 <= k < runs@.len() ==> sorted_by(kv, #[trigger] runs@[k]@),
                forall|k: int| 0 <= k < runs@.len() ==> in_bounds(kv, #[trigger] runs@[k]@),
                forall|k: int| 0 <= k < next@.len() ==> sorted_by(kv, #[trigger] next@[k]@),
                forall|k: int| 0 <= k < next@.len() ==> in_bounds(kv, #[trigger] next@[k]@),
                next@.len() * 16 < start + 16,
                start < runs@.len() ==> start == next@.len() * 16,
                start > 0 ==> next@.len() >= 1,
                runs_multiset(runs_view(next@)) == runs_multiset(runs_view(runs@).take(start as int)),
            decreases runs@.len() - start,
        {
            let end = if runs.len() - start > 16 {
                start + 16
            } else {
                runs.len()
            };
            let merged = nway_merge(keys, &runs, start, end);
            let ghost before_next = next@;
            next.push(merged);
            proof {
                let v = runs_view(runs@);
                assert(v.take(end as int) =~= v.take(start as int) + v.subrange(
                    start as int,
                    end as int,
                ));
                lemma_runs_multiset_append(v.take(start as int), v.subrange(start as int, end as int));
                assert(runs_view(next@) =~= runs_view(before_next).push(merged@));
                assert(runs_view(next@).drop_last() =~= runs_view(before_next));
                assert forall|k: int| 0 <= k < next@.len() implies sorted_by(kv, #[trigger] next@[k]@)
                    && in_bounds(kv, next@[k]@) by {
                    if k < next@.len() - 1 {
                        assert(next@[k] == before_next[k]);
                    }
                }
            }
            start = end;
        }
        proof {
            assert(runs_view(runs@).take(start as int) =~= runs_view(runs@));
        }
        runs = next;
    }
    proof {
        assert(runs_view(runs@).drop_last() =~= Seq::<Seq<usize>>::empty());
        assert(runs_view(runs@).last() == runs@[0]@);
        assert(runs_multiset(runs_view(runs@).drop_last()) == Multiset::<usize>::empty());
        assert(runs_multiset(runs_view(runs@)) == runs_multiset(runs_view(runs@).drop_last()).add(
            runs@[0]@.to_multiset(),
        ));
        assert(Multiset::<usize>::empty().add(runs@[0]@.to_multiset()) =~= runs@[0]@.to_multiset());
        assert(total == runs@[0]@.to_multiset());
        assert(sorted_by(kv, runs@[0]@));
        assert(in_bounds(kv, runs@[0]@));
    }
    match runs.pop() {
        Some(r) => r,
        None => Vec::new(),
    }
}

/// An `ORDER BY` term: an expression over the input rows, or the position
/// of a select expression.
#[derive(Debug)]
pub enum SortKey {
    Expr(Expression),
    Select(usize),
}

/// The value of one sort term on a row.
pub open spec fn key_value(k: SortKey, select: Seq<Expression>, row: Seq<Value>) -> Result<
    Value,
    ErrorKind,
> {
    match k {
        SortKey::Expr(e) => eval_spec(e, row),
        SortKey::Select(i) => if i < select.len() {
            eval_spec(select[i as int], row)
        } else {
            Err(ErrorKind::Resolution)
        },
    }
}

/// The sort key of a row: the value of each term, in order; the first error otherwise.
pub open spec fn sort_key_spec(by: Seq<SortKey>, select: Seq<Expression>, row: Seq<Value>) -> Result<
    Seq<Value>,
    ErrorKind,
>
    decreases by.len(),
{
    if by.len() == 0 {
        Ok(Seq::empty())
    } else {
        match sort_key_spec(by.drop_last(), select, row) {
            Ok(vals) => match key_value(by.last(), select, row) {
                Ok(v) => Ok(vals.push(v)),
                Err(k) => Err(k),
            },
            Err(k) => Err(k),
        }
    }
}

/// The position that a constant `ORDER BY` term names, if it is an integer constant.
pub open spec fn position_of(e: Expression, n: nat) -> Option<Result<usize, ErrorKind>> {
    match e {
        Expression::Const(Value::Int(v)) => Some(
            if 1 <= v <= n {
                Ok((v - 1) as usize)
            } else {
                Err(ErrorKind::Resolution)
            },
        ),
        _ => None,
    }
}

/// The term resolves to `key` against the input columns and `n` select expressions.
pub open spec fn resolves(item: OrderByExpr, cols: Seq<crate::schema::Column>, n: nat, key: SortKey) -> bool {
    &&& item.asc != Some(false)
    &&& item.nulls_first is None
    &&& match key {
        SortKey::Expr(e) => parses(item.expr, cols, e) && position_of(e, n) is None,
        SortKey::Select(p) => p < n && parses(
            item.expr,
            cols,
            Expression::Const(Value::Int((p + 1) as i64)),
        ),
    }
}

/// The term is rejected with an error of the given kind.
pub open spec fn rejects(item: OrderByExpr, cols: Seq<crate::schema::Column>, n: nat, kind: ErrorKind) -> bool {
    if item.asc == Some(false) || item.nulls_first is Some {
        kind == ErrorKind::Unsupported
    } else if parse_fail(item.expr, cols) is Some {
        parse_fail(item.expr, cols) == Some(kind)
    } else {
        exists|e: Expression|
            parses(item.expr, cols, e) && position_of(e, n) == Some(Err::<usize, ErrorKind>(kind))
    }
}

/// Two key rows can be ordered: same length, and same non-null tag at each position.
pub open spec fn keys_comparable(a: Seq<Value>, b: Seq<Value>) -> bool {
    &&& a.len() == b.len()
    &&& forall|c: int| 0 <= c < a.len() ==> comparable(#[trigger] a[c], b[c])
}

/// Every key can be ordered against the first (trivially so for a single row).
pub open spec fn all_comparable(keys: Seq<Seq<Value>>) -> bool {
    keys.len() <= 1 || forall|i: int| 0 <= i < keys.len() ==> keys_comparable(keys[0], #[trigger] keys[i])
}

proof fn lemma_extend_keys(keys: Seq<Seq<Value>>, keys2: Seq<Seq<Value>>, s: Seq<usize>)
    requires
        keys2.len() >= keys.len(),
        forall|i: int| 0 <= i < keys.len() ==> #[trigger] keys2[i] == keys[i],
        in_bounds(keys, s),
        sorted_by(keys, s),
    ensures
        sorted_by(keys2, s),
        in_bounds(keys2, s),
{
    assert forall|a: int| 0 < a < s.len() implies !before(keys2, #[trigger] s[a], s[a - 1]) by {
        assert(keys2[s[a] as int] == keys[s[a] as int]);
        assert(keys2[s[a - 1] as int] == keys[s[a - 1] as int]);
    }
}

fn keys_comparable_exec(a: &Row, b: &Row) -> (r: bool)
    ensures
        r == keys_comparable(a@, b@),
{
    if a.len() != b.len() {
        return false;
    }
    let mut c: usize = 0;
    while c < a.len()
        invariant
            a@.len() == b@.len(),
            c <= a@.len(),
            forall|j: int| 0 <= j < c ==> comparable(#[trigger] a@[j], b@[j]),
        decreases a@.len() - c,
    {
        let ok = match (a.get(c), b.get(c)) {
            (Value::Bool(_), Value::Bool(_)) => true,
            (Value::Int(_), Value::Int(_)) => true,
            (Value::String(_), Value::String(_)) => true,
            _ => false,
        };
        if !ok {
            return false;
        }
        c = c + 1;
    }
    true
}

/// The rows in the given order of arrival positions.
pub open spec fn emit_view(input: Seq<Seq<Value>>, order: Seq<usize>) -> Seq<Seq<Value>> {
    order.map_values(|i: usize| input[i as int])
}

#[derive(Debug, Clone, Copy, PartialEq, Eq, Structural)]
enum State {
    Read,
    Emit,
}

/// External merge sort: reads the whole input as sorted runs, merges them,
/// then emits the rows in key order.
pub struct Sort {
    schema: Schema,
    by: Vec<SortKey>,
    select: Ghost<Seq<Expression>>,
    rows: Vec<Row>,
    keys: Vec<Row>,
    runs: Vec<Vec<usize>>,
    results: Vec<usize>,
    emitted: usize,
    state: State,
}

impl Sort {
    /// The schema of the rows, which sorting leaves unchanged.
    pub closed spec fn schema_spec(&self) -> Schema {
        self.schema
    }

    /// The resolved sort terms.
    pub closed spec fn terms(&self) -> Seq<SortKey> {
        self.by@
    }

    /// The select expressions that positional terms refer to.
    pub closed spec fn select(&self) -> Seq<Expression> {
        self.select@
    }

    /// The rows read so far, in arrival order.
    pub closed spec fn input(&self) -> Seq<Seq<Value>> {
        rows_view(self.rows@)
    }

    /// The sort key of each row read, in arrival order.
    pub closed spec fn keys(&self) -> Seq<Seq<Value>> {
        rows_view(self.keys@)
    }

    /// The arrival positions of the rows in output order (once reading is done).
    pub closed spec fn order(&self) -> Seq<usize> {
        self.results@
    }

    /// How many rows of the output have been emitted.
    pub closed spec fn emitted(&self) -> nat {
        self.emitted as nat
    }

    pub closed spec fn reading(&self) -> bool {
        self.state == State::Read
    }

    pub closed spec fn wf(&self) -> bool {
        &&& self.keys@.len() == self.rows@.len()
        &&& forall|i: int|
            0 <= i < self.rows@.len() ==> sort_key_spec(self.by@, self.select@, #[trigger] self.rows@[i]@)
                == Ok::<Seq<Value>, ErrorKind>(self.keys@[i]@)
        &&& self.state == State::Read ==> {
            &&& forall|k: int| 0 <= k < self.runs@.len() ==> sorted_by(self.keys(), #[trigger] self.runs@[k]@)
            &&& forall|k: int| 0 <= k < self.runs@.len() ==> in_bounds(self.keys(), #[trigger] self.runs@[k]@)
            &&& runs_multiset(runs_view(self.runs@)) == span(0, self.rows@.len()).to_multiset()
            &&& self.emitted == 0
        }
        &&& self.state == State::Emit ==> {
            &&& sorted_by(self.keys(), self.results@)
            &&& in_bounds(self.keys(), self.results@)
            &&& self.results@.to_multiset() == span(0, self.rows@.len()).to_multiset()
            &&& self.emitted <= self.results@.len()
        }
    }

    /// Resolves each `ORDER BY` term against the input schema; a positive
    /// integer constant `n` names the `n`-th select expression.
    pub fn new(order_by: &Vec<OrderByExpr>, select: &Vec<Expression>, schema: &Schema) -> (r: Result<Sort, Error>)
        ensures
            match r {
                Ok(s) => {
                    &&& s.wf()
                    &&& s.reading()
                    &&& s.input().len() == 0
                    &&& s.keys().len() == 0
                    &&& s.schema_spec().primary_key == schema.primary_key
                    &&& s.schema_spec().columns@ == schema.columns@
                    &&& s.select() == select@
                    &&& s.terms().len() == order_by@.len()
                    &&& forall|i: int|
                        0 <= i < order_by@.len() ==> resolves(
                            #[trigger] order_by@[i],
                            schema.columns@,
                            select@.len(),
                            s.terms()[i],
                        )
                },
                Err(e) => exists|i: int|
                    0 <= i < order_by@.len() && rejects(
                        #[trigger] order_by@[i],
                        schema.columns@,
                        select@.len(),
                        e.kind,
                    ),
            },
    {
        let ghost cols = schema.columns@;
        let mut by: Vec<SortKey> = Vec::new();
        let mut i: usize = 0;
        while i < order_by.len()
            invariant
                i <= order_by@.len(),
                cols == schema.columns@,
                by@.len() == i,
                forall|j: int|
                    0 <= j < i ==> resolves(#[trigger] order_by@[j], cols, select@.len(), by@[j]),
            decreases order_by@.len() - i,
        {
            let item = &order_by[i];
            if item.asc == Some(false) {
                return Err(Error::new(ErrorKind::Unsupported, "DESC is not implemented"));
            }
            if item.nulls_first.is_some() {
                return Err(Error::new(ErrorKind::Unsupported, "NULLS FIRST/LAST is not implemented"));
            }
            let e = match Expression::parse(&item.expr, schema) {
                Ok(e) => e,
                Err(err) => return Err(err),
            };
            let ghost ge = e;
            let key = match e {
                Expression::Const(Value::Int(n)) => {
                    if n <= 0 || n as u64 > select.len() as u64 {
                        proof {
                            assert(parses(order_by@[i as int].expr, cols, ge));
                            assert(position_of(ge, select@.len()) == Some(Err::<usize, ErrorKind>(ErrorKind::Resolution)));
                            assert(rejects(order_by@[i as int], cols, select@.len(), ErrorKind::Resolution));
                        }
                        return Err(Error::new(ErrorKind::Resolution, "ORDER BY term out of range"));
                    }
                    SortKey::Select((n - 1) as usize)
                },
                other => SortKey::Expr(other),
            };
            let ghost before = by@;
            by.push(key);
            proof {
                assert forall|j: int| 0 <= j < i + 1 implies resolves(#[trigger] order_by@[j], cols, select@.len(), by@[j]) by {
                    if j < i {
                        assert(by@[j] == before[j]);
                    }
                }
            }
            i = i + 1;
        }
        let s = Sort {
            schema: schema.copy(),
            by,
            select: Ghost(select@),
            rows: Vec::new(),
            keys: Vec::new(),
            runs: Vec::new(),
            results: Vec::new(),
            emitted: 0,
            state: State::Read,
        };
        proof {
            assert(runs_view(s.runs@) =~= Seq::<Seq<usize>>::empty());
            assert(span(0, 0) =~= Seq::<usize>::empty());
            lemma_empty_multiset();
        }
        Ok(s)
    }

    /// The sort key of one row.
    fn key_of(&self, row: &Row, select: &Vec<Expression>) -> (r: Result<Row, Error>)
        requires
            select@ == self.select(),
        ensures
            match r {
                Ok(k) => sort_key_spec(self.terms(), self.select(), row@) == Ok::<Seq<Value>, ErrorKind>(k@),
                Err(e) => sort_key_spec(self.terms(), self.select(), row@) == Err::<Seq<Value>, ErrorKind>(e.kind),
            },
    {
        let mut vals: Vec<Value> = Vec::new();
        let mut i: usize = 0;
        proof {
            assert(self.by@.take(0) =~= Seq::<SortKey>::empty());
        }
        while i < self.by.len()
            invariant
                i <= self.by@.len(),
                select@ == self.select@,
                sort_key_spec(self.by@.take(i as int), self.select@, row@) == Ok::<Seq<Value>, ErrorKind>(vals@),
            decreases self.by@.len() - i,
        {
            proof {
                assert(self.by@.take(i + 1).drop_last() =~= self.by@.take(i as int));
                assert(self.by@.take(i + 1).last() == self.by@[i as int]);
            }
            let v = match &self.by[i] {
                SortKey::Expr(e) => e.eval(row),
                SortKey::Select(p) => if *p < select.len() {
                    select[*p].eval(row)
                } else {
                    Err(Error::new(ErrorKind::Resolution, "ORDER BY term out of range"))
                },
            };
            let v = match v {
                Ok(v) => v,
                Err(e) => {
                    proof {
                        lemma_key_err_prefix(self.by@, self.select@, row@, i + 1, e.kind);
                    }
                    return Err(e);
                },
            };
            vals.push(v);
            i = i + 1;
        }
        proof {
            assert(self.by@.take(i as int) =~= self.by@);
        }
        Ok(Row::new(vals))
    }

    /// Reads one batch of the input: computes each row's key, then sorts the
    /// batch into a new run.
    pub fn read(&mut self, batch: Vec<Row>, select: &Vec<Expression>) -> (r: Result<(), Error>)
        requires
            old(self).wf(),
            old(self).reading(),
            select@ == old(self).select(),
        ensures
            final(self).terms() == old(self).terms(),
            final(self).select() == old(self).select(),
            r is Ok ==> {
                &&& final(self).wf()
                &&& final(self).reading()
                &&& final(self).input() == old(self).input() + rows_view(batch@)
                &&& final(self).keys().len() == final(self).input().len()
                &&& forall|i: int|
                    0 <= i < final(self).input().len() ==> sort_key_spec(
                        final(self).terms(),
                        final(self).select(),
                        #[trigger] final(self).input()[i],
                    ) == Ok::<Seq<Value>, ErrorKind>(final(self).keys()[i])
            },
            r is Err ==> exists|i: int|
                0 <= i < batch@.len() && sort_key_spec(old(self).terms(), old(self).select(), #[trigger] batch@[i]@)
                    == Err::<Seq<Value>, ErrorKind>(r->Err_0.kind),
    {
        let mut new_keys: Vec<Row> = Vec::new();
        let mut j: usize = 0;
        while j < batch.len()
            invariant
                j <= batch@.len(),
                new_keys@.len() == j,
                select@ == self.select(),
                forall|k: int|
                    0 <= k < j ==> sort_key_spec(self.terms(), self.select(), #[trigger] batch@[k]@) == Ok::<
                        Seq<Value>,
                        ErrorKind,
                    >(new_keys@[k]@),
            decreases batch@.len() - j,
        {
            let key = match self.key_of(&batch[j], select) {
                Ok(k) => k,
                Err(e) => return Err(e),
            };
            new_keys.push(key);
            j = j + 1;
        }
        let base = self.rows.len();
        let ghost old_keys = self.keys();
        let ghost old_rows = self.rows@;
        let mut k: usize = 0;
        while k < batch.len()
            invariant
                k <= batch@.len(),
                new_keys@.len() == batch@.len(),
                self.rows@.len() == base + k,
                self.keys@.len() == base + k,
                self.by == old(self).by,
                self.select == old(self).select,
                self.runs == old(self).runs,
                self.state == old(self).state,
                self.emitted == old(self).emitted,
                old_rows == old(self).rows@,
                old_keys == rows_view(old(self).keys@),
                old_keys.len() == base,
                rows_view(self.rows@) == rows_view(old_rows) + rows_view(batch@).take(k as int),
                forall|i: int| 0 <= i < base ==> #[trigger] rows_view(self.keys@)[i] == old_keys[i],
                forall|i: int|
                    0 <= i < base + k ==> sort_key_spec(self.by@, self.select@, #[trigger] self.rows@[i]@)
                        == Ok::<Seq<Value>, ErrorKind>(self.keys@[i]@),
                forall|m: int|
                    0 <= m < batch@.len() ==> sort_key_spec(self.by@, self.select@, #[trigger] batch@[m]@) == Ok::<
                        Seq<Value>,
                        ErrorKind,
                    >(new_keys@[m]@),
            decreases batch@.len() - k,
        {
            let ghost before_rows = self.rows@;
            let ghost before_keys = self.keys@;
            self.rows.push(batch[k].copy());
            self.keys.push(new_keys[k].copy());
            proof {
                assert(self.rows@[base + k]@ == batch@[k as int]@);
                assert(rows_view(self.rows@) =~= rows_view(before_rows).push(batch@[k as int]@));
                assert(rows_view(batch@).take(k + 1) =~= rows_view(batch@).take(k as int).push(batch@[k as int]@));
                assert(rows_view(self.rows@) =~= rows_view(old_rows) + rows_view(batch@).take(k + 1));
                assert forall|i: int| 0 <= i < base implies #[trigger] rows_view(self.keys@)[i] == old_keys[i] by {
                    assert(self.keys@[i] == before_keys[i]);
                    assert(rows_view(before_keys)[i] == old_keys[i]);
                }
                assert forall|i: int|
                    0 <= i < base + k + 1 implies sort_key_spec(self.by@, self.select@, #[trigger] self.rows@[i]@)
                        == Ok::<Seq<Value>, ErrorKind>(self.keys@[i]@) by {
                    if i < base + k {
                        assert(self.rows@[i] == before_rows[i]);
                        assert(self.keys@[i] == before_keys[i]);
                    }
                }
            }
            k = k + 1;
        }
        let run = sort_run(&self.keys, base, self.rows.len());
        let ghost before_runs = self.runs@;
        proof {
            assert forall|m: int| 0 <= m < before_runs.len() implies sorted_by(self.keys(), #[trigger] before_runs[m]@)
                && in_bounds(self.keys(), before_runs[m]@) by {
                lemma_extend_keys(old_keys, self.keys(), before_runs[m]@);
            }
        }
        self.runs.push(run);
        proof {
            broadcast use vstd::seq_lib::group_to_multiset_ensures;

            let n = self.rows@.len();
            assert(runs_view(self.runs@) =~= runs_view(before_runs).push(run@));
            assert(runs_view(self.runs@).drop_last() =~= runs_view(before_runs));
            assert(span(0, n) =~= span(0, base as nat) + span(base as nat, n));
            vstd::seq_lib::lemma_multiset_commutative(span(0, base as nat), span(base as nat, n));
            assert forall|m: int| 0 <= m < self.runs@.len() implies sorted_by(self.keys(), #[trigger] self.runs@[m]@)
                && in_bounds(self.keys(), self.runs@[m]@) by {
                if m < before_runs.len() {
                    assert(self.runs@[m] == before_runs[m]);
                }
            }
            assert(rows_view(batch@).take(batch@.len() as int) =~= rows_view(batch@));
            assert forall|i: int| 0 <= i < self.input().len() implies sort_key_spec(
                self.terms(),
                self.select(),
                #[trigger] self.input()[i],
            ) == Ok::<Seq<Value>, ErrorKind>(self.keys()[i]) by {
                assert(self.input()[i] == self.rows@[i]@);
            }
        }
        Ok(())
    }

    /// Ends the read phase: checks that all keys can be ordered against each
    /// other, then merges the runs into the final order.
    pub fn finish(&mut self) -> (r: Result<(), Error>)
        requires
            old(self).wf(),
            old(self).reading(),
        ensures
            final(self).terms() == old(self).terms(),
            final(self).select() == old(self).select(),
            final(self).input() == old(self).input(),
            final(self).keys() == old(self).keys(),
            r is Ok <==> all_comparable(old(self).keys()),
            r is Err ==> r->Err_0.kind == ErrorKind::Type,
            r is Ok ==> {
                &&& final(self).wf()
                &&& !final(self).reading()
                &&& final(self).keys().len() == final(self).input().len()
                &&& forall|i: int|
                    0 <= i < final(self).input().len() ==> sort_key_spec(
                        final(self).terms(),
                        final(self).select(),
                        #[trigger] final(self).input()[i],
                    ) == Ok::<Seq<Value>, ErrorKind>(final(self).keys()[i])
                &&& final(self).emitted() == 0
                &&& final(self).order().len() == final(self).input().len()
                &&& sorted_by(final(self).keys(), final(self).order())
                &&& in_bounds(final(self).keys(), final(self).order())
                &&& final(self).order().to_multiset() == span(0, final(self).input().len()).to_multiset()
            },
    {
        let n = self.keys.len();
        if n > 1 {
            let mut i: usize = 0;
            while i < n
                invariant
                    n == self.keys@.len(),
                    n > 1,
                    i <= n,
                    forall|j: int| 0 <= j < i ==> keys_comparable(self.keys@[0]@, #[trigger] self.keys@[j]@),
                decreases n - i,
            {
                if !keys_comparable_exec(&self.keys[0], &self.keys[i]) {
                    proof {
                        assert(!keys_comparable(self.keys()[0], self.keys()[i as int]));
                    }
                    return Err(Error::new(ErrorKind::Type, "cannot order sort keys of different types"));
                }
                i = i + 1;
            }
            proof {
                assert forall|j: int| 0 <= j < self.keys().len() implies keys_comparable(self.keys()[0], #[trigger] self.keys()[j]) by {
                    assert(keys_comparable(self.keys@[0]@, self.keys@[j]@));
                }
            }
        }
        let mut runs: Vec<Vec<usize>> = Vec::new();
        std::mem::swap(&mut runs, &mut self.runs);
        let results = merge_runs(&self.keys, runs);
        proof {
            assert forall|i: int| 0 <= i < self.input().len() implies sort_key_spec(
                self.terms(),
                self.select(),
                #[trigger] self.input()[i],
            ) == Ok::<Seq<Value>, ErrorKind>(self.keys()[i]) by {
                assert(self.input()[i] == self.rows@[i]@);
            }
            vstd::seq_lib::to_multiset_len(results@);
            vstd::seq_lib::to_multiset_len(span(0, self.rows@.len()));
        }
        self.results = results;
        self.state = State::Emit;
        Ok(())
    }

    /// The next batch of up to `BATCH_SIZE` rows in sorted order; `Finished`
    /// once all have been emitted.
    pub fn poll(&mut self) -> (r: Result<Output, Error>)
        requires
            old(self).wf(),
            !old(self).reading(),
        ensures
            final(self).wf(),
            !final(self).reading(),
            final(self).input() == old(self).input(),
            final(self).order() == old(self).order(),
            final(self).keys() == old(self).keys(),
            final(self).terms() == old(self).terms(),
            final(self).select() == old(self).select(),
            final(self).emitted() <= final(self).order().len(),
            r matches Ok(Output::Batch(_)) ==> final(self).emitted() > old(self).emitted(),
            ({
                let rest = emit_view(old(self).input(), old(self).order()).skip(old(self).emitted() as int);
                &&& rest.len() == 0 ==> (r matches Ok(Output::Finished))
                &&& rest.len() > 0 ==> (r matches Ok(Output::Batch(b)) && rows_view(b@) == rest.take(
                    batch_len(rest.len()) as int,
                ))
                &&& final(self).emitted() == old(self).emitted() + batch_len(rest.len())
            }),
    {
        let ghost out = emit_view(self.input(), self.order());
        let ghost start = self.emitted as int;
        if self.emitted >= self.results.len() {
            return Ok(Output::Finished);
        }
        let mut batch: Vec<Row> = Vec::new();
        while self.emitted < self.results.len() && batch.len() < BATCH_SIZE
            invariant
                self.wf(),
                self.state == State::Emit,
                self.rows == old(self).rows,
                self.keys == old(self).keys,
                self.results == old(self).results,
                self.by == old(self).by,
                self.select == old(self).select,
                out == emit_view(self.input(), self.order()),
                0 <= start <= self.emitted,
                start == old(self).emitted,
                batch@.len() == self.emitted - start,
                batch@.len() <= BATCH_SIZE,
                rows_view(batch@) == out.subrange(start, self.emitted as int),
            decreases self.results@.len() - self.emitted,
        {
            let i = self.results[self.emitted];
            let row = self.rows[i].copy();
            let ghost before = batch@;
            batch.push(row);
            proof {
                assert(out.len() == self.results@.len());
                assert(out[self.emitted as int] == self.input()[i as int]);
                assert(rows_view(batch@) =~= rows_view(before).push(self.rows@[i as int]@));
                assert(rows_view(before) == out.subrange(start, self.emitted as int));
                let e = self.emitted as int;
                assert(0 <= start);
                assert(start <= e);
                assert(e < self.results@.len());
                assert(e < out.len());
                assert(out.subrange(start, e + 1) =~= out.subrange(start, e).push(out[e]));
                assert(self.input()[i as int] == self.rows@[i as int]@);
            }
            self.emitted = self.emitted + 1;
        }
        proof {
            let rest = out.skip(start);
            assert(rows_view(batch@) =~= rest.take(batch_len(rest.len()) as int));
        }
        Ok(Output::Batch(batch))
    }
}

proof fn lemma_key_err_prefix(by: Seq<SortKey>, select: Seq<Expression>, row: Seq<Value>, j: int, k: ErrorKind)
    requires
        0 <= j <= by.len(),
        sort_key_spec(by.take(j), select, row) == Err::<Seq<Value>, ErrorKind>(k),
    ensures
        sort_key_spec(by, select, row) == Err::<Seq<Value>, ErrorKind>(k),
    decreases by.len() - j,
{
    if j == by.len() {
        assert(by.take(j) =~= by);
    } else {
        assert(by.take(j + 1).drop_last() =~= by.take(j));
        lemma_key_err_prefix(by, select, row, j + 1, k);
    }
}

proof fn lemma_text_total(a: Seq<char>, b: Seq<char>)
    ensures
        text_lt(a, b) || text_lt(b, a) || a == b,
    decreases a.len(),
{
    if a.len() > 0 && b.len() > 0 && a[0] == b[0] {
        lemma_text_total(a.drop_first(), b.drop_first());
        if a.drop_first() == b.drop_first() {
            assert(a =~= seq![a[0]] + a.drop_first());
            assert(b =~= seq![b[0]] + b.drop_first());
        }
    }
    if a.len() == 0 && b.len() == 0 {
        assert(a =~= b);
    }
}

proof fn lemma_key_total(a: Seq<Value>, b: Seq<Value>)
    requires
        keys_comparable(a, b),
    ensures
        key_lt(a, b) || key_lt(b, a) || values_eq(a, b),
    decreases a.len(),
{
    if a.len() > 0 {
        assert(comparable(a[0], b[0]));
        match (a[0], b[0]) {
            (Value::String(x), Value::String(y)) => lemma_text_total(x@, y@),
            _ => {},
        }
        lemma_value_lt(a[0], b[0], a[0]);
        lemma_value_lt(b[0], a[0], b[0]);
        assert(keys_comparable(a.drop_first(), b.drop_first())) by {
            assert forall|c: int| 0 <= c < a.len() - 1 implies comparable(#[trigger] a.drop_first()[c], b.drop_first()[c]) by {
                assert(comparable(a[c + 1], b[c + 1]));
            }
        }
        lemma_key_total(a.drop_first(), b.drop_first());
        if values_eq(a.drop_first(), b.drop_first()) && value_eq(a[0], b[0]) {
            lemma_values_eq_cons(a, b);
        }
    } else {
        assert(values_eq(a, b));
    }
}

proof fn lemma_comparable_via_first(k0: Seq<Value>, a: Seq<Value>, b: Seq<Value>)
    requires
        keys_comparable(k0, a),
        keys_comparable(k0, b),
    ensures
        keys_comparable(a, b),
{
    assert forall|c: int| 0 <= c < a.len() implies comparable(#[trigger] a[c], b[c]) by {
        assert(comparable(k0[c], a[c]) && comparable(k0[c], b[c]));
    }
}

/// Two distinct rows whose keys can be compared are ordered one way or the other.
proof fn lemma_before_total(keys: Seq<Seq<Value>>, x: usize, y: usize)
    requires
        all_comparable(keys),
        x < keys.len(),
        y < keys.len(),
        x != y,
    ensures
        before(keys, x, y) || before(keys, y, x),
{
    lemma_comparable_via_first(keys[0], keys[x as int], keys[y as int]);
    lemma_key_total(keys[x as int], keys[y as int]);
    lemma_key_lt(keys[x as int], keys[y as int], keys[x as int]);
}

proof fn lemma_no_duplicates(keys: Seq<Seq<Value>>, order: Seq<usize>)
    requires
        keys.len() <= usize::MAX,
        order.to_multiset() == span(0, keys.len()).to_multiset(),
    ensures
        order.no_duplicates(),
{
    let sp = span(0, keys.len());
    assert forall|i: int, j: int| 0 <= i < sp.len() && 0 <= j < sp.len() && i != j implies sp[i] != sp[j] by {
        assert(sp[i] == i as usize && sp[j] == j as usize);
    }
    assert(sp.no_duplicates());
    sp.lemma_multiset_has_no_duplicates();
    order.lemma_multiset_has_no_duplicates_conv();
}

proof fn lemma_sorted_chain(keys: Seq<Seq<Value>>, order: Seq<usize>, a: int, b: int)
    requires
        all_comparable(keys),
        sorted_by(keys, order),
        in_bounds(keys, order),
        order.no_duplicates(),
        0 <= a < b < order.len(),
    ensures
        before(keys, order[a], order[b]),
    decreases b - a,
{
    assert(!before(keys, order[b], order[b - 1]));
    lemma_before_total(keys, order[b - 1], order[b]);
    if a < b - 1 {
        lemma_sorted_chain(keys, order, a, b - 1);
        lemma_before(keys, order[a], order[b - 1], order[b]);
    }
}

/// The sort is stable: in its output order (arrival positions, sorted, each
/// once), two rows with equal keys keep the order in which they arrived, and
/// every row's key is no greater than the keys after it.
pub proof fn lemma_sort_stable(keys: Seq<Seq<Value>>, order: Seq<usize>, a: int, b: int)
    requires
        keys.len() <= usize::MAX,
        all_comparable(keys),
        sorted_by(keys, order),
        in_bounds(keys, order),
        order.to_multiset() == span(0, keys.len()).to_multiset(),
        0 <= a < b < order.len(),
    ensures
        !key_lt(keys[order[b] as int], keys[order[a] as int]),
        values_eq(keys[order[a] as int], keys[order[b] as int]) ==> order[a] < order[b],
{
    lemma_no_duplicates(keys, order);
    lemma_sorted_chain(keys, order, a, b);
    lemma_before(keys, order[a], order[b], order[a]);
    lemma_key_lt(keys[order[a] as int], keys[order[b] as int], keys[order[a] as int]);
    lemma_key_lt(keys[order[b] as int], keys[order[a] as int], keys[order[b] as int]);
}

/// `ORDER BY n` means the `n`-th select expression: when that expression was
/// resolved from a column name, ordering by the position and ordering by
/// that name give every row the same key.
pub proof fn lemma_order_by_position(
    select: Seq<Expression>,
    cols: Seq<crate::schema::Column>,
    name: SqlExpr,
    by_name: Expression,
    n: int,
    row: Seq<Value>,
)
    requires
        name is Identifier,
        1 <= n <= select.len() <= usize::MAX,
        parses(name, cols, select[n - 1]),
        parses(name, cols, by_name),
    ensures
        key_value(SortKey::Select((n - 1) as usize), select, row) == key_value(SortKey::Expr(by_name), select, row),
{
    let x = name->Identifier_0@;
    let (i, j) = (select[n - 1]->Field_0 as int, by_name->Field_0 as int);
    assert(first_column(cols, x, i) && first_column(cols, x, j));
    if i < j {
        assert(cols[i].name@ != x);
    } else if j < i {
        assert(cols[j].name@ != x);
    }
    assert(select[n - 1] == by_name);
}

impl Sort {
    /// The schema of the rows it emits: that of its input.
    pub fn schema(&self) -> (r: &Schema)
        ensures
            *r == self.schema_spec(),
    {
        &self.schema
    }
}

impl crate::ops::Operation for Sort {
    /// Rows can be pulled once the input has been read and merged.
    open spec fn ready(&self) -> bool {
        self.wf() && !self.reading()
    }

    fn schema(&self) -> &Schema {
        Sort::schema(self)
    }

    fn poll(&mut self) -> (r: Result<Output, Error>) {
        let r = Sort::poll(self);
        proof {
            if r is Ok && r->Ok_0 is Batch {
                assert(rows_view(r->Ok_0->Batch_0@).len() == r->Ok_0->Batch_0@.len());
            }
        }
        r
    }
}

} // verus!
