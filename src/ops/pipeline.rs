use vstd::prelude::*;

use crate::codec::row_bytes;
use crate::error::{Error, ErrorKind};
use crate::expression::Expression;
use crate::ops::empty::Empty;
use crate::ops::eval::{eval_row_spec, eval_rows_spec, lemma_eval_arity, lemma_eval_rows_concat, Eval};
use crate::ops::filter::{filter_spec, lemma_filter_concat, Filter};
use crate::ops::fullscan::FullScan;
use crate::ops::sort::{
    all_comparable, emit_view, in_bounds, sort_key_spec, sorted_by, span, Sort, SortKey,
};
use crate::ops::values::Values;
use crate::ops::{rows_view, Output};
use crate::schema::Schema;
use crate::types::{Row, Value};

verus! {

/// Where the rows of a query come from.
pub enum Source {
    Empty(Empty),
    Values(Values),
    Scan(FullScan),
}

impl Source {
    pub open spec fn wf(&self) -> bool {
        match self {
            Source::Empty(_) => true,
            Source::Values(v) => v.wf(),
            Source::Scan(s) => s.wf(),
        }
    }

    /// `rows` is what the source emits from now on: the remaining rows, the
    /// one empty row, or rows whose stored forms are the remaining entries.
    pub open spec fn emits(&self, rows: Seq<Seq<Value>>) -> bool {
        match self {
            Source::Empty(e) => rows == (if e.pending() == 0 {
                Seq::<Seq<Value>>::empty()
            } else {
                seq![Seq::<Value>::empty()]
            }),
            Source::Values(v) => rows == v.remaining(),
            Source::Scan(s) => rows.len() == s.pending() && forall|k: int|
                0 <= k < rows.len() ==> row_bytes(#[trigger] rows[k]) == s.entries()[s.position() + k].1@,
        }
    }

    /// Rows (or stored entries) not yet emitted.
    pub open spec fn pending(&self) -> nat {
        match self {
            Source::Empty(e) => e.pending(),
            Source::Values(v) => v.pending(),
            Source::Scan(s) => s.pending(),
        }
    }

    pub fn schema(&self) -> (r: &Schema) {
        match self {
            Source::Empty(e) => e.schema(),
            Source::Values(v) => v.schema(),
            Source::Scan(s) => s.schema(),
        }
    }

    /// The next batch: never empty, and each one leaves fewer rows pending.
    pub fn poll(&mut self) -> (r: Result<Output, Error>)
        requires
            old(self).wf(),
        ensures
            final(self).wf(),
            r matches Ok(Output::Batch(b)) ==> b@.len() > 0,
            r matches Ok(Output::Batch(_)) ==> final(self).pending() < old(self).pending(),
            r matches Ok(Output::Finished) ==> old(self).pending() == 0,
            r matches Ok(Output::Finished) ==> old(self).emits(Seq::empty()),
            r matches Ok(Output::Batch(b)) ==> forall|rest: Seq<Seq<Value>>|
                final(self).emits(rest) ==> old(self).emits(rows_view(b@) + rest),
            (exists|rows: Seq<Seq<Value>>| old(self).emits(rows)) ==> r is Ok,
            r matches Ok(Output::Batch(b)) ==> forall|rows: Seq<Seq<Value>>|
                #[trigger] old(self).emits(rows) ==> final(self).emits(rows.skip(b@.len() as int)),
    {
        match self {
            Source::Values(v) => poll_values(v),
            Source::Scan(s) => {
                let ghost before = *s;
                proof {
                    lemma_scan_decodable(before);
                }
                let r = poll_scan(s);
                proof {
                    if r is Ok && r->Ok_0 is Batch {
                        let b = rows_view(r->Ok_0->Batch_0@);
                        lemma_scan_skip(before, *s, b.len() as int);
                        lemma_scan_prefix(before, *s, b);
                    }
                }
                r
            },
            Source::Empty(e) => {
                let ghost before = *e;
                let r = poll_empty(e);
                proof {
                    if r is Ok && r->Ok_0 is Batch {
                        assert(r->Ok_0->Batch_0@.len() == 1);
                        assert forall|rows: Seq<Seq<Value>>| #[trigger] Source::Empty(before).emits(rows) implies Source::Empty(
                            *e,
                        ).emits(rows.skip(1)) by {
                            assert(rows.skip(1) =~= Seq::<Seq<Value>>::empty());
                        }
                    }
                }
                r
            },
        }
    }
}

proof fn lemma_scan_decodable(scan: FullScan)
    ensures
        (exists|rows: Seq<Seq<Value>>| Source::Scan(scan).emits(rows)) ==> scan.decodable(),
{
    if exists|rows: Seq<Seq<Value>>| Source::Scan(scan).emits(rows) {
        let rows = choose|rows: Seq<Seq<Value>>| Source::Scan(scan).emits(rows);
        assert forall|k: int| scan.position() <= k < scan.entries().len() implies crate::ops::fullscan::stored_form(
            #[trigger] scan.entries()[k].1@,
        ) by {
            assert(row_bytes(rows[k - scan.position()]) == scan.entries()[k].1@);
        }
        assert(scan.decodable());
    }
}

proof fn lemma_scan_skip(before: FullScan, after: FullScan, n: int)
    requires
        0 <= n,
        after.entries() == before.entries(),
        after.position() == before.position() + n,
        after.position() <= after.entries().len(),
    ensures
        forall|rows: Seq<Seq<Value>>|
            #[trigger] Source::Scan(before).emits(rows) ==> Source::Scan(after).emits(rows.skip(n)),
{
    assert forall|rows: Seq<Seq<Value>>| #[trigger] Source::Scan(before).emits(rows) implies Source::Scan(after).emits(
        rows.skip(n),
    ) by {
        assert forall|k: int| 0 <= k < rows.skip(n).len() implies row_bytes(#[trigger] rows.skip(n)[k])
            == after.entries()[after.position() + k].1@ by {
            assert(rows.skip(n)[k] == rows[n + k]);
        }
    }
}

proof fn lemma_scan_prefix(before: FullScan, after: FullScan, b: Seq<Seq<Value>>)
    requires
        after.entries() == before.entries(),
        after.position() == before.position() + b.len(),
        before.position() <= before.entries().len(),
        after.position() <= after.entries().len(),
        forall|k: int| 0 <= k < b.len() ==> row_bytes(#[trigger] b[k]) == before.entries()[before.position() + k].1@,
    ensures
        forall|rest: Seq<Seq<Value>>|
            Source::Scan(after).emits(rest) ==> #[trigger] Source::Scan(before).emits(b + rest),
{
    let n = b.len() as int;
    assert forall|rest: Seq<Seq<Value>>| Source::Scan(after).emits(rest) implies #[trigger] Source::Scan(before).emits(
        b + rest,
    ) by {
        assert forall|k: int| 0 <= k < (b + rest).len() implies row_bytes(#[trigger] (b + rest)[k])
            == before.entries()[before.position() + k].1@ by {
            if k >= n {
                assert((b + rest)[k] == rest[k - n]);
            }
        }
    }
}

fn poll_values(v: &mut Values) -> (r: Result<Output, Error>)
    requires
        old(v).wf(),
    ensures
        final(v).wf(),
        r matches Ok(Output::Batch(b)) ==> b@.len() > 0,
        r matches Ok(Output::Batch(_)) ==> final(v).pending() < old(v).pending(),
        r matches Ok(Output::Finished) ==> old(v).pending() == 0,
        r matches Ok(Output::Finished) ==> old(v).remaining() == Seq::<Seq<Value>>::empty(),
        r matches Ok(Output::Batch(b)) ==> old(v).remaining() == rows_view(b@) + final(v).remaining(),
        r matches Ok(Output::Batch(b)) ==> final(v).remaining() == old(v).remaining().skip(b@.len() as int),
        r is Ok,
{
    let r = v.poll();
    proof {
        if old(v).pending() > 0 {
            assert(r matches Ok(Output::Batch(b)) && b@.len() == rows_view(b@).len());
            let n = crate::ops::batch_len(old(v).remaining().len()) as int;
            assert(old(v).remaining() =~= old(v).remaining().take(n) + old(v).remaining().skip(n));
        } else {
            assert(old(v).remaining() =~= Seq::<Seq<Value>>::empty());
        }
    }
    r
}

fn poll_scan(s: &mut FullScan) -> (r: Result<Output, Error>)
    requires
        old(s).wf(),
    ensures
        final(s).wf(),
        r matches Ok(Output::Batch(b)) ==> b@.len() > 0,
        r matches Ok(Output::Batch(_)) ==> final(s).pending() < old(s).pending(),
        r matches Ok(Output::Finished) ==> old(s).pending() == 0,
        final(s).entries() == old(s).entries(),
        old(s).position() <= old(s).entries().len(),
        final(s).position() <= final(s).entries().len(),
        old(s).decodable() ==> r is Ok,
        r matches Ok(Output::Batch(b)) ==> final(s).position() == old(s).position() + b@.len() && forall|k: int|
            0 <= k < b@.len() ==> row_bytes(#[trigger] b@[k]@) == old(s).entries()[old(s).position() + k].1@,
{
    s.poll()
}

fn poll_empty(e: &mut Empty) -> (r: Result<Output, Error>)
    ensures
        r matches Ok(Output::Batch(b)) ==> b@.len() > 0,
        r matches Ok(Output::Batch(_)) ==> final(e).pending() < old(e).pending(),
        r matches Ok(Output::Finished) ==> old(e).pending() == 0,
        final(e).pending() == 0,
        r matches Ok(Output::Batch(b)) ==> rows_view(b@) == seq![Seq::<Value>::empty()] && old(e).pending() == 1
            && b@.len() == 1,
        r is Ok,
{
    let r = e.poll();
    proof {
        if r is Ok && r->Ok_0 is Batch {
            assert(rows_view(r->Ok_0->Batch_0@).len() == r->Ok_0->Batch_0@.len());
        }
    }
    r
}

/// A query plan: a source, an optional filter, an optional sort, and the
/// projection that evaluates the output expressions.
pub struct Pipeline {
    source: Source,
    filter: Option<Filter>,
    sort: Option<Sort>,
    eval: Eval,
}

impl Pipeline {
    pub closed spec fn wf(&self) -> bool {
        &&& self.source.wf()
        &&& self.eval.schema_spec().columns@.len() == self.eval.exprs().len()
        &&& self.sort matches Some(s) ==> s.wf() && s.reading() && s.select() == self.eval.exprs()
            && s.input().len() == 0 && s.keys().len() == 0
    }

    /// The output expressions.
    pub closed spec fn exprs(&self) -> Seq<crate::expression::Expression> {
        self.eval.exprs()
    }

    pub closed spec fn schema_spec(&self) -> Schema {
        self.eval.schema_spec()
    }

    pub fn new(source: Source, filter: Option<Filter>, sort: Option<Sort>, eval: Eval) -> (r: Pipeline)
        requires
            source.wf(),
            eval.schema_spec().columns@.len() == eval.exprs().len(),
            sort matches Some(s) ==> s.wf() && s.reading() && s.select() == eval.exprs() && s.input().len() == 0
                && s.keys().len() == 0,
        ensures
            r.wf(),
            r.exprs() == eval.exprs(),
            r.schema_spec() == eval.schema_spec(),
            forall|rows: Seq<Seq<Value>>| #[trigger] r.emits(rows) == source.emits(rows),
            r.predicate() == (match filter {
                Some(f) => Some(f.predicate()),
                None => None,
            }),
            r.sort_terms() == (match sort {
                Some(s) => Some(s.terms()),
                None => None::<Seq<SortKey>>,
            }),
    {
        Pipeline { source, filter, sort, eval }
    }

    /// The schema of the rows the plan produces.
    pub fn schema(&self) -> (r: &Schema)
        ensures
            *r == self.schema_spec(),
            self.wf() ==> r.columns@.len() == self.exprs().len(),
    {
        self.eval.schema()
    }

    /// The plan runs to completion: its source can emit some rows, and on
    /// whatever it emits the predicate, the output expressions and the sort
    /// keys evaluate.
    pub open spec fn can_run(&self) -> bool {
        &&& exists|rows: Seq<Seq<Value>>| self.emits(rows)
        &&& forall|input: Seq<Seq<Value>>|
            #[trigger] self.emits(input) ==> runs_ok(self.predicate(), self.sort_terms(), self.exprs(), input)
    }

    /// `rows` is what the source emits.
    pub closed spec fn emits(&self, rows: Seq<Seq<Value>>) -> bool {
        self.source.emits(rows)
    }

    /// The `WHERE` predicate, if any.
    pub closed spec fn predicate(&self) -> Option<Expression> {
        match self.filter {
            Some(f) => Some(f.predicate()),
            None => None,
        }
    }

    /// The `ORDER BY` terms, if any.
    pub closed spec fn sort_terms(&self) -> Option<Seq<SortKey>> {
        match self.sort {
            Some(s) => Some(s.terms()),
            None => None,
        }
    }

    /// Runs the plan to completion and collects its rows: the source's rows,
    /// filtered, sorted when there are `ORDER BY` terms, then evaluated
    /// through the output expressions.
    #[verifier::rlimit(60)]
    pub fn run(&mut self) -> (r: Result<Vec<Row>, Error>)
        requires
            old(self).wf(),
        ensures
            final(self).schema_spec() == old(self).schema_spec(),
            final(self).exprs() == old(self).exprs(),
            final(self).schema_spec().columns@.len() == final(self).exprs().len(),
            r matches Ok(rows) ==> forall|i: int|
                0 <= i < rows@.len() ==> (#[trigger] rows@[i])@.len() == old(self).exprs().len(),
            old(self).can_run() ==> r is Ok,
            r matches Ok(rows) ==> exists|input: Seq<Seq<Value>>|
                old(self).emits(input) && produces(
                    old(self).predicate(),
                    old(self).sort_terms(),
                    old(self).exprs(),
                    input,
                    rows_view(rows@),
                ),
    {
        let mut out: Vec<Row> = Vec::new();
        let ghost exprs = self.eval.exprs();
        let ghost pred = self.predicate();
        let ghost terms = self.sort_terms();
        let ghost mut seen: Seq<Seq<Value>> = Seq::empty();
        let ghost mut kept: Seq<Seq<Value>> = Seq::empty();
        let ghost ok = self.can_run();
        proof {
            if ok {
                let r0 = choose|rows: Seq<Seq<Value>>| self.emits(rows);
                assert(self.source.emits(r0));
            }
        }
        proof {
            assert(rows_view(out@) =~= Seq::<Seq<Value>>::empty());
            assert forall|rest: Seq<Seq<Value>>| self.source.emits(rest) implies old(self).source.emits(seen + rest) by {
                assert(seen + rest =~= rest);
            }
        }
        proof {
            if self.sort is Some {
                assert(self.sort->Some_0.input() =~= kept);
                assert(self.sort->Some_0.keys() =~= Seq::<Seq<Value>>::empty());
            }
        }
        loop
            invariant_except_break
                forall|rest: Seq<Seq<Value>>| self.source.emits(rest) ==> old(self).source.emits(seen + rest),
                self.sort matches Some(s) ==> s.wf() && s.reading() && s.select() == exprs,
                ok ==> exists|rows: Seq<Seq<Value>>| self.source.emits(rows),
            invariant
                ok == old(self).can_run(),

                self.sort matches Some(s) ==> s.keys().len() == kept.len() && forall|i: int|
                    0 <= i < kept.len() ==> sort_key_spec(terms->Some_0, exprs, #[trigger] kept[i])
                        == Ok::<Seq<Value>, ErrorKind>(s.keys()[i]),
                self.source.wf(),
                self.eval.schema_spec().columns@.len() == self.eval.exprs().len(),
                self.eval == old(self).eval,
                self.filter == old(self).filter,
                self.eval.exprs() == exprs,
                exprs == old(self).exprs(),
                pred == old(self).predicate(),
                terms == old(self).sort_terms(),
                self.sort is Some <==> old(self).sort is Some,
                self.sort matches Some(s) ==> s.terms() == terms->Some_0 && s.input() == kept && s.select() == exprs,
                filtered(pred, seen) == Ok::<Seq<Seq<Value>>, ErrorKind>(kept),
                self.sort is None ==> eval_rows_spec(exprs, kept) == Ok::<Seq<Seq<Value>>, ErrorKind>(rows_view(out@)),
                self.sort is Some ==> out@.len() == 0,
                forall|i: int| 0 <= i < out@.len() ==> (#[trigger] out@[i])@.len() == exprs.len(),
            ensures
                old(self).source.emits(seen),
                self.sort matches Some(s) ==> s.wf() && s.reading() && s.select() == exprs,
                ok ==> runs_ok(pred, terms, exprs, seen),
            decreases self.source.pending(),
        {
            let ghost src0 = self.source;
            let ghost rcur = choose|rows: Seq<Seq<Value>>| src0.emits(rows);
            let batch = match self.source.poll() {
                Ok(Output::Batch(b)) => b,
                Ok(Output::Finished) => {
                    proof {
                        assert(src0.emits(Seq::empty()));
                        assert(seen + Seq::<Seq<Value>>::empty() =~= seen);
                        assert(old(self).source.emits(seen));
                        assert(old(self).emits(seen));
                    }
                    break;
                },
                Err(e) => {
                    proof {
                        if ok {
                            assert(src0.emits(rcur));
                        }
                        assert(!ok);
                    }
                    return Err(e);
                },
            };
            let ghost b = rows_view(batch@);
            proof {
                assert forall|rest: Seq<Seq<Value>>| self.source.emits(rest) implies old(self).source.emits((seen + b) + rest) by {
                    assert((seen + b) + rest =~= seen + (b + rest));
                }
                if ok {
                    assert(b.len() == batch@.len());
                    let rnext = rcur.skip(batch@.len() as int);
                    assert(self.source.emits(rnext));
                    assert(old(self).source.emits((seen + b) + rnext));
                    assert(old(self).emits((seen + b) + rnext));
                    lemma_batch_ok(pred, terms, exprs, seen, b, rnext, kept);
                }
            }
            let batch = match &self.filter {
                Some(f) => match f.apply(&batch) {
                    Ok(x) => x,
                    Err(e) => {
                        assert(!ok);
                        return Err(e);
                    },
                },
                None => batch,
            };
            proof {
                match pred {
                    Some(p) => {
                        lemma_filter_concat(p, seen, b);
                    },
                    None => {},
                }
                seen = seen + b;
            }
            let ghost fb = rows_view(batch@);
            proof {
                if ok {
                    assert(fb == filtered(pred, b)->Ok_0);
                }
            }
            match &mut self.sort {
                Some(s) => {
                    let ghost bvec = batch@;
                    match s.read(batch, self.eval.expressions()) {
                        Ok(()) => {},
                        Err(e) => {
                            proof {
                                if ok {
                                    let i = choose|i: int|
                                        0 <= i < bvec.len() && sort_key_spec(terms->Some_0, exprs, #[trigger] bvec[i]@)
                                            == Err::<Seq<Value>, ErrorKind>(e.kind);
                                    assert(rows_keys_ok(terms->Some_0, exprs, fb));
                                    assert(fb[i] == bvec[i]@);
                                }
                            }
                            return Err(e);
                        },
                    }
                    proof {
                        assert forall|i: int| 0 <= i < kept.len() + fb.len() implies sort_key_spec(
                            terms->Some_0,
                            exprs,
                            #[trigger] (kept + fb)[i],
                        ) == Ok::<Seq<Value>, ErrorKind>(s.keys()[i]) by {
                            assert((kept + fb)[i] == s.input()[i]);
                        }
                    }
                },
                None => {
                    proof {
                        if ok {
                            lemma_eval_pointwise(exprs, fb);
                        }
                    }
                    let rows = match self.eval.apply(&batch) {
                        Ok(rows) => rows,
                        Err(e) => {
                            assert(!ok);
                            return Err(e);
                        },
                    };
                    proof {
                        lemma_eval_rows_concat(exprs, kept, fb);
                    }
                    append_rows(&mut out, rows, Ghost(exprs), Ghost(fb));
                },
            }
            proof {
                kept = kept + fb;
            }
        }
        match &mut self.sort {
            Some(s) => {
                proof {
                    if ok {
                        let t = terms->Some_0;
                        assert(s.keys() =~= Seq::new(kept.len(), |k: int| sort_key_spec(t, exprs, kept[k])->Ok_0));
                    }
                }
                match s.finish() {
                    Ok(()) => {},
                    Err(e) => {
                        assert(!ok);
                        return Err(e);
                    },
                }
                let ghost sorted = emit_view(kept, s.order());
                proof {
                    assert(sorted.take(0) =~= Seq::<Seq<Value>>::empty());
                    assert(rows_view(out@) =~= Seq::<Seq<Value>>::empty());
                }
                loop
                    invariant
                        ok == old(self).can_run(),
                        pred == old(self).predicate(),
                        terms == old(self).sort_terms(),
                        exprs == old(self).exprs(),
                        s.wf(),
                        !s.reading(),
                        s.input() == kept,
                        s.terms() == terms->Some_0,
                        s.select() == exprs,
                        sorted == emit_view(kept, s.order()),
                        s.keys().len() == kept.len(),
                        forall|i: int|
                            0 <= i < kept.len() ==> sort_key_spec(s.terms(), s.select(), #[trigger] kept[i])
                                == Ok::<Seq<Value>, ErrorKind>(s.keys()[i]),
                        all_comparable(s.keys()),
                        sorted_by(s.keys(), s.order()),
                        in_bounds(s.keys(), s.order()),
                        s.order().to_multiset() == span(0, kept.len()).to_multiset(),
                        s.emitted() <= s.order().len(),
                        eval_rows_spec(exprs, sorted.take(s.emitted() as int)) == Ok::<Seq<Seq<Value>>, ErrorKind>(
                            rows_view(out@),
                        ),
                        self.eval == old(self).eval,
                        self.eval.schema_spec().columns@.len() == self.eval.exprs().len(),
                        self.eval.exprs() == exprs,
                        forall|i: int| 0 <= i < out@.len() ==> (#[trigger] out@[i])@.len() == exprs.len(),
                        ok ==> forall|k: int| 0 <= k < kept.len() ==> (eval_row_spec(exprs, #[trigger] kept[k]) is Ok),
                    ensures
                        eval_rows_spec(exprs, sorted) == Ok::<Seq<Seq<Value>>, ErrorKind>(rows_view(out@)),
                    decreases s.order().len() - s.emitted(),
                {
                    let ghost e0 = s.emitted() as int;
                    let batch = match s.poll() {
                        Ok(Output::Batch(b)) => b,
                        Ok(Output::Finished) => {
                            proof {
                                assert(sorted.take(e0) =~= sorted);
                                assert(eval_rows_spec(exprs, sorted) == Ok::<Seq<Seq<Value>>, ErrorKind>(
                                    rows_view(out@),
                                ));
                            }
                            break;
                        },
                        Err(e) => return Err(e),
                    };
                    let ghost fb = rows_view(batch@);
                    proof {
                        assert(sorted.take(s.emitted() as int) =~= sorted.take(e0) + fb);
                        lemma_eval_rows_concat(exprs, sorted.take(e0), fb);
                        if ok {
                            assert forall|j: int| 0 <= j < fb.len() implies (eval_row_spec(exprs, #[trigger] fb[j]) is Ok) by {
                                assert(fb[j] == sorted.take(s.emitted() as int)[e0 + j]);
                                assert(sorted[e0 + j] == kept[s.order()[e0 + j] as int]);
                            }
                            lemma_eval_pointwise(exprs, fb);
                        }
                    }
                    let rows = match self.eval.apply(&batch) {
                        Ok(rows) => rows,
                        Err(e) => {
                            assert(!ok);
                            return Err(e);
                        },
                    };
                    append_rows(&mut out, rows, Ghost(exprs), Ghost(fb));
                }
                proof {
                    let keys = s.keys();
                    let order = s.order();
                    assert(eval_rows_spec(exprs, emit_view(kept, order)) == Ok::<Seq<Seq<Value>>, ErrorKind>(
                        rows_view(out@),
                    ));
                    assert(sorted_output(terms->Some_0, exprs, kept, rows_view(out@)));
                }
            },
            None => {},
        }
        proof {
            assert(produces(pred, terms, exprs, seen, rows_view(out@)));
            assert(old(self).emits(seen));
        }
        Ok(out)
    }
}

/// The plan can run on `input` without error: the predicate and the output
/// expressions evaluate on every row they see, and with `ORDER BY` every
/// kept row has a key and all keys can be ordered against each other.
pub open spec fn runs_ok(
    pred: Option<Expression>,
    terms: Option<Seq<SortKey>>,
    exprs: Seq<Expression>,
    input: Seq<Seq<Value>>,
) -> bool {
    &&& filtered(pred, input) is Ok
    &&& forall|k: int|
        0 <= k < filtered(pred, input)->Ok_0.len() ==> (eval_row_spec(
            exprs,
            #[trigger] filtered(pred, input)->Ok_0[k],
        ) is Ok)
    &&& terms matches Some(t) ==> keys_ok(t, exprs, filtered(pred, input)->Ok_0)
}

/// Every row has a sort key, and the keys can all be ordered.
pub open spec fn keys_ok(t: Seq<SortKey>, exprs: Seq<Expression>, rows: Seq<Seq<Value>>) -> bool {
    &&& forall|k: int| 0 <= k < rows.len() ==> (sort_key_spec(t, exprs, #[trigger] rows[k]) is Ok)
    &&& all_comparable(Seq::new(rows.len(), |k: int| sort_key_spec(t, exprs, rows[k])->Ok_0))
}

proof fn lemma_filtered_split(pred: Option<Expression>, a: Seq<Seq<Value>>, c: Seq<Seq<Value>>)
    requires
        filtered(pred, a + c) is Ok,
    ensures
        filtered(pred, a) is Ok,
        filtered(pred, c) is Ok,
        filtered(pred, a + c)->Ok_0 == filtered(pred, a)->Ok_0 + filtered(pred, c)->Ok_0,
{
    if let Some(p) = pred {
        if let Err(k) = filter_spec(p, a) {
            assert((a + c).take(a.len() as int) =~= a);
            crate::ops::filter::lemma_filter_err_prefix(p, a + c, a.len() as int, k);
        }
        lemma_filter_concat(p, a, c);
    }
}

proof fn lemma_batch_ok(
    pred: Option<Expression>,
    terms: Option<Seq<SortKey>>,
    exprs: Seq<Expression>,
    seen: Seq<Seq<Value>>,
    b: Seq<Seq<Value>>,
    rest: Seq<Seq<Value>>,
    kept: Seq<Seq<Value>>,
)
    requires
        runs_ok(pred, terms, exprs, (seen + b) + rest),
        filtered(pred, seen) == Ok::<Seq<Seq<Value>>, ErrorKind>(kept),
    ensures
        filtered(pred, b) is Ok,
        rows_eval_ok(exprs, filtered(pred, b)->Ok_0),
        terms is Some ==> rows_keys_ok(terms->Some_0, exprs, filtered(pred, b)->Ok_0),
{
    lemma_filtered_split(pred, seen + b, rest);
    lemma_filtered_split(pred, seen, b);
    let fb = filtered(pred, b)->Ok_0;
    let all = filtered(pred, (seen + b) + rest)->Ok_0;
    assert forall|j: int| 0 <= j < fb.len() implies #[trigger] fb[j] == all[kept.len() + j] by {
        assert(all == (kept + fb) + filtered(pred, rest)->Ok_0);
    }
    assert forall|j: int| 0 <= j < fb.len() implies (eval_row_spec(exprs, #[trigger] fb[j]) is Ok) by {
        assert(fb[j] == all[kept.len() + j]);
    }
    if let Some(t) = terms {
        assert forall|j: int| 0 <= j < fb.len() implies (sort_key_spec(t, exprs, #[trigger] fb[j]) is Ok) by {
            assert(fb[j] == all[kept.len() + j]);
        }
    }
}

/// Every row evaluates through the expressions.
pub open spec fn rows_eval_ok(exprs: Seq<Expression>, rows: Seq<Seq<Value>>) -> bool {
    forall|k: int| 0 <= k < rows.len() ==> (eval_row_spec(exprs, #[trigger] rows[k]) is Ok)
}

/// Every row has a sort key.
pub open spec fn rows_keys_ok(t: Seq<SortKey>, exprs: Seq<Expression>, rows: Seq<Seq<Value>>) -> bool {
    forall|k: int| 0 <= k < rows.len() ==> (sort_key_spec(t, exprs, #[trigger] rows[k]) is Ok)
}

proof fn lemma_eval_pointwise(exprs: Seq<Expression>, rows: Seq<Seq<Value>>)
    requires
        forall|k: int| 0 <= k < rows.len() ==> (eval_row_spec(exprs, #[trigger] rows[k]) is Ok),
    ensures
        eval_rows_spec(exprs, rows) is Ok,
    decreases rows.len(),
{
    if rows.len() > 0 {
        assert forall|k: int| 0 <= k < rows.len() - 1 implies (eval_row_spec(exprs, #[trigger] rows.drop_last()[k]) is Ok) by {
            assert(rows.drop_last()[k] == rows[k]);
        }
        lemma_eval_pointwise(exprs, rows.drop_last());
        assert(eval_row_spec(exprs, rows[rows.len() - 1]) is Ok);
    }
}

/// The rows that pass the predicate, if there is one.
pub open spec fn filtered(pred: Option<Expression>, rows: Seq<Seq<Value>>) -> Result<Seq<Seq<Value>>, ErrorKind> {
    match pred {
        Some(p) => filter_spec(p, rows),
        None => Ok(rows),
    }
}

/// `out` is `rows` in a stable order by the sort terms, evaluated: some
/// permutation of the rows, sorted by key with ties in arrival order.
pub open spec fn sorted_output(
    terms: Seq<SortKey>,
    exprs: Seq<Expression>,
    rows: Seq<Seq<Value>>,
    out: Seq<Seq<Value>>,
) -> bool {
    exists|keys: Seq<Seq<Value>>, order: Seq<usize>|
        {
            &&& keys.len() == rows.len()
            &&& forall|i: int|
                0 <= i < rows.len() ==> sort_key_spec(terms, exprs, #[trigger] rows[i]) == Ok::<
                    Seq<Value>,
                    ErrorKind,
                >(keys[i])
            &&& all_comparable(keys)
            &&& sorted_by(keys, order)
            &&& in_bounds(keys, order)
            &&& order.to_multiset() == span(0, rows.len()).to_multiset()
            &&& eval_rows_spec(exprs, emit_view(rows, order)) == Ok::<Seq<Seq<Value>>, ErrorKind>(out)
        }
}

/// What a plan produces from the rows its source emits: filter, then sort
/// if there are terms, then evaluate the output expressions.
pub open spec fn produces(
    pred: Option<Expression>,
    terms: Option<Seq<SortKey>>,
    exprs: Seq<Expression>,
    input: Seq<Seq<Value>>,
    out: Seq<Seq<Value>>,
) -> bool {
    &&& filtered(pred, input) is Ok
    &&& match terms {
        None => eval_rows_spec(exprs, filtered(pred, input)->Ok_0) == Ok::<Seq<Seq<Value>>, ErrorKind>(out),
        Some(t) => sorted_output(t, exprs, filtered(pred, input)->Ok_0, out),
    }
}

proof fn lemma_rows_arity(exprs: Seq<crate::expression::Expression>, rows: Seq<Seq<Value>>)
    requires
        eval_rows_spec(exprs, rows) is Ok,
    ensures
        eval_rows_spec(exprs, rows)->Ok_0.len() == rows.len(),
        forall|i: int|
            0 <= i < rows.len() ==> (#[trigger] eval_rows_spec(exprs, rows)->Ok_0[i]).len() == exprs.len(),
    decreases rows.len(),
{
    if rows.len() > 0 {
        lemma_rows_arity(exprs, rows.drop_last());
        lemma_eval_arity(exprs, rows.last());
    }
}

fn append_rows(
    out: &mut Vec<Row>,
    rows: Vec<Row>,
    Ghost(exprs): Ghost<Seq<crate::expression::Expression>>,
    Ghost(input): Ghost<Seq<Seq<Value>>>,
)
    requires
        eval_rows_spec(exprs, input) == Ok::<Seq<Seq<Value>>, ErrorKind>(rows_view(rows@)),
        forall|i: int| 0 <= i < old(out)@.len() ==> (#[trigger] old(out)@[i])@.len() == exprs.len(),
    ensures
        forall|i: int| 0 <= i < final(out)@.len() ==> (#[trigger] final(out)@[i])@.len() == exprs.len(),
        rows_view(final(out)@) == rows_view(old(out)@) + rows_view(rows@),
{
    proof {
        lemma_rows_arity(exprs, input);
    }
    let mut rows = rows;
    let ghost all = rows_view(rows@);
    let mut i: usize = 0;
    let n = rows.len();
    proof {
        assert(all.take(0) =~= Seq::<Seq<Value>>::empty());
        assert(rows_view(out@) =~= rows_view(old(out)@) + all.take(0));
    }
    while i < n
        invariant
            n == all.len(),
            i <= n,
            forall|k: int| 0 <= k < all.len() ==> (#[trigger] all[k]).len() == exprs.len(),
            forall|k: int| 0 <= k < out@.len() ==> (#[trigger] out@[k])@.len() == exprs.len(),
            rows@.len() == n - i,
            forall|k: int| 0 <= k < rows@.len() ==> (#[trigger] rows@[k])@ == all[i + k],
            rows_view(out@) == rows_view(old(out)@) + all.take(i as int),
        decreases n - i,
    {
        let row = rows.remove(0);
        proof {
            assert(row@ == all[i as int]);
        }
        let ghost before = out@;
        out.push(row);
        proof {
            assert(all.take(i + 1) =~= all.take(i as int).push(all[i as int]));
            assert(rows_view(out@) =~= rows_view(before).push(row@));
        }
        i = i + 1;
    }
    proof {
        assert(all.take(n as int) =~= all);
    }
}

} // verus!
