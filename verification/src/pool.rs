//! What the pool of workers hands out, and what it makes of what comes back.

use crate::double::{Double, NAN_BITS};
use crate::fx::Scored;
use vstd::prelude::*;

verus! {

/// What a worker reports when it has booted: the candidate ids, what went wrong,
/// or nothing because it is gone.
pub enum Boot {
    Ready(Vec<i32>),
    Failed(String),
    Lost,
}

/// A scored candidate, with its place in the batch.
#[derive(Clone, Copy, Debug, PartialEq, Eq)]
pub struct Done {
    pub index: usize,
    pub out: Scored,
}

/// One candidate for a worker, with its place in the batch.
pub struct Job {
    pub index: usize,
    pub ids: Vec<i32>,
    /// Whether the score function gives three numbers, not one.
    pub triple: bool,
    /// A function to call in place of the score function; it gives one number.
    pub call_fn: Option<String>,
}

/// What a worker calls with the ids of a job: a function that gives one number, or
/// one that gives three.
pub enum Call {
    Scalar(String),
    Triple(String),
}

/// Where a worker was when its boot failed.
#[derive(Clone, Copy, Debug, PartialEq, Eq)]
pub enum Stage {
    State,
    Script,
    Candidates,
}

/// What went wrong with a worker.
pub open spec fn fault(b: Boot) -> Option<Seq<char>> {
    match b {
        Boot::Ready(_) => None,
        Boot::Failed(e) => Some(e@),
        Boot::Lost => Some("worker panicked during boot"@),
    }
}

/// The first thing that went wrong.
pub open spec fn first_fault(reports: Seq<Boot>) -> Option<Seq<char>>
    decreases reports.len(),
{
    if reports.len() == 0 {
        None
    } else {
        match first_fault(reports.drop_last()) {
            Some(e) => Some(e),
            None => fault(reports.last()),
        }
    }
}

/// The first list of candidates that is not empty.
pub open spec fn first_candidates(reports: Seq<Boot>) -> Seq<i32>
    decreases reports.len(),
{
    if reports.len() == 0 {
        Seq::empty()
    } else {
        let before = first_candidates(reports.drop_last());
        match reports.last() {
            Boot::Ready(ids) => if before.len() == 0 {
                ids@
            } else {
                before
            },
            _ => before,
        }
    }
}

/// What becomes of a pool, from the reports of its workers in the order in which
/// they came: the first fault, or the candidate ids of the first worker that has
/// any.
pub fn collect_boot(reports: &Vec<Boot>) -> (r: Result<Vec<i32>, String>)
    ensures
        match r {
            Ok(ids) => first_fault(reports@) is None && ids@ == first_candidates(reports@),
            Err(e) => first_fault(reports@) == Some(e@),
        },
{
    let mut first_err: Option<String> = None;
    let mut ids: Vec<i32> = Vec::new();
    let mut i: usize = 0;
    assert(reports@.take(0) =~= Seq::empty());
    while i < reports.len()
        invariant
            i <= reports@.len(),
            match first_err {
                Some(e) => first_fault(reports@.take(i as int)) == Some(e@),
                None => first_fault(reports@.take(i as int)) is None,
            },
            ids@ == first_candidates(reports@.take(i as int)),
        decreases reports@.len() - i,
    {
        proof {
            assert(reports@.take(i + 1).drop_last() =~= reports@.take(i as int));
            assert(reports@.take(i + 1).last() == reports@[i as int]);
        }
        match &reports[i] {
            Boot::Ready(list) => {
                if ids.len() == 0 {
                    ids = crate::scorer::copy_ids(list);
                }
            },
            Boot::Failed(e) => {
                if first_err.is_none() {
                    first_err = Some(e.clone());
                }
            },
            Boot::Lost => {
                if first_err.is_none() {
                    first_err = Some("worker panicked during boot".to_owned());
                }
            },
        }
        i = i + 1;
    }
    assert(reports@.take(i as int) =~= reports@);
    match first_err {
        Some(e) => Err(e),
        None => Ok(ids),
    }
}

/// What is said before the reason of a failed boot.
pub open spec fn stage_text(stage: Stage) -> Seq<char> {
    match stage {
        Stage::State => "create state: "@,
        Stage::Script => "boot: "@,
        Stage::Candidates => "candidate enumeration: "@,
    }
}

/// The report of a worker whose boot failed.
pub fn boot_failure(stage: Stage, reason: &str) -> (report: Boot)
    ensures
        fault(report) == Some(stage_text(stage) + reason@),
{
    let mut text = match stage {
        Stage::State => "create state: ".to_owned(),
        Stage::Script => "boot: ".to_owned(),
        Stage::Candidates => "candidate enumeration: ".to_owned(),
    };
    text.append(reason);
    Boot::Failed(text)
}

/// Copies some ids.
fn copy_slice(ids: &[i32]) -> (copy: Vec<i32>)
    ensures
        copy@ == ids@,
{
    let mut copy: Vec<i32> = Vec::with_capacity(ids.len());
    let mut i: usize = 0;
    while i < ids.len()
        invariant
            i <= ids.len(),
            ids.len() == ids@.len(),
            copy@ =~= ids@.take(i as int),
        decreases ids.len() - i,
    {
        copy.push(ids[i]);
        i = i + 1;
    }
    assert(ids@.take(i as int) =~= ids@);
    copy
}

/// The jobs of a batch: one for each candidate, in order.
pub fn batch_jobs(candidates: &[Vec<i32>], triple: bool) -> (jobs: Vec<Job>)
    ensures
        jobs@.len() == candidates@.len(),
        forall|i: int|
            0 <= i < jobs@.len() ==> {
                &&& (#[trigger] jobs@[i]).index == i
                &&& jobs@[i].ids@ == candidates@[i]@
                &&& jobs@[i].triple == triple
                &&& jobs@[i].call_fn is None
            },
{
    let mut jobs: Vec<Job> = Vec::with_capacity(candidates.len());
    let mut i: usize = 0;
    while i < candidates.len()
        invariant
            i <= candidates.len(),
            candidates.len() == candidates@.len(),
            jobs@.len() == i,
            forall|j: int|
                0 <= j < i ==> {
                    &&& (#[trigger] jobs@[j]).index == j
                    &&& jobs@[j].ids@ == candidates@[j]@
                    &&& jobs@[j].triple == triple
                    &&& jobs@[j].call_fn is None
                },
        decreases candidates.len() - i,
    {
        let ids = copy_slice(candidates[i].as_slice());
        jobs.push(Job { index: i, ids, triple, call_fn: None });
        i = i + 1;
    }
    jobs
}

/// The job of a single call of a named function.
pub fn named_job(name: &str, args: &[i32]) -> (job: Job)
    ensures
        job.index == 0,
        job.ids@ == args@,
        !job.triple,
        job.call_fn is Some,
        job.call_fn->0@ == name@,
{
    Job { index: 0, ids: copy_slice(args), triple: false, call_fn: Some(name.to_owned()) }
}

/// What a worker calls for a job, where `score_fn` is its score function.
pub fn call_for(job: &Job, score_fn: &str) -> (call: Call)
    ensures
        match call {
            Call::Scalar(name) => match job.call_fn {
                Some(f) => name@ == f@,
                None => !job.triple && name@ == score_fn@,
            },
            Call::Triple(name) => job.call_fn is None && job.triple && name@ == score_fn@,
        },
{
    match &job.call_fn {
        Some(f) => Call::Scalar(f.clone()),
        None => if job.triple {
            Call::Triple(score_fn.to_owned())
        } else {
            Call::Scalar(score_fn.to_owned())
        },
    }
}

/// The answer for a candidate that could not be scored.
pub open spec fn rejected() -> Scored {
    Scored {
        score: Double { bits: NAN_BITS },
        dps: Double { bits: NAN_BITS },
        ehp: Double { bits: NAN_BITS },
    }
}

/// The answer for a candidate that could not be scored: nothing is a number.
pub fn reject() -> (s: Scored)
    ensures
        s == rejected(),
{
    let nan = Double::from_bits(NAN_BITS);
    Scored { score: nan, dps: nan, ehp: nan }
}

/// The answer of a worker whose function gives one number. A failed call rejects
/// the candidate.
pub fn scalar_reply(r: Option<Double>) -> (s: Scored)
    ensures
        s == (match r {
            Some(score) => Scored { score, ..rejected() },
            None => rejected(),
        }),
{
    match r {
        Some(score) => Scored { score, ..reject() },
        None => reject(),
    }
}

/// The answer of a worker whose function gives three numbers. A failed call
/// rejects the candidate.
pub fn triple_reply(r: Option<Scored>) -> (s: Scored)
    ensures
        s == (match r {
            Some(t) => t,
            None => rejected(),
        }),
{
    match r {
        Some(t) => t,
        None => reject(),
    }
}

/// The answers for a batch of `n` candidates, from what came back in any order.
/// What did not come back is rejected.
pub open spec fn in_place(n: nat, done: Seq<Done>) -> Seq<Scored> {
    done.fold_left(
        Seq::new(n, |i: int| rejected()),
        |all: Seq<Scored>, d: Done| all.update(d.index as int, d.out),
    )
}

proof fn lemma_in_place_len(n: nat, done: Seq<Done>)
    requires
        forall|i: int| 0 <= i < done.len() ==> (#[trigger] done[i]).index < n,
    ensures
        in_place(n, done).len() == n,
    decreases done.len(),
{
    if done.len() > 0 {
        let short = done.drop_last();
        assert forall|i: int| 0 <= i < short.len() implies (#[trigger] short[i]).index < n by {
            assert(short[i] == done[i]);
        }
        lemma_in_place_len(n, short);
        assert(done[done.len() - 1].index < n);
    }
}

/// Puts the answers for a batch of `n` candidates in the order of the batch.
pub fn reassemble(n: usize, done: &Vec<Done>) -> (scores: Vec<Scored>)
    requires
        forall|i: int| 0 <= i < done@.len() ==> (#[trigger] done@[i]).index < n,
    ensures
        scores@ == in_place(n as nat, done@),
        scores@.len() == n,
{
    let ghost f = |all: Seq<Scored>, d: Done| all.update(d.index as int, d.out);
    let nothing = reject();
    let mut scores: Vec<Scored> = Vec::with_capacity(n);
    let mut i: usize = 0;
    while i < n
        invariant
            i <= n,
            nothing == rejected(),
            scores@ =~= Seq::new(i as nat, |i: int| rejected()),
        decreases n - i,
    {
        scores.push(nothing);
        i = i + 1;
    }
    let mut k: usize = 0;
    assert(done@.take(0) =~= Seq::empty());
    while k < done.len()
        invariant
            k <= done@.len(),
            f == (|all: Seq<Scored>, d: Done| all.update(d.index as int, d.out)),
            forall|i: int| 0 <= i < done@.len() ==> (#[trigger] done@[i]).index < n,
            scores@.len() == n,
            scores@ == in_place(n as nat, done@.take(k as int)),
        decreases done@.len() - k,
    {
        proof {
            assert(done@.take(k + 1).drop_last() =~= done@.take(k as int));
            assert(done@.take(k + 1).last() == done@[k as int]);
        }
        scores.set(done[k].index, done[k].out);
        k = k + 1;
    }
    assert(done@.take(k as int) =~= done@);
    scores
}

/// Where every candidate comes back once, its answer stands in its place.
pub proof fn lemma_in_place(n: nat, done: Seq<Done>, k: int)
    requires
        0 <= k < done.len(),
        forall|i: int| 0 <= i < done.len() ==> (#[trigger] done[i]).index < n,
        forall|i: int, j: int|
            0 <= i < j < done.len() ==> (#[trigger] done[i]).index != (#[trigger] done[j]).index,
    ensures
        in_place(n, done)[done[k].index as int] == done[k].out,
    decreases done.len(),
{
    let short = done.drop_last();
    assert forall|i: int| 0 <= i < short.len() implies (#[trigger] short[i]).index < n by {
        assert(short[i] == done[i]);
    }
    lemma_in_place_len(n, short);
    assert(done[done.len() - 1].index < n);
    assert(in_place(n, done) == in_place(n, short).update(
        done.last().index as int,
        done.last().out,
    ));
    if k < short.len() {
        assert forall|i: int, j: int| 0 <= i < j < short.len() implies (#[trigger] short[i]).index
            != (#[trigger] short[j]).index by {
            assert(short[i] == done[i] && short[j] == done[j]);
        }
        lemma_in_place(n, short, k);
        assert(done[k].index != done[done.len() - 1].index);
    }
}

/// Where a candidate does not come back, it is rejected.
pub proof fn lemma_missing_is_rejected(n: nat, done: Seq<Done>, at: int)
    requires
        0 <= at < n,
        forall|i: int| 0 <= i < done.len() ==> (#[trigger] done[i]).index < n,
        forall|i: int| 0 <= i < done.len() ==> (#[trigger] done[i]).index != at,
    ensures
        in_place(n, done)[at] == rejected(),
    decreases done.len(),
{
    if done.len() > 0 {
        let short = done.drop_last();
        assert forall|i: int| 0 <= i < short.len() implies (#[trigger] short[i]).index < n
            && short[i].index != at by {
            assert(short[i] == done[i]);
        }
        lemma_in_place_len(n, short);
        lemma_missing_is_rejected(n, short, at);
        let last = done[done.len() - 1];
        assert(last.index < n && last.index != at);
        assert(in_place(n, done) == in_place(n, short).update(last.index as int, last.out));
    }
}

/// The first column of the answers.
pub fn score_column(scores: &Vec<Scored>) -> (out: Vec<Double>)
    ensures
        out@ == scores@.map_values(|s: Scored| s.score),
{
    let mut out: Vec<Double> = Vec::with_capacity(scores.len());
    let mut i: usize = 0;
    while i < scores.len()
        invariant
            i <= scores@.len(),
            out@ =~= scores@.take(i as int).map_values(|s: Scored| s.score),
        decreases scores@.len() - i,
    {
        out.push(scores[i].score);
        i = i + 1;
    }
    assert(scores@.take(i as int) =~= scores@);
    out
}

/// The answers one after the other: score, damage, hit points of each.
pub open spec fn interleaved(scores: Seq<Scored>) -> Seq<Double> {
    Seq::new(
        3 * scores.len(),
        |i: int|
            if i % 3 == 0 {
                scores[i / 3].score
            } else if i % 3 == 1 {
                scores[i / 3].dps
            } else {
                scores[i / 3].ehp
            },
    )
}

/// The answers one after the other: score, damage, hit points of each.
pub fn interleave(scores: &Vec<Scored>) -> (out: Vec<Double>)
    ensures
        out@ == interleaved(scores@),
{
    let mut out: Vec<Double> = Vec::new();
    let mut i: usize = 0;
    while i < scores.len()
        invariant
            i <= scores@.len(),
            out@ =~= interleaved(scores@.take(i as int)),
        decreases scores@.len() - i,
    {
        let s: Scored = scores[i];
        out.push(s.score);
        out.push(s.dps);
        out.push(s.ehp);
        proof {
            let next = scores@.take(i + 1);
            assert forall|j: int| 0 <= j < 3 * i + 3 implies out@[j] == interleaved(next)[j] by {
                if j < 3 * i {
                    assert(out@[j] == interleaved(scores@.take(i as int))[j]);
                }
            }
        }
        i = i + 1;
    }
    assert(scores@.take(i as int) =~= scores@);
    out
}

/// The first thing that went wrong is told: where a worker fails and none did before it,
/// it is that one's fault, whatever follows; where none fails there is none.
pub proof fn lemma_first_fault(reports: Seq<Boot>, k: int)
    ensures
        (forall|i: int| 0 <= i < reports.len() ==> (#[trigger] reports[i]) is Ready)
            ==> first_fault(reports) is None,
        0 <= k < reports.len() && reports[k] !is Ready && (forall|i: int|
            0 <= i < k ==> (#[trigger] reports[i]) is Ready) ==> first_fault(reports) == fault(
            reports[k],
        ),
    decreases reports.len(),
{
    if reports.len() > 0 {
        let rest = reports.drop_last();
        lemma_first_fault(rest, k);
        if forall|i: int| 0 <= i < reports.len() ==> (#[trigger] reports[i]) is Ready {
            assert forall|i: int| 0 <= i < rest.len() implies (#[trigger] rest[i]) is Ready by {
                assert(reports[i] is Ready);
            }
            assert(reports[reports.len() - 1] is Ready);
        }
        if 0 <= k < reports.len() && reports[k] !is Ready && (forall|i: int|
            0 <= i < k ==> (#[trigger] reports[i]) is Ready) {
            assert forall|i: int| 0 <= i < rest.len() && i < k implies (
            #[trigger] rest[i]) is Ready by {
                assert(reports[i] is Ready);
            }
            if k < rest.len() {
                assert(rest[k] == reports[k]);
            }
        }
    }
}

/// The candidates are those of the first worker that has any.
pub proof fn lemma_first_candidates(reports: Seq<Boot>, k: int)
    requires
        0 <= k < reports.len(),
        reports[k] is Ready,
        reports[k]->Ready_0@.len() > 0,
        forall|i: int|
            0 <= i < k && (#[trigger] reports[i]) is Ready ==> reports[i]->Ready_0@.len() == 0,
    ensures
        first_candidates(reports) == reports[k]->Ready_0@,
    decreases reports.len(),
{
    let rest = reports.drop_last();
    if k < rest.len() {
        assert(rest[k] == reports[k]);
        assert forall|i: int| 0 <= i < k && (#[trigger] rest[i]) is Ready implies
            rest[i]->Ready_0@.len() == 0 by {
            assert(reports[i] == rest[i]);
        }
        lemma_first_candidates(rest, k);
    } else {
        assert forall|i: int| 0 <= i < rest.len() && (#[trigger] rest[i]) is Ready implies
            rest[i]->Ready_0@.len() == 0 by {
            assert(reports[i] == rest[i]);
        }
        lemma_no_candidates(rest);
    }
}

proof fn lemma_no_candidates(reports: Seq<Boot>)
    requires
        forall|i: int|
            0 <= i < reports.len() && (#[trigger] reports[i]) is Ready
                ==> reports[i]->Ready_0@.len() == 0,
    ensures
        first_candidates(reports).len() == 0,
    decreases reports.len(),
{
    if reports.len() > 0 {
        let rest = reports.drop_last();
        assert forall|i: int| 0 <= i < rest.len() && (#[trigger] rest[i]) is Ready implies
            rest[i]->Ready_0@.len() == 0 by {
            assert(reports[i] == rest[i]);
        }
        lemma_no_candidates(rest);
        assert(reports[reports.len() - 1] == reports.last());
    }
}

/// The answers stand one after the other, three numbers each.
pub proof fn lemma_interleaved(scores: Seq<Scored>, k: int)
    requires
        0 <= k < scores.len(),
    ensures
        interleaved(scores).len() == 3 * scores.len(),
        interleaved(scores)[3 * k] == scores[k].score,
        interleaved(scores)[3 * k + 1] == scores[k].dps,
        interleaved(scores)[3 * k + 2] == scores[k].ehp,
{
}

/// Nothing of a rejected candidate is a number.
pub proof fn lemma_rejected()
    ensures
        rejected().score.nan(),
        rejected().dps.nan(),
        rejected().ehp.nan(),
{
}

} // verus!
