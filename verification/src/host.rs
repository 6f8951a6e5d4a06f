//! What the host may ask for, and what it is told when it asks for something else.

use crate::graph::{complete_export, record_start, types_of, Graph};
use crate::params::{overridden, BeamParams};
use crate::scorer::deep;
use crate::signature::{build_signature, signature};
use crate::text::{around, decimal, decimal_text};
use vstd::prelude::*;

verus! {

/// What is said of a call.
pub open spec fn said(call: Seq<char>, what: Seq<char>) -> Seq<char> {
    call + what
}

/// What is said of a call.
fn say(call: &str, what: &str) -> (s: String)
    ensures
        s@ == said(call@, what@),
{
    let mut s = call.to_owned();
    s.append(what);
    s
}

/// What is said where the handle of the pool is missing.
pub fn no_pool(call: &str) -> (s: String)
    ensures
        s@ == said(call@, ": pool is NULL"@),
{
    say(call, ": pool is NULL")
}

/// Checks the arguments of a batch of `n` candidates. Gives the number of
/// candidates; where there are none, the buffers may be missing.
pub fn check_batch(
    call: &str,
    n: i32,
    has_lengths: bool,
    has_out: bool,
    has_ids: bool,
) -> (r: Result<usize, String>)
    ensures
        match r {
            Ok(count) => count == n && (n == 0 || (has_lengths && has_out && has_ids)),
            Err(e) => {
                ||| n < 0 && e@ == said(call@, ": n is negative"@)
                ||| n > 0 && !(has_lengths && has_out) && e@ == said(
                    call@,
                    ": lengths or out is NULL"@,
                )
                ||| n > 0 && has_lengths && has_out && !has_ids && e@ == said(
                    call@,
                    ": ids is NULL"@,
                )
            },
        },
{
    if n < 0 {
        return Err(say(call, ": n is negative"));
    }
    if n == 0 {
        return Ok(0);
    }
    if !has_lengths || !has_out {
        return Err(say(call, ": lengths or out is NULL"));
    }
    if !has_ids {
        return Err(say(call, ": ids is NULL"));
    }
    Ok(n as usize)
}

/// The sum of some lengths.
pub open spec fn total(lengths: Seq<i32>) -> int
    decreases lengths.len(),
{
    if lengths.len() == 0 {
        0
    } else {
        total(lengths.drop_last()) + lengths.last()
    }
}

/// Whether candidate `k` is the first with a negative length.
pub open spec fn first_negative(lengths: Seq<i32>, k: int) -> bool {
    &&& 0 <= k < lengths.len()
    &&& lengths[k] < 0
    &&& forall|j: int| 0 <= j < k ==> #[trigger] lengths[j] >= 0
}

/// How many ids the candidates of a batch have together.
pub fn count_ids(call: &str, lengths: &[i32]) -> (r: Result<u64, String>)
    requires
        lengths@.len() <= i32::MAX,
    ensures
        match r {
            Ok(sum) => sum == total(lengths@) && forall|j: int|
                0 <= j < lengths@.len() ==> #[trigger] lengths@[j] >= 0,
            Err(e) => exists|k: int| #[trigger]
                first_negative(lengths@, k) && e@ == call@ + ": candidate "@ + decimal(k as nat)
                    + " has negative length"@,
        },
{
    let mut sum: u64 = 0;
    let mut k: usize = 0;
    assert(lengths@.take(0) =~= Seq::empty());
    while k < lengths.len()
        invariant
            k <= lengths@.len() <= i32::MAX,
            sum == total(lengths@.take(k as int)),
            sum <= k * 0x7FFF_FFFF,
            forall|j: int| 0 <= j < k ==> #[trigger] lengths@[j] >= 0,
        decreases lengths@.len() - k,
    {
        let len: i32 = lengths[k];
        if len < 0 {
            assert(first_negative(lengths@, k as int));
            return Err(
                around(
                    say(call, ": candidate ").as_str(),
                    &decimal_text(k),
                    " has negative length",
                ),
            );
        }
        proof {
            assert(lengths@.take(k + 1).drop_last() =~= lengths@.take(k as int));
            assert(lengths@.take(k + 1).last() == len);
        }
        sum = sum + len as u64;
        k = k + 1;
    }
    assert(lengths@.take(k as int) =~= lengths@);
    Ok(sum)
}

/// The candidates of a batch: the ids cut up by the lengths.
pub open spec fn cut_up(ids: Seq<i32>, lengths: Seq<i32>) -> Seq<Seq<i32>> {
    Seq::new(
        lengths.len(),
        |k: int| ids.subrange(total(lengths.take(k)), total(lengths.take(k + 1))),
    )
}

proof fn lemma_total_grows(lengths: Seq<i32>, k: int)
    requires
        0 <= k <= lengths.len(),
        forall|j: int| 0 <= j < lengths.len() ==> #[trigger] lengths[j] >= 0,
    ensures
        0 <= total(lengths.take(k)) <= total(lengths),
    decreases lengths.len(),
{
    if k == lengths.len() {
        assert(lengths.take(k) =~= lengths);
        if lengths.len() > 0 {
            lemma_total_grows(lengths.drop_last(), lengths.len() - 1);
            assert(lengths.drop_last().take(lengths.len() - 1) =~= lengths.drop_last());
        }
    } else {
        lemma_total_grows(lengths.drop_last(), k);
        assert(lengths.drop_last().take(k) =~= lengths.take(k));
        assert(lengths[lengths.len() - 1] >= 0);
    }
}

/// Cutting the ids up loses none: each candidate has as many as its length says,
/// and one after the other the candidates are the ids.
pub proof fn lemma_cut_up(ids: Seq<i32>, lengths: Seq<i32>)
    requires
        forall|j: int| 0 <= j < lengths.len() ==> #[trigger] lengths[j] >= 0,
        total(lengths) == ids.len(),
    ensures
        forall|k: int|
            0 <= k < lengths.len() ==> (#[trigger] cut_up(ids, lengths)[k]).len() == lengths[k],
        cut_up(ids, lengths).flatten() == ids,
    decreases lengths.len(),
{
    let cut = cut_up(ids, lengths);
    assert forall|k: int| 0 <= k < lengths.len() implies (#[trigger] cut[k]).len()
        == lengths[k] by {
        lemma_total_grows(lengths, k);
        lemma_total_grows(lengths, k + 1);
        assert(lengths.take(k + 1).drop_last() =~= lengths.take(k));
    }
    if lengths.len() > 0 {
        let short = lengths.drop_last();
        let n = total(short);
        let head = ids.take(n);
        lemma_total_grows(lengths, lengths.len() - 1);
        assert(lengths.take(lengths.len() - 1) =~= short);
        assert(lengths.take(lengths.len() as int) =~= lengths);
        lemma_cut_up(head, short);
        assert(cut.drop_last() =~= cut_up(head, short)) by {
            assert forall|k: int| 0 <= k < short.len() implies cut[k] =~= cut_up(
                head,
                short,
            )[k] by {
                lemma_total_grows(short, k);
                lemma_total_grows(short, k + 1);
                assert(short.take(k) =~= lengths.take(k));
                assert(short.take(k + 1) =~= lengths.take(k + 1));
                assert(short.take(k + 1).drop_last() =~= short.take(k));
                assert(short[k] == lengths[k]);
            }
        }
        assert(cut.last() =~= ids.skip(n));
        cut.lemma_flatten_and_flatten_alt_are_equivalent();
        cut.drop_last().lemma_flatten_and_flatten_alt_are_equivalent();
        assert(head + ids.skip(n) =~= ids);
    } else {
        assert(cut.flatten() =~= ids);
    }
}

/// The candidates of a batch, from all their ids one after the other and the
/// number of ids of each.
pub fn cut_candidates(ids: &[i32], lengths: &[i32]) -> (candidates: Vec<Vec<i32>>)
    requires
        forall|j: int| 0 <= j < lengths@.len() ==> #[trigger] lengths@[j] >= 0,
        total(lengths@) == ids@.len(),
    ensures
        deep(candidates@) == cut_up(ids@, lengths@),
{
    let mut candidates: Vec<Vec<i32>> = Vec::with_capacity(lengths.len());
    let mut offset: usize = 0;
    let mut k: usize = 0;
    assert(lengths@.take(0) =~= Seq::empty());
    while k < lengths.len()
        invariant
            k <= lengths@.len(),
            forall|j: int| 0 <= j < lengths@.len() ==> #[trigger] lengths@[j] >= 0,
            total(lengths@) == ids@.len(),
            ids.len() == ids@.len(),
            offset == total(lengths@.take(k as int)),
            candidates@.len() == k,
            forall|j: int|
                0 <= j < k ==> (#[trigger] candidates@[j])@ == cut_up(ids@, lengths@)[j],
        decreases lengths@.len() - k,
    {
        let len: usize = lengths[k] as usize;
        proof {
            lemma_total_grows(lengths@, k + 1);
            assert(lengths@.take(k + 1).drop_last() =~= lengths@.take(k as int));
            assert(lengths@.take(k + 1).last() == lengths@[k as int]);
        }
        let mut one: Vec<i32> = Vec::with_capacity(len);
        let mut i: usize = 0;
        while i < len
            invariant
                i <= len,
                offset + len <= ids.len(),
                ids.len() == ids@.len(),
                one@ =~= ids@.subrange(offset as int, offset + i),
            decreases len - i,
        {
            one.push(ids[offset + i]);
            i = i + 1;
        }
        candidates.push(one);
        offset = offset + len;
        k = k + 1;
    }
    assert(deep(candidates@) =~= cut_up(ids@, lengths@));
    candidates
}

/// Checks the arguments of a save. Gives the number of packed integers.
pub fn check_save(len: i32, has_packed: bool) -> (r: Result<usize, String>)
    ensures
        match r {
            Ok(count) => count == len && (len == 0 || has_packed),
            Err(e) => {
                ||| len < 0 && e@ == "call_save: len is negative"@
                ||| len > 0 && !has_packed && e@ == "call_save: packed is NULL"@
            },
        },
{
    if len < 0 {
        return Err("call_save: len is negative".to_owned());
    }
    if len > 0 && !has_packed {
        return Err("call_save: packed is NULL".to_owned());
    }
    Ok(len as usize)
}

/// How many of `len` items are copied into a buffer for `cap` of them.
pub fn fitting(len: usize, cap: i32) -> (n: usize)
    ensures
        n == (if cap <= 0 {
            0
        } else if len <= cap {
            len as int
        } else {
            cap as int
        }),
{
    if cap <= 0 {
        0
    } else if len <= cap as usize {
        len
    } else {
        cap as usize
    }
}

/// All that a search needs but the scores: its parameters, the tree and the
/// identity of the build.
pub struct Prepared {
    pub params: BeamParams,
    pub graph: Graph,
    pub build_sig: u64,
}

impl Prepared {
    /// Whether the scores are kept between runs: there is a file to keep them in, and
    /// the growth scores can be derived from the axes.
    pub fn uses_cache(&self, has_file: bool) -> (b: bool)
        ensures
            b == (has_file && self.graph.trailer()),
    {
        has_file && self.graph.has_trailer()
    }
}

/// Whether a tree can be read from an export, and has its class start.
pub open spec fn usable_export(flat: Seq<i32>) -> bool {
    complete_export(flat) && types_of(flat, flat[2] as nat).contains_key(flat[0])
}

/// The types of `n` records are finitely many, `n` at most.
proof fn lemma_types_len(flat: Seq<i32>, n: nat)
    ensures
        types_of(flat, n).dom().finite(),
        types_of(flat, n).dom().len() <= n,
    decreases n,
{
    if n > 0 {
        let i = (n - 1) as nat;
        lemma_types_len(flat, i);
        let id = flat[record_start(flat, i)];
        assert(types_of(flat, n).dom() =~= types_of(flat, i).dom().insert(id));
    } else {
        assert(types_of(flat, n).dom() =~= Set::empty());
    }
}

/// Reads what a search needs: the overrides of its parameters and the exported
/// tree. An export from which no tree can be read is told as the search that breaks
/// down on it.
pub fn prepare(params: &str, flat: &[i32]) -> (r: Result<Prepared, String>)
    ensures
        match r {
            Ok(p) => {
                &&& overridden(params@) == Ok::<BeamParams, Seq<char>>(p.params)
                &&& p.params.wf()
                &&& flat@.len() >= 3
                &&& usable_export(flat@)
                &&& p.graph.read_from(flat@)
                &&& p.graph.searchable()
                &&& p.build_sig == signature(flat@)
            },
            Err(e) => {
                ||| overridden(params@) == Err::<BeamParams, Seq<char>>(e@)
                ||| overridden(params@) is Ok && flat@.len() < 3 && e@
                    == "run_beam: no graph exported (create the pool with candidate_fn=__pob_graph_export)"@
                ||| overridden(params@) is Ok && flat@.len() >= 3 && !usable_export(flat@) && e@
                    == "pob_opt_run_beam panicked"@
            },
        },
{
    let params: BeamParams = match BeamParams::parse(params) {
        Ok(p) => p,
        Err(e) => {
            return Err(e);
        },
    };
    if flat.len() < 3 {
        return Err(
            "run_beam: no graph exported (create the pool with candidate_fn=__pob_graph_export)".to_owned(),
        );
    }
    if !Graph::is_export(flat) {
        return Err("pob_opt_run_beam panicked".to_owned());
    }
    let graph = Graph::parse(flat);
    proof {
        lemma_types_len(flat@, flat@[2] as nat);
    }
    if !graph.has_start() {
        return Err("pob_opt_run_beam panicked".to_owned());
    }
    Ok(Prepared { params, graph, build_sig: build_signature(flat) })
}

} // verus!
