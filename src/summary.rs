use vstd::prelude::*;
use crate::record::Record;

verus! {

/// What the store answered to one chunk's insert statement.
#[derive(Debug, Clone)]
pub enum ChunkOutcome {
    Inserted,
    /// The store's error, and the statement text that it refused.
    Failed { error: String, statement: String },
}

/// A chunk whose insert failed: its position among the chunks, the store's
/// error and the statement text.
#[derive(Debug, Clone)]
pub struct ChunkFailure {
    pub index: usize,
    pub error: String,
    pub statement: String,
}

/// The mathematical value of a chunk outcome: `None` on success, else the
/// error and the statement.
pub open spec fn outcome_view(o: ChunkOutcome) -> Option<(Seq<char>, Seq<char>)> {
    match o {
        ChunkOutcome::Inserted => None,
        ChunkOutcome::Failed { error, statement } => Some((error@, statement@)),
    }
}

/// The result of one run: chunks attempted and inserted, rows in inserted
/// chunks, and a failure entry for each chunk that did not go in.
#[derive(Debug, Clone)]
pub struct RunSummary {
    pub attempted: usize,
    pub succeeded: usize,
    pub rows_persisted: usize,
    pub failures: Vec<ChunkFailure>,
}

/// The mathematical value of a run summary.
pub struct SummaryView {
    pub attempted: nat,
    pub succeeded: nat,
    pub rows_persisted: nat,
    pub failures: Seq<(nat, Seq<char>, Seq<char>)>,
}

impl View for RunSummary {
    type V = SummaryView;

    open spec fn view(&self) -> SummaryView {
        SummaryView {
            attempted: self.attempted as nat,
            succeeded: self.succeeded as nat,
            rows_persisted: self.rows_persisted as nat,
            failures: self.failures@.map_values(
                |f: ChunkFailure| (f.index as nat, f.error@, f.statement@),
            ),
        }
    }
}

/// A summary after one more chunk, of `rows` rows, answered `o`.
pub open spec fn add_outcome(s: SummaryView, rows: nat, o: Option<(Seq<char>, Seq<char>)>) -> SummaryView {
    match o {
        None => SummaryView {
            attempted: s.attempted + 1,
            succeeded: s.succeeded + 1,
            rows_persisted: s.rows_persisted + rows,
            ..s
        },
        Some((e, st)) => SummaryView {
            attempted: s.attempted + 1,
            failures: s.failures.push((s.attempted, e, st)),
            ..s
        },
    }
}

pub open spec fn empty_summary() -> SummaryView {
    SummaryView { attempted: 0, succeeded: 0, rows_persisted: 0, failures: Seq::empty() }
}

/// The summary of chunks of `lens` rows whose inserts answered `os`, in order.
pub open spec fn summary_of(lens: Seq<nat>, os: Seq<Option<(Seq<char>, Seq<char>)>>) -> SummaryView
    decreases os.len(),
{
    if os.len() == 0 || lens.len() < os.len() {
        empty_summary()
    } else {
        add_outcome(summary_of(lens, os.drop_last()), lens[os.len() - 1], os.last())
    }
}

/// The row counts of chunks.
pub open spec fn chunk_lens(cs: Seq<Vec<Record>>) -> Seq<nat> {
    cs.map_values(|c: Vec<Record>| c@.len())
}

/// The views of chunk outcomes.
pub open spec fn outcome_views(os: Seq<ChunkOutcome>) -> Seq<Option<(Seq<char>, Seq<char>)>> {
    os.map_values(|o: ChunkOutcome| outcome_view(o))
}

/// The number of rows in all chunks.
pub open spec fn total_rows(lens: Seq<nat>) -> nat
    decreases lens.len(),
{
    if lens.len() == 0 {
        0
    } else {
        total_rows(lens.drop_last()) + lens.last()
    }
}

/// Every chunk is attempted once and is either counted as inserted or listed
/// as failed, under its own position; rows persisted never exceed rows sent.
pub proof fn lemma_summary_accounts(lens: Seq<nat>, os: Seq<Option<(Seq<char>, Seq<char>)>>)
    requires
        lens.len() == os.len(),
    ensures
        summary_of(lens, os).attempted == os.len(),
        summary_of(lens, os).succeeded + summary_of(lens, os).failures.len() == os.len(),
        summary_of(lens, os).rows_persisted <= total_rows(lens),
        forall|i: int| 0 <= i < summary_of(lens, os).failures.len() ==> {
            let f = #[trigger] summary_of(lens, os).failures[i];
            f.0 < os.len() && os[f.0 as int] == Some((f.1, f.2))
        },
    decreases os.len(),
{
    if os.len() > 0 {
        lemma_summary_accounts(lens.drop_last(), os.drop_last());
        assert(summary_of(lens.drop_last(), os.drop_last()) == summary_of(lens, os.drop_last())) by {
            lemma_summary_prefix(lens, os.drop_last());
        }
    }
}

/// A summary reads only the lengths of the chunks it has outcomes for.
proof fn lemma_summary_prefix(lens: Seq<nat>, os: Seq<Option<(Seq<char>, Seq<char>)>>)
    requires
        os.len() < lens.len(),
    ensures
        summary_of(lens.drop_last(), os) == summary_of(lens, os),
    decreases os.len(),
{
    if os.len() > 0 {
        lemma_summary_prefix(lens, os.drop_last());
    }
}

impl RunSummary {
    /// Every chunk attempted is either counted as inserted or listed as failed.
    pub open spec fn wf(&self) -> bool {
        self.succeeded + self.failures@.len() == self.attempted
    }

    pub fn new() -> (r: RunSummary)
        ensures
            r@ == empty_summary(),
            r.wf(),
    {
        let r = RunSummary { attempted: 0, succeeded: 0, rows_persisted: 0, failures: Vec::new() };
        assert(r@.failures =~= Seq::<(nat, Seq<char>, Seq<char>)>::empty());
        r
    }

    /// Takes in the answer to the next chunk's insert; that chunk held `rows` rows.
    pub fn record(&mut self, rows: usize, outcome: &ChunkOutcome)
        requires
            old(self).wf(),
            old(self).attempted < usize::MAX,
            old(self).rows_persisted + rows <= usize::MAX,
        ensures
            final(self)@ == add_outcome(old(self)@, rows as nat, outcome_view(*outcome)),
            final(self).wf(),
    {
        let ghost before = self.failures@;
        match outcome {
            ChunkOutcome::Inserted => {
                self.succeeded = self.succeeded + 1;
                self.rows_persisted = self.rows_persisted + rows;
            },
            ChunkOutcome::Failed { error, statement } => {
                let f = ChunkFailure { index: self.attempted, error: error.clone(), statement: statement.clone() };
                self.failures.push(f);
                assert(self.failures@.map_values(|f: ChunkFailure| (f.index as nat, f.error@, f.statement@))
                    =~= before.map_values(|f: ChunkFailure| (f.index as nat, f.error@, f.statement@)).push(
                    (f.index as nat, f.error@, f.statement@)));
            },
        }
        self.attempted = self.attempted + 1;
    }

    /// The number of chunks whose insert failed.
    pub fn failed(&self) -> (r: usize)
        ensures
            r == self.failures@.len(),
    {
        self.failures.len()
    }
}

/// Totals the answers `outcomes` to the inserts of `chunks`, chunk by chunk.
pub fn summarize(chunks: &Vec<Vec<Record>>, outcomes: &Vec<ChunkOutcome>) -> (r: RunSummary)
    requires
        chunks@.len() == outcomes@.len(),
        total_rows(chunk_lens(chunks@)) <= usize::MAX,
    ensures
        r@ == summary_of(chunk_lens(chunks@), outcome_views(outcomes@)),
        r@.attempted == chunks@.len(),
        r@.succeeded + r@.failures.len() == chunks@.len(),
        r.wf(),
{
    let ghost lens = chunk_lens(chunks@);
    let ghost os = outcome_views(outcomes@);
    let mut s = RunSummary::new();
    let mut i: usize = 0;
    while i < outcomes.len()
        invariant
            lens == chunk_lens(chunks@),
            os == outcome_views(outcomes@),
            chunks@.len() == outcomes@.len(),
            total_rows(lens) <= usize::MAX,
            s@ == summary_of(lens, os.take(i as int)),
            s.wf(),
            s.rows_persisted <= total_rows(lens.take(i as int)),
            s.attempted == i,
            i <= outcomes@.len(),
        decreases outcomes.len() - i,
    {
        proof {
            lemma_total_prefix(lens, i as int + 1);
            assert(os.take(i as int + 1).drop_last() =~= os.take(i as int));
            assert(lens.take(i as int + 1).drop_last() =~= lens.take(i as int));
        }
        s.record(chunks[i].len(), &outcomes[i]);
        i += 1;
    }
    proof {
        assert(os.take(i as int) =~= os);
        lemma_summary_accounts(lens, os);
    }
    s
}

/// A prefix of the chunks holds no more rows than all of them.
proof fn lemma_total_prefix(lens: Seq<nat>, k: int)
    requires
        0 <= k <= lens.len(),
    ensures
        total_rows(lens.take(k)) <= total_rows(lens),
    decreases lens.len(),
{
    if k < lens.len() {
        assert(lens.drop_last().take(k) =~= lens.take(k));
        lemma_total_prefix(lens.drop_last(), k);
    } else {
        assert(lens.take(k) =~= lens);
    }
}

} // verus!
