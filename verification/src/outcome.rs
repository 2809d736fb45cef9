//! Per-record verification outcomes.
//!
//! Verifying an SFV document judges each record on its own: the checksum
//! computed for the record's file either matches the expected value, or
//! mismatches, or the file could not be read at all. One failed record
//! never stops the run; the overall verdict is success exactly when every
//! record matched. The caller computes (or fails to compute) each
//! checksum and hands the result in; this module only judges.

use vstd::prelude::*;
use crate::checksum::crc32_of;
use crate::codec::ChecksumRecord;
use crate::codec::lemma_sfv_round_trip;
use crate::codec::render_doc;
use crate::codec::spec_parse_doc;
use crate::codec::valid_sfv_path;

verus! {

/// The mathematical value of a verification outcome.
pub enum OutcomeView {
    /// The computed checksum equals the expected one.
    Matched { path: Seq<u8> },
    /// The file was read, but its checksum differs from the expected one.
    Mismatched { path: Seq<u8>, expected: u32, computed: u32 },
    /// The file's checksum could not be computed.
    Unreadable { path: Seq<u8>, message: Seq<char> },
}

/// The outcome of verifying one record.
pub enum VerificationOutcome {
    /// The computed checksum equals the expected one.
    Matched { path: Vec<u8> },
    /// The file was read, but its checksum differs from the expected one.
    Mismatched { path: Vec<u8>, expected: u32, computed: u32 },
    /// The file's checksum could not be computed; the message carries the
    /// underlying cause.
    Unreadable { path: Vec<u8>, message: String },
}

impl View for VerificationOutcome {
    type V = OutcomeView;

    open spec fn view(&self) -> OutcomeView {
        match self {
            VerificationOutcome::Matched { path } => OutcomeView::Matched { path: path@ },
            VerificationOutcome::Mismatched { path, expected, computed } => OutcomeView::Mismatched {
                path: path@,
                expected: *expected,
                computed: *computed,
            },
            VerificationOutcome::Unreadable { path, message } => OutcomeView::Unreadable {
                path: path@,
                message: message@,
            },
        }
    }
}

/// The view of a computed checksum, or of the failure to compute one.
pub open spec fn computed_view(c: Result<u32, String>) -> Result<u32, Seq<char>> {
    match c {
        Ok(v) => Ok(v),
        Err(m) => Err(m@),
    }
}

/// The outcome a record deserves, given what computing its checksum
/// returned.
pub open spec fn spec_judge(rec: (Seq<u8>, u32), computed: Result<u32, Seq<char>>) -> OutcomeView {
    match computed {
        Ok(c) => if c == rec.1 {
            OutcomeView::Matched { path: rec.0 }
        } else {
            OutcomeView::Mismatched { path: rec.0, expected: rec.1, computed: c }
        },
        Err(m) => OutcomeView::Unreadable { path: rec.0, message: m },
    }
}

/// The outcomes of a whole run: each record judged against its computed
/// checksum.
pub open spec fn spec_judge_all(
    recs: Seq<(Seq<u8>, u32)>,
    computed: Seq<Result<u32, Seq<char>>>,
) -> Seq<OutcomeView> {
    Seq::new(recs.len(), |i: int| spec_judge(recs[i], computed[i]))
}

/// Whether every outcome of a run is a match: the overall success flag.
pub open spec fn all_matched(outcomes: Seq<OutcomeView>) -> bool {
    forall|i: int| 0 <= i < outcomes.len() ==> (#[trigger] outcomes[i]) is Matched
}

/// Judges one record: `computed` is the checksum computed for the
/// record's file, or the failure that prevented computing it.
pub fn judge_record(record: ChecksumRecord, computed: Result<u32, String>) -> (r: VerificationOutcome)
    ensures
        r@ == spec_judge(record@, computed_view(computed)),
{
    match computed {
        Ok(c) => {
            if c == record.crc {
                VerificationOutcome::Matched { path: record.path }
            } else {
                VerificationOutcome::Mismatched {
                    path: record.path,
                    expected: record.crc,
                    computed: c,
                }
            }
        },
        Err(message) => VerificationOutcome::Unreadable { path: record.path, message },
    }
}

/// The views of a sequence of outcomes.
pub open spec fn outcome_views(outcomes: Seq<VerificationOutcome>) -> Seq<OutcomeView> {
    outcomes.map_values(|o: VerificationOutcome| o@)
}

/// The views of a sequence of computed checksums.
pub open spec fn computed_views(cs: Seq<Result<u32, String>>) -> Seq<Result<u32, Seq<char>>> {
    cs.map_values(|c: Result<u32, String>| computed_view(c))
}

/// Judges a whole run: one outcome per record, in order. A record whose
/// checksum could not be computed is reported and the run continues.
pub fn judge_records(records: Vec<ChecksumRecord>, computed: Vec<Result<u32, String>>) -> (r: Vec<
    VerificationOutcome,
>)
    requires
        computed@.len() == records@.len(),
    ensures
        outcome_views(r@) == spec_judge_all(
            records@.map_values(|rec: ChecksumRecord| rec@),
            computed_views(computed@),
        ),
{
    let ghost recs = records@.map_values(|rec: ChecksumRecord| rec@);
    let ghost comps = computed_views(computed@);
    let mut outcomes: Vec<VerificationOutcome> = Vec::new();
    let mut records = records;
    let mut computed = computed;
    let n: usize = records.len();
    let mut i: usize = 0;
    while i < n
        invariant
            0 <= i <= n,
            n == recs.len(),
            comps.len() == n,
            records@.len() == n - i,
            computed@.len() == n - i,
            forall|j: int| 0 <= j < records@.len() ==> (#[trigger] records@[j])@ == recs[i + j],
            forall|j: int| 0 <= j < computed@.len() ==> computed_view(#[trigger] computed@[j])
                == comps[i + j],
            outcome_views(outcomes@) == spec_judge_all(recs, comps).subrange(0, i as int),
        decreases n - i,
    {
        let ghost old_outcomes = outcomes@;
        let ghost old_records = records@;
        let ghost old_computed = computed@;
        let rec = records.remove(0);
        let comp = computed.remove(0);
        proof {
            assert(rec@ == recs[i as int]);
            assert(computed_view(comp) == comps[i as int]);
            assert forall|j: int| 0 <= j < records@.len() implies (#[trigger] records@[j])@
                == recs[i + 1 + j] by {
                assert(records@[j] == old_records[j + 1]);
            }
            assert forall|j: int| 0 <= j < computed@.len() implies computed_view(
                #[trigger] computed@[j],
            ) == comps[i + 1 + j] by {
                assert(computed@[j] == old_computed[j + 1]);
            }
        }
        let out = judge_record(rec, comp);
        outcomes.push(out);
        proof {
            assert(outcome_views(outcomes@) =~= spec_judge_all(recs, comps).subrange(
                0,
                i as int + 1,
            )) by {
                assert(outcome_views(outcomes@) =~= outcome_views(old_outcomes).push(out@));
            }
        }
        i = i + 1;
    }
    proof {
        assert(spec_judge_all(recs, comps).subrange(0, n as int) =~= spec_judge_all(recs, comps));
    }
    outcomes
}

/// Whether every outcome of a run matched: the run's overall success.
pub fn overall_success(outcomes: &Vec<VerificationOutcome>) -> (r: bool)
    ensures
        r == all_matched(outcome_views(outcomes@)),
{
    let mut i: usize = 0;
    while i < outcomes.len()
        invariant
            0 <= i <= outcomes@.len(),
            forall|j: int| 0 <= j < i ==> (#[trigger] outcome_views(outcomes@)[j]) is Matched,
        decreases outcomes@.len() - i,
    {
        match &outcomes[i] {
            VerificationOutcome::Matched { .. } => {},
            _ => {
                proof {
                    assert(!(outcome_views(outcomes@)[i as int] is Matched));
                }
                return false;
            },
        }
        i = i + 1;
    }
    true
}

/// Judging never drops a record: a run over `n` records yields exactly
/// `n` outcomes, whatever the computed results were, and a record whose
/// checksum could not be computed is reported unreadable with its cause,
/// while the rest are judged on their own.
pub proof fn lemma_error_outcome_reported(
    recs: Seq<(Seq<u8>, u32)>,
    computed: Seq<Result<u32, Seq<char>>>,
    k: int,
)
    requires
        computed.len() == recs.len(),
        0 <= k < recs.len(),
        computed[k] is Err,
    ensures
        spec_judge_all(recs, computed).len() == recs.len(),
        spec_judge_all(recs, computed)[k] == (OutcomeView::Unreadable {
            path: recs[k].0,
            message: computed[k]->Err_0,
        }),
        !all_matched(spec_judge_all(recs, computed)),
{
    let outs = spec_judge_all(recs, computed);
    assert(!(outs[k] is Matched));
}

/// When every record's checksum was computed and equals the expected
/// value, every outcome matches and the run succeeds overall.
pub proof fn lemma_all_match(recs: Seq<(Seq<u8>, u32)>, computed: Seq<Result<u32, Seq<char>>>)
    requires
        computed.len() == recs.len(),
        forall|i: int| 0 <= i < recs.len() ==> computed[i] == Ok::<u32, Seq<char>>(
            (#[trigger] recs[i]).1,
        ),
    ensures
        all_matched(spec_judge_all(recs, computed)),
{
}

/// When exactly one record's computed checksum differs — every other
/// record computes to its expected value — the run yields exactly one
/// mismatch, at that record, every other record matches, and the overall
/// verdict is failure.
pub proof fn lemma_single_mismatch(
    recs: Seq<(Seq<u8>, u32)>,
    computed: Seq<Result<u32, Seq<char>>>,
    k: int,
)
    requires
        computed.len() == recs.len(),
        0 <= k < recs.len(),
        computed[k] is Ok,
        computed[k]->Ok_0 != recs[k].1,
        forall|i: int| 0 <= i < recs.len() && i != k ==> computed[i] == Ok::<u32, Seq<char>>(
            (#[trigger] recs[i]).1,
        ),
    ensures
        spec_judge_all(recs, computed)[k] == (OutcomeView::Mismatched {
            path: recs[k].0,
            expected: recs[k].1,
            computed: computed[k]->Ok_0,
        }),
        forall|i: int|
            0 <= i < recs.len() && i != k ==> (#[trigger] spec_judge_all(recs, computed)[i])
                is Matched,
        !all_matched(spec_judge_all(recs, computed)),
{
    let outs = spec_judge_all(recs, computed);
    assert(!(outs[k] is Matched));
}

/// Round trip: generating a document for files and verifying that
/// document against the same files succeeds throughout. The records —
/// each file's path with the CRC32 of its contents — survive rendering
/// and parsing exactly, every record matches when each file's checksum
/// is computed again, and the overall verdict is success.
pub proof fn lemma_generate_then_verify(paths: Seq<Seq<u8>>, contents: Seq<Seq<u8>>)
    requires
        contents.len() == paths.len(),
        forall|i: int| 0 <= i < paths.len() ==> valid_sfv_path(#[trigger] paths[i]),
    ensures
        ({
            let recs = Seq::new(paths.len(), |i: int| (paths[i], crc32_of(contents[i])));
            let computed = Seq::new(paths.len(), |i: int| Ok::<u32, Seq<char>>(crc32_of(contents[i])));
            &&& spec_parse_doc(render_doc(recs)) == Ok::<Seq<(Seq<u8>, u32)>, int>(recs)
            &&& all_matched(spec_judge_all(recs, computed))
        }),
{
    let recs = Seq::new(paths.len(), |i: int| (paths[i], crc32_of(contents[i])));
    let computed = Seq::new(paths.len(), |i: int| Ok::<u32, Seq<char>>(crc32_of(contents[i])));
    assert forall|i: int| 0 <= i < recs.len() implies valid_sfv_path((#[trigger] recs[i]).0) by {
        assert(recs[i].0 == paths[i]);
    }
    lemma_sfv_round_trip(recs);
    lemma_all_match(recs, computed);
}

} // verus!
