//! Address import: which converted records are indexed, and the steps of an
//! import run, from the making of the index to its publication.
use vstd::prelude::*;
use vstd::string::*;

verus! {

/// An address document as far as the import looks into it: its identifier and
/// the name of its street. `doc` is the document itself, in the schema of the
/// caller.
#[derive(Debug, PartialEq, Eq)]
pub struct Addr<D> {
    pub id: String,
    pub street_name: String,
    pub doc: D,
}

/// Why a record is left out of the index.
#[derive(Debug, PartialEq, Eq)]
pub enum Dropped<E> {
    /// The record could not be converted; the error of the conversion.
    ConversionFailed(E),
    /// The address has no street name; its identifier.
    NoStreetName(String),
}

/// Whether a converted record is indexed: it was converted, and the name of
/// its street is not empty.
pub open spec fn acceptable<D, E>(converted: Result<Addr<D>, E>) -> bool {
    match converted {
        Ok(addr) => addr.street_name@.len() > 0,
        Err(_) => false,
    }
}

/// Decides on one converted record: the address where it is indexed, else
/// the reason why it is not.
pub fn accept<D, E>(converted: Result<Addr<D>, E>) -> (r: Result<Addr<D>, Dropped<E>>)
    ensures
        r is Ok <==> acceptable(converted),
        match converted {
            Ok(addr) => match r {
                Ok(kept) => kept == addr,
                Err(reason) => reason == Dropped::<E>::NoStreetName(addr.id),
            },
            Err(error) => r matches Err(reason) && reason == Dropped::ConversionFailed(error),
        },
{
    match converted {
        Ok(addr) => {
            if addr.street_name.as_str().is_empty() {
                Err(Dropped::NoStreetName(addr.id))
            } else {
                Ok(addr)
            }
        },
        Err(error) => Err(Dropped::ConversionFailed(error)),
    }
}

/// The addresses of `converted` that are indexed, in their order.
pub open spec fn accepted<D, E>(converted: Seq<Result<Addr<D>, E>>) -> Seq<Addr<D>>
    decreases converted.len(),
{
    if converted.len() == 0 {
        Seq::empty()
    } else {
        let before = accepted(converted.drop_last());
        match converted.last() {
            Ok(addr) => if addr.street_name@.len() > 0 {
                before.push(addr)
            } else {
                before
            },
            Err(_) => before,
        }
    }
}

/// The addresses of `converted` that are indexed, in their order.
pub fn valid_addresses<D, E>(converted: Vec<Result<Addr<D>, E>>) -> (kept: Vec<Addr<D>>)
    ensures
        kept@ == accepted(converted@),
{
    let mut kept: Vec<Addr<D>> = Vec::new();
    let ghost all = converted@;
    for item in it: converted
        invariant
            it.seq() == all,
            kept@ == accepted(all.take(it.index() as int)),
    {
        let ghost upto = all.take(it.index() + 1);
        assert(upto.drop_last() =~= all.take(it.index() as int));
        assert(upto.last() == item);
        match accept(item) {
            Ok(addr) => {
                kept.push(addr);
            },
            Err(_) => {},
        }
    }
    assert(all.take(all.len() as int) =~= all);
    kept
}

/// Every address that is indexed has a street name.
pub proof fn lemma_accepted_named<D, E>(converted: Seq<Result<Addr<D>, E>>, j: int)
    requires
        0 <= j < accepted(converted).len(),
    ensures
        accepted(converted)[j].street_name@.len() > 0,
    decreases converted.len(),
{
    if converted.len() > 0 {
        let before = accepted(converted.drop_last());
        if j < before.len() {
            lemma_accepted_named(converted.drop_last(), j);
        }
    }
}

/// What is indexed of two runs of records, one after the other, is what is
/// indexed of the first, then what is indexed of the second.
pub proof fn lemma_accepted_concat<D, E>(
    first: Seq<Result<Addr<D>, E>>,
    second: Seq<Result<Addr<D>, E>>,
)
    ensures
        accepted(first + second) == accepted(first) + accepted(second),
    decreases second.len(),
{
    if second.len() == 0 {
        assert(first + second =~= first);
        assert(accepted(first) + accepted(second) =~= accepted(first));
    } else {
        lemma_accepted_concat(first, second.drop_last());
        assert((first + second).drop_last() =~= first + second.drop_last());
        assert((first + second).last() == second.last());
        assert(accepted(first + second) =~= accepted(first) + accepted(second));
    }
}

/// A record that was not converted, or whose address has no street name, is
/// not counted, wherever it stands: the others are indexed as without it.
pub proof fn lemma_dropped_anywhere<D, E>(
    before: Seq<Result<Addr<D>, E>>,
    record: Result<Addr<D>, E>,
    after: Seq<Result<Addr<D>, E>>,
)
    requires
        !acceptable(record),
    ensures
        accepted(before.push(record) + after) == accepted(before + after),
        accepted(before.push(record) + after).len() == accepted(before).len() + accepted(
            after,
        ).len(),
{
    lemma_accepted_concat(before.push(record), after);
    lemma_accepted_concat(before, after);
    assert(before.push(record).drop_last() =~= before);
}

/// The addresses that a set of input files gives. A file is `None` where it
/// could not be read at all, else the records read from it, each converted or
/// not.
pub open spec fn collected<D, E>(files: Seq<Option<Vec<Result<Addr<D>, E>>>>) -> Seq<Addr<D>>
    decreases files.len(),
{
    if files.len() == 0 {
        Seq::empty()
    } else {
        let before = collected(files.drop_last());
        match files.last() {
            Some(records) => before + accepted(records@),
            None => before,
        }
    }
}

/// The addresses that a set of input files gives: a file that could not be
/// read gives none, and neither does a record that is not indexed.
pub fn collect_addresses<D, E>(files: Vec<Option<Vec<Result<Addr<D>, E>>>>) -> (kept: Vec<Addr<D>>)
    ensures
        kept@ == collected(files@),
{
    let mut kept: Vec<Addr<D>> = Vec::new();
    let ghost all = files@;
    for file in it: files
        invariant
            it.seq() == all,
            kept@ == collected(all.take(it.index() as int)),
    {
        let ghost upto = all.take(it.index() + 1);
        assert(upto.drop_last() =~= all.take(it.index() as int));
        assert(upto.last() == file);
        match file {
            Some(records) => {
                let mut valid: Vec<Addr<D>> = valid_addresses(records);
                kept.append(&mut valid);
            },
            None => {},
        }
    }
    assert(all.take(all.len() as int) =~= all);
    kept
}

/// What two sets of files give together is what the first gives, then what
/// the second gives.
pub proof fn lemma_collected_concat<D, E>(
    first: Seq<Option<Vec<Result<Addr<D>, E>>>>,
    second: Seq<Option<Vec<Result<Addr<D>, E>>>>,
)
    ensures
        collected(first + second) == collected(first) + collected(second),
    decreases second.len(),
{
    if second.len() == 0 {
        assert(first + second =~= first);
        assert(collected(first) + collected(second) =~= collected(first));
    } else {
        lemma_collected_concat(first, second.drop_last());
        assert((first + second).drop_last() =~= first + second.drop_last());
        assert((first + second).last() == second.last());
        assert(collected(first + second) =~= collected(first) + collected(second));
    }
}

/// A file that cannot be read changes nothing of what the other files give,
/// wherever it stands among them.
pub proof fn lemma_unreadable_file<D, E>(
    before: Seq<Option<Vec<Result<Addr<D>, E>>>>,
    after: Seq<Option<Vec<Result<Addr<D>, E>>>>,
)
    ensures
        collected(before.push(None) + after) == collected(before + after),
{
    lemma_collected_concat(before.push(None), after);
    lemma_collected_concat(before, after);
    assert(before.push(None).drop_last() =~= before);
}

/// Any file changes nothing of what the files before and after it give: they
/// give what they give without it, around what it gives itself.
pub proof fn lemma_file_isolated<D, E>(
    before: Seq<Option<Vec<Result<Addr<D>, E>>>>,
    file: Option<Vec<Result<Addr<D>, E>>>,
    after: Seq<Option<Vec<Result<Addr<D>, E>>>>,
)
    ensures
        collected(before.push(file) + after) == collected(before) + collected(seq![file])
            + collected(after),
{
    lemma_collected_concat(before.push(file), after);
    lemma_collected_concat(before, seq![file]);
    assert(before + seq![file] =~= before.push(file));
}

/// Why an import run was given up.
#[derive(Clone, Copy, Debug, PartialEq, Eq, Structural)]
pub enum ImportError {
    /// The index could not be made.
    IndexCreation,
    /// The documents could not be written to the index.
    BulkInsert,
    /// The index could not be published.
    Publication,
}

/// Where an import run stands: the step to take next, or how the run ended.
#[derive(Clone, Copy, Debug, PartialEq, Eq, Structural)]
pub enum ImportStage {
    /// Make a new index for the dataset.
    MakeIndex,
    /// Write the documents to the new index.
    BulkIndex,
    /// Publish the new index, to which this many documents were written.
    Publish(usize),
    /// The new index is published, with this many documents.
    Finished(usize),
    /// The run was given up; the new index is not published.
    Aborted(ImportError),
}

/// The stage that follows `stage` once its step has been taken. `outcome` is
/// `None` where the step failed; where it succeeded it holds the number of
/// documents written, which counts for the step that writes them only.
pub open spec fn stage_after(stage: ImportStage, outcome: Option<usize>) -> ImportStage {
    match stage {
        ImportStage::MakeIndex => match outcome {
            Some(_) => ImportStage::BulkIndex,
            None => ImportStage::Aborted(ImportError::IndexCreation),
        },
        ImportStage::BulkIndex => match outcome {
            Some(written) => ImportStage::Publish(written),
            None => ImportStage::Aborted(ImportError::BulkInsert),
        },
        ImportStage::Publish(written) => match outcome {
            Some(_) => ImportStage::Finished(written),
            None => ImportStage::Aborted(ImportError::Publication),
        },
        ImportStage::Finished(written) => ImportStage::Finished(written),
        ImportStage::Aborted(error) => ImportStage::Aborted(error),
    }
}

/// The stage at which every import run starts.
pub fn first_stage() -> (stage: ImportStage)
    ensures
        stage == ImportStage::MakeIndex,
{
    ImportStage::MakeIndex
}

/// The stage that follows `stage` once its step has been taken with
/// `outcome`.
pub fn advance(stage: ImportStage, outcome: Option<usize>) -> (next: ImportStage)
    ensures
        next == stage_after(stage, outcome),
{
    match stage {
        ImportStage::MakeIndex => match outcome {
            Some(_) => ImportStage::BulkIndex,
            None => ImportStage::Aborted(ImportError::IndexCreation),
        },
        ImportStage::BulkIndex => match outcome {
            Some(written) => ImportStage::Publish(written),
            None => ImportStage::Aborted(ImportError::BulkInsert),
        },
        ImportStage::Publish(written) => match outcome {
            Some(_) => ImportStage::Finished(written),
            None => ImportStage::Aborted(ImportError::Publication),
        },
        ImportStage::Finished(written) => ImportStage::Finished(written),
        ImportStage::Aborted(error) => ImportStage::Aborted(error),
    }
}

/// The stage that an import run has reached after steps with these outcomes.
pub open spec fn stage_reached(outcomes: Seq<Option<usize>>) -> ImportStage
    decreases outcomes.len(),
{
    if outcomes.len() == 0 {
        ImportStage::MakeIndex
    } else {
        stage_after(stage_reached(outcomes.drop_last()), outcomes.last())
    }
}

/// An import run comes to publish its index, and to have published it, only
/// after the index was made and the documents were written to it; the number
/// it carries is the number of documents written.
pub proof fn lemma_published_after_bulk(outcomes: Seq<Option<usize>>)
    ensures
        match stage_reached(outcomes) {
            ImportStage::MakeIndex => outcomes.len() == 0,
            ImportStage::BulkIndex => outcomes.len() == 1 && outcomes[0] is Some,
            ImportStage::Publish(written) => outcomes.len() == 2 && outcomes[0] is Some
                && outcomes[1] == Some(written),
            ImportStage::Finished(written) => outcomes.len() >= 3 && outcomes[0] is Some
                && outcomes[1] == Some(written) && outcomes[2] is Some,
            ImportStage::Aborted(error) => match error {
                ImportError::IndexCreation => outcomes.len() >= 1 && outcomes[0] is None,
                ImportError::BulkInsert => outcomes.len() >= 2 && outcomes[0] is Some
                    && outcomes[1] is None,
                ImportError::Publication => outcomes.len() >= 3 && outcomes[0] is Some
                    && outcomes[1] is Some && outcomes[2] is None,
            },
        },
    decreases outcomes.len(),
{
    if outcomes.len() > 0 {
        lemma_published_after_bulk(outcomes.drop_last());
        let before = outcomes.drop_last();
        assert(forall|i: int| 0 <= i < before.len() ==> before[i] == outcomes[i]);
    }
}

/// Once an import run is given up it stays so, whatever follows: its index is
/// never published.
pub proof fn lemma_aborted_stays(outcomes: Seq<Option<usize>>, more: Seq<Option<usize>>)
    requires
        stage_reached(outcomes) is Aborted,
    ensures
        stage_reached(outcomes + more) == stage_reached(outcomes),
    decreases more.len(),
{
    if more.len() == 0 {
        assert(outcomes + more =~= outcomes);
    } else {
        lemma_aborted_stays(outcomes, more.drop_last());
        assert((outcomes + more).drop_last() =~= outcomes + more.drop_last());
        assert((outcomes + more).last() == more.last());
    }
}

/// An import run whose documents could not be written ends given up for that
/// reason, and no later step publishes its index.
pub proof fn lemma_failed_bulk_unpublished(made: usize, more: Seq<Option<usize>>)
    ensures
        stage_reached(seq![Some(made), None] + more) == ImportStage::Aborted(
            ImportError::BulkInsert,
        ),
{
    let none: Seq<Option<usize>> = Seq::empty();
    let one: Seq<Option<usize>> = seq![Some(made)];
    let start: Seq<Option<usize>> = seq![Some(made), None];
    assert(one.drop_last() =~= none);
    assert(start.drop_last() =~= one);
    assert(stage_reached(none) == ImportStage::MakeIndex);
    assert(stage_reached(one) == ImportStage::BulkIndex);
    assert(stage_reached(start) == ImportStage::Aborted(ImportError::BulkInsert));
    lemma_aborted_stays(start, more);
}

/// The text that says which step of an import run failed.
pub open spec fn failure_text(error: ImportError, dataset: Seq<char>) -> Seq<char> {
    match error {
        ImportError::IndexCreation => "Error occurred when making index "@ + dataset,
        ImportError::BulkInsert => "failed to bulk insert"@,
        ImportError::Publication => "Error while publishing the index"@,
    }
}

/// Says which step of the import of `dataset` failed.
pub fn describe(error: ImportError, dataset: &str) -> (text: String)
    ensures
        text@ == failure_text(error, dataset@),
{
    match error {
        ImportError::IndexCreation => {
            let mut text: String = String::from_str("Error occurred when making index ");
            text.append(dataset);
            text
        },
        ImportError::BulkInsert => String::from_str("failed to bulk insert"),
        ImportError::Publication => String::from_str("Error while publishing the index"),
    }
}

} // verus!
