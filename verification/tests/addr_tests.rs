use mimirsbrunn::addr_reader::{
    accept, advance, collect_addresses, describe, first_stage, valid_addresses, Addr,
    Dropped, ImportError, ImportStage,
};

fn addr(id: &str, street: &str, number: u32) -> Addr<u32> {
    Addr { id: id.to_string(), street_name: street.to_string(), doc: number }
}

fn ok(id: &str, street: &str, number: u32) -> Result<Addr<u32>, String> {
    Ok(addr(id, street, number))
}

fn failed(why: &str) -> Result<Addr<u32>, String> {
    Err(why.to_string())
}

#[test]
fn address_with_a_street_name_is_indexed() {
    assert_eq!(accept(ok("addr:1", "Rue de la Paix", 12)), Ok(addr("addr:1", "Rue de la Paix", 12)));
    assert_eq!(accept(ok("", " ", 0)), Ok(addr("", " ", 0)));
}

#[test]
fn address_without_a_street_name_is_dropped() {
    assert_eq!(accept(ok("addr:2", "", 3)), Err(Dropped::NoStreetName("addr:2".to_string())));
}

#[test]
fn record_that_was_not_converted_is_dropped() {
    assert_eq!(
        accept(failed("no house number")),
        Err(Dropped::ConversionFailed("no house number".to_string()))
    );
}

#[test]
fn valid_addresses_keep_their_order() {
    let kept = valid_addresses(vec![
        ok("a", "Rue A", 1),
        failed("bad"),
        ok("b", "", 2),
        ok("c", "Rue C", 3),
        ok("d", "Rue A", 4),
        failed("worse"),
    ]);
    assert_eq!(kept, vec![addr("a", "Rue A", 1), addr("c", "Rue C", 3), addr("d", "Rue A", 4)]);
    assert!(kept.iter().all(|a| !a.street_name.is_empty()));
    assert_eq!(valid_addresses(Vec::<Result<Addr<u32>, String>>::new()), vec![]);
    assert_eq!(valid_addresses(vec![failed("x"), ok("e", "", 0)]), vec![]);
}

#[test]
fn record_without_a_street_name_is_not_counted() {
    let with = valid_addresses(vec![ok("a", "Rue A", 1), ok("b", "", 2), ok("c", "Rue C", 3)]);
    let without = valid_addresses(vec![ok("a", "Rue A", 1), ok("c", "Rue C", 3)]);
    assert_eq!(with.len(), 2);
    assert_eq!(with, without);
}

fn replay(outcomes: &[Option<usize>]) -> ImportStage {
    outcomes.iter().fold(first_stage(), |stage, outcome| advance(stage, *outcome))
}

fn file_a() -> Option<Vec<Result<Addr<u32>, String>>> {
    Some(vec![ok("a1", "Rue A", 1), failed("row 2"), ok("a3", "Rue A", 3)])
}

fn file_b() -> Option<Vec<Result<Addr<u32>, String>>> {
    Some(vec![ok("b1", "", 1), ok("b2", "Rue B", 2)])
}

fn file_c() -> Option<Vec<Result<Addr<u32>, String>>> {
    Some(vec![])
}

#[test]
fn files_give_their_valid_addresses_in_order() {
    let kept = collect_addresses(vec![file_a(), file_b(), file_c()]);
    assert_eq!(kept, vec![addr("a1", "Rue A", 1), addr("a3", "Rue A", 3), addr("b2", "Rue B", 2)]);
    assert_eq!(collect_addresses(Vec::<Option<Vec<Result<Addr<u32>, String>>>>::new()), vec![]);
}

#[test]
fn unreadable_file_changes_nothing_of_the_others() {
    let three = collect_addresses(vec![file_a(), file_b(), file_c()]);
    assert_eq!(collect_addresses(vec![None, file_a(), file_b(), file_c()]), three);
    assert_eq!(collect_addresses(vec![file_a(), None, file_b(), file_c()]), three);
    assert_eq!(collect_addresses(vec![file_a(), file_b(), None, file_c()]), three);
    assert_eq!(collect_addresses(vec![file_a(), file_b(), file_c(), None]), three);
    assert_eq!(collect_addresses::<u32, String>(vec![None, None]), vec![]);
}

#[test]
fn import_run_that_succeeds() {
    let stage = first_stage();
    assert_eq!(stage, ImportStage::MakeIndex);
    let stage = advance(stage, Some(0));
    assert_eq!(stage, ImportStage::BulkIndex);
    let stage = advance(stage, Some(1234));
    assert_eq!(stage, ImportStage::Publish(1234));
    let stage = advance(stage, Some(0));
    assert_eq!(stage, ImportStage::Finished(1234));
    assert_eq!(advance(stage, None), ImportStage::Finished(1234));
    assert_eq!(advance(stage, Some(5)), ImportStage::Finished(1234));
}

#[test]
fn import_run_whose_index_cannot_be_made() {
    let stage = advance(first_stage(), None);
    assert_eq!(stage, ImportStage::Aborted(ImportError::IndexCreation));
    assert_eq!(advance(stage, Some(3)), ImportStage::Aborted(ImportError::IndexCreation));
}

#[test]
fn import_run_whose_documents_cannot_be_written_is_never_published() {
    let stage = advance(advance(first_stage(), Some(0)), None);
    assert_eq!(stage, ImportStage::Aborted(ImportError::BulkInsert));
    assert_eq!(advance(stage, Some(10)), ImportStage::Aborted(ImportError::BulkInsert));
    assert_eq!(advance(stage, None), ImportStage::Aborted(ImportError::BulkInsert));
    assert_eq!(
        replay(&[Some(0), None, Some(1), Some(2), Some(3)]),
        ImportStage::Aborted(ImportError::BulkInsert)
    );
}

#[test]
fn import_run_whose_index_cannot_be_published() {
    let stage = replay(&[Some(0), Some(9), None]);
    assert_eq!(stage, ImportStage::Aborted(ImportError::Publication));
    assert_eq!(advance(stage, Some(9)), ImportStage::Aborted(ImportError::Publication));
}

#[test]
fn stages_reached_by_outcomes() {
    assert_eq!(replay(&[]), ImportStage::MakeIndex);
    assert_eq!(replay(&[Some(7)]), ImportStage::BulkIndex);
    assert_eq!(replay(&[Some(7), Some(0)]), ImportStage::Publish(0));
    assert_eq!(replay(&[Some(7), Some(2), Some(8)]), ImportStage::Finished(2));
    assert_eq!(replay(&[None, Some(2), Some(8)]), ImportStage::Aborted(ImportError::IndexCreation));
}

#[test]
fn failures_are_described() {
    assert_eq!(
        describe(ImportError::IndexCreation, "bano"),
        "Error occurred when making index bano"
    );
    assert_eq!(describe(ImportError::IndexCreation, ""), "Error occurred when making index ");
    assert_eq!(describe(ImportError::BulkInsert, "bano"), "failed to bulk insert");
    assert_eq!(describe(ImportError::Publication, "bano"), "Error while publishing the index");
}
