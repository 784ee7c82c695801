//! The catalog of arrangements.

use super::{
    handle_text, record_fault, CatalogFault, CatalogFaultModel, ErrorModel, LayoutError,
    LayoutMorphism, RecordFault, DEFAULT_LAYOUT,
};
use crate::text::{chars_of, same_chars};
use vstd::prelude::*;

verus! {

/// Checked records, no two under one handle, the default layout among them.
#[derive(Debug, PartialEq, Eq)]
pub struct Catalog {
    records: Vec<LayoutMorphism>,
}

impl View for Catalog {
    type V = Seq<LayoutMorphism>;

    closed spec fn view(&self) -> Seq<LayoutMorphism> {
        self.records@
    }
}

/// Where a handle stands among the first `upto` records.
pub open spec fn holds(records: Seq<LayoutMorphism>, handle: Seq<char>, upto: int) -> bool {
    exists|i: int| 0 <= i < upto && handle_text(#[trigger] records[i]) == handle
}

/// The records of read documents.
pub open spec fn records_of(documents: Seq<(String, LayoutMorphism)>) -> Seq<LayoutMorphism> {
    documents.map_values(|document: (String, LayoutMorphism)| document.1)
}

/// What is wrong with the `i`th document, given the earlier ones.
pub open spec fn document_error(documents: Seq<(String, LayoutMorphism)>, i: int) -> Option<
    ErrorModel,
> {
    let record = documents[i].1;
    match record_fault(record) {
        Some(fault) => Some(ErrorModel::Record { handle: handle_text(record), fault }),
        None => if holds(records_of(documents), handle_text(record), i) {
            Some(
                ErrorModel::Catalog {
                    file: documents[i].0@,
                    fault: CatalogFaultModel::Duplicate,
                },
            )
        } else {
            None
        },
    }
}

/// What is wrong with the first `upto` documents.
pub open spec fn first_document_error(
    documents: Seq<(String, LayoutMorphism)>,
    upto: int,
) -> Option<ErrorModel>
    decreases upto,
{
    if upto <= 0 {
        None
    } else {
        match first_document_error(documents, upto - 1) {
            Some(error) => Some(error),
            None => document_error(documents, upto - 1),
        }
    }
}

/// What is wrong with a catalog.
pub open spec fn catalog_error(documents: Seq<(String, LayoutMorphism)>) -> Option<ErrorModel> {
    match first_document_error(documents, documents.len() as int) {
        Some(error) => Some(error),
        None => if !holds(records_of(documents), DEFAULT_LAYOUT@, documents.len() as int) {
            Some(
                ErrorModel::Catalog {
                    file: "spec/v2/layouts"@,
                    fault: CatalogFaultModel::NoDefault,
                },
            )
        } else {
            None
        },
    }
}

proof fn document_error_stays(documents: Seq<(String, LayoutMorphism)>, low: int, high: int)
    requires
        0 <= low <= high,
        first_document_error(documents, low) is Some,
    ensures
        first_document_error(documents, high) == first_document_error(documents, low),
    decreases high - low,
{
    if low < high {
        document_error_stays(documents, low, high - 1);
    }
}

/// The position of a handle among records.
fn find(records: &Vec<LayoutMorphism>, handle: &str) -> (at: Option<usize>)
    ensures
        match at {
            Some(i) => i < records@.len() && handle_text(records@[i as int]) == handle@,
            None => !holds(records@, handle@, records@.len() as int),
        },
{
    let wanted = chars_of(handle);
    let mut at: usize = 0;
    while at < records.len()
        invariant
            at <= records@.len(),
            wanted@ == handle@,
            forall|i: int| 0 <= i < at ==> handle_text(#[trigger] records@[i]) != handle@,
        decreases records@.len() - at,
    {
        let found = records[at].handle();
        if same_chars(&chars_of(found.as_str()), &wanted) {
            return Some(at);
        }
        at += 1;
    }
    None
}

/// Collects read documents, each under the name of its file.
pub fn catalog(documents: Vec<(String, LayoutMorphism)>) -> (catalog: Result<Catalog, LayoutError>)
    ensures
        match catalog {
            Ok(c) => catalog_error(documents@) is None && c@ == records_of(documents@),
            Err(e) => catalog_error(documents@) == Some(e@),
        },
{
    let ghost all = documents@;
    let mut rest = documents;
    let mut turned: Vec<(String, LayoutMorphism)> = Vec::new();
    while rest.len() > 0
        invariant
            turned@.len() + rest@.len() == all.len(),
            rest@ == all.take(rest@.len() as int),
            forall|i: int|
                0 <= i < turned@.len() ==> #[trigger] turned@[i] == all[all.len() - 1 - i],
        decreases rest@.len(),
    {
        if let Some(document) = rest.pop() {
            turned.push(document);
        }
    }
    let mut records: Vec<LayoutMorphism> = Vec::new();
    while turned.len() > 0
        invariant
            records@.len() + turned@.len() == all.len(),
            forall|i: int|
                0 <= i < turned@.len() ==> #[trigger] turned@[i] == all[all.len() - 1 - i],
            records@ == records_of(all).take(records@.len() as int),
            first_document_error(all, records@.len() as int) is None,
            all == documents@,
        decreases turned@.len(),
    {
        if let Some((file, record)) = turned.pop() {
            let ghost at = records@.len() as int;
            proof {
                assert(all[at] == (file, record));
                if first_document_error(all, at + 1) is Some {
                    document_error_stays(all, at + 1, all.len() as int);
                }
                assert(forall|i: int| 0 <= i < at ==> records@[i] == #[trigger] records_of(all)[i]);
            }
            record.check()?;
            let handle = record.handle();
            if find(&records, handle.as_str()).is_some() {
                assert(holds(records_of(all), handle_text(record), at));
                return Err(LayoutError::Catalog { file, fault: CatalogFault::Duplicate });
            }
            assert(!holds(records_of(all), handle_text(record), at)) by {
                if holds(records_of(all), handle_text(record), at) {
                    let i = choose|i: int|
                        0 <= i < at && handle_text(#[trigger] records_of(all)[i]) == handle_text(
                            record,
                        );
                    assert(handle_text(records@[i]) == handle@);
                }
            }
            records.push(record);
            assert(records@ =~= records_of(all).take(at + 1));
        }
    }
    assert(records@ =~= records_of(all));
    if find(&records, DEFAULT_LAYOUT).is_none() {
        return Err(
            LayoutError::Catalog {
                file: string_literal("spec/v2/layouts"),
                fault: CatalogFault::NoDefault,
            },
        );
    }
    Ok(Catalog { records })
}

impl Catalog {
    /// The record under a handle.
    pub fn get(&self, handle: &str) -> (record: Option<&LayoutMorphism>)
        ensures
            match record {
                Some(r) => self@.contains(*r) && handle_text(*r) == handle@,
                None => !holds(self@, handle@, self@.len() as int),
            },
    {
        match find(&self.records, handle) {
            Some(at) => Some(&self.records[at]),
            None => None,
        }
    }
}

fn string_literal(text: &str) -> (owned: String)
    ensures
        owned@ == text@,
{
    text.to_string()
}

/// Looks one record up by `<name>@<version>`.
pub fn arrangement<'a>(catalog: &'a Catalog, handle: &str) -> (record: Result<
    &'a LayoutMorphism,
    LayoutError,
>)
    ensures
        match record {
            Ok(r) => catalog@.contains(*r) && handle_text(*r) == handle@,
            Err(e) => !holds(catalog@, handle@, catalog@.len() as int) && e@
                == (ErrorModel::Record { handle: handle@, fault: RecordFault::Unknown }),
        },
{
    match catalog.get(handle) {
        Some(record) => Ok(record),
        None => Err(
            LayoutError::Record { handle: string_literal(handle), fault: RecordFault::Unknown },
        ),
    }
}

} // verus!
