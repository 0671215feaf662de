//! New files made of pages of a document.
use vstd::prelude::*;
use crate::copying::{made_model, page_copies, Copier, CopyModel};
use crate::document::{DocModel, Document};
use crate::edit_model::{no_names, reference_items, EditError, EditFault};
use crate::object::{Dictionary, ObjRef, Object, ObjectModel};
use crate::page::pages_in;
use crate::page_edit::{indices_below, set_kids};
use crate::page_tree::{all_indices, pages_node, with_kids};
use crate::reach::{chain, copies_are_reached, mentions, page_copies_wf, page_entries, pages_agree, reaches};
use crate::save::{listed, objects_of, standalone, write_standalone};
use crate::table::put;

verus! {

/// The catalog of a document.
pub open spec fn catalog(node: ObjRef) -> ObjectModel {
    ObjectModel::Dictionary(
        no_names().insert("Type"@, ObjectModel::Name("Catalog"@)).insert(
            "Pages"@,
            ObjectModel::Reference(node),
        ),
    )
}

/// The node that the pages of a new file hang from.
pub open spec fn first_node() -> ObjRef {
    ObjRef { num: 1, gen: 0 }
}

/// The objects of a new file: the pages with all that they refer to, the node that they hang
/// from, and the catalog.
pub open spec fn file_objects(refs: Seq<ObjRef>, c: CopyModel) -> Map<u32, ObjectModel> {
    c.made.insert(1, pages_node(refs)).insert(c.next as u32, catalog(first_node()))
}

/// A new file made of pages of a document.
pub open spec fn extracted(doc: DocModel, indices: Seq<usize>) -> Result<Seq<u8>, EditFault> {
    match page_copies(doc, indices, first_node(), 2) {
        Err(e) => Err(e),
        Ok((refs, c)) => Ok(
            standalone(listed(file_objects(refs, c)), ObjRef { num: c.next as u32, gen: 0 }),
        ),
    }
}

/// A new file made of all pages of a document.
pub open spec fn exported(doc: DocModel) -> Result<Seq<u8>, EditFault> {
    match pages_in(doc) {
        Err(e) => Err(EditFault::Pdf(e)),
        Ok(pages) => extracted(doc, all_indices(pages.len())),
    }
}

/// Makes a new file of pages of a document and all that they refer to, and of nothing else.
pub fn extract_pages(source: &Document, indices: &[usize]) -> (r: Result<Vec<u8>, EditError>)
    ensures
        match extracted(source@, indices@) {
            Ok(bytes) => r is Ok && r->Ok_0@ == bytes,
            Err(e) => r is Err && r->Err_0@ == e,
        },
{
    let node = ObjRef::new(1, 0);
    let mut copier = Copier::new(2);
    let refs = match copier.copy_pages(source, indices, node) {
        Ok(x) => x,
        Err(e) => {
            return Err(e);
        },
    };
    let ghost c = copier@;
    let (made, root) = copier.into_parts();
    let mut made = made;
    let mut dict = Dictionary::new();
    dict.insert("Type", Object::Name("Pages".to_owned()));
    set_kids(&mut dict, &refs);
    let mut top = Dictionary::new();
    top.insert("Type", Object::Name("Catalog".to_owned()));
    top.insert("Pages", Object::Reference(node));
    let ghost given = made@;
    put(&mut made, 1, Object::Dictionary(dict));
    put(&mut made, root, Object::Dictionary(top));
    proof {
        assert(made_model(made@) =~= file_objects(refs@, c));
    }
    let objects = objects_of(&made);
    Ok(write_standalone(objects.as_slice(), ObjRef::new(root, 0)))
}

/// Makes a new file of all pages of a document. What no page refers to is left out.
pub fn export_optimized(source: &Document) -> (r: Result<Vec<u8>, EditError>)
    ensures
        match exported(source@) {
            Ok(bytes) => r is Ok && r->Ok_0@ == bytes,
            Err(e) => r is Err && r->Err_0@ == e,
        },
{
    let count: usize = match source.page_count() {
        Ok(n) => n,
        Err(e) => {
            return Err(EditError::Pdf(e));
        },
    };
    let indices = indices_below(count);
    extract_pages(source, indices.as_slice())
}

/// A new file holds nothing without use: references lead from its catalog to every other object.
pub proof fn extracted_objects_are_reached(doc: DocModel, indices: Seq<usize>)
    requires
        page_copies(doc, indices, first_node(), 2) is Ok,
        pages_agree(pages_in(doc)->Ok_0, indices),
        forall|j: int|
            0 <= j < indices.len() ==> page_entries(
                doc,
                pages_in(doc)->Ok_0[#[trigger] indices[j] as int],
            ).dom().finite() && pages_in(doc)->Ok_0[indices[j] as int].resources.dom().finite(),
    ensures
        ({
            let (refs, c) = page_copies(doc, indices, first_node(), 2)->Ok_0;
            let all = file_objects(refs, c);
            forall|n: u32|
                #[trigger] all.contains_key(n) && n != c.next ==> reaches(
                    all,
                    1,
                    catalog(first_node()),
                    n,
                )
        }),
{
    let (refs, c) = page_copies(doc, indices, first_node(), 2)->Ok_0;
    let all = file_objects(refs, c);
    let top = catalog(first_node());
    copies_are_reached(doc, indices, first_node(), 2);
    page_copies_wf(doc, indices, first_node(), 2);
    reveal_with_fuel(mentions, 2);
    reveal(with_kids);
    reveal_strlit("Kids");
    reveal_strlit("Count");
    assert("Kids"@[0] != "Count"@[0]);
    let kids = ObjectModel::Array(reference_items(refs));
    let node = pages_node(refs)->Dictionary_0;
    assert(node.contains_key("Kids"@) && node["Kids"@] == kids);
    assert(all[1] == pages_node(refs));
    assert(top->Dictionary_0.contains_key("Pages"@));
    assert(mentions(top, 1));
    assert forall|n: u32| #[trigger] all.contains_key(n) && n != c.next implies reaches(all, 1, top, n) by {
        if n == 1 {
            assert(chain(all, 1, top, 1, seq![1u32]));
        } else {
            assert(c.made.contains_key(n));
            let path = choose|path: Seq<u32>| chain(c.made, 2, kids, n, path);
            let longer = seq![1u32] + path;
            assert(mentions(pages_node(refs), path[0]));
            assert forall|i: int| 0 <= i < longer.len() - 1 implies all.contains_key(#[trigger] longer[i])
                && mentions(all[longer[i]], longer[i + 1]) by {
                if i > 0 {
                    assert(longer[i] == path[i - 1]);
                    assert(longer[i + 1] == path[i]);
                    assert(c.made.contains_key(path[i - 1]));
                }
            }
            assert forall|i: int| 0 <= i < longer.len() implies #[trigger] longer[i] >= 1 by {
                if i > 0 {
                    assert(longer[i] == path[i - 1]);
                }
            }
            assert(longer.last() == path.last());
            assert(chain(all, 1, top, n, longer));
        }
    }
}

} // verus!
