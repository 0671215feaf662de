//! A new file made of pages has these pages, in their order.
use vstd::prelude::*;
use crate::copying::{box_array, own_entries, page_copies, renumbered, renumbered_dict, standing};
use crate::decimal::{decimal_value, digits_value};
use crate::document::{opened, DocModel};
use crate::edit_model::{no_names, reference_items};
use crate::error::ErrorModel;
use crate::extract::{catalog, exported, extracted, file_objects, first_node};
use crate::kept::{exact, exact_dict, exact_is_read_back};
use crate::number::{real_of_int, strip_front_value};
use crate::object::{entry, DictModel, ObjRef, ObjectModel};
use crate::page::{handed_down, is_pages_node, low_i32, page_box, pages_have_boxes, pages_in, rect_number, rectangle, Heritage, PageModel};
use crate::page_save::{alone_is_findable, copies_stand_alone, entry_read_back, flat_pages_are_in_order, kids_are_set, no_heritage, page_is, pages_differ, writable_is_finite};
use crate::page_tree::{all_indices, pages_node, with_kids};
use crate::reach::{page_copies_wf, page_entries, page_image};
use crate::reopen::standalone_object_is_found;
use crate::roundtrip::{dict_back, read_back, real_back, writable, writable_dict};
use crate::save::{listed, standalone};
use crate::table::{number_list, number_list_lists};

verus! {

/// A whole number that was written with a point is read back as itself.
proof fn whole_reads_back(n: i64)
    ensures
        read_back(ObjectModel::Real(real_of_int(n as int))) == ObjectModel::Integer(n as int),
{
    let m = if n < 0 {
        (-(n as int)) as nat
    } else {
        n as nat
    };
    let r = real_of_int(n as int);
    decimal_value(m);
    strip_front_value(crate::decimal::decimal(m));
    assert(r.frac.len() == 0);
    assert(r.rounded(6) == r);
    assert(digits_value(r.whole) == m);
    if r.whole.len() == 0 {
        assert(digits_value(seq![48u8]) == 0) by {
            assert(seq![48u8].drop_last() =~= seq![]);
            reveal_with_fuel(digits_value, 2);
        }
        assert(digits_value(r.whole) == 0);
    }
    assert(real_back(r) == ObjectModel::Integer(n as int));
}

/// A box that was written is read back as it is.
proof fn box_reads_back(doc: DocModel, bounds: Seq<i64>)
    requires
        bounds.len() == 4,
    ensures
        rectangle(doc, read_back(box_array(bounds))) == Ok::<Seq<i64>, ErrorModel>(bounds),
{
    let items = box_array(bounds)->Array_0;
    let back = read_back(box_array(bounds))->Array_0;
    assert(back.len() == 4);
    assert forall|i: int| 0 <= i < 4 implies rect_number(#[trigger] back[i]) == bounds[i] by {
        assert(items[i] == ObjectModel::Real(real_of_int(bounds[i] as int)));
        whole_reads_back(bounds[i]);
    }
    assert(back.map_values(|x: ObjectModel| rect_number(x)) =~= bounds);
}

/// New references do not change whether a value can be written.
proof fn renumbered_is_writable(o: ObjectModel, map: Map<u32, u32>)
    requires
        writable(o),
    ensures
        writable(renumbered(o, map)),
    decreases o, 0nat,
{
    match o {
        ObjectModel::Array(items) => {
            let now = renumbered(o, map)->Array_0;
            assert forall|i: int| 0 <= i < now.len() implies writable(#[trigger] now[i]) by {
                assert(writable(items[i]));
                renumbered_is_writable(items[i], map);
            }
        },
        ObjectModel::Dictionary(d) => {
            renumbered_dict_is_writable(d, map);
        },
        ObjectModel::Stream(d, raw) => {
            renumbered_dict_is_writable(d, map);
            let now = renumbered_dict(d, map);
            assert(entry(now, "Length"@) is Some == entry(d, "Length"@) is Some);
        },
        _ => {},
    }
}

proof fn renumbered_dict_is_writable(d: DictModel, map: Map<u32, u32>)
    requires
        writable_dict(d),
    ensures
        writable_dict(renumbered_dict(d, map)),
        renumbered_dict(d, map).dom() == d.dom(),
    decreases d, 0nat,
{
    let now = renumbered_dict(d, map);
    assert(now.dom() =~= d.dom());
    assert forall|k: Seq<char>| #[trigger] now.contains_key(k) implies writable(now[k]) by {
        assert(d.contains_key(k));
        renumbered_is_writable(d[k], map);
    }
}

/// The copy of a page whose entries and resources can be written can be written.
proof fn image_is_writable(doc: DocModel, page: PageModel, node: ObjRef, map: Map<u32, u32>)
    requires
        writable_dict(page_entries(doc, page)),
        writable_dict(page.resources),
    ensures
        writable(page_image(doc, page, node, map)),
{
    reveal(standing);
    reveal(own_entries);
    let own = own_entries(page_entries(doc, page));
    assert(writable_dict(own));
    renumbered_dict_is_writable(own, map);
    renumbered_dict_is_writable(page.resources, map);
    let bounds = box_array(page.media_box);
    assert(writable(bounds)) by {
        let items = bounds->Array_0;
        assert forall|i: int| 0 <= i < items.len() implies writable(#[trigger] items[i]) by {
            let n = page.media_box[i] as int;
            assert(items[i] == ObjectModel::Real(real_of_int(n)));
            let m = if n < 0 {
                (-n) as nat
            } else {
                n as nat
            };
            crate::decimal::decimal_is_digits(m);
            crate::number::real_of_wf(n < 0, crate::decimal::decimal(m), seq![]);
        }
    }
    let d = page_image(doc, page, node, map)->Dictionary_0;
    assert(writable_dict(d)) by {
        assert forall|k: Seq<char>| #[trigger] d.contains_key(k) implies writable(d[k]) by {
            if k == "Resources"@ {
            } else if k == "Rotate"@ {
            } else if k == "MediaBox"@ {
            } else if k == "Parent"@ {
            } else if k == "Type"@ {
            } else {
                assert(renumbered_dict(own, map).contains_key(k));
            }
        }
    }
}

/// The entries that a page stands alone by.
proof fn standing_says(d: DictModel, page: PageModel, node: ObjRef, resources: DictModel)
    ensures
        ({
            let all = standing(d, page, node, resources);
            &&& entry(all, "MediaBox"@) == Some(box_array(page.media_box))
            &&& entry(all, "Rotate"@) == Some(ObjectModel::Integer(page.rotate as int))
            &&& entry(all, "Resources"@) == Some(ObjectModel::Dictionary(resources))
        }),
{
    reveal(standing);
    reveal_strlit("MediaBox");
    reveal_strlit("Rotate");
    reveal_strlit("Resources");
    assert("MediaBox"@.len() == 8);
    assert("Rotate"@.len() == 6);
    assert("Resources"@.len() == 9);
}

/// The node of a new file is written exactly.
proof fn node_is_exact(refs: Seq<ObjRef>)
    ensures
        exact(pages_node(refs)),
        pages_node(refs)->Dictionary_0.dom().finite(),
        is_pages_node(pages_node(refs)->Dictionary_0),
        entry(pages_node(refs)->Dictionary_0, "Kids"@) == Some(
            ObjectModel::Array(reference_items(refs)),
        ),
{
    let empty = no_names().insert("Type"@, ObjectModel::Name("Pages"@));
    kids_are_set(empty, refs);
    reveal(with_kids);
    let d = pages_node(refs)->Dictionary_0;
    assert(exact_dict(d)) by {
        assert forall|k: Seq<char>| #[trigger] d.contains_key(k) implies exact(d[k]) by {
            if k == "Count"@ {
            } else if k == "Kids"@ {
                let items = reference_items(refs);
                assert forall|i: int| 0 <= i < items.len() implies exact(#[trigger] items[i]) by {
                    assert(items[i] == ObjectModel::Reference(refs[i]));
                }
            } else {
                assert(k == "Type"@);
            }
        }
    }
}

/// The catalog of a new file is written exactly.
proof fn catalog_is_exact()
    ensures
        exact(catalog(first_node())),
        entry(catalog(first_node())->Dictionary_0, "Pages"@) == Some(
            ObjectModel::Reference(first_node()),
        ),
{
    let d = catalog(first_node())->Dictionary_0;
    assert(exact_dict(d)) by {
        assert forall|k: Seq<char>| #[trigger] d.contains_key(k) implies exact(d[k]) by {
            if k != "Pages"@ {
                assert(k == "Type"@);
            }
        }
    }
}

/// The new file, opened.
pub open spec fn new_file(doc: DocModel, indices: Seq<usize>, password: Seq<u8>) -> DocModel {
    opened(extracted(doc, indices)->Ok_0, password)->Ok_0
}

/// An object of a new file is found in it.
proof fn object_is_found(all: Map<u32, ObjectModel>, root: ObjRef, password: Seq<u8>, num: u32)
    requires
        all.contains_key(num),
        writable(all[num]),
        standalone(listed(all), root).len() <= i64::MAX,
        standalone(listed(all), root).len() <= usize::MAX,
    ensures
        opened(standalone(listed(all), root), password) is Ok,
        entry(opened(standalone(listed(all), root), password)->Ok_0.trailer, "Root"@) == Some(
            ObjectModel::Reference(root),
        ),
        opened(standalone(listed(all), root), password)->Ok_0.resolved(ObjRef { num, gen: 0 })
            == Ok::<ObjectModel, ErrorModel>(read_back(all[num])),
{
    let objects = listed(all);
    let list = number_list(all);
    number_list_lists(all);
    assert(list.contains(num));
    let i = list.index_of(num);
    assert(objects[i] == (ObjRef { num, gen: 0 }, all[num]));
    assert forall|j: int| i < j < objects.len() implies (#[trigger] objects[j]).0.num
        != objects[i].0.num by {
        assert(list[i] < list[j]);
    }
    standalone_object_is_found(objects, root, password, i);
}

/// Pages that can be written: their entries and the resources that hold for them can be.
pub open spec fn pages_writable(doc: DocModel, indices: Seq<usize>) -> bool {
    let pages = pages_in(doc)->Ok_0;
    forall|j: int|
        0 <= j < indices.len() ==> writable_dict(
            page_entries(doc, pages[(#[trigger] indices[j]) as int]),
        ) && writable_dict(pages[indices[j] as int].resources)
}

/// A page as the copy of a page of the source has it: its box and its turn are those of that page,
/// and its resources are, with new references.
pub open spec fn is_copy_of(page: PageModel, source: PageModel, map: Map<u32, u32>) -> bool {
    &&& page.media_box == source.media_box
    &&& page.rotate == source.rotate
    &&& page.resources == dict_back(renumbered_dict(source.resources, map))
}

proof fn copy_is_found(
    doc: DocModel,
    now: DocModel,
    page: PageModel,
    found: PageModel,
    node: ObjRef,
    map: Map<u32, u32>,
    r: ObjRef,
    h: Heritage,
)
    requires
        page.media_box.len() == 4,
        writable(page_image(doc, page, node, map)),
        now.resolved(r) == Ok::<ObjectModel, ErrorModel>(
            read_back(page_image(doc, page, node, map)),
        ),
        page_is(now, r, h, found),
    ensures
        is_copy_of(found, page, map),
{
    let image = page_image(doc, page, node, map);
    let d = image->Dictionary_0;
    let resources = renumbered_dict(page.resources, map);
    writable_is_finite(image);
    standing_says(renumbered_dict(own_entries(page_entries(doc, page)), map), page, node, resources);
    entry_read_back(d, "MediaBox"@);
    entry_read_back(d, "Rotate"@);
    entry_read_back(d, "Resources"@);
    box_reads_back(now, page.media_box);
    let all = handed_down(h, dict_back(d));
    assert(all.rotate == Some(page.rotate as i64));
    assert(low_i32(page.rotate as i64) == page.rotate);
    assert(page_box(now, all) == page.media_box);
    assert(read_back(ObjectModel::Dictionary(resources)) == ObjectModel::Dictionary(
        dict_back(resources),
    ));
}

/// The file that is made of pages of a document can be opened, and its pages are those pages, in the
/// order that was asked for, each with its box and its turn. (Each page is asked for once, can be
/// written, and the file is not too long.)
pub proof fn extracted_pages_are_the_pages(doc: DocModel, indices: Seq<usize>, password: Seq<u8>)
    requires
        extracted(doc, indices) is Ok,
        extracted(doc, indices)->Ok_0.len() <= i64::MAX,
        extracted(doc, indices)->Ok_0.len() <= usize::MAX,
        pages_differ(pages_in(doc)->Ok_0, indices),
        pages_writable(doc, indices),
    ensures
        opened(extracted(doc, indices)->Ok_0, password) is Ok,
        pages_in(new_file(doc, indices, password)) is Ok,
        ({
            let pages = pages_in(doc)->Ok_0;
            let found = pages_in(new_file(doc, indices, password))->Ok_0;
            let map = page_copies(doc, indices, first_node(), 2)->Ok_0.1.map;
            &&& found.len() == indices.len()
            &&& forall|j: int|
                0 <= j < indices.len() ==> is_copy_of(
                    #[trigger] found[j],
                    pages[indices[j] as int],
                    map,
                )
        }),
{
    let (refs, c) = page_copies(doc, indices, first_node(), 2)->Ok_0;
    let pages = pages_in(doc)->Ok_0;
    let all = file_objects(refs, c);
    let root = ObjRef { num: c.next as u32, gen: 0 };
    let now = new_file(doc, indices, password);
    copies_stand_alone(doc, indices, first_node(), 2);
    page_copies_wf(doc, indices, first_node(), 2);
    pages_have_boxes(doc);
    catalog_is_exact();
    node_is_exact(refs);
    exact_is_read_back(catalog(first_node()));
    exact_is_read_back(pages_node(refs));
    object_is_found(all, root, password, root.num);
    object_is_found(all, root, password, 1);
    let d = pages_node(refs)->Dictionary_0;
    let h = handed_down(no_heritage(), d);
    assert forall|j: int| 0 <= j < refs.len() implies now.resolved(#[trigger] refs[j]) == Ok::<
        ObjectModel,
        ErrorModel,
    >(read_back(page_image(doc, pages[indices[j] as int], first_node(), c.map))) && crate::page_save::findable(
        now,
        h,
        refs[j],
    ) && writable(page_image(doc, pages[indices[j] as int], first_node(), c.map)) by {
        let page = pages[indices[j] as int];
        image_is_writable(doc, page, first_node(), c.map);
        assert(all[refs[j].num] == c.made[refs[j].num]);
        object_is_found(all, root, password, refs[j].num);
        assert(refs[j].gen == 0);
        alone_is_findable(now, refs[j], c.made[refs[j].num], h);
    }
    assert(!refs.contains(first_node())) by {
        if refs.contains(first_node()) {
            let j = refs.index_of(first_node());
            assert(refs[j].num >= 2);
        }
    }
    flat_pages_are_in_order(now, first_node(), d, refs);
    let found = pages_in(now)->Ok_0;
    assert forall|j: int| 0 <= j < indices.len() implies is_copy_of(
        #[trigger] found[j],
        pages[indices[j] as int],
        c.map,
    ) by {
        let page = pages[indices[j] as int];
        assert(now.resolved(refs[j]) is Ok);
        copy_is_found(doc, now, page, found[j], first_node(), c.map, refs[j], h);
    }
}

/// The file that is made of all pages of a document can be opened and has as many pages, each with
/// its box and its turn. (No two pages are one object, all can be written, and the file is not too
/// long.)
pub proof fn exported_pages_are_the_pages(doc: DocModel, password: Seq<u8>)
    requires
        exported(doc) is Ok,
        exported(doc)->Ok_0.len() <= i64::MAX,
        exported(doc)->Ok_0.len() <= usize::MAX,
        pages_differ(pages_in(doc)->Ok_0, all_indices(pages_in(doc)->Ok_0.len())),
        pages_writable(doc, all_indices(pages_in(doc)->Ok_0.len())),
    ensures
        opened(exported(doc)->Ok_0, password) is Ok,
        pages_in(opened(exported(doc)->Ok_0, password)->Ok_0) is Ok,
        ({
            let pages = pages_in(doc)->Ok_0;
            let found = pages_in(opened(exported(doc)->Ok_0, password)->Ok_0)->Ok_0;
            &&& found.len() == pages.len()
            &&& pages.len() <= usize::MAX ==> forall|j: int|
                0 <= j < pages.len() ==> (#[trigger] found[j]).media_box == pages[j].media_box
                    && found[j].rotate == pages[j].rotate
        }),
{
    let pages = pages_in(doc)->Ok_0;
    let indices = all_indices(pages.len());
    extracted_pages_are_the_pages(doc, indices, password);
    let found = pages_in(new_file(doc, indices, password))->Ok_0;
    let map = page_copies(doc, indices, first_node(), 2)->Ok_0.1.map;
    if pages.len() <= usize::MAX {
        assert forall|j: int| 0 <= j < pages.len() implies (#[trigger] found[j]).media_box
            == pages[j].media_box && found[j].rotate == pages[j].rotate by {
            assert(is_copy_of(found[j], pages[indices[j] as int], map));
        }
    }
}

} // verus!
