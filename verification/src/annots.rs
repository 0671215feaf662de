//! The annotations of a page: which are shown, and how.
use vstd::prelude::*;
use crate::canvas::{Bounds, BoundsModel};
use crate::document::{DocModel, Document};
use crate::error::{ErrorModel, PdfError};
use crate::form::{num, number_of, rect_numbers, rect_of};
use crate::number::{Real, RealModel};
use crate::object::{entry, models, DictModel, Dictionary, Object, ObjectModel, Stream};
use crate::page::{Page, PageModel};

verus! {

/// The items of a page's `/Annots`.
pub open spec fn annots_in(doc: DocModel, d: DictModel) -> Result<Seq<ObjectModel>, ErrorModel> {
    match entry(d, "Annots"@) {
        None => Ok(seq![]),
        Some(o) => match doc.got(o) {
            Err(e) => Err(e),
            Ok(m) => match m.array() {
                Some(items) => Ok(items),
                None => Ok(seq![]),
            },
        },
    }
}

/// An annotation that its flags hide.
pub open spec fn hidden(d: DictModel) -> bool {
    match entry(d, "F"@) {
        Some(o) => match o.integer() {
            Some(flags) => flags & 0x2 != 0 || flags & 0x20 != 0,
            None => false,
        },
        None => false,
    }
}

/// The dictionary of an annotation that is shown, where it can be read.
pub open spec fn shown_annot(doc: DocModel, o: ObjectModel) -> Option<DictModel> {
    match doc.got(o) {
        Err(_) => None,
        Ok(m) => match m.dict() {
            Some(d) => if hidden(d) {
                None
            } else {
                Some(d)
            },
            None => None,
        },
    }
}

/// An annotation that is shown: its place in `/Annots`, its rectangle and its kind.
pub struct AnnotationInfo {
    pub index: usize,
    pub rect: [Real; 4],
    pub subtype: String,
}

pub ghost struct AnnotationModel {
    pub index: int,
    pub rect: Seq<RealModel>,
    pub subtype: Seq<char>,
}

impl View for AnnotationInfo {
    type V = AnnotationModel;

    open spec fn view(&self) -> AnnotationModel {
        AnnotationModel {
            index: self.index as int,
            rect: seq![self.rect[0]@, self.rect[1]@, self.rect[2]@, self.rect[3]@],
            subtype: self.subtype@,
        }
    }
}

pub open spec fn annotation_models(s: Seq<AnnotationInfo>) -> Seq<AnnotationModel> {
    s.map_values(|a: AnnotationInfo| a@)
}

/// The annotations that are shown among the first `n` items.
pub open spec fn infos_among(doc: DocModel, items: Seq<ObjectModel>, n: nat) -> Seq<AnnotationModel>
    decreases n,
{
    if n == 0 {
        seq![]
    } else {
        let before = infos_among(doc, items, (n - 1) as nat);
        match shown_annot(doc, items[n - 1]) {
            None => before,
            Some(d) => match rect_of(d) {
                None => before,
                Some(rect) => before.push(
                    AnnotationModel {
                        index: n - 1,
                        rect,
                        subtype: match entry(d, "Subtype"@) {
                            Some(ObjectModel::Name(s)) => s,
                            _ => ""@,
                        },
                    },
                ),
            },
        }
    }
}

/// The annotations of a page that are shown.
pub open spec fn infos_of(doc: DocModel, page: PageModel) -> Result<Seq<AnnotationModel>, ErrorModel> {
    match annots_in(doc, page.dict) {
        Err(e) => Err(e),
        Ok(items) => Ok(infos_among(doc, items, items.len())),
    }
}

/// Four numbers as a rectangle.
pub open spec fn bounds_of(s: Seq<RealModel>) -> BoundsModel {
    BoundsModel { x0: s[0], y0: s[1], x1: s[2], y1: s[3] }
}

/// The box of a form.
pub open spec fn bbox_of(d: DictModel) -> Option<BoundsModel> {
    match entry(d, "BBox"@) {
        Some(ObjectModel::Array(items)) => if items.len() >= 4 {
            Some(
                BoundsModel {
                    x0: number_of(items[0]),
                    y0: number_of(items[1]),
                    x1: number_of(items[2]),
                    y1: number_of(items[3]),
                },
            )
        } else {
            None
        },
        _ => None,
    }
}

/// The normal appearance of an annotation: a form, or the form of the state that it is in.
pub open spec fn appearance_of(doc: DocModel, d: DictModel) -> Option<(DictModel, Seq<u8>)> {
    match entry(d, "AP"@) {
        None => None,
        Some(o) => match doc.got(o) {
            Err(_) => None,
            Ok(m) => match m.dict() {
                None => None,
                Some(ap) => match entry(ap, "N"@) {
                    None => None,
                    Some(n) => match doc.got(n) {
                        Ok(ObjectModel::Stream(sd, raw)) => Some((sd, raw)),
                        Ok(ObjectModel::Dictionary(states)) => match entry(d, "AS"@) {
                            Some(ObjectModel::Name(state)) => match entry(states, state) {
                                Some(x) => match doc.got(x) {
                                    Ok(ObjectModel::Stream(sd, raw)) => Some((sd, raw)),
                                    _ => None,
                                },
                                None => None,
                            },
                            _ => None,
                        },
                        _ => None,
                    },
                },
            },
        },
    }
}

/// The items of a page's `/Annots`.
pub fn read_annots(doc: &Document, dict: &Dictionary) -> (r: Result<Vec<Object>, PdfError>)
    ensures
        match annots_in(doc@, dict@) {
            Ok(items) => r is Ok && models(r->Ok_0@) == items,
            Err(e) => r is Err && r->Err_0@ == e,
        },
{
    let none: Vec<Object> = Vec::new();
    assert(models(none@) =~= seq![]);
    match dict.get("Annots") {
        None => Ok(none),
        Some(o) => match doc.get(o) {
            Err(e) => Err(e),
            Ok(m) => match m {
                Object::Array(items) => {
                    assert(m@->Array_0 =~= models(items@));
                    Ok(items)
                },
                _ => Ok(none),
            },
        },
    }
}

fn is_hidden(d: &Dictionary) -> (r: bool)
    ensures
        r == hidden(d@),
{
    match d.get("F") {
        Some(o) => match o.as_int() {
            Some(flags) => flags & 0x2 != 0 || flags & 0x20 != 0,
            None => false,
        },
        None => false,
    }
}

/// The dictionary of an annotation that is shown, where it can be read.
pub fn read_shown(doc: &Document, o: &Object) -> (r: Option<Dictionary>)
    ensures
        match r {
            Some(d) => shown_annot(doc@, o@) == Some(d@),
            None => shown_annot(doc@, o@) is None,
        },
{
    match doc.get(o) {
        Err(_) => None,
        Ok(m) => match m.as_dict() {
            Some(d) => if is_hidden(d) {
                None
            } else {
                Some(d.clone())
            },
            None => None,
        },
    }
}

/// The annotations of a page that are shown.
pub fn annotation_infos(doc: &Document, page: &Page) -> (r: Result<Vec<AnnotationInfo>, PdfError>)
    ensures
        match infos_of(doc@, page@) {
            Ok(list) => r is Ok && annotation_models(r->Ok_0@) == list,
            Err(e) => r is Err && r->Err_0@ == e,
        },
{
    let items = match read_annots(doc, &page.dict) {
        Ok(x) => x,
        Err(e) => {
            return Err(e);
        },
    };
    let ghost ms = models(items@);
    let mut out: Vec<AnnotationInfo> = Vec::new();
    assert(annotation_models(out@) =~= seq![]);
    let mut i: usize = 0;
    while i < items.len()
        invariant
            0 <= i <= items@.len(),
            ms == models(items@),
            annotation_models(out@) == infos_among(doc@, ms, i as nat),
        decreases items@.len() - i,
    {
        assert(ms[i as int] == items@[i as int]@);
        match read_shown(doc, &items[i]) {
            Some(d) => match rect_numbers(&d) {
                Some(rect) => {
                    let subtype: String = match d.get("Subtype") {
                        Some(Object::Name(s)) => s.as_str().to_owned(),
                        _ => "".to_owned(),
                    };
                    let ghost before = annotation_models(out@);
                    let info = AnnotationInfo { index: i, rect, subtype };
                    out.push(info);
                    assert(annotation_models(out@) =~= before.push(info@));
                },
                None => {},
            },
            None => {},
        }
        i += 1;
    }
    Ok(out)
}

/// The box of a form.
pub fn read_bbox(d: &Dictionary) -> (r: Option<Bounds>)
    ensures
        match r {
            Some(b) => bbox_of(d@) == Some(b@),
            None => bbox_of(d@) is None,
        },
{
    match d.get("BBox") {
        None => None,
        Some(o) => match o.as_array() {
            None => None,
            Some(items) => {
                if items.len() < 4 {
                    return None;
                }
                proof {
                    assert(models(items@)[0] == items@[0]@);
                    assert(models(items@)[1] == items@[1]@);
                    assert(models(items@)[2] == items@[2]@);
                    assert(models(items@)[3] == items@[3]@);
                }
                Some(
                    Bounds {
                        x0: num(&items[0]),
                        y0: num(&items[1]),
                        x1: num(&items[2]),
                        y1: num(&items[3]),
                    },
                )
            },
        },
    }
}

/// The rectangle of an annotation.
pub fn read_rect(d: &Dictionary) -> (r: Option<Bounds>)
    ensures
        match r {
            Some(b) => rect_of(d@) is Some && b@ == bounds_of(rect_of(d@)->0),
            None => rect_of(d@) is None,
        },
{
    match rect_numbers(d) {
        Some(a) => Some(
            Bounds { x0: a[0].clone(), y0: a[1].clone(), x1: a[2].clone(), y1: a[3].clone() },
        ),
        None => None,
    }
}

/// The normal appearance of an annotation.
pub fn read_appearance(doc: &Document, d: &Dictionary) -> (r: Option<Stream>)
    ensures
        match r {
            Some(s) => appearance_of(doc@, d@) == Some((s.dict@, s.raw_data@)),
            None => appearance_of(doc@, d@) is None,
        },
{
    let ap = match d.get("AP") {
        None => {
            return None;
        },
        Some(o) => match doc.get(o) {
            Err(_) => {
                return None;
            },
            Ok(m) => m,
        },
    };
    let normal = match ap.as_dict() {
        None => {
            return None;
        },
        Some(a) => match a.get("N") {
            None => {
                return None;
            },
            Some(n) => match doc.get(n) {
                Ok(x) => x,
                Err(_) => {
                    return None;
                },
            },
        },
    };
    match normal {
        Object::Stream(s) => Some(s),
        Object::Dictionary(states) => match d.get("AS") {
            Some(Object::Name(state)) => match states.get(state.as_str()) {
                Some(x) => match doc.get(x) {
                    Ok(Object::Stream(s)) => Some(s),
                    _ => None,
                },
                None => None,
            },
            _ => None,
        },
        _ => None,
    }
}

} // verus!
