//! Text fields of forms: one level of `/AcroForm/Fields`.
use vstd::prelude::*;
use vstd::utf8::encode_utf8;
use crate::appearance::{extent, field_content, field_text, min_max, span};
use crate::document::{DocModel, Document};
use crate::edit::{appearance_object, font_resources_dict, form_object, helvetica_object, refused, EditSession};
use crate::edit_model::{appearance, current_dict, font_resources, form, helvetica, one_change, with_all_new, Change, EditError, EditFault, Refusal, SessionModel};
use crate::number::{real_of_int, saturate_i64, Real, RealModel};
use crate::object::{entry, models, DictModel, Dictionary, ObjRef, Object, ObjectModel};
use crate::text::same_text;

verus! {

/// A text field: its object, its name, its rectangle and its value.
pub struct FormFieldInfo {
    pub obj_ref: ObjRef,
    pub name: String,
    pub rect: [Real; 4],
    pub value: String,
}

pub ghost struct FieldModel {
    pub obj_ref: ObjRef,
    pub name: Seq<char>,
    pub rect: Seq<RealModel>,
    pub value: Seq<char>,
}

impl View for FormFieldInfo {
    type V = FieldModel;

    open spec fn view(&self) -> FieldModel {
        FieldModel {
            obj_ref: self.obj_ref,
            name: self.name@,
            rect: seq![self.rect[0]@, self.rect[1]@, self.rect[2]@, self.rect[3]@],
            value: self.value@,
        }
    }
}

/// Fields by what they say.
pub open spec fn field_models(s: Seq<FormFieldInfo>) -> Seq<FieldModel> {
    s.map_values(|f: FormFieldInfo| f@)
}

/// A number; what is none counts as zero.
pub open spec fn number_of(o: ObjectModel) -> RealModel {
    match o {
        ObjectModel::Integer(n) => real_of_int(n),
        ObjectModel::Real(r) => r,
        _ => real_of_int(0),
    }
}

/// The fields of the form of a document, or why there are none.
pub open spec fn form_items(doc: DocModel) -> Result<Seq<ObjectModel>, EditFault> {
    match doc.root() {
        Err(e) => Err(EditFault::Pdf(e)),
        Ok(root) => match entry(root, "AcroForm"@) {
            None => Err(EditFault::Refused(Refusal::NoAcroForm)),
            Some(o) => match doc.got(o) {
                Err(e) => Err(EditFault::Pdf(e)),
                Ok(m) => match m.dict() {
                    None => Err(EditFault::Refused(Refusal::AcroFormIsNotADictionary)),
                    Some(d) => match entry(d, "Fields"@) {
                        None => Err(EditFault::Refused(Refusal::NoFields)),
                        Some(f) => match doc.got(f) {
                            Err(e) => Err(EditFault::Pdf(e)),
                            Ok(list) => match list.array() {
                                None => Err(EditFault::Refused(Refusal::FieldsAreNotAnArray)),
                                Some(items) => Ok(items),
                            },
                        },
                    },
                },
            },
        },
    }
}

/// The four numbers of a rectangle.
pub open spec fn rect_of(d: DictModel) -> Option<Seq<RealModel>> {
    match entry(d, "Rect"@) {
        Some(ObjectModel::Array(items)) => if items.len() >= 4 {
            Some(
                seq![
                    number_of(items[0]),
                    number_of(items[1]),
                    number_of(items[2]),
                    number_of(items[3]),
                ],
            )
        } else {
            None
        },
        _ => None,
    }
}

/// The text under a name.
pub open spec fn text_under(d: DictModel, key: Seq<char>) -> Option<Seq<char>> {
    match entry(d, key) {
        Some(o) => o.text(),
        None => None,
    }
}

/// A text field with a name and a rectangle.
pub open spec fn field_of(r: ObjRef, d: DictModel) -> Option<FieldModel> {
    if entry(d, "FT"@) == Some(ObjectModel::Name("Tx"@)) {
        match (text_under(d, "T"@), rect_of(d)) {
            (Some(name), Some(rect)) => Some(
                FieldModel {
                    obj_ref: r,
                    name,
                    rect,
                    value: match text_under(d, "V"@) {
                        Some(v) => v,
                        None => seq![],
                    },
                },
            ),
            _ => None,
        }
    } else {
        None
    }
}

/// The text fields among the items from the `i`-th on, behind those in `acc`.
pub open spec fn fields_from(s: SessionModel, items: Seq<ObjectModel>, i: nat, acc: Seq<FieldModel>) -> Result<
    Seq<FieldModel>,
    EditFault,
>
    decreases items.len() - i,
{
    if i >= items.len() {
        Ok(acc)
    } else {
        match items[i as int] {
            ObjectModel::Reference(r) => match s.current(r.num) {
                Err(e) => Err(EditFault::Pdf(e)),
                Ok(o) => match o.dict() {
                    None => fields_from(s, items, i + 1, acc),
                    Some(d) => match field_of(r, d) {
                        None => fields_from(s, items, i + 1, acc),
                        Some(f) => fields_from(s, items, i + 1, acc.push(f)),
                    },
                },
            },
            _ => fields_from(s, items, i + 1, acc),
        }
    }
}

/// The text fields of a session; a document without a form has none.
pub open spec fn fields_of(s: SessionModel) -> Result<Seq<FieldModel>, EditFault> {
    match form_items(s.doc) {
        Err(EditFault::Pdf(e)) => Err(EditFault::Pdf(e)),
        Err(EditFault::Refused(_)) => Ok(seq![]),
        Ok(items) => fields_from(s, items, 0, seq![]),
    }
}

/// The first field from the `i`-th item on with a name.
pub open spec fn named_from(doc: DocModel, items: Seq<ObjectModel>, i: nat, name: Seq<char>) -> Result<
    ObjRef,
    EditFault,
>
    decreases items.len() - i,
{
    if i >= items.len() {
        Err(EditFault::Refused(Refusal::NoSuchField))
    } else {
        match items[i as int] {
            ObjectModel::Reference(r) => match doc.resolved(r) {
                Err(e) => Err(EditFault::Pdf(e)),
                Ok(o) => match o.dict() {
                    None => named_from(doc, items, i + 1, name),
                    Some(d) => if text_under(d, "T"@) == Some(name) {
                        Ok(r)
                    } else {
                        named_from(doc, items, i + 1, name)
                    },
                },
            },
            _ => named_from(doc, items, i + 1, name),
        }
    }
}

/// The field with a name.
pub open spec fn named_field(doc: DocModel, name: Seq<char>) -> Result<ObjRef, EditFault> {
    match form_items(doc) {
        Err(e) => Err(e),
        Ok(items) => named_from(doc, items, 0, name),
    }
}

/// How far two numbers are apart, in millionths: at least one.
pub open spec fn distance(a: RealModel, b: RealModel) -> int {
    let x = saturate_i64(a.millionths());
    let y = saturate_i64(b.millionths());
    if x <= y {
        extent(x as int, y as int)
    } else {
        extent(y as int, x as int)
    }
}

/// A field with a value and an appearance that shows it.
#[verifier::opaque]
pub open spec fn filled(d: DictModel, value: Seq<char>, form_num: int) -> ObjectModel {
    ObjectModel::Dictionary(
        d.insert("V"@, ObjectModel::String(encode_utf8(value))).insert("AP"@, appearance(form_num)),
    )
}

/// The session with a value in the field with a name.
pub open spec fn field_set(s: SessionModel, name: Seq<char>, value: Seq<char>) -> Result<
    SessionModel,
    EditFault,
> {
    match named_field(s.doc, name) {
        Err(e) => Err(e),
        Ok(r) => match current_dict(s, r.num, Refusal::FieldIsNotADictionary) {
            Err(e) => Err(e),
            Ok((before, d)) => match rect_of(d) {
                None => Err(EditFault::Refused(Refusal::FieldHasNoRect)),
                Some(rect) => if !s.has_room(2) {
                    Err(EditFault::Refused(Refusal::NumbersUsedUp))
                } else {
                    let height = distance(rect[1], rect[3]);
                    let news = seq![
                        helvetica(),
                        form(
                            font_resources(s.next),
                            distance(rect[0], rect[2]),
                            height,
                            field_text(height, value),
                        ),
                    ];
                    Ok(
                        with_all_new(s, news, 2).committed(
                            one_change(
                                Change { num: r.num, before, after: filled(d, value, s.next + 1) },
                            ),
                        ),
                    )
                },
            },
        },
    }
}

/// A number; what is none counts as zero.
pub fn num(o: &Object) -> (r: Real)
    ensures
        r@ == number_of(o@),
{
    match o {
        Object::Integer(n) => Real::from_int(*n),
        Object::Real(x) => x.clone(),
        _ => Real::from_int(0),
    }
}

/// The fields of the form of a document.
pub(crate) fn form_array(doc: &Document) -> (r: Result<Vec<Object>, EditError>)
    ensures
        match form_items(doc@) {
            Ok(items) => r is Ok && models(r->Ok_0@) == items,
            Err(e) => r is Err && r->Err_0@ == e,
        },
{
    let root = match doc.root() {
        Ok(d) => d,
        Err(e) => {
            return Err(EditError::Pdf(e));
        },
    };
    let form_object = match root.get("AcroForm") {
        None => {
            return refused(Refusal::NoAcroForm);
        },
        Some(o) => match doc.get(o) {
            Ok(x) => x,
            Err(e) => {
                return Err(EditError::Pdf(e));
            },
        },
    };
    let list = match form_object.as_dict() {
        None => {
            return refused(Refusal::AcroFormIsNotADictionary);
        },
        Some(d) => match d.get("Fields") {
            None => {
                return refused(Refusal::NoFields);
            },
            Some(o) => match doc.get(o) {
                Ok(x) => x,
                Err(e) => {
                    return Err(EditError::Pdf(e));
                },
            },
        },
    };
    match list {
        Object::Array(items) => {
            assert(list@->Array_0 =~= models(items@));
            Ok(items)
        },
        _ => refused(Refusal::FieldsAreNotAnArray),
    }
}

/// The four numbers of a rectangle.
pub(crate) fn rect_numbers(dict: &Dictionary) -> (r: Option<[Real; 4]>)
    ensures
        match r {
            Some(a) => rect_of(dict@) == Some(seq![a[0]@, a[1]@, a[2]@, a[3]@]),
            None => rect_of(dict@) is None,
        },
{
    let items = match dict.get("Rect") {
        None => {
            return None;
        },
        Some(o) => match o.as_array() {
            None => {
                return None;
            },
            Some(items) => items,
        },
    };
    if items.len() < 4 {
        return None;
    }
    proof {
        assert(models(items@)[0] == items@[0]@);
        assert(models(items@)[1] == items@[1]@);
        assert(models(items@)[2] == items@[2]@);
        assert(models(items@)[3] == items@[3]@);
    }
    Some([num(&items[0]), num(&items[1]), num(&items[2]), num(&items[3])])
}

/// The text under a name.
pub(crate) fn text_entry(dict: &Dictionary, key: &str) -> (r: Option<String>)
    ensures
        match r {
            Some(t) => text_under(dict@, key@) == Some(t@),
            None => text_under(dict@, key@) is None,
        },
{
    match dict.get(key) {
        Some(o) => o.as_text_string(),
        None => None,
    }
}

/// A text field with a name and a rectangle.
fn field_info(r: ObjRef, dict: &Dictionary) -> (f: Option<FormFieldInfo>)
    ensures
        match f {
            Some(x) => field_of(r, dict@) == Some(x@),
            None => field_of(r, dict@) is None,
        },
{
    match dict.get("FT") {
        Some(o) => {
            if !o.is_name("Tx") {
                return None;
            }
        },
        None => {
            return None;
        },
    }
    let name = match text_entry(dict, "T") {
        Some(t) => t,
        None => {
            return None;
        },
    };
    let rect = match rect_numbers(dict) {
        Some(a) => a,
        None => {
            return None;
        },
    };
    let value = match text_entry(dict, "V") {
        Some(t) => t,
        None => {
            let none = "".to_owned();
            proof {
                reveal_strlit("");
                assert(none@ =~= seq![]);
            }
            none
        },
    };
    Some(FormFieldInfo { obj_ref: r, name, rect, value })
}

/// How far two numbers are apart.
fn distance_of(a: &Real, b: &Real) -> (r: i128)
    ensures
        r == distance(a@, b@),
        1_000_000 <= r <= 0x1_0000_0000_0000_0000,
{
    let (x, y) = min_max(a.to_millionths(), b.to_millionths());
    span(x, y)
}

impl EditSession {
    /// The text fields of the document's form, with the values that they have now.
    pub fn form_fields(&self) -> (r: Result<Vec<FormFieldInfo>, EditError>)
        ensures
            match fields_of(self@) {
                Ok(list) => r is Ok && field_models(r->Ok_0@) == list,
                Err(e) => r is Err && r->Err_0@ == e,
            },
    {
        let mut out: Vec<FormFieldInfo> = Vec::new();
        assert(field_models(out@) =~= seq![]);
        let items = match form_array(self.document()) {
            Ok(x) => x,
            Err(EditError::Pdf(e)) => {
                return Err(EditError::Pdf(e));
            },
            Err(EditError::Refused(_)) => {
                return Ok(out);
            },
        };
        let ghost ms = models(items@);
        let ghost goal = fields_from(self@, ms, 0, seq![]);
        let mut i: usize = 0;
        while i < items.len()
            invariant
                0 <= i <= items@.len(),
                ms == models(items@),
                goal == fields_from(self@, ms, 0, seq![]),
                goal == fields_from(self@, ms, i as nat, field_models(out@)),
                fields_of(self@) == goal,
            decreases items@.len() - i,
        {
            assert(ms[i as int] == items@[i as int]@);
            match &items[i] {
                Object::Reference(r) => {
                    let object = match self.current(r.num) {
                        Ok(o) => o,
                        Err(e) => {
                            return Err(EditError::Pdf(e));
                        },
                    };
                    match object.as_dict() {
                        Some(d) => match field_info(*r, d) {
                            Some(f) => {
                                let ghost before = field_models(out@);
                                out.push(f);
                                assert(field_models(out@) =~= before.push(f@));
                            },
                            None => {},
                        },
                        None => {},
                    }
                },
                _ => {},
            }
            i += 1;
        }
        Ok(out)
    }

    /// The field with a name, as the document has it.
    pub fn find_form_field(&self, field_name: &str) -> (r: Result<ObjRef, EditError>)
        ensures
            match named_field(self@.doc, field_name@) {
                Ok(x) => r is Ok && r->Ok_0 == x,
                Err(e) => r is Err && r->Err_0@ == e,
            },
    {
        let doc = self.document();
        let items = match form_array(doc) {
            Ok(x) => x,
            Err(e) => {
                return Err(e);
            },
        };
        let ghost ms = models(items@);
        let ghost goal = named_from(doc@, ms, 0, field_name@);
        let mut i: usize = 0;
        while i < items.len()
            invariant
                0 <= i <= items@.len(),
                ms == models(items@),
                doc@ == self@.doc,
                goal == named_from(doc@, ms, i as nat, field_name@),
                named_field(self@.doc, field_name@) == goal,
            decreases items@.len() - i,
        {
            assert(ms[i as int] == items@[i as int]@);
            match &items[i] {
                Object::Reference(r) => {
                    let object = match doc.resolve(*r) {
                        Ok(o) => o,
                        Err(e) => {
                            return Err(EditError::Pdf(e));
                        },
                    };
                    match object.as_dict() {
                        Some(d) => match text_entry(d, "T") {
                            Some(t) => {
                                if same_text(t.as_str(), field_name) {
                                    return Ok(*r);
                                }
                            },
                            None => {},
                        },
                        None => {},
                    }
                },
                _ => {},
            }
            i += 1;
        }
        refused(Refusal::NoSuchField)
    }

    /// Gives a text field a value, and an appearance that shows it.
    pub fn set_form_field_value(&mut self, field_name: &str, value: &str) -> (r: Result<
        (),
        EditError,
    >)
        requires
            old(self).wf(),
        ensures
            final(self).wf(),
            match field_set(old(self)@, field_name@, value@) {
                Ok(s) => r is Ok && final(self)@ == s,
                Err(e) => r is Err && r->Err_0@ == e && final(self)@ == old(self)@,
            },
    {
        let field: ObjRef = match self.find_form_field(field_name) {
            Ok(x) => x,
            Err(e) => {
                return Err(e);
            },
        };
        let before = match self.current(field.num) {
            Ok(o) => o,
            Err(e) => {
                return Err(EditError::Pdf(e));
            },
        };
        let mut dict = match before.as_dict() {
            Some(d) => d.clone(),
            None => {
                return refused(Refusal::FieldIsNotADictionary);
            },
        };
        let rect = match rect_numbers(&dict) {
            Some(a) => a,
            None => {
                return refused(Refusal::FieldHasNoRect);
            },
        };
        let font: u32 = self.next_number();
        if font > u32::MAX - 2 {
            return refused(Refusal::NumbersUsedUp);
        }
        let width: i128 = distance_of(&rect[0], &rect[2]);
        let height: i128 = distance_of(&rect[1], &rect[3]);
        let mut news: Vec<Object> = Vec::new();
        news.push(helvetica_object());
        news.push(form_object(font_resources_dict(font), width, height, field_content(height, value)));
        let ghost d = dict@;
        dict.insert("V", Object::String(crate::object::clone_bytes(value.as_bytes())));
        dict.insert("AP", appearance_object(font + 1));
        let after = Object::Dictionary(dict);
        proof {
            reveal(filled);
            assert(after@ == filled(d, value@, font + 1));
            assert(models(news@) =~= seq![
                helvetica(),
                form(
                    font_resources(self@.next),
                    width as int,
                    height as int,
                    field_text(height as int, value@),
                ),
            ]);
        }
        self.make_change(news, (field.num, before, after));
        Ok(())
    }
}

} // verus!
