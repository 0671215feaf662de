//! What the operators of content streams do, each by its name, and how they relate.
use vstd::prelude::*;
use crate::affine::{step_matrix, translation_matrix};
use crate::canvas::{ClipModel, ColorModel, ItemModel, MatrixModel, PointModel, SegmentModel, StepModel, Transform};
use crate::content::InstructionModel;
use crate::display::{FillRule, PaintOp};
use crate::document::DocModel;
use crate::error::ErrorModel;
use crate::font::FontModel;
use crate::interp::{arg, bytes_shown, cids_shown, color_arg, executed, executed_from, extended, first_gfx, font_for, font_name, items_shown, numbers_in, painted, resource, shown, GsModel, Gfx};
use crate::number::{real_of_int, RealModel};
use crate::object::{entry, DictModel, ObjectModel};
use crate::operator_names::operators_have_their_names;
use crate::text::be_units;

verus! {

/// Where an operator is carried out: a document, how deep forms are followed, and the resources.
pub ghost struct Scene {
    pub doc: DocModel,
    pub left: nat,
    pub res: DictModel,
}

impl Scene {
    /// The state behind an operator with its operands.
    pub open spec fn behind(self, g: Gfx, operator: Seq<char>, operands: Seq<ObjectModel>) -> Gfx {
        executed(self.doc, self.left, self.res, g, InstructionModel { operator, operands })->Ok_0
    }
}

/// No operands.
pub open spec fn none() -> Seq<ObjectModel> {
    seq![]
}

/// One number, and more of them.
pub open spec fn one(a: RealModel) -> Seq<ObjectModel> {
    seq![ObjectModel::Real(a)]
}

pub open spec fn two(a: RealModel, b: RealModel) -> Seq<ObjectModel> {
    seq![ObjectModel::Real(a), ObjectModel::Real(b)]
}

pub open spec fn three(a: RealModel, b: RealModel, c: RealModel) -> Seq<ObjectModel> {
    seq![ObjectModel::Real(a), ObjectModel::Real(b), ObjectModel::Real(c)]
}

pub open spec fn four(a: RealModel, b: RealModel, c: RealModel, d: RealModel) -> Seq<ObjectModel> {
    seq![ObjectModel::Real(a), ObjectModel::Real(b), ObjectModel::Real(c), ObjectModel::Real(d)]
}

pub open spec fn six(m: MatrixModel) -> Seq<ObjectModel> {
    seq![
        ObjectModel::Real(m.a),
        ObjectModel::Real(m.b),
        ObjectModel::Real(m.c),
        ObjectModel::Real(m.d),
        ObjectModel::Real(m.e),
        ObjectModel::Real(m.f),
    ]
}

pub open spec fn zero() -> RealModel {
    real_of_int(0)
}

/// A point with nothing added to it.
pub open spec fn at(x: RealModel, y: RealModel) -> PointModel {
    PointModel { x, y, right: zero(), up: zero() }
}

/// An operand counts as its number; what is none or is not there counts as zero.
#[verifier::rlimit(50)]
pub proof fn operands_are_numbers(ops: Seq<ObjectModel>, i: int, n: int, r: RealModel)
    ensures
        0 <= i < ops.len() && ops[i] == ObjectModel::Integer(n) ==> arg(ops, i) == real_of_int(n),
        0 <= i < ops.len() && ops[i] == ObjectModel::Real(r) ==> arg(ops, i) == r,
        0 <= i < ops.len() && !(ops[i] is Integer) && !(ops[i] is Real) ==> arg(ops, i)
            == real_of_int(0),
        i >= ops.len() ==> arg(ops, i) == real_of_int(0),
{
}

/// All operators are carried out, but for those that use a resource and an extended state or an
/// object: these fail where it cannot be read.
#[verifier::rlimit(50)]
pub proof fn only_resources_fail(s: Scene, g: Gfx, operator: Seq<char>, ops: Seq<ObjectModel>)
    ensures
        operator != "gs"@ && operator != "Do"@ ==> executed(
            s.doc,
            s.left,
            s.res,
            g,
            InstructionModel { operator, operands: ops },
        ) is Ok,
{
    operators_have_their_names();
}

/// `TD` sets the leading and moves: it is `TL` of the second operand with the other sign, and `Td`
/// behind that.
#[verifier::rlimit(50)]
pub proof fn td_sets_the_leading(s: Scene, g: Gfx, ops: Seq<ObjectModel>)
    ensures
        s.behind(g, "TD"@, ops) == s.behind(
            s.behind(g, "TL"@, one(arg(ops, 1).negated())),
            "Td"@,
            ops,
        ),
{
    operators_have_their_names();
}

/// Two lines of the same height: `TD` and `T*` behind it both move up by the second operand.
#[verifier::rlimit(50)]
pub proof fn td_and_next_line(s: Scene, g: Gfx, x: RealModel, y: RealModel)
    ensures
        ({
            let h = s.behind(s.behind(g, "TD"@, two(x, y)), "T*"@, none());
            &&& h.line.len() == g.line.len() + 2
            &&& h.line.drop_last().drop_last() == g.line
            &&& step_matrix(h.line.drop_last().last()) == translation_matrix(x, y)
            &&& step_matrix(h.line.last()) == translation_matrix(zero(), y)
            &&& h.text == h.line
        }),
{
    operators_have_their_names();
    let h = s.behind(s.behind(g, "TD"@, two(x, y)), "T*"@, none());
    assert(h.line.drop_last().drop_last() =~= g.line);
    assert(y.negated().negated() == y);
}

/// `Td` starts a line that is moved from the start of the last one, wherever text had got to; all
/// but the place stays.
#[verifier::rlimit(50)]
pub proof fn td_moves_from_the_line(s: Scene, g: Gfx, x: RealModel, y: RealModel)
    ensures
        ({
            let h = s.behind(g, "Td"@, two(x, y));
            &&& h.line.len() == g.line.len() + 1
            &&& h.line.drop_last() == g.line
            &&& step_matrix(h.line.last()) == translation_matrix(x, y)
            &&& h.text == h.line
            &&& Gfx { line: g.line, text: g.text, ..h } == g
        }),
{
    operators_have_their_names();
    assert(s.behind(g, "Td"@, two(x, y)).line.drop_last() =~= g.line);
}

/// `T*` is `Td` down by the leading that `TL` set.
#[verifier::rlimit(50)]
pub proof fn next_line_is_down_by_the_leading(s: Scene, g: Gfx, l: RealModel)
    ensures
        s.behind(g, "T*"@, none()) == s.behind(g, "Td"@, two(zero(), g.gs.leading.negated())),
        s.behind(s.behind(g, "TL"@, one(l)), "T*"@, none()) == s.behind(
            s.behind(g, "TL"@, one(l)),
            "Td"@,
            two(zero(), l.negated()),
        ),
{
    operators_have_their_names();
}

/// `Tm` takes the place of all moves before it, and `BT` starts without any.
#[verifier::rlimit(50)]
pub proof fn text_matrix_starts_anew(s: Scene, g: Gfx, m: MatrixModel)
    ensures
        ({
            let h = s.behind(g, "Tm"@, six(m));
            &&& h.line == seq![StepModel::Matrix(m)]
            &&& h.text == h.line
            &&& Gfx { line: g.line, text: g.text, ..h } == g
            &&& h == s.behind(s.behind(g, "BT"@, none()), "Tm"@, six(m))
        }),
        ({
            let h = s.behind(g, "BT"@, none());
            &&& h.line.len() == 0
            &&& h.text.len() == 0
            &&& Gfx { line: g.line, text: g.text, ..h } == g
        }),
{
    operators_have_their_names();
}

/// The operators of text that set one thing set that one alone.
#[verifier::rlimit(50)]
pub proof fn text_operators_set_one_thing(s: Scene, g: Gfx, font: Seq<char>, a: RealModel)
    ensures
        s.behind(g, "Tc"@, one(a)).gs.char_spacing == a,
        s.behind(g, "Tw"@, one(a)).gs.word_spacing == a,
        s.behind(g, "Tz"@, one(a)).gs.h_scale == a,
        s.behind(g, "TL"@, one(a)).gs.leading == a,
        s.behind(g, "Ts"@, one(a)).gs.text_rise == a,
        ({
            let h = s.behind(g, "Tc"@, one(a));
            Gfx { gs: GsModel { char_spacing: g.gs.char_spacing, ..h.gs }, ..h } == g
        }),
        ({
            let h = s.behind(g, "Tw"@, one(a));
            Gfx { gs: GsModel { word_spacing: g.gs.word_spacing, ..h.gs }, ..h } == g
        }),
        ({
            let h = s.behind(g, "Tz"@, one(a));
            Gfx { gs: GsModel { h_scale: g.gs.h_scale, ..h.gs }, ..h } == g
        }),
        ({
            let h = s.behind(g, "TL"@, one(a));
            Gfx { gs: GsModel { leading: g.gs.leading, ..h.gs }, ..h } == g
        }),
        ({
            let h = s.behind(g, "Ts"@, one(a));
            Gfx { gs: GsModel { text_rise: g.gs.text_rise, ..h.gs }, ..h } == g
        }),
        ({
            let h = s.behind(g, "Tf"@, seq![ObjectModel::Name(font), ObjectModel::Real(a)]);
            &&& h.gs.font == Some(font)
            &&& h.gs.font_size == a
            &&& Gfx { gs: GsModel { font: g.gs.font, font_size: g.gs.font_size, ..h.gs }, ..h } == g
        }),
{
    operators_have_their_names();
}

/// `'` is `T*` and `Tj`; `"` is `Tw` of the first operand, `Tc` of the second, and `'` of the
/// third.
#[verifier::rlimit(50)]
pub proof fn quotes_show_on_the_next_line(s: Scene, g: Gfx, w: RealModel, c: RealModel, text: ObjectModel)
    ensures
        s.behind(g, "'"@, seq![text]) == s.behind(s.behind(g, "T*"@, none()), "Tj"@, seq![text]),
        s.behind(g, "\""@, seq![ObjectModel::Real(w), ObjectModel::Real(c), text]) == s.behind(
            s.behind(s.behind(g, "Tw"@, one(w)), "Tc"@, one(c)),
            "'"@,
            seq![text],
        ),
{
    operators_have_their_names();
}

/// `TJ` of nothing does nothing, of one string it is `Tj`, and of items behind others it shows
/// those behind the others.
#[verifier::rlimit(50)]
pub proof fn array_is_shown_item_by_item(
    s: Scene,
    g: Gfx,
    text: Seq<u8>,
    a: Seq<ObjectModel>,
    b: Seq<ObjectModel>,
)
    ensures
        s.behind(g, "TJ"@, seq![ObjectModel::Array(none())]) == g,
        s.behind(g, "TJ"@, seq![ObjectModel::Array(seq![ObjectModel::String(text)])]) == s.behind(
            g,
            "Tj"@,
            seq![ObjectModel::String(text)],
        ),
        s.behind(g, "TJ"@, seq![ObjectModel::Array(a + b)]) == s.behind(
            s.behind(g, "TJ"@, seq![ObjectModel::Array(a)]),
            "TJ"@,
            seq![ObjectModel::Array(b)],
        ),
{
    operators_have_their_names();
    let single = seq![ObjectModel::String(text)];
    reveal_with_fuel(items_shown, 3);
    assert(items_shown(s.doc, s.res, g, single, 1) == shown(s.doc, s.res, g, text));
    items_join(s, g, a, b, b.len());
}

proof fn items_before(s: Scene, g: Gfx, a: Seq<ObjectModel>, b: Seq<ObjectModel>, n: nat)
    requires
        n <= a.len(),
    ensures
        items_shown(s.doc, s.res, g, a + b, n) == items_shown(s.doc, s.res, g, a, n),
    decreases n,
{
    if n > 0 {
        assert((a + b)[n - 1] == a[n - 1]);
        items_before(s, g, a, b, (n - 1) as nat);
    }
}

proof fn items_join(s: Scene, g: Gfx, a: Seq<ObjectModel>, b: Seq<ObjectModel>, n: nat)
    requires
        n <= b.len(),
    ensures
        items_shown(s.doc, s.res, g, a + b, a.len() + n) == items_shown(
            s.doc,
            s.res,
            items_shown(s.doc, s.res, g, a, a.len()),
            b,
            n,
        ),
    decreases n,
{
    if n > 0 {
        assert((a + b)[a.len() + n - 1] == b[n - 1]);
        items_join(s, g, a, b, (n - 1) as nat);
    } else {
        items_before(s, g, a, b, a.len());
    }
}

/// A whole number in the array of `TJ` shows nothing: what follows is moved back by that many
/// thousandths of the size, stretched as the text is.
#[verifier::rlimit(50)]
pub proof fn number_moves_back(s: Scene, g: Gfx, n: int)
    requires
        i64::MIN <= n <= i64::MAX,
    ensures
        ({
            let h = s.behind(g, "TJ"@, seq![ObjectModel::Array(seq![ObjectModel::Integer(n)])]);
            &&& h.text.len() == g.text.len() + 1
            &&& h.text.drop_last() == g.text
            &&& h.text.last() == StepModel::Adjust(real_of_int(n), g.gs.font_size, g.gs.h_scale)
            &&& Gfx { text: g.text, ..h } == g
        }),
{
    operators_have_their_names();
    let single = seq![ObjectModel::Integer(n)];
    let h = s.behind(g, "TJ"@, seq![ObjectModel::Array(single)]);
    reveal_with_fuel(items_shown, 3);
    assert(h == items_shown(s.doc, s.res, g, single, 1));
    assert(h.text.drop_last() =~= g.text);
}

/// The step from a glyph with a width to the next one.
pub open spec fn advance(gs: GsModel, width: RealModel, space: bool) -> StepModel {
    StepModel::Advance(
        width,
        gs.font_size,
        gs.char_spacing,
        if space {
            gs.word_spacing
        } else {
            zero()
        },
        gs.h_scale,
    )
}

/// The item is a glyph with a code, shown at a place in the state of the graphics.
pub open spec fn glyph_in(item: ItemModel, gs: GsModel, place: Transform, code: int) -> bool {
    &&& item is Glyph
    &&& item->Glyph_0.code == code
    &&& item->Glyph_0.text == place
    &&& Some(item->Glyph_0.font) == match gs.font {
        Some(n) => Some(n),
        None => Some(""@),
    }
    &&& item->Glyph_0.size == gs.font_size
    &&& item->Glyph_0.scale == gs.h_scale
    &&& item->Glyph_0.rise == gs.text_rise
    &&& item->Glyph_0.ctm == gs.ctm
    &&& item->Glyph_0.color == gs.fill_color
    &&& item->Glyph_0.alpha == gs.fill_alpha
    &&& item->Glyph_0.clip == gs.clip
}

/// What `Tj` leaves alone: all but what is shown and the place of the next glyph.
pub open spec fn only_shows(g: Gfx, h: Gfx) -> bool {
    Gfx { items: g.items, text: g.text, ..h } == g
}

proof fn bytes_join(g: Gfx, name: Seq<char>, f: Option<FontModel>, a: Seq<u8>, b: Seq<u8>, n: nat)
    requires
        n <= b.len(),
    ensures
        bytes_shown(g, name, f, a + b, a.len() + n) == bytes_shown(
            bytes_shown(g, name, f, a, a.len()),
            name,
            f,
            b,
            n,
        ),
    decreases n,
{
    if n > 0 {
        assert((a + b)[a.len() + n - 1] == b[n - 1]);
        bytes_join(g, name, f, a, b, (n - 1) as nat);
    } else {
        bytes_before(g, name, f, a, b, a.len());
    }
}

proof fn bytes_before(g: Gfx, name: Seq<char>, f: Option<FontModel>, a: Seq<u8>, b: Seq<u8>, n: nat)
    requires
        n <= a.len(),
    ensures
        bytes_shown(g, name, f, a + b, n) == bytes_shown(g, name, f, a, n),
    decreases n,
{
    if n > 0 {
        assert((a + b)[n - 1] == a[n - 1]);
        bytes_before(g, name, f, a, b, (n - 1) as nat);
    }
}

proof fn cids_before(g: Gfx, name: Seq<char>, f: FontModel, a: Seq<u16>, b: Seq<u16>, n: nat)
    requires
        n <= a.len(),
    ensures
        cids_shown(g, name, f, a + b, n) == cids_shown(g, name, f, a, n),
    decreases n,
{
    if n > 0 {
        assert((a + b)[n - 1] == a[n - 1]);
        cids_before(g, name, f, a, b, (n - 1) as nat);
    }
}

proof fn cids_join(g: Gfx, name: Seq<char>, f: FontModel, a: Seq<u16>, b: Seq<u16>, n: nat)
    requires
        n <= b.len(),
    ensures
        cids_shown(g, name, f, a + b, a.len() + n) == cids_shown(
            cids_shown(g, name, f, a, a.len()),
            name,
            f,
            b,
            n,
        ),
    decreases n,
{
    if n > 0 {
        assert((a + b)[a.len() + n - 1] == b[n - 1]);
        cids_join(g, name, f, a, b, (n - 1) as nat);
    } else {
        cids_before(g, name, f, a, b, a.len());
    }
}

proof fn bytes_keep(g: Gfx, name: Seq<char>, f: Option<FontModel>, bytes: Seq<u8>, n: nat)
    ensures
        only_shows(g, bytes_shown(g, name, f, bytes, n)),
    decreases n,
{
    if n > 0 {
        bytes_keep(g, name, f, bytes, (n - 1) as nat);
    }
}

proof fn cids_keep(g: Gfx, name: Seq<char>, f: FontModel, cids: Seq<u16>, n: nat)
    ensures
        only_shows(g, cids_shown(g, name, f, cids, n)),
    decreases n,
{
    if n > 0 {
        cids_keep(g, name, f, cids, (n - 1) as nat);
    }
}

proof fn units_join(a: Seq<u8>, b: Seq<u8>)
    requires
        a.len() % 2 == 0,
    ensures
        be_units(a + b) == be_units(a) + be_units(b),
{
    let x = be_units(a);
    let y = be_units(b);
    assert forall|i: int| 0 <= i < x.len() + y.len() implies be_units(a + b)[i] == (x + y)[i] by {
        if i >= x.len() {
            let j = i - x.len();
            assert(2 * x.len() == a.len());
            assert((a + b)[2 * i] == b[2 * j]);
            assert((a + b)[2 * i + 1] == b[2 * j + 1]);
        }
    }
    assert(be_units(a + b) =~= x + y);
}

/// The bytes are of whole characters: of two bytes each in a composite font.
pub open spec fn whole_characters(s: Scene, g: Gfx, a: Seq<u8>) -> bool {
    match font_for(s.doc, s.res, font_name(g)) {
        Some(f) => f.composite() ==> a.len() % 2 == 0,
        None => true,
    }
}

proof fn shown_keeps(s: Scene, g: Gfx, a: Seq<u8>)
    ensures
        only_shows(g, shown(s.doc, s.res, g, a)),
{
    let name = font_name(g);
    match font_for(s.doc, s.res, name) {
        Some(f) => if f.composite() {
            cids_keep(g, name, f, be_units(a), be_units(a).len());
        } else {
            bytes_keep(g, name, Some(f), a, a.len());
        },
        None => {
            bytes_keep(g, name, None, a, a.len());
        },
    }
}

proof fn shown_join(s: Scene, g: Gfx, a: Seq<u8>, b: Seq<u8>)
    requires
        whole_characters(s, g, a),
    ensures
        shown(s.doc, s.res, g, a + b) == shown(s.doc, s.res, shown(s.doc, s.res, g, a), b),
{
    let name = font_name(g);
    let h = shown(s.doc, s.res, g, a);
    shown_keeps(s, g, a);
    assert(h.gs == g.gs);
    match font_for(s.doc, s.res, name) {
        Some(f) => if f.composite() {
            units_join(a, b);
            cids_join(g, name, f, be_units(a), be_units(b), be_units(b).len());
        } else {
            bytes_join(g, name, Some(f), a, b, b.len());
        },
        None => {
            bytes_join(g, name, None, a, b, b.len());
        },
    }
}

proof fn tj_shows(s: Scene, g: Gfx, a: Seq<u8>)
    ensures
        s.behind(g, "Tj"@, seq![ObjectModel::String(a)]) == shown(s.doc, s.res, g, a),
{
    operators_have_their_names();
}

/// A text in two parts is shown part by part, and nothing but what is shown and the place of the
/// next glyph changes.
#[verifier::rlimit(50)]
pub proof fn text_is_shown_part_by_part(s: Scene, g: Gfx, a: Seq<u8>, b: Seq<u8>)
    requires
        whole_characters(s, g, a),
    ensures
        s.behind(g, "Tj"@, seq![ObjectModel::String(a + b)]) == s.behind(
            s.behind(g, "Tj"@, seq![ObjectModel::String(a)]),
            "Tj"@,
            seq![ObjectModel::String(b)],
        ),
        only_shows(g, s.behind(g, "Tj"@, seq![ObjectModel::String(a)])),
{
    tj_shows(s, g, a);
    tj_shows(s, g, a + b);
    tj_shows(s, shown(s.doc, s.res, g, a), b);
    shown_join(s, g, a, b);
    shown_keeps(s, g, a);
}

/// A text of no bytes shows nothing. A byte of a simple font shows its glyph in the state of the
/// graphics, with what the font says of the code, and the next glyph stands behind it by its width
/// and the spacings, the one of words only for a space.
#[verifier::rlimit(50)]
pub proof fn byte_shows_its_glyph(s: Scene, g: Gfx, f: FontModel, code: u8)
    requires
        font_for(s.doc, s.res, font_name(g)) == Some(f),
        !f.composite(),
    ensures
        s.behind(g, "Tj"@, seq![ObjectModel::String(seq![])]) == g,
        ({
            let h = s.behind(g, "Tj"@, seq![ObjectModel::String(seq![code])]);
            &&& h.items.len() == g.items.len() + 1
            &&& h.items.drop_last() == g.items
            &&& glyph_in(h.items.last(), g.gs, g.text, code as int)
            &&& h.items.last()->Glyph_0.unicode == f.simple(code).0
            &&& h.items.last()->Glyph_0.shape == f.shape(code, f.simple(code).0)
            &&& h.items.last()->Glyph_0.program == Some(f)
            &&& !h.items.last()->Glyph_0.advance_is_estimated
            &&& h.text.len() == g.text.len() + 1
            &&& h.text.drop_last() == g.text
            &&& h.text.last() == advance(g.gs, f.simple(code).1, code == 32)
        }),
{
    operators_have_their_names();
    reveal_with_fuel(bytes_shown, 3);
    let h = s.behind(g, "Tj"@, seq![ObjectModel::String(seq![code])]);
    assert(h.items.drop_last() =~= g.items);
    assert(h.text.drop_last() =~= g.text);
}

/// Without a font that can be read a byte shows a glyph of no known character, half as wide as
/// high, and its width is an estimate.
#[verifier::rlimit(50)]
pub proof fn byte_without_a_font(s: Scene, g: Gfx, code: u8)
    requires
        font_for(s.doc, s.res, font_name(g)) is None,
    ensures
        ({
            let h = s.behind(g, "Tj"@, seq![ObjectModel::String(seq![code])]);
            &&& h.items.len() == g.items.len() + 1
            &&& h.items.drop_last() == g.items
            &&& glyph_in(h.items.last(), g.gs, g.text, code as int)
            &&& h.items.last()->Glyph_0.unicode is None
            &&& h.items.last()->Glyph_0.shape is None
            &&& h.items.last()->Glyph_0.advance_is_estimated
            &&& h.text.drop_last() == g.text
            &&& h.text.len() == g.text.len() + 1
            &&& h.text.last() == advance(g.gs, real_of_int(500), code == 32)
        }),
{
    operators_have_their_names();
    reveal_with_fuel(bytes_shown, 3);
    let h = s.behind(g, "Tj"@, seq![ObjectModel::String(seq![code])]);
    assert(h.items.drop_last() =~= g.items);
    assert(h.text.drop_last() =~= g.text);
}

/// Two bytes of a composite font show one glyph, the first byte being the high one. No character
/// takes the spacing of words.
#[verifier::rlimit(50)]
pub proof fn pair_shows_its_glyph(s: Scene, g: Gfx, f: FontModel, high: u8, low: u8)
    requires
        font_for(s.doc, s.res, font_name(g)) == Some(f),
        f.composite(),
    ensures
        ({
            let cid = (high * 256 + low) as u32;
            let h = s.behind(g, "Tj"@, seq![ObjectModel::String(seq![high, low])]);
            &&& h.items.len() == g.items.len() + 1
            &&& h.items.drop_last() == g.items
            &&& glyph_in(h.items.last(), g.gs, g.text, cid as int)
            &&& h.items.last()->Glyph_0.unicode == f.metrics(cid).0
            &&& h.items.last()->Glyph_0.shape == f.cid_shape(cid)
            &&& h.items.last()->Glyph_0.program == Some(f)
            &&& h.text.len() == g.text.len() + 1
            &&& h.text.drop_last() == g.text
            &&& h.text.last() == advance(g.gs, f.metrics(cid).1, false)
        }),
{
    operators_have_their_names();
    reveal_with_fuel(cids_shown, 3);
    let bytes = seq![high, low];
    assert(be_units(bytes).len() == 1);
    assert(be_units(bytes)[0] == high * 256 + low);
    let h = s.behind(g, "Tj"@, seq![ObjectModel::String(bytes)]);
    assert(h.items.drop_last() =~= g.items);
    assert(h.text.drop_last() =~= g.text);
}

/// `v` is `c` whose first control point is the current point, and `y` is `c` whose second one is
/// the end.
#[verifier::rlimit(50)]
pub proof fn curves_with_a_shared_point(
    s: Scene,
    g: Gfx,
    x: RealModel,
    y: RealModel,
    a: RealModel,
    b: RealModel,
    c: RealModel,
    d: RealModel,
)
    ensures
        ({
            let h = s.behind(g, "m"@, two(x, y));
            s.behind(h, "v"@, four(a, b, c, d)) == s.behind(
                h,
                "c"@,
                two(x, y) + four(a, b, c, d),
            )
        }),
        s.behind(g, "y"@, four(a, b, c, d)) == s.behind(g, "c"@, four(a, b, c, d) + two(c, d)),
{
    operators_have_their_names();
    let p = two(x, y) + four(a, b, c, d);
    let q = four(a, b, c, d) + two(c, d);
    assert(p[0] == ObjectModel::Real(x) && p[1] == ObjectModel::Real(y));
    assert(p[2] == ObjectModel::Real(a) && p[3] == ObjectModel::Real(b));
    assert(p[4] == ObjectModel::Real(c) && p[5] == ObjectModel::Real(d));
    assert(q[0] == ObjectModel::Real(a) && q[1] == ObjectModel::Real(b));
    assert(q[2] == ObjectModel::Real(c) && q[3] == ObjectModel::Real(d));
    assert(q[4] == ObjectModel::Real(c) && q[5] == ObjectModel::Real(d));
}

/// The segments of a path: each goes from the current point to the last of its points, under the
/// transform of the page, and `h` goes back to the start of the part.
#[verifier::rlimit(50)]
pub proof fn segments_go_to_their_points(
    s: Scene,
    g: Gfx,
    a: RealModel,
    b: RealModel,
    c: RealModel,
    d: RealModel,
    x: RealModel,
    y: RealModel,
)
    ensures
        ({
            let h = s.behind(g, "m"@, two(x, y));
            &&& h.path == g.path.push(SegmentModel::MoveTo(at(x, y), g.gs.ctm))
            &&& h.point == at(x, y)
            &&& h.start == at(x, y)
            &&& Gfx { path: g.path, point: g.point, start: g.start, ..h } == g
        }),
        ({
            let h = s.behind(g, "l"@, two(x, y));
            &&& h.path == g.path.push(SegmentModel::LineTo(at(x, y), g.gs.ctm))
            &&& h.point == at(x, y)
            &&& Gfx { path: g.path, point: g.point, ..h } == g
        }),
        ({
            let h = s.behind(g, "c"@, four(a, b, c, d) + two(x, y));
            &&& h.path == g.path.push(
                SegmentModel::CurveTo(at(a, b), at(c, d), at(x, y), g.gs.ctm),
            )
            &&& h.point == at(x, y)
            &&& Gfx { path: g.path, point: g.point, ..h } == g
        }),
        ({
            let h = s.behind(g, "h"@, none());
            &&& h.path == g.path.push(SegmentModel::ClosePath)
            &&& h.point == g.start
            &&& Gfx { path: g.path, point: g.point, ..h } == g
        }),
{
    operators_have_their_names();
    let q = four(a, b, c, d) + two(x, y);
    assert(q[0] == ObjectModel::Real(a) && q[1] == ObjectModel::Real(b));
    assert(q[2] == ObjectModel::Real(c) && q[3] == ObjectModel::Real(d));
    assert(q[4] == ObjectModel::Real(x) && q[5] == ObjectModel::Real(y));
}

/// `re` is a path of four sides: it starts at its corner, goes to the right by the width, up by
/// the height, back, and is closed.
#[verifier::rlimit(50)]
pub proof fn rectangle_has_four_sides(
    s: Scene,
    g: Gfx,
    x: RealModel,
    y: RealModel,
    w: RealModel,
    h: RealModel,
)
    ensures
        ({
            let r = s.behind(g, "re"@, four(x, y, w, h));
            let t = g.gs.ctm;
            let start = s.behind(g, "m"@, two(x, y));
            &&& r.path == start.path + seq![
                SegmentModel::LineTo(PointModel { x, y, right: w, up: zero() }, t),
                SegmentModel::LineTo(PointModel { x, y, right: w, up: h }, t),
                SegmentModel::LineTo(PointModel { x, y, right: zero(), up: h }, t),
                SegmentModel::ClosePath,
            ]
            &&& r.point == at(x, y)
            &&& r.start == at(x, y)
            &&& Gfx { path: g.path, point: g.point, start: g.start, ..r } == g
        }),
{
    operators_have_their_names();
    let r = s.behind(g, "re"@, four(x, y, w, h));
    let t = g.gs.ctm;
    let start = s.behind(g, "m"@, two(x, y));
    assert(r.path =~= start.path + seq![
        SegmentModel::LineTo(PointModel { x, y, right: w, up: zero() }, t),
        SegmentModel::LineTo(PointModel { x, y, right: w, up: h }, t),
        SegmentModel::LineTo(PointModel { x, y, right: zero(), up: h }, t),
        SegmentModel::ClosePath,
    ]);
}

/// The same but for the current point, which is of no use once the path is painted.
pub open spec fn same_but_point(g: Gfx, h: Gfx) -> bool {
    Gfx { point: h.point, ..g } == h
}

/// `s`, `b` and `b*` close the path and paint it as `S`, `B` and `B*` do; `F` is `f`.
#[verifier::rlimit(50)]
pub proof fn closing_painters(s: Scene, g: Gfx)
    ensures
        same_but_point(
            s.behind(g, "s"@, none()),
            s.behind(s.behind(g, "h"@, none()), "S"@, none()),
        ),
        same_but_point(
            s.behind(g, "b"@, none()),
            s.behind(s.behind(g, "h"@, none()), "B"@, none()),
        ),
        same_but_point(
            s.behind(g, "b*"@, none()),
            s.behind(s.behind(g, "h"@, none()), "B*"@, none()),
        ),
        s.behind(g, "F"@, none()) == s.behind(g, "f"@, none()),
{
    operators_have_their_names();
}

/// How a path is painted by an operator.
pub open spec fn paint_of(operator: Seq<char>) -> PaintOp {
    if operator == "S"@ {
        PaintOp::Stroke
    } else if operator == "f"@ || operator == "f*"@ {
        PaintOp::Fill
    } else if operator == "B"@ || operator == "B*"@ {
        PaintOp::FillStroke
    } else {
        PaintOp::Nothing
    }
}

/// A painter shows the path as it stands, with the colors, the width, the opacities and the clip
/// of the state, and leaves no path behind. Without a path nothing is shown, and `n` shows
/// nothing unless a clip was asked for.
#[verifier::rlimit(50)]
pub proof fn painters_show_the_path(s: Scene, g: Gfx, operator: Seq<char>)
    requires
        operator == "S"@ || operator == "f"@ || operator == "f*"@ || operator == "B"@ || operator
            == "B*"@ || operator == "n"@,
    ensures
        ({
            let h = s.behind(g, operator, none());
            &&& h.path.len() == 0
            &&& h.pending_clip is None
            &&& h.stack == g.stack && h.point == g.point && h.start == g.start
            &&& h.text == g.text && h.line == g.line
            &&& GsModel { clip: g.gs.clip, ..h.gs } == g.gs
            &&& g.path.len() == 0 || (operator == "n"@ && g.pending_clip is None) ==> h.items == g.items
                && h.gs == g.gs
            &&& g.path.len() > 0 && (operator != "n"@ || g.pending_clip is Some) ==> {
                &&& h.items.len() == g.items.len() + 1
                &&& h.items.drop_last() == g.items
                &&& h.items.last() is Path
                &&& ({
                    let p = h.items.last()->Path_0;
                    &&& p.segments == g.path
                    &&& p.paint == paint_of(operator)
                    &&& p.fill_rule == if operator == "f*"@ || operator == "B*"@ {
                        FillRule::EvenOdd
                    } else {
                        FillRule::NonZero
                    }
                    &&& p.fill_color == g.gs.fill_color
                    &&& p.stroke_color == g.gs.stroke_color
                    &&& p.line_width == g.gs.line_width
                    &&& p.fill_alpha == g.gs.fill_alpha
                    &&& p.stroke_alpha == g.gs.stroke_alpha
                    &&& p.sets_clip == (g.pending_clip is Some)
                    &&& p.clip == g.gs.clip
                })
            }
            &&& g.pending_clip is None ==> h.gs.clip == g.gs.clip
        }),
{
    operators_have_their_names();
    reveal_strlit("S");
    reveal_strlit("f");
    reveal_strlit("f*");
    reveal_strlit("B");
    reveal_strlit("B*");
    reveal_strlit("n");
    assert("S"@[0] == 'S' && "f"@[0] == 'f' && "B"@[0] == 'B' && "n"@[0] == 'n');
    assert("f*"@[0] == 'f' && "B*"@[0] == 'B');
    assert("S"@.len() == 1 && "f"@.len() == 1 && "B"@.len() == 1 && "n"@.len() == 1);
    assert("f*"@.len() == 2 && "B*"@.len() == 2);
    let h = s.behind(g, operator, none());
    assert(h.items.len() == g.items.len() + 1 ==> h.items.drop_last() =~= g.items);
}

/// A clip asked for with `W` or `W*` takes the path that is painted next, by the rule of its
/// operator, into the clip of what follows.
#[verifier::rlimit(50)]
pub proof fn clip_takes_the_path(s: Scene, g: Gfx, operator: Seq<char>)
    requires
        operator == "S"@ || operator == "f"@ || operator == "f*"@ || operator == "B"@ || operator
            == "B*"@ || operator == "n"@,
        g.path.len() > 0,
    ensures
        s.behind(s.behind(g, "W"@, none()), operator, none()).gs.clip == g.gs.clip.push(
            (ClipModel { segments: g.path, fill_rule: FillRule::NonZero }),
        ),
        s.behind(s.behind(g, "W*"@, none()), operator, none()).gs.clip == g.gs.clip.push(
            (ClipModel { segments: g.path, fill_rule: FillRule::EvenOdd }),
        ),
        (Gfx { pending_clip: g.pending_clip, ..s.behind(g, "W"@, none()) }) == g,
        (Gfx { pending_clip: g.pending_clip, ..s.behind(g, "W*"@, none()) }) == g,
{
    operators_have_their_names();
}

/// The operators of colors set the color for filling, those in capitals the color for strokes, and
/// nothing else.
#[verifier::rlimit(50)]
pub proof fn colors_are_set(s: Scene, g: Gfx, a: RealModel, b: RealModel, c: RealModel, d: RealModel)
    ensures
        s.behind(g, "g"@, one(a)).gs.fill_color == ColorModel::Gray(a),
        s.behind(g, "rg"@, three(a, b, c)).gs.fill_color == ColorModel::Rgb(a, b, c),
        s.behind(g, "k"@, four(a, b, c, d)).gs.fill_color == ColorModel::Cmyk(a, b, c, d),
        s.behind(g, "G"@, one(a)).gs.stroke_color == ColorModel::Gray(a),
        s.behind(g, "RG"@, three(a, b, c)).gs.stroke_color == ColorModel::Rgb(a, b, c),
        s.behind(g, "K"@, four(a, b, c, d)).gs.stroke_color == ColorModel::Cmyk(a, b, c, d),
        only_fill_color(g, s.behind(g, "g"@, one(a))),
        only_fill_color(g, s.behind(g, "rg"@, three(a, b, c))),
        only_fill_color(g, s.behind(g, "k"@, four(a, b, c, d))),
        only_stroke_color(g, s.behind(g, "G"@, one(a))),
        only_stroke_color(g, s.behind(g, "RG"@, three(a, b, c))),
        only_stroke_color(g, s.behind(g, "K"@, four(a, b, c, d))),
{
    operators_have_their_names();
}

pub open spec fn only_fill_color(g: Gfx, h: Gfx) -> bool {
    Gfx { gs: GsModel { fill_color: g.gs.fill_color, ..h.gs }, ..h } == g
}

pub open spec fn only_stroke_color(g: Gfx, h: Gfx) -> bool {
    Gfx { gs: GsModel { stroke_color: g.gs.stroke_color, ..h.gs }, ..h } == g
}

/// One number is a gray.
proof fn one_component(a: RealModel)
    ensures
        color_arg(one(a)) == Some(ColorModel::Gray(a)),
{
    reveal_with_fuel(numbers_in, 2);
    let ops = one(a);
    assert(numbers_in(ops, 1) =~= seq![a]);
}

/// Three numbers are red, green and blue.
proof fn three_components(a: RealModel, b: RealModel, c: RealModel)
    ensures
        color_arg(three(a, b, c)) == Some(ColorModel::Rgb(a, b, c)),
{
    reveal_with_fuel(numbers_in, 4);
    let ops = three(a, b, c);
    assert(numbers_in(ops, 3) =~= seq![a, b, c]);
}

/// Four numbers are cyan, magenta, yellow and black.
proof fn four_components(a: RealModel, b: RealModel, c: RealModel, d: RealModel)
    ensures
        color_arg(four(a, b, c, d)) == Some(ColorModel::Cmyk(a, b, c, d)),
{
    reveal_with_fuel(numbers_in, 5);
    let ops = four(a, b, c, d);
    assert(numbers_in(ops, 4) =~= seq![a, b, c, d]);
}

/// A color for filling without a space is taken by its number of components: `sc` and `scn` are
/// `g`, `rg` or `k`.
#[verifier::rlimit(50)]
pub proof fn fill_colors_go_by_their_components(
    s: Scene,
    g: Gfx,
    a: RealModel,
    b: RealModel,
    c: RealModel,
    d: RealModel,
)
    ensures
        s.behind(g, "sc"@, one(a)) == s.behind(g, "g"@, one(a)),
        s.behind(g, "sc"@, three(a, b, c)) == s.behind(g, "rg"@, three(a, b, c)),
        s.behind(g, "sc"@, four(a, b, c, d)) == s.behind(g, "k"@, four(a, b, c, d)),
        s.behind(g, "scn"@, one(a)) == s.behind(g, "g"@, one(a)),
        s.behind(g, "scn"@, three(a, b, c)) == s.behind(g, "rg"@, three(a, b, c)),
        s.behind(g, "scn"@, four(a, b, c, d)) == s.behind(g, "k"@, four(a, b, c, d)),
{
    operators_have_their_names();
    one_component(a);
    three_components(a, b, c);
    four_components(a, b, c, d);
}

/// A color for strokes without a space is taken by its number of components: `SC` and `SCN` are
/// `G`, `RG` or `K`.
#[verifier::rlimit(50)]
pub proof fn stroke_colors_go_by_their_components(
    s: Scene,
    g: Gfx,
    a: RealModel,
    b: RealModel,
    c: RealModel,
    d: RealModel,
)
    ensures
        s.behind(g, "SC"@, one(a)) == s.behind(g, "G"@, one(a)),
        s.behind(g, "SC"@, three(a, b, c)) == s.behind(g, "RG"@, three(a, b, c)),
        s.behind(g, "SC"@, four(a, b, c, d)) == s.behind(g, "K"@, four(a, b, c, d)),
        s.behind(g, "SCN"@, one(a)) == s.behind(g, "G"@, one(a)),
        s.behind(g, "SCN"@, three(a, b, c)) == s.behind(g, "RG"@, three(a, b, c)),
        s.behind(g, "SCN"@, four(a, b, c, d)) == s.behind(g, "K"@, four(a, b, c, d)),
{
    operators_have_their_names();
    one_component(a);
    three_components(a, b, c);
    four_components(a, b, c, d);
}

/// A pattern alone, or two numbers, are no color: nothing changes.
#[verifier::rlimit(50)]
pub proof fn other_components_are_no_color(s: Scene, g: Gfx, a: RealModel, b: RealModel, name: Seq<char>)
    ensures
        s.behind(g, "scn"@, seq![ObjectModel::Name(name)]) == g,
        s.behind(g, "SCN"@, seq![ObjectModel::Name(name)]) == g,
        s.behind(g, "scn"@, two(a, b)) == g,
        s.behind(g, "SCN"@, two(a, b)) == g,
{
    operators_have_their_names();
    let ops = seq![ObjectModel::Name(name)];
    assert(color_arg(ops) is None) by {
        reveal_with_fuel(numbers_in, 2);
    }
    assert(color_arg(two(a, b)) is None) by {
        reveal_with_fuel(numbers_in, 3);
    }
}

/// `cm` puts a transform before those that there are, `w` sets the width of lines; neither does
/// anything else. `cm` with fewer than six operands does nothing.
#[verifier::rlimit(50)]
pub proof fn transform_and_width(s: Scene, g: Gfx, m: MatrixModel, w: RealModel, few: Seq<ObjectModel>)
    requires
        few.len() < 6,
    ensures
        ({
            let h = s.behind(g, "cm"@, six(m));
            &&& h.gs.ctm.len() == g.gs.ctm.len() + 1
            &&& h.gs.ctm.drop_last() == g.gs.ctm
            &&& step_matrix(h.gs.ctm.last()) == m
            &&& Gfx { gs: GsModel { ctm: g.gs.ctm, ..h.gs }, ..h } == g
        }),
        ({
            let h = s.behind(g, "w"@, one(w));
            &&& h.gs.line_width == w
            &&& Gfx { gs: GsModel { line_width: g.gs.line_width, ..h.gs }, ..h } == g
        }),
        s.behind(g, "cm"@, few) == g,
{
    operators_have_their_names();
    assert(s.behind(g, "cm"@, six(m)).gs.ctm.drop_last() =~= g.gs.ctm);
}

/// `Q` gives back what `q` saved, and `Q` without `q` does nothing; both leave what is shown, the
/// path and the text alone.
#[verifier::rlimit(50)]
pub proof fn save_and_restore(s: Scene, g: Gfx, changed: GsModel)
    ensures
        ({
            let h = s.behind(g, "q"@, none());
            &&& h.gs == g.gs
            &&& Gfx { stack: g.stack, ..h } == g
            &&& s.behind(Gfx { gs: changed, ..h }, "Q"@, none()) == g
        }),
        g.stack.len() == 0 ==> s.behind(g, "Q"@, none()) == g,
{
    operators_have_their_names();
    assert(s.behind(g, "q"@, none()).stack.drop_last() =~= g.stack);
}

/// `gs` takes the opacity for filling from `ca`, that of strokes from `CA` and a whole line width
/// from `LW`, where they are there, and leaves all else as it is.
#[verifier::rlimit(50)]
pub proof fn extended_state_is_taken(s: Scene, g: Gfx, name: Seq<char>, d: DictModel, a: RealModel, n: int)
    requires
        resource(s.doc, s.res, "ExtGState"@, name) == Ok::<Option<ObjectModel>, ErrorModel>(
            Some(ObjectModel::Dictionary(d)),
        ),
        i64::MIN <= n <= i64::MAX,
    ensures
        ({
            let h = s.behind(g, "gs"@, seq![ObjectModel::Name(name)]);
            &&& entry(d, "ca"@) == Some(ObjectModel::Real(a)) ==> h.gs.fill_alpha == a
            &&& entry(d, "ca"@) is None ==> h.gs.fill_alpha == g.gs.fill_alpha
            &&& entry(d, "CA"@) == Some(ObjectModel::Real(a)) ==> h.gs.stroke_alpha == a
            &&& entry(d, "CA"@) is None ==> h.gs.stroke_alpha == g.gs.stroke_alpha
            &&& entry(d, "ca"@) == Some(ObjectModel::Integer(n)) ==> h.gs.fill_alpha == real_of_int(n)
            &&& entry(d, "CA"@) == Some(ObjectModel::Integer(n)) ==> h.gs.stroke_alpha == real_of_int(n)
            &&& entry(d, "LW"@) == Some(ObjectModel::Integer(n)) ==> h.gs.line_width == real_of_int(n)
            &&& entry(d, "LW"@) is None ==> h.gs.line_width == g.gs.line_width
            &&& Gfx {
                gs: GsModel {
                    line_width: g.gs.line_width,
                    fill_alpha: g.gs.fill_alpha,
                    stroke_alpha: g.gs.stroke_alpha,
                    ..h.gs
                },
                ..h
            } == g
        }),
{
    operators_have_their_names();
}

/// A page starts with black, opaque colors, lines of width one, text as wide as its font has it,
/// no leading, no spacings and nothing shown.
#[verifier::rlimit(50)]
pub proof fn page_starts_plain()
    ensures
        ({
            let g = first_gfx();
            &&& g.items.len() == 0 && g.stack.len() == 0 && g.path.len() == 0
            &&& g.text.len() == 0 && g.line.len() == 0 && g.pending_clip is None
            &&& g.gs.ctm.len() == 0 && g.gs.clip.len() == 0
            &&& g.gs.fill_color == ColorModel::Gray(real_of_int(0))
            &&& g.gs.stroke_color == ColorModel::Gray(real_of_int(0))
            &&& g.gs.line_width == real_of_int(1)
            &&& g.gs.fill_alpha == real_of_int(1)
            &&& g.gs.stroke_alpha == real_of_int(1)
            &&& g.gs.h_scale == real_of_int(100)
            &&& g.gs.char_spacing == real_of_int(0)
            &&& g.gs.word_spacing == real_of_int(0)
            &&& g.gs.leading == real_of_int(0)
            &&& g.gs.text_rise == real_of_int(0)
            &&& g.gs.font_size == real_of_int(0)
            &&& g.gs.font is None
        }),
{
}

proof fn instructions_shift(
    s: Scene,
    g: Gfx,
    a: Seq<InstructionModel>,
    b: Seq<InstructionModel>,
    i: nat,
)
    ensures
        executed_from(s.doc, s.left, s.res, g, a + b, a.len() + i) == executed_from(
            s.doc,
            s.left,
            s.res,
            g,
            b,
            i,
        ),
    decreases b.len() - i,
{
    if i < b.len() {
        assert((a + b)[(a.len() + i) as int] == b[i as int]);
        if let Ok(h) = executed(s.doc, s.left, s.res, g, b[i as int]) {
            instructions_shift(s, h, a, b, i + 1);
        }
    }
}

/// Instructions behind others are carried out in the state that the others leave; where one of
/// the others fails, nothing behind it counts.
#[verifier::rlimit(50)]
pub proof fn instructions_go_in_order(
    s: Scene,
    g: Gfx,
    a: Seq<InstructionModel>,
    b: Seq<InstructionModel>,
)
    ensures
        executed_from(s.doc, s.left, s.res, g, a + b, 0) == match executed_from(
            s.doc,
            s.left,
            s.res,
            g,
            a,
            0,
        ) {
            Ok(h) => executed_from(s.doc, s.left, s.res, h, b, 0),
            Err(e) => Err(e),
        },
{
    instructions_join(s, g, a, b, 0);
}

proof fn instructions_join(
    s: Scene,
    g: Gfx,
    a: Seq<InstructionModel>,
    b: Seq<InstructionModel>,
    i: nat,
)
    requires
        i <= a.len(),
    ensures
        executed_from(s.doc, s.left, s.res, g, a + b, i) == match executed_from(
            s.doc,
            s.left,
            s.res,
            g,
            a,
            i,
        ) {
            Ok(h) => executed_from(s.doc, s.left, s.res, h, b, 0),
            Err(e) => Err(e),
        },
    decreases a.len() - i,
{
    if i < a.len() {
        assert((a + b)[i as int] == a[i as int]);
        if let Ok(h) = executed(s.doc, s.left, s.res, g, a[i as int]) {
            instructions_join(s, h, a, b, i + 1);
        }
    } else {
        instructions_shift(s, g, a, b, 0);
    }
}

} // verus!
