//! What holds of content streams whatever they show.
use vstd::prelude::*;
use crate::canvas::begins_with;
use crate::content::{instructions, InstructionModel};
use crate::display::{FillRule, PaintOp};
use crate::document::DocModel;
use crate::filters::stream_decoded;
use crate::font::FontModel;
use crate::interp::{bytes_shown, cids_shown, executed, executed_from, font_for, font_name, form_resources, form_start, items_shown, kind_of, object_shown, operator_of, painted, resource, run_content, show_step, shown, state_step, text_down, Gfx, Operator, OperatorKind};
use crate::object::{DictModel, ObjectModel};
use crate::text::be_units;

verus! {

/// A restore gives back the state of the last save, whatever changed between them and left what
/// was saved alone.
pub proof fn restore_gives_back(g: Gfx, changed: Gfx, ops: Seq<ObjectModel>)
    requires
        changed.stack == state_step(g, Operator::Save, ops).stack,
    ensures
        state_step(changed, Operator::Restore, ops).gs == g.gs,
        state_step(changed, Operator::Restore, ops).stack == g.stack,
        state_step(changed, Operator::Restore, ops).items == changed.items,
{
    assert(changed.stack.drop_last() =~= g.stack);
}

/// A clip holds for what is shown behind the path that sets it, and not for that path.
pub proof fn clip_holds_from_the_next(g: Gfx, paint: PaintOp, rule: FillRule, fill_rule: FillRule)
    requires
        g.pending_clip == Some(rule),
        g.path.len() > 0,
    ensures
        painted(g, paint, fill_rule).items.last()->Path_0.clip == g.gs.clip,
        painted(g, paint, fill_rule).items.last()->Path_0.sets_clip,
        painted(g, paint, fill_rule).gs.clip.len() == g.gs.clip.len() + 1,
        painted(g, paint, fill_rule).gs.clip.drop_last() == g.gs.clip,
        painted(g, paint, fill_rule).gs.clip.last().segments == g.path,
        painted(g, paint, fill_rule).pending_clip is None,
{
    assert(painted(g, paint, fill_rule).gs.clip.drop_last() =~= g.gs.clip);
}

/// A byte shows one glyph.
pub proof fn bytes_show_one_glyph_each(g: Gfx, name: Seq<char>, f: Option<FontModel>, bytes: Seq<u8>, n: nat)
    requires
        n <= bytes.len(),
    ensures
        bytes_shown(g, name, f, bytes, n).items.len() == g.items.len() + n,
        begins_with(bytes_shown(g, name, f, bytes, n).items, g.items),
        forall|i: int|
            0 <= i < n ==> (#[trigger] bytes_shown(g, name, f, bytes, n).items[g.items.len() + i]) is Glyph
                && bytes_shown(g, name, f, bytes, n).items[g.items.len() + i]->Glyph_0.code == bytes[i],
    decreases n,
{
    if n > 0 {
        bytes_show_one_glyph_each(g, name, f, bytes, (n - 1) as nat);
        let before = bytes_shown(g, name, f, bytes, (n - 1) as nat).items;
        let after = bytes_shown(g, name, f, bytes, n).items;
        assert forall|i: int| 0 <= i < n implies (#[trigger] after[g.items.len() + i]) is Glyph
            && after[g.items.len() + i]->Glyph_0.code == bytes[i] by {
            if i < n - 1 {
                assert(after[g.items.len() + i] == before[g.items.len() + i]);
            }
        }
    }
}

/// In a composite font two bytes show one glyph.
pub proof fn pairs_show_one_glyph_each(g: Gfx, name: Seq<char>, font: FontModel, cids: Seq<u16>, n: nat)
    requires
        n <= cids.len(),
    ensures
        cids_shown(g, name, font, cids, n).items.len() == g.items.len() + n,
        begins_with(cids_shown(g, name, font, cids, n).items, g.items),
    decreases n,
{
    if n > 0 {
        pairs_show_one_glyph_each(g, name, font, cids, (n - 1) as nat);
    }
}

proof fn shown_grows(doc: DocModel, res: DictModel, g: Gfx, bytes: Seq<u8>)
    ensures
        begins_with(shown(doc, res, g, bytes).items, g.items),
{
    let name = font_name(g);
    match font_for(doc, res, name) {
        Some(font) => {
            if font.composite() {
                pairs_show_one_glyph_each(g, name, font, be_units(bytes), be_units(bytes).len());
            } else {
                bytes_show_one_glyph_each(g, name, Some(font), bytes, bytes.len());
            }
        },
        None => {
            bytes_show_one_glyph_each(g, name, None, bytes, bytes.len());
        },
    }
}

proof fn items_shown_grows(doc: DocModel, res: DictModel, g: Gfx, items: Seq<ObjectModel>, n: nat)
    ensures
        begins_with(items_shown(doc, res, g, items, n).items, g.items),
    decreases n,
{
    if n > 0 {
        items_shown_grows(doc, res, g, items, (n - 1) as nat);
        let before = items_shown(doc, res, g, items, (n - 1) as nat);
        match items[n - 1] {
            ObjectModel::String(s) => {
                shown_grows(doc, res, before, s);
            },
            _ => {},
        }
    }
}

proof fn show_step_grows(doc: DocModel, res: DictModel, g: Gfx, op: Operator, ops: Seq<ObjectModel>)
    ensures
        begins_with(show_step(doc, res, g, op, ops).items, g.items),
{
    match op {
        Operator::Show => {
            if ops.len() > 0 {
                if let ObjectModel::String(s) = ops[0] {
                    shown_grows(doc, res, g, s);
                }
            }
        },
        Operator::ShowOnNextLine => {
            if ops.len() > 0 {
                if let ObjectModel::String(s) = ops[0] {
                    shown_grows(doc, res, text_down(g), s);
                }
            }
        },
        Operator::ShowSpaced => {
            let start = text_down(
                Gfx {
                    gs: crate::interp::GsModel {
                        word_spacing: crate::interp::arg(ops, 0),
                        char_spacing: crate::interp::arg(ops, 1),
                        ..g.gs
                    },
                    ..g
                },
            );
            if ops.len() > 2 {
                if let ObjectModel::String(s) = ops[2] {
                    shown_grows(doc, res, start, s);
                }
            }
        },
        Operator::ShowArray => {
            if ops.len() > 0 {
                if let ObjectModel::Array(items) = ops[0] {
                    items_shown_grows(doc, res, g, items, items.len());
                }
            }
        },
        _ => {},
    }
}

proof fn object_shown_grows(doc: DocModel, left: nat, res: DictModel, g: Gfx, ops: Seq<ObjectModel>)
    ensures
        object_shown(doc, left, res, g, ops) is Ok ==> begins_with(
            object_shown(doc, left, res, g, ops)->Ok_0.items,
            g.items,
        ) && object_shown(doc, left, res, g, ops)->Ok_0.gs == g.gs,
    decreases left, 0nat, 0nat,
{
    if ops.len() > 0 {
        if let ObjectModel::Name(name) = ops[0] {
            if let Ok(Some(ObjectModel::Stream(d, raw))) = resource(doc, res, "XObject"@, name) {
                if left > 0 {
                    if let Ok(data) = stream_decoded(d, raw) {
                        if let Ok(r) = form_resources(doc, d, res) {
                            shown_stays_shown(doc, (left - 1) as nat, r, form_start(g, d), data);
                        }
                    }
                }
            }
        }
    }
}

proof fn executed_grows(doc: DocModel, left: nat, res: DictModel, g: Gfx, x: InstructionModel)
    ensures
        executed(doc, left, res, g, x) is Ok ==> begins_with(
            executed(doc, left, res, g, x)->Ok_0.items,
            g.items,
        ),
    decreases left, 1nat, 0nat,
{
    let op = operator_of(x.operator);
    match kind_of(op) {
        OperatorKind::Show => {
            show_step_grows(doc, res, g, op, x.operands);
        },
        OperatorKind::XObject => {
            object_shown_grows(doc, left, res, g, x.operands);
        },
        _ => {},
    }
}

proof fn executed_from_grows(
    doc: DocModel,
    left: nat,
    res: DictModel,
    g: Gfx,
    list: Seq<InstructionModel>,
    i: nat,
)
    ensures
        executed_from(doc, left, res, g, list, i) is Ok ==> begins_with(
            executed_from(doc, left, res, g, list, i)->Ok_0.items,
            g.items,
        ),
    decreases left, 2nat, list.len() - i,
{
    if i < list.len() {
        executed_grows(doc, left, res, g, list[i as int]);
        if let Ok(g1) = executed(doc, left, res, g, list[i as int]) {
            executed_from_grows(doc, left, res, g1, list, i + 1);
        }
    }
}

/// What was shown stays shown: a content stream only adds to it.
pub proof fn shown_stays_shown(doc: DocModel, left: nat, res: DictModel, g: Gfx, content: Seq<u8>)
    ensures
        run_content(doc, left, res, g, content) is Ok ==> begins_with(
            run_content(doc, left, res, g, content)->Ok_0.items,
            g.items,
        ),
    decreases left, 3nat, 0nat,
{
    if let Ok(list) = instructions(content) {
        executed_from_grows(doc, left, res, g, list, 0);
    }
}

/// An object that is shown leaves the state of the graphics as it was.
pub proof fn objects_leave_the_state(doc: DocModel, left: nat, res: DictModel, g: Gfx, ops: Seq<ObjectModel>)
    requires
        object_shown(doc, left, res, g, ops) is Ok,
    ensures
        object_shown(doc, left, res, g, ops)->Ok_0.gs == g.gs,
{
    object_shown_grows(doc, left, res, g, ops);
}

} // verus!
