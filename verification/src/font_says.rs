//! What the entries of a font mean for its codes.
use vstd::prelude::*;
use crate::cmap::{code_number, first_char, range_char, unicode_map, with_char, with_range, CodeMap};
use crate::document::DocModel;
use crate::encoding::{glyph_char, scalar_char};
use crate::error::ErrorModel;
use crate::font::{array_under, characters_of, data_under, descendant_of, encoding_in, encoding_named, encoding_of, font_of, name_under, number_in, programs, runs_from, standard_table, width_in_runs, widths_of, win_ansi_table, with_differences, FontModel, GlyphShape, RunModel};
use crate::number::{real_of_int, RealModel};
use crate::object::{entry, DictModel, ObjectModel};
use crate::text::be_units;
use crate::widths::{accent_base, holds, plain_name, table_width, widths_by_name, WidthTable};

verus! {

/// How many of the items from `a` to `b` are names.
pub open spec fn names_between(items: Seq<ObjectModel>, a: int, b: int) -> int
    decreases b - a,
{
    if b <= a {
        0
    } else {
        names_between(items, a, b - 1) + if items[b - 1] is Name {
            1int
        } else {
            0
        }
    }
}

/// The last number before the `k`-th item is `n`, and it is the `j`-th.
pub open spec fn last_number(items: Seq<ObjectModel>, j: int, k: int, n: int) -> bool {
    &&& 0 <= j < k
    &&& items[j] == ObjectModel::Integer(n)
    &&& forall|m: int| j < m < k ==> !(#[trigger] items[m] is Integer)
}

/// The `k`-th item is a name that gives the code `c` a character: it is as many names behind the
/// last number before it as `c` is above that number, or above zero where there is none.
pub open spec fn gives(items: Seq<ObjectModel>, k: int, c: int) -> bool {
    &&& 0 <= k < items.len()
    &&& items[k] is Name
    &&& glyph_char(items[k]->Name_0) is Some
    &&& ((exists|j: int, n: int|
        #[trigger] last_number(items, j, k, n) && c == n + names_between(items, j + 1, k)) || ((
    forall|m: int| 0 <= m < k ==> !(#[trigger] items[m] is Integer)) && c == names_between(
        items,
        0,
        k,
    )))
}

/// The code that the `k`-th item would take.
spec fn code_at(items: Seq<ObjectModel>, k: int) -> int
    decreases k,
{
    if k <= 0 {
        0
    } else {
        match items[k - 1] {
            ObjectModel::Integer(n) => n,
            ObjectModel::Name(_) => code_at(items, k - 1) + 1,
            _ => code_at(items, k - 1),
        }
    }
}

proof fn code_behind_number(items: Seq<ObjectModel>, j: int, k: int, n: int)
    requires
        last_number(items, j, k, n),
    ensures
        code_at(items, k) == n + names_between(items, j + 1, k),
    decreases k,
{
    if j < k - 1 {
        assert(!(items[k - 1] is Integer));
        assert(last_number(items, j, k - 1, n));
        code_behind_number(items, j, k - 1, n);
    }
}

proof fn code_without_number(items: Seq<ObjectModel>, k: int)
    requires
        0 <= k,
        forall|m: int| 0 <= m < k ==> !(#[trigger] items[m] is Integer),
    ensures
        code_at(items, k) == names_between(items, 0, k),
    decreases k,
{
    if k > 0 {
        assert(!(items[k - 1] is Integer));
        code_without_number(items, k - 1);
    }
}

/// There is a last number, or none.
proof fn number_before(items: Seq<ObjectModel>, k: int) -> (j: int)
    requires
        0 <= k <= items.len(),
    ensures
        if j >= 0 {
            j < k && items[j] is Integer && last_number(items, j, k, items[j]->Integer_0)
        } else {
            forall|m: int| 0 <= m < k ==> !(#[trigger] items[m] is Integer)
        },
    decreases k,
{
    if k == 0 {
        -1
    } else if items[k - 1] is Integer {
        k - 1
    } else {
        number_before(items, k - 1)
    }
}

proof fn gives_is_code(items: Seq<ObjectModel>, k: int, c: int)
    requires
        0 <= k < items.len(),
    ensures
        gives(items, k, c) <==> items[k] is Name && glyph_char(items[k]->Name_0) is Some && c == code_at(
            items,
            k,
        ),
{
    let j = number_before(items, k);
    if j >= 0 {
        let n = items[j]->Integer_0;
        code_behind_number(items, j, k, n);
        assert(last_number(items, j, k, n));
    } else {
        code_without_number(items, k);
    }
    if gives(items, k, c) {
        if exists|j: int, n: int|
            #[trigger] last_number(items, j, k, n) && c == n + names_between(items, j + 1, k) {
            let (j, n) = choose|j: int, n: int|
                #[trigger] last_number(items, j, k, n) && c == n + names_between(items, j + 1, k);
            code_behind_number(items, j, k, n);
        }
    }
}

/// From the `i`-th item on, the last item that gives a code a character counts.
proof fn differences_from(t: Seq<Option<char>>, items: Seq<ObjectModel>, i: nat, c: int)
    requires
        i <= items.len(),
        t.len() == 256,
        0 <= c < 256,
    ensures
        with_differences(t, items, i, code_at(items, i as int)).len() == 256,
        forall|k: int|
            i <= k < items.len() && #[trigger] gives(items, k, c) && (forall|l: int|
                k < l < items.len() ==> !#[trigger] gives(items, l, c)) ==> with_differences(
                t,
                items,
                i,
                code_at(items, i as int),
            )[c] == glyph_char(items[k]->Name_0),
        (forall|k: int| i <= k < items.len() ==> !#[trigger] gives(items, k, c)) ==> with_differences(
            t,
            items,
            i,
            code_at(items, i as int),
        )[c] == t[c],
    decreases items.len() - i,
{
    if i < items.len() {
        gives_is_code(items, i as int, c);
        let code = code_at(items, i as int);
        let t1 = match items[i as int] {
            ObjectModel::Name(name) => match glyph_char(name) {
                Some(x) => if 0 <= code < 256 {
                    t.update(code, Some(x))
                } else {
                    t
                },
                None => t,
            },
            _ => t,
        };
        differences_from(t1, items, i + 1, c);
        assert(with_differences(t, items, i, code) == with_differences(
            t1,
            items,
            i + 1,
            code_at(items, i as int + 1),
        ));
        if gives(items, i as int, c) && (forall|l: int|
            i < l < items.len() ==> !#[trigger] gives(items, l, c)) {
            assert forall|k: int| i + 1 <= k < items.len() implies !#[trigger] gives(items, k, c) by {}
        }
        if forall|k: int| i <= k < items.len() ==> !#[trigger] gives(items, k, c) {
            assert(!gives(items, i as int, c));
        }
    }
}

/// Differences: a number says the code of the name behind it, at whatever place it stands, and each
/// further name takes the next code. The last name that gives a code a character counts; a code
/// that none gives one keeps the character of the base.
pub proof fn differences_count_from_numbers(t: Seq<Option<char>>, items: Seq<ObjectModel>, c: int)
    requires
        t.len() == 256,
        0 <= c < 256,
    ensures
        with_differences(t, items, 0, 0).len() == 256,
        forall|k: int|
            #[trigger] gives(items, k, c) && (forall|l: int|
                k < l < items.len() ==> !#[trigger] gives(items, l, c)) ==> with_differences(
                t,
                items,
                0,
                0,
            )[c] == glyph_char(items[k]->Name_0),
        (forall|k: int| !#[trigger] gives(items, k, c)) ==> with_differences(t, items, 0, 0)[c] == t[c],
{
    differences_from(t, items, 0, c);
}

/// A number right before a name gives that name's character to the code, unless a later item gives
/// the code another.
pub proof fn number_before_a_name_is_its_code(d: DictModel, items: Seq<ObjectModel>, k: int, x: char)
    requires
        entry(d, "Differences"@) == Some(ObjectModel::Array(items)),
        0 <= k,
        k + 1 < items.len(),
        items[k] is Integer,
        0 <= items[k]->Integer_0 < 256,
        items[k + 1] is Name,
        glyph_char(items[k + 1]->Name_0) == Some(x),
        forall|l: int| k + 1 < l < items.len() ==> !#[trigger] gives(items, l, items[k]->Integer_0),
    ensures
        encoding_in(d)[items[k]->Integer_0] == Some(x),
{
    let c = items[k]->Integer_0;
    let base = match entry(d, "BaseEncoding"@) {
        Some(ObjectModel::Name(name)) => match encoding_named(name) {
            Some(t) => t,
            None => win_ansi_table(),
        },
        _ => win_ansi_table(),
    };
    assert(last_number(items, k, k + 1, c));
    assert(names_between(items, k + 1, k + 1) == 0);
    assert(gives(items, k + 1, c));
    differences_count_from_numbers(base, items, c);
}

/// Codes of printable ASCII mean themselves where nothing else is said; the standard encoding has
/// curved quotation marks for the straight ones.
pub proof fn ascii_means_itself(c: int)
    requires
        0x20 <= c < 0x7F,
    ensures
        win_ansi_table()[c] == Some(c as char),
        c != 0x27 && c != 0x60 ==> standard_table()[c] == Some(c as char),
        standard_table()[0x27] == Some('\u{2019}'),
        standard_table()[0x60] == Some('\u{2018}'),
{
}

/// Codes of Latin-1 mean themselves in the encoding of Windows.
pub proof fn latin_means_itself(c: int)
    requires
        0xA0 <= c <= 0xFF,
    ensures
        win_ansi_table()[c] == Some(c as char),
{
}

/// A font without an encoding has that of Windows.
pub proof fn no_encoding_is_that_of_windows(doc: DocModel, d: DictModel)
    requires
        entry(d, "Encoding"@) is None,
    ensures
        encoding_of(doc, d) == Ok::<Seq<Option<char>>, ErrorModel>(win_ansi_table()),
{
}

/// A map to Unicode goes before the encoding; where it says nothing the encoding holds.
pub proof fn map_goes_before_encoding(doc: DocModel, d: DictModel, bytes: Seq<u8>, c: int)
    requires
        characters_of(doc, d) is Ok,
        encoding_of(doc, d)->Ok_0.len() == 256,
        0 <= c < 256,
    ensures
        data_under(doc, d, "ToUnicode"@) is None ==> characters_of(doc, d)->Ok_0[c] == encoding_of(
            doc,
            d,
        )->Ok_0[c],
        data_under(doc, d, "ToUnicode"@) == Some(bytes) ==> {
            let m = unicode_map(bytes, false);
            &&& m.contains_key(c as u32) ==> characters_of(doc, d)->Ok_0[c] == Some(m[c as u32])
            &&& !m.contains_key(c as u32) ==> characters_of(doc, d)->Ok_0[c] == encoding_of(
                doc,
                d,
            )->Ok_0[c]
        },
{
}

/// A range of a map whose base is one character gives each code the character as far behind the
/// base as the code is behind the start of the range, and leaves the other codes alone.
pub proof fn range_counts_up(m: CodeMap, lo: u32, hi: u32, base: u16, k: u32)
    requires
        base + (hi - lo) < 0xD800,
    ensures
        lo <= k <= hi ==> with_range(m, lo, hi as int, seq![base]).contains_key(k) && with_range(
            m,
            lo,
            hi as int,
            seq![base],
        )[k] as u32 == base + (k - lo),
        !(lo <= k <= hi) ==> with_range(m, lo, hi as int, seq![base]).contains_key(k) == m.contains_key(
            k,
        ) && (m.contains_key(k) ==> with_range(m, lo, hi as int, seq![base])[k] == m[k]),
{
    let r = with_range(m, lo, hi as int, seq![base]);
    if lo <= k <= hi {
        let n = (base + (k - lo)) as u32;
        assert(range_char(lo, seq![base], k) == scalar_char(n));
        assert(vstd::utf8::is_scalar(n));
        vstd::utf8::char_u32_cast(n as char, n);
    }
}

/// One code of a map takes the character that is written in two bytes, and no other code changes.
pub proof fn one_code_takes_its_character(m: CodeMap, code: u32, high: u8, low: u8, k: u32)
    requires
        high < 0xD8,
    ensures
        with_char(m, code, seq![high, low], true).contains_key(code),
        with_char(m, code, seq![high, low], true)[code] as u32 == high * 256 + low,
        k != code ==> with_char(m, code, seq![high, low], true).contains_key(k) == m.contains_key(k)
            && with_char(m, code, seq![high, low], true)[k] == m[k],
{
    let u = be_units(seq![high, low]);
    assert(u.len() == 1);
    assert(u[0] == high * 256 + low);
    let n = u[0] as u32;
    assert(vstd::utf8::is_scalar(n));
    vstd::utf8::char_u32_cast(n as char, n);
}

/// The width of a code is the one as far behind the first as the code is behind the first code.
/// Where a font says a width at all, the other codes are half as wide as high.
pub proof fn width_is_counted_from_the_first(
    doc: DocModel,
    d: DictModel,
    f: FontModel,
    items: Seq<ObjectModel>,
    first: int,
    code: u8,
    k: int,
)
    requires
        font_of(doc, d) == Ok::<FontModel, ErrorModel>(f),
        entry(d, "Widths"@) == Some(ObjectModel::Array(items)),
        entry(d, "FirstChar"@) == Some(ObjectModel::Integer(first)),
        i64::MIN <= first <= i64::MAX,
        0 <= k < items.len(),
        first + k == code,
    ensures
        number_in(items[k]) is Some ==> f.simple(code).1 == number_in(items[k])->0,
        forall|c: u8|
            number_in(items[k]) is Some && (c < first || c >= first + items.len())
                ==> #[trigger] f.simple(c).1 == real_of_int(500),
{
    assert(widths_of(doc, d)->Ok_0[code as int] == number_in(items[k]));
    assert(f.widths[code as int] == number_in(items[k]));
}

/// The character of a code is the one that its font has for it.
pub proof fn code_has_the_character_of_its_font(doc: DocModel, d: DictModel, f: FontModel, code: u8)
    requires
        font_of(doc, d) == Ok::<FontModel, ErrorModel>(f),
    ensures
        f.simple(code).0 == characters_of(doc, d)->Ok_0[code as int],
        f.composite() <==> name_under(d, "Subtype"@, ""@) == "Type0"@,
{
}

/// The groups of widths take up all items: each is a character and an array, or two characters and
/// a width.
pub open spec fn all_groups(items: Seq<ObjectModel>, i: int) -> bool
    decreases items.len() - i,
{
    if i >= items.len() {
        i == items.len()
    } else if i < 0 {
        false
    } else if i + 1 < items.len() && items[i].integer() is Some && items[i + 1] is Array {
        all_groups(items, i + 2)
    } else {
        i + 2 < items.len() && items[i].integer() is Some && items[i + 1].integer() is Some && number_in(
            items[i + 2],
        ) is Some && all_groups(items, i + 3)
    }
}

proof fn runs_behind(items: Seq<ObjectModel>, i: nat, acc: Seq<RunModel>)
    ensures
        runs_from(items, i, acc) == acc + runs_from(items, i, seq![]),
    decreases items.len() - i,
{
    assert(acc + Seq::<RunModel>::empty() =~= acc);
    if i + 1 < items.len() {
        if let Some(first) = items[i as int].integer() {
            if let ObjectModel::Array(run) = items[i as int + 1] {
                let r = RunModel::Each(
                    crate::font::held_u32(first),
                    run.map_values(|o: ObjectModel| number_in(o)),
                );
                runs_behind(items, i + 2, acc.push(r));
                runs_behind(items, i + 2, Seq::<RunModel>::empty().push(r));
                assert(acc.push(r) + runs_from(items, i + 2, seq![]) =~= acc + (
                Seq::<RunModel>::empty().push(r) + runs_from(items, i + 2, seq![])));
            } else if let Some(last) = items[i as int + 1].integer() {
                if i + 2 < items.len() {
                    if let Some(w) = number_in(items[i as int + 2]) {
                        let r = RunModel::Same(first, last, w);
                        runs_behind(items, i + 3, acc.push(r));
                        runs_behind(items, i + 3, Seq::<RunModel>::empty().push(r));
                        assert(acc.push(r) + runs_from(items, i + 3, seq![]) =~= acc + (
                        Seq::<RunModel>::empty().push(r) + runs_from(items, i + 3, seq![])));
                    }
                }
            }
        }
    }
}

proof fn runs_shift(a: Seq<ObjectModel>, b: Seq<ObjectModel>, i: nat, acc: Seq<RunModel>)
    ensures
        runs_from(a + b, a.len() + i, acc) == runs_from(b, i, acc),
    decreases b.len() - i,
{
    let all = a + b;
    let n = a.len() + i;
    if i < b.len() {
        assert(all[n as int] == b[i as int]);
    }
    if i + 1 < b.len() {
        assert(all[n as int + 1] == b[i as int + 1]);
        if i + 2 < b.len() {
            assert(all[n as int + 2] == b[i as int + 2]);
        }
        if let Some(first) = b[i as int].integer() {
            if let ObjectModel::Array(run) = b[i as int + 1] {
                let r = RunModel::Each(
                    crate::font::held_u32(first),
                    run.map_values(|o: ObjectModel| number_in(o)),
                );
                runs_shift(a, b, i + 2, acc.push(r));
            } else if let Some(last) = b[i as int + 1].integer() {
                if i + 2 < b.len() {
                    if let Some(w) = number_in(b[i as int + 2]) {
                        runs_shift(a, b, i + 3, acc.push(RunModel::Same(first, last, w)));
                    }
                }
            }
        }
    }
}

proof fn runs_join(a: Seq<ObjectModel>, b: Seq<ObjectModel>, i: nat, acc: Seq<RunModel>)
    requires
        all_groups(a, i as int),
    ensures
        runs_from(a + b, i, acc) == runs_from(b, 0, runs_from(a, i, acc)),
    decreases a.len() - i,
{
    let all = a + b;
    if i >= a.len() {
        runs_shift(a, b, 0, acc);
    } else {
        assert(all[i as int] == a[i as int]);
        assert(all[i as int + 1] == a[i as int + 1]);
        let first = a[i as int].integer()->0;
        if let ObjectModel::Array(run) = a[i as int + 1] {
            let r = RunModel::Each(
                crate::font::held_u32(first),
                run.map_values(|o: ObjectModel| number_in(o)),
            );
            runs_join(a, b, i + 2, acc.push(r));
        } else {
            assert(all[i as int + 2] == a[i as int + 2]);
            let last = a[i as int + 1].integer()->0;
            let w = number_in(a[i as int + 2])->0;
            runs_join(a, b, i + 3, acc.push(RunModel::Same(first, last, w)));
        }
    }
}

/// The width that a list of groups gives a character, where it gives one.
pub open spec fn listed_width(items: Seq<ObjectModel>, cid: u32) -> Option<RealModel> {
    let runs = runs_from(items, 0, seq![]);
    width_in_runs(runs, runs.len(), cid)
}

proof fn width_of_joined(a: Seq<RunModel>, b: Seq<RunModel>, n: nat, cid: u32)
    requires
        n <= b.len(),
    ensures
        width_in_runs(a + b, a.len() + n, cid) == match width_in_runs(b, n, cid) {
            Some(w) => Some(w),
            None => width_in_runs(a, a.len(), cid),
        },
    decreases n,
{
    if n > 0 {
        assert((a + b)[a.len() + n - 1] == b[n - 1]);
        width_of_joined(a, b, (n - 1) as nat, cid);
    } else {
        width_in_prefix(a, b, a.len(), cid);
    }
}

proof fn width_in_prefix(a: Seq<RunModel>, b: Seq<RunModel>, n: nat, cid: u32)
    requires
        n <= a.len(),
    ensures
        width_in_runs(a + b, n, cid) == width_in_runs(a, n, cid),
    decreases n,
{
    if n > 0 {
        assert((a + b)[n - 1] == a[n - 1]);
        width_in_prefix(a, b, (n - 1) as nat, cid);
    }
}

/// Groups of widths that stand behind others are read as if they stood alone, and go before them.
pub proof fn later_widths_go_first(a: Seq<ObjectModel>, b: Seq<ObjectModel>, cid: u32)
    requires
        all_groups(a, 0),
    ensures
        listed_width(a + b, cid) == match listed_width(b, cid) {
            Some(w) => Some(w),
            None => listed_width(a, cid),
        },
{
    let first = runs_from(a, 0, seq![]);
    let second = runs_from(b, 0, seq![]);
    runs_join(a, b, 0, seq![]);
    runs_behind(b, 0, first);
    width_of_joined(first, second, second.len(), cid);
}

/// A character and an array: the characters from that one on have the widths of the array.
pub proof fn array_gives_each_its_width(first: int, run: Seq<ObjectModel>, cid: u32)
    requires
        0 <= first <= u32::MAX,
    ensures
        listed_width(seq![ObjectModel::Integer(first), ObjectModel::Array(run)], cid) == if first
            <= cid < first + run.len() {
            number_in(run[cid - first])
        } else {
            None
        },
{
    let items = seq![ObjectModel::Integer(first), ObjectModel::Array(run)];
    let widths = run.map_values(|o: ObjectModel| number_in(o));
    let one = Seq::<RunModel>::empty().push(RunModel::Each(first as u32, widths));
    assert(items[0].integer() == Some(first as i64));
    reveal_with_fuel(runs_from, 3);
    reveal_with_fuel(width_in_runs, 3);
    assert(runs_from(items, 0, seq![]) == one);
}

/// Two characters and a width: all characters from the one to the other have it.
pub proof fn range_gives_all_its_width(first: int, last: int, w: RealModel, cid: u32)
    requires
        0 <= first <= u32::MAX,
        0 <= last <= u32::MAX,
    ensures
        listed_width(
            seq![ObjectModel::Integer(first), ObjectModel::Integer(last), ObjectModel::Real(w)],
            cid,
        ) == if first <= cid <= last {
            Some(w)
        } else {
            None
        },
{
    let items = seq![ObjectModel::Integer(first), ObjectModel::Integer(last), ObjectModel::Real(w)];
    let one = Seq::<RunModel>::empty().push(RunModel::Same(first as i64, last as i64, w));
    reveal_with_fuel(runs_from, 3);
    reveal_with_fuel(width_in_runs, 3);
    assert(runs_from(items, 0, seq![]) == one);
}

/// A character of a composite font is as wide as its list says, otherwise as wide as the default,
/// and that is 1000 where nothing is said.
pub proof fn composite_width_is_listed(doc: DocModel, d: DictModel, x: DictModel, f: FontModel, cid: u32)
    requires
        font_of(doc, d) == Ok::<FontModel, ErrorModel>(f),
        f.composite(),
        descendant_of(doc, d) == Some(x),
    ensures
        ({
            let default = match entry(x, "DW"@) {
                Some(ObjectModel::Integer(n)) => real_of_int(n),
                Some(ObjectModel::Real(r)) => r,
                _ => real_of_int(1000),
            };
            f.metrics(cid).1 == match array_under(doc, x, "W"@) {
                Some(items) => match listed_width(items, cid) {
                    Some(w) => w,
                    None => default,
                },
                None => default,
            }
        }),
        forall|bytes: Seq<u8>|
            #[trigger] data_under(doc, d, "ToUnicode"@) == Some(bytes) ==> f.metrics(cid).0 == if unicode_map(
                bytes,
                true,
            ).contains_key(cid) {
                Some(unicode_map(bytes, true)[cid])
            } else {
                None
            },
{
    reveal_with_fuel(width_in_runs, 1);
}

/// The glyph of a character in a TrueType program: the two bytes of the map at the character, or
/// the character itself where there is no map.
pub proof fn glyph_of_a_character(doc: DocModel, d: DictModel, x: DictModel, f: FontModel, cid: u32, program: Seq<u8>)
    requires
        font_of(doc, d) == Ok::<FontModel, ErrorModel>(f),
        f.composite(),
        descendant_of(doc, d) == Some(x),
        f.truetype == Some(program),
    ensures
        data_under(doc, x, "CIDToGIDMap"@) is None && cid <= 0xFFFF ==> f.cid_shape(cid) == Some(
            GlyphShape::TrueType(cid as u16),
        ),
        forall|bytes: Seq<u8>|
            #[trigger] data_under(doc, x, "CIDToGIDMap"@) == Some(bytes) && 2 * cid + 1 < bytes.len()
                ==> f.cid_shape(cid) == Some(
                GlyphShape::TrueType((bytes[2 * cid as int] * 256 + bytes[2 * cid + 1]) as u16),
            ),
{
    if let Some(bytes) = data_under(doc, x, "CIDToGIDMap"@) {
        if 2 * cid + 1 < bytes.len() {
            assert(be_units(bytes)[cid as int] == bytes[2 * cid as int] * 256 + bytes[2 * cid + 1]);
        }
    }
}

/// A font program under `FontFile2` is TrueType and goes before one under `FontFile3`.
pub proof fn truetype_program_goes_first(doc: DocModel, x: DictModel, bytes: Seq<u8>)
    requires
        data_under(doc, x, "FontFile2"@) == Some(bytes),
    ensures
        programs(doc, Some(x)) == (Some(bytes), None::<Seq<u8>>),
{
}

/// An accented letter is as wide as the letter that it is made of, and in Courier everything that
/// has a width has the same.
pub proof fn accents_do_not_widen(table: WidthTable, code: u8, base: u8)
    requires
        accent_base(code) == Some(base),
    ensures
        table_width(table, code) == table_width(table, base),
        65 <= base <= 90 || 97 <= base <= 122,
        (base < 97) == (code < 0xE0),
        code < 0xE0 ==> accent_base((code + 0x20) as u8) == Some((base + 32) as u8),
{
}

/// Courier has one width for all.
pub proof fn courier_has_one_width(code: u8)
    ensures
        table_width(WidthTable::Courier, code) is Some ==> table_width(WidthTable::Courier, code)
            == Some(600u16),
        32 <= code <= 126 ==> table_width(WidthTable::Courier, code) is Some,
        0xC0 <= code ==> table_width(WidthTable::Courier, code) is Some || code == 0xD0 || code == 0xD7
            || code == 0xDE || code == 0xF0 || code == 0xF7 || code == 0xFE,
{
}

/// A name says the family and whether it is bold or slanted.
pub proof fn widths_go_by_the_name(base_font: Seq<char>)
    ensures
        ({
            let name = plain_name(base_font);
            let bold = holds(name, "bold"@);
            let slanted = holds(name, "italic"@) || holds(name, "oblique"@);
            let table = widths_by_name(base_font);
            &&& holds(name, "courier"@) <==> table == WidthTable::Courier
            &&& !holds(name, "courier"@) && holds(name, "times"@) ==> {
                &&& bold && slanted <==> table == WidthTable::TimesBoldItalic
                &&& bold && !slanted <==> table == WidthTable::TimesBold
                &&& !bold && slanted <==> table == WidthTable::TimesItalic
                &&& !bold && !slanted <==> table == WidthTable::TimesRoman
            }
            &&& !holds(name, "courier"@) && !holds(name, "times"@) ==> {
                &&& table == WidthTable::Helvetica || table == WidthTable::HelveticaBold
                &&& table == WidthTable::HelveticaBold <==> bold && (holds(name, "helvetica"@) || holds(
                    name,
                    "arial"@,
                ))
            }
        }),
{
}

/// The number of a code is that of its bytes, the high one first.
pub proof fn code_is_the_number_of_its_bytes(a: u8, b: u8, c: u8, d: u8)
    ensures
        code_number(seq![a]) == a,
        code_number(seq![a, b]) == a * 256 + b,
        code_number(seq![a, b, c, d]) == a * 0x100_0000 + b * 0x1_0000 + c * 256 + d,
{
    reveal_with_fuel(code_number, 5);
    assert(seq![a].drop_last() =~= seq![]);
    assert(seq![a, b].drop_last() =~= seq![a]);
    assert(seq![a, b, c, d].drop_last() =~= seq![a, b, c]);
    assert(seq![a, b, c].drop_last() =~= seq![a, b]);
}

/// Two units that are the halves of a character make it.
pub proof fn halves_make_a_character(high: u16, low: u16)
    requires
        0xD800 <= high <= 0xDBFF,
        0xDC00 <= low <= 0xDFFF,
    ensures
        first_char(seq![high, low]) is Some,
        first_char(seq![high, low])->0 as u32 == 0x10000 + (high - 0xD800) * 0x400 + (low - 0xDC00),
{
    let n = (0x10000 + (high - 0xD800) * 0x400 + (low - 0xDC00)) as u32;
    assert(vstd::utf8::is_scalar(n));
    vstd::utf8::char_u32_cast(n as char, n);
}

} // verus!
