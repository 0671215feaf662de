//! What the codes of LZW stand for.
use vstd::prelude::*;
use crate::error::ErrorModel;
use crate::filters::{bits_value, code_width, first_table, lzw_entry, lzw_from};

verus! {

/// How many bits the `j`-th code behind a start has: nine, and one more each time that the numbers
/// so far are about to be used up.
pub open spec fn bits_of_code(j: nat) -> nat {
    if j < 254 {
        9
    } else if j < 766 {
        10
    } else if j < 1790 {
        11
    } else {
        12
    }
}

/// The bits of the first `j` codes.
pub open spec fn bits_before(j: nat) -> nat
    decreases j,
{
    if j == 0 {
        0
    } else {
        bits_before((j - 1) as nat) + bits_of_code((j - 1) as nat)
    }
}

/// The `j`-th code behind a start can be told: it is a byte, or it was given to what one of the
/// codes before it stands for.
pub open spec fn is_known(codes: Seq<int>, j: int) -> bool {
    0 <= codes[j] < 256 || 258 <= codes[j] < 258 + j
}

pub open spec fn all_known(codes: Seq<int>) -> bool {
    forall|j: int| 0 <= j < codes.len() ==> #[trigger] is_known(codes, j)
}

/// What the `j`-th code stands for. A code below 256 is a byte; the code 258 and each behind it is
/// given to what the code that is as many behind the start stands for, with the first byte of what
/// stands behind that.
pub open spec fn meaning(codes: Seq<int>, j: nat) -> Seq<u8>
    decreases j,
{
    let c = codes[j as int];
    if c < 256 {
        seq![c as u8]
    } else {
        let i = (c - 258) as nat;
        if i + 1 < j {
            meaning(codes, i).push(meaning(codes, i + 1)[0])
        } else if i < j {
            meaning(codes, i).push(meaning(codes, i)[0])
        } else {
            seq![]
        }
    }
}

/// What the first `n` codes stand for, one behind the other.
pub open spec fn meanings(codes: Seq<int>, n: nat) -> Seq<u8>
    decreases n,
{
    if n == 0 {
        seq![]
    } else {
        meanings(codes, (n - 1) as nat) + meaning(codes, (n - 1) as nat)
    }
}

/// The bits of the data from `at` on are the codes.
pub open spec fn holds_codes(d: Seq<u8>, at: int, codes: Seq<int>) -> bool {
    &&& at + bits_before(codes.len()) <= 8 * d.len()
    &&& forall|j: int|
        0 <= j < codes.len() ==> #[trigger] codes[j] == bits_value(
            d,
            at + bits_before(j as nat),
            bits_of_code(j as nat),
        )
}

proof fn meaning_is_not_empty(codes: Seq<int>, j: nat)
    requires
        all_known(codes),
        j < codes.len(),
    ensures
        meaning(codes, j).len() > 0,
    decreases j,
{
    assert(is_known(codes, j as int));
    if codes[j as int] >= 256 {
        let i = (codes[j as int] - 258) as nat;
        meaning_is_not_empty(codes, i);
    }
}

proof fn bits_before_grow(i: nat, j: nat)
    requires
        i <= j,
    ensures
        bits_before(i) <= bits_before(j),
    decreases j,
{
    if i < j {
        bits_before_grow(i, (j - 1) as nat);
    }
}

/// The table once `n` codes were read.
spec fn table_is(codes: Seq<int>, n: nat, table: Seq<Seq<u8>>) -> bool {
    &&& table.len() == if n == 0 {
        258
    } else {
        257 + n
    }
    &&& forall|k: int| 0 <= k < 256 ==> #[trigger] table[k] == seq![k as u8]
    &&& forall|i: int|
        0 <= i < n - 1 ==> #[trigger] table[258 + i] == meaning(codes, i as nat).push(
            meaning(codes, (i + 1) as nat)[0],
        )
}

proof fn entry_is_meaning(codes: Seq<int>, n: nat, table: Seq<Seq<u8>>, j: nat)
    requires
        all_known(codes),
        table_is(codes, n, table),
        j < n,
        j < codes.len(),
    ensures
        0 <= codes[j as int] < table.len(),
        table[codes[j as int]] == meaning(codes, j),
{
    assert(is_known(codes, j as int));
    let c = codes[j as int];
    if c >= 256 {
        let i = (c - 258) as nat;
        assert(table[258 + i as int] == meaning(codes, i).push(meaning(codes, i + 1)[0]));
        if i + 1 == j {
            meaning_is_not_empty(codes, i);
            assert(meaning(codes, j)[0] == meaning(codes, i)[0]);
        }
    }
}

proof fn codes_are_read(
    d: Seq<u8>,
    at: int,
    codes: Seq<int>,
    n: nat,
    table: Seq<Seq<u8>>,
    acc: Seq<u8>,
) -> (r: (Seq<Seq<u8>>, Option<int>))
    requires
        0 <= at,
        all_known(codes),
        holds_codes(d, at, codes),
        n <= codes.len(),
        table == first_table(),
    ensures
        table_is(codes, n, r.0),
        n == 0 ==> r.1 is None,
        n > 0 ==> r.1 == Some(codes[n - 1]),
        lzw_from(d, at, table, 9, None, acc) == lzw_from(
            d,
            at + bits_before(n),
            r.0,
            bits_of_code(n),
            r.1,
            acc + meanings(codes, n),
        ),
    decreases n,
{
    if n == 0 {
        assert(acc + meanings(codes, 0) =~= acc);
        (table, None)
    } else {
        let j = (n - 1) as nat;
        let (t, prev) = codes_are_read(d, at, codes, j, table, acc);
        let here = at + bits_before(j);
        let width = bits_of_code(j);
        let code = codes[j as int];
        assert(code == bits_value(d, here, width));
        bits_before_grow(n, codes.len());
        assert(is_known(codes, j as int));
        let e = meaning(codes, j);
        meaning_is_not_empty(codes, j);
        let out = acc + meanings(codes, j);
        assert(out + e =~= acc + meanings(codes, n));
        if j == 0 {
            assert(lzw_entry(t, prev, code) == Some(e));
            (t, Some(code))
        } else {
            let p = codes[j - 1];
            entry_is_meaning(codes, j, t, (j - 1) as nat);
            let last = meaning(codes, (j - 1) as nat);
            if code < 256 {
                assert(t[code] == e);
            } else {
                let i = (code - 258) as nat;
                if i + 1 < j {
                    assert(t[258 + i as int] == meaning(codes, i).push(meaning(codes, i + 1)[0]));
                } else {
                    assert(code == t.len());
                }
            }
            assert(lzw_entry(t, prev, code) == Some(e));
            let next = t.push(last.push(e[0]));
            assert(next[258 + (j - 1)] == last.push(e[0]));
            assert(code_width(t.len() + 1, width) == bits_of_code(n));
            assert(table_is(codes, n, next)) by {
                assert forall|k: int| 0 <= k < 256 implies #[trigger] next[k] == seq![k as u8] by {
                    assert(next[k] == t[k]);
                }
                assert forall|i: int| 0 <= i < n - 1 implies #[trigger] next[258 + i] == meaning(
                    codes,
                    i as nat,
                ).push(meaning(codes, (i + 1) as nat)[0]) by {
                    if i < j - 1 {
                        assert(next[258 + i] == t[258 + i]);
                    }
                }
            }
            (next, Some(code))
        }
    }
}

/// Codes from a start on stand for what was given to them. They end where the code 257 says so, or
/// with the data.
pub proof fn codes_have_their_meaning(d: Seq<u8>, at: int, codes: Seq<int>, acc: Seq<u8>)
    requires
        0 <= at,
        all_known(codes),
        holds_codes(d, at, codes),
        ({
            let end = at + bits_before(codes.len());
            let width = bits_of_code(codes.len());
            end + width > 8 * d.len() || bits_value(d, end, width) == 257
        }),
    ensures
        lzw_from(d, at, first_table(), 9, None, acc) == Ok::<Seq<u8>, ErrorModel>(
            acc + meanings(codes, codes.len()),
        ),
{
    let r = codes_are_read(d, at, codes, codes.len(), first_table(), acc);
}

/// The code 256 starts anew: what follows is read as at the start, behind what was read before.
pub proof fn codes_start_anew(d: Seq<u8>, at: int, codes: Seq<int>, acc: Seq<u8>)
    requires
        0 <= at,
        all_known(codes),
        holds_codes(d, at, codes),
        ({
            let end = at + bits_before(codes.len());
            let width = bits_of_code(codes.len());
            end + width <= 8 * d.len() && bits_value(d, end, width) == 256
        }),
    ensures
        lzw_from(d, at, first_table(), 9, None, acc) == lzw_from(
            d,
            at + bits_before(codes.len()) + bits_of_code(codes.len()),
            first_table(),
            9,
            None,
            acc + meanings(codes, codes.len()),
        ),
{
    let r = codes_are_read(d, at, codes, codes.len(), first_table(), acc);
}

/// A byte that stands for itself in eight bits, the highest first.
pub proof fn bits_are_those_of_the_bytes(d: Seq<u8>, k: int)
    requires
        0 <= k < d.len(),
    ensures
        bits_value(d, 8 * k, 8) == d[k],
        bits_value(d, 8 * k, 9) == 2 * d[k] + if k + 1 < d.len() && d[k + 1] >= 128 {
            1int
        } else {
            bits_value(d, 8 * k + 8, 1) as int
        },
{
    let b = d[k];
    reveal_with_fuel(bits_value, 10);
    assert((8 * k + 0) / 8 == k && (8 * k + 1) / 8 == k && (8 * k + 2) / 8 == k && (8 * k + 3) / 8 == k);
    assert((8 * k + 4) / 8 == k && (8 * k + 5) / 8 == k && (8 * k + 6) / 8 == k && (8 * k + 7) / 8 == k);
    assert((8 * k + 8) / 8 == k + 1 && (8 * k + 8) % 8 == 0);
    assert(((b >> 7u8) & 1) * 128 + ((b >> 6u8) & 1) * 64 + ((b >> 5u8) & 1) * 32 + ((b >> 4u8) & 1) * 16
        + ((b >> 3u8) & 1) * 8 + ((b >> 2u8) & 1) * 4 + ((b >> 1u8) & 1) * 2 + ((b >> 0u8) & 1) == b)
        by (bit_vector);
    if k + 1 < d.len() {
        let n = d[k + 1];
        assert(n >= 128 ==> (n >> 7u8) & 1 == 1) by (bit_vector);
    }
}

} // verus!
