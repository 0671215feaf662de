//! What the segments of a JPEG image say, and whether its samples can be decoded: every product of
//! a coefficient and its quantization fits into four bytes, and the components are sampled in a
//! way that fits together.
use vstd::arithmetic::power2::pow2;
use vstd::prelude::*;
use crate::jpeg_codes::{find_scan_end, limits_fit, order_fits, power, scan_end, ScanPart};

verus! {

/// One thing for each of four numbers.
pub type Four = (usize, usize, usize, usize);

/// What the segments before some place of an image say of it.
#[derive(Debug, Clone, Copy)]
pub struct JpegHead {
    /// Where the frame is; zero before it.
    pub frame: usize,
    /// Whether the scans refine each other.
    pub staged: bool,
    /// The greatest first entry of a quantization table, at least one.
    pub quant: u16,
    /// The greatest size of a difference that a table of codes can give.
    pub size: u8,
    /// How many groups of blocks stand between restarts; zero where there are none.
    pub restart: u16,
    /// Where the tables of codes for first coefficients are; zero for one that is not there.
    pub firsts: Four,
    /// Where those for other coefficients are.
    pub others: Four,
    /// Whether tables of codes that are not there are those of a moving picture.
    pub moving: bool,
    /// Whether the colors of a gray image were named behind its frame.
    pub named: bool,
}

/// What is known of an image before its first segment.
pub open spec fn empty_head() -> JpegHead {
    JpegHead {
        frame: 0,
        staged: false,
        quant: 1,
        size: 0,
        restart: 0,
        firsts: (0, 0, 0, 0),
        others: (0, 0, 0, 0),
        moving: false,
        named: false,
    }
}

/// Two bytes, the high one first.
pub open spec fn pair_at(d: Seq<u8>, p: int) -> int {
    d[p] * 256 + d[p + 1]
}

/// The thing for a number.
pub open spec fn nth(t: Four, i: int) -> usize {
    if i == 0 {
        t.0
    } else if i == 1 {
        t.1
    } else if i == 2 {
        t.2
    } else {
        t.3
    }
}

/// Another thing for a number.
pub open spec fn with_nth(t: Four, i: int, v: usize) -> Four {
    if i == 0 {
        (v, t.1, t.2, t.3)
    } else if i == 1 {
        (t.0, v, t.2, t.3)
    } else if i == 2 {
        (t.0, t.1, v, t.3)
    } else {
        (t.0, t.1, t.2, v)
    }
}

/// Where the next marker from `p` on stands: a 255 with neither a zero nor a 255 behind it.
pub open spec fn marker_from(d: Seq<u8>, p: int) -> int
    decreases d.len() - p,
{
    if p < 0 || p + 1 >= d.len() {
        d.len() as int
    } else if d[p] == 0xFF && d[p + 1] != 0 && d[p + 1] != 0xFF {
        p
    } else {
        marker_from(d, p + 1)
    }
}

proof fn marker_from_bounds(d: Seq<u8>, p: int)
    requires
        0 <= p <= d.len(),
    ensures
        p <= marker_from(d, p) <= d.len(),
    decreases d.len() - p,
{
    if p + 1 < d.len() && !(d[p] == 0xFF && d[p + 1] != 0 && d[p + 1] != 0xFF) {
        marker_from_bounds(d, p + 1);
    }
}

/// The greater of two numbers.
pub open spec fn larger(a: int, b: int) -> int {
    if a < b {
        b
    } else {
        a
    }
}

/// The greatest first entry of the quantization tables between `p` and `end`, and of `quant`. The
/// entries of a table have one byte or two. `None` where they are not tables, one behind the other.
pub open spec fn quants_from(d: Seq<u8>, p: int, end: int, quant: u16) -> Option<u16>
    decreases end - p,
{
    if p >= end {
        Some(quant)
    } else if d[p] < 16 {
        if p + 65 > end {
            None
        } else {
            quants_from(d, p + 65, end, larger(quant as int, d[p + 1] as int) as u16)
        }
    } else if d[p] < 32 && p + 129 <= end {
        quants_from(d, p + 129, end, larger(quant as int, pair_at(d, p + 1)) as u16)
    } else {
        None
    }
}

/// The sum of `n` bytes.
pub open spec fn sum_at(d: Seq<u8>, p: int, n: int) -> nat
    decreases n,
{
    if n <= 0 {
        0
    } else {
        sum_at(d, p, n - 1) + d[p + n - 1] as nat
    }
}

/// The greatest of `n` bytes, and of `size`.
pub open spec fn top_at(d: Seq<u8>, p: int, n: int, size: u8) -> u8
    decreases n,
{
    if n <= 0 {
        size
    } else {
        larger(top_at(d, p, n - 1, size) as int, d[p + n - 1] as int) as u8
    }
}

/// What is known with a table of codes at `p` more; its first byte says what it is for.
pub open spec fn with_table(d: Seq<u8>, p: int, n: int, head: JpegHead) -> JpegHead {
    if d[p] < 16 {
        JpegHead {
            size: top_at(d, p + 17, n, head.size),
            firsts: with_nth(head.firsts, d[p] as int, p as usize),
            ..head
        }
    } else {
        JpegHead { others: with_nth(head.others, d[p] as int - 16, p as usize), ..head }
    }
}

/// What is known with the tables of codes between `p` and `end` more; `None` where they are not
/// tables, one behind the other, or the size of a difference is over fifteen.
pub open spec fn codes_from(d: Seq<u8>, p: int, end: int, head: JpegHead) -> Option<JpegHead>
    decreases end - p,
{
    if p >= end {
        Some(head)
    } else if p + 17 > end || d[p] % 16 > 3 || d[p] >= 32 || p + 17 + sum_at(d, p + 1, 16) > end {
        None
    } else {
        let n = sum_at(d, p + 1, 16);
        let next = with_table(d, p, n as int, head);
        if next.size > 15 {
            None
        } else {
            codes_from(d, p + 17 + n, end, next)
        }
    }
}

/// A frame of `n` components of eight bits, at the marker at `p`, whose segment is `length` bytes
/// long.
pub open spec fn frame_fits(d: Seq<u8>, p: int, length: int, n: u8) -> bool {
    &&& length == 8 + 3 * n
    &&& d[p + 4] == 8
    &&& pair_at(d, p + 5) > 0
    &&& pair_at(d, p + 7) > 0
    &&& d[p + 9] == n
}

/// A segment at `p` starts with the word that names the colors.
pub open spec fn names_colors(d: Seq<u8>, p: int, length: int) -> bool {
    length >= 14 && d[p + 4] == 65 && d[p + 5] == 100 && d[p + 6] == 111 && d[p + 7] == 98 && d[p
        + 8] == 101
}

/// A segment at `p` starts with the word of a moving picture.
pub open spec fn names_movie(d: Seq<u8>, p: int, length: int) -> bool {
    length >= 7 && d[p + 4] == 65 && d[p + 5] == 86 && d[p + 6] == 73 && d[p + 7] == 49 && d[p + 8]
        == 0
}

/// The length of the segment at `p`, with the two bytes that say it. The first five bytes of an
/// application segment are read where it has four.
pub open spec fn segment_length(d: Seq<u8>, p: int) -> int {
    if d[p + 1] == 0xE0 && pair_at(d, p + 2) == 6 {
        7
    } else {
        pair_at(d, p + 2)
    }
}

/// What is known behind a segment at `p` that is `2 + length` bytes long and starts no scan, or
/// `None` where the image ends with it.
pub open spec fn head_after(d: Seq<u8>, p: int, length: int, n: u8, head: JpegHead) -> Option<
    JpegHead,
> {
    let marker = d[p + 1];
    let next = p + 2 + length;
    if marker == 0xDB {
        match quants_from(d, p + 4, next, head.quant) {
            Some(quant) => Some(JpegHead { quant, ..head }),
            None => None,
        }
    } else if marker == 0xC4 {
        codes_from(d, p + 4, next, head)
    } else if 0xC0 <= marker <= 0xC2 {
        if head.frame == 0 && frame_fits(d, p, length, n) {
            Some(JpegHead { frame: p as usize, staged: marker == 0xC2, ..head })
        } else {
            None
        }
    } else if marker == 0xDD {
        if length == 4 {
            Some(JpegHead { restart: pair_at(d, p + 4) as u16, ..head })
        } else {
            None
        }
    } else if marker == 0xD9 || marker == 0xCC || marker == 0xDC {
        None
    } else if marker == 0xE0 {
        Some(JpegHead { moving: head.moving || names_movie(d, p, length), ..head })
    } else if marker == 0xEE {
        Some(
            JpegHead {
                named: head.named || head.frame > 0 && n == 1 && names_colors(d, p, length),
                ..head
            },
        )
    } else {
        Some(head)
    }
}

/// What the segments from `p` on say up to the first scan, behind what is known, and where that
/// scan starts.
pub open spec fn head_from(d: Seq<u8>, p: int, n: u8, head: JpegHead) -> Option<(JpegHead, int)>
    decreases d.len() - p,
    via head_from_shrinks
{
    let q = marker_from(d, p);
    if p < 0 || q + 4 > d.len() {
        None
    } else {
        let length = segment_length(d, q);
        if length < 2 || q + 2 + length > d.len() {
            None
        } else if d[q + 1] == 0xDA {
            if head.frame > 0 && length >= 3 {
                Some((head, q))
            } else {
                None
            }
        } else {
            match head_after(d, q, length, n, head) {
                None => None,
                Some(after) => head_from(d, q + 2 + length, n, after),
            }
        }
    }
}

#[via_fn]
proof fn head_from_shrinks(d: Seq<u8>, p: int, n: u8, head: JpegHead) {
    if 0 <= p <= d.len() {
        marker_from_bounds(d, p);
    }
}

/// How often a component of the frame at `f` is sampled across and down.
pub open spec fn sampling(d: Seq<u8>, f: int, i: int) -> (int, int) {
    (d[f + 11 + 3 * i] as int / 16, d[f + 11 + 3 * i] as int % 16)
}

/// The greatest sampling across and down among the first `n` components, and at least one.
pub open spec fn top_sampling(d: Seq<u8>, f: int, n: int) -> (int, int)
    decreases n,
{
    if n <= 0 {
        (1, 1)
    } else {
        let (h, v) = top_sampling(d, f, n - 1);
        (larger(h, sampling(d, f, n - 1).0), larger(v, sampling(d, f, n - 1).1))
    }
}

/// A component is sampled once, twice or four times across, and up to four times down.
pub open spec fn sampled(s: (int, int)) -> bool {
    (s.0 == 1 || s.0 == 2 || s.0 == 4) && 1 <= s.1 <= 4
}

/// A component is half as high as the image, and half as wide or as wide.
pub open spec fn half_height(top: (int, int), s: (int, int)) -> bool {
    top.1 / s.1 == 2 && top.0 / s.0 <= 2
}

/// A pixel of a component stands for more than eight of the image.
pub open spec fn coarse(top: (int, int), s: (int, int)) -> bool {
    (top.0 / s.0) * (top.1 / s.1) > 8
}

/// All of the first `k` components are sampled in a way that is known.
pub open spec fn all_sampled(d: Seq<u8>, f: int, k: int) -> bool
    decreases k,
{
    k <= 0 || all_sampled(d, f, k - 1) && sampled(sampling(d, f, k - 1))
}

/// One of the first `k` components has half the height.
pub open spec fn any_half(d: Seq<u8>, f: int, top: (int, int), k: int) -> bool
    decreases k,
{
    k > 0 && (any_half(d, f, top, k - 1) || half_height(top, sampling(d, f, k - 1)))
}

/// One of the first `k` components is coarse.
pub open spec fn any_coarse(d: Seq<u8>, f: int, top: (int, int), k: int) -> bool
    decreases k,
{
    k > 0 && (any_coarse(d, f, top, k - 1) || coarse(top, sampling(d, f, k - 1)))
}

/// One of the first `k` components is half as high and half as wide as the image.
pub open spec fn any_quarter(d: Seq<u8>, f: int, top: (int, int), k: int) -> bool
    decreases k,
{
    k > 0 && (any_quarter(d, f, top, k - 1) || top.0 / sampling(d, f, k - 1).0 == 2 && top.1
        / sampling(d, f, k - 1).1 == 2)
}

/// As many groups of blocks stand beside each other by the sampling of the first component alone,
/// of the first two, and so on up to the first `k`.
pub open spec fn even_groups(d: Seq<u8>, f: int, h: int, k: int) -> bool
    decreases k,
{
    k <= 0 || even_groups(d, f, h, k - 1) && parts_of(
        pair_at(d, f + 7),
        top_sampling(d, f, k).0,
    ) == parts_of(pair_at(d, f + 7), h)
}

/// The components of an image fit together: each is sampled in a way that is known, and none is
/// coarse beside one of half the height. Unless one scan that is not refined holds all components,
/// the first is sampled most across, or none is half as high and half as wide; in the latter case
/// either the scans refine each other, or the components agree on the groups beside each other. A
/// gray image is read as if it were sampled once.
pub open spec fn sampling_fits(d: Seq<u8>, n: u8, head: JpegHead, whole: bool) -> bool {
    let f = head.frame as int;
    let top = top_sampling(d, f, n as int);
    n == 1 || {
        &&& all_sampled(d, f, n as int)
        &&& (!head.staged && whole || sampling(d, f, 0).0 == top.0 || !any_quarter(
            d,
            f,
            top,
            n as int,
        ) && (head.staged || even_groups(d, f, top.0, n as int)))
        &&& !(any_half(d, f, top, n as int) && any_coarse(d, f, top, n as int))
    }
}

/// How many parts of `step` blocks cover `n` pixels.
pub open spec fn parts_of(n: int, step: int) -> int {
    (n + 8 * step - 1) / (8 * step)
}

/// How many groups of blocks stand beside and below each other, where a scan holds all components.
pub open spec fn groups(d: Seq<u8>, n: u8, head: JpegHead) -> (int, int) {
    let f = head.frame as int;
    let (h, v) = if n == 1 {
        (1, 1)
    } else {
        top_sampling(d, f, n as int)
    };
    (parts_of(pair_at(d, f + 7), h), parts_of(pair_at(d, f + 5), v))
}

/// How many blocks of one component a scan has at most.
pub open spec fn most_blocks(d: Seq<u8>, n: u8, head: JpegHead) -> int {
    let (across, down) = groups(d, n, head);
    let (h, v) = if n == 1 {
        (1, 1)
    } else {
        top_sampling(d, head.frame as int, n as int)
    };
    across * down * (h * v)
}

/// How often a marker may stand from `p` on.
pub open spec fn pairs_from(d: Seq<u8>, p: int, m: u8) -> nat
    decreases d.len() - p,
{
    if p < 0 || p + 1 >= d.len() {
        0
    } else {
        pairs_from(d, p + 1, m) + (if d[p] == 0xFF && d[p + 1] == m {
            1nat
        } else {
            0
        })
    }
}

/// The greatest size of a difference in all scans, of which the first is at `p`.
pub open spec fn most_size(d: Seq<u8>, head: JpegHead, p: int) -> int {
    if pairs_from(d, p + 2, 0xC4) > 0 {
        15
    } else if head.moving {
        larger(head.size as int, 11)
    } else {
        head.size as int
    }
}

/// The image has so few blocks that no first coefficient can grow too large in them.
pub open spec fn few_blocks(d: Seq<u8>, n: u8, head: JpegHead, p: int) -> bool {
    most_blocks(d, n, head) * (1 + pairs_from(d, p + 2, 0xDA)) * pow2(
        most_size(d, head, p) as nat,
    ) * head.quant <= 0x7FFF_FFFF
}

/// The number of the first component of the frame from the `j`-th on with a name; `n` where there
/// is none.
pub open spec fn component_named(d: Seq<u8>, f: int, n: u8, id: u8, j: int) -> int
    decreases n - j,
{
    if j >= n || j < 0 {
        n as int
    } else if d[f + 10 + 3 * j] == id {
        j
    } else {
        component_named(d, f, n, id, j + 1)
    }
}

/// The `i`-th component of the scan at `p`; `whole` where the first scan holds all components.
pub open spec fn scan_part(d: Seq<u8>, p: int, n: u8, head: JpegHead, whole: bool, i: int) -> ScanPart {
    let f = head.frame as int;
    let comp = component_named(d, f, n, d[p + 5 + 2 * i], 0);
    let tables = d[p + 6 + 2 * i] as int;
    ScanPart {
        comp: comp as usize,
        blocks: if whole && n > 1 && comp < n {
            (sampling(d, f, comp).0 * sampling(d, f, comp).1) as usize
        } else {
            1
        },
        first: nth(head.firsts, (tables / 16) % 4),
        other: nth(head.others, (tables % 16) % 4),
    }
}

/// A part as often as it has blocks.
pub open spec fn repeated(part: ScanPart) -> Seq<ScanPart> {
    Seq::new(part.blocks as nat, |k: int| part)
}

/// The blocks of a group, in the order in which they stand in the scan at `p`: those of its first
/// `k` components.
pub open spec fn block_order(d: Seq<u8>, p: int, n: u8, head: JpegHead, whole: bool, k: int) -> Seq<
    ScanPart,
>
    decreases k,
{
    if k <= 0 {
        seq![]
    } else {
        block_order(d, p, n, head, whole, k - 1) + repeated(
            scan_part(d, p, n, head, whole, k - 1),
        )
    }
}

/// The first `k` components of the scan at `p` are in the frame and in none of the scans before,
/// whose components are marked in `seen`.
pub open spec fn parts_new(d: Seq<u8>, p: int, n: u8, head: JpegHead, seen: Four, k: int) -> bool
    decreases k,
{
    k <= 0 || {
        let comp = scan_part(d, p, n, head, false, k - 1).comp;
        parts_new(d, p, n, head, seen, k - 1) && comp < n && nth(seen, comp as int) == 0
    }
}

/// The components of the scan at `p` marked too.
pub open spec fn with_parts(d: Seq<u8>, p: int, n: u8, head: JpegHead, seen: Four, k: int) -> Four
    decreases k,
{
    if k <= 0 {
        seen
    } else {
        with_nth(
            with_parts(d, p, n, head, seen, k - 1),
            scan_part(d, p, n, head, false, k - 1).comp as int,
            1,
        )
    }
}

/// How many blocks stand beside each other in the scan at `p` that does not hold all components:
/// as many as its first component has, but no more than any of its first `k` has room for.
pub open spec fn columns(d: Seq<u8>, p: int, n: u8, head: JpegHead, k: int) -> int
    decreases k,
{
    let f = head.frame as int;
    let (h, _) = top_sampling(d, f, n as int);
    let width = pair_at(d, f + 7);
    let own = |i: int| sampling(d, f, scan_part(d, p, n, head, false, i).comp as int).0;
    if k <= 1 {
        (width * own(0) + 8 * h - 1) / (8 * h)
    } else {
        let before = columns(d, p, n, head, k - 1);
        let room = parts_of(width, h) * own(k - 1);
        if room < before {
            room
        } else {
            before
        }
    }
}

/// How many groups the scan at `p` has.
pub open spec fn group_count(d: Seq<u8>, p: int, n: u8, head: JpegHead, whole: bool) -> int {
    let (across, down) = groups(d, n, head);
    if whole {
        across * down
    } else {
        columns(d, p, n, head, d[p + 4] as int) * down
    }
}

/// What stands behind a scan: another scan, with what is known there, nothing more, or something
/// that is not known.
pub ghost enum Behind {
    Scan(int, JpegHead),
    End,
    Odd,
}

/// Markers of segments that can stand between scans.
pub open spec fn between(m: u8) -> bool {
    m == 0xC4 || m == 0xDB || m == 0xDD || m == 0xFE || 0xE0 <= m <= 0xEF
}

/// What stands behind the segments from the marker at `p` on.
pub open spec fn behind_from(d: Seq<u8>, p: int, head: JpegHead) -> Behind
    decreases d.len() - p,
    via behind_from_shrinks
{
    if p < 0 || p + 4 > d.len() {
        Behind::Odd
    } else {
        let m = d[p + 1];
        let length = segment_length(d, p);
        let next = p + 2 + length;
        if m == 0xD9 {
            Behind::End
        } else if length < 2 || next > d.len() {
            Behind::Odd
        } else if m == 0xDA {
            Behind::Scan(p, head)
        } else if !between(m) {
            Behind::Odd
        } else {
            let after = if m == 0xC4 {
                codes_from(d, p + 4, next, head)
            } else if m == 0xDD && length == 4 {
                Some(JpegHead { restart: pair_at(d, p + 4) as u16, ..head })
            } else {
                Some(head)
            };
            match after {
                None => Behind::End,
                Some(h) => if marker_from(d, next) >= d.len() {
                    Behind::End
                } else {
                    behind_from(d, marker_from(d, next), h)
                },
            }
        }
    }
}

#[via_fn]
proof fn behind_from_shrinks(d: Seq<u8>, p: int, head: JpegHead) {
    if 0 <= p && p + 4 <= d.len() {
        let next = p + 2 + segment_length(d, p);
        if next <= d.len() {
            marker_from_bounds(d, next);
        }
    }
}

/// The scans from the one at `p` on can be followed, and no first coefficient grows too large in
/// them. Each component stands in one scan. A scan that restarts holds all components, or ends
/// where it would restart.
pub open spec fn followed_from(d: Seq<u8>, p: int, n: u8, head: JpegHead, whole: bool, seen: Four) -> bool
    decreases d.len() - p,
    via followed_from_shrinks
{
    let length = pair_at(d, p + 2);
    let k = d[p + 4] as int;
    if p < 0 || p + 5 > d.len() || !(1 <= k <= n) || length != 6 + 2 * k || p + 2 + length
        > d.len() {
        false
    } else if !parts_new(d, p, n, head, seen, k) || !whole && head.restart > 0 && group_count(
        d,
        p,
        n,
        head,
        whole,
    ) % (head.restart as int) != 0 {
        false
    } else {
        let order = block_order(d, p, n, head, whole, k);
        match scan_end(
            d,
            order,
            (head.size as int, head.quant as int),
            head.restart as nat,
            p + 2 + length,
            group_count(d, p, n, head, whole) as nat,
        ) {
            None => false,
            Some((next, m)) => if m != 0xDA && !between(m) {
                true
            } else if next < p + 4 + length {
                false
            } else {
                match behind_from(d, next - 2, head) {
                    Behind::Odd => false,
                    Behind::End => true,
                    Behind::Scan(q, after) => if whole {
                        m == 0xDA
                    } else {
                        p < q < d.len() && followed_from(
                            d,
                            q,
                            n,
                            after,
                            whole,
                            with_parts(d, p, n, head, seen, k),
                        )
                    },
                }
            },
        }
    }
}

#[via_fn]
proof fn followed_from_shrinks(d: Seq<u8>, p: int, n: u8, head: JpegHead, whole: bool, seen: Four) {
}

/// The samples of an image of `n` components can be decoded. Where its scans refine each other, the
/// first coefficients are held in two bytes; elsewhere there are few blocks, or the scans can be
/// followed. The colors of a gray image are named behind its frame only where it is sampled once
/// and not refined.
pub open spec fn decodable(d: Seq<u8>, n: u8) -> bool {
    (n == 1 || n == 3 || n == 4) && d.len() <= 0x7FFF_FFFF && match head_from(
        d,
        2,
        n,
        empty_head(),
    ) {
        None => false,
        Some((head, p)) => {
            let whole = d[p + 4] == n;
            &&& sampling_fits(d, n, head, whole)
            &&& head.named ==> !head.staged && d[head.frame + 11] == 0x11
            &&& head.staged || few_blocks(d, n, head, p) || !head.moving && followed_from(
                d,
                p,
                n,
                head,
                whole,
                (0, 0, 0, 0),
            )
        },
    }
}

pub(crate) fn read_pair(data: &[u8], p: usize) -> (r: u16)
    requires
        p + 1 < data@.len(),
    ensures
        r == pair_at(data@, p as int),
{
    data[p] as u16 * 256 + data[p + 1] as u16
}

fn read_length(data: &[u8], p: usize) -> (r: usize)
    requires
        p + 4 <= data@.len(),
    ensures
        r == segment_length(data@, p as int),
        r <= 0xFFFF,
{
    let total: usize = data.len();
    assert(p + 4 <= total);
    let length: usize = read_pair(data, p + 2) as usize;
    if data[p + 1] == 0xE0 && length == 6 {
        7
    } else {
        length
    }
}

fn pick(t: Four, i: usize) -> (r: usize)
    ensures
        r == nth(t, i as int),
{
    if i == 0 {
        t.0
    } else if i == 1 {
        t.1
    } else if i == 2 {
        t.2
    } else {
        t.3
    }
}

fn put(t: Four, i: usize, v: usize) -> (r: Four)
    ensures
        r == with_nth(t, i as int, v),
{
    if i == 0 {
        (v, t.1, t.2, t.3)
    } else if i == 1 {
        (t.0, v, t.2, t.3)
    } else if i == 2 {
        (t.0, t.1, v, t.3)
    } else {
        (t.0, t.1, t.2, v)
    }
}

fn find_marker(data: &[u8], from: usize) -> (r: usize)
    requires
        from <= data@.len(),
    ensures
        r == marker_from(data@, from as int),
        from <= r <= data@.len(),
        r < data@.len() ==> r + 1 < data@.len(),
{
    let n: usize = data.len();
    let mut p: usize = from;
    while n >= 2 && p <= n - 2
        invariant
            n == data@.len(),
            from <= p <= n,
            marker_from(data@, from as int) == marker_from(data@, p as int),
        decreases n - p,
    {
        if data[p] == 0xFF && data[p + 1] != 0 && data[p + 1] != 0xFF {
            return p;
        }
        p += 1;
    }
    n
}

fn read_quants(data: &[u8], from: usize, end: usize, first: u16) -> (r: Option<u16>)
    requires
        from <= end <= data@.len(),
    ensures
        r == quants_from(data@, from as int, end as int, first),
        r is Some ==> r->0 >= first,
{
    let mut p: usize = from;
    let mut quant: u16 = first;
    while p < end
        invariant
            p <= end <= data@.len(),
            quant >= first,
            quants_from(data@, from as int, end as int, first) == quants_from(
                data@,
                p as int,
                end as int,
                quant,
            ),
        decreases end - p,
    {
        let b: u8 = data[p];
        if b < 16 {
            if end - p < 65 {
                return None;
            }
            let v: u16 = data[p + 1] as u16;
            if v > quant {
                quant = v;
            }
            p += 65;
        } else if b < 32 && end - p >= 129 {
            let v: u16 = read_pair(data, p + 1);
            if v > quant {
                quant = v;
            }
            p += 129;
        } else {
            return None;
        }
    }
    Some(quant)
}

fn read_sum(data: &[u8], p: usize) -> (r: usize)
    requires
        p + 16 <= data@.len(),
    ensures
        r == sum_at(data@, p as int, 16),
        r <= 255 * 16,
{
    let total: usize = data.len();
    let mut i: usize = 0;
    let mut sum: usize = 0;
    while i < 16
        invariant
            i <= 16,
            p + 16 <= total == data@.len(),
            sum == sum_at(data@, p as int, i as int),
            sum <= 255 * i,
        decreases 16 - i,
    {
        sum += data[p + i] as usize;
        i += 1;
    }
    sum
}

fn read_top(data: &[u8], p: usize, n: usize, first: u8) -> (r: u8)
    requires
        p + n <= data@.len(),
    ensures
        r == top_at(data@, p as int, n as int, first),
{
    let total: usize = data.len();
    let mut i: usize = 0;
    let mut top: u8 = first;
    while i < n
        invariant
            i <= n,
            p + n <= total == data@.len(),
            top == top_at(data@, p as int, i as int, first),
        decreases n - i,
    {
        let v: u8 = data[p + i];
        if v > top {
            top = v;
        }
        i += 1;
    }
    top
}

fn add_table(data: &[u8], p: usize, n: usize, head: JpegHead) -> (r: JpegHead)
    requires
        p + 17 + n <= data@.len(),
        data@[p as int] < 32,
    ensures
        r == with_table(data@, p as int, n as int, head),
{
    let total: usize = data.len();
    assert(p + 17 + n <= total);
    let b: u8 = data[p];
    if b < 16 {
        let size: u8 = read_top(data, p + 17, n, head.size);
        JpegHead { size, firsts: put(head.firsts, b as usize, p), ..head }
    } else {
        JpegHead { others: put(head.others, b as usize - 16, p), ..head }
    }
}

/// What tables of codes leave as it is.
pub open spec fn same_frame(a: JpegHead, b: JpegHead) -> bool {
    a.frame == b.frame && a.staged == b.staged && a.quant == b.quant
}

fn read_codes(data: &[u8], from: usize, end: usize, before: JpegHead) -> (r: Option<JpegHead>)
    requires
        from <= end <= data@.len(),
    ensures
        r == codes_from(data@, from as int, end as int, before),
        r is Some ==> same_frame(before, r->0) && (before.size <= 15 ==> r->0.size <= 15),
{
    let mut p: usize = from;
    let mut head = before;
    while p < end
        invariant
            p <= end <= data@.len(),
            same_frame(before, head),
            before.size <= 15 ==> head.size <= 15,
            codes_from(data@, from as int, end as int, before) == codes_from(
                data@,
                p as int,
                end as int,
                head,
            ),
        decreases end - p,
    {
        if end - p < 17 || data[p] % 16 > 3 || data[p] >= 32 {
            return None;
        }
        let n: usize = read_sum(data, p + 1);
        if end - p - 17 < n {
            return None;
        }
        head = add_table(data, p, n, head);
        if head.size > 15 {
            return None;
        }
        p += 17 + n;
    }
    Some(head)
}

fn does_frame_fit(data: &[u8], p: usize, length: usize, n: u8) -> (r: bool)
    requires
        2 <= length,
        p + 2 + length <= data@.len(),
    ensures
        r == frame_fits(data@, p as int, length as int, n),
{
    let total: usize = data.len();
    assert(p + 2 + length <= total);
    length == 8 + 3 * (n as usize) && data[p + 4] == 8 && read_pair(data, p + 5) > 0 && read_pair(
        data,
        p + 7,
    ) > 0 && data[p + 9] == n
}

fn does_name_colors(data: &[u8], p: usize, length: usize) -> (r: bool)
    requires
        p + 2 + length <= data@.len(),
    ensures
        r == names_colors(data@, p as int, length as int),
{
    let total: usize = data.len();
    assert(p + 2 + length <= total);
    length >= 14 && data[p + 4] == 65 && data[p + 5] == 100 && data[p + 6] == 111 && data[p + 7]
        == 98 && data[p + 8] == 101
}

fn does_name_movie(data: &[u8], p: usize, length: usize) -> (r: bool)
    requires
        p + 2 + length <= data@.len(),
    ensures
        r == names_movie(data@, p as int, length as int),
{
    let total: usize = data.len();
    assert(p + 2 + length <= total);
    length >= 7 && data[p + 4] == 65 && data[p + 5] == 86 && data[p + 6] == 73 && data[p + 7] == 49
        && data[p + 8] == 0
}

/// What is known comes from before `p`, and the sizes and the quantization are those of an image.
spec fn head_fits(head: JpegHead, n: u8, p: int) -> bool {
    &&& head.frame > 0 ==> head.frame + 10 + 3 * n <= p
    &&& limits_fit((head.size, head.quant))
}

fn read_segment(data: &[u8], p: usize, length: usize, n: u8, head: JpegHead) -> (r: Option<
    JpegHead,
>)
    requires
        2 <= length,
        p + 2 + length <= data@.len(),
        head_fits(head, n, p as int),
    ensures
        r == head_after(data@, p as int, length as int, n, head),
        r is Some ==> head_fits(r->0, n, p + 2 + length),
{
    let total: usize = data.len();
    assert(p + 2 + length <= total);
    let marker: u8 = data[p + 1];
    let next: usize = p + 2 + length;
    if marker == 0xDB {
        match read_quants(data, p + 4, next, head.quant) {
            Some(quant) => Some(JpegHead { quant, ..head }),
            None => None,
        }
    } else if marker == 0xC4 {
        read_codes(data, p + 4, next, head)
    } else if 0xC0 <= marker && marker <= 0xC2 {
        if head.frame == 0 && does_frame_fit(data, p, length, n) {
            Some(JpegHead { frame: p, staged: marker == 0xC2, ..head })
        } else {
            None
        }
    } else if marker == 0xDD {
        if length == 4 {
            Some(JpegHead { restart: read_pair(data, p + 4), ..head })
        } else {
            None
        }
    } else if marker == 0xD9 || marker == 0xCC || marker == 0xDC {
        None
    } else if marker == 0xE0 {
        let moving: bool = head.moving || does_name_movie(data, p, length);
        Some(JpegHead { moving, ..head })
    } else if marker == 0xEE {
        let named: bool = head.named || head.frame > 0 && n == 1 && does_name_colors(
            data,
            p,
            length,
        );
        Some(JpegHead { named, ..head })
    } else {
        Some(head)
    }
}

fn read_head(data: &[u8], n: u8) -> (r: Option<(JpegHead, usize)>)
    requires
        2 <= data@.len(),
    ensures
        match (head_from(data@, 2, n, empty_head()), r) {
            (Some((h, p)), Some((head, q))) => h == head && p == q && q + 5 <= data@.len()
                && head.frame > 0 && head_fits(head, n, q as int),
            (None, None) => true,
            _ => false,
        },
{
    let total: usize = data.len();
    let mut head = JpegHead {
        frame: 0,
        staged: false,
        quant: 1,
        size: 0,
        restart: 0,
        firsts: (0, 0, 0, 0),
        others: (0, 0, 0, 0),
        moving: false,
        named: false,
    };
    let mut p: usize = 2;
    let ghost goal = head_from(data@, 2, n, empty_head());
    loop
        invariant
            2 <= p <= total == data@.len(),
            head_fits(head, n, p as int),
            goal == head_from(data@, 2, n, empty_head()),
            goal == head_from(data@, p as int, n, head),
        decreases total - p,
    {
        let q: usize = find_marker(data, p);
        if total - q < 4 {
            return None;
        }
        let length: usize = read_length(data, q);
        if length < 2 || length > total - q - 2 {
            return None;
        }
        if data[q + 1] == 0xDA {
            if head.frame > 0 && length >= 3 {
                return Some((head, q));
            }
            return None;
        }
        match read_segment(data, q, length, n, head) {
            None => {
                return None;
            },
            Some(after) => {
                head = after;
                p = q + 2 + length;
            },
        }
    }
}

fn read_sampling(data: &[u8], f: usize, i: usize) -> (r: (usize, usize))
    requires
        f + 11 + 3 * i < data@.len(),
    ensures
        (r.0 as int, r.1 as int) == sampling(data@, f as int, i as int),
        r.0 < 16,
        r.1 < 16,
{
    let total: usize = data.len();
    assert(f + 11 + 3 * i < total);
    let b: u8 = data[f + 11 + 3 * i];
    ((b / 16) as usize, (b % 16) as usize)
}

fn read_top_sampling(data: &[u8], f: usize, n: usize) -> (r: (usize, usize))
    requires
        n <= 4,
        f + 8 + 3 * n < data@.len(),
    ensures
        (r.0 as int, r.1 as int) == top_sampling(data@, f as int, n as int),
        1 <= r.0 <= 15,
        1 <= r.1 <= 15,
{
    let mut h: usize = 1;
    let mut v: usize = 1;
    let mut i: usize = 0;
    while i < n
        invariant
            i <= n <= 4,
            f + 8 + 3 * n < data@.len(),
            1 <= h <= 15,
            1 <= v <= 15,
            (h as int, v as int) == top_sampling(data@, f as int, i as int),
        decreases n - i,
    {
        let s: (usize, usize) = read_sampling(data, f, i);
        if s.0 > h {
            h = s.0;
        }
        if s.1 > v {
            v = s.1;
        }
        i += 1;
    }
    (h, v)
}

proof fn top_is_top(d: Seq<u8>, f: int, n: int, i: int)
    requires
        0 <= i < n,
    ensures
        sampling(d, f, i).0 <= top_sampling(d, f, n).0,
        sampling(d, f, i).1 <= top_sampling(d, f, n).1,
    decreases n,
{
    if i < n - 1 {
        top_is_top(d, f, n - 1, i);
    }
}

proof fn sampled_is_sampled(d: Seq<u8>, f: int, n: int, i: int)
    requires
        0 <= i < n,
        all_sampled(d, f, n),
    ensures
        sampled(sampling(d, f, i)),
    decreases n,
{
    if i < n - 1 {
        sampled_is_sampled(d, f, n - 1, i);
    }
}

fn read_width(data: &[u8], f: usize) -> (r: u16)
    requires
        f + 9 <= data@.len(),
    ensures
        r == pair_at(data@, f + 7),
{
    let total: usize = data.len();
    assert(f + 9 <= total);
    read_pair(data, f + 7)
}

fn does_sampling_fit(data: &[u8], n: u8, head: JpegHead, whole: bool) -> (r: bool)
    requires
        n == 1 || n == 3 || n == 4,
        head.frame + 10 + 3 * n <= data@.len(),
    ensures
        r == sampling_fits(data@, n, head, whole),
{
    if n == 1 {
        return true;
    }
    let f: usize = head.frame;
    let count: usize = n as usize;
    let top: (usize, usize) = read_top_sampling(data, f, count);
    let ghost t = (top.0 as int, top.1 as int);
    let mut half: bool = false;
    let mut rough: bool = false;
    let mut quarter: bool = false;
    let mut even: bool = true;
    let width: u16 = read_width(data, f);
    let all: u64 = count_parts(width, top.0);
    let mut wide: usize = 1;
    let mut high: usize = 1;
    let mut i: usize = 0;
    while i < count
        invariant
            i <= count == n,
            n == 3 || n == 4,
            f == head.frame,
            f + 10 + 3 * count <= data@.len(),
            t == (top.0 as int, top.1 as int),
            1 <= top.0 <= 15,
            1 <= top.1 <= 15,
            all_sampled(data@, f as int, i as int),
            half == any_half(data@, f as int, t, i as int),
            rough == any_coarse(data@, f as int, t, i as int),
            quarter == any_quarter(data@, f as int, t, i as int),
            width == pair_at(data@, f + 7),
            all == parts_of(width as int, t.0),
            1 <= wide <= 15,
            (wide as int, high as int) == top_sampling(data@, f as int, i as int),
            even == even_groups(data@, f as int, t.0, i as int),
        decreases count - i,
    {
        let s: (usize, usize) = read_sampling(data, f, i);
        if !((s.0 == 1 || s.0 == 2 || s.0 == 4) && 1 <= s.1 && s.1 <= 4) {
            proof {
                if all_sampled(data@, f as int, count as int) {
                    sampled_is_sampled(data@, f as int, count as int, i as int);
                }
            }
            return false;
        }
        let across: usize = top.0 / s.0;
        let down: usize = top.1 / s.1;
        assert(across <= 15 && down <= 15) by (nonlinear_arith)
            requires
                across == top.0 / s.0,
                down == top.1 / s.1,
                1 <= s.0,
                1 <= s.1,
                top.0 <= 15,
                top.1 <= 15,
        ;
        assert(0 <= across * down <= 225) by (nonlinear_arith)
            requires
                0 <= across <= 15,
                0 <= down <= 15,
        ;
        if down == 2 && across <= 2 {
            half = true;
        }
        if across * down > 8 {
            rough = true;
        }
        if across == 2 && down == 2 {
            quarter = true;
        }
        if s.0 > wide {
            wide = s.0;
        }
        if s.1 > high {
            high = s.1;
        }
        if count_parts(width, wide) != all {
            even = false;
        }
        i += 1;
    }
    let first: (usize, usize) = read_sampling(data, f, 0);
    (!head.staged && whole || first.0 == top.0 || !quarter && (head.staged || even)) && !(half
        && rough)
}

fn count_parts(n: u16, step: usize) -> (r: u64)
    requires
        1 <= step <= 15,
    ensures
        r == parts_of(n as int, step as int),
        r <= 0x2000,
{
    let wide: u64 = 8 * step as u64;
    let sum: u64 = n as u64 + wide - 1;
    assert(sum / wide <= 0x2000) by (nonlinear_arith)
        requires
            sum <= 0xFFFF + wide - 1,
            wide >= 8,
    ;
    sum / wide
}

fn count_groups(data: &[u8], n: u8, head: JpegHead) -> (r: (u64, u64))
    requires
        n == 1 || n == 3 || n == 4,
        head.frame + 10 + 3 * n <= data@.len(),
    ensures
        (r.0 as int, r.1 as int) == groups(data@, n, head),
        r.0 <= 0x2000,
        r.1 <= 0x2000,
{
    let total: usize = data.len();
    let f: usize = head.frame;
    assert(f + 10 + 3 * n <= total);
    let (h, v): (usize, usize) = if n == 1 {
        (1, 1)
    } else {
        read_top_sampling(data, f, n as usize)
    };
    (count_parts(read_pair(data, f + 7), h), count_parts(read_pair(data, f + 5), v))
}

fn count_pairs(data: &[u8], from: usize, m: u8) -> (r: u64)
    requires
        data@.len() <= 0x7FFF_FFFF,
    ensures
        r == pairs_from(data@, from as int, m),
        r <= data@.len(),
{
    let n: usize = data.len();
    if n < 2 || from > n - 2 {
        return 0;
    }
    let mut count: u64 = 0;
    let mut p: usize = n - 1;
    while p > from
        invariant
            2 <= n == data@.len() <= 0x7FFF_FFFF,
            from <= p < n,
            count == pairs_from(data@, p as int, m),
            count <= n - 1 - p,
        decreases p,
    {
        p -= 1;
        if data[p] == 0xFF && data[p + 1] == m {
            count += 1;
        }
    }
    count
}

proof fn product_of_four(a: int, b: int, c: int, q: int)
    requires
        0 <= a <= 0x38_4000_0000,
        0 <= b <= 0x8000_0000,
        0 <= c <= 0x8000,
        0 <= q <= 0xFFFF,
    ensures
        0 <= a * b <= 0x38_4000_0000 * 0x8000_0000,
        0 <= a * b * c <= 0x38_4000_0000 * 0x8000_0000 * 0x8000,
        0 <= a * b * c * q <= 0x38_4000_0000 * 0x8000_0000 * 0x8000 * 0xFFFF,
{
    assert(0 <= a * b <= 0x38_4000_0000 * 0x8000_0000) by (nonlinear_arith)
        requires
            0 <= a <= 0x38_4000_0000,
            0 <= b <= 0x8000_0000,
    ;
    let x = a * b;
    assert(0 <= x * c <= 0x38_4000_0000 * 0x8000_0000 * 0x8000) by (nonlinear_arith)
        requires
            0 <= x <= 0x38_4000_0000 * 0x8000_0000,
            0 <= c <= 0x8000,
    ;
    let y = x * c;
    assert(0 <= y * q <= 0x38_4000_0000 * 0x8000_0000 * 0x8000 * 0xFFFF) by (nonlinear_arith)
        requires
            0 <= y <= 0x38_4000_0000 * 0x8000_0000 * 0x8000,
            0 <= q <= 0xFFFF,
    ;
}

fn has_few_blocks(data: &[u8], n: u8, head: JpegHead, p: usize) -> (r: bool)
    requires
        n == 1 || n == 3 || n == 4,
        head.frame + 10 + 3 * n <= data@.len(),
        data@.len() <= 0x7FFF_FFFF,
        p + 5 <= data@.len(),
        head.size <= 15,
    ensures
        r == few_blocks(data@, n, head, p as int),
{
    let total: usize = data.len();
    let (across, down): (u64, u64) = count_groups(data, n, head);
    let (h, v): (usize, usize) = if n == 1 {
        (1, 1)
    } else {
        read_top_sampling(data, head.frame, n as usize)
    };
    assert(0 <= across * down <= 0x400_0000) by (nonlinear_arith)
        requires
            0 <= across <= 0x2000,
            0 <= down <= 0x2000,
    ;
    assert(1 <= h * v <= 225) by (nonlinear_arith)
        requires
            1 <= h <= 15,
            1 <= v <= 15,
    ;
    let area: u64 = across * down;
    let each: u64 = (h * v) as u64;
    assert(0 <= area * each <= 0x38_4000_0000) by (nonlinear_arith)
        requires
            0 <= area <= 0x400_0000,
            0 <= each <= 225,
    ;
    let blocks: u128 = (area * each) as u128;
    let scans: u128 = 1 + count_pairs(data, p + 2, 0xDA) as u128;
    let size: u8 = if count_pairs(data, p + 2, 0xC4) > 0 {
        15
    } else if head.moving && head.size < 11 {
        11
    } else {
        head.size
    };
    let step: u128 = power(size) as u128;
    let quant: u128 = head.quant as u128;
    proof {
        product_of_four(blocks as int, scans as int, step as int, quant as int);
    }
    blocks * scans * step * quant <= 0x7FFF_FFFF
}

fn find_component(data: &[u8], f: usize, n: u8, id: u8) -> (r: usize)
    requires
        n <= 4,
        f + 10 + 3 * n <= data@.len(),
    ensures
        r == component_named(data@, f as int, n, id, 0),
        r <= n,
{
    let total: usize = data.len();
    assert(f + 10 + 3 * n <= total);
    let count: usize = n as usize;
    let mut j: usize = 0;
    while j < count
        invariant
            j <= count == n,
            n <= 4,
            f + 10 + 3 * n <= total == data@.len(),
            component_named(data@, f as int, n, id, 0) == component_named(
                data@,
                f as int,
                n,
                id,
                j as int,
            ),
        decreases count - j,
    {
        if data[f + 10 + 3 * j] == id {
            return j;
        }
        j += 1;
    }
    count
}

/// A scan at `p` with `k` components lies in the data, and so does the frame.
spec fn scan_inside(d: Seq<u8>, p: int, n: u8, head: JpegHead) -> bool {
    &&& n == 1 || n == 3 || n == 4
    &&& 0 <= p
    &&& p + 5 <= d.len()
    &&& 1 <= d[p + 4] <= n
    &&& p + 8 + 2 * d[p + 4] <= d.len()
    &&& head.frame + 10 + 3 * n <= d.len()
    &&& limits_fit((head.size, head.quant))
}

fn read_part(data: &[u8], p: usize, n: u8, head: JpegHead, whole: bool, i: usize) -> (r: ScanPart)
    requires
        scan_inside(data@, p as int, n, head),
        i < data@[p + 4],
    ensures
        r == scan_part(data@, p as int, n, head, whole, i as int),
        r.comp <= n,
        r.blocks == if whole && n > 1 && r.comp < n {
            sampling(data@, head.frame as int, r.comp as int).0 * sampling(
                data@,
                head.frame as int,
                r.comp as int,
            ).1
        } else {
            1
        },
{
    let total: usize = data.len();
    let f: usize = head.frame;
    assert(p + 8 + 2 * data@[p + 4] <= total);
    let comp: usize = find_component(data, f, n, data[p + 5 + 2 * i]);
    let tables: usize = data[p + 6 + 2 * i] as usize;
    let blocks: usize = if whole && n > 1 && comp < n as usize {
        let (h, v): (usize, usize) = read_sampling(data, f, comp);
        assert(0 <= h * v <= 225) by (nonlinear_arith)
            requires
                0 <= h <= 15,
                0 <= v <= 15,
        ;
        h * v
    } else {
        1
    };
    ScanPart {
        comp,
        blocks,
        first: pick(head.firsts, (tables / 16) % 4),
        other: pick(head.others, (tables % 16) % 4),
    }
}

fn are_parts_new(data: &[u8], p: usize, n: u8, head: JpegHead, seen: Four) -> (r: bool)
    requires
        scan_inside(data@, p as int, n, head),
    ensures
        r == parts_new(data@, p as int, n, head, seen, data@[p + 4] as int),
{
    let total: usize = data.len();
    assert(p + 5 <= total);
    let k: usize = data[p + 4] as usize;
    let mut i: usize = 0;
    let mut fresh: bool = true;
    while i < k
        invariant
            i <= k == data@[p + 4],
            scan_inside(data@, p as int, n, head),
            fresh == parts_new(data@, p as int, n, head, seen, i as int),
        decreases k - i,
    {
        let part = read_part(data, p, n, head, false, i);
        if !(part.comp < n as usize && pick(seen, part.comp) == 0) {
            fresh = false;
        }
        i += 1;
    }
    fresh
}

fn add_parts(data: &[u8], p: usize, n: u8, head: JpegHead, before: Four) -> (r: Four)
    requires
        scan_inside(data@, p as int, n, head),
    ensures
        r == with_parts(data@, p as int, n, head, before, data@[p + 4] as int),
{
    let total: usize = data.len();
    assert(p + 5 <= total);
    let k: usize = data[p + 4] as usize;
    let mut i: usize = 0;
    let mut seen: Four = before;
    while i < k
        invariant
            i <= k == data@[p + 4],
            scan_inside(data@, p as int, n, head),
            seen == with_parts(data@, p as int, n, head, before, i as int),
        decreases k - i,
    {
        let part = read_part(data, p, n, head, false, i);
        seen = put(seen, part.comp, 1);
        i += 1;
    }
    seen
}

proof fn parts_are_new(d: Seq<u8>, p: int, n: u8, head: JpegHead, seen: Four, k: int, i: int)
    requires
        parts_new(d, p, n, head, seen, k),
        0 <= i < k,
    ensures
        scan_part(d, p, n, head, false, i).comp < n,
    decreases k,
{
    if i < k - 1 {
        parts_are_new(d, p, n, head, seen, k - 1, i);
    }
}

fn read_order(data: &[u8], p: usize, n: u8, head: JpegHead, whole: bool, Ghost(seen): Ghost<Four>) -> (r: Vec<
    ScanPart,
>)
    requires
        scan_inside(data@, p as int, n, head),
        parts_new(data@, p as int, n, head, seen, data@[p + 4] as int),
        n > 1 ==> all_sampled(data@, head.frame as int, n as int),
    ensures
        r@ == block_order(data@, p as int, n, head, whole, data@[p + 4] as int),
        order_fits(r@),
{
    let total: usize = data.len();
    assert(p + 5 <= total);
    let k: usize = data[p + 4] as usize;
    let mut order: Vec<ScanPart> = Vec::new();
    let mut i: usize = 0;
    assert(order@ =~= seq![]);
    while i < k
        invariant
            i <= k == data@[p + 4],
            scan_inside(data@, p as int, n, head),
            parts_new(data@, p as int, n, head, seen, k as int),
            n > 1 ==> all_sampled(data@, head.frame as int, n as int),
            order@ == block_order(data@, p as int, n, head, whole, i as int),
            i <= order@.len() <= 16 * i,
            forall|j: int| 0 <= j < order@.len() ==> (#[trigger] order@[j]).comp < 4,
        decreases k - i,
    {
        let part = read_part(data, p, n, head, whole, i);
        let ghost before = order@;
        proof {
            parts_are_new(data@, p as int, n, head, seen, k as int, i as int);
            assert(part.comp == scan_part(data@, p as int, n, head, false, i as int).comp);
            if whole && n > 1 {
                sampled_is_sampled(data@, head.frame as int, n as int, part.comp as int);
                let s = sampling(data@, head.frame as int, part.comp as int);
                assert(1 <= s.0 * s.1 <= 16) by (nonlinear_arith)
                    requires
                        1 <= s.0 <= 4,
                        1 <= s.1 <= 4,
                ;
                assert(part.blocks == s.0 * s.1);
            } else {
                assert(part.blocks == 1);
            }
        }
        let mut b: usize = 0;
        while b < part.blocks
            invariant
                b <= part.blocks <= 16,
                part.comp < 4,
                order@.len() == before.len() + b,
                order@ =~= before + Seq::new(b as nat, |x: int| part),
            decreases part.blocks - b,
        {
            order.push(part);
            b += 1;
        }
        assert(order@ =~= before + repeated(part));
        i += 1;
    }
    order
}

fn count_columns(data: &[u8], p: usize, n: u8, head: JpegHead, Ghost(seen): Ghost<Four>) -> (r: u64)
    requires
        scan_inside(data@, p as int, n, head),
        parts_new(data@, p as int, n, head, seen, data@[p + 4] as int),
    ensures
        r == columns(data@, p as int, n, head, data@[p + 4] as int),
        r <= 0x2000,
{
    let total: usize = data.len();
    let f: usize = head.frame;
    let k: usize = data[p + 4] as usize;
    assert(f + 10 + 3 * n <= total);
    let width: u64 = read_pair(data, f + 7) as u64;
    let top: (usize, usize) = read_top_sampling(data, f, n as usize);
    let part = read_part(data, p, n, head, false, 0);
    proof {
        parts_are_new(data@, p as int, n, head, seen, k as int, 0);
        top_is_top(data@, f as int, n as int, part.comp as int);
    }
    let own: u64 = read_sampling(data, f, part.comp).0 as u64;
    let wide: u64 = 8 * top.0 as u64;
    assert(0 <= width * own <= 0xFFFF * 15) by (nonlinear_arith)
        requires
            0 <= width <= 0xFFFF,
            0 <= own <= 15,
    ;
    let sum: u64 = width * own + wide - 1;
    let ghost h = top.0 as int;
    assert(width * own <= 0xFFFF * h) by (nonlinear_arith)
        requires
            0 <= width <= 0xFFFF,
            0 <= own <= h,
    ;
    assert(sum / wide <= 0x2000) by (nonlinear_arith)
        requires
            sum <= 0xFFFF * h + wide - 1,
            wide == 8 * h,
            h >= 1,
    ;
    let mut least: u64 = sum / wide;
    let mut i: usize = 1;
    while i < k
        invariant
            1 <= i <= k == data@[p + 4],
            scan_inside(data@, p as int, n, head),
            parts_new(data@, p as int, n, head, seen, k as int),
            f == head.frame,
            f + 10 + 3 * n <= total == data@.len(),
            width == pair_at(data@, f + 7),
            (top.0 as int, top.1 as int) == top_sampling(data@, f as int, n as int),
            1 <= top.0 <= 15,
            least <= 0x2000,
            least == columns(data@, p as int, n, head, i as int),
        decreases k - i,
    {
        let other = read_part(data, p, n, head, false, i);
        proof {
            parts_are_new(data@, p as int, n, head, seen, k as int, i as int);
        }
        let its: u64 = read_sampling(data, f, other.comp).0 as u64;
        let parts: u64 = count_parts(width as u16, top.0);
        assert(0 <= parts * its <= 0x2000 * 15) by (nonlinear_arith)
            requires
                0 <= parts <= 0x2000,
                0 <= its <= 15,
        ;
        let room: u64 = parts * its;
        if room < least {
            least = room;
        }
        i += 1;
    }
    least
}

enum Following {
    Scan(usize, JpegHead),
    End,
    Odd,
}

impl View for Following {
    type V = Behind;

    closed spec fn view(&self) -> Behind {
        match *self {
            Following::Scan(p, head) => Behind::Scan(p as int, head),
            Following::End => Behind::End,
            Following::Odd => Behind::Odd,
        }
    }
}

fn find_behind(data: &[u8], from: usize, n: u8, first: JpegHead) -> (r: Following)
    requires
        from <= data@.len(),
        limits_fit((first.size, first.quant)),
    ensures
        r@ == behind_from(data@, from as int, first),
        match r {
            Following::Scan(q, head) => from <= q && q + 4 <= data@.len() && head.frame
                == first.frame && limits_fit((head.size, head.quant)),
            _ => true,
        },
{
    let total: usize = data.len();
    let mut p: usize = from;
    let mut head: JpegHead = first;
    loop
        invariant
            from <= p <= total == data@.len(),
            head.frame == first.frame,
            limits_fit((head.size, head.quant)),
            behind_from(data@, from as int, first) == behind_from(data@, p as int, head),
        decreases total - p,
    {
        if total - p < 4 {
            return Following::Odd;
        }
        let m: u8 = data[p + 1];
        if m == 0xD9 {
            return Following::End;
        }
        let length: usize = read_length(data, p);
        if length < 2 || length > total - p - 2 {
            return Following::Odd;
        }
        if m == 0xDA {
            return Following::Scan(p, head);
        }
        if !(m == 0xC4 || m == 0xDB || m == 0xDD || m == 0xFE || 0xE0 <= m && m <= 0xEF) {
            return Following::Odd;
        }
        let next: usize = p + 2 + length;
        if m == 0xC4 {
            match read_codes(data, p + 4, next, head) {
                None => {
                    return Following::End;
                },
                Some(after) => {
                    head = after;
                },
            }
        } else if m == 0xDD && length == 4 {
            head = JpegHead { restart: read_pair(data, p + 4), ..head };
        }
        let q: usize = find_marker(data, next);
        if q >= total {
            return Following::End;
        }
        p = q;
    }
}

fn is_followed(data: &[u8], first: usize, n: u8, start: JpegHead, whole: bool) -> (r: bool)
    requires
        n == 1 || n == 3 || n == 4,
        first + 5 <= data@.len() <= 0x7FFF_FFFF,
        start.frame + 10 + 3 * n <= data@.len(),
        limits_fit((start.size, start.quant)),
        n > 1 ==> all_sampled(data@, start.frame as int, n as int),
    ensures
        r == followed_from(data@, first as int, n, start, whole, (0, 0, 0, 0)),
{
    let total: usize = data.len();
    let mut p: usize = first;
    let mut head: JpegHead = start;
    let mut seen: Four = (0, 0, 0, 0);
    let ghost goal = followed_from(data@, first as int, n, start, whole, (0, 0, 0, 0));
    loop
        invariant
            n == 1 || n == 3 || n == 4,
            p + 4 <= total == data@.len(),
            total <= 0x7FFF_FFFF,
            head.frame + 10 + 3 * n <= data@.len(),
            limits_fit((head.size, head.quant)),
            n > 1 ==> all_sampled(data@, head.frame as int, n as int),
            goal == followed_from(data@, first as int, n, start, whole, (0, 0, 0, 0)),
            goal == followed_from(data@, p as int, n, head, whole, seen),
        decreases total - p,
    {
        if total - p < 5 {
            return false;
        }
        let length: usize = read_pair(data, p + 2) as usize;
        let k: usize = data[p + 4] as usize;
        if k < 1 || k > n as usize || length != 6 + 2 * k || length > total - p - 2 {
            return false;
        }
        if !are_parts_new(data, p, n, head, seen) {
            return false;
        }
        let order = read_order(data, p, n, head, whole, Ghost(seen));
        let (across, down): (u64, u64) = count_groups(data, n, head);
        let columns_now: u64 = if whole {
            across
        } else {
            count_columns(data, p, n, head, Ghost(seen))
        };
        assert(0 <= columns_now * down <= 0x400_0000) by (nonlinear_arith)
            requires
                0 <= columns_now <= 0x2000,
                0 <= down <= 0x2000,
        ;
        let count: u64 = columns_now * down;
        if !whole && head.restart > 0 && count % (head.restart as u64) != 0 {
            return false;
        }
        let found = find_scan_end(
            data,
            &order,
            (head.size, head.quant),
            head.restart as u64,
            p + 2 + length,
            count,
        );
        match found {
            None => {
                return false;
            },
            Some((next, m)) => {
                if m != 0xDA && !(m == 0xC4 || m == 0xDB || m == 0xDD || m == 0xFE || 0xE0 <= m
                    && m <= 0xEF) {
                    return true;
                }
                match find_behind(data, next - 2, n, head) {
                    Following::Odd => {
                        return false;
                    },
                    Following::End => {
                        return true;
                    },
                    Following::Scan(q, after) => {
                        if whole {
                            return m == 0xDA;
                        }
                        seen = add_parts(data, p, n, head, seen);
                        p = q;
                        head = after;
                    },
                }
            },
        }
    }
}

/// Decides whether the samples of an image can be decoded.
pub fn is_decodable(data: &[u8], n: u8) -> (r: bool)
    ensures
        r == decodable(data@, n),
{
    if !(n == 1 || n == 3 || n == 4) || data.len() > 0x7FFF_FFFF || data.len() < 2 {
        return false;
    }
    match read_head(data, n) {
        None => false,
        Some((head, p)) => {
            let whole: bool = data[p + 4] == n;
            if !does_sampling_fit(data, n, head, whole) {
                return false;
            }
            if head.named && (head.staged || data[head.frame + 11] != 0x11) {
                return false;
            }
            head.staged || has_few_blocks(data, n, head, p) || !head.moving && is_followed(
                data,
                p,
                n,
                head,
                whole,
            )
        },
    }
}

} // verus!
