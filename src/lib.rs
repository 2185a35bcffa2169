//! Pixel sorting: partition each row of an image into disjoint column
//! intervals and stably reorder the pixels inside each interval by a key.
use std::ops::Range;
use vstd::prelude::*;

pub mod interval;
pub mod options;
pub mod raster;
pub mod sorting;

use crate::interval::{covers, valid_ranges, IntervalSet};
use crate::raster::RgbaRaster;
use crate::sorting::{sort_key, SortingMode};

verus! {

/// `(ka, ia)` comes before `(kb, ib)`: a smaller key, or an equal key and an
/// earlier position.
pub open spec fn key_then_index_lt(ka: int, ia: int, kb: int, ib: int) -> bool {
    ka < kb || (ka == kb && ia < ib)
}

/// `perm` lists the positions of `orig` in the order in which `sorted` holds
/// them, ascending by `keys` (one per position of `orig`) and, among equal
/// keys, by position.
pub open spec fn stable_order(
    orig: Seq<[u8; 4]>,
    keys: Seq<u32>,
    sorted: Seq<[u8; 4]>,
    perm: Seq<int>,
) -> bool {
    &&& perm.len() == orig.len()
    &&& sorted.len() == orig.len()
    &&& forall|k: int|
        0 <= k < perm.len() ==> 0 <= #[trigger] perm[k] < orig.len() && sorted[k] == orig[perm[k]]
    &&& forall|j: int, k: int|
        0 <= j < k < perm.len() ==> key_then_index_lt(
            keys[#[trigger] perm[j]] as int,
            perm[j],
            keys[#[trigger] perm[k]] as int,
            perm[k],
        )
}

/// `sorted` is the stable sort of `orig` by `keys`.
pub open spec fn is_stable_sort_by(orig: Seq<[u8; 4]>, keys: Seq<u32>, sorted: Seq<[u8; 4]>) -> bool {
    exists|perm: Seq<int>| stable_order(orig, keys, sorted, perm)
}

/// The key of each pixel under `mode`.
pub open spec fn keys_of(orig: Seq<[u8; 4]>, mode: SortingMode) -> Seq<u32> {
    Seq::new(orig.len(), |i: int| sort_key(mode, orig[i]) as u32)
}

/// `sorted` is the stable sort of `orig` by the key of `mode`.
pub open spec fn is_stable_sort(orig: Seq<[u8; 4]>, sorted: Seq<[u8; 4]>, mode: SortingMode) -> bool {
    is_stable_sort_by(orig, keys_of(orig, mode), sorted)
}

/// After sorting, each range of `ranges` holds the stable sort of what it held
/// before, and every other column of the row is unchanged.
pub open spec fn row_sorted(
    orig: Seq<[u8; 4]>,
    sorted: Seq<[u8; 4]>,
    ranges: Seq<Range<usize>>,
    mode: SortingMode,
) -> bool {
    &&& sorted.len() == orig.len()
    &&& forall|k: int|
        0 <= k < ranges.len() ==> is_stable_sort(
            orig.subrange((#[trigger] ranges[k]).start as int, ranges[k].end as int),
            sorted.subrange(ranges[k].start as int, ranges[k].end as int),
            mode,
        )
    &&& forall|x: int| 0 <= x < orig.len() && !covers(ranges, x) ==> sorted[x] == orig[x]
}

/// Every range of the rows that the image has ends within the image width.
pub open spec fn intervals_fit(image: RgbaRaster, intervals: Seq<IntervalSet>) -> bool {
    forall|y: int, k: int|
        0 <= y < intervals.len() && y < image.rows@.len() && 0 <= k < intervals[y]@.len()
            ==> (#[trigger] intervals[y]@[k]).end <= image.width
}

/// The ranges that sorting applies to row `y`: none for rows past the list.
pub open spec fn row_ranges(intervals: Seq<IntervalSet>, y: int) -> Seq<Range<usize>> {
    if y < intervals.len() {
        intervals[y]@
    } else {
        Seq::empty()
    }
}

/// Why sorting refused to touch the image.
#[derive(Clone, Copy, Debug, PartialEq, Eq, Structural)]
pub enum SortError {
    /// A range of some row ends past the image width.
    OutOfBounds,
}

/// `stable_order`, with `sorted_keys` holding the keys in the sorted order.
pub open spec fn stable_order_keyed(
    orig: Seq<[u8; 4]>,
    keys: Seq<u32>,
    sorted: Seq<[u8; 4]>,
    sorted_keys: Seq<u32>,
    perm: Seq<int>,
) -> bool {
    &&& stable_order(orig, keys, sorted, perm)
    &&& sorted_keys.len() == keys.len()
    &&& forall|k: int| 0 <= k < perm.len() ==> sorted_keys[k] == keys[#[trigger] perm[k]]
}

/// Sorts `pixels` stably by `keys`, where `keys[i]` is the key of the pixel
/// at position `i`. Both are reordered in place, together.
pub fn sort_by_keys(pixels: &mut Vec<[u8; 4]>, keys: &mut Vec<u32>)
    requires
        old(keys)@.len() == old(pixels)@.len(),
    ensures
        is_stable_sort_by(old(pixels)@, old(keys)@, final(pixels)@),
        exists|perm: Seq<int>|
            #[trigger] stable_order_keyed(
                old(pixels)@,
                old(keys)@,
                final(pixels)@,
                final(keys)@,
                perm,
            ),
{
    let ghost orig = pixels@;
    let ghost ks = keys@;
    let n = pixels.len();
    let ghost mut perm: Seq<int> = Seq::empty();
    let mut i: usize = 0;
    while i < n
        invariant
            n == orig.len(),
            ks.len() == n,
            pixels@.len() == n,
            keys@.len() == n,
            i <= n,
            perm.len() == i,
            forall|k: int| i <= k < n ==> pixels@[k] == orig[k] && keys@[k] == ks[k],
            forall|k: int|
                0 <= k < i ==> 0 <= #[trigger] perm[k] < i && pixels@[k] == orig[perm[k]]
                    && keys@[k] == ks[perm[k]],
            forall|j: int, k: int|
                0 <= j < k < i ==> key_then_index_lt(
                    ks[#[trigger] perm[j]] as int,
                    perm[j],
                    ks[#[trigger] perm[k]] as int,
                    perm[k],
                ),
        decreases n - i,
    {
        let kp = keys[i];
        let mut j: usize = 0;
        while j < i && keys[j] <= kp
            invariant
                j <= i,
                i < keys@.len(),
                forall|m: int| 0 <= m < j ==> keys@[m] <= kp,
            decreases i - j,
        {
            j += 1;
        }
        proof {
            assert forall|m: int| j <= m < i implies keys@[m] > kp by {
                if m > j {
                    assert(key_then_index_lt(
                        ks[perm[j as int]] as int,
                        perm[j as int],
                        ks[perm[m]] as int,
                        perm[m],
                    ));
                }
            }
        }
        let ghost old_perm = perm;
        let ghost old_keys = keys@;
        let ghost old_pixels = pixels@;
        let p = pixels.remove(i);
        pixels.insert(j, p);
        let k = keys.remove(i);
        keys.insert(j, k);
        proof {
            perm = perm.insert(j as int, i as int);
            assert forall|m: int| i + 1 <= m < n implies pixels@[m] == orig[m] && keys@[m] == ks[m] by {
                assert(pixels@[m] == old_pixels[m]);
                assert(keys@[m] == old_keys[m]);
            }
            assert forall|m: int| 0 <= m < i + 1 implies 0 <= #[trigger] perm[m] < i + 1
                && pixels@[m] == orig[perm[m]] && keys@[m] == ks[perm[m]] by {
                if m > j {
                    assert(perm[m] == old_perm[m - 1]);
                    assert(pixels@[m] == old_pixels[m - 1]);
                    assert(keys@[m] == old_keys[m - 1]);
                } else if m < j {
                    assert(pixels@[m] == old_pixels[m]);
                    assert(keys@[m] == old_keys[m]);
                }
            }
            assert forall|a: int, b: int| 0 <= a < b < i + 1 implies key_then_index_lt(
                ks[#[trigger] perm[a]] as int,
                perm[a],
                ks[#[trigger] perm[b]] as int,
                perm[b],
            ) by {
                if a < j && b == j {
                    assert(old_keys[a] <= kp);
                    assert(perm[a] == old_perm[a]);
                } else if a == j && b > j {
                    assert(old_keys[b - 1] > kp);
                    assert(perm[b] == old_perm[b - 1]);
                } else if a < j && b > j {
                    assert(perm[a] == old_perm[a]);
                    assert(perm[b] == old_perm[b - 1]);
                } else if a > j {
                    assert(perm[a] == old_perm[a - 1]);
                    assert(perm[b] == old_perm[b - 1]);
                } else {
                    assert(perm[a] == old_perm[a]);
                    assert(perm[b] == old_perm[b]);
                }
            }
        }
        i += 1;
    }
    proof {
        assert(stable_order_keyed(orig, ks, pixels@, keys@, perm));
        assert(stable_order(orig, ks, pixels@, perm));
    }
}

/// Stable sort of `buf` by the key of `mode`; `keys` is scratch space for
/// the keys, refilled on each call.
fn sort_scratch(buf: &mut Vec<[u8; 4]>, keys: &mut Vec<u32>, mode: SortingMode)
    ensures
        is_stable_sort(old(buf)@, final(buf)@, mode),
{
    keys.clear();
    let mut i: usize = 0;
    while i < buf.len()
        invariant
            i <= buf@.len(),
            keys@.len() == i,
            forall|k: int| 0 <= k < i ==> keys@[k] == #[trigger] keys_of(buf@, mode)[k],
        decreases buf@.len() - i,
    {
        keys.push(mode.function(&buf[i]));
        i += 1;
    }
    proof {
        assert(keys@ =~= keys_of(buf@, mode));
    }
    sort_by_keys(buf, keys);
}

/// Sorts each range of one row in place, reusing `scratch` for the pixels of
/// one range at a time.
fn sort_row(
    row: &mut Vec<[u8; 4]>,
    ranges: &[Range<usize>],
    mode: SortingMode,
    scratch: &mut Vec<[u8; 4]>,
    key_scratch: &mut Vec<u32>,
)
    requires
        valid_ranges(ranges@),
        forall|k: int| 0 <= k < ranges@.len() ==> (#[trigger] ranges@[k]).end <= old(row)@.len(),
    ensures
        row_sorted(old(row)@, final(row)@, ranges@, mode),
{
    let ghost orig = row@;
    let mut k: usize = 0;
    while k < ranges.len()
        invariant
            valid_ranges(ranges@),
            forall|m: int| 0 <= m < ranges@.len() ==> (#[trigger] ranges@[m]).end <= orig.len(),
            k <= ranges@.len(),
            row@.len() == orig.len(),
            forall|m: int|
                0 <= m < k ==> is_stable_sort(
                    orig.subrange((#[trigger] ranges@[m]).start as int, ranges@[m].end as int),
                    row@.subrange(ranges@[m].start as int, ranges@[m].end as int),
                    mode,
                ),
            forall|x: int|
                0 <= x < orig.len() && !(exists|m: int|
                    0 <= m < k && (#[trigger] ranges@[m]).start <= x && x < ranges@[m].end)
                    ==> row@[x] == orig[x],
        decreases ranges@.len() - k,
    {
        let start = ranges[k].start;
        let end = ranges[k].end;
        proof {
            assert(start < end);
        }
        scratch.clear();
        let mut x: usize = start;
        while x < end
            invariant
                start <= x <= end,
                end <= row@.len(),
                scratch@ == row@.subrange(start as int, x as int),
            decreases end - x,
        {
            scratch.push(row[x]);
            proof {
                assert(scratch@ =~= row@.subrange(start as int, x + 1));
            }
            x += 1;
        }
        proof {
            assert forall|x: int| start <= x < end implies row@[x] == orig[x] by {
                assert forall|m: int| 0 <= m < k implies !((#[trigger] ranges@[m]).start <= x
                    && x < ranges@[m].end) by {
                    assert(ranges@[m].end <= ranges@[k as int].start);
                }
            }
            assert(row@.subrange(start as int, end as int) =~= orig.subrange(
                start as int,
                end as int,
            ));
        }
        sort_scratch(scratch, key_scratch, mode);
        let ghost before = row@;
        let mut x: usize = start;
        while x < end
            invariant
                start <= x <= end,
                end <= row@.len(),
                row@.len() == before.len(),
                scratch@.len() == end - start,
                forall|z: int| 0 <= z < row@.len() && !(start <= z < x) ==> row@[z] == before[z],
                forall|z: int| start <= z < x ==> row@[z] == scratch@[z - start],
            decreases end - x,
        {
            row.set(x, scratch[x - start]);
            x += 1;
        }
        proof {
            assert(row@.subrange(start as int, end as int) =~= scratch@);
            assert forall|m: int| 0 <= m < k + 1 implies is_stable_sort(
                orig.subrange((#[trigger] ranges@[m]).start as int, ranges@[m].end as int),
                row@.subrange(ranges@[m].start as int, ranges@[m].end as int),
                mode,
            ) by {
                if m < k {
                    assert(ranges@[m].end <= start);
                    assert(row@.subrange(ranges@[m].start as int, ranges@[m].end as int)
                        =~= before.subrange(ranges@[m].start as int, ranges@[m].end as int));
                }
            }
            assert forall|z: int|
                0 <= z < orig.len() && !(exists|m: int|
                    0 <= m < k + 1 && (#[trigger] ranges@[m]).start <= z && z < ranges@[m].end)
                    implies row@[z] == orig[z] by {
                assert(!(start <= z < end)) by {
                    if start <= z < end {
                        assert(ranges@[k as int].start <= z && z < ranges@[k as int].end);
                    }
                }
            }
        }
        k += 1;
    }
    proof {
        assert forall|x: int| 0 <= x < orig.len() && !covers(ranges@, x) implies row@[x]
            == orig[x] by {
            if exists|m: int| 0 <= m < k && (#[trigger] ranges@[m]).start <= x && x < ranges@[m].end {
                let m = choose|m: int|
                    0 <= m < k && (#[trigger] ranges@[m]).start <= x && x < ranges@[m].end;
                assert(covers(ranges@, x));
            }
        }
    }
}

/// Sorts the pixels of every range of every row by the key of `mode`,
/// stably, in place. Rows past the image height are ignored, rows past the
/// list are left as they are. When some range ends past the image width the
/// image is left untouched and `OutOfBounds` is returned.
pub fn sort_image(
    image: &mut RgbaRaster,
    intervals: Vec<IntervalSet>,
    mode: SortingMode,
) -> (r: Result<(), SortError>)
    requires
        old(image).wf(),
        forall|y: int| 0 <= y < intervals@.len() ==> (#[trigger] intervals@[y]).wf(),
    ensures
        r is Err <==> !intervals_fit(*old(image), intervals@),
        r is Err ==> final(image).width == old(image).width && final(image).rows@ == old(
            image,
        ).rows@,
        r is Ok ==> {
            &&& final(image).width == old(image).width
            &&& final(image).rows@.len() == old(image).rows@.len()
            &&& forall|y: int|
                0 <= y < old(image).rows@.len() ==> row_sorted(
                    (#[trigger] old(image).rows@[y])@,
                    final(image).rows@[y]@,
                    row_ranges(intervals@, y),
                    mode,
                )
        },
{
    let height = image.rows.len();
    let count = if intervals.len() < height {
        intervals.len()
    } else {
        height
    };
    let mut y: usize = 0;
    while y < count
        invariant
            count <= intervals@.len(),
            count <= image.rows@.len(),
            *image == *old(image),
            y <= count,
            forall|yy: int, k: int|
                0 <= yy < y && 0 <= k < intervals@[yy]@.len() ==> (#[trigger] intervals@[yy]@[k]).end
                    <= image.width,
        decreases count - y,
    {
        let ranges = intervals[y].iter();
        let mut k: usize = 0;
        while k < ranges.len()
            invariant
                y < count,
                count <= intervals@.len(),
                count <= image.rows@.len(),
                *image == *old(image),
                ranges@ == intervals@[y as int]@,
                k <= ranges@.len(),
                forall|m: int| 0 <= m < k ==> (#[trigger] ranges@[m]).end <= image.width,
            decreases ranges@.len() - k,
        {
            if ranges[k].end > image.width {
                proof {
                    assert(intervals@[y as int]@[k as int].end > image.width);
                }
                return Err(SortError::OutOfBounds);
            }
            k += 1;
        }
        y += 1;
    }
    let ghost orig = image.rows@;
    let mut scratch: Vec<[u8; 4]> = Vec::new();
    let mut key_scratch: Vec<u32> = Vec::new();
    let mut y: usize = 0;
    while y < count
        invariant
            count <= intervals@.len(),
            count <= orig.len(),
            count == intervals@.len() || count == orig.len(),
            y <= count,
            image.rows@.len() == orig.len(),
            forall|yy: int| 0 <= yy < intervals@.len() ==> (#[trigger] intervals@[yy]).wf(),
            forall|yy: int| 0 <= yy < orig.len() ==> (#[trigger] orig[yy])@.len() == image.width,
            intervals_fit(*old(image), intervals@),
            old(image).rows@ == orig,
            old(image).width == image.width,
            forall|yy: int|
                0 <= yy < y ==> row_sorted(
                    (#[trigger] orig[yy])@,
                    image.rows@[yy]@,
                    row_ranges(intervals@, yy),
                    mode,
                ),
            forall|yy: int| y <= yy < orig.len() ==> (#[trigger] image.rows@[yy]) == orig[yy],
        decreases count - y,
    {
        let mut row: Vec<[u8; 4]> = Vec::new();
        std::mem::swap(&mut row, &mut image.rows[y]);
        proof {
            assert(row@ == orig[y as int]@);
            assert forall|k: int| 0 <= k < intervals@[y as int]@.len() implies (
            #[trigger] intervals@[y as int]@[k]).end <= row@.len() by {
                assert(intervals@[y as int]@[k].end <= image.width);
            }
        }
        sort_row(&mut row, intervals[y].iter(), mode, &mut scratch, &mut key_scratch);
        let ghost mid = image.rows@;
        std::mem::swap(&mut row, &mut image.rows[y]);
        proof {
            assert forall|yy: int| 0 <= yy < y + 1 implies row_sorted(
                (#[trigger] orig[yy])@,
                image.rows@[yy]@,
                row_ranges(intervals@, yy),
                mode,
            ) by {
                if yy < y {
                    assert(image.rows@[yy] == mid[yy]);
                }
            }
        }
        y += 1;
    }
    proof {
        assert forall|yy: int| 0 <= yy < orig.len() implies row_sorted(
            (#[trigger] orig[yy])@,
            image.rows@[yy]@,
            row_ranges(intervals@, yy),
            mode,
        ) by {
            if yy >= count {
                assert(yy >= intervals@.len());
                assert(image.rows@[yy] == orig[yy]);
                assert(row_ranges(intervals@, yy) =~= Seq::<Range<usize>>::empty());
            }
        }
    }
    Ok(())
}

} // verus!
