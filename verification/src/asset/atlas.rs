//! Packing images into one atlas with a greedy shelf algorithm: images go
//! tallest first, left to right along a shelf; when the next image does not
//! fit on the shelf, a new shelf starts below the tallest image of the
//! last one.

use vstd::prelude::*;
use crate::asset::image::Image;

verus! {

/// Why images do not fit an atlas.
#[derive(Clone, Copy, Debug, PartialEq, Eq, Structural)]
pub enum AtlasError {
    /// Image `index` is wider or taller than the atlas itself.
    TooLarge(usize),
    /// Image `index` would start on a shelf at `y` and run past the
    /// bottom.
    Overflow(usize, u64),
}

/// `order` with `i` placed after every index whose height is at least
/// `i`'s and before the shorter ones at its end.
pub open spec fn insert_by_height(order: Seq<int>, i: int, heights: Seq<u32>) -> Seq<int>
    decreases order.len(),
{
    if order.len() == 0 {
        seq![i]
    } else if heights[order.last()] >= heights[i] {
        order.push(i)
    } else {
        insert_by_height(order.drop_last(), i, heights).push(order.last())
    }
}

/// The indices `0..n`, tallest first; equal heights keep their order (a
/// stable sort by descending height).
pub open spec fn height_order(heights: Seq<u32>, n: nat) -> Seq<int>
    decreases n,
{
    if n == 0 {
        Seq::empty()
    } else {
        insert_by_height(height_order(heights, (n - 1) as nat), n - 1, heights)
    }
}

/// Where the images in `order` from the `k`-th on go, given the current
/// shelf's top `y`, its height so far `shelf_h` and the next free column
/// `cx`; `pos` holds the places found so far, by image index.
pub open spec fn shelf_place(
    sizes: Seq<(u32, u32)>,
    order: Seq<int>,
    k: int,
    y: int,
    shelf_h: int,
    cx: int,
    pos: Seq<(u32, u32)>,
    max_w: int,
    max_h: int,
) -> Result<Seq<(u32, u32)>, AtlasError>
    decreases order.len() - k,
{
    if k < 0 || k >= order.len() {
        Ok(pos)
    } else {
        let idx = order[k];
        let w = sizes[idx].0 as int;
        let h = sizes[idx].1 as int;
        if w > max_w || h > max_h {
            Err(AtlasError::TooLarge(idx as usize))
        } else {
            let new_shelf = cx + w > max_w;
            let y2 = if new_shelf { y + shelf_h } else { y };
            let sh2 = if new_shelf { 0 } else { shelf_h };
            let cx2 = if new_shelf { 0 } else { cx };
            if y2 + h > max_h {
                Err(AtlasError::Overflow(idx as usize, y2 as u64))
            } else {
                shelf_place(
                    sizes,
                    order,
                    k + 1,
                    y2,
                    if sh2 >= h { sh2 } else { h },
                    cx2 + w,
                    pos.update(idx, (cx2 as u32, y2 as u32)),
                    max_w,
                    max_h,
                )
            }
        }
    }
}

/// The place of every image, by index: the images of size `sizes` packed
/// into a `max_w` by `max_h` atlas, or the first image that does not fit.
pub open spec fn pack_spec(sizes: Seq<(u32, u32)>, max_w: int, max_h: int) -> Result<Seq<(u32, u32)>, AtlasError> {
    shelf_place(
        sizes,
        height_order(sizes.map_values(|s: (u32, u32)| s.1), sizes.len()),
        0,
        0,
        0,
        0,
        Seq::new(sizes.len(), |i: int| (0u32, 0u32)),
        max_w,
        max_h,
    )
}

proof fn lemma_insert_by_height(order: Seq<int>, i: int, heights: Seq<u32>, pos: int)
    requires
        0 <= pos <= order.len(),
        forall|j: int| pos <= j < order.len() ==> heights[#[trigger] order[j]] < heights[i],
        pos > 0 ==> heights[order[pos - 1]] >= heights[i],
    ensures
        insert_by_height(order, i, heights) == order.insert(pos, i),
    decreases order.len(),
{
    if order.len() == 0 {
        assert(order.insert(pos, i) =~= seq![i]);
    } else if pos == order.len() {
        assert(order.insert(pos, i) =~= order.push(i));
    } else {
        let d = order.drop_last();
        assert forall|j: int| pos <= j < d.len() implies heights[#[trigger] d[j]] < heights[i] by {
            assert(d[j] == order[j]);
        }
        if pos > 0 {
            assert(d[pos - 1] == order[pos - 1]);
        }
        assert(heights[order[order.len() - 1]] < heights[i]);
        lemma_insert_by_height(d, i, heights, pos);
        assert(d.insert(pos, i).push(order.last()) =~= order.insert(pos, i));
    }
}

/// Indices `0..n` in stable descending order of `heights`.
fn sort_by_height(heights: &[u32]) -> (order: Vec<usize>)
    ensures
        order@.map_values(|i: usize| i as int) == height_order(heights@, heights@.len()),
{
    let n = heights.len();
    let mut order: Vec<usize> = Vec::new();
    let mut i: usize = 0;
    proof {
        assert(order@.map_values(|i: usize| i as int) =~= height_order(heights@, 0));
    }
    while i < n
        invariant
            i <= n,
            n == heights@.len(),
            order@.len() == i,
            forall|j: int| 0 <= j < order@.len() ==> #[trigger] order@[j] < i,
            order@.map_values(|i: usize| i as int) == height_order(heights@, i as nat),
        decreases n - i,
    {
        let ghost before = order@.map_values(|i: usize| i as int);
        let mut pos: usize = order.len();
        while pos > 0 && heights[order[pos - 1]] < heights[i]
            invariant
                pos <= order@.len(),
                order@.len() == i,
                n == heights@.len(),
                i < n,
                forall|j: int| 0 <= j < order@.len() ==> #[trigger] order@[j] < i,
                forall|j: int| pos <= j < order@.len() ==> heights@[#[trigger] order@[j] as int] < heights@[i as int],
            decreases pos,
        {
            pos = pos - 1;
        }
        order.insert(pos, i);
        proof {
            assert forall|j: int| pos <= j < before.len() implies heights@[#[trigger] before[j]] < heights@[i as int] by {
                assert(before[j] == order@[j + 1] as int);
            }
            if pos > 0 {
                assert(before[pos - 1] == order@[pos - 1] as int);
            }
            lemma_insert_by_height(before, i as int, heights@, pos as int);
            assert(order@.map_values(|i: usize| i as int) =~= before.insert(pos as int, i as int));
        }
        i = i + 1;
    }
    order
}

/// The widths and heights of `images`.
pub open spec fn image_sizes(images: Seq<Image>) -> Seq<(u32, u32)> {
    images.map_values(|img: Image| (img.width, img.height))
}

/// Where each image goes in a `max_width` by `max_height` atlas, by image
/// index, or the first image, in packing order, that does not fit.
pub fn pack_positions(images: &[Image], max_width: u32, max_height: u32) -> (r: Result<Vec<(u32, u32)>, AtlasError>)
    ensures
        match r {
            Ok(pos) => pack_spec(image_sizes(images@), max_width as int, max_height as int) == Ok::<Seq<(u32, u32)>, AtlasError>(pos@),
            Err(e) => pack_spec(image_sizes(images@), max_width as int, max_height as int) == Err::<Seq<(u32, u32)>, AtlasError>(e),
        },
{
    let n = images.len();
    let ghost sizes = image_sizes(images@);
    let mut heights: Vec<u32> = Vec::new();
    let mut i: usize = 0;
    while i < n
        invariant
            i <= n,
            n == images@.len(),
            sizes == image_sizes(images@),
            heights@ == sizes.map_values(|s: (u32, u32)| s.1).subrange(0, i as int),
        decreases n - i,
    {
        heights.push(images[i].height);
        i = i + 1;
        proof {
            assert(heights@ =~= sizes.map_values(|s: (u32, u32)| s.1).subrange(0, i as int));
        }
    }
    proof {
        assert(heights@ =~= sizes.map_values(|s: (u32, u32)| s.1));
    }
    let order = sort_by_height(heights.as_slice());
    let ghost ord = order@.map_values(|i: usize| i as int);
    let mut pos: Vec<(u32, u32)> = Vec::new();
    let mut j: usize = 0;
    while j < n
        invariant
            j <= n,
            pos@.len() == j,
            forall|k: int| 0 <= k < j ==> #[trigger] pos@[k] == (0u32, 0u32),
        decreases n - j,
    {
        pos.push((0u32, 0u32));
        j = j + 1;
    }
    proof {
        assert(pos@ =~= Seq::new(sizes.len(), |i: int| (0u32, 0u32)));
        lemma_height_order_perm(heights@, n as nat);
    }
    let ghost goal = pack_spec(sizes, max_width as int, max_height as int);
    let mut y: u64 = 0;
    let mut shelf_h: u64 = 0;
    let mut cx: u64 = 0;
    let mut k: usize = 0;
    while k < n
        invariant
            k <= n,
            n == images@.len(),
            sizes == image_sizes(images@),
            ord == order@.map_values(|i: usize| i as int),
            ord.len() == n,
            forall|a: int| 0 <= a < n ==> 0 <= #[trigger] ord[a] < n,
            pos@.len() == n,
            cx <= max_width,
            y <= max_height,
            shelf_h <= max_height,
            goal == shelf_place(sizes, ord, k as int, y as int, shelf_h as int, cx as int, pos@, max_width as int, max_height as int),
            goal == pack_spec(image_sizes(images@), max_width as int, max_height as int),
        decreases n - k,
    {
        let idx = order[k];
        proof {
            assert(ord[k as int] == idx as int);
            assert(sizes[idx as int] == (images@[idx as int].width, images@[idx as int].height));
        }
        let w = images[idx].width as u64;
        let h = images[idx].height as u64;
        if w > max_width as u64 || h > max_height as u64 {
            return Err(AtlasError::TooLarge(idx));
        }
        if cx + w > max_width as u64 {
            y = y + shelf_h;
            shelf_h = 0;
            cx = 0;
        }
        if y + h > max_height as u64 {
            return Err(AtlasError::Overflow(idx, y));
        }
        pos.set(idx, (cx as u32, y as u32));
        if shelf_h < h {
            shelf_h = h;
        }
        cx = cx + w;
        k = k + 1;
    }
    proof {
        assert(goal == Ok::<Seq<(u32, u32)>, AtlasError>(pos@));
    }
    Ok(pos)
}

proof fn lemma_insert_contents(order: Seq<int>, i: int, heights: Seq<u32>)
    ensures
        insert_by_height(order, i, heights).len() == order.len() + 1,
        forall|x: int| #[trigger] insert_by_height(order, i, heights).contains(x) <==> (order.contains(x) || x == i),
    decreases order.len(),
{
    let r = insert_by_height(order, i, heights);
    if order.len() == 0 {
        assert forall|x: int| #[trigger] r.contains(x) <==> (order.contains(x) || x == i) by {
            if x == i {
                assert(r[0] == i);
            }
        }
    } else if heights[order.last()] >= heights[i] {
        assert forall|x: int| #[trigger] r.contains(x) <==> (order.contains(x) || x == i) by {
            if order.contains(x) {
                let j = choose|j: int| 0 <= j < order.len() && order[j] == x;
                assert(r[j] == x);
            }
            if x == i {
                assert(r[order.len() as int] == x);
            }
            if r.contains(x) {
                let j = choose|j: int| 0 <= j < r.len() && r[j] == x;
                if j < order.len() {
                    assert(order[j] == x);
                }
            }
        }
    } else {
        let d = order.drop_last();
        lemma_insert_contents(d, i, heights);
        let rd = insert_by_height(d, i, heights);
        assert forall|x: int| #[trigger] r.contains(x) <==> (order.contains(x) || x == i) by {
            if order.contains(x) {
                let j = choose|j: int| 0 <= j < order.len() && order[j] == x;
                if j < d.len() {
                    assert(d[j] == x);
                    assert(rd.contains(x));
                    let m = choose|m: int| 0 <= m < rd.len() && rd[m] == x;
                    assert(r[m] == x);
                } else {
                    assert(r[rd.len() as int] == x);
                }
            }
            if x == i {
                assert(rd.contains(x));
                let m = choose|m: int| 0 <= m < rd.len() && rd[m] == x;
                assert(r[m] == x);
            }
            if r.contains(x) {
                let j = choose|j: int| 0 <= j < r.len() && r[j] == x;
                if j < rd.len() {
                    assert(rd[j] == x);
                    assert(rd.contains(x));
                    if d.contains(x) {
                        let m = choose|m: int| 0 <= m < d.len() && d[m] == x;
                        assert(order[m] == x);
                    }
                } else {
                    assert(order[order.len() - 1] == x);
                }
            }
        }
    }
}

/// `height_order(heights, n)` lists each of `0..n` exactly once.
proof fn lemma_height_order_perm(heights: Seq<u32>, n: nat)
    ensures
        height_order(heights, n).len() == n,
        height_order(heights, n).no_duplicates(),
        forall|x: int| #[trigger] height_order(heights, n).contains(x) <==> 0 <= x < n,
        forall|a: int| 0 <= a < n ==> 0 <= #[trigger] height_order(heights, n)[a] < n,
    decreases n,
{
    let p = height_order(heights, n);
    if n > 0 {
        let q = height_order(heights, (n - 1) as nat);
        lemma_height_order_perm(heights, (n - 1) as nat);
        lemma_insert_contents(q, n - 1, heights);
        assert(!q.contains(n - 1));
        assert forall|a: int| 0 <= a < n implies 0 <= #[trigger] p[a] < n by {
            assert(p.contains(p[a]));
        }
        assert forall|a: int, b: int| 0 <= a < b < p.len() implies p[a] != p[b] by {
            lemma_no_dup_insert(q, n - 1, heights, a, b);
        }
    }
}

proof fn lemma_no_dup_insert(order: Seq<int>, i: int, heights: Seq<u32>, a: int, b: int)
    requires
        order.no_duplicates(),
        !order.contains(i),
        0 <= a < b < insert_by_height(order, i, heights).len(),
    ensures
        insert_by_height(order, i, heights)[a] != insert_by_height(order, i, heights)[b],
    decreases order.len(),
{
    let r = insert_by_height(order, i, heights);
    lemma_insert_contents(order, i, heights);
    if order.len() == 0 {
    } else if heights[order.last()] >= heights[i] {
        if b == order.len() {
            assert(order.contains(r[a]));
        }
    } else {
        let d = order.drop_last();
        let rd = insert_by_height(d, i, heights);
        lemma_insert_contents(d, i, heights);
        assert(d.no_duplicates());
        assert(!d.contains(i)) by {
            if d.contains(i) {
                let m = choose|m: int| 0 <= m < d.len() && d[m] == i;
                assert(order[m] == i);
            }
        }
        if b < rd.len() {
            lemma_no_dup_insert(d, i, heights, a, b);
        } else {
            assert(rd.contains(rd[a]));
            assert(!d.contains(order.last())) by {
                if d.contains(order.last()) {
                    let m = choose|m: int| 0 <= m < d.len() && d[m] == order.last();
                    assert(order[m] == order[order.len() - 1]);
                }
            }
        }
    }
}

/// Images of sizes `sa` and `sb` placed at `pa` and `pb` do not overlap.
pub open spec fn apart(pa: (u32, u32), sa: (u32, u32), pb: (u32, u32), sb: (u32, u32)) -> bool {
    ||| pa.0 + sa.0 <= pb.0
    ||| pb.0 + sb.0 <= pa.0
    ||| pa.1 + sa.1 <= pb.1
    ||| pb.1 + sb.1 <= pa.1
}

/// An image of size `s` placed at `p` lies inside a `max_w` by `max_h`
/// atlas.
pub open spec fn inside(p: (u32, u32), s: (u32, u32), max_w: int, max_h: int) -> bool {
    p.0 + s.0 <= max_w && p.1 + s.1 <= max_h
}

/// What holds after the first `k` images in `order` are placed: each lies
/// inside the atlas, each is on the current shelf (at `y`, left of `cx`,
/// no taller than `shelf_h`) or above it, and no two overlap.
spec fn shelves_ok(
    sizes: Seq<(u32, u32)>,
    order: Seq<int>,
    k: int,
    y: int,
    shelf_h: int,
    cx: int,
    pos: Seq<(u32, u32)>,
    max_w: int,
    max_h: int,
) -> bool {
    &&& 0 <= k <= order.len()
    &&& 0 <= y
    &&& 0 <= shelf_h
    &&& 0 <= cx <= max_w
    &&& max_w <= u32::MAX
    &&& max_h <= u32::MAX
    &&& pos.len() == sizes.len()
    &&& forall|a: int| 0 <= a < order.len() ==> 0 <= #[trigger] order[a] < sizes.len()
    &&& order.no_duplicates()
    &&& forall|a: int|
        0 <= a < k ==> {
            let i = #[trigger] order[a];
            &&& inside(pos[i], sizes[i], max_w, max_h)
            &&& ((pos[i].1 == y && pos[i].0 + sizes[i].0 <= cx && sizes[i].1 <= shelf_h) || pos[i].1 + sizes[i].1
                <= y)
        }
    &&& forall|a: int, b: int|
        0 <= a < b < k ==> apart(pos[#[trigger] order[a]], sizes[order[a]], pos[#[trigger] order[b]], sizes[order[b]])
}

proof fn lemma_shelves_apart(
    sizes: Seq<(u32, u32)>,
    order: Seq<int>,
    k: int,
    y: int,
    shelf_h: int,
    cx: int,
    pos: Seq<(u32, u32)>,
    max_w: int,
    max_h: int,
)
    requires
        shelves_ok(sizes, order, k, y, shelf_h, cx, pos, max_w, max_h),
    ensures
        shelf_place(sizes, order, k, y, shelf_h, cx, pos, max_w, max_h) matches Ok(res) ==> {
            &&& forall|a: int| 0 <= a < order.len() ==> inside(res[#[trigger] order[a]], sizes[order[a]], max_w, max_h)
            &&& forall|a: int, b: int|
                0 <= a < b < order.len() ==> apart(res[#[trigger] order[a]], sizes[order[a]], res[#[trigger] order[b]], sizes[order[b]])
        },
    decreases order.len() - k,
{
    if k >= order.len() {
    } else {
        let idx = order[k];
        let w = sizes[idx].0 as int;
        let h = sizes[idx].1 as int;
        if w > max_w || h > max_h {
        } else {
            let new_shelf = cx + w > max_w;
            let y2 = if new_shelf { y + shelf_h } else { y };
            let sh2 = if new_shelf { 0 } else { shelf_h };
            let cx2 = if new_shelf { 0 } else { cx };
            if y2 + h > max_h {
            } else {
                let sh3 = if sh2 >= h { sh2 } else { h };
                let pos2 = pos.update(idx, (cx2 as u32, y2 as u32));
                assert((cx2 as u32) as int == cx2);
                assert((y2 as u32) as int == y2);
                assert(pos2[idx] == (cx2 as u32, y2 as u32));
                assert forall|a: int| 0 <= a < k implies #[trigger] order[a] != idx by {
                    assert(order[a] != order[k]);
                }
                assert forall|a: int| 0 <= a < k + 1 implies {
                    let i = #[trigger] order[a];
                    &&& inside(pos2[i], sizes[i], max_w, max_h)
                    &&& ((pos2[i].1 == y2 && pos2[i].0 + sizes[i].0 <= cx2 + w && sizes[i].1 <= sh3) || pos2[i].1
                        + sizes[i].1 <= y2)
                } by {
                    let i = order[a];
                    if a < k {
                        assert(pos2[i] == pos[i]);
                        assert(inside(pos[i], sizes[i], max_w, max_h));
                        assert((pos[i].1 == y && pos[i].0 + sizes[i].0 <= cx && sizes[i].1 <= shelf_h) || pos[i].1
                            + sizes[i].1 <= y);
                    } else {
                        assert(i == idx);
                    }
                }
                assert forall|a: int, b: int| 0 <= a < b < k + 1 implies apart(
                    pos2[#[trigger] order[a]],
                    sizes[order[a]],
                    pos2[#[trigger] order[b]],
                    sizes[order[b]],
                ) by {
                    let i = order[a];
                    let j = order[b];
                    assert(pos2[i] == pos[i]);
                    if b < k {
                        assert(pos2[j] == pos[j]);
                        assert(apart(pos[order[a]], sizes[order[a]], pos[order[b]], sizes[order[b]]));
                    } else {
                        assert(j == idx);
                        assert(pos2[j] == (cx2 as u32, y2 as u32));
                        assert((pos[i].1 == y && pos[i].0 + sizes[i].0 <= cx && sizes[i].1 <= shelf_h) || pos[i].1
                            + sizes[i].1 <= y);
                    }
                }
                lemma_shelves_apart(sizes, order, k + 1, y2, sh3, cx2 + w, pos2, max_w, max_h);
            }
        }
    }
}

/// Packed images do not overlap and lie inside the atlas: whenever packing
/// succeeds, any two distinct images' rectangles are apart, and each ends
/// within `max_w` columns and `max_h` rows.
pub proof fn lemma_packed_images_apart(sizes: Seq<(u32, u32)>, max_w: int, max_h: int)
    requires
        pack_spec(sizes, max_w, max_h) is Ok,
        0 <= max_w <= u32::MAX,
        0 <= max_h <= u32::MAX,
    ensures
        ({
            let res = pack_spec(sizes, max_w, max_h)->Ok_0;
            &&& res.len() == sizes.len()
            &&& forall|i: int| 0 <= i < sizes.len() ==> inside(#[trigger] res[i], sizes[i], max_w, max_h)
            &&& forall|i: int, j: int|
                0 <= i < sizes.len() && 0 <= j < sizes.len() && i != j ==> apart(
                    #[trigger] res[i],
                    sizes[i],
                    #[trigger] res[j],
                    sizes[j],
                )
        }),
{
    let heights = sizes.map_values(|s: (u32, u32)| s.1);
    let order = height_order(heights, sizes.len());
    lemma_height_order_perm(heights, sizes.len());
    let pos0 = Seq::new(sizes.len(), |i: int| (0u32, 0u32));
    lemma_shelf_len(sizes, order, 0, 0, 0, 0, pos0, max_w, max_h);
    lemma_shelves_apart(sizes, order, 0, 0, 0, 0, pos0, max_w, max_h);
    let res = pack_spec(sizes, max_w, max_h)->Ok_0;
    assert forall|i: int| 0 <= i < sizes.len() implies inside(#[trigger] res[i], sizes[i], max_w, max_h) by {
        assert(order.contains(i));
        let a = choose|a: int| 0 <= a < order.len() && order[a] == i;
    }
    assert forall|i: int, j: int|
        0 <= i < sizes.len() && 0 <= j < sizes.len() && i != j implies apart(
        #[trigger] res[i],
        sizes[i],
        #[trigger] res[j],
        sizes[j],
    ) by {
        assert(order.contains(i));
        assert(order.contains(j));
        let a = choose|a: int| 0 <= a < order.len() && order[a] == i;
        let b = choose|b: int| 0 <= b < order.len() && order[b] == j;
        if a > b {
            assert(apart(res[order[b]], sizes[order[b]], res[order[a]], sizes[order[a]]));
        }
    }
}

proof fn lemma_shelf_len(
    sizes: Seq<(u32, u32)>,
    order: Seq<int>,
    k: int,
    y: int,
    shelf_h: int,
    cx: int,
    pos: Seq<(u32, u32)>,
    max_w: int,
    max_h: int,
)
    requires
        forall|a: int| 0 <= a < order.len() ==> 0 <= #[trigger] order[a] < pos.len(),
    ensures
        shelf_place(sizes, order, k, y, shelf_h, cx, pos, max_w, max_h) matches Ok(res) ==> res.len() == pos.len(),
    decreases order.len() - k,
{
    if 0 <= k < order.len() {
        let idx = order[k];
        let w = sizes[idx].0 as int;
        let h = sizes[idx].1 as int;
        let new_shelf = cx + w > max_w;
        let y2 = if new_shelf { y + shelf_h } else { y };
        let sh2 = if new_shelf { 0 } else { shelf_h };
        let cx2 = if new_shelf { 0 } else { cx };
        lemma_shelf_len(
            sizes,
            order,
            k + 1,
            y2,
            if sh2 >= h { sh2 } else { h },
            cx2 + w,
            pos.update(idx, (cx2 as u32, y2 as u32)),
            max_w,
            max_h,
        );
    }
}

proof fn lemma_shelf_errors(
    sizes: Seq<(u32, u32)>,
    order: Seq<int>,
    k: int,
    y: int,
    shelf_h: int,
    cx: int,
    pos: Seq<(u32, u32)>,
    max_w: int,
    max_h: int,
)
    requires
        forall|a: int| 0 <= a < order.len() ==> 0 <= #[trigger] order[a] < sizes.len(),
        sizes.len() <= usize::MAX,
        0 <= y <= max_h,
        0 <= shelf_h <= max_h,
        max_h <= u32::MAX,
    ensures
        shelf_place(sizes, order, k, y, shelf_h, cx, pos, max_w, max_h) matches Err(AtlasError::TooLarge(i)) ==> {
            &&& (i as int) < sizes.len()
            &&& (sizes[i as int].0 > max_w || sizes[i as int].1 > max_h)
        },
        shelf_place(sizes, order, k, y, shelf_h, cx, pos, max_w, max_h) matches Err(AtlasError::Overflow(i, top)) ==> {
            &&& (i as int) < sizes.len()
            &&& sizes[i as int].0 <= max_w
            &&& sizes[i as int].1 <= max_h
            &&& top + sizes[i as int].1 > max_h
        },
    decreases order.len() - k,
{
    if 0 <= k < order.len() {
        let idx = order[k];
        let w = sizes[idx].0 as int;
        let h = sizes[idx].1 as int;
        assert((idx as usize) as int == idx);
        if w <= max_w && h <= max_h {
            let new_shelf = cx + w > max_w;
            let y2 = if new_shelf { y + shelf_h } else { y };
            let sh2 = if new_shelf { 0 } else { shelf_h };
            let cx2 = if new_shelf { 0 } else { cx };
            assert((y2 as u64) as int == y2);
            if y2 + h <= max_h {
                lemma_shelf_errors(
                    sizes,
                    order,
                    k + 1,
                    y2,
                    if sh2 >= h { sh2 } else { h },
                    cx2 + w,
                    pos.update(idx, (cx2 as u32, y2 as u32)),
                    max_w,
                    max_h,
                );
            }
        }
    }
}

/// Packing refuses an image only for a real reason: `TooLarge(i)` names an
/// image wider or taller than the atlas, and `Overflow(i, y)` one that fits
/// the atlas but, started on the shelf at row `y`, would end below the last
/// row (`y` plus its height exceeds `max_h`); an image that reaches exactly
/// the bottom edge is placed.
pub proof fn lemma_pack_errors_are_real(sizes: Seq<(u32, u32)>, max_w: int, max_h: int)
    requires
        0 <= max_w <= u32::MAX,
        0 <= max_h <= u32::MAX,
        sizes.len() <= usize::MAX,
    ensures
        pack_spec(sizes, max_w, max_h) matches Err(AtlasError::TooLarge(i)) ==> {
            &&& (i as int) < sizes.len()
            &&& (sizes[i as int].0 > max_w || sizes[i as int].1 > max_h)
        },
        pack_spec(sizes, max_w, max_h) matches Err(AtlasError::Overflow(i, y)) ==> {
            &&& (i as int) < sizes.len()
            &&& sizes[i as int].0 <= max_w
            &&& sizes[i as int].1 <= max_h
            &&& y + sizes[i as int].1 > max_h
        },
{
    let heights = sizes.map_values(|s: (u32, u32)| s.1);
    let order = height_order(heights, sizes.len());
    lemma_height_order_perm(heights, sizes.len());
    let pos0 = Seq::new(sizes.len(), |i: int| (0u32, 0u32));
    lemma_shelf_errors(sizes, order, 0, 0, 0, 0, pos0, max_w, max_h);
}

/// Pixel `(px, py)` lies in the rectangle of an image of size `s` placed
/// at `p`.
pub open spec fn covers(p: (u32, u32), s: (u32, u32), px: int, py: int) -> bool {
    p.0 <= px < p.0 + s.0 && p.1 <= py < p.1 + s.1
}

/// Byte `c` of the atlas pixel `(px, py)`, in image `img` placed at `p`.
pub open spec fn image_byte(img: Image, p: (u32, u32), px: int, py: int, c: int) -> u8 {
    img.data@[((py - p.1) * img.width + (px - p.0)) * 4 + c]
}

/// Byte `c` of atlas pixel `(px, py)` once the first `n` images are
/// drawn: the byte of the image whose rectangle holds the pixel, or 0.
pub open spec fn atlas_byte(images: Seq<Image>, pos: Seq<(u32, u32)>, n: int, px: int, py: int, c: int) -> u8 {
    if exists|i: int| 0 <= i < n && covers(pos[i], image_sizes(images)[i], px, py) {
        let i = choose|i: int| 0 <= i < n && covers(pos[i], image_sizes(images)[i], px, py);
        image_byte(images[i], pos[i], px, py, c)
    } else {
        0u8
    }
}

/// The index of byte `c` of pixel `(px, py)` in an RGBA8 buffer `w`
/// pixels wide.
pub open spec fn pix(w: int, px: int, py: int, c: int) -> int {
    (py * w + px) * 4 + c
}

/// Every image's data holds its pixels, every placement lies inside the
/// atlas, and no two placements overlap.
pub open spec fn blit_ready(images: Seq<Image>, pos: Seq<(u32, u32)>, max_w: int, max_h: int) -> bool {
    &&& pos.len() == images.len()
    &&& forall|i: int| 0 <= i < images.len() ==> (#[trigger] images[i]).data@.len() == images[i].width * images[i].height * 4
    &&& forall|i: int| 0 <= i < images.len() ==> inside(#[trigger] pos[i], image_sizes(images)[i], max_w, max_h)
    &&& forall|i: int, j: int|
        0 <= i < images.len() && 0 <= j < images.len() && i != j ==> apart(
            #[trigger] pos[i],
            image_sizes(images)[i],
            #[trigger] pos[j],
            image_sizes(images)[j],
        )
}

proof fn lemma_pix_injective(w: int, px: int, py: int, c: int, qx: int, qy: int, d: int)
    requires
        0 <= px < w,
        0 <= qx < w,
        0 <= c < 4,
        0 <= d < 4,
        0 <= py,
        0 <= qy,
        pix(w, px, py, c) == pix(w, qx, qy, d),
    ensures
        px == qx,
        py == qy,
        c == d,
{
    let t = pix(w, px, py, c);
    vstd::arithmetic::div_mod::lemma_fundamental_div_mod_converse(t, 4, py * w + px, c);
    vstd::arithmetic::div_mod::lemma_fundamental_div_mod_converse(t, 4, qy * w + qx, d);
    vstd::arithmetic::div_mod::lemma_fundamental_div_mod_converse(py * w + px, w, py, px);
    vstd::arithmetic::div_mod::lemma_fundamental_div_mod_converse(qy * w + qx, w, qy, qx);
}

proof fn lemma_pix_bound(w: int, h: int, px: int, py: int, c: int)
    requires
        0 <= px < w,
        0 <= py < h,
        0 <= c < 4,
    ensures
        0 <= pix(w, px, py, c) < w * h * 4,
{
    assert(0 <= (py * w + px) * 4 + c < w * h * 4) by (nonlinear_arith)
        requires
            0 <= px < w,
            0 <= py < h,
            0 <= c < 4,
    ;
}

proof fn lemma_atlas_byte_step(images: Seq<Image>, pos: Seq<(u32, u32)>, max_w: int, max_h: int, n: int, px: int, py: int, c: int)
    requires
        blit_ready(images, pos, max_w, max_h),
        0 <= n < images.len(),
    ensures
        atlas_byte(images, pos, n + 1, px, py, c) == if covers(pos[n], image_sizes(images)[n], px, py) {
            image_byte(images[n], pos[n], px, py, c)
        } else {
            atlas_byte(images, pos, n, px, py, c)
        },
{
    let sz = image_sizes(images);
    if covers(pos[n], sz[n], px, py) {
        let i = choose|i: int| 0 <= i < n + 1 && covers(pos[i], sz[i], px, py);
        if i != n {
            assert(apart(pos[i], sz[i], pos[n], sz[n]));
        }
    } else {
        if exists|i: int| 0 <= i < n && covers(pos[i], sz[i], px, py) {
            let i = choose|i: int| 0 <= i < n && covers(pos[i], sz[i], px, py);
            let j = choose|j: int| 0 <= j < n + 1 && covers(pos[j], sz[j], px, py);
            if i != j {
                assert(apart(pos[i], sz[i], pos[j], sz[j]));
            }
        }
    }
}

/// Draw each image at its place in a `max_width` by `max_height` RGBA8
/// atlas; pixels no image covers are 0.
pub fn blit_atlas(images: &[Image], pos: &[(u32, u32)], max_width: u32, max_height: u32) -> (atlas: Image)
    requires
        blit_ready(images@, pos@, max_width as int, max_height as int),
        max_width * max_height * 4 <= usize::MAX,
    ensures
        atlas.width == max_width,
        atlas.height == max_height,
        atlas.data@.len() == max_width * max_height * 4,
        forall|px: int, py: int, c: int|
            0 <= px < max_width && 0 <= py < max_height && 0 <= c < 4 ==> #[trigger] atlas.data@[pix(
                max_width as int,
                px,
                py,
                c,
            )] == atlas_byte(images@, pos@, images@.len() as int, px, py, c),
{
    let mw = max_width as usize;
    let mh = max_height as usize;
    let total = mw * mh * 4;
    let ghost W = mw as int;
    let ghost H = mh as int;
    let ghost sz = image_sizes(images@);
    let mut data: Vec<u8> = Vec::new();
    let mut k: usize = 0;
    while k < total
        invariant
            k <= total,
            data@.len() == k,
            forall|t: int| 0 <= t < k ==> #[trigger] data@[t] == 0u8,
        decreases total - k,
    {
        data.push(0u8);
        k = k + 1;
    }
    let n = images.len();
    proof {
        assert forall|px: int, py: int, c: int|
            0 <= px < W && 0 <= py < H && 0 <= c < 4 implies #[trigger] data@[pix(W, px, py, c)] == atlas_byte(
            images@,
            pos@,
            0,
            px,
            py,
            c,
        ) by {
            lemma_pix_bound(W, H, px, py, c);
        }
    }
    let mut idx: usize = 0;
    while idx < n
        invariant
            idx <= n,
            n == images@.len(),
            W == mw,
            H == mh,
            total == W * H * 4,
            data@.len() == total,
            sz == image_sizes(images@),
            blit_ready(images@, pos@, W, H),
            forall|px: int, py: int, c: int|
                0 <= px < W && 0 <= py < H && 0 <= c < 4 ==> #[trigger] data@[pix(W, px, py, c)] == atlas_byte(
                    images@,
                    pos@,
                    idx as int,
                    px,
                    py,
                    c,
                ),
        decreases n - idx,
    {
        let img = &images[idx];
        let (x, y) = pos[idx];
        let w = img.width as usize;
        let h = img.height as usize;
        let dlen = img.data.len();
        let ghost p = pos@[idx as int];
        let ghost I = idx as int;
        proof {
            assert(sz[I] == (img.width, img.height));
            assert(inside(pos@[I], sz[I], W, H));
            assert(img.data@.len() == w * h * 4);
        }
        let mut row: usize = 0;
        while row < h
            invariant
                idx < n,
                n == images@.len(),
                I == idx,
                W == mw,
                H == mh,
                total == W * H * 4,
                data@.len() == total,
                sz == image_sizes(images@),
                blit_ready(images@, pos@, W, H),
                *img == images@[I],
                p == pos@[I],
                p == (x, y),
                w == img.width,
                h == img.height,
                img.data@.len() == w * h * 4,
                dlen == img.data@.len(),
                x + w <= W,
                y + h <= H,
                row <= h,
                forall|px: int, py: int, c: int|
                    0 <= px < W && 0 <= py < H && 0 <= c < 4 ==> #[trigger] data@[pix(W, px, py, c)] == (if covers(
                        p,
                        sz[I],
                        px,
                        py,
                    ) && py - y < row {
                        image_byte(images@[I], p, px, py, c)
                    } else {
                        atlas_byte(images@, pos@, I, px, py, c)
                    }),
            decreases h - row,
        {
            let mut col: usize = 0;
            while col < w
                invariant
                    idx < n,
                    n == images@.len(),
                    I == idx,
                    W == mw,
                    H == mh,
                    total == W * H * 4,
                    data@.len() == total,
                    sz == image_sizes(images@),
                    blit_ready(images@, pos@, W, H),
                    *img == images@[I],
                    p == pos@[I],
                    p == (x, y),
                    w == img.width,
                    h == img.height,
                    img.data@.len() == w * h * 4,
                    dlen == img.data@.len(),
                    x + w <= W,
                    y + h <= H,
                    row < h,
                    col <= w,
                    forall|px: int, py: int, c: int|
                        0 <= px < W && 0 <= py < H && 0 <= c < 4 ==> #[trigger] data@[pix(W, px, py, c)] == (if covers(
                            p,
                            sz[I],
                            px,
                            py,
                        ) && (py - y < row || (py - y == row && px - x < col)) {
                            image_byte(images@[I], p, px, py, c)
                        } else {
                            atlas_byte(images@, pos@, I, px, py, c)
                        }),
                decreases w - col,
            {
                let ghost qx = x + col;
                let ghost qy = y + row;
                proof {
                    lemma_pix_bound(W, H, qx, qy, 3);
                    lemma_pix_bound(w as int, h as int, col as int, row as int, 3);
                    assert(pix(w as int, col as int, row as int, 0) == (row * w + col) * 4);
                    assert(pix(W, qx, qy, 0) == ((y as int + row) * W + x + col) * 4);
                }
                let src = (row * w + col) * 4;
                let dst = ((y as usize + row) * mw + x as usize + col) * 4;
                let ghost before = data@;
                data.set(dst, img.data[src]);
                data.set(dst + 1, img.data[src + 1]);
                data.set(dst + 2, img.data[src + 2]);
                data.set(dst + 3, img.data[src + 3]);
                proof {
                    assert forall|px: int, py: int, c: int|
                        0 <= px < W && 0 <= py < H && 0 <= c < 4 implies #[trigger] data@[pix(W, px, py, c)] == (if covers(
                            p,
                            sz[I],
                            px,
                            py,
                        ) && (py - y < row || (py - y == row && px - x < col + 1)) {
                            image_byte(images@[I], p, px, py, c)
                        } else {
                            atlas_byte(images@, pos@, I, px, py, c)
                        }) by {
                        let t = pix(W, px, py, c);
                        lemma_pix_bound(W, H, px, py, c);
                        if dst <= t < dst + 4 {
                            lemma_pix_injective(W, px, py, c, qx, qy, t - dst);
                            assert(image_byte(images@[I], p, px, py, c) == img.data@[src + c]) by {
                                assert((py - y) * w + (px - x) == row * w + col);
                            }
                        } else {
                            assert(data@[t] == before[t]);
                            if px == qx && py == qy {
                                assert(t == dst + c);
                            }
                        }
                    }
                }
                col = col + 1;
            }
            row = row + 1;
        }
        proof {
            assert forall|px: int, py: int, c: int|
                0 <= px < W && 0 <= py < H && 0 <= c < 4 implies #[trigger] data@[pix(W, px, py, c)] == atlas_byte(
                images@,
                pos@,
                I + 1,
                px,
                py,
                c,
            ) by {
                lemma_atlas_byte_step(images@, pos@, W, H, I, px, py, c);
            }
        }
        idx = idx + 1;
    }
    Image { width: max_width, height: max_height, data }
}

/// Every image's data holds exactly its `width * height` RGBA8 pixels.
pub open spec fn images_well_formed(images: Seq<Image>) -> bool {
    forall|i: int| 0 <= i < images.len() ==> (#[trigger] images[i]).data@.len() == images[i].width * images[i].height * 4
}

/// Pack `images` into a `max_width` by `max_height` atlas: where each image
/// goes, by image index, and the atlas with every image drawn at its place.
pub fn pack_atlas_layout(images: &[Image], max_width: u32, max_height: u32) -> (r: Result<(Image, Vec<(u32, u32)>), AtlasError>)
    requires
        images_well_formed(images@),
        max_width * max_height * 4 <= usize::MAX,
    ensures
        match r {
            Ok((atlas, pos)) => {
                &&& pack_spec(image_sizes(images@), max_width as int, max_height as int) == Ok::<Seq<(u32, u32)>, AtlasError>(pos@)
                &&& atlas.width == max_width
                &&& atlas.height == max_height
                &&& atlas.data@.len() == max_width * max_height * 4
                &&& forall|px: int, py: int, c: int|
                    0 <= px < max_width && 0 <= py < max_height && 0 <= c < 4 ==> #[trigger] atlas.data@[pix(
                        max_width as int,
                        px,
                        py,
                        c,
                    )] == atlas_byte(images@, pos@, images@.len() as int, px, py, c)
            },
            Err(e) => pack_spec(image_sizes(images@), max_width as int, max_height as int) == Err::<Seq<(u32, u32)>, AtlasError>(e),
        },
{
    let pos = match pack_positions(images, max_width, max_height) {
        Ok(p) => p,
        Err(e) => return Err(e),
    };
    proof {
        let sz = image_sizes(images@);
        lemma_packed_images_apart(sz, max_width as int, max_height as int);
        assert(blit_ready(images@, pos@, max_width as int, max_height as int));
    }
    let atlas = blit_atlas(images, pos.as_slice(), max_width, max_height);
    Ok((atlas, pos))
}

} // verus!
