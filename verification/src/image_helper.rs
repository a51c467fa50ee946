use std::collections::HashMap;
use vstd::prelude::*;

verus! {

/// A rectangular region of an image, in pixels.
#[derive(Clone, Copy, Debug, PartialEq, Eq, Structural)]
pub struct Rectangle {
    pub left: u32,
    pub top: u32,
    pub width: u32,
    pub height: u32,
}

/// The rectangle with the given corner and size.
pub open spec fn rect(left: u32, top: u32, width: u32, height: u32) -> Rectangle {
    Rectangle { left, top, width, height }
}

/// The region holding the scores on a full-screen screenshot of a known
/// resolution; the whole image for any other resolution.
pub open spec fn standard_crop_area(dimensions: (u32, u32)) -> Rectangle {
    let (w, h) = dimensions;
    if w == 1920 && h == 1080 {
        rect(375, 90, 450, 852)
    } else if w == 2560 && h == 1440 {
        rect(510, 125, 585, 1130)
    } else if w == 3840 && h == 2160 {
        rect(760, 190, 890, 1693)
    } else if w == 1680 && h == 1050 {
        rect(330, 135, 392, 742)
    } else if w == 1170 && h == 2532 {
        rect(250, 406, 860, 1635)
    } else if w == 1080 && h == 2340 {
        rect(230, 380, 795, 1503)
    } else {
        rect(0, 0, w, h)
    }
}

/// Whether `r` lies inside an image of the given dimensions.
pub open spec fn fits_in(r: Rectangle, dimensions: (u32, u32)) -> bool {
    &&& r.left + r.width <= dimensions.0
    &&& r.top + r.height <= dimensions.1
}

/// The crop region for a screenshot of the given resolution.
pub fn get_standard_crop_area(dimensions: (u32, u32)) -> (r: Rectangle)
    ensures
        r == standard_crop_area(dimensions),
        fits_in(r, dimensions),
{
    match dimensions {
        (1920, 1080) => Rectangle { left: 375, top: 90, width: 450, height: 852 },
        (2560, 1440) => Rectangle { left: 510, top: 125, width: 585, height: 1130 },
        (3840, 2160) => Rectangle { left: 760, top: 190, width: 890, height: 1693 },
        (1680, 1050) => Rectangle { left: 330, top: 135, width: 392, height: 742 },
        (1170, 2532) => Rectangle { left: 250, top: 406, width: 860, height: 1635 },
        (1080, 2340) => Rectangle { left: 230, top: 380, width: 795, height: 1503 },
        (w, h) => Rectangle { left: 0, top: 0, width: w, height: h },
    }
}


/// The crop region for a recognised screenshot resolution, or `None` when the
/// resolution is not one of those known, so that the region has to be searched
/// for in the image itself.
pub fn recognised_crop_area(dimensions: (u32, u32)) -> (r: Option<Rectangle>)
    ensures
        r is Some <==> standard_crop_area(dimensions).width != dimensions.0,
        r matches Some(c) ==> c == standard_crop_area(dimensions) && fits_in(c, dimensions),
{
    let rectangle = get_standard_crop_area(dimensions);
    if rectangle.width != dimensions.0 {
        Some(rectangle)
    } else {
        None
    }
}

/// The part of a detected score region that holds the names and scores:
/// the region without its leftmost 21.5%, keeping 74.1% of its width, each
/// rounded down. For every `u32` width these are the values that truncating
/// `width as f64 * 0.215` and `width as f64 * 0.741` gives.
pub open spec fn shrunk(r: Rectangle) -> Rectangle {
    rect(
        (r.left + r.width * 215 / 1000) as u32,
        r.top,
        (r.width * 741 / 1000) as u32,
        r.height,
    )
}

/// Narrows a detected region to the columns that hold names and scores.
pub fn shrink_crop_area(r: &Rectangle) -> (s: Rectangle)
    requires
        r.left + r.width * 215 / 1000 <= u32::MAX,
    ensures
        s == shrunk(*r),
        s.left >= r.left,
        s.left + s.width <= r.left + r.width,
{
    let cut = (r.width as u64 * 215 / 1000) as u32;
    let kept = (r.width as u64 * 741 / 1000) as u32;
    assert(r.width * 215 / 1000 + r.width * 741 / 1000 <= r.width) by (nonlinear_arith);
    Rectangle { left: r.left + cut, top: r.top, width: kept, height: r.height }
}

/// Whether a detected region is large enough and has the shape of the score
/// list: wider than 200 and taller than 300 pixels, with a width to height
/// ratio between 0.55 and 0.64 inclusive. The ratio is compared exactly, in
/// integers; for `u32` sizes the correctly rounded `f64` quotient compares
/// with `0.55` and `0.64` the same way.
pub open spec fn is_score_region(r: Rectangle) -> bool {
    &&& r.width > 200
    &&& r.height > 300
    &&& 55 * r.height <= 100 * r.width
    &&& 100 * r.width <= 64 * r.height
}

/// A region after one more pixel `(x, y)` of its component is seen: the
/// corner moves up and left to cover the pixel, and the size grows to reach
/// it from the new corner.
pub open spec fn grow(r: Rectangle, x: u32, y: u32) -> Rectangle {
    let left = if x < r.left { x } else { r.left };
    let top = if y < r.top { y } else { r.top };
    rect(
        left,
        top,
        if r.width < (x - left) as u32 { (x - left) as u32 } else { r.width },
        if r.height < (y - top) as u32 { (y - top) as u32 } else { r.height },
    )
}

/// The regions after one more pixel with the given label: label 0 is the
/// background, a new label starts an empty region at the pixel.
pub open spec fn bounds_step(m: Map<u32, Rectangle>, label: u32, x: u32, y: u32) -> Map<
    u32,
    Rectangle,
> {
    if label == 0 {
        m
    } else if m.contains_key(label) {
        m.insert(label, grow(m[label], x, y))
    } else {
        m.insert(label, rect(x, y, 0, 0))
    }
}

/// The region of each label after the first `n` pixels of a labelled image
/// of the given width, read row by row.
pub open spec fn component_bounds(labels: Seq<u32>, width: nat, n: nat) -> Map<u32, Rectangle>
    decreases n,
{
    if n == 0 || width == 0 {
        Map::empty()
    } else {
        let i = (n - 1) as nat;
        bounds_step(
            component_bounds(labels, width, i),
            labels[i as int],
            (i % width) as u32,
            (i / width) as u32,
        )
    }
}

/// The labels other than 0 among the first `n` pixels, in the order in
/// which each first occurs.
pub open spec fn label_order(labels: Seq<u32>, n: nat) -> Seq<u32>
    decreases n,
{
    if n == 0 {
        Seq::empty()
    } else {
        let prev = label_order(labels, (n - 1) as nat);
        let l = labels[n - 1];
        if l == 0 || prev.contains(l) {
            prev
        } else {
            prev.push(l)
        }
    }
}

/// The first region in `rs` that has the shape of the score list.
pub open spec fn first_score_region(rs: Seq<Rectangle>) -> Option<Rectangle>
    decreases rs.len(),
{
    if rs.len() == 0 {
        None
    } else if is_score_region(rs[0]) {
        Some(rs[0])
    } else {
        first_score_region(rs.drop_first())
    }
}

proof fn lemma_first_score_region(rs: Seq<Rectangle>)
    ensures
        first_score_region(rs) is Some <==> exists|j: int|
            0 <= j < rs.len() && is_score_region(#[trigger] rs[j]),
        first_score_region(rs) matches Some(r) ==> is_score_region(r) && rs.contains(r),
    decreases rs.len(),
{
    if rs.len() > 0 {
        lemma_first_score_region(rs.drop_first());
        if first_score_region(rs.drop_first()) is Some {
            let j = choose|j: int| 0 <= j < rs.drop_first().len() && is_score_region(
                #[trigger] rs.drop_first()[j],
            );
            assert(is_score_region(rs[j + 1]));
        }
        if exists|j: int| 0 <= j < rs.len() && is_score_region(#[trigger] rs[j]) {
            let j = choose|j: int| 0 <= j < rs.len() && is_score_region(#[trigger] rs[j]);
            if j > 0 {
                assert(rs.drop_first()[j - 1] == rs[j]);
            }
        }
        if let Some(r) = first_score_region(rs.drop_first()) {
            let k = choose|k: int| 0 <= k < rs.drop_first().len() && rs.drop_first()[k] == r;
            assert(rs[k + 1] == r);
        }
    }
}


proof fn lemma_label_order(labels: Seq<u32>, n: nat)
    requires
        n <= labels.len(),
    ensures
        label_order(labels, n).no_duplicates(),
        forall|k: u32| #[trigger] label_order(labels, n).contains(k) ==> k != 0,
    decreases n,
{
    if n > 0 {
        let prev = label_order(labels, (n - 1) as nat);
        lemma_label_order(labels, (n - 1) as nat);
        assert forall|k: u32| #[trigger] label_order(labels, n).contains(k) implies k != 0 by {
            let l = labels[n - 1];
            if !(l == 0 || prev.contains(l)) && k != l {
                let q = choose|q: int|
                    0 <= q < label_order(labels, n).len() && label_order(labels, n)[q] == k;
                assert(prev[q] == k);
                assert(prev.contains(k));
            }
        }
    }
}

/// The position of pixel `i` in an image of the given width, row by row.
proof fn lemma_pixel_position(i: int, width: int, x: int, y: int)
    requires
        width > 0,
        0 <= x < width,
        i == y * width + x,
    ensures
        i % width == x,
        i / width == y,
{
    vstd::arithmetic::div_mod::lemma_fundamental_div_mod_converse(i, width, y, x);
}

/// The detected regions in the order in which their labels first occur.
pub open spec fn ordered_regions(labels: Seq<u32>, width: nat) -> Seq<Rectangle> {
    let n = labels.len();
    label_order(labels, n).map_values(|k: u32| component_bounds(labels, width, n)[k])
}

/// Collects, for each label of a labelled image read row by row, the region
/// that its pixels span, in the order in which the labels first occur.
pub fn component_regions(labels: &Vec<u32>, width: u32, height: u32) -> (regions: Vec<(u32, Rectangle)>)
    requires
        labels.len() == width * height,
    ensures
        regions.len() == label_order(labels@, labels.len() as nat).len(),
        forall|j: int|
            0 <= j < regions.len() ==> {
                let (k, r) = #[trigger] regions@[j];
                &&& k == label_order(labels@, labels.len() as nat)[j]
                &&& r == component_bounds(labels@, width as nat, labels.len() as nat)[k]
                &&& r.left + r.width < width
                &&& r.top + r.height < height
            },
        forall|k: u32|
            #[trigger] component_bounds(labels@, width as nat, labels.len() as nat).contains_key(k)
                <==> label_order(labels@, labels.len() as nat).contains(k),
{
    broadcast use vstd::std_specs::hash::group_hash_axioms;

    let mut regions: Vec<(u32, Rectangle)> = Vec::new();
    if width == 0 {
        assert(labels.len() == 0) by (nonlinear_arith)
            requires
                labels.len() == width * height,
                width == 0,
        ;
        return regions;
    }
    let mut index: HashMap<u32, usize> = HashMap::new();
    let n = labels.len();
    let mut i: usize = 0;
    let mut x: u32 = 0;
    let mut y: u32 = 0;
    let ghost w = width as nat;
    while i < n
        invariant
            n == labels.len(),
            n == width * height,
            width > 0,
            w == width as nat,
            i <= n,
            x < width,
            i == y * width + x,
            i < n ==> y < height,
            regions.len() == label_order(labels@, i as nat).len(),
            label_order(labels@, i as nat).no_duplicates(),
            forall|j: int|
                0 <= j < regions.len() ==> {
                    let (k, r) = #[trigger] regions@[j];
                    &&& k == label_order(labels@, i as nat)[j]
                    &&& r == component_bounds(labels@, w, i as nat)[k]
                    &&& r.left + r.width < width
                    &&& r.top + r.height < height
                },
            forall|k: u32|
                #[trigger] component_bounds(labels@, w, i as nat).contains_key(k)
                    <==> label_order(labels@, i as nat).contains(k),
            forall|k: u32|
                #[trigger] index@.contains_key(k) <==> label_order(labels@, i as nat).contains(k),
            forall|k: u32|
                #[trigger] index@.contains_key(k) ==> index@[k] < regions.len()
                    && regions@[index@[k] as int].0 == k,
        decreases n - i,
    {
        proof {
            lemma_pixel_position(i as int, width as int, x as int, y as int);
            lemma_label_order(labels@, (i + 1) as nat);
            assert(y * width + x < width * height);
            assert(y < height) by (nonlinear_arith)
                requires
                    y * width + x < width * height,
                    x >= 0,
                    width > 0,
            ;
        }
        let label = labels[i];
        let ghost old_order = label_order(labels@, i as nat);
        let ghost old_bounds = component_bounds(labels@, w, i as nat);
        assert((i as nat) % w == x as nat && (i as nat) / w == y as nat);
        assert(((i + 1) - 1) as nat == i as nat);
        assert(component_bounds(labels@, w, (i + 1) as nat) == bounds_step(
            old_bounds,
            label,
            x,
            y,
        ));
        if label != 0 {
            match index.get(&label) {
                Some(j) => {
                    let j = *j;
                    let r = regions[j].1;
                    let left = if x < r.left { x } else { r.left };
                    let top = if y < r.top { y } else { r.top };
                    let dx = x - left;
                    let dy = y - top;
                    let grown = Rectangle {
                        left,
                        top,
                        width: if r.width < dx { dx } else { r.width },
                        height: if r.height < dy { dy } else { r.height },
                    };
                    regions.set(j, (label, grown));
                    proof {
                        assert(old_order.contains(label));
                        assert(label_order(labels@, (i + 1) as nat) == old_order);
                        assert forall|jj: int| 0 <= jj < regions.len() && jj != j implies #[trigger] regions@[jj].0 != label by {
                            assert(old_order[jj] != old_order[j as int]);
                        }
                    }
                },
                None => {
                    let fresh = Rectangle { left: x, top: y, width: 0, height: 0 };
                    proof {
                        assert(!old_order.contains(label));
                        assert(label_order(labels@, (i + 1) as nat) == old_order.push(label));
                    }
                    index.insert(label, regions.len());
                    regions.push((label, fresh));
                    proof {
                        let new_order = old_order.push(label);
                        assert forall|k: u32| #[trigger] new_order.contains(k) <==> old_order.contains(k) || k == label by {
                            if new_order.contains(k) && k != label {
                                let q = choose|q: int| 0 <= q < new_order.len() && new_order[q] == k;
                                assert(old_order[q] == k);
                            }
                            if k == label {
                                assert(new_order[new_order.len() - 1] == k);
                            }
                            if old_order.contains(k) {
                                let q = choose|q: int| 0 <= q < old_order.len() && old_order[q] == k;
                                assert(new_order[q] == k);
                            }
                        }
                    }
                },
            }
        } else {
            assert(label_order(labels@, (i + 1) as nat) == old_order);
        }
        i = i + 1;
        if x + 1 == width {
            assert((y + 1) * width == y * width + width) by (nonlinear_arith);
            assert(i < n ==> y + 1 < height) by (nonlinear_arith)
                requires
                    i == (y + 1) * width,
                    n == width * height,
                    width > 0,
            ;
            x = 0;
            y = y + 1;
        } else {
            x = x + 1;
        }
    }
    regions
}

/// The region taken as the score list is wider than 200 and taller than 300
/// pixels, with a width between 0.55 and 0.64 times its height, and it is
/// the first such region in the order in which the labels first occur: one
/// is taken whenever one exists.
pub proof fn law_score_region_shape(labels: Seq<u32>, width: nat)
    ensures
        first_score_region(ordered_regions(labels, width)) matches Some(r) ==> {
            &&& r.width > 200
            &&& r.height > 300
            &&& 55 * r.height <= 100 * r.width
            &&& 100 * r.width <= 64 * r.height
            &&& ordered_regions(labels, width).contains(r)
        },
        (exists|j: int|
            0 <= j < ordered_regions(labels, width).len() && {
                let r = #[trigger] ordered_regions(labels, width)[j];
                &&& r.width > 200
                &&& r.height > 300
                &&& 55 * r.height <= 100 * r.width
                &&& 100 * r.width <= 64 * r.height
            }) ==> first_score_region(ordered_regions(labels, width)) is Some,
        first_score_region(ordered_regions(labels, width)) matches Some(r) ==> exists|j: int|
            0 <= j < ordered_regions(labels, width).len() && #[trigger] ordered_regions(labels, width)[j]
                == r && forall|q: int|
                0 <= q < j ==> {
                    let o = #[trigger] ordered_regions(labels, width)[q];
                    !(o.width > 200 && o.height > 300 && 55 * o.height <= 100 * o.width && 100 * o.width
                        <= 64 * o.height)
                },
{
    let rs = ordered_regions(labels, width);
    lemma_first_score_region(rs);
    lemma_first_score_region_first(rs);
}

/// The region `first_score_region` picks is at a place before which no
/// region has that shape.
proof fn lemma_first_score_region_first(rs: Seq<Rectangle>)
    ensures
        first_score_region(rs) matches Some(r) ==> exists|j: int|
            0 <= j < rs.len() && #[trigger] rs[j] == r && forall|q: int| 0 <= q < j ==> !is_score_region(rs[q]),
    decreases rs.len(),
{
    if rs.len() > 0 {
        if is_score_region(rs[0]) {
            assert(rs[0] == rs[0]);
        } else {
            lemma_first_score_region_first(rs.drop_first());
            if let Some(r) = first_score_region(rs) {
                let j = choose|j: int|
                    0 <= j < rs.drop_first().len() && #[trigger] rs.drop_first()[j] == r && forall|q: int|
                        0 <= q < j ==> !is_score_region(rs.drop_first()[q]);
                assert(rs[j + 1] == r);
                assert forall|q: int| 0 <= q < j + 1 implies !is_score_region(rs[q]) by {
                    if q > 0 {
                        assert(rs[q] == rs.drop_first()[q - 1]);
                    }
                }
            }
        }
    }
}

/// Whether a region has the shape of the score list.
fn score_region(r: &Rectangle) -> (b: bool)
    ensures
        b == is_score_region(*r),
{
    r.width > 200 && r.height > 300 && 55 * (r.height as u64) <= 100 * (r.width as u64) && 100
        * (r.width as u64) <= 64 * (r.height as u64)
}

/// Looks for the region holding the scores in a labelled image (the
/// connected components of its edges), for screenshots whose resolution is
/// not recognised: the first region with the shape of the score list,
/// narrowed to its names and scores.
pub fn find_crop_area(labels: &Vec<u32>, width: u32, height: u32) -> (found: Option<Rectangle>)
    requires
        labels.len() == width * height,
    ensures
        found == (match first_score_region(ordered_regions(labels@, width as nat)) {
            Some(r) => Some(shrunk(r)),
            None => None::<Rectangle>,
        }),
        found is Some <==> exists|k: u32|
            #[trigger] component_bounds(labels@, width as nat, labels.len() as nat).contains_key(k)
                && is_score_region(component_bounds(labels@, width as nat, labels.len() as nat)[k]),
        found matches Some(c) ==> exists|k: u32|
            #[trigger] component_bounds(labels@, width as nat, labels.len() as nat).contains_key(k)
                && is_score_region(component_bounds(labels@, width as nat, labels.len() as nat)[k])
                && c == shrunk(component_bounds(labels@, width as nat, labels.len() as nat)[k]),
        found matches Some(c) ==> fits_in(c, (width, height)),
        found matches Some(c) ==> exists|k: u32|
            #[trigger] component_bounds(labels@, width as nat, labels.len() as nat).contains_key(k)
                && component_bounds(labels@, width as nat, labels.len() as nat)[k].width > 200
                && component_bounds(labels@, width as nat, labels.len() as nat)[k].height > 300
                && c == shrunk(component_bounds(labels@, width as nat, labels.len() as nat)[k]),
{
    let regions = component_regions(labels, width, height);
    let ghost n = labels.len() as nat;
    let ghost bounds = component_bounds(labels@, width as nat, n);
    let ghost order = label_order(labels@, n);
    let ghost rs = ordered_regions(labels@, width as nat);
    assert(rs.len() == regions.len());
    assert forall|j: int| 0 <= j < rs.len() implies #[trigger] rs[j] == regions@[j].1 by {}
    assert(rs.skip(0) == rs);
    proof {
        lemma_first_score_region(rs);
        assert forall|k: u32| #[trigger] bounds.contains_key(k) && is_score_region(bounds[k]) implies exists|j: int|
            0 <= j < rs.len() && is_score_region(#[trigger] rs[j]) by {
            let j = choose|j: int| 0 <= j < order.len() && order[j] == k;
            assert(rs[j] == bounds[k]);
        }
    }
    let mut j: usize = 0;
    while j < regions.len()
        invariant
            0 <= j <= regions.len(),
            rs.len() == regions.len(),
            order.len() == rs.len(),
            forall|q: int| 0 <= q < rs.len() ==> #[trigger] rs[q] == regions@[q].1,
            forall|q: int| 0 <= q < rs.len() ==> #[trigger] rs[q] == bounds[order[q]],
            forall|q: int| 0 <= q < regions.len() ==> {
                let r = #[trigger] regions@[q].1;
                r.left + r.width < width && r.top + r.height < height
            },
            first_score_region(rs) == first_score_region(rs.skip(j as int)),
            bounds == component_bounds(labels@, width as nat, labels.len() as nat),
            order == label_order(labels@, labels.len() as nat),
            rs == ordered_regions(labels@, width as nat),
            forall|k: u32| #[trigger] bounds.contains_key(k) <==> order.contains(k),
        decreases regions.len() - j,
    {
        let r = regions[j].1;
        assert(rs.skip(j as int)[0] == r);
        if score_region(&r) {
            assert(first_score_region(rs.skip(j as int)) == Some(r));
            assert(r.width * 215 / 1000 <= r.width) by (nonlinear_arith);
            let c = shrink_crop_area(&r);
            proof {
                let q = j as int;
                let k = order[q];
                assert(rs[q] == bounds[k]);
                assert(order[q] == k);
                assert(order.contains(k));
                assert(bounds.contains_key(k));
                assert(is_score_region(bounds[k]) && c == shrunk(bounds[k]));
            }
            return Some(c);
        }
        assert(rs.skip(j as int).drop_first() == rs.skip(j + 1));
        j = j + 1;
    }
    assert(rs.skip(j as int).len() == 0);
    None
}

} // verus!
