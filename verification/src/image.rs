//! Decoder output: the image area on the reference grid, and one integer component
//! per SIZ component, each in raster order on its own sample grid.
//!
//! Tiles are decoded independently and meet on a [`Canvas`]: each writes its own
//! rectangle of every component's plane. [`assemble`] then level-shifts and clamps
//! the planes to the declared depths.

use crate::codestream::markers::{Rect, Siz, SizComponent, SizView};
use crate::codestream::{HeaderView, MainHeader};
use crate::error::{fault, Error, ErrorKind, Fault, Result};
use crate::math::{lemma_index_bound, max_int, min_int, pow2_i64};
use crate::text::{decimal, decimal_text, no_component, no_component_text};
use crate::tier1::lemma_row_column;
use vstd::arithmetic::power2::pow2;
use vstd::prelude::*;
use vstd::string::*;

verus! {

/// A decoded component.
pub struct ComponentView {
    pub width: u32,
    pub height: u32,
    pub bit_depth: u8,
    pub signed: bool,
    pub x_sampling: u8,
    pub y_sampling: u8,
    pub samples: Seq<i32>,
}

/// One decoded component: its own sample grid, its declared depth and sign, and
/// the sub-sampling that maps it onto the image's reference grid.
///
/// `samples` is row-major, level-shifted and clamped to the declared depth.
#[derive(Debug, Clone, PartialEq, Eq)]
pub struct Component {
    /// Component width in samples.
    pub width: u32,
    /// Component height in samples.
    pub height: u32,
    /// Bits per sample.
    pub bit_depth: u8,
    /// Whether samples are signed.
    pub signed: bool,
    /// Horizontal sub-sampling factor; 1 means unit sampling.
    pub x_sampling: u8,
    /// Vertical sub-sampling factor; 1 means unit sampling.
    pub y_sampling: u8,
    /// `width * height` samples, row-major.
    pub samples: Vec<i32>,
}

impl View for Component {
    type V = ComponentView;

    open spec fn view(&self) -> ComponentView {
        ComponentView {
            width: self.width,
            height: self.height,
            bit_depth: self.bit_depth,
            signed: self.signed,
            x_sampling: self.x_sampling,
            y_sampling: self.y_sampling,
            samples: self.samples@,
        }
    }
}

/// Every component's view.
pub open spec fn component_views(s: Seq<Component>) -> Seq<ComponentView> {
    Seq::new(s.len(), |i: int| s[i]@)
}

/// A decoded image.
pub struct ImageView {
    pub width: u32,
    pub height: u32,
    pub components: Seq<ComponentView>,
}

/// A decoded image: the image area on the reference grid, and its components in
/// SIZ order. A sub-sampled component covers the same area with fewer samples.
#[derive(Debug, Clone, PartialEq, Eq)]
pub struct Image {
    /// Reference-grid image area width.
    pub width: u32,
    /// Reference-grid image area height.
    pub height: u32,
    /// One entry per SIZ component, in SIZ order.
    pub components: Vec<Component>,
}

impl View for Image {
    type V = ImageView;

    open spec fn view(&self) -> ImageView {
        ImageView {
            width: self.width,
            height: self.height,
            components: component_views(self.components@),
        }
    }
}

impl Image {
    /// The component at `index` in SIZ order, or `None` if out of range.
    pub fn component(&self, index: usize) -> (r: Option<&Component>)
        ensures
            match r {
                Some(c) => index < self.components@.len() && *c == self.components@[index as int],
                None => index >= self.components@.len(),
            },
    {
        if index < self.components.len() {
            Some(&self.components[index])
        } else {
            None
        }
    }
}

impl Component {
    /// The sample at `(x, y)` on this component's own grid, or `None` if out of
    /// bounds.
    pub fn sample(&self, x: u32, y: u32) -> (r: Option<i32>)
        ensures
            r == if x < self.width && y < self.height && y * self.width + x < self.samples@.len() {
                Some(self.samples@[y * self.width + x])
            } else {
                None
            },
    {
        if x >= self.width || y >= self.height {
            return None;
        }
        proof {
            lemma_index_bound(x as int, y as int, self.width as int, self.height as int);
            assert(self.width * self.height <= 0xFFFF_FFFF * 0xFFFF_FFFF) by (nonlinear_arith)
                requires
                    self.width <= 0xFFFF_FFFF,
                    self.height <= 0xFFFF_FFFF,
            ;
        }
        let at: u64 = y as u64 * self.width as u64 + x as u64;
        if at < self.samples.len() as u64 {
            Some(self.samples[at as usize])
        } else {
            None
        }
    }
}

/// How many samples a rectangle holds.
pub open spec fn area_of(r: Rect) -> int {
    r.width_spec() * r.height_spec()
}

/// A rectangle lies in another.
pub open spec fn inside(r: Rect, outer: Rect) -> bool {
    r.x0 >= outer.x0 && r.y0 >= outer.y0 && r.x1 <= outer.x1 && r.y1 <= outer.y1
}

/// What is said of a tile-component whose samples do not fill its rectangle.
pub open spec fn misfit_text(index: int, rect: Rect, samples: nat) -> Seq<char> {
    "component "@ + decimal_text(index as nat) + " of a tile reconstructed "@ + decimal_text(
        samples,
    ) + " samples but its "@ + decimal_text(rect.width_spec() as nat) + "x"@ + decimal_text(
        rect.height_spec() as nat,
    ) + " rectangle holds "@ + decimal_text(area_of(rect) as nat)
}

/// What is said of a tile-component outside its canvas.
pub open spec fn outside_text(index: int, rect: Rect, canvas: Rect) -> Seq<char> {
    "a tile's component "@ + decimal_text(index as nat) + " rectangle "@ + rect_text(rect)
        + " falls outside the canvas "@ + rect_text(canvas)
}

/// A rectangle, corner by corner.
pub open spec fn rect_text(r: Rect) -> Seq<char> {
    "Rect { x0: "@ + decimal_text(r.x0 as nat) + ", y0: "@ + decimal_text(r.y0 as nat) + ", x1: "@
        + decimal_text(r.x1 as nat) + ", y1: "@ + decimal_text(r.y1 as nat) + " }"@
}

/// A rectangle, corner by corner.
fn describe_rect(r: Rect) -> (s: String)
    ensures
        s@ == rect_text(r),
{
    "Rect { x0: ".to_string().concat(decimal(r.x0 as u64).as_str()).concat(", y0: ").concat(
        decimal(r.y0 as u64).as_str(),
    ).concat(", x1: ").concat(decimal(r.x1 as u64).as_str()).concat(", y1: ").concat(
        decimal(r.y1 as u64).as_str(),
    ).concat(" }")
}

/// A `w` by `h` raster copied into a `stride`-wide one with its top left at
/// `(left, top)`.
pub open spec fn blitted(
    dst: Seq<i32>,
    stride: int,
    src: Seq<i32>,
    w: int,
    h: int,
    left: int,
    top: int,
) -> Seq<i32> {
    Seq::new(
        dst.len(),
        |k: int|
            if left <= k % stride < left + w && top <= k / stride < top + h {
                src[(k / stride - top) * w + (k % stride - left)]
            } else {
                dst[k]
            },
    )
}

/// The planes that the tiles are written into, and each component's whole grid.
pub struct CanvasView {
    pub planes: Seq<Seq<i32>>,
    pub rects: Seq<Rect>,
}

impl CanvasView {
    /// Every plane holds its component's grid.
    pub open spec fn wf(self) -> bool {
        &&& self.planes.len() == self.rects.len()
        &&& forall|i: int|
            0 <= i < self.planes.len() ==> (#[trigger] self.planes[i]).len() == area_of(
                self.rects[i],
            )
    }

    /// The canvas of an image before any tile: one zeroed plane per component, at a
    /// resolution reduction.
    pub open spec fn blank(siz: SizView, reduction: nat) -> CanvasView {
        let rects = Seq::new(
            siz.components.len(),
            |i: int| siz.component_rect(i).unwrap().reduced_spec(reduction),
        );
        CanvasView {
            planes: Seq::new(
                siz.components.len(),
                |i: int| Seq::new(area_of(rects[i]) as nat, |k: int| 0i32),
            ),
            rects,
        }
    }

    /// The canvas with one tile-component's raster in its place.
    pub open spec fn place(self, index: int, rect: Rect, samples: Seq<i32>) -> core::result::Result<
        CanvasView,
        Fault,
    > {
        let canvas = self.rects[index];
        if !(0 <= index < self.planes.len()) {
            Err(
                fault(
                    ErrorKind::Inconsistent,
                    "no canvas plane for component "@ + decimal_text(index as nat),
                ),
            )
        } else if samples.len() != area_of(rect) {
            Err(fault(ErrorKind::Inconsistent, misfit_text(index, rect, samples.len())))
        } else if !inside(rect, canvas) {
            Err(fault(ErrorKind::Inconsistent, outside_text(index, rect, canvas)))
        } else {
            Ok(
                CanvasView {
                    planes: self.planes.update(
                        index,
                        blitted(
                            self.planes[index],
                            canvas.width_spec(),
                            samples,
                            rect.width_spec(),
                            rect.height_spec(),
                            rect.x0 - canvas.x0,
                            rect.y0 - canvas.y0,
                        ),
                    ),
                    ..self
                },
            )
        }
    }
}

/// The per-component sample planes that a tiled decode reconstructs into.
#[derive(Debug)]
pub struct Canvas {
    planes: Vec<Vec<i32>>,
    rects: Vec<Rect>,
}

/// Every plane's samples.
pub open spec fn plane_views(s: Seq<Vec<i32>>) -> Seq<Seq<i32>> {
    Seq::new(s.len(), |i: int| s[i]@)
}

impl View for Canvas {
    type V = CanvasView;

    closed spec fn view(&self) -> CanvasView {
        CanvasView { planes: plane_views(self.planes@), rects: self.rects@ }
    }
}

/// Copy a `w` by `h` raster into a `stride`-wide one with its top left at
/// `(left, top)`.
fn blit(
    dst: &mut Vec<i32>,
    stride: usize,
    rows: usize,
    src: &Vec<i32>,
    w: usize,
    h: usize,
    left: usize,
    top: usize,
)
    requires
        old(dst)@.len() == stride * rows,
        src@.len() == w * h,
        w > 0 && h > 0 ==> left + w <= stride && top + h <= rows,
    ensures
        final(dst)@ == blitted(
            old(dst)@,
            stride as int,
            src@,
            w as int,
            h as int,
            left as int,
            top as int,
        ),
{
    let ghost before = dst@;
    let ghost s = stride as int;
    let ghost goal = blitted(before, s, src@, w as int, h as int, left as int, top as int);
    if w == 0 || h == 0 {
        assert(dst@ =~= goal);
        return;
    }
    let mut y: usize = 0;
    while y < h
        invariant
            dst@.len() == before.len(),
            before.len() == dst.len() == stride * rows,
            src@.len() == src.len() == w * h,
            left + w <= stride,
            top + h <= rows,
            w > 0,
            y <= h,
            s == stride,
            goal == blitted(before, s, src@, w as int, h as int, left as int, top as int),
            forall|k: int|
                0 <= k < before.len() ==> #[trigger] dst@[k] == (if k / s < top + y {
                    goal[k]
                } else {
                    before[k]
                }),
        decreases h - y,
    {
        let mut x: usize = 0;
        proof {
            assert forall|k: int| 0 <= k < before.len() implies #[trigger] dst@[k] == (if k / s
                < top + y || (k / s == top + y && k % s < left) {
                goal[k]
            } else {
                before[k]
            }) by {}
        }
        while x < w
            invariant
                dst@.len() == before.len(),
                before.len() == dst.len() == stride * rows,
                src@.len() == src.len() == w * h,
                left + w <= stride,
                top + h <= rows,
                x <= w,
                y < h,
                s == stride,
                goal == blitted(before, s, src@, w as int, h as int, left as int, top as int),
                forall|k: int|
                    0 <= k < before.len() ==> #[trigger] dst@[k] == (if k / s < top + y || (k / s
                        == top + y && k % s < left + x) {
                        goal[k]
                    } else {
                        before[k]
                    }),
            decreases w - x,
        {
            let ghost current = dst@;
            let ghost at = (top + y) * s + (left + x);
            proof {
                lemma_index_bound(left + x, top + y, s, rows as int);
                lemma_row_column(left + x, top + y, s);
                lemma_index_bound(x as int, y as int, w as int, h as int);
            }
            let v: i32 = src[y * w + x];
            dst.set((top + y) * stride + (left + x), v);
            proof {
                assert forall|k: int| 0 <= k < before.len() implies #[trigger] dst@[k] == (if k / s
                    < top + y || (k / s == top + y && k % s < left + (x + 1)) {
                    goal[k]
                } else {
                    before[k]
                }) by {
                    if k != at {
                        assert(dst@[k] == current[k]);
                        vstd::arithmetic::div_mod::lemma_fundamental_div_mod(k, s);
                        assert((k / s) * s == s * (k / s)) by (nonlinear_arith);
                    }
                }
            }
            x = x + 1;
        }
        y = y + 1;
    }
    proof {
        assert forall|k: int| 0 <= k < before.len() implies dst@[k] == goal[k] by {}
    }
    assert(dst@ =~= goal);
}

/// Every component's plane can be counted.
pub open spec fn planes_fit(siz: SizView, reduction: nat) -> bool {
    forall|i: int|
        0 <= i < siz.components.len() ==> (#[trigger] siz.component_rect(i) matches Some(r)
            ==> area_of(r.reduced_spec(reduction)) <= usize::MAX)
}

impl Canvas {
    /// One zeroed plane per component, at a resolution reduction.
    pub fn new(header: &MainHeader, reduction: u8) -> (r: Result<Self>)
        requires
            planes_fit(header@.siz, reduction as nat),
        ensures
            match r {
                Ok(c) => {
                    &&& c@ == CanvasView::blank(header@.siz, reduction as nat)
                    &&& c@.wf()
                    &&& forall|i: int|
                        0 <= i < header@.siz.components.len()
                            ==> #[trigger] header@.siz.has_component(i)
                },
                Err(e) => {
                    exists|i: int|
                        {
                            &&& 0 <= i < header@.siz.components.len()
                            &&& !#[trigger] header@.siz.has_component(i)
                            &&& e@ == fault(ErrorKind::Inconsistent, no_component_text(i))
                            &&& forall|j: int|
                                0 <= j < i ==> #[trigger] header@.siz.has_component(j)
                        }
                },
            },
    {
        let ghost siz = header@.siz;
        let ghost blank = CanvasView::blank(siz, reduction as nat);
        let mut planes: Vec<Vec<i32>> = Vec::new();
        let mut rects: Vec<Rect> = Vec::new();
        let mut index: usize = 0;
        while index < header.siz.components.len()
            invariant
                siz == header@.siz,
                blank == CanvasView::blank(siz, reduction as nat),
                planes_fit(siz, reduction as nat),
                index <= siz.components.len(),
                planes@.len() == index,
                rects@.len() == index,
                forall|i: int| 0 <= i < index ==> #[trigger] siz.has_component(i),
                forall|i: int| 0 <= i < index ==> (#[trigger] planes@[i])@ == blank.planes[i],
                forall|i: int| 0 <= i < index ==> #[trigger] rects@[i] == blank.rects[i],
                forall|i: int|
                    0 <= i < index ==> (#[trigger] planes@[i])@.len() == area_of(rects@[i]),
            decreases siz.components.len() - index,
        {
            let rect: Rect = match header.siz.component_rect(index) {
                Some(r) => r.reduced(reduction),
                None => {
                    assert(!siz.has_component(index as int));
                    return Err(Error::Inconsistent(no_component(index)));
                },
            };
            assert(siz.component_rect(index as int) is Some);
            proof {
                let (w, h) = (rect.width_spec(), rect.height_spec());
                assert(w * h >= 0) by (nonlinear_arith)
                    requires
                        w >= 0,
                        h >= 0,
                ;
            }
            let count: usize = rect.area() as usize;
            let mut plane: Vec<i32> = Vec::new();
            while plane.len() < count
                invariant
                    plane@.len() <= count,
                    forall|k: int| 0 <= k < plane@.len() ==> #[trigger] plane@[k] == 0,
                decreases count - plane@.len(),
            {
                plane.push(0);
            }
            assert(plane@ =~= blank.planes[index as int]);
            planes.push(plane);
            rects.push(rect);
            index = index + 1;
        }
        let c: Canvas = Canvas { planes, rects };
        assert(c@.planes =~= blank.planes);
        assert(c@.rects =~= blank.rects);
        Ok(c)
    }

    /// Write one tile-component's raster into its component's plane. `rect` is the
    /// tile-component's rectangle on the component grid, at the canvas's reduction.
    pub fn place(&mut self, index: usize, rect: Rect, samples: Vec<i32>) -> (r: Result<()>)
        requires
            old(self)@.wf(),
        ensures
            final(self)@.wf(),
            match r {
                Ok(_) => old(self)@.place(index as int, rect, samples@) == Ok::<
                    CanvasView,
                    Fault,
                >(final(self)@),
                Err(e) => old(self)@.place(index as int, rect, samples@) == Err::<
                    CanvasView,
                    Fault,
                >(e@) && final(self)@ == old(self)@,
            },
    {
        let ghost before = self@;
        if index >= self.planes.len() {
            return Err(
                Error::Inconsistent(
                    "no canvas plane for component ".to_string().concat(
                        decimal(index as u64).as_str(),
                    ),
                ),
            );
        }
        assert(before.planes[index as int] == self.planes@[index as int]@);
        if samples.len() as u64 != rect.area() {
            return Err(
                Error::Inconsistent(
                    "component ".to_string().concat(decimal(index as u64).as_str()).concat(
                        " of a tile reconstructed ",
                    ).concat(decimal(samples.len() as u64).as_str()).concat(
                        " samples but its ",
                    ).concat(decimal(rect.width() as u64).as_str()).concat("x").concat(
                        decimal(rect.height() as u64).as_str(),
                    ).concat(" rectangle holds ").concat(decimal(rect.area()).as_str()),
                ),
            );
        }
        let canvas: Rect = self.rects[index];
        if rect.x0 < canvas.x0 || rect.y0 < canvas.y0 || rect.x1 > canvas.x1 || rect.y1 > canvas.y1 {
            return Err(
                Error::Inconsistent(
                    "a tile's component ".to_string().concat(
                        decimal(index as u64).as_str(),
                    ).concat(" rectangle ").concat(describe_rect(rect).as_str()).concat(
                        " falls outside the canvas ",
                    ).concat(describe_rect(canvas).as_str()),
                ),
            );
        }
        let left: usize = (rect.x0 - canvas.x0) as usize;
        let top: usize = (rect.y0 - canvas.y0) as usize;
        let stride: usize = canvas.width() as usize;
        let rows: usize = canvas.height() as usize;
        blit(
            &mut self.planes[index],
            stride,
            rows,
            &samples,
            rect.width() as usize,
            rect.height() as usize,
            left,
            top,
        );
        proof {
            let after = before.place(index as int, rect, samples@)->Ok_0;
            assert(self@.planes =~= after.planes);
        }
        Ok(())
    }

    /// The finished planes, in SIZ component order.
    pub fn into_planes(self) -> (p: Vec<Vec<i32>>)
        ensures
            plane_views(p@) == self@.planes,
    {
        self.planes
    }
}

/// The least sample of a depth and a sign.
pub open spec fn low_of(depth: nat, signed: bool) -> int {
    if signed {
        -(pow2((depth - 1) as nat) as int)
    } else {
        0
    }
}

/// The greatest sample of a depth and a sign.
pub open spec fn high_of(depth: nat, signed: bool) -> int {
    if signed {
        pow2((depth - 1) as nat) - 1
    } else {
        pow2(depth) - 1
    }
}

/// What the level shift adds: half the range of an unsigned component.
pub open spec fn shift_of(depth: nat, signed: bool) -> int {
    if signed {
        0
    } else {
        pow2((depth - 1) as nat) as int
    }
}

/// A sample, level-shifted and clamped.
pub open spec fn shifted(v: i32, depth: nat, signed: bool) -> int {
    max_int(low_of(depth, signed), min_int(high_of(depth, signed), v + shift_of(depth, signed)))
}

/// What is said of a component whose samples do not fill its sample grid.
pub open spec fn geometry_text(index: int, samples: nat, w: int, h: int) -> Seq<char> {
    "component "@ + decimal_text(index as nat) + " decoded "@ + decimal_text(samples)
        + " samples but its geometry is "@ + decimal_text(w as nat) + "x"@ + decimal_text(
        h as nat,
    ) + " = "@ + decimal_text((w * h) as nat)
}

/// What is said of a component whose range is wider than a sample.
pub open spec fn container_text(index: int, depth: nat, signed: bool) -> Seq<char> {
    "component "@ + decimal_text(index as nat) + " depth "@ + decimal_text(depth) + " ("@ + (
    if signed {
        "signed"@
    } else {
        "unsigned"@
    }) + ") exceeds the i32 sample container"@
}

/// What becomes of component `index`'s samples.
pub open spec fn component_spec(
    siz: SizView,
    index: int,
    samples: Seq<i32>,
    reduction: nat,
) -> core::result::Result<ComponentView, Fault> {
    let c = siz.components[index];
    let depth = c.bit_depth as nat;
    if !(0 <= index < siz.components.len()) {
        Err(fault(ErrorKind::Inconsistent, no_component_text(index)))
    } else if !(1 <= depth <= 38) {
        Err(
            fault(
                ErrorKind::Marker,
                "component "@ + decimal_text(index as nat) + " bit depth "@ + decimal_text(depth)
                    + " outside the standard's range 1..=38"@,
            ),
        )
    } else if c.x_sampling == 0 || c.y_sampling == 0 {
        Err(
            fault(
                ErrorKind::Marker,
                "component "@ + decimal_text(index as nat) + " sub-sampling factor is zero"@,
            ),
        )
    } else {
        let (w, h) = siz.component_extent_at(index, reduction).unwrap();
        if samples.len() != w * h {
            Err(fault(ErrorKind::Inconsistent, geometry_text(index, samples.len(), w, h)))
        } else if high_of(depth, c.signed) > i32::MAX || low_of(depth, c.signed) < i32::MIN {
            Err(fault(ErrorKind::Unsupported, container_text(index, depth, c.signed)))
        } else {
            Ok(
                ComponentView {
                    width: w as u32,
                    height: h as u32,
                    bit_depth: c.bit_depth,
                    signed: c.signed,
                    x_sampling: c.x_sampling,
                    y_sampling: c.y_sampling,
                    samples: Seq::new(
                        samples.len(),
                        |k: int| shifted(samples[k], depth, c.signed) as i32,
                    ),
                },
            )
        }
    }
}

/// The components after those that are done.
pub open spec fn components_from(
    siz: SizView,
    samples: Seq<Seq<i32>>,
    reduction: nat,
    done: Seq<ComponentView>,
) -> core::result::Result<Seq<ComponentView>, Fault>
    decreases max_int(0, samples.len() - done.len()),
{
    if done.len() >= samples.len() {
        Ok(done)
    } else {
        match component_spec(siz, done.len() as int, samples[done.len() as int], reduction) {
            Err(e) => Err(e),
            Ok(c) => components_from(siz, samples, reduction, done.push(c)),
        }
    }
}

/// What [`assemble`] makes of the reconstructed planes.
pub open spec fn assemble_spec(h: HeaderView, samples: Seq<Seq<i32>>, reduction: nat) -> core::result::Result<
    ImageView,
    Fault,
> {
    if samples.len() != h.siz.components.len() {
        Err(
            fault(
                ErrorKind::Inconsistent,
                "decoded "@ + decimal_text(samples.len()) + " components but SIZ declares "@
                    + decimal_text(h.siz.components.len()),
            ),
        )
    } else if samples.len() == 0 {
        Err(fault(ErrorKind::Inconsistent, "SIZ declares no components"@))
    } else {
        match components_from(h.siz, samples, reduction, Seq::empty()) {
            Err(e) => Err(e),
            Ok(components) => {
                let (w, h) = h.siz.image_extent_at(reduction);
                Ok(ImageView { width: w as u32, height: h as u32, components })
            },
        }
    }
}

/// An unsigned component's samples stand half its range above where they were decoded,
/// a signed one's where they were. A sample that would fall outside its component's
/// range takes the nearest end of it.
pub proof fn lemma_level_shift(v: i32, depth: nat)
    requires
        1 <= depth <= 38,
    ensures
        ({
            let half = pow2((depth - 1) as nat) as int;
            &&& -half <= v < half ==> shifted(v, depth, true) == v && shifted(v, depth, false) == v
                + half
            &&& v < -half ==> shifted(v, depth, true) == -half && shifted(v, depth, false) == 0
            &&& v >= half ==> shifted(v, depth, true) == half - 1 && shifted(v, depth, false) == 2
                * half - 1
        }),
{
    vstd::arithmetic::power2::lemma_pow2_unfold(depth);
    vstd::arithmetic::power2::lemma_pow2_pos((depth - 1) as nat);
}

/// Every sample of an assembled component is in the range of its depth and sign.
pub proof fn lemma_samples_in_range(siz: SizView, index: int, samples: Seq<i32>, reduction: nat)
    ensures
        component_spec(siz, index, samples, reduction) matches Ok(c) ==> forall|k: int|
            0 <= k < c.samples.len() ==> low_of(c.bit_depth as nat, c.signed)
                <= #[trigger] c.samples[k] <= high_of(c.bit_depth as nat, c.signed),
{
    match component_spec(siz, index, samples, reduction) {
        Ok(c) => {
            let depth = c.bit_depth as nat;
            vstd::arithmetic::power2::lemma_pow2_pos(depth);
            vstd::arithmetic::power2::lemma_pow2_pos((depth - 1) as nat);
        },
        Err(_) => {},
    }
}

/// Level-shift, clamp and package one component's samples.
fn assemble_component(siz: &Siz, index: usize, samples: Vec<i32>, reduction: u8) -> (r: Result<
    Component,
>)
    ensures
        match r {
            Ok(c) => component_spec(siz@, index as int, samples@, reduction as nat) == Ok::<
                ComponentView,
                Fault,
            >(c@),
            Err(e) => component_spec(siz@, index as int, samples@, reduction as nat) == Err::<
                ComponentView,
                Fault,
            >(e@),
        },
{
    if index >= siz.components.len() {
        return Err(Error::Inconsistent(no_component(index)));
    }
    let comp: SizComponent = siz.components[index];
    let depth: u8 = comp.bit_depth;
    if depth < 1 || depth > 38 {
        return Err(
            Error::Marker(
                "component ".to_string().concat(decimal(index as u64).as_str()).concat(
                    " bit depth ",
                ).concat(decimal(depth as u64).as_str()).concat(
                    " outside the standard's range 1..=38",
                ),
            ),
        );
    }
    if comp.x_sampling == 0 || comp.y_sampling == 0 {
        return Err(
            Error::Marker(
                "component ".to_string().concat(decimal(index as u64).as_str()).concat(
                    " sub-sampling factor is zero",
                ),
            ),
        );
    }
    let (width, height): (u32, u32) = match siz.component_extent_at(index, reduction) {
        Some(e) => e,
        None => {
            return Err(Error::Inconsistent(no_component(index)));
        },
    };
    assert(width * height <= 0xFFFF_FFFF * 0xFFFF_FFFF) by (nonlinear_arith)
        requires
            width <= 0xFFFF_FFFF,
            height <= 0xFFFF_FFFF,
    ;
    if samples.len() as u64 != width as u64 * height as u64 {
        return Err(
            Error::Inconsistent(
                "component ".to_string().concat(decimal(index as u64).as_str()).concat(
                    " decoded ",
                ).concat(decimal(samples.len() as u64).as_str()).concat(
                    " samples but its geometry is ",
                ).concat(decimal(width as u64).as_str()).concat("x").concat(
                    decimal(height as u64).as_str(),
                ).concat(" = ").concat(decimal(width as u64 * height as u64).as_str()),
            ),
        );
    }
    proof {
        vstd::arithmetic::power2::lemma2_to64();
        vstd::arithmetic::power2::lemma_pow2_strictly_increases(depth as nat, 40);
        vstd::arithmetic::power2::lemma_pow2_strictly_increases((depth - 1) as nat, 40);
        vstd::arithmetic::power2::lemma2_to64_rest();
    }
    let half: i64 = pow2_i64(depth as u32 - 1);
    let shift: i64 = if comp.signed { 0 } else { half };
    let lo: i64 = if comp.signed { -half } else { 0 };
    let hi: i64 = if comp.signed { half - 1 } else { pow2_i64(depth as u32) - 1 };
    if hi > i32::MAX as i64 || lo < i32::MIN as i64 {
        return Err(
            Error::Unsupported(
                "component ".to_string().concat(decimal(index as u64).as_str()).concat(
                    " depth ",
                ).concat(decimal(depth as u64).as_str()).concat(" (").concat(
                    if comp.signed {
                        "signed"
                    } else {
                        "unsigned"
                    },
                ).concat(") exceeds the i32 sample container"),
            ),
        );
    }
    let ghost view = component_spec(siz@, index as int, samples@, reduction as nat)->Ok_0;
    let mut out: Vec<i32> = Vec::new();
    while out.len() < samples.len()
        invariant
            out@.len() <= samples@.len(),
            1 <= depth <= 38,
            i32::MIN <= lo <= hi <= i32::MAX,
            0 <= shift <= 0x1_0000_0000,
            lo == low_of(depth as nat, comp.signed),
            hi == high_of(depth as nat, comp.signed),
            shift == shift_of(depth as nat, comp.signed),
            forall|k: int|
                0 <= k < out@.len() ==> #[trigger] out@[k] == shifted(
                    samples@[k],
                    depth as nat,
                    comp.signed,
                ),
        decreases samples@.len() - out@.len(),
    {
        let v: i64 = samples[out.len()] as i64 + shift;
        let held: i64 = if v < lo {
            lo
        } else if v > hi {
            hi
        } else {
            v
        };
        out.push(held as i32);
    }
    let c: Component = Component {
        width,
        height,
        bit_depth: depth,
        signed: comp.signed,
        x_sampling: comp.x_sampling,
        y_sampling: comp.y_sampling,
        samples: out,
    };
    assert(c@.samples =~= view.samples);
    Ok(c)
}

/// Apply the inverse level shift, clamp to the component depths, and package the
/// reconstructed planes with their geometry.
pub fn assemble(header: &MainHeader, samples: Vec<Vec<i32>>, reduction: u8) -> (r: Result<Image>)
    ensures
        match r {
            Ok(i) => assemble_spec(header@, plane_views(samples@), reduction as nat) == Ok::<
                ImageView,
                Fault,
            >(i@),
            Err(e) => assemble_spec(header@, plane_views(samples@), reduction as nat) == Err::<
                ImageView,
                Fault,
            >(e@),
        },
{
    let ghost planes = plane_views(samples@);
    if samples.len() != header.siz.components.len() {
        return Err(
            Error::Inconsistent(
                "decoded ".to_string().concat(decimal(samples.len() as u64).as_str()).concat(
                    " components but SIZ declares ",
                ).concat(decimal(header.siz.components.len() as u64).as_str()),
            ),
        );
    }
    if samples.len() == 0 {
        return Err(Error::Inconsistent("SIZ declares no components".to_string()));
    }
    let count: usize = samples.len();
    let mut rest: Vec<Vec<i32>> = samples;
    let mut components: Vec<Component> = Vec::new();
    assert(component_views(components@) =~= Seq::empty());
    let ghost goal = components_from(header@.siz, planes, reduction as nat, Seq::empty());
    while components.len() < count
        invariant
            rest@.len() == count,
            planes == plane_views(samples@),
            planes.len() == count,
            count == header@.siz.components.len(),
            count > 0,
            components@.len() <= count,
            forall|i: int| components@.len() <= i < count ==> (#[trigger] rest@[i])@ == planes[i],
            goal == components_from(
                header@.siz,
                planes,
                reduction as nat,
                component_views(components@),
            ),
            goal == components_from(header@.siz, planes, reduction as nat, Seq::empty()),
        decreases count - components@.len(),
    {
        let index: usize = components.len();
        let ghost before = component_views(components@);
        let mut plane: Vec<i32> = Vec::new();
        std::mem::swap(&mut rest[index], &mut plane);
        let c: Component = assemble_component(&header.siz, index, plane, reduction)?;
        let ghost view = c@;
        components.push(c);
        assert(component_views(components@) =~= before.push(view));
    }
    let (width, height): (u32, u32) = header.siz.image_extent_at(reduction);
    Ok(Image { width, height, components })
}

} // verus!
