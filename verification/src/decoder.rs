//! The whole decode: a codestream's tiles, one after the other, onto one canvas.
//!
//! Every tile is a decode of its own: its own header, packets and wavelet pyramid,
//! in its own coordinate frame. The reversible path runs to the end here. A tile
//! with irreversible components stops the decode with a [`LossyTile`]: its caller
//! synthesises those components in real arithmetic and hands their samples back.

use crate::codestream::grid::{lemma_planes_fit, lemma_tile_admitted};
use crate::codestream::legal::{decodable, lemma_parsed_decodable, tile_decodable};
use crate::codestream::markers::{Rect, SizView, Transform};
use crate::codestream::resolve::{resolve_spec, resolve_text};
use crate::codestream::{
    parse, parse_spec, parse_text, Codestream, CodestreamView, HeaderView, MainHeader, Tile,
    TileView,
};
use crate::dwt::{inverse, inverse_spec, pyramid_fits};
use crate::error::{fault, Error, ErrorKind, Fault, Result};
use crate::image::{
    assemble, assemble_spec, plane_views, Canvas, CanvasView, Image, ImageView,
};
use crate::math::max_int;
use crate::mct::{inverse_rct, rct_spec};
use crate::pipeline::{
    coeffs_views, samples_views, CoeffsView, Samples, SamplesView, SubbandCoeffs,
};
use crate::text::{decimal, decimal_text, no_place, no_place_text};
use crate::tier1::pyramid::lemma_coeffs_mergeable;
use crate::tier1::{code_blocks_spec, decode_code_blocks};
use crate::tier2::geometry::header_legal;
use crate::tier2::layout::{lemma_laid_out_wf, lemma_packets_laid_out};
use crate::tier2::{decode_packets, packets_spec, CodedData};
use vstd::prelude::*;
use vstd::string::*;

verus! {

/// Options for [`decode_with`]. The default decodes at full resolution.
#[derive(Debug, Clone, Copy, PartialEq, Eq, Structural)]
#[non_exhaustive]
pub struct DecodeOptions {
    /// How many of the finest resolution levels to discard. Each one halves the
    /// output on both axes, rounding up. Every component must keep at least one
    /// resolution.
    pub resolution_reduction: u8,
}

impl Default for DecodeOptions {
    fn default() -> (o: Self)
        ensures
            o.resolution_reduction == 0,
    {
        DecodeOptions { resolution_reduction: 0 }
    }
}

impl DecodeOptions {
    /// These options with `resolution_reduction` set to `levels`.
    #[must_use]
    pub fn with_resolution_reduction(self, levels: u8) -> (o: Self)
        ensures
            o == (DecodeOptions { resolution_reduction: levels, ..self }),
    {
        let mut o: DecodeOptions = self;
        o.resolution_reduction = levels;
        o
    }
}

/// A reduction leaves some component without a resolution.
pub open spec fn exhausts(h: HeaderView, reduction: nat) -> bool {
    exists|c: int|
        0 <= c < h.components.len() && reduction > (
        #[trigger] h.components[c]).coding.decomposition_levels
}

/// The first component from `c` on that a reduction leaves without a resolution.
pub open spec fn first_exhausted(h: HeaderView, reduction: nat, c: int) -> int
    decreases h.components.len() - c,
{
    if !(0 <= c < h.components.len()) || reduction
        > h.components[c].coding.decomposition_levels {
        c
    } else {
        first_exhausted(h, reduction, c + 1)
    }
}

/// What is said of a reduction that leaves a component of tile `tile` without a
/// resolution.
pub open spec fn exhausted_text(h: HeaderView, reduction: nat, tile: int) -> Seq<char> {
    let c = first_exhausted(h, reduction, 0);
    "resolution reduction "@ + decimal_text(reduction) + " discards all "@ + decimal_text(
        (h.components[c].coding.decomposition_levels + 1) as nat,
    ) + " resolutions of component "@ + decimal_text(c as nat) + " in tile "@ + decimal_text(
        tile as nat,
    )
}

/// The samples of the components after those that are done.
pub open spec fn samples_from(
    h: HeaderView,
    coeffs: Seq<CoeffsView>,
    done: Seq<SamplesView>,
) -> core::result::Result<Seq<SamplesView>, Fault>
    decreases max_int(0, coeffs.len() - done.len()),
{
    if done.len() >= coeffs.len() {
        Ok(done)
    } else {
        let c = done.len() as int;
        match inverse_spec(h, c, coeffs[c]) {
            Err(e) => Err(e),
            Ok(s) => samples_from(h, coeffs, done.push(s)),
        }
    }
}

/// What a tile decodes to under its parameters `h`: packets, code-blocks, the
/// wavelet and the reversible colour transform.
#[verifier::opaque]
pub open spec fn tile_samples(h: HeaderView, tile: TileView, reduction: nat) -> core::result::Result<
    Seq<SamplesView>,
    Fault,
> {
    if exhausts(h, reduction) {
        Err(fault(ErrorKind::InvalidOptions, exhausted_text(h, reduction, tile.index as int)))
    } else {
        match packets_spec(h, tile) {
            Err(e) => Err(e),
            Ok(coded) => match code_blocks_spec(h, coded, reduction, Seq::empty()) {
                Err(e) => Err(e),
                Ok(coeffs) => match samples_from(h, coeffs, Seq::empty()) {
                    Err(e) => Err(e),
                    Ok(samples) => if h.cod.multiple_component_transform
                        && h.components[0].coding.transform == Transform::Reversible53 {
                        rct_spec(samples)
                    } else {
                        Ok(samples)
                    },
                },
            },
        }
    }
}

/// How many of the components below `c` are irreversible.
pub open spec fn lossy_below(samples: Seq<SamplesView>, c: nat) -> nat
    decreases c,
{
    if c == 0 {
        0
    } else {
        lossy_below(samples, (c - 1) as nat) + if samples[c - 1] is Irreversible {
            1nat
        } else {
            0nat
        }
    }
}

/// The integer samples of component `c`: its own, or those that were synthesised
/// for it. The synthesised components are listed in component order.
pub open spec fn plane_of(samples: Seq<SamplesView>, synthesised: Seq<Seq<i32>>, c: int) -> Seq<i32> {
    match samples[c] {
        SamplesView::Reversible(v) => v,
        SamplesView::Irreversible(_, _) => synthesised[lossy_below(samples, c as nat) as int],
    }
}

/// The canvas with components `c` and later of a tile in place.
pub open spec fn place_from(
    canvas: CanvasView,
    siz: SizView,
    tile: int,
    reduction: nat,
    samples: Seq<SamplesView>,
    synthesised: Seq<Seq<i32>>,
    c: int,
) -> core::result::Result<CanvasView, Fault>
    decreases max_int(0, samples.len() - c),
{
    if !(0 <= c < samples.len()) {
        Ok(canvas)
    } else {
        match siz.tile_component_rect(tile, c) {
            None => Err(fault(ErrorKind::Inconsistent, no_place_text(tile, c))),
            Some(rect) => match canvas.place(
                c,
                rect.reduced_spec(reduction),
                plane_of(samples, synthesised, c),
            ) {
                Err(e) => Err(e),
                Ok(next) => place_from(next, siz, tile, reduction, samples, synthesised, c + 1),
            },
        }
    }
}

/// The canvas with a whole tile in place. Every irreversible component needs its
/// synthesised samples.
pub open spec fn place_spec(
    canvas: CanvasView,
    siz: SizView,
    tile: int,
    reduction: nat,
    samples: Seq<SamplesView>,
    synthesised: Seq<Seq<i32>>,
) -> core::result::Result<CanvasView, Fault> {
    if synthesised.len() != lossy_below(samples, samples.len()) {
        Err(
            fault(
                ErrorKind::Inconsistent,
                "a tile's irreversible components were not all synthesised"@,
            ),
        )
    } else {
        place_from(canvas, siz, tile, reduction, samples, synthesised, 0)
    }
}

/// A tile whose irreversible components wait for their synthesis.
pub struct LossyTileView {
    pub codestream: CodestreamView,
    pub reduction: nat,
    pub canvas: CanvasView,
    pub index: int,
    pub header: HeaderView,
    pub samples: Seq<SamplesView>,
}

/// How far a decode has come.
pub enum DecodedView {
    Image(ImageView),
    Lossy(LossyTileView),
}

/// The decode of the tiles from `i` on, onto a canvas.
pub open spec fn run_from(
    cs: CodestreamView,
    reduction: nat,
    canvas: CanvasView,
    i: int,
) -> core::result::Result<DecodedView, Fault>
    decreases max_int(0, cs.tiles.len() - i),
{
    if !(0 <= i < cs.tiles.len()) {
        match assemble_spec(cs.header, canvas.planes, reduction) {
            Err(e) => Err(e),
            Ok(image) => Ok(DecodedView::Image(image)),
        }
    } else {
        match resolve_spec(cs.header, cs.tiles[i].header) {
            Err(e) => Err(fault(e, resolve_text(cs.header, cs.tiles[i].header))),
            Ok(header) => match tile_samples(header, cs.tiles[i], reduction) {
                Err(e) => Err(e),
                Ok(samples) => if lossy_below(samples, samples.len()) > 0 {
                    Ok(
                        DecodedView::Lossy(
                            LossyTileView {
                                codestream: cs,
                                reduction,
                                canvas,
                                index: i,
                                header,
                                samples,
                            },
                        ),
                    )
                } else {
                    match place_spec(
                        canvas,
                        cs.header.siz,
                        cs.tiles[i].index as int,
                        reduction,
                        samples,
                        Seq::empty(),
                    ) {
                        Err(e) => Err(e),
                        Ok(next) => run_from(cs, reduction, next, i + 1),
                    }
                },
            },
        }
    }
}

/// The decode of a codestream at a resolution reduction.
pub open spec fn decode_spec(b: Seq<u8>, reduction: nat) -> core::result::Result<
    DecodedView,
    Fault,
> {
    match parse_spec(b) {
        Err(e) => Err(fault(e, parse_text(b))),
        Ok(cs) => run_from(cs, reduction, CanvasView::blank(cs.header.siz, reduction), 0),
    }
}

impl LossyTileView {
    /// The decode goes on once the irreversible components are synthesised.
    pub open spec fn resume(self, synthesised: Seq<Seq<i32>>) -> core::result::Result<
        DecodedView,
        Fault,
    > {
        match place_spec(
            self.canvas,
            self.codestream.header.siz,
            self.codestream.tiles[self.index].index as int,
            self.reduction,
            self.samples,
            synthesised,
        ) {
            Err(e) => Err(e),
            Ok(next) => run_from(self.codestream, self.reduction, next, self.index + 1),
        }
    }
}

/// A tile whose irreversible components wait for their synthesis, and the decode
/// that it belongs to.
#[derive(Debug)]
pub struct LossyTile<'a> {
    codestream: Codestream<'a>,
    reduction: u8,
    canvas: Canvas,
    index: usize,
    header: MainHeader,
    samples: Vec<Samples>,
}

impl<'a> View for LossyTile<'a> {
    type V = LossyTileView;

    closed spec fn view(&self) -> LossyTileView {
        LossyTileView {
            codestream: self.codestream@,
            reduction: self.reduction as nat,
            canvas: self.canvas@,
            index: self.index as int,
            header: self.header@,
            samples: samples_views(self.samples@),
        }
    }
}

/// How far a decode has come.
#[derive(Debug)]
pub enum Decoded<'a> {
    /// The image is complete.
    Image(Image),
    /// A tile waits for the synthesis of its irreversible components.
    Lossy(LossyTile<'a>),
}

impl<'a> View for Decoded<'a> {
    type V = DecodedView;

    open spec fn view(&self) -> DecodedView {
        match self {
            Decoded::Image(i) => DecodedView::Image(i@),
            Decoded::Lossy(t) => DecodedView::Lossy(t@),
        }
    }
}

impl<'a> LossyTile<'a> {
    /// The tile belongs to a decodable codestream and its canvas is whole.
    pub closed spec fn wf(&self) -> bool {
        &&& decodable(self@.codestream)
        &&& self@.canvas.wf()
        &&& 0 <= self@.index < self@.codestream.tiles.len()
    }

    /// The parameters that the tile decodes under.
    pub fn header(&self) -> (h: &MainHeader)
        ensures
            h@ == self@.header,
    {
        &self.header
    }

    /// The tile's components: integer samples, or coefficients that wait for their
    /// synthesis.
    pub fn samples(&self) -> (s: &Vec<Samples>)
        ensures
            samples_views(s@) == self@.samples,
    {
        &self.samples
    }

    /// Go on with the decode. `synthesised` holds the samples of the tile's
    /// irreversible components, in component order, rounded to integers.
    pub fn resume(self, synthesised: Vec<Vec<i32>>) -> (r: Result<Decoded<'a>>)
        requires
            self.wf(),
        ensures
            match r {
                Ok(d) => {
                    &&& self@.resume(plane_views(synthesised@)) == Ok::<DecodedView, Fault>(d@)
                    &&& d matches Decoded::Lossy(t) ==> t.wf()
                },
                Err(e) => self@.resume(plane_views(synthesised@)) == Err::<DecodedView, Fault>(
                    e@,
                ),
            },
    {
        let ghost view = self@;
        let mut canvas: Canvas = self.canvas;
        let tile: u32 = self.codestream.tiles[self.index].index;
        assert(view.codestream.tiles[self.index as int]
            == self.codestream.tiles@[self.index as int]@);
        place_tile(
            &mut canvas,
            &self.codestream.header,
            tile,
            self.reduction,
            self.samples,
            synthesised,
        )?;
        run(self.codestream, self.reduction, canvas, self.index + 1)
    }
}

/// Take a component's integer samples: its own, or the next synthesised ones.
fn take_plane(s: &mut Samples, synthesised: &mut Vec<Vec<i32>>, next: &mut usize) -> (r: Vec<i32>)
    requires
        old(s)@ is Irreversible ==> *old(next) < old(synthesised)@.len(),
    ensures
        final(synthesised)@.len() == old(synthesised)@.len(),
        match old(s)@ {
            SamplesView::Reversible(v) => r@ == v && *final(next) == *old(next)
                && final(synthesised)@ == old(synthesised)@,
            SamplesView::Irreversible(_, _) => {
                &&& r@ == old(synthesised)@[*old(next) as int]@
                &&& *final(next) == *old(next) + 1
                &&& forall|k: int|
                    *final(next) <= k < old(synthesised)@.len()
                        ==> #[trigger] final(synthesised)@[k] == old(synthesised)@[k]
            },
        },
{
    let mut out: Vec<i32> = Vec::new();
    match s {
        Samples::Reversible(v) => {
            std::mem::swap(v, &mut out);
        },
        Samples::Irreversible(_, _) => {
            std::mem::swap(&mut synthesised[*next], &mut out);
            assert(*next < synthesised.len());
            *next = *next + 1;
        },
    }
    out
}

/// More components hold no fewer irreversible ones.
proof fn lemma_lossy_below(samples: Seq<SamplesView>, i: nat, j: nat)
    requires
        i <= j,
    ensures
        lossy_below(samples, i) <= lossy_below(samples, j),
    decreases j,
{
    if i < j {
        lemma_lossy_below(samples, i, (j - 1) as nat);
    }
}

/// How many of a tile's components are irreversible.
fn count_lossy(samples: &Vec<Samples>) -> (n: usize)
    ensures
        n == lossy_below(samples_views(samples@), samples@.len()),
{
    let mut n: usize = 0;
    let mut c: usize = 0;
    while c < samples.len()
        invariant
            c <= samples@.len(),
            n <= c,
            n == lossy_below(samples_views(samples@), c as nat),
        decreases samples@.len() - c,
    {
        match samples[c] {
            Samples::Irreversible(_, _) => {
                n = n + 1;
            },
            Samples::Reversible(_) => {},
        }
        c = c + 1;
    }
    n
}

/// Write a whole tile onto the canvas.
fn place_tile(
    canvas: &mut Canvas,
    main: &MainHeader,
    tile: u32,
    reduction: u8,
    samples: Vec<Samples>,
    synthesised: Vec<Vec<i32>>,
) -> (r: Result<()>)
    requires
        old(canvas)@.wf(),
    ensures
        match r {
            Ok(_) => {
                &&& place_spec(
                    old(canvas)@,
                    main@.siz,
                    tile as int,
                    reduction as nat,
                    samples_views(samples@),
                    plane_views(synthesised@),
                ) == Ok::<CanvasView, Fault>(final(canvas)@)
                &&& final(canvas)@.wf()
            },
            Err(e) => place_spec(
                old(canvas)@,
                main@.siz,
                tile as int,
                reduction as nat,
                samples_views(samples@),
                plane_views(synthesised@),
            ) == Err::<CanvasView, Fault>(e@),
        },
{
    let ghost views = samples_views(samples@);
    let ghost planes = plane_views(synthesised@);
    let ghost red = reduction as nat;
    if synthesised.len() != count_lossy(&samples) {
        return Err(
            Error::Inconsistent(
                "a tile's irreversible components were not all synthesised".to_string(),
            ),
        );
    }
    let count: usize = samples.len();
    let mut parts: Vec<Samples> = samples;
    let mut rest: Vec<Vec<i32>> = synthesised;
    let mut next: usize = 0;
    let mut c: usize = 0;
    while c < count
        invariant
            canvas@.wf(),
            red == reduction,
            views == samples_views(samples@),
            planes == plane_views(synthesised@),
            count == views.len(),
            parts@.len() == count,
            rest@.len() == planes.len(),
            planes.len() == lossy_below(views, views.len()),
            c <= count,
            next == lossy_below(views, c as nat),
            forall|k: int| c <= k < count ==> (#[trigger] parts@[k])@ == views[k],
            forall|k: int| next <= k < planes.len() ==> (#[trigger] rest@[k])@ == planes[k],
            place_from(old(canvas)@, main@.siz, tile as int, red, views, planes, 0) == place_from(
                canvas@,
                main@.siz,
                tile as int,
                red,
                views,
                planes,
                c as int,
            ),
        decreases count - c,
    {
        proof {
            lemma_lossy_below(views, (c + 1) as nat, views.len());
        }
        let rect: Rect = match main.siz.tile_component_rect(tile, c) {
            Some(rect) => rect.reduced(reduction),
            None => {
                return Err(Error::Inconsistent(no_place(tile, c)));
            },
        };
        let plane: Vec<i32> = take_plane(&mut parts[c], &mut rest, &mut next);
        assert(plane@ == plane_of(views, planes, c as int));
        canvas.place(c, rect, plane)?;
        c = c + 1;
    }
    Ok(())
}

/// Check that a reduction leaves every component of a tile a resolution.
fn check_reduction(header: &MainHeader, tile: u32, reduction: u8) -> (r: Result<()>)
    ensures
        match r {
            Ok(_) => !exhausts(header@, reduction as nat),
            Err(e) => exhausts(header@, reduction as nat) && e@ == fault(
                ErrorKind::InvalidOptions,
                exhausted_text(header@, reduction as nat, tile as int),
            ),
        },
{
    let mut c: usize = 0;
    while c < header.components.len()
        invariant
            c <= header@.components.len(),
            first_exhausted(header@, reduction as nat, c as int) == first_exhausted(
                header@,
                reduction as nat,
                0,
            ),
            forall|k: int|
                0 <= k < c ==> reduction <= (
                #[trigger] header@.components[k]).coding.decomposition_levels,
        decreases header@.components.len() - c,
    {
        assert(header@.components[c as int] == header.components@[c as int]@);
        if reduction > header.components[c].coding.decomposition_levels {
            return Err(
                Error::InvalidOptions(
                    "resolution reduction ".to_string().concat(
                        decimal(reduction as u64).as_str(),
                    ).concat(" discards all ").concat(
                        decimal(
                            header.components[c].coding.decomposition_levels as u64 + 1,
                        ).as_str(),
                    ).concat(" resolutions of component ").concat(
                        decimal(c as u64).as_str(),
                    ).concat(" in tile ").concat(decimal(tile as u64).as_str()),
                ),
            );
        }
        c = c + 1;
    }
    Ok(())
}

/// The components of a tile, last first.
fn reversed(coeffs: Vec<SubbandCoeffs>) -> (r: Vec<SubbandCoeffs>)
    ensures
        r@.len() == coeffs@.len(),
        forall|k: int| 0 <= k < r@.len() ==> #[trigger] r@[k] == coeffs@[r@.len() - 1 - k],
{
    let mut rest: Vec<SubbandCoeffs> = coeffs;
    let mut out: Vec<SubbandCoeffs> = Vec::new();
    while rest.len() > 0
        invariant
            rest@.len() + out@.len() == coeffs@.len(),
            forall|k: int| 0 <= k < rest@.len() ==> #[trigger] rest@[k] == coeffs@[k],
            forall|k: int|
                0 <= k < out@.len() ==> #[trigger] out@[k] == coeffs@[coeffs@.len() - 1 - k],
        decreases rest@.len(),
    {
        match rest.pop() {
            Some(c) => {
                out.push(c);
            },
            None => {},
        }
    }
    out
}

/// Inverse-transform every component of a tile.
fn inverse_all(header: &MainHeader, coeffs: Vec<SubbandCoeffs>) -> (r: Result<Vec<Samples>>)
    requires
        forall|c: int|
            0 <= c < coeffs@.len() ==> (#[trigger] coeffs_views(coeffs@)[c]
                matches CoeffsView::Reversible(b) ==> pyramid_fits(b.ll, b.levels, 0)),
    ensures
        match r {
            Ok(s) => samples_from(header@, coeffs_views(coeffs@), Seq::empty()) == Ok::<
                Seq<SamplesView>,
                Fault,
            >(samples_views(s@)),
            Err(e) => samples_from(header@, coeffs_views(coeffs@), Seq::empty()) == Err::<
                Seq<SamplesView>,
                Fault,
            >(e@),
        },
{
    let ghost views = coeffs_views(coeffs@);
    let count: usize = coeffs.len();
    let mut rest: Vec<SubbandCoeffs> = reversed(coeffs);
    let mut samples: Vec<Samples> = Vec::new();
    assert(samples_views(samples@) =~= Seq::empty());
    while samples.len() < count
        invariant
            views == coeffs_views(coeffs@),
            views.len() == count,
            forall|c: int|
                0 <= c < views.len() ==> (#[trigger] views[c] matches CoeffsView::Reversible(b)
                    ==> pyramid_fits(b.ll, b.levels, 0)),
            samples@.len() <= count,
            rest@.len() == count - samples@.len(),
            forall|k: int| 0 <= k < rest@.len() ==> (#[trigger] rest@[k])@ == views[count - 1 - k],
            samples_from(header@, views, Seq::empty()) == samples_from(
                header@,
                views,
                samples_views(samples@),
            ),
        decreases count - samples@.len(),
    {
        let c: usize = samples.len();
        let ghost before = samples_views(samples@);
        match rest.pop() {
            Some(part) => {
                assert(part@ == views[c as int]);
                let s: Samples = inverse(header, c, part)?;
                let ghost view = s@;
                samples.push(s);
                assert(samples_views(samples@) =~= before.push(view));
            },
            None => {},
        }
    }
    Ok(samples)
}

/// Decode one tile under its parameters.
fn decode_tile(header: &MainHeader, tile: &Tile<'_>, reduction: u8) -> (r: Result<Vec<Samples>>)
    requires
        header_legal(header@),
        crate::tier2::layout::tile_admitted(header@.siz, tile@.index as int),
        header@.wf(),
        header@.components.len() > 0,
    ensures
        match r {
            Ok(s) => tile_samples(header@, tile@, reduction as nat) == Ok::<
                Seq<SamplesView>,
                Fault,
            >(samples_views(s@)),
            Err(e) => tile_samples(header@, tile@, reduction as nat) == Err::<
                Seq<SamplesView>,
                Fault,
            >(e@),
        },
{
    reveal(tile_samples);
    let ghost h = header@;
    let ghost t = tile@.index as int;
    check_reduction(header, tile.index, reduction)?;
    let coded: CodedData<'_> = decode_packets(header, tile)?;
    proof {
        lemma_packets_laid_out(h, tile@);
        lemma_laid_out_wf(h, t, coded@);
        lemma_coeffs_mergeable(h, t, coded@, reduction as nat, Seq::empty());
    }
    let coeffs: Vec<SubbandCoeffs> = decode_code_blocks(header, &coded, reduction)?;
    let ghost views = coeffs_views(coeffs@);
    assert forall|c: int| 0 <= c < views.len() implies (#[trigger] views[c] matches CoeffsView::Reversible(b)
        ==> pyramid_fits(b.ll, b.levels, 0)) by {}
    let mut samples: Vec<Samples> = inverse_all(header, coeffs)?;
    if header.cod.multiple_component_transform {
        assert(h.components[0] == header.components@[0]@);
        match header.components[0].coding.transform {
            Transform::Reversible53 => {
                inverse_rct(&mut samples)?;
            },
            Transform::Irreversible97 => {},
        }
    }
    Ok(samples)
}

/// Decode the tiles from `index` on.
fn run<'a>(codestream: Codestream<'a>, reduction: u8, start: Canvas, index: usize) -> (r: Result<
    Decoded<'a>,
>)
    requires
        decodable(codestream@),
        start@.wf(),
        index <= codestream@.tiles.len(),
    ensures
        match r {
            Ok(d) => {
                &&& run_from(codestream@, reduction as nat, start@, index as int) == Ok::<
                    DecodedView,
                    Fault,
                >(d@)
                &&& d matches Decoded::Lossy(t) ==> t.wf()
            },
            Err(e) => run_from(codestream@, reduction as nat, start@, index as int) == Err::<
                DecodedView,
                Fault,
            >(e@),
        },
{
    let ghost cs = codestream@;
    let ghost red = reduction as nat;
    let ghost goal = run_from(cs, red, start@, index as int);
    let mut canvas: Canvas = start;
    let mut i: usize = index;
    while i < codestream.tiles.len()
        invariant
            cs == codestream@,
            decodable(cs),
            red == reduction,
            canvas@.wf(),
            i <= cs.tiles.len(),
            goal == run_from(cs, red, canvas@, i as int),
            goal == run_from(codestream@, reduction as nat, start@, index as int),
        decreases cs.tiles.len() - i,
    {
        let tile: &Tile<'a> = &codestream.tiles[i];
        assert(cs.tiles[i as int] == tile@);
        assert(tile_decodable(cs.header, cs.tiles[i as int], i as int));
        let header: MainHeader = codestream.tile_header(i)?;
        proof {
            lemma_tile_admitted(cs.header.siz, i as int);
        }
        let samples: Vec<Samples> = decode_tile(&header, tile, reduction)?;
        if count_lossy(&samples) > 0 {
            return Ok(
                Decoded::Lossy(
                    LossyTile { codestream, reduction, canvas, index: i, header, samples },
                ),
            );
        }
        let none: Vec<Vec<i32>> = Vec::new();
        assert(plane_views(none@) =~= Seq::empty());
        place_tile(&mut canvas, &codestream.header, tile.index, reduction, samples, none)?;
        i = i + 1;
    }
    let image: Image = assemble(&codestream.header, canvas.into_planes(), reduction)?;
    Ok(Decoded::Image(image))
}

/// Decode a JPEG 2000 codestream: the reference-grid image area and one component
/// per SIZ component, each on its own sample grid.
///
/// Pass the bare codestream, not a `.jp2` file. Anything outside the decoded
/// subset is rejected, never half-decoded.
pub fn decode(codestream: &[u8]) -> (r: Result<Decoded<'_>>)
    ensures
        match r {
            Ok(d) => {
                &&& decode_spec(codestream@, 0) == Ok::<DecodedView, Fault>(d@)
                &&& d matches Decoded::Lossy(t) ==> t.wf()
            },
            Err(e) => decode_spec(codestream@, 0) == Err::<DecodedView, Fault>(e@),
        },
{
    decode_with(codestream, DecodeOptions::default())
}

/// Decode a JPEG 2000 codestream like [`decode`], governed by `options`.
pub fn decode_with(codestream: &[u8], options: DecodeOptions) -> (r: Result<Decoded<'_>>)
    ensures
        match r {
            Ok(d) => {
                &&& decode_spec(codestream@, options.resolution_reduction as nat) == Ok::<
                    DecodedView,
                    Fault,
                >(d@)
                &&& d matches Decoded::Lossy(t) ==> t.wf()
            },
            Err(e) => decode_spec(codestream@, options.resolution_reduction as nat) == Err::<
                DecodedView,
                Fault,
            >(e@),
        },
{
    let cs: Codestream<'_> = parse(codestream)?;
    let reduction: u8 = options.resolution_reduction;
    proof {
        lemma_parsed_decodable(codestream@);
        lemma_planes_fit(cs@.header.siz, reduction as nat);
    }
    let canvas: Canvas = Canvas::new(&cs.header, reduction)?;
    run(cs, reduction, canvas, 0)
}

} // verus!
