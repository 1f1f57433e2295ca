//! The scene: gaussians, background and camera.
//!
//! Every real number is held as the bit pattern of a single-precision IEEE 754 value.

use vstd::prelude::*;

use crate::bits::{
    culled, is_culled, lemma_order_key_injective, order_key, BLUR_EPS, NEAR, ZERO,
};
use crate::order::{
    drawn_before, far_to_near, indices, is_far_to_near, is_increasing, lemma_far_first,
    lemma_far_to_near_covers,
    lemma_increasing_unique, lemma_map_multiset,
};

pub use crate::ply::parse_ply;

verus! {

/// One gaussian, as it is stored (before any activation).
#[derive(Clone, Copy, Debug, PartialEq, Eq)]
pub struct Gaussian {
    pub mean: [u32; 3],
    /// The logarithm of the scale along each axis.
    pub log_scale: [u32; 3],
    /// The rotation as a quaternion `w, x, y, z`, of any length.
    pub quat: [u32; 4],
    /// The color's spherical-harmonics coefficient of degree zero, for each channel.
    pub color_dc: [u32; 3],
    /// The opacity before the sigmoid.
    pub opacity_raw: u32,
    /// The color's coefficients of degrees one to three: fifteen for each channel, one channel
    /// after the other.
    pub sh: Option<[u32; 45]>,
}

/// What a [`Gaussian`] holds, as a mathematical value.
#[verifier::ext_equal]
pub struct GaussianModel {
    pub mean: Seq<u32>,
    pub log_scale: Seq<u32>,
    pub quat: Seq<u32>,
    pub color_dc: Seq<u32>,
    pub opacity_raw: u32,
    pub sh: Option<Seq<u32>>,
}

impl View for Gaussian {
    type V = GaussianModel;

    open spec fn view(&self) -> GaussianModel {
        GaussianModel {
            mean: self.mean@,
            log_scale: self.log_scale@,
            quat: self.quat@,
            color_dc: self.color_dc@,
            opacity_raw: self.opacity_raw,
            sh: match self.sh {
                Some(sh) => Some(sh@),
                None => None,
            },
        }
    }
}

/// What a list of gaussians holds.
pub open spec fn gaussians_model(gaussians: Seq<Gaussian>) -> Seq<GaussianModel> {
    gaussians.map_values(|g: Gaussian| g@)
}

/// The background: it enters a pixel's weighted mean of colors with a weight of its own.
#[derive(Clone, Copy, Debug, PartialEq, Eq)]
pub struct Background {
    pub w_b: u32,
    pub c_b: [u32; 3],
}

/// The background for a file that has none: black, of the weight 0.02.
pub fn default_background() -> (bg: Background)
    ensures
        bg.w_b == 0x3ca3_d70au32,
        bg.c_b@ == seq![ZERO, ZERO, ZERO],
{
    let bg = Background { w_b: 0x3ca3_d70a, c_b: [ZERO, ZERO, ZERO] };
    assert(bg.c_b@ =~= seq![ZERO, ZERO, ZERO]);
    bg
}

/// A pinhole camera that looks along `+z` with `+y` down: how the world turns and moves into its
/// space, and how that is projected onto an image.
#[derive(Clone, Copy, Debug, PartialEq, Eq)]
pub struct Camera {
    /// The rotation from world to camera, one column after the other.
    pub r_v: [u32; 9],
    pub t_v: [u32; 3],
    pub fx: u32,
    pub fy: u32,
    pub cx: u32,
    pub cy: u32,
    pub width: u32,
    pub height: u32,
}

/// The entries of a 3 by 3 matrix in the other order: by columns where they were by rows.
pub open spec fn transposed(m: Seq<u32>) -> Seq<u32> {
    Seq::new(9, |i: int| m[i % 3 * 3 + i / 3])
}

impl Camera {
    /// The camera of a rotation from world to camera, given row by row, and a translation.
    pub fn from_rt(
        r_v: [u32; 9],
        t_v: [u32; 3],
        fx: u32,
        fy: u32,
        cx: u32,
        cy: u32,
        width: u32,
        height: u32,
    ) -> (cam: Camera)
        ensures
            cam.r_v@ == transposed(r_v@),
            forall|row: int, col: int|
                0 <= row < 3 && 0 <= col < 3 ==> #[trigger] cam.r_v@[col * 3 + row] == r_v@[row * 3
                    + col],
            cam.t_v@ == t_v@,
            cam.fx == fx,
            cam.fy == fy,
            cam.cx == cx,
            cam.cy == cy,
            cam.width == width,
            cam.height == height,
    {
        let columns: [u32; 9] = [
            r_v[0],
            r_v[3],
            r_v[6],
            r_v[1],
            r_v[4],
            r_v[7],
            r_v[2],
            r_v[5],
            r_v[8],
        ];
        assert(columns@ =~= transposed(r_v@));
        Camera { r_v: columns, t_v, fx, fy, cx, cy, width, height }
    }
}

/// A gaussian projected for one camera: what the GPU draws as one quad.
#[derive(Clone, Copy, Debug, PartialEq, Eq)]
pub struct InstanceRaw {
    /// The center in pixels.
    pub mu2d: [u32; 2],
    /// Half the size of the quad in pixels.
    pub half_extent: [u32; 2],
    /// The inverse of the projected covariance: `xx`, `xy`, `yy`.
    pub conic: [u32; 3],
    pub opacity: u32,
    pub color: [u32; 3],
    pub depth: u32,
}

/// A gaussian as the GPU projects it itself: four vectors of four numbers.
#[derive(Clone, Copy, Debug, PartialEq, Eq)]
pub struct GaussianRaw {
    pub mean_opacity: [u32; 4],
    pub log_scale: [u32; 4],
    pub quat: [u32; 4],
    pub color_dc: [u32; 4],
}

/// What a [`GaussianRaw`] holds, as a mathematical value.
#[verifier::ext_equal]
pub struct GaussianRawModel {
    pub mean_opacity: Seq<u32>,
    pub log_scale: Seq<u32>,
    pub quat: Seq<u32>,
    pub color_dc: Seq<u32>,
}

impl View for GaussianRaw {
    type V = GaussianRawModel;

    open spec fn view(&self) -> GaussianRawModel {
        GaussianRawModel {
            mean_opacity: self.mean_opacity@,
            log_scale: self.log_scale@,
            quat: self.quat@,
            color_dc: self.color_dc@,
        }
    }
}

/// A gaussian packed for the GPU: the opacity behind the center, zeros behind the other vectors of
/// three.
pub open spec fn packed(g: GaussianModel) -> GaussianRawModel {
    GaussianRawModel {
        mean_opacity: g.mean.push(g.opacity_raw),
        log_scale: g.log_scale.push(ZERO),
        quat: g.quat,
        color_dc: g.color_dc.push(ZERO),
    }
}

/// What a list of packed gaussians holds.
pub open spec fn raws_model(raws: Seq<GaussianRaw>) -> Seq<GaussianRawModel> {
    raws.map_values(|r: GaussianRaw| r@)
}

/// Packs a gaussian for the GPU.
fn raw_of(g: &Gaussian) -> (raw: GaussianRaw)
    ensures
        raw@ == packed(g@),
{
    let raw = GaussianRaw {
        mean_opacity: [g.mean[0], g.mean[1], g.mean[2], g.opacity_raw],
        log_scale: [g.log_scale[0], g.log_scale[1], g.log_scale[2], ZERO],
        quat: g.quat,
        color_dc: [g.color_dc[0], g.color_dc[1], g.color_dc[2], ZERO],
    };
    assert(raw@ =~= packed(g@));
    raw
}

/// Packs gaussians for the GPU, in their order.
pub fn to_raw(gaussians: &[Gaussian]) -> (raws: Vec<GaussianRaw>)
    ensures
        raws_model(raws@) == gaussians_model(gaussians@).map_values(|g: GaussianModel| packed(g)),
{
    let mut raws: Vec<GaussianRaw> = Vec::new();
    let mut i: usize = 0;
    while i < gaussians.len()
        invariant
            i <= gaussians@.len(),
            raws@.len() == i,
            forall|k: int| 0 <= k < i ==> (#[trigger] raws@[k])@ == packed(gaussians@[k]@),
        decreases gaussians@.len() - i,
    {
        raws.push(raw_of(&gaussians[i]));
        i += 1;
    }
    assert(raws_model(raws@) =~= gaussians_model(gaussians@).map_values(
        |g: GaussianModel| packed(g),
    ));
    raws
}

/// Packs gaussians for the GPU, the farthest first. `depths` holds the depth of each gaussian in
/// camera space.
pub fn sorted_raw(gaussians: &[Gaussian], depths: &[u32]) -> (raws: Vec<GaussianRaw>)
    requires
        gaussians@.len() == depths@.len(),
    ensures
        exists|order: Seq<usize>| #[trigger]
            is_far_to_near(depths@, order) && raws_model(raws@) == order.map_values(
                |i: usize| packed(gaussians@[i as int]@),
            ),
{
    let order = far_to_near(depths);
    let mut raws: Vec<GaussianRaw> = Vec::new();
    let mut i: usize = 0;
    while i < order.len()
        invariant
            i <= order@.len(),
            gaussians@.len() == depths@.len(),
            forall|k: int| 0 <= k < order@.len() ==> #[trigger] order@[k] < depths@.len(),
            raws@.len() == i,
            forall|k: int|
                0 <= k < i ==> (#[trigger] raws@[k])@ == packed(gaussians@[order@[k] as int]@),
        decreases order@.len() - i,
    {
        raws.push(raw_of(&gaussians[order[i]]));
        i += 1;
    }
    assert(raws_model(raws@) =~= order@.map_values(|i: usize| packed(gaussians@[i as int]@)));
    raws
}

/// What the GPU needs of a camera to project gaussians itself: six vectors of four numbers.
#[derive(Clone, Copy, Debug, PartialEq, Eq)]
pub struct CamUniform {
    /// The columns of the rotation, each with a zero behind it.
    pub r_v0: [u32; 4],
    pub r_v1: [u32; 4],
    pub r_v2: [u32; 4],
    /// The translation and the near plane.
    pub t_v_near: [u32; 4],
    /// `fx`, `fy`, `cx`, `cy`.
    pub intr: [u32; 4],
    /// The image's width and height, the squared size of a quad in standard deviations, and the
    /// low-pass.
    pub misc: [u32; 4],
}

/// Whether `uniform` has the numbers of a camera, each in its place: number `r` of the rotation's
/// column `c` at place `r` of vector `c`, and so on.
pub open spec fn is_uniform_of(
    uniform: CamUniform,
    cam: Camera,
    viewport: Seq<u32>,
    radius_squared: u32,
) -> bool {
    let columns = seq![uniform.r_v0@, uniform.r_v1@, uniform.r_v2@];
    &&& forall|c: int, r: int|
        0 <= c < 3 && 0 <= r < 3 ==> #[trigger] columns[c][r] == cam.r_v@[c * 3 + r]
    &&& forall|c: int| 0 <= c < 3 ==> (#[trigger] columns[c])[3] == 0
    &&& forall|r: int| 0 <= r < 3 ==> uniform.t_v_near@[r] == #[trigger] cam.t_v@[r]
    &&& uniform.t_v_near@[3] == NEAR
    &&& uniform.intr@ == seq![cam.fx, cam.fy, cam.cx, cam.cy]
    &&& uniform.misc@ == seq![viewport[0], viewport[1], radius_squared, BLUR_EPS]
}

/// Packs a camera for the GPU. `viewport` holds the image's width and height as numbers, and
/// `radius_squared` the square of half a quad's size in standard deviations.
pub fn cam_uniform(cam: &Camera, viewport: [u32; 2], radius_squared: u32) -> (uniform: CamUniform)
    ensures
        uniform.r_v0@ == cam.r_v@.subrange(0, 3).push(ZERO),
        uniform.r_v1@ == cam.r_v@.subrange(3, 6).push(ZERO),
        uniform.r_v2@ == cam.r_v@.subrange(6, 9).push(ZERO),
        uniform.t_v_near@ == cam.t_v@.push(NEAR),
        uniform.intr@ == seq![cam.fx, cam.fy, cam.cx, cam.cy],
        uniform.misc@ == viewport@ + seq![radius_squared, BLUR_EPS],
        is_uniform_of(uniform, *cam, viewport@, radius_squared),
{
    let c = cam.r_v;
    let uniform = CamUniform {
        r_v0: [c[0], c[1], c[2], ZERO],
        r_v1: [c[3], c[4], c[5], ZERO],
        r_v2: [c[6], c[7], c[8], ZERO],
        t_v_near: [cam.t_v[0], cam.t_v[1], cam.t_v[2], NEAR],
        intr: [cam.fx, cam.fy, cam.cx, cam.cy],
        misc: [viewport[0], viewport[1], radius_squared, BLUR_EPS],
    };
    assert(uniform.r_v0@ =~= cam.r_v@.subrange(0, 3).push(ZERO));
    assert(uniform.r_v1@ =~= cam.r_v@.subrange(3, 6).push(ZERO));
    assert(uniform.r_v2@ =~= cam.r_v@.subrange(6, 9).push(ZERO));
    assert(uniform.t_v_near@ =~= cam.t_v@.push(NEAR));
    assert(uniform.intr@ =~= seq![cam.fx, cam.fy, cam.cx, cam.cy]);
    assert(uniform.misc@ =~= viewport@ + seq![radius_squared, BLUR_EPS]);
    assert(uniform.misc@ =~= seq![viewport@[0], viewport@[1], radius_squared, BLUR_EPS]);
    uniform
}

/// Where the color of a drawn gaussian comes from.
#[derive(Clone, Copy, Debug, PartialEq, Eq, Structural)]
pub enum ColorSource {
    /// The coefficient of degree zero alone.
    Dc,
    /// All coefficients, seen from the camera.
    Sh,
}

/// A gaussian to draw: its place in the scene and where its color comes from.
#[derive(Clone, Copy, Debug, PartialEq, Eq, Structural)]
pub struct Draw {
    pub index: usize,
    pub color: ColorSource,
}

/// Where a gaussian's color comes from: from all coefficients where they are asked for and the
/// gaussian has them.
pub open spec fn color_source(g: Gaussian, eval_sh: bool) -> ColorSource {
    if eval_sh && g.sh is Some {
        ColorSource::Sh
    } else {
        ColorSource::Dc
    }
}

/// The draws of the first `n` gaussians: those that are not culled, in their order.
pub open spec fn draws_of(
    gaussians: Seq<Gaussian>,
    depths: Seq<u32>,
    eval_sh: bool,
    n: nat,
) -> Seq<Draw>
    decreases n,
{
    if n == 0 {
        seq![]
    } else {
        let before = draws_of(gaussians, depths, eval_sh, (n - 1) as nat);
        if is_culled(depths[n - 1]) {
            before
        } else {
            before.push(
                Draw {
                    index: (n - 1) as usize,
                    color: color_source(gaussians[n - 1], eval_sh),
                },
            )
        }
    }
}

/// Decides which gaussians are drawn, and how each is colored. `depths` holds the depth of each
/// gaussian in camera space; what is not behind the near plane is dropped. With `eval_sh`, the
/// color of a gaussian that has higher coefficients depends on the view.
pub fn preprocess(gaussians: &[Gaussian], depths: &[u32], eval_sh: bool) -> (draws: Vec<Draw>)
    requires
        gaussians@.len() == depths@.len(),
    ensures
        draws@ == draws_of(gaussians@, depths@, eval_sh, gaussians@.len()),
        forall|k: int|
            0 <= k < draws@.len() ==> (#[trigger] draws@[k]).index < gaussians@.len(),
{
    let mut draws: Vec<Draw> = Vec::new();
    let mut i: usize = 0;
    while i < gaussians.len()
        invariant
            i <= gaussians@.len(),
            gaussians@.len() == depths@.len(),
            draws@ == draws_of(gaussians@, depths@, eval_sh, i as nat),
            forall|k: int|
                0 <= k < draws@.len() ==> (#[trigger] draws@[k]).index < gaussians@.len(),
        decreases gaussians@.len() - i,
    {
        if !culled(depths[i]) {
            let color = if eval_sh && gaussians[i].sh.is_some() {
                ColorSource::Sh
            } else {
                ColorSource::Dc
            };
            draws.push(Draw { index: i, color });
        }
        i += 1;
    }
    draws
}

/// The depths of the gaussians to draw.
pub open spec fn draw_depths(draws: Seq<Draw>, depths: Seq<u32>) -> Seq<u32> {
    draws.map_values(|d: Draw| depths[d.index as int])
}

/// Like [`preprocess`], with the farthest gaussian first.
pub fn preprocess_sorted(gaussians: &[Gaussian], depths: &[u32], eval_sh: bool) -> (sorted: Vec<
    Draw,
>)
    requires
        gaussians@.len() == depths@.len(),
    ensures
        ({
            let draws = draws_of(gaussians@, depths@, eval_sh, gaussians@.len());
            exists|order: Seq<usize>| #[trigger]
                is_far_to_near(draw_depths(draws, depths@), order) && sorted@ == order.map_values(
                    |i: usize| draws[i as int],
                )
        }),
        forall|k: int|
            0 <= k < sorted@.len() ==> (#[trigger] sorted@[k]).index < gaussians@.len(),
{
    let draws = preprocess(gaussians, depths, eval_sh);
    let mut keys: Vec<u32> = Vec::new();
    let mut i: usize = 0;
    while i < draws.len()
        invariant
            i <= draws@.len(),
            gaussians@.len() == depths@.len(),
            forall|k: int|
                0 <= k < draws@.len() ==> (#[trigger] draws@[k]).index < gaussians@.len(),
            keys@ == draw_depths(draws@.take(i as int), depths@),
        decreases draws@.len() - i,
    {
        keys.push(depths[draws[i].index]);
        assert(keys@ =~= draw_depths(draws@.take(i + 1), depths@));
        i += 1;
    }
    assert(draws@.take(i as int) =~= draws@);
    let order = far_to_near(keys.as_slice());
    let mut sorted: Vec<Draw> = Vec::new();
    let mut j: usize = 0;
    while j < order.len()
        invariant
            j <= order@.len(),
            keys@.len() == draws@.len(),
            forall|k: int| 0 <= k < order@.len() ==> #[trigger] order@[k] < keys@.len(),
            forall|k: int|
                0 <= k < draws@.len() ==> (#[trigger] draws@[k]).index < gaussians@.len(),
            sorted@.len() == j,
            forall|k: int| 0 <= k < j ==> #[trigger] sorted@[k] == draws@[order@[k] as int],
        decreases order@.len() - j,
    {
        sorted.push(draws[order[j]]);
        j += 1;
    }
    assert(sorted@ =~= order@.map_values(|i: usize| draws@[i as int]));
    sorted
}

/// Packing gaussians far to near gives the same packed gaussians as packing them in their order.
pub proof fn lemma_sorted_raw_same_gaussians(
    gaussians: Seq<Gaussian>,
    depths: Seq<u32>,
    order: Seq<usize>,
)
    requires
        gaussians.len() == depths.len() <= usize::MAX,
        is_far_to_near(depths, order),
    ensures
        order.map_values(|i: usize| packed(gaussians[i as int]@)).to_multiset() == gaussians_model(
            gaussians,
        ).map_values(|g: GaussianModel| packed(g)).to_multiset(),
{
    let f = |i: usize| packed(gaussians[i as int]@);
    lemma_map_multiset(order, indices(depths.len()), f);
    assert(indices(depths.len()).map_values(f) =~= gaussians_model(gaussians).map_values(
        |g: GaussianModel| packed(g),
    ));
}

/// Drawing far to near draws the same gaussians, with the same colors, as drawing in their order.
pub proof fn lemma_preprocess_sorted_same_draws(
    gaussians: Seq<Gaussian>,
    depths: Seq<u32>,
    eval_sh: bool,
    order: Seq<usize>,
)
    requires
        gaussians.len() == depths.len() <= usize::MAX,
        is_far_to_near(
            draw_depths(draws_of(gaussians, depths, eval_sh, gaussians.len()), depths),
            order,
        ),
    ensures
        ({
            let draws = draws_of(gaussians, depths, eval_sh, gaussians.len());
            order.map_values(|i: usize| draws[i as int]).to_multiset() == draws.to_multiset()
        }),
{
    let draws = draws_of(gaussians, depths, eval_sh, gaussians.len());
    lemma_draws_len(gaussians, depths, eval_sh, gaussians.len());
    let f = |i: usize| draws[i as int];
    lemma_map_multiset(order, indices(draws.len()), f);
    assert(indices(draws.len()).map_values(f) =~= draws);
}

proof fn lemma_draws_len(gaussians: Seq<Gaussian>, depths: Seq<u32>, eval_sh: bool, n: nat)
    ensures
        draws_of(gaussians, depths, eval_sh, n).len() <= n,
    decreases n,
{
    if n > 0 {
        lemma_draws_len(gaussians, depths, eval_sh, (n - 1) as nat);
    }
}

/// A gaussian is drawn if and only if it is not culled, once, and in its place among the others.
pub proof fn lemma_draws_are_the_visible(
    gaussians: Seq<Gaussian>,
    depths: Seq<u32>,
    eval_sh: bool,
    n: nat,
)
    requires
        n <= gaussians.len() == depths.len() <= usize::MAX,
    ensures
        ({
            let draws = draws_of(gaussians, depths, eval_sh, n);
            &&& forall|k: int|
                0 <= k < draws.len() ==> {
                    &&& (#[trigger] draws[k]).index < n
                    &&& !is_culled(depths[draws[k].index as int])
                    &&& draws[k].color == color_source(gaussians[draws[k].index as int], eval_sh)
                }
            &&& forall|j: int, k: int|
                0 <= j < k < draws.len() ==> (#[trigger] draws[j]).index < (
                #[trigger] draws[k]).index
            &&& forall|i: int|
                0 <= i < n && !is_culled(#[trigger] depths[i]) ==> exists|k: int|
                    0 <= k < draws.len() && (#[trigger] draws[k]).index == i
        }),
    decreases n,
{
    if n > 0 {
        let m = (n - 1) as nat;
        lemma_draws_are_the_visible(gaussians, depths, eval_sh, m);
        let before = draws_of(gaussians, depths, eval_sh, m);
        let draws = draws_of(gaussians, depths, eval_sh, n);
        assert forall|i: int| 0 <= i < n && !is_culled(#[trigger] depths[i]) implies exists|k: int|
            0 <= k < draws.len() && (#[trigger] draws[k]).index == i by {
            if i < m {
                let k = choose|k: int| 0 <= k < before.len() && (#[trigger] before[k]).index == i;
                assert(draws[k].index == i);
            } else {
                assert(draws[draws.len() - 1].index == i);
            }
        }
    }
}

/// Where no gaussian has higher coefficients, asking for them changes nothing.
pub proof fn lemma_dc_only_scene(gaussians: Seq<Gaussian>, depths: Seq<u32>, n: nat)
    requires
        n <= gaussians.len(),
        forall|i: int| 0 <= i < gaussians.len() ==> (#[trigger] gaussians[i]).sh is None,
    ensures
        draws_of(gaussians, depths, true, n) == draws_of(gaussians, depths, false, n),
    decreases n,
{
    if n > 0 {
        lemma_dc_only_scene(gaussians, depths, (n - 1) as nat);
        assert(gaussians[n - 1].sh is None);
    }
}

/// Reading a matrix by rows and by columns are inverse to each other.
pub proof fn lemma_transposed_twice(m: Seq<u32>)
    requires
        m.len() == 9,
    ensures
        transposed(transposed(m)) == m,
{
    assert(transposed(transposed(m)) =~= m);
}

/// Draws of a scene that stands behind `n` gaussians of a larger one.
pub open spec fn behind(draws: Seq<Draw>, n: nat) -> Seq<Draw> {
    draws.map_values(|d: Draw| Draw { index: (d.index + n) as usize, color: d.color })
}

/// The draws of a joined scene are those of its parts, one after the other.
pub proof fn lemma_draws_of_joined(
    a: Seq<Gaussian>,
    depths_a: Seq<u32>,
    b: Seq<Gaussian>,
    depths_b: Seq<u32>,
    eval_sh: bool,
)
    requires
        a.len() == depths_a.len(),
        b.len() == depths_b.len(),
        a.len() + b.len() <= usize::MAX,
    ensures
        draws_of(a + b, depths_a + depths_b, eval_sh, (a + b).len()) == draws_of(
            a,
            depths_a,
            eval_sh,
            a.len(),
        ) + behind(draws_of(b, depths_b, eval_sh, b.len()), a.len()),
{
    lemma_draws_of_prefix(a, depths_a, b, depths_b, eval_sh, a.len());
    lemma_draws_of_suffix(a, depths_a, b, depths_b, eval_sh, b.len());
}

proof fn lemma_draws_of_prefix(
    a: Seq<Gaussian>,
    depths_a: Seq<u32>,
    b: Seq<Gaussian>,
    depths_b: Seq<u32>,
    eval_sh: bool,
    n: nat,
)
    requires
        n <= a.len() == depths_a.len(),
    ensures
        draws_of(a + b, depths_a + depths_b, eval_sh, n) == draws_of(a, depths_a, eval_sh, n),
    decreases n,
{
    if n > 0 {
        lemma_draws_of_prefix(a, depths_a, b, depths_b, eval_sh, (n - 1) as nat);
    }
}

proof fn lemma_draws_of_suffix(
    a: Seq<Gaussian>,
    depths_a: Seq<u32>,
    b: Seq<Gaussian>,
    depths_b: Seq<u32>,
    eval_sh: bool,
    n: nat,
)
    requires
        a.len() == depths_a.len(),
        n <= b.len() == depths_b.len(),
        a.len() + b.len() <= usize::MAX,
    ensures
        draws_of(a + b, depths_a + depths_b, eval_sh, a.len() + n) == draws_of(
            a + b,
            depths_a + depths_b,
            eval_sh,
            a.len(),
        ) + behind(draws_of(b, depths_b, eval_sh, n), a.len()),
    decreases n,
{
    let all = draws_of(a + b, depths_a + depths_b, eval_sh, a.len() + n);
    let front = draws_of(a + b, depths_a + depths_b, eval_sh, a.len());
    let back = draws_of(b, depths_b, eval_sh, n);
    if n > 0 {
        let m = (n - 1) as nat;
        lemma_draws_of_suffix(a, depths_a, b, depths_b, eval_sh, m);
        let before = draws_of(b, depths_b, eval_sh, m);
        assert((a + b)[a.len() + m as int] == b[m as int]);
        assert((depths_a + depths_b)[a.len() + m as int] == depths_b[m as int]);
        assert(all =~= front + behind(back, a.len())) by {
            if !is_culled(depths_b[m as int]) {
                let last = Draw { index: m as usize, color: color_source(b[m as int], eval_sh) };
                let moved = Draw { index: (m + a.len()) as usize, color: last.color };
                assert(back =~= before.push(last));
                assert(behind(back, a.len()) =~= behind(before, a.len()).push(moved));
            }
        }
    } else {
        assert(behind(back, a.len()) =~= Seq::<Draw>::empty());
        assert(all =~= front + behind(back, a.len()));
    }
}

/// Where colors do not depend on the view, higher coefficients do not matter: scenes that differ
/// in nothing else are drawn, and packed, alike.
pub proof fn lemma_higher_coefficients_unused(
    a: Seq<Gaussian>,
    b: Seq<Gaussian>,
    depths: Seq<u32>,
    n: nat,
)
    requires
        n <= a.len() == b.len(),
        forall|i: int|
            0 <= i < a.len() ==> (#[trigger] a[i])@ == (GaussianModel { sh: a[i]@.sh, ..b[i]@ }),
    ensures
        draws_of(a, depths, false, n) == draws_of(b, depths, false, n),
        gaussians_model(a).map_values(|g: GaussianModel| packed(g)) == gaussians_model(
            b,
        ).map_values(|g: GaussianModel| packed(g)),
    decreases n,
{
    assert(gaussians_model(a).map_values(|g: GaussianModel| packed(g)) =~= gaussians_model(
        b,
    ).map_values(|g: GaussianModel| packed(g)));
    if n > 0 {
        lemma_higher_coefficients_unused(a, b, depths, (n - 1) as nat);
    }
}

/// Whether `places` holds each number below `n` once.
pub open spec fn is_permutation(places: Seq<int>, n: nat) -> bool {
    &&& places.len() == n
    &&& places.no_duplicates()
    &&& forall|i: int| #[trigger] places.contains(i) <==> 0 <= i < n
}

/// The gaussians that are drawn, in the order in which they are, each with the source of its color.
pub open spec fn shown(gaussians: Seq<Gaussian>, draws: Seq<Draw>) -> Seq<(Gaussian, ColorSource)> {
    draws.map_values(|d: Draw| (gaussians[d.index as int], d.color))
}

/// The draws of a scene, brought into the order `order`.
pub open spec fn ordered_draws(
    gaussians: Seq<Gaussian>,
    depths: Seq<u32>,
    eval_sh: bool,
    order: Seq<usize>,
) -> Seq<Draw> {
    let draws = draws_of(gaussians, depths, eval_sh, gaussians.len());
    order.map_values(|i: usize| draws[i as int])
}

/// How near the draws are, as increasing numbers.
spec fn nearness(depths: Seq<u32>, draws: Seq<Draw>) -> Seq<int> {
    draws.map_values(|d: Draw| -order_key(depths[d.index as int]))
}

/// Where no two depths are the same, sorted draws get strictly nearer, and come to exactly the
/// depths that are not culled.
proof fn lemma_sorted_nearness(
    gaussians: Seq<Gaussian>,
    depths: Seq<u32>,
    eval_sh: bool,
    order: Seq<usize>,
)
    requires
        gaussians.len() == depths.len() <= usize::MAX,
        depths.no_duplicates(),
        is_far_to_near(
            draw_depths(draws_of(gaussians, depths, eval_sh, gaussians.len()), depths),
            order,
        ),
    ensures
        ({
            let sorted = ordered_draws(gaussians, depths, eval_sh, order);
            let near = nearness(depths, sorted);
            &&& is_increasing(near)
            &&& forall|v: int| #[trigger]
                near.contains(v) <==> exists|i: int|
                    0 <= i < depths.len() && !is_culled(#[trigger] depths[i]) && v == -order_key(
                        depths[i],
                    )
            &&& forall|k: int|
                0 <= k < sorted.len() ==> {
                    &&& (#[trigger] sorted[k]).index < gaussians.len()
                    &&& sorted[k].color == color_source(gaussians[sorted[k].index as int], eval_sh)
                }
        }),
{
    let draws = draws_of(gaussians, depths, eval_sh, gaussians.len());
    let keys = draw_depths(draws, depths);
    let sorted = ordered_draws(gaussians, depths, eval_sh, order);
    let near = nearness(depths, sorted);
    lemma_draws_len(gaussians, depths, eval_sh, gaussians.len());
    lemma_draws_are_the_visible(gaussians, depths, eval_sh, gaussians.len());
    lemma_far_to_near_covers(keys, order);
    assert forall|k: int| 0 <= k < sorted.len() implies order[k] < draws.len() && #[trigger] sorted[k]
        == draws[order[k] as int] by {
        assert(order.contains(order[k]));
    }
    assert forall|i: int, j: int| 0 <= i < j < near.len() implies #[trigger] near[i]
        < #[trigger] near[j] by {
        let a = order[i];
        let b = order[j];
        assert(sorted[i] == draws[a as int] && sorted[j] == draws[b as int]);
        assert(drawn_before(keys, a, b));
        if order_key(keys[a as int]) == order_key(keys[b as int]) {
            lemma_order_key_injective(keys[a as int], keys[b as int]);
            assert(draws[a as int].index < draws[b as int].index);
            assert(depths[draws[a as int].index as int] == depths[draws[b as int].index as int]);
        }
    }
    assert forall|v: int| #[trigger] near.contains(v) <==> exists|i: int|
        0 <= i < depths.len() && !is_culled(#[trigger] depths[i]) && v == -order_key(depths[i]) by {
        if near.contains(v) {
            let k = choose|k: int| 0 <= k < near.len() && near[k] == v;
            assert(sorted[k] == draws[order[k] as int]);
            let i = sorted[k].index as int;
            assert(!is_culled(depths[i]) && v == -order_key(depths[i]));
        }
        if exists|i: int|
            0 <= i < depths.len() && !is_culled(#[trigger] depths[i]) && v == -order_key(
                depths[i],
            ) {
            let i = choose|i: int|
                0 <= i < depths.len() && !is_culled(#[trigger] depths[i]) && v == -order_key(
                    depths[i],
                );
            let d = choose|d: int| 0 <= d < draws.len() && (#[trigger] draws[d]).index == i;
            assert(order.contains(d as usize));
            let k = choose|k: int| 0 <= k < order.len() && order[k] == d as usize;
            assert(sorted[k] == draws[d]);
            assert(near[k] == v);
        }
    }
}

/// Where no two depths are the same, what is drawn far to near does not depend on the order of the
/// scene: a scene whose gaussians stand in other places shows the same gaussians, with the same
/// sources of color, in the same order.
pub proof fn lemma_scene_order_does_not_matter(
    a: Seq<Gaussian>,
    depths_a: Seq<u32>,
    b: Seq<Gaussian>,
    depths_b: Seq<u32>,
    places: Seq<int>,
    eval_sh: bool,
    order_a: Seq<usize>,
    order_b: Seq<usize>,
)
    requires
        a.len() == depths_a.len() <= usize::MAX,
        b.len() == depths_b.len(),
        is_permutation(places, a.len()),
        b.len() == a.len(),
        forall|i: int|
            0 <= i < b.len() ==> #[trigger] b[i] == a[places[i]] && depths_b[i]
                == depths_a[places[i]],
        depths_a.no_duplicates(),
        is_far_to_near(draw_depths(draws_of(a, depths_a, eval_sh, a.len()), depths_a), order_a),
        is_far_to_near(draw_depths(draws_of(b, depths_b, eval_sh, b.len()), depths_b), order_b),
    ensures
        shown(a, ordered_draws(a, depths_a, eval_sh, order_a)) == shown(
            b,
            ordered_draws(b, depths_b, eval_sh, order_b),
        ),
{
    assert forall|i: int| 0 <= i < b.len() implies 0 <= #[trigger] places[i] < a.len()
        && depths_b[i] == depths_a[places[i]] by {
        assert(places.contains(places[i]));
        assert(b[i] == a[places[i]]);
    }
    assert(depths_b.no_duplicates()) by {
        assert forall|i: int, j: int|
            0 <= i < depths_b.len() && 0 <= j < depths_b.len() && i != j implies depths_b[i]
            != depths_b[j] by {
            assert(places[i] != places[j]);
        }
    }
    lemma_sorted_nearness(a, depths_a, eval_sh, order_a);
    lemma_sorted_nearness(b, depths_b, eval_sh, order_b);
    let sorted_a = ordered_draws(a, depths_a, eval_sh, order_a);
    let sorted_b = ordered_draws(b, depths_b, eval_sh, order_b);
    let near_a = nearness(depths_a, sorted_a);
    let near_b = nearness(depths_b, sorted_b);
    assert forall|v: int| #[trigger] near_a.contains(v) <==> near_b.contains(v) by {
        if near_a.contains(v) {
            let i = choose|i: int|
                0 <= i < depths_a.len() && !is_culled(#[trigger] depths_a[i]) && v == -order_key(
                    depths_a[i],
                );
            assert(places.contains(i));
            let j = choose|j: int| 0 <= j < places.len() && places[j] == i;
            assert(depths_b[j] == depths_a[i]);
        }
        if near_b.contains(v) {
            let j = choose|j: int|
                0 <= j < depths_b.len() && !is_culled(#[trigger] depths_b[j]) && v == -order_key(
                    depths_b[j],
                );
            assert(depths_a[places[j]] == depths_b[j]);
        }
    }
    lemma_increasing_unique(near_a, near_b);
    assert(sorted_a.len() == near_a.len() && sorted_b.len() == near_b.len());
    assert forall|k: int| 0 <= k < sorted_a.len() implies shown(a, sorted_a)[k] == shown(
        b,
        sorted_b,
    )[k] by {
        let i = sorted_a[k].index as int;
        let j = sorted_b[k].index as int;
        assert(near_a[k] == -order_key(depths_a[i]) && near_b[k] == -order_key(depths_b[j]));
        lemma_order_key_injective(depths_a[i], depths_b[j]);
        assert(depths_a[places[j]] == depths_a[i]);
        assert(places[j] == i);
        assert(b[j] == a[i]);
    }
    assert(shown(a, sorted_a) =~= shown(b, sorted_b));
}

/// The entry in row `row` and column `col` stays that entry when the other order is taken.
pub proof fn lemma_transposed_entry(m: Seq<u32>, row: int, col: int)
    requires
        0 <= row < 3,
        0 <= col < 3,
    ensures
        transposed(m).len() == 9,
        transposed(m)[col * 3 + row] == m[row * 3 + col],
{
}

/// The model of a gaussian has its numbers, each as it is.
pub proof fn lemma_gaussian_model(g: Gaussian)
    ensures
        g@.mean == seq![g.mean@[0], g.mean@[1], g.mean@[2]],
        g@.log_scale == seq![g.log_scale@[0], g.log_scale@[1], g.log_scale@[2]],
        g@.quat == seq![g.quat@[0], g.quat@[1], g.quat@[2], g.quat@[3]],
        g@.color_dc == seq![g.color_dc@[0], g.color_dc@[1], g.color_dc@[2]],
        g@.opacity_raw == g.opacity_raw,
        g@.sh is Some <==> g.sh is Some,
        g.sh is Some ==> g@.sh->0 == (g.sh->0)@,
{
    assert(g@.mean =~= seq![g.mean@[0], g.mean@[1], g.mean@[2]]);
    assert(g@.log_scale =~= seq![g.log_scale@[0], g.log_scale@[1], g.log_scale@[2]]);
    assert(g@.quat =~= seq![g.quat@[0], g.quat@[1], g.quat@[2], g.quat@[3]]);
    assert(g@.color_dc =~= seq![g.color_dc@[0], g.color_dc@[1], g.color_dc@[2]]);
}

/// The model of a list of gaussians has that of each, in order.
pub proof fn lemma_gaussians_model(gaussians: Seq<Gaussian>, i: int)
    requires
        0 <= i < gaussians.len(),
    ensures
        gaussians_model(gaussians).len() == gaussians.len(),
        gaussians_model(gaussians)[i] == gaussians[i]@,
{
}

/// Packing keeps all numbers of a gaussian but its higher coefficients, each in its place, and
/// fills up with zeros.
pub proof fn lemma_packed_keeps_numbers(g: Gaussian, raw: GaussianRaw)
    requires
        raw@ == packed(g@),
    ensures
        raw.mean_opacity@ == seq![g.mean@[0], g.mean@[1], g.mean@[2], g.opacity_raw],
        raw.log_scale@ == seq![g.log_scale@[0], g.log_scale@[1], g.log_scale@[2], 0u32],
        raw.quat@ == seq![g.quat@[0], g.quat@[1], g.quat@[2], g.quat@[3]],
        raw.color_dc@ == seq![g.color_dc@[0], g.color_dc@[1], g.color_dc@[2], 0u32],
{
    assert(raw.mean_opacity@ =~= seq![g.mean@[0], g.mean@[1], g.mean@[2], g.opacity_raw]);
    assert(raw.log_scale@ =~= seq![g.log_scale@[0], g.log_scale@[1], g.log_scale@[2], 0u32]);
    assert(raw.quat@ =~= seq![g.quat@[0], g.quat@[1], g.quat@[2], g.quat@[3]]);
    assert(raw.color_dc@ =~= seq![g.color_dc@[0], g.color_dc@[1], g.color_dc@[2], 0u32]);
}

/// The model of a list of packed gaussians has that of each, in order.
pub proof fn lemma_raws_model(raws: Seq<GaussianRaw>, i: int)
    requires
        0 <= i < raws.len(),
    ensures
        raws_model(raws).len() == raws.len(),
        raws_model(raws)[i] == raws[i]@,
{
}

/// A gaussian is drawn with its higher coefficients exactly where they are asked for and it has
/// them.
pub proof fn lemma_draw_colors(
    gaussians: Seq<Gaussian>,
    depths: Seq<u32>,
    eval_sh: bool,
    k: int,
)
    requires
        gaussians.len() == depths.len() <= usize::MAX,
        0 <= k < draws_of(gaussians, depths, eval_sh, gaussians.len()).len(),
    ensures
        ({
            let draw = draws_of(gaussians, depths, eval_sh, gaussians.len())[k];
            draw.color is Sh <==> eval_sh && gaussians[draw.index as int].sh is Some
        }),
{
    lemma_draws_are_the_visible(gaussians, depths, eval_sh, gaussians.len());
}

/// Exactly the gaussians deeper than 0.2, by their bit patterns, are drawn (and those whose depth
/// is no number).
pub proof fn lemma_drawn_by_depth(gaussians: Seq<Gaussian>, depths: Seq<u32>, eval_sh: bool, i: int)
    requires
        gaussians.len() == depths.len() <= usize::MAX,
        0 <= i < gaussians.len(),
    ensures
        (exists|k: int|
            0 <= k < draws_of(gaussians, depths, eval_sh, gaussians.len()).len()
                && (#[trigger] draws_of(gaussians, depths, eval_sh, gaussians.len())[k]).index == i)
            <==> (0x3e4c_cccd < depths[i] < 0x8000_0000 || 0xff80_0000 < depths[i]),
{
    lemma_draws_are_the_visible(gaussians, depths, eval_sh, gaussians.len());
}

/// Of two sorted draws, the first one is not the nearer one, by the bit patterns of their depths,
/// and draws of the same depth stay in the order of the scene.
pub proof fn lemma_sorted_far_first(
    gaussians: Seq<Gaussian>,
    depths: Seq<u32>,
    eval_sh: bool,
    order: Seq<usize>,
    i: int,
    j: int,
)
    requires
        gaussians.len() == depths.len() <= usize::MAX,
        is_far_to_near(
            draw_depths(draws_of(gaussians, depths, eval_sh, gaussians.len()), depths),
            order,
        ),
        0 <= i < j < order.len(),
    ensures
        ({
            let draws = draws_of(gaussians, depths, eval_sh, gaussians.len());
            let first = draws[order[i] as int];
            let second = draws[order[j] as int];
            let a = depths[first.index as int];
            let b = depths[second.index as int];
            &&& a < 0x8000_0000 && b < 0x8000_0000 ==> a >= b
            &&& a >= 0x8000_0000 && b >= 0x8000_0000 ==> a <= b
            &&& a >= 0x8000_0000 ==> b >= 0x8000_0000
            &&& a == b ==> first.index < second.index
            &&& ordered_draws(gaussians, depths, eval_sh, order)[i] == first
            &&& ordered_draws(gaussians, depths, eval_sh, order)[j] == second
            &&& ordered_draws(gaussians, depths, eval_sh, order).len() == draws.len()
        }),
{
    let draws = draws_of(gaussians, depths, eval_sh, gaussians.len());
    let keys = draw_depths(draws, depths);
    lemma_draws_len(gaussians, depths, eval_sh, gaussians.len());
    lemma_draws_are_the_visible(gaussians, depths, eval_sh, gaussians.len());
    lemma_far_to_near_covers(keys, order);
    lemma_far_first(keys, order, i, j);
    assert(order.contains(order[i]) && order.contains(order[j]));
}

/// A packed camera tells cameras apart: two cameras that are packed alike have all numbers alike,
/// but for the size of the image, which is given apart.
pub proof fn lemma_uniform_keeps_camera(
    uniform: CamUniform,
    a: Camera,
    b: Camera,
    viewport: Seq<u32>,
    radius_squared: u32,
)
    requires
        is_uniform_of(uniform, a, viewport, radius_squared),
        is_uniform_of(uniform, b, viewport, radius_squared),
    ensures
        a.r_v@ == b.r_v@,
        a.t_v@ == b.t_v@,
        a.fx == b.fx,
        a.fy == b.fy,
        a.cx == b.cx,
        a.cy == b.cy,
        uniform.t_v_near@[3] == 0x3e4c_cccd,
        uniform.misc@[0] == viewport[0],
        uniform.misc@[1] == viewport[1],
        uniform.misc@[2] == radius_squared,
        uniform.misc@[3] == 0x3e99_999a,
        uniform.intr@[0] == a.fx,
        uniform.intr@[1] == a.fy,
        uniform.intr@[2] == a.cx,
        uniform.intr@[3] == a.cy,
{
    let columns = seq![uniform.r_v0@, uniform.r_v1@, uniform.r_v2@];
    assert forall|i: int| 0 <= i < 9 implies a.r_v@[i] == b.r_v@[i] by {
        let c = i / 3;
        let r = i % 3;
        assert(columns[c][r] == a.r_v@[c * 3 + r]);
        assert(columns[c][r] == b.r_v@[c * 3 + r]);
    }
    assert(a.r_v@ =~= b.r_v@);
    assert forall|r: int| 0 <= r < 3 implies a.t_v@[r] == b.t_v@[r] by {}
    assert(a.t_v@ =~= b.t_v@);
    assert(uniform.intr@ == seq![a.fx, a.fy, a.cx, a.cy]);
    assert(seq![a.fx, a.fy, a.cx, a.cy][0] == b.fx);
    assert(seq![a.fx, a.fy, a.cx, a.cy][1] == b.fy);
    assert(seq![a.fx, a.fy, a.cx, a.cy][2] == b.cx);
    assert(seq![a.fx, a.fy, a.cx, a.cy][3] == b.cy);
}

} // verus!
