use vstd::prelude::*;
use wide::u16x8;
use vstd::arithmetic::div_mod::lemma_fundamental_div_mod;
use crate::image::gray_image::{compress, gray_of, CompressedGrayImage, GrayImage};
use crate::image::lanes::{lane_products, lanes, unpack_lanes};
use crate::image::luma_matrix::LumaMatrix;
use crate::image::matching::{
    center,
    consider,
    lanes_dot,
    least,
    lemma_center_fits,
    lemma_lanes_dot,
    lemma_span_dot_bound,
    lemma_window_dot_bound,
    located,
    places_across,
    places_down,
    scan,
    span_dot,
    window_dot,
    window_score,
    Candidate,
    Direction,
};
use crate::image::packed::{redundant_pack, RedundantPackedGrayImage};
use crate::image::pattern::Pattern;
use crate::image::raster::{lemma_cell_index, lemma_from_fn, Raster};
use crate::image::score::{match_score, EPS, THRESHOLD};
use crate::image::screenshot::{Frame, Screenshot};

verus! {

/// The window and score that the search holds, as the mathematics speaks of
/// them.
pub open spec fn as_candidate(held: Option<(u32, u32, u64)>) -> Option<Candidate> {
    match held {
        None => None,
        Some(b) => Some(Candidate { x: b.0 as int, y: b.1 as int, score: b.2 as nat }),
    }
}

/// The search holds the window `best`, and it is a place where the pattern
/// fits.
pub open spec fn matches_candidate(
    held: Option<(u32, u32, u64)>,
    best: Option<Candidate>,
    screen: Raster,
    pattern: Raster,
) -> bool {
    &&& as_candidate(held) == best
    &&& held matches Some(b) ==> b.0 + pattern.width <= screen.width && b.1 + pattern.height
        <= screen.height
}

/// The sum of the products of the lanes of two vectors whose lanes are
/// bytes.
fn lane_sum(a: &u16x8, b: &u16x8) -> (sum: u64)
    requires
        lanes(*a).len() == 8,
        lanes(*b).len() == 8,
        forall|i: int| 0 <= i < 8 ==> lanes(*a)[i] <= 255 && lanes(*b)[i] <= 255,
    ensures
        sum == lanes_dot(lanes(*a), lanes(*b), 8),
        sum <= 8 * 65025,
{
    let products: [u16; 8] = unpack_lanes(lane_products(*a, *b));
    let mut sum: u64 = 0;
    let mut i: usize = 0;
    while i < 8
        invariant
            i <= 8,
            lanes(*a).len() == 8,
            lanes(*b).len() == 8,
            forall|j: int| 0 <= j < 8 ==> lanes(*a)[j] <= 255 && lanes(*b)[j] <= 255,
            forall|j: int|
                0 <= j < 8 ==> #[trigger] products@[j] == (lanes(*a)[j] * lanes(*b)[j]) % 0x1_0000,
            sum == lanes_dot(lanes(*a), lanes(*b), i as nat),
            sum <= i * 65025,
        decreases 8 - i,
    {
        proof {
            let p = lanes(*a)[i as int];
            let q = lanes(*b)[i as int];
            assert(0 <= p * q <= 65025) by (nonlinear_arith)
                requires
                    0 <= p <= 255,
                    0 <= q <= 255,
            ;
            assert(products@[i as int] == p * q);
        }
        sum = sum + products[i] as u64;
        i = i + 1;
    }
    sum
}

/// A frame made ready for the search of one pattern: shrunk by the
/// pattern's factor, laid out for unaligned loads, and with the table of its
/// sums of squares.
struct Scene {
    image: CompressedGrayImage,
    packed: RedundantPackedGrayImage,
    matrix: LumaMatrix,
}

impl Scene {
    /// The shrunk raster of the frame.
    closed spec fn view(&self) -> Raster {
        self.image@
    }

    #[verifier::type_invariant]
    closed spec fn inv(&self) -> bool {
        &&& self.image.inv()
        &&& self.packed@ == redundant_pack(self.image@)
        &&& self.packed.spec_width() == self.image@.width
        &&& self.matrix.inv()
        &&& self.matrix.source() == self.image@
        &&& self.image@.width * self.image@.height <= 0x1000_0000
    }

    /// The frame shrunk by `factor` and made ready.
    fn new(screenshot: &Screenshot, factor: u32) -> (scene: Self)
        requires
            factor >= 2,
        ensures
            scene@ == compress(gray_of(screenshot@), factor as nat),
            scene.image.spec_factor() == factor,
    {
        let image = GrayImage::from_screenshot(screenshot).into_compressed(Some(factor));
        let packed = image.to_redundant_packed();
        let matrix = LumaMatrix::new(&image);
        proof {
            use_type_invariant(screenshot);
            use_type_invariant(&image);
            use_type_invariant(&matrix);
            let frame = screenshot@;
            let f = factor as int;
            lemma_from_fn(frame.width, frame.height, |x: int, y: int| frame.luma_at(x, y) as u8);
            lemma_from_fn(
                gray_of(frame).width / (factor as nat),
                gray_of(frame).height / (factor as nat),
                |x: int, y: int|
                    (gray_of(frame).block_sum(factor * x, factor * y, factor as nat, factor as nat)
                        / ((factor * factor) as int)) as u8,
            );
            let w = image@.width as int;
            let h = image@.height as int;
            lemma_fundamental_div_mod(frame.width as int, f);
            lemma_fundamental_div_mod(frame.height as int, f);
            assert(4 * (w * h) <= frame.width * frame.height) by (nonlinear_arith)
                requires
                    f >= 2,
                    0 <= w,
                    0 <= h,
                    f * w <= frame.width,
                    f * h <= frame.height,
            ;
            assert(4 * frame.width * frame.height == 4 * (frame.width * frame.height))
                by (nonlinear_arith);
        }
        Scene { image, packed, matrix }
    }

    /// The sum of the products of the pixels of the pattern with the pixels
    /// of the frame under them, when the pattern lies with its upper left
    /// corner on column `x` of row `y`.
    fn dot(&self, pattern: &Pattern, x: u32, y: u32) -> (sum: u64)
        requires
            pattern@.wf(),
            x + pattern@.width <= self@.width,
            y + pattern@.height <= self@.height,
        ensures
            sum == window_dot(self@, pattern@, x as int, y as int, pattern@.height),
            sum <= 65025 * 0x1000_0000,
    {
        proof {
            use_type_invariant(self);
            self.image.lemma_wf();
        }
        let width: u32 = pattern.width();
        let height: u32 = pattern.height();
        let ghost screen = self@;
        let ghost pat = pattern@;
        proof {
            assert(pat.width * pat.height <= screen.width * screen.height) by (nonlinear_arith)
                requires
                    0 <= pat.width <= screen.width,
                    0 <= pat.height <= screen.height,
            ;
        }
        let mut sum: u64 = 0;
        let mut dy: u32 = 0;
        while dy < height
            invariant
                dy <= height,
                self.inv(),
                screen == self@,
                pat == pattern@,
                pat.wf(),
                screen.wf(),
                width == pat.width,
                height == pat.height,
                x + pat.width <= screen.width,
                y + pat.height <= screen.height,
                pat.width * pat.height <= 0x1000_0000,
                sum == window_dot(screen, pat, x as int, y as int, dy as nat),
            decreases height - dy,
        {
            let mut row: u64 = 0;
            let mut k: u32 = 0;
            while 8 * (k as u64) < width as u64
                invariant
                    8 * k <= width + 7,
                    dy < height,
                    self.inv(),
                    screen == self@,
                    pat == pattern@,
                    pat.wf(),
                    screen.wf(),
                    width == pat.width,
                    height == pat.height,
                    x + pat.width <= screen.width,
                    y + pat.height <= screen.height,
                    row == span_dot(
                        screen,
                        pat,
                        x as int,
                        y as int,
                        dy as int,
                        least(8 * k as nat, pat.width),
                    ),
                decreases width + 8 - 8 * k,
            {
                let dx: u32 = 8 * k;
                proof {
                    lemma_cell_index(screen.width, screen.height, x + dx, y + dy);
                    lemma_lanes_dot(screen, pat, x as int, y as int, dy as int, k as nat, 8);
                    lemma_span_dot_bound(
                        screen,
                        pat,
                        x as int,
                        y as int,
                        dy as int,
                        least(8 * k as nat, pat.width),
                    );
                }
                let of_screen: &u16x8 = self.packed.pixels(x + dx, y + dy);
                let of_pattern: &u16x8 = pattern.packed_pixels(dx, dy);
                row = row + lane_sum(of_screen, of_pattern);
                k = k + 1;
            }
            proof {
                lemma_window_dot_bound(screen, pat, x as int, y as int, dy as nat);
                lemma_span_dot_bound(screen, pat, x as int, y as int, dy as int, pat.width);
                assert(pat.width * dy <= pat.width * pat.height) by (nonlinear_arith)
                    requires
                        0 <= dy <= pat.height,
                        0 <= pat.width,
                ;
            }
            sum = sum + row;
            dy = dy + 1;
        }
        proof {
            lemma_window_dot_bound(screen, pat, x as int, y as int, pat.height);
        }
        sum
    }

    /// The score of the window under the pattern, when the pattern lies with
    /// its upper left corner on column `x` of row `y`.
    fn score(&self, pattern: &Pattern, x: u32, y: u32) -> (score: u64)
        requires
            pattern@.wf(),
            x + pattern@.width <= self@.width,
            y + pattern@.height <= self@.height,
        ensures
            score == window_score(self@, pattern@, x as int, y as int),
    {
        proof {
            use_type_invariant(self);
            self.image.lemma_wf();
        }
        let dot: u64 = self.dot(pattern, x, y);
        let width: u32 = self.image.width();
        let height: u32 = self.image.height();
        let window_sq: u64 = self.matrix.square_sum_partial(
            [y, x, y + pattern.height(), x + pattern.width()],
        );
        match_score(dot, window_sq, pattern.square_sum())
    }
}

/// The search for patterns in one frame of the screen.
pub struct Finder<'a> {
    screenshot: &'a Screenshot,
}

impl<'a> Finder<'a> {
    /// The frame that is searched.
    pub closed spec fn view(&self) -> Frame {
        self.screenshot@
    }

    pub fn new(screenshot: &'a Screenshot) -> (finder: Self)
        ensures
            finder@ == screenshot@,
    {
        Finder { screenshot }
    }

    /// The frame that is searched.
    pub fn screenshot(&self) -> (shot: &'a Screenshot)
        ensures
            shot@ == self@,
    {
        self.screenshot
    }

    /// Looks for the pattern in the frame. The frame is shrunk by the
    /// pattern's factor, and every place where the pattern fits is scored.
    /// The answer is the centre of the best place, in pixels of the frame,
    /// or nothing where no place reaches the threshold.
    pub fn find(&self, pattern: &Pattern, dir: Direction) -> (found: Option<(u32, u32)>)
        ensures
            found == located(self@, pattern@, pattern.spec_factor(), dir),
    {
        proof {
            use_type_invariant(pattern);
            pattern.lemma_wf();
        }
        let factor: u32 = pattern.factor();
        let scene = Scene::new(self.screenshot, factor);
        proof {
            use_type_invariant(&scene);
            scene.image.lemma_wf();
        }
        let ghost screen = scene@;
        let ghost pat = pattern@;
        let ghost f = factor as nat;
        if pattern.width() > scene.image.width() || pattern.height() > scene.image.height() {
            return None;
        }
        assert(screen.width < u32::MAX && screen.height < u32::MAX) by (nonlinear_arith)
            requires
                f >= 2,
                f * screen.width <= u32::MAX,
                f * screen.height <= u32::MAX,
        ;
        let across: u32 = scene.image.width() - pattern.width() + 1;
        let down: u32 = scene.image.height() - pattern.height() + 1;
        let mut best: Option<(u32, u32, u64)> = None;
        let mut y: u32 = 0;
        while y < down
            invariant
                y <= down,
                scene.inv(),
                screen == scene@,
                screen.wf(),
                pat == pattern@,
                pat.wf(),
                f == factor,
                f == pattern.spec_factor(),
                f >= 2,
                f * screen.width <= u32::MAX,
                f * screen.height <= u32::MAX,
                across == places_across(screen, pat),
                down == places_down(screen, pat),
                across >= 1,
                matches_candidate(best, scan(screen, pat, f, dir, (y * across) as nat), screen, pat),
            decreases down - y,
        {
            let mut x: u32 = 0;
            while x < across
                invariant
                    x <= across,
                    y < down,
                    scene.inv(),
                    screen == scene@,
                    screen.wf(),
                    pat == pattern@,
                    pat.wf(),
                    f == factor,
                    f == pattern.spec_factor(),
                    f >= 2,
                    f * screen.width <= u32::MAX,
                    f * screen.height <= u32::MAX,
                    across == places_across(screen, pat),
                    down == places_down(screen, pat),
                    across >= 1,
                    matches_candidate(
                        best,
                        scan(screen, pat, f, dir, (y * across + x) as nat),
                        screen,
                        pat,
                    ),
                decreases across - x,
            {
                proof {
                    lemma_cell_index(across as nat, down as nat, x as int, y as int);
                    lemma_center_fits(screen, pat, f, x as int, y as int);
                    if let Some(b) = best {
                        lemma_center_fits(screen, pat, f, b.0 as int, b.1 as int);
                    }
                }
                let score: u64 = scene.score(pattern, x, y);
                best = Self::consider(best, (x, y, score), pattern, dir);
                x = x + 1;
            }
            assert((y + 1) * across == y * across + across) by (nonlinear_arith);
            y = y + 1;
        }
        assert(down * across == places_across(screen, pat) * places_down(screen, pat))
            by (nonlinear_arith)
            requires
                across == places_across(screen, pat),
                down == places_down(screen, pat),
        ;
        match best {
            None => None,
            Some(b) => {
                proof {
                    lemma_center_fits(screen, pat, f, b.0 as int, b.1 as int);
                }
                Some(Self::center_of(pattern, b.0, b.1))
            },
        }
    }

    /// The centre of the window at column `x` of row `y` of the shrunk
    /// frame, in pixels of the frame.
    fn center_of(pattern: &Pattern, x: u32, y: u32) -> (c: (u32, u32))
        requires
            (x + pattern@.width / 2) * pattern.spec_factor() <= u32::MAX,
            (y + pattern@.height / 2) * pattern.spec_factor() <= u32::MAX,
        ensures
            (c.0 as int, c.1 as int) == center(pattern@, pattern.spec_factor(), x as int, y as int),
    {
        let factor: u32 = pattern.factor();
        assert(x + pattern@.width / 2 <= u32::MAX && y + pattern@.height / 2 <= u32::MAX)
            by (nonlinear_arith)
            requires
                (x + pattern@.width / 2) * factor <= u32::MAX,
                (y + pattern@.height / 2) * factor <= u32::MAX,
                factor >= 2,
        ;
        ((x + pattern.width() / 2) * factor, (y + pattern.height() / 2) * factor)
    }

    /// The best window once `next` has been looked at.
    fn consider(
        best: Option<(u32, u32, u64)>,
        next: (u32, u32, u64),
        pattern: &Pattern,
        dir: Direction,
    ) -> (chosen: Option<(u32, u32, u64)>)
        requires
            (next.0 + pattern@.width / 2) * pattern.spec_factor() <= u32::MAX,
            (next.1 + pattern@.height / 2) * pattern.spec_factor() <= u32::MAX,
            best matches Some(b) ==> {
                &&& (b.0 + pattern@.width / 2) * pattern.spec_factor() <= u32::MAX
                &&& (b.1 + pattern@.height / 2) * pattern.spec_factor() <= u32::MAX
            },
        ensures
            as_candidate(chosen) == self::consider(
                as_candidate(best),
                (Candidate { x: next.0 as int, y: next.1 as int, score: next.2 as nat }),
                pattern@,
                pattern.spec_factor(),
                dir,
            ),
            chosen == best || chosen == Some(next),
    {
        if next.2 < THRESHOLD {
            return best;
        }
        match best {
            None => Some(next),
            Some(b) => {
                if next.2 > b.2 && next.2 - b.2 > EPS {
                    Some(next)
                } else if b.2 > next.2 && b.2 - next.2 > EPS {
                    best
                } else if dir.meet(
                    Self::center_of(pattern, b.0, b.1),
                    Self::center_of(pattern, next.0, next.1),
                ) {
                    Some(next)
                } else {
                    best
                }
            },
        }
    }
}

} // verus!
