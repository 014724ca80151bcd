use vstd::prelude::*;
use crate::image::gray_image::{compress, gray_of};
use crate::image::packed::window_lanes;
use crate::image::raster::{lemma_cell_index, lemma_cell_position, Raster};
use crate::image::score::{
    lemma_score_of_itself,
    lemma_sqrt_exists,
    score_of,
    sqrt_floor,
    EPS,
    SCORE_SCALE,
    THRESHOLD,
};
use crate::image::screenshot::Frame;

verus! {

/// The side on which, of two matches that score alike, the better one lies.
#[derive(Clone, Copy, Debug, PartialEq, Eq, Structural)]
pub enum Direction {
    Up,
    Down,
    Left,
    Right,
}

impl Direction {
    /// Whether the point `to` lies strictly in this direction from the point
    /// `from`; both are given as column and row.
    pub open spec fn meets(self, from: (int, int), to: (int, int)) -> bool {
        match self {
            Direction::Up => to.1 < from.1,
            Direction::Down => to.1 > from.1,
            Direction::Left => to.0 < from.0,
            Direction::Right => to.0 > from.0,
        }
    }

    /// Whether the point `to` lies strictly in this direction from the point
    /// `from`.
    pub fn meet(&self, from: (u32, u32), to: (u32, u32)) -> (met: bool)
        ensures
            met == self.meets((from.0 as int, from.1 as int), (to.0 as int, to.1 as int)),
    {
        match self {
            Direction::Up => to.1 < from.1,
            Direction::Down => to.1 > from.1,
            Direction::Left => to.0 < from.0,
            Direction::Right => to.0 > from.0,
        }
    }
}

/// The sum of the products of the first `n` pixels of row `dy` of the
/// pattern with the pixels of the screen under them, when the pattern lies
/// with its upper left corner on column `x` of row `y` of the screen.
pub open spec fn span_dot(screen: Raster, pattern: Raster, x: int, y: int, dy: int, n: nat) -> int
    decreases n,
{
    if n == 0 {
        0
    } else {
        span_dot(screen, pattern, x, y, dy, (n - 1) as nat) + screen.at(x + n - 1, y + dy)
            * pattern.at(n - 1, dy)
    }
}

/// The sum of the products of the pixels of the first `rows` rows of the
/// pattern with the pixels of the screen under them.
pub open spec fn window_dot(screen: Raster, pattern: Raster, x: int, y: int, rows: nat) -> int
    decreases rows,
{
    if rows == 0 {
        0
    } else {
        window_dot(screen, pattern, x, y, (rows - 1) as nat) + span_dot(
            screen,
            pattern,
            x,
            y,
            rows - 1,
            pattern.width,
        )
    }
}

/// The score of the window of the screen under the pattern.
pub open spec fn window_score(screen: Raster, pattern: Raster, x: int, y: int) -> nat {
    score_of(
        window_dot(screen, pattern, x, y, pattern.height) as nat,
        screen.block_sq(x, y, pattern.width, pattern.height) as nat,
        pattern.block_sq(0, 0, pattern.width, pattern.height) as nat,
    )
}

/// A window of the shrunk screen and its score.
pub struct Candidate {
    pub x: int,
    pub y: int,
    pub score: nat,
}

/// The centre of the window at column `x` of row `y`, in pixels of the
/// screen as it was before shrinking.
pub open spec fn center(pattern: Raster, factor: nat, x: int, y: int) -> (int, int) {
    ((x + pattern.width / 2) * factor, (y + pattern.height / 2) * factor)
}

/// The best window once `next` has been looked at. A window below the
/// threshold changes nothing. One that beats the best so far by more than
/// `EPS` takes its place; one within `EPS` of it does so only where its
/// centre lies in the direction asked for, seen from the centre of the
/// best.
pub open spec fn consider(
    best: Option<Candidate>,
    next: Candidate,
    pattern: Raster,
    factor: nat,
    dir: Direction,
) -> Option<Candidate> {
    if next.score < THRESHOLD {
        best
    } else {
        match best {
            None => Some(next),
            Some(b) => if next.score > b.score + EPS {
                Some(next)
            } else if b.score > next.score + EPS {
                best
            } else if dir.meets(
                center(pattern, factor, b.x, b.y),
                center(pattern, factor, next.x, next.y),
            ) {
                Some(next)
            } else {
                best
            },
        }
    }
}

/// The number of places in a row of the screen where the pattern fits.
pub open spec fn places_across(screen: Raster, pattern: Raster) -> int {
    screen.width - pattern.width + 1
}

/// The number of rows of the screen where the pattern fits.
pub open spec fn places_down(screen: Raster, pattern: Raster) -> int {
    screen.height - pattern.height + 1
}

/// The best window among the first `n` places, taken row by row from the
/// top, each row from the left.
pub open spec fn scan(screen: Raster, pattern: Raster, factor: nat, dir: Direction, n: nat) -> Option<
    Candidate,
>
    decreases n,
{
    if n == 0 {
        None
    } else {
        let across = places_across(screen, pattern);
        let x = (n - 1) % across;
        let y = (n - 1) / across;
        consider(
            scan(screen, pattern, factor, dir, (n - 1) as nat),
            Candidate { x, y, score: window_score(screen, pattern, x, y) },
            pattern,
            factor,
            dir,
        )
    }
}

/// Where the pattern is found on the shrunk screen: the centre of the best
/// window, in pixels of the screen as it was before shrinking, or nothing
/// where no window reaches the threshold or the pattern is larger than the
/// screen.
pub open spec fn find_in(screen: Raster, pattern: Raster, factor: nat, dir: Direction) -> Option<
    (int, int),
> {
    if pattern.width > screen.width || pattern.height > screen.height {
        None
    } else {
        let places = (places_across(screen, pattern) * places_down(screen, pattern)) as nat;
        match scan(screen, pattern, factor, dir, places) {
            None => None,
            Some(best) => Some(center(pattern, factor, best.x, best.y)),
        }
    }
}

/// Where the pattern is found on a frame: the frame is turned to luma and
/// shrunk by the pattern's factor, and the centre of the best place is given
/// in pixels of the frame.
pub open spec fn located(frame: Frame, pattern: Raster, factor: nat, dir: Direction) -> Option<
    (u32, u32),
> {
    match find_in(compress(gray_of(frame), factor), pattern, factor, dir) {
        Some(c) => Some((c.0 as u32, c.1 as u32)),
        None => None,
    }
}

/// The sum of the products of the first `n` lanes of two vectors.
pub open spec fn lanes_dot(a: Seq<u16>, b: Seq<u16>, n: nat) -> int
    decreases n,
{
    if n == 0 {
        0
    } else {
        lanes_dot(a, b, (n - 1) as nat) + a[n - 1] * b[n - 1]
    }
}

/// The smaller of two numbers.
pub open spec fn least(a: nat, b: nat) -> nat {
    if a <= b {
        a
    } else {
        b
    }
}

/// The products of the lanes of a vector of the screen and a vector of the
/// pattern sum to the part of the row's products that the vector of the
/// pattern covers: a lane beyond the pattern's right edge is 0 and adds
/// nothing.
pub proof fn lemma_lanes_dot(screen: Raster, pattern: Raster, x: int, y: int, dy: int, k: nat, n: nat)
    requires
        n <= 8,
        8 * k <= pattern.width,
        0 <= x,
        x + pattern.width <= screen.width,
    ensures
        lanes_dot(
            window_lanes(screen, x + 8 * k, y + dy),
            window_lanes(pattern, 8 * k as int, dy),
            n,
        ) == span_dot(screen, pattern, x, y, dy, least(8 * k + n, pattern.width))
            - span_dot(screen, pattern, x, y, dy, 8 * k),
    decreases n,
{
    if n > 0 {
        lemma_lanes_dot(screen, pattern, x, y, dy, k, (n - 1) as nat);
        let i = n - 1;
        let of_screen = window_lanes(screen, x + 8 * k, y + dy);
        let of_pattern = window_lanes(pattern, 8 * k as int, dy);
        if 8 * k + i < pattern.width {
            assert(of_pattern[i] == pattern.at(8 * k + i, dy));
            assert(of_screen[i] == screen.at(x + 8 * k + i, y + dy));
            assert(least(8 * k + n, pattern.width) == 8 * k + n);
            assert(least(8 * k + (n - 1) as nat, pattern.width) == 8 * k + n - 1);
        } else {
            assert(of_pattern[i] == 0);
            assert(of_screen[i] * 0 == 0);
        }
    }
}

/// The products of a span of `n` pixels sum to at most `65025 * n`.
pub proof fn lemma_span_dot_bound(screen: Raster, pattern: Raster, x: int, y: int, dy: int, n: nat)
    ensures
        0 <= span_dot(screen, pattern, x, y, dy, n) <= 65025 * n,
    decreases n,
{
    if n > 0 {
        lemma_span_dot_bound(screen, pattern, x, y, dy, (n - 1) as nat);
        let a = screen.at(x + n - 1, y + dy);
        let b = pattern.at(n - 1, dy);
        assert(0 <= a * b <= 65025) by (nonlinear_arith)
            requires
                0 <= a <= 255,
                0 <= b <= 255,
        ;
    }
}

/// The products of `rows` rows of the pattern sum to at most
/// `65025 * width * rows`.
pub proof fn lemma_window_dot_bound(screen: Raster, pattern: Raster, x: int, y: int, rows: nat)
    ensures
        0 <= window_dot(screen, pattern, x, y, rows) <= 65025 * (pattern.width * rows),
    decreases rows,
{
    if rows > 0 {
        lemma_window_dot_bound(screen, pattern, x, y, (rows - 1) as nat);
        lemma_span_dot_bound(screen, pattern, x, y, rows - 1, pattern.width);
        assert(65025 * (pattern.width * (rows - 1)) + 65025 * pattern.width == 65025 * (
        pattern.width * rows)) by (nonlinear_arith);
    } else {
        assert(pattern.width * 0 == 0) by (nonlinear_arith);
    }
}

/// The centre of a place where the pattern fits lies on the frame, so its
/// column and row are numbers of 32 bits.
pub proof fn lemma_center_fits(screen: Raster, pattern: Raster, factor: nat, x: int, y: int)
    requires
        0 <= x,
        0 <= y,
        x + pattern.width <= screen.width,
        y + pattern.height <= screen.height,
        factor * screen.width <= u32::MAX,
        factor * screen.height <= u32::MAX,
    ensures
        0 <= (x + pattern.width / 2) * factor <= u32::MAX,
        0 <= (y + pattern.height / 2) * factor <= u32::MAX,
{
    let half_w = (pattern.width / 2) as int;
    let half_h = (pattern.height / 2) as int;
    assert(0 <= (x + half_w) * factor <= factor * screen.width) by (nonlinear_arith)
        requires
            0 <= x + half_w <= screen.width,
            0 <= factor,
    ;
    assert(0 <= (y + half_h) * factor <= factor * screen.height) by (nonlinear_arith)
        requires
            0 <= y + half_h <= screen.height,
            0 <= factor,
    ;
}

/// The products of a raster's pixels with themselves are their squares.
pub proof fn lemma_span_dot_of_itself(r: Raster, dy: int, n: nat)
    ensures
        span_dot(r, r, 0, 0, dy, n) == r.span_sq(0, dy, n),
    decreases n,
{
    if n > 0 {
        lemma_span_dot_of_itself(r, dy, (n - 1) as nat);
    }
}

/// The products of a raster's pixels with themselves sum to the sum of its
/// squares.
pub proof fn lemma_window_dot_of_itself(r: Raster, rows: nat)
    ensures
        window_dot(r, r, 0, 0, rows) == r.block_sq(0, 0, r.width, rows),
    decreases rows,
{
    if rows > 0 {
        lemma_window_dot_of_itself(r, (rows - 1) as nat);
        lemma_span_dot_of_itself(r, rows - 1, r.width);
    }
}

/// A pattern is found on a screen that is the pattern: where the shrunk
/// screen and the pattern are the same raster and not all black, the one
/// place has the score 1 and the search gives its centre, whatever the
/// direction. For a pattern of even width and height that centre is half
/// the pattern's size in pixels of the screen.
pub proof fn lemma_exact_match(pattern: Raster, factor: nat, dir: Direction)
    requires
        pattern.block_sq(0, 0, pattern.width, pattern.height) > 0,
    ensures
        window_score(pattern, pattern, 0, 0) == SCORE_SCALE,
        window_score(pattern, pattern, 0, 0) >= THRESHOLD,
        find_in(pattern, pattern, factor, dir) == Some(center(pattern, factor, 0, 0)),
        pattern.width % 2 == 0 && pattern.height % 2 == 0 ==> find_in(
            pattern,
            pattern,
            factor,
            dir,
        ) == Some(((pattern.width * factor / 2) as int, (pattern.height * factor / 2) as int)),
{
    let sq = pattern.block_sq(0, 0, pattern.width, pattern.height);
    lemma_window_dot_of_itself(pattern, pattern.height);
    lemma_score_of_itself(sq as nat);
    assert(places_across(pattern, pattern) == 1);
    assert(places_down(pattern, pattern) == 1);
    assert(places_across(pattern, pattern) * places_down(pattern, pattern) == 1);
    let first = Candidate { x: 0, y: 0, score: window_score(pattern, pattern, 0, 0) };
    assert(scan(pattern, pattern, factor, dir, 0) is None);
    assert(scan(pattern, pattern, factor, dir, 1) == consider(
        scan(pattern, pattern, factor, dir, 0),
        first,
        pattern,
        factor,
        dir,
    ));
    if pattern.width % 2 == 0 && pattern.height % 2 == 0 {
        let w = pattern.width as int;
        let h = pattern.height as int;
        let f = factor as int;
        assert((w / 2) * f == (w * f) / 2) by (nonlinear_arith)
            requires
                w % 2 == 0,
        ;
        assert((h / 2) * f == (h * f) / 2) by (nonlinear_arith)
            requires
                h % 2 == 0,
        ;
    }
}

/// What the search holds after the first `n` places is one of them, with
/// its score, and that score reaches the threshold; it holds nothing only
/// where none of them reaches the threshold.
pub proof fn lemma_scan_holds_a_match(
    screen: Raster,
    pattern: Raster,
    factor: nat,
    dir: Direction,
    n: nat,
)
    requires
        pattern.width <= screen.width,
        pattern.height <= screen.height,
        n <= places_across(screen, pattern) * places_down(screen, pattern),
    ensures
        match scan(screen, pattern, factor, dir, n) {
            Some(best) => {
                &&& 0 <= best.x < places_across(screen, pattern)
                &&& 0 <= best.y < places_down(screen, pattern)
                &&& best.y * places_across(screen, pattern) + best.x < n
                &&& best.score == window_score(screen, pattern, best.x, best.y)
                &&& best.score >= THRESHOLD
            },
            None => forall|x: int, y: int|
                0 <= x < places_across(screen, pattern) && 0 <= y && y * places_across(
                    screen,
                    pattern,
                ) + x < n ==> #[trigger] window_score(screen, pattern, x, y) < THRESHOLD,
        },
    decreases n,
{
    if n > 0 {
        let across = places_across(screen, pattern);
        let down = places_down(screen, pattern);
        lemma_scan_holds_a_match(screen, pattern, factor, dir, (n - 1) as nat);
        lemma_cell_position(across as nat, down as nat, n - 1);
        let x = (n - 1) % across;
        let y = (n - 1) / across;
        if scan(screen, pattern, factor, dir, n) is None {
            assert forall|cx: int, cy: int|
                0 <= cx < across && 0 <= cy && cy * across + cx < n implies #[trigger] window_score(
                screen,
                pattern,
                cx,
                cy,
            ) < THRESHOLD by {
                if cy * across + cx == n - 1 {
                    assert(cy < down) by (nonlinear_arith)
                        requires
                            cy * across + cx < across * down,
                            0 <= cx,
                            across >= 1,
                    ;
                    lemma_cell_index(across as nat, down as nat, cx, cy);
                }
            }
        }
    }
}

/// The pattern is found just where some place reaches the threshold, and
/// what is found is the centre of such a place.
pub proof fn lemma_found_where_a_place_matches(
    screen: Raster,
    pattern: Raster,
    factor: nat,
    dir: Direction,
)
    ensures
        match find_in(screen, pattern, factor, dir) {
            Some(c) => exists|x: int, y: int|
                {
                    &&& 0 <= x < places_across(screen, pattern)
                    &&& 0 <= y < places_down(screen, pattern)
                    &&& #[trigger] window_score(screen, pattern, x, y) >= THRESHOLD
                    &&& c == center(pattern, factor, x, y)
                },
            None => forall|x: int, y: int|
                0 <= x < places_across(screen, pattern) && 0 <= y < places_down(screen, pattern)
                    ==> #[trigger] window_score(screen, pattern, x, y) < THRESHOLD,
        },
{
    if pattern.width <= screen.width && pattern.height <= screen.height {
        let across = places_across(screen, pattern);
        let down = places_down(screen, pattern);
        assert(across * down >= 0) by (nonlinear_arith)
            requires
                across >= 1,
                down >= 1,
        ;
        let places = (across * down) as nat;
        lemma_scan_holds_a_match(screen, pattern, factor, dir, places);
        match scan(screen, pattern, factor, dir, places) {
            Some(best) => {
                assert(window_score(screen, pattern, best.x, best.y) >= THRESHOLD);
            },
            None => {
                assert forall|x: int, y: int|
                    0 <= x < across && 0 <= y < down implies #[trigger] window_score(
                    screen,
                    pattern,
                    x,
                    y,
                ) < THRESHOLD by {
                    lemma_cell_index(across as nat, down as nat, x, y);
                    assert(across * down == down * across) by (nonlinear_arith);
                }
            },
        }
    }
}

/// A pattern is not found where it is not: the search gives nothing where
/// every place of the shrunk screen scores below the threshold.
pub proof fn lemma_absent_pattern(screen: Raster, pattern: Raster, factor: nat, dir: Direction)
    requires
        forall|x: int, y: int|
            0 <= x < places_across(screen, pattern) && 0 <= y < places_down(screen, pattern)
                ==> #[trigger] window_score(screen, pattern, x, y) < THRESHOLD,
    ensures
        find_in(screen, pattern, factor, dir) is None,
{
    lemma_found_where_a_place_matches(screen, pattern, factor, dir);
}

/// Two sums that each obey the inequality of Cauchy and Schwarz obey it
/// together.
pub proof fn lemma_cauchy_schwarz_step(d1: int, a1: int, b1: int, d2: int, a2: int, b2: int)
    requires
        0 <= d1,
        0 <= a1,
        0 <= b1,
        0 <= d2,
        0 <= a2,
        0 <= b2,
        d1 * d1 <= a1 * b1,
        d2 * d2 <= a2 * b2,
    ensures
        (d1 + d2) * (d1 + d2) <= (a1 + a2) * (b1 + b2),
{
    let cross = a1 * b2 + a2 * b1;
    let twice = 2 * d1 * d2;
    assert(0 <= cross && 0 <= twice) by (nonlinear_arith)
        requires
            0 <= d1,
            0 <= a1,
            0 <= b1,
            0 <= d2,
            0 <= a2,
            0 <= b2,
            cross == a1 * b2 + a2 * b1,
            twice == 2 * d1 * d2,
    ;
    let p1 = a1 * b1;
    let p2 = a2 * b2;
    let q1 = d1 * d1;
    let q2 = d2 * d2;
    assert(cross * cross >= 4 * (p1 * p2)) by (nonlinear_arith)
        requires
            cross == a1 * b2 + a2 * b1,
            p1 == a1 * b1,
            p2 == a2 * b2,
    {
        assert((a1 * b2 - a2 * b1) * (a1 * b2 - a2 * b1) >= 0);
    }
    assert(p1 * p2 >= q1 * q2) by (nonlinear_arith)
        requires
            0 <= q1 <= p1,
            0 <= q2 <= p2,
    ;
    assert(twice * twice == 4 * (q1 * q2)) by (nonlinear_arith)
        requires
            twice == 2 * d1 * d2,
            q1 == d1 * d1,
            q2 == d2 * d2,
    ;
    if cross < twice {
        assert(cross * cross < twice * twice) by (nonlinear_arith)
            requires
                0 <= cross < twice,
        ;
    }
    assert((d1 + d2) * (d1 + d2) == q1 + twice + q2) by (nonlinear_arith)
        requires
            twice == 2 * d1 * d2,
            q1 == d1 * d1,
            q2 == d2 * d2,
    ;
    assert((a1 + a2) * (b1 + b2) == p1 + cross + p2) by (nonlinear_arith)
        requires
            cross == a1 * b2 + a2 * b1,
            p1 == a1 * b1,
            p2 == a2 * b2,
    ;
}

/// The products of a span obey the inequality of Cauchy and Schwarz.
pub proof fn lemma_span_cauchy_schwarz(
    screen: Raster,
    pattern: Raster,
    x: int,
    y: int,
    dy: int,
    n: nat,
)
    ensures
        0 <= span_dot(screen, pattern, x, y, dy, n),
        0 <= screen.span_sq(x, y + dy, n),
        0 <= pattern.span_sq(0, dy, n),
        span_dot(screen, pattern, x, y, dy, n) * span_dot(screen, pattern, x, y, dy, n)
            <= screen.span_sq(x, y + dy, n) * pattern.span_sq(0, dy, n),
    decreases n,
{
    if n > 0 {
        lemma_span_cauchy_schwarz(screen, pattern, x, y, dy, (n - 1) as nat);
        let a = screen.at(x + n - 1, y + dy) as int;
        let b = pattern.at(n - 1, dy) as int;
        assert((a * b) * (a * b) == (a * a) * (b * b)) by (nonlinear_arith);
        assert(0 <= a * b && 0 <= a * a && 0 <= b * b) by (nonlinear_arith)
            requires
                0 <= a,
                0 <= b,
        ;
        lemma_cauchy_schwarz_step(
            span_dot(screen, pattern, x, y, dy, (n - 1) as nat),
            screen.span_sq(x, y + dy, (n - 1) as nat),
            pattern.span_sq(0, dy, (n - 1) as nat),
            a * b,
            a * a,
            b * b,
        );
    }
}

/// The products of a window obey the inequality of Cauchy and Schwarz: the
/// square of their sum is at most the product of the two sums of squares.
pub proof fn lemma_window_cauchy_schwarz(screen: Raster, pattern: Raster, x: int, y: int, rows: nat)
    ensures
        0 <= window_dot(screen, pattern, x, y, rows),
        0 <= screen.block_sq(x, y, pattern.width, rows),
        0 <= pattern.block_sq(0, 0, pattern.width, rows),
        window_dot(screen, pattern, x, y, rows) * window_dot(screen, pattern, x, y, rows)
            <= screen.block_sq(x, y, pattern.width, rows) * pattern.block_sq(
            0,
            0,
            pattern.width,
            rows,
        ),
    decreases rows,
{
    if rows > 0 {
        lemma_window_cauchy_schwarz(screen, pattern, x, y, (rows - 1) as nat);
        lemma_span_cauchy_schwarz(screen, pattern, x, y, rows - 1, pattern.width);
        lemma_cauchy_schwarz_step(
            window_dot(screen, pattern, x, y, (rows - 1) as nat),
            screen.block_sq(x, y, pattern.width, (rows - 1) as nat),
            pattern.block_sq(0, 0, pattern.width, (rows - 1) as nat),
            span_dot(screen, pattern, x, y, rows - 1, pattern.width),
            screen.span_sq(x, y + rows - 1, pattern.width),
            pattern.span_sq(0, rows - 1, pattern.width),
        );
    }
}

/// No window scores above 1.
pub proof fn lemma_score_at_most_one(screen: Raster, pattern: Raster, x: int, y: int)
    ensures
        window_score(screen, pattern, x, y) <= SCORE_SCALE,
{
    lemma_window_cauchy_schwarz(screen, pattern, x, y, pattern.height);
    let dot = window_dot(screen, pattern, x, y, pattern.height);
    let a = screen.block_sq(x, y, pattern.width, pattern.height);
    let b = pattern.block_sq(0, 0, pattern.width, pattern.height);
    let s = SCORE_SCALE as int;
    let norm_sq = a * b;
    if norm_sq != 0 {
        assert(norm_sq > 0) by (nonlinear_arith)
            requires
                norm_sq == a * b,
                norm_sq != 0,
                0 <= a,
                0 <= b,
        ;
        let scaled = dot * s;
        assert(scaled * scaled == (s * s) * (dot * dot)) by (nonlinear_arith)
            requires
                scaled == dot * s,
        ;
        assert((s * s) * (dot * dot) <= (s * s) * norm_sq) by (nonlinear_arith)
            requires
                dot * dot <= norm_sq,
                0 <= s * s,
        ;
        assert(scaled * scaled / norm_sq <= s * s) by (nonlinear_arith)
            requires
                scaled * scaled <= (s * s) * norm_sq,
                norm_sq > 0,
        ;
        assert(0 <= scaled * scaled / norm_sq) by (nonlinear_arith)
            requires
                0 <= scaled * scaled,
                norm_sq > 0,
        ;
        let quotient = (scaled * scaled / norm_sq) as nat;
        lemma_sqrt_exists(quotient);
        let root = sqrt_floor(quotient);
        if root > s {
            assert(root * root >= (s + 1) * (s + 1)) by (nonlinear_arith)
                requires
                    root >= s + 1,
                    s >= 0,
            ;
            assert((s + 1) * (s + 1) > s * s) by (nonlinear_arith)
                requires
                    s >= 0,
            ;
        }
    }
}

} // verus!
