use vstd::arithmetic::div_mod::lemma_fundamental_div_mod_converse;
use vstd::prelude::*;

verus! {

/// A block of pixels to render: a half-open row range and a half-open column range.
#[derive(PartialEq, Debug)]
pub struct Job {
    pub height_range: std::ops::Range<usize>,
    pub width_range: std::ops::Range<usize>,
}

impl Job {
    pub fn new(height_range: std::ops::Range<usize>, width_range: std::ops::Range<usize>) -> (r: Job)
        ensures
            r.height_range == height_range,
            r.width_range == width_range,
    {
        Job { height_range, width_range }
    }

    /// The pixel at position `m` of the job's render order: rows from the last down to
    /// the first, each row from left to right.
    pub open spec fn pixel_at(self, m: int) -> (usize, usize) {
        let cols = self.width_range.end - self.width_range.start;
        ((self.height_range.end - 1 - m / cols) as usize, (self.width_range.start + m % cols) as usize)
    }

    /// The (row, column) pairs of the job, in the order in which a worker renders them.
    pub fn pixels(&self) -> (r: Vec<(usize, usize)>)
        requires
            (self.height_range.end - self.height_range.start) * (self.width_range.end
                - self.width_range.start) <= usize::MAX,
        ensures
            self.height_range.start < self.height_range.end && self.width_range.start
                < self.width_range.end ==> r@.len() == (self.height_range.end
                - self.height_range.start) * (self.width_range.end - self.width_range.start),
            self.height_range.start >= self.height_range.end || self.width_range.start
                >= self.width_range.end ==> r@.len() == 0,
            forall|m: int| 0 <= m < r@.len() ==> #[trigger] r@[m] == self.pixel_at(m),
            r@ == job_pixels(*self),
    {
        let mut r: Vec<(usize, usize)> = Vec::new();
        let (top, bottom) = (self.height_range.end, self.height_range.start);
        let (left, right) = (self.width_range.start, self.width_range.end);
        if bottom >= top || left >= right {
            assert(r@ =~= job_pixels(*self));
            return r;
        }
        let cols = right - left;
        let mut row = top;
        while row > bottom
            invariant
                bottom < top,
                bottom <= row <= top,
                left < right,
                cols == right - left,
                top == self.height_range.end,
                left == self.width_range.start,
                right == self.width_range.end,
                r@.len() == (top - row) * cols,
                forall|m: int| 0 <= m < r@.len() ==> #[trigger] r@[m] == self.pixel_at(m),
            decreases row,
        {
            let y = row - 1;
            let mut col = left;
            let ghost base = r@.len() as int;
            while col < right
                invariant
                    left <= col <= right,
                    cols == right - left,
                    cols > 0,
                    bottom <= y < top,
                    y == row - 1,
                    top == self.height_range.end,
                    left == self.width_range.start,
                    right == self.width_range.end,
                    base == (top - row) * cols,
                    r@.len() == base + (col - left),
                    forall|m: int| 0 <= m < r@.len() ==> #[trigger] r@[m] == self.pixel_at(m),
                decreases right - col,
            {
                proof {
                    let m = base + (col - left);
                    assert(m == (top - row) * cols + (col - left));
                    lemma_fundamental_div_mod_converse(m, cols as int, (top - row) as int, (col - left) as int);
                }
                r.push((y, col));
                col = col + 1;
            }
            proof {
                assert((top - row) * cols + cols == (top - (row - 1)) * cols) by (nonlinear_arith);
            }
            row = row - 1;
        }
        proof {
            assert((top - bottom) * cols == (self.height_range.end - self.height_range.start) * (
            self.width_range.end - self.width_range.start));
            assert(r@ =~= job_pixels(*self));
        }
        r
    }

    /// The job covers pixel (`row`, `col`).
    pub open spec fn covers(self, row: int, col: int) -> bool {
        &&& self.height_range.start <= row < self.height_range.end
        &&& self.width_range.start <= col < self.width_range.end
    }
}

/// `jobs` holds one job per image row, full width, from the top row `height - 1`
/// down to row 0.
pub open spec fn is_row_jobs(jobs: Seq<Job>, height: nat, width: nat) -> bool {
    &&& jobs.len() == height
    &&& forall|k: int|
        #![trigger jobs[k]]
        0 <= k < height ==> {
            &&& jobs[k].height_range.start == height - 1 - k
            &&& jobs[k].height_range.end == height - k
            &&& jobs[k].width_range.start == 0
            &&& jobs[k].width_range.end == width
        }
}

/// Splits a `height` x `width` image into one job per row, ordered from the last row
/// to the first.
pub fn create_jobs(height: usize, width: usize) -> (jobs: Vec<Job>)
    ensures
        is_row_jobs(jobs@, height as nat, width as nat),
{
    let mut jobs: Vec<Job> = Vec::new();
    let mut k: usize = 0;
    while k < height
        invariant
            k <= height,
            jobs@.len() == k,
            forall|i: int|
                #![trigger jobs@[i]]
                0 <= i < k ==> {
                    &&& jobs@[i].height_range.start == height - 1 - i
                    &&& jobs@[i].height_range.end == height - i
                    &&& jobs@[i].width_range.start == 0
                    &&& jobs@[i].width_range.end == width
                },
        decreases height - k,
    {
        let row: usize = height - 1 - k;
        jobs.push(Job::new(row..row + 1, 0..width));
        k = k + 1;
    }
    jobs
}

/// Some job of `jobs` covers pixel (`row`, `col`).
pub open spec fn is_covered(jobs: Seq<Job>, row: int, col: int) -> bool {
    exists|a: int| 0 <= a < jobs.len() && #[trigger] jobs[a].covers(row, col)
}

/// The row jobs of an image partition it: every pixel inside the image is covered by
/// exactly one job, and no pixel outside it by any job.
pub proof fn lemma_row_jobs_partition(jobs: Seq<Job>, height: nat, width: nat)
    requires
        is_row_jobs(jobs, height, width),
    ensures
        forall|row: int, col: int|
            0 <= row < height && 0 <= col < width ==> #[trigger] is_covered(jobs, row, col),
        forall|row: int, col: int, a: int, b: int|
            0 <= a < jobs.len() && 0 <= b < jobs.len() && #[trigger] jobs[a].covers(row, col)
                && #[trigger] jobs[b].covers(row, col) ==> a == b,
        forall|row: int, col: int, a: int|
            0 <= a < jobs.len() && #[trigger] jobs[a].covers(row, col) ==> 0 <= row < height
                && 0 <= col < width,
{
    assert forall|row: int, col: int|
        0 <= row < height && 0 <= col < width implies #[trigger] is_covered(jobs, row, col) by {
        let k = height - 1 - row;
        assert(jobs[k].height_range.start == height - 1 - k);
        assert(jobs[k].covers(row, col));
    }
    assert forall|row: int, col: int, a: int, b: int|
        0 <= a < jobs.len() && 0 <= b < jobs.len() && #[trigger] jobs[a].covers(row, col)
            && #[trigger] jobs[b].covers(row, col) implies a == b by {
        assert(jobs[a].height_range.start == height - 1 - a);
        assert(jobs[b].height_range.start == height - 1 - b);
    }
    assert forall|row: int, col: int, a: int|
        0 <= a < jobs.len() && #[trigger] jobs[a].covers(row, col) implies 0 <= row < height
            && 0 <= col < width by {
        assert(jobs[a].height_range.start == height - 1 - a);
    }
}

/// The pixels of a job, in its render order.
pub open spec fn job_pixels(job: Job) -> Seq<(usize, usize)> {
    let rows = job.height_range.end - job.height_range.start;
    let cols = job.width_range.end - job.width_range.start;
    if rows <= 0 || cols <= 0 {
        Seq::empty()
    } else {
        Seq::new((rows * cols) as nat, |m: int| job.pixel_at(m))
    }
}

/// The pixels of `jobs`, job after job, each in its render order.
pub open spec fn render_order(jobs: Seq<Job>) -> Seq<(usize, usize)>
    decreases jobs.len(),
{
    if jobs.len() == 0 {
        Seq::empty()
    } else {
        render_order(jobs.drop_last()) + job_pixels(jobs.last())
    }
}

/// The pixels of an image of `width` columns whose rows below `height` are written from
/// the last row down, each from left to right.
pub open spec fn image_order(height: nat, width: nat, count: nat) -> Seq<(usize, usize)> {
    Seq::new(count, |m: int| ((height - 1 - m / width as int) as usize, (m % width as int) as usize))
}

/// Rendering the row jobs one after the other yields the image's pixels in its output
/// order: the last row first, each row from left to right.
pub proof fn lemma_row_jobs_render_order(jobs: Seq<Job>, height: nat, width: nat)
    requires
        is_row_jobs(jobs, height, width),
        width > 0,
    ensures
        render_order(jobs) == image_order(height, width, height * width),
{
    lemma_render_prefix(jobs, height, width, height);
    assert(jobs.subrange(0, height as int) == jobs);
}

proof fn lemma_render_prefix(jobs: Seq<Job>, height: nat, width: nat, k: nat)
    requires
        is_row_jobs(jobs, height, width),
        width > 0,
        k <= height,
    ensures
        render_order(jobs.subrange(0, k as int)) == image_order(height, width, k * width),
    decreases k,
{
    let w = width as int;
    if k == 0 {
        assert(render_order(jobs.subrange(0, 0)) =~= image_order(height, width, 0));
    } else {
        let prefix = jobs.subrange(0, k as int);
        let job = jobs[k - 1];
        lemma_render_prefix(jobs, height, width, (k - 1) as nat);
        assert(prefix.drop_last() == jobs.subrange(0, k - 1));
        assert(prefix.last() == job);
        let before = image_order(height, width, ((k - 1) * width) as nat);
        let row = job_pixels(job);
        assert(job.height_range.start == height - k);
        assert(job.height_range.end == height - k + 1);
        assert(row.len() == w) by {
            assert(1 * w == w);
        }
        assert((k - 1) * w + w == k * w) by (nonlinear_arith);
        let all = image_order(height, width, k * width);
        assert forall|m: int| 0 <= m < all.len() implies #[trigger] all[m] == (before + row)[m] by {
            if m < (k - 1) * w {
            } else {
                let c = m - (k - 1) * w;
                vstd::arithmetic::div_mod::lemma_fundamental_div_mod_converse(m, w, k - 1, c);
                vstd::arithmetic::div_mod::lemma_fundamental_div_mod_converse(c, w, 0, c);
                assert(row[c] == job.pixel_at(c));
            }
        }
        assert(all =~= before + row);
    }
}

} // verus!
