use vstd::prelude::*;

verus! {

/// First row of band `k` when `height` rows are split into `workers`
/// contiguous bands: every band gets `height / workers` rows and the first
/// `height % workers` bands get one extra row.
pub open spec fn band_start(height: nat, workers: nat, k: nat) -> nat
    recommends
        workers > 0,
{
    k * (height / workers) + if k < height % workers {
        k
    } else {
        height % workers
    }
}

/// Number of rows in band `k`.
pub open spec fn band_len(height: nat, workers: nat, k: nat) -> nat
    recommends
        workers > 0,
{
    height / workers + if k < height % workers {
        1nat
    } else {
        0nat
    }
}

/// Row `row` is computed by the worker of band `k`.
pub open spec fn in_band(height: nat, workers: nat, k: nat, row: nat) -> bool {
    band_start(height, workers, k) <= row < band_start(height, workers, k + 1)
}

/// Some band of the split holds row `row`.
pub open spec fn row_covered(height: nat, workers: nat, row: nat) -> bool {
    exists|k: nat| k < workers && #[trigger] in_band(height, workers, k, row)
}

/// A contiguous run of image rows, `start..end`, owned by the worker `index`.
#[derive(Clone, Copy, Debug, PartialEq, Eq, Structural)]
pub struct RowBand {
    pub index: u32,
    pub start: u32,
    pub end: u32,
}

/// Each band starts where the one before it ends.
pub proof fn lemma_band_step(height: nat, workers: nat, k: nat)
    requires
        workers > 0,
    ensures
        band_start(height, workers, k + 1) == band_start(height, workers, k) + band_len(
            height,
            workers,
            k,
        ),
{
    let q = height / workers;
    assert((k + 1) * q == k * q + q) by (nonlinear_arith);
}

/// Later bands start no earlier.
pub proof fn lemma_band_start_monotone(height: nat, workers: nat, j: nat, k: nat)
    requires
        workers > 0,
        j <= k,
    ensures
        band_start(height, workers, j) <= band_start(height, workers, k),
    decreases k - j,
{
    if j < k {
        lemma_band_start_monotone(height, workers, j, (k - 1) as nat);
        lemma_band_step(height, workers, (k - 1) as nat);
    }
}

/// The band after the last one would start past the last row.
pub proof fn lemma_band_start_last(height: nat, workers: nat)
    requires
        workers > 0,
    ensures
        band_start(height, workers, workers) == height,
{
    vstd::arithmetic::div_mod::lemma_fundamental_div_mod(height as int, workers as int);
    assert(workers * (height / workers) == (height / workers) * workers) by (nonlinear_arith);
}

/// The bands of a split cover the rows `0..height` exactly: each row lies in
/// one band and in no other, and no band holds a row outside the image.
pub proof fn lemma_bands_partition_rows(height: nat, workers: nat)
    requires
        workers > 0,
    ensures
        band_start(height, workers, 0) == 0,
        band_start(height, workers, workers) == height,
        forall|row: nat| row < height ==> #[trigger] row_covered(height, workers, row),
        forall|k: nat, row: nat| k < workers && #[trigger] in_band(height, workers, k, row) ==> row < height,
        forall|j: nat, k: nat, row: nat|
            j < workers && k < workers && #[trigger] in_band(height, workers, j, row) && #[trigger] in_band(
                height,
                workers,
                k,
                row,
            ) ==> j == k,
{
    lemma_band_start_last(height, workers);
    assert forall|row: nat| row < height implies #[trigger] row_covered(height, workers, row) by {
        lemma_row_found(height, workers, row, workers);
    }
    assert forall|k: nat, row: nat| k < workers && #[trigger] in_band(height, workers, k, row) implies row < height by {
        lemma_band_start_monotone(height, workers, k + 1, workers);
    }
    assert forall|j: nat, k: nat, row: nat|
        j < workers && k < workers && #[trigger] in_band(height, workers, j, row) && #[trigger] in_band(
            height,
            workers,
            k,
            row,
        ) implies j == k by {
        if j < k {
            lemma_band_start_monotone(height, workers, j + 1, k);
        } else if k < j {
            lemma_band_start_monotone(height, workers, k + 1, j);
        }
    }
}

/// A row before the start of band `n` lies in one of the bands before it.
proof fn lemma_row_found(height: nat, workers: nat, row: nat, n: nat)
    requires
        workers > 0,
        row < band_start(height, workers, n),
    ensures
        exists|k: nat| k < n && #[trigger] in_band(height, workers, k, row),
    decreases n,
{
    if n == 0 {
        assert(0 * (height / workers) == 0);
    } else if row >= band_start(height, workers, (n - 1) as nat) {
        assert(in_band(height, workers, (n - 1) as nat, row));
    } else {
        lemma_row_found(height, workers, row, (n - 1) as nat);
    }
}

/// The rows of band `index` when `image_height` rows are split among
/// `workers` workers.
pub fn band_rows(image_height: u32, workers: u32, index: u32) -> (band: RowBand)
    requires
        workers > 0,
        index < workers,
    ensures
        band.index == index,
        band.start == band_start(image_height as nat, workers as nat, index as nat),
        band.end == band_start(image_height as nat, workers as nat, index as nat + 1),
{
    let q: u32 = image_height / workers;
    let r: u32 = image_height % workers;
    proof {
        lemma_band_start_monotone(image_height as nat, workers as nat, index as nat + 1, workers as nat);
        lemma_band_start_last(image_height as nat, workers as nat);
        lemma_band_step(image_height as nat, workers as nat, index as nat);
        assert(index * q <= band_start(image_height as nat, workers as nat, index as nat));
    }
    let extra: u32 = if index < r {
        index
    } else {
        r
    };
    let start: u32 = index * q + extra;
    let len: u32 = if index < r {
        q + 1
    } else {
        q
    };
    RowBand { index, start, end: start + len }
}

/// All bands of a split, in band order.
pub fn partition_rows(image_height: u32, workers: u32) -> (bands: Vec<RowBand>)
    requires
        workers > 0,
    ensures
        bands.len() == workers,
        forall|k: int|
            0 <= k < workers ==> {
                &&& (#[trigger] bands[k]).index == k
                &&& bands[k].start == band_start(image_height as nat, workers as nat, k as nat)
                &&& bands[k].end == band_start(image_height as nat, workers as nat, k as nat + 1)
            },
{
    let mut bands: Vec<RowBand> = Vec::new();
    let mut k: u32 = 0;
    while k < workers
        invariant
            0 < workers,
            k <= workers,
            bands.len() == k,
            forall|j: int|
                0 <= j < k ==> {
                    &&& (#[trigger] bands[j]).index == j
                    &&& bands[j].start == band_start(image_height as nat, workers as nat, j as nat)
                    &&& bands[j].end == band_start(image_height as nat, workers as nat, j as nat + 1)
                },
        decreases workers - k,
    {
        let band = band_rows(image_height, workers, k);
        bands.push(band);
        k = k + 1;
    }
    bands
}

/// The count of image rows that no worker has finished yet, shared by the
/// workers to report progress.
#[derive(Clone, Copy, Debug, PartialEq, Eq, Structural)]
pub struct RowProgress {
    pub remaining: u32,
}

impl RowProgress {
    /// No row of an image of `image_height` rows is finished.
    pub fn new(image_height: u32) -> (progress: RowProgress)
        ensures
            progress.remaining == image_height,
    {
        RowProgress { remaining: image_height }
    }

    /// Counts one more finished row and gives the number still to finish, or
    /// `None`, with nothing changed, when every row was already counted.
    pub fn complete_row(&mut self) -> (left: Option<u32>)
        ensures
            old(self).remaining == 0 ==> left is None && *final(self) == *old(self),
            old(self).remaining > 0 ==> final(self).remaining == old(self).remaining - 1 && left
                == Some(final(self).remaining),
    {
        if self.remaining == 0 {
            None
        } else {
            self.remaining = self.remaining - 1;
            Some(self.remaining)
        }
    }
}

} // verus!
