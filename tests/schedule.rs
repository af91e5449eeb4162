use pathtracer::schedule::{band_rows, partition_rows, RowBand, RowProgress};

fn covered_rows(height: u32, workers: u32) -> Vec<u32> {
    let mut rows = Vec::new();
    for band in partition_rows(height, workers) {
        for row in band.start..band.end {
            rows.push(row);
        }
    }
    rows
}

#[test]
fn even_split_gives_equal_bands() {
    let bands = partition_rows(12, 4);
    assert_eq!(
        bands,
        vec![
            RowBand { index: 0, start: 0, end: 3 },
            RowBand { index: 1, start: 3, end: 6 },
            RowBand { index: 2, start: 6, end: 9 },
            RowBand { index: 3, start: 9, end: 12 },
        ]
    );
}

#[test]
fn remainder_rows_go_to_first_bands() {
    let bands = partition_rows(10, 4);
    let lens: Vec<u32> = bands.iter().map(|b| b.end - b.start).collect();
    assert_eq!(lens, vec![3, 3, 2, 2]);
    assert_eq!(bands[2], RowBand { index: 2, start: 6, end: 8 });
    assert_eq!(bands[3].end, 10);
}

#[test]
fn more_workers_than_rows_leaves_empty_bands() {
    let bands = partition_rows(3, 5);
    let lens: Vec<u32> = bands.iter().map(|b| b.end - b.start).collect();
    assert_eq!(lens, vec![1, 1, 1, 0, 0]);
    assert_eq!(bands[4], RowBand { index: 4, start: 3, end: 3 });
}

#[test]
fn empty_image_has_only_empty_bands() {
    for band in partition_rows(0, 3) {
        assert_eq!(band.start, band.end);
    }
}

#[test]
fn every_row_computed_once_for_many_splits() {
    for height in [0u32, 1, 2, 7, 225, 1000] {
        for workers in 1u32..=17 {
            let rows = covered_rows(height, workers);
            let expected: Vec<u32> = (0..height).collect();
            assert_eq!(rows, expected, "height {height}, workers {workers}");
        }
    }
}

#[test]
fn single_band_matches_partition() {
    let bands = partition_rows(225, 8);
    for k in 0..8u32 {
        assert_eq!(band_rows(225, 8, k), bands[k as usize]);
    }
    assert_eq!(band_rows(225, 8, 0), RowBand { index: 0, start: 0, end: 29 });
    assert_eq!(band_rows(225, 8, 7), RowBand { index: 7, start: 197, end: 225 });
}

#[test]
fn largest_height_splits_without_overflow() {
    let bands = partition_rows(u32::MAX, 7);
    assert_eq!(bands[0].start, 0);
    assert_eq!(bands[6].end, u32::MAX);
    for k in 1..7 {
        assert_eq!(bands[k].start, bands[k - 1].end);
    }
}

#[test]
fn progress_counts_down_to_zero() {
    let mut progress = RowProgress::new(3);
    assert_eq!(progress.complete_row(), Some(2));
    assert_eq!(progress.complete_row(), Some(1));
    assert_eq!(progress.complete_row(), Some(0));
    assert_eq!(progress.complete_row(), None);
    assert_eq!(progress.remaining, 0);
}
