use vstd::prelude::*;

use crate::schedule::{band_start, lemma_band_start_last, lemma_band_start_monotone};

verus! {

/// Each band index `0..band_count` is reported exactly once, and no other
/// index is reported.
pub open spec fn reports_exact<T>(reports: Seq<(u32, Vec<T>)>, band_count: nat) -> bool {
    &&& forall|i: int| 0 <= i < reports.len() ==> (#[trigger] reports[i]).0 < band_count
    &&& forall|i: int, j: int|
        0 <= i < reports.len() && 0 <= j < reports.len() && i != j ==> (#[trigger] reports[i]).0
            != (#[trigger] reports[j]).0
    &&& forall|k: nat| k < band_count ==> #[trigger] reported(reports, k)
}

/// Some report carries band index `k`.
pub open spec fn reported<T>(reports: Seq<(u32, Vec<T>)>, k: nat) -> bool {
    exists|i: int| 0 <= i < reports.len() && (#[trigger] reports[i]).0 == k
}

/// The items of the report that carries band index `k`.
pub open spec fn band_items<T>(reports: Seq<(u32, Vec<T>)>, k: nat) -> Seq<T> {
    reports[choose|i: int| 0 <= i < reports.len() && (#[trigger] reports[i]).0 == k].1@
}

/// The reports' items, band by band in index order.
pub open spec fn bands_in_order<T>(reports: Seq<(u32, Vec<T>)>, band_count: nat) -> Seq<Seq<T>> {
    Seq::new(band_count, |k: int| band_items(reports, k as nat))
}

/// Puts the bands that workers reported, in whatever order they arrived,
/// back together in band-index order. Fails when a band is missing, reported
/// twice, or carries an index outside `0..band_count`.
pub fn assemble_bands<T>(reports: Vec<(u32, Vec<T>)>, band_count: u32) -> (image: Option<Vec<T>>)
    ensures
        image is Some <==> reports_exact(reports@, band_count as nat),
        image is Some ==> image->0@ == bands_in_order(reports@, band_count as nat).flatten(),
{
    let ghost all = reports@;
    let mut pending = reports;
    let mut slots: Vec<Option<Vec<T>>> = Vec::new();
    let mut k: u32 = 0;
    while k < band_count
        invariant
            k <= band_count,
            slots.len() == k,
            forall|j: int| 0 <= j < k ==> (#[trigger] slots[j]) is None,
        decreases band_count - k,
    {
        slots.push(None);
        k = k + 1;
    }
    // Place each report in the slot of its index, latest arrival first.
    while pending.len() > 0
        invariant
            all == reports@,
            pending.len() <= all.len(),
            pending@ == all.subrange(0, pending.len() as int),
            slots.len() == band_count,
            forall|i: int|
                pending.len() <= i < all.len() ==> {
                    &&& (#[trigger] all[i]).0 < band_count
                    &&& slots[all[i].0 as int] == Some(all[i].1)
                },
            forall|i: int, j: int|
                pending.len() <= i < all.len() && pending.len() <= j < all.len() && i != j
                    ==> (#[trigger] all[i]).0 != (#[trigger] all[j]).0,
            forall|k: int|
                0 <= k < band_count && (#[trigger] slots[k]) is Some ==> exists|i: int|
                    pending.len() <= i < all.len() && (#[trigger] all[i]).0 == k,
        decreases pending.len(),
    {
        let ghost at = pending.len() - 1;
        let (index, items) = match pending.pop() {
            Some(report) => report,
            None => {
                return None;
            },
        };
        assert(pending@ =~= all.subrange(0, pending.len() as int));
        assert(all[at] == (index, items));
        if index >= band_count {
            assert(!reports_exact(all, band_count as nat)) by {
                assert(!(all[at].0 < band_count));
            }
            return None;
        }
        if slots[index as usize].is_some() {
            let ghost other = choose|i: int|
                pending.len() + 1 <= i < all.len() && (#[trigger] all[i]).0 == index;
            assert(all[at].0 == all[other].0);
            assert(!reports_exact(all, band_count as nat));
            return None;
        }
        slots.set(index as usize, Some(items));
    }
    let ghost filled = slots@;
    assert forall|k: int| 0 <= k < band_count && (#[trigger] filled[k]) is Some implies filled[k]->0@
        == band_items(all, k as nat) by {
        let i = choose|i: int| 0 <= i < all.len() && (#[trigger] all[i]).0 == k;
        assert(filled[all[i].0 as int] == Some(all[i].1));
    }
    assert forall|k: int| 0 <= k < band_count && (#[trigger] filled[k]) is None implies !reported(
        all,
        k as nat,
    ) by {
        if reported(all, k as nat) {
            let i = choose|i: int| 0 <= i < all.len() && (#[trigger] all[i]).0 == k;
            assert(filled[all[i].0 as int] == Some(all[i].1));
        }
    }
    assert forall|k: int| 0 <= k < band_count && (#[trigger] filled[k]) is Some implies reported(
        all,
        k as nat,
    ) by {
        let i = choose|i: int| 0 <= i < all.len() && (#[trigger] all[i]).0 == k;
        assert(0 <= i < all.len() && all[i].0 == k);
    }
    // Join the slots in index order.
    let ghost bands = bands_in_order(all, band_count as nat);
    let mut image: Vec<T> = Vec::new();
    let mut k: u32 = 0;
    while k < band_count
        invariant
            k <= band_count,
            all == reports@,
            filled.len() == band_count,
            slots@ == filled.subrange(k as int, band_count as int),
            bands.len() == band_count,
            forall|j: int| 0 <= j < k ==> (#[trigger] filled[j]) is Some,
            forall|j: int|
                0 <= j < band_count && (#[trigger] filled[j]) is Some ==> filled[j]->0@ == bands[j],
            forall|j: int|
                0 <= j < band_count && (#[trigger] filled[j]) is None ==> !reported(all, j as nat),
            forall|j: int|
                0 <= j < band_count && (#[trigger] filled[j]) is Some ==> reported(all, j as nat),
            forall|i: int| 0 <= i < all.len() ==> (#[trigger] all[i]).0 < band_count,
            forall|i: int, j: int|
                0 <= i < all.len() && 0 <= j < all.len() && i != j ==> (#[trigger] all[i]).0
                    != (#[trigger] all[j]).0,
            image@ == bands.take(k as int).flatten_alt(),
        decreases band_count - k,
    {
        assert(slots[0] == filled[k as int]);
        let slot = slots.remove(0);
        match slot {
            Some(mut items) => {
                assert(bands.take(k + 1).drop_last() =~= bands.take(k as int));
                image.append(&mut items);
            },
            None => {
                assert(!reported(all, k as nat));
                assert(!reports_exact(all, band_count as nat));
                return None;
            },
        }
        k = k + 1;
    }
    proof {
        assert(bands.take(band_count as int) =~= bands);
        bands.lemma_flatten_and_flatten_alt_are_equivalent();
        assert forall|k: nat| k < band_count implies #[trigger] reported(all, k) by {
            assert(filled[k as int] is Some);
        }
    }
    Some(image)
}

/// When each worker reports the rows of its own band of an image, the bands
/// put back together in index order are the image's rows from top to bottom,
/// in whatever order the reports arrived.
pub proof fn lemma_assembled_rows_in_order<T>(
    rows: Seq<T>,
    workers: nat,
    reports: Seq<(u32, Vec<T>)>,
)
    requires
        workers > 0,
        reports_exact(reports, workers),
        forall|i: int|
            0 <= i < reports.len() ==> (#[trigger] reports[i]).1@ == rows.subrange(
                band_start(rows.len(), workers, reports[i].0 as nat) as int,
                band_start(rows.len(), workers, reports[i].0 as nat + 1) as int,
            ),
    ensures
        bands_in_order(reports, workers).flatten() == rows,
{
    let bands = bands_in_order(reports, workers);
    lemma_band_start_last(rows.len(), workers);
    lemma_prefix_rows(rows, workers, reports, workers);
    assert(bands.take(workers as int) =~= bands);
    bands.lemma_flatten_and_flatten_alt_are_equivalent();
}

proof fn lemma_prefix_rows<T>(rows: Seq<T>, workers: nat, reports: Seq<(u32, Vec<T>)>, k: nat)
    requires
        workers > 0,
        k <= workers,
        reports_exact(reports, workers),
        forall|i: int|
            0 <= i < reports.len() ==> (#[trigger] reports[i]).1@ == rows.subrange(
                band_start(rows.len(), workers, reports[i].0 as nat) as int,
                band_start(rows.len(), workers, reports[i].0 as nat + 1) as int,
            ),
    ensures
        bands_in_order(reports, workers).take(k as int).flatten_alt() == rows.subrange(
            0,
            band_start(rows.len(), workers, k) as int,
        ),
    decreases k,
{
    let h = rows.len();
    let bands = bands_in_order(reports, workers);
    lemma_band_start_last(h, workers);
    lemma_band_start_monotone(h, workers, k, workers);
    if k == 0 {
        assert(0 * (h / workers) == 0);
        assert(bands.take(0) =~= Seq::<Seq<T>>::empty());
        assert(rows.subrange(0, 0) =~= Seq::<T>::empty());
    } else {
        let j = (k - 1) as nat;
        lemma_prefix_rows(rows, workers, reports, j);
        lemma_band_start_monotone(h, workers, j, k);
        assert(reported(reports, j));
        let i = choose|i: int| 0 <= i < reports.len() && (#[trigger] reports[i]).0 == j;
        assert(bands[j as int] == reports[i].1@);
        assert(bands.take(k as int).drop_last() =~= bands.take(j as int));
        assert(rows.subrange(0, band_start(h, workers, k) as int) =~= rows.subrange(
            0,
            band_start(h, workers, j) as int,
        ) + rows.subrange(band_start(h, workers, j) as int, band_start(h, workers, k) as int));
    }
}

} // verus!
