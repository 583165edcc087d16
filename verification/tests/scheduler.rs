use atomic_counter::RelaxedCounter;
use raytracer::error::{RenderError, Stage};
use raytracer::scheduler::{claim_row, merge_rows, raytrace, render_row, row_for_ticket, Pixel, RtRet};
use raytracer::sort::sort_range;

fn row(i_id: usize, fill: u8, len: usize) -> RtRet {
    RtRet { im: vec![fill; len], i_id }
}

#[test]
fn ticket_below_height_is_its_row() {
    assert_eq!(row_for_ticket(0, 4), Some(0));
    assert_eq!(row_for_ticket(3, 4), Some(3));
}

#[test]
fn ticket_from_height_on_is_no_row() {
    assert_eq!(row_for_ticket(4, 4), None);
    assert_eq!(row_for_ticket(usize::MAX, 4), None);
    assert_eq!(row_for_ticket(0, 0), None);
}

#[test]
fn one_worker_claims_every_row_once_in_order() {
    let counter = RelaxedCounter::new(0);
    let mut claimed = Vec::new();
    while let Some(y) = claim_row(&counter, 5) {
        claimed.push(y);
    }
    assert_eq!(claimed, vec![0, 1, 2, 3, 4]);
    assert_eq!(claim_row(&counter, 5), None);
}

#[test]
fn claims_start_at_the_counter_value() {
    let counter = RelaxedCounter::new(3);
    assert_eq!(claim_row(&counter, 5), Some(3));
    assert_eq!(claim_row(&counter, 5), Some(4));
    assert_eq!(claim_row(&counter, 5), None);
}

fn pattern(x: u32, y: u32) -> Result<Pixel, RenderError> {
    Ok(Pixel { r: x as u8, g: y as u8, b: (x + y) as u8 % 2 })
}

#[test]
fn row_holds_its_pixels_from_the_left() {
    let row = render_row(5, 3, &pattern).unwrap();
    assert_eq!(row.i_id, 5);
    assert_eq!(row.im, vec![0, 5, 1, 1, 5, 0, 2, 5, 1]);
    let none = render_row(7, 0, &pattern).unwrap();
    assert_eq!((none.i_id, none.im.len()), (7, 0));
}

#[test]
fn row_fails_with_its_first_failing_pixel() {
    let asked = std::cell::RefCell::new(Vec::new());
    let faulty = |x: u32, _y: u32| {
        asked.borrow_mut().push(x);
        if x >= 2 {
            Err(RenderError::UnknownMaterial { id: x as i64 })
        } else {
            Ok(Pixel { r: 1, g: 2, b: 3 })
        }
    };
    assert_eq!(render_row(0, 5, &faulty).unwrap_err(), RenderError::UnknownMaterial { id: 2 });
    assert_eq!(*asked.borrow(), vec![0, 1, 2]);
    assert!(render_row(0, 2, &faulty).is_ok());
}

#[test]
fn worker_paints_the_rows_it_claims() {
    let counter = RelaxedCounter::new(0);
    let rows = raytrace(2, 3, &counter, &pattern).unwrap();
    let ids: Vec<usize> = rows.iter().map(|r| r.i_id).collect();
    assert_eq!(ids, vec![0, 1, 2]);
    for row in rows.iter() {
        let y = row.i_id as u8;
        assert_eq!(row.im, vec![0, y, y % 2, 1, y, (1 + y) % 2]);
    }
    assert!(raytrace(2, 3, &counter, &pattern).unwrap().is_empty());
    let im = merge_rows(rows, 2, 3).unwrap();
    for y in 0..3u32 {
        for x in 0..2u32 {
            let at = (3 * (y * 2 + x)) as usize;
            let p = pattern(x, y).unwrap();
            assert_eq!(im[at..at + 3], [p.r, p.g, p.b]);
        }
    }
}

#[test]
fn workers_share_the_rows_between_them() {
    let counter = RelaxedCounter::new(0);
    let first = std::cell::Cell::new(true);
    let second_rows = std::cell::RefCell::new(Vec::new());
    let interrupted = |x: u32, y: u32| {
        if first.replace(false) {
            second_rows.borrow_mut().extend(raytrace(1, 2, &counter, &pattern).unwrap());
        }
        pattern(x, y)
    };
    let mut rows = raytrace(1, 4, &counter, &interrupted).unwrap();
    let early: Vec<usize> = second_rows.borrow().iter().map(|r| r.i_id).collect();
    assert_eq!(early, vec![1]);
    let mine: Vec<usize> = rows.iter().map(|r| r.i_id).collect();
    assert_eq!(mine, vec![0, 3]);
    rows.extend(second_rows.borrow().iter().cloned());
    rows.push(render_row(2, 1, &pattern).unwrap());
    assert_eq!(merge_rows(rows, 1, 4).unwrap().len(), 12);
}

#[test]
fn worker_stops_at_the_first_failure() {
    let counter = RelaxedCounter::new(0);
    let faulty = |_x: u32, y: u32| {
        if y == 1 {
            Err(RenderError::UnknownMaterial { id: 9 })
        } else {
            Ok(Pixel { r: 0, g: 0, b: 0 })
        }
    };
    assert_eq!(raytrace(2, 5, &counter, &faulty).unwrap_err(), RenderError::UnknownMaterial { id: 9 });
    assert_eq!(claim_row(&counter, 5), Some(2));
}

#[test]
fn worker_without_rows_to_paint_returns_none() {
    let counter = RelaxedCounter::new(0);
    assert!(raytrace(4, 0, &counter, &pattern).unwrap().is_empty());
    let late = RelaxedCounter::new(10);
    assert!(raytrace(4, 10, &late, &pattern).unwrap().is_empty());
}

#[test]
fn merge_puts_rows_in_ascending_order() {
    let rets = vec![row(2, 30, 6), row(0, 10, 6), row(1, 20, 6)];
    let im = merge_rows(rets, 2, 3).unwrap();
    let mut expected = vec![10u8; 6];
    expected.extend(vec![20u8; 6]);
    expected.extend(vec![30u8; 6]);
    assert_eq!(im, expected);
}

#[test]
fn merge_does_not_depend_on_arrival_order() {
    let orders: [[usize; 4]; 4] = [[0, 1, 2, 3], [3, 2, 1, 0], [2, 0, 3, 1], [1, 3, 0, 2]];
    let mut images = Vec::new();
    for order in orders.iter() {
        let rets: Vec<RtRet> = order.iter().map(|&y| row(y, (y as u8) * 7 + 1, 9)).collect();
        images.push(merge_rows(rets, 3, 4).unwrap());
    }
    for im in images.iter() {
        assert_eq!(im.len(), 36);
        assert_eq!(im, &images[0]);
    }
}

#[test]
fn merge_keeps_empty_rows_out_of_the_image() {
    let rets = vec![row(1, 5, 3), row(usize::MAX, 0, 0), row(0, 4, 3)];
    assert_eq!(merge_rows(rets, 1, 2).unwrap(), vec![4, 4, 4, 5, 5, 5]);
}

#[test]
fn merge_of_nothing_is_the_empty_image() {
    assert_eq!(merge_rows(Vec::new(), 0, 0).unwrap(), Vec::<u8>::new());
    assert_eq!(merge_rows(Vec::new(), 7, 0).unwrap(), Vec::<u8>::new());
}

#[test]
fn merge_reports_a_dropped_row() {
    let rets = vec![row(0, 1, 6), row(2, 3, 6)];
    let err = merge_rows(rets, 2, 3).unwrap_err();
    assert_eq!(err, RenderError::BufferSizeMismatch { expected: 18, actual: 12 });
    assert_eq!(err.stage(), Stage::Merge);
}

#[test]
fn merge_reports_a_duplicated_row() {
    let rets = vec![row(0, 1, 6), row(1, 2, 6), row(1, 2, 6)];
    assert_eq!(
        merge_rows(rets, 2, 2).unwrap_err(),
        RenderError::BufferSizeMismatch { expected: 12, actual: 18 }
    );
}

#[test]
fn merge_expects_the_full_size_of_a_huge_image() {
    let err = merge_rows(Vec::new(), u32::MAX, u32::MAX).unwrap_err();
    let side = u32::MAX as u128;
    assert_eq!(err, RenderError::BufferSizeMismatch { expected: side * side * 3, actual: 0 });
}

#[test]
fn rows_with_equal_indices_keep_their_order() {
    let mut rets = vec![row(1, 9, 1), row(0, 1, 1), row(1, 8, 1), row(0, 2, 1)];
    sort_range(&mut rets, 0, 4, 0);
    let fills: Vec<u8> = rets.iter().map(|r| r.im[0]).collect();
    assert_eq!(fills, vec![1, 2, 9, 8]);
}

#[test]
fn sort_range_leaves_the_rest_alone() {
    let mut rets = vec![row(9, 0, 0), row(3, 0, 0), row(2, 0, 0), row(1, 0, 0), row(0, 0, 0)];
    sort_range(&mut rets, 1, 4, 0);
    let ids: Vec<usize> = rets.iter().map(|r| r.i_id).collect();
    assert_eq!(ids, vec![9, 1, 2, 3, 0]);
}

#[test]
fn stages_of_the_errors() {
    assert_eq!(RenderError::MissingBounds { index: 2 }.stage(), Stage::Setup);
    assert_eq!(RenderError::UnknownMaterial { id: 7 }.stage(), Stage::Trace);
    assert_eq!(RenderError::BufferSizeMismatch { expected: 1, actual: 0 }.stage(), Stage::Merge);
}
