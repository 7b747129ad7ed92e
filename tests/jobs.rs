use raytrace::job::{create_jobs, Job};

#[test]
fn construct_jobs() {
    let first = Job::new(0..1, 0..50);
    let last = Job::new(99..100, 0..50);

    let jobs = create_jobs(100, 50);
    for j in &jobs {
        println!(
            "{} {} : {} {}",
            j.height_range.start, j.height_range.end, j.width_range.start, j.width_range.end
        );
    }
    // One job per row.
    assert_eq!(100, jobs.len());
    assert!(jobs.contains(&first));
    assert!(jobs.contains(&last));
}

#[test]
fn construct_jobs10() {
    let first = Job::new(0..1, 0..100);
    let last = Job::new(199..200, 0..100);

    let jobs = create_jobs(200, 100);
    for j in &jobs {
        println!(
            "{} {} : {} {}",
            j.height_range.start, j.height_range.end, j.width_range.start, j.width_range.end
        );
    }
    // One job per row.
    assert_eq!(200, jobs.len());
    assert!(jobs.contains(&first));
    assert!(jobs.contains(&last));
}

#[test]
fn jobs_run_from_top_row_to_bottom_row() {
    let jobs = create_jobs(100, 50);
    assert_eq!(jobs.len(), 100);
    assert!(jobs[0] == Job::new(99..100, 0..50));
    assert!(jobs[99] == Job::new(0..1, 0..50));
    for (k, j) in jobs.iter().enumerate() {
        assert_eq!(j.height_range.start, 99 - k);
        assert_eq!(j.height_range.end, 100 - k);
        assert_eq!(j.width_range, 0..50);
    }
}

#[test]
fn jobs_cover_every_pixel_once() {
    let (height, width) = (100usize, 50usize);
    let jobs = create_jobs(height, width);
    let mut seen = vec![0u32; height * width];
    for j in &jobs {
        for row in j.height_range.clone() {
            for col in j.width_range.clone() {
                seen[row * width + col] += 1;
            }
        }
    }
    assert!(seen.iter().all(|&c| c == 1));
}

#[test]
fn empty_image_has_no_jobs() {
    assert!(create_jobs(0, 10).is_empty());
    let jobs = create_jobs(3, 0);
    assert_eq!(jobs.len(), 3);
    assert!(jobs.iter().all(|j| j.width_range.is_empty()));
}

#[test]
fn job_pixels_run_down_rows_and_across_columns() {
    let job = Job::new(3..5, 1..4);
    assert_eq!(job.pixels(), vec![(4, 1), (4, 2), (4, 3), (3, 1), (3, 2), (3, 3)]);
    assert!(Job::new(5..5, 0..4).pixels().is_empty());
    assert!(Job::new(0..2, 3..3).pixels().is_empty());
}

#[test]
fn row_jobs_pixels_cover_image_in_output_order() {
    let jobs = create_jobs(3, 2);
    let order: Vec<(usize, usize)> = jobs.iter().flat_map(|j| j.pixels()).collect();
    assert_eq!(order, vec![(2, 0), (2, 1), (1, 0), (1, 1), (0, 0), (0, 1)]);
}
