use rand::Rng;
use sorting_contest::array::{Buffer, TargetArray};
use sorting_contest::bucket::{bucket_sort, SortError};
use sorting_contest::context::Context;
use sorting_contest::heap::heapsort;
use sorting_contest::insertion::insertion_sort;
use sorting_contest::intro::{depth_limit, introsort};
use sorting_contest::mark::{Mark, MarkType, Value};
use sorting_contest::partition::block_partition;
use sorting_contest::quick::school_quicksort;
use sorting_contest::radix::radixsort;

fn with_view(values: &[i32], f: fn(&TargetArray, &mut Buffer, &mut Context)) -> Vec<i32> {
    let mut buf = Buffer::new(&values.to_vec());
    let view = TargetArray::whole(&buf);
    let mut ctx = Context::new();
    f(&view, &mut buf, &mut ctx);
    buf.values()
}

fn run_introsort(v: &TargetArray, b: &mut Buffer, c: &mut Context) {
    introsort(v, b, c)
}

fn run_heapsort(v: &TargetArray, b: &mut Buffer, c: &mut Context) {
    heapsort(v, b, c)
}

fn run_quicksort(v: &TargetArray, b: &mut Buffer, c: &mut Context) {
    school_quicksort(v, b, c)
}

fn run_insertion(v: &TargetArray, b: &mut Buffer, _c: &mut Context) {
    insertion_sort(v, b)
}

fn run_radix(v: &TargetArray, b: &mut Buffer, _c: &mut Context) {
    radixsort(v, b)
}

fn run_bucket(values: &[i32]) -> (Result<(), SortError>, Vec<i32>) {
    let mut buf = Buffer::new(&values.to_vec());
    let view = TargetArray::whole(&buf);
    let r = bucket_sort(&view, &mut buf);
    (r, buf.values())
}

fn reference(values: &[i32]) -> Vec<i32> {
    let mut v = values.to_vec();
    v.sort_unstable();
    v
}

fn check_scenarios(f: fn(&TargetArray, &mut Buffer, &mut Context)) {
    let empty: [i32; 0] = [];
    assert_eq!(with_view(&empty, f), Vec::<i32>::new());
    assert_eq!(with_view(&[0], f), vec![0]);
    assert_eq!(with_view(&[1, 2], f), vec![1, 2]);
    assert_eq!(with_view(&[5, 8, 9, 3, 5], f), vec![3, 5, 5, 8, 9]);
    assert_eq!(
        with_view(&[10, 9, 8, 7, 6, 5, 4, 3, 2, 1], f),
        vec![1, 2, 3, 4, 5, 6, 7, 8, 9, 10]
    );
}

fn check_random(f: fn(&TargetArray, &mut Buffer, &mut Context), rounds: usize, len: usize) {
    let mut rng = rand::thread_rng();
    for _ in 0..rounds {
        let data: Vec<i32> = (0..len).map(|_| rng.gen()).collect();
        assert_eq!(with_view(&data, f), reference(&data));
    }
}

#[test]
fn e() {
    let buf_values: Vec<i32> = (1..=5).collect();
    let mut buf = Buffer::new(&buf_values);
    let t = TargetArray::whole(&buf);
    assert_eq!(t.len(), 5);

    let (a, b) = t.split_at(2);
    assert_eq!(a.range(), 0..2);
    assert_eq!(a.len(), 2);

    assert_eq!(b.range(), 2..5);
    assert_eq!(b.len(), 3);

    assert_eq!(a.get(&mut buf, 0), 1);
    assert_eq!(a.get(&mut buf, 1), 2);

    assert_eq!(b.get(&mut buf, 0), 3);
    assert_eq!(b.get(&mut buf, 1), 4);
    assert_eq!(b.get(&mut buf, 2), 5);

    let (c, d) = b.split_at(1);
    assert_eq!(c.len(), 1);
    assert_eq!(c.range(), 2..3);
    assert_eq!(d.len(), 2);
    assert_eq!(d.range(), 3..5);
    assert_eq!(c.get(&mut buf, 0), 3);
    assert_eq!(d.get(&mut buf, 0), 4);
    assert_eq!(d.get(&mut buf, 1), 5);
}

#[test]
fn view_access_marks_elements() {
    let mut buf = Buffer::new(&vec![4, 7, 1]);
    let t = TargetArray::whole(&buf);
    assert_eq!(buf.mark_type(0), MarkType::Unmarked);
    assert_eq!(t.get(&mut buf, 1), 7);
    assert_eq!(buf.mark_type(1), MarkType::Read);
    assert_eq!(t.get_pivot(&mut buf, 2), 1);
    assert_eq!(buf.mark_type(2), MarkType::Pivot);
    t.set(&mut buf, 0, 9);
    assert_eq!(buf.mark_type(0), MarkType::Write);
    assert_eq!(buf.values(), vec![9, 7, 1]);
    t.swap(&mut buf, 1, 2);
    assert_eq!(buf.values(), vec![9, 1, 7]);
    assert_eq!(buf.mark_type(1), MarkType::Write);
    assert_eq!(buf.mark_type(2), MarkType::Write);
    buf.tick_marks(2);
    assert_eq!(buf.mark_type(1), MarkType::Write);
    buf.tick_marks(2);
    assert_eq!(buf.mark_type(1), MarkType::Unmarked);
    assert_eq!(buf.values(), vec![9, 1, 7]);
}

#[test]
fn view_writes_stay_in_range() {
    let mut buf = Buffer::new(&vec![1, 2, 3, 4, 5, 6]);
    let (_, right) = TargetArray::whole(&buf).split_at(3);
    right.set(&mut buf, 0, 40);
    right.swap(&mut buf, 1, 2);
    assert_eq!(buf.values(), vec![1, 2, 3, 40, 6, 5]);
}

#[test]
fn mark_lifecycle() {
    let mut m = Mark::new(MarkType::Read);
    assert_eq!(m.ty, MarkType::Read);
    assert_eq!(m.frames, 0);
    m.tick(3);
    assert_eq!(m.frames, 1);
    m.set(MarkType::Write);
    assert_eq!(m, Mark { ty: MarkType::Write, frames: 0 });
    m.reset();
    assert_eq!(m.ty, MarkType::Unmarked);
    let v = Value::new(-3);
    assert_eq!(v.value, -3);
    assert_eq!(v.mark.ty, MarkType::Unmarked);
}

#[test]
fn context_counts_events() {
    let mut ctx = Context::new();
    assert_eq!(ctx.phase_name, "");
    ctx.set_phase("build the heap");
    assert_eq!(ctx.phase_name, "build the heap");
    ctx.compare();
    ctx.compare();
    ctx.swap();
    ctx.write();
    assert_eq!((ctx.compare, ctx.swap, ctx.write), (2, 1, 1));
    ctx.reset();
    assert_eq!((ctx.compare, ctx.swap, ctx.write), (0, 0, 0));
    assert_eq!(ctx.phase_name, "build the heap");
}

#[test]
fn context_counter_saturates() {
    let mut ctx = Context::new();
    ctx.swap = usize::MAX;
    ctx.swap();
    assert_eq!(ctx.swap, usize::MAX);
}

#[test]
fn test_mysort() {
    check_scenarios(run_introsort);
}

#[test]
fn introsort_matches_reference() {
    check_scenarios(run_introsort);
    assert_eq!(
        with_view(&[5, 4, 3, 2, 1, 0, -1, -2, -3, -4, -5], run_introsort),
        vec![-5, -4, -3, -2, -1, 0, 1, 2, 3, 4, 5]
    );
    check_random(run_introsort, 5, 3000);
}

#[test]
fn introsort_many_duplicates() {
    let mut rng = rand::thread_rng();
    let data: Vec<i32> = (0..5000).map(|_| rng.gen_range(0..4)).collect();
    assert_eq!(with_view(&data, run_introsort), reference(&data));
    let equal = vec![7; 4000];
    assert_eq!(with_view(&equal, run_introsort), equal);
}

#[test]
fn heapsort_matches_reference() {
    check_scenarios(run_heapsort);
    check_random(run_heapsort, 5, 3000);
}

#[test]
fn insertion_sort_matches_reference() {
    check_scenarios(run_insertion);
    check_random(run_insertion, 2, 500);
}

#[test]
fn school_quicksort_matches_reference() {
    check_scenarios(run_quicksort);
    check_random(run_quicksort, 5, 3000);
    let equal = vec![3; 1000];
    assert_eq!(with_view(&equal, run_quicksort), equal);
}

#[test]
fn sort_is_idempotent() {
    let mut rng = rand::thread_rng();
    let data: Vec<i32> = (0..2000).map(|_| rng.gen_range(-100..100)).collect();
    let once = with_view(&data, run_introsort);
    let twice = with_view(&once, run_introsort);
    assert_eq!(once, twice);
}

#[test]
fn sort_fixed_points() {
    let empty: [i32; 0] = [];
    assert_eq!(with_view(&empty, run_introsort), Vec::<i32>::new());
    assert_eq!(with_view(&[-42], run_introsort), vec![-42]);
    assert_eq!(with_view(&[i32::MAX], run_heapsort), vec![i32::MAX]);
}

fn check_partition(values: &[i32], pivot: i32) -> usize {
    let mut buf = Buffer::new(&values.to_vec());
    let view = TargetArray::whole(&buf);
    let mut ctx = Context::new();
    let k = block_partition(&view, &mut buf, pivot, &mut ctx);
    let out = buf.values();
    assert!(out[..k].iter().all(|&x| x <= pivot));
    assert!(out[k..].iter().all(|&x| x >= pivot));
    assert_eq!(reference(&out), reference(values));
    k
}

#[test]
fn block_partition_makes_progress() {
    let mut rng = rand::thread_rng();
    for _ in 0..200 {
        let len = rng.gen_range(2..1200);
        let data: Vec<i32> = (0..len).map(|_| rng.gen_range(-50..50)).collect();
        let pivot = data[rng.gen_range(0..len)];
        let k = check_partition(&data, pivot);
        assert!(0 < k && k < len);
    }
}

#[test]
fn block_partition_pivot_at_an_end() {
    assert_eq!(check_partition(&[1, 5, 6], 1), 1);
    assert_eq!(check_partition(&[6, 5, 1], 6), 2);
    let mut data: Vec<i32> = (0..1000).collect();
    let k = check_partition(&data, 999);
    assert!(0 < k && k < 1000);
    data.reverse();
    let k = check_partition(&data, 0);
    assert!(0 < k && k < 1000);
}

#[test]
fn block_partition_all_equal() {
    for len in [2usize, 3, 255, 256, 257, 1000] {
        let data = vec![9; len];
        let k = check_partition(&data, 9);
        assert!(0 < k && k < len);
    }
}

#[test]
fn bucket_sort_matches_reference() {
    let empty: [i32; 0] = [];
    assert_eq!(run_bucket(&empty), (Ok(()), vec![]));
    assert_eq!(run_bucket(&[0]), (Ok(()), vec![0]));
    assert_eq!(run_bucket(&[1, 2]), (Ok(()), vec![1, 2]));
    assert_eq!(run_bucket(&[5, 8, 9, 3, 5]), (Ok(()), vec![3, 5, 5, 8, 9]));
    assert_eq!(
        run_bucket(&[10, 9, 8, 7, 6, 5, 4, 3, 2, 1]),
        (Ok(()), vec![1, 2, 3, 4, 5, 6, 7, 8, 9, 10])
    );
    assert_eq!(
        run_bucket(&[5, 4, 3, 2, 1, 0, -1, -2, -3, -4, -5]),
        (Ok(()), vec![-5, -4, -3, -2, -1, 0, 1, 2, 3, 4, 5])
    );
    let mut rng = rand::thread_rng();
    for _ in 0..20 {
        let len = rng.gen_range(0..3000);
        let data: Vec<i32> = (0..len).map(|_| rng.gen_range(-64000..=64000)).collect();
        assert_eq!(run_bucket(&data), (Ok(()), reference(&data)));
    }
}

#[test]
fn bucket_sort_rejects_wide_spread() {
    assert_eq!(run_bucket(&[0, 128_001]), (Err(SortError::SpreadTooLarge), vec![0, 128_001]));
    assert_eq!(
        run_bucket(&[i32::MAX, 3, i32::MIN]),
        (Err(SortError::SpreadTooLarge), vec![i32::MAX, 3, i32::MIN])
    );
    assert_eq!(run_bucket(&[128_000, 0]), (Ok(()), vec![0, 128_000]));
    assert_eq!(run_bucket(&[-64_000, 64_000]), (Ok(()), vec![-64_000, 64_000]));
}

#[test]
fn radixsort_orders_non_negative_values() {
    check_scenarios(run_radix);
    let mut rng = rand::thread_rng();
    let data: Vec<i32> = (0..3000).map(|_| rng.gen_range(0..i32::MAX)).collect();
    assert_eq!(with_view(&data, run_radix), reference(&data));
    assert_eq!(with_view(&[0, 0, 0], run_radix), vec![0, 0, 0]);
}

#[test]
fn radixsort_orders_by_bit_pattern() {
    assert_eq!(with_view(&[-1, 1, 0, i32::MIN], run_radix), vec![0, 1, i32::MIN, -1]);
}

#[test]
fn depth_limit_is_twice_log2() {
    assert_eq!(depth_limit(0), 0);
    assert_eq!(depth_limit(1), 0);
    assert_eq!(depth_limit(2), 2);
    assert_eq!(depth_limit(3), 2);
    assert_eq!(depth_limit(8), 6);
    assert_eq!(depth_limit(1000), 18);
}

#[test]
fn pivot_guard_marks_and_releases() {
    let mut buf = Buffer::new(&vec![3, 8, 5]);
    let (_, right) = TargetArray::whole(&buf).split_at(1);
    let guard = right.acquire_pivot(&mut buf, 1);
    assert_eq!(guard.value(), 5);
    assert_eq!(guard.index, 2);
    assert_eq!(buf.mark_type(2), MarkType::Pivot);
    guard.release(&mut buf);
    assert_eq!(buf.mark_type(2), MarkType::Unmarked);
    assert_eq!(buf.values(), vec![3, 8, 5]);
}

#[test]
fn view_access_touches_only_its_elements() {
    let mut buf = Buffer::new(&vec![1, 2, 3, 4]);
    let t = TargetArray::whole(&buf);
    t.get(&mut buf, 0);
    buf.tick_marks(5);
    assert_eq!(buf.data[0].mark, Mark { ty: MarkType::Read, frames: 1 });
    t.swap(&mut buf, 2, 3);
    assert_eq!(buf.data[0].mark, Mark { ty: MarkType::Read, frames: 1 });
    assert_eq!(buf.data[1].mark, Mark { ty: MarkType::Unmarked, frames: 1 });
    assert_eq!(buf.data[2].mark, Mark { ty: MarkType::Write, frames: 0 });
    buf.tick_marks(5);
    t.set(&mut buf, 2, 7);
    assert_eq!(buf.data[2].mark, Mark { ty: MarkType::Write, frames: 0 });
    assert_eq!(buf.data[3].mark, Mark { ty: MarkType::Write, frames: 1 });
    assert_eq!(buf.data[0].mark, Mark { ty: MarkType::Read, frames: 2 });
    t.get(&mut buf, 0);
    assert_eq!(buf.data[0].mark, Mark { ty: MarkType::Read, frames: 0 });
    assert_eq!(buf.values(), vec![1, 2, 7, 3]);
}

#[test]
fn block_partition_all_equal_keeps_values() {
    let data = vec![4; 700];
    let mut buf = Buffer::new(&data);
    let view = TargetArray::whole(&buf);
    let mut ctx = Context::new();
    let k = block_partition(&view, &mut buf, 4, &mut ctx);
    assert!(0 < k && k < 700);
    assert_eq!(buf.values(), data);
}
